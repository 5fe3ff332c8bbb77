//! The JSON mirror of the two stores: a deterministic encoder and a parser
//! for the two persisted documents (an array of vocabulary entries, an array
//! of day records), with a proof that parsing an encoded store gives back
//! exactly the sequence that was encoded.
//!
//! The encoder emits compact JSON with the fields in their fixed order. The
//! parser accepts whitespace between tokens, the usual two-character string
//! escapes, control characters written as `\u00XX`, and `null` for the
//! optional fields, so it also reads documents written with extra
//! formatting.

use vstd::prelude::*;

use crate::StoreError;
use crate::activity::{ActivityStore, Date, DateView, views_of_dates};
use crate::shims::chars_to_string;
use crate::word::{VocabStore, Word, WordView, views_of_words};
use vstd::string::StrSliceExecFns;

verus! {

// ---------------------------------------------------------------------
// Characters and tokens
// ---------------------------------------------------------------------

/// JSON insignificant whitespace.
pub open spec fn is_ws(c: char) -> bool {
    c == ' ' || c == '\n' || c == '\r' || c == '\t'
}

/// Value of a decimal digit character, or -1 for any other character.
pub open spec fn digit_val(c: char) -> int {
    if c == '0' {
        0
    } else if c == '1' {
        1
    } else if c == '2' {
        2
    } else if c == '3' {
        3
    } else if c == '4' {
        4
    } else if c == '5' {
        5
    } else if c == '6' {
        6
    } else if c == '7' {
        7
    } else if c == '8' {
        8
    } else if c == '9' {
        9
    } else {
        -1
    }
}

pub open spec fn is_digit(c: char) -> bool {
    digit_val(c) != -1
}

/// The decimal digit character for a value below ten.
pub open spec fn digit_char(d: int) -> char {
    if d == 0 {
        '0'
    } else if d == 1 {
        '1'
    } else if d == 2 {
        '2'
    } else if d == 3 {
        '3'
    } else if d == 4 {
        '4'
    } else if d == 5 {
        '5'
    } else if d == 6 {
        '6'
    } else if d == 7 {
        '7'
    } else if d == 8 {
        '8'
    } else {
        '9'
    }
}

/// Value of a hexadecimal digit character, either case, or -1 otherwise.
pub open spec fn hex_val(c: char) -> int {
    if c == 'a' || c == 'A' {
        10
    } else if c == 'b' || c == 'B' {
        11
    } else if c == 'c' || c == 'C' {
        12
    } else if c == 'd' || c == 'D' {
        13
    } else if c == 'e' || c == 'E' {
        14
    } else if c == 'f' || c == 'F' {
        15
    } else {
        digit_val(c)
    }
}

/// The lower-case hexadecimal digit character for a value below sixteen.
pub open spec fn hex_char(d: int) -> char {
    if d == 10 {
        'a'
    } else if d == 11 {
        'b'
    } else if d == 12 {
        'c'
    } else if d == 13 {
        'd'
    } else if d == 14 {
        'e'
    } else if d == 15 {
        'f'
    } else {
        digit_char(d)
    }
}

/// First position at or after `i` that does not hold whitespace.
pub open spec fn skip_ws(s: Seq<char>, i: int) -> int
    decreases s.len() - i,
{
    if 0 <= i < s.len() && is_ws(s[i]) {
        skip_ws(s, i + 1)
    } else {
        i
    }
}

pub broadcast proof fn lemma_skip_ws_bounds(s: Seq<char>, i: int)
    requires
        0 <= i <= s.len(),
    ensures
        i <= #[trigger] skip_ws(s, i) <= s.len(),
        skip_ws(s, i) < s.len() ==> !is_ws(s[skip_ws(s, i)]),
    decreases s.len() - i,
{
    if i < s.len() && is_ws(s[i]) {
        lemma_skip_ws_bounds(s, i + 1);
    }
}

/// One expected character.
pub open spec fn expect(s: Seq<char>, i: int, c: char) -> Option<int> {
    if 0 <= i < s.len() && s[i] == c {
        Some(i + 1)
    } else {
        None
    }
}

/// An expected literal run of characters.
pub open spec fn expect_lit(s: Seq<char>, i: int, lit: Seq<char>) -> Option<int> {
    if 0 <= i && i + lit.len() <= s.len() && s.subrange(i, i + lit.len()) == lit {
        Some(i + lit.len())
    } else {
        None
    }
}

/// One expected character after optional whitespace.
pub open spec fn tok_char(s: Seq<char>, i: int, c: char) -> Option<int> {
    expect(s, skip_ws(s, i), c)
}

/// An expected literal after optional whitespace.
pub open spec fn tok_lit(s: Seq<char>, i: int, lit: Seq<char>) -> Option<int> {
    expect_lit(s, skip_ws(s, i), lit)
}

// ---------------------------------------------------------------------
// Numbers
// ---------------------------------------------------------------------

/// First position at or after `i` that does not hold a decimal digit.
pub open spec fn digits_end(s: Seq<char>, i: int) -> int
    decreases s.len() - i,
{
    if 0 <= i < s.len() && is_digit(s[i]) {
        digits_end(s, i + 1)
    } else {
        i
    }
}

pub broadcast proof fn lemma_digits_end_bounds(s: Seq<char>, i: int)
    requires
        0 <= i <= s.len(),
    ensures
        i <= #[trigger] digits_end(s, i) <= s.len(),
        forall|m: int| i <= m < digits_end(s, i) ==> is_digit(s[m]),
        digits_end(s, i) < s.len() ==> !is_digit(s[digits_end(s, i)]),
    decreases s.len() - i,
{
    if i < s.len() && is_digit(s[i]) {
        lemma_digits_end_bounds(s, i + 1);
    }
}

/// Value of the digit run `s[i..j)`, read as a decimal number.
pub open spec fn digits_val(s: Seq<char>, i: int, j: int) -> int
    decreases j - i,
{
    if j <= i {
        0
    } else {
        digits_val(s, i, j - 1) * 10 + digit_val(s[j - 1])
    }
}

/// A longer digit run never names a smaller number.
pub proof fn lemma_digits_val_monotone(s: Seq<char>, i: int, k: int, j: int)
    requires
        0 <= i <= k <= j <= s.len(),
        forall|m: int| i <= m < j ==> is_digit(#[trigger] s[m]),
    ensures
        0 <= digits_val(s, i, k) <= digits_val(s, i, j),
    decreases j - k,
{
    if k < j {
        lemma_digits_val_monotone(s, i, k, j - 1);
        assert(is_digit(s[j - 1]));
    } else {
        lemma_digits_val_nonneg(s, i, k);
    }
}

pub proof fn lemma_digits_val_nonneg(s: Seq<char>, i: int, j: int)
    requires
        0 <= i <= j <= s.len(),
        forall|m: int| i <= m < j ==> is_digit(#[trigger] s[m]),
    ensures
        digits_val(s, i, j) >= 0,
    decreases j - i,
{
    if i < j {
        lemma_digits_val_nonneg(s, i, j - 1);
        assert(is_digit(s[j - 1]));
    }
}

/// A decimal number: a nonempty digit run whose value fits in `u32`.
pub open spec fn parse_u32(s: Seq<char>, i: int) -> Option<(u32, int)> {
    let j = digits_end(s, i);
    if j == i {
        None
    } else {
        let v = digits_val(s, i, j);
        if v <= u32::MAX {
            Some((v as u32, j))
        } else {
            None
        }
    }
}

/// The decimal digits of a number, most significant first.
pub open spec fn dec_digits(n: nat) -> Seq<char>
    decreases n,
{
    if n < 10 {
        seq![digit_char(n as int)]
    } else {
        dec_digits(n / 10).push(digit_char((n % 10) as int))
    }
}

pub open spec fn enc_u32(n: u32) -> Seq<char> {
    dec_digits(n as nat)
}

// ---------------------------------------------------------------------
// Strings
// ---------------------------------------------------------------------

/// How one character is written inside a JSON string: quote, backslash and
/// the common control characters are escaped, everything else stands for
/// itself.
pub open spec fn esc_char(c: char) -> Seq<char> {
    if c == '"' {
        seq!['\\', '"']
    } else if c == '\\' {
        seq!['\\', '\\']
    } else if c == '\n' {
        seq!['\\', 'n']
    } else if c == '\t' {
        seq!['\\', 't']
    } else if c == '\r' {
        seq!['\\', 'r']
    } else if c == '\u{0008}' {
        seq!['\\', 'b']
    } else if c == '\u{000C}' {
        seq!['\\', 'f']
    } else if (c as u32) < 32 {
        seq![
            '\\',
            'u',
            '0',
            '0',
            hex_char((c as u32) as int / 16),
            hex_char((c as u32) as int % 16),
        ]
    } else {
        seq![c]
    }
}

pub open spec fn enc_str_body(s: Seq<char>) -> Seq<char>
    decreases s.len(),
{
    if s.len() == 0 {
        Seq::empty()
    } else {
        esc_char(s[0]) + enc_str_body(s.drop_first())
    }
}

/// A string value: the escaped body between double quotes.
pub open spec fn enc_string(s: Seq<char>) -> Seq<char> {
    seq!['"'] + enc_str_body(s) + seq!['"']
}

/// The character an escape letter stands for, if it is a recognized one.
pub open spec fn unesc(c: char) -> Option<char> {
    if c == '"' {
        Some('"')
    } else if c == '\\' {
        Some('\\')
    } else if c == '/' {
        Some('/')
    } else if c == 'n' {
        Some('\n')
    } else if c == 't' {
        Some('\t')
    } else if c == 'r' {
        Some('\r')
    } else if c == 'b' {
        Some('\u{0008}')
    } else if c == 'f' {
        Some('\u{000C}')
    } else {
        None
    }
}

/// The characters of a string value read from position `i`, which stands
/// just after the opening quote, up to and past the closing quote.
pub open spec fn parse_str_body(s: Seq<char>, i: int) -> Option<(Seq<char>, int)>
    decreases s.len() - i,
{
    if i < 0 || i >= s.len() {
        None
    } else if s[i] == '"' {
        Some((Seq::empty(), i + 1))
    } else if s[i] == '\\' {
        if i + 1 < s.len() {
            if s[i + 1] == 'u' {
                if i + 5 < s.len() && s[i + 2] == '0' && s[i + 3] == '0' && hex_val(s[i + 4]) >= 0
                    && hex_val(s[i + 5]) >= 0 && hex_val(s[i + 4]) * 16 + hex_val(s[i + 5]) < 32 {
                    let c = ((hex_val(s[i + 4]) * 16 + hex_val(s[i + 5])) as u32) as char;
                    match parse_str_body(s, i + 6) {
                        Some((t, j)) => Some((seq![c] + t, j)),
                        None => None,
                    }
                } else {
                    None
                }
            } else {
                match unesc(s[i + 1]) {
                    Some(c) => match parse_str_body(s, i + 2) {
                        Some((t, j)) => Some((seq![c] + t, j)),
                        None => None,
                    },
                    None => None,
                }
            }
        } else {
            None
        }
    } else {
        match parse_str_body(s, i + 1) {
            Some((t, j)) => Some((seq![s[i]] + t, j)),
            None => None,
        }
    }
}

pub broadcast proof fn lemma_parse_str_body_bounds(s: Seq<char>, i: int)
    ensures
        match #[trigger] parse_str_body(s, i) {
            Some((cs, j)) => i < j <= s.len(),
            None => true,
        },
    decreases s.len() - i,
{
    if 0 <= i < s.len() {
        if s[i] == '\\' {
            if i + 1 < s.len() {
                if s[i + 1] == 'u' {
                    if i + 5 < s.len() {
                        lemma_parse_str_body_bounds(s, i + 6);
                    }
                } else {
                    lemma_parse_str_body_bounds(s, i + 2);
                }
            }
        } else {
            lemma_parse_str_body_bounds(s, i + 1);
        }
    }
}

/// A string value starting at its opening quote.
pub open spec fn parse_string(s: Seq<char>, i: int) -> Option<(Seq<char>, int)> {
    if 0 <= i < s.len() && s[i] == '"' {
        parse_str_body(s, i + 1)
    } else {
        None
    }
}

// ---------------------------------------------------------------------
// Object keys and fields
// ---------------------------------------------------------------------

pub open spec fn lit_null() -> Seq<char> {
    seq!['n', 'u', 'l', 'l']
}

pub open spec fn key_id() -> Seq<char> {
    seq!['"', 'i', 'd', '"']
}

pub open spec fn key_vocabulary() -> Seq<char> {
    seq!['"', 'v', 'o', 'c', 'a', 'b', 'u', 'l', 'a', 'r', 'y', '"']
}

pub open spec fn key_meaning() -> Seq<char> {
    seq!['"', 'm', 'e', 'a', 'n', 'i', 'n', 'g', '"']
}

pub open spec fn key_translate() -> Seq<char> {
    seq!['"', 't', 'r', 'a', 'n', 's', 'l', 'a', 't', 'e', '"']
}

pub open spec fn key_category() -> Seq<char> {
    seq!['"', 'c', 'a', 't', 'e', 'g', 'o', 'r', 'y', '"']
}

pub open spec fn key_example() -> Seq<char> {
    seq!['"', 'e', 'x', 'a', 'm', 'p', 'l', 'e', '"']
}

pub open spec fn key_date() -> Seq<char> {
    seq!['"', 'd', 'a', 't', 'e', '"']
}

pub open spec fn key_add() -> Seq<char> {
    seq!['"', 'a', 'd', 'd', '"']
}

pub open spec fn key_update() -> Seq<char> {
    seq!['"', 'u', 'p', 'd', 'a', 't', 'e', '"']
}

pub open spec fn key_quiz() -> Seq<char> {
    seq!['"', 'q', 'u', 'i', 'z', '"']
}

/// A `"key": number` field.
pub open spec fn field_u32(s: Seq<char>, i: int, key: Seq<char>) -> Option<(u32, int)> {
    match tok_lit(s, i, key) {
        None => None,
        Some(j) => match tok_char(s, j, ':') {
            None => None,
            Some(k) => parse_u32(s, skip_ws(s, k)),
        },
    }
}

/// A `"key": string` field.
pub open spec fn field_str(s: Seq<char>, i: int, key: Seq<char>) -> Option<(Seq<char>, int)> {
    match tok_lit(s, i, key) {
        None => None,
        Some(j) => match tok_char(s, j, ':') {
            None => None,
            Some(k) => parse_string(s, skip_ws(s, k)),
        },
    }
}

/// A `"key": string-or-null` field.
pub open spec fn field_opt_str(s: Seq<char>, i: int, key: Seq<char>) -> Option<
    (Option<Seq<char>>, int),
> {
    match tok_lit(s, i, key) {
        None => None,
        Some(j) => match tok_char(s, j, ':') {
            None => None,
            Some(k) => {
                let p = skip_ws(s, k);
                match expect_lit(s, p, lit_null()) {
                    Some(q) => Some((None, q)),
                    None => match parse_string(s, p) {
                        Some((cs, q)) => Some((Some(cs), q)),
                        None => None,
                    },
                }
            },
        },
    }
}

/// A `"key": number-or-null` field.
pub open spec fn field_opt_u32(s: Seq<char>, i: int, key: Seq<char>) -> Option<
    (Option<u32>, int),
> {
    match tok_lit(s, i, key) {
        None => None,
        Some(j) => match tok_char(s, j, ':') {
            None => None,
            Some(k) => {
                let p = skip_ws(s, k);
                match expect_lit(s, p, lit_null()) {
                    Some(q) => Some((None, q)),
                    None => match parse_u32(s, p) {
                        Some((v, q)) => Some((Some(v), q)),
                        None => None,
                    },
                }
            },
        },
    }
}

// ---------------------------------------------------------------------
// The vocabulary document
// ---------------------------------------------------------------------

/// One vocabulary object, fields in their fixed order.
pub open spec fn parse_word(s: Seq<char>, i: int) -> Option<(WordView, int)> {
    match tok_char(s, i, '{') {
        None => None,
        Some(i0) => match field_u32(s, i0, key_id()) {
            None => None,
            Some((id, i1)) => match tok_char(s, i1, ',') {
                None => None,
                Some(i2) => match field_str(s, i2, key_vocabulary()) {
                    None => None,
                    Some((vocabulary, i3)) => match tok_char(s, i3, ',') {
                        None => None,
                        Some(i4) => match field_str(s, i4, key_meaning()) {
                            None => None,
                            Some((meaning, i5)) => match tok_char(s, i5, ',') {
                                None => None,
                                Some(i6) => match field_str(s, i6, key_translate()) {
                                    None => None,
                                    Some((translate, i7)) => match tok_char(s, i7, ',') {
                                        None => None,
                                        Some(i8) => match field_str(s, i8, key_category()) {
                                            None => None,
                                            Some((category, i9)) => match tok_char(s, i9, ',') {
                                                None => None,
                                                Some(i10) => match field_opt_str(
                                                    s,
                                                    i10,
                                                    key_example(),
                                                ) {
                                                    None => None,
                                                    Some((example, i11)) => match tok_char(
                                                        s,
                                                        i11,
                                                        '}',
                                                    ) {
                                                        None => None,
                                                        Some(i12) => Some(
                                                            (
                                                                WordView {
                                                                    id,
                                                                    vocabulary,
                                                                    meaning,
                                                                    translate,
                                                                    category,
                                                                    example,
                                                                },
                                                                i12,
                                                            ),
                                                        ),
                                                    },
                                                },
                                            },
                                        },
                                    },
                                },
                            },
                        },
                    },
                },
            },
        },
    }
}

pub proof fn lemma_parse_word_bounds(s: Seq<char>, i: int)
    requires
        0 <= i <= s.len(),
    ensures
        match parse_word(s, i) {
            Some((w, j)) => i < j <= s.len(),
            None => true,
        },
{
    broadcast use lemma_skip_ws_bounds, lemma_digits_end_bounds, lemma_parse_str_body_bounds;

}

/// The items of the vocabulary array from the first object on, each
/// separated by a comma, ending at the closing bracket.
pub open spec fn parse_words_from(s: Seq<char>, i: int) -> Option<(Seq<WordView>, int)>
    decreases s.len() - i,
    when 0 <= i <= s.len()
    via parse_words_from_decreases
{
    match parse_word(s, i) {
        None => None,
        Some((w, j)) => {
            let k = skip_ws(s, j);
            if k < s.len() && s[k] == ',' {
                match parse_words_from(s, k + 1) {
                    None => None,
                    Some((ws, m)) => Some((seq![w] + ws, m)),
                }
            } else if k < s.len() && s[k] == ']' {
                Some((seq![w], k + 1))
            } else {
                None
            }
        },
    }
}

#[via_fn]
proof fn parse_words_from_decreases(s: Seq<char>, i: int) {
    broadcast use lemma_skip_ws_bounds;

    lemma_parse_word_bounds(s, i);
}

/// The whole vocabulary document: one array of vocabulary objects and
/// nothing else around it.
pub open spec fn parse_words(s: Seq<char>) -> Option<Seq<WordView>> {
    match tok_char(s, 0, '[') {
        None => None,
        Some(i) => {
            let k = skip_ws(s, i);
            if k < s.len() && s[k] == ']' {
                if skip_ws(s, k + 1) == s.len() {
                    Some(Seq::empty())
                } else {
                    None
                }
            } else if 0 <= k <= s.len() {
                match parse_words_from(s, k) {
                    None => None,
                    Some((ws, m)) => {
                        if skip_ws(s, m) == s.len() {
                            Some(ws)
                        } else {
                            None
                        }
                    },
                }
            } else {
                None
            }
        },
    }
}

/// One `"key": value` member of an encoded object.
pub open spec fn enc_field(key: Seq<char>, value: Seq<char>) -> Seq<char> {
    key + seq![':'] + value
}

/// One encoded vocabulary object.
pub open spec fn enc_word(w: WordView) -> Seq<char> {
    seq!['{'] + enc_field(key_id(), enc_u32(w.id)) + seq![','] + enc_field(
        key_vocabulary(),
        enc_string(w.vocabulary),
    ) + seq![','] + enc_field(key_meaning(), enc_string(w.meaning)) + seq![','] + enc_field(
        key_translate(),
        enc_string(w.translate),
    ) + seq![','] + enc_field(key_category(), enc_string(w.category)) + seq![','] + enc_field(
        key_example(),
        enc_opt_string(w.example),
    ) + seq!['}']
}

pub open spec fn enc_opt_string(o: Option<Seq<char>>) -> Seq<char> {
    match o {
        None => lit_null(),
        Some(s) => enc_string(s),
    }
}

pub open spec fn enc_opt_u32(o: Option<u32>) -> Seq<char> {
    match o {
        None => lit_null(),
        Some(n) => enc_u32(n),
    }
}

/// The encoded items of the vocabulary array, comma separated.
pub open spec fn enc_words_body(ws: Seq<WordView>) -> Seq<char>
    decreases ws.len(),
{
    if ws.len() == 0 {
        Seq::empty()
    } else if ws.len() == 1 {
        enc_word(ws[0])
    } else {
        enc_word(ws[0]) + seq![','] + enc_words_body(ws.drop_first())
    }
}

/// The whole encoded vocabulary document.
pub open spec fn enc_words(ws: Seq<WordView>) -> Seq<char> {
    seq!['['] + enc_words_body(ws) + seq![']']
}

// ---------------------------------------------------------------------
// The activity document
// ---------------------------------------------------------------------

/// One day-record object, fields in their fixed order.
pub open spec fn parse_date(s: Seq<char>, i: int) -> Option<(DateView, int)> {
    match tok_char(s, i, '{') {
        None => None,
        Some(i0) => match field_str(s, i0, key_date()) {
            None => None,
            Some((date, i1)) => match tok_char(s, i1, ',') {
                None => None,
                Some(i2) => match field_u32(s, i2, key_add()) {
                    None => None,
                    Some((add, i3)) => match tok_char(s, i3, ',') {
                        None => None,
                        Some(i4) => match field_u32(s, i4, key_update()) {
                            None => None,
                            Some((update, i5)) => match tok_char(s, i5, ',') {
                                None => None,
                                Some(i6) => match field_opt_u32(s, i6, key_quiz()) {
                                    None => None,
                                    Some((quiz, i7)) => match tok_char(s, i7, '}') {
                                        None => None,
                                        Some(i8) => Some(
                                            (DateView { date, add, update, quiz }, i8),
                                        ),
                                    },
                                },
                            },
                        },
                    },
                },
            },
        },
    }
}

pub proof fn lemma_parse_date_bounds(s: Seq<char>, i: int)
    requires
        0 <= i <= s.len(),
    ensures
        match parse_date(s, i) {
            Some((d, j)) => i < j <= s.len(),
            None => true,
        },
{
    broadcast use lemma_skip_ws_bounds, lemma_digits_end_bounds, lemma_parse_str_body_bounds;

}

/// The items of the activity array from the first object on.
pub open spec fn parse_dates_from(s: Seq<char>, i: int) -> Option<(Seq<DateView>, int)>
    decreases s.len() - i,
    when 0 <= i <= s.len()
    via parse_dates_from_decreases
{
    match parse_date(s, i) {
        None => None,
        Some((d, j)) => {
            let k = skip_ws(s, j);
            if k < s.len() && s[k] == ',' {
                match parse_dates_from(s, k + 1) {
                    None => None,
                    Some((ds, m)) => Some((seq![d] + ds, m)),
                }
            } else if k < s.len() && s[k] == ']' {
                Some((seq![d], k + 1))
            } else {
                None
            }
        },
    }
}

#[via_fn]
proof fn parse_dates_from_decreases(s: Seq<char>, i: int) {
    broadcast use lemma_skip_ws_bounds;

    lemma_parse_date_bounds(s, i);
}

/// The whole activity document.
pub open spec fn parse_dates(s: Seq<char>) -> Option<Seq<DateView>> {
    match tok_char(s, 0, '[') {
        None => None,
        Some(i) => {
            let k = skip_ws(s, i);
            if k < s.len() && s[k] == ']' {
                if skip_ws(s, k + 1) == s.len() {
                    Some(Seq::empty())
                } else {
                    None
                }
            } else if 0 <= k <= s.len() {
                match parse_dates_from(s, k) {
                    None => None,
                    Some((ds, m)) => {
                        if skip_ws(s, m) == s.len() {
                            Some(ds)
                        } else {
                            None
                        }
                    },
                }
            } else {
                None
            }
        },
    }
}

/// One encoded day-record object.
pub open spec fn enc_date(d: DateView) -> Seq<char> {
    seq!['{'] + enc_field(key_date(), enc_string(d.date)) + seq![','] + enc_field(
        key_add(),
        enc_u32(d.add),
    ) + seq![','] + enc_field(key_update(), enc_u32(d.update)) + seq![','] + enc_field(
        key_quiz(),
        enc_opt_u32(d.quiz),
    ) + seq!['}']
}

/// The encoded items of the activity array, comma separated.
pub open spec fn enc_dates_body(ds: Seq<DateView>) -> Seq<char>
    decreases ds.len(),
{
    if ds.len() == 0 {
        Seq::empty()
    } else if ds.len() == 1 {
        enc_date(ds[0])
    } else {
        enc_date(ds[0]) + seq![','] + enc_dates_body(ds.drop_first())
    }
}

/// The whole encoded activity document.
pub open spec fn enc_dates(ds: Seq<DateView>) -> Seq<char> {
    seq!['['] + enc_dates_body(ds) + seq![']']
}

// ---------------------------------------------------------------------
// Executable helpers
// ---------------------------------------------------------------------

/// The characters of a string slice, gathered one by one.
fn str_to_chars(s: &str) -> (r: Vec<char>)
    ensures
        r@ == s@,
{
    let n = s.unicode_len();
    let mut r: Vec<char> = Vec::new();
    let mut i: usize = 0;
    while i < n
        invariant
            i <= n,
            n == s@.len(),
            r@ =~= s@.subrange(0, i as int),
        decreases n - i,
    {
        r.push(s.get_char(i));
        assert(r@ =~= s@.subrange(0, i + 1));
        i += 1;
    }
    assert(r@ =~= s@);
    r
}

fn is_ws_x(c: char) -> (r: bool)
    ensures
        r == is_ws(c),
{
    c == ' ' || c == '\n' || c == '\r' || c == '\t'
}

fn digit_of(c: char) -> (r: Option<u32>)
    ensures
        r is Some <==> is_digit(c),
        r is Some ==> r->0 == digit_val(c),
{
    match c {
        '0' => Some(0),
        '1' => Some(1),
        '2' => Some(2),
        '3' => Some(3),
        '4' => Some(4),
        '5' => Some(5),
        '6' => Some(6),
        '7' => Some(7),
        '8' => Some(8),
        '9' => Some(9),
        _ => None,
    }
}

fn digit_char_x(d: u32) -> (r: char)
    requires
        d < 10,
    ensures
        r == digit_char(d as int),
{
    match d {
        0 => '0',
        1 => '1',
        2 => '2',
        3 => '3',
        4 => '4',
        5 => '5',
        6 => '6',
        7 => '7',
        8 => '8',
        _ => '9',
    }
}

fn hex_digit_of(c: char) -> (r: Option<u32>)
    ensures
        r is Some <==> hex_val(c) >= 0,
        r is Some ==> r->0 == hex_val(c),
{
    match c {
        '0' => Some(0),
        '1' => Some(1),
        '2' => Some(2),
        '3' => Some(3),
        '4' => Some(4),
        '5' => Some(5),
        '6' => Some(6),
        '7' => Some(7),
        '8' => Some(8),
        '9' => Some(9),
        'a' | 'A' => Some(10),
        'b' | 'B' => Some(11),
        'c' | 'C' => Some(12),
        'd' | 'D' => Some(13),
        'e' | 'E' => Some(14),
        'f' | 'F' => Some(15),
        _ => None,
    }
}

fn hex_char_x(d: u32) -> (r: char)
    requires
        d < 16,
    ensures
        r == hex_char(d as int),
{
    match d {
        0 => '0',
        1 => '1',
        2 => '2',
        3 => '3',
        4 => '4',
        5 => '5',
        6 => '6',
        7 => '7',
        8 => '8',
        9 => '9',
        10 => 'a',
        11 => 'b',
        12 => 'c',
        13 => 'd',
        14 => 'e',
        _ => 'f',
    }
}

fn skip_ws_x(s: &Vec<char>, i: usize) -> (r: usize)
    requires
        i <= s.len(),
    ensures
        r == skip_ws(s@, i as int),
        i <= r <= s.len(),
    decreases s.len() - i,
{
    if i < s.len() && is_ws_x(s[i]) {
        skip_ws_x(s, i + 1)
    } else {
        i
    }
}

fn digits_end_x(s: &Vec<char>, i: usize) -> (r: usize)
    requires
        i <= s.len(),
    ensures
        r == digits_end(s@, i as int),
        i <= r <= s.len(),
    decreases s.len() - i,
{
    if i < s.len() && digit_of(s[i]).is_some() {
        digits_end_x(s, i + 1)
    } else {
        i
    }
}

fn parse_u32_x(s: &Vec<char>, i: usize) -> (r: Option<(u32, usize)>)
    requires
        i <= s.len(),
    ensures
        ({
            let sp = parse_u32(s@, i as int);
            match r {
                Some((v, j)) => sp == Some((v, j as int)) && i < j <= s.len(),
                None => sp is None,
            }
        }),
{
    let j = digits_end_x(s, i);
    proof {
        lemma_digits_end_bounds(s@, i as int);
    }
    if j == i {
        return None;
    }
    let mut k: usize = i;
    let mut v: u32 = 0;
    while k < j
        invariant
            i <= k <= j <= s.len(),
            j == digits_end(s@, i as int),
            forall|m: int| i <= m < j ==> is_digit(#[trigger] s@[m]),
            v == digits_val(s@, i as int, k as int),
        decreases j - k,
    {
        let d = match digit_of(s[k]) {
            Some(d) => d,
            None => {
                proof {
                    assert(false);
                }
                0
            },
        };
        if v > (u32::MAX - d) / 10 {
            proof {
                assert(digits_val(s@, i as int, k as int + 1) == v * 10 + d);
                assert(v * 10 + d > u32::MAX);
                lemma_digits_val_monotone(s@, i as int, k as int + 1, j as int);
            }
            return None;
        }
        proof {
            assert(v * 10 + d <= u32::MAX);
        }
        v = v * 10 + d;
        k += 1;
    }
    Some((v, j))
}

fn parse_str_body_x(s: &Vec<char>, i: usize) -> (r: Option<(Vec<char>, usize)>)
    requires
        i <= s.len(),
    ensures
        ({
            let sp = parse_str_body(s@, i as int);
            match r {
                Some((cs, j)) => sp == Some((cs@, j as int)) && i < j <= s.len(),
                None => sp is None,
            }
        }),
    decreases s.len() - i,
{
    if i >= s.len() {
        return None;
    }
    let c = s[i];
    if c == '"' {
        let empty: Vec<char> = Vec::new();
        assert(empty@ =~= Seq::<char>::empty());
        return Some((empty, i + 1));
    }
    if c == '\\' {
        if i + 1 >= s.len() {
            return None;
        }
        let e = s[i + 1];
        if e == 'u' {
            if s.len() - i <= 5 || s[i + 2] != '0' || s[i + 3] != '0' {
                return None;
            }
            let h3 = match hex_digit_of(s[i + 4]) {
                Some(h) => h,
                None => {
                    return None;
                },
            };
            let h4 = match hex_digit_of(s[i + 5]) {
                Some(h) => h,
                None => {
                    return None;
                },
            };
            let v = h3 * 16 + h4;
            if v >= 32 {
                return None;
            }
            let u: char = (v as u8) as char;
            proof {
                assert(u == ((hex_val(s@[i + 4]) * 16 + hex_val(s@[i + 5])) as u32) as char);
            }
            return match parse_str_body_x(s, i + 6) {
                Some((t, j)) => {
                    let mut t = t;
                    let ghost t0 = t@;
                    t.insert(0, u);
                    assert(t@ =~= seq![u] + t0);
                    Some((t, j))
                },
                None => None,
            };
        }
        let ok = e == '"' || e == '\\' || e == '/' || e == 'n' || e == 't' || e == 'r' || e == 'b'
            || e == 'f';
        if !ok {
            return None;
        }
        let u: char = if e == '"' {
            '"'
        } else if e == '\\' {
            '\\'
        } else if e == '/' {
            '/'
        } else if e == 'n' {
            '\n'
        } else if e == 't' {
            '\t'
        } else if e == 'r' {
            '\r'
        } else if e == 'b' {
            '\u{0008}'
        } else {
            '\u{000C}'
        };
        assert(unesc(e) == Some(u));
        match parse_str_body_x(s, i + 2) {
            Some((t, j)) => {
                let mut t = t;
                let ghost t0 = t@;
                t.insert(0, u);
                assert(t@ =~= seq![u] + t0);
                Some((t, j))
            },
            None => None,
        }
    } else {
        match parse_str_body_x(s, i + 1) {
            Some((t, j)) => {
                let mut t = t;
                let ghost t0 = t@;
                t.insert(0, c);
                assert(t@ =~= seq![c] + t0);
                Some((t, j))
            },
            None => None,
        }
    }
}

fn parse_string_x(s: &Vec<char>, i: usize) -> (r: Option<(Vec<char>, usize)>)
    requires
        i <= s.len(),
    ensures
        ({
            let sp = parse_string(s@, i as int);
            match r {
                Some((cs, j)) => sp == Some((cs@, j as int)) && i < j <= s.len(),
                None => sp is None,
            }
        }),
{
    if i < s.len() && s[i] == '"' {
        parse_str_body_x(s, i + 1)
    } else {
        None
    }
}

fn expect_lit_x(s: &Vec<char>, i: usize, lit: &Vec<char>) -> (r: Option<usize>)
    requires
        i <= s.len(),
    ensures
        ({
            let sp = expect_lit(s@, i as int, lit@);
            match r {
                Some(j) => sp == Some(j as int) && i <= j <= s.len(),
                None => sp is None,
            }
        }),
{
    if lit.len() > s.len() - i {
        return None;
    }
    let mut m: usize = 0;
    while m < lit.len()
        invariant
            i + lit.len() <= s.len(),
            m <= lit.len(),
            forall|k: int| 0 <= k < m ==> s@[i + k] == lit@[k],
        decreases lit.len() - m,
    {
        if s[i + m] != lit[m] {
            proof {
                assert(s@.subrange(i as int, i as int + lit@.len())[m as int] != lit@[m as int]);
            }
            return None;
        }
        m += 1;
    }
    proof {
        assert(s@.subrange(i as int, i as int + lit@.len()) =~= lit@);
    }
    Some(i + lit.len())
}

fn tok_char_x(s: &Vec<char>, i: usize, c: char) -> (r: Option<usize>)
    requires
        i <= s.len(),
    ensures
        ({
            let sp = tok_char(s@, i as int, c);
            match r {
                Some(j) => sp == Some(j as int) && i < j <= s.len(),
                None => sp is None,
            }
        }),
{
    let k = skip_ws_x(s, i);
    if k < s.len() && s[k] == c {
        Some(k + 1)
    } else {
        None
    }
}

fn tok_lit_x(s: &Vec<char>, i: usize, lit: &Vec<char>) -> (r: Option<usize>)
    requires
        i <= s.len(),
    ensures
        ({
            let sp = tok_lit(s@, i as int, lit@);
            match r {
                Some(j) => sp == Some(j as int) && i <= j <= s.len(),
                None => sp is None,
            }
        }),
{
    let k = skip_ws_x(s, i);
    expect_lit_x(s, k, lit)
}

fn lit_null_x() -> (r: Vec<char>)
    ensures
        r@ == lit_null(),
{
    let v = vec!['n', 'u', 'l', 'l'];
    assert(v@ =~= lit_null());
    v
}

fn field_u32_x(s: &Vec<char>, i: usize, key: &Vec<char>) -> (r: Option<(u32, usize)>)
    requires
        i <= s.len(),
    ensures
        ({
            let sp = field_u32(s@, i as int, key@);
            match r {
                Some((v, j)) => sp == Some((v, j as int)) && i <= j <= s.len(),
                None => sp is None,
            }
        }),
{
    let j = match tok_lit_x(s, i, key) {
        Some(j) => j,
        None => {
            return None;
        },
    };
    let k = match tok_char_x(s, j, ':') {
        Some(k) => k,
        None => {
            return None;
        },
    };
    let p = skip_ws_x(s, k);
    parse_u32_x(s, p)
}

fn field_str_x(s: &Vec<char>, i: usize, key: &Vec<char>) -> (r: Option<(Vec<char>, usize)>)
    requires
        i <= s.len(),
    ensures
        ({
            let sp = field_str(s@, i as int, key@);
            match r {
                Some((cs, j)) => sp == Some((cs@, j as int)) && i <= j <= s.len(),
                None => sp is None,
            }
        }),
{
    let j = match tok_lit_x(s, i, key) {
        Some(j) => j,
        None => {
            return None;
        },
    };
    let k = match tok_char_x(s, j, ':') {
        Some(k) => k,
        None => {
            return None;
        },
    };
    let p = skip_ws_x(s, k);
    parse_string_x(s, p)
}

fn field_opt_str_x(s: &Vec<char>, i: usize, key: &Vec<char>) -> (r: Option<
    (Option<Vec<char>>, usize),
>)
    requires
        i <= s.len(),
    ensures
        ({
            let sp = field_opt_str(s@, i as int, key@);
            match r {
                Some((Some(cs), j)) => sp == Some((Some(cs@), j as int)) && i <= j <= s.len(),
                Some((None, j)) => sp == Some((None::<Seq<char>>, j as int)) && i <= j <= s.len(),
                None => sp is None,
            }
        }),
{
    let j = match tok_lit_x(s, i, key) {
        Some(j) => j,
        None => {
            return None;
        },
    };
    let k = match tok_char_x(s, j, ':') {
        Some(k) => k,
        None => {
            return None;
        },
    };
    let p = skip_ws_x(s, k);
    let null_lit = lit_null_x();
    match expect_lit_x(s, p, &null_lit) {
        Some(q) => Some((None, q)),
        None => match parse_string_x(s, p) {
            Some((cs, q)) => Some((Some(cs), q)),
            None => None,
        },
    }
}

fn field_opt_u32_x(s: &Vec<char>, i: usize, key: &Vec<char>) -> (r: Option<(Option<u32>, usize)>)
    requires
        i <= s.len(),
    ensures
        ({
            let sp = field_opt_u32(s@, i as int, key@);
            match r {
                Some((v, j)) => sp == Some((v, j as int)) && i <= j <= s.len(),
                None => sp is None,
            }
        }),
{
    let j = match tok_lit_x(s, i, key) {
        Some(j) => j,
        None => {
            return None;
        },
    };
    let k = match tok_char_x(s, j, ':') {
        Some(k) => k,
        None => {
            return None;
        },
    };
    let p = skip_ws_x(s, k);
    let null_lit = lit_null_x();
    match expect_lit_x(s, p, &null_lit) {
        Some(q) => Some((None, q)),
        None => match parse_u32_x(s, p) {
            Some((v, q)) => Some((Some(v), q)),
            None => None,
        },
    }
}

// ---------------------------------------------------------------------
// Executable object and array parsers
// ---------------------------------------------------------------------

fn key_id_x() -> (r: Vec<char>)
    ensures
        r@ == key_id(),
{
    let v = vec!['"', 'i', 'd', '"'];
    assert(v@ =~= key_id());
    v
}

fn key_vocabulary_x() -> (r: Vec<char>)
    ensures
        r@ == key_vocabulary(),
{
    let v = vec!['"', 'v', 'o', 'c', 'a', 'b', 'u', 'l', 'a', 'r', 'y', '"'];
    assert(v@ =~= key_vocabulary());
    v
}

fn key_meaning_x() -> (r: Vec<char>)
    ensures
        r@ == key_meaning(),
{
    let v = vec!['"', 'm', 'e', 'a', 'n', 'i', 'n', 'g', '"'];
    assert(v@ =~= key_meaning());
    v
}

fn key_translate_x() -> (r: Vec<char>)
    ensures
        r@ == key_translate(),
{
    let v = vec!['"', 't', 'r', 'a', 'n', 's', 'l', 'a', 't', 'e', '"'];
    assert(v@ =~= key_translate());
    v
}

fn key_category_x() -> (r: Vec<char>)
    ensures
        r@ == key_category(),
{
    let v = vec!['"', 'c', 'a', 't', 'e', 'g', 'o', 'r', 'y', '"'];
    assert(v@ =~= key_category());
    v
}

fn key_example_x() -> (r: Vec<char>)
    ensures
        r@ == key_example(),
{
    let v = vec!['"', 'e', 'x', 'a', 'm', 'p', 'l', 'e', '"'];
    assert(v@ =~= key_example());
    v
}

fn key_date_x() -> (r: Vec<char>)
    ensures
        r@ == key_date(),
{
    let v = vec!['"', 'd', 'a', 't', 'e', '"'];
    assert(v@ =~= key_date());
    v
}

fn key_add_x() -> (r: Vec<char>)
    ensures
        r@ == key_add(),
{
    let v = vec!['"', 'a', 'd', 'd', '"'];
    assert(v@ =~= key_add());
    v
}

fn key_update_x() -> (r: Vec<char>)
    ensures
        r@ == key_update(),
{
    let v = vec!['"', 'u', 'p', 'd', 'a', 't', 'e', '"'];
    assert(v@ =~= key_update());
    v
}

fn key_quiz_x() -> (r: Vec<char>)
    ensures
        r@ == key_quiz(),
{
    let v = vec!['"', 'q', 'u', 'i', 'z', '"'];
    assert(v@ =~= key_quiz());
    v
}

fn parse_word_x(s: &Vec<char>, i: usize) -> (r: Option<(Word, usize)>)
    requires
        i <= s.len(),
    ensures
        ({
            let sp = parse_word(s@, i as int);
            match r {
                Some((w, j)) => sp == Some((w@, j as int)) && i < j <= s.len(),
                None => sp is None,
            }
        }),
{
    let i0 = match tok_char_x(s, i, '{') {
        Some(j) => j,
        None => {
            return None;
        },
    };
    let key = key_id_x();
    let (id, i1) = match field_u32_x(s, i0, &key) {
        Some(p) => p,
        None => {
            return None;
        },
    };
    let i2 = match tok_char_x(s, i1, ',') {
        Some(j) => j,
        None => {
            return None;
        },
    };
    let key = key_vocabulary_x();
    let (vocabulary, i3) = match field_str_x(s, i2, &key) {
        Some(p) => p,
        None => {
            return None;
        },
    };
    let i4 = match tok_char_x(s, i3, ',') {
        Some(j) => j,
        None => {
            return None;
        },
    };
    let key = key_meaning_x();
    let (meaning, i5) = match field_str_x(s, i4, &key) {
        Some(p) => p,
        None => {
            return None;
        },
    };
    let i6 = match tok_char_x(s, i5, ',') {
        Some(j) => j,
        None => {
            return None;
        },
    };
    let key = key_translate_x();
    let (translate, i7) = match field_str_x(s, i6, &key) {
        Some(p) => p,
        None => {
            return None;
        },
    };
    let i8 = match tok_char_x(s, i7, ',') {
        Some(j) => j,
        None => {
            return None;
        },
    };
    let key = key_category_x();
    let (category, i9) = match field_str_x(s, i8, &key) {
        Some(p) => p,
        None => {
            return None;
        },
    };
    let i10 = match tok_char_x(s, i9, ',') {
        Some(j) => j,
        None => {
            return None;
        },
    };
    let key = key_example_x();
    let (example, i11) = match field_opt_str_x(s, i10, &key) {
        Some(p) => p,
        None => {
            return None;
        },
    };
    let i12 = match tok_char_x(s, i11, '}') {
        Some(j) => j,
        None => {
            return None;
        },
    };
    let w = Word {
        id,
        vocabulary: chars_to_string(&vocabulary),
        meaning: chars_to_string(&meaning),
        translate: chars_to_string(&translate),
        category: chars_to_string(&category),
        example: match example {
            Some(cs) => Some(chars_to_string(&cs)),
            None => None,
        },
    };
    proof {
        assert(w@ =~= WordView {
            id,
            vocabulary: vocabulary@,
            meaning: meaning@,
            translate: translate@,
            category: category@,
            example: match example {
                Some(ref cs) => Some(cs@),
                None => None,
            },
        });
    }
    Some((w, i12))
}

fn parse_date_x(s: &Vec<char>, i: usize) -> (r: Option<(Date, usize)>)
    requires
        i <= s.len(),
    ensures
        ({
            let sp = parse_date(s@, i as int);
            match r {
                Some((d, j)) => sp == Some((d@, j as int)) && i < j <= s.len(),
                None => sp is None,
            }
        }),
{
    let i0 = match tok_char_x(s, i, '{') {
        Some(j) => j,
        None => {
            return None;
        },
    };
    let key = key_date_x();
    let (date, i1) = match field_str_x(s, i0, &key) {
        Some(p) => p,
        None => {
            return None;
        },
    };
    let i2 = match tok_char_x(s, i1, ',') {
        Some(j) => j,
        None => {
            return None;
        },
    };
    let key = key_add_x();
    let (add, i3) = match field_u32_x(s, i2, &key) {
        Some(p) => p,
        None => {
            return None;
        },
    };
    let i4 = match tok_char_x(s, i3, ',') {
        Some(j) => j,
        None => {
            return None;
        },
    };
    let key = key_update_x();
    let (update, i5) = match field_u32_x(s, i4, &key) {
        Some(p) => p,
        None => {
            return None;
        },
    };
    let i6 = match tok_char_x(s, i5, ',') {
        Some(j) => j,
        None => {
            return None;
        },
    };
    let key = key_quiz_x();
    let (quiz, i7) = match field_opt_u32_x(s, i6, &key) {
        Some(p) => p,
        None => {
            return None;
        },
    };
    let i8 = match tok_char_x(s, i7, '}') {
        Some(j) => j,
        None => {
            return None;
        },
    };
    let d = Date { date: chars_to_string(&date), add, update, quiz };
    proof {
        assert(d@ =~= DateView { date: date@, add, update, quiz });
    }
    Some((d, i8))
}

fn parse_words_from_x(s: &Vec<char>, i: usize) -> (r: Option<(Vec<Word>, usize)>)
    requires
        i <= s.len(),
    ensures
        ({
            let sp = parse_words_from(s@, i as int);
            match r {
                Some((ws, j)) => sp == Some((views_of_words(ws@), j as int)) && j <= s.len(),
                None => sp is None,
            }
        }),
    decreases s.len() - i,
{
    let (w, j) = match parse_word_x(s, i) {
        Some(p) => p,
        None => {
            return None;
        },
    };
    let k = skip_ws_x(s, j);
    if k < s.len() && s[k] == ',' {
        match parse_words_from_x(s, k + 1) {
            Some((ws, m)) => {
                let mut ws = ws;
                let ghost tail = ws@;
                ws.insert(0, w);
                proof {
                    assert(ws@ =~= seq![w] + tail);
                    assert(views_of_words(ws@) =~= seq![w@] + views_of_words(tail));
                }
                Some((ws, m))
            },
            None => None,
        }
    } else if k < s.len() && s[k] == ']' {
        let mut ws: Vec<Word> = Vec::new();
        ws.push(w);
        proof {
            assert(views_of_words(ws@) =~= seq![w@]);
        }
        Some((ws, k + 1))
    } else {
        None
    }
}

fn parse_dates_from_x(s: &Vec<char>, i: usize) -> (r: Option<(Vec<Date>, usize)>)
    requires
        i <= s.len(),
    ensures
        ({
            let sp = parse_dates_from(s@, i as int);
            match r {
                Some((ds, j)) => sp == Some((views_of_dates(ds@), j as int)) && j <= s.len(),
                None => sp is None,
            }
        }),
    decreases s.len() - i,
{
    let (d, j) = match parse_date_x(s, i) {
        Some(p) => p,
        None => {
            return None;
        },
    };
    let k = skip_ws_x(s, j);
    if k < s.len() && s[k] == ',' {
        match parse_dates_from_x(s, k + 1) {
            Some((ds, m)) => {
                let mut ds = ds;
                let ghost tail = ds@;
                ds.insert(0, d);
                proof {
                    assert(ds@ =~= seq![d] + tail);
                    assert(views_of_dates(ds@) =~= seq![d@] + views_of_dates(tail));
                }
                Some((ds, m))
            },
            None => None,
        }
    } else if k < s.len() && s[k] == ']' {
        let mut ds: Vec<Date> = Vec::new();
        ds.push(d);
        proof {
            assert(views_of_dates(ds@) =~= seq![d@]);
        }
        Some((ds, k + 1))
    } else {
        None
    }
}

/// The vocabulary entries a persisted document holds, exactly when the
/// parser accepts it.
pub fn words_from_json(s: &str) -> (r: Result<Vec<Word>, StoreError>)
    ensures
        ({
            let sp = parse_words(s@);
            match r {
                Ok(ws) => sp == Some(views_of_words(ws@)),
                Err(e) => sp is None && e == StoreError::ParseFailure,
            }
        }),
{
    let cs = str_to_chars(s);
    let i = match tok_char_x(&cs, 0, '[') {
        Some(i) => i,
        None => {
            return Err(StoreError::ParseFailure);
        },
    };
    let k = skip_ws_x(&cs, i);
    if k < cs.len() && cs[k] == ']' {
        if skip_ws_x(&cs, k + 1) == cs.len() {
            let e: Vec<Word> = Vec::new();
            assert(views_of_words(e@) =~= Seq::<WordView>::empty());
            return Ok(e);
        } else {
            return Err(StoreError::ParseFailure);
        }
    }
    match parse_words_from_x(&cs, k) {
        Some((ws, m)) => {
            if skip_ws_x(&cs, m) == cs.len() {
                Ok(ws)
            } else {
                Err(StoreError::ParseFailure)
            }
        },
        None => Err(StoreError::ParseFailure),
    }
}

/// The day records a persisted document holds, exactly when the parser
/// accepts it.
pub fn dates_from_json(s: &str) -> (r: Result<Vec<Date>, StoreError>)
    ensures
        ({
            let sp = parse_dates(s@);
            match r {
                Ok(ds) => sp == Some(views_of_dates(ds@)),
                Err(e) => sp is None && e == StoreError::ParseFailure,
            }
        }),
{
    let cs = str_to_chars(s);
    let i = match tok_char_x(&cs, 0, '[') {
        Some(i) => i,
        None => {
            return Err(StoreError::ParseFailure);
        },
    };
    let k = skip_ws_x(&cs, i);
    if k < cs.len() && cs[k] == ']' {
        if skip_ws_x(&cs, k + 1) == cs.len() {
            let e: Vec<Date> = Vec::new();
            assert(views_of_dates(e@) =~= Seq::<DateView>::empty());
            return Ok(e);
        } else {
            return Err(StoreError::ParseFailure);
        }
    }
    match parse_dates_from_x(&cs, k) {
        Some((ds, m)) => {
            if skip_ws_x(&cs, m) == cs.len() {
                Ok(ds)
            } else {
                Err(StoreError::ParseFailure)
            }
        },
        None => Err(StoreError::ParseFailure),
    }
}

// ---------------------------------------------------------------------
// Executable encoders
// ---------------------------------------------------------------------

fn push_lit_x(out: &mut Vec<char>, lit: &Vec<char>)
    ensures
        final(out)@ == old(out)@ + lit@,
{
    let mut m: usize = 0;
    while m < lit.len()
        invariant
            m <= lit.len(),
            out@ =~= old(out)@ + lit@.subrange(0, m as int),
        decreases lit.len() - m,
    {
        out.push(lit[m]);
        assert(out@ =~= old(out)@ + lit@.subrange(0, m as int + 1));
        m += 1;
    }
    assert(out@ =~= old(out)@ + lit@);
}

fn enc_u32_x(n: u32, out: &mut Vec<char>)
    ensures
        final(out)@ == old(out)@ + enc_u32(n),
    decreases n,
{
    if n < 10 {
        out.push(digit_char_x(n));
        assert(out@ =~= old(out)@ + dec_digits(n as nat));
    } else {
        enc_u32_x(n / 10, out);
        out.push(digit_char_x(n % 10));
        assert(out@ =~= old(out)@ + dec_digits(n as nat));
    }
}

fn enc_str_body_x(cs: &Vec<char>, from: usize, out: &mut Vec<char>)
    requires
        from <= cs.len(),
    ensures
        final(out)@ == old(out)@ + enc_str_body(cs@.subrange(from as int, cs@.len() as int)),
    decreases cs.len() - from,
{
    if from == cs.len() {
        assert(out@ =~= old(out)@ + enc_str_body(cs@.subrange(from as int, cs@.len() as int)));
        return ;
    }
    let c = cs[from];
    if c == '"' {
        out.push('\\');
        out.push('"');
    } else if c == '\\' {
        out.push('\\');
        out.push('\\');
    } else if c == '\n' {
        out.push('\\');
        out.push('n');
    } else if c == '\t' {
        out.push('\\');
        out.push('t');
    } else if c == '\r' {
        out.push('\\');
        out.push('r');
    } else if c == '\u{0008}' {
        out.push('\\');
        out.push('b');
    } else if c == '\u{000C}' {
        out.push('\\');
        out.push('f');
    } else if (c as u32) < 32 {
        out.push('\\');
        out.push('u');
        out.push('0');
        out.push('0');
        let code = c as u32;
        out.push(hex_char_x(code / 16));
        out.push(hex_char_x(code % 16));
    } else {
        out.push(c);
    }
    let ghost mid = out@;
    assert(mid =~= old(out)@ + esc_char(c));
    enc_str_body_x(cs, from + 1, out);
    proof {
        let whole = cs@.subrange(from as int, cs@.len() as int);
        assert(whole.drop_first() =~= cs@.subrange(from as int + 1, cs@.len() as int));
        assert(out@ =~= old(out)@ + enc_str_body(whole));
    }
}

fn enc_string_x(fs: &str, out: &mut Vec<char>)
    ensures
        final(out)@ == old(out)@ + enc_string(fs@),
{
    let cs = str_to_chars(fs);
    out.push('"');
    enc_str_body_x(&cs, 0, out);
    out.push('"');
    proof {
        assert(cs@.subrange(0, cs@.len() as int) =~= fs@);
        assert(out@ =~= old(out)@ + enc_string(fs@));
    }
}

fn enc_opt_string_x(o: &Option<String>, out: &mut Vec<char>)
    ensures
        final(out)@ == old(out)@ + enc_opt_string(
            match o {
                Some(e) => Some(e@),
                None => None,
            },
        ),
{
    match o {
        Some(e) => enc_string_x(e.as_str(), out),
        None => {
            let nl = lit_null_x();
            push_lit_x(out, &nl);
        },
    }
}

fn enc_opt_u32_x(o: &Option<u32>, out: &mut Vec<char>)
    ensures
        final(out)@ == old(out)@ + enc_opt_u32(*o),
{
    match o {
        Some(n) => enc_u32_x(*n, out),
        None => {
            let nl = lit_null_x();
            push_lit_x(out, &nl);
        },
    }
}

#[verifier::rlimit(50)]
fn enc_word_x(w: &Word, out: &mut Vec<char>)
    ensures
        final(out)@ == old(out)@ + enc_word(w@),
{
    out.push('{');
    let key = key_id_x();
    push_lit_x(out, &key);
    out.push(':');
    enc_u32_x(w.id, out);
    out.push(',');
    let key = key_vocabulary_x();
    push_lit_x(out, &key);
    out.push(':');
    enc_string_x(w.vocabulary.as_str(), out);
    out.push(',');
    let key = key_meaning_x();
    push_lit_x(out, &key);
    out.push(':');
    enc_string_x(w.meaning.as_str(), out);
    out.push(',');
    let key = key_translate_x();
    push_lit_x(out, &key);
    out.push(':');
    enc_string_x(w.translate.as_str(), out);
    out.push(',');
    let key = key_category_x();
    push_lit_x(out, &key);
    out.push(':');
    enc_string_x(w.category.as_str(), out);
    out.push(',');
    let key = key_example_x();
    push_lit_x(out, &key);
    out.push(':');
    enc_opt_string_x(&w.example, out);
    out.push('}');
    assert(out@ =~= old(out)@ + enc_word(w@));
}

#[verifier::rlimit(50)]
fn enc_date_x(d: &Date, out: &mut Vec<char>)
    ensures
        final(out)@ == old(out)@ + enc_date(d@),
{
    out.push('{');
    let key = key_date_x();
    push_lit_x(out, &key);
    out.push(':');
    enc_string_x(d.date.as_str(), out);
    out.push(',');
    let key = key_add_x();
    push_lit_x(out, &key);
    out.push(':');
    enc_u32_x(d.add, out);
    out.push(',');
    let key = key_update_x();
    push_lit_x(out, &key);
    out.push(':');
    enc_u32_x(d.update, out);
    out.push(',');
    let key = key_quiz_x();
    push_lit_x(out, &key);
    out.push(':');
    enc_opt_u32_x(&d.quiz, out);
    out.push('}');
    assert(out@ =~= old(out)@ + enc_date(d@));
}

fn enc_words_body_x(words: &Vec<Word>, from: usize, out: &mut Vec<char>)
    requires
        from <= words.len(),
    ensures
        final(out)@ == old(out)@ + enc_words_body(
            views_of_words(words@).subrange(from as int, words@.len() as int),
        ),
    decreases words.len() - from,
{
    let ghost whole = views_of_words(words@).subrange(from as int, words@.len() as int);
    if from == words.len() {
        assert(out@ =~= old(out)@ + enc_words_body(whole));
        return ;
    }
    enc_word_x(&words[from], out);
    if from + 1 == words.len() {
        proof {
            assert(whole.len() == 1);
            assert(whole[0] == words@[from as int]@);
            assert(out@ =~= old(out)@ + enc_words_body(whole));
        }
        return ;
    }
    out.push(',');
    enc_words_body_x(words, from + 1, out);
    proof {
        assert(whole.drop_first() =~= views_of_words(words@).subrange(
            from as int + 1,
            words@.len() as int,
        ));
        assert(whole[0] == words@[from as int]@);
        assert(whole.len() >= 2);
        assert(out@ =~= old(out)@ + enc_words_body(whole));
    }
}

fn enc_dates_body_x(dates: &Vec<Date>, from: usize, out: &mut Vec<char>)
    requires
        from <= dates.len(),
    ensures
        final(out)@ == old(out)@ + enc_dates_body(
            views_of_dates(dates@).subrange(from as int, dates@.len() as int),
        ),
    decreases dates.len() - from,
{
    let ghost whole = views_of_dates(dates@).subrange(from as int, dates@.len() as int);
    if from == dates.len() {
        assert(out@ =~= old(out)@ + enc_dates_body(whole));
        return ;
    }
    enc_date_x(&dates[from], out);
    if from + 1 == dates.len() {
        proof {
            assert(whole.len() == 1);
            assert(whole[0] == dates@[from as int]@);
            assert(out@ =~= old(out)@ + enc_dates_body(whole));
        }
        return ;
    }
    out.push(',');
    enc_dates_body_x(dates, from + 1, out);
    proof {
        assert(whole.drop_first() =~= views_of_dates(dates@).subrange(
            from as int + 1,
            dates@.len() as int,
        ));
        assert(whole[0] == dates@[from as int]@);
        assert(whole.len() >= 2);
        assert(out@ =~= old(out)@ + enc_dates_body(whole));
    }
}

/// The persisted document for a sequence of vocabulary entries.
pub fn words_to_json(words: &Vec<Word>) -> (r: String)
    ensures
        r@ == enc_words(views_of_words(words@)),
{
    let mut out: Vec<char> = Vec::new();
    out.push('[');
    enc_words_body_x(words, 0, &mut out);
    out.push(']');
    proof {
        assert(views_of_words(words@).subrange(0, words@.len() as int) =~= views_of_words(words@));
        assert(out@ =~= enc_words(views_of_words(words@)));
    }
    chars_to_string(&out)
}

/// The persisted document for a sequence of day records.
pub fn dates_to_json(dates: &Vec<Date>) -> (r: String)
    ensures
        r@ == enc_dates(views_of_dates(dates@)),
{
    let mut out: Vec<char> = Vec::new();
    out.push('[');
    enc_dates_body_x(dates, 0, &mut out);
    out.push(']');
    proof {
        assert(views_of_dates(dates@).subrange(0, dates@.len() as int) =~= views_of_dates(dates@));
        assert(out@ =~= enc_dates(views_of_dates(dates@)));
    }
    chars_to_string(&out)
}

// ---------------------------------------------------------------------
// The stores' save and load halves
// ---------------------------------------------------------------------

/// What `save` writes for the vocabulary store: its whole sequence, encoded.
pub fn vocab_to_json(store: &VocabStore) -> (r: String)
    ensures
        r@ == enc_words(store@),
{
    let v = store.list();
    words_to_json(&v)
}

/// What `load` does with a read vocabulary document: on a document the
/// parser accepts, the store is replaced wholesale by its entries; anything
/// else is a parse failure that leaves the store unchanged.
pub fn vocab_load_json(store: &mut VocabStore, s: &str) -> (r: Result<(), StoreError>)
    ensures
        match parse_words(s@) {
            Some(ws) => r == Ok::<(), StoreError>(()) && final(store)@ == ws,
            None => r == Err::<(), StoreError>(StoreError::ParseFailure) && final(store)@ == old(
                store,
            )@,
        },
{
    match words_from_json(s) {
        Ok(ws) => {
            store.replace(ws);
            Ok(())
        },
        Err(_) => Err(StoreError::ParseFailure),
    }
}

/// What `save` writes for the activity store: its whole sequence, encoded.
pub fn activity_to_json(store: &ActivityStore) -> (r: String)
    ensures
        r@ == enc_dates(store@),
{
    let v = store.list();
    dates_to_json(&v)
}

/// What `load` does with a read activity document: on a document the parser
/// accepts, the store is replaced wholesale by its records; anything else is
/// a parse failure that leaves the store unchanged.
pub fn activity_load_json(store: &mut ActivityStore, s: &str) -> (r: Result<(), StoreError>)
    ensures
        match parse_dates(s@) {
            Some(ds) => r == Ok::<(), StoreError>(()) && final(store)@ == ds,
            None => r == Err::<(), StoreError>(StoreError::ParseFailure) && final(store)@ == old(
                store,
            )@,
        },
{
    match dates_from_json(s) {
        Ok(ds) => {
            store.replace(ds);
            Ok(())
        },
        Err(_) => Err(StoreError::ParseFailure),
    }
}

// ---------------------------------------------------------------------
// Round trip: parsing an encoded document gives back what was encoded
// ---------------------------------------------------------------------

proof fn lemma_dec_digits_digits(n: nat)
    ensures
        dec_digits(n).len() >= 1,
        forall|k: int| 0 <= k < dec_digits(n).len() ==> is_digit(#[trigger] dec_digits(n)[k]),
    decreases n,
{
    if n < 10 {
        assert(is_digit(digit_char(n as int)));
    } else {
        lemma_dec_digits_digits(n / 10);
        assert(is_digit(digit_char((n % 10) as int)));
        assert(forall|k: int|
            0 <= k < dec_digits(n).len() - 1 ==> #[trigger] dec_digits(n)[k] == dec_digits(
                n / 10,
            )[k]);
    }
}

proof fn lemma_digits_end_run(s: Seq<char>, i: int, j: int)
    requires
        0 <= i <= j <= s.len(),
        forall|m: int| i <= m < j ==> is_digit(#[trigger] s[m]),
        j == s.len() || !is_digit(s[j]),
    ensures
        digits_end(s, i) == j,
    decreases j - i,
{
    if i < j {
        assert(is_digit(s[i]));
        lemma_digits_end_run(s, i + 1, j);
    }
}

proof fn lemma_digits_val_of_dec(s: Seq<char>, i: int, n: nat)
    requires
        0 <= i,
        i + dec_digits(n).len() <= s.len(),
        s.subrange(i, i + dec_digits(n).len() as int) == dec_digits(n),
    ensures
        digits_val(s, i, i + dec_digits(n).len() as int) == n,
    decreases n,
{
    let L = dec_digits(n).len() as int;
    if n < 10 {
        assert(s[i] == dec_digits(n)[0]) by {
            assert(s.subrange(i, i + L)[0] == s[i]);
        }
        assert(s[i] == digit_char(n as int));
        assert(digit_val(digit_char(n as int)) == n);
        assert(digits_val(s, i, i + 1) == digits_val(s, i, i) * 10 + digit_val(s[i]));
    } else {
        let dd = dec_digits(n / 10);
        assert(dec_digits(n) == dd.push(digit_char((n % 10) as int)));
        assert(s.subrange(i, i + dd.len() as int) =~= dd) by {
            assert forall|k: int|
                0 <= k < dd.len() implies s.subrange(i, i + dd.len() as int)[k] == dd[k] by {
                assert(s.subrange(i, i + L)[k] == s[i + k]);
                assert(s.subrange(i, i + dd.len() as int)[k] == s[i + k]);
                assert(dec_digits(n)[k] == dd[k]);
            }
        }
        lemma_digits_val_of_dec(s, i, n / 10);
        assert(s[i + L - 1] == dec_digits(n)[L - 1]) by {
            assert(s.subrange(i, i + L)[L - 1] == s[i + L - 1]);
        }
        assert(dec_digits(n)[L - 1] == digit_char((n % 10) as int));
        assert(digit_val(digit_char((n % 10) as int)) == n % 10);
        assert(digits_val(s, i, i + L) == digits_val(s, i, i + L - 1) * 10 + digit_val(s[i + L
            - 1]));
        assert(n / 10 * 10 + n % 10 == n);
    }
}

proof fn lemma_parse_u32_at(s: Seq<char>, i: int, n: u32)
    requires
        0 <= i,
        i + enc_u32(n).len() <= s.len(),
        s.subrange(i, i + enc_u32(n).len() as int) == enc_u32(n),
        i + enc_u32(n).len() == s.len() || !is_digit(s[i + enc_u32(n).len()]),
    ensures
        parse_u32(s, i) == Some((n, i + enc_u32(n).len() as int)),
{
    let L = enc_u32(n).len() as int;
    lemma_dec_digits_digits(n as nat);
    assert forall|m: int| i <= m < i + L implies is_digit(#[trigger] s[m]) by {
        assert(s.subrange(i, i + L)[m - i] == s[m]);
        assert(is_digit(dec_digits(n as nat)[m - i]));
    }
    lemma_digits_end_run(s, i, i + L);
    lemma_digits_val_of_dec(s, i, n as nat);
}

proof fn lemma_parse_str_body_at(s: Seq<char>, i: int, cs: Seq<char>)
    requires
        0 <= i,
        i + enc_str_body(cs).len() + 1 <= s.len(),
        s.subrange(i, i + enc_str_body(cs).len() as int + 1) == enc_str_body(cs) + seq!['"'],
    ensures
        parse_str_body(s, i) == Some((cs, i + enc_str_body(cs).len() as int + 1)),
    decreases cs.len(),
{
    let L = enc_str_body(cs).len() as int;
    let e = enc_str_body(cs) + seq!['"'];
    if cs.len() == 0 {
        assert(s[i] == '"') by {
            assert(s.subrange(i, i + L + 1)[0] == s[i]);
            assert(e[0] == '"');
        }
    } else {
        let c = cs[0];
        let rest = cs.drop_first();
        assert(enc_str_body(cs) == esc_char(c) + enc_str_body(rest));
        let d = esc_char(c).len() as int;
        assert(s.subrange(i + d, i + L + 1) =~= enc_str_body(rest) + seq!['"']) by {
            assert forall|k: int|
                0 <= k < L + 1 - d implies s.subrange(i + d, i + L + 1)[k] == (enc_str_body(rest)
                + seq!['"'])[k] by {
                assert(s.subrange(i, i + L + 1)[d + k] == s[i + d + k]);
                assert(s.subrange(i + d, i + L + 1)[k] == s[i + d + k]);
                assert(e[d + k] == (enc_str_body(rest) + seq!['"'])[k]);
            }
        }
        lemma_parse_str_body_at(s, i + d, rest);
        assert(s[i] == e[0]) by {
            assert(s.subrange(i, i + L + 1)[0] == s[i]);
        }
        assert(e[0] == esc_char(c)[0]);
        if d == 2 {
            assert(s[i + 1] == e[1]) by {
                assert(s.subrange(i, i + L + 1)[1] == s[i + 1]);
            }
            assert(e[1] == esc_char(c)[1]);
            assert(s[i] == '\\');
            assert(s[i + 1] != 'u');
            assert(unesc(s[i + 1]) == Some(c));
            assert(seq![c] + rest =~= cs);
        } else if d == 6 {
            assert forall|k: int| 1 <= k < 6 implies s[i + k] == esc_char(c)[k] by {
                assert(s.subrange(i, i + L + 1)[k] == s[i + k]);
                assert(e[k] == esc_char(c)[k]);
            }
            let code = (c as u32) as int;
            let hi = code / 16;
            let lo = code % 16;
            assert(s[i] == '\\' && s[i + 1] == 'u' && s[i + 2] == '0' && s[i + 3] == '0');
            assert(s[i + 4] == hex_char(hi) && s[i + 5] == hex_char(lo));
            assert(0 <= hi < 16 && 0 <= lo < 16);
            assert(hex_val(hex_char(hi)) == hi);
            assert(hex_val(hex_char(lo)) == lo);
            let v = hex_val(s[i + 4]) * 16 + hex_val(s[i + 5]);
            assert(v == code);
            assert(0 <= v < 32);
            assert((v as u32) as char == c) by {
                vstd::utf8::char_u32_cast(c, c as u32);
                assert(v as u32 == c as u32);
            }
            assert(seq![c] + rest =~= cs);
        } else {
            assert(s[i] == c);
            assert(c != '"' && c != '\\');
            assert(seq![c] + rest =~= cs);
        }
    }
}

proof fn lemma_parse_string_at(s: Seq<char>, i: int, cs: Seq<char>)
    requires
        0 <= i,
        i + enc_string(cs).len() <= s.len(),
        s.subrange(i, i + enc_string(cs).len() as int) == enc_string(cs),
    ensures
        parse_string(s, i) == Some((cs, i + enc_string(cs).len() as int)),
{
    let L = enc_string(cs).len() as int;
    let Lb = enc_str_body(cs).len() as int;
    assert(s[i] == '"') by {
        assert(s.subrange(i, i + L)[0] == s[i]);
        assert(enc_string(cs)[0] == '"');
    }
    assert(s.subrange(i + 1, i + 1 + Lb + 1) =~= enc_str_body(cs) + seq!['"']) by {
        assert forall|k: int|
            0 <= k < Lb + 1 implies s.subrange(i + 1, i + 1 + Lb + 1)[k] == (enc_str_body(cs)
            + seq!['"'])[k] by {
            assert(s.subrange(i, i + L)[1 + k] == s[i + 1 + k]);
            assert(s.subrange(i + 1, i + 1 + Lb + 1)[k] == s[i + 1 + k]);
            assert(enc_string(cs)[1 + k] == (enc_str_body(cs) + seq!['"'])[k]);
        }
    }
    lemma_parse_str_body_at(s, i + 1, cs);
}

proof fn lemma_tok_char_at(s: Seq<char>, i: int, c: char)
    requires
        0 <= i < s.len(),
        s[i] == c,
        !is_ws(c),
    ensures
        tok_char(s, i, c) == Some(i + 1),
{
    assert(skip_ws(s, i) == i);
}

proof fn lemma_tok_lit_at(s: Seq<char>, i: int, lit: Seq<char>)
    requires
        0 <= i,
        lit.len() > 0,
        i + lit.len() <= s.len(),
        s.subrange(i, i + lit.len() as int) == lit,
        !is_ws(lit[0]),
    ensures
        tok_lit(s, i, lit) == Some(i + lit.len() as int),
{
    assert(s[i] == lit[0]) by {
        assert(s.subrange(i, i + lit.len() as int)[0] == s[i]);
    }
    assert(skip_ws(s, i) == i);
}

/// Carving a piece out of a known subrange.
proof fn lemma_slice_at(s: Seq<char>, i: int, e: Seq<char>, a: int, b: int)
    requires
        0 <= i,
        i + e.len() <= s.len(),
        s.subrange(i, i + e.len() as int) == e,
        0 <= a <= b <= e.len(),
    ensures
        s.subrange(i + a, i + b) == e.subrange(a, b),
{
    assert(s.subrange(i + a, i + b) =~= e.subrange(a, b)) by {
        assert forall|k: int|
            0 <= k < b - a implies s.subrange(i + a, i + b)[k] == e.subrange(a, b)[k] by {
            assert(s.subrange(i, i + e.len() as int)[a + k] == s[i + a + k]);
            assert(s.subrange(i + a, i + b)[k] == s[i + a + k]);
        }
    }
}

/// The character of a known subrange at one position.
proof fn lemma_char_at(s: Seq<char>, i: int, e: Seq<char>, k: int)
    requires
        0 <= i,
        i + e.len() <= s.len(),
        s.subrange(i, i + e.len() as int) == e,
        0 <= k < e.len(),
    ensures
        s[i + k] == e[k],
{
    assert(s.subrange(i, i + e.len() as int)[k] == s[i + k]);
}

/// A decimal digit is not whitespace.
proof fn lemma_digit_not_ws(c: char)
    requires
        is_digit(c),
    ensures
        !is_ws(c),
{
}

proof fn lemma_field_u32_at(s: Seq<char>, i: int, key: Seq<char>, n: u32)
    requires
        0 <= i,
        key.len() > 0,
        key[0] == '"',
        i + enc_field(key, enc_u32(n)).len() <= s.len(),
        s.subrange(i, i + enc_field(key, enc_u32(n)).len() as int) == enc_field(key, enc_u32(n)),
        i + enc_field(key, enc_u32(n)).len() == s.len() || !is_digit(
            s[i + enc_field(key, enc_u32(n)).len()],
        ),
    ensures
        field_u32(s, i, key) == Some((n, i + enc_field(key, enc_u32(n)).len() as int)),
{
    let e = enc_field(key, enc_u32(n));
    let kl = key.len() as int;
    lemma_slice_at(s, i, e, 0, kl);
    assert(e.subrange(0, kl) =~= key);
    lemma_tok_lit_at(s, i, key);
    lemma_char_at(s, i, e, kl);
    assert(e[kl] == ':');
    lemma_tok_char_at(s, i + kl, ':');
    let p = i + kl + 1;
    lemma_slice_at(s, i, e, kl + 1, e.len() as int);
    assert(e.subrange(kl + 1, e.len() as int) =~= enc_u32(n));
    lemma_dec_digits_digits(n as nat);
    assert(s[p] == enc_u32(n)[0]) by {
        lemma_char_at(s, i, e, kl + 1);
    }
    assert(is_digit(s[p]));
    lemma_digit_not_ws(s[p]);
    assert(skip_ws(s, p) == p);
    lemma_parse_u32_at(s, p, n);
}

proof fn lemma_field_str_at(s: Seq<char>, i: int, key: Seq<char>, cs: Seq<char>)
    requires
        0 <= i,
        key.len() > 0,
        key[0] == '"',
        i + enc_field(key, enc_string(cs)).len() <= s.len(),
        s.subrange(i, i + enc_field(key, enc_string(cs)).len() as int) == enc_field(
            key,
            enc_string(cs),
        ),
    ensures
        field_str(s, i, key) == Some((cs, i + enc_field(key, enc_string(cs)).len() as int)),
{
    let e = enc_field(key, enc_string(cs));
    let kl = key.len() as int;
    lemma_slice_at(s, i, e, 0, kl);
    assert(e.subrange(0, kl) =~= key);
    lemma_tok_lit_at(s, i, key);
    lemma_char_at(s, i, e, kl);
    assert(e[kl] == ':');
    lemma_tok_char_at(s, i + kl, ':');
    let p = i + kl + 1;
    lemma_slice_at(s, i, e, kl + 1, e.len() as int);
    assert(e.subrange(kl + 1, e.len() as int) =~= enc_string(cs));
    assert(s[p] == enc_string(cs)[0]) by {
        lemma_char_at(s, i, e, kl + 1);
    }
    assert(s[p] == '"');
    assert(skip_ws(s, p) == p);
    lemma_parse_string_at(s, p, cs);
}

proof fn lemma_field_opt_str_at(s: Seq<char>, i: int, key: Seq<char>, o: Option<Seq<char>>)
    requires
        0 <= i,
        key.len() > 0,
        key[0] == '"',
        i + enc_field(key, enc_opt_string(o)).len() <= s.len(),
        s.subrange(i, i + enc_field(key, enc_opt_string(o)).len() as int) == enc_field(
            key,
            enc_opt_string(o),
        ),
    ensures
        field_opt_str(s, i, key) == Some((o, i + enc_field(key, enc_opt_string(o)).len() as int)),
{
    let e = enc_field(key, enc_opt_string(o));
    let kl = key.len() as int;
    lemma_slice_at(s, i, e, 0, kl);
    assert(e.subrange(0, kl) =~= key);
    lemma_tok_lit_at(s, i, key);
    lemma_char_at(s, i, e, kl);
    assert(e[kl] == ':');
    lemma_tok_char_at(s, i + kl, ':');
    let p = i + kl + 1;
    lemma_slice_at(s, i, e, kl + 1, e.len() as int);
    assert(e.subrange(kl + 1, e.len() as int) =~= enc_opt_string(o));
    match o {
        None => {
            assert(s.subrange(p, p + 4) == lit_null());
            assert(s[p] == lit_null()[0]) by {
                lemma_char_at(s, i, e, kl + 1);
            }
            assert(skip_ws(s, p) == p);
            assert(expect_lit(s, p, lit_null()) == Some(p + 4));
        },
        Some(cs) => {
            assert(s[p] == enc_string(cs)[0]) by {
                lemma_char_at(s, i, e, kl + 1);
            }
            assert(s[p] == '"');
            assert(skip_ws(s, p) == p);
            assert(expect_lit(s, p, lit_null()) is None) by {
                if 0 <= p && p + 4 <= s.len() && s.subrange(p, p + 4) == lit_null() {
                    assert(s.subrange(p, p + 4)[0] == s[p]);
                    assert(lit_null()[0] == 'n');
                }
            }
            lemma_parse_string_at(s, p, cs);
        },
    }
}

proof fn lemma_field_opt_u32_at(s: Seq<char>, i: int, key: Seq<char>, o: Option<u32>)
    requires
        0 <= i,
        key.len() > 0,
        key[0] == '"',
        i + enc_field(key, enc_opt_u32(o)).len() <= s.len(),
        s.subrange(i, i + enc_field(key, enc_opt_u32(o)).len() as int) == enc_field(
            key,
            enc_opt_u32(o),
        ),
        i + enc_field(key, enc_opt_u32(o)).len() == s.len() || !is_digit(
            s[i + enc_field(key, enc_opt_u32(o)).len()],
        ),
    ensures
        field_opt_u32(s, i, key) == Some((o, i + enc_field(key, enc_opt_u32(o)).len() as int)),
{
    let e = enc_field(key, enc_opt_u32(o));
    let kl = key.len() as int;
    lemma_slice_at(s, i, e, 0, kl);
    assert(e.subrange(0, kl) =~= key);
    lemma_tok_lit_at(s, i, key);
    lemma_char_at(s, i, e, kl);
    assert(e[kl] == ':');
    lemma_tok_char_at(s, i + kl, ':');
    let p = i + kl + 1;
    lemma_slice_at(s, i, e, kl + 1, e.len() as int);
    assert(e.subrange(kl + 1, e.len() as int) =~= enc_opt_u32(o));
    match o {
        None => {
            assert(s.subrange(p, p + 4) == lit_null());
            assert(skip_ws(s, p) == p) by {
                lemma_char_at(s, i, e, kl + 1);
                assert(s[p] == lit_null()[0]);
            }
            assert(expect_lit(s, p, lit_null()) == Some(p + 4));
        },
        Some(n) => {
            lemma_dec_digits_digits(n as nat);
            assert(s[p] == enc_u32(n)[0]) by {
                lemma_char_at(s, i, e, kl + 1);
            }
            assert(is_digit(s[p]));
            lemma_digit_not_ws(s[p]);
            assert(skip_ws(s, p) == p);
            assert(expect_lit(s, p, lit_null()) is None) by {
                if 0 <= p && p + 4 <= s.len() && s.subrange(p, p + 4) == lit_null() {
                    assert(s.subrange(p, p + 4)[0] == s[p]);
                    assert(lit_null()[0] == 'n');
                }
            }
            lemma_parse_u32_at(s, p, n);
        },
    }
}

spec fn w_b1(w: WordView) -> int {
    1 + enc_field(key_id(), enc_u32(w.id)).len() as int
}

spec fn w_b2(w: WordView) -> int {
    w_b1(w) + 1 + enc_field(key_vocabulary(), enc_string(w.vocabulary)).len() as int
}

spec fn w_b3(w: WordView) -> int {
    w_b2(w) + 1 + enc_field(key_meaning(), enc_string(w.meaning)).len() as int
}

spec fn w_b4(w: WordView) -> int {
    w_b3(w) + 1 + enc_field(key_translate(), enc_string(w.translate)).len() as int
}

spec fn w_b5(w: WordView) -> int {
    w_b4(w) + 1 + enc_field(key_category(), enc_string(w.category)).len() as int
}

spec fn w_b6(w: WordView) -> int {
    w_b5(w) + 1 + enc_field(key_example(), enc_opt_string(w.example)).len() as int
}

#[verifier::rlimit(100)]
#[verifier::spinoff_prover]
proof fn lemma_word_slices_a(s: Seq<char>, i: int, w: WordView)
    requires
        0 <= i,
        i + enc_word(w).len() <= s.len(),
        s.subrange(i, i + enc_word(w).len() as int) == enc_word(w),
    ensures
        enc_word(w).len() == w_b6(w) + 1,
        s[i] == '{',
        s.subrange(i + 1, i + w_b1(w)) == enc_field(key_id(), enc_u32(w.id)),
        s[i + w_b1(w)] == ',',
        s.subrange(i + w_b1(w) + 1, i + w_b2(w)) == enc_field(
            key_vocabulary(),
            enc_string(w.vocabulary),
        ),
        s[i + w_b2(w)] == ',',
        s.subrange(i + w_b2(w) + 1, i + w_b3(w)) == enc_field(
            key_meaning(),
            enc_string(w.meaning),
        ),
        s[i + w_b3(w)] == ',',
{
    let e = enc_word(w);
    lemma_char_at(s, i, e, 0);
    lemma_slice_at(s, i, e, 1, w_b1(w));
    assert(e.subrange(1, w_b1(w)) =~= enc_field(key_id(), enc_u32(w.id)));
    lemma_char_at(s, i, e, w_b1(w));
    lemma_slice_at(s, i, e, w_b1(w) + 1, w_b2(w));
    assert(e.subrange(w_b1(w) + 1, w_b2(w)) =~= enc_field(
        key_vocabulary(),
        enc_string(w.vocabulary),
    ));
    lemma_char_at(s, i, e, w_b2(w));
    lemma_slice_at(s, i, e, w_b2(w) + 1, w_b3(w));
    assert(e.subrange(w_b2(w) + 1, w_b3(w)) =~= enc_field(key_meaning(), enc_string(w.meaning)));
    lemma_char_at(s, i, e, w_b3(w));
    assert(e[0] == '{' && e[w_b1(w)] == ',' && e[w_b2(w)] == ',' && e[w_b3(w)] == ',');
}

#[verifier::rlimit(100)]
#[verifier::spinoff_prover]
proof fn lemma_word_slices_b(s: Seq<char>, i: int, w: WordView)
    requires
        0 <= i,
        i + enc_word(w).len() <= s.len(),
        s.subrange(i, i + enc_word(w).len() as int) == enc_word(w),
    ensures
        s.subrange(i + w_b3(w) + 1, i + w_b4(w)) == enc_field(
            key_translate(),
            enc_string(w.translate),
        ),
        s[i + w_b4(w)] == ',',
        s.subrange(i + w_b4(w) + 1, i + w_b5(w)) == enc_field(
            key_category(),
            enc_string(w.category),
        ),
        s[i + w_b5(w)] == ',',
        s.subrange(i + w_b5(w) + 1, i + w_b6(w)) == enc_field(
            key_example(),
            enc_opt_string(w.example),
        ),
        s[i + w_b6(w)] == '}',
{
    let e = enc_word(w);
    lemma_slice_at(s, i, e, w_b3(w) + 1, w_b4(w));
    assert(e.subrange(w_b3(w) + 1, w_b4(w)) =~= enc_field(
        key_translate(),
        enc_string(w.translate),
    ));
    lemma_char_at(s, i, e, w_b4(w));
    lemma_slice_at(s, i, e, w_b4(w) + 1, w_b5(w));
    assert(e.subrange(w_b4(w) + 1, w_b5(w)) =~= enc_field(
        key_category(),
        enc_string(w.category),
    ));
    lemma_char_at(s, i, e, w_b5(w));
    lemma_slice_at(s, i, e, w_b5(w) + 1, w_b6(w));
    assert(e.subrange(w_b5(w) + 1, w_b6(w)) =~= enc_field(
        key_example(),
        enc_opt_string(w.example),
    ));
    lemma_char_at(s, i, e, w_b6(w));
    assert(e[w_b4(w)] == ',' && e[w_b5(w)] == ',' && e[w_b6(w)] == '}');
}

#[verifier::rlimit(100)]
#[verifier::spinoff_prover]
proof fn lemma_parse_word_at(s: Seq<char>, i: int, w: WordView)
    requires
        0 <= i,
        i + enc_word(w).len() <= s.len(),
        s.subrange(i, i + enc_word(w).len() as int) == enc_word(w),
    ensures
        parse_word(s, i) == Some((w, i + enc_word(w).len() as int)),
{
    lemma_word_slices_a(s, i, w);
    lemma_word_slices_b(s, i, w);
    lemma_tok_char_at(s, i, '{');
    lemma_field_u32_at(s, i + 1, key_id(), w.id);
    lemma_tok_char_at(s, i + w_b1(w), ',');
    lemma_field_str_at(s, i + w_b1(w) + 1, key_vocabulary(), w.vocabulary);
    lemma_tok_char_at(s, i + w_b2(w), ',');
    lemma_field_str_at(s, i + w_b2(w) + 1, key_meaning(), w.meaning);
    lemma_tok_char_at(s, i + w_b3(w), ',');
    lemma_field_str_at(s, i + w_b3(w) + 1, key_translate(), w.translate);
    lemma_tok_char_at(s, i + w_b4(w), ',');
    lemma_field_str_at(s, i + w_b4(w) + 1, key_category(), w.category);
    lemma_tok_char_at(s, i + w_b5(w), ',');
    lemma_field_opt_str_at(s, i + w_b5(w) + 1, key_example(), w.example);
    lemma_tok_char_at(s, i + w_b6(w), '}');
    assert(w =~= WordView {
        id: w.id,
        vocabulary: w.vocabulary,
        meaning: w.meaning,
        translate: w.translate,
        category: w.category,
        example: w.example,
    });
}

#[verifier::rlimit(100)]
proof fn lemma_parse_date_at(s: Seq<char>, i: int, d: DateView)
    requires
        0 <= i,
        i + enc_date(d).len() <= s.len(),
        s.subrange(i, i + enc_date(d).len() as int) == enc_date(d),
    ensures
        parse_date(s, i) == Some((d, i + enc_date(d).len() as int)),
{
    let e = enc_date(d);
    let f1 = enc_field(key_date(), enc_string(d.date));
    let f2 = enc_field(key_add(), enc_u32(d.add));
    let f3 = enc_field(key_update(), enc_u32(d.update));
    let f4 = enc_field(key_quiz(), enc_opt_u32(d.quiz));
    let a1 = 1int;
    let b1 = a1 + f1.len() as int;
    let a2 = b1 + 1;
    let b2 = a2 + f2.len() as int;
    let a3 = b2 + 1;
    let b3 = a3 + f3.len() as int;
    let a4 = b3 + 1;
    let b4 = a4 + f4.len() as int;
    let L = e.len() as int;
    assert(L == b4 + 1);
    lemma_char_at(s, i, e, 0);
    assert(e[0] == '{');
    lemma_tok_char_at(s, i, '{');
    lemma_slice_at(s, i, e, a1, b1);
    assert(e.subrange(a1, b1) =~= f1);
    lemma_field_str_at(s, i + a1, key_date(), d.date);
    lemma_char_at(s, i, e, b1);
    assert(e[b1] == ',');
    lemma_tok_char_at(s, i + b1, ',');
    lemma_slice_at(s, i, e, a2, b2);
    assert(e.subrange(a2, b2) =~= f2);
    lemma_char_at(s, i, e, b2);
    assert(e[b2] == ',');
    lemma_field_u32_at(s, i + a2, key_add(), d.add);
    lemma_tok_char_at(s, i + b2, ',');
    lemma_slice_at(s, i, e, a3, b3);
    assert(e.subrange(a3, b3) =~= f3);
    lemma_char_at(s, i, e, b3);
    assert(e[b3] == ',');
    lemma_field_u32_at(s, i + a3, key_update(), d.update);
    lemma_tok_char_at(s, i + b3, ',');
    lemma_slice_at(s, i, e, a4, b4);
    assert(e.subrange(a4, b4) =~= f4);
    lemma_char_at(s, i, e, b4);
    assert(e[b4] == '}');
    lemma_field_opt_u32_at(s, i + a4, key_quiz(), d.quiz);
    lemma_tok_char_at(s, i + b4, '}');
    assert(d =~= DateView { date: d.date, add: d.add, update: d.update, quiz: d.quiz });
}

#[verifier::rlimit(100)]
#[verifier::spinoff_prover]
proof fn lemma_parse_words_from_at(s: Seq<char>, i: int, ws: Seq<WordView>)
    requires
        0 <= i,
        ws.len() >= 1,
        i + enc_words_body(ws).len() + 1 <= s.len(),
        s.subrange(i, i + enc_words_body(ws).len() as int + 1) == enc_words_body(ws) + seq![']'],
    ensures
        parse_words_from(s, i) == Some((ws, i + enc_words_body(ws).len() as int + 1)),
    decreases ws.len(),
{
    let body = enc_words_body(ws);
    let e = body + seq![']'];
    let Lb = body.len() as int;
    let w0 = ws[0];
    let Lw = enc_word(w0).len() as int;
    if ws.len() == 1 {
        assert(body == enc_word(w0));
        lemma_slice_at(s, i, e, 0, Lw);
        assert(e.subrange(0, Lw) =~= enc_word(w0));
        lemma_parse_word_at(s, i, w0);
        lemma_char_at(s, i, e, Lw);
        assert(e[Lw] == ']');
        assert(skip_ws(s, i + Lw) == i + Lw);
        assert(seq![w0] =~= ws);
    } else {
        let rest = ws.drop_first();
        assert(body == enc_word(w0) + seq![','] + enc_words_body(rest));
        lemma_slice_at(s, i, e, 0, Lw);
        assert(e.subrange(0, Lw) =~= enc_word(w0));
        lemma_parse_word_at(s, i, w0);
        lemma_char_at(s, i, e, Lw);
        assert(e[Lw] == ',');
        assert(skip_ws(s, i + Lw) == i + Lw);
        lemma_slice_at(s, i, e, Lw + 1, Lb + 1);
        assert(e.subrange(Lw + 1, Lb + 1) =~= enc_words_body(rest) + seq![']']);
        lemma_parse_words_from_at(s, i + Lw + 1, rest);
        assert(seq![w0] + rest =~= ws);
    }
}

#[verifier::rlimit(100)]
#[verifier::spinoff_prover]
proof fn lemma_parse_dates_from_at(s: Seq<char>, i: int, ds: Seq<DateView>)
    requires
        0 <= i,
        ds.len() >= 1,
        i + enc_dates_body(ds).len() + 1 <= s.len(),
        s.subrange(i, i + enc_dates_body(ds).len() as int + 1) == enc_dates_body(ds) + seq![']'],
    ensures
        parse_dates_from(s, i) == Some((ds, i + enc_dates_body(ds).len() as int + 1)),
    decreases ds.len(),
{
    let body = enc_dates_body(ds);
    let e = body + seq![']'];
    let Lb = body.len() as int;
    let d0 = ds[0];
    let Ld = enc_date(d0).len() as int;
    if ds.len() == 1 {
        assert(body == enc_date(d0));
        lemma_slice_at(s, i, e, 0, Ld);
        assert(e.subrange(0, Ld) =~= enc_date(d0));
        lemma_parse_date_at(s, i, d0);
        lemma_char_at(s, i, e, Ld);
        assert(e[Ld] == ']');
        assert(skip_ws(s, i + Ld) == i + Ld);
        assert(seq![d0] =~= ds);
    } else {
        let rest = ds.drop_first();
        assert(body == enc_date(d0) + seq![','] + enc_dates_body(rest));
        lemma_slice_at(s, i, e, 0, Ld);
        assert(e.subrange(0, Ld) =~= enc_date(d0));
        lemma_parse_date_at(s, i, d0);
        lemma_char_at(s, i, e, Ld);
        assert(e[Ld] == ',');
        assert(skip_ws(s, i + Ld) == i + Ld);
        lemma_slice_at(s, i, e, Ld + 1, Lb + 1);
        assert(e.subrange(Ld + 1, Lb + 1) =~= enc_dates_body(rest) + seq![']']);
        lemma_parse_dates_from_at(s, i + Ld + 1, rest);
        assert(seq![d0] + rest =~= ds);
    }
}

/// Round trip for the vocabulary document: what `save` would write, a fresh
/// `load` parses back into exactly the sequence that was saved, content and
/// order alike.
pub proof fn lemma_words_round_trip(ws: Seq<WordView>)
    ensures
        parse_words(enc_words(ws)) == Some(ws),
{
    let s = enc_words(ws);
    let body = enc_words_body(ws);
    let Lb = body.len() as int;
    assert(s.len() == Lb + 2);
    assert(s[0] == '[');
    assert(skip_ws(s, 0) == 0);
    assert(tok_char(s, 0, '[') == Some(1int));
    if ws.len() == 0 {
        assert(Lb == 0);
        assert(s[1] == ']');
        assert(skip_ws(s, 1) == 1);
        assert(skip_ws(s, 2) == 2);
        assert(Seq::<WordView>::empty() =~= ws);
    } else {
        assert(body[0] == enc_word(ws[0])[0]) by {
            if ws.len() == 1 {
            } else {
            }
        }
        assert(enc_word(ws[0])[0] == '{');
        assert(s[1] == body[0]);
        assert(s[1] == '{');
        assert(skip_ws(s, 1) == 1);
        assert(s.subrange(1, 1 + Lb + 1) =~= body + seq![']']) by {
            assert forall|k: int|
                0 <= k < Lb + 1 implies s.subrange(1, 1 + Lb + 1)[k] == (body + seq![']'])[k] by {
                assert(s.subrange(1, 1 + Lb + 1)[k] == s[1 + k]);
                assert(s[1 + k] == (seq!['['] + body + seq![']'])[1 + k]);
            }
        }
        lemma_parse_words_from_at(s, 1, ws);
        assert(skip_ws(s, s.len() as int) == s.len());
    }
}

/// Round trip for the activity document.
pub proof fn lemma_dates_round_trip(ds: Seq<DateView>)
    ensures
        parse_dates(enc_dates(ds)) == Some(ds),
{
    let s = enc_dates(ds);
    let body = enc_dates_body(ds);
    let Lb = body.len() as int;
    assert(s.len() == Lb + 2);
    assert(s[0] == '[');
    assert(skip_ws(s, 0) == 0);
    assert(tok_char(s, 0, '[') == Some(1int));
    if ds.len() == 0 {
        assert(Lb == 0);
        assert(s[1] == ']');
        assert(skip_ws(s, 1) == 1);
        assert(skip_ws(s, 2) == 2);
        assert(Seq::<DateView>::empty() =~= ds);
    } else {
        assert(body[0] == enc_date(ds[0])[0]) by {
            if ds.len() == 1 {
            } else {
            }
        }
        assert(enc_date(ds[0])[0] == '{');
        assert(s[1] == body[0]);
        assert(s[1] == '{');
        assert(skip_ws(s, 1) == 1);
        assert(s.subrange(1, 1 + Lb + 1) =~= body + seq![']']) by {
            assert forall|k: int|
                0 <= k < Lb + 1 implies s.subrange(1, 1 + Lb + 1)[k] == (body + seq![']'])[k] by {
                assert(s.subrange(1, 1 + Lb + 1)[k] == s[1 + k]);
                assert(s[1 + k] == (seq!['['] + body + seq![']'])[1 + k]);
            }
        }
        lemma_parse_dates_from_at(s, 1, ds);
        assert(skip_ws(s, s.len() as int) == s.len());
    }
}

} // verus!
