use vocab_store::StoreError;
use vocab_store::activity::{ActivityStore, Date};
use vocab_store::json::{
    activity_load_json, activity_to_json, dates_from_json, dates_to_json, vocab_load_json,
    vocab_to_json, words_from_json, words_to_json,
};
use vocab_store::word::{VocabStore, Word};

fn sample_word(id: u32, term: &str, example: Option<&str>) -> Word {
    Word {
        id,
        vocabulary: term.to_string(),
        meaning: format!("meaning of {}", term),
        translate: format!("translation of {}", term),
        category: "noun".to_string(),
        example: example.map(|e| e.to_string()),
    }
}

#[test]
fn one_word_encodes_to_the_documented_layout() {
    let words = vec![Word {
        id: 1,
        vocabulary: "run".to_string(),
        meaning: "(verb) move fast".to_string(),
        translate: "courir".to_string(),
        category: "verb".to_string(),
        example: None,
    }];
    let json = words_to_json(&words);
    assert_eq!(
        json,
        "[{\"id\":1,\"vocabulary\":\"run\",\"meaning\":\"(verb) move fast\",\
         \"translate\":\"courir\",\"category\":\"verb\",\"example\":null}]"
    );
}

#[test]
fn one_date_encodes_to_the_documented_layout() {
    let dates = vec![Date { date: "2024-01-01".to_string(), add: 2, update: 0, quiz: Some(1) }];
    let json = dates_to_json(&dates);
    assert_eq!(
        json,
        "[{\"date\":\"2024-01-01\",\"add\":2,\"update\":0,\"quiz\":1}]"
    );
}

#[test]
fn empty_stores_encode_to_empty_arrays() {
    let words: Vec<Word> = Vec::new();
    assert_eq!(words_to_json(&words), "[]");
    let dates: Vec<Date> = Vec::new();
    assert_eq!(dates_to_json(&dates), "[]");
}

#[test]
fn words_round_trip_through_the_codec() {
    let words = vec![
        sample_word(1, "alpha", None),
        sample_word(2, "beta", Some("A beta example.")),
        sample_word(7, "gamma", Some("")),
    ];
    let json = words_to_json(&words);
    let back = words_from_json(&json).unwrap();
    assert_eq!(back.len(), 3);
    for (a, b) in words.iter().zip(back.iter()) {
        assert_eq!(a.id, b.id);
        assert_eq!(a.vocabulary, b.vocabulary);
        assert_eq!(a.meaning, b.meaning);
        assert_eq!(a.translate, b.translate);
        assert_eq!(a.category, b.category);
        assert_eq!(a.example, b.example);
    }
}

#[test]
fn strings_with_quotes_backslashes_and_accents_round_trip() {
    let words = vec![Word {
        id: 3,
        vocabulary: "say \"hi\"".to_string(),
        meaning: "a back\\slash and a tab\there".to_string(),
        translate: "\u{00e9}l\u{00e9}phant".to_string(),
        category: "phrase".to_string(),
        example: Some("newline\nin example".to_string()),
    }];
    let json = words_to_json(&words);
    let back = words_from_json(&json).unwrap();
    assert_eq!(back[0].vocabulary, "say \"hi\"");
    assert_eq!(back[0].meaning, "a back\\slash and a tab\there");
    assert_eq!(back[0].translate, "\u{00e9}l\u{00e9}phant");
    assert_eq!(back[0].example.as_deref(), Some("newline\nin example"));
}

#[test]
fn dates_round_trip_through_the_codec() {
    let dates = vec![
        Date { date: "2024-01-01".to_string(), add: 1, update: 0, quiz: None },
        Date { date: "2024-01-02".to_string(), add: 4294967295, update: 3, quiz: Some(9) },
    ];
    let json = dates_to_json(&dates);
    let back = dates_from_json(&json).unwrap();
    assert_eq!(back.len(), 2);
    assert_eq!(back[0].date, "2024-01-01");
    assert_eq!(back[0].quiz, None);
    assert_eq!(back[1].add, 4294967295);
    assert_eq!(back[1].quiz, Some(9));
}

#[test]
fn the_parser_accepts_pretty_printed_documents() {
    let json = "[\n  {\n    \"id\": 5,\n    \"vocabulary\": \"walk\",\n    \"meaning\": \"m\",\n    \"translate\": \"t\",\n    \"category\": \"c\",\n    \"example\": \"e\"\n  }\n]";
    let back = words_from_json(json).unwrap();
    assert_eq!(back.len(), 1);
    assert_eq!(back[0].id, 5);
    assert_eq!(back[0].vocabulary, "walk");
    assert_eq!(back[0].example.as_deref(), Some("e"));
}

#[test]
fn the_parser_reads_common_escape_sequences() {
    let json = "[{\"date\":\"a\\\"b\\\\c\\/d\\ne\\tf\\rg\\bh\\fi\",\"add\":0,\"update\":0,\"quiz\":null}]";
    let back = dates_from_json(json).unwrap();
    assert_eq!(back[0].date, "a\"b\\c/d\ne\tf\rg\u{0008}h\u{000C}i");
}

#[test]
fn control_characters_are_escaped_and_round_trip() {
    let words = vec![Word {
        id: 9,
        vocabulary: "bell\u{0007}and\u{001f}unit".to_string(),
        meaning: "m".to_string(),
        translate: "t".to_string(),
        category: "c".to_string(),
        example: Some("nul\u{0000}inside".to_string()),
    }];
    let json = words_to_json(&words);
    // the document is valid JSON: a standard parser reads the same text back
    let value: serde_json::Value = serde_json::from_str(&json).unwrap();
    assert_eq!(
        value[0].get("vocabulary").unwrap().as_str(),
        Some("bell\u{0007}and\u{001f}unit")
    );
    assert_eq!(
        value[0].get("example").unwrap().as_str(),
        Some("nul\u{0000}inside")
    );
    // and so does this codec's own parser
    let back = words_from_json(&json).unwrap();
    assert_eq!(back[0].vocabulary, "bell\u{0007}and\u{001f}unit");
    assert_eq!(back[0].example.as_deref(), Some("nul\u{0000}inside"));
}

#[test]
fn the_parser_reads_hex_escapes_in_either_case() {
    let json =
        "[{\"date\":\"a\\u0007b\\u001Fc\",\"add\":0,\"update\":0,\"quiz\":null}]";
    let back = dates_from_json(json).unwrap();
    assert_eq!(back[0].date, "a\u{0007}b\u{001f}c");
}

#[test]
fn hex_escapes_outside_the_control_range_are_parse_failures() {
    // only control characters are written and read in this form
    let json =
        "[{\"date\":\"\\u0041\",\"add\":0,\"update\":0,\"quiz\":null}]";
    assert_eq!(dates_from_json(json).unwrap_err(), StoreError::ParseFailure);
}

#[test]
fn malformed_documents_are_parse_failures() {
    assert_eq!(words_from_json("").unwrap_err(), StoreError::ParseFailure);
    assert_eq!(words_from_json("{}").unwrap_err(), StoreError::ParseFailure);
    assert_eq!(words_from_json("[").unwrap_err(), StoreError::ParseFailure);
    assert_eq!(words_from_json("[{}]").unwrap_err(), StoreError::ParseFailure);
    assert_eq!(words_from_json("[] trailing").unwrap_err(), StoreError::ParseFailure);
    // fields out of their fixed order
    assert_eq!(
        words_from_json("[{\"vocabulary\":\"v\",\"id\":1}]").unwrap_err(),
        StoreError::ParseFailure
    );
    // a counter too large for an unsigned 32-bit integer
    assert_eq!(
        dates_from_json("[{\"date\":\"d\",\"add\":4294967296,\"update\":0,\"quiz\":null}]")
            .unwrap_err(),
        StoreError::ParseFailure
    );
}

#[test]
fn a_number_at_the_unsigned_32_bit_limit_still_parses() {
    let back =
        dates_from_json("[{\"date\":\"d\",\"add\":4294967295,\"update\":0,\"quiz\":null}]")
            .unwrap();
    assert_eq!(back[0].add, u32::MAX);
}

#[test]
fn save_then_fresh_load_reproduces_the_store() {
    let mut store = VocabStore::new();
    store.add(
        "run".to_string(),
        "(verb) move fast".to_string(),
        "courir".to_string(),
        "verb".to_string(),
        None,
    );
    store.add(
        "cat".to_string(),
        "a small animal".to_string(),
        "chat".to_string(),
        "noun".to_string(),
        Some("The cat sleeps.".to_string()),
    );
    let saved = vocab_to_json(&store);
    let mut fresh = VocabStore::new();
    vocab_load_json(&mut fresh, &saved).unwrap();
    let a = store.list();
    let b = fresh.list();
    assert_eq!(a.len(), b.len());
    for (x, y) in a.iter().zip(b.iter()) {
        assert_eq!(x.id, y.id);
        assert_eq!(x.vocabulary, y.vocabulary);
        assert_eq!(x.meaning, y.meaning);
        assert_eq!(x.translate, y.translate);
        assert_eq!(x.category, y.category);
        assert_eq!(x.example, y.example);
    }
}

#[test]
fn activity_save_then_fresh_load_reproduces_the_store() {
    let mut store = ActivityStore::new();
    store.upsert("2024-01-01".to_string(), "add").unwrap();
    store.upsert("2024-01-01".to_string(), "quiz").unwrap();
    store.upsert("2024-01-02".to_string(), "add").unwrap();
    let saved = activity_to_json(&store);
    let mut fresh = ActivityStore::new();
    activity_load_json(&mut fresh, &saved).unwrap();
    let a = store.list();
    let b = fresh.list();
    assert_eq!(a.len(), b.len());
    for (x, y) in a.iter().zip(b.iter()) {
        assert_eq!(x.date, y.date);
        assert_eq!(x.add, y.add);
        assert_eq!(x.update, y.update);
        assert_eq!(x.quiz, y.quiz);
    }
}

#[test]
fn a_failed_load_leaves_the_store_as_it_was() {
    let mut store = VocabStore::new();
    store.add(
        "keep".to_string(),
        "m".to_string(),
        "t".to_string(),
        "c".to_string(),
        None,
    );
    assert_eq!(
        vocab_load_json(&mut store, "not json").unwrap_err(),
        StoreError::ParseFailure
    );
    assert_eq!(store.list().len(), 1);
    assert_eq!(store.list()[0].vocabulary, "keep");
}

#[test]
fn the_encoder_emits_json_that_a_standard_parser_agrees_with() {
    let words = vec![sample_word(11, "say \"hi\"\\now", Some("an example\nwith a newline"))];
    let json = words_to_json(&words);
    let value: serde_json::Value = serde_json::from_str(&json).unwrap();
    let arr = value.as_array().unwrap();
    assert_eq!(arr.len(), 1);
    assert_eq!(arr[0].get("id").unwrap().as_u64(), Some(11));
    assert_eq!(
        arr[0].get("vocabulary").unwrap().as_str(),
        Some("say \"hi\"\\now")
    );
    assert_eq!(
        arr[0].get("example").unwrap().as_str(),
        Some("an example\nwith a newline")
    );
    let dates = vec![Date { date: "2024-03-04".to_string(), add: 1, update: 2, quiz: None }];
    let djson = dates_to_json(&dates);
    let dvalue: serde_json::Value = serde_json::from_str(&djson).unwrap();
    let darr = dvalue.as_array().unwrap();
    assert_eq!(darr[0].get("date").unwrap().as_str(), Some("2024-03-04"));
    assert_eq!(darr[0].get("add").unwrap().as_u64(), Some(1));
    assert!(darr[0].get("quiz").unwrap().is_null());
}

#[test]
fn the_parser_reads_what_a_standard_serializer_writes() {
    // the shape serde_json gives these records when pretty-printed with
    // two-space indentation
    let json = "[\n  {\n    \"id\": 1,\n    \"vocabulary\": \"run\",\n    \"meaning\": \"(verb) move fast\",\n    \"translate\": \"courir\",\n    \"category\": \"verb\",\n    \"example\": null\n  },\n  {\n    \"id\": 2,\n    \"vocabulary\": \"cat\",\n    \"meaning\": \"animal\",\n    \"translate\": \"chat\",\n    \"category\": \"noun\",\n    \"example\": \"The cat sleeps.\"\n  }\n]";
    let back = words_from_json(json).unwrap();
    assert_eq!(back.len(), 2);
    assert_eq!(back[0].example, None);
    assert_eq!(back[1].example.as_deref(), Some("The cat sleeps."));
}
