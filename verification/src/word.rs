//! The vocabulary store: an ordered sequence of entries with unique ids,
//! id generation from the last element, lookup, insert, update and delete.

use vstd::prelude::*;

use crate::StoreError;

verus! {

/// One vocabulary entry. Within a store, `id` identifies the entry.
#[derive(Debug)]
pub struct Word {
    pub id: u32,
    pub vocabulary: String,
    pub meaning: String,
    pub translate: String,
    pub category: String,
    pub example: Option<String>,
}

/// Mathematical image of a `Word`: the text fields as character sequences.
#[verifier::ext_equal]
pub struct WordView {
    pub id: u32,
    pub vocabulary: Seq<char>,
    pub meaning: Seq<char>,
    pub translate: Seq<char>,
    pub category: Seq<char>,
    pub example: Option<Seq<char>>,
}

impl View for Word {
    type V = WordView;

    open spec fn view(&self) -> WordView {
        WordView {
            id: self.id,
            vocabulary: self.vocabulary@,
            meaning: self.meaning@,
            translate: self.translate@,
            category: self.category@,
            example: match self.example {
                Some(ref e) => Some(e@),
                None => None,
            },
        }
    }
}

impl Clone for Word {
    fn clone(&self) -> (r: Self)
        ensures
            r@ == self@,
    {
        let r = Word {
            id: self.id,
            vocabulary: self.vocabulary.clone(),
            meaning: self.meaning.clone(),
            translate: self.translate.clone(),
            category: self.category.clone(),
            example: match &self.example {
                Some(e) => Some(e.clone()),
                None => None,
            },
        };
        assert(r@ =~= self@);
        r
    }
}

/// The image of a sequence of entries.
pub open spec fn views_of_words(s: Seq<Word>) -> Seq<WordView> {
    s.map_values(|w: Word| w@)
}

/// Index of the first entry with the given id, or -1 if none has it.
pub open spec fn find_id(s: Seq<WordView>, id: u32) -> int
    decreases s.len(),
{
    if s.len() == 0 {
        -1
    } else if s[0].id == id {
        0
    } else {
        let r = find_id(s.drop_first(), id);
        if r == -1 {
            -1
        } else {
            r + 1
        }
    }
}

/// What `find_id` returns: the first index whose entry carries `id`,
/// or -1 exactly when no entry does.
pub proof fn lemma_find_id(s: Seq<WordView>, id: u32)
    ensures
        -1 <= find_id(s, id) < s.len(),
        find_id(s, id) >= 0 ==> s[find_id(s, id)].id == id,
        forall|j: int| 0 <= j < find_id(s, id) ==> s[j].id != id,
        find_id(s, id) == -1 ==> forall|j: int| 0 <= j < s.len() ==> s[j].id != id,
    decreases s.len(),
{
    if s.len() > 0 && s[0].id != id {
        lemma_find_id(s.drop_first(), id);
        assert(forall|j: int| 1 <= j < s.len() ==> s[j] == s.drop_first()[j - 1]);
    }
}

/// The id the store will assign next: one past the last entry's id, or 1
/// when the store is empty.
pub open spec fn next_id_int(s: Seq<WordView>) -> int {
    if s.len() == 0 {
        1
    } else {
        s.last().id + 1
    }
}

/// The result of appending a fresh entry built from the given fields.
pub open spec fn add_spec(
    s: Seq<WordView>,
    vocabulary: Seq<char>,
    meaning: Seq<char>,
    translate: Seq<char>,
    category: Seq<char>,
    example: Option<Seq<char>>,
) -> Seq<WordView> {
    s.push(
        WordView {
            id: next_id_int(s) as u32,
            vocabulary,
            meaning,
            translate,
            category,
            example,
        },
    )
}

/// The result of removing the first entry with the given id, if any.
pub open spec fn delete_spec(s: Seq<WordView>, id: u32) -> Seq<WordView> {
    if find_id(s, id) >= 0 {
        s.remove(find_id(s, id))
    } else {
        s
    }
}

/// In-memory vocabulary store: an ordered sequence of entries.
pub struct VocabStore {
    words: Vec<Word>,
}

impl View for VocabStore {
    type V = Seq<WordView>;

    closed spec fn view(&self) -> Seq<WordView> {
        views_of_words(self.words@)
    }
}

impl VocabStore {
    /// A fresh, empty store.
    pub fn new() -> (r: Self)
        ensures
            r@ == Seq::<WordView>::empty(),
    {
        let r = VocabStore { words: Vec::new() };
        assert(r@ =~= Seq::<WordView>::empty());
        r
    }

    /// Builds a store around an already-loaded sequence of entries,
    /// replacing the previous contents wholesale.
    pub fn replace(&mut self, words: Vec<Word>)
        ensures
            final(self)@ == views_of_words(words@),
    {
        self.words = words;
    }

    /// Snapshot copy of the current sequence.
    pub fn list(&self) -> (r: Vec<Word>)
        ensures
            views_of_words(r@) == self@,
    {
        let mut r: Vec<Word> = Vec::new();
        let mut i: usize = 0;
        while i < self.words.len()
            invariant
                i <= self.words.len(),
                r@.len() == i,
                views_of_words(r@) =~= self@.subrange(0, i as int),
            decreases self.words.len() - i,
        {
            let ghost prev = r@;
            let w = self.words[i].clone();
            r.push(w);
            proof {
                assert(r@ == prev.push(w));
                assert forall|k: int| 0 <= k < r@.len() implies views_of_words(r@)[k] == self@.subrange(
                    0,
                    i as int + 1,
                )[k] by {
                    if k < i {
                        assert(views_of_words(prev)[k] == self@.subrange(0, i as int)[k]);
                    }
                }
                assert(views_of_words(r@) =~= self@.subrange(0, i + 1));
            }
            i += 1;
        }
        assert(views_of_words(r@) =~= self@);
        r
    }

    /// The id a subsequent `add` will assign: last entry's id plus one, or 1
    /// on an empty store.
    pub fn generate_id(&self) -> (r: u32)
        requires
            next_id_int(self@) <= u32::MAX,
        ensures
            r == next_id_int(self@),
    {
        if self.words.len() == 0 {
            1
        } else {
            self.words[self.words.len() - 1].id + 1
        }
    }

    /// A copy of the first entry with the given id, or `NotFound` exactly
    /// when no entry carries it.
    pub fn get_by_id(&self, id: u32) -> (r: Result<Word, StoreError>)
        ensures
            find_id(self@, id) >= 0 ==> r is Ok && r->Ok_0@ == self@[find_id(self@, id)],
            find_id(self@, id) == -1 ==> r == Err::<Word, StoreError>(StoreError::NotFound),
    {
        proof {
            lemma_find_id(self@, id);
        }
        let mut i: usize = 0;
        while i < self.words.len()
            invariant
                i <= self.words.len(),
                forall|j: int| 0 <= j < i ==> self@[j].id != id,
            decreases self.words.len() - i,
        {
            if self.words[i].id == id {
                proof {
                    assert(self@[i as int].id == id);
                    lemma_find_id(self@, id);
                    let f = find_id(self@, id);
                    assert(f != -1);
                    assert(!(f < i));
                    assert(!(f > i));
                }
                return Ok(self.words[i].clone());
            }
            i += 1;
        }
        Err(StoreError::NotFound)
    }

    /// Appends a fresh entry carrying the generated id and the given fields.
    pub fn add(
        &mut self,
        vocabulary: String,
        meaning: String,
        translate: String,
        category: String,
        example: Option<String>,
    )
        requires
            next_id_int(old(self)@) <= u32::MAX,
        ensures
            final(self)@ == add_spec(
                old(self)@,
                vocabulary@,
                meaning@,
                translate@,
                category@,
                match example {
                    Some(ref e) => Some(e@),
                    None => None,
                },
            ),
    {
        let id = self.generate_id();
        let w = Word { id, vocabulary, meaning, translate, category, example };
        self.words.push(w);
        assert(self@ =~= old(self)@.push(w@));
    }

    /// Replaces every field but the id of the first entry with the given id;
    /// reports `NotFound`, and changes nothing, exactly when no entry has it.
    pub fn update(
        &mut self,
        id: u32,
        vocabulary: String,
        meaning: String,
        translate: String,
        category: String,
        example: Option<String>,
    ) -> (r: Result<(), StoreError>)
        ensures
            find_id(old(self)@, id) >= 0 ==> r == Ok::<(), StoreError>(()) && final(self)@ == old(
                self,
            )@.update(
                find_id(old(self)@, id),
                WordView {
                    id,
                    vocabulary: vocabulary@,
                    meaning: meaning@,
                    translate: translate@,
                    category: category@,
                    example: match example {
                        Some(ref e) => Some(e@),
                        None => None,
                    },
                },
            ),
            find_id(old(self)@, id) == -1 ==> r == Err::<(), StoreError>(StoreError::NotFound)
                && final(self)@ == old(self)@,
    {
        proof {
            lemma_find_id(self@, id);
        }
        let mut i: usize = 0;
        while i < self.words.len()
            invariant
                i <= self.words.len(),
                forall|j: int| 0 <= j < i ==> self@[j].id != id,
                self.words == old(self).words,
            decreases self.words.len() - i,
        {
            if self.words[i].id == id {
                proof {
                    assert(old(self)@[i as int].id == id);
                    lemma_find_id(old(self)@, id);
                    let f = find_id(old(self)@, id);
                    assert(f != -1);
                    assert(!(f < i));
                    assert(!(f > i));
                }
                let w = Word { id, vocabulary, meaning, translate, category, example };
                self.words.set(i, w);
                assert(self@ =~= old(self)@.update(i as int, w@));
                return Ok(());
            }
            i += 1;
        }
        Err(StoreError::NotFound)
    }

    /// Removes the first entry with the given id; absence is a silent no-op.
    pub fn delete(&mut self, id: u32)
        ensures
            final(self)@ == delete_spec(old(self)@, id),
    {
        proof {
            lemma_find_id(self@, id);
        }
        let mut i: usize = 0;
        while i < self.words.len()
            invariant
                i <= self.words.len(),
                forall|j: int| 0 <= j < i ==> self@[j].id != id,
                self.words == old(self).words,
            decreases self.words.len() - i,
        {
            if self.words[i].id == id {
                proof {
                    assert(old(self)@[i as int].id == id);
                    lemma_find_id(old(self)@, id);
                    let f = find_id(old(self)@, id);
                    assert(f != -1);
                    assert(!(f < i));
                    assert(!(f > i));
                }
                self.words.remove(i);
                assert(self@ =~= old(self)@.remove(i as int));
                return ;
            }
            i += 1;
        }
    }
}

/// Every id in the sequence equals its position plus one, as `add` assigns
/// them on a store that has seen no deletion.
pub open spec fn ids_sequential(s: Seq<WordView>) -> bool {
    forall|i: int| 0 <= i < s.len() ==> s[i].id == i + 1
}

/// No two entries share an id.
pub open spec fn ids_unique(s: Seq<WordView>) -> bool {
    forall|i: int, j: int| 0 <= i < j < s.len() ==> s[i].id != s[j].id
}

/// On an empty store the ids are (vacuously) the positions plus one, so a
/// run of `add` calls starting from empty hands out ids 1, 2, 3, ... in
/// call order.
pub proof fn lemma_empty_ids_sequential()
    ensures
        ids_sequential(Seq::<WordView>::empty()),
{
}

/// An `add` on a store whose ids are 1..=len keeps them so: the fresh entry
/// receives id len + 1.
pub proof fn lemma_add_keeps_ids_sequential(
    s: Seq<WordView>,
    vocabulary: Seq<char>,
    meaning: Seq<char>,
    translate: Seq<char>,
    category: Seq<char>,
    example: Option<Seq<char>>,
)
    requires
        ids_sequential(s),
        next_id_int(s) <= u32::MAX,
    ensures
        ids_sequential(add_spec(s, vocabulary, meaning, translate, category, example)),
        add_spec(s, vocabulary, meaning, translate, category, example).last().id == s.len() + 1,
{
    let t = add_spec(s, vocabulary, meaning, translate, category, example);
    assert(forall|i: int| 0 <= i < s.len() ==> t[i] == s[i]);
    if s.len() > 0 {
        assert(s.last().id == s.len());
    }
}

/// Ids strictly grow along the sequence, as they do in every store built by
/// the operations from an empty one.
pub open spec fn ids_increasing(s: Seq<WordView>) -> bool {
    forall|i: int, j: int| 0 <= i < j < s.len() ==> s[i].id < s[j].id
}

/// Strictly growing ids are in particular pairwise distinct, which is the
/// store invariant: at most one entry per id at any time.
pub proof fn lemma_increasing_ids_unique(s: Seq<WordView>)
    requires
        ids_increasing(s),
    ensures
        ids_unique(s),
{
}

/// An `add` keeps the ids strictly growing: the fresh entry's id lies past
/// the last one.
pub proof fn lemma_add_keeps_ids_increasing(
    s: Seq<WordView>,
    vocabulary: Seq<char>,
    meaning: Seq<char>,
    translate: Seq<char>,
    category: Seq<char>,
    example: Option<Seq<char>>,
)
    requires
        ids_increasing(s),
        next_id_int(s) <= u32::MAX,
    ensures
        ids_increasing(add_spec(s, vocabulary, meaning, translate, category, example)),
{
    let t = add_spec(s, vocabulary, meaning, translate, category, example);
    assert forall|i: int, j: int| 0 <= i < j < t.len() implies t[i].id < t[j].id by {
        if j < s.len() {
        } else {
            assert(t[j].id == next_id_int(s));
            if i < s.len() - 1 {
                assert(s[i].id < s.last().id);
            }
        }
    }
}

/// A `delete` keeps the ids strictly growing: what remains is a subsequence.
pub proof fn lemma_delete_keeps_ids_increasing(s: Seq<WordView>, id: u32)
    requires
        ids_increasing(s),
    ensures
        ids_increasing(delete_spec(s, id)),
{
    lemma_find_id(s, id);
    let f = find_id(s, id);
    if f >= 0 {
        let t = s.remove(f);
        assert forall|i: int, j: int| 0 <= i < j < t.len() implies t[i].id < t[j].id by {
            let i2: int = if i < f {
                i
            } else {
                i + 1
            };
            let j2: int = if j < f {
                j
            } else {
                j + 1
            };
            assert(t[i] == s[i2] && t[j] == s[j2]);
            assert(s[i2].id < s[j2].id);
        }
    }
}

/// An `update` keeps the ids strictly growing: it never touches an id.
pub proof fn lemma_update_keeps_ids_increasing(s: Seq<WordView>, f: int, w: WordView)
    requires
        ids_increasing(s),
        0 <= f < s.len(),
        w.id == s[f].id,
    ensures
        ids_increasing(s.update(f, w)),
{
    let t = s.update(f, w);
    assert forall|i: int, j: int| 0 <= i < j < t.len() implies t[i].id < t[j].id by {
        assert(t[i].id == s[i].id && t[j].id == s[j].id);
    }
}

/// Sequential ids are in particular pairwise distinct.
pub proof fn lemma_sequential_ids_unique(s: Seq<WordView>)
    requires
        ids_sequential(s),
    ensures
        ids_unique(s),
{
}

/// Deleting an id from a store with pairwise-distinct ids leaves no entry
/// with that id, so a lookup of it right after the deletion reports
/// `NotFound`.
pub proof fn lemma_delete_then_get_not_found(s: Seq<WordView>, id: u32)
    requires
        ids_unique(s),
    ensures
        find_id(delete_spec(s, id), id) == -1,
{
    lemma_find_id(s, id);
    let f = find_id(s, id);
    if f >= 0 {
        let t = s.remove(f);
        assert forall|k: int| 0 <= k < t.len() implies t[k].id != id by {
            if k < f {
                assert(t[k] == s[k]);
            } else {
                assert(t[k] == s[k + 1]);
            }
        }
        lemma_find_id(t, id);
        if find_id(t, id) >= 0 {
            assert(t[find_id(t, id)].id == id);
        }
    } else {
        lemma_find_id(delete_spec(s, id), id);
    }
}

} // verus!
