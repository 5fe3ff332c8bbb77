//! The daily-activity store: one counter record per calendar day, merged by
//! date key, with the mode-driven upsert that the command surface exposes.

use vstd::prelude::*;

use crate::StoreError;
use crate::shims::{str_eq, today_string};

verus! {

/// Activity counters for one calendar day. `date` is the `YYYY-MM-DD` key.
#[derive(Debug)]
pub struct Date {
    pub date: String,
    pub add: u32,
    pub update: u32,
    pub quiz: Option<u32>,
}

/// Mathematical image of a `Date` record.
#[verifier::ext_equal]
pub struct DateView {
    pub date: Seq<char>,
    pub add: u32,
    pub update: u32,
    pub quiz: Option<u32>,
}

impl View for Date {
    type V = DateView;

    open spec fn view(&self) -> DateView {
        DateView {
            date: self.date@,
            add: self.add,
            update: self.update,
            quiz: self.quiz,
        }
    }
}

impl Clone for Date {
    fn clone(&self) -> (r: Self)
        ensures
            r@ == self@,
    {
        let r = Date {
            date: self.date.clone(),
            add: self.add,
            update: self.update,
            quiz: self.quiz,
        };
        assert(r@ =~= self@);
        r
    }
}

/// The image of a sequence of activity records.
pub open spec fn views_of_dates(s: Seq<Date>) -> Seq<DateView> {
    s.map_values(|d: Date| d@)
}

/// Index of the first record with the given date key, or -1 if none has it.
pub open spec fn find_date(s: Seq<DateView>, d: Seq<char>) -> int
    decreases s.len(),
{
    if s.len() == 0 {
        -1
    } else if s[0].date == d {
        0
    } else {
        let r = find_date(s.drop_first(), d);
        if r == -1 {
            -1
        } else {
            r + 1
        }
    }
}

/// What `find_date` returns: the first index whose record carries the key,
/// or -1 exactly when no record does.
pub proof fn lemma_find_date(s: Seq<DateView>, d: Seq<char>)
    ensures
        -1 <= find_date(s, d) < s.len(),
        find_date(s, d) >= 0 ==> s[find_date(s, d)].date == d,
        forall|j: int| 0 <= j < find_date(s, d) ==> s[j].date != d,
        find_date(s, d) == -1 ==> forall|j: int| 0 <= j < s.len() ==> s[j].date != d,
    decreases s.len(),
{
    if s.len() > 0 && s[0].date != d {
        lemma_find_date(s.drop_first(), d);
        assert(forall|j: int| 1 <= j < s.len() ==> s[j] == s.drop_first()[j - 1]);
    }
}

/// The three recognized activity modes.
pub open spec fn is_valid_mode(mode: Seq<char>) -> bool {
    mode == "add"@ || mode == "update"@ || mode == "quiz"@
}

/// An existing record with the counter named by `mode` stepped once; an
/// absent quiz counter starts at 1.
pub open spec fn bumped(e: DateView, mode: Seq<char>) -> DateView {
    if mode == "add"@ {
        DateView { add: (e.add + 1) as u32, ..e }
    } else if mode == "update"@ {
        DateView { update: (e.update + 1) as u32, ..e }
    } else {
        DateView {
            quiz: match e.quiz {
                Some(q) => Some((q + 1) as u32),
                None => Some(1u32),
            },
            ..e
        }
    }
}

/// The record a first event on a day inserts: the insert default of one add
/// and no updates, with the quiz counter started at 1 when the event was a
/// quiz and absent otherwise.
pub open spec fn fresh_entry(d: Seq<char>, mode: Seq<char>) -> DateView {
    DateView {
        date: d,
        add: 1,
        update: 0,
        quiz: if mode == "quiz"@ {
            Some(1u32)
        } else {
            None
        },
    }
}

/// The counter a valid upsert would step stays within `u32`.
pub open spec fn can_bump(s: Seq<DateView>, d: Seq<char>, mode: Seq<char>) -> bool {
    find_date(s, d) >= 0 ==> {
        let e = s[find_date(s, d)];
        if mode == "add"@ {
            e.add < u32::MAX
        } else if mode == "update"@ {
            e.update < u32::MAX
        } else if mode == "quiz"@ {
            e.quiz is Some ==> e.quiz->0 < u32::MAX
        } else {
            true
        }
    }
}

/// What an upsert leaves in the store: unchanged on an invalid mode, the
/// matching record bumped when the date is present, a fresh first record
/// appended when it is not.
pub open spec fn upsert_spec(s: Seq<DateView>, d: Seq<char>, mode: Seq<char>) -> Seq<DateView> {
    if !is_valid_mode(mode) {
        s
    } else if find_date(s, d) >= 0 {
        s.update(find_date(s, d), bumped(s[find_date(s, d)], mode))
    } else {
        s.push(fresh_entry(d, mode))
    }
}

/// No two records share a date key: the store invariant, so new activity is
/// merged into the existing record for its day rather than duplicated.
pub open spec fn dates_unique(s: Seq<DateView>) -> bool {
    forall|i: int, j: int| 0 <= i < j < s.len() ==> s[i].date != s[j].date
}

/// An upsert keeps the date keys pairwise distinct: it bumps a record in
/// place, keeping its key, or appends a key that was absent.
pub proof fn lemma_upsert_keeps_dates_unique(s: Seq<DateView>, d: Seq<char>, mode: Seq<char>)
    requires
        dates_unique(s),
    ensures
        dates_unique(upsert_spec(s, d, mode)),
{
    let t = upsert_spec(s, d, mode);
    lemma_find_date(s, d);
    let f = find_date(s, d);
    if is_valid_mode(mode) && f >= 0 {
        assert(bumped(s[f], mode).date == s[f].date);
        assert forall|i: int, j: int| 0 <= i < j < t.len() implies t[i].date != t[j].date by {
            assert(t[i].date == s[i].date && t[j].date == s[j].date);
        }
    } else if is_valid_mode(mode) {
        assert forall|i: int, j: int| 0 <= i < j < t.len() implies t[i].date != t[j].date by {
            if j == s.len() {
                assert(t[j] == fresh_entry(d, mode));
                assert(t[j].date == d);
                assert(s[i].date != d);
            }
        }
    }
}

/// In-memory daily-activity store: an ordered sequence of day records.
pub struct ActivityStore {
    dates: Vec<Date>,
}

impl View for ActivityStore {
    type V = Seq<DateView>;

    closed spec fn view(&self) -> Seq<DateView> {
        views_of_dates(self.dates@)
    }
}

impl ActivityStore {
    /// A fresh, empty store.
    pub fn new() -> (r: Self)
        ensures
            r@ == Seq::<DateView>::empty(),
    {
        let r = ActivityStore { dates: Vec::new() };
        assert(r@ =~= Seq::<DateView>::empty());
        r
    }

    /// Builds a store around an already-loaded sequence of records,
    /// replacing the previous contents wholesale.
    pub fn replace(&mut self, dates: Vec<Date>)
        ensures
            final(self)@ == views_of_dates(dates@),
    {
        self.dates = dates;
    }

    /// Snapshot copy of the current sequence.
    pub fn list(&self) -> (r: Vec<Date>)
        ensures
            views_of_dates(r@) == self@,
    {
        let mut r: Vec<Date> = Vec::new();
        let mut i: usize = 0;
        while i < self.dates.len()
            invariant
                i <= self.dates.len(),
                r@.len() == i,
                views_of_dates(r@) =~= self@.subrange(0, i as int),
            decreases self.dates.len() - i,
        {
            let ghost prev = r@;
            let d = self.dates[i].clone();
            r.push(d);
            proof {
                assert(r@ == prev.push(d));
                assert forall|k: int| 0 <= k < r@.len() implies views_of_dates(r@)[k]
                    == self@.subrange(0, i as int + 1)[k] by {
                    if k < i {
                        assert(views_of_dates(prev)[k] == self@.subrange(0, i as int)[k]);
                    }
                }
                assert(views_of_dates(r@) =~= self@.subrange(0, i + 1));
            }
            i += 1;
        }
        assert(views_of_dates(r@) =~= self@);
        r
    }

    /// Merges one activity event into the day keyed by `date`: an invalid
    /// mode reports `InvalidArgument` and changes nothing; a recognized mode
    /// steps the matching record's counter, or appends the first record for
    /// a day not seen before (one add, and a started quiz counter when the
    /// event was a quiz).
    pub fn upsert(&mut self, date: String, mode: &str) -> (r: Result<(), StoreError>)
        requires
            can_bump(old(self)@, date@, mode@),
        ensures
            final(self)@ == upsert_spec(old(self)@, date@, mode@),
            is_valid_mode(mode@) ==> r == Ok::<(), StoreError>(()),
            !is_valid_mode(mode@) ==> r == Err::<(), StoreError>(StoreError::InvalidArgument),
    {
        let m_add = str_eq(mode, "add");
        let m_update = str_eq(mode, "update");
        let m_quiz = str_eq(mode, "quiz");
        if !m_add && !m_update && !m_quiz {
            return Err(StoreError::InvalidArgument);
        }
        let mut i: usize = 0;
        while i < self.dates.len()
            invariant
                i <= self.dates.len(),
                forall|j: int| 0 <= j < i ==> self@[j].date != date@,
                self.dates == old(self).dates,
                can_bump(old(self)@, date@, mode@),
                m_add == (mode@ == "add"@),
                m_update == (mode@ == "update"@),
                m_quiz == (mode@ == "quiz"@),
                m_add || m_update || m_quiz,
            decreases self.dates.len() - i,
        {
            if str_eq(self.dates[i].date.as_str(), date.as_str()) {
                proof {
                    assert(old(self)@[i as int].date == date@);
                    lemma_find_date(old(self)@, date@);
                    let f = find_date(old(self)@, date@);
                    assert(f != -1);
                    assert(!(f < i));
                    assert(!(f > i));
                }
                let e = self.dates[i].clone();
                let stepped = if m_add {
                    Date { add: e.add + 1, ..e }
                } else if m_update {
                    Date { update: e.update + 1, ..e }
                } else {
                    Date {
                        quiz: match e.quiz {
                            Some(q) => Some(q + 1),
                            None => Some(1),
                        },
                        ..e
                    }
                };
                proof {
                    assert(stepped@ =~= bumped(old(self)@[i as int], mode@));
                }
                self.dates.set(i, stepped);
                assert(self@ =~= old(self)@.update(i as int, bumped(old(self)@[i as int], mode@)));
                return Ok(());
            }
            i += 1;
        }
        proof {
            lemma_find_date(old(self)@, date@);
            assert(find_date(old(self)@, date@) == -1);
        }
        let fresh = Date {
            date,
            add: 1,
            update: 0,
            quiz: if m_quiz {
                Some(1)
            } else {
                None
            },
        };
        proof {
            assert(fresh@ =~= fresh_entry(fresh.date@, mode@));
        }
        self.dates.push(fresh);
        assert(self@ =~= old(self)@.push(fresh@));
        Ok(())
    }

    /// Merges one "add" event into the record for today, as the vocabulary
    /// `add` command does after it has appended the new entry. The day comes
    /// from the system clock, so the contract promises the upsert shape for
    /// some date key rather than for a known one.
    pub fn record_add_today(&mut self)
        requires
            forall|j: int| 0 <= j < old(self)@.len() ==> old(self)@[j].add < u32::MAX,
        ensures
            exists|d: Seq<char>| final(self)@ == upsert_spec(old(self)@, d, "add"@),
    {
        let today = today_string();
        let ghost d = today@;
        proof {
            lemma_find_date(old(self)@, d);
        }
        let _ = self.upsert(today, "add");
        proof {
            assert(self@ == upsert_spec(old(self)@, d, "add"@));
        }
    }
}

} // verus!
