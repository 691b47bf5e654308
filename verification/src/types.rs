//! Records shared across the analysis stages.
use vstd::prelude::*;

verus! {

/// One row of the merged observation stream: either a screen grab (`observation_type`
/// "ScreenGrab", with the values read off the screen as text) or a replay event
/// (`observation_type` "RecEvent", described by `event_desc`), stamped with in-game time.
#[derive(Debug, Clone, Default)]
pub struct MergedRow {
    pub in_game_ms: u64,
    pub rw_timestamp_ms: String,
    pub observation_type: String,
    pub event_desc: String,
    pub food: String,
    pub wood: String,
    pub gold: String,
    pub stone: String,
    pub pop_curr: String,
    pub pop_max: String,
    pub pop_vils: String,
    pub idle_vils: String,
    pub housing: String,
}

/// One row of the raw screen telemetry, with the readings that parsed as numbers.
#[derive(Debug, Clone, Default)]
pub struct CsvRow {
    pub timestamp_ms: u64,
    pub food: Option<u32>,
    pub wood: Option<u32>,
    pub gold: Option<u32>,
    pub stone: Option<u32>,
    pub pop_curr: Option<u32>,
    pub pop_max: Option<u32>,
    pub pop_vils: Option<u32>,
    pub idle_vils: Option<u32>,
    pub housing: Option<String>,
}

/// Whether the row is a screen grab.
pub open spec fn is_screen_grab(row: MergedRow) -> bool {
    row.observation_type@ == "ScreenGrab"@
}

/// Whether the row is a replay event.
pub open spec fn is_rec_event(row: MergedRow) -> bool {
    row.observation_type@ == "RecEvent"@
}

/// The readings of one frame: `category` (e.g. "wood") and `key` (e.g. "total") map to the
/// text read for them (e.g. "423").
#[derive(Debug, Clone)]
pub struct ResultEntry {
    pub category: String,
    pub key: String,
    pub value: String,
}

/// A map from `(category, key)` to a reading. Writing a pair again replaces its reading.
#[derive(Debug, Clone)]
pub struct Results {
    entries: Vec<ResultEntry>,
}

pub type ResultKey = (Seq<char>, Seq<char>);

/// The map that a list of writes leaves, later writes replacing earlier ones.
pub open spec fn entries_map(es: Seq<ResultEntry>) -> Map<ResultKey, Seq<char>>
    decreases es.len(),
{
    if es.len() == 0 {
        Map::empty()
    } else {
        entries_map(es.drop_last()).insert(
            (es.last().category@, es.last().key@),
            es.last().value@,
        )
    }
}

impl View for Results {
    type V = Map<ResultKey, Seq<char>>;

    closed spec fn view(&self) -> Map<ResultKey, Seq<char>> {
        entries_map(self.entries@)
    }
}

/// The reading for `(category, key)`, or the empty text when there is none.
pub open spec fn reading_or_empty(m: Map<ResultKey, Seq<char>>, category: Seq<char>, key: Seq<
    char,
>) -> Seq<char> {
    if m.contains_key((category, key)) {
        m[(category, key)]
    } else {
        Seq::empty()
    }
}

proof fn lemma_entries_map_no_later_match(es: Seq<ResultEntry>, idx: int, k: ResultKey)
    requires
        0 <= idx <= es.len(),
        forall|q: int| idx <= q < es.len() ==> (#[trigger] es[q].category@, es[q].key@) != k,
    ensures
        entries_map(es).contains_key(k) == entries_map(es.take(idx)).contains_key(k),
        entries_map(es).contains_key(k) ==> entries_map(es)[k] == entries_map(es.take(idx))[k],
    decreases es.len() - idx,
{
    if idx < es.len() {
        let d = es.drop_last();
        assert(d.take(idx) =~= es.take(idx));
        assert forall|q: int| idx <= q < d.len() implies (#[trigger] d[q].category@, d[q].key@) != k by {
            assert(d[q] == es[q]);
        }
        lemma_entries_map_no_later_match(d, idx, k);
        assert((es.last().category@, es.last().key@) != k);
    } else {
        assert(es.take(idx) =~= es);
    }
}

/// Whether any reading of `category` is recorded.
pub open spec fn has_category(m: Map<ResultKey, Seq<char>>, category: Seq<char>) -> bool {
    exists|k: Seq<char>| m.contains_key((category, k))
}

/// A pair has a reading exactly when some write was made for it.
proof fn lemma_entries_map_keys(es: Seq<ResultEntry>, k: ResultKey)
    ensures
        entries_map(es).contains_key(k) <==> exists|q: int| 0 <= q < es.len() && (#[trigger] es[q].category@, es[q].key@) == k,
    decreases es.len(),
{
    if es.len() > 0 {
        let d = es.drop_last();
        lemma_entries_map_keys(d, k);
        if entries_map(d).contains_key(k) {
            let q = choose|q: int| 0 <= q < d.len() && (#[trigger] d[q].category@, d[q].key@) == k;
            assert(es[q] == d[q]);
        }
        if exists|q: int| 0 <= q < es.len() && (#[trigger] es[q].category@, es[q].key@) == k {
            let q = choose|q: int| 0 <= q < es.len() && (#[trigger] es[q].category@, es[q].key@) == k;
            if q < d.len() {
                assert(d[q] == es[q]);
            }
        }
    }
}

impl Results {
    pub fn new() -> (r: Results)
        ensures
            r@ == Map::<ResultKey, Seq<char>>::empty(),
    {
        Results { entries: Vec::new() }
    }

    /// Records `value` for `(category, key)`, replacing any earlier reading.
    pub fn insert(&mut self, category: &str, key: &str, value: &str)
        ensures
            final(self)@ == old(self)@.insert((category@, key@), value@),
    {
        let e = ResultEntry { category: category.to_owned(), key: key.to_owned(), value: value.to_owned() };
        let ghost before = self.entries@;
        self.entries.push(e);
        assert(self.entries@.drop_last() =~= before);
    }

    /// The reading for `(category, key)`, if there is one.
    pub fn get(&self, category: &str, key: &str) -> (r: Option<&String>)
        ensures
            match r {
                Some(v) => self@.contains_key((category@, key@)) && v@ == self@[(category@, key@)],
                None => !self@.contains_key((category@, key@)),
            },
    {
        let ghost k = (category@, key@);
        let ghost es = self.entries@;
        let mut idx = self.entries.len();
        while idx > 0
            invariant
                idx <= es.len(),
                es == self.entries@,
                k == (category@, key@),
                forall|q: int| idx <= q < es.len() ==> (#[trigger] es[q].category@, es[q].key@) != k,
            decreases idx,
        {
            let e = &self.entries[idx - 1];
            assert(*e == es[idx - 1]);
            let c_eq = crate::text::str_eq(e.category.as_str(), category);
            let k_eq = crate::text::str_eq(e.key.as_str(), key);
            assert(c_eq == (es[idx - 1].category@ == category@));
            assert(k_eq == (es[idx - 1].key@ == key@));
            if c_eq && k_eq {
                proof {
                    lemma_entries_map_no_later_match(es, idx as int, k);
                    let t = es.take(idx as int);
                    assert(t.drop_last() =~= es.take(idx - 1));
                    assert(t.last() == es[idx - 1]);
                    assert((t.last().category@, t.last().key@) == k);
                    assert(entries_map(t) == entries_map(t.drop_last()).insert(k, t.last().value@));
                }
                return Some(&e.value);
            }
            assert((es[idx - 1].category@, es[idx - 1].key@) != k);
            idx = idx - 1;
        }
        proof {
            lemma_entries_map_no_later_match(es, 0, k);
            assert(es.take(0) =~= Seq::<ResultEntry>::empty());
        }
        None
    }

    /// The reading for `(category, key)`, or an empty string.
    pub fn get_or_empty(&self, category: &str, key: &str) -> (r: String)
        ensures
            r@ == reading_or_empty(self@, category@, key@),
    {
        match self.get(category, key) {
            Some(v) => v.clone(),
            None => String::new(),
        }
    }

    /// Whether any reading of `category` was recorded.
    pub fn has_category(&self, category: &str) -> (b: bool)
        ensures
            b == has_category(self@, category@),
    {
        let ghost es = self.entries@;
        for q in 0..self.entries.len()
            invariant
                es == self.entries@,
                forall|p: int| 0 <= p < q ==> (#[trigger] es[p]).category@ != category@,
        {
            if crate::text::str_eq(self.entries[q].category.as_str(), category) {
                proof {
                    lemma_entries_map_keys(es, (es[q as int].category@, es[q as int].key@));
                }
                return true;
            }
        }
        proof {
            assert forall|k: Seq<char>| !self@.contains_key((category@, k)) by {
                lemma_entries_map_keys(es, (category@, k));
            }
        }
        false
    }

    /// The writes made so far, oldest first; a later write of a pair replaces an earlier one.
    pub fn entries(&self) -> (r: &[ResultEntry])
        ensures
            entries_map(r@) == self@,
    {
        self.entries.as_slice()
    }
}

} // verus!
