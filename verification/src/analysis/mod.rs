//! Segmentation of the merged observation stream into runs of a constant reading,
//! attributed to the game age in which they happened.
use vstd::prelude::*;
use crate::text::{dec_padded, push_decimal_padded, str_eq};
use crate::types::{MergedRow, is_screen_grab, is_rec_event};

pub mod floating;
pub mod smoothing;
pub mod idle;
pub mod housing;

verus! {

// ---------------------------------------------------------------------------
// Time formatting
// ---------------------------------------------------------------------------

/// `mm:ss.mmm`: whole minutes (at least two digits), seconds within the minute and
/// milliseconds within the second.
pub open spec fn format_time_spec(ms: u64) -> Seq<char> {
    dec_padded((ms / 60000) as nat, 2) + seq![':'] + dec_padded(((ms % 60000) / 1000) as nat, 2)
        + seq!['.'] + dec_padded((ms % 1000) as nat, 3)
}

/// Renders an in-game timestamp as `mm:ss.mmm`.
pub fn format_time(ms: u64) -> (s: String)
    ensures
        s@ == format_time_spec(ms),
{
    let minutes = ms / 60000;
    let seconds = (ms % 60000) / 1000;
    let millis = ms % 1000;
    let mut s = String::new();
    push_decimal_padded(&mut s, minutes as u128, 2);
    s.push(':');
    push_decimal_padded(&mut s, seconds as u128, 2);
    s.push('.');
    push_decimal_padded(&mut s, millis as u128, 3);
    assert(s@ =~= format_time_spec(ms));
    s
}

// ---------------------------------------------------------------------------
// Segment values
// ---------------------------------------------------------------------------

/// A value that a segment can hold: it can be compared and copied by its view.
pub trait SegmentValue: Sized + View {
    fn same_value(&self, other: &Self) -> (b: bool)
        ensures
            b == (self@ == other@),
    ;

    fn duplicate(&self) -> (d: Self)
        ensures
            d@ == self@,
    ;
}

impl SegmentValue for u32 {
    fn same_value(&self, other: &Self) -> (b: bool) {
        *self == *other
    }

    fn duplicate(&self) -> (d: Self) {
        *self
    }
}

impl SegmentValue for String {
    fn same_value(&self, other: &Self) -> (b: bool) {
        *self == *other
    }

    fn duplicate(&self) -> (d: Self) {
        self.clone()
    }
}

// ---------------------------------------------------------------------------
// Segments
// ---------------------------------------------------------------------------

#[derive(Debug, Clone, PartialEq, Eq)]
pub enum SegmentEndReason {
    ValueChanged,
    AgeResearch(String),
    EndOfData,
}

#[derive(Debug, Clone, PartialEq)]
pub struct GameSegment<T> {
    pub start_ms: u64,
    pub end_ms: u64,
    pub value: T,
    pub age: String,
    pub end_reason: SegmentEndReason,
}

pub type VsSegment = GameSegment<u32>;

pub type HousingSegment = GameSegment<String>;

/// Why a segment ended, by the characters of the age it names.
pub enum ReasonView {
    ValueChanged,
    AgeResearch(Seq<char>),
    EndOfData,
}

/// A segment by its views.
pub struct SegView<V> {
    pub start_ms: u64,
    pub end_ms: u64,
    pub value: V,
    pub age: Seq<char>,
    pub end_reason: ReasonView,
}

pub open spec fn reason_view(r: SegmentEndReason) -> ReasonView {
    match r {
        SegmentEndReason::ValueChanged => ReasonView::ValueChanged,
        SegmentEndReason::AgeResearch(a) => ReasonView::AgeResearch(a@),
        SegmentEndReason::EndOfData => ReasonView::EndOfData,
    }
}

pub open spec fn seg_view<T: View>(s: GameSegment<T>) -> SegView<T::V> {
    SegView {
        start_ms: s.start_ms,
        end_ms: s.end_ms,
        value: s.value@,
        age: s.age@,
        end_reason: reason_view(s.end_reason),
    }
}

pub open spec fn segs_view<T: View>(s: Seq<GameSegment<T>>) -> Seq<SegView<T::V>> {
    s.map_values(|g: GameSegment<T>| seg_view(g))
}

pub open spec fn opt_view<T: View>(o: Option<T>) -> Option<T::V> {
    match o {
        Some(v) => Some(v@),
        None => None,
    }
}

/// The age that a replay event description advances to, if it is an age-up click.
pub open spec fn age_up_target(desc: Seq<char>) -> Option<Seq<char>> {
    if desc == "Research Feudal Age"@ {
        Some("Feudal Age"@)
    } else if desc == "Research Castle Age"@ {
        Some("Castle Age"@)
    } else if desc == "Research Imperial Age"@ {
        Some("Imperial Age"@)
    } else {
        None
    }
}

/// The state of the segmentation after a prefix of the rows.
pub struct SegState<V> {
    /// The reading of the open segment, once a first reading was seen.
    pub current: Option<V>,
    /// Where the open segment started.
    pub start: u64,
    /// Timestamp of the last row seen.
    pub last: u64,
    /// The current game age.
    pub age: Seq<char>,
    /// The segments closed so far.
    pub segs: Seq<SegView<V>>,
}

pub open spec fn seg_init<V>() -> SegState<V> {
    SegState { current: None, start: 0, last: 0, age: "Dark Age"@, segs: Seq::empty() }
}

/// One row: a screen grab with a reading closes the open segment when the reading
/// differs; an age-up click closes it at the click and starts the new age.
pub open spec fn seg_step<V>(st: SegState<V>, row: MergedRow, val: Option<V>) -> SegState<V> {
    let ts = row.in_game_ms;
    let st = SegState { last: ts, ..st };
    if is_screen_grab(row) {
        match val {
            None => st,
            Some(v) => match st.current {
                None => SegState { current: Some(v), start: ts, ..st },
                Some(old) => if old == v {
                    st
                } else {
                    SegState {
                        current: Some(v),
                        start: ts,
                        segs: st.segs.push(
                            SegView {
                                start_ms: st.start,
                                end_ms: ts,
                                value: old,
                                age: st.age,
                                end_reason: ReasonView::ValueChanged,
                            },
                        ),
                        ..st
                    }
                },
            },
        }
    } else if is_rec_event(row) && age_up_target(row.event_desc@) is Some {
        let new_age = age_up_target(row.event_desc@)->0;
        let segs = match st.current {
            Some(old) => st.segs.push(
                SegView {
                    start_ms: st.start,
                    end_ms: ts,
                    value: old,
                    age: st.age,
                    end_reason: ReasonView::AgeResearch(new_age),
                },
            ),
            None => st.segs,
        };
        SegState { age: new_age, start: ts, segs, ..st }
    } else {
        st
    }
}

/// An age-up click (a replay event `Research Feudal Age`, `Research Castle Age` or
/// `Research Imperial Age`) moves the game into that age from the click on: the open
/// segment, if any, is closed at the click with the age researched as its reason, and the
/// next segment starts at the click; the reading carries over.
pub proof fn law_age_click_closes_segment<V>(st: SegState<V>, row: MergedRow, val: Option<V>, age: Seq<char>)
    requires
        row.observation_type@ == "RecEvent"@,
        (row.event_desc@ == "Research Feudal Age"@ && age == "Feudal Age"@)
            || (row.event_desc@ == "Research Castle Age"@ && age == "Castle Age"@)
            || (row.event_desc@ == "Research Imperial Age"@ && age == "Imperial Age"@),
    ensures
        seg_step(st, row, val).age == age,
        seg_step(st, row, val).start == row.in_game_ms,
        seg_step(st, row, val).current == st.current,
        st.current matches Some(old) ==> seg_step(st, row, val).segs == st.segs.push(
            SegView {
                start_ms: st.start,
                end_ms: row.in_game_ms,
                value: old,
                age: st.age,
                end_reason: ReasonView::AgeResearch(age),
            },
        ),
        st.current is None ==> seg_step(st, row, val).segs == st.segs,
{
    reveal_strlit("ScreenGrab");
    reveal_strlit("RecEvent");
    reveal_strlit("Research Feudal Age");
    reveal_strlit("Research Castle Age");
    reveal_strlit("Research Imperial Age");
    assert("ScreenGrab"@[0] != "RecEvent"@[0]);
    assert("Research Feudal Age"@[9] != "Research Castle Age"@[9]);
    assert("Research Feudal Age"@[9] != "Research Imperial Age"@[9]);
    assert("Research Castle Age"@[9] != "Research Imperial Age"@[9]);
    assert(age_up_target(row.event_desc@) == Some(age));
}

/// After a stream whose last row is an age-up click, the game is in the age researched.
pub proof fn law_age_after_click<V>(rows: Seq<MergedRow>, vals: Seq<Option<V>>, age: Seq<char>)
    requires
        rows.len() > 0,
        vals.len() == rows.len(),
        rows.last().observation_type@ == "RecEvent"@,
        (rows.last().event_desc@ == "Research Feudal Age"@ && age == "Feudal Age"@)
            || (rows.last().event_desc@ == "Research Castle Age"@ && age == "Castle Age"@)
            || (rows.last().event_desc@ == "Research Imperial Age"@ && age == "Imperial Age"@),
    ensures
        seg_fold(rows, vals).age == age,
{
    let prev = seg_fold(rows.drop_last(), vals.take(rows.len() - 1));
    law_age_click_closes_segment(prev, rows.last(), vals[rows.len() - 1], age);
}

pub open spec fn seg_fold<V>(rows: Seq<MergedRow>, vals: Seq<Option<V>>) -> SegState<V>
    decreases rows.len(),
{
    if rows.len() == 0 {
        seg_init()
    } else {
        seg_step(
            seg_fold(rows.drop_last(), vals.take(rows.len() - 1)),
            rows.last(),
            vals[rows.len() - 1],
        )
    }
}

/// The segments of a stream whose rows give the readings `vals`: the closed segments,
/// then the open one (if a reading was ever seen) ending at the last row.
pub open spec fn segments_spec<V>(rows: Seq<MergedRow>, vals: Seq<Option<V>>) -> Seq<SegView<V>> {
    let st = seg_fold(rows, vals);
    match st.current {
        Some(v) => st.segs.push(
            SegView {
                start_ms: st.start,
                end_ms: st.last,
                value: v,
                age: st.age,
                end_reason: ReasonView::EndOfData,
            },
        ),
        None => st.segs,
    }
}

/// The invariant shape of a segmentation state: closed segments chain into each other
/// and into the open one, and nothing closed so far ended by end of data.
pub open spec fn seg_state_ok<V>(st: SegState<V>) -> bool {
    &&& st.current is None ==> st.segs.len() == 0
    &&& st.segs.len() > 0 ==> st.segs.last().end_ms == st.start
    &&& forall|i: int| 0 <= i < st.segs.len() - 1 ==> #[trigger] st.segs[i].end_ms == st.segs[i
        + 1].start_ms
    &&& forall|i: int| 0 <= i < st.segs.len() ==> !(#[trigger] st.segs[i].end_reason is EndOfData)
    &&& forall|i: int|
        0 <= i < st.segs.len() - 1 && #[trigger] st.segs[i].end_reason is AgeResearch
            ==> st.segs[i + 1].age == st.segs[i].end_reason->AgeResearch_0
    &&& st.segs.len() > 0 && st.segs.last().end_reason is AgeResearch ==> st.age
        == st.segs.last().end_reason->AgeResearch_0
    &&& forall|i: int|
        0 <= i < st.segs.len() - 1 && #[trigger] st.segs[i].end_reason is ValueChanged
            ==> st.segs[i + 1].value != st.segs[i].value
    &&& st.segs.len() > 0 && st.segs.last().end_reason is ValueChanged ==> st.current
        != Some(st.segs.last().value)
}

proof fn lemma_seg_fold_ok<V>(rows: Seq<MergedRow>, vals: Seq<Option<V>>)
    requires
        vals.len() == rows.len(),
    ensures
        seg_state_ok(seg_fold(rows, vals)),
    decreases rows.len(),
{
    if rows.len() > 0 {
        lemma_seg_fold_ok(rows.drop_last(), vals.take(rows.len() - 1));
        let st = seg_fold(rows.drop_last(), vals.take(rows.len() - 1));
        let nx = seg_fold(rows, vals);
        assert(nx == seg_step(st, rows.last(), vals[rows.len() - 1]));
        if nx.segs.len() > st.segs.len() {
            assert(nx.segs == st.segs.push(nx.segs.last()));
            assert forall|i: int| 0 <= i < nx.segs.len() - 1 implies #[trigger] nx.segs[i].end_ms
                == nx.segs[i + 1].start_ms by {
                if i < st.segs.len() - 1 {
                    assert(nx.segs[i] == st.segs[i]);
                    assert(nx.segs[i + 1] == st.segs[i + 1]);
                }
            }
            assert forall|i: int|
                0 <= i < nx.segs.len() - 1 && #[trigger] nx.segs[i].end_reason is AgeResearch
                implies nx.segs[i + 1].age == nx.segs[i].end_reason->AgeResearch_0 by {
                if i < st.segs.len() - 1 {
                    assert(nx.segs[i] == st.segs[i]);
                    assert(nx.segs[i + 1] == st.segs[i + 1]);
                }
            }
            assert forall|i: int|
                0 <= i < nx.segs.len() - 1 && #[trigger] nx.segs[i].end_reason is ValueChanged
                implies nx.segs[i + 1].value != nx.segs[i].value by {
                if i < st.segs.len() - 1 {
                    assert(nx.segs[i] == st.segs[i]);
                    assert(nx.segs[i + 1] == st.segs[i + 1]);
                }
            }
            assert forall|i: int| 0 <= i < nx.segs.len() implies !(
            #[trigger] nx.segs[i].end_reason is EndOfData) by {
                if i < st.segs.len() {
                    assert(nx.segs[i] == st.segs[i]);
                }
            }
        } else {
            assert(nx.segs == st.segs);
        }
    }
}

/// The age an event description advances to, if it is an age-up click.
pub fn age_up_target_of(desc: &str) -> (r: Option<String>)
    ensures
        opt_view(r) == age_up_target(desc@),
{
    if str_eq(desc, "Research Feudal Age") {
        Some("Feudal Age".to_owned())
    } else if str_eq(desc, "Research Castle Age") {
        Some("Castle Age".to_owned())
    } else if str_eq(desc, "Research Imperial Age") {
        Some("Imperial Age".to_owned())
    } else {
        None
    }
}

/// Splits the stream into segments of constant reading (as `extractor` reads each screen
/// grab; grabs it reads nothing from are skipped), closing a segment whenever the reading
/// changes or an age-up is clicked, and a last one at the end of the data.
pub fn segment_game<T: SegmentValue, F: Fn(&MergedRow) -> Option<T>>(
    rows: &[MergedRow],
    extractor: F,
) -> (segments: Vec<GameSegment<T>>)
    requires
        forall|r: &MergedRow| #[trigger] extractor.requires((r,)),
    ensures
        exists|raw: Seq<Option<T>>|
            {
                &&& raw.len() == rows@.len()
                &&& forall|k: int|
                    0 <= k < rows@.len() && is_screen_grab(rows@[k]) ==> #[trigger] extractor.ensures(
                        (&rows@[k],),
                        raw[k],
                    )
                &&& segs_view(segments@) == segments_spec(
                    rows@,
                    raw.map_values(|o: Option<T>| opt_view(o)),
                )
            },
{
    let mut segments: Vec<GameSegment<T>> = Vec::new();
    let mut current_value: Option<T> = None;
    let mut segment_start_ms: u64 = 0;
    let mut last_ig_ms: u64 = 0;
    let mut current_age = "Dark Age".to_owned();
    let ghost mut raw: Seq<Option<T>> = Seq::empty();

    for i in 0..rows.len()
        invariant
            forall|r: &MergedRow| #[trigger] extractor.requires((r,)),
            raw.len() == i,
            forall|k: int|
                0 <= k < i && is_screen_grab(rows@[k]) ==> #[trigger] extractor.ensures(
                    (&rows@[k],),
                    raw[k],
                ),
            ({
                let st = seg_fold(
                    rows@.take(i as int),
                    raw.map_values(|o: Option<T>| opt_view(o)),
                );
                &&& st.current == opt_view(current_value)
                &&& st.start == segment_start_ms
                &&& st.last == last_ig_ms
                &&& st.age == current_age@
                &&& st.segs == segs_view(segments@)
            }),
    {
        let row = &rows[i];
        let ghost vals_before = raw.map_values(|o: Option<T>| opt_view(o));
        let ghost segs_before = segments@;
        last_ig_ms = row.in_game_ms;
        let ig_ms = row.in_game_ms;
        if str_eq(row.observation_type.as_str(), "ScreenGrab") {
            let new_value = extractor(row);
            proof {
                raw = raw.push(new_value);
            }
            if let Some(nv) = new_value {
                match current_value {
                    None => {
                        segment_start_ms = ig_ms;
                        current_value = Some(nv);
                    },
                    Some(old) => {
                        if old.same_value(&nv) {
                            current_value = Some(old);
                        } else {
                            segments.push(
                                GameSegment {
                                    start_ms: segment_start_ms,
                                    end_ms: ig_ms,
                                    value: old,
                                    age: current_age.clone(),
                                    end_reason: SegmentEndReason::ValueChanged,
                                },
                            );
                            segment_start_ms = ig_ms;
                            current_value = Some(nv);
                        }
                    },
                }
            }
        } else {
            proof {
                raw = raw.push(None);
            }
            if str_eq(row.observation_type.as_str(), "RecEvent") {
                if let Some(age_name) = age_up_target_of(row.event_desc.as_str()) {
                    if let Some(ref val) = current_value {
                        segments.push(
                            GameSegment {
                                start_ms: segment_start_ms,
                                end_ms: ig_ms,
                                value: val.duplicate(),
                                age: current_age.clone(),
                                end_reason: SegmentEndReason::AgeResearch(age_name.clone()),
                            },
                        );
                    }
                    current_age = age_name;
                    segment_start_ms = ig_ms;
                }
            }
        }
        proof {
            let vals_after = raw.map_values(|o: Option<T>| opt_view(o));
            assert(rows@.take(i + 1).drop_last() =~= rows@.take(i as int));
            assert(vals_after.take(i as int) =~= vals_before);
            assert(rows@.take(i + 1).last() == *row);
            if segments@.len() > segs_before.len() {
                assert(segments@ == segs_before.push(segments@.last()));
                assert(segs_view(segments@) =~= segs_view(segs_before).push(
                    seg_view(segments@.last()),
                ));
            } else {
                assert(segments@ == segs_before);
            }
        }
    }
    proof {
        assert(rows@.take(rows@.len() as int) =~= rows@);
    }
    let ghost segs_before = segments@;
    if let Some(val) = current_value {
        segments.push(
            GameSegment {
                start_ms: segment_start_ms,
                end_ms: last_ig_ms,
                value: val,
                age: current_age,
                end_reason: SegmentEndReason::EndOfData,
            },
        );
        assert(segs_view(segments@) =~= segs_view(segs_before).push(seg_view(segments@.last())));
    }
    segments
}

/// Segments tile the time they cover: each one starts where the previous one ended;
/// only the last one ends by end of data, and it ends at the last row's timestamp; a
/// segment closed by an age-up click is followed by one in that age; a segment closed by
/// a change of reading is followed by one with a different reading.
pub proof fn law_segments_well_formed<V>(rows: Seq<MergedRow>, vals: Seq<Option<V>>)
    requires
        vals.len() == rows.len(),
    ensures
        ({
            let segs = segments_spec(rows, vals);
            &&& forall|i: int| 0 <= i < segs.len() - 1 ==> #[trigger] segs[i].end_ms == segs[i
                + 1].start_ms
            &&& forall|i: int| 0 <= i < segs.len() - 1 ==> !(#[trigger] segs[i].end_reason is EndOfData)
            &&& segs.len() > 0 ==> segs.last().end_reason is EndOfData && segs.last().end_ms
                == rows.last().in_game_ms
            &&& forall|i: int|
                0 <= i < segs.len() - 1 && #[trigger] segs[i].end_reason is AgeResearch
                    ==> segs[i + 1].age == segs[i].end_reason->AgeResearch_0
            &&& forall|i: int|
                0 <= i < segs.len() - 1 && #[trigger] segs[i].end_reason is ValueChanged
                    ==> segs[i + 1].value != segs[i].value
        }),
{
    lemma_seg_fold_ok(rows, vals);
    let st = seg_fold(rows, vals);
    let segs = segments_spec(rows, vals);
    if st.current is Some {
        assert(rows.len() > 0) by {
            if rows.len() == 0 {
                assert(st == seg_init::<V>());
            }
        }
        assert(segs == st.segs.push(segs.last()));
        assert forall|i: int| 0 <= i < segs.len() - 1 implies #[trigger] segs[i].end_ms == segs[i
            + 1].start_ms by {
            assert(segs[i] == st.segs[i]);
            if i < st.segs.len() - 1 {
                assert(segs[i + 1] == st.segs[i + 1]);
            }
        }
        assert forall|i: int|
            0 <= i < segs.len() - 1 && #[trigger] segs[i].end_reason is AgeResearch implies segs[i
                + 1].age == segs[i].end_reason->AgeResearch_0 by {
            assert(segs[i] == st.segs[i]);
            if i < st.segs.len() - 1 {
                assert(segs[i + 1] == st.segs[i + 1]);
            }
        }
        assert forall|i: int|
            0 <= i < segs.len() - 1 && #[trigger] segs[i].end_reason is ValueChanged implies segs[i
                + 1].value != segs[i].value by {
            assert(segs[i] == st.segs[i]);
            if i < st.segs.len() - 1 {
                assert(segs[i + 1] == st.segs[i + 1]);
            }
        }
        assert forall|i: int| 0 <= i < segs.len() - 1 implies !(#[trigger] segs[i].end_reason is EndOfData) by {
            assert(segs[i] == st.segs[i]);
        }
    } else {
        assert(segs == st.segs);
        assert(segs.len() == 0);
    }
}


/// The segmentation reads the readings of screen grabs only: streams whose readings agree
/// on the screen grabs give the same state.
pub proof fn lemma_seg_fold_grabs_only<V>(rows: Seq<MergedRow>, a: Seq<Option<V>>, b: Seq<Option<V>>)
    requires
        a.len() == rows.len(),
        b.len() == rows.len(),
        forall|k: int| 0 <= k < rows.len() && is_screen_grab(rows[k]) ==> a[k] == b[k],
    ensures
        seg_fold(rows, a) == seg_fold(rows, b),
        segments_spec(rows, a) == segments_spec(rows, b),
    decreases rows.len(),
{
    if rows.len() > 0 {
        let n = rows.len() - 1;
        assert forall|k: int| 0 <= k < rows.drop_last().len() && is_screen_grab(rows.drop_last()[k])
            implies a.take(n)[k] == b.take(n)[k] by {
            assert(rows.drop_last()[k] == rows[k]);
        }
        lemma_seg_fold_grabs_only(rows.drop_last(), a.take(n), b.take(n));
    }
}

/// The note that a segment ended by an age-up click: ` (<age> Click)`.
pub open spec fn annotation_spec(r: ReasonView) -> Seq<char> {
    match r {
        ReasonView::AgeResearch(age) => " ("@ + age + " Click)"@,
        _ => Seq::empty(),
    }
}

pub fn annotation(r: &SegmentEndReason) -> (s: String)
    ensures
        s@ == annotation_spec(reason_view(*r)),
{
    match r {
        SegmentEndReason::AgeResearch(age) => {
            let mut s = " (".to_owned();
            let cs = crate::text::chars_of(age.as_str());
            for i in 0..cs.len()
                invariant
                    s@ == " ("@ + cs@.take(i as int),
                    cs@ == age@,
            {
                s.push(cs[i]);
                assert(cs@.take(i + 1) =~= cs@.take(i as int).push(cs@[i as int]));
                assert(s@ =~= " ("@ + cs@.take(i + 1));
            }
            let tail = " Click)";
            let ts = crate::text::chars_of(tail);
            let ghost mid = s@;
            for i in 0..ts.len()
                invariant
                    s@ == mid + ts@.take(i as int),
            {
                s.push(ts[i]);
                assert(ts@.take(i + 1) =~= ts@.take(i as int).push(ts@[i as int]));
            }
            assert(cs@.take(cs@.len() as int) =~= cs@);
            assert(ts@.take(ts@.len() as int) =~= ts@);
            assert(s@ =~= " ("@ + age@ + " Click)"@);
            s
        },
        _ => String::new(),
    }
}

/// Totals by key, in order of first appearance.
pub open spec fn key_index(totals: Seq<(Seq<char>, nat)>, key: Seq<char>, k: int) -> Option<int>
    decreases totals.len() - k,
{
    if k < 0 || k >= totals.len() {
        None
    } else if totals[k].0 == key {
        Some(k)
    } else {
        key_index(totals, key, k + 1)
    }
}

/// `amount` added to the total of `key`, which is appended when new.
pub open spec fn add_total(totals: Seq<(Seq<char>, nat)>, key: Seq<char>, amount: nat) -> Seq<(Seq<char>, nat)> {
    match key_index(totals, key, 0) {
        Some(i) => totals.update(i, (key, totals[i].1 + amount)),
        None => totals.push((key, amount)),
    }
}

pub open spec fn totals_view(v: Seq<(String, u128)>) -> Seq<(Seq<char>, nat)> {
    v.map_values(|e: (String, u128)| (e.0@, e.1 as nat))
}

pub proof fn lemma_key_index(totals: Seq<(Seq<char>, nat)>, key: Seq<char>, k: int)
    requires
        0 <= k,
    ensures
        key_index(totals, key, k) matches Some(j) ==> k <= j < totals.len() && totals[j].0 == key,
    decreases totals.len() - k,
{
    if k < totals.len() && totals[k].0 != key {
        lemma_key_index(totals, key, k + 1);
    }
}

/// Adds `amount` to the total of `key`, appending the key when new.
pub fn add_to_total(totals: &mut Vec<(String, u128)>, key: &String, amount: u128)
    requires
        forall|i: int| 0 <= i < old(totals)@.len() ==> (#[trigger] old(totals)@[i]).1 + amount <= u128::MAX,
    ensures
        totals_view(final(totals)@) == add_total(totals_view(old(totals)@), key@, amount as nat),
{
    let ghost tv = totals_view(totals@);
    let mut k: usize = 0;
    while k < totals.len()
        invariant
            k <= totals@.len(),
            tv == totals_view(totals@),
            totals@ == old(totals)@,
            forall|i: int| 0 <= i < old(totals)@.len() ==> (#[trigger] old(totals)@[i]).1 + amount <= u128::MAX,
            key_index(tv, key@, 0) == key_index(tv, key@, k as int),
        decreases totals.len() - k,
    {
        if totals[k].0 == *key {
            let cur = totals[k].1;
            proof {
                assert(tv[k as int].0 == key@);
                assert(old(totals)@[k as int].1 + amount <= u128::MAX);
            }
            let name = totals[k].0.clone();
            totals.set(k, (name, cur + amount));
            assert(totals_view(totals@) =~= tv.update(k as int, (key@, tv[k as int].1 + amount as nat)));
            return;
        }
        k = k + 1;
    }
    totals.push((key.clone(), amount));
    assert(totals_view(totals@) =~= tv.push((key@, amount as nat)));
}


pub proof fn lemma_map_push<A, B>(s: Seq<A>, x: A, f: spec_fn(A) -> B)
    ensures
        s.push(x).map_values(f) == s.map_values(f).push(f(x)),
{
    assert(s.push(x).map_values(f) =~= s.map_values(f).push(f(x)));
}

/// Adding to a total keeps every total within the running sum.
pub proof fn lemma_add_total_bound(t: Seq<(Seq<char>, nat)>, key: Seq<char>, amount: nat, bound: nat)
    requires
        forall|i: int| 0 <= i < t.len() ==> (#[trigger] t[i]).1 <= bound,
    ensures
        forall|i: int| 0 <= i < add_total(t, key, amount).len() ==> (#[trigger] add_total(t, key, amount)[i]).1 <= bound + amount,
{
    lemma_key_index(t, key, 0);
}

} // verus!
