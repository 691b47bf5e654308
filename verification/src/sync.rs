//! Aligning the replay's in-game clock with the wall clock of the screen telemetry.
//!
//! Two anchor points are found: the first resource drop seen on screen, matched with the
//! replay command whose cumulative cost first covers that drop; and the Feudal Age click,
//! matched with a drop of at least 450 food on screen near where it is expected at the
//! default game speed (1.7). The speed factor and game start derived from the anchors
//! are floating-point figures computed by the caller.
use vstd::prelude::*;
use crate::replay::{ReplayEvent, ResourceCost};
use crate::types::CsvRow;
use crate::text::str_eq;

verus! {

/// The two anchors, each an (in-game, wall-clock) pair of milliseconds; the second is
/// all zeros when it was not found.
#[derive(Debug, Clone, Copy, PartialEq, Eq)]
pub struct TimingAnchors {
    pub anchor1_ig: u64,
    pub anchor1_rw: u64,
    pub anchor2_ig: u64,
    pub anchor2_rw: u64,
}

pub open spec fn unwrap_or(o: Option<u32>, d: u32) -> u32 {
    match o {
        Some(x) => x,
        None => d,
    }
}

/// `o < Some(b)` in the order of `Option` (where `None` is below every `Some`).
pub open spec fn below(o: Option<u32>, b: u32) -> bool {
    match o {
        Some(x) => x < b,
        None => true,
    }
}

/// The first row at or after `k` stamped at or after `start`.
pub open spec fn first_frame_from(rows: Seq<CsvRow>, start: u64, k: int) -> Option<int>
    decreases rows.len() - k,
{
    if k < 0 || k >= rows.len() {
        None
    } else if rows[k].timestamp_ms >= start {
        Some(k)
    } else {
        first_frame_from(rows, start, k + 1)
    }
}

pub open spec fn is_drop(row: CsvRow, start: u64, food0: u32, wood0: u32) -> bool {
    row.timestamp_ms >= start && (below(row.food, food0) || below(row.wood, wood0))
}

/// The first row at or after `k` where food or wood went below the starting amounts.
pub open spec fn first_drop_from(rows: Seq<CsvRow>, start: u64, food0: u32, wood0: u32, k: int) -> Option<
    int,
>
    decreases rows.len() - k,
{
    if k < 0 || k >= rows.len() {
        None
    } else if is_drop(rows[k], start, food0, wood0) {
        Some(k)
    } else {
        first_drop_from(rows, start, food0, wood0, k + 1)
    }
}

/// The cost of a command that spends resources.
pub open spec fn cost_of(e: ReplayEvent) -> Option<ResourceCost> {
    match e {
        ReplayEvent::TechResearch { cost, .. } => Some(cost),
        ReplayEvent::UnitQueued { cost, .. } => Some(cost),
        ReplayEvent::BuildingConstruction { cost, .. } => Some(cost),
        _ => None,
    }
}

pub open spec fn time_of(e: ReplayEvent) -> u32 {
    match e {
        ReplayEvent::TechResearch { timestamp_ms, .. } => timestamp_ms,
        ReplayEvent::UnitQueued { timestamp_ms, .. } => timestamp_ms,
        ReplayEvent::QueueCancellation { timestamp_ms, .. } => timestamp_ms,
        ReplayEvent::BuildingConstruction { timestamp_ms, .. } => timestamp_ms,
        ReplayEvent::Deletion { timestamp_ms, .. } => timestamp_ms,
    }
}

/// Food spent by the first `k` commands.
pub open spec fn cum_food(events: Seq<ReplayEvent>, k: int) -> int
    decreases k,
{
    if k <= 0 || k > events.len() {
        0
    } else {
        cum_food(events, k - 1) + match cost_of(events[k - 1]) {
            Some(c) => c.food as int,
            None => 0,
        }
    }
}

/// Wood spent by the first `k` commands.
pub open spec fn cum_wood(events: Seq<ReplayEvent>, k: int) -> int
    decreases k,
{
    if k <= 0 || k > events.len() {
        0
    } else {
        cum_wood(events, k - 1) + match cost_of(events[k - 1]) {
            Some(c) => c.wood as int,
            None => 0,
        }
    }
}

/// The first spending command at or after `k` by which the cumulative food and wood
/// spent reach `df` and `dw`.
pub open spec fn covering_event_from(events: Seq<ReplayEvent>, df: u32, dw: u32, k: int) -> Option<int>
    decreases events.len() - k,
{
    if k < 0 || k >= events.len() {
        None
    } else if cost_of(events[k]) is Some && cum_food(events, k + 1) >= df && cum_wood(events, k + 1)
        >= dw {
        Some(k)
    } else {
        covering_event_from(events, df, dw, k + 1)
    }
}

/// The first Feudal Age research at or after `k`.
pub open spec fn feudal_from(events: Seq<ReplayEvent>, k: int) -> Option<int>
    decreases events.len() - k,
{
    if k < 0 || k >= events.len() {
        None
    } else if events[k] matches ReplayEvent::TechResearch { tech_type, .. } && tech_type@
        == "Feudal Age"@ {
        Some(k)
    } else {
        feudal_from(events, k + 1)
    }
}

/// The food reading of the row before `k` (0 before the first row or when unread).
pub open spec fn prev_food(rows: Seq<CsvRow>, k: int) -> u32 {
    if k <= 0 {
        0
    } else {
        unwrap_or(rows[k - 1].food, 0)
    }
}

pub open spec fn is_feudal_drop(rows: Seq<CsvRow>, k: int, est: int) -> bool {
    let r = rows[k];
    let pf = prev_food(rows, k);
    &&& est - 10000 < r.timestamp_ms < est + 10000
    &&& r.food matches Some(f) && pf > 450 && f < 100 && pf - f >= 450
}

/// The first row at or after `k` that shows the Feudal Age food drop near `est`.
pub open spec fn feudal_drop_from(rows: Seq<CsvRow>, est: int, k: int) -> Option<int>
    decreases rows.len() - k,
{
    if k < 0 || k >= rows.len() {
        None
    } else if is_feudal_drop(rows, k, est) {
        Some(k)
    } else {
        feudal_drop_from(rows, est, k + 1)
    }
}

/// Starting food and wood: those of the first frame, 200 each when unread.
pub open spec fn start_food(rows: Seq<CsvRow>, start: u64) -> u32 {
    unwrap_or(rows[first_frame_from(rows, start, 0)->0].food, 200)
}

pub open spec fn start_wood(rows: Seq<CsvRow>, start: u64) -> u32 {
    unwrap_or(rows[first_frame_from(rows, start, 0)->0].wood, 200)
}

/// The row of the first drop.
pub open spec fn drop_row(rows: Seq<CsvRow>, start: u64) -> Option<int> {
    first_drop_from(rows, start, start_food(rows, start), start_wood(rows, start), 0)
}

pub open spec fn food_delta(rows: Seq<CsvRow>, start: u64) -> int {
    start_food(rows, start) - unwrap_or(rows[drop_row(rows, start)->0].food, start_food(rows, start))
}

pub open spec fn wood_delta(rows: Seq<CsvRow>, start: u64) -> int {
    start_wood(rows, start) - unwrap_or(rows[drop_row(rows, start)->0].wood, start_wood(rows, start))
}

/// The in-game anchor of the first drop: just after the covering command (0 if none).
pub open spec fn anchor1_ig_spec(rows: Seq<CsvRow>, events: Seq<ReplayEvent>, start: u64) -> u64 {
    match covering_event_from(events, food_delta(rows, start) as u32, wood_delta(rows, start) as u32, 0) {
        Some(k) => (time_of(events[k]) + 1) as u64,
        None => 0,
    }
}

/// Where the Feudal Age drop is looked for: `anchor1_rw` plus the in-game time since
/// the first anchor at speed 1.7 (exactly `10 d / 17`, rounded down).
pub open spec fn feudal_estimate(rows: Seq<CsvRow>, events: Seq<ReplayEvent>, start: u64) -> int {
    let a1rw = rows[drop_row(rows, start)->0].timestamp_ms;
    let ig = time_of(events[feudal_from(events, 0)->0]);
    a1rw + (10 * (ig - anchor1_ig_spec(rows, events, start))) / 17
}

/// The inputs on which the search runs without arithmetic overflow: the drop does not
/// show food or wood above the starting amounts; the cumulative costs summed in the
/// search fit in `u32`; the Feudal Age click comes after the first anchor, and the window
/// around its estimate fits in `u64`.
pub open spec fn calibration_in_range(rows: Seq<CsvRow>, events: Seq<ReplayEvent>, start: u64) -> bool {
    first_frame_from(rows, start, 0) is Some && drop_row(rows, start) is Some ==> {
        let d = drop_row(rows, start)->0;
        &&& unwrap_or(rows[d].food, start_food(rows, start)) <= start_food(rows, start)
        &&& unwrap_or(rows[d].wood, start_wood(rows, start)) <= start_wood(rows, start)
        &&& rows[d].timestamp_ms != 0 ==> {
            let lim = match covering_event_from(
                events,
                food_delta(rows, start) as u32,
                wood_delta(rows, start) as u32,
                0,
            ) {
                Some(k) => k + 1,
                None => events.len() as int,
            };
            &&& forall|j: int|
                0 <= j <= lim ==> cum_food(events, j) <= u32::MAX && cum_wood(events, j) <= u32::MAX
            &&& feudal_from(events, 0) is Some ==> {
                &&& time_of(events[feudal_from(events, 0)->0]) >= anchor1_ig_spec(rows, events, start)
                &&& 10000 <= feudal_estimate(rows, events, start)
                &&& feudal_estimate(rows, events, start) + 10000 <= u64::MAX
            }
        }
    }
}

/// What `calibrate_timing` gives.
pub open spec fn calibrate_spec(rows: Seq<CsvRow>, events: Seq<ReplayEvent>, start: u64) -> Result<
    TimingAnchors,
    Seq<char>,
> {
    if first_frame_from(rows, start, 0) is None {
        Err("No valid screen grabs found"@)
    } else if drop_row(rows, start) is None || rows[drop_row(rows, start)->0].timestamp_ms == 0 {
        Err("Could not find first resource drop in CSV"@)
    } else {
        let a1rw = rows[drop_row(rows, start)->0].timestamp_ms;
        let a1ig = anchor1_ig_spec(rows, events, start);
        let a2 = match feudal_from(events, 0) {
            Some(fk) => match feudal_drop_from(rows, feudal_estimate(rows, events, start), 0) {
                Some(rk) => ((time_of(events[fk]) + 1) as u64, rows[rk].timestamp_ms),
                None => (0u64, 0u64),
            },
            None => (0u64, 0u64),
        };
        Ok(TimingAnchors { anchor1_ig: a1ig, anchor1_rw: a1rw, anchor2_ig: a2.0, anchor2_rw: a2.1 })
    }
}

fn cost_of_exec(e: &ReplayEvent) -> (r: Option<ResourceCost>)
    ensures
        r == cost_of(*e),
{
    match e {
        ReplayEvent::TechResearch { cost, .. } => Some(*cost),
        ReplayEvent::UnitQueued { cost, .. } => Some(*cost),
        ReplayEvent::BuildingConstruction { cost, .. } => Some(*cost),
        _ => None,
    }
}

fn time_of_exec(e: &ReplayEvent) -> (r: u32)
    ensures
        r == time_of(*e),
{
    match e {
        ReplayEvent::TechResearch { timestamp_ms, .. } => *timestamp_ms,
        ReplayEvent::UnitQueued { timestamp_ms, .. } => *timestamp_ms,
        ReplayEvent::QueueCancellation { timestamp_ms, .. } => *timestamp_ms,
        ReplayEvent::BuildingConstruction { timestamp_ms, .. } => *timestamp_ms,
        ReplayEvent::Deletion { timestamp_ms, .. } => *timestamp_ms,
    }
}

proof fn lemma_first_frame_skip(rows: Seq<CsvRow>, start: u64, k: int)
    requires
        0 <= k <= rows.len(),
        forall|q: int| 0 <= q < k ==> (#[trigger] rows[q]).timestamp_ms < start,
    ensures
        first_frame_from(rows, start, 0) == first_frame_from(rows, start, k),
    decreases k,
{
    if k > 0 {
        lemma_first_frame_skip(rows, start, k - 1);
    }
}

proof fn lemma_first_drop_skip(rows: Seq<CsvRow>, start: u64, f0: u32, w0: u32, k: int)
    requires
        0 <= k <= rows.len(),
        forall|q: int| 0 <= q < k ==> !is_drop(#[trigger] rows[q], start, f0, w0),
    ensures
        first_drop_from(rows, start, f0, w0, 0) == first_drop_from(rows, start, f0, w0, k),
    decreases k,
{
    if k > 0 {
        lemma_first_drop_skip(rows, start, f0, w0, k - 1);
    }
}

proof fn lemma_covering_skip(events: Seq<ReplayEvent>, df: u32, dw: u32, k: int)
    requires
        0 <= k <= events.len(),
        forall|q: int|
            0 <= q < k ==> !(cost_of(#[trigger] events[q]) is Some && cum_food(events, q + 1) >= df
                && cum_wood(events, q + 1) >= dw),
    ensures
        covering_event_from(events, df, dw, 0) == covering_event_from(events, df, dw, k),
    decreases k,
{
    if k > 0 {
        lemma_covering_skip(events, df, dw, k - 1);
    }
}

proof fn lemma_feudal_skip(events: Seq<ReplayEvent>, k: int)
    requires
        0 <= k <= events.len(),
        forall|q: int|
            0 <= q < k ==> !(#[trigger] events[q] matches ReplayEvent::TechResearch { tech_type, .. }
                && tech_type@ == "Feudal Age"@),
    ensures
        feudal_from(events, 0) == feudal_from(events, k),
    decreases k,
{
    if k > 0 {
        lemma_feudal_skip(events, k - 1);
    }
}

proof fn lemma_feudal_drop_skip(rows: Seq<CsvRow>, est: int, k: int)
    requires
        0 <= k <= rows.len(),
        forall|q: int| 0 <= q < k ==> !is_feudal_drop(rows, q, est),
    ensures
        feudal_drop_from(rows, est, 0) == feudal_drop_from(rows, est, k),
    decreases k,
{
    if k > 0 {
        lemma_feudal_drop_skip(rows, est, k - 1);
    }
}

proof fn lemma_cum_mono(events: Seq<ReplayEvent>, a: int, b: int)
    requires
        0 <= a <= b <= events.len(),
    ensures
        cum_food(events, a) <= cum_food(events, b),
        cum_wood(events, a) <= cum_wood(events, b),
    decreases b - a,
{
    if a < b {
        lemma_cum_mono(events, a, b - 1);
    }
}

proof fn lemma_covering_range(events: Seq<ReplayEvent>, df: u32, dw: u32, k: int)
    requires
        0 <= k,
    ensures
        covering_event_from(events, df, dw, k) matches Some(j) ==> k <= j < events.len()
            && cost_of(events[j]) is Some && cum_food(events, j + 1) >= df && cum_wood(events, j + 1)
            >= dw,
    decreases events.len() - k,
{
    if k < events.len() && !(cost_of(events[k]) is Some && cum_food(events, k + 1) >= df
        && cum_wood(events, k + 1) >= dw) {
        lemma_covering_range(events, df, dw, k + 1);
    }
}

proof fn lemma_feudal_range(events: Seq<ReplayEvent>, k: int)
    requires
        0 <= k,
    ensures
        feudal_from(events, k) matches Some(j) ==> k <= j < events.len(),
    decreases events.len() - k,
{
    if k < events.len() && !(events[k] matches ReplayEvent::TechResearch { tech_type, .. }
        && tech_type@ == "Feudal Age"@) {
        lemma_feudal_range(events, k + 1);
    }
}

proof fn lemma_feudal_drop_range(rows: Seq<CsvRow>, est: int, k: int)
    requires
        0 <= k,
    ensures
        feudal_drop_from(rows, est, k) matches Some(j) ==> k <= j < rows.len(),
    decreases rows.len() - k,
{
    if k < rows.len() && !is_feudal_drop(rows, k, est) {
        lemma_feudal_drop_range(rows, est, k + 1);
    }
}

proof fn lemma_first_drop_range(rows: Seq<CsvRow>, start: u64, f0: u32, w0: u32, k: int)
    requires
        0 <= k,
    ensures
        first_drop_from(rows, start, f0, w0, k) matches Some(j) ==> k <= j < rows.len(),
    decreases rows.len() - k,
{
    if k < rows.len() && !is_drop(rows[k], start, f0, w0) {
        lemma_first_drop_range(rows, start, f0, w0, k + 1);
    }
}

proof fn lemma_first_frame_range(rows: Seq<CsvRow>, start: u64, k: int)
    requires
        0 <= k,
    ensures
        first_frame_from(rows, start, k) matches Some(j) ==> k <= j < rows.len(),
    decreases rows.len() - k,
{
    if k < rows.len() && rows[k].timestamp_ms < start {
        lemma_first_frame_range(rows, start, k + 1);
    }
}

proof fn lemma_feudal_found(events: Seq<ReplayEvent>, k: int)
    requires
        0 <= k,
    ensures
        feudal_from(events, k) matches Some(j) ==> {
            &&& k <= j < events.len()
            &&& events[j] matches ReplayEvent::TechResearch { tech_type, .. } && tech_type@
                == "Feudal Age"@
            &&& forall|i: int|
                k <= i < j ==> !(#[trigger] events[i] matches ReplayEvent::TechResearch {
                    tech_type,
                    ..
                } && tech_type@ == "Feudal Age"@)
        },
    decreases events.len() - k,
{
    if k < events.len() && !(events[k] matches ReplayEvent::TechResearch { tech_type, .. }
        && tech_type@ == "Feudal Age"@) {
        lemma_feudal_found(events, k + 1);
    }
}

proof fn lemma_feudal_drop_found(rows: Seq<CsvRow>, est: int, k: int)
    requires
        0 <= k,
    ensures
        feudal_drop_from(rows, est, k) matches Some(j) ==> k <= j < rows.len() && is_feudal_drop(
            rows,
            j,
            est,
        ),
    decreases rows.len() - k,
{
    if k < rows.len() && !is_feudal_drop(rows, k, est) {
        lemma_feudal_drop_found(rows, est, k + 1);
    }
}

/// When the Feudal Age anchor is found, it pairs the first Feudal Age research of the
/// replay (just after its timestamp) with the wall-clock time of a telemetry row whose food
/// fell from above 450 to below 100, by at least 450, since the row before it.
pub proof fn law_feudal_anchor_is_a_food_drop(
    rows: Seq<CsvRow>,
    events: Seq<ReplayEvent>,
    start: u64,
    a: TimingAnchors,
)
    requires
        calibrate_spec(rows, events, start) == Ok::<TimingAnchors, Seq<char>>(a),
        a.anchor2_ig != 0,
    ensures
        exists|k: int|
            #![trigger rows[k]]
            {
                &&& 1 <= k < rows.len()
                &&& rows[k].timestamp_ms == a.anchor2_rw
                &&& rows[k].food matches Some(f) && rows[k - 1].food matches Some(p) && p > 450
                    && f < 100 && p - f >= 450
            },
        exists|fk: int|
            #![trigger events[fk]]
            {
                &&& 0 <= fk < events.len()
                &&& events[fk] matches ReplayEvent::TechResearch { timestamp_ms, tech_type, .. }
                    && tech_type@ == "Feudal Age"@ && a.anchor2_ig == timestamp_ms + 1
                &&& forall|j: int|
                    0 <= j < fk ==> !(#[trigger] events[j] matches ReplayEvent::TechResearch {
                        tech_type: t,
                        ..
                    } && t@ == "Feudal Age"@)
            },
{
    lemma_feudal_found(events, 0);
    let fk = feudal_from(events, 0)->0;
    let est = feudal_estimate(rows, events, start);
    lemma_feudal_drop_found(rows, est, 0);
    let rk = feudal_drop_from(rows, est, 0)->0;
    assert(is_feudal_drop(rows, rk, est));
    assert(rk >= 1);
    assert(rows[rk].timestamp_ms == a.anchor2_rw);
    assert(events[fk] == events[fk]);
}

proof fn lemma_first_frame_found(rows: Seq<CsvRow>, start: u64, k: int)
    requires
        0 <= k,
    ensures
        first_frame_from(rows, start, k) matches Some(j) ==> {
            &&& k <= j < rows.len()
            &&& rows[j].timestamp_ms >= start
            &&& forall|q: int| k <= q < j ==> (#[trigger] rows[q]).timestamp_ms < start
        },
    decreases rows.len() - k,
{
    if k < rows.len() && rows[k].timestamp_ms < start {
        lemma_first_frame_found(rows, start, k + 1);
    }
}

proof fn lemma_first_drop_found(rows: Seq<CsvRow>, start: u64, f0: u32, w0: u32, k: int)
    requires
        0 <= k,
    ensures
        first_drop_from(rows, start, f0, w0, k) matches Some(j) ==> {
            &&& k <= j < rows.len()
            &&& is_drop(rows[j], start, f0, w0)
            &&& forall|q: int| k <= q < j ==> !is_drop(#[trigger] rows[q], start, f0, w0)
        },
    decreases rows.len() - k,
{
    if k < rows.len() && !is_drop(rows[k], start, f0, w0) {
        lemma_first_drop_found(rows, start, f0, w0, k + 1);
    }
}

/// The first anchor's wall-clock time is that of the first telemetry row, from `start` on,
/// whose food or wood is below (or no longer reads) the amount shown by the first row from
/// `start` on (200 where that row reads none); its in-game time is 0 or just after a
/// command that spends resources.
pub proof fn law_first_anchor_is_first_drop(
    rows: Seq<CsvRow>,
    events: Seq<ReplayEvent>,
    start: u64,
    a: TimingAnchors,
)
    requires
        calibrate_spec(rows, events, start) == Ok::<TimingAnchors, Seq<char>>(a),
    ensures
        a.anchor1_rw >= start,
        exists|f: int, d: int|
            #![trigger rows[f], rows[d]]
            {
                let food0 = match rows[f].food {
                    Some(x) => x,
                    None => 200u32,
                };
                let wood0 = match rows[f].wood {
                    Some(x) => x,
                    None => 200u32,
                };
                &&& 0 <= f <= d < rows.len()
                &&& rows[f].timestamp_ms >= start
                &&& forall|q: int| 0 <= q < f ==> (#[trigger] rows[q]).timestamp_ms < start
                &&& rows[d].timestamp_ms == a.anchor1_rw
                &&& match rows[d].food {
                    Some(x) => x < food0,
                    None => true,
                } || match rows[d].wood {
                    Some(x) => x < wood0,
                    None => true,
                }
                &&& forall|q: int|
                    0 <= q < d && (#[trigger] rows[q]).timestamp_ms >= start ==> match rows[q].food {
                        Some(x) => x >= food0,
                        None => false,
                    } && match rows[q].wood {
                        Some(x) => x >= wood0,
                        None => false,
                    }
            },
        a.anchor1_ig == 0 || exists|k: int|
            #![trigger events[k]]
            0 <= k < events.len() && cost_of(events[k]) is Some && a.anchor1_ig == time_of(
                events[k],
            ) + 1,
{
    lemma_first_frame_found(rows, start, 0);
    let f = first_frame_from(rows, start, 0)->0;
    let f0 = start_food(rows, start);
    let w0 = start_wood(rows, start);
    lemma_first_drop_found(rows, start, f0, w0, 0);
    let d = drop_row(rows, start)->0;
    lemma_first_drop_range(rows, start, f0, w0, 0);
    assert(is_drop(rows[d], start, f0, w0));
    assert forall|q: int| 0 <= q < d && (#[trigger] rows[q]).timestamp_ms >= start implies match rows[q].food {
        Some(x) => x >= f0,
        None => false,
    } && match rows[q].wood {
        Some(x) => x >= w0,
        None => false,
    } by {
        assert(!is_drop(rows[q], start, f0, w0));
    }
    let df = food_delta(rows, start) as u32;
    let dw = wood_delta(rows, start) as u32;
    lemma_covering_range(events, df, dw, 0);
    if covering_event_from(events, df, dw, 0) is Some {
        let k = covering_event_from(events, df, dw, 0)->0;
        lemma_covering_found(events, df, dw, 0);
        assert(cost_of(events[k]) is Some);
    }
}

proof fn lemma_covering_found(events: Seq<ReplayEvent>, df: u32, dw: u32, k: int)
    requires
        0 <= k,
    ensures
        covering_event_from(events, df, dw, k) matches Some(j) ==> cost_of(events[j]) is Some,
    decreases events.len() - k,
{
    if k < events.len() && !(cost_of(events[k]) is Some && cum_food(events, k + 1) >= df
        && cum_wood(events, k + 1) >= dw) {
        lemma_covering_found(events, df, dw, k + 1);
    }
}

fn is_drop_exec(row: &CsvRow, start: u64, food0: u32, wood0: u32) -> (b: bool)
    ensures
        b == is_drop(*row, start, food0, wood0),
{
    let f = match row.food {
        Some(f) => f < food0,
        None => true,
    };
    let w = match row.wood {
        Some(w) => w < wood0,
        None => true,
    };
    row.timestamp_ms >= start && (f || w)
}

/// Index of the command whose cumulative cost first covers `(df, dw)`.
fn find_covering(events: &[ReplayEvent], df: u32, dw: u32) -> (r: Option<usize>)
    requires
        forall|j: int|
            0 <= j <= (match covering_event_from(events@, df, dw, 0) {
                Some(k) => k + 1,
                None => events@.len() as int,
            }) ==> cum_food(events@, j) <= u32::MAX && cum_wood(events@, j) <= u32::MAX,
    ensures
        r matches Some(k) ==> covering_event_from(events@, df, dw, 0) == Some(k as int),
        r is None ==> covering_event_from(events@, df, dw, 0) is None,
{
    let ghost evs = events@;
    let ghost lim = match covering_event_from(evs, df, dw, 0) {
        Some(k) => k + 1,
        None => evs.len() as int,
    };
    let mut cum_f: u32 = 0;
    let mut cum_w: u32 = 0;
    let mut k: usize = 0;
    while k < events.len()
        invariant
            k <= events@.len(),
            evs == events@,
            cum_f == cum_food(evs, k as int),
            cum_w == cum_wood(evs, k as int),
            covering_event_from(evs, df, dw, 0) == covering_event_from(evs, df, dw, k as int),
            lim == match covering_event_from(evs, df, dw, 0) {
                Some(k) => k + 1,
                None => evs.len() as int,
            },
            forall|j: int| 0 <= j <= lim ==> cum_food(evs, j) <= u32::MAX && cum_wood(evs, j) <= u32::MAX,
        decreases events.len() - k,
    {
        proof {
            lemma_covering_range(evs, df, dw, k as int);
            assert(k + 1 <= lim);
        }
        match cost_of_exec(&events[k]) {
            Some(c) => {
                cum_f = cum_f + c.food;
                cum_w = cum_w + c.wood;
                if cum_f >= df && cum_w >= dw {
                    return Some(k);
                }
            },
            None => {},
        }
        k = k + 1;
    }
    None
}

/// Index of the first Feudal Age research.
fn find_feudal(events: &[ReplayEvent]) -> (r: Option<usize>)
    ensures
        r matches Some(k) ==> feudal_from(events@, 0) == Some(k as int),
        r is None ==> feudal_from(events@, 0) is None,
{
    let mut k: usize = 0;
    while k < events.len()
        invariant
            k <= events@.len(),
            feudal_from(events@, 0) == feudal_from(events@, k as int),
        decreases events.len() - k,
    {
        match &events[k] {
            ReplayEvent::TechResearch { tech_type, .. } => {
                if str_eq(tech_type.as_str(), "Feudal Age") {
                    return Some(k);
                }
            },
            _ => {},
        }
        k = k + 1;
    }
    None
}

/// Index of the first row showing the Feudal Age food drop near `est`.
fn find_feudal_drop(rows: &[CsvRow], est: u64) -> (r: Option<usize>)
    requires
        10000 <= est,
        est + 10000 <= u64::MAX,
    ensures
        r matches Some(k) ==> feudal_drop_from(rows@, est as int, 0) == Some(k as int),
        r is None ==> feudal_drop_from(rows@, est as int, 0) is None,
{
    let mut k: usize = 0;
    while k < rows.len()
        invariant
            k <= rows@.len(),
            10000 <= est,
            est + 10000 <= u64::MAX,
            feudal_drop_from(rows@, est as int, 0) == feudal_drop_from(rows@, est as int, k as int),
        decreases rows.len() - k,
    {
        let pf: u32 = if k == 0 {
            0
        } else {
            match rows[k - 1].food {
                Some(f) => f,
                None => 0,
            }
        };
        let ts = rows[k].timestamp_ms;
        if ts > est - 10000 && ts < est + 10000 {
            if let Some(f) = rows[k].food {
                if pf > 450 && f < 100 && pf - f >= 450 {
                    return Some(k);
                }
            }
        }
        k = k + 1;
    }
    None
}

/// Finds the two timing anchors between the telemetry rows and the replay commands.
pub fn calibrate_timing(csv_rows: &[CsvRow], events: &[ReplayEvent], start_ts_rw: u64) -> (r:
    Result<TimingAnchors, String>)
    requires
        calibration_in_range(csv_rows@, events@, start_ts_rw),
    ensures
        match r {
            Ok(a) => calibrate_spec(csv_rows@, events@, start_ts_rw) == Ok::<TimingAnchors, Seq<char>>(a),
            Err(e) => calibrate_spec(csv_rows@, events@, start_ts_rw) == Err::<TimingAnchors, Seq<char>>(e@),
        },
{
    let ghost rows = csv_rows@;
    let ghost evs = events@;
    // 1. Starting resources from the first frame.
    let mut first: usize = 0;
    while first < csv_rows.len() && csv_rows[first].timestamp_ms < start_ts_rw
        invariant
            first <= csv_rows@.len(),
            rows == csv_rows@,
            forall|q: int| 0 <= q < first ==> (#[trigger] rows[q]).timestamp_ms < start_ts_rw,
        decreases csv_rows.len() - first,
    {
        first = first + 1;
    }
    proof {
        lemma_first_frame_skip(rows, start_ts_rw, first as int);
    }
    if first == csv_rows.len() {
        return Err("No valid screen grabs found".to_owned());
    }
    let start_food: u32 = match csv_rows[first].food {
        Some(f) => f,
        None => 200,
    };
    let start_wood: u32 = match csv_rows[first].wood {
        Some(w) => w,
        None => 200,
    };
    assert(start_food == self::start_food(rows, start_ts_rw));
    assert(start_wood == self::start_wood(rows, start_ts_rw));

    // 2. The first drop below the starting amounts.
    let mut d: usize = 0;
    while d < csv_rows.len() && !is_drop_exec(&csv_rows[d], start_ts_rw, start_food, start_wood)
        invariant
            d <= csv_rows@.len(),
            rows == csv_rows@,
            forall|q: int| 0 <= q < d ==> !is_drop(#[trigger] rows[q], start_ts_rw, start_food, start_wood),
        decreases csv_rows.len() - d,
    {
        d = d + 1;
    }
    proof {
        lemma_first_drop_skip(rows, start_ts_rw, start_food, start_wood, d as int);
    }
    if d == csv_rows.len() || csv_rows[d].timestamp_ms == 0 {
        return Err("Could not find first resource drop in CSV".to_owned());
    }
    assert(drop_row(rows, start_ts_rw) == Some(d as int));
    let drop_food: u32 = match csv_rows[d].food {
        Some(f) => f,
        None => start_food,
    };
    let drop_wood: u32 = match csv_rows[d].wood {
        Some(w) => w,
        None => start_wood,
    };
    let first_drop_food_delta = start_food - drop_food;
    let first_drop_wood_delta = start_wood - drop_wood;
    let anchor1_rw = csv_rows[d].timestamp_ms;

    // The command whose cumulative cost first covers the drop.
    let anchor1_ig: u64 = match find_covering(events, first_drop_food_delta, first_drop_wood_delta) {
        Some(k) => {
            proof {
                lemma_covering_range(evs, first_drop_food_delta, first_drop_wood_delta, 0);
            }
            time_of_exec(&events[k]) as u64 + 1
        },
        None => 0,
    };
    assert(anchor1_ig == anchor1_ig_spec(rows, evs, start_ts_rw));

    // 3. The Feudal Age click.
    let mut anchor2_ig: u64 = 0;
    let mut anchor2_rw: u64 = 0;
    match find_feudal(events) {
        Some(fk) => {
            proof {
                lemma_feudal_range(evs, 0);
            }
            let ig = time_of_exec(&events[fk]);
            let diff: u64 = ig as u64 - anchor1_ig;
            let est_rw = anchor1_rw + (diff * 10) / 17;
            assert(est_rw == feudal_estimate(rows, evs, start_ts_rw));
            match find_feudal_drop(csv_rows, est_rw) {
                Some(rk) => {
                    proof {
                        lemma_feudal_drop_range(rows, est_rw as int, 0);
                    }
                    anchor2_rw = csv_rows[rk].timestamp_ms;
                    anchor2_ig = ig as u64 + 1;
                },
                None => {},
            }
        },
        None => {},
    }
    Ok(TimingAnchors { anchor1_ig, anchor1_rw, anchor2_ig, anchor2_rw })
}

} // verus!
