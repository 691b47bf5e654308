//! Floating resources: stretches of time during which a resource stayed above its
//! age-specific threshold for at least `FLOATING_MIN_DURATION_MS`, after removing the
//! save-up windows before major spend events (age-up clicks, castle placements).
//!
//! Durations are kept in milliseconds; converting them to seconds for display is left to
//! the caller.
use vstd::prelude::*;
use crate::constants::{FLOATING_MIN_DURATION_MS, SAVE_UP_WINDOW_MS};
use crate::text::{chars_of, parse_u32, parse_u32_spec, str_eq};
use crate::types::{MergedRow, is_screen_grab, is_rec_event};
use crate::analysis::{age_up_target, age_up_target_of};

verus! {

broadcast use vstd::seq_lib::to_multiset_insert, vstd::seq_lib::to_multiset_build;

// ---------------------------------------------------------------------------
// Save-up windows
// ---------------------------------------------------------------------------

/// Which resources to suppress in the 60-second save-up window before a major spend event.
pub struct Suppressions {
    pub food: Vec<(u64, u64)>,
    pub gold: Vec<(u64, u64)>,
    pub stone: Vec<(u64, u64)>,
}

/// Lexicographic order on windows.
pub open spec fn pair_lt(a: (u64, u64), b: (u64, u64)) -> bool {
    a.0 < b.0 || (a.0 == b.0 && a.1 < b.1)
}

pub open spec fn pair_le(a: (u64, u64), b: (u64, u64)) -> bool {
    a.0 < b.0 || (a.0 == b.0 && a.1 <= b.1)
}

pub open spec fn sorted_pairs(s: Seq<(u64, u64)>) -> bool {
    forall|i: int, j: int| 0 <= i < j < s.len() ==> pair_le(#[trigger] s[i], #[trigger] s[j])
}

/// The pairs in ascending lexicographic order.
fn sort_pairs(v: Vec<(u64, u64)>) -> (r: Vec<(u64, u64)>)
    ensures
        sorted_pairs(r@),
        r@.to_multiset() == v@.to_multiset(),
{
    let mut r: Vec<(u64, u64)> = Vec::new();
    assert(r@ =~= v@.take(0));
    for i in 0..v.len()
        invariant
            sorted_pairs(r@),
            r@.to_multiset() == v@.take(i as int).to_multiset(),
    {
        let x = v[i];
        let mut p = r.len();
        while p > 0 && pair_lt_exec(x, r[p - 1])
            invariant
                p <= r@.len(),
                forall|q: int| p <= q < r@.len() ==> pair_lt(x, #[trigger] r@[q]),
            decreases p,
        {
            p = p - 1;
        }
        let ghost before = r@;
        r.insert(p, x);
        proof {
            assert(v@.take(i + 1) =~= v@.take(i as int).push(x));
            assert forall|a: int, b: int| 0 <= a < b < r@.len() implies pair_le(
                #[trigger] r@[a],
                #[trigger] r@[b],
            ) by {
                if b < p {
                    assert(r@[a] == before[a] && r@[b] == before[b]);
                } else if b == p {
                    assert(r@[a] == before[a]);
                    assert(pair_le(before[a], before[p - 1]));
                } else if a == p {
                    assert(r@[b] == before[b - 1]);
                } else if a < p {
                    assert(r@[a] == before[a] && r@[b] == before[b - 1]);
                } else {
                    assert(r@[a] == before[a - 1] && r@[b] == before[b - 1]);
                }
            }
        }
    }
    assert(v@.take(v@.len() as int) =~= v@);
    r
}

fn pair_lt_exec(a: (u64, u64), b: (u64, u64)) -> (r: bool)
    ensures
        r == pair_lt(a, b),
{
    a.0 < b.0 || (a.0 == b.0 && a.1 < b.1)
}

/// The save-up window before an event at `ts`.
pub open spec fn window_before(ts: u64) -> (u64, u64) {
    (if ts >= SAVE_UP_WINDOW_MS {
        (ts - SAVE_UP_WINDOW_MS) as u64
    } else {
        0
    }, ts)
}

/// Which suppression lists an event description feeds: (food, gold, stone).
pub open spec fn event_suppresses(desc: Seq<char>) -> (bool, bool, bool) {
    if desc == "Research Feudal Age"@ {
        (true, false, false)
    } else if desc == "Research Castle Age"@ || desc == "Research Imperial Age"@ {
        (true, true, false)
    } else if desc == "Build Castle"@ {
        (false, false, true)
    } else {
        (false, false, false)
    }
}

/// The save-up windows, in row order, of the events that suppress resource `which`
/// (0: food, 1: gold, 2: stone).
pub open spec fn windows_of(rows: Seq<MergedRow>, which: int) -> Seq<(u64, u64)>
    decreases rows.len(),
{
    if rows.len() == 0 {
        Seq::empty()
    } else {
        let prev = windows_of(rows.drop_last(), which);
        let r = rows.last();
        let sup = event_suppresses(r.event_desc@);
        let hit = if which == 0 {
            sup.0
        } else if which == 1 {
            sup.1
        } else {
            sup.2
        };
        if is_rec_event(r) && hit {
            prev.push(window_before(r.in_game_ms))
        } else {
            prev
        }
    }
}

pub open spec fn windows_well_formed(ws: Seq<(u64, u64)>) -> bool {
    forall|j: int| 0 <= j < ws.len() ==> (#[trigger] ws[j]).0 <= ws[j].1
}

proof fn lemma_windows_of_well_formed(rows: Seq<MergedRow>, which: int)
    ensures
        windows_well_formed(windows_of(rows, which)),
    decreases rows.len(),
{
    if rows.len() > 0 {
        lemma_windows_of_well_formed(rows.drop_last(), which);
        let prev = windows_of(rows.drop_last(), which);
        let cur = windows_of(rows, which);
        assert forall|j: int| 0 <= j < cur.len() implies (#[trigger] cur[j]).0 <= cur[j].1 by {
            if j < prev.len() {
                assert(cur[j] == prev[j]);
            }
        }
    }
}

proof fn lemma_same_multiset_well_formed(a: Seq<(u64, u64)>, b: Seq<(u64, u64)>)
    requires
        a.to_multiset() == b.to_multiset(),
        windows_well_formed(b),
    ensures
        windows_well_formed(a),
{
    broadcast use vstd::seq_lib::to_multiset_contains;
    assert forall|j: int| 0 <= j < a.len() implies (#[trigger] a[j]).0 <= a[j].1 by {
        assert(a.contains(a[j]));
        assert(a.to_multiset().count(a[j]) > 0);
        assert(b.contains(a[j]));
    }
}

/// Pre-index every major spend event and its per-resource suppression intervals:
/// - Age-up clicks (suppress food / food+gold)
/// - Castle placements (suppress stone)
pub fn index_save_up_events(rows: &[MergedRow]) -> (s: Suppressions)
    ensures
        sup_view(s) == save_up_view(rows@),
        sorted_pairs(s.food@),
        sorted_pairs(s.gold@),
        sorted_pairs(s.stone@),
        s.food@.to_multiset() == windows_of(rows@, 0).to_multiset(),
        s.gold@.to_multiset() == windows_of(rows@, 1).to_multiset(),
        s.stone@.to_multiset() == windows_of(rows@, 2).to_multiset(),
        windows_well_formed(s.food@),
        windows_well_formed(s.gold@),
        windows_well_formed(s.stone@),
{
    let mut food: Vec<(u64, u64)> = Vec::new();
    let mut gold: Vec<(u64, u64)> = Vec::new();
    let mut stone: Vec<(u64, u64)> = Vec::new();
    for i in 0..rows.len()
        invariant
            food@ == windows_of(rows@.take(i as int), 0),
            gold@ == windows_of(rows@.take(i as int), 1),
            stone@ == windows_of(rows@.take(i as int), 2),
    {
        let r = &rows[i];
        proof {
            assert(rows@.take(i + 1).drop_last() =~= rows@.take(i as int));
            assert(rows@.take(i + 1).last() == *r);
        }
        if str_eq(r.observation_type.as_str(), "RecEvent") {
            let window_start = r.in_game_ms.saturating_sub(SAVE_UP_WINDOW_MS);
            let window_end = r.in_game_ms;
            let d = r.event_desc.as_str();
            if str_eq(d, "Research Feudal Age") {
                food.push((window_start, window_end));
            } else if str_eq(d, "Research Castle Age") || str_eq(d, "Research Imperial Age") {
                food.push((window_start, window_end));
                gold.push((window_start, window_end));
            } else if str_eq(d, "Build Castle") {
                stone.push((window_start, window_end));
            }
        }
    }
    assert(rows@.take(rows@.len() as int) =~= rows@);
    let food = sort_pairs(food);
    let gold = sort_pairs(gold);
    let stone = sort_pairs(stone);
    proof {
        lemma_windows_of_well_formed(rows@, 0);
        lemma_windows_of_well_formed(rows@, 1);
        lemma_windows_of_well_formed(rows@, 2);
        lemma_same_multiset_well_formed(food@, windows_of(rows@, 0));
        lemma_same_multiset_well_formed(gold@, windows_of(rows@, 1));
        lemma_same_multiset_well_formed(stone@, windows_of(rows@, 2));
        lemma_sorted_is_canonical(food@, windows_of(rows@, 0));
        lemma_sorted_is_canonical(gold@, windows_of(rows@, 1));
        lemma_sorted_is_canonical(stone@, windows_of(rows@, 2));
    }
    Suppressions { food, gold, stone }
}

/// The windows in ascending order.
pub open spec fn sorted_windows(ws: Seq<(u64, u64)>) -> Seq<(u64, u64)> {
    ws.sort_by(|a: (u64, u64), b: (u64, u64)| pair_le(a, b))
}

/// The save-up windows of a stream, each list in ascending order.
pub open spec fn save_up_view(rows: Seq<MergedRow>) -> SupView {
    SupView {
        food: sorted_windows(windows_of(rows, 0)),
        gold: sorted_windows(windows_of(rows, 1)),
        stone: sorted_windows(windows_of(rows, 2)),
    }
}

proof fn lemma_pair_le_total()
    ensures
        vstd::relations::total_ordering(|a: (u64, u64), b: (u64, u64)| pair_le(a, b)),
{
}

/// A sorted arrangement of the windows is the canonical one.
proof fn lemma_sorted_is_canonical(x: Seq<(u64, u64)>, ws: Seq<(u64, u64)>)
    requires
        sorted_pairs(x),
        x.to_multiset() == ws.to_multiset(),
    ensures
        x == sorted_windows(ws),
{
    let leq = |a: (u64, u64), b: (u64, u64)| pair_le(a, b);
    lemma_pair_le_total();
    ws.lemma_sort_by_ensures(leq);
    assert(vstd::relations::sorted_by(x, leq));
    vstd::seq_lib::lemma_sorted_unique(x, ws.sort_by(leq), leq);
}

/// Whether an event description feeds the list of resource `which` (0: food, 1: gold,
/// 2: stone).
spec fn feeds(desc: Seq<char>, which: int) -> bool {
    let sup = event_suppresses(desc);
    if which == 0 {
        sup.0
    } else if which == 1 {
        sup.1
    } else {
        sup.2
    }
}

/// A replay event that feeds a list leaves its window in that list.
proof fn lemma_windows_of_member(rows: Seq<MergedRow>, which: int, k: int)
    requires
        0 <= k < rows.len(),
        is_rec_event(rows[k]),
        feeds(rows[k].event_desc@, which),
    ensures
        windows_of(rows, which).contains(window_before(rows[k].in_game_ms)),
    decreases rows.len(),
{
    let w = window_before(rows[k].in_game_ms);
    let prev = windows_of(rows.drop_last(), which);
    if k == rows.len() - 1 {
        assert(windows_of(rows, which) == prev.push(w));
        assert(windows_of(rows, which)[prev.len() as int] == w);
    } else {
        lemma_windows_of_member(rows.drop_last(), which, k);
        assert(rows.drop_last()[k] == rows[k]);
        let j = choose|j: int| 0 <= j < prev.len() && prev[j] == w;
        let cur = windows_of(rows, which);
        assert(cur.len() >= prev.len());
        assert(cur[j] == prev[j]);
    }
}

/// Every window in a list is the window of a replay event that feeds it.
proof fn lemma_windows_of_source(rows: Seq<MergedRow>, which: int, w: (u64, u64))
    requires
        windows_of(rows, which).contains(w),
    ensures
        exists|k: int|
            0 <= k < rows.len() && is_rec_event(#[trigger] rows[k]) && feeds(rows[k].event_desc@, which)
                && w == window_before(rows[k].in_game_ms),
    decreases rows.len(),
{
    let prev = windows_of(rows.drop_last(), which);
    let cur = windows_of(rows, which);
    let j = choose|j: int| 0 <= j < cur.len() && cur[j] == w;
    if j < prev.len() {
        assert(cur[j] == prev[j]);
        assert(prev.contains(w));
        lemma_windows_of_source(rows.drop_last(), which, w);
        let k = choose|k: int|
            0 <= k < rows.drop_last().len() && is_rec_event(#[trigger] rows.drop_last()[k]) && feeds(
                rows.drop_last()[k].event_desc@,
                which,
            ) && w == window_before(rows.drop_last()[k].in_game_ms);
        assert(rows.drop_last()[k] == rows[k]);
    } else {
        let k = rows.len() - 1;
        assert(rows[k] == rows.last());
    }
}

/// The windows of a stream, sorted, hold the same windows as in row order.
proof fn lemma_sorted_windows_contains(ws: Seq<(u64, u64)>, w: (u64, u64))
    ensures
        sorted_windows(ws).contains(w) <==> ws.contains(w),
{
    broadcast use vstd::seq_lib::to_multiset_contains;
    let leq = |a: (u64, u64), b: (u64, u64)| pair_le(a, b);
    lemma_pair_le_total();
    ws.lemma_sort_by_ensures(leq);
    assert(ws.to_multiset().count(w) == sorted_windows(ws).to_multiset().count(w));
}

proof fn lemma_spend_literals()
    ensures
        "Research Feudal Age"@ != "Research Castle Age"@,
        "Research Feudal Age"@ != "Research Imperial Age"@,
        "Research Castle Age"@ != "Research Imperial Age"@,
        "Build Castle"@ != "Research Feudal Age"@,
        "Build Castle"@ != "Research Castle Age"@,
        "Build Castle"@ != "Research Imperial Age"@,
{
    reveal_strlit("Research Feudal Age");
    reveal_strlit("Research Castle Age");
    reveal_strlit("Research Imperial Age");
    reveal_strlit("Build Castle");
    assert("Research Feudal Age"@[9] != "Research Castle Age"@[9]);
    assert("Research Feudal Age"@[9] != "Research Imperial Age"@[9]);
    assert("Research Castle Age"@[9] != "Research Imperial Age"@[9]);
    assert("Build Castle"@[0] != "Research Feudal Age"@[0]);
    assert("Build Castle"@[0] != "Research Castle Age"@[0]);
    assert("Build Castle"@[0] != "Research Imperial Age"@[0]);
}

/// Each major spend event of the stream (a replay event) puts the minute before it, cut at
/// the start of the game, into the lists of the resources it is saved up for: a Feudal Age
/// click into food; a Castle Age or Imperial Age click into food and gold; a castle
/// placement into stone.
pub proof fn law_spend_events_open_windows(rows: Seq<MergedRow>, k: int)
    requires
        0 <= k < rows.len(),
        rows[k].observation_type@ == "RecEvent"@,
    ensures
        ({
            let ts = rows[k].in_game_ms;
            let w = (if ts >= 60000 { (ts - 60000) as u64 } else { 0u64 }, ts);
            let d = rows[k].event_desc@;
            let sv = save_up_view(rows);
            &&& d == "Research Feudal Age"@ ==> sv.food.contains(w)
            &&& d == "Research Castle Age"@ ==> sv.food.contains(w) && sv.gold.contains(w)
            &&& d == "Research Imperial Age"@ ==> sv.food.contains(w) && sv.gold.contains(w)
            &&& d == "Build Castle"@ ==> sv.stone.contains(w)
        }),
{
    lemma_spend_literals();
    let d = rows[k].event_desc@;
    let w = window_before(rows[k].in_game_ms);
    assert(is_rec_event(rows[k]));
    if feeds(d, 0) {
        lemma_windows_of_member(rows, 0, k);
        lemma_sorted_windows_contains(windows_of(rows, 0), w);
    }
    if feeds(d, 1) {
        lemma_windows_of_member(rows, 1, k);
        lemma_sorted_windows_contains(windows_of(rows, 1), w);
    }
    if feeds(d, 2) {
        lemma_windows_of_member(rows, 2, k);
        lemma_sorted_windows_contains(windows_of(rows, 2), w);
    }
}

/// Nothing else is suppressed: each food window is the minute before an age-up click, each
/// gold window the minute before a Castle Age or Imperial Age click, and each stone window
/// the minute before a castle placement, all replay events of the stream.
pub proof fn law_windows_come_from_spend_events(rows: Seq<MergedRow>, w: (u64, u64))
    ensures
        save_up_view(rows).food.contains(w) ==> exists|k: int|
            0 <= k < rows.len() && (#[trigger] rows[k]).observation_type@ == "RecEvent"@
                && (rows[k].event_desc@ == "Research Feudal Age"@ || rows[k].event_desc@
                == "Research Castle Age"@ || rows[k].event_desc@ == "Research Imperial Age"@)
                && w == (if rows[k].in_game_ms >= 60000 {
                (rows[k].in_game_ms - 60000) as u64
            } else {
                0u64
            }, rows[k].in_game_ms),
        save_up_view(rows).gold.contains(w) ==> exists|k: int|
            0 <= k < rows.len() && (#[trigger] rows[k]).observation_type@ == "RecEvent"@
                && (rows[k].event_desc@ == "Research Castle Age"@ || rows[k].event_desc@
                == "Research Imperial Age"@) && w == (if rows[k].in_game_ms >= 60000 {
                (rows[k].in_game_ms - 60000) as u64
            } else {
                0u64
            }, rows[k].in_game_ms),
        save_up_view(rows).stone.contains(w) ==> exists|k: int|
            0 <= k < rows.len() && (#[trigger] rows[k]).observation_type@ == "RecEvent"@
                && rows[k].event_desc@ == "Build Castle"@ && w == (if rows[k].in_game_ms
                >= 60000 {
                (rows[k].in_game_ms - 60000) as u64
            } else {
                0u64
            }, rows[k].in_game_ms),
{
    lemma_sorted_windows_contains(windows_of(rows, 0), w);
    lemma_sorted_windows_contains(windows_of(rows, 1), w);
    lemma_sorted_windows_contains(windows_of(rows, 2), w);
    if save_up_view(rows).food.contains(w) {
        lemma_windows_of_source(rows, 0, w);
    }
    if save_up_view(rows).gold.contains(w) {
        lemma_windows_of_source(rows, 1, w);
    }
    if save_up_view(rows).stone.contains(w) {
        lemma_windows_of_source(rows, 2, w);
    }
}

// ---------------------------------------------------------------------------
// Suppression of a run
// ---------------------------------------------------------------------------

pub open spec fn max_u64(a: u64, b: u64) -> u64 {
    if a >= b {
        a
    } else {
        b
    }
}

/// Walking the windows in order from `start`: the point reached so far and the pieces cut
/// off before each window that overlaps what remains of `[start, end)`.
pub open spec fn suppress_walk(start: u64, end: u64, windows: Seq<(u64, u64)>) -> (u64, Seq<
    (u64, u64),
>)
    decreases windows.len(),
{
    if windows.len() == 0 {
        (start, Seq::empty())
    } else {
        let (cur, pieces) = suppress_walk(start, end, windows.drop_last());
        let (ws, we) = windows.last();
        if end > ws && cur < we {
            (max_u64(cur, we), if cur < ws {
                pieces.push((cur, ws))
            } else {
                pieces
            })
        } else {
            (cur, pieces)
        }
    }
}

/// What is left of `[start, end)` after carving out the save-up windows.
pub open spec fn suppress_spec(start: u64, end: u64, windows: Seq<(u64, u64)>) -> Seq<(u64, u64)> {
    let (cur, pieces) = suppress_walk(start, end, windows);
    if cur < end {
        pieces.push((cur, end))
    } else {
        pieces
    }
}

/// Returns the list of valid `(start_ms, end_ms)` intervals after carving out any
/// overlapping save-up windows.
pub fn apply_suppression(start_ms: u64, end_ms: u64, intervals: &[(u64, u64)]) -> (r: Vec<
    (u64, u64),
>)
    ensures
        r@ == suppress_spec(start_ms, end_ms, intervals@),
{
    let mut result: Vec<(u64, u64)> = Vec::new();
    let mut current_start = start_ms;
    for k in 0..intervals.len()
        invariant
            (current_start, result@) == suppress_walk(start_ms, end_ms, intervals@.take(k as int)),
    {
        let (w_start, w_end) = intervals[k];
        proof {
            assert(intervals@.take(k + 1).drop_last() =~= intervals@.take(k as int));
            assert(intervals@.take(k + 1).last() == (w_start, w_end));
        }
        if end_ms > w_start && current_start < w_end {
            if current_start < w_start {
                result.push((current_start, w_start));
            }
            current_start = if current_start >= w_end {
                current_start
            } else {
                w_end
            };
        }
    }
    assert(intervals@.take(intervals@.len() as int) =~= intervals@);
    if current_start < end_ms {
        result.push((current_start, end_ms));
    }
    result
}

pub open spec fn apart(p: (u64, u64), w: (u64, u64)) -> bool {
    p.1 <= w.0 || w.1 <= p.0
}

proof fn lemma_suppress_walk(start: u64, end: u64, ws: Seq<(u64, u64)>, n: int)
    requires
        0 <= n <= ws.len(),
        sorted_pairs(ws),
        forall|j: int| 0 <= j < ws.len() ==> (#[trigger] ws[j]).0 <= ws[j].1,
    ensures
        ({
            let (cur, ps) = suppress_walk(start, end, ws.take(n));
            &&& start <= cur
            &&& forall|i: int| 0 <= i < ps.len() ==> start <= (#[trigger] ps[i]).0 < ps[i].1 <= cur
                && ps[i].1 <= end
            &&& forall|i: int, j: int| 0 <= i < j < ps.len() ==> (#[trigger] ps[i]).1 <= (
            #[trigger] ps[j]).0
            &&& forall|j: int| 0 <= j < n ==> (#[trigger] ws[j]).0 >= end || cur >= ws[j].1
            &&& forall|i: int, j: int|
                0 <= i < ps.len() && 0 <= j < n ==> apart(#[trigger] ps[i], #[trigger] ws[j])
            &&& forall|i: int, j: int|
                0 <= i < ps.len() && n <= j < ws.len() ==> (#[trigger] ps[i]).1 <= (
                #[trigger] ws[j]).0
        }),
    decreases n,
{
    if n > 0 {
        lemma_suppress_walk(start, end, ws, n - 1);
        assert(ws.take(n).drop_last() =~= ws.take(n - 1));
        assert(ws.take(n).last() == ws[n - 1]);
        let (cur, ps) = suppress_walk(start, end, ws.take(n - 1));
        let (ncur, nps) = suppress_walk(start, end, ws.take(n));
        let w = ws[n - 1];
        if end > w.0 && cur < w.1 {
            assert forall|j: int| 0 <= j < n implies (#[trigger] ws[j]).0 >= end || ncur >= ws[j].1 by {
            }
            if cur < w.0 {
                assert(nps == ps.push((cur, w.0)));
                assert forall|i: int, j: int|
                    0 <= i < nps.len() && 0 <= j < n implies apart(#[trigger] nps[i], #[trigger] ws[j]) by {
                    if i < ps.len() {
                        assert(nps[i] == ps[i]);
                    } else {
                        assert(nps[i] == (cur, w.0));
                        if j < n - 1 {
                        }
                    }
                }
                assert forall|i: int, j: int|
                    0 <= i < nps.len() && n <= j < ws.len() implies (#[trigger] nps[i]).1 <= (
                    #[trigger] ws[j]).0 by {
                    if i < ps.len() {
                        assert(nps[i] == ps[i]);
                    } else {
                        assert(pair_le(ws[n - 1], ws[j]));
                    }
                }
                assert forall|i: int, j: int| 0 <= i < j < nps.len() implies (#[trigger] nps[i]).1 <= (
                #[trigger] nps[j]).0 by {
                    if j < ps.len() {
                        assert(nps[i] == ps[i] && nps[j] == ps[j]);
                    } else {
                        assert(nps[i] == ps[i]);
                    }
                }
                assert forall|i: int| 0 <= i < nps.len() implies start <= (#[trigger] nps[i]).0 < nps[i].1 <= ncur
                    && nps[i].1 <= end by {
                    if i < ps.len() {
                        assert(nps[i] == ps[i]);
                    }
                }
            } else {
                assert(nps == ps);
                assert forall|i: int, j: int|
                    0 <= i < nps.len() && 0 <= j < n implies apart(#[trigger] nps[i], #[trigger] ws[j]) by {
                    if j == n - 1 {
                        assert(nps[i].1 <= cur);
                    }
                }
            }
        } else {
            assert(nps == ps && ncur == cur);
            assert forall|i: int, j: int|
                0 <= i < nps.len() && 0 <= j < n implies apart(#[trigger] nps[i], #[trigger] ws[j]) by {
                if j == n - 1 {
                    assert(nps[i].1 <= ws[n - 1].0);
                }
            }
        }
    }
}

/// Carving save-up windows out of a run, with the windows well-formed and in ascending
/// order (as `index_save_up_events` gives them): every piece left is a non-empty part of the run,
/// the pieces come in order without overlapping, and none of them overlaps a window.
pub proof fn law_suppression_removes_windows(start: u64, end: u64, windows: Seq<(u64, u64)>)
    requires
        sorted_pairs(windows),
        forall|j: int| 0 <= j < windows.len() ==> (#[trigger] windows[j]).0 <= windows[j].1,
    ensures
        ({
            let ps = suppress_spec(start, end, windows);
            &&& forall|i: int| 0 <= i < ps.len() ==> start <= (#[trigger] ps[i]).0 < ps[i].1 <= end
            &&& forall|i: int, j: int| 0 <= i < j < ps.len() ==> (#[trigger] ps[i]).1 <= (
            #[trigger] ps[j]).0
            &&& forall|i: int, j: int|
                0 <= i < ps.len() && 0 <= j < windows.len() ==> apart(
                    #[trigger] ps[i],
                    #[trigger] windows[j],
                )
        }),
{
    lemma_suppress_walk(start, end, windows, windows.len() as int);
    assert(windows.take(windows.len() as int) =~= windows);
    let (cur, ps) = suppress_walk(start, end, windows);
    let out = suppress_spec(start, end, windows);
    if cur < end {
        assert(out == ps.push((cur, end)));
        assert forall|i: int, j: int|
            0 <= i < out.len() && 0 <= j < windows.len() implies apart(#[trigger] out[i], #[trigger] windows[j]) by {
            if i < ps.len() {
                assert(out[i] == ps[i]);
            }
        }
        assert forall|i: int, j: int| 0 <= i < j < out.len() implies (#[trigger] out[i]).1 <= (
        #[trigger] out[j]).0 by {
            if j < ps.len() {
                assert(out[i] == ps[i] && out[j] == ps[j]);
            } else {
                assert(out[i] == ps[i]);
            }
        }
        assert forall|i: int| 0 <= i < out.len() implies start <= (#[trigger] out[i]).0 < out[i].1 <= end by {
            if i < ps.len() {
                assert(out[i] == ps[i]);
            }
        }
    }
}

/// `t` lies in one of the pieces.
pub open spec fn covered(ps: Seq<(u64, u64)>, t: int) -> bool {
    exists|i: int| 0 <= i < ps.len() && (#[trigger] ps[i]).0 <= t < ps[i].1
}

/// `t` lies in none of the first `n` windows.
pub open spec fn outside_windows(ws: Seq<(u64, u64)>, n: int, t: int) -> bool {
    forall|j: int| 0 <= j < n ==> !((#[trigger] ws[j]).0 <= t < ws[j].1)
}

proof fn lemma_suppress_walk_covers(start: u64, end: u64, ws: Seq<(u64, u64)>, n: int)
    requires
        0 <= n <= ws.len(),
    ensures
        start <= suppress_walk(start, end, ws.take(n)).0,
        forall|t: int|
            start <= t < suppress_walk(start, end, ws.take(n)).0 && t < end && outside_windows(ws, n, t)
                ==> #[trigger] covered(suppress_walk(start, end, ws.take(n)).1, t),
    decreases n,
{
    if n > 0 {
        lemma_suppress_walk_covers(start, end, ws, n - 1);
        assert(ws.take(n).drop_last() =~= ws.take(n - 1));
        assert(ws.take(n).last() == ws[n - 1]);
        let (cur, ps) = suppress_walk(start, end, ws.take(n - 1));
        let (ncur, nps) = suppress_walk(start, end, ws.take(n));
        let w = ws[n - 1];
        assert forall|t: int| start <= t < ncur && t < end && outside_windows(ws, n, t) implies #[trigger] covered(nps, t) by {
            assert(outside_windows(ws, n - 1, t));
            assert(!(w.0 <= t < w.1));
            if t < cur {
                assert(covered(ps, t));
                let i = choose|i: int| 0 <= i < ps.len() && (#[trigger] ps[i]).0 <= t < ps[i].1;
                if end > w.0 && cur < w.1 && cur < w.0 {
                    assert(nps == ps.push((cur, w.0)));
                } else {
                    assert(nps == ps);
                }
                assert(nps[i] == ps[i]);
            } else {
                assert(end > w.0 && cur < w.1);
                assert(cur < w.0);
                assert(nps == ps.push((cur, w.0)));
                assert(nps[ps.len() as int] == (cur, w.0));
            }
        }
    }
}

/// Carving out the save-up windows removes nothing else: every moment of the run that lies
/// in no window lies in one of the pieces left.
pub proof fn law_suppression_keeps_the_rest(start: u64, end: u64, windows: Seq<(u64, u64)>)
    ensures
        forall|t: int| start <= t < end && outside_windows(windows, windows.len() as int, t)
            ==> #[trigger] covered(suppress_spec(start, end, windows), t),
{
    lemma_suppress_walk_covers(start, end, windows, windows.len() as int);
    assert(windows.take(windows.len() as int) =~= windows);
    let (cur, ps) = suppress_walk(start, end, windows);
    let out = suppress_spec(start, end, windows);
    assert forall|t: int| start <= t < end && outside_windows(windows, windows.len() as int, t)
        implies #[trigger] covered(out, t) by {
        if t < cur {
            assert(covered(ps, t));
            let i = choose|i: int| 0 <= i < ps.len() && (#[trigger] ps[i]).0 <= t < ps[i].1;
            if cur < end {
                assert(out[i] == ps[i]);
            }
        } else {
            assert(out == ps.push((cur, end)));
            assert(out[ps.len() as int] == (cur, end));
        }
    }
}

/// Without windows a run is left whole (when it is non-empty), so wood, which has no
/// save-up windows, is never trimmed.
pub proof fn law_no_windows_no_trim(start: u64, end: u64)
    ensures
        suppress_spec(start, end, Seq::empty()) == if start < end {
            seq![(start, end)]
        } else {
            Seq::<(u64, u64)>::empty()
        },
{
    assert(suppress_spec(start, end, Seq::empty()) =~= if start < end {
        seq![(start, end)]
    } else {
        Seq::<(u64, u64)>::empty()
    });
}

// ---------------------------------------------------------------------------
// Floating runs
// ---------------------------------------------------------------------------

#[derive(Debug, Clone)]
pub struct FloatingSegment {
    pub start_ms: u64,
    pub end_ms: u64,
    pub resource: String,
    pub age: String,
}

/// Milliseconds of floating per resource.
#[derive(Debug, Clone, Copy, PartialEq, Eq, Default)]
pub struct FloatingMillis {
    pub food: u128,
    pub wood: u128,
    pub gold: u128,
    pub stone: u128,
}

/// A floating segment by its views.
pub struct FSeg {
    pub start: u64,
    pub end: u64,
    pub resource: Seq<char>,
    pub age: Seq<char>,
}

pub open spec fn fseg_view(s: FloatingSegment) -> FSeg {
    FSeg { start: s.start_ms, end: s.end_ms, resource: s.resource@, age: s.age@ }
}

pub open spec fn fsegs_view(s: Seq<FloatingSegment>) -> Seq<FSeg> {
    s.map_values(|g: FloatingSegment| fseg_view(g))
}

/// Resources by index: food, wood, gold, stone.
pub open spec fn res_name(r: int) -> Seq<char> {
    if r == 0 {
        "Food"@
    } else if r == 1 {
        "Wood"@
    } else if r == 2 {
        "Gold"@
    } else {
        "Stone"@
    }
}

pub open spec fn piece_len(p: (u64, u64)) -> int {
    if p.1 >= p.0 {
        p.1 - p.0
    } else {
        0
    }
}

/// The pieces lasting at least `FLOATING_MIN_DURATION_MS`, as segments of `resource` in `age`.
pub open spec fn long_pieces(ps: Seq<(u64, u64)>, resource: Seq<char>, age: Seq<char>) -> Seq<FSeg>
    decreases ps.len(),
{
    if ps.len() == 0 {
        Seq::empty()
    } else {
        let prev = long_pieces(ps.drop_last(), resource, age);
        let p = ps.last();
        if piece_len(p) >= FLOATING_MIN_DURATION_MS {
            prev.push(FSeg { start: p.0, end: p.1, resource, age })
        } else {
            prev
        }
    }
}

/// The segments that a run from `start` to `end` of resource `r` counts for, in `age`.
pub open spec fn closed_run(start: u64, end: u64, windows: Seq<(u64, u64)>, r: int, age: Seq<char>) -> Seq<
    FSeg,
> {
    long_pieces(suppress_spec(start, end, windows), res_name(r), age)
}

pub struct SupView {
    pub food: Seq<(u64, u64)>,
    pub gold: Seq<(u64, u64)>,
    pub stone: Seq<(u64, u64)>,
}

pub open spec fn sup_view(s: Suppressions) -> SupView {
    SupView { food: s.food@, gold: s.gold@, stone: s.stone@ }
}

/// Wood is never suppressed.
pub open spec fn windows_for(sv: SupView, r: int) -> Seq<(u64, u64)> {
    if r == 0 {
        sv.food
    } else if r == 1 {
        Seq::empty()
    } else if r == 2 {
        sv.gold
    } else {
        sv.stone
    }
}

pub type Runs = (Option<u64>, Option<u64>, Option<u64>, Option<u64>);

pub open spec fn run_at(runs: Runs, r: int) -> Option<u64> {
    if r == 0 {
        runs.0
    } else if r == 1 {
        runs.1
    } else if r == 2 {
        runs.2
    } else {
        runs.3
    }
}

pub open spec fn set_run(runs: Runs, r: int, v: Option<u64>) -> Runs {
    if r == 0 {
        (v, runs.1, runs.2, runs.3)
    } else if r == 1 {
        (runs.0, v, runs.2, runs.3)
    } else if r == 2 {
        (runs.0, runs.1, v, runs.3)
    } else {
        (runs.0, runs.1, runs.2, v)
    }
}

/// The state of the walk over the rows.
pub struct FloatState {
    pub age: Seq<char>,
    pub age_index: int,
    /// Where each resource's current run above threshold started, if one is open.
    pub runs: Runs,
    pub last: u64,
    pub segs: Seq<FSeg>,
    /// Ages whose totals are reported, in the order they were first counted for.
    pub visited: Seq<Seq<char>>,
}

pub open spec fn float_init() -> FloatState {
    FloatState {
        age: "Dark Age"@,
        age_index: 0,
        runs: (None, None, None, None),
        last: 0,
        segs: Seq::empty(),
        visited: Seq::empty(),
    }
}

pub open spec fn close_run_spec(st: FloatState, r: int, end: u64, sv: SupView) -> FloatState {
    match run_at(st.runs, r) {
        Some(start) => FloatState {
            runs: set_run(st.runs, r, None),
            segs: st.segs + closed_run(start, end, windows_for(sv, r), r, st.age),
            ..st
        },
        None => st,
    }
}

pub open spec fn close_all(st: FloatState, end: u64, sv: SupView) -> FloatState {
    close_run_spec(
        close_run_spec(close_run_spec(close_run_spec(st, 0, end, sv), 1, end, sv), 2, end, sv),
        3,
        end,
        sv,
    )
}

pub open spec fn visit(st: FloatState) -> FloatState {
    if st.visited.contains(st.age) {
        st
    } else {
        FloatState { visited: st.visited.push(st.age), ..st }
    }
}

pub open spec fn threshold_of(age_index: int, r: int) -> u32 {
    let t = crate::constants::thresholds_spec(age_index);
    if r == 0 {
        t.food
    } else if r == 1 {
        t.wood
    } else if r == 2 {
        t.gold
    } else {
        t.stone
    }
}

/// A screen grab's reading of resource `r`, when it parses as a number.
pub open spec fn reading_of(row: MergedRow, r: int) -> Option<u32> {
    parse_u32_spec(
        if r == 0 {
            row.food@
        } else if r == 1 {
            row.wood@
        } else if r == 2 {
            row.gold@
        } else {
            row.stone@
        },
    )
}

/// A reading above the threshold opens a run (if none is open); a reading at or below it
/// closes the open run; no reading leaves things as they are.
pub open spec fn update_spec(st: FloatState, r: int, val: Option<u32>, ts: u64, sv: SupView) -> FloatState {
    match val {
        None => st,
        Some(v) => if v > threshold_of(st.age_index, r) {
            if run_at(st.runs, r) is None {
                FloatState { runs: set_run(st.runs, r, Some(ts)), ..st }
            } else {
                st
            }
        } else {
            close_run_spec(st, r, ts, sv)
        },
    }
}

pub open spec fn age_index_of(name: Seq<char>) -> int {
    if name == "Feudal Age"@ {
        1
    } else if name == "Castle Age"@ {
        2
    } else {
        3
    }
}

pub open spec fn float_step(st: FloatState, row: MergedRow, sv: SupView) -> FloatState {
    let ts = row.in_game_ms;
    let st1 = FloatState { last: ts, ..st };
    if is_rec_event(row) {
        match age_up_target(row.event_desc@) {
            Some(name) => {
                let st3 = close_all(visit(st1), ts, sv);
                FloatState { age: name, age_index: age_index_of(name), ..st3 }
            },
            None => st1,
        }
    } else if is_screen_grab(row) {
        let st2 = visit(st1);
        let u0 = update_spec(st2, 0, reading_of(row, 0), ts, sv);
        let u1 = update_spec(u0, 1, reading_of(row, 1), ts, sv);
        let u2 = update_spec(u1, 2, reading_of(row, 2), ts, sv);
        update_spec(u2, 3, reading_of(row, 3), ts, sv)
    } else {
        st1
    }
}

pub open spec fn float_fold(rows: Seq<MergedRow>, sv: SupView) -> FloatState
    decreases rows.len(),
{
    if rows.len() == 0 {
        float_init()
    } else {
        float_step(float_fold(rows.drop_last(), sv), rows.last(), sv)
    }
}

/// The walk over all rows, with every run still open closed at the last timestamp.
pub open spec fn float_final(rows: Seq<MergedRow>, sv: SupView) -> FloatState {
    let st = float_fold(rows, sv);
    close_all(visit(st), st.last, sv)
}

/// Milliseconds of floating of `resource` in `age` over the segments.
pub open spec fn seg_total(segs: Seq<FSeg>, age: Seq<char>, resource: Seq<char>) -> nat
    decreases segs.len(),
{
    if segs.len() == 0 {
        0
    } else {
        let s = segs.last();
        seg_total(segs.drop_last(), age, resource) + if s.age == age && s.resource == resource {
            piece_len((s.start, s.end)) as nat
        } else {
            0
        }
    }
}

/// Closes the run of resource `r` (if open) at `end`, adding its long pieces.
fn close_run(
    run: &mut Option<u64>,
    end: u64,
    intervals: &[(u64, u64)],
    r: usize,
    age: &String,
    segments: &mut Vec<FloatingSegment>,
)
    requires
        r < 4,
    ensures
        *final(run) is None,
        fsegs_view(final(segments)@) == fsegs_view(old(segments)@) + match *old(run) {
            Some(start) => long_pieces(suppress_spec(start, end, intervals@), res_name(r as int), age@),
            None => Seq::empty(),
        },
{
    match *run {
        None => {
            assert(fsegs_view(segments@) =~= fsegs_view(segments@) + Seq::<FSeg>::empty());
        },
        Some(start) => {
            *run = None;
            let pieces = apply_suppression(start, end, intervals);
            let ghost base = fsegs_view(segments@);
            let name = if r == 0 {
                "Food"
            } else if r == 1 {
                "Wood"
            } else if r == 2 {
                "Gold"
            } else {
                "Stone"
            };
            for k in 0..pieces.len()
                invariant
                    fsegs_view(segments@) == base + long_pieces(pieces@.take(k as int), res_name(r as int), age@),
                    name@ == res_name(r as int),
            {
                let (eff_start, eff_end) = pieces[k];
                proof {
                    assert(pieces@.take(k + 1).drop_last() =~= pieces@.take(k as int));
                    assert(pieces@.take(k + 1).last() == (eff_start, eff_end));
                }
                let duration = if eff_end >= eff_start {
                    eff_end - eff_start
                } else {
                    0
                };
                if duration >= FLOATING_MIN_DURATION_MS {
                    let ghost before = segments@;
                    segments.push(
                        FloatingSegment {
                            start_ms: eff_start,
                            end_ms: eff_end,
                            resource: name.to_owned(),
                            age: age.clone(),
                        },
                    );
                    assert(fsegs_view(segments@) =~= fsegs_view(before).push(fseg_view(segments@.last())));
                    assert(fsegs_view(segments@) =~= base + long_pieces(pieces@.take(k + 1), res_name(r as int), age@));
                }
            }
            assert(pieces@.take(pieces@.len() as int) =~= pieces@);
        },
    }
}

fn update_resource(
    val: Option<u32>,
    threshold: u32,
    run: &mut Option<u64>,
    ts: u64,
    intervals: &[(u64, u64)],
    r: usize,
    age: &String,
    segments: &mut Vec<FloatingSegment>,
)
    requires
        r < 4,
    ensures
        match val {
            None => *final(run) == *old(run) && final(segments)@ == old(segments)@,
            Some(v) => if v > threshold {
                *final(run) == (if *old(run) is None {
                    Some(ts)
                } else {
                    *old(run)
                }) && final(segments)@ == old(segments)@
            } else {
                &&& *final(run) is None
                &&& fsegs_view(final(segments)@) == fsegs_view(old(segments)@) + match *old(run) {
                    Some(start) => long_pieces(
                        suppress_spec(start, ts, intervals@),
                        res_name(r as int),
                        age@,
                    ),
                    None => Seq::empty(),
                }
            },
        },
{
    if let Some(v) = val {
        if v > threshold {
            if run.is_none() {
                *run = Some(ts);
            }
        } else {
            close_run(run, ts, intervals, r, age, segments);
        }
    }
}

fn parse_reading(s: &String) -> (r: Option<u32>)
    ensures
        r == parse_u32_spec(s@),
{
    let cs = chars_of(s.as_str());
    parse_u32(&cs)
}

fn contains_age(visited: &Vec<String>, age: &String) -> (b: bool)
    ensures
        b == visited@.map_values(|a: String| a@).contains(age@),
{
    let ghost vs = visited@.map_values(|a: String| a@);
    for k in 0..visited.len()
        invariant
            vs == visited@.map_values(|a: String| a@),
            forall|q: int| 0 <= q < k ==> vs[q] != age@,
    {
        if visited[k] == *age {
            assert(vs[k as int] == age@);
            return true;
        }
    }
    false
}

fn visit_age(visited: &mut Vec<String>, age: &String)
    ensures
        final(visited)@.map_values(|a: String| a@) == if old(visited)@.map_values(|a: String| a@).contains(age@) {
            old(visited)@.map_values(|a: String| a@)
        } else {
            old(visited)@.map_values(|a: String| a@).push(age@)
        },
{
    if !contains_age(visited, age) {
        let ghost before = visited@;
        visited.push(age.clone());
        assert(visited@.map_values(|a: String| a@) =~= before.map_values(|a: String| a@).push(age@));
    }
}

/// Sum over the segments of `resource` in `age` of their lengths.
fn total_for(segments: &Vec<FloatingSegment>, age: &String, resource: &str) -> (t: u128)
    ensures
        t == seg_total(fsegs_view(segments@), age@, resource@),
{
    let ghost sv = fsegs_view(segments@);
    let n = segments.len();
    let mut t: u128 = 0;
    for k in 0..n
        invariant
            n == segments@.len(),
            sv == fsegs_view(segments@),
            t == seg_total(sv.take(k as int), age@, resource@),
            t <= k * 0x1_0000_0000_0000_0000,
    {
        let s = &segments[k];
        proof {
            assert(sv.take(k + 1).drop_last() =~= sv.take(k as int));
            assert(sv.take(k + 1).last() == fseg_view(*s));
            assert(n <= 0xffff_ffff_ffff_ffff);
        }
        if s.age == *age && str_eq(s.resource.as_str(), resource) {
            let d: u64 = if s.end_ms >= s.start_ms {
                s.end_ms - s.start_ms
            } else {
                0
            };
            t = t + d as u128;
        }
    }
    assert(sv.take(n as int) =~= sv);
    t
}

/// The walk's state as held in the variables of `calculate_floating_seconds`.
pub open spec fn float_state(
    age: &String,
    age_index: usize,
    food: Option<u64>,
    wood: Option<u64>,
    gold: Option<u64>,
    stone: Option<u64>,
    last: u64,
    segments: &Vec<FloatingSegment>,
    visited: &Vec<String>,
) -> FloatState {
    FloatState {
        age: age@,
        age_index: age_index as int,
        runs: (food, wood, gold, stone),
        last,
        segs: fsegs_view(segments@),
        visited: visited@.map_values(|a: String| a@),
    }
}

/// Walk the merged observation rows and compute how many milliseconds each resource
/// exceeded its age-specific threshold continuously for at least
/// `FLOATING_MIN_DURATION_MS`, after applying save-up window suppression.
///
/// Returns, for every age the walk counted for (in the order first met), the floating
/// milliseconds per resource, and the floating segments in the order they were closed.
#[verifier::rlimit(40)]
pub fn calculate_floating_seconds(rows: &[MergedRow], suppressions: &Suppressions) -> (r: (
    Vec<(String, FloatingMillis)>,
    Vec<FloatingSegment>,
))
    ensures
        fsegs_view(r.1@) == float_final(rows@, sup_view(*suppressions)).segs,
        r.0@.len() == float_final(rows@, sup_view(*suppressions)).visited.len(),
        forall|k: int|
            0 <= k < r.0@.len() ==> {
                let age = float_final(rows@, sup_view(*suppressions)).visited[k];
                let segs = float_final(rows@, sup_view(*suppressions)).segs;
                &&& (#[trigger] r.0@[k]).0@ == age
                &&& r.0@[k].1.food == seg_total(segs, age, "Food"@)
                &&& r.0@[k].1.wood == seg_total(segs, age, "Wood"@)
                &&& r.0@[k].1.gold == seg_total(segs, age, "Gold"@)
                &&& r.0@[k].1.stone == seg_total(segs, age, "Stone"@)
            },
{
    let ghost sv = sup_view(*suppressions);
    let mut segments: Vec<FloatingSegment> = Vec::new();
    let mut visited: Vec<String> = Vec::new();
    let mut food_run: Option<u64> = None;
    let mut wood_run: Option<u64> = None;
    let mut gold_run: Option<u64> = None;
    let mut stone_run: Option<u64> = None;
    let mut current_age = "Dark Age".to_owned();
    let mut age_index: usize = 0;
    let mut last_ts: u64 = 0;
    let no_windows: Vec<(u64, u64)> = Vec::new();
    assert(fsegs_view(segments@) =~= Seq::<FSeg>::empty());
    assert(visited@.map_values(|a: String| a@) =~= Seq::<Seq<char>>::empty());

    for i in 0..rows.len()
        invariant
            sv == sup_view(*suppressions),
            no_windows@ == Seq::<(u64, u64)>::empty(),
            age_index < 4,
            float_fold(rows@.take(i as int), sv) == float_state(&current_age, age_index, food_run, wood_run, gold_run, stone_run, last_ts, &segments, &visited),
    {
        let row = &rows[i];
        let ghost st0 = float_fold(rows@.take(i as int), sv);
        proof {
            assert(rows@.take(i + 1).drop_last() =~= rows@.take(i as int));
            assert(rows@.take(i + 1).last() == *row);
            assert(float_fold(rows@.take(i + 1), sv) == float_step(st0, *row, sv));
        }
        last_ts = row.in_game_ms;
        let ts = row.in_game_ms;
        let ghost st1 = FloatState { last: ts, ..st0 };
        if str_eq(row.observation_type.as_str(), "RecEvent") {
            if let Some(name) = age_up_target_of(row.event_desc.as_str()) {
                visit_age(&mut visited, &current_age);
                let ghost sa = visit(st1);
                assert(float_state(&current_age, age_index, food_run, wood_run, gold_run, stone_run, last_ts, &segments, &visited) == sa);
                close_run(&mut food_run, ts, suppressions.food.as_slice(), 0, &current_age, &mut segments);
                let ghost sb = close_run_spec(sa, 0, ts, sv);
                assert(float_state(&current_age, age_index, food_run, wood_run, gold_run, stone_run, last_ts, &segments, &visited) == sb);
                close_run(&mut wood_run, ts, no_windows.as_slice(), 1, &current_age, &mut segments);
                let ghost sc = close_run_spec(sb, 1, ts, sv);
                assert(float_state(&current_age, age_index, food_run, wood_run, gold_run, stone_run, last_ts, &segments, &visited) == sc);
                close_run(&mut gold_run, ts, suppressions.gold.as_slice(), 2, &current_age, &mut segments);
                let ghost sd = close_run_spec(sc, 2, ts, sv);
                assert(float_state(&current_age, age_index, food_run, wood_run, gold_run, stone_run, last_ts, &segments, &visited) == sd);
                close_run(&mut stone_run, ts, suppressions.stone.as_slice(), 3, &current_age, &mut segments);
                let ghost se = close_run_spec(sd, 3, ts, sv);
                assert(float_state(&current_age, age_index, food_run, wood_run, gold_run, stone_run, last_ts, &segments, &visited) == se);
                let idx: usize = if str_eq(name.as_str(), "Feudal Age") {
                    1
                } else if str_eq(name.as_str(), "Castle Age") {
                    2
                } else {
                    3
                };
                current_age = name;
                age_index = idx;
                assert(float_state(&current_age, age_index, food_run, wood_run, gold_run, stone_run, last_ts, &segments, &visited) == float_step(st0, *row, sv));
            } else {
                assert(float_state(&current_age, age_index, food_run, wood_run, gold_run, stone_run, last_ts, &segments, &visited) == float_step(st0, *row, sv));
            }
        } else if str_eq(row.observation_type.as_str(), "ScreenGrab") {
            let thresholds = crate::constants::floating_thresholds(age_index);
            let food_val = parse_reading(&row.food);
            let wood_val = parse_reading(&row.wood);
            let gold_val = parse_reading(&row.gold);
            let stone_val = parse_reading(&row.stone);
            visit_age(&mut visited, &current_age);
            let ghost sa = visit(st1);
            assert(float_state(&current_age, age_index, food_run, wood_run, gold_run, stone_run, last_ts, &segments, &visited) == sa);
            update_resource(food_val, thresholds.food, &mut food_run, ts, suppressions.food.as_slice(), 0, &current_age, &mut segments);
            let ghost sb = update_spec(sa, 0, reading_of(*row, 0), ts, sv);
            assert(float_state(&current_age, age_index, food_run, wood_run, gold_run, stone_run, last_ts, &segments, &visited) == sb);
            update_resource(wood_val, thresholds.wood, &mut wood_run, ts, no_windows.as_slice(), 1, &current_age, &mut segments);
            let ghost sc = update_spec(sb, 1, reading_of(*row, 1), ts, sv);
            assert(float_state(&current_age, age_index, food_run, wood_run, gold_run, stone_run, last_ts, &segments, &visited) == sc);
            update_resource(gold_val, thresholds.gold, &mut gold_run, ts, suppressions.gold.as_slice(), 2, &current_age, &mut segments);
            let ghost sd = update_spec(sc, 2, reading_of(*row, 2), ts, sv);
            assert(float_state(&current_age, age_index, food_run, wood_run, gold_run, stone_run, last_ts, &segments, &visited) == sd);
            update_resource(stone_val, thresholds.stone, &mut stone_run, ts, suppressions.stone.as_slice(), 3, &current_age, &mut segments);
            assert(float_state(&current_age, age_index, food_run, wood_run, gold_run, stone_run, last_ts, &segments, &visited) == float_step(st0, *row, sv));
        } else {
            assert(float_state(&current_age, age_index, food_run, wood_run, gold_run, stone_run, last_ts, &segments, &visited) == float_step(st0, *row, sv));
        }
    }
    assert(rows@.take(rows@.len() as int) =~= rows@);
    visit_age(&mut visited, &current_age);
    close_run(&mut food_run, last_ts, suppressions.food.as_slice(), 0, &current_age, &mut segments);
    close_run(&mut wood_run, last_ts, no_windows.as_slice(), 1, &current_age, &mut segments);
    close_run(&mut gold_run, last_ts, suppressions.gold.as_slice(), 2, &current_age, &mut segments);
    close_run(&mut stone_run, last_ts, suppressions.stone.as_slice(), 3, &current_age, &mut segments);

    let ghost fin = float_final(rows@, sv);
    let mut summary: Vec<(String, FloatingMillis)> = Vec::new();
    for k in 0..visited.len()
        invariant
            fin == float_final(rows@, sv),
            fsegs_view(segments@) == fin.segs,
            visited@.map_values(|a: String| a@) == fin.visited,
            summary@.len() == k,
            forall|q: int|
                0 <= q < k ==> {
                    let age = fin.visited[q];
                    &&& (#[trigger] summary@[q]).0@ == age
                    &&& summary@[q].1.food == seg_total(fin.segs, age, "Food"@)
                    &&& summary@[q].1.wood == seg_total(fin.segs, age, "Wood"@)
                    &&& summary@[q].1.gold == seg_total(fin.segs, age, "Gold"@)
                    &&& summary@[q].1.stone == seg_total(fin.segs, age, "Stone"@)
                },
    {
        let age = &visited[k];
        assert(age@ == fin.visited[k as int]);
        let totals = FloatingMillis {
            food: total_for(&segments, age, "Food"),
            wood: total_for(&segments, age, "Wood"),
            gold: total_for(&segments, age, "Gold"),
            stone: total_for(&segments, age, "Stone"),
        };
        summary.push((age.clone(), totals));
    }
    (summary, segments)
}

// ---------------------------------------------------------------------------
// Laws of the floating analysis
// ---------------------------------------------------------------------------

/// The save-up windows that apply to the resource named `name`.
pub open spec fn res_windows(sv: SupView, name: Seq<char>) -> Seq<(u64, u64)> {
    if name == "Food"@ {
        sv.food
    } else if name == "Gold"@ {
        sv.gold
    } else if name == "Stone"@ {
        sv.stone
    } else {
        Seq::empty()
    }
}

pub open spec fn sup_ok(sv: SupView) -> bool {
    &&& sorted_pairs(sv.food) && windows_well_formed(sv.food)
    &&& sorted_pairs(sv.gold) && windows_well_formed(sv.gold)
    &&& sorted_pairs(sv.stone) && windows_well_formed(sv.stone)
}

/// A reported segment lasts at least the minimum and stays clear of its resource's windows.
pub open spec fn seg_ok(g: FSeg, sv: SupView) -> bool {
    &&& piece_len((g.start, g.end)) >= FLOATING_MIN_DURATION_MS
    &&& forall|j: int|
        0 <= j < res_windows(sv, g.resource).len() ==> apart(
            (g.start, g.end),
            #[trigger] res_windows(sv, g.resource)[j],
        )
}

pub open spec fn segs_ok(segs: Seq<FSeg>, sv: SupView) -> bool {
    forall|i: int| 0 <= i < segs.len() ==> seg_ok(#[trigger] segs[i], sv)
}

proof fn lemma_res_windows(sv: SupView, r: int)
    requires
        0 <= r < 4,
    ensures
        res_windows(sv, res_name(r)) == windows_for(sv, r),
{
    reveal_strlit("Food");
    reveal_strlit("Wood");
    reveal_strlit("Gold");
    reveal_strlit("Stone");
    if r == 1 {
        assert("Wood"@ != "Food"@) by {
            assert("Wood"@[0] != "Food"@[0]);
        }
        assert("Wood"@ != "Gold"@) by {
            assert("Wood"@[0] != "Gold"@[0]);
        }
        assert("Wood"@ != "Stone"@) by {
            assert("Wood"@.len() != "Stone"@.len());
        }
    } else if r == 2 {
        assert("Gold"@ != "Food"@) by {
            assert("Gold"@[0] != "Food"@[0]);
        }
    } else if r == 3 {
        assert("Stone"@ != "Food"@) by {
            assert("Stone"@.len() != "Food"@.len());
        }
        assert("Stone"@ != "Gold"@) by {
            assert("Stone"@.len() != "Gold"@.len());
        }
    }
}

proof fn lemma_long_pieces_ok(ps: Seq<(u64, u64)>, r: int, age: Seq<char>, sv: SupView)
    requires
        0 <= r < 4,
        forall|i: int, j: int|
            0 <= i < ps.len() && 0 <= j < windows_for(sv, r).len() ==> apart(
                #[trigger] ps[i],
                #[trigger] windows_for(sv, r)[j],
            ),
    ensures
        segs_ok(long_pieces(ps, res_name(r), age), sv),
    decreases ps.len(),
{
    lemma_res_windows(sv, r);
    if ps.len() > 0 {
        let d = ps.drop_last();
        assert forall|i: int, j: int|
            0 <= i < d.len() && 0 <= j < windows_for(sv, r).len() implies apart(
                #[trigger] d[i],
                #[trigger] windows_for(sv, r)[j],
            ) by {
            assert(d[i] == ps[i]);
        }
        lemma_long_pieces_ok(d, r, age, sv);
        let lp = long_pieces(ps, res_name(r), age);
        let prev = long_pieces(d, res_name(r), age);
        assert forall|i: int| 0 <= i < lp.len() implies seg_ok(#[trigger] lp[i], sv) by {
            if i < prev.len() {
                assert(lp[i] == prev[i]);
            } else {
                let p = ps.last();
                assert(lp[i] == FSeg { start: p.0, end: p.1, resource: res_name(r), age });
                assert forall|j: int| 0 <= j < windows_for(sv, r).len() implies apart(
                    (p.0, p.1),
                    #[trigger] windows_for(sv, r)[j],
                ) by {
                    assert(ps[ps.len() - 1] == p);
                }
            }
        }
    }
}

proof fn lemma_close_run_ok(st: FloatState, r: int, end: u64, sv: SupView)
    requires
        0 <= r < 4,
        sup_ok(sv),
        segs_ok(st.segs, sv),
    ensures
        segs_ok(close_run_spec(st, r, end, sv).segs, sv),
{
    if let Some(start) = run_at(st.runs, r) {
        let ws = windows_for(sv, r);
        law_suppression_removes_windows(start, end, ws);
        let ps = suppress_spec(start, end, ws);
        lemma_long_pieces_ok(ps, r, st.age, sv);
        let add = closed_run(start, end, ws, r, st.age);
        let all = st.segs + add;
        assert forall|i: int| 0 <= i < all.len() implies seg_ok(#[trigger] all[i], sv) by {
            if i < st.segs.len() {
                assert(all[i] == st.segs[i]);
            } else {
                assert(all[i] == add[i - st.segs.len()]);
            }
        }
    }
}

proof fn lemma_close_all_ok(st: FloatState, end: u64, sv: SupView)
    requires
        sup_ok(sv),
        segs_ok(st.segs, sv),
    ensures
        segs_ok(close_all(st, end, sv).segs, sv),
{
    lemma_close_run_ok(st, 0, end, sv);
    let a = close_run_spec(st, 0, end, sv);
    lemma_close_run_ok(a, 1, end, sv);
    let b = close_run_spec(a, 1, end, sv);
    lemma_close_run_ok(b, 2, end, sv);
    let c = close_run_spec(b, 2, end, sv);
    lemma_close_run_ok(c, 3, end, sv);
}

proof fn lemma_update_ok(st: FloatState, r: int, val: Option<u32>, ts: u64, sv: SupView)
    requires
        0 <= r < 4,
        sup_ok(sv),
        segs_ok(st.segs, sv),
    ensures
        segs_ok(update_spec(st, r, val, ts, sv).segs, sv),
{
    lemma_close_run_ok(st, r, ts, sv);
}

proof fn lemma_float_fold_ok(rows: Seq<MergedRow>, sv: SupView)
    requires
        sup_ok(sv),
    ensures
        segs_ok(float_fold(rows, sv).segs, sv),
    decreases rows.len(),
{
    if rows.len() > 0 {
        lemma_float_fold_ok(rows.drop_last(), sv);
        let st = float_fold(rows.drop_last(), sv);
        let row = rows.last();
        let ts = row.in_game_ms;
        let st1 = FloatState { last: ts, ..st };
        if is_rec_event(row) {
            if age_up_target(row.event_desc@) is Some {
                lemma_close_all_ok(visit(st1), ts, sv);
            }
        } else if is_screen_grab(row) {
            let st2 = visit(st1);
            lemma_update_ok(st2, 0, reading_of(row, 0), ts, sv);
            let u0 = update_spec(st2, 0, reading_of(row, 0), ts, sv);
            lemma_update_ok(u0, 1, reading_of(row, 1), ts, sv);
            let u1 = update_spec(u0, 1, reading_of(row, 1), ts, sv);
            lemma_update_ok(u1, 2, reading_of(row, 2), ts, sv);
            let u2 = update_spec(u1, 2, reading_of(row, 2), ts, sv);
            lemma_update_ok(u2, 3, reading_of(row, 3), ts, sv);
        }
    }
}

/// Every floating segment reported lasts at least `FLOATING_MIN_DURATION_MS` and, when the
/// save-up windows are well-formed and ascending (as `index_save_up_events` gives them),
/// overlaps none of the save-up windows of its resource (wood has none).
pub proof fn law_floating_segments_long_and_unsuppressed(rows: Seq<MergedRow>, sv: SupView)
    requires
        sup_ok(sv),
    ensures
        segs_ok(float_final(rows, sv).segs, sv),
{
    lemma_float_fold_ok(rows, sv);
    let st = float_fold(rows, sv);
    lemma_close_all_ok(visit(st), st.last, sv);
}



/// The floating report: floating time per age and resource (ages in the order first
/// counted for), the floating segments, and the totals over the four ages.
#[derive(Debug, Clone)]
pub struct FloatingReport {
    pub summary: Vec<(String, FloatingMillis)>,
    pub segments: Vec<FloatingSegment>,
    pub total: FloatingMillis,
}

/// Floating time of `resource` in `age`, if the age was counted for.
pub open spec fn age_float(st: FloatState, age: Seq<char>, resource: Seq<char>) -> nat {
    if st.visited.contains(age) {
        seg_total(st.segs, age, resource)
    } else {
        0
    }
}

/// Floating time of `resource` summed over the four ages.
pub open spec fn game_float(st: FloatState, resource: Seq<char>) -> nat {
    age_float(st, "Dark Age"@, resource) + age_float(st, "Feudal Age"@, resource)
        + age_float(st, "Castle Age"@, resource) + age_float(st, "Imperial Age"@, resource)
}

/// A total, or `u128::MAX` where it does not fit (the whole-game totals saturate).
pub open spec fn capped(n: nat) -> u128 {
    if n <= u128::MAX { n as u128 } else { u128::MAX }
}

pub open spec fn zero_millis() -> FloatingMillis {
    FloatingMillis { food: 0, wood: 0, gold: 0, stone: 0 }
}

/// Whether the summary has an entry for `age`.
pub open spec fn summary_has(summary: Seq<(String, FloatingMillis)>, age: Seq<char>) -> bool {
    exists|k: int| 0 <= k < summary.len() && (#[trigger] summary[k]).0@ == age
}

/// Whether `m` is the value of an entry for `age`.
pub open spec fn summary_holds(summary: Seq<(String, FloatingMillis)>, age: Seq<char>, m: FloatingMillis) -> bool {
    exists|k: int| 0 <= k < summary.len() && (#[trigger] summary[k]).0@ == age && summary[k].1 == m
}

/// The entry of an age in the summary, or nothing.
fn summary_for(summary: &Vec<(String, FloatingMillis)>, age: &str) -> (r: FloatingMillis)
    ensures
        summary_has(summary@, age@) ==> summary_holds(summary@, age@, r),
        !summary_has(summary@, age@) ==> r == zero_millis(),
{
    let name = age.to_owned();
    for k in 0..summary.len()
        invariant
            name@ == age@,
            forall|j: int| 0 <= j < k ==> (#[trigger] summary@[j]).0@ != age@,
    {
        if summary[k].0 == name {
            assert(summary@[k as int].0@ == age@);
            return summary[k].1;
        }
    }
    FloatingMillis { food: 0, wood: 0, gold: 0, stone: 0 }
}

/// The floating analysis of a stream: the save-up windows (`index_save_up_events`), the
/// floating time per age and the segments (`calculate_floating_seconds`), and the totals
/// over the four ages.
pub fn analyze_floating(rows: &[MergedRow]) -> (r: FloatingReport)
    ensures
        fsegs_view(r.segments@) == float_final(rows@, save_up_view(rows@)).segs,
        r.summary@.len() == float_final(rows@, save_up_view(rows@)).visited.len(),
        forall|k: int|
            0 <= k < r.summary@.len() ==> {
                let st = float_final(rows@, save_up_view(rows@));
                &&& (#[trigger] r.summary@[k]).0@ == st.visited[k]
                &&& r.summary@[k].1.food == seg_total(st.segs, st.visited[k], "Food"@)
                &&& r.summary@[k].1.wood == seg_total(st.segs, st.visited[k], "Wood"@)
                &&& r.summary@[k].1.gold == seg_total(st.segs, st.visited[k], "Gold"@)
                &&& r.summary@[k].1.stone == seg_total(st.segs, st.visited[k], "Stone"@)
            },
        r.total.food == capped(game_float(float_final(rows@, save_up_view(rows@)), "Food"@)),
        r.total.wood == capped(game_float(float_final(rows@, save_up_view(rows@)), "Wood"@)),
        r.total.gold == capped(game_float(float_final(rows@, save_up_view(rows@)), "Gold"@)),
        r.total.stone == capped(game_float(float_final(rows@, save_up_view(rows@)), "Stone"@)),
{
    let suppressions = index_save_up_events(rows);
    let (summary, segments) = calculate_floating_seconds(rows, &suppressions);
    let ghost st = float_final(rows@, save_up_view(rows@));
    let dark = summary_for(&summary, "Dark Age");
    let feudal = summary_for(&summary, "Feudal Age");
    let castle = summary_for(&summary, "Castle Age");
    let imperial = summary_for(&summary, "Imperial Age");
    proof {
        assert forall|age: Seq<char>, m: FloatingMillis|
            (summary_has(summary@, age) ==> summary_holds(summary@, age, m))
            && (!summary_has(summary@, age) ==> m == zero_millis())
            implies #[trigger] millis_matches(m, st, age) by {
            if st.visited.contains(age) {
                let j = choose|j: int| 0 <= j < st.visited.len() && st.visited[j] == age;
                assert(summary@[j].0@ == age);
                let k = choose|k: int| 0 <= k < summary@.len() && (#[trigger] summary@[k]).0@ == age && summary@[k].1 == m;
                assert(summary@[k].0@ == st.visited[k]);
            } else {
                assert forall|k: int| 0 <= k < summary@.len() implies (#[trigger] summary@[k]).0@ != age by {
                    assert(summary@[k].0@ == st.visited[k]);
                }
            }
        }
        assert(millis_matches(dark, st, "Dark Age"@));
        assert(millis_matches(feudal, st, "Feudal Age"@));
        assert(millis_matches(castle, st, "Castle Age"@));
        assert(millis_matches(imperial, st, "Imperial Age"@));
    }
    let total = FloatingMillis {
        food: dark.food.saturating_add(feudal.food).saturating_add(castle.food).saturating_add(imperial.food),
        wood: dark.wood.saturating_add(feudal.wood).saturating_add(castle.wood).saturating_add(imperial.wood),
        gold: dark.gold.saturating_add(feudal.gold).saturating_add(castle.gold).saturating_add(imperial.gold),
        stone: dark.stone.saturating_add(feudal.stone).saturating_add(castle.stone).saturating_add(imperial.stone),
    };
    FloatingReport { summary, segments, total }
}

/// The millis hold the floating time of each resource in `age`.
pub open spec fn millis_matches(m: FloatingMillis, st: FloatState, age: Seq<char>) -> bool {
    &&& m.food == age_float(st, age, "Food"@)
    &&& m.wood == age_float(st, age, "Wood"@)
    &&& m.gold == age_float(st, age, "Gold"@)
    &&& m.stone == age_float(st, age, "Stone"@)
}

} // verus!
