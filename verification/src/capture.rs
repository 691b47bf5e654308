//! Decisions of the capture loop: when a game is considered on screen, how a frame's
//! readings become a frame for the housing engine, and what goes into each telemetry row.
//! Grabbing the screen, timing and writing files belong to the application, which runs
//! the loop and asks `capture_step` what to do with each processed frame.
use vstd::prelude::*;
use crate::text::{chars_of, dec_digits, decimal_string, parse_u32, parse_u32_spec, push_decimal, str_eq};
use vstd::string::StringExecFns;
use crate::types::{Results, ResultKey, reading_or_empty, has_category};
use crate::pipeline::interpolation::CapturedFrame;

verus! {

/// The telemetry row for one frame: timestamp, then food/wood/gold/stone totals and
/// villager counts, population (current, max, villagers), idle villagers and housing status.
pub open spec fn telemetry_row_spec(m: Map<ResultKey, Seq<char>>, timestamp: u128) -> Seq<
    Seq<char>,
> {
    seq![
        dec_digits(timestamp as nat),
        reading_or_empty(m, "food"@, "total"@),
        reading_or_empty(m, "food"@, "vils"@),
        reading_or_empty(m, "wood"@, "total"@),
        reading_or_empty(m, "wood"@, "vils"@),
        reading_or_empty(m, "gold"@, "total"@),
        reading_or_empty(m, "gold"@, "vils"@),
        reading_or_empty(m, "stone"@, "total"@),
        reading_or_empty(m, "stone"@, "vils"@),
        reading_or_empty(m, "population"@, "total"@),
        reading_or_empty(m, "population"@, "housing"@),
        reading_or_empty(m, "population"@, "vils"@),
        reading_or_empty(m, "idle"@, "vils"@),
        reading_or_empty(m, "population"@, "status"@),
    ]
}

/// Column `col` holds the reading for `(category, key)`, or is empty where there is none.
pub open spec fn read_column(m: Map<ResultKey, Seq<char>>, category: Seq<char>, key: Seq<char>, col: Seq<char>) -> bool {
    if m.contains_key((category, key)) {
        col == m[(category, key)]
    } else {
        col.len() == 0
    }
}

/// The telemetry row has fourteen columns: the timestamp in decimal, then the food, wood,
/// gold and stone totals each followed by its villager count, the population's current,
/// maximum and villager counts, the idle villagers and the housing status.
pub proof fn law_telemetry_columns(m: Map<ResultKey, Seq<char>>, timestamp: u128)
    ensures
        telemetry_row_spec(m, timestamp).len() == 14,
        telemetry_row_spec(m, timestamp)[0] == dec_digits(timestamp as nat),
        read_column(m, "food"@, "total"@, telemetry_row_spec(m, timestamp)[1]),
        read_column(m, "food"@, "vils"@, telemetry_row_spec(m, timestamp)[2]),
        read_column(m, "wood"@, "total"@, telemetry_row_spec(m, timestamp)[3]),
        read_column(m, "wood"@, "vils"@, telemetry_row_spec(m, timestamp)[4]),
        read_column(m, "gold"@, "total"@, telemetry_row_spec(m, timestamp)[5]),
        read_column(m, "gold"@, "vils"@, telemetry_row_spec(m, timestamp)[6]),
        read_column(m, "stone"@, "total"@, telemetry_row_spec(m, timestamp)[7]),
        read_column(m, "stone"@, "vils"@, telemetry_row_spec(m, timestamp)[8]),
        read_column(m, "population"@, "total"@, telemetry_row_spec(m, timestamp)[9]),
        read_column(m, "population"@, "housing"@, telemetry_row_spec(m, timestamp)[10]),
        read_column(m, "population"@, "vils"@, telemetry_row_spec(m, timestamp)[11]),
        read_column(m, "idle"@, "vils"@, telemetry_row_spec(m, timestamp)[12]),
        read_column(m, "population"@, "status"@, telemetry_row_spec(m, timestamp)[13]),
{
}

pub fn prepare_telemetry_row(results: &Results, timestamp: u128) -> (row: Vec<String>)
    ensures
        row@.map_values(|s: String| s@) == telemetry_row_spec(results@, timestamp),
{
    let mut row: Vec<String> = Vec::new();
    row.push(decimal_string(timestamp));
    row.push(results.get_or_empty("food", "total"));
    row.push(results.get_or_empty("food", "vils"));
    row.push(results.get_or_empty("wood", "total"));
    row.push(results.get_or_empty("wood", "vils"));
    row.push(results.get_or_empty("gold", "total"));
    row.push(results.get_or_empty("gold", "vils"));
    row.push(results.get_or_empty("stone", "total"));
    row.push(results.get_or_empty("stone", "vils"));
    row.push(results.get_or_empty("population", "total"));
    row.push(results.get_or_empty("population", "housing"));
    row.push(results.get_or_empty("population", "vils"));
    row.push(results.get_or_empty("idle", "vils"));
    row.push(results.get_or_empty("population", "status"));
    assert(row@.map_values(|s: String| s@) =~= telemetry_row_spec(results@, timestamp));
    row
}

pub open spec fn has_total(m: Map<ResultKey, Seq<char>>, category: Seq<char>) -> bool {
    m.contains_key((category, "total"@)) && m[(category, "total"@)].len() > 0
}

/// A frame shows the game UI when food, wood, gold, stone and population all have a
/// non-empty total.
pub open spec fn has_all_fields_spec(m: Map<ResultKey, Seq<char>>) -> bool {
    &&& has_total(m, "food"@)
    &&& has_total(m, "wood"@)
    &&& has_total(m, "gold"@)
    &&& has_total(m, "stone"@)
    &&& has_total(m, "population"@)
}

fn total_present(results: &Results, category: &str) -> (b: bool)
    ensures
        b == has_total(results@, category@),
{
    match results.get(category, "total") {
        Some(v) => v.as_str().unicode_len() > 0,
        None => false,
    }
}

pub fn has_all_fields(results: &Results) -> (b: bool)
    ensures
        b == has_all_fields_spec(results@),
{
    total_present(results, "food") && total_present(results, "wood") && total_present(
        results,
        "gold",
    ) && total_present(results, "stone") && total_present(results, "population")
}

/// A number read for `(category, key)`, or 0 when there is none or it does not parse.
pub open spec fn reading_u32_or_zero(m: Map<ResultKey, Seq<char>>, category: Seq<char>, key: Seq<
    char,
>) -> u32 {
    if m.contains_key((category, key)) && parse_u32_spec(m[(category, key)]) is Some {
        parse_u32_spec(m[(category, key)])->0
    } else {
        0
    }
}

fn reading_u32(results: &Results, category: &str, key: &str) -> (n: u32)
    ensures
        n == reading_u32_or_zero(results@, category@, key@),
{
    match results.get(category, key) {
        Some(v) => {
            let cs = chars_of(v.as_str());
            match parse_u32(&cs) {
                Some(n) => n,
                None => 0,
            }
        },
        None => 0,
    }
}

/// The frame the housing engine gets for a recorded frame's readings: population current
/// and max from the population total and housing readings (0 when unreadable), colour from
/// the population colour reading ("white" when there is none).
pub fn captured_frame_from_results(results: Results, timestamp_ms: u64, frame_idx: u64) -> (f:
    CapturedFrame)
    ensures
        f.timestamp_ms == timestamp_ms,
        f.frame_idx == frame_idx,
        f.pop_curr == reading_u32_or_zero(results@, "population"@, "total"@),
        f.pop_max == reading_u32_or_zero(results@, "population"@, "housing"@),
        f.pop_color@ == if results@.contains_key(("population"@, "color"@)) {
            results@[("population"@, "color"@)]
        } else {
            "white"@
        },
        f.row_data@ == results@,
{
    let pop_curr = reading_u32(&results, "population", "total");
    let pop_max = reading_u32(&results, "population", "housing");
    let pop_color = match results.get("population", "color") {
        Some(c) => c.clone(),
        None => "white".to_owned(),
    };
    CapturedFrame { timestamp_ms, frame_idx, pop_color, pop_curr, pop_max, row_data: results }
}

#[derive(Debug, Clone, Copy, PartialEq, Eq)]
pub enum CaptureState {
    WaitingForGame,
    Recording,
    GameEnded,
}

/// What the capture loop does with a processed frame.
#[derive(Debug, Clone, Copy, PartialEq, Eq)]
pub enum CaptureAction {
    /// Keep waiting for the game UI.
    KeepWaiting,
    /// The game UI is on screen: open the telemetry file and start recording.
    StartRecording,
    /// Hand the frame to the housing engine and write the rows it releases.
    RecordFrame,
    /// The game UI was lost: stop recording and leave the loop.
    StopRecording,
}

/// The next state and the action for a frame whose processing gave `results`
/// (`None` when the game UI was not found).
pub open spec fn capture_step_spec(state: CaptureState, results: Option<Map<ResultKey, Seq<char>>>) -> (
    CaptureState,
    CaptureAction,
) {
    match state {
        CaptureState::WaitingForGame => match results {
            Some(m) => if has_all_fields_spec(m) {
                (CaptureState::Recording, CaptureAction::StartRecording)
            } else {
                (CaptureState::WaitingForGame, CaptureAction::KeepWaiting)
            },
            None => (CaptureState::WaitingForGame, CaptureAction::KeepWaiting),
        },
        CaptureState::Recording => match results {
            Some(_) => (CaptureState::Recording, CaptureAction::RecordFrame),
            None => (CaptureState::GameEnded, CaptureAction::StopRecording),
        },
        CaptureState::GameEnded => (CaptureState::GameEnded, CaptureAction::StopRecording),
    }
}

pub fn capture_step(state: CaptureState, results: Option<&Results>) -> (r: (
    CaptureState,
    CaptureAction,
))
    ensures
        r == capture_step_spec(
            state,
            match results {
                Some(m) => Some(m@),
                None => None,
            },
        ),
{
    match state {
        CaptureState::WaitingForGame => match results {
            Some(m) => if has_all_fields(m) {
                (CaptureState::Recording, CaptureAction::StartRecording)
            } else {
                (CaptureState::WaitingForGame, CaptureAction::KeepWaiting)
            },
            None => (CaptureState::WaitingForGame, CaptureAction::KeepWaiting),
        },
        CaptureState::Recording => match results {
            Some(_) => (CaptureState::Recording, CaptureAction::RecordFrame),
            None => (CaptureState::GameEnded, CaptureAction::StopRecording),
        },
        CaptureState::GameEnded => (CaptureState::GameEnded, CaptureAction::StopRecording),
    }
}

/// Recording only starts from waiting, on a frame with all fields, and once the game has
/// ended the loop stays ended.
pub proof fn law_capture_states(state: CaptureState, results: Option<Map<ResultKey, Seq<char>>>)
    ensures
        capture_step_spec(state, results).1 == CaptureAction::StartRecording ==> state
            == CaptureState::WaitingForGame && results is Some && has_all_fields_spec(results->0),
        state == CaptureState::GameEnded ==> capture_step_spec(state, results).0
            == CaptureState::GameEnded,
        state == CaptureState::Recording && results is None ==> capture_step_spec(state, results).0
            == CaptureState::GameEnded,
{
}


/// A frame's readings show the game UI (see `has_all_fields_spec`).
pub open spec fn shows_game(r: Option<Map<ResultKey, Seq<char>>>) -> bool {
    r is Some && has_all_fields_spec(r->0)
}

/// The loop over a sequence of frame readings: the final state and the action of each
/// frame.
pub open spec fn capture_run(st: CaptureState, rs: Seq<Option<Map<ResultKey, Seq<char>>>>) -> (
    CaptureState,
    Seq<CaptureAction>,
)
    decreases rs.len(),
{
    if rs.len() == 0 {
        (st, Seq::empty())
    } else {
        let r = capture_run(st, rs.drop_last());
        let step = capture_step_spec(r.0, rs.last());
        (step.0, r.1.push(step.1))
    }
}

/// Frame `i` is the first that shows the game.
pub open spec fn starts_at(rs: Seq<Option<Map<ResultKey, Seq<char>>>>, i: int) -> bool {
    &&& 0 <= i < rs.len()
    &&& shows_game(rs[i])
    &&& forall|j: int| 0 <= j < i ==> !shows_game(#[trigger] rs[j])
}

/// Every frame after `i` up to `k` has readings.
pub open spec fn readings_through(rs: Seq<Option<Map<ResultKey, Seq<char>>>>, i: int, k: int) -> bool {
    forall|j: int| i < j <= k ==> (#[trigger] rs[j]) is Some
}

proof fn lemma_first_show(rs: Seq<Option<Map<ResultKey, Seq<char>>>>, n: int, w: int)
    requires
        0 <= w < n <= rs.len(),
        shows_game(rs[w]),
    ensures
        exists|i: int| 0 <= i <= w && starts_at(rs, i),
    decreases w,
{
    if exists|j: int| 0 <= j < w && shows_game(#[trigger] rs[j]) {
        let j = choose|j: int| 0 <= j < w && shows_game(#[trigger] rs[j]);
        lemma_first_show(rs, n, j);
    } else {
        assert(starts_at(rs, w));
    }
}

proof fn lemma_run_prefix(rs: Seq<Option<Map<ResultKey, Seq<char>>>>)
    requires
        rs.len() > 0,
    ensures
        forall|i: int| 0 <= i < rs.len() - 1 ==> #[trigger] starts_at(rs.drop_last(), i) == starts_at(rs, i),
{
    let p = rs.drop_last();
    assert forall|i: int| 0 <= i < rs.len() - 1 implies #[trigger] starts_at(p, i) == starts_at(rs, i) by {
        if starts_at(rs, i) {
            assert forall|j: int| 0 <= j < i implies !shows_game(#[trigger] p[j]) by {
                assert(p[j] == rs[j]);
            }
        }
        if starts_at(p, i) {
            assert forall|j: int| 0 <= j < i implies !shows_game(#[trigger] rs[j]) by {
                assert(p[j] == rs[j]);
            }
        }
    }
}

/// Over a session from waiting: frames are waited on until the first one that shows the
/// game, which starts recording (the telemetry file with its header); every later frame
/// with readings is recorded (its released rows written), up to the first frame without
/// readings, which stops recording; from then on the loop stays stopped.
pub proof fn law_capture_session(rs: Seq<Option<Map<ResultKey, Seq<char>>>>)
    ensures
        capture_run(CaptureState::WaitingForGame, rs).1.len() == rs.len(),
        forall|k: int| 0 <= k < rs.len() ==> (#[trigger] capture_run(CaptureState::WaitingForGame, rs).1[k]
            == CaptureAction::KeepWaiting <==> forall|j: int| 0 <= j <= k ==> !shows_game(#[trigger] rs[j])),
        forall|k: int| 0 <= k < rs.len() ==> (#[trigger] capture_run(CaptureState::WaitingForGame, rs).1[k]
            == CaptureAction::StartRecording <==> starts_at(rs, k)),
        forall|i: int, k: int|
            #![trigger starts_at(rs, i), capture_run(CaptureState::WaitingForGame, rs).1[k]]
            starts_at(rs, i) && i < k < rs.len() ==> (capture_run(CaptureState::WaitingForGame, rs).1[k]
                == CaptureAction::RecordFrame <==> readings_through(rs, i, k)),
        forall|i: int, k: int|
            #![trigger starts_at(rs, i), capture_run(CaptureState::WaitingForGame, rs).1[k]]
            starts_at(rs, i) && i < k < rs.len() && !readings_through(rs, i, k) ==> capture_run(
                CaptureState::WaitingForGame,
                rs,
            ).1[k] == CaptureAction::StopRecording,
        (capture_run(CaptureState::WaitingForGame, rs).0 == CaptureState::WaitingForGame) <==> (forall|j: int|
            0 <= j < rs.len() ==> !shows_game(#[trigger] rs[j])),
        (capture_run(CaptureState::WaitingForGame, rs).0 == CaptureState::Recording) <==> (exists|i: int|
            #[trigger] starts_at(rs, i) && readings_through(rs, i, rs.len() - 1)),
    decreases rs.len(),
{
    let w = CaptureState::WaitingForGame;
    if rs.len() > 0 {
        let p = rs.drop_last();
        let n = rs.len() as int;
        let k = n - 1;
        law_capture_session(p);
        lemma_run_prefix(rs);
        let prev = capture_run(w, p);
        let acts = capture_run(w, rs).1;
        let x = rs.last();
        assert(acts == prev.1.push(capture_step_spec(prev.0, x).1));
        assert forall|j: int| 0 <= j < k implies #[trigger] p[j] == rs[j] by {}
        assert(rs[k] == x);
        // Starts are unique.
        assert forall|a: int, b: int| starts_at(rs, a) && starts_at(rs, b) implies a == b by {
            if a < b {
                assert(!shows_game(rs[a]));
            } else if b < a {
                assert(!shows_game(rs[b]));
            }
        }
        if prev.0 == w {
            assert forall|j: int| 0 <= j < k implies !shows_game(#[trigger] rs[j]) by {
                assert(!shows_game(p[j]));
            }
            if shows_game(x) {
                assert(starts_at(rs, k));
                assert(readings_through(rs, k, k));
            }
        } else {
            assert(exists|j: int| 0 <= j < k && shows_game(#[trigger] p[j]));
            let j0 = choose|j: int| 0 <= j < k && shows_game(#[trigger] p[j]);
            assert(shows_game(rs[j0]));
            lemma_first_show(rs, n, j0);
            let i0 = choose|i: int| 0 <= i <= j0 && starts_at(rs, i);
            assert(starts_at(p, i0));
            assert(!starts_at(rs, k));
            assert(shows_game(rs[i0]));
            if prev.0 == CaptureState::Recording {
                let i1 = choose|i: int| #[trigger] starts_at(p, i) && readings_through(p, i, p.len() - 1);
                assert(starts_at(rs, i1));
                assert(i1 == i0);
                assert(readings_through(rs, i0, k - 1)) by {
                    assert forall|j: int| i0 < j <= k - 1 implies (#[trigger] rs[j]) is Some by {
                        assert(p[j] is Some);
                    }
                }
                if x is Some {
                    assert(readings_through(rs, i0, k));
                } else {
                    assert(!readings_through(rs, i0, k));
                    assert forall|i: int| #[trigger] starts_at(rs, i) implies !readings_through(rs, i, k) by {
                        assert(i == i0);
                    }
                }
            } else {
                // Ended: some frame after the start had no readings.
                assert(!readings_through(p, i0, k - 1));
                let jn = choose|j: int| i0 < j <= k - 1 && !((#[trigger] p[j]) is Some);
                assert(rs[jn] is None);
                assert(!readings_through(rs, i0, k));
                assert forall|i: int| #[trigger] starts_at(rs, i) implies !readings_through(rs, i, k) by {
                    assert(i == i0);
                }
            }
        }
        assert forall|kk: int| 0 <= kk < k implies #[trigger] acts[kk] == prev.1[kk] by {}
        assert forall|i: int, kk: int| 0 <= i < kk < k implies readings_through(rs, i, kk) == readings_through(p, i, kk) by {
            if readings_through(rs, i, kk) {
                assert forall|j: int| i < j <= kk implies (#[trigger] p[j]) is Some by {
                    assert(rs[j] is Some);
                }
            }
            if readings_through(p, i, kk) {
                assert forall|j: int| i < j <= kk implies (#[trigger] rs[j]) is Some by {
                    assert(p[j] is Some);
                }
            }
        }
    }
}

/// The RGB byte at linear position `q` (pixels row by row) and channel `c`, read from a
/// BGRA buffer whose rows are `pitch` bytes apart.
pub open spec fn bgra_source(width: int, pitch: int, q: int, c: int) -> int {
    (q / width) * pitch + (q % width) * 4 + (2 - c)
}

proof fn lemma_pixel_index(q: int, width: int, height: int, pitch: int, c: int)
    requires
        0 < width,
        0 <= q < width * height,
        0 <= pitch,
        0 <= c < 3,
    ensures
        0 <= q / width < height,
        0 <= q % width < width,
        0 <= bgra_source(width, pitch, q, c) <= (height - 1) * pitch + (width - 1) * 4 + 2,
{
    let y = q / width;
    let x = q % width;
    assert(q == y * width + x && 0 <= x < width) by (nonlinear_arith)
        requires
            0 < width,
            y == q / width,
            x == q % width,
    ;
    assert(0 <= y < height) by (nonlinear_arith)
        requires
            0 < width,
            0 <= q < width * height,
            q == y * width + x,
            0 <= x < width,
    ;
    assert(y * pitch <= (height - 1) * pitch) by (nonlinear_arith)
        requires
            0 <= y <= height - 1,
            0 <= pitch,
    ;
    assert(0 <= y * pitch) by (nonlinear_arith)
        requires
            0 <= y,
            0 <= pitch,
    ;
}

/// Converts a BGRA screen buffer (rows `pitch` bytes apart, alpha ignored) into RGB bytes,
/// row by row.
pub fn bgra_to_rgb(data: &[u8], width: u32, height: u32, pitch: usize) -> (rgb: Vec<u8>)
    requires
        width as int * height as int * 3 <= usize::MAX,
        width > 0 && height > 0 ==> (height - 1) * pitch + (width - 1) * 4 + 2 < data@.len(),
    ensures
        rgb@.len() == width as int * height as int * 3,
        forall|y: int, x: int, c: int|
            0 <= y < height && 0 <= x < width && 0 <= c < 3 ==> #[trigger] rgb@[(y * width + x) * 3 + c]
                == data@[y * pitch + x * 4 + 2 - c],
{
    let mut rgb: Vec<u8> = Vec::new();
    if width == 0 || height == 0 {
        assert(width as int * height as int * 3 == 0) by (nonlinear_arith)
            requires
                width == 0 || height == 0,
        ;
        return rgb;
    }
    let w = width as usize;
    let n: usize = w * (height as usize);
    let mut q: usize = 0;
    while q < n
        invariant
            w == width as usize,
            width > 0,
            height > 0,
            n == width as int * height as int,
            n * 3 <= usize::MAX,
            q <= n,
            (height - 1) * pitch + (width - 1) * 4 + 2 < data@.len(),
            rgb@.len() == q * 3,
            forall|p: int, c: int|
                0 <= p < q && 0 <= c < 3 ==> #[trigger] rgb@[p * 3 + c]
                    == data@[bgra_source(width as int, pitch as int, p, c)],
        decreases n - q,
    {
        proof {
            lemma_pixel_index(q as int, width as int, height as int, pitch as int, 0);
            lemma_pixel_index(q as int, width as int, height as int, pitch as int, 1);
            lemma_pixel_index(q as int, width as int, height as int, pitch as int, 2);
        }
        let y = q / w;
        let x = q % w;
        assert(y as int == q as int / width as int);
        assert(x as int == q as int % width as int);
        assert(y as int * pitch as int + x as int * 4 + 2 < data@.len());
        assert(data@.len() == data.len());
        let px = y * pitch + x * 4;
        assert(px + 2 == bgra_source(width as int, pitch as int, q as int, 0));
        let ghost before = rgb@;
        rgb.push(data[px + 2]);
        rgb.push(data[px + 1]);
        rgb.push(data[px]);
        assert forall|p: int, c: int| 0 <= p < q + 1 && 0 <= c < 3 implies #[trigger] rgb@[p * 3 + c]
            == data@[bgra_source(width as int, pitch as int, p, c)] by {
            if p < q {
                assert(p * 3 + c < q * 3) by (nonlinear_arith)
                    requires
                        0 <= p < q,
                        0 <= c < 3,
                ;
                assert(rgb@[p * 3 + c] == before[p * 3 + c]);
            } else {
                assert(p * 3 + c == q * 3 + c);
            }
        }
        q = q + 1;
    }
    assert forall|y: int, x: int, c: int|
        0 <= y < height && 0 <= x < width && 0 <= c < 3 implies #[trigger] rgb@[(y * width + x) * 3 + c]
            == data@[y * pitch + x * 4 + 2 - c] by {
        let p = y * width + x;
        assert(0 <= p < width as int * height as int) by (nonlinear_arith)
            requires
                0 <= y < height,
                0 <= x < width,
                p == y * width + x,
        ;
        vstd::arithmetic::div_mod::lemma_fundamental_div_mod_converse(p, width as int, y, x);
        assert(rgb@[p * 3 + c] == data@[bgra_source(width as int, pitch as int, p, c)]);
    }
    rgb
}


/// The console part of one category: `Label: total (vils)`, with the population shown as
/// `current/max`, the idle count alone, and nothing for a category with no reading.
pub open spec fn telemetry_part(m: Map<ResultKey, Seq<char>>, cat: Seq<char>, label: Seq<char>) -> Option<Seq<char>> {
    let total = reading_or_empty(m, cat, "total"@);
    let vils = reading_or_empty(m, cat, "vils"@);
    if !has_category(m, cat) {
        None
    } else if cat == "idle"@ {
        Some(label + ": "@ + vils)
    } else if cat == "population"@ {
        let housing = reading_or_empty(m, cat, "housing"@);
        let pop = if housing.len() > 0 { total + "/"@ + housing } else { total };
        if vils.len() > 0 {
            Some(label + ": "@ + pop + " ("@ + vils + ")"@)
        } else {
            Some(label + ": "@ + pop)
        }
    } else if total.len() > 0 && vils.len() > 0 {
        Some(label + ": "@ + total + " ("@ + vils + ")"@)
    } else if total.len() > 0 {
        Some(label + ": "@ + total)
    } else if vils.len() > 0 {
        Some(label + ": "@ + vils)
    } else {
        None
    }
}

pub open spec fn some_part(o: Option<Seq<char>>) -> Seq<Seq<char>> {
    match o {
        Some(p) => seq![p],
        None => Seq::empty(),
    }
}

/// The parts of food, wood, gold, stone, population and idle villagers, in that order.
pub open spec fn telemetry_parts(m: Map<ResultKey, Seq<char>>) -> Seq<Seq<char>> {
    some_part(telemetry_part(m, "food"@, "Food"@)) + some_part(telemetry_part(m, "wood"@, "Wood"@))
        + some_part(telemetry_part(m, "gold"@, "Gold"@)) + some_part(telemetry_part(m, "stone"@, "Stone"@))
        + some_part(telemetry_part(m, "population"@, "Pop"@)) + some_part(telemetry_part(m, "idle"@, "Idle"@))
}

/// The parts joined by `sep`.
pub open spec fn join(parts: Seq<Seq<char>>, sep: Seq<char>) -> Seq<char>
    decreases parts.len(),
{
    if parts.len() == 0 {
        Seq::empty()
    } else if parts.len() == 1 {
        parts[0]
    } else {
        join(parts.drop_last(), sep) + sep + parts.last()
    }
}

/// The console line for a recorded frame: the UI scale (or `?`), the parts, and how long
/// the frame took to process.
pub open spec fn telemetry_line_spec(m: Map<ResultKey, Seq<char>>, elapsed_ms: u128) -> Seq<char> {
    let scale = if m.contains_key(("meta"@, "ui_scale"@)) { m[("meta"@, "ui_scale"@)] } else { "?"@ };
    "[Telemetry] Scale: "@ + scale + " | "@ + join(telemetry_parts(m), " | "@) + " | Time: "@
        + dec_digits(elapsed_ms as nat) + "ms"@
}

fn part_for(results: &Results, cat: &str, label: &str) -> (r: Option<String>)
    ensures
        opt_chars(r) == telemetry_part(results@, cat@, label@),
{
    if !results.has_category(cat) {
        return None;
    }
    let total = results.get_or_empty(cat, "total");
    let vils = results.get_or_empty(cat, "vils");
    let mut s = label.to_owned();
    s.append(": ");
    if str_eq(cat, "idle") {
        s.append(vils.as_str());
        return Some(s);
    }
    if str_eq(cat, "population") {
        let housing = results.get_or_empty(cat, "housing");
        s.append(total.as_str());
        if housing.as_str().unicode_len() > 0 {
            s.append("/");
            s.append(housing.as_str());
        }
        if vils.as_str().unicode_len() > 0 {
            s.append(" (");
            s.append(vils.as_str());
            s.append(")");
        }
        return Some(s);
    }
    let has_total = total.as_str().unicode_len() > 0;
    let has_vils = vils.as_str().unicode_len() > 0;
    if has_total && has_vils {
        s.append(total.as_str());
        s.append(" (");
        s.append(vils.as_str());
        s.append(")");
        Some(s)
    } else if has_total {
        s.append(total.as_str());
        Some(s)
    } else if has_vils {
        s.append(vils.as_str());
        Some(s)
    } else {
        None
    }
}

pub open spec fn opt_chars(o: Option<String>) -> Option<Seq<char>> {
    match o {
        Some(s) => Some(s@),
        None => None,
    }
}

/// The console line for a recorded frame (see `telemetry_line_spec`).
pub fn telemetry_line(results: &Results, elapsed_ms: u128) -> (line: String)
    ensures
        line@ == telemetry_line_spec(results@, elapsed_ms),
{
    let ghost m = results@;
    let p0 = part_for(results, "food", "Food");
    let p1 = part_for(results, "wood", "Wood");
    let p2 = part_for(results, "gold", "Gold");
    let p3 = part_for(results, "stone", "Stone");
    let p4 = part_for(results, "population", "Pop");
    let p5 = part_for(results, "idle", "Idle");
    let all = [p0, p1, p2, p3, p4, p5];
    let mut joined = String::new();
    let mut count: usize = 0;
    let ghost seen: Seq<Seq<char>> = Seq::empty();
    let ghost opts = seq![opt_chars(p0), opt_chars(p1), opt_chars(p2), opt_chars(p3), opt_chars(p4), opt_chars(p5)];
    let mut k: usize = 0;
    while k < 6
        invariant
            k <= 6,
            all@ == seq![p0, p1, p2, p3, p4, p5],
            opts == seq![opt_chars(p0), opt_chars(p1), opt_chars(p2), opt_chars(p3), opt_chars(p4), opt_chars(p5)],
            seen == parts_upto(opts, k as int),
            joined@ == join(seen, " | "@),
            count == seen.len(),
            count <= k,
        decreases 6 - k,
    {
        match &all[k] {
            Some(p) => {
                if count > 0 {
                    joined.append(" | ");
                }
                joined.append(p.as_str());
                proof {
                    seen = seen.push(p@);
                    assert(seen.drop_last() == parts_upto(opts, k as int));
                }
                count = count + 1;
            },
            None => {},
        }
        k = k + 1;
    }
    proof {
        reveal_with_fuel(parts_upto, 7);
        assert(parts_upto(opts, 6) =~= telemetry_parts(m));
    }
    let mut line = "[Telemetry] Scale: ".to_owned();
    match results.get("meta", "ui_scale") {
        Some(v) => line.append(v.as_str()),
        None => line.append("?"),
    }
    line.append(" | ");
    line.append(joined.as_str());
    line.append(" | Time: ");
    push_decimal(&mut line, elapsed_ms);
    line.append("ms");
    line
}

/// The parts among the first `k` options.
pub open spec fn parts_upto(opts: Seq<Option<Seq<char>>>, k: int) -> Seq<Seq<char>>
    decreases k,
{
    if k <= 0 {
        Seq::empty()
    } else {
        parts_upto(opts, k - 1) + some_part(opts[k - 1])
    }
}

} // verus!
