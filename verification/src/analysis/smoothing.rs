//! Removal of short spikes from a sampled sequence (e.g. a villager count that a single
//! misread frame throws off the trend).
//!
//! All comparisons are made exactly: the straight line between two readings `s` (at `i`)
//! and `e` (at `j`) has, at `k`, the value `s + (e - s) * (k - i) / (j - i)`; the
//! functions below scale it by `j - i` to stay in integers.
use vstd::prelude::*;
use crate::text::{chars_of, decimal_string, dec_digits, parse_u32, parse_u32_spec};
use crate::types::MergedRow;

verus! {

/// `len` times the value at offset `d` of the line from `s` (offset 0) to `e` (offset `len`).
pub open spec fn line_scaled(s: int, e: int, len: int, d: int) -> int {
    s * len + (e - s) * d
}

/// The line's value at offset `d`, rounded to the nearest integer, halves rounding up.
pub open spec fn line_rounded(s: int, e: int, len: int, d: int) -> int {
    (2 * line_scaled(s, e, len, d) + len) / (2 * len)
}

pub open spec fn abs(x: int) -> int {
    if x < 0 {
        -x
    } else {
        x
    }
}

/// `len` times how far the reading `v` at offset `d` lies from the line.
pub open spec fn dev_scaled(v: int, s: int, e: int, len: int, d: int) -> int {
    v * len - line_scaled(s, e, len, d)
}

/// Whether the readings strictly between `i` and `j` form a spike over the line from
/// `i` to `j`: both ends are readings, the end is within `m` of the start, and every
/// reading in between lies more than `m` from the line, all on the same side.
pub open spec fn is_spike_span(vals: Seq<Option<u32>>, i: int, j: int, m: int) -> bool {
    &&& 0 <= i < j < vals.len()
    &&& vals[i] is Some
    &&& vals[j] is Some
    &&& abs(vals[j]->0 - vals[i]->0) < m
    &&& {
        let s = vals[i]->0 as int;
        let e = vals[j]->0 as int;
        let len = j - i;
        ||| forall|k: int|
            i < k < j && #[trigger] vals[k] is Some ==> dev_scaled(vals[k]->0 as int, s, e, len, k - i)
                > m * len
        ||| forall|k: int|
            i < k < j && #[trigger] vals[k] is Some ==> dev_scaled(vals[k]->0 as int, s, e, len, k - i)
                < -(m * len)
    }
}

/// The end of the shortest spike starting at `i` that spans at least `d + 1` and at most
/// `max_d + 1` steps.
pub open spec fn first_span(vals: Seq<Option<u32>>, i: int, m: int, max_d: int, d: int) -> Option<
    int,
>
    decreases max_d + 1 - d,
{
    if d > max_d || d < 1 || i + d + 1 >= vals.len() {
        None
    } else if is_spike_span(vals, i, i + d + 1, m) {
        Some(i + d + 1)
    } else {
        first_span(vals, i, m, max_d, d + 1)
    }
}

/// The readings strictly between `i` and `j` replaced by the rounded line.
pub open spec fn flatten(vals: Seq<Option<u32>>, i: int, j: int) -> Seq<Option<u32>> {
    Seq::new(
        vals.len(),
        |k: int|
            if i < k < j {
                Some(
                    line_rounded(vals[i]->0 as int, vals[j]->0 as int, j - i, k - i) as u32,
                )
            } else {
                vals[k]
            },
    )
}

/// Scanning from `i`: at each reading, the shortest spike that starts there is flattened
/// and the scan resumes at its end; otherwise the scan moves on by one. Gives the
/// resulting sequence and the number of entries rewritten.
pub open spec fn smooth_from(vals: Seq<Option<u32>>, i: int, m: int, max_d: int) -> (Seq<
    Option<u32>,
>, nat)
    decreases vals.len() - i,
{
    if i < 0 || i >= vals.len() {
        (vals, 0)
    } else if vals[i] is None {
        smooth_from(vals, i + 1, m, max_d)
    } else {
        match first_span(vals, i, m, max_d, 1) {
            Some(j) => if i < j <= vals.len() {
                let r = smooth_from(flatten(vals, i, j), j, m, max_d);
                (r.0, r.1 + (j - i - 1) as nat)
            } else {
                (vals, 0)
            },
            None => smooth_from(vals, i + 1, m, max_d),
        }
    }
}

/// The whole sequence smoothed, and the number of entries rewritten.
pub open spec fn smooth_spec(vals: Seq<Option<u32>>, m: int, max_d: int) -> (Seq<Option<u32>>, nat) {
    smooth_from(vals, 0, m, max_d)
}

proof fn lemma_first_span_range(vals: Seq<Option<u32>>, i: int, m: int, max_d: int, d: int)
    ensures
        first_span(vals, i, m, max_d, d) matches Some(j) ==> i + 2 <= j < vals.len()
            && is_spike_span(vals, i, j, m),
    decreases max_d + 1 - d,
{
    if !(d > max_d || d < 1 || i + d + 1 >= vals.len()) && !is_spike_span(vals, i, i + d + 1, m) {
        lemma_first_span_range(vals, i, m, max_d, d + 1);
    }
}

proof fn lemma_flatten_len(vals: Seq<Option<u32>>, i: int, j: int)
    ensures
        flatten(vals, i, j).len() == vals.len(),
{
}

proof fn lemma_smooth_from_count(vals: Seq<Option<u32>>, i: int, m: int, max_d: int)
    requires
        0 <= i,
    ensures
        smooth_from(vals, i, m, max_d).1 <= if i < vals.len() {
            vals.len() - i
        } else {
            0
        },
        smooth_from(vals, i, m, max_d).0.len() == vals.len(),
    decreases vals.len() - i,
{
    if i >= vals.len() {
    } else if vals[i] is None {
        lemma_smooth_from_count(vals, i + 1, m, max_d);
    } else {
        lemma_first_span_range(vals, i, m, max_d, 1);
        match first_span(vals, i, m, max_d, 1) {
            Some(j) => {
                lemma_flatten_len(vals, i, j);
                lemma_smooth_from_count(flatten(vals, i, j), j, m, max_d);
            },
            None => {
                lemma_smooth_from_count(vals, i + 1, m, max_d);
            },
        }
    }
}

proof fn lemma_mul_abs_le(a: int, b: int, x: int, y: int)
    requires
        0 <= x,
        -x <= a <= x,
        0 <= b <= y,
    ensures
        -(x * y) <= a * b <= x * y,
{
    assert(-(x * y) <= a * b <= x * y) by (nonlinear_arith)
        requires
            0 <= x,
            -x <= a <= x,
            0 <= b <= y,
    ;
}

proof fn lemma_no_spike_near_line(vals: Seq<Option<u32>>, i: int, j: int, m: int, k: int)
    requires
        0 <= i < k < j < vals.len(),
        vals[i] is Some,
        vals[j] is Some,
        vals[k] is Some,
        -(m * (j - i)) <= dev_scaled(
            vals[k]->0 as int,
            vals[i]->0 as int,
            vals[j]->0 as int,
            j - i,
            k - i,
        ) <= m * (j - i),
    ensures
        !is_spike_span(vals, i, j, m),
{
    let s = vals[i]->0 as int;
    let e = vals[j]->0 as int;
    let len = j - i;
    let dk = dev_scaled(vals[k]->0 as int, s, e, len, k - i);
    assert(!(dk > m * len));
    assert(!(dk < -(m * len)));
}

proof fn lemma_no_spike_both_sides(vals: Seq<Option<u32>>, i: int, j: int, m: int, a: int, b: int)
    requires
        0 <= i < j < vals.len(),
        i < a < j,
        i < b < j,
        m >= 1,
        vals[i] is Some,
        vals[j] is Some,
        vals[a] is Some,
        vals[b] is Some,
        dev_scaled(vals[a]->0 as int, vals[i]->0 as int, vals[j]->0 as int, j - i, a - i) > 0,
        dev_scaled(vals[b]->0 as int, vals[i]->0 as int, vals[j]->0 as int, j - i, b - i) < 0,
    ensures
        !is_spike_span(vals, i, j, m),
{
    assert(m * (j - i) > 0) by (nonlinear_arith)
        requires
            m >= 1,
            j - i >= 1,
    ;
    let s = vals[i]->0 as int;
    let e = vals[j]->0 as int;
    let len = j - i;
    let da = dev_scaled(vals[a]->0 as int, s, e, len, a - i);
    let db = dev_scaled(vals[b]->0 as int, s, e, len, b - i);
    assert(!(db > m * len));
    assert(!(da < -(m * len)));
}

/// `len` times how far `v` lies from the line at offset `d`.
fn dev_of(v: u32, s: u32, e: u32, len: usize, d: usize) -> (r: i128)
    requires
        d <= len,
    ensures
        r == dev_scaled(v as int, s as int, e as int, len as int, d as int),
{
    let li = len as i128;
    let di = d as i128;
    let si = s as i128;
    let ei = e as i128;
    let vi = v as i128;
    proof {
        assert(len as int <= 0x1_0000_0000_0000_0000);
        lemma_mul_abs_le(si as int, li as int, 0x1_0000_0000, 0x1_0000_0000_0000_0000);
        lemma_mul_abs_le(vi as int, li as int, 0x1_0000_0000, 0x1_0000_0000_0000_0000);
        lemma_mul_abs_le((ei - si) as int, di as int, 0x1_0000_0000, 0x1_0000_0000_0000_0000);
        assert(0x1_0000_0000int * 0x1_0000_0000_0000_0000int == 0x1_0000_0000_0000_0000_0000_0000int);
    }
    vi * li - (si * li + (ei - si) * di)
}

/// `m * len`, exactly.
fn scaled_threshold(m: i32, len: usize) -> (r: i128)
    ensures
        r == m as int * len as int,
{
    proof {
        assert(len as int <= 0x1_0000_0000_0000_0000);
        lemma_mul_abs_le(m as int, len as int, 0x8000_0000, 0x1_0000_0000_0000_0000);
        assert(0x8000_0000int * 0x1_0000_0000_0000_0000int == 0x8000_0000_0000_0000_0000_0000int);
    }
    (m as i128) * (len as i128)
}

/// The line's rounded value at offset `d` between readings `s` and `e`.
fn line_value(s: u32, e: u32, len: usize, d: usize) -> (r: u32)
    requires
        0 < d < len,
    ensures
        r as int == line_rounded(s as int, e as int, len as int, d as int),
{
    let li = len as i128;
    let di = d as i128;
    let si = s as i128;
    let ei = e as i128;
    proof {
        assert(len as int <= 0x1_0000_0000_0000_0000);
        lemma_mul_abs_le(si as int, li as int, 0x1_0000_0000, 0x1_0000_0000_0000_0000);
        lemma_mul_abs_le((ei - si) as int, di as int, 0x1_0000_0000, 0x1_0000_0000_0000_0000);
        assert(0x1_0000_0000int * 0x1_0000_0000_0000_0000int == 0x1_0000_0000_0000_0000_0000_0000int);
    }
    let num = si * li + (ei - si) * di;
    proof {
        let mx: int = if s >= e {
            s as int
        } else {
            e as int
        };
        let (l, dd, ss, ee) = (len as int, d as int, s as int, e as int);
        assert(0 <= ss * (l - dd) + ee * dd <= mx * l) by (nonlinear_arith)
            requires
                0 < dd < l,
                0 <= ss <= mx,
                0 <= ee <= mx,
        ;
        assert(ss * l + (ee - ss) * dd == ss * (l - dd) + ee * dd) by (nonlinear_arith);
        let q = (2 * num as int + l) / (2 * l);
        assert(q <= mx) by (nonlinear_arith)
            requires
                0 < l,
                0 <= num <= mx * l,
                q == (2 * num as int + l) / (2 * l),
        ;
        assert(q >= 0) by (nonlinear_arith)
            requires
                0 < l,
                0 <= num,
                q == (2 * num as int + l) / (2 * l),
        ;
    }
    ((2 * num + li) / (2 * li)) as u32
}

/// Whether `i..=j` is a spike span (see `is_spike_span`).
fn check_span(values: &[Option<u32>], i: usize, j: usize, min_spike: i32) -> (b: bool)
    requires
        i < j < values@.len(),
        values@[i as int] is Some,
    ensures
        b == is_spike_span(values@, i as int, j as int, min_spike as int),
{
    let s = match values[i] {
        Some(v) => v,
        None => 0,
    };
    let e = match values[j] {
        Some(v) => v,
        None => {
            return false;
        },
    };
    let gap: i64 = if e >= s {
        (e - s) as i64
    } else {
        (s - e) as i64
    };
    if gap >= min_spike as i64 {
        return false;
    }
    let len = j - i;
    let thr = scaled_threshold(min_spike, len);
    let mut direction: i8 = 0;
    let ghost mut wit: int = 0;
    let ghost vals = values@;
    let ghost (ss, ee, ll, mm) = (s as int, e as int, len as int, min_spike as int);
    let mut k = i + 1;
    while k < j
        invariant
            i < k <= j < vals.len(),
            vals == values@,
            vals[i as int] == Some(s),
            vals[j as int] == Some(e),
            ss == s,
            ee == e,
            ll == len == j - i,
            mm == min_spike,
            mm >= 1,
            thr == mm * ll,
            direction == 0 ==> forall|q: int| i < q < k ==> #[trigger] vals[q] is None,
            direction == 1 ==> forall|q: int|
                i < q < k && #[trigger] vals[q] is Some ==> dev_scaled(
                    vals[q]->0 as int,
                    ss,
                    ee,
                    ll,
                    q - i,
                ) > mm * ll,
            direction == -1 ==> forall|q: int|
                i < q < k && #[trigger] vals[q] is Some ==> dev_scaled(
                    vals[q]->0 as int,
                    ss,
                    ee,
                    ll,
                    q - i,
                ) < -(mm * ll),
            direction == 1 ==> i < wit < k && vals[wit] is Some && dev_scaled(
                vals[wit]->0 as int,
                ss,
                ee,
                ll,
                wit - i,
            ) > mm * ll,
            direction == -1 ==> i < wit < k && vals[wit] is Some && dev_scaled(
                vals[wit]->0 as int,
                ss,
                ee,
                ll,
                wit - i,
            ) < -(mm * ll),
            direction == 0 || direction == 1 || direction == -1,
        decreases j - k,
    {
        match values[k] {
            None => {},
            Some(v) => {
                let dev = dev_of(v, s, e, len, k - i);
                proof {
                    assert(mm * ll >= ll) by (nonlinear_arith)
                        requires
                            mm >= 1,
                            ll >= 1,
                    ;
                }
                if -thr <= dev && dev <= thr {
                    proof {
                        lemma_no_spike_near_line(vals, i as int, j as int, mm, k as int);
                    }
                    return false;
                }
                if dev > 0 {
                    if direction == -1 {
                        proof {
                            assert(mm * ll > 0) by (nonlinear_arith)
                                requires
                                    mm >= 1,
                                    ll >= 1,
                            ;
                            lemma_no_spike_both_sides(vals, i as int, j as int, mm, k as int, wit);
                        }
                        return false;
                    }
                    if direction == 0 {
                        proof {
                            wit = k as int;
                        }
                    }
                    direction = 1;
                } else {
                    if direction == 1 {
                        proof {
                            assert(mm * ll > 0) by (nonlinear_arith)
                                requires
                                    mm >= 1,
                                    ll >= 1,
                            ;
                            lemma_no_spike_both_sides(vals, i as int, j as int, mm, wit, k as int);
                        }
                        return false;
                    }
                    if direction == 0 {
                        proof {
                            wit = k as int;
                        }
                    }
                    direction = -1;
                }
            },
        }
        k = k + 1;
    }
    true
}

/// Smooths out sudden outliers in a numeric sequence.
///
/// A spike is defined as a sequence of frames where the values deviate from
/// the surrounding trend by more than `min_spike` and then return to the trend.
/// Interpolates values for spikes up to `max_duration`.
pub fn smooth_sequence(values: &mut [Option<u32>], min_spike: i32, max_duration: usize) -> (count:
    usize)
    ensures
        final(values)@ == smooth_spec(old(values)@, min_spike as int, max_duration as int).0,
        count == smooth_spec(old(values)@, min_spike as int, max_duration as int).1,
{
    let n = values.len();
    let ghost m = min_spike as int;
    let ghost md = max_duration as int;
    let ghost total = smooth_spec(old(values)@, m, md);
    proof {
        lemma_smooth_from_count(old(values)@, 0, m, md);
    }
    let mut i: usize = 0;
    let mut smoothed_count: usize = 0;
    while i < n
        invariant
            values@.len() == n,
            i <= n,
            smooth_from(values@, i as int, m, md).0 == total.0,
            smooth_from(values@, i as int, m, md).1 + smoothed_count == total.1,
            total.1 <= n,
            m == min_spike,
            md == max_duration,
        decreases n - i,
    {
        proof {
            lemma_smooth_from_count(values@, i as int, m, md);
        }
        if values[i].is_none() {
            i = i + 1;
            continue;
        }
        let mut found: Option<usize> = None;
        let mut duration: usize = 1;
        proof {
            assert(first_span(values@, i as int, m, md, 1) == first_span(values@, i as int, m, md, duration as int));
        }
        while duration <= max_duration
            invariant_except_break
                found is None,
            invariant
                i < n == values@.len(),
                values@[i as int] is Some,
                1 <= duration,
                md == max_duration,
                m == min_spike,
                first_span(values@, i as int, m, md, 1) == first_span(
                    values@,
                    i as int,
                    m,
                    md,
                    duration as int,
                ),
            ensures
                found is None ==> first_span(values@, i as int, m, md, 1) is None,
                found matches Some(j) ==> first_span(values@, i as int, m, md, 1) == Some(j as int),
            decreases max_duration + 1 - duration,
        {
            if duration >= n - i - 1 {
                break;
            }
            let j = i + duration + 1;
            if check_span(values, i, j, min_spike) {
                found = Some(j);
                break;
            }
            duration = duration + 1;
        }
        match found {
            None => {
                i = i + 1;
            },
            Some(j) => {
                proof {
                    lemma_first_span_range(values@, i as int, m, md, 1);
                }
                let ghost before = values@;
                let s = match values[i] {
                    Some(v) => v,
                    None => 0,
                };
                let e = match values[j] {
                    Some(v) => v,
                    None => 0,
                };
                let mut k = i + 1;
                while k < j
                    invariant
                        i < k <= j < n == values@.len(),
                        before.len() == n,
                        before[i as int] == Some(s),
                        before[j as int] == Some(e),
                        forall|q: int|
                            0 <= q < n ==> #[trigger] values@[q] == if i < q < k {
                                flatten(before, i as int, j as int)[q]
                            } else {
                                before[q]
                            },
                    decreases j - k,
                {
                    let t = line_value(s, e, j - i, k - i);
                    values[k] = Some(t);
                    k = k + 1;
                }
                assert(values@ =~= flatten(before, i as int, j as int));
                smoothed_count = smoothed_count + (j - i - 1);
                i = j;
            },
        }
    }
    smoothed_count
}

proof fn lemma_first_span_none_when_inactive(vals: Seq<Option<u32>>, i: int, m: int, max_d: int, d: int)
    requires
        m <= 0 || max_d < 1,
        d >= 1,
    ensures
        first_span(vals, i, m, max_d, d) is None,
    decreases max_d + 1 - d,
{
    if !(d > max_d || d < 1 || i + d + 1 >= vals.len()) {
        if m <= 0 {
            assert(!is_spike_span(vals, i, i + d + 1, m));
        }
        lemma_first_span_none_when_inactive(vals, i, m, max_d, d + 1);
    }
}

proof fn lemma_smooth_from_inactive(vals: Seq<Option<u32>>, i: int, m: int, max_d: int)
    requires
        m <= 0 || max_d < 1,
        0 <= i,
    ensures
        smooth_from(vals, i, m, max_d) == (vals, 0nat),
    decreases vals.len() - i,
{
    if i < vals.len() {
        if vals[i] is Some {
            lemma_first_span_none_when_inactive(vals, i, m, max_d, 1);
        }
        lemma_smooth_from_inactive(vals, i + 1, m, max_d);
    }
}

/// With no spike size to exceed (`min_spike <= 0`) or no room for a spike
/// (`max_duration == 0`), smoothing leaves the sequence as it is and rewrites nothing.
pub proof fn law_smoothing_inactive(vals: Seq<Option<u32>>, min_spike: int, max_duration: int)
    requires
        min_spike <= 0 || max_duration < 1,
    ensures
        smooth_spec(vals, min_spike, max_duration) == (vals, 0nat),
{
    lemma_smooth_from_inactive(vals, 0, min_spike, max_duration);
}

proof fn lemma_smooth_from_keeps(vals: Seq<Option<u32>>, i: int, m: int, max_d: int)
    requires
        0 <= i,
    ensures
        smooth_from(vals, i, m, max_d).0.len() == vals.len(),
        forall|k: int|
            0 <= k < vals.len() && #[trigger] vals[k] is Some ==> smooth_from(vals, i, m, max_d).0[k] is Some,
        forall|k: int| 0 <= k < i && k < vals.len() ==> #[trigger] smooth_from(vals, i, m, max_d).0[k] == vals[k],
    decreases vals.len() - i,
{
    if i >= vals.len() {
    } else if vals[i] is None {
        lemma_smooth_from_keeps(vals, i + 1, m, max_d);
    } else {
        lemma_first_span_range(vals, i, m, max_d, 1);
        match first_span(vals, i, m, max_d, 1) {
            Some(j) => {
                let f = flatten(vals, i, j);
                lemma_smooth_from_keeps(f, j, m, max_d);
                assert forall|k: int| 0 <= k < vals.len() && #[trigger] vals[k] is Some implies smooth_from(vals, i, m, max_d).0[k] is Some by {
                    assert(f[k] is Some);
                }
            },
            None => {
                lemma_smooth_from_keeps(vals, i + 1, m, max_d);
            },
        }
    }
}

/// Smoothing keeps the length of the sequence and never erases a reading: every entry
/// that held a value still holds one (possibly a different one).
pub proof fn law_smoothing_keeps_readings(vals: Seq<Option<u32>>, min_spike: int, max_duration: int)
    ensures
        smooth_spec(vals, min_spike, max_duration).0.len() == vals.len(),
        forall|k: int|
            0 <= k < vals.len() && #[trigger] vals[k] is Some ==> smooth_spec(vals, min_spike, max_duration).0[k] is Some,
{
    lemma_smooth_from_keeps(vals, 0, min_spike, max_duration);
}


/// The villager readings of the rows: each row's `pop_vils` read as a number (as
/// `str::parse::<u32>` reads it), `None` where it is not one.
pub open spec fn villager_readings(rows: Seq<MergedRow>) -> Seq<Option<u32>> {
    Seq::new(rows.len(), |i: int| parse_u32_spec(rows[i].pop_vils@))
}

/// A row after its villager reading was smoothed to `v`: a number is written in decimal,
/// otherwise the row keeps its text.
pub open spec fn with_villagers(row: MergedRow, v: Option<u32>, text: Seq<char>) -> bool {
    text == match v {
        Some(n) => dec_digits(n as nat),
        None => row.pop_vils@,
    }
}

/// Smooths the villager column of the rows (see `smooth_sequence`) and writes the smoothed
/// readings back; every other field stays as it was. Returns how many readings were
/// rewritten.
pub fn smooth_villager_column(rows: &mut Vec<MergedRow>, min_spike: i32, max_duration: usize) -> (count: usize)
    ensures
        final(rows)@.len() == old(rows)@.len(),
        count == smooth_spec(villager_readings(old(rows)@), min_spike as int, max_duration as int).1,
        forall|i: int| 0 <= i < old(rows)@.len() ==> {
            let before = #[trigger] old(rows)@[i];
            let after = final(rows)@[i];
            &&& with_villagers(before, smooth_spec(villager_readings(old(rows)@), min_spike as int, max_duration as int).0[i], after.pop_vils@)
            &&& after == MergedRow { pop_vils: after.pop_vils, ..before }
        },
{
    let ghost orig = rows@;
    let n = rows.len();
    let mut values: Vec<Option<u32>> = Vec::new();
    let mut i: usize = 0;
    while i < rows.len()
        invariant
            rows@ == orig,
            i <= orig.len(),
            values@ == villager_readings(orig).take(i as int),
        decreases orig.len() - i,
    {
        let cs = chars_of(rows[i].pop_vils.as_str());
        values.push(parse_u32(&cs));
        assert(values@ =~= villager_readings(orig).take(i + 1));
        i = i + 1;
    }
    assert(values@ =~= villager_readings(orig));
    let count = smooth_sequence(&mut values, min_spike, max_duration);
    let ghost smoothed = values@;
    proof {
        lemma_smooth_from_keeps(villager_readings(orig), 0, min_spike as int, max_duration as int);
    }
    let mut src: Vec<MergedRow> = Vec::new();
    std::mem::swap(rows, &mut src);
    // Pop everything onto a stack, then pop the stack to restore the order.
    let mut stack: Vec<MergedRow> = Vec::new();
    while src.len() > 0
        invariant
            src@ + stack@.reverse() == orig,
        decreases src@.len(),
    {
        let ghost bs = stack@;
        let ghost bsrc = src@;
        let r = src.pop().unwrap();
        stack.push(r);
        assert(stack@.reverse() =~= seq![r].add(bs.reverse()));
        assert(bsrc =~= src@.push(r));
        assert(src@ + stack@.reverse() =~= bsrc + bs.reverse());
    }
    assert(stack@.reverse() =~= orig);
    let mut out: Vec<MergedRow> = Vec::new();
    let mut k: usize = 0;
    while stack.len() > 0
        invariant
            k <= orig.len(),
            orig.len() == n,
            smoothed.len() == orig.len(),
            values@ == smoothed,
            stack@.reverse() == orig.skip(k as int),
            out@.len() == k,
            forall|j: int| 0 <= j < k ==> {
                let before = #[trigger] orig[j];
                let after = out@[j];
                &&& with_villagers(before, smoothed[j], after.pop_vils@)
                &&& after == MergedRow { pop_vils: after.pop_vils, ..before }
            },
        decreases stack@.len(),
    {
        let ghost bs = stack@;
        let mut r = stack.pop().unwrap();
        proof {
            assert(bs =~= stack@.push(r));
            assert(bs.reverse() =~= seq![r].add(stack@.reverse()));
            assert(orig.skip(k as int).len() == bs.len());
            assert(k < orig.len());
            assert(bs.reverse()[0] == r);
            assert(orig.skip(k as int)[0] == orig[k as int]);
            assert(orig[k as int] == r);
            assert(stack@.reverse() =~= bs.reverse().skip(1));
            assert(bs.reverse().skip(1) =~= orig.skip(k + 1));
        }
        let ghost before = r;
        match values[k] {
            Some(n) => {
                r.pop_vils = decimal_string(n as u128);
            },
            None => {},
        }
        assert(r == MergedRow { pop_vils: r.pop_vils, ..before });
        out.push(r);
        k = k + 1;
    }
    assert(orig.skip(k as int).len() == 0);
    *rows = out;
    count
}

} // verus!
