//! Housing: the stretches of constant housing status, and the time spent in each status,
//! by age and in total (in milliseconds).
use vstd::prelude::*;
use crate::analysis::{
    annotation, annotation_spec, format_time, format_time_spec, lemma_map_push,
    lemma_seg_fold_grabs_only, opt_view, segment_game, segments_spec, segs_view, seg_view,
    HousingSegment, SegView,
};
use crate::analysis::idle::forward;
use crate::types::{MergedRow, is_screen_grab};

verus! {

/// The housing status a row shows: its text, when not empty.
pub open spec fn housing_reading(r: MergedRow) -> Option<Seq<char>> {
    if r.housing@.len() == 0 {
        None
    } else {
        Some(r.housing@)
    }
}

pub open spec fn housing_readings(rows: Seq<MergedRow>) -> Seq<Option<Seq<char>>> {
    rows.map_values(|r: MergedRow| housing_reading(r))
}

/// The stretches of constant housing status.
pub fn housing_segments(rows: &[MergedRow]) -> (segs: Vec<HousingSegment>)
    ensures
        segs_view(segs@) == segments_spec(rows@, housing_readings(rows@)),
{
    let f = |r: &MergedRow| -> (o: Option<String>)
        ensures
            opt_view(o) == housing_reading(*r),
        {
            if r.housing.as_str().is_empty() {
                None
            } else {
                Some(r.housing.clone())
            }
        };
    let segs = segment_game(rows, f);
    proof {
        let raw = choose|raw: Seq<Option<String>>|
            #![trigger raw.len()]
            {
                &&& raw.len() == rows@.len()
                &&& forall|k: int|
                    0 <= k < rows@.len() && is_screen_grab(rows@[k]) ==> #[trigger] f.ensures(
                        (&rows@[k],),
                        raw[k],
                    )
                &&& segs_view(segs@) == segments_spec(
                    rows@,
                    raw.map_values(|o: Option<String>| opt_view(o)),
                )
            };
        let a = raw.map_values(|o: Option<String>| opt_view(o));
        let b = housing_readings(rows@);
        assert forall|k: int| 0 <= k < rows@.len() && is_screen_grab(rows@[k]) implies a[k] == b[k] by {
            assert(f.ensures((&rows@[k],), raw[k]));
        }
        lemma_seg_fold_grabs_only(rows@, a, b);
    }
    segs
}

/// One line of the housing report.
#[derive(Debug, Clone)]
pub struct HousingSegmentData {
    pub start_formatted: String,
    pub end_formatted: String,
    pub duration_ms: u64,
    pub status: String,
    pub annotation: String,
}

/// The housing report: its lines, the time per age and status (in order of first
/// appearance), the time housed and fully queued, and the time covered by the lines.
#[derive(Debug, Clone)]
pub struct HousingReport {
    pub segments: Vec<HousingSegmentData>,
    pub metrics: Vec<(String, String, u128)>,
    pub total_housed_ms: u128,
    pub total_queued_ms: u128,
    pub recorded_duration_ms: u128,
}

pub struct HousingLine {
    pub start_formatted: Seq<char>,
    pub end_formatted: Seq<char>,
    pub duration_ms: int,
    pub status: Seq<char>,
    pub annotation: Seq<char>,
}

pub open spec fn housing_line(s: SegView<Seq<char>>) -> HousingLine {
    HousingLine {
        start_formatted: format_time_spec(s.start_ms),
        end_formatted: format_time_spec(s.end_ms),
        duration_ms: s.end_ms - s.start_ms,
        status: s.value,
        annotation: annotation_spec(s.end_reason),
    }
}

pub open spec fn housing_line_view(d: HousingSegmentData) -> HousingLine {
    HousingLine {
        start_formatted: d.start_formatted@,
        end_formatted: d.end_formatted@,
        duration_ms: d.duration_ms as int,
        status: d.status@,
        annotation: d.annotation@,
    }
}

pub open spec fn seg_len(s: SegView<Seq<char>>) -> nat {
    (s.end_ms - s.start_ms) as nat
}

/// Where the total for an age and a status stands, looking from index `k` on.
pub open spec fn metric_index(m: Seq<(Seq<char>, Seq<char>, nat)>, age: Seq<char>, status: Seq<char>, k: int) -> Option<int>
    decreases m.len() - k,
{
    if k < 0 || k >= m.len() {
        None
    } else if m[k].0 == age && m[k].1 == status {
        Some(k)
    } else {
        metric_index(m, age, status, k + 1)
    }
}

pub open spec fn add_metric(m: Seq<(Seq<char>, Seq<char>, nat)>, age: Seq<char>, status: Seq<char>, d: nat) -> Seq<(Seq<char>, Seq<char>, nat)> {
    match metric_index(m, age, status, 0) {
        Some(i) => m.update(i, (age, status, m[i].2 + d)),
        None => m.push((age, status, d)),
    }
}

/// Time per age and status, in order of first appearance.
pub open spec fn housing_metrics(segs: Seq<SegView<Seq<char>>>) -> Seq<(Seq<char>, Seq<char>, nat)>
    decreases segs.len(),
{
    if segs.len() == 0 {
        Seq::empty()
    } else {
        add_metric(housing_metrics(segs.drop_last()), segs.last().age, segs.last().value, seg_len(segs.last()))
    }
}

/// Time spent in segments whose status is `status`.
pub open spec fn status_time(segs: Seq<SegView<Seq<char>>>, status: Seq<char>) -> nat
    decreases segs.len(),
{
    if segs.len() == 0 {
        0
    } else {
        status_time(segs.drop_last(), status) + if segs.last().value == status {
            seg_len(segs.last())
        } else {
            0
        }
    }
}

/// Time covered by all segments.
pub open spec fn covered_time(segs: Seq<SegView<Seq<char>>>) -> nat
    decreases segs.len(),
{
    if segs.len() == 0 {
        0
    } else {
        covered_time(segs.drop_last()) + seg_len(segs.last())
    }
}

pub open spec fn metrics_view(v: Seq<(String, String, u128)>) -> Seq<(Seq<char>, Seq<char>, nat)> {
    v.map_values(|e: (String, String, u128)| (e.0@, e.1@, e.2 as nat))
}

proof fn lemma_metric_index(m: Seq<(Seq<char>, Seq<char>, nat)>, age: Seq<char>, status: Seq<char>, k: int)
    requires
        0 <= k,
    ensures
        metric_index(m, age, status, k) matches Some(j) ==> k <= j < m.len() && m[j].0 == age && m[j].1 == status,
    decreases m.len() - k,
{
    if k < m.len() && !(m[k].0 == age && m[k].1 == status) {
        lemma_metric_index(m, age, status, k + 1);
    }
}

/// Adds `d` to the total for an age and a status, appending the pair when new.
fn add_to_metric(m: &mut Vec<(String, String, u128)>, age: &String, status: &String, d: u128)
    requires
        forall|i: int| 0 <= i < old(m)@.len() ==> (#[trigger] old(m)@[i]).2 + d <= u128::MAX,
    ensures
        metrics_view(final(m)@) == add_metric(metrics_view(old(m)@), age@, status@, d as nat),
{
    let ghost mv = metrics_view(m@);
    let mut k: usize = 0;
    while k < m.len()
        invariant
            k <= m@.len(),
            mv == metrics_view(m@),
            m@ == old(m)@,
            forall|i: int| 0 <= i < old(m)@.len() ==> (#[trigger] old(m)@[i]).2 + d <= u128::MAX,
            metric_index(mv, age@, status@, 0) == metric_index(mv, age@, status@, k as int),
        decreases m.len() - k,
    {
        if m[k].0 == *age && m[k].1 == *status {
            let cur = m[k].2;
            assert(old(m)@[k as int].2 + d <= u128::MAX);
            let a = m[k].0.clone();
            let st = m[k].1.clone();
            m.set(k, (a, st, cur + d));
            assert(metrics_view(m@) =~= mv.update(k as int, (age@, status@, mv[k as int].2 + d as nat)));
            return;
        }
        k = k + 1;
    }
    m.push((age.clone(), status.clone(), d));
    assert(metrics_view(m@) =~= mv.push((age@, status@, d as nat)));
}

proof fn lemma_covered_prefix(segs: Seq<SegView<Seq<char>>>, i: int)
    requires
        0 <= i <= segs.len(),
    ensures
        covered_time(segs.take(i)) <= covered_time(segs),
        status_time(segs, "housed"@) <= covered_time(segs),
        status_time(segs, "queued"@) <= covered_time(segs),
    decreases segs.len(),
{
    if segs.len() > 0 {
        if i < segs.len() {
            assert(segs.drop_last().take(i) =~= segs.take(i));
            lemma_covered_prefix(segs.drop_last(), i);
        } else {
            assert(segs.take(i) =~= segs);
            lemma_covered_prefix(segs.drop_last(), 0);
        }
    } else {
        assert(segs.take(i) =~= segs);
    }
}

proof fn lemma_add_metric_bound(m: Seq<(Seq<char>, Seq<char>, nat)>, age: Seq<char>, status: Seq<char>, d: nat, bound: nat)
    requires
        forall|i: int| 0 <= i < m.len() ==> (#[trigger] m[i]).2 <= bound,
    ensures
        forall|i: int| 0 <= i < add_metric(m, age, status, d).len() ==> (#[trigger] add_metric(m, age, status, d)[i]).2 <= bound + d,
{
    lemma_metric_index(m, age, status, 0);
}

/// The housing report of a stream: for each stretch of constant housing status (see
/// `housing_segments`), its times, duration, status and age-up note; the time per age and
/// status; the time housed, the time fully queued, and the time covered.
pub fn analyze_housing(rows: &[MergedRow]) -> (r: HousingReport)
    requires
        forward(segments_spec(rows@, housing_readings(rows@))),
        covered_time(segments_spec(rows@, housing_readings(rows@))) <= u128::MAX,
    ensures
        r.segments@.map_values(|d: HousingSegmentData| housing_line_view(d))
            == segments_spec(rows@, housing_readings(rows@)).map_values(|s: SegView<Seq<char>>| housing_line(s)),
        metrics_view(r.metrics@) == housing_metrics(segments_spec(rows@, housing_readings(rows@))),
        r.total_housed_ms == status_time(segments_spec(rows@, housing_readings(rows@)), "housed"@),
        r.total_queued_ms == status_time(segments_spec(rows@, housing_readings(rows@)), "queued"@),
        r.recorded_duration_ms == covered_time(segments_spec(rows@, housing_readings(rows@))),
{
    let segs = housing_segments(rows);
    let ghost sv = segs_view(segs@);
    let mut lines: Vec<HousingSegmentData> = Vec::new();
    let mut housed: u128 = 0;
    let mut queued: u128 = 0;
    let mut covered: u128 = 0;
    let housed_label = "housed".to_owned();
    let queued_label = "queued".to_owned();
    proof {
        assert(sv.take(0) =~= Seq::<SegView<Seq<char>>>::empty());
        lemma_covered_prefix(sv, 0);
    }
    for i in 0..segs.len()
        invariant
            sv == segs_view(segs@),
            sv == segments_spec(rows@, housing_readings(rows@)),
            forward(sv),
            covered_time(sv) <= u128::MAX,
            housed_label@ == "housed"@,
            queued_label@ == "queued"@,
            lines@.map_values(|d: HousingSegmentData| housing_line_view(d)) == sv.take(i as int).map_values(|s: SegView<Seq<char>>| housing_line(s)),
            housed == status_time(sv.take(i as int), "housed"@),
            queued == status_time(sv.take(i as int), "queued"@),
            covered == covered_time(sv.take(i as int)),
    {
        let s = &segs[i];
        let ghost g = sv[i as int];
        assert(g == seg_view(*s));
        assert(s.start_ms <= s.end_ms);
        let d = s.end_ms - s.start_ms;
        proof {
            assert(sv.take(i + 1).drop_last() =~= sv.take(i as int));
            assert(sv.take(i + 1).last() == g);
            lemma_covered_prefix(sv, i + 1);
            lemma_covered_prefix(sv.take(i + 1), 0);
        }
        let line = HousingSegmentData {
            start_formatted: format_time(s.start_ms),
            end_formatted: format_time(s.end_ms),
            duration_ms: d,
            status: s.value.clone(),
            annotation: annotation(&s.end_reason),
        };
        let ghost before_lines = lines@;
        lines.push(line);
        proof {
            assert(housing_line_view(line) == housing_line(g));
            lemma_map_push(before_lines, line, |d: HousingSegmentData| housing_line_view(d));
            lemma_map_push(sv.take(i as int), g, |s: SegView<Seq<char>>| housing_line(s));
            assert(sv.take(i + 1) == sv.take(i as int).push(g));
        }
        if s.value == housed_label {
            housed = housed + d as u128;
        }
        if s.value == queued_label {
            queued = queued + d as u128;
        }
        covered = covered + d as u128;
    }
    proof {
        assert(sv.take(sv.len() as int) =~= sv);
    }
    let metrics = calculate_housing_metrics(&segs);
    HousingReport {
        segments: lines,
        metrics,
        total_housed_ms: housed,
        total_queued_ms: queued,
        recorded_duration_ms: covered,
    }
}


/// Time per age and status, in order of first appearance.
pub fn calculate_housing_metrics(segments: &[HousingSegment]) -> (r: Vec<(String, String, u128)>)
    requires
        forward(segs_view(segments@)),
        covered_time(segs_view(segments@)) <= u128::MAX,
    ensures
        metrics_view(r@) == housing_metrics(segs_view(segments@)),
{
    let ghost sv = segs_view(segments@);
    let mut metrics: Vec<(String, String, u128)> = Vec::new();
    let mut covered: u128 = 0;
    proof {
        assert(sv.take(0) =~= Seq::<SegView<Seq<char>>>::empty());
        assert(metrics_view(metrics@) =~= Seq::<(Seq<char>, Seq<char>, nat)>::empty());
    }
    for i in 0..segments.len()
        invariant
            sv == segs_view(segments@),
            forward(sv),
            covered_time(sv) <= u128::MAX,
            metrics_view(metrics@) == housing_metrics(sv.take(i as int)),
            covered == covered_time(sv.take(i as int)),
            forall|k: int| 0 <= k < metrics@.len() ==> (#[trigger] metrics@[k]).2 <= covered,
    {
        let s = &segments[i];
        let ghost g = sv[i as int];
        assert(g == seg_view(*s));
        assert(s.start_ms <= s.end_ms);
        let d = s.end_ms - s.start_ms;
        proof {
            assert(sv.take(i + 1).drop_last() =~= sv.take(i as int));
            assert(sv.take(i + 1).last() == g);
            lemma_covered_prefix(sv, i + 1);
        }
        let ghost before_metrics = metrics_view(metrics@);
        add_to_metric(&mut metrics, &s.age, &s.value, d as u128);
        proof {
            lemma_add_metric_bound(before_metrics, g.age, g.value, d as nat, covered as nat);
            assert forall|k: int| 0 <= k < metrics@.len() implies (#[trigger] metrics@[k]).2 <= covered + d by {
                assert(metrics_view(metrics@)[k].2 == metrics@[k].2);
            }
        }
        covered = covered + d as u128;
    }
    proof {
        assert(sv.take(sv.len() as int) =~= sv);
    }
    metrics
}

} // verus!
