//! Idle villagers: the stretches of constant idle count, and the villager time they cost,
//! by age and in total (in villager-milliseconds).
use vstd::prelude::*;
use crate::analysis::{
    add_to_total, add_total, annotation, annotation_spec, format_time, format_time_spec,
    lemma_add_total_bound, lemma_seg_fold_grabs_only, opt_view, segment_game, segments_spec,
    segs_view, totals_view, SegView, VsSegment,
};
use crate::text::{chars_of, parse_u32, parse_u32_spec};
use crate::types::{MergedRow, is_screen_grab};

verus! {

/// The idle count each row shows, as a number.
pub open spec fn idle_readings(rows: Seq<MergedRow>) -> Seq<Option<u32>> {
    rows.map_values(|r: MergedRow| parse_u32_spec(r.idle_vils@))
}

fn idle_count_of(r: &MergedRow) -> (o: Option<u32>)
    ensures
        o == parse_u32_spec(r.idle_vils@),
{
    let cs = chars_of(r.idle_vils.as_str());
    parse_u32(cs.as_slice())
}

/// The stretches of constant idle-villager count.
pub fn idle_segments(rows: &[MergedRow]) -> (segs: Vec<VsSegment>)
    ensures
        segs_view(segs@) == segments_spec(rows@, idle_readings(rows@)),
{
    let f = |r: &MergedRow| -> (o: Option<u32>)
        ensures
            o == parse_u32_spec(r.idle_vils@),
        { idle_count_of(r) };
    let segs = segment_game(rows, f);
    proof {
        let raw = choose|raw: Seq<Option<u32>>|
            #![trigger raw.len()]
            {
                &&& raw.len() == rows@.len()
                &&& forall|k: int|
                    0 <= k < rows@.len() && is_screen_grab(rows@[k]) ==> #[trigger] f.ensures(
                        (&rows@[k],),
                        raw[k],
                    )
                &&& segs_view(segs@) == segments_spec(
                    rows@,
                    raw.map_values(|o: Option<u32>| opt_view(o)),
                )
            };
        let a = raw.map_values(|o: Option<u32>| opt_view(o));
        let b = idle_readings(rows@);
        assert forall|k: int| 0 <= k < rows@.len() && is_screen_grab(rows@[k]) implies a[k] == b[k] by {
            assert(f.ensures((&rows@[k],), raw[k]));
        }
        lemma_seg_fold_grabs_only(rows@, a, b);
    }
    segs
}

/// One line of the idle report.
#[derive(Debug, Clone)]
pub struct IdleSegmentData {
    pub start_formatted: String,
    pub end_formatted: String,
    pub duration_ms: u64,
    pub idle_vils: u32,
    /// Villager time lost: duration times idle count, in villager-milliseconds.
    pub vs_lost_vms: u128,
    pub annotation: String,
}

/// The idle report: its lines, the villager time lost per age (in order of first
/// appearance), and the total.
#[derive(Debug, Clone)]
pub struct IdleReport {
    pub segments: Vec<IdleSegmentData>,
    pub age_vs_lost: Vec<(String, u128)>,
    pub total_vs_lost: u128,
}

pub struct IdleLine {
    pub start_formatted: Seq<char>,
    pub end_formatted: Seq<char>,
    pub duration_ms: int,
    pub idle_vils: u32,
    pub vs_lost_vms: int,
    pub annotation: Seq<char>,
}

pub open spec fn idle_line(s: SegView<u32>) -> IdleLine {
    IdleLine {
        start_formatted: format_time_spec(s.start_ms),
        end_formatted: format_time_spec(s.end_ms),
        duration_ms: s.end_ms - s.start_ms,
        idle_vils: s.value,
        vs_lost_vms: (s.end_ms - s.start_ms) * s.value,
        annotation: annotation_spec(s.end_reason),
    }
}

pub open spec fn idle_line_view(d: IdleSegmentData) -> IdleLine {
    IdleLine {
        start_formatted: d.start_formatted@,
        end_formatted: d.end_formatted@,
        duration_ms: d.duration_ms as int,
        idle_vils: d.idle_vils,
        vs_lost_vms: d.vs_lost_vms as int,
        annotation: d.annotation@,
    }
}

/// Villager time lost in a segment.
pub open spec fn seg_vs(s: SegView<u32>) -> nat {
    ((s.end_ms - s.start_ms) * s.value) as nat
}

/// Villager time lost per age, in order of first appearance.
pub open spec fn vs_by_age(segs: Seq<SegView<u32>>) -> Seq<(Seq<char>, nat)>
    decreases segs.len(),
{
    if segs.len() == 0 {
        Seq::empty()
    } else {
        add_total(vs_by_age(segs.drop_last()), segs.last().age, seg_vs(segs.last()))
    }
}

/// Total villager time lost.
pub open spec fn vs_sum(segs: Seq<SegView<u32>>) -> nat
    decreases segs.len(),
{
    if segs.len() == 0 {
        0
    } else {
        vs_sum(segs.drop_last()) + seg_vs(segs.last())
    }
}

/// Segments that never run backwards in time.
pub open spec fn forward<V>(segs: Seq<SegView<V>>) -> bool {
    forall|i: int| 0 <= i < segs.len() ==> (#[trigger] segs[i]).start_ms <= segs[i].end_ms
}

proof fn lemma_vs_sum_prefix(segs: Seq<SegView<u32>>, i: int)
    requires
        0 <= i <= segs.len(),
        forward(segs),
    ensures
        vs_sum(segs.take(i)) <= vs_sum(segs),
    decreases segs.len() - i,
{
    if i < segs.len() {
        assert(segs.drop_last().take(i) =~= segs.take(i));
        assert forall|j: int| 0 <= j < segs.drop_last().len() implies (#[trigger] segs.drop_last()[j]).start_ms <= segs.drop_last()[j].end_ms by {
            assert(segs.drop_last()[j] == segs[j]);
        }
        lemma_vs_sum_prefix(segs.drop_last(), i);
    } else {
        assert(segs.take(i) =~= segs);
    }
}

/// The idle report of a stream: for each stretch of constant idle count (see
/// `idle_segments`), its times, duration, count, villager time lost and the age-up note;
/// the villager time lost summed per age and in total.
pub fn analyze_idle(rows: &[MergedRow]) -> (r: IdleReport)
    requires
        forward(segments_spec(rows@, idle_readings(rows@))),
        vs_sum(segments_spec(rows@, idle_readings(rows@))) <= u128::MAX,
    ensures
        r.segments@.map_values(|d: IdleSegmentData| idle_line_view(d))
            == segments_spec(rows@, idle_readings(rows@)).map_values(|s: SegView<u32>| idle_line(s)),
        totals_view(r.age_vs_lost@) == vs_by_age(segments_spec(rows@, idle_readings(rows@))),
        r.total_vs_lost == vs_sum(segments_spec(rows@, idle_readings(rows@))),
{
    let segs = idle_segments(rows);
    let ghost sv = segs_view(segs@);
    let mut lines: Vec<IdleSegmentData> = Vec::new();
    let mut total: u128 = 0;
    proof {
        assert(sv.take(0) =~= Seq::<SegView<u32>>::empty());
    }
    for i in 0..segs.len()
        invariant
            sv == segs_view(segs@),
            sv == segments_spec(rows@, idle_readings(rows@)),
            forward(sv),
            vs_sum(sv) <= u128::MAX,
            lines@.map_values(|d: IdleSegmentData| idle_line_view(d)) == sv.take(i as int).map_values(|s: SegView<u32>| idle_line(s)),
            total == vs_sum(sv.take(i as int)),
    {
        let s = &segs[i];
        let ghost g = sv[i as int];
        assert(g == crate::analysis::seg_view(*s));
        assert(s.start_ms <= s.end_ms);
        let d = s.end_ms - s.start_ms;
        assert((d as u128) * (s.value as u128) <= 0xffff_ffff_ffff_ffffu128 * 0xffff_ffffu128) by (nonlinear_arith)
            requires
                d <= 0xffff_ffff_ffff_ffffu64,
                s.value <= 0xffff_ffffu32,
        ;
        let vl = (d as u128) * (s.value as u128);
        proof {
            assert(sv.take(i + 1).drop_last() =~= sv.take(i as int));
            assert(sv.take(i + 1).last() == g);
            lemma_vs_sum_prefix(sv, i + 1);
            assert(vl == seg_vs(g));
        }
        let line = IdleSegmentData {
            start_formatted: format_time(s.start_ms),
            end_formatted: format_time(s.end_ms),
            duration_ms: d,
            idle_vils: s.value,
            vs_lost_vms: vl,
            annotation: annotation(&s.end_reason),
        };
        let ghost before_lines = lines@;
        lines.push(line);
        proof {
            assert(idle_line_view(line) == idle_line(g));
            crate::analysis::lemma_map_push(before_lines, line, |d: IdleSegmentData| idle_line_view(d));
            crate::analysis::lemma_map_push(sv.take(i as int), g, |s: SegView<u32>| idle_line(s));
            assert(sv.take(i + 1) == sv.take(i as int).push(g));
        }
        total = total + vl;
    }
    proof {
        assert(sv.take(sv.len() as int) =~= sv);
    }
    let totals = calculate_vs_lost(&segs);
    IdleReport { segments: lines, age_vs_lost: totals, total_vs_lost: total }
}

/// Villager time lost per age (duration times idle count, in villager-milliseconds), in
/// order of first appearance.
pub fn calculate_vs_lost(segments: &[VsSegment]) -> (r: Vec<(String, u128)>)
    requires
        forward(segs_view(segments@)),
        vs_sum(segs_view(segments@)) <= u128::MAX,
    ensures
        totals_view(r@) == vs_by_age(segs_view(segments@)),
{
    let ghost sv = segs_view(segments@);
    let mut totals: Vec<(String, u128)> = Vec::new();
    let mut total: u128 = 0;
    proof {
        assert(sv.take(0) =~= Seq::<SegView<u32>>::empty());
        assert(totals_view(totals@) =~= Seq::<(Seq<char>, nat)>::empty());
    }
    for i in 0..segments.len()
        invariant
            sv == segs_view(segments@),
            forward(sv),
            vs_sum(sv) <= u128::MAX,
            totals_view(totals@) == vs_by_age(sv.take(i as int)),
            total == vs_sum(sv.take(i as int)),
            forall|k: int| 0 <= k < totals@.len() ==> (#[trigger] totals@[k]).1 <= total,
    {
        let s = &segments[i];
        let ghost g = sv[i as int];
        assert(g == crate::analysis::seg_view(*s));
        assert(s.start_ms <= s.end_ms);
        let d = s.end_ms - s.start_ms;
        assert((d as u128) * (s.value as u128) <= 0xffff_ffff_ffff_ffffu128 * 0xffff_ffffu128) by (nonlinear_arith)
            requires
                d <= 0xffff_ffff_ffff_ffffu64,
                s.value <= 0xffff_ffffu32,
        ;
        let vl = (d as u128) * (s.value as u128);
        proof {
            assert(sv.take(i + 1).drop_last() =~= sv.take(i as int));
            assert(sv.take(i + 1).last() == g);
            lemma_vs_sum_prefix(sv, i + 1);
            assert(vl == seg_vs(g));
        }
        let ghost before_totals = totals_view(totals@);
        add_to_total(&mut totals, &s.age, vl);
        proof {
            lemma_add_total_bound(before_totals, g.age, vl as nat, total as nat);
            assert forall|k: int| 0 <= k < totals@.len() implies (#[trigger] totals@[k]).1 <= total + vl by {
                assert(totals_view(totals@)[k].1 == totals@[k].1);
            }
        }
        total = total + vl;
    }
    proof {
        assert(sv.take(sv.len() as int) =~= sv);
    }
    totals
}

} // verus!
