//! Idle-villager stretches read straight from the merged observation records (one list of
//! fields per CSV record: in-game time, observation type, event description, …, idle
//! villagers in field 10), and the villager time they cost per age.
use vstd::prelude::*;
use crate::analysis::{age_up_target, age_up_target_of, add_to_total, add_total, totals_view};
use crate::reference::row_view;
use crate::text::{chars_of, parse_u32, parse_u32_spec, parse_u64, parse_u64_spec, str_eq};

verus! {

/// A stretch of constant idle-villager count.
#[derive(Debug, Clone)]
pub struct VsSegment {
    pub start_ms: u64,
    pub end_ms: u64,
    pub idle_count: u32,
    pub age: String,
}

pub struct ObsSeg {
    pub start_ms: u64,
    pub end_ms: u64,
    pub idle_count: u32,
    pub age: Seq<char>,
}

pub open spec fn obs_seg_view(s: VsSegment) -> ObsSeg {
    ObsSeg { start_ms: s.start_ms, end_ms: s.end_ms, idle_count: s.idle_count, age: s.age@ }
}

pub struct ObsState {
    pub current: Option<u32>,
    pub start: u64,
    pub age: Seq<char>,
    pub segs: Seq<ObsSeg>,
}

/// The time of a record: its first field as a number, or 0.
pub open spec fn record_time(rec: Seq<Seq<char>>) -> u64 {
    match parse_u64_spec(rec[0]) {
        Some(v) => v,
        None => 0,
    }
}

/// One record: a screen grab with an idle count closes the open stretch when the count
/// changes (an unreadable count counts as 0); an age-up click closes it at the click and
/// starts the new age.
pub open spec fn obs_step(st: ObsState, rec: Seq<Seq<char>>) -> ObsState {
    let ts = record_time(rec);
    if rec[1] == "ScreenGrab"@ {
        if rec[10].len() > 0 {
            let n = match parse_u32_spec(rec[10]) {
                Some(v) => v,
                None => 0,
            };
            match st.current {
                Some(old) => if n != old {
                    ObsState {
                        current: Some(n),
                        start: ts,
                        age: st.age,
                        segs: st.segs.push(ObsSeg { start_ms: st.start, end_ms: ts, idle_count: old, age: st.age }),
                    }
                } else {
                    st
                },
                None => ObsState { current: Some(n), start: ts, age: st.age, segs: st.segs },
            }
        } else {
            st
        }
    } else if rec[1] == "RecEvent"@ {
        match age_up_target(rec[2]) {
            Some(a) => ObsState {
                current: st.current,
                start: ts,
                age: a,
                segs: match st.current {
                    Some(c) => st.segs.push(ObsSeg { start_ms: st.start, end_ms: ts, idle_count: c, age: st.age }),
                    None => st.segs,
                },
            },
            None => st,
        }
    } else {
        st
    }
}

pub open spec fn obs_fold(recs: Seq<Seq<Seq<char>>>) -> ObsState
    decreases recs.len(),
{
    if recs.len() == 0 {
        ObsState { current: None, start: 0, age: "Dark Age"@, segs: Seq::empty() }
    } else {
        obs_step(obs_fold(recs.drop_last()), recs.last())
    }
}

/// Whether a record has the fields its type is read from.
pub open spec fn record_complete(rec: Seq<Seq<char>>) -> bool {
    &&& rec.len() >= 2
    &&& rec[1] == "ScreenGrab"@ ==> rec.len() >= 11
    &&& rec[1] == "RecEvent"@ ==> rec.len() >= 3
}

pub open spec fn recs_view(records: Seq<Vec<String>>) -> Seq<Seq<Seq<char>>> {
    records.map_values(|r: Vec<String>| row_view(r))
}

/// The stretches of constant idle count closed by a count change or an age-up click (the
/// stretch still open at the end is not reported).
pub fn segment_observations(records: &[Vec<String>]) -> (segs: Vec<VsSegment>)
    requires
        forall|i: int| 0 <= i < records@.len() ==> record_complete(#[trigger] row_view(records@[i])),
    ensures
        segs@.map_values(|s: VsSegment| obs_seg_view(s)) == obs_fold(recs_view(records@)).segs,
{
    let mut segs: Vec<VsSegment> = Vec::new();
    let mut current: Option<u32> = None;
    let mut start: u64 = 0;
    let mut age = "Dark Age".to_owned();
    assert(recs_view(records@).take(0) =~= Seq::<Seq<Seq<char>>>::empty());
    assert(segs@.map_values(|s: VsSegment| obs_seg_view(s)) =~= Seq::<ObsSeg>::empty());
    for i in 0..records.len()
        invariant
            forall|i: int| 0 <= i < records@.len() ==> record_complete(#[trigger] row_view(records@[i])),
            ({
                let st = obs_fold(recs_view(records@).take(i as int));
                &&& st.current == current
                &&& st.start == start
                &&& st.age == age@
                &&& st.segs == segs@.map_values(|s: VsSegment| obs_seg_view(s))
            }),
    {
        let rec = &records[i];
        let ghost rv = row_view(*rec);
        proof {
            assert(recs_view(records@).take(i + 1).drop_last() =~= recs_view(records@).take(i as int));
            assert(recs_view(records@).take(i + 1).last() == rv);
            assert(record_complete(rv));
        }
        let t = chars_of(rec[0].as_str());
        let ts = match parse_u64(t.as_slice()) {
            Some(v) => v,
            None => 0,
        };
        let ghost before = segs@;
        if str_eq(rec[1].as_str(), "ScreenGrab") {
            let s = rec[10].as_str();
            if !s.is_empty() {
                let cs = chars_of(s);
                let n = match parse_u32(cs.as_slice()) {
                    Some(v) => v,
                    None => 0,
                };
                match current {
                    Some(old) => {
                        if n != old {
                            let seg = VsSegment { start_ms: start, end_ms: ts, idle_count: old, age: age.clone() };
                            segs.push(seg);
                            proof {
                                crate::analysis::lemma_map_push(before, seg, |s: VsSegment| obs_seg_view(s));
                            }
                            start = ts;
                            current = Some(n);
                        }
                    },
                    None => {
                        start = ts;
                        current = Some(n);
                    },
                }
            }
        } else if str_eq(rec[1].as_str(), "RecEvent") {
            match age_up_target_of(rec[2].as_str()) {
                Some(a) => {
                    match current {
                        Some(c) => {
                            let seg = VsSegment { start_ms: start, end_ms: ts, idle_count: c, age: age.clone() };
                            segs.push(seg);
                            proof {
                                crate::analysis::lemma_map_push(before, seg, |s: VsSegment| obs_seg_view(s));
                            }
                        },
                        None => {},
                    }
                    age = a;
                    start = ts;
                },
                None => {},
            }
        }
    }
    assert(recs_view(records@).take(records@.len() as int) =~= recs_view(records@));
    segs
}

/// Villager time lost per age (idle count times duration, in villager-milliseconds), in
/// order of first appearance.
pub open spec fn obs_vs_by_age(segs: Seq<ObsSeg>) -> Seq<(Seq<char>, nat)>
    decreases segs.len(),
{
    if segs.len() == 0 {
        Seq::empty()
    } else {
        let s = segs.last();
        add_total(obs_vs_by_age(segs.drop_last()), s.age, ((s.end_ms - s.start_ms) * s.idle_count) as nat)
    }
}

pub open spec fn obs_vs_sum(segs: Seq<ObsSeg>) -> nat
    decreases segs.len(),
{
    if segs.len() == 0 {
        0
    } else {
        let s = segs.last();
        obs_vs_sum(segs.drop_last()) + ((s.end_ms - s.start_ms) * s.idle_count) as nat
    }
}

proof fn lemma_obs_sum_prefix(segs: Seq<ObsSeg>, i: int)
    requires
        0 <= i <= segs.len(),
        forall|k: int| 0 <= k < segs.len() ==> (#[trigger] segs[k]).start_ms <= segs[k].end_ms,
    ensures
        obs_vs_sum(segs.take(i)) <= obs_vs_sum(segs),
    decreases segs.len(),
{
    if segs.len() > 0 {
        let d = segs.drop_last();
        assert forall|k: int| 0 <= k < d.len() implies (#[trigger] d[k]).start_ms <= d[k].end_ms by {
            assert(d[k] == segs[k]);
        }
        if i < segs.len() {
            assert(d.take(i) =~= segs.take(i));
            lemma_obs_sum_prefix(d, i);
        } else {
            assert(segs.take(i) =~= segs);
        }
    } else {
        assert(segs.take(i) =~= segs);
    }
}

/// Villager time lost per age over the stretches.
pub fn calculate_vs_lost(segments: &[VsSegment]) -> (r: Vec<(String, u128)>)
    requires
        forall|k: int| 0 <= k < segments@.len() ==> (#[trigger] segments@[k]).start_ms <= segments@[k].end_ms,
        obs_vs_sum(segments@.map_values(|s: VsSegment| obs_seg_view(s))) <= u128::MAX,
    ensures
        totals_view(r@) == obs_vs_by_age(segments@.map_values(|s: VsSegment| obs_seg_view(s))),
{
    let ghost sv = segments@.map_values(|s: VsSegment| obs_seg_view(s));
    let mut totals: Vec<(String, u128)> = Vec::new();
    let mut total: u128 = 0;
    assert(sv.take(0) =~= Seq::<ObsSeg>::empty());
    assert(totals_view(totals@) =~= Seq::<(Seq<char>, nat)>::empty());
    for i in 0..segments.len()
        invariant
            sv == segments@.map_values(|s: VsSegment| obs_seg_view(s)),
            forall|k: int| 0 <= k < segments@.len() ==> (#[trigger] segments@[k]).start_ms <= segments@[k].end_ms,
            obs_vs_sum(sv) <= u128::MAX,
            totals_view(totals@) == obs_vs_by_age(sv.take(i as int)),
            total == obs_vs_sum(sv.take(i as int)),
            forall|k: int| 0 <= k < totals@.len() ==> (#[trigger] totals@[k]).1 <= total,
    {
        let s = &segments[i];
        assert(s.start_ms <= s.end_ms);
        let d = s.end_ms - s.start_ms;
        assert((d as u128) * (s.idle_count as u128) <= 0xffff_ffff_ffff_ffffu128 * 0xffff_ffffu128) by (nonlinear_arith)
            requires
                d <= 0xffff_ffff_ffff_ffffu64,
                s.idle_count <= 0xffff_ffffu32,
        ;
        let vl = (d as u128) * (s.idle_count as u128);
        proof {
            assert forall|k: int| 0 <= k < sv.len() implies (#[trigger] sv[k]).start_ms <= sv[k].end_ms by {
                assert(sv[k] == obs_seg_view(segments@[k]));
            }
            assert(sv.take(i + 1).drop_last() =~= sv.take(i as int));
            assert(sv.take(i + 1).last() == obs_seg_view(*s));
            lemma_obs_sum_prefix(sv, i + 1);
        }
        let ghost before = totals_view(totals@);
        add_to_total(&mut totals, &s.age, vl);
        proof {
            crate::analysis::lemma_add_total_bound(before, s.age@, vl as nat, total as nat);
            assert forall|k: int| 0 <= k < totals@.len() implies (#[trigger] totals@[k]).1 <= total + vl by {
                assert(totals_view(totals@)[k].1 == totals@[k].1);
            }
        }
        total = total + vl;
    }
    assert(sv.take(sv.len() as int) =~= sv);
    totals
}

} // verus!
