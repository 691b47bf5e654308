use aoe2_squire::analysis::floating::{
    analyze_floating, apply_suppression, calculate_floating_seconds, index_save_up_events,
    FloatingMillis, Suppressions,
};
use aoe2_squire::analysis::housing::{analyze_housing, calculate_housing_metrics};
use aoe2_squire::analysis::idle::{analyze_idle, calculate_vs_lost};
use aoe2_squire::analysis::{format_time, segment_game, GameSegment, SegmentEndReason, VsSegment};
use aoe2_squire::constants::SAVE_UP_WINDOW_MS;
use aoe2_squire::observations;
use aoe2_squire::types::MergedRow;

fn mock_row(ms: u64, obs: &str, val: &str, age_desc: &str) -> MergedRow {
    MergedRow {
        in_game_ms: ms,
        observation_type: obs.to_string(),
        event_desc: age_desc.to_string(),
        idle_vils: val.to_string(),
        housing: val.to_string(),
        ..Default::default()
    }
}

#[test]
fn test_generic_segmentation() {
    let rows = vec![
        mock_row(1000, "ScreenGrab", "3", ""),
        mock_row(2000, "ScreenGrab", "3", ""),
        mock_row(3000, "RecEvent", "", "Research Feudal Age"),
        mock_row(4000, "ScreenGrab", "1", ""),
    ];

    let segments = segment_game(&rows, |r: &MergedRow| r.idle_vils.parse::<u32>().ok());
    assert_eq!(segments.len(), 3);

    assert_eq!(segments[0].value, 3);
    assert_eq!(segments[0].age, "Dark Age");
    assert_eq!(segments[0].end_ms, 3000);
    assert_eq!(
        segments[0].end_reason,
        SegmentEndReason::AgeResearch("Feudal Age".to_string())
    );

    assert_eq!(segments[1].value, 3);
    assert_eq!(segments[1].age, "Feudal Age");
    assert_eq!(segments[1].start_ms, 3000);
    assert_eq!(segments[1].end_ms, 4000);
    assert_eq!(segments[1].end_reason, SegmentEndReason::ValueChanged);

    assert_eq!(segments[2].value, 1);
    assert_eq!(segments[2].age, "Feudal Age");
    assert_eq!(segments[2].start_ms, 4000);
    assert_eq!(segments[2].end_ms, 4000);
    assert_eq!(segments[2].end_reason, SegmentEndReason::EndOfData);
}

#[test]
fn test_housing_segmentation() {
    let rows = vec![
        mock_row(1000, "ScreenGrab", "normal", ""),
        mock_row(2000, "ScreenGrab", "housed", ""),
        mock_row(3000, "ScreenGrab", "housed", ""),
        mock_row(4000, "ScreenGrab", "queued", ""),
    ];

    let segments = segment_game(&rows, |r: &MergedRow| Some(r.housing.clone()));
    assert_eq!(segments.len(), 3);
    assert_eq!(segments[0].value, "normal");
    assert_eq!(segments[1].value, "housed");
    assert_eq!(segments[2].value, "queued");
}

/// Villager-milliseconds to the villager-seconds the report shows.
fn vs_seconds(totals: &[(String, u128)], age: &str) -> f64 {
    let vms = totals.iter().find(|(a, _)| a == age).map(|(_, v)| *v).unwrap();
    vms as f64 / 1000.0
}

#[test]
fn mod_test_vs_calculation() {
    let segments: Vec<VsSegment> = vec![
        GameSegment {
            start_ms: 0,
            end_ms: 10000,
            value: 3,
            age: "Dark Age".to_string(),
            end_reason: SegmentEndReason::ValueChanged,
        },
        GameSegment {
            start_ms: 10000,
            end_ms: 20000,
            value: 1,
            age: "Dark Age".to_string(),
            end_reason: SegmentEndReason::EndOfData,
        },
    ];
    let results = calculate_vs_lost(&segments);
    assert_eq!(vs_seconds(&results, "Dark Age"), 40.0);
}

#[test]
fn analysis_test_vs_calculation() {
    let segments = vec![
        observations::VsSegment {
            start_ms: 0,
            end_ms: 10000,
            idle_count: 3,
            age: "Dark Age".to_string(),
        },
        observations::VsSegment {
            start_ms: 10000,
            end_ms: 20000,
            idle_count: 1,
            age: "Dark Age".to_string(),
        },
        observations::VsSegment {
            start_ms: 20000,
            end_ms: 30000,
            idle_count: 5,
            age: "Feudal Age".to_string(),
        },
    ];

    let results = observations::calculate_vs_lost(&segments);
    // Dark Age: (10s * 3) + (10s * 1) = 40 VS
    // Feudal Age: 10s * 5 = 50 VS
    assert_eq!(vs_seconds(&results, "Dark Age"), 40.0);
    assert_eq!(vs_seconds(&results, "Feudal Age"), 50.0);
}

fn record(fields: [&str; 11]) -> Vec<String> {
    fields.iter().map(|f| f.to_string()).collect()
}

#[test]
fn test_segmentation() {
    let records = vec![
        record(["1000", "ScreenGrab", "", "", "", "", "", "", "", "", "3"]),
        record(["2000", "ScreenGrab", "", "", "", "", "", "", "", "", "3"]),
        record(["3000", "RecEvent", "Research Feudal Age", "", "", "", "", "", "", "", ""]),
        record(["4000", "ScreenGrab", "", "", "", "", "", "", "", "", "1"]),
    ];

    let segments = observations::segment_observations(&records);
    assert_eq!(segments.len(), 2);

    // Segment 1: Start 1000, End 3000 (Feudal Click), Idle 3, Dark Age
    assert_eq!(segments[0].start_ms, 1000);
    assert_eq!(segments[0].end_ms, 3000);
    assert_eq!(segments[0].idle_count, 3);
    assert_eq!(segments[0].age, "Dark Age");

    // Segment 2: Start 3000, End 4000 (Count change), Idle 3, Feudal Age
    assert_eq!(segments[1].start_ms, 3000);
    assert_eq!(segments[1].end_ms, 4000);
    assert_eq!(segments[1].idle_count, 3);
    assert_eq!(segments[1].age, "Feudal Age");
}

#[test]
fn test_age_transition_boundary() {
    // Case: Age transition happens at the exact same MS as a value change
    let rows = vec![
        mock_row(1000, "ScreenGrab", "3", ""),
        mock_row(2000, "RecEvent", "", "Research Feudal Age"),
        mock_row(2000, "ScreenGrab", "1", ""),
        mock_row(3000, "ScreenGrab", "1", ""),
    ];

    let segments = segment_game(&rows, |r: &MergedRow| r.idle_vils.parse::<u32>().ok());

    assert_eq!(segments.len(), 3);
    assert_eq!(segments[0].age, "Dark Age");
    assert_eq!(segments[0].value, 3);
    assert_eq!(
        segments[0].end_reason,
        SegmentEndReason::AgeResearch("Feudal Age".to_string())
    );

    assert_eq!(segments[1].age, "Feudal Age");
    assert_eq!(segments[1].value, 3);
    assert_eq!(segments[1].start_ms, 2000);
    assert_eq!(segments[1].end_ms, 2000);
    assert_eq!(segments[1].end_reason, SegmentEndReason::ValueChanged);

    assert_eq!(segments[2].age, "Feudal Age");
    assert_eq!(segments[2].value, 1);
    assert_eq!(segments[2].start_ms, 2000);
    assert_eq!(segments[2].end_ms, 3000);
    assert_eq!(segments[2].end_reason, SegmentEndReason::EndOfData);
}

#[test]
fn format_time_pads_each_field() {
    assert_eq!(format_time(0), "00:00.000");
    assert_eq!(format_time(61_005), "01:01.005");
    assert_eq!(format_time(6_000_000), "100:00.000");
}

// ---------------------------------------------------------------------------
// Floating resources
// ---------------------------------------------------------------------------

fn grab(ms: u64, food: u32, wood: u32, gold: u32, stone: u32) -> MergedRow {
    MergedRow {
        in_game_ms: ms,
        observation_type: "ScreenGrab".to_string(),
        food: food.to_string(),
        wood: wood.to_string(),
        gold: gold.to_string(),
        stone: stone.to_string(),
        ..Default::default()
    }
}

fn age_event(ms: u64, desc: &str) -> MergedRow {
    MergedRow {
        in_game_ms: ms,
        observation_type: "RecEvent".to_string(),
        event_desc: desc.to_string(),
        ..Default::default()
    }
}

fn no_sup() -> Suppressions {
    Suppressions { food: vec![], gold: vec![], stone: vec![] }
}

/// Floating time of an age in seconds, as the report shows it.
#[derive(Default)]
struct Secs {
    food: f64,
    wood: f64,
    gold: f64,
    stone: f64,
}

fn secs_of(m: &FloatingMillis) -> Secs {
    Secs {
        food: m.food as f64 / 1000.0,
        wood: m.wood as f64 / 1000.0,
        gold: m.gold as f64 / 1000.0,
        stone: m.stone as f64 / 1000.0,
    }
}

fn get(summary: &[(String, FloatingMillis)], age: &str) -> Option<Secs> {
    summary.iter().find(|(a, _)| a == age).map(|(_, m)| secs_of(m))
}

#[test]
fn test_floating_basic_single_resource() {
    let rows = vec![grab(0, 100, 300, 50, 100), grab(40_000, 100, 100, 50, 100)];
    let (summary, _) = calculate_floating_seconds(&rows, &no_sup());
    assert_eq!(get(&summary, "Dark Age").unwrap().wood, 40.0);
}

#[test]
fn test_floating_closed_at_end() {
    let rows = vec![grab(0, 100, 300, 50, 100), grab(40_000, 100, 300, 50, 100)];
    let (summary, segments) = calculate_floating_seconds(&rows, &no_sup());
    let dark = get(&summary, "Dark Age").unwrap();
    assert_eq!(dark.wood, 40.0);
    assert_eq!(segments.len(), 1);
    assert_eq!(segments[0].start_ms, 0);
    assert_eq!(segments[0].end_ms, 40000);
}

#[test]
fn test_floating_exact_threshold_not_flagged() {
    let rows = vec![grab(0, 100, 200, 50, 100), grab(60_000, 100, 200, 50, 100)];
    let (summary, _) = calculate_floating_seconds(&rows, &no_sup());
    assert_eq!(get(&summary, "Dark Age").unwrap().wood, 0.0);
}

#[test]
fn test_floating_below_minimum_duration_not_flagged() {
    let rows = vec![grab(0, 100, 300, 50, 100), grab(29_000, 100, 100, 50, 100)];
    let (summary, _) = calculate_floating_seconds(&rows, &no_sup());
    assert_eq!(get(&summary, "Dark Age").unwrap().wood, 0.0);
}

#[test]
fn test_floating_cross_age_attribution() {
    let rows = vec![
        grab(0, 300, 100, 50, 100),
        grab(60_000, 100, 100, 50, 100),
        age_event(70_000, "Research Feudal Age"),
        grab(70_000, 100, 100, 400, 100),
        grab(115_000, 100, 100, 100, 100),
    ];
    let (summary, _) = calculate_floating_seconds(&rows, &no_sup());
    assert_eq!(get(&summary, "Dark Age").unwrap().food, 60.0);
    assert_eq!(get(&summary, "Feudal Age").unwrap().gold, 45.0);
}

#[test]
fn test_floating_run_closed_on_age_transition() {
    let rows = vec![
        grab(0, 100, 300, 50, 100),
        age_event(40_000, "Research Feudal Age"),
        grab(40_000, 100, 600, 50, 100),
        grab(80_000, 100, 100, 50, 100),
    ];
    let (summary, segments) = calculate_floating_seconds(&rows, &no_sup());
    assert_eq!(get(&summary, "Dark Age").unwrap().wood, 40.0);
    assert_eq!(get(&summary, "Feudal Age").unwrap().wood, 40.0);
    assert_eq!(segments.len(), 2);
    assert_eq!(segments[0].age, "Dark Age");
    assert_eq!(segments[1].age, "Feudal Age");
}

#[test]
fn test_floating_run_ignored_if_short_at_transition() {
    let rows = vec![
        grab(0, 100, 300, 50, 100),
        age_event(20_000, "Research Feudal Age"),
        grab(20_000, 100, 100, 50, 100),
    ];
    let (summary, segments) = calculate_floating_seconds(&rows, &no_sup());
    assert_eq!(get(&summary, "Dark Age").unwrap().wood, 0.0);
    assert!(segments.is_empty());
}

fn feudal_sup(click_ms: u64) -> Suppressions {
    Suppressions {
        food: vec![(click_ms.saturating_sub(SAVE_UP_WINDOW_MS), click_ms)],
        gold: vec![],
        stone: vec![],
    }
}

fn castle_age_sup(click_ms: u64) -> Suppressions {
    Suppressions {
        food: vec![(click_ms.saturating_sub(SAVE_UP_WINDOW_MS), click_ms)],
        gold: vec![(click_ms.saturating_sub(SAVE_UP_WINDOW_MS), click_ms)],
        stone: vec![],
    }
}

fn castle_build_sup(click_ms: u64) -> Suppressions {
    Suppressions {
        food: vec![],
        gold: vec![],
        stone: vec![(click_ms.saturating_sub(SAVE_UP_WINDOW_MS), click_ms)],
    }
}

#[test]
fn test_suppression_food_feudal_fully_inside_window() {
    let feudal_click = 500_000u64;
    let rows = vec![
        grab(feudal_click - 50_000, 600, 100, 50, 100),
        grab(feudal_click, 100, 100, 50, 100),
    ];
    let sup = feudal_sup(feudal_click);
    let (summary, segments) = calculate_floating_seconds(&rows, &sup);
    assert_eq!(get(&summary, "Dark Age").unwrap_or_default().food, 0.0);
    assert!(segments.is_empty());
}

#[test]
fn test_suppression_food_feudal_partial_overlap() {
    let feudal_click = 500_000u64;
    let rows = vec![
        grab(feudal_click - 90_000, 600, 100, 50, 100),
        grab(feudal_click, 100, 100, 50, 100),
    ];
    let sup = feudal_sup(feudal_click);
    let (summary, segments) = calculate_floating_seconds(&rows, &sup);
    assert_eq!(get(&summary, "Dark Age").unwrap().food, 30.0);
    assert_eq!(segments.len(), 1);
    assert_eq!(segments[0].end_ms, feudal_click - 60_000);
}

#[test]
fn test_suppression_gold_not_suppressed_before_feudal() {
    let feudal_click = 500_000u64;
    let rows = vec![
        grab(feudal_click - 50_000, 100, 100, 400, 100),
        grab(feudal_click, 100, 100, 50, 100),
    ];
    let sup = feudal_sup(feudal_click);
    let (summary, _) = calculate_floating_seconds(&rows, &sup);
    assert_eq!(get(&summary, "Dark Age").unwrap().gold, 50.0);
}

#[test]
fn test_suppression_wood_never_suppressed() {
    let castle_click = 700_000u64;
    let rows = vec![
        grab(castle_click - 50_000, 100, 900, 50, 100),
        grab(castle_click, 100, 100, 50, 100),
    ];
    let sup = castle_age_sup(castle_click);
    let (summary, _) = calculate_floating_seconds(&rows, &sup);
    assert_eq!(get(&summary, "Dark Age").unwrap().wood, 50.0);
}

#[test]
fn test_suppression_food_and_gold_before_castle() {
    let castle_click = 700_000u64;
    let rows = vec![
        grab(castle_click - 40_000, 900, 100, 600, 100),
        grab(castle_click, 100, 100, 50, 100),
    ];
    let sup = castle_age_sup(castle_click);
    let (summary, segments) = calculate_floating_seconds(&rows, &sup);
    let bucket = get(&summary, "Dark Age").unwrap_or_default();
    assert_eq!(bucket.food, 0.0, "food should be suppressed");
    assert_eq!(bucket.gold, 0.0, "gold should be suppressed");
    assert!(segments.is_empty());
}

#[test]
fn test_suppression_stone_before_castle_fully_inside_window() {
    let build_ms = 800_000u64;
    let rows = vec![
        grab(build_ms - 40_000, 100, 100, 50, 600),
        grab(build_ms, 100, 100, 50, 100),
    ];
    let sup = castle_build_sup(build_ms);
    let (summary, segments) = calculate_floating_seconds(&rows, &sup);
    let bucket = get(&summary, "Dark Age").unwrap_or_default();
    assert_eq!(bucket.stone, 0.0);
    assert!(segments.is_empty());
}

#[test]
fn test_suppression_stone_before_castle_partial_overlap() {
    let build_ms = 800_000u64;
    let rows = vec![
        grab(build_ms - 90_000, 100, 100, 50, 600),
        grab(build_ms, 100, 100, 50, 100),
    ];
    let sup = castle_build_sup(build_ms);
    let (summary, segments) = calculate_floating_seconds(&rows, &sup);
    assert_eq!(get(&summary, "Dark Age").unwrap().stone, 30.0);
    assert_eq!(segments.len(), 1);
    assert_eq!(segments[0].end_ms, build_ms - 60_000);
}

#[test]
fn test_suppression_castle_build_only_suppresses_stone() {
    let build_ms = 800_000u64;
    let rows = vec![
        grab(build_ms - 40_000, 900, 100, 600, 600),
        grab(build_ms, 100, 100, 50, 100),
    ];
    let sup = castle_build_sup(build_ms);
    let (summary, _) = calculate_floating_seconds(&rows, &sup);
    let bucket = get(&summary, "Dark Age").unwrap();
    assert_eq!(bucket.food, 40.0);
    assert_eq!(bucket.gold, 40.0);
    assert_eq!(bucket.stone, 0.0);
}

#[test]
fn test_suppression_early_float_still_counted() {
    let feudal_click = 500_000u64;
    let rows = vec![
        grab(feudal_click - 120_000, 600, 100, 50, 100),
        grab(feudal_click, 100, 100, 50, 100),
    ];
    let sup = feudal_sup(feudal_click);
    let (summary, segments) = calculate_floating_seconds(&rows, &sup);
    assert_eq!(get(&summary, "Dark Age").unwrap().food, 60.0);
    assert_eq!(segments.len(), 1);
    assert_eq!(segments[0].start_ms, feudal_click - 120_000);
    assert_eq!(segments[0].end_ms, feudal_click - 60_000);
}

#[test]
fn test_suppression_food_float_before_and_after_age_up() {
    let feudal_click = 120_000u64;
    let rows = vec![
        grab(0, 2000, 100, 50, 100),
        age_event(feudal_click, "Research Feudal Age"),
        grab(feudal_click, 1500, 100, 50, 100),
        grab(feudal_click + 60_000, 1500, 100, 50, 100),
    ];
    let sup = feudal_sup(feudal_click);
    let (summary, segments) = calculate_floating_seconds(&rows, &sup);

    assert_eq!(get(&summary, "Dark Age").unwrap().food, 60.0);
    assert_eq!(get(&summary, "Feudal Age").unwrap().food, 60.0);
    assert_eq!(segments.len(), 2);
    assert_eq!(segments[0].start_ms, 0);
    assert_eq!(segments[0].end_ms, 60_000);
    assert_eq!(segments[0].age, "Dark Age");
    assert_eq!(segments[1].start_ms, 120_000);
    assert_eq!(segments[1].end_ms, 180_000);
    assert_eq!(segments[1].age, "Feudal Age");
}

#[test]
fn test_suppression_stone_float_before_and_after_castle() {
    let build_ms = 120_000u64;
    let rows = vec![
        grab(0, 100, 100, 50, 2000),
        age_event(build_ms, "Build Castle"),
        grab(build_ms, 100, 100, 50, 1350),
        grab(build_ms + 60_000, 100, 100, 50, 1350),
    ];
    let sup = castle_build_sup(build_ms);
    let (summary, segments) = calculate_floating_seconds(&rows, &sup);

    assert_eq!(get(&summary, "Dark Age").unwrap().stone, 120.0);
    assert_eq!(segments.len(), 2);
    assert_eq!(segments[0].start_ms, 0);
    assert_eq!(segments[0].end_ms, 60_000);
    assert_eq!(segments[1].start_ms, 120_000);
    assert_eq!(segments[1].end_ms, 180_000);
}

#[test]
fn save_up_windows_are_indexed_in_order() {
    let rows = vec![
        age_event(200_000, "Build Castle"),
        age_event(150_000, "Research Castle Age"),
        age_event(30_000, "Research Feudal Age"),
        age_event(40_000, "Research Loom"),
    ];
    let sup = index_save_up_events(&rows);
    assert_eq!(sup.food, vec![(0, 30_000), (90_000, 150_000)]);
    assert_eq!(sup.gold, vec![(90_000, 150_000)]);
    assert_eq!(sup.stone, vec![(140_000, 200_000)]);
}

#[test]
fn suppression_splits_a_run_around_a_window() {
    assert_eq!(apply_suppression(0, 100, &[(40, 60)]), vec![(0, 40), (60, 100)]);
    assert_eq!(apply_suppression(0, 100, &[]), vec![(0, 100)]);
    assert_eq!(apply_suppression(50, 60, &[(0, 100)]), Vec::<(u64, u64)>::new());
}

#[test]
fn analyze_floating_totals_the_ages() {
    let rows = vec![
        grab(0, 300, 100, 50, 100),
        grab(60_000, 100, 100, 50, 100),
        age_event(70_000, "Research Feudal Age"),
        grab(70_000, 100, 100, 400, 100),
        grab(115_000, 100, 100, 100, 100),
    ];
    let report = analyze_floating(&rows);
    // Feudal-age click suppresses food in [10s, 70s]: the Dark Age food run [0, 60s]
    // keeps only [0, 10s], too short to count.
    assert_eq!(report.total.food, 0);
    assert_eq!(report.total.gold, 45_000);
    assert_eq!(report.segments.len(), 1);
    assert_eq!(report.segments[0].resource, "Gold");
}

// ---------------------------------------------------------------------------
// Idle and housing reports
// ---------------------------------------------------------------------------

#[test]
fn idle_report_lines_and_totals() {
    let rows = vec![
        mock_row(0, "ScreenGrab", "2", ""),
        mock_row(10_000, "ScreenGrab", "0", ""),
        mock_row(20_000, "RecEvent", "", "Research Feudal Age"),
        mock_row(30_000, "ScreenGrab", "1", ""),
    ];
    let report = analyze_idle(&rows);
    assert_eq!(report.segments.len(), 4);
    assert_eq!(report.segments[0].start_formatted, "00:00.000");
    assert_eq!(report.segments[0].end_formatted, "00:10.000");
    assert_eq!(report.segments[0].vs_lost_vms, 20_000);
    assert_eq!(report.segments[1].annotation, " (Feudal Age Click)");
    assert_eq!(report.segments[1].vs_lost_vms, 0);
    assert_eq!(report.segments[2].idle_vils, 0);
    assert_eq!(report.segments[2].duration_ms, 10_000);
    assert_eq!(report.segments[3].idle_vils, 1);
    assert_eq!(report.segments[3].duration_ms, 0);
    assert_eq!(
        report.age_vs_lost,
        vec![("Dark Age".to_string(), 20_000), ("Feudal Age".to_string(), 0)]
    );
    assert_eq!(report.total_vs_lost, 20_000);
}

#[test]
fn housing_report_totals() {
    let rows = vec![
        mock_row(0, "ScreenGrab", "normal", ""),
        mock_row(5_000, "ScreenGrab", "housed", ""),
        mock_row(9_000, "ScreenGrab", "queued", ""),
        mock_row(10_000, "ScreenGrab", "", ""),
        mock_row(12_000, "ScreenGrab", "housed", ""),
    ];
    let report = analyze_housing(&rows);
    assert_eq!(report.segments.len(), 4);
    assert_eq!(report.total_housed_ms, 4_000);
    assert_eq!(report.total_queued_ms, 3_000);
    assert_eq!(report.recorded_duration_ms, 12_000);
    assert_eq!(
        report.metrics,
        vec![
            ("Dark Age".to_string(), "normal".to_string(), 5_000),
            ("Dark Age".to_string(), "housed".to_string(), 4_000),
            ("Dark Age".to_string(), "queued".to_string(), 3_000),
        ]
    );
    let segs = segment_game(&rows, |r: &MergedRow| {
        if r.housing.is_empty() { None } else { Some(r.housing.clone()) }
    });
    assert_eq!(calculate_housing_metrics(&segs), report.metrics);
}
