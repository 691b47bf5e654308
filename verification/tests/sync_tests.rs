use aoe2_squire::replay::{ReplayEvent, ResourceCost};
use aoe2_squire::sync::calibrate_timing;
use aoe2_squire::types::CsvRow;

#[test]
fn test_basic_calibration() {
    let csv_rows = vec![
        CsvRow {
            timestamp_ms: 1000,
            food: Some(200),
            wood: Some(200),
            gold: Some(100),
            stone: Some(200),
            pop_curr: None,
            pop_max: None,
            pop_vils: None,
            idle_vils: None,
            housing: None,
        },
        CsvRow {
            timestamp_ms: 2000,
            food: Some(150),
            wood: Some(200),
            gold: Some(100),
            stone: Some(200),
            pop_curr: None,
            pop_max: None,
            pop_vils: None,
            idle_vils: None,
            housing: None,
        },
    ];
    let events = vec![ReplayEvent::UnitQueued {
        timestamp_ms: 500,
        player_id: 1,
        unit_type: "Villager".to_string(),
        cost: ResourceCost { food: 50, wood: 0, gold: 0, stone: 0 },
        building_ids: vec![1],
        building_types: vec!["Town Center".to_string()],
    }];

    let cal = calibrate_timing(&csv_rows, &events, 1000).unwrap();
    assert_eq!(cal.anchor1_rw, 2000);
    assert_eq!(cal.anchor1_ig, 501);
    // No feudal anchor: the game speed stays at the standard 1.7.
    assert_eq!((cal.anchor2_ig, cal.anchor2_rw), (0, 0));
    let speed_factor = if cal.anchor2_rw > cal.anchor1_rw {
        (cal.anchor2_ig - cal.anchor1_ig) as f64 / (cal.anchor2_rw - cal.anchor1_rw) as f64
    } else {
        1.7
    };
    assert_eq!(speed_factor, 1.7);
    // game_start = 2000 - (501 / 1.7) = 2000 - 294.7 = 1705.29
    let game_start_rw_ms = cal.anchor1_rw as f64 - (cal.anchor1_ig as f64 / speed_factor);
    assert!((game_start_rw_ms - 1705.29).abs() < 0.01);
}

#[test]
fn calibration_without_frames_is_an_error() {
    let events: Vec<ReplayEvent> = vec![];
    let err = calibrate_timing(&[], &events, 0).unwrap_err();
    assert_eq!(err, "No valid screen grabs found");
}
