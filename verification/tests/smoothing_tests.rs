use aoe2_squire::analysis::smoothing::{smooth_sequence, smooth_villager_column};
use aoe2_squire::types::MergedRow;

#[test]
fn test_smoothing_single_spike() {
    let mut data = vec![Some(10), Some(70), Some(10)];
    let count = smooth_sequence(&mut data, 5, 1);
    assert_eq!(count, 1);
    assert_eq!(data[1], Some(10));
}

#[test]
fn test_smoothing_multi_frame_spike() {
    let mut data = vec![Some(10), Some(70), Some(75), Some(10)];
    let count = smooth_sequence(&mut data, 5, 2);
    assert_eq!(count, 2);
    assert_eq!(data[1], Some(10));
    assert_eq!(data[2], Some(10));
}

#[test]
fn test_smoothing_step_change_not_smoothed() {
    let mut data = vec![Some(10), Some(20), Some(20), Some(20)];
    let count = smooth_sequence(&mut data, 5, 2);
    assert_eq!(count, 0);
    assert_eq!(data[1], Some(20));
}

#[test]
fn test_smoothing_none_handling() {
    let mut data = vec![Some(10), None, Some(10)];
    let count = smooth_sequence(&mut data, 5, 1);
    assert_eq!(count, 1);
    assert_eq!(data[1], Some(10));
}

#[test]
fn test_smoothing_interpolation_on_trend() {
    let mut data = vec![Some(10), Some(70), Some(12)];
    let count = smooth_sequence(&mut data, 5, 1);
    assert_eq!(count, 1);
    assert_eq!(data[1], Some(11)); // (10+12)/2
}

#[test]
fn smoothing_leaves_short_inputs_alone() {
    let mut data: Vec<Option<u32>> = vec![Some(10), Some(70)];
    assert_eq!(smooth_sequence(&mut data, 5, 1), 0);
    assert_eq!(data, vec![Some(10), Some(70)]);
}

#[test]
fn smoothing_with_zero_duration_changes_nothing() {
    let mut data = vec![Some(10), Some(70), Some(10)];
    assert_eq!(smooth_sequence(&mut data, 5, 0), 0);
    assert_eq!(data[1], Some(70));
}

#[test]
fn deviation_of_exactly_min_spike_is_kept() {
    let mut data = vec![Some(10), Some(15), Some(10)];
    assert_eq!(smooth_sequence(&mut data, 5, 1), 0);
    assert_eq!(data, vec![Some(10), Some(15), Some(10)]);
    let mut data = vec![Some(10), Some(16), Some(10)];
    assert_eq!(smooth_sequence(&mut data, 5, 1), 1);
    assert_eq!(data, vec![Some(10), Some(10), Some(10)]);
}

fn row(pop_vils: &str, desc: &str) -> MergedRow {
    MergedRow {
        in_game_ms: 0,
        rw_timestamp_ms: String::new(),
        observation_type: "ScreenGrab".to_string(),
        event_desc: desc.to_string(),
        food: String::new(),
        wood: String::new(),
        gold: String::new(),
        stone: String::new(),
        pop_curr: String::new(),
        pop_max: String::new(),
        pop_vils: pop_vils.to_string(),
        idle_vils: String::new(),
        housing: String::new(),
    }
}

#[test]
fn villager_column_is_smoothed_in_place() {
    let mut rows = vec![row("10", "a"), row("70", "b"), row("", "c"), row("12", "d")];
    // The empty reading is a gap: 70 lies on a two-step span from 10 to 12.
    assert_eq!(smooth_villager_column(&mut rows, 5, 2), 2);
    let vils: Vec<&str> = rows.iter().map(|r| r.pop_vils.as_str()).collect();
    assert_eq!(vils, vec!["10", "11", "11", "12"]);
    let descs: Vec<&str> = rows.iter().map(|r| r.event_desc.as_str()).collect();
    assert_eq!(descs, vec!["a", "b", "c", "d"]);
}
