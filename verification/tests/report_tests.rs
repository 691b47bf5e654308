use aoe2_squire::analysis::floating::FloatingSegment;
use aoe2_squire::report::{extract_chart_data, short_time};
use aoe2_squire::types::MergedRow;

fn grab(ms: u64, pop_vils: &str, idle: &str, housing: &str, food: &str) -> MergedRow {
    MergedRow {
        in_game_ms: ms,
        observation_type: "ScreenGrab".to_string(),
        pop_vils: pop_vils.to_string(),
        idle_vils: idle.to_string(),
        housing: housing.to_string(),
        food: food.to_string(),
        ..Default::default()
    }
}

fn event(ms: u64, desc: &str) -> MergedRow {
    MergedRow {
        in_game_ms: ms,
        observation_type: "RecEvent".to_string(),
        event_desc: desc.to_string(),
        ..Default::default()
    }
}

#[test]
fn chart_series_are_json() {
    let rows = vec![
        grab(1_500, "3", "1", "housed", "200"),
        event(61_000, "Research Feudal Age"),
        event(62_000, "Research Loom"),
        grab(65_000, "x", "", "normal", "150"),
    ];
    let segs = vec![FloatingSegment {
        start_ms: 0,
        end_ms: 2_000,
        resource: "Food".to_string(),
        age: "Dark Age".to_string(),
    }];
    let c = extract_chart_data(&rows, &segs);
    assert_eq!(c.time_labels_json, r#"["00:01","01:05"]"#);
    assert_eq!(c.pop_vils_json, "[3,null]");
    assert_eq!(c.idle_vils_json, "[1,null]");
    assert_eq!(c.housed_flags_json, "[true,false]");
    assert_eq!(c.floating_food_json, "[true,false]");
    assert_eq!(c.floating_wood_json, "[false,false]");
    assert_eq!(c.resource_food_json, "[200,150]");
    assert_eq!(c.resource_wood_json, "[null,null]");
    assert_eq!(c.age_ups_json, r#"[{"age":"Feudal Age queued","label":"01:01"}]"#);
}

#[test]
fn chart_of_no_rows_is_empty_lists() {
    let c = extract_chart_data(&[], &[]);
    assert_eq!(c.time_labels_json, "[]");
    assert_eq!(c.age_ups_json, "[]");
    assert_eq!(c.resource_stone_json, "[]");
}

#[test]
fn short_time_drops_milliseconds() {
    assert_eq!(short_time(0), "00:00");
    assert_eq!(short_time(3_599_999), "59:59");
    assert_eq!(short_time(6_000_000), "100:00");
}
