use aoe2_squire::cli::{parse_command, parse_options, parse_i32, report_file_name, CliOptions, Command};
use aoe2_squire::discovery::latest_after;
use aoe2_squire::pipeline::interpolation::{get_housing_status, set_housing_status, CapturedFrame, InterpolationEngine};
use aoe2_squire::pipeline::readings::{element_value, element_window, record_element};
use aoe2_squire::types::Results;

fn args(a: &[&str]) -> Vec<String> {
    a.iter().map(|s| s.to_string()).collect()
}

#[test]
fn options_default_and_override() {
    assert_eq!(
        parse_options(&args(&["squire"])),
        CliOptions { verbose: false, min_spike: 2, max_duration_ms: 2000 }
    );
    assert_eq!(
        parse_options(&args(&["squire", "-v", "--min-spike", "-4", "--max-duration", "750"])),
        CliOptions { verbose: true, min_spike: -4, max_duration_ms: 750 }
    );
    assert_eq!(
        parse_options(&args(&["squire", "--min-spike", "many", "--max-duration"])),
        CliOptions { verbose: false, min_spike: 2, max_duration_ms: 2000 }
    );
}

#[test]
fn commands_by_first_argument() {
    assert_eq!(
        parse_command(&args(&["squire", "--analyze", "t.csv", "m.aoe2record"])),
        Command::Analyze { csv_path: "t.csv".to_string(), replay_path: "m.aoe2record".to_string() }
    );
    assert_eq!(
        parse_command(&args(&["squire", "--parse-replay"])),
        Command::ParseReplay { replay_path: None }
    );
    assert_eq!(
        parse_command(&args(&["squire", "shot.png"])),
        Command::Image { image_path: "shot.png".to_string() }
    );
    assert_eq!(parse_command(&args(&["squire"])), Command::Live);
    assert_eq!(parse_command(&args(&["squire", "--live"])), Command::Live);
}

#[test]
fn i32_parse_matches_std() {
    for s in ["0", "-0", "+7", "-2147483648", "2147483647", "2147483648", "-2147483649", "", "-", "+", "1a", "--1"] {
        let cs: Vec<char> = s.chars().collect();
        assert_eq!(parse_i32(&cs), s.parse::<i32>().ok(), "input {:?}", s);
    }
}

#[test]
fn report_file_name_from_metadata() {
    assert_eq!(
        report_file_name("2026-05-06 12:00:00", "Sir Lancelot", "Franks"),
        "20260506-120000-Sir_Lancelot-Franks.html"
    );
}

#[test]
fn latest_replay_after_session_start() {
    assert_eq!(latest_after(&[5, 20, 15, 20], 10), Some(1));
    assert_eq!(latest_after(&[5, 10], 10), None);
    assert_eq!(latest_after(&[], 0), None);
}

#[test]
fn population_box_splits_into_total_and_housing() {
    let mut r = Results::new();
    record_element(&mut r, "population_total", "15/20");
    record_element(&mut r, "wood_total", "300");
    record_element(&mut r, "idle", "2");
    assert_eq!(r.get_or_empty("population", "total"), "15");
    assert_eq!(r.get_or_empty("population", "housing"), "20");
    assert_eq!(r.get_or_empty("wood", "total"), "300");
    assert_eq!(r.get_or_empty("idle", "value"), "2");
    record_element(&mut r, "population_total", "17");
    assert_eq!(r.get_or_empty("population", "total"), "17");
    assert_eq!(element_value("idle_vils", &[]), "0");
    assert_eq!(element_value("wood_vils", &[]), "");
    assert_eq!(element_value("wood_vils", &['1', '2']), "12");
}

fn frame(ts: u64, idx: u64, color: &str, curr: u32, max: u32) -> CapturedFrame {
    let mut r = Results::new();
    r.insert("population", "total", &format!("{}/{}", curr, max));
    r.insert("population", "color", color);
    CapturedFrame { timestamp_ms: ts, frame_idx: idx, pop_color: color.to_string(), pop_curr: curr, pop_max: max, row_data: r }
}

#[test]
fn housing_status_round_trip() {
    let mut r = Results::new();
    assert_eq!(get_housing_status(&r), "normal");
    set_housing_status(&mut r, "housed");
    assert_eq!(get_housing_status(&r), "housed");
}

#[test]
fn engine_releases_every_frame_in_order() {
    let mut engine = InterpolationEngine::new();
    let mut out = Vec::new();
    out.extend(engine.process_frame(frame(0, 0, "white", 10, 20)));
    out.extend(engine.process_frame(frame(250, 1, "yellow", 20, 20)));
    out.extend(engine.process_frame(frame(500, 2, "white", 20, 20)));
    out.extend(engine.process_frame(frame(750, 3, "yellow", 20, 20)));
    out.extend(engine.flush());
    let ts: Vec<u64> = out.iter().map(|(_, t)| *t).collect();
    assert_eq!(ts, vec![0, 250, 500, 750]);
    let statuses: Vec<String> = out.iter().map(|(r, _)| get_housing_status(r)).collect();
    assert_eq!(statuses, vec!["normal", "queued", "queued", "queued"]);
}

#[test]
fn overlay_frames_bridge_a_housed_stretch() {
    let mut engine = InterpolationEngine::new();
    let mut out = Vec::new();
    out.extend(engine.process_frame(frame(0, 0, "white", 10, 20)));
    out.extend(engine.process_frame(frame(250, 1, "overlay", 20, 20)));
    // Held back while the housed bridge may still close.
    assert!(engine.process_frame(frame(500, 2, "white", 20, 20)).is_empty());
    out.extend(engine.process_frame(frame(750, 3, "overlay", 20, 20)));
    // Long after the last anchor: a plain frame breaks the bridges.
    out.extend(engine.process_frame(frame(10_000, 4, "white", 12, 20)));
    let statuses: Vec<String> = out.iter().map(|(r, _)| get_housing_status(r)).collect();
    assert_eq!(statuses, vec!["normal", "housed", "housed", "housed", "normal"]);
}

#[test]
fn element_windows_follow_their_baseline() {
    let total = Some((12, 3));
    let vils = Some((9, 5));
    assert_eq!(element_window("wood_total", 10, 20, 30, 40, total, vils), Some((10, 23, 30, 12, true)));
    assert_eq!(element_window("food_vils", 10, 20, 30, 40, total, vils), Some((10, 25, 30, 9, true)));
    assert_eq!(element_window("idle_vils", 10, 20, 30, 40, total, vils), Some((10, 20, 30, 40, false)));
    assert_eq!(element_window("wood_total", 10, 20, 30, 40, None, vils), Some((10, 20, 30, 40, false)));
    assert_eq!(element_window("gold_total", 1, u32::MAX - 1, 2, 2, total, vils), None);
}

#[test]
fn engine_keeps_readings_and_sets_only_the_status() {
    let mut engine = InterpolationEngine::new();
    let mut out = Vec::new();
    let frames = vec![
        frame(0, 0, "overlay", 18, 20),
        frame(250, 1, "white", 19, 20),
        frame(500, 2, "overlay", 18, 20),
        frame(5000, 3, "white", 5, 20),
    ];
    for f in frames.clone() {
        out.extend(engine.process_frame(f));
    }
    out.extend(engine.flush());
    assert_eq!(out.len(), frames.len());
    for (f, (row, ts)) in frames.iter().zip(out.iter()) {
        assert_eq!(*ts, f.timestamp_ms);
        for e in f.row_data.entries() {
            assert_eq!(row.get_or_empty(&e.category, &e.key), e.value);
        }
        assert!(["normal", "housed", "queued"].contains(&get_housing_status(row).as_str()));
    }
    // The frame between the two overlays, at most 1000 ms apart and with no more free
    // population, is bridged as housed.
    assert_eq!(get_housing_status(&out[1].0), "housed");
    assert_eq!(get_housing_status(&out[3].0), "normal");
}
