use aoe2_squire::capture::{
    bgra_to_rgb, capture_step, captured_frame_from_results, has_all_fields, prepare_telemetry_row,
    telemetry_line, CaptureAction, CaptureState,
};
use aoe2_squire::types::Results;

#[test]
fn test_prepare_telemetry_row() {
    let mut results = Results::new();
    results.insert("food", "total", "181");
    results.insert("food", "vils", "35");
    results.insert("population", "total", "15");
    results.insert("population", "housing", "20");
    results.insert("population", "vils", "12");
    results.insert("idle", "vils", "1");

    let timestamp = 123456789;
    let row = prepare_telemetry_row(&results, timestamp);

    assert_eq!(row[0], "123456789"); // timestamp
    assert_eq!(row[1], "181"); // food_total
    assert_eq!(row[2], "35"); // food_vils
    assert_eq!(row[9], "15"); // pop_curr
    assert_eq!(row[10], "20"); // pop_max
    assert_eq!(row[11], "12"); // pop_vils
    assert_eq!(row[12], "1"); // idle_vils
}

#[test]
fn test_prepare_telemetry_row_partial() {
    let mut results = Results::new();
    // Only population total, no slash
    results.insert("population", "total", "5");
    results.insert("population", "housing", "");

    let row = prepare_telemetry_row(&results, 0);

    assert_eq!(row[9], "5"); // pop_curr
    assert_eq!(row[10], ""); // pop_max
    assert_eq!(row[1], ""); // food_total (missing)
}

#[test]
fn test_bgra_to_rgb_conversion() {
    // A 2x2 image with a padded pitch: 12 bytes per row instead of 8.
    let width = 2;
    let height = 2;
    let pitch = 12;

    let mut buffer = vec![0u8; height as usize * pitch];

    // Row 0, Col 0: Blue (B=255, G=0, R=0, A=255)
    buffer[0] = 255;
    buffer[1] = 0;
    buffer[2] = 0;
    buffer[3] = 255;
    // Row 0, Col 1: Green (B=0, G=255, R=0, A=255)
    buffer[4] = 0;
    buffer[5] = 255;
    buffer[6] = 0;
    buffer[7] = 255;
    // Row 1, Col 0: Red (B=0, G=0, R=255, A=255)
    buffer[12] = 0;
    buffer[13] = 0;
    buffer[14] = 255;
    buffer[15] = 255;
    // Row 1, Col 1: White (B=255, G=255, R=255, A=255)
    buffer[16] = 255;
    buffer[17] = 255;
    buffer[18] = 255;
    buffer[19] = 255;

    let rgb = bgra_to_rgb(&buffer, width, height, pitch);
    let pixel = |x: usize, y: usize| {
        let i = (y * width as usize + x) * 3;
        [rgb[i], rgb[i + 1], rgb[i + 2]]
    };

    assert_eq!(rgb.len(), 2 * 2 * 3);
    assert_eq!(pixel(0, 0), [0, 0, 255]); // Blue pixel -> RGB
    assert_eq!(pixel(1, 0), [0, 255, 0]); // Green pixel -> RGB
    assert_eq!(pixel(0, 1), [255, 0, 0]); // Red pixel -> RGB
    assert_eq!(pixel(1, 1), [255, 255, 255]); // White pixel -> RGB
}

#[test]
fn test_print_telemetry_logic() {
    let mut results = Results::new();
    results.insert("food", "total", "181");
    results.insert("food", "vils", "35");
    results.insert("idle", "vils", "1");

    let line = telemetry_line(&results, 42);
    println!("{}", line);
    assert_eq!(line, "[Telemetry] Scale: ? | Food: 181 (35) | Idle: 1 | Time: 42ms");
}

#[test]
fn telemetry_line_shows_population_and_scale() {
    let mut results = Results::new();
    results.insert("meta", "ui_scale", "1.0000");
    results.insert("population", "total", "15");
    results.insert("population", "housing", "20");
    results.insert("wood", "vils", "7");
    results.insert("gold", "total", "");
    assert_eq!(
        telemetry_line(&results, 5),
        "[Telemetry] Scale: 1.0000 | Wood: 7 | Pop: 15/20 | Time: 5ms"
    );
}

fn full_frame() -> Results {
    let mut r = Results::new();
    for cat in ["food", "wood", "gold", "stone", "population"] {
        r.insert(cat, "total", "100");
    }
    r
}

#[test]
fn recording_starts_only_with_all_totals() {
    let mut partial = full_frame();
    partial.insert("stone", "total", "");
    assert!(!has_all_fields(&partial));
    assert!(has_all_fields(&full_frame()));

    let full = full_frame();
    assert_eq!(
        capture_step(CaptureState::WaitingForGame, Some(&partial)),
        (CaptureState::WaitingForGame, CaptureAction::KeepWaiting)
    );
    assert_eq!(
        capture_step(CaptureState::WaitingForGame, Some(&full)),
        (CaptureState::Recording, CaptureAction::StartRecording)
    );
    assert_eq!(
        capture_step(CaptureState::Recording, Some(&full)),
        (CaptureState::Recording, CaptureAction::RecordFrame)
    );
    assert_eq!(
        capture_step(CaptureState::Recording, None),
        (CaptureState::GameEnded, CaptureAction::StopRecording)
    );
}

#[test]
fn captured_frame_reads_population() {
    let mut r = Results::new();
    r.insert("population", "total", "15");
    r.insert("population", "housing", "x");
    let f = captured_frame_from_results(r, 7, 3);
    assert_eq!((f.pop_curr, f.pop_max, f.timestamp_ms, f.frame_idx), (15, 0, 7, 3));
    assert_eq!(f.pop_color, "white");
}

#[test]
fn session_waits_records_and_stops() {
    let full = full_frame();
    let mut partial = Results::new();
    partial.insert("food", "total", "100");
    let frames: Vec<Option<&Results>> =
        vec![None, Some(&partial), Some(&full), Some(&partial), Some(&full), None, Some(&full)];
    let mut state = CaptureState::WaitingForGame;
    let mut actions = Vec::new();
    for f in frames {
        let (next, action) = capture_step(state, f);
        state = next;
        actions.push(action);
    }
    assert_eq!(
        actions,
        vec![
            CaptureAction::KeepWaiting,
            CaptureAction::KeepWaiting,
            CaptureAction::StartRecording,
            CaptureAction::RecordFrame,
            CaptureAction::RecordFrame,
            CaptureAction::StopRecording,
            CaptureAction::StopRecording,
        ]
    );
    assert_eq!(state, CaptureState::GameEnded);
}
