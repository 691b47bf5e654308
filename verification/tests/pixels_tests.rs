use aoe2_squire::pixels::{
    apply_base_filter, baseline_span, binarize, blob_step, BlobStep, FilterSettings, column_projection, compute_stats, contains_yellow,
    crop_window, detect_housed_overlay, find_split_valleys, merge_digit_boxes, rightmost_anchor,
    sort_boxes_by_x, valid_components, CompStats, DigitBox,
};

/// A black RGB image of `w` by `h` pixels.
fn black(w: usize, h: usize) -> Vec<u8> {
    vec![0u8; 3 * w * h]
}

fn put(img: &mut [u8], w: usize, x: usize, y: usize, rgb: [u8; 3]) {
    let p = 3 * (y * w + x);
    img[p] = rgb[0];
    img[p + 1] = rgb[1];
    img[p + 2] = rgb[2];
}

fn db(x: u32, y: u32, w: u32, h: u32) -> DigitBox {
    DigitBox { x, y, w, h }
}

#[test]
fn test_binarize() {
    // 2x2 grey image: (0,0) = 100, (1,1) = 0.
    let img = vec![100u8, 0, 0, 0];
    let b = binarize(&img);
    assert_eq!(b[0], 255);
    assert_eq!(b[3], 0);
}

/// The scan area and scale as the screen reader derives them for a 100x100 frame with a
/// baseline margin of 10 pixels: columns 50..=95, rows 1..=3, scale = margin / baseline,
/// accepted between 0.5 and 2.0.
fn ui_scale_of(img: &[u8]) -> Option<f64> {
    let (w, h) = (100usize, 100usize);
    let x = rightmost_anchor(img, w, h, 50, 95, 1, 3)?;
    let scale = (w - x) as f64 / 10.0;
    if !(0.5..=2.0).contains(&scale) {
        return None;
    }
    Some(scale)
}

#[test]
fn test_detect_ui_scale() {
    let mut img = black(100, 100);
    for y in 1..4 {
        for x in 77..82 {
            put(&mut img, 100, x, y, [255, 0, 0]);
        }
    }
    assert_eq!(rightmost_anchor(&img, 100, 100, 50, 95, 1, 3), Some(81));
    let scale = ui_scale_of(&img).unwrap();
    assert!((scale - 1.9).abs() < 1e-6);

    let mut img_high = black(100, 100);
    for y in 1..4 {
        for x in 71..76 {
            put(&mut img_high, 100, x, y, [255, 0, 0]);
        }
    }
    assert!(ui_scale_of(&img_high).is_none());

    let mut img_low = black(100, 100);
    for y in 1..4 {
        for x in 96..100 {
            put(&mut img_low, 100, x, y, [255, 0, 0]);
        }
    }
    assert!(ui_scale_of(&img_low).is_none());

    assert!(ui_scale_of(&black(100, 100)).is_none());
}

#[test]
fn anchor_needs_enough_red_pixels() {
    // Eleven red pixels in one row: dense enough nowhere.
    let mut img = black(40, 10);
    for x in 10..21 {
        put(&mut img, 40, x, 2, [200, 10, 10]);
    }
    assert_eq!(rightmost_anchor(&img, 40, 10, 0, 39, 0, 9), None);
    // Two more under the row's right end make the right end an anchor: ten of the row's
    // pixels lie in the box ending at column 20, and these two.
    put(&mut img, 40, 20, 3, [200, 10, 10]);
    put(&mut img, 40, 19, 3, [200, 10, 10]);
    assert_eq!(rightmost_anchor(&img, 40, 10, 0, 39, 0, 9), Some(20));
    // Not red enough: green above the limit.
    let mut dull = black(40, 10);
    for x in 10..30 {
        put(&mut dull, 40, x, 2, [200, 80, 10]);
    }
    assert_eq!(rightmost_anchor(&dull, 40, 10, 0, 39, 0, 9), None);
}

#[test]
fn yellow_icon_detection() {
    let mut img = black(3, 1);
    assert!(!contains_yellow(&img));
    put(&mut img, 3, 1, 0, [200, 190, 20]);
    assert!(contains_yellow(&img));
    // Blue must lie more than 30 below the weaker of red and green.
    let mut pale = black(1, 1);
    put(&mut pale, 1, 0, 0, [200, 190, 160]);
    assert!(!contains_yellow(&pale));
    let mut warm = black(1, 1);
    put(&mut warm, 1, 0, 0, [200, 200, 160]);
    assert!(contains_yellow(&warm));
}

#[test]
fn housed_overlay_by_channel_means() {
    assert!(!detect_housed_overlay(&[]));
    assert!(detect_housed_overlay(&[200, 180, 40, 160, 170, 90]));
    // Mean blue exactly 100 is not below 100.
    assert!(!detect_housed_overlay(&[200, 180, 100, 160, 170, 100]));
    // Mean red exactly 150 is not above 150.
    assert!(!detect_housed_overlay(&[150, 180, 40, 150, 170, 40]));
}

#[test]
fn base_filter_keeps_grey_and_optional_yellow() {
    let img = vec![
        200, 210, 205, // grey, kept at its brightest channel
        3, 3, 3, // grey but below the threshold
        250, 20, 20, // red: dropped
        220, 200, 60, // yellow
    ];
    assert_eq!(apply_base_filter(&img, 30, 5, false), vec![210, 0, 0, 0]);
    assert_eq!(apply_base_filter(&img, 30, 5, true), vec![210, 0, 0, 220]);
}

#[test]
fn projection_counts_lit_pixels_per_column() {
    // 3 columns, 2 rows.
    let gray = vec![0, 5, 9, 0, 0, 1];
    assert_eq!(column_projection(&gray, 3, 2), vec![0, 1, 2]);
}

#[test]
fn valleys_of_a_two_digit_blob() {
    // A blob 12 wide and 10 high with a gap in column 6.
    let proj = vec![8, 8, 8, 8, 8, 6, 1, 6, 8, 8, 8, 8];
    assert_eq!(find_split_valleys(&proj, 10, 2), (Some(6), Some(6)));
    // Not wider than high: no perfect cut, the fallback remains.
    assert_eq!(find_split_valleys(&proj, 11, 2), (None, Some(6)));
    // Too narrow for the margins.
    assert_eq!(find_split_valleys(&[1, 0, 1, 0], 10, 2), (None, None));
    // Of two equal valleys the left one is chosen.
    let twin = vec![5, 5, 5, 5, 0, 5, 0, 5, 5, 5, 5, 5];
    assert_eq!(find_split_valleys(&twin, 10, 2), (Some(6), Some(4)));
}

#[test]
fn boxes_sorted_stably_and_merged() {
    let boxes = vec![db(10, 0, 3, 8), db(2, 0, 4, 8), db(10, 5, 1, 1), db(4, 4, 1, 6)];
    assert_eq!(
        sort_boxes_by_x(&boxes),
        vec![db(2, 0, 4, 8), db(4, 4, 1, 6), db(10, 0, 3, 8), db(10, 5, 1, 1)]
    );
    // (4,4,1,6) starts inside (2,0,4,8) and joins it: 4 wide, 10 high.
    // (10,5,1,1) starts inside (10,0,3,8) and joins it.
    assert_eq!(merge_digit_boxes(&boxes), vec![db(2, 0, 4, 10), db(10, 0, 3, 8)]);
    // A join that would be too wide keeps the boxes apart.
    let wide = vec![db(0, 0, 5, 6), db(3, 0, 5, 6)];
    assert_eq!(merge_digit_boxes(&wide), vec![db(0, 0, 5, 6), db(3, 0, 5, 6)]);
}

#[test]
fn crop_windows_are_clamped() {
    assert_eq!(crop_window(db(2, 1, 3, 3), 10, 5), Some(db(2, 1, 3, 3)));
    assert_eq!(crop_window(db(8, 3, 5, 5), 10, 5), Some(db(8, 3, 2, 2)));
    assert_eq!(crop_window(db(12, 9, 5, 5), 10, 5), Some(db(9, 4, 1, 1)));
    assert_eq!(crop_window(db(0, 0, 0, 3), 10, 5), None);
    assert_eq!(crop_window(db(0, 0, 3, 3), 0, 5), None);
}

#[test]
fn baseline_of_boxes() {
    assert_eq!(baseline_span(&vec![]), None);
    assert_eq!(baseline_span(&vec![db(0, 3, 2, 10), db(5, 2, 2, 9), db(9, 4, 2, 10)]), Some((12, 2)));
}

#[test]
fn component_statistics_from_labels() {
    // 4 columns, 3 rows; label 2 has no pixel.
    let labels = vec![
        1, 1, 0, 3, //
        0, 1, 0, 3, //
        0, 0, 0, 3, //
    ];
    let seg = vec![
        50, 240, 0, 10, //
        0, 90, 0, 20, //
        0, 0, 0, 30, //
    ];
    let stats = compute_stats(&labels, &seg, 4, 3, 3);
    assert_eq!(
        stats,
        vec![
            CompStats { label: 1, left: 0, top: 0, width: 2, height: 2, area: 3, max_brightness: 240 },
            CompStats { label: 3, left: 3, top: 0, width: 1, height: 3, area: 3, max_brightness: 30 },
        ]
    );
    assert_eq!(valid_components(&stats, 2, 230), vec![stats[0]]);
    assert_eq!(valid_components(&stats, 4, 0), vec![]);
}

#[test]
fn blob_strategy_ladder() {
    let s = FilterSettings { grey_tol: 30, brightness_thresh: 100, use_eight: true };
    let standard = FilterSettings { grey_tol: 30, brightness_thresh: 100, use_eight: true };
    assert_eq!(blob_step(FilterSettings { grey_tol: 4, ..s }, Some(7), Some(3)), BlobStep::SplitAt(7, standard));
    assert_eq!(blob_step(s, None, Some(3)), BlobStep::Retry(FilterSettings { brightness_thresh: 110, ..s }));
    let bright = FilterSettings { brightness_thresh: 160, ..s };
    assert_eq!(blob_step(bright, None, Some(3)), BlobStep::Retry(FilterSettings { grey_tol: 28, ..bright }));
    let tight = FilterSettings { grey_tol: 2, ..bright };
    assert_eq!(blob_step(tight, None, Some(3)), BlobStep::SplitAt(3, standard));
    assert_eq!(blob_step(tight, None, None), BlobStep::Retry(FilterSettings { use_eight: false, ..tight }));
    assert_eq!(blob_step(FilterSettings { use_eight: false, ..tight }, None, None), BlobStep::Keep);
}
