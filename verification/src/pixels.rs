//! Pixel rules of the screen reader: which pixels are yellow, red or grey, the filter that
//! keeps the digits of a UI box, the red anchor that fixes the UI scale, and the bookkeeping
//! of the digit boxes. Images are byte buffers, row by row: three bytes (red, green, blue)
//! per pixel for colour images, one byte per pixel for grey ones.
use vstd::prelude::*;
use crate::constants::{
    RED_B_MAX, RED_G_MAX, RED_PIXEL_MIN_COUNT, RED_R_MIN, SEG_BRIGHTNESS_THRESHOLD, SEG_GREY_TOLERANCE,
    YELLOW_BLUE_MARGIN, YELLOW_MIN_BRIGHTNESS,
    YELLOW_RG_SIMILARITY,
};

verus! {

pub open spec fn red_of(rgb: Seq<u8>, p: int) -> u8 {
    rgb[3 * p]
}

pub open spec fn green_of(rgb: Seq<u8>, p: int) -> u8 {
    rgb[3 * p + 1]
}

pub open spec fn blue_of(rgb: Seq<u8>, p: int) -> u8 {
    rgb[3 * p + 2]
}

pub open spec fn min3(a: int, b: int, c: int) -> int {
    if a <= b && a <= c { a } else if b <= c { b } else { c }
}

pub open spec fn max3(a: int, b: int, c: int) -> int {
    if a >= b && a >= c { a } else if b >= c { b } else { c }
}

pub open spec fn abs_int(a: int) -> int {
    if a < 0 { -a } else { a }
}

/// The yellow of an active idle-villager icon: red and green bright and alike, blue well
/// below both.
pub open spec fn is_yellow(r: u8, g: u8, b: u8) -> bool {
    &&& r > YELLOW_MIN_BRIGHTNESS
    &&& g > YELLOW_MIN_BRIGHTNESS
    &&& (b as int) < (if r <= g { r as int } else { g as int }) - YELLOW_BLUE_MARGIN
    &&& abs_int(r - g) < YELLOW_RG_SIMILARITY
}

proof fn lemma_triple_index(len: usize, p: int)
    requires
        len % 3 == 0,
        0 <= p < len / 3,
    ensures
        3 * p + 2 < len,
        3 * p + 2 < usize::MAX,
{
}

fn yellow_pixel(r: u8, g: u8, b: u8) -> (y: bool)
    ensures
        y == is_yellow(r, g, b),
{
    let r16 = r as i16;
    let g16 = g as i16;
    let b16 = b as i16;
    let low = if r16 <= g16 { r16 } else { g16 };
    let diff = if r16 >= g16 { r16 - g16 } else { g16 - r16 };
    r > YELLOW_MIN_BRIGHTNESS && g > YELLOW_MIN_BRIGHTNESS && b16 < low - YELLOW_BLUE_MARGIN
        && diff < YELLOW_RG_SIMILARITY
}

/// Whether any pixel of the image is yellow.
pub fn contains_yellow(rgb: &[u8]) -> (found: bool)
    requires
        rgb@.len() % 3 == 0,
    ensures
        found == exists|p: int| 0 <= p < rgb@.len() / 3 && #[trigger] is_yellow(red_of(rgb@, p), green_of(rgb@, p), blue_of(rgb@, p)),
{
    let n = rgb.len() / 3;
    let mut p: usize = 0;
    while p < n
        invariant
            n == rgb@.len() / 3,
            rgb@.len() % 3 == 0,
            p <= n,
            forall|q: int| 0 <= q < p ==> !#[trigger] is_yellow(red_of(rgb@, q), green_of(rgb@, q), blue_of(rgb@, q)),
        decreases n - p,
    {
        proof {
            lemma_triple_index(rgb.len(), p as int);
        }
        if yellow_pixel(rgb[3 * p], rgb[3 * p + 1], rgb[3 * p + 2]) {
            assert(is_yellow(red_of(rgb@, p as int), green_of(rgb@, p as int), blue_of(rgb@, p as int)));
            return true;
        }
        p = p + 1;
    }
    false
}

/// The sum of one channel over the first `n` pixels.
pub open spec fn channel_sum(rgb: Seq<u8>, c: int, n: int) -> int
    decreases n,
{
    if n <= 0 {
        0
    } else {
        channel_sum(rgb, c, n - 1) + rgb[3 * (n - 1) + c]
    }
}

/// The yellow overlay of a housed population counter: on average red and green above 150
/// and blue below 100. (The means are compared exactly; as `f64` quotients they compare
/// the same for images under 2^40 pixels.)
pub open spec fn housed_overlay_spec(rgb: Seq<u8>) -> bool {
    let n = (rgb.len() / 3) as int;
    &&& n > 0
    &&& channel_sum(rgb, 0, n) > 150 * n
    &&& channel_sum(rgb, 1, n) > 150 * n
    &&& channel_sum(rgb, 2, n) < 100 * n
}

proof fn lemma_channel_sum_bound(rgb: Seq<u8>, c: int, n: int)
    requires
        0 <= n,
        0 <= c < 3,
        3 * n <= rgb.len(),
    ensures
        0 <= channel_sum(rgb, c, n) <= 255 * n,
    decreases n,
{
    if n > 0 {
        lemma_channel_sum_bound(rgb, c, n - 1);
    }
}

pub fn detect_housed_overlay(rgb: &[u8]) -> (housed: bool)
    requires
        rgb@.len() % 3 == 0,
    ensures
        housed == housed_overlay_spec(rgb@),
{
    let n = rgb.len() / 3;
    if n == 0 {
        return false;
    }
    let mut sr: u128 = 0;
    let mut sg: u128 = 0;
    let mut sb: u128 = 0;
    let mut p: usize = 0;
    while p < n
        invariant
            n == rgb@.len() / 3,
            rgb@.len() % 3 == 0,
            p <= n,
            sr == channel_sum(rgb@, 0, p as int),
            sg == channel_sum(rgb@, 1, p as int),
            sb == channel_sum(rgb@, 2, p as int),
        decreases n - p,
    {
        proof {
            lemma_channel_sum_bound(rgb@, 0, p as int);
            lemma_channel_sum_bound(rgb@, 1, p as int);
            lemma_channel_sum_bound(rgb@, 2, p as int);
            lemma_triple_index(rgb.len(), p as int);
        }
        sr = sr + rgb[3 * p] as u128;
        sg = sg + rgb[3 * p + 1] as u128;
        sb = sb + rgb[3 * p + 2] as u128;
        p = p + 1;
    }
    let total = n as u128;
    sr > 150 * total && sg > 150 * total && sb < 100 * total
}

/// The standard filter of a pixel: grey or white pixels (channels within `grey_tol` of
/// each other), and with `allow_yellow` the yellow of a full population counter, keep
/// their brightest channel when it reaches `thresh`; anything else becomes 0.
pub open spec fn filter_pixel(r: u8, g: u8, b: u8, grey_tol: i16, thresh: u8, allow_yellow: bool) -> u8 {
    let mx = max3(r as int, g as int, b as int);
    let mn = min3(r as int, g as int, b as int);
    let grey = mx - mn <= grey_tol;
    let yellow = allow_yellow && r > 150 && g > 150 && abs_int(r - g) < 50 && (b as int) < mx - 15;
    if (grey || yellow) && mx >= thresh {
        mx as u8
    } else {
        0
    }
}

pub open spec fn filtered_image(rgb: Seq<u8>, grey_tol: i16, thresh: u8, allow_yellow: bool) -> Seq<u8> {
    Seq::new(rgb.len() / 3, |p: int| filter_pixel(red_of(rgb, p), green_of(rgb, p), blue_of(rgb, p), grey_tol, thresh, allow_yellow))
}

fn filter_one(r: u8, g: u8, b: u8, grey_tol: i16, thresh: u8, allow_yellow: bool) -> (v: u8)
    ensures
        v == filter_pixel(r, g, b, grey_tol, thresh, allow_yellow),
{
    let r16 = r as i16;
    let g16 = g as i16;
    let b16 = b as i16;
    let mx = if r16 >= g16 && r16 >= b16 { r16 } else if g16 >= b16 { g16 } else { b16 };
    let mn = if r16 <= g16 && r16 <= b16 { r16 } else if g16 <= b16 { g16 } else { b16 };
    let mut keep = mx - mn <= grey_tol;
    if allow_yellow && !keep {
        let rg_diff = if r16 >= g16 { r16 - g16 } else { g16 - r16 };
        if r > 150 && g > 150 && rg_diff < 50 && b16 < mx - 15 {
            keep = true;
        }
    }
    if keep && mx as u8 >= thresh {
        mx as u8
    } else {
        0
    }
}

/// The standard-mode cleanup of a UI box (see `filter_pixel`), one grey byte per pixel.
pub fn apply_base_filter(rgb: &[u8], grey_tol: i16, thresh: u8, allow_yellow: bool) -> (out: Vec<u8>)
    requires
        rgb@.len() % 3 == 0,
    ensures
        out@ == filtered_image(rgb@, grey_tol, thresh, allow_yellow),
{
    let n = rgb.len() / 3;
    let mut out: Vec<u8> = Vec::new();
    for p in 0..n
        invariant
            n == rgb@.len() / 3,
            rgb@.len() % 3 == 0,
            out@ == filtered_image(rgb@, grey_tol, thresh, allow_yellow).take(p as int),
    {
        proof {
            lemma_triple_index(rgb.len(), p as int);
        }
        let v = filter_one(rgb[3 * p], rgb[3 * p + 1], rgb[3 * p + 2], grey_tol, thresh, allow_yellow);
        out.push(v);
        assert(out@ =~= filtered_image(rgb@, grey_tol, thresh, allow_yellow).take(p + 1));
    }
    assert(filtered_image(rgb@, grey_tol, thresh, allow_yellow).take(n as int) =~= filtered_image(rgb@, grey_tol, thresh, allow_yellow));
    out
}

/// Non-zero pixels become 255, zero pixels stay 0.
pub fn binarize(gray: &[u8]) -> (out: Vec<u8>)
    ensures
        out@ == Seq::new(gray@.len(), |p: int| if gray@[p] > 0 { 255u8 } else { 0u8 }),
{
    let mut out: Vec<u8> = Vec::new();
    for p in 0..gray.len()
        invariant
            out@ == Seq::new(gray@.len(), |q: int| if gray@[q] > 0 { 255u8 } else { 0u8 }).take(p as int),
    {
        out.push(if gray[p] > 0 { 255u8 } else { 0u8 });
        assert(out@ =~= Seq::new(gray@.len(), |q: int| if gray@[q] > 0 { 255u8 } else { 0u8 }).take(p + 1));
    }
    assert(Seq::new(gray@.len(), |q: int| if gray@[q] > 0 { 255u8 } else { 0u8 }).take(gray@.len() as int)
        =~= Seq::new(gray@.len(), |q: int| if gray@[q] > 0 { 255u8 } else { 0u8 }));
    out
}


// ---------------------------------------------------------------------------------------
// Anchor: the red marker at the top of the screen whose distance from the right edge
// gives the UI scale.
// ---------------------------------------------------------------------------------------

/// An anchor pixel is strongly red.
pub open spec fn is_red(r: u8, g: u8, b: u8) -> bool {
    r >= RED_R_MIN && g <= RED_G_MAX && b <= RED_B_MAX
}

/// A colour image of `w` columns, stored row by row, three bytes per pixel.
pub open spec fn rgb_image(rgb: Seq<u8>, w: int, h: int) -> bool {
    0 <= w && 0 <= h && rgb.len() == 3 * (w * h)
}

pub open spec fn red_at(rgb: Seq<u8>, w: int, x: int, y: int) -> bool {
    let p = y * w + x;
    is_red(red_of(rgb, p), green_of(rgb, p), blue_of(rgb, p))
}

/// Red pixels of column `x` between rows `y0` and `y1` (both included).
pub open spec fn column_red_count(rgb: Seq<u8>, w: int, x: int, y0: int, y1: int) -> int
    decreases y1 - y0 + 1,
{
    if y1 < y0 {
        0
    } else {
        column_red_count(rgb, w, x, y0, y1 - 1) + if red_at(rgb, w, x, y1) { 1int } else { 0int }
    }
}

/// Red pixels of the box of columns `x0..=x1` and rows `y0..=y1`.
pub open spec fn box_red_count(rgb: Seq<u8>, w: int, x0: int, x1: int, y0: int, y1: int) -> int
    decreases x1 - x0 + 1,
{
    if x1 < x0 {
        0
    } else {
        box_red_count(rgb, w, x0, x1 - 1, y0, y1) + column_red_count(rgb, w, x1, y0, y1)
    }
}

/// `(x, y)` is an anchor of the scan area `x_min..=x_max` by `y_min..=y_max`: it is red,
/// and the box of up to ten columns ending at `x` (not left of `x_min`) and up to ten rows
/// starting at `y` (not below `y_max`) holds enough red pixels.
pub open spec fn anchor_at(rgb: Seq<u8>, w: int, x: int, y: int, x_min: int, y_max: int) -> bool {
    let bx0 = if x - 9 > x_min { x - 9 } else { x_min };
    let by1 = if y + 9 < y_max { y + 9 } else { y_max };
    red_at(rgb, w, x, y) && box_red_count(rgb, w, bx0, x, y, by1) >= RED_PIXEL_MIN_COUNT
}

pub open spec fn anchor_column(rgb: Seq<u8>, w: int, x: int, x_min: int, y_min: int, y_max: int) -> bool {
    exists|y: int| y_min <= y <= y_max && #[trigger] anchor_at(rgb, w, x, y, x_min, y_max)
}

proof fn lemma_pixel_index(w: int, h: int, x: int, y: int)
    requires
        0 <= x < w,
        0 <= y < h,
    ensures
        0 <= y * w + x < w * h,
        3 * (y * w + x) + 2 < 3 * (w * h),
{
    assert(y * w + x < w * h) by (nonlinear_arith)
        requires
            0 <= x < w,
            0 <= y < h,
    ;
    assert(0 <= y * w) by (nonlinear_arith)
        requires
            0 <= x < w,
            0 <= y < h,
    ;
}

proof fn lemma_column_count_bound(rgb: Seq<u8>, w: int, x: int, y0: int, y1: int)
    ensures
        0 <= column_red_count(rgb, w, x, y0, y1) <= if y1 < y0 { 0 } else { y1 - y0 + 1 },
    decreases y1 - y0 + 1,
{
    if y1 >= y0 {
        lemma_column_count_bound(rgb, w, x, y0, y1 - 1);
    }
}

proof fn lemma_box_count_bound(rgb: Seq<u8>, w: int, x0: int, x1: int, y0: int, y1: int)
    requires
        y0 <= y1,
    ensures
        0 <= box_red_count(rgb, w, x0, x1, y0, y1) <= if x1 < x0 { 0 } else { (x1 - x0 + 1) * (y1 - y0 + 1) },
    decreases x1 - x0 + 1,
{
    if x1 >= x0 {
        lemma_box_count_bound(rgb, w, x0, x1 - 1, y0, y1);
        lemma_column_count_bound(rgb, w, x1, y0, y1);
        assert((x1 - x0) * (y1 - y0 + 1) + (y1 - y0 + 1) == (x1 - x0 + 1) * (y1 - y0 + 1)) by (nonlinear_arith);
    }
}

fn red_pixel(rgb: &[u8], w: usize, h: usize, x: usize, y: usize) -> (red: bool)
    requires
        rgb_image(rgb@, w as int, h as int),
        x < w,
        y < h,
    ensures
        red == red_at(rgb@, w as int, x as int, y as int),
{
    let len = rgb.len();
    proof {
        lemma_pixel_index(w as int, h as int, x as int, y as int);
        assert(0 <= y * w <= y * w + x < w * h);
        assert(3 * (w * h) == rgb@.len());
        assert(y * w + x < usize::MAX);
    }
    let p = y * w + x;
    rgb[3 * p] >= RED_R_MIN && rgb[3 * p + 1] <= RED_G_MAX && rgb[3 * p + 2] <= RED_B_MAX
}

fn count_red_box(rgb: &[u8], w: usize, h: usize, x0: usize, x1: usize, y0: usize, y1: usize) -> (n: usize)
    requires
        rgb_image(rgb@, w as int, h as int),
        x0 <= x1 < w,
        y0 <= y1 < h,
        x1 - x0 < 10,
        y1 - y0 < 10,
    ensures
        n == box_red_count(rgb@, w as int, x0 as int, x1 as int, y0 as int, y1 as int),
{
    let mut n: usize = 0;
    let mut bx = x0;
    while bx <= x1
        invariant
            rgb_image(rgb@, w as int, h as int),
            x0 <= bx <= x1 + 1,
            x1 < w,
            y0 <= y1 < h,
            x1 - x0 < 10,
            y1 - y0 < 10,
            n == box_red_count(rgb@, w as int, x0 as int, bx - 1, y0 as int, y1 as int),
        decreases x1 + 1 - bx,
    {
        proof {
            lemma_box_count_bound(rgb@, w as int, x0 as int, bx - 1, y0 as int, y1 as int);
            assert((bx - x0) * (y1 - y0 + 1) <= 100) by (nonlinear_arith)
                requires
                    bx - x0 <= 10,
                    y1 - y0 + 1 <= 10,
                    0 <= bx - x0,
            ;
        }
        let mut c: usize = 0;
        let mut by = y0;
        while by <= y1
            invariant
                rgb_image(rgb@, w as int, h as int),
                y0 <= by <= y1 + 1,
                y1 < h,
                bx < w,
                y1 - y0 < 10,
                c == column_red_count(rgb@, w as int, bx as int, y0 as int, by - 1),
            decreases y1 + 1 - by,
        {
            proof {
                lemma_column_count_bound(rgb@, w as int, bx as int, y0 as int, by - 1);
            }
            if red_pixel(rgb, w, h, bx, by) {
                c = c + 1;
            }
            by = by + 1;
        }
        proof {
            lemma_column_count_bound(rgb@, w as int, bx as int, y0 as int, y1 as int);
        }
        n = n + c;
        bx = bx + 1;
    }
    n
}

fn anchor_pixel(rgb: &[u8], w: usize, h: usize, x: usize, y: usize, x_min: usize, y_max: usize) -> (a: bool)
    requires
        rgb_image(rgb@, w as int, h as int),
        x_min <= x < w,
        y <= y_max < h,
    ensures
        a == anchor_at(rgb@, w as int, x as int, y as int, x_min as int, y_max as int),
{
    if !red_pixel(rgb, w, h, x, y) {
        return false;
    }
    let len = rgb.len();
    proof {
        assert(h <= w * h) by (nonlinear_arith)
            requires
                1 <= w,
                0 <= h,
        ;
    }
    let bx0 = if x >= 9 && x - 9 > x_min { x - 9 } else { x_min };
    let by1 = if y + 9 < y_max { y + 9 } else { y_max };
    count_red_box(rgb, w, h, bx0, x, y, by1) >= RED_PIXEL_MIN_COUNT
}

/// The rightmost column of the scan area `x_min..=x_max` by `y_min..=y_max` that holds an
/// anchor (see `anchor_at`), or `None` where no column does.
pub fn rightmost_anchor(rgb: &[u8], w: usize, h: usize, x_min: usize, x_max: usize, y_min: usize, y_max: usize) -> (found: Option<usize>)
    requires
        rgb_image(rgb@, w as int, h as int),
        x_max < w,
        y_max < h,
    ensures
        found matches Some(x) ==> x_min <= x <= x_max
            && anchor_column(rgb@, w as int, x as int, x_min as int, y_min as int, y_max as int)
            && forall|x2: int| x < x2 <= x_max ==> !#[trigger] anchor_column(rgb@, w as int, x2, x_min as int, y_min as int, y_max as int),
        found is None ==> forall|x2: int| x_min <= x2 <= x_max ==> !#[trigger] anchor_column(rgb@, w as int, x2, x_min as int, y_min as int, y_max as int),
{
    if x_min > x_max || y_min > y_max {
        return None;
    }
    let mut x = x_max + 1;
    while x > x_min
        invariant
            rgb_image(rgb@, w as int, h as int),
            x_max < w,
            y_max < h,
            x_min <= x <= x_max + 1,
            y_min <= y_max,
            forall|x2: int| x <= x2 <= x_max ==> !#[trigger] anchor_column(rgb@, w as int, x2, x_min as int, y_min as int, y_max as int),
        decreases x,
    {
        x = x - 1;
        let mut y = y_min;
        while y <= y_max
            invariant
                rgb_image(rgb@, w as int, h as int),
                x_min <= x <= x_max,
                x_max < w,
                y_max < h,
                y_min <= y <= y_max + 1,
                forall|x2: int| x < x2 <= x_max ==> !#[trigger] anchor_column(rgb@, w as int, x2, x_min as int, y_min as int, y_max as int),
                forall|y2: int| y_min <= y2 < y ==> !#[trigger] anchor_at(rgb@, w as int, x as int, y2, x_min as int, y_max as int),
            decreases y_max + 1 - y,
        {
            if anchor_pixel(rgb, w, h, x, y, x_min, y_max) {
                return Some(x);
            }
            y = y + 1;
        }
    }
    None
}


// ---------------------------------------------------------------------------------------
// Splitting a wide blob: the column projection and its valleys.
// ---------------------------------------------------------------------------------------

/// Lit pixels among the first `n` rows of column `x` of a grey image `w` columns wide.
pub open spec fn column_lit(gray: Seq<u8>, w: int, x: int, n: int) -> int
    decreases n,
{
    if n <= 0 {
        0
    } else {
        column_lit(gray, w, x, n - 1) + if gray[(n - 1) * w + x] > 0 { 1int } else { 0int }
    }
}

proof fn lemma_column_lit_bound(gray: Seq<u8>, w: int, x: int, n: int)
    ensures
        0 <= column_lit(gray, w, x, n) <= if n < 0 { 0 } else { n },
    decreases n,
{
    if n > 0 {
        lemma_column_lit_bound(gray, w, x, n - 1);
    }
}

/// For each column of a grey image `w` columns by `h` rows, how many of its pixels are lit.
pub fn column_projection(gray: &[u8], w: usize, h: usize) -> (proj: Vec<u32>)
    requires
        gray@.len() == w * h,
        h <= u32::MAX,
    ensures
        proj@.len() == w,
        forall|x: int| 0 <= x < w ==> proj@[x] == column_lit(gray@, w as int, x, h as int),
{
    let len = gray.len();
    let mut proj: Vec<u32> = Vec::new();
    let mut x: usize = 0;
    while x < w
        invariant
            gray@.len() == w * h,
            len == gray@.len(),
            h <= u32::MAX,
            x <= w,
            proj@.len() == x,
            forall|x2: int| 0 <= x2 < x ==> proj@[x2] == column_lit(gray@, w as int, x2, h as int),
        decreases w - x,
    {
        let mut c: u32 = 0;
        let mut y: usize = 0;
        while y < h
            invariant
                gray@.len() == w * h,
                len == gray@.len(),
                h <= u32::MAX,
                x < w,
                y <= h,
                c == column_lit(gray@, w as int, x as int, y as int),
            decreases h - y,
        {
            proof {
                lemma_pixel_index(w as int, h as int, x as int, y as int);
                lemma_column_lit_bound(gray@, w as int, x as int, y as int);
                assert(0 <= y * w <= y * w + x < w * h);
            }
            if gray[y * w + x] > 0 {
                c = c + 1;
            }
            y = y + 1;
        }
        proj.push(c);
        x = x + 1;
    }
    proj
}

/// The deepest a valley may be: three tenths of the blob's height, and at least 2.
pub open spec fn valley_depth_limit(h: int) -> int {
    if 3 * h / 10 < 2 { 2 } else { 3 * h / 10 }
}

/// Column `cx` of the projection is a valley: at least `min_dist` from both edges, no
/// higher than its neighbours, and shallow enough.
pub open spec fn is_valley(proj: Seq<u32>, h: int, min_dist: int, cx: int) -> bool {
    let w = proj.len() as int;
    &&& w > 2 * min_dist
    &&& min_dist <= cx < w - min_dist
    &&& proj[cx] <= proj[cx - 1]
    &&& proj[cx] <= proj[cx + 1]
    &&& proj[cx] <= valley_depth_limit(h)
}

/// How many of the two parts that a cut at `cx` leaves are wide (width + 2 above the height).
pub open spec fn wide_parts(w: int, h: int, cx: int) -> int {
    (if cx + 2 > h { 1int } else { 0int }) + (if (w - cx) + 2 > h { 1int } else { 0int })
}

/// A valley whose cut leaves two narrow parts of balanced widths (the narrower at least
/// seven tenths of the wider) in a blob wider than high.
pub open spec fn is_perfect_valley(proj: Seq<u32>, h: int, min_dist: int, cx: int) -> bool {
    let w = proj.len() as int;
    let lo = if cx <= w - cx { cx } else { w - cx };
    let hi = if cx <= w - cx { w - cx } else { cx };
    &&& is_valley(proj, h, min_dist, cx)
    &&& w > h + 1
    &&& wide_parts(w, h, cx) == 0
    &&& 10 * lo >= 7 * hi
}

/// Valley `a` is a better fallback cut than valley `b`: fewer wide parts, then shallower.
pub open spec fn better_fallback(proj: Seq<u32>, h: int, a: int, b: int) -> bool {
    let w = proj.len() as int;
    ||| wide_parts(w, h, a) < wide_parts(w, h, b)
    ||| (wide_parts(w, h, a) == wide_parts(w, h, b) && proj[a] < proj[b])
}

/// The two cuts proposed for a wide blob with column projection `proj` and height `h`:
/// the perfect valley (see `is_perfect_valley`) of least depth, the leftmost among equals,
/// and the fallback valley that no other valley betters (see `better_fallback`), the
/// leftmost among equals.
pub fn find_split_valleys(proj: &[u32], h: u32, min_dist: u32) -> (cuts: (Option<u32>, Option<u32>))
    requires
        proj@.len() <= u32::MAX,
        min_dist >= 1,
    ensures
        cuts.0 matches Some(c) ==> is_perfect_valley(proj@, h as int, min_dist as int, c as int)
            && (forall|c2: int| #[trigger] is_perfect_valley(proj@, h as int, min_dist as int, c2) ==> proj@[c as int] <= proj@[c2])
            && (forall|c2: int| c2 < c && #[trigger] is_perfect_valley(proj@, h as int, min_dist as int, c2) ==> proj@[c2] > proj@[c as int]),
        cuts.0 is None ==> forall|c2: int| !#[trigger] is_perfect_valley(proj@, h as int, min_dist as int, c2),
        cuts.1 matches Some(c) ==> is_valley(proj@, h as int, min_dist as int, c as int)
            && (forall|c2: int| #[trigger] is_valley(proj@, h as int, min_dist as int, c2) ==> !better_fallback(proj@, h as int, c2, c as int))
            && (forall|c2: int| c2 < c && #[trigger] is_valley(proj@, h as int, min_dist as int, c2) ==> better_fallback(proj@, h as int, c as int, c2)),
        cuts.1 is None ==> forall|c2: int| !#[trigger] is_valley(proj@, h as int, min_dist as int, c2),
{
    let w = proj.len();
    let limit: u32 = if 3 * (h as u64) / 10 < 2 { 2 } else { (3 * (h as u64) / 10) as u32 };
    let md = min_dist as usize;
    if (w as u64) <= 2 * (min_dist as u64) {
        return (None, None);
    }
    let mut perfect: Option<u32> = None;
    let mut fallback: Option<u32> = None;
    let mut cx: usize = md;
    while cx < w - md
        invariant
            w == proj@.len(),
            w <= u32::MAX,
            md == min_dist,
            md >= 1,
            w > 2 * md,
            md <= cx <= w - md,
            limit == valley_depth_limit(h as int),
            forall|c2: int| c2 < md ==> !#[trigger] is_valley(proj@, h as int, min_dist as int, c2),
            forall|c2: int| c2 < md ==> !#[trigger] is_perfect_valley(proj@, h as int, min_dist as int, c2),
            perfect matches Some(c) ==> c < cx && is_perfect_valley(proj@, h as int, min_dist as int, c as int)
                && (forall|c2: int| c2 < cx && #[trigger] is_perfect_valley(proj@, h as int, min_dist as int, c2) ==> proj@[c as int] <= proj@[c2])
                && (forall|c2: int| c2 < c && #[trigger] is_perfect_valley(proj@, h as int, min_dist as int, c2) ==> proj@[c2] > proj@[c as int]),
            perfect is None ==> forall|c2: int| c2 < cx ==> !#[trigger] is_perfect_valley(proj@, h as int, min_dist as int, c2),
            fallback matches Some(c) ==> c < cx && is_valley(proj@, h as int, min_dist as int, c as int)
                && (forall|c2: int| c2 < cx && #[trigger] is_valley(proj@, h as int, min_dist as int, c2) ==> !better_fallback(proj@, h as int, c2, c as int))
                && (forall|c2: int| c2 < c && #[trigger] is_valley(proj@, h as int, min_dist as int, c2) ==> better_fallback(proj@, h as int, c as int, c2)),
            fallback is None ==> forall|c2: int| c2 < cx ==> !#[trigger] is_valley(proj@, h as int, min_dist as int, c2),
        decreases w - md - cx,
    {
        let val = proj[cx];
        let valley = val <= proj[cx - 1] && val <= proj[cx + 1] && val <= limit;
        if valley {
            let w_left = cx as u64;
            let w_right = (w - cx) as u64;
            let hh = h as u64;
            let wide: u32 = (if w_left + 2 > hh { 1u32 } else { 0u32 }) + (if w_right + 2 > hh { 1u32 } else { 0u32 });
            let lo = if w_left <= w_right { w_left } else { w_right };
            let hi = if w_left <= w_right { w_right } else { w_left };
            if (w as u64) > hh + 1 && wide == 0 && 10 * lo >= 7 * hi {
                assert(is_perfect_valley(proj@, h as int, min_dist as int, cx as int));
                match perfect {
                    Some(c) => {
                        if val < proj[c as usize] {
                            perfect = Some(cx as u32);
                        }
                    },
                    None => {
                        perfect = Some(cx as u32);
                    },
                }
            } else {
                assert(!is_perfect_valley(proj@, h as int, min_dist as int, cx as int));
            }
            assert(is_valley(proj@, h as int, min_dist as int, cx as int));
            match fallback {
                Some(c) => {
                    let cu = c as usize;
                    let c_wide: u32 = (if (cu as u64) + 2 > hh { 1u32 } else { 0u32 }) + (if ((w - cu) as u64) + 2 > hh { 1u32 } else { 0u32 });
                    if wide < c_wide || (wide == c_wide && val < proj[cu]) {
                        fallback = Some(cx as u32);
                    }
                },
                None => {
                    fallback = Some(cx as u32);
                },
            }
        } else {
            assert(!is_valley(proj@, h as int, min_dist as int, cx as int));
            assert(!is_perfect_valley(proj@, h as int, min_dist as int, cx as int));
        }
        cx = cx + 1;
    }
    assert forall|c2: int| #[trigger] is_valley(proj@, h as int, min_dist as int, c2) implies c2 < w - md by {}
    assert forall|c2: int| #[trigger] is_perfect_valley(proj@, h as int, min_dist as int, c2) implies c2 < w - md by {}
    (perfect, fallback)
}


// ---------------------------------------------------------------------------------------
// Digit boxes: ordering, merging, cropping, baseline.
// ---------------------------------------------------------------------------------------

/// A box of a digit: left column, top row, width and height, in pixels.
#[derive(Debug, Clone, Copy, PartialEq, Eq)]
pub struct DigitBox {
    pub x: u32,
    pub y: u32,
    pub w: u32,
    pub h: u32,
}

/// The box's right and bottom edges fit in a `u32`.
pub open spec fn box_fits(b: DigitBox) -> bool {
    b.x + b.w <= u32::MAX && b.y + b.h <= u32::MAX
}

pub open spec fn boxes_fit(s: Seq<DigitBox>) -> bool {
    forall|i: int| 0 <= i < s.len() ==> box_fits(#[trigger] s[i])
}

/// `b` inserted after every box of `s`, counted from the end, whose left edge is not
/// right of `b`'s: the step of a stable insertion sort.
pub open spec fn insert_by_x(s: Seq<DigitBox>, b: DigitBox) -> Seq<DigitBox>
    decreases s.len(),
{
    if s.len() == 0 {
        seq![b]
    } else if s.last().x <= b.x {
        s.push(b)
    } else {
        insert_by_x(s.drop_last(), b).push(s.last())
    }
}

/// The boxes sorted by left edge, boxes with equal edges kept in their order.
pub open spec fn sort_by_x(s: Seq<DigitBox>) -> Seq<DigitBox>
    decreases s.len(),
{
    if s.len() == 0 {
        s
    } else {
        insert_by_x(sort_by_x(s.drop_last()), s.last())
    }
}

proof fn lemma_insert_at(s: Seq<DigitBox>, b: DigitBox, k: int)
    requires
        0 <= k <= s.len(),
        k == 0 || s[k - 1].x <= b.x,
        forall|j: int| k <= j < s.len() ==> (#[trigger] s[j]).x > b.x,
    ensures
        insert_by_x(s, b) == s.take(k).push(b) + s.skip(k),
    decreases s.len(),
{
    if s.len() == 0 {
        assert(s.take(k).push(b) + s.skip(k) =~= seq![b]);
    } else if s.len() == k {
        assert(s.take(k).push(b) + s.skip(k) =~= s.push(b));
    } else {
        let t = s.drop_last();
        lemma_insert_at(t, b, k);
        assert(t.take(k).push(b) + t.skip(k) + seq![s.last()] =~= s.take(k).push(b) + s.skip(k));
        assert(insert_by_x(t, b).push(s.last()) =~= insert_by_x(t, b) + seq![s.last()]);
    }
}

proof fn lemma_insert_preserves(s: Seq<DigitBox>, b: DigitBox)
    ensures
        insert_by_x(s, b).len() == s.len() + 1,
        boxes_fit(s) && box_fits(b) ==> boxes_fit(insert_by_x(s, b)),
    decreases s.len(),
{
    if s.len() > 0 && s.last().x > b.x {
        lemma_insert_preserves(s.drop_last(), b);
        let r = insert_by_x(s.drop_last(), b);
        if boxes_fit(s) && box_fits(b) {
            assert(box_fits(s[s.len() - 1]));
            assert forall|i: int| 0 <= i < r.push(s.last()).len() implies box_fits(#[trigger] r.push(s.last())[i]) by {
                if i < r.len() {
                    assert(box_fits(r[i]));
                }
            }
        }
    } else if s.len() > 0 {
        if boxes_fit(s) && box_fits(b) {
            assert forall|i: int| 0 <= i < s.push(b).len() implies box_fits(#[trigger] s.push(b)[i]) by {
                if i < s.len() {
                    assert(box_fits(s[i]));
                }
            }
        }
    }
}

proof fn lemma_sort_preserves(s: Seq<DigitBox>)
    ensures
        sort_by_x(s).len() == s.len(),
        boxes_fit(s) ==> boxes_fit(sort_by_x(s)),
    decreases s.len(),
{
    if s.len() > 0 {
        lemma_sort_preserves(s.drop_last());
        lemma_insert_preserves(sort_by_x(s.drop_last()), s.last());
        if boxes_fit(s) {
            assert(box_fits(s[s.len() - 1]));
            assert forall|i: int| 0 <= i < s.drop_last().len() implies box_fits(#[trigger] s.drop_last()[i]) by {
                assert(box_fits(s[i]));
            }
        }
    }
}

/// The boxes sorted by left edge; boxes with equal left edges keep their order.
pub fn sort_boxes_by_x(boxes: &Vec<DigitBox>) -> (sorted: Vec<DigitBox>)
    ensures
        sorted@ == sort_by_x(boxes@),
{
    let mut out: Vec<DigitBox> = Vec::new();
    let mut i: usize = 0;
    while i < boxes.len()
        invariant
            i <= boxes@.len(),
            out@ == sort_by_x(boxes@.take(i as int)),
        decreases boxes@.len() - i,
    {
        let b = boxes[i];
        proof {
            lemma_sort_preserves(boxes@.take(i as int));
        }
        let mut k = out.len();
        while k > 0 && out[k - 1].x > b.x
            invariant
                k <= out@.len(),
                forall|j: int| k <= j < out@.len() ==> (#[trigger] out@[j]).x > b.x,
            decreases k,
        {
            k = k - 1;
        }
        proof {
            lemma_insert_at(out@, b, k as int);
            assert(boxes@.take(i + 1).drop_last() =~= boxes@.take(i as int));
        }
        let ghost old_out = out@;
        out.insert(k, b);
        assert(out@ =~= old_out.take(k as int).push(b) + old_out.skip(k as int));
        i = i + 1;
    }
    assert(boxes@.take(boxes@.len() as int) =~= boxes@);
    out
}

/// One step of the merge: a box that starts left of the previous box's right edge joins
/// it when the joined box stays narrow (width + 2 at most its height); otherwise it comes
/// after it.
pub open spec fn merge_step(acc: Seq<DigitBox>, db: DigitBox) -> Seq<DigitBox> {
    if acc.len() > 0 && db.x < acc.last().x + acc.last().w {
        let prev = acc.last();
        let nx = if prev.x <= db.x { prev.x } else { db.x };
        let ny = if prev.y <= db.y { prev.y } else { db.y };
        let nr = if prev.x + prev.w >= db.x + db.w { prev.x + prev.w } else { db.x + db.w };
        let nb = if prev.y + prev.h >= db.y + db.h { prev.y + prev.h } else { db.y + db.h };
        if (nr - nx) + 2 <= nb - ny {
            acc.drop_last().push(DigitBox { x: nx as u32, y: ny as u32, w: (nr - nx) as u32, h: (nb - ny) as u32 })
        } else {
            acc.push(db)
        }
    } else {
        acc.push(db)
    }
}

pub open spec fn merge_all(s: Seq<DigitBox>) -> Seq<DigitBox>
    decreases s.len(),
{
    if s.len() == 0 {
        s
    } else {
        merge_step(merge_all(s.drop_last()), s.last())
    }
}

/// The digit boxes in left-to-right order, overlapping neighbours joined (see `merge_step`).
pub fn merge_digit_boxes(boxes: &Vec<DigitBox>) -> (merged: Vec<DigitBox>)
    requires
        boxes_fit(boxes@),
    ensures
        merged@ == merge_all(sort_by_x(boxes@)),
        boxes_fit(merged@),
{
    let sorted = sort_boxes_by_x(boxes);
    proof {
        lemma_sort_preserves(boxes@);
    }
    let mut out: Vec<DigitBox> = Vec::new();
    let mut i: usize = 0;
    while i < sorted.len()
        invariant
            i <= sorted@.len(),
            boxes_fit(sorted@),
            boxes_fit(out@),
            out@ == merge_all(sorted@.take(i as int)),
        decreases sorted@.len() - i,
    {
        let db = sorted[i];
        assert(box_fits(sorted@[i as int]));
        assert(sorted@.take(i + 1).drop_last() =~= sorted@.take(i as int));
        let n = out.len();
        let mut joined = false;
        if n > 0 {
            let prev = out[n - 1];
            assert(box_fits(out@[n - 1]));
            if db.x < prev.x + prev.w {
                let nx = if prev.x <= db.x { prev.x } else { db.x };
                let ny = if prev.y <= db.y { prev.y } else { db.y };
                let nr = if prev.x + prev.w >= db.x + db.w { prev.x + prev.w } else { db.x + db.w };
                let nb = if prev.y + prev.h >= db.y + db.h { prev.y + prev.h } else { db.y + db.h };
                if (nr - nx) as u64 + 2 <= (nb - ny) as u64 {
                    let m = DigitBox { x: nx, y: ny, w: nr - nx, h: nb - ny };
                    out.set(n - 1, m);
                    joined = true;
                    proof {
                        let acc = merge_all(sorted@.take(i as int));
                        assert(out@ =~= acc.drop_last().push(m));
                        assert forall|j: int| 0 <= j < out@.len() implies box_fits(#[trigger] out@[j]) by {
                            if j < n - 1 {
                                assert(box_fits(acc[j]));
                            }
                        }
                    }
                }
            }
        }
        if !joined {
            let ghost before = out@;
            out.push(db);
            proof {
                assert forall|j: int| 0 <= j < out@.len() implies box_fits(#[trigger] out@[j]) by {
                    if j < before.len() {
                        assert(box_fits(before[j]));
                    }
                }
            }
        }
        i = i + 1;
    }
    assert(sorted@.take(sorted@.len() as int) =~= sorted@);
    out
}

/// The boxes' left edges never decrease.
pub open spec fn sorted_by_x(s: Seq<DigitBox>) -> bool {
    forall|i: int, j: int| 0 <= i <= j < s.len() ==> (#[trigger] s[i]).x <= (#[trigger] s[j]).x
}

proof fn lemma_insert_sorted(s: Seq<DigitBox>, b: DigitBox)
    requires
        sorted_by_x(s),
    ensures
        sorted_by_x(insert_by_x(s, b)),
        insert_by_x(s, b).to_multiset() == s.to_multiset().insert(b),
    decreases s.len(),
{
    broadcast use vstd::seq_lib::group_to_multiset_ensures;
    if s.len() == 0 {
        assert(seq![b] =~= Seq::<DigitBox>::empty().push(b));
    } else if s.last().x <= b.x {
    } else {
        let t = s.drop_last();
        assert(sorted_by_x(t)) by {
            assert forall|i: int, j: int| 0 <= i <= j < t.len() implies (#[trigger] t[i]).x <= (#[trigger] t[j]).x by {
                assert(t[i] == s[i] && t[j] == s[j]);
            }
        }
        lemma_insert_sorted(t, b);
        let r = insert_by_x(t, b);
        lemma_insert_preserves(t, b);
        assert(s =~= t.push(s.last()));
        // Every box of `r` is `b` or a box of `t`, so none lies right of `s.last()`.
        assert forall|i: int| 0 <= i < r.len() implies (#[trigger] r[i]).x <= s.last().x by {
            assert(r.to_multiset().count(r[i]) > 0);
            if r[i] != b {
                assert(t.to_multiset().count(r[i]) > 0);
                assert(t.contains(r[i]));
                let k = choose|k: int| 0 <= k < t.len() && t[k] == r[i];
                assert(s[k] == t[k]);
                assert(s[k].x <= s[s.len() - 1].x);
            }
        }
        assert forall|i: int, j: int| 0 <= i <= j < r.push(s.last()).len()
            implies (#[trigger] r.push(s.last())[i]).x <= (#[trigger] r.push(s.last())[j]).x by {
            if j < r.len() {
                assert(r.push(s.last())[i] == r[i] && r.push(s.last())[j] == r[j]);
            } else if i < r.len() {
                assert(r.push(s.last())[i] == r[i]);
            }
        }
        assert(r.push(s.last()).to_multiset() == r.to_multiset().insert(s.last()));
        assert(s.to_multiset() == t.to_multiset().insert(s.last()));
        assert(r.to_multiset().insert(s.last()) =~= t.to_multiset().insert(s.last()).insert(b));
    }
}

/// Sorting by left edge keeps every box, each as often as it came, and leaves the left
/// edges in order.
pub proof fn law_sort_keeps_boxes_in_order(s: Seq<DigitBox>)
    ensures
        sorted_by_x(sort_by_x(s)),
        sort_by_x(s).to_multiset() == s.to_multiset(),
    decreases s.len(),
{
    broadcast use vstd::seq_lib::group_to_multiset_ensures;
    if s.len() > 0 {
        let t = s.drop_last();
        law_sort_keeps_boxes_in_order(t);
        lemma_insert_sorted(sort_by_x(t), s.last());
        assert(s =~= t.push(s.last()));
    }
}

proof fn lemma_merge_sorted(t: Seq<DigitBox>)
    requires
        sorted_by_x(t),
        boxes_fit(t),
    ensures
        sorted_by_x(merge_all(t)),
        boxes_fit(merge_all(t)),
        t.len() > 0 ==> merge_all(t).len() > 0 && merge_all(t).last().x <= t.last().x,
        t.len() == 0 ==> merge_all(t).len() == 0,
    decreases t.len(),
{
    if t.len() > 0 {
        let u = t.drop_last();
        assert(sorted_by_x(u)) by {
            assert forall|i: int, j: int| 0 <= i <= j < u.len() implies (#[trigger] u[i]).x <= (#[trigger] u[j]).x by {
                assert(u[i] == t[i] && u[j] == t[j]);
            }
        }
        assert(boxes_fit(u)) by {
            assert forall|i: int| 0 <= i < u.len() implies box_fits(#[trigger] u[i]) by {
                assert(u[i] == t[i]);
            }
        }
        lemma_merge_sorted(u);
        let acc = merge_all(u);
        let db = t.last();
        assert(box_fits(t[t.len() - 1]));
        if u.len() > 0 {
            assert(u.last() == t[u.len() - 1]);
            assert(acc.last().x <= db.x);
        }
        let r = merge_step(acc, db);
        assert(box_fits(acc.last()) || acc.len() == 0) by {
            if acc.len() > 0 {
                assert(box_fits(acc[acc.len() - 1]));
            }
        }
        assert forall|i: int| 0 <= i < r.len() implies box_fits(#[trigger] r[i]) by {
            if i < acc.len() - 1 || (i == acc.len() - 1 && r.len() == acc.len() + 1) {
                assert(r[i] == acc[i]);
            }
        }
        assert forall|i: int, j: int| 0 <= i <= j < r.len() implies (#[trigger] r[i]).x <= (#[trigger] r[j]).x by {
            if j < acc.len() - 1 || (j == acc.len() - 1 && r.len() == acc.len() + 1) {
                assert(r[i] == acc[i] && r[j] == acc[j]);
            } else if i < acc.len() - 1 || (i == acc.len() - 1 && r.len() == acc.len() + 1) {
                assert(r[i] == acc[i]);
                assert(acc[i].x <= acc[acc.len() - 1].x);
            }
        }
    }
}

/// The digit boxes come out left to right: their left edges never decrease.
pub proof fn law_digits_left_to_right(boxes: Seq<DigitBox>)
    requires
        boxes_fit(boxes),
    ensures
        sorted_by_x(merge_all(sort_by_x(boxes))),
{
    law_sort_keeps_boxes_in_order(boxes);
    lemma_sort_preserves(boxes);
    lemma_merge_sorted(sort_by_x(boxes));
}

/// The part of a box that lies inside a `ow` by `oh` image: its corner moved inside, its
/// size cut at the image's edges; `None` where nothing is left.
pub open spec fn crop_window_spec(db: DigitBox, ow: int, oh: int) -> Option<DigitBox> {
    let xmax = if ow >= 1 { ow - 1 } else { 0 };
    let ymax = if oh >= 1 { oh - 1 } else { 0 };
    let x = if db.x <= xmax { db.x as int } else { xmax };
    let y = if db.y <= ymax { db.y as int } else { ymax };
    let wl = if ow >= x { ow - x } else { 0 };
    let hl = if oh >= y { oh - y } else { 0 };
    let w = if db.w <= wl { db.w as int } else { wl };
    let h = if db.h <= hl { db.h as int } else { hl };
    if w == 0 || h == 0 {
        None
    } else {
        Some(DigitBox { x: x as u32, y: y as u32, w: w as u32, h: h as u32 })
    }
}

pub fn crop_window(db: DigitBox, ow: u32, oh: u32) -> (c: Option<DigitBox>)
    ensures
        c == crop_window_spec(db, ow as int, oh as int),
{
    let xmax = if ow >= 1 { ow - 1 } else { 0 };
    let ymax = if oh >= 1 { oh - 1 } else { 0 };
    let x = if db.x <= xmax { db.x } else { xmax };
    let y = if db.y <= ymax { db.y } else { ymax };
    let wl = if ow >= x { ow - x } else { 0 };
    let hl = if oh >= y { oh - y } else { 0 };
    let w = if db.w <= wl { db.w } else { wl };
    let h = if db.h <= hl { db.h } else { hl };
    if w == 0 || h == 0 {
        None
    } else {
        Some(DigitBox { x, y, w, h })
    }
}

/// Lowest top edge and highest bottom edge of the boxes.
pub open spec fn top_of(s: Seq<DigitBox>) -> int
    decreases s.len(),
{
    if s.len() <= 1 {
        if s.len() == 1 { s[0].y as int } else { 0 }
    } else {
        let t = top_of(s.drop_last());
        if s.last().y < t { s.last().y as int } else { t }
    }
}

pub open spec fn bottom_of(s: Seq<DigitBox>) -> int
    decreases s.len(),
{
    if s.len() <= 1 {
        if s.len() == 1 { s[0].y + s[0].h } else { 0 }
    } else {
        let b = bottom_of(s.drop_last());
        if s.last().y + s.last().h > b { s.last().y + s.last().h } else { b }
    }
}

proof fn lemma_top_bottom(s: Seq<DigitBox>)
    requires
        s.len() > 0,
    ensures
        exists|i: int| 0 <= i < s.len() && top_of(s) == (#[trigger] s[i]).y,
        forall|i: int| 0 <= i < s.len() ==> top_of(s) <= (#[trigger] s[i]).y,
        forall|i: int| 0 <= i < s.len() ==> bottom_of(s) >= (#[trigger] s[i]).y + s[i].h,
        exists|i: int| 0 <= i < s.len() && bottom_of(s) == (#[trigger] s[i]).y + s[i].h,
    decreases s.len(),
{
    if s.len() > 1 {
        let t = s.drop_last();
        lemma_top_bottom(t);
        assert forall|i: int| 0 <= i < t.len() implies #[trigger] s[i] == t[i] by {}
        let it = choose|i: int| 0 <= i < t.len() && top_of(t) == (#[trigger] t[i]).y;
        let ib = choose|i: int| 0 <= i < t.len() && bottom_of(t) == (#[trigger] t[i]).y + t[i].h;
        assert(s[it] == t[it]);
        assert(s[ib] == t[ib]);
        assert forall|i: int| 0 <= i < s.len() implies top_of(s) <= (#[trigger] s[i]).y by {
            if i < t.len() {
                assert(s[i] == t[i]);
            }
        }
        assert forall|i: int| 0 <= i < s.len() implies bottom_of(s) >= (#[trigger] s[i]).y + s[i].h by {
            if i < t.len() {
                assert(s[i] == t[i]);
            }
        }
    } else {
        assert(s[0].y == top_of(s));
    }
}

/// The vertical span of the digit boxes and the row where it starts: `(bottom - top, top)`
/// over all boxes, `None` for no boxes.
pub fn baseline_span(boxes: &Vec<DigitBox>) -> (span: Option<(u32, u32)>)
    requires
        boxes_fit(boxes@),
    ensures
        boxes@.len() == 0 ==> span is None,
        boxes@.len() > 0 ==> span == Some(((bottom_of(boxes@) - top_of(boxes@)) as u32, top_of(boxes@) as u32)),
        boxes@.len() > 0 ==> top_of(boxes@) <= bottom_of(boxes@),
{
    if boxes.len() == 0 {
        return None;
    }
    assert(box_fits(boxes@[0]));
    let mut top = boxes[0].y;
    let mut bottom = boxes[0].y + boxes[0].h;
    let mut i: usize = 1;
    while i < boxes.len()
        invariant
            1 <= i <= boxes@.len(),
            boxes_fit(boxes@),
            top == top_of(boxes@.take(i as int)),
            bottom == bottom_of(boxes@.take(i as int)),
        decreases boxes@.len() - i,
    {
        let b = boxes[i];
        assert(box_fits(boxes@[i as int]));
        assert(boxes@.take(i + 1).drop_last() =~= boxes@.take(i as int));
        if b.y < top {
            top = b.y;
        }
        if b.y + b.h > bottom {
            bottom = b.y + b.h;
        }
        i = i + 1;
    }
    assert(boxes@.take(boxes@.len() as int) =~= boxes@);
    proof {
        lemma_top_bottom(boxes@);
        let it = choose|i: int| 0 <= i < boxes@.len() && top_of(boxes@) == (#[trigger] boxes@[i]).y;
        assert(top_of(boxes@) <= boxes@[it].y + boxes@[it].h);
    }
    Some((bottom - top, top))
}


// ---------------------------------------------------------------------------------------
// Connected components: statistics of each label of a label image.
// ---------------------------------------------------------------------------------------

/// Running statistics of one label: its extreme columns and rows, its pixel count and its
/// brightest pixel. Before any pixel the edges start at `u32::MAX` (left, top) and 0.
pub struct StatAcc {
    pub left: int,
    pub top: int,
    pub right: int,
    pub bottom: int,
    pub area: int,
    pub max_brightness: int,
}

pub open spec fn stat_init() -> StatAcc {
    StatAcc { left: u32::MAX as int, top: u32::MAX as int, right: 0, bottom: 0, area: 0, max_brightness: 0 }
}

pub open spec fn stat_add(a: StatAcc, x: int, y: int, br: int) -> StatAcc {
    StatAcc {
        left: if x < a.left { x } else { a.left },
        top: if y < a.top { y } else { a.top },
        right: if x > a.right { x } else { a.right },
        bottom: if y > a.bottom { y } else { a.bottom },
        area: a.area + 1,
        max_brightness: if br > a.max_brightness { br } else { a.max_brightness },
    }
}

/// The statistics of label `lab` over the rows before `y` and the first `x` pixels of row
/// `y` of a `w`-column label image, with brightness taken from `seg`.
pub open spec fn label_stats(labels: Seq<u32>, seg: Seq<u8>, w: int, lab: int, y: int, x: int) -> StatAcc
    decreases y, x,
{
    if y <= 0 && x <= 0 {
        stat_init()
    } else if x <= 0 {
        label_stats(labels, seg, w, lab, y - 1, w)
    } else {
        let prev = label_stats(labels, seg, w, lab, y, x - 1);
        let p = y * w + (x - 1);
        if labels[p] == lab {
            stat_add(prev, x - 1, y, seg[p] as int)
        } else {
            prev
        }
    }
}

/// Statistics of a labelled component, in pixels.
#[derive(Debug, Clone, Copy, PartialEq, Eq)]
pub struct CompStats {
    pub label: u32,
    pub left: u32,
    pub top: u32,
    pub width: u32,
    pub height: u32,
    pub area: u32,
    pub max_brightness: u8,
}

pub open spec fn stat_of_arrays(left: Seq<u32>, top: Seq<u32>, right: Seq<u32>, bot: Seq<u32>, area: Seq<u32>, max_b: Seq<u8>, lab: int) -> StatAcc {
    StatAcc {
        left: left[lab] as int,
        top: top[lab] as int,
        right: right[lab] as int,
        bottom: bot[lab] as int,
        area: area[lab] as int,
        max_brightness: max_b[lab] as int,
    }
}

pub open spec fn comp_of(a: StatAcc, lab: int) -> CompStats {
    CompStats {
        label: lab as u32,
        left: a.left as u32,
        top: a.top as u32,
        width: (a.right - a.left + 1) as u32,
        height: (a.bottom - a.top + 1) as u32,
        area: a.area as u32,
        max_brightness: a.max_brightness as u8,
    }
}

/// The components of labels `1..k` that have at least one pixel, in label order, over the
/// whole `w` by `h` label image.
pub open spec fn components_upto(labels: Seq<u32>, seg: Seq<u8>, w: int, h: int, k: int) -> Seq<CompStats>
    decreases k,
{
    if k <= 1 {
        Seq::empty()
    } else {
        let a = label_stats(labels, seg, w, k - 1, h, 0);
        let before = components_upto(labels, seg, w, h, k - 1);
        if a.area > 0 { before.push(comp_of(a, k - 1)) } else { before }
    }
}

/// The well-formedness of running statistics after `y` rows and `x` pixels.
pub open spec fn stats_sane(a: StatAcc, w: int, h: int, y: int, x: int) -> bool {
    &&& 0 <= a.area <= y * w + x
    &&& 0 <= a.max_brightness <= 255
    &&& (a.area == 0 ==> a == stat_init())
    &&& (a.area > 0 ==> 0 <= a.left <= a.right < w && 0 <= a.top <= a.bottom < h)
}

proof fn lemma_label_stats(labels: Seq<u32>, seg: Seq<u8>, w: int, h: int, lab: int, y: int, x: int)
    requires
        w >= 1,
        0 <= y < h,
        0 <= x <= w,
        labels.len() == w * h,
        seg.len() == w * h,
    ensures
        stats_sane(label_stats(labels, seg, w, lab, y, x), w, h, y, x),
    decreases y, x,
{
    if y <= 0 && x <= 0 {
    } else if x <= 0 {
        lemma_label_stats(labels, seg, w, h, lab, y - 1, w);
        assert((y - 1) * w + w == y * w + 0) by (nonlinear_arith);
    } else {
        lemma_label_stats(labels, seg, w, h, lab, y, x - 1);
        lemma_pixel_index(w, h, x - 1, y);
    }
}

proof fn lemma_stats_row_end(labels: Seq<u32>, seg: Seq<u8>, w: int, lab: int, y: int)
    requires
        w >= 1,
        y >= 0,
    ensures
        label_stats(labels, seg, w, lab, y + 1, 0) == label_stats(labels, seg, w, lab, y, w),
{
}

/// Statistics of every label `1..=max_label` of a `w` by `h` label image that has pixels,
/// in label order (see `components_upto`); `seg` gives each pixel's brightness.
pub fn compute_stats(labels: &[u32], seg: &[u8], w: usize, h: usize, max_label: u32) -> (stats: Vec<CompStats>)
    requires
        labels@.len() == w * h,
        seg@.len() == w * h,
        w * h <= u32::MAX,
        max_label < u32::MAX,
        forall|p: int| 0 <= p < labels@.len() ==> #[trigger] labels@[p] <= max_label,
    ensures
        w >= 1 && h >= 1 ==> stats@ == components_upto(labels@, seg@, w as int, h as int, max_label + 1),
        w == 0 || h == 0 ==> stats@.len() == 0,
{
    if w == 0 || h == 0 {
        return Vec::new();
    }
    let n = max_label as usize + 1;
    let mut left: Vec<u32> = Vec::new();
    let mut top: Vec<u32> = Vec::new();
    let mut right: Vec<u32> = Vec::new();
    let mut bot: Vec<u32> = Vec::new();
    let mut area: Vec<u32> = Vec::new();
    let mut max_b: Vec<u8> = Vec::new();
    let mut k: usize = 0;
    while k < n
        invariant
            k <= n,
            left@.len() == k && top@.len() == k && right@.len() == k,
            bot@.len() == k && area@.len() == k && max_b@.len() == k,
            forall|j: int| 0 <= j < k ==> left@[j] == u32::MAX && top@[j] == u32::MAX && right@[j] == 0
                && bot@[j] == 0 && area@[j] == 0 && max_b@[j] == 0,
        decreases n - k,
    {
        left.push(u32::MAX);
        top.push(u32::MAX);
        right.push(0);
        bot.push(0);
        area.push(0);
        max_b.push(0);
        k = k + 1;
    }
    let mut y: usize = 0;
    while y < h
        invariant
            labels@.len() == w * h,
            seg@.len() == w * h,
            w * h <= u32::MAX,
            w >= 1,
            y <= h,
            n == max_label + 1,
            forall|p: int| 0 <= p < labels@.len() ==> #[trigger] labels@[p] <= max_label,
            left@.len() == n && top@.len() == n && right@.len() == n,
            bot@.len() == n && area@.len() == n && max_b@.len() == n,
            forall|lab: int| 1 <= lab < n ==> #[trigger] label_stats(labels@, seg@, w as int, lab, y as int, 0)
                == stat_of_arrays(left@, top@, right@, bot@, area@, max_b@, lab),
        decreases h - y,
    {
        let mut x: usize = 0;
        while x < w
            invariant
                labels@.len() == w * h,
                seg@.len() == w * h,
                w * h <= u32::MAX,
                w >= 1,
                y < h,
                x <= w,
                n == max_label + 1,
                forall|p: int| 0 <= p < labels@.len() ==> #[trigger] labels@[p] <= max_label,
                left@.len() == n && top@.len() == n && right@.len() == n,
                bot@.len() == n && area@.len() == n && max_b@.len() == n,
                forall|lab: int| 1 <= lab < n ==> #[trigger] label_stats(labels@, seg@, w as int, lab, y as int, x as int)
                    == stat_of_arrays(left@, top@, right@, bot@, area@, max_b@, lab),
            decreases w - x,
        {
            proof {
                lemma_pixel_index(w as int, h as int, x as int, y as int);
                assert(0 <= y * w <= y * w + x < w * h);
            }
            let p = y * w + x;
            let lab = labels[p] as usize;
            let br = seg[p];
            let ghost (l0, t0, r0, b0, a0, m0) = (left@, top@, right@, bot@, area@, max_b@);
            if lab != 0 {
                proof {
                    lemma_label_stats(labels@, seg@, w as int, h as int, lab as int, y as int, x as int);
                    assert(y * w + x < w * h);
                    assert(x < w <= w * h) by (nonlinear_arith)
                        requires
                            x < w,
                            y < h,
                    ;
                    assert(y < h <= w * h) by (nonlinear_arith)
                        requires
                            x < w,
                            y < h,
                    ;
                }
                let ghost before = label_stats(labels@, seg@, w as int, lab as int, y as int, x as int);
                if (x as u32) < left[lab] {
                    left.set(lab, x as u32);
                }
                if (y as u32) < top[lab] {
                    top.set(lab, y as u32);
                }
                if (x as u32) > right[lab] {
                    right.set(lab, x as u32);
                }
                if (y as u32) > bot[lab] {
                    bot.set(lab, y as u32);
                }
                let a = area[lab];
                area.set(lab, a + 1);
                if br > max_b[lab] {
                    max_b.set(lab, br);
                }
            }
            proof {
                assert forall|l2: int| 1 <= l2 < n implies #[trigger] label_stats(labels@, seg@, w as int, l2, y as int, x + 1)
                    == stat_of_arrays(left@, top@, right@, bot@, area@, max_b@, l2) by {
                    let prev = label_stats(labels@, seg@, w as int, l2, y as int, x as int);
                    assert(prev == stat_of_arrays(l0, t0, r0, b0, a0, m0, l2));
                    assert(label_stats(labels@, seg@, w as int, l2, y as int, x + 1) == if labels@[p as int] == l2 {
                        stat_add(prev, x as int, y as int, seg@[p as int] as int)
                    } else {
                        prev
                    });
                    if l2 == lab {
                        assert(labels@[p as int] == l2);
                        assert(seg@[p as int] == br);
                        assert(left@[l2] as int == if (x as int) < l0[l2] { x as int } else { l0[l2] as int });
                        assert(top@[l2] as int == if (y as int) < t0[l2] { y as int } else { t0[l2] as int });
                        assert(right@[l2] as int == if (x as int) > r0[l2] { x as int } else { r0[l2] as int });
                        assert(bot@[l2] as int == if (y as int) > b0[l2] { y as int } else { b0[l2] as int });
                        assert(area@[l2] as int == a0[l2] + 1);
                        assert(max_b@[l2] as int == if (br as int) > m0[l2] { br as int } else { m0[l2] as int });
                    } else {
                        assert(left@[l2] == l0[l2] && top@[l2] == t0[l2] && right@[l2] == r0[l2]);
                        assert(bot@[l2] == b0[l2] && area@[l2] == a0[l2] && max_b@[l2] == m0[l2]);
                    }
                }
            }
            x = x + 1;
        }
        proof {
            assert forall|lab: int| 1 <= lab < n implies #[trigger] label_stats(labels@, seg@, w as int, lab, y + 1, 0)
                == label_stats(labels@, seg@, w as int, lab, y as int, w as int) by {
                lemma_stats_row_end(labels@, seg@, w as int, lab, y as int);
            }
        }
        y = y + 1;
    }
    let mut out: Vec<CompStats> = Vec::new();
    let mut lab: usize = 1;
    while lab < n
        invariant
            labels@.len() == w * h,
            seg@.len() == w * h,
            w >= 1,
            h >= 1,
            w * h <= u32::MAX,
            1 <= lab <= n,
            n == max_label + 1,
            left@.len() == n && top@.len() == n && right@.len() == n,
            bot@.len() == n && area@.len() == n && max_b@.len() == n,
            forall|l2: int| 1 <= l2 < n ==> #[trigger] label_stats(labels@, seg@, w as int, l2, h as int, 0)
                == stat_of_arrays(left@, top@, right@, bot@, area@, max_b@, l2),
            out@ == components_upto(labels@, seg@, w as int, h as int, lab as int),
        decreases n - lab,
    {
        let ghost a = label_stats(labels@, seg@, w as int, lab as int, h as int, 0);
        proof {
            assert(w <= w * h) by (nonlinear_arith)
                requires
                    h >= 1,
            ;
            assert(h <= w * h) by (nonlinear_arith)
                requires
                    w >= 1,
            ;
            lemma_label_stats(labels@, seg@, w as int, h as int, lab as int, h - 1, w as int);
            lemma_stats_row_end(labels@, seg@, w as int, lab as int, h - 1);
        }
        if area[lab] > 0 {
            let c = CompStats {
                label: lab as u32,
                left: left[lab],
                top: top[lab],
                width: right[lab] - left[lab] + 1,
                height: bot[lab] - top[lab] + 1,
                area: area[lab],
                max_brightness: max_b[lab],
            };
            out.push(c);
        }
        lab = lab + 1;
    }
    out
}

/// A component large and bright enough to be a digit.
pub open spec fn is_valid_component(c: CompStats, min_area: u32, req_bright: u8) -> bool {
    c.area >= min_area && c.max_brightness >= req_bright
}

/// The components large and bright enough to be digits, in their order.
pub fn valid_components(stats: &Vec<CompStats>, min_area: u32, req_bright: u8) -> (valid: Vec<CompStats>)
    ensures
        valid@ == stats@.filter(|c: CompStats| is_valid_component(c, min_area, req_bright)),
{
    let mut out: Vec<CompStats> = Vec::new();
    let mut i: usize = 0;
    while i < stats.len()
        invariant
            i <= stats@.len(),
            out@ == stats@.take(i as int).filter(|c: CompStats| is_valid_component(c, min_area, req_bright)),
        decreases stats@.len() - i,
    {
        let c = stats[i];
        proof {
            reveal(Seq::filter);
            assert(stats@.take(i + 1).drop_last() =~= stats@.take(i as int));
        }
        if c.area >= min_area && c.max_brightness >= req_bright {
            out.push(c);
        }
        i = i + 1;
    }
    assert(stats@.take(stats@.len() as int) =~= stats@);
    out
}


// ---------------------------------------------------------------------------------------
// Splitting one blob that fills its whole box: the order in which strategies are tried.
// ---------------------------------------------------------------------------------------

/// The filter settings a segmentation pass runs with.
#[derive(Debug, Clone, Copy, PartialEq, Eq)]
pub struct FilterSettings {
    pub grey_tol: i16,
    pub brightness_thresh: u8,
    pub use_eight: bool,
}

/// What to do with a blob that fills its whole box and is wider than high.
#[derive(Debug, Clone, Copy, PartialEq, Eq)]
pub enum BlobStep {
    /// Black out this column and segment again with these settings.
    SplitAt(u32, FilterSettings),
    /// Segment the same box again with these settings.
    Retry(FilterSettings),
    /// Keep the blob as one digit.
    Keep,
}

/// The standard settings a split restarts from.
pub open spec fn standard_settings() -> FilterSettings {
    FilterSettings { grey_tol: SEG_GREY_TOLERANCE, brightness_thresh: SEG_BRIGHTNESS_THRESHOLD, use_eight: true }
}

/// The strategy ladder: a perfect valley is cut at once; otherwise the brightness threshold
/// is raised by 10 up to 160, then the grey tolerance lowered by 2 down to 2, then the
/// fallback valley is cut, then 4-connectivity is tried, and finally the blob is kept.
pub open spec fn blob_step_spec(s: FilterSettings, perfect: Option<u32>, fallback: Option<u32>) -> BlobStep {
    if perfect is Some {
        BlobStep::SplitAt(perfect->0, standard_settings())
    } else if s.brightness_thresh < 160 {
        BlobStep::Retry(FilterSettings { brightness_thresh: (s.brightness_thresh + 10) as u8, ..s })
    } else if s.grey_tol > 2 {
        BlobStep::Retry(FilterSettings { grey_tol: (s.grey_tol - 2) as i16, ..s })
    } else if fallback is Some {
        BlobStep::SplitAt(fallback->0, standard_settings())
    } else if s.use_eight {
        BlobStep::Retry(FilterSettings { use_eight: false, ..s })
    } else {
        BlobStep::Keep
    }
}

pub fn blob_step(s: FilterSettings, perfect: Option<u32>, fallback: Option<u32>) -> (r: BlobStep)
    ensures
        r == blob_step_spec(s, perfect, fallback),
{
    match perfect {
        Some(v) => {
            return BlobStep::SplitAt(v, FilterSettings { grey_tol: SEG_GREY_TOLERANCE, brightness_thresh: SEG_BRIGHTNESS_THRESHOLD, use_eight: true });
        },
        None => {},
    }
    if s.brightness_thresh < 160 {
        BlobStep::Retry(FilterSettings { brightness_thresh: s.brightness_thresh + 10, ..s })
    } else if s.grey_tol > 2 {
        BlobStep::Retry(FilterSettings { grey_tol: s.grey_tol - 2, ..s })
    } else {
        match fallback {
            Some(v) => BlobStep::SplitAt(v, FilterSettings { grey_tol: SEG_GREY_TOLERANCE, brightness_thresh: SEG_BRIGHTNESS_THRESHOLD, use_eight: true }),
            None => if s.use_eight {
                BlobStep::Retry(FilterSettings { use_eight: false, ..s })
            } else {
                BlobStep::Keep
            },
        }
    }
}

/// How far a settings triple is from the end of the ladder; each retry lowers it, so the
/// retries on one box end (the splits change the box).
pub open spec fn ladder_measure(s: FilterSettings) -> int {
    let b = if s.brightness_thresh < 160 { (160 - s.brightness_thresh) as int } else { 0 };
    let g = if s.grey_tol > 2 { s.grey_tol as int - 2 } else { 0 };
    b + g + if s.use_eight { 1int } else { 0int }
}

/// Every retry of the ladder moves strictly closer to its end.
pub proof fn law_blob_retries_end(s: FilterSettings, perfect: Option<u32>, fallback: Option<u32>)
    ensures
        blob_step_spec(s, perfect, fallback) matches BlobStep::Retry(t) ==> 0 <= ladder_measure(t) < ladder_measure(s),
{
}

} // verus!
