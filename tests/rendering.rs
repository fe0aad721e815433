use zero::frame::FIXED_ONE;
use zero::{Renderer, Vec2};

const BLACK: [u8; 4] = [0, 0, 0, 255];
const WHITE: [u8; 4] = [255, 255, 255, 255];
const RED: [u8; 4] = [255, 0, 0, 255];

fn cleared(width: usize, height: usize, color: [u8; 4]) -> Renderer {
    let mut r = Renderer::new(vec![0u8; width * height * 4], width, height);
    r.clear(color);
    r
}

fn pixel(r: &Renderer, x: usize, y: usize) -> [u8; 4] {
    let i = (y * r.width + x) * 4;
    [r.frame[i], r.frame[i + 1], r.frame[i + 2], r.frame[i + 3]]
}

fn touched(r: &Renderer, background: [u8; 4]) -> usize {
    r.frame.chunks_exact(4).filter(|p| *p != &background[..]).count()
}

#[test]
fn vec2_new_keeps_coordinates() {
    let p = Vec2::new(-3, 7);
    assert_eq!(p.x, -3);
    assert_eq!(p.y, 7);
}

#[test]
fn new_keeps_buffer_and_size() {
    let r = Renderer::new(vec![9u8; 2 * 3 * 4], 2, 3);
    assert_eq!(r.width, 2);
    assert_eq!(r.height, 3);
    assert_eq!(r.frame, vec![9u8; 24]);
}

#[test]
fn put_pixel_writes_color_verbatim() {
    let mut r = cleared(4, 3, BLACK);
    r.put_pixel(2, 1, [1, 2, 3, 4]);
    assert_eq!(pixel(&r, 2, 1), [1, 2, 3, 4]);
    assert_eq!(&r.frame[(1 * 4 + 2) * 4..(1 * 4 + 2) * 4 + 4], &[1, 2, 3, 4]);
    assert_eq!(touched(&r, BLACK), 1);
}

#[test]
fn put_pixel_outside_is_noop() {
    let mut r = cleared(5, 4, [10, 20, 30, 40]);
    let before = r.frame.clone();
    r.put_pixel(-1, 0, WHITE);
    r.put_pixel(5, 0, WHITE);
    r.put_pixel(0, -1, WHITE);
    r.put_pixel(0, 4, WHITE);
    r.put_pixel(i32::MIN, i32::MAX, WHITE);
    assert_eq!(r.frame, before);
}

#[test]
fn blend_pixel_outside_is_noop() {
    let mut r = cleared(5, 4, [10, 20, 30, 40]);
    let before = r.frame.clone();
    r.blend_pixel(-1, 2, WHITE, FIXED_ONE);
    r.blend_pixel(5, 2, WHITE, FIXED_ONE);
    r.blend_pixel(2, 4, WHITE, FIXED_ONE);
    r.blend_pixel(2, -7, WHITE, FIXED_ONE);
    assert_eq!(r.frame, before);
}

#[test]
fn clear_sets_every_pixel() {
    let mut r = Renderer::new((0..6 * 5 * 4).map(|i| i as u8).collect(), 6, 5);
    r.clear([0x48, 0xb2, 0xe8, 0xff]);
    for p in r.frame.chunks_exact(4) {
        assert_eq!(p, &[0x48, 0xb2, 0xe8, 0xff]);
    }
}

#[test]
fn blend_full_alpha_gives_color() {
    let mut r = cleared(3, 3, [17, 99, 200, 3]);
    r.blend_pixel(1, 1, [250, 5, 60, 128], FIXED_ONE);
    assert_eq!(pixel(&r, 1, 1), [250, 5, 60, 128]);
}

#[test]
fn blend_zero_alpha_keeps_pixel() {
    let mut r = cleared(3, 3, [17, 99, 200, 3]);
    r.blend_pixel(1, 1, [250, 5, 60, 128], 0);
    assert_eq!(pixel(&r, 1, 1), [17, 99, 200, 3]);
}

#[test]
fn blend_half_alpha_black_and_white() {
    let mut r = cleared(2, 2, [0, 0, 0, 0]);
    r.blend_pixel(0, 0, [255, 255, 255, 255], FIXED_ONE / 2);
    assert_eq!(pixel(&r, 0, 0), [128, 128, 128, 128]);
}

#[test]
fn blend_quarter_alpha_rounds() {
    // 100 * 3/4 + 200 * 1/4 = 125; 0 * 3/4 + 255 * 1/4 = 63.75 -> 64
    let mut r = cleared(2, 2, [100, 0, 255, 255]);
    r.blend_pixel(1, 0, [200, 255, 0, 255], 64);
    assert_eq!(pixel(&r, 1, 0), [125, 64, 191, 255]);
}

#[test]
fn blend_alpha_above_one_is_clamped() {
    let mut r = cleared(2, 2, BLACK);
    r.blend_pixel(1, 1, [40, 50, 60, 70], 10 * FIXED_ONE);
    assert_eq!(pixel(&r, 1, 1), [40, 50, 60, 70]);
}

#[test]
fn edge_function_is_twice_signed_area() {
    let r = Renderer::new(vec![], 0, 0);
    let a = Vec2::new(0, 0);
    let b = Vec2::new(4, 0);
    let c = Vec2::new(0, 3);
    assert_eq!(r.edge(&a, &b, &c), -12);
    assert_eq!(r.edge(&a, &c, &b), 12);
    assert_eq!(r.edge(&a, &b, &Vec2::new(8, 0)), 0);
}

#[test]
fn zero_length_line_draws_nothing() {
    let mut r = cleared(10, 10, BLACK);
    let before = r.frame.clone();
    r.draw_line(Vec2::new(4, 4), Vec2::new(4, 4), WHITE, 5 * FIXED_ONE);
    assert_eq!(r.frame, before);
}

#[test]
fn collinear_triangle_draws_nothing() {
    let mut r = cleared(10, 10, BLACK);
    let before = r.frame.clone();
    r.draw_triangle(Vec2::new(1, 1), Vec2::new(4, 4), Vec2::new(8, 8), WHITE, 0, true);
    assert_eq!(r.frame, before);
    r.draw_triangle(Vec2::new(3, 3), Vec2::new(3, 3), Vec2::new(3, 3), WHITE, 0, true);
    assert_eq!(r.frame, before);
}

#[test]
fn triangle_fill_ignores_winding() {
    let mut cw = cleared(20, 20, BLACK);
    let mut ccw = cleared(20, 20, BLACK);
    cw.draw_triangle(Vec2::new(2, 2), Vec2::new(17, 2), Vec2::new(10, 17), RED, 0, true);
    ccw.draw_triangle(Vec2::new(2, 2), Vec2::new(10, 17), Vec2::new(17, 2), RED, 0, true);
    assert_eq!(cw.frame, ccw.frame);
    assert!(touched(&cw, BLACK) > 0);
}

#[test]
fn thicker_line_touches_more_pixels() {
    let mut thin = cleared(20, 20, BLACK);
    let mut thick = cleared(20, 20, BLACK);
    thin.draw_line(Vec2::new(2, 3), Vec2::new(15, 11), WHITE, FIXED_ONE);
    thick.draw_line(Vec2::new(2, 3), Vec2::new(15, 11), WHITE, 3 * FIXED_ONE);
    let (n_thin, n_thick) = (touched(&thin, BLACK), touched(&thick, BLACK));
    assert!(n_thin > 0);
    assert!(n_thick > n_thin);
    for i in (0..thin.frame.len()).step_by(4) {
        if thin.frame[i] > 0 {
            assert!(thick.frame[i] >= thin.frame[i]);
        }
    }
}

#[test]
fn horizontal_line_scenario() {
    let mut r = cleared(10, 10, BLACK);
    r.draw_line(Vec2::new(1, 5), Vec2::new(8, 5), WHITE, FIXED_ONE);
    // Pixel centres of rows 4 and 5 lie half a pixel from the segment.
    for x in 1..8 {
        assert_eq!(pixel(&r, x, 5), [128, 128, 128, 255]);
        assert_eq!(pixel(&r, x, 4), [128, 128, 128, 255]);
    }
    // Round cap: the centre (0.5, 5.5) lies sqrt(1/2) from (1, 5).
    assert_eq!(pixel(&r, 0, 5), [74, 74, 74, 255]);
    for y in [0usize, 1, 2, 3, 6, 7, 8, 9] {
        for x in 0..10 {
            assert_eq!(pixel(&r, x, y), BLACK);
        }
    }
}

#[test]
fn filled_triangle_scenario() {
    let mut r = cleared(20, 20, BLACK);
    r.draw_triangle(Vec2::new(2, 2), Vec2::new(17, 2), Vec2::new(10, 17), RED, 0, true);
    assert_eq!(pixel(&r, 9, 7), RED);
    assert_eq!(pixel(&r, 0, 0), BLACK);
    assert_eq!(pixel(&r, 19, 19), BLACK);
    // Just above the top edge nothing is covered; just below it, everything.
    assert_eq!(pixel(&r, 9, 1), BLACK);
    assert_eq!(pixel(&r, 9, 2), RED);
}

#[test]
fn put_pixel_scenario_full_buffer() {
    let mut r = cleared(7, 3, [1, 2, 3, 4]);
    let before = r.frame.clone();
    r.put_pixel(-1, 0, WHITE);
    r.put_pixel(7, 0, WHITE);
    assert_eq!(r.frame, before);
}

#[test]
fn outline_is_three_lines() {
    let (a, b, c) = (Vec2::new(2, 2), Vec2::new(17, 4), Vec2::new(8, 16));
    let mut outline = cleared(20, 20, BLACK);
    outline.draw_triangle(a, b, c, WHITE, 2 * FIXED_ONE, false);
    let mut lines = cleared(20, 20, BLACK);
    lines.draw_line(a, b, WHITE, 2 * FIXED_ONE);
    lines.draw_line(b, c, WHITE, 2 * FIXED_ONE);
    lines.draw_line(c, a, WHITE, 2 * FIXED_ONE);
    assert_eq!(outline.frame, lines.frame);
    assert_eq!(pixel(&outline, 8, 8), BLACK);
}

#[test]
fn line_clipped_at_buffer_edge() {
    let mut r = cleared(6, 6, BLACK);
    r.draw_line(Vec2::new(-20, 2), Vec2::new(30, 2), WHITE, 2 * FIXED_ONE);
    for x in 0..6 {
        assert_eq!(pixel(&r, x, 2), WHITE);
        assert_eq!(pixel(&r, x, 1), WHITE);
        assert_eq!(pixel(&r, x, 3), BLACK);
        assert_eq!(pixel(&r, x, 0), BLACK);
    }
}

#[test]
fn triangle_edge_pixel_partial_coverage() {
    // Ten of the sixteen samples of pixel (2, 1) satisfy x + y <= 4.
    let mut r = cleared(6, 6, BLACK);
    r.draw_triangle(Vec2::new(0, 0), Vec2::new(4, 0), Vec2::new(0, 4), WHITE, 0, true);
    assert_eq!(pixel(&r, 2, 1), [159, 159, 159, 255]);
    assert_eq!(pixel(&r, 1, 1), WHITE);
    assert_eq!(pixel(&r, 4, 4), BLACK);
}
