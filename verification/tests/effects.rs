use effect_compositor::entity::{Entity, Point, Silhouette};
use effect_compositor::pixel::{Pixel, PixelBuffer};
use effect_compositor::visual_effects::VisualEffect;

fn px(r: u8, g: u8, b: u8, a: u8) -> Pixel {
    Pixel { r, g, b, a }
}

/// A 2x2 buffer with four distinct pixels.
fn sample_buffer() -> PixelBuffer {
    let mut img = PixelBuffer::new(2, 2, px(0, 0, 0, 0));
    img.put(0, 0, px(255, 200, 101, 1));
    img.put(1, 0, px(10, 20, 30, 40));
    img.put(0, 1, px(200, 100, 50, 255));
    img.put(1, 1, px(0, 128, 254, 127));
    img
}

fn buffer_pixels(img: &PixelBuffer) -> Vec<Pixel> {
    let mut v = Vec::new();
    for y in 0..img.height() {
        for x in 0..img.width() {
            v.push(img.get(x, y));
        }
    }
    v
}

#[test]
fn fade_in_at_time_zero_blacks_out_every_channel() {
    let mut img = sample_buffer();
    VisualEffect::FadeIn.apply_global_effect(&mut img, 0);
    for p in buffer_pixels(&img) {
        assert_eq!(p, px(0, 0, 0, 0));
    }
}

#[test]
fn fade_in_at_or_past_lifetime_is_identity() {
    for t in [2000, 2001, 3000, u32::MAX] {
        let mut img = sample_buffer();
        VisualEffect::FadeIn.apply_global_effect(&mut img, t);
        assert_eq!(buffer_pixels(&img), buffer_pixels(&sample_buffer()));
    }
}

#[test]
fn fade_in_midpoint_halves_channels_truncating() {
    let mut img = sample_buffer();
    VisualEffect::FadeIn.apply_global_effect(&mut img, 1000);
    assert_eq!(img.get(0, 0), px(127, 100, 50, 0));
    assert_eq!(img.get(1, 0), px(5, 10, 15, 20));
    assert_eq!(img.get(0, 1), px(100, 50, 25, 127));
    assert_eq!(img.get(1, 1), px(0, 64, 127, 63));
}

#[test]
fn fade_out_at_time_zero_is_noop() {
    let mut img = sample_buffer();
    VisualEffect::FadeOut.apply_global_effect(&mut img, 0);
    assert_eq!(buffer_pixels(&img), buffer_pixels(&sample_buffer()));
}

#[test]
fn fade_out_at_or_past_lifetime_zeroes_every_channel() {
    for t in [2000, 2500, 9999, u32::MAX] {
        let mut img = sample_buffer();
        VisualEffect::FadeOut.apply_global_effect(&mut img, t);
        for p in buffer_pixels(&img) {
            assert_eq!(p, px(0, 0, 0, 0));
        }
    }
}

#[test]
fn fade_out_quarter_way_scales_by_three_quarters() {
    let mut img = PixelBuffer::new(1, 1, px(200, 255, 10, 100));
    VisualEffect::FadeOut.apply_global_effect(&mut img, 500);
    // blend numerator 1500 of 2000: c * 1500 / 2000, truncating
    assert_eq!(img.get(0, 0), px(150, 191, 7, 75));
}

#[test]
fn fade_in_channels_non_decreasing_in_time() {
    let mut last = [0u32; 4];
    for step in 0..=20 {
        let t = step * 100;
        let mut img = PixelBuffer::new(1, 1, px(200, 55, 255, 3));
        VisualEffect::FadeIn.apply_global_effect(&mut img, t);
        let p = img.get(0, 0);
        let now = [p.r as u32, p.g as u32, p.b as u32, p.a as u32];
        for k in 0..4 {
            assert!(now[k] >= last[k]);
        }
        last = now;
    }
}

#[test]
fn fade_out_channels_non_increasing_in_time() {
    let mut last = [255u32; 4];
    for step in 0..=20 {
        let t = step * 100;
        let mut img = PixelBuffer::new(1, 1, px(200, 55, 255, 3));
        VisualEffect::FadeOut.apply_global_effect(&mut img, t);
        let p = img.get(0, 0);
        let now = [p.r as u32, p.g as u32, p.b as u32, p.a as u32];
        for k in 0..4 {
            assert!(now[k] <= last[k]);
        }
        last = now;
    }
}

#[test]
fn apply_global_effect_with_color_mask_is_noop() {
    let mut img = sample_buffer();
    let mask = VisualEffect::ColorMask { color: [200, 0, 120] };
    mask.apply_global_effect(&mut img, 1000);
    assert_eq!(buffer_pixels(&img), buffer_pixels(&sample_buffer()));
}

#[test]
fn zero_size_buffer_is_a_noop_for_every_effect() {
    for (w, h) in [(0usize, 0usize), (0, 3), (3, 0)] {
        let mut img = PixelBuffer::new(w, h, px(1, 2, 3, 4));
        let sil = Silhouette::new();
        VisualEffect::FadeIn.apply_global_effect(&mut img, 777);
        VisualEffect::FadeOut.apply_global_effect(&mut img, 777);
        VisualEffect::ColorMask { color: [5, 5, 5] }.apply(&sil, &mut img, 777);
        assert_eq!(img.width(), w);
        assert_eq!(img.height(), h);
    }
}

/// A 3x3 buffer of one color with a silhouette covering its middle column:
/// the top and bottom cells are border, the center is interior.
fn masked_scene(fill: Pixel) -> (PixelBuffer, Silhouette) {
    let img = PixelBuffer::new(3, 3, fill);
    let mut sil = Silhouette::new();
    sil.push(Point { x: 1, y: 0 }, true);
    sil.push(Point { x: 1, y: 1 }, false);
    sil.push(Point { x: 1, y: 2 }, true);
    (img, sil)
}

#[test]
fn color_mask_zero_component_is_a_sentinel() {
    // green target 0: green never moves, red and blue do
    let mask = VisualEffect::ColorMask { color: [200, 0, 120] };
    for t in [0, 1, 500, 1000, 1999, 2000, 3000, 4000] {
        let (mut img, sil) = masked_scene(px(40, 90, 60, 210));
        mask.apply(&sil, &mut img, t);
        let p = img.get(1, 0);
        assert_eq!(p.g, 90);
        assert_eq!(p.a, 210);
    }
}

#[test]
fn color_mask_reaches_target_exactly_at_lifetime() {
    let mask = VisualEffect::ColorMask { color: [200, 0, 120] };
    let (mut img, sil) = masked_scene(px(40, 90, 60, 210));
    mask.apply(&sil, &mut img, 2000);
    assert_eq!(img.get(1, 0), px(200, 90, 120, 210));
    assert_eq!(img.get(1, 2), px(200, 90, 120, 210));
}

#[test]
fn color_mask_midpoint_interpolates_halfway() {
    let mask = VisualEffect::ColorMask { color: [200, 0, 120] };
    let (mut img, sil) = masked_scene(px(40, 90, 60, 210));
    mask.apply(&sil, &mut img, 1000);
    // r: (40*2000 + 1000*(200-40)) / 2000 = 120; b: (60*2000 + 1000*60) / 2000 = 90
    assert_eq!(img.get(1, 0), px(120, 90, 90, 210));
}

#[test]
fn color_mask_moves_channels_monotonically_toward_target() {
    let mask = VisualEffect::ColorMask { color: [200, 0, 20] };
    let mut last_r = 0u32;
    let mut last_b = 255u32;
    for step in 0..=20 {
        let t = step * 100;
        // red grows 40 -> 200, blue shrinks 60 -> 20
        let (mut img, sil) = masked_scene(px(40, 90, 60, 210));
        mask.apply(&sil, &mut img, t);
        let p = img.get(1, 0);
        assert!(p.r as u32 >= last_r && p.r >= 40 && p.r <= 200);
        assert!((p.b as u32) <= last_b && p.b >= 20 && p.b <= 60);
        last_r = p.r as u32;
        last_b = p.b as u32;
    }
    assert_eq!(last_r, 200);
    assert_eq!(last_b, 20);
}

#[test]
fn color_mask_leaves_interior_and_outside_pixels_alone() {
    let mask = VisualEffect::ColorMask { color: [255, 255, 255] };
    for t in [0, 1000, 2000, 4000] {
        let fill = px(40, 90, 60, 210);
        let (mut img, sil) = masked_scene(fill);
        mask.apply(&sil, &mut img, t);
        for y in 0..3 {
            for x in 0..3 {
                if x == 1 && (y == 0 || y == 2) {
                    continue;
                }
                assert_eq!(img.get(x, y), fill);
            }
        }
    }
}

#[test]
fn color_mask_twice_is_not_once() {
    let mask = VisualEffect::ColorMask { color: [200, 0, 120] };
    let (mut img_once, sil) = masked_scene(px(40, 90, 60, 210));
    mask.apply(&sil, &mut img_once, 1000);
    let (mut img_twice, sil2) = masked_scene(px(40, 90, 60, 210));
    mask.apply(&sil2, &mut img_twice, 1000);
    mask.apply(&sil2, &mut img_twice, 1000);
    // the second call interpolates from the already-tinted value
    assert_eq!(img_once.get(1, 0).r, 120);
    assert_eq!(img_twice.get(1, 0).r, 160);
    assert_ne!(img_once.get(1, 0), img_twice.get(1, 0));
}

#[test]
fn color_mask_overshoots_past_target_beyond_lifetime() {
    // double the lifetime: the unclamped weight extrapolates to
    // 2*target - old, truncated and saturated into [0, 255]
    let cases = [
        ([30u8, 30, 30], px(10, 10, 10, 9), px(50, 50, 50, 9)),
        ([50, 50, 50], px(100, 100, 100, 9), px(0, 0, 0, 9)),
        ([200, 200, 200], px(100, 100, 100, 9), px(255, 255, 255, 9)),
    ];
    for (color, before, after) in cases {
        let mask = VisualEffect::ColorMask { color };
        let (mut img, sil) = masked_scene(before);
        mask.apply(&sil, &mut img, 4000);
        assert_eq!(img.get(1, 0), after);
    }
}

#[test]
fn apply_with_fade_matches_apply_global_effect() {
    for effect in [VisualEffect::FadeIn, VisualEffect::FadeOut] {
        let sil = Silhouette::new();
        let mut via_apply = sample_buffer();
        effect.apply(&sil, &mut via_apply, 700);
        let mut via_global = sample_buffer();
        effect.apply_global_effect(&mut via_global, 700);
        assert_eq!(buffer_pixels(&via_apply), buffer_pixels(&via_global));
    }
}

#[test]
fn silhouette_hit_box_returns_what_was_pushed() {
    let mut sil = Silhouette::new();
    sil.push(Point { x: 4, y: 7 }, true);
    sil.push(Point { x: 5, y: 7 }, false);
    let hb = sil.hit_box();
    assert_eq!(hb.len(), 2);
    assert_eq!(hb[0], (Point { x: 4, y: 7 }, true));
    assert_eq!(hb[1], (Point { x: 5, y: 7 }, false));
}
