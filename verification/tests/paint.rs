use qmenu::color::Rgba;
use qmenu::paint::{blend_rect, fill_rect, paint_glyph, paint_solid};

const W: u32 = 5;
const H: u32 = 4;

fn canvas() -> Vec<u8> {
    (0..(W * H * 4 + 3)).map(|i| (i * 7 % 251) as u8).collect()
}

/// The picture after `f` was applied to each channel of each pixel in the rectangle.
fn expected(x: i64, y: i64, w: i64, h: i64, f: impl Fn(usize, u8) -> u8) -> Vec<u8> {
    let mut c = canvas();
    for py in 0..H as i64 {
        for px in 0..W as i64 {
            if x <= px && px < x + w && y <= py && py < y + h {
                for k in 0..4 {
                    let o = ((py * W as i64 + px) * 4) as usize + k;
                    c[o] = f(k, c[o]);
                }
            }
        }
    }
    c
}

#[test]
fn solid_paint_is_little_endian() {
    let mut c = vec![9u8; 11];
    paint_solid(&mut c, 0x01020304);
    assert_eq!(c, [4, 3, 2, 1, 4, 3, 2, 1, 9, 9, 9]);
    let mut none: Vec<u8> = vec![];
    paint_solid(&mut none, 0xffffffff);
    assert!(none.is_empty());
}

#[test]
fn filled_rectangles_are_clipped() {
    for (x, y, w, h) in [
        (0, 0, 5, 4), (1, 1, 2, 2), (-1, -1, 3, 2), (3, 2, 10, 10), (5, 0, 1, 1), (0, 4, 1, 1),
        (-3, 0, 3, 4), (0, -9, 5, 2), (2, 2, 0, 3), (0, 1, u32::MAX, 1), (i32::MIN, 0, 9, 9),
        (i32::MAX, i32::MAX, u32::MAX, u32::MAX),
    ] {
        let mut c = canvas();
        fill_rect(&mut c, W, H, x, y, w, h, 0xa1b2c3d4);
        let bytes = 0xa1b2c3d4u32.to_le_bytes();
        assert_eq!(c, expected(x as i64, y as i64, w as i64, h as i64, |k, _| bytes[k]));
    }
}

fn mix(c: u8, a: u8, d: u8) -> u8 {
    ((c as u32 * a as u32 + d as u32 * (255 - a as u32)) / 255) as u8
}

#[test]
fn blending_mixes_by_the_alpha_channel() {
    let color = Rgba { r: 200, g: 100, b: 50, a: 128 };
    for (x, y, w, h) in [(0, 0, 5, 4), (-1, 2, 3, 9), (4, -2, 7, 3), (9, 9, 2, 2), (0, 0, 0, 1)] {
        let mut c = canvas();
        blend_rect(&mut c, W, H, x, y, w, h, color);
        let want = expected(x as i64, y as i64, w as i64, h as i64, |k, d| match k {
            0 => mix(50, 128, d),
            1 => mix(100, 128, d),
            2 => mix(200, 128, d),
            _ => 255,
        });
        assert_eq!(c, want);
    }
}

#[test]
fn exact_mixture() {
    let mut c = vec![10, 20, 30, 40];
    blend_rect(&mut c, 1, 1, 0, 0, 1, 1, Rgba { r: 255, g: 0, b: 128, a: 51 });
    // (128 * 51 + 10 * 204) / 255, (0 + 20 * 204) / 255, (255 * 51 + 30 * 204) / 255
    assert_eq!(c, [33, 16, 75, 255]);
}

#[test]
fn opaque_colors_replace_and_clear_ones_do_nothing() {
    let mut c = canvas();
    blend_rect(&mut c, W, H, 0, 0, W, H, Rgba { r: 1, g: 2, b: 3, a: 255 });
    assert_eq!(c[..4], [3, 2, 1, 255]);
    assert_eq!(c[(W * H * 4 - 4) as usize..(W * H * 4) as usize], [3, 2, 1, 255]);
    let mut c = canvas();
    blend_rect(&mut c, W, H, 0, 0, W, H, Rgba { r: 1, g: 2, b: 3, a: 0 });
    assert_eq!(c, canvas());
}

#[test]
fn rectangles_beyond_the_signed_range_are_empty() {
    let mut c = canvas();
    blend_rect(&mut c, W, H, 0, 0, 0x8000_0000, 1, Rgba { r: 1, g: 2, b: 3, a: 9 });
    assert_eq!(c, canvas());
    blend_rect(&mut c, W, H, 0, 0, 1, u32::MAX, Rgba { r: 1, g: 2, b: 3, a: 9 });
    assert_eq!(c, canvas());
}

#[test]
fn drawing_beside_the_picture_changes_nothing() {
    for (x, y) in [(5, 0), (0, 4), (-2, 0), (0, -2), (i32::MAX, 0), (0, i32::MIN)] {
        let mut c = canvas();
        fill_rect(&mut c, W, H, x, y, 2, 2, 0xffffffff);
        blend_rect(&mut c, W, H, x, y, 2, 2, Rgba { r: 9, g: 9, b: 9, a: 200 });
        assert_eq!(c, canvas());
    }
}

#[test]
fn glyphs_of_the_prompt_take_its_color() {
    let ink = Rgba { r: 1, g: 2, b: 3, a: 255 };
    let (w, h) = (20u32, 60u32);
    let mut c = vec![0u8; (w * h * 4) as usize];
    paint_glyph(&mut c, w, h, 0, 23, 1, 1, ink);
    paint_glyph(&mut c, w, h, 1, 24, 1, 1, ink);
    paint_glyph(&mut c, w, h, -12, -6, 1, 1, Rgba { r: 1, g: 2, b: 3, a: 51 });
    let px = |x: u32, y: u32| {
        let o = ((y * w + x) * 4) as usize;
        [c[o], c[o + 1], c[o + 2], c[o + 3]]
    };
    assert_eq!(px(12, 29), [0xfa, 0xb4, 0x89, 0xff]);
    assert_eq!(px(13, 30), [3, 2, 1, 0xff]);
    // The coverage stays that of the glyph.
    assert_eq!(px(0, 0), [50, 36, 27, 0xff]);
    assert_eq!(px(14, 30), [0, 0, 0, 0]);
}
