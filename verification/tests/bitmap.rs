use image::imageops::FilterType;
use image::{ImageFormat, RgbaImage};
use qmenu::bitmap::{decode_raster, fit_center, fit_size, place_center, unpremultiply};

fn picture(w: u32, h: u32) -> Vec<u8> {
    (0..w * h * 4).map(|i| (i * 37 % 253) as u8).collect()
}

fn png(w: u32, h: u32, pixels: &[u8]) -> Vec<u8> {
    let img = RgbaImage::from_raw(w, h, pixels.to_vec()).unwrap();
    let mut out = std::io::Cursor::new(Vec::new());
    img.write_to(&mut out, ImageFormat::Png).unwrap();
    out.into_inner()
}

#[test]
fn pictures_are_decoded() {
    let pixels = picture(3, 2);
    let data = png(3, 2, &pixels);
    assert_ne!(data, pixels);
    assert_eq!(decode_raster(&data), Some((pixels, 3, 2)));
    assert_eq!(decode_raster(b"no picture"), None);
    assert_eq!(decode_raster(b""), None);
    assert_eq!(decode_raster(&data[..data.len() / 2]), None);
}

#[test]
fn premultiplied_pixels_become_straight() {
    let mut v = vec![10, 20, 30, 0, 10, 20, 30, 255, 10, 20, 128, 128, 100, 3, 1, 2, 9, 8, 7];
    unpremultiply(&mut v);
    assert_eq!(
        v,
        [10, 20, 30, 0, 10, 20, 30, 255, 19, 39, 255, 128, 255, 255, 127, 2, 9, 8, 7]
    );
}

#[test]
fn straightening_keeps_alpha_and_never_darkens() {
    for a in 0..=255u8 {
        for c in 0..=255u8 {
            let mut v = vec![c, c, c, a];
            unpremultiply(&mut v);
            assert_eq!(v[3], a);
            assert!(v[0] >= c);
            let want = if a == 0 { c } else { (c as u32 * 255 / a as u32).min(255) as u8 };
            assert_eq!(v[0], want);
        }
    }
}

fn hardware_fit(sw: u32, sh: u32, size: u32) -> (u32, u32) {
    let scale = (size as f32 / sw as f32).min(size as f32 / sh as f32);
    let dw = ((sw as f32 * scale).round() as u32).max(1).min(size);
    let dh = ((sh as f32 * scale).round() as u32).max(1).min(size);
    (dw, dh)
}

#[test]
fn sizes_are_those_of_the_hardware() {
    let mut sides: Vec<u32> = (0..130).collect();
    sides.extend([255, 256, 257, 333, 512, 999, 1000, 1023, 4096, 65_535, 65_537, 1_000_003]);
    sides.extend([0xff_ffff, 0x100_0001, 0x7fff_ffff, 0xffff_fffe, 0xffff_ffff]);
    for &sw in &sides {
        for &sh in &sides {
            for size in [0, 1, 2, 3, 16, 20, 22, 24, 31, 32, 48, 64, 100, 128, 511, 32_767] {
                assert_eq!(fit_size(sw, sh, size), hardware_fit(sw, sh, size), "{sw} {sh} {size}");
            }
        }
    }
}

#[test]
fn fitted_sizes() {
    assert_eq!(fit_size(48, 48, 20), (20, 20));
    assert_eq!(fit_size(64, 32, 20), (20, 10));
    assert_eq!(fit_size(32, 64, 20), (10, 20));
    assert_eq!(fit_size(3, 2, 20), (20, 13));
    assert_eq!(fit_size(1000, 1, 20), (20, 1));
}

#[test]
fn fitted_pictures_fill_the_square_and_keep_their_proportions() {
    for sw in 1..90u32 {
        for sh in 1..90u32 {
            let (dw, dh) = fit_size(sw, sh, 24);
            assert!(dw.max(dh) == 24 && dw >= 1 && dh >= 1);
            let gap = dw as i64 * sh as i64 - dh as i64 * sw as i64;
            assert!(gap.abs() <= sw.max(sh) as i64, "{sw} {sh}");
        }
    }
}

#[test]
fn pictures_are_put_in_the_centre() {
    let small = vec![1, 2, 3, 4, 5, 6, 7, 8];
    let out = place_center(&small, 2, 1, 4);
    assert_eq!(out.len(), 64);
    let mut want = vec![0u8; 64];
    // Column 1 of row 1, since half of the odd margin is rounded down.
    want[20..28].copy_from_slice(&small);
    assert_eq!(out, want);
}

#[test]
fn a_picture_of_the_right_size_is_kept() {
    let pixels = picture(6, 6);
    assert_eq!(fit_center(&pixels, 6, 6, 6), pixels);
}

#[test]
fn a_picture_that_is_too_short_leaves_nothing() {
    let pixels = picture(6, 5);
    assert_eq!(fit_center(&pixels, 6, 6, 4), vec![0u8; 64]);
}

#[test]
fn an_empty_picture_leaves_nothing() {
    assert_eq!(fit_center(&vec![], 0, 0, 3), vec![0u8; 36]);
    assert_eq!(fit_center(&vec![], 0, 7, 3), vec![0u8; 36]);
}

#[test]
fn pictures_are_resampled() {
    for (sw, sh, size) in [(12u32, 6u32, 4u32), (3, 5, 8), (7, 7, 3), (40, 1, 6)] {
        let pixels = picture(sw, sh);
        let (dw, dh) = fit_size(sw, sh, size);
        let img = RgbaImage::from_raw(sw, sh, pixels.clone()).unwrap();
        let small = image::imageops::resize(&img, dw, dh, FilterType::Lanczos3).into_raw();
        let out = fit_center(&pixels, sw, sh, size);
        assert_eq!(out, place_center(&small, dw, dh, size));
        assert_eq!(out.len(), (size * size * 4) as usize);
    }
}

#[test]
fn margins_hold_the_whole_picture() {
    // A picture that only needs to be centred comes through unchanged.
    let pixels = picture(4, 2);
    let out = fit_center(&pixels, 4, 2, 4);
    assert_eq!(out[16..48], pixels[..]);
    assert!(out[..16].iter().chain(&out[48..]).all(|b| *b == 0));
}

#[test]
fn an_unused_channel_stays_unused() {
    let mut pixels = picture(9, 5);
    for px in pixels.chunks_exact_mut(4) {
        px[1] = 0;
    }
    let out = fit_center(&pixels, 9, 5, 6);
    assert!(out.chunks_exact(4).all(|px| px[1] == 0));
    assert!(out.chunks_exact(4).any(|px| px[0] != 0));
    assert_eq!(fit_center(&vec![0; 180], 9, 5, 6), vec![0u8; 144]);
}

#[test]
fn a_plain_channel_keeps_its_value() {
    for (sw, sh, size) in [
        (64u32, 64u32, 20u32), (3, 7, 16), (1, 1, 33), (512, 512, 1), (1536, 1024, 3), (2, 900, 5),
        (5120, 16, 10), (257, 255, 31), (100, 99, 98),
    ] {
        for color in [[1u8, 127, 128, 254], [255, 3, 77, 200], [0, 0, 0, 255]] {
            let pixels: Vec<u8> =
                color.iter().copied().cycle().take((sw * sh * 4) as usize).collect();
            let (dw, dh) = fit_size(sw, sh, size);
            assert!(sw <= 512 * dw && sh <= 512 * dh);
            let plain: Vec<u8> =
                color.iter().copied().cycle().take((dw * dh * 4) as usize).collect();
            assert_eq!(
                fit_center(&pixels, sw, sh, size),
                place_center(&plain, dw, dh, size),
                "{sw} {sh} {size}"
            );
        }
    }
}

#[test]
fn plain_areas_stay_at_their_places() {
    // Four quarters of different colours: away from the borders each keeps its own.
    let quarter = |x: u32, y: u32, w: u32, h: u32| -> [u8; 4] {
        match (x < w / 2, y < h / 2) {
            (true, true) => [10, 250, 33, 255],
            (false, true) => [99, 0, 128, 7],
            (true, false) => [255, 1, 2, 200],
            (false, false) => [64, 65, 66, 67],
        }
    };
    for (sw, sh, size) in [(64u32, 64u32, 20u32), (200, 100, 40), (30, 40, 80), (3000, 3000, 24)] {
        let mut pixels = Vec::new();
        for y in 0..sh {
            for x in 0..sw {
                pixels.extend(quarter(x, y, sw, sh));
            }
        }
        let (dw, dh) = fit_size(sw, sh, size);
        let out = fit_center(&pixels, sw, sh, size);
        let (ox, oy) = ((size - dw) / 2, (size - dh) / 2);
        let bears = |i: u32, n: u32, x: u32, d: u32| -> bool {
            let gap = (2 * i as i64 + 1) * d as i64 - (2 * x as i64 + 1) * n as i64;
            gap.abs() <= 6 * n.max(d) as i64 + 4 * d as i64
        };
        let mut plain = 0;
        for y in 0..dh {
            for x in 0..dw {
                // The outermost pixels around (x, y) lie in one quarter.
                let cols: Vec<u32> = (0..sw).filter(|&i| bears(i, sw, x, dw)).collect();
                let rows: Vec<u32> = (0..sh).filter(|&j| bears(j, sh, y, dh)).collect();
                let (l, r) = (cols[0], cols[cols.len() - 1]);
                let (t, b) = (rows[0], rows[rows.len() - 1]);
                if (l < sw / 2) == (r < sw / 2) && (t < sh / 2) == (b < sh / 2) {
                    plain += 1;
                    let o = (((y + oy) * size + x + ox) * 4) as usize;
                    assert_eq!(out[o..o + 4], quarter(l, t, sw, sh), "{sw} {sh} {size} {x} {y}");
                }
            }
        }
        assert!(plain >= 16, "{sw} {sh} {size} {plain}");
    }
}

#[test]
fn a_square_without_pixels_holds_nothing() {
    assert!(fit_center(&vec![], 0x4000_0000, 0, 0).is_empty());
    assert!(fit_center(&picture(3, 2), 3, 2, 0).is_empty());
    assert!(fit_center(&vec![], 3, 2, 0).is_empty());
}

#[test]
fn values_stay_near_those_around_them() {
    // A noisy left half of dark values and a right half of bright ones, with pictures
    // that are reduced far beyond what keeps plain values to the digit.
    for (sw, sh, size) in [(40u32, 40u32, 16u32), (3, 9, 20), (60_000, 2, 2), (3, 200_000, 5)] {
        let mut pixels = Vec::new();
        for y in 0..sh {
            for x in 0..sw {
                let n = (x.wrapping_mul(31) ^ y.wrapping_mul(17)) % 40;
                let v = if x < sw / 2 { n } else { 200 + n };
                pixels.extend([v as u8, 90, (255 - v) as u8, 255]);
            }
        }
        let (dw, dh) = fit_size(sw, sh, size);
        let out = fit_center(&pixels, sw, sh, size);
        let (ox, oy) = ((size - dw) / 2, (size - dh) / 2);
        let t = 1 + (sw / dw + sh / dh) as i64 / 1024;
        let around = |n: u32, x: u32, d: u32| -> (u32, u32) {
            let reach = 6 * n.max(d) as i64 + 4 * d as i64;
            let all: Vec<u32> = (0..n)
                .filter(|&i| {
                    let gap = (2 * i as i64 + 1) * d as i64 - (2 * x as i64 + 1) * n as i64;
                    gap.abs() <= reach
                })
                .collect();
            (all[0], all[all.len() - 1])
        };
        for y in 0..dh {
            for x in 0..dw {
                let (l, r) = around(sw, x, dw);
                let (top, bottom) = around(sh, y, dh);
                for k in 0..4 {
                    let (mut lo, mut hi) = (255i64, 0i64);
                    for j in top..=bottom {
                        for i in l..=r {
                            let v = pixels[((j * sw + i) * 4) as usize + k] as i64;
                            lo = lo.min(v);
                            hi = hi.max(v);
                        }
                    }
                    let v = out[(((y + oy) * size + x + ox) * 4) as usize + k] as i64;
                    let spread = hi - lo;
                    assert!(lo - spread - t <= v && v <= hi + spread + t, "{sw} {sh} {x} {y} {k}");
                }
            }
        }
    }
}
