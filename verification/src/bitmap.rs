//! Bitmaps of straight-alpha RGBA pixels, four bytes each, row after row.

use vstd::prelude::*;

use crate::paint::{at, at_bound, at_injective, inside, pixel_at};
use crate::single::{
    divide, quotient_error, rounded, single, single_error, single_quotient, to_single,
};

verus! {

/// The pixels of the image that `image::load_from_memory` finds in `data`, as
/// straight-alpha RGBA bytes, with the width and the height; `None` where it
/// finds no image.
pub uninterp spec fn raster_pixels(data: Seq<u8>) -> Option<(Seq<u8>, u32, u32)>;

/// Calls `image::load_from_memory` and `DynamicImage::to_rgba8`. What comes of it
/// is a function of the bytes alone, as long as no decoding hooks are registered,
/// which this program never does, and holds four bytes for each pixel.
#[verifier::external_body]
fn load_rgba8(data: &[u8]) -> (r: Option<(Vec<u8>, u32, u32)>)
    ensures
        match r {
            Some((pixels, w, h)) => raster_pixels(data@) == Some((pixels@, w, h)),
            None => raster_pixels(data@) is None,
        },
        r matches Some((pixels, w, h)) ==> pixels@.len() == 4 * (h * w),
{
    let img = match image::load_from_memory(data) {
        Ok(img) => img.to_rgba8(),
        Err(_) => return None,
    };
    let (w, h) = img.dimensions();
    Some((img.into_raw(), w, h))
}

/// Whether channel `k` has the value `c` in each of the first `n` pixels.
pub open spec fn channel_is(pixels: Seq<u8>, k: int, c: u8, n: int) -> bool {
    forall|p: int| 0 <= p < n ==> #[trigger] pixels[4 * p + k] == c
}

/// Whether a picture of `sw` by `sh` pixels has any, has sides of 2^20 at most, and is
/// reduced by a factor of 512 at most to become one of `dw` by `dh`.
pub open spec fn within_reach(sw: u32, sh: u32, dw: u32, dh: u32) -> bool {
    0 < sw <= 512 * dw && 0 < sh <= 512 * dh && sw <= 0x10_0000 && sh <= 0x10_0000
}

/// Whether place `i` of `n` bears on place `x` of `d`, once `n` places are resampled
/// to `d`: their middles are no further apart than three places of the coarser grid,
/// and two of the first more.
pub open spec fn bears_on(i: int, n: u32, x: int, d: u32) -> bool {
    let coarser = if n < d {
        d
    } else {
        n
    };
    let gap = (2 * i + 1) * d - (2 * x + 1) * n;
    -(6 * coarser + 4 * d) <= gap <= 6 * coarser + 4 * d
}

/// Whether channel `k` has the value `c` in every pixel of `src` that bears on the
/// pixel in column `x` of row `y` at the size of `dw` by `dh`.
pub open spec fn plain_around(
    src: Seq<u8>,
    sw: u32,
    sh: u32,
    dw: u32,
    dh: u32,
    x: int,
    y: int,
    k: int,
    c: u8,
) -> bool {
    forall|i: int, j: int|
        0 <= i < sw && 0 <= j < sh && bears_on(i, sw, x, dw) && bears_on(j, sh, y, dh)
            ==> #[trigger] src[at(sw as int, i, j, k)] == c
}

/// Whether every pixel of `small` has the value that all the pixels of `src` around
/// it share, where they share one.
pub open spec fn keeps_plain_areas(
    src: Seq<u8>,
    sw: u32,
    sh: u32,
    small: Seq<u8>,
    dw: u32,
    dh: u32,
) -> bool {
    forall|x: int, y: int, k: int, c: u8|
        0 <= x < dw && 0 <= y < dh && 0 <= k < 4 && #[trigger] plain_around(
            src,
            sw,
            sh,
            dw,
            dh,
            x,
            y,
            k,
            c,
        ) ==> small[at(dw as int, x, y, k)] == c
}

/// Whether a picture of `sw` by `sh` pixels has any, has sides of 2^20 at most, and is
/// reduced by a factor of 2^16 at most to become one of `dw` by `dh`.
pub open spec fn within_sight(sw: u32, sh: u32, dw: u32, dh: u32) -> bool {
    0 < sw <= 0x1_0000 * dw && 0 < sh <= 0x1_0000 * dh && sw <= 0x10_0000 && sh <= 0x10_0000
}

/// How far rounding may take a resampled value: the further, the more values it is
/// made of.
pub open spec fn tolerance(sw: u32, sh: u32, dw: u32, dh: u32) -> int {
    1 + (sw as int / dw as int + sh as int / dh as int) / 1024
}

/// Whether channel `k` lies between `lo` and `hi` in every pixel of `src` that bears
/// on the pixel in column `x` of row `y` at the size of `dw` by `dh`.
pub open spec fn between_around(
    src: Seq<u8>,
    sw: u32,
    sh: u32,
    dw: u32,
    dh: u32,
    x: int,
    y: int,
    k: int,
    lo: u8,
    hi: u8,
) -> bool {
    forall|i: int, j: int|
        0 <= i < sw && 0 <= j < sh && bears_on(i, sw, x, dw) && bears_on(j, sh, y, dh) ==> lo
            <= #[trigger] src[at(sw as int, i, j, k)] <= hi
}

/// Whether every pixel of `small` lies between the values of the pixels of `src`
/// around it, or beyond them by no more than they differ, up to rounding.
pub open spec fn keeps_bounds(
    src: Seq<u8>,
    sw: u32,
    sh: u32,
    small: Seq<u8>,
    dw: u32,
    dh: u32,
) -> bool {
    let t = tolerance(sw, sh, dw, dh);
    forall|x: int, y: int, k: int, lo: u8, hi: u8|
        0 <= x < dw && 0 <= y < dh && 0 <= k < 4 && #[trigger] between_around(
            src,
            sw,
            sh,
            dw,
            dh,
            x,
            y,
            k,
            lo,
            hi,
        ) ==> lo - (hi - lo) - t <= small[at(dw as int, x, y, k)] <= hi + (hi - lo) + t
}

/// Calls `image::imageops::resize` with the Lanczos filter on the image that
/// `RgbaImage::from_raw` makes of `src`. There is no such image where `src` is too
/// short for it. The result holds four bytes for each of its pixels, an image
/// that already has the size asked for is copied, and a channel that is zero in
/// every pixel stays so. A resampled value is a sum of the values around its place
/// in the same channel, no further off than the filter reaches, with weights that
/// were divided by their sum. So where those values are all the same, it is that
/// value: up to a reduction by 512 there are so few of them that what rounding adds
/// stays below one half. Where they differ, some weights are negative, and the sum may
/// lie beyond them: in each direction the sizes of the weights add up to less than
/// 1.6, so over both it is by less than they differ. What rounding adds grows with
/// the number of values, which the reduction gives. More is left open: the weights
/// come of single-precision sines, whose last digits are not the same on every
/// machine.
#[verifier::external_body]
fn resize_rgba8(src: &Vec<u8>, sw: u32, sh: u32, dw: u32, dh: u32) -> (r: Option<Vec<u8>>)
    requires
        1 <= dw <= 0x8000,
        1 <= dh <= 0x8000,
        4 * (dh * dw) <= isize::MAX,
        16 * (dh * sw) <= isize::MAX,
    ensures
        r is Some <==> 4 * (sh * sw) <= src@.len(),
        r matches Some(v) ==> v@.len() == 4 * (dh * dw),
        r matches Some(v) ==> dw == sw && dh == sh ==> v@ == src@.take(4 * (sh * sw)),
        r matches Some(v) ==> forall|k: int|
            0 <= k < 4 && #[trigger] channel_is(src@, k, 0, sh * sw) ==> channel_is(
                v@,
                k,
                0,
                dh * dw,
            ),
        r matches Some(v) ==> within_reach(sw, sh, dw, dh) ==> keeps_plain_areas(
            src@,
            sw,
            sh,
            v@,
            dw,
            dh,
        ),
        r matches Some(v) ==> within_sight(sw, sh, dw, dh) ==> keeps_bounds(
            src@,
            sw,
            sh,
            v@,
            dw,
            dh,
        ),
{
    let img = match image::RgbaImage::from_raw(sw, sh, src.clone()) {
        Some(img) => img,
        None => return None,
    };
    let filter = image::imageops::FilterType::Lanczos3;
    Some(image::imageops::resize(&img, dw, dh, filter).into_raw())
}

/// Decodes a raster image to straight-alpha RGBA bytes at its native size, with
/// its width and height.
pub fn decode_raster(data: &[u8]) -> (r: Option<(Vec<u8>, u32, u32)>)
    ensures
        match r {
            Some((pixels, w, h)) => raster_pixels(data@) == Some((pixels@, w, h)),
            None => raster_pixels(data@) is None,
        },
        r matches Some((pixels, w, h)) ==> pixels@.len() == 4 * (h * w),
{
    load_rgba8(data)
}

/// The colour value whose product with the opacity `a` is `c`, as far as one byte
/// can hold it.
pub open spec fn straightened(c: u8, a: u8) -> u8 {
    if a == 0 || a == 255 {
        c
    } else if c * 255 / (a as int) > 255 {
        255
    } else {
        (c * 255 / (a as int)) as u8
    }
}

/// Byte `i` of a straight-alpha bitmap that is `pixels` in premultiplied form.
pub open spec fn straight_byte(pixels: Seq<u8>, i: int) -> u8 {
    if i % 4 == 3 || i >= pixels.len() / 4 * 4 {
        pixels[i]
    } else {
        straightened(pixels[i], pixels[i / 4 * 4 + 3])
    }
}

fn straighten(c: u8, a: u8) -> (r: u8)
    requires
        a != 0,
        a != 255,
    ensures
        r == straightened(c, a),
{
    let v: u32 = c as u32 * 255 / a as u32;
    if v > 255 {
        255
    } else {
        v as u8
    }
}

/// Turns a premultiplied bitmap into one of straight alpha.
pub fn unpremultiply(pixels: &mut Vec<u8>)
    ensures
        final(pixels)@.len() == old(pixels)@.len(),
        forall|i: int|
            0 <= i < old(pixels)@.len() ==> #[trigger] final(pixels)@[i] == straight_byte(
                old(pixels)@,
                i,
            ),
{
    let whole: usize = pixels.len() / 4;
    let ghost before = pixels@;
    assert(before.len() == pixels.len());
    let mut p: usize = 0;
    while p < whole
        invariant
            p <= whole == before.len() / 4,
            pixels@.len() == before.len(),
            before.len() <= usize::MAX,
            forall|i: int| 0 <= i < 4 * p ==> #[trigger] pixels@[i] == straight_byte(before, i),
            forall|i: int| 4 * p <= i < before.len() ==> #[trigger] pixels@[i] == before[i],
        decreases whole - p,
    {
        let o: usize = 4 * p;
        let a: u8 = pixels[o + 3];
        if a != 0 && a != 255 {
            let r: u8 = straighten(pixels[o], a);
            let g: u8 = straighten(pixels[o + 1], a);
            let b: u8 = straighten(pixels[o + 2], a);
            pixels[o] = r;
            pixels[o + 1] = g;
            pixels[o + 2] = b;
        }
        p += 1;
    }
}

/// How far a side of `d` pixels is from the edge when it is centred in a side of
/// `size`.
pub open spec fn margin(size: u32, d: u32) -> int {
    (size - d) / 2
}

/// Whether `out` is a square bitmap of `size` that shows the bitmap `small` of
/// `dw` by `dh` in its centre and nothing around it.
pub open spec fn centered(small: Seq<u8>, dw: u32, dh: u32, size: u32, out: Seq<u8>) -> bool {
    let ox = margin(size, dw);
    let oy = margin(size, dh);
    &&& out.len() == 4 * (size * size)
    &&& forall|px: int, py: int, k: int|
        0 <= px < size && 0 <= py < size && 0 <= k < 4 ==> #[trigger] out[at(
            size as int,
            px,
            py,
            k,
        )] == (if ox <= px < ox + dw && oy <= py < oy + dh {
            small[at(dw as int, px - ox, py - oy, k)]
        } else {
            0
        })
}

/// Whether the rows of `small` above `y`, and its row `y` up to column `x`, stand
/// in `out`.
spec fn centered_up_to(
    small: Seq<u8>,
    dw: u32,
    dh: u32,
    size: u32,
    out: Seq<u8>,
    x: int,
    y: int,
) -> bool {
    let ox = margin(size, dw);
    let oy = margin(size, dh);
    &&& out.len() == 4 * (size * size)
    &&& forall|px: int, py: int, k: int|
        0 <= px < size && 0 <= py < size && 0 <= k < 4 ==> #[trigger] out[at(
            size as int,
            px,
            py,
            k,
        )] == (if ox <= px < ox + dw && oy <= py < oy + dh && (py - oy < y || (py - oy == y && px
            - ox < x)) {
            small[at(dw as int, px - ox, py - oy, k)]
        } else {
            0
        })
}

/// Puts the bitmap `small` of `dw` by `dh` pixels in the centre of a transparent
/// square.
pub fn place_center(small: &Vec<u8>, dw: u32, dh: u32, size: u32) -> (out: Vec<u8>)
    requires
        dw <= size,
        dh <= size,
        small@.len() >= 4 * (dh * dw),
        4 * (size * size) <= u32::MAX,
    ensures
        centered(small@, dw, dh, size, out@),
{
    let len: usize = blank_len(size);
    let mut out: Vec<u8> = vec![0u8; len];
    let ox: u32 = (size - dw) / 2;
    let oy: u32 = (size - dh) / 2;
    proof {
        assert forall|px: int, py: int, k: int|
            0 <= px < size && 0 <= py < size && 0 <= k < 4 implies #[trigger] out@[at(
            size as int,
            px,
            py,
            k,
        )] == 0 by {
            at_bound(size as int, size as int, px, py, k);
        }
    }
    let mut y: u32 = 0;
    while y < dh
        invariant
            dw <= size,
            dh <= size,
            y <= dh,
            small@.len() >= 4 * (dh * dw),
            4 * (size * size) <= u32::MAX,
            ox == (size - dw) / 2,
            oy == (size - dh) / 2,
            centered_up_to(small@, dw, dh, size, out@, 0, y as int),
        decreases dh - y,
    {
        let mut x: u32 = 0;
        while x < dw
            invariant
                dw <= size,
                dh <= size,
                x <= dw,
                y < dh,
                small@.len() >= 4 * (dh * dw),
                4 * (size * size) <= u32::MAX,
                ox == (size - dw) / 2,
                oy == (size - dh) / 2,
                centered_up_to(small@, dw, dh, size, out@, x as int, y as int),
            decreases dw - x,
        {
            proof {
                at_bound(dw as int, dh as int, x as int, y as int, 3);
                at_bound(size as int, size as int, x + ox, y + oy, 3);
            }
            let ghost now = out@;
            assert(small@.len() == small.len());
            assert(out@.len() == out.len());
            let s: usize = (y as usize * dw as usize + x as usize) * 4;
            let d: usize = ((y + oy) as usize * size as usize + (x + ox) as usize) * 4;
            out[d] = small[s];
            out[d + 1] = small[s + 1];
            out[d + 2] = small[s + 2];
            out[d + 3] = small[s + 3];
            assert forall|px: int, py: int, k: int|
                0 <= px < size && 0 <= py < size && 0 <= k < 4 implies #[trigger] out@[at(
                size as int,
                px,
                py,
                k,
            )] == (if ox <= px < ox + dw && oy <= py < oy + dh && (py - oy < y || (py - oy == y
                && px - ox < x + 1)) {
                small@[at(dw as int, px - ox, py - oy, k)]
            } else {
                0
            }) by {
                let j = at(size as int, px, py, k);
                at_bound(size as int, size as int, px, py, k);
                assert(now[j] == now[at(size as int, px, py, k)]);
                if d <= j < d + 4 {
                    at_injective(size as int, px, py, k, x + ox, y + oy, j - d);
                }
            }
            x += 1;
        }
        y += 1;
    }
    out
}

/// The number of bytes in a square bitmap.
fn blank_len(size: u32) -> (n: usize)
    requires
        4 * (size * size) <= u32::MAX,
    ensures
        n == 4 * (size * size),
{
    assert(0 <= size * size) by (nonlinear_arith);
    size as usize * size as usize * 4
}

/// How long a side of `n` pixels is at the scale `q / s`: computed in single
/// precision, at least one pixel and at most `size`.
pub open spec fn scaled_side(n: u32, scale: (int, int), size: u32) -> int {
    let len = rounded(single(single(n as int) * scale.0), scale.1);
    if len < 1 {
        1
    } else if len > size {
        size as int
    } else {
        len
    }
}

/// The factor by which a picture of `sw` by `sh` pixels just fits into a square of
/// `size`, in single precision. A side of no length sets no limit.
pub open spec fn fitting_scale(sw: u32, sh: u32, size: u32) -> (int, int) {
    let across = single_quotient(size as int, single(sw as int));
    let down = single_quotient(size as int, single(sh as int));
    if sh == 0 {
        across
    } else if sw == 0 {
        down
    } else if across.0 * down.1 <= down.0 * across.1 {
        across
    } else {
        down
    }
}

/// The size of a picture of `sw` by `sh` pixels once it is scaled to fit into a
/// square of `size`, with its proportions kept.
pub open spec fn fitted(sw: u32, sh: u32, size: u32) -> (int, int) {
    if size == 0 {
        (0, 0)
    } else if sw == 0 && sh == 0 {
        (1, 1)
    } else {
        let scale = fitting_scale(sw, sh, size);
        (scaled_side(sw, scale, size), scaled_side(sh, scale, size))
    }
}

fn scale_side(n: u32, scale: (u64, u64), size: u32) -> (r: u32)
    requires
        1 <= size,
        scale.0 <= 0x100_0000,
        1 <= scale.1 < 0x200_0000_0000_0000,
    ensures
        r == scaled_side(n, (scale.0 as int, scale.1 as int), size),
        1 <= r <= size,
{
    let side: u64 = to_single(n as u64);
    assert(side * scale.0 <= 0x2_0000_0000 * 0x100_0000) by (nonlinear_arith)
        requires
            side <= 0x2_0000_0000,
            scale.0 <= 0x100_0000,
    ;
    let product: u64 = to_single(side * scale.0);
    let len: u64 = (2 * product + scale.1) / (2 * scale.1);
    if len < 1 {
        1
    } else if len > size as u64 {
        size
    } else {
        len as u32
    }
}

/// The size of a picture of `sw` by `sh` pixels once it is scaled to fit into a
/// square of `size`.
pub fn fit_size(sw: u32, sh: u32, size: u32) -> (r: (u32, u32))
    requires
        size < 0x100_0000,
    ensures
        (r.0 as int, r.1 as int) == fitted(sw, sh, size),
        r.0 <= size,
        r.1 <= size,
        size >= 1 ==> r.0 >= 1 && r.1 >= 1,
{
    if size == 0 {
        return (0, 0);
    }
    if sw == 0 && sh == 0 {
        return (1, 1);
    }
    let w: u64 = to_single(sw as u64);
    let h: u64 = to_single(sh as u64);
    let scale = if sh == 0 {
        divide(size as u64, w)
    } else if sw == 0 {
        divide(size as u64, h)
    } else {
        let across = divide(size as u64, w);
        let down = divide(size as u64, h);
        assert(across.0 * down.1 <= 0x100_0000 * 0x200_0000_0000_0000) by (nonlinear_arith)
            requires
                across.0 <= 0x100_0000,
                down.1 <= 0x200_0000_0000_0000,
        ;
        assert(down.0 * across.1 <= 0x100_0000 * 0x200_0000_0000_0000) by (nonlinear_arith)
            requires
                down.0 <= 0x100_0000,
                across.1 <= 0x200_0000_0000_0000,
        ;
        if across.0 as u128 * down.1 as u128 <= down.0 as u128 * across.1 as u128 {
            across
        } else {
            down
        }
    };
    (scale_side(sw, scale, size), scale_side(sh, scale, size))
}

/// What is known of a bitmap `small` that shows the bitmap `src` at the size of
/// `dw` by `dh`: it has that size, if that is the size of `src` it is the same, a
/// channel that `src` does not use is not used, what is plain stays plain at its
/// place, and what is not stays near its values, unless the picture is reduced too
/// much.
pub open spec fn scaled(
    src: Seq<u8>,
    sw: u32,
    sh: u32,
    small: Seq<u8>,
    dw: u32,
    dh: u32,
) -> bool {
    &&& small.len() == 4 * (dh * dw)
    &&& dw == sw && dh == sh ==> small == src.take(4 * (sh * sw))
    &&& forall|k: int|
        0 <= k < 4 && #[trigger] channel_is(src, k, 0, sh * sw) ==> channel_is(
            small,
            k,
            0,
            dh * dw,
        )
    &&& within_reach(sw, sh, dw, dh) ==> keeps_plain_areas(src, sw, sh, small, dw, dh)
    &&& within_sight(sw, sh, dw, dh) ==> keeps_bounds(src, sw, sh, small, dw, dh)
}

/// Scales a bitmap to fit a square of `size`, with its proportions kept, and puts
/// it in the centre. One that has the size of the square is returned as it is, and
/// one that is too short for its own size leaves the square transparent.
pub fn fit_center(src: &Vec<u8>, sw: u32, sh: u32, size: u32) -> (out: Vec<u8>)
    requires
        !(sw == size && sh == size) ==> {
            &&& 4 * (size * size) <= u32::MAX
            &&& 4 * (size * size) <= isize::MAX
            &&& 16 * (fitted(sw, sh, size).1 * sw) <= isize::MAX
        },
    ensures
        sw == size && sh == size ==> out@ == src@,
        !(sw == size && sh == size) && src@.len() < 4 * (sh * sw) ==> out@ == Seq::new(
            (4 * (size * size)) as nat,
            |i: int| 0u8,
        ),
        !(sw == size && sh == size) && src@.len() >= 4 * (sh * sw) ==> fits_in_center(
            src@,
            sw,
            sh,
            size,
            out@,
        ),
{
    if sw == size && sh == size {
        return vstd::slice::slice_to_vec(src.as_slice());
    }
    if size == 0 {
        let out: Vec<u8> = Vec::new();
        assert(fitted(sw, sh, size).0 as u32 == 0 && fitted(sw, sh, size).1 as u32 == 0);
        assert(scaled(src@, sw, sh, Seq::empty(), 0, 0));
        assert(centered(Seq::empty(), 0, 0, size, out@));
        return out;
    }
    assert(size <= 0x8000) by (nonlinear_arith)
        requires
            4 * (size * size) <= u32::MAX,
    ;
    let (dw, dh) = fit_size(sw, sh, size);
    assert(dh * dw <= size * size) by (nonlinear_arith)
        requires
            0 <= dw <= size,
            0 <= dh <= size,
    ;
    match resize_rgba8(src, sw, sh, dw, dh) {
        Some(small) => {
            let out = place_center(&small, dw, dh, size);
            assert(scaled(src@, sw, sh, small@, dw, dh));
            assert(centered(small@, dw, dh, size, out@));
            assert((dw as int, dh as int) == fitted(sw, sh, size));
            assert(fitted(sw, sh, size).0 as u32 == dw && fitted(sw, sh, size).1 as u32 == dh);
            out
        },
        None => {
            let len: usize = blank_len(size);
            let out: Vec<u8> = vec![0u8; len];
            assert(out@ == Seq::new((4 * (size * size)) as nat, |i: int| 0u8));
            out
        },
    }
}

/// Whether `out` is a square of `size` that shows the bitmap `src` in its centre,
/// scaled to fit.
pub open spec fn fits_in_center(
    src: Seq<u8>,
    sw: u32,
    sh: u32,
    size: u32,
    out: Seq<u8>,
) -> bool {
    let dw = fitted(sw, sh, size).0 as u32;
    let dh = fitted(sw, sh, size).1 as u32;
    exists|small: Seq<u8>|
        scaled(src, sw, sh, small, dw, dh) && #[trigger] centered(small, dw, dh, size, out)
}

/// The side that decides the scale becomes as long as the square.
proof fn deciding_side_fills(n: u32, size: u32)
    requires
        1 <= n,
        1 <= size <= 0x8000,
    ensures
        scaled_side(n, single_quotient(size as int, single(n as int)), size) == size,
{
    let w = single(n as int);
    single_error(n as int);
    assert(w >= 1) by {
        assert(w > 0);
    }
    quotient_error(size as int, w);
    let (q, s) = single_quotient(size as int, w);
    let z = size * s;
    let p = w * q;
    assert(q * w == p) by (nonlinear_arith)
        requires
            p == w * q,
    ;
    assert(p >= 0) by (nonlinear_arith)
        requires
            p == w * q,
            w >= 1,
            q >= 0,
    ;
    single_error(p);
    let x = single(p);
    assert(0 <= z <= 0x8000 * s) by (nonlinear_arith)
        requires
            z == size * s,
            1 <= size <= 0x8000,
            s >= 1,
    ;
    assert((2 * x + s) / (2 * s) == size) by (nonlinear_arith)
        requires
            2 * (z - x) <= s,
            2 * (x - z) < s,
            z == size * s,
            s >= 1,
    ;
}

/// A fitted picture fills the square in at least one direction and stays within it
/// in both.
pub proof fn fitted_picture_fills_square(sw: u32, sh: u32, size: u32)
    requires
        1 <= sw,
        1 <= sh,
        1 <= size <= 0x8000,
    ensures
        fitted(sw, sh, size).0 == size || fitted(sw, sh, size).1 == size,
        1 <= fitted(sw, sh, size).0 <= size,
        1 <= fitted(sw, sh, size).1 <= size,
{
    deciding_side_fills(sw, size);
    deciding_side_fills(sh, size);
}

/// Where one side decides the scale, it is the longer one, up to the precision of
/// the computation.
proof fn deciding_side_is_longer(w: int, h: int, size: int)
    requires
        1 <= w,
        1 <= h,
        1 <= size < 0x100_0000,
        ({
            let across = single_quotient(size, w);
            let down = single_quotient(size, h);
            across.0 * down.1 <= down.0 * across.1
        }),
    ensures
        0xff_ffff * h <= 0x100_0001 * w,
{
    quotient_error(size, w);
    quotient_error(size, h);
    let (q, s) = single_quotient(size, w);
    let (q2, s2) = single_quotient(size, h);
    let z = size * s;
    let z2 = size * s2;
    let a = q * w;
    let b = q2 * h;
    assert(0x100_0000 * a >= 0xff_ffff * z);
    assert(0x100_0000 * b <= 0x100_0001 * z2);
    let u = h * s2;
    let v = w * s;
    assert(u >= 1 && v >= 1) by (nonlinear_arith)
        requires
            u == h * s2,
            v == w * s,
            h >= 1,
            s2 >= 1,
            w >= 1,
            s >= 1,
    ;
    assert(a * u <= b * v) by (nonlinear_arith)
        requires
            a == q * w,
            b == q2 * h,
            u == h * s2,
            v == w * s,
            q * s2 <= q2 * s,
            w >= 1,
            h >= 1,
    {
        let k = w * h;
        assert(k >= 1);
        assert((q * w) * (h * s2) == (q * s2) * k);
        assert((q2 * h) * (w * s) == (q2 * s) * k);
        assert((q * s2) * k <= (q2 * s) * k);
    }
    assert(0xff_ffff * (z * u) <= 0x100_0000 * (a * u)) by (nonlinear_arith)
        requires
            0x100_0000 * a >= 0xff_ffff * z,
            u >= 1,
    ;
    assert(0x100_0000 * (b * v) <= 0x100_0001 * (z2 * v)) by (nonlinear_arith)
        requires
            0x100_0000 * b <= 0x100_0001 * z2,
            v >= 1,
    ;
    let k = size * s * s2;
    assert(k >= 1 && z * u == k * h && z2 * v == k * w) by (nonlinear_arith)
        requires
            k == size * s * s2,
            z == size * s,
            u == h * s2,
            z2 == size * s2,
            v == w * s,
            size >= 1,
            s >= 1,
            s2 >= 1,
    ;
    assert(0xff_ffff * h <= 0x100_0001 * w) by (nonlinear_arith)
        requires
            0xff_ffff * (k * h) <= 0x100_0001 * (k * w),
            k >= 1,
    ;
}

/// The side that does not decide the scale is as long as the proportions ask for,
/// to within a pixel.
proof fn other_side_in_proportion(n: u32, m: u32, size: u32)
    requires
        1 <= n,
        1 <= m,
        1 <= size <= 0x8000,
        ({
            let own = single_quotient(size as int, single(n as int));
            let other = single_quotient(size as int, single(m as int));
            own.0 * other.1 <= other.0 * own.1
        }),
    ensures
        ({
            let w = single(n as int);
            let h = single(m as int);
            let r = scaled_side(m, single_quotient(size as int, w), size);
            -w <= r * w - size * h <= w
        }),
{
    let w = single(n as int);
    let h = single(m as int);
    single_error(n as int);
    single_error(m as int);
    deciding_side_is_longer(w, h, size as int);
    quotient_error(size as int, w);
    let (q, s) = single_quotient(size as int, w);
    let p = h * q;
    assert(0 <= p <= h * 0x100_0000) by (nonlinear_arith)
        requires
            p == h * q,
            h >= 1,
            0 <= q <= 0x100_0000,
    ;
    single_error(p);
    let x = single(p);
    assert(-h <= x - p <= h);
    assert(256 * w <= s) by (nonlinear_arith)
        requires
            w * 0x100_0000 <= 2 * (size * s),
            1 <= size <= 0x8000,
            s >= 1,
    ;
    let len = rounded(x, s);
    vstd::arithmetic::div_mod::lemma_fundamental_div_mod(2 * x + s, 2 * s);
    vstd::arithmetic::div_mod::lemma_mod_bound(2 * x + s, 2 * s);
    let ls = len * s;
    assert((2 * s) * len == 2 * ls) by (nonlinear_arith)
        requires
            ls == len * s,
    ;
    assert(-s <= 2 * (ls - x) <= s);
    assert(-(s + 2 * h) <= 2 * (ls - p) <= s + 2 * h);
    let pw = p * w;
    let sh = size * s * h;
    assert(-(w * h) <= 2 * (pw - sh) <= w * h) by (nonlinear_arith)
        requires
            pw == p * w,
            sh == size * s * h,
            p == h * q,
            -w <= 2 * (q * w - size * s) <= w,
            h >= 1,
    ;
    let lw = len * w;
    let gap = lw - size * h;
    assert(gap * s == ls * w - sh) by (nonlinear_arith)
        requires
            gap == lw - size * h,
            lw == len * w,
            ls == len * s,
            sh == size * s * h,
    ;
    assert(-(s + 2 * h) * w <= 2 * (ls * w - pw) <= (s + 2 * h) * w) by (nonlinear_arith)
        requires
            pw == p * w,
            -(s + 2 * h) <= 2 * (ls - p) <= s + 2 * h,
            w >= 1,
    ;
    assert(-(s + 3 * h) * w <= 2 * (gap * s) <= (s + 3 * h) * w) by (nonlinear_arith)
        requires
            -(s + 2 * h) * w <= 2 * (ls * w - pw) <= (s + 2 * h) * w,
            -(w * h) <= 2 * (pw - sh) <= w * h,
            gap * s == ls * w - sh,
    ;
    assert(-w <= gap <= w) by (nonlinear_arith)
        requires
            -(s + 3 * h) * w <= 2 * (gap * s) <= (s + 3 * h) * w,
            3 * h <= s,
            s >= 1,
            w >= 1,
    ;
    let product = size * h;
    assert(product >= 0) by (nonlinear_arith)
        requires
            product == size * h,
            h >= 1,
    ;
    if len < 1 {
        assert(lw <= 0) by (nonlinear_arith)
            requires
                lw == len * w,
                len < 1,
                w >= 1,
        ;
    } else if len > size {
        assert(-w <= size * w - product <= w) by (nonlinear_arith)
            requires
                product == size * h,
                len * w - product <= w,
                len >= size + 1,
                0xff_ffff * h <= 0x100_0001 * w,
                1 <= size <= 0x8000,
                w >= 1,
        ;
    }
}

/// A fitted picture keeps its proportions: one side fills the square, and the other
/// is as long as the proportions ask for, to within a pixel. The sides of the
/// picture count in single precision, which is exact up to 2^24 pixels.
pub proof fn fitted_picture_keeps_proportions(sw: u32, sh: u32, size: u32)
    requires
        1 <= sw,
        1 <= sh,
        1 <= size <= 0x8000,
    ensures
        ({
            let (dw, dh) = fitted(sw, sh, size);
            let w = single(sw as int);
            let h = single(sh as int);
            ||| dw == size && -w <= dh * w - size * h <= w
            ||| dh == size && -h <= dw * h - size * w <= h
        }),
{
    deciding_side_fills(sw, size);
    deciding_side_fills(sh, size);
    let across = single_quotient(size as int, single(sw as int));
    let down = single_quotient(size as int, single(sh as int));
    if across.0 * down.1 <= down.0 * across.1 {
        other_side_in_proportion(sw, sh, size);
    } else {
        assert(down.0 * across.1 <= across.0 * down.1);
        other_side_in_proportion(sh, sw, size);
    }
}

/// A centred bitmap has the same margin on both sides, up to one pixel.
pub proof fn margins_are_even(d: u32, size: u32)
    requires
        d <= size,
    ensures
        ({
            let after = size - d - margin(size, d);
            margin(size, d) <= after <= margin(size, d) + 1
        }),
{
}

/// The square that a picture is fitted into shows its plain areas at their places:
/// where a channel has one value all around, it has that value.
pub proof fn plain_area_stays_plain(
    src: Seq<u8>,
    sw: u32,
    sh: u32,
    size: u32,
    out: Seq<u8>,
    x: int,
    y: int,
    k: int,
    c: u8,
)
    requires
        fits_in_center(src, sw, sh, size, out),
        0 <= k < 4,
        ({
            let dw = fitted(sw, sh, size).0 as u32;
            let dh = fitted(sw, sh, size).1 as u32;
            &&& within_reach(sw, sh, dw, dh)
            &&& 0 <= x < dw
            &&& 0 <= y < dh
            &&& plain_around(src, sw, sh, dw, dh, x, y, k, c)
        }),
    ensures
        ({
            let dw = fitted(sw, sh, size).0 as u32;
            let dh = fitted(sw, sh, size).1 as u32;
            out[at(size as int, x + margin(size, dw), y + margin(size, dh), k)] == c
        }),
{
    let dw = fitted(sw, sh, size).0 as u32;
    let dh = fitted(sw, sh, size).1 as u32;
    let small = choose|small: Seq<u8>|
        scaled(src, sw, sh, small, dw, dh) && #[trigger] centered(small, dw, dh, size, out);
    assert(0 <= fitted(sw, sh, size).0 <= size && 0 <= fitted(sw, sh, size).1 <= size);
    assert(small[at(dw as int, x, y, k)] == c);
}

/// The square that a picture is fitted into shows it at its place: a value lies
/// between those around it in the picture, or beyond them by no more than they
/// differ, up to rounding.
pub proof fn values_stay_near(
    src: Seq<u8>,
    sw: u32,
    sh: u32,
    size: u32,
    out: Seq<u8>,
    x: int,
    y: int,
    k: int,
    lo: u8,
    hi: u8,
)
    requires
        fits_in_center(src, sw, sh, size, out),
        0 <= k < 4,
        ({
            let dw = fitted(sw, sh, size).0 as u32;
            let dh = fitted(sw, sh, size).1 as u32;
            &&& within_sight(sw, sh, dw, dh)
            &&& 0 <= x < dw
            &&& 0 <= y < dh
            &&& between_around(src, sw, sh, dw, dh, x, y, k, lo, hi)
        }),
    ensures
        ({
            let dw = fitted(sw, sh, size).0 as u32;
            let dh = fitted(sw, sh, size).1 as u32;
            let t = tolerance(sw, sh, dw, dh);
            let v = out[at(size as int, x + margin(size, dw), y + margin(size, dh), k)];
            lo - (hi - lo) - t <= v <= hi + (hi - lo) + t
        }),
{
    let dw = fitted(sw, sh, size).0 as u32;
    let dh = fitted(sw, sh, size).1 as u32;
    let small = choose|small: Seq<u8>|
        scaled(src, sw, sh, small, dw, dh) && #[trigger] centered(small, dw, dh, size, out);
    assert(0 <= fitted(sw, sh, size).0 <= size && 0 <= fitted(sw, sh, size).1 <= size);
    let v = small[at(dw as int, x, y, k)];
    assert(out[at(size as int, x + margin(size, dw), y + margin(size, dh), k)] == v);
}

/// Where a channel has one value all over a picture, the square that it is fitted
/// into has that value wherever it shows the picture.
pub proof fn plain_channel_stays_plain(
    src: Seq<u8>,
    sw: u32,
    sh: u32,
    size: u32,
    out: Seq<u8>,
    k: int,
    c: u8,
    px: int,
    py: int,
)
    requires
        fits_in_center(src, sw, sh, size, out),
        0 <= k < 4,
        channel_is(src, k, c, sh * sw),
        0 <= px < size,
        0 <= py < size,
        ({
            let (dw, dh) = fitted(sw, sh, size);
            c == 0 || within_reach(sw, sh, dw as u32, dh as u32)
        }),
    ensures
        ({
            let (dw, dh) = fitted(sw, sh, size);
            let ox = margin(size, dw as u32);
            let oy = margin(size, dh as u32);
            out[at(size as int, px, py, k)] == (if inside(ox, oy, dw, dh, px, py) {
                c
            } else {
                0
            })
        }),
{
    let dw = fitted(sw, sh, size).0 as u32;
    let dh = fitted(sw, sh, size).1 as u32;
    let small = choose|small: Seq<u8>|
        scaled(src, sw, sh, small, dw, dh) && #[trigger] centered(small, dw, dh, size, out);
    assert(0 <= fitted(sw, sh, size).0 <= size && 0 <= fitted(sw, sh, size).1 <= size);
    let qx = px - margin(size, dw);
    let qy = py - margin(size, dh);
    if 0 <= qx < dw && 0 <= qy < dh {
        if c == 0 {
            at_bound(dw as int, dh as int, qx, qy, k);
            let q = qy * dw + qx;
            assert(small[4 * q + k] == 0);
        } else {
            assert forall|i: int, j: int|
                0 <= i < sw && 0 <= j < sh && bears_on(i, sw, qx, dw) && bears_on(
                    j,
                    sh,
                    qy,
                    dh,
                ) implies #[trigger] src[at(sw as int, i, j, k)] == c by {
                at_bound(sw as int, sh as int, i, j, k);
                let p = j * sw + i;
                assert(src[4 * p + k] == c);
            }
            assert(plain_around(src, sw, sh, dw, dh, qx, qy, k, c));
            plain_area_stays_plain(src, sw, sh, size, out, qx, qy, k, c);
        }
    }
}

/// A bitmap that fills the square is placed as it is.
pub proof fn full_size_bitmap_is_kept(small: Seq<u8>, size: u32, out: Seq<u8>)
    requires
        centered(small, size, size, size, out),
        small.len() == 4 * (size * size),
    ensures
        out == small,
{
    assert forall|i: int| 0 <= i < out.len() implies out[i] == small[i] by {
        let (px, py) = pixel_at(size as int, size as int, i / 4);
        assert(i == at(size as int, px, py, i % 4));
    }
    assert(out == small);
}

/// Turning to straight alpha keeps the alpha channel, and keeps all of a pixel
/// that is fully opaque or fully transparent.
pub proof fn straightening_keeps_alpha(pixels: Seq<u8>, p: int, k: int)
    requires
        0 <= p < pixels.len() / 4,
        0 <= k < 4,
    ensures
        straight_byte(pixels, 4 * p + 3) == pixels[4 * p + 3],
        pixels[4 * p + 3] == 0 || pixels[4 * p + 3] == 255 ==> straight_byte(pixels, 4 * p + k)
            == pixels[4 * p + k],
{
    assert((4 * p + k) / 4 == p);
}

/// Straight colour values are no smaller than premultiplied ones.
pub proof fn straightening_never_darkens(c: u8, a: u8)
    ensures
        straightened(c, a) >= c,
{
    if a != 0 && a != 255 {
        assert(c * 255 / (a as int) >= c) by (nonlinear_arith)
            requires
                0 < a < 255,
                0 <= c,
        ;
    }
}

/// A straight colour value is the largest whose product with the opacity does not
/// exceed the premultiplied one, up to what a byte holds.
pub proof fn straight_values_undo_the_product(c: u8, a: u8)
    requires
        0 < a < 255,
    ensures
        c < a ==> straightened(c, a) * a <= c * 255 < (straightened(c, a) + 1) * a,
        c >= a ==> straightened(c, a) == 255,
{
    let q = c * 255 / (a as int);
    vstd::arithmetic::div_mod::lemma_fundamental_div_mod(c * 255, a as int);
    vstd::arithmetic::div_mod::lemma_mod_bound(c * 255, a as int);
    assert(a * q == q * a) by (nonlinear_arith);
    assert((q + 1) * a == q * a + a) by (nonlinear_arith);
    if c < a {
        assert(q <= 255) by (nonlinear_arith)
            requires
                q * a <= c * 255,
                c < a,
                0 <= c,
        ;
        assert(q >= 0) by (nonlinear_arith)
            requires
                c * 255 < (q + 1) * a,
                0 <= c,
                0 < a,
        ;
    } else {
        assert(q >= 255) by (nonlinear_arith)
            requires
                c * 255 < (q + 1) * a,
                c >= a,
                0 < a,
        ;
    }
}

/// The colour bytes of each whole pixel are made straight by that pixel's opacity, and
/// bytes behind the last whole pixel stay.
pub proof fn pixels_are_straightened_by_their_own_opacity(pixels: Seq<u8>, p: int, k: int)
    ensures
        0 <= p && 4 * p + 3 < pixels.len() && 0 <= k < 3 ==> straight_byte(pixels, 4 * p + k)
            == straightened(pixels[4 * p + k], pixels[4 * p + 3]),
        0 <= k < pixels.len() && k >= pixels.len() - pixels.len() % 4 ==> straight_byte(pixels, k)
            == pixels[k],
{
    if 0 <= p && 4 * p + 3 < pixels.len() && 0 <= k < 3 {
        assert((4 * p + k) / 4 == p);
    }
}

/// A square that shows a fitted picture has four bytes for each of its pixels, and is
/// transparent beside the picture.
pub proof fn around_the_picture_is_clear(
    src: Seq<u8>,
    sw: u32,
    sh: u32,
    size: u32,
    out: Seq<u8>,
    px: int,
    py: int,
    k: int,
)
    requires
        fits_in_center(src, sw, sh, size, out),
    ensures
        out.len() == 4 * (size * size),
        ({
            let (dw, dh) = fitted(sw, sh, size);
            let left = (size - dw) / 2;
            let top = (size - dh) / 2;
            0 <= px < size && 0 <= py < size && 0 <= k < 4 && (px < left || px >= left + dw || py
                < top || py >= top + dh) ==> out[4 * (py * size + px) + k] == 0
        }),
{
    let dw = fitted(sw, sh, size).0 as u32;
    let dh = fitted(sw, sh, size).1 as u32;
    let small = choose|small: Seq<u8>|
        scaled(src, sw, sh, small, dw, dh) && #[trigger] centered(small, dw, dh, size, out);
    assert(0 <= fitted(sw, sh, size).0 <= size && 0 <= fitted(sw, sh, size).1 <= size);
    if 0 <= px < size && 0 <= py < size && 0 <= k < 4 {
        assert(out[at(size as int, px, py, k)] == out[4 * (py * size + px) + k]);
    }
}

/// A picture that need not be scaled stands in the centre pixel for pixel.
pub proof fn unscaled_pictures_are_kept(
    src: Seq<u8>,
    sw: u32,
    sh: u32,
    size: u32,
    out: Seq<u8>,
    x: int,
    y: int,
    k: int,
)
    requires
        fits_in_center(src, sw, sh, size, out),
        fitted(sw, sh, size) == (sw as int, sh as int),
        src.len() >= 4 * (sh * sw),
        0 <= x < sw,
        0 <= y < sh,
        0 <= k < 4,
    ensures
        out[4 * ((y + (size - sh) / 2) * size + x + (size - sw) / 2) + k] == src[4 * (y * sw + x)
            + k],
{
    let small = choose|small: Seq<u8>|
        scaled(src, sw, sh, small, sw, sh) && #[trigger] centered(small, sw, sh, size, out);
    assert(0 <= fitted(sw, sh, size).0 <= size && 0 <= fitted(sw, sh, size).1 <= size);
    at_bound(sw as int, sh as int, x, y, k);
    let px = x + margin(size, sw);
    let py = y + margin(size, sh);
    assert(out[at(size as int, px, py, k)] == small[at(sw as int, x, y, k)]);
    assert(small[at(sw as int, x, y, k)] == src[at(sw as int, x, y, k)]);
}

/// A bitmap in the centre of a square stands there pixel for pixel, half of what is left
/// of each side away from the left and upper edge, and nothing else is there.
pub proof fn centred_bitmaps_are_placed_pixel_for_pixel(
    small: Seq<u8>,
    dw: u32,
    dh: u32,
    size: u32,
    out: Seq<u8>,
    px: int,
    py: int,
    k: int,
)
    requires
        centered(small, dw, dh, size, out),
        dw <= size,
        dh <= size,
        0 <= px < size,
        0 <= py < size,
        0 <= k < 4,
    ensures
        out.len() == 4 * (size * size),
        ({
            let x = px - (size - dw) / 2;
            let y = py - (size - dh) / 2;
            out[4 * (py * size + px) + k] == (if 0 <= x < dw && 0 <= y < dh {
                small[4 * (y * dw + x) + k]
            } else {
                0
            })
        }),
{
    assert(out[at(size as int, px, py, k)] == out[4 * (py * size + px) + k]);
}

} // verus!
