//! Software drawing into a canvas of 32-bit pixels, four bytes each in the
//! order blue, green, red, alpha, row after row without gaps.

use vstd::prelude::*;

use crate::color::{argb_to_text_color, Rgba};

verus! {

/// The byte of channel `k` of the pixel in column `px` of row `py`.
pub open spec fn at(width: int, px: int, py: int, k: int) -> int {
    4 * (py * width + px) + k
}

/// Whether a canvas holds a picture of `width` by `height` pixels.
pub open spec fn holds(canvas: Seq<u8>, width: u32, height: u32) -> bool {
    canvas.len() >= 4 * (height * width)
}

/// The value of channel `k` in a packed `0xAARRGGBB` colour, blue first.
pub open spec fn channel(c: u32, k: int) -> u8 {
    if k == 0 {
        (c % 0x100) as u8
    } else if k == 1 {
        (c / 0x100 % 0x100) as u8
    } else if k == 2 {
        (c / 0x1_0000 % 0x100) as u8
    } else {
        (c / 0x100_0000) as u8
    }
}

/// Whether the pixel in column `px` of row `py` lies in the rectangle of `w` by
/// `h` pixels whose upper left corner is in column `x` of row `y`.
pub open spec fn inside(x: int, y: int, w: int, h: int, px: int, py: int) -> bool {
    x <= px < x + w && y <= py < y + h
}

/// The colour value `c` laid over `d` with the opacity `a`.
pub open spec fn mixed(c: int, a: int, d: int) -> int {
    (c * a + d * (255 - a)) / 255
}

/// Channel `k` of a pixel with the value `d` after `color` was laid over it.
pub open spec fn blended(color: Rgba, k: int, d: u8) -> u8 {
    if k == 0 {
        mixed(color.b as int, color.a as int, d as int) as u8
    } else if k == 1 {
        mixed(color.g as int, color.a as int, d as int) as u8
    } else if k == 2 {
        mixed(color.r as int, color.a as int, d as int) as u8
    } else {
        0xff
    }
}

/// Bytes within the picture lie within the canvas.
pub proof fn at_bound(width: int, height: int, px: int, py: int, k: int)
    requires
        0 <= px < width,
        0 <= py < height,
        0 <= k < 4,
    ensures
        0 <= py * width,
        py * width + px < height * width,
        0 <= at(width, px, py, k) < 4 * (height * width),
{
    assert(0 <= py * width && py * width + width <= height * width) by (nonlinear_arith)
        requires
            0 <= py < height,
            0 < width,
    ;
}

/// Different channels of different pixels are different bytes.
pub proof fn at_injective(width: int, px: int, py: int, k: int, qx: int, qy: int, m: int)
    requires
        0 <= px < width,
        0 <= qx < width,
        0 <= k < 4,
        0 <= m < 4,
        at(width, px, py, k) == at(width, qx, qy, m),
    ensures
        px == qx && py == qy && k == m,
{
    assert(py * width + px == qy * width + qx);
    assert(py == qy) by (nonlinear_arith)
        requires
            py * width + px == qy * width + qx,
            0 <= px < width,
            0 <= qx < width,
    ;
}

/// Fills the whole canvas with one colour.
pub fn paint_solid(canvas: &mut [u8], argb: u32)
    ensures
        final(canvas)@.len() == old(canvas)@.len(),
        forall|i: int|
            0 <= i < old(canvas)@.len() / 4 * 4 ==> #[trigger] final(canvas)@[i] == channel(
                argb,
                i % 4,
            ),
        forall|i: int|
            old(canvas)@.len() / 4 * 4 <= i < old(canvas)@.len() ==> #[trigger] final(canvas)@[i]
                == old(canvas)@[i],
{
    let c = argb_to_text_color(argb);
    let whole: usize = canvas.len() / 4;
    let ghost before = canvas@;
    assert(before.len() == canvas.len());
    let mut p: usize = 0;
    while p < whole
        invariant
            p <= whole == before.len() / 4,
            canvas@.len() == before.len(),
            before.len() <= usize::MAX,
            c.b == channel(argb, 0) && c.g == channel(argb, 1) && c.r == channel(argb, 2) && c.a
                == channel(argb, 3),
            forall|i: int| 0 <= i < 4 * p ==> #[trigger] canvas@[i] == channel(argb, i % 4),
            forall|i: int| 4 * p <= i < before.len() ==> #[trigger] canvas@[i] == before[i],
        decreases whole - p,
    {
        canvas[4 * p] = c.b;
        canvas[4 * p + 1] = c.g;
        canvas[4 * p + 2] = c.r;
        canvas[4 * p + 3] = c.a;
        p += 1;
    }
}

/// Whether `after` is the picture `before` with channel `k` of every pixel in
/// the rectangle taken through `f`, and everything else as it was.
pub open spec fn repainted(
    before: Seq<u8>,
    after: Seq<u8>,
    width: u32,
    height: u32,
    x: int,
    y: int,
    w: int,
    h: int,
    f: spec_fn(int, u8) -> u8,
) -> bool {
    &&& after.len() == before.len()
    &&& forall|px: int, py: int, k: int|
        0 <= px < width && 0 <= py < height && 0 <= k < 4 ==> #[trigger] after[at(
            width as int,
            px,
            py,
            k,
        )] == (if inside(x, y, w, h, px, py) {
            f(k, before[at(width as int, px, py, k)])
        } else {
            before[at(width as int, px, py, k)]
        })
    &&& forall|i: int|
        4 * (height * width) <= i < before.len() ==> #[trigger] after[i] == before[i]
}

/// Whether the rows above `py`, and row `py` up to column `px`, are repainted
/// and the rest is as it was.
spec fn repainted_up_to(
    before: Seq<u8>,
    now: Seq<u8>,
    width: u32,
    height: u32,
    area: (int, int, int, int),
    f: spec_fn(int, u8) -> u8,
    px: int,
    py: int,
) -> bool {
    &&& now.len() == before.len()
    &&& forall|qx: int, qy: int, k: int|
        0 <= qx < width && 0 <= qy < height && 0 <= k < 4 ==> #[trigger] now[at(
            width as int,
            qx,
            qy,
            k,
        )] == (if inside(area.0, area.1, area.2, area.3, qx, qy) && (qy < py || (qy == py && qx
            < px)) {
            f(k, before[at(width as int, qx, qy, k)])
        } else {
            before[at(width as int, qx, qy, k)]
        })
    &&& forall|i: int|
        4 * (height * width) <= i < before.len() ==> #[trigger] now[i] == before[i]
}

/// Where a pixel starts in the canvas.
fn offset(len: usize, width: u32, height: u32, px: u32, py: u32) -> (o: usize)
    requires
        len >= 4 * (height * width),
        px < width,
        py < height,
    ensures
        o == at(width as int, px as int, py as int, 0),
        o + 3 < 4 * (height * width),
{
    proof {
        at_bound(width as int, height as int, px as int, py as int, 3);
    }
    (py as usize * width as usize + px as usize) * 4
}

/// One more pixel repainted.
proof fn one_more_pixel(
    before: Seq<u8>,
    now: Seq<u8>,
    next: Seq<u8>,
    width: u32,
    height: u32,
    area: (int, int, int, int),
    f: spec_fn(int, u8) -> u8,
    px: int,
    py: int,
)
    requires
        holds(before, width, height),
        0 <= px < width,
        0 <= py < height,
        inside(area.0, area.1, area.2, area.3, px, py),
        repainted_up_to(before, now, width, height, area, f, px, py),
        next.len() == now.len(),
        ({
            let o = at(width as int, px, py, 0);
            &&& next[o] == f(0, now[o])
            &&& next[o + 1] == f(1, now[o + 1])
            &&& next[o + 2] == f(2, now[o + 2])
            &&& next[o + 3] == f(3, now[o + 3])
            &&& forall|i: int|
                0 <= i < now.len() && !(o <= i < o + 4) ==> #[trigger] next[i] == now[i]
        }),
    ensures
        repainted_up_to(before, next, width, height, area, f, px + 1, py),
{
    let o = at(width as int, px, py, 0);
    at_bound(width as int, height as int, px, py, 3);
    assert forall|qx: int, qy: int, k: int|
        0 <= qx < width && 0 <= qy < height && 0 <= k < 4 implies #[trigger] next[at(
        width as int,
        qx,
        qy,
        k,
    )] == (if inside(area.0, area.1, area.2, area.3, qx, qy) && (qy < py || (qy == py && qx < px
        + 1)) {
        f(k, before[at(width as int, qx, qy, k)])
    } else {
        before[at(width as int, qx, qy, k)]
    }) by {
        let j = at(width as int, qx, qy, k);
        at_bound(width as int, height as int, qx, qy, k);
        assert(now[j] == now[at(width as int, qx, qy, k)]);
        if o <= j < o + 4 {
            at_injective(width as int, qx, qy, k, px, py, j - o);
        }
    }
    assert forall|i: int| 4 * (height * width) <= i < before.len() implies #[trigger] next[i]
        == before[i] by {
        assert(now[i] == before[i]);
    }
}

/// Whether the pixels of the picture that lie in the area are those of the
/// columns `cols.0..cols.1` and the rows `rows.0..rows.1`.
spec fn clipped(
    area: (int, int, int, int),
    width: u32,
    height: u32,
    cols: (u32, u32),
    rows: (u32, u32),
) -> bool {
    &&& cols.1 <= width
    &&& rows.1 <= height
    &&& forall|px: int, py: int|
        0 <= px < width && 0 <= py < height ==> (#[trigger] inside(
            area.0,
            area.1,
            area.2,
            area.3,
            px,
            py,
        ) <==> cols.0 <= px < cols.1 && rows.0 <= py < rows.1)
}

/// The part of a span that starts at `start` and is `len` long which lies in
/// `0..limit`, by its ends.
fn clip(start: i32, len: u32, limit: u32) -> (r: (u32, u32))
    ensures
        r.0 == (if start < 0 {
            0
        } else {
            start as int
        }),
        r.1 == (if start + len < 0 {
            0
        } else if start + len < limit {
            start + len
        } else {
            limit as int
        }),
{
    let end: i64 = start as i64 + len as i64;
    let lo: u32 = if start < 0 {
        0
    } else {
        start as u32
    };
    let hi: u32 = if end < 0 {
        0
    } else if end < limit as i64 {
        end as u32
    } else {
        limit
    };
    (lo, hi)
}

/// Fills a rectangle with one colour. What lies outside the picture is left out.
pub fn fill_rect(
    canvas: &mut [u8],
    width: u32,
    height: u32,
    x: i32,
    y: i32,
    w: u32,
    h: u32,
    argb: u32,
)
    requires
        holds(old(canvas)@, width, height),
    ensures
        repainted(
            old(canvas)@,
            final(canvas)@,
            width,
            height,
            x as int,
            y as int,
            w as int,
            h as int,
            (|k: int, d: u8| channel(argb, k)),
        ),
{
    let c = argb_to_text_color(argb);
    let cols = clip(x, w, width);
    let rows = clip(y, h, height);
    let ghost before = canvas@;
    let ghost area = (x as int, y as int, w as int, h as int);
    let ghost f = |k: int, d: u8| channel(argb, k);
    assert(clipped(area, width, height, cols, rows));
    let mut py: u32 = rows.0;
    while py < rows.1
        invariant
            holds(before, width, height),
            canvas@.len() == before.len(),
            f == (|k: int, d: u8| channel(argb, k)),
            c.b == channel(argb, 0) && c.g == channel(argb, 1),
            c.r == channel(argb, 2) && c.a == channel(argb, 3),
            rows.0 <= py,
            clipped(area, width, height, cols, rows),
            repainted_up_to(before, canvas@, width, height, area, f, 0, py as int),
        decreases rows.1 - py,
    {
        let mut px: u32 = cols.0;
        assert(repainted_up_to(before, canvas@, width, height, area, f, px as int, py as int));
        while px < cols.1
            invariant
                holds(before, width, height),
                canvas@.len() == before.len(),
                f == (|k: int, d: u8| channel(argb, k)),
                c.b == channel(argb, 0) && c.g == channel(argb, 1),
                c.r == channel(argb, 2) && c.a == channel(argb, 3),
                rows.0 <= py < rows.1,
                cols.0 <= px,
                clipped(area, width, height, cols, rows),
                repainted_up_to(before, canvas@, width, height, area, f, px as int, py as int),
            decreases cols.1 - px,
        {
            let ghost now = canvas@;
            let o: usize = offset(canvas.len(), width, height, px, py);
            canvas[o] = c.b;
            canvas[o + 1] = c.g;
            canvas[o + 2] = c.r;
            canvas[o + 3] = c.a;
            proof {
                assert(inside(area.0, area.1, area.2, area.3, px as int, py as int));
                one_more_pixel(
                    before,
                    now,
                    canvas@,
                    width,
                    height,
                    area,
                    f,
                    px as int,
                    py as int,
                );
            }
            px += 1;
        }
        py += 1;
        assert(repainted_up_to(before, canvas@, width, height, area, f, 0, py as int));
    }
}

/// The colour value `c` laid over `d` with the opacity `a`.
fn mix(c: u8, a: u8, d: u8) -> (m: u8)
    ensures
        m == mixed(c as int, a as int, d as int),
        mixed(c as int, a as int, d as int) <= 255,
{
    let inv: u32 = 255 - a as u32;
    proof {
        mixed_bounds(c as int, a as int, d as int);
    }
    ((c as u32 * a as u32 + d as u32 * inv) / 255) as u8
}

/// A mixture of two colour values lies between them.
pub proof fn mixed_bounds(c: int, a: int, d: int)
    requires
        0 <= c <= 255,
        0 <= a <= 255,
        0 <= d <= 255,
    ensures
        0 <= c * a <= 255 * 255,
        0 <= d * (255 - a) <= 255 * 255,
        c <= d ==> c <= mixed(c, a, d) <= d,
        d <= c ==> d <= mixed(c, a, d) <= c,
        a == 255 ==> mixed(c, a, d) == c,
        a == 0 ==> mixed(c, a, d) == d,
{
    let lo = if c <= d {
        c
    } else {
        d
    };
    let hi = if c <= d {
        d
    } else {
        c
    };
    assert(0 <= c * a <= 255 * 255) by (nonlinear_arith)
        requires
            0 <= c <= 255,
            0 <= a <= 255,
    ;
    assert(0 <= d * (255 - a) <= 255 * 255) by (nonlinear_arith)
        requires
            0 <= d <= 255,
            0 <= a <= 255,
    ;
    assert(lo * 255 <= c * a + d * (255 - a) <= hi * 255) by (nonlinear_arith)
        requires
            lo <= c <= hi,
            lo <= d <= hi,
            0 <= a <= 255,
    ;
    if a == 255 {
        assert(c * a + d * (255 - a) == c * 255) by (nonlinear_arith)
            requires
                a == 255,
        ;
    }
}

/// The pixels a length stands for. One beyond the range of `i32` stands for none.
pub open spec fn extent(n: u32) -> int {
    if n <= i32::MAX {
        n as int
    } else {
        0
    }
}

/// Whether a picture has a side beyond the range of `i32`.
pub open spec fn oversize(width: u32, height: u32) -> bool {
    width > i32::MAX || height > i32::MAX
}

/// Lays a rectangle of one colour over the picture, as opaque as its alpha
/// channel says. What lies outside the picture is left out, and so is a picture
/// with a side beyond the range of `i32`.
pub fn blend_rect(
    canvas: &mut [u8],
    width: u32,
    height: u32,
    x: i32,
    y: i32,
    w: u32,
    h: u32,
    color: Rgba,
)
    requires
        holds(old(canvas)@, width, height),
    ensures
        color.a == 0 || oversize(width, height) ==> final(canvas)@ == old(canvas)@,
        color.a != 0 && !oversize(width, height) ==> repainted(
            old(canvas)@,
            final(canvas)@,
            width,
            height,
            x as int,
            y as int,
            extent(w),
            extent(h),
            (|k: int, d: u8| blended(color, k, d)),
        ),
{
    if color.a == 0 || width > 0x7fff_ffff || height > 0x7fff_ffff {
        return;
    }
    let cw: u32 = if w <= 0x7fff_ffff {
        w
    } else {
        0
    };
    let ch: u32 = if h <= 0x7fff_ffff {
        h
    } else {
        0
    };
    let cols = clip(x, cw, width);
    let rows = clip(y, ch, height);
    let ghost before = canvas@;
    let ghost area = (x as int, y as int, cw as int, ch as int);
    let ghost f = |k: int, d: u8| blended(color, k, d);
    assert(clipped(area, width, height, cols, rows));
    let mut py: u32 = rows.0;
    while py < rows.1
        invariant
            holds(before, width, height),
            canvas@.len() == before.len(),
            f == (|k: int, d: u8| blended(color, k, d)),
            rows.0 <= py,
            clipped(area, width, height, cols, rows),
            repainted_up_to(before, canvas@, width, height, area, f, 0, py as int),
        decreases rows.1 - py,
    {
        let mut px: u32 = cols.0;
        assert(repainted_up_to(before, canvas@, width, height, area, f, px as int, py as int));
        while px < cols.1
            invariant
                holds(before, width, height),
                canvas@.len() == before.len(),
                f == (|k: int, d: u8| blended(color, k, d)),
                rows.0 <= py < rows.1,
                cols.0 <= px,
                clipped(area, width, height, cols, rows),
                repainted_up_to(before, canvas@, width, height, area, f, px as int, py as int),
            decreases cols.1 - px,
        {
            let ghost now = canvas@;
            let o: usize = offset(canvas.len(), width, height, px, py);
            let b: u8 = mix(color.b, color.a, canvas[o]);
            let g: u8 = mix(color.g, color.a, canvas[o + 1]);
            let r: u8 = mix(color.r, color.a, canvas[o + 2]);
            canvas[o] = b;
            canvas[o + 1] = g;
            canvas[o + 2] = r;
            canvas[o + 3] = 0xff;
            proof {
                assert(inside(area.0, area.1, area.2, area.3, px as int, py as int));
                one_more_pixel(
                    before,
                    now,
                    canvas@,
                    width,
                    height,
                    area,
                    f,
                    px as int,
                    py as int,
                );
            }
            px += 1;
        }
        py += 1;
        assert(repainted_up_to(before, canvas@, width, height, area, f, 0, py as int));
    }
}

/// The space to the left of the text, in pixels.
pub const PAD_X: i32 = 12;

/// The space above the first row, in pixels.
pub const PAD_Y: i32 = 6;

/// The height of a row, in pixels.
pub const LINE_HEIGHT: i32 = 24;

/// The colour of text.
pub const FG: u32 = 0xffcd_d6f4;

/// The colour of the prompt row's text.
pub const PROMPT_FG: u32 = 0xff89_b4fa;

/// The colour a piece of a glyph at height `y` of the text block is drawn with:
/// in the first row the prompt's, with the coverage that the glyph's own alpha
/// channel holds.
pub open spec fn glyph_color(y: int, color: Rgba) -> Rgba {
    if y < LINE_HEIGHT {
        Rgba {
            r: channel(PROMPT_FG, 2),
            g: channel(PROMPT_FG, 1),
            b: channel(PROMPT_FG, 0),
            a: color.a,
        }
    } else {
        color
    }
}

/// Draws a rectangular piece of a glyph at `x`, `y` of the text block.
pub fn paint_glyph(
    canvas: &mut [u8],
    width: u32,
    height: u32,
    x: i32,
    y: i32,
    w: u32,
    h: u32,
    color: Rgba,
)
    requires
        holds(old(canvas)@, width, height),
        x + PAD_X <= i32::MAX,
        y + PAD_Y <= i32::MAX,
    ensures
        color.a == 0 || oversize(width, height) ==> final(canvas)@ == old(canvas)@,
        color.a != 0 && !oversize(width, height) ==> repainted(
            old(canvas)@,
            final(canvas)@,
            width,
            height,
            x + PAD_X,
            y + PAD_Y,
            extent(w),
            extent(h),
            (|k: int, d: u8| blended(glyph_color(y as int, color), k, d)),
        ),
{
    let prompt = argb_to_text_color(PROMPT_FG);
    // Only the colour changes: the alpha channel holds the anti-aliasing
    // coverage, without which glyphs would be solid boxes.
    let shade = if y < LINE_HEIGHT {
        Rgba { r: prompt.r, g: prompt.g, b: prompt.b, a: color.a }
    } else {
        color
    };
    assert(shade == glyph_color(y as int, color));
    blend_rect(canvas, width, height, x + PAD_X, y + PAD_Y, w, h, shade);
}

/// The prompt's colour leaves the coverage of a glyph as it is.
pub proof fn glyph_coverage_is_kept(y: int, color: Rgba)
    ensures
        glyph_color(y, color).a == color.a,
{
}

/// A fully opaque colour replaces what was there.
pub proof fn opaque_color_replaces(color: Rgba, k: int, d: u8)
    requires
        0 <= k < 4,
        color.a == 255,
    ensures
        blended(color, k, d) == (if k == 0 {
            color.b
        } else if k == 1 {
            color.g
        } else if k == 2 {
            color.r
        } else {
            0xff
        }),
{
    mixed_bounds(color.b as int, 255, d as int);
    mixed_bounds(color.g as int, 255, d as int);
    mixed_bounds(color.r as int, 255, d as int);
}

/// A rectangle beside the picture changes nothing.
pub proof fn drawing_outside_changes_nothing(
    before: Seq<u8>,
    after: Seq<u8>,
    width: u32,
    height: u32,
    x: int,
    y: int,
    w: int,
    h: int,
    f: spec_fn(int, u8) -> u8,
)
    requires
        holds(before, width, height),
        repainted(before, after, width, height, x, y, w, h, f),
        x + w <= 0 || width <= x || y + h <= 0 || height <= y,
    ensures
        after == before,
{
    assert forall|i: int| 0 <= i < before.len() implies after[i] == before[i] by {
        if i < 4 * (height * width) {
            let p = i / 4;
            let k = i % 4;
            let (px, py) = pixel_at(width as int, height as int, p);
            assert(i == at(width as int, px, py, k));
        }
    }
    assert(after == before);
}

/// The column and row of the pixel with the number `p`.
pub proof fn pixel_at(width: int, height: int, p: int) -> (r: (int, int))
    requires
        0 <= width,
        0 <= height,
        0 <= p < height * width,
    ensures
        0 <= r.0 < width,
        0 <= r.1 < height,
        r.1 * width + r.0 == p,
{
    assert(width > 0) by (nonlinear_arith)
        requires
            0 <= width,
            0 <= p < height * width,
    ;
    let px = p % width;
    let py = p / width;
    vstd::arithmetic::div_mod::lemma_fundamental_div_mod(p, width);
    vstd::arithmetic::div_mod::lemma_mod_bound(p, width);
    assert(width * py == py * width) by (nonlinear_arith);
    assert(0 <= py < height) by (nonlinear_arith)
        requires
            0 <= p < height * width,
            p == py * width + px,
            0 <= px < width,
    ;
    (px, py)
}

/// A repainted picture is determined by what it was.
pub proof fn repainting_is_determined(
    before: Seq<u8>,
    a: Seq<u8>,
    b: Seq<u8>,
    width: u32,
    height: u32,
    x: int,
    y: int,
    w: int,
    h: int,
    f: spec_fn(int, u8) -> u8,
)
    requires
        holds(before, width, height),
        repainted(before, a, width, height, x, y, w, h, f),
        repainted(before, b, width, height, x, y, w, h, f),
    ensures
        a == b,
{
    assert forall|i: int| 0 <= i < before.len() implies a[i] == b[i] by {
        if i < 4 * (height * width) {
            let (px, py) = pixel_at(width as int, height as int, i / 4);
            assert(i == at(width as int, px, py, i % 4));
            assert(a[at(width as int, px, py, i % 4)] == b[at(width as int, px, py, i % 4)]);
        } else {
            assert(a[i] == before[i]);
        }
    }
    assert(a == b);
}

/// The four bytes of a pixel are the packed colour, least significant first.
pub proof fn channels_make_the_color(c: u32)
    ensures
        channel(c, 0) + 0x100 * channel(c, 1) + 0x1_0000 * channel(c, 2) + 0x100_0000 * channel(
            c,
            3,
        ) == c,
{
}

/// A mixture is the weighted mean of the two values, cut off to a whole number.
pub proof fn mixtures_are_weighted_means(c: int, a: int, d: int)
    requires
        0 <= c <= 255,
        0 <= a <= 255,
        0 <= d <= 255,
    ensures
        255 * mixed(c, a, d) <= c * a + d * (255 - a) < 255 * mixed(c, a, d) + 255,
{
}

/// A colour laid over a pixel mixes blue, green and red, each with its own, and makes
/// the pixel opaque.
pub proof fn channels_mix_each_with_its_own(color: Rgba, d: u8)
    ensures
        blended(color, 0, d) == mixed(color.b as int, color.a as int, d as int),
        blended(color, 1, d) == mixed(color.g as int, color.a as int, d as int),
        blended(color, 2, d) == mixed(color.r as int, color.a as int, d as int),
        blended(color, 3, d) == 255,
{
    mixed_bounds(color.b as int, color.a as int, d as int);
    mixed_bounds(color.g as int, color.a as int, d as int);
    mixed_bounds(color.r as int, color.a as int, d as int);
}

/// A rectangle changes every pixel of the picture from its left and upper edge on, as
/// many columns and rows as it is wide and high, and no other byte of the canvas.
pub proof fn rectangles_change_their_pixels_alone(
    before: Seq<u8>,
    after: Seq<u8>,
    width: u32,
    height: u32,
    x: int,
    y: int,
    w: int,
    h: int,
    f: spec_fn(int, u8) -> u8,
    px: int,
    py: int,
    k: int,
)
    requires
        repainted(before, after, width, height, x, y, w, h, f),
    ensures
        0 <= px < width && 0 <= py < height && 0 <= k < 4 ==> {
            let i = 4 * (py * width + px) + k;
            &&& x <= px < x + w && y <= py < y + h ==> after[i] == f(k, before[i])
            &&& px < x || px >= x + w || py < y || py >= y + h ==> after[i] == before[i]
        },
        after.len() == before.len(),
        4 * (height * width) <= k < before.len() ==> after[k] == before[k],
{
    if 0 <= px < width && 0 <= py < height && 0 <= k < 4 {
        assert(at(width as int, px, py, k) == 4 * (py * width + px) + k);
        assert(after[at(width as int, px, py, k)] == (if inside(x, y, w, h, px, py) {
            f(k, before[at(width as int, px, py, k)])
        } else {
            before[at(width as int, px, py, k)]
        }));
    }
}

/// A length within the range of `i32` counts in full, and a longer one not at all; a
/// picture is too large if a side is out of that range.
pub proof fn lengths_count_within_range(n: u32, m: u32)
    ensures
        n <= 0x7fff_ffff ==> extent(n) == n,
        n > 0x7fff_ffff ==> extent(n) == 0,
        oversize(n, m) <==> n > 0x7fff_ffff || m > 0x7fff_ffff,
{
}

/// Glyphs of the first row, which is twenty-four pixels high, are drawn in the accent
/// colour with the coverage of their own, and all others as they are; text stands
/// twelve pixels from the left and six from above.
pub proof fn first_row_is_accented(y: int, color: Rgba)
    ensures
        y < 24 ==> glyph_color(y, color) == (Rgba { r: 0x89, g: 0xb4, b: 0xfa, a: color.a }),
        y >= 24 ==> glyph_color(y, color) == color,
        PAD_X == 12 && PAD_Y == 6 && FG == 0xffcdd6f4,
{
}

} // verus!
