//! Colours: the `#rrggbb` notation of the configuration file, and the packed
//! and unpacked forms the drawing code uses.

use vstd::prelude::*;

use crate::text::{
    ascii_lower, ascii_lowered, to_chars, trim, trimmed, trimming_removes_white_space_around,
    white_space,
};

verus! {

/// The four channels packed as `0xAARRGGBB`.
pub open spec fn argb(a: int, r: int, g: int, b: int) -> int {
    a * 0x100_0000 + r * 0x1_0000 + g * 0x100 + b
}

/// Whether `c` is a hexadecimal digit, in either case.
pub open spec fn hex(c: char) -> bool {
    '0' <= c <= '9' || 'a' <= c <= 'f' || 'A' <= c <= 'F'
}

/// The value of a hexadecimal digit.
pub open spec fn hex_value(c: char) -> int {
    if '0' <= c <= '9' {
        c as u32 - '0' as u32
    } else if 'a' <= c <= 'f' {
        c as u32 - 'a' as u32 + 10
    } else {
        c as u32 - 'A' as u32 + 10
    }
}

/// The value of the two digits of `h` that start at `i`.
pub open spec fn hex_pair(h: Seq<char>, i: int) -> int {
    16 * hex_value(h[i]) + hex_value(h[i + 1])
}

/// The colour that `h`, the part after the `#`, stands for: three digits name
/// each channel by one nibble, six by two, eight put the alpha channel first.
pub open spec fn digits_color(h: Seq<char>) -> Option<int> {
    if !(forall|i: int| 0 <= i < h.len() ==> hex(#[trigger] h[i])) {
        None
    } else if h.len() == 3 {
        Some(argb(0xff, 17 * hex_value(h[0]), 17 * hex_value(h[1]), 17 * hex_value(h[2])))
    } else if h.len() == 6 {
        Some(argb(0xff, hex_pair(h, 0), hex_pair(h, 2), hex_pair(h, 4)))
    } else if h.len() == 8 {
        Some(argb(hex_pair(h, 0), hex_pair(h, 2), hex_pair(h, 4), hex_pair(h, 6)))
    } else {
        None
    }
}

/// The colour that `s` names, white space around it aside; `None` where `s` is
/// not of the form `#rgb`, `#rrggbb` or `#aarrggbb`.
pub open spec fn color_of(s: Seq<char>) -> Option<int> {
    let t = trimmed(s);
    if t.len() > 0 && t[0] == '#' {
        digits_color(t.skip(1))
    } else {
        None
    }
}

/// A colour with its channels apart, in the order text rendering uses them.
#[derive(Clone, Copy, Debug, PartialEq, Eq, Structural)]
pub struct Rgba {
    pub r: u8,
    pub g: u8,
    pub b: u8,
    pub a: u8,
}

fn hex_digit(c: char) -> (d: Option<u32>)
    ensures
        d is Some <==> hex(c),
        d matches Some(v) ==> v == hex_value(c) && v < 16,
{
    let u: u32 = c as u32;
    if '0' <= c && c <= '9' {
        Some(u - 0x30)
    } else if 'a' <= c && c <= 'f' {
        Some(u - 0x61 + 10)
    } else if 'A' <= c && c <= 'F' {
        Some(u - 0x41 + 10)
    } else {
        None
    }
}

/// The digits of `h` as numbers, if all are digits.
fn hex_digits(h: &[char]) -> (v: Option<Vec<u32>>)
    ensures
        v is Some <==> forall|i: int| 0 <= i < h@.len() ==> hex(#[trigger] h@[i]),
        v matches Some(d) ==> d@.len() == h@.len() && forall|i: int|
            0 <= i < h@.len() ==> #[trigger] d@[i] == hex_value(h@[i]) && d@[i] < 16,
{
    let mut d: Vec<u32> = Vec::new();
    let mut i: usize = 0;
    while i < h.len()
        invariant
            i <= h@.len(),
            d@.len() == i,
            forall|k: int| 0 <= k < i ==> hex(#[trigger] h@[k]),
            forall|k: int| 0 <= k < i ==> #[trigger] d@[k] == hex_value(h@[k]) && d@[k] < 16,
        decreases h.len() - i,
    {
        match hex_digit(h[i]) {
            Some(v) => d.push(v),
            None => {
                assert(!hex(h@[i as int]));
                return None;
            },
        }
        i += 1;
    }
    Some(d)
}

fn pack(a: u32, r: u32, g: u32, b: u32) -> (c: u32)
    requires
        a < 256,
        r < 256,
        g < 256,
        b < 256,
    ensures
        c == argb(a as int, r as int, g as int, b as int),
{
    a * 0x100_0000 + r * 0x1_0000 + g * 0x100 + b
}

/// Parses `#rgb`, `#rrggbb` or `#aarrggbb` into `0xAARRGGBB`. Anything
/// malformed gives `None`, so that the caller can keep its default.
pub fn parse_color(s: &str) -> (r: Option<u32>)
    ensures
        r is Some <==> color_of(s@) is Some,
        r matches Some(c) ==> color_of(s@) == Some(c as int),
{
    let chars = to_chars(s);
    let t = trim(chars.as_slice());
    if t.len() == 0 || t[0] != '#' {
        return None;
    }
    let h = vstd::slice::slice_subrange(t, 1, t.len());
    assert(h@ == t@.skip(1));
    let d = match hex_digits(h) {
        Some(d) => d,
        None => {
            return None;
        },
    };
    if d.len() == 3 {
        Some(pack(0xff, 17 * d[0], 17 * d[1], 17 * d[2]))
    } else if d.len() == 6 {
        Some(pack(0xff, 16 * d[0] + d[1], 16 * d[2] + d[3], 16 * d[4] + d[5]))
    } else if d.len() == 8 {
        Some(
            pack(
                16 * d[0] + d[1],
                16 * d[2] + d[3],
                16 * d[4] + d[5],
                16 * d[6] + d[7],
            ),
        )
    } else {
        None
    }
}

/// The channels of a packed `0xAARRGGBB` colour.
pub fn argb_to_text_color(c: u32) -> (t: Rgba)
    ensures
        argb(t.a as int, t.r as int, t.g as int, t.b as int) == c,
        t.b == c % 0x100,
        t.g == c / 0x100 % 0x100,
        t.r == c / 0x1_0000 % 0x100,
        t.a == c / 0x100_0000,
{
    let a: u32 = c / 0x100_0000;
    let r: u32 = c / 0x1_0000 % 0x100;
    let g: u32 = c / 0x100 % 0x100;
    let b: u32 = c % 0x100;
    Rgba { r: r as u8, g: g as u8, b: b as u8, a: a as u8 }
}

/// Three digits mean the same as six with each digit doubled.
pub proof fn short_notation_doubles_digits(r: char, g: char, b: char)
    ensures
        digits_color(seq![r, g, b]) == digits_color(seq![r, r, g, g, b, b]),
{
    let short = seq![r, g, b];
    let long = seq![r, r, g, g, b, b];
    assert(long[0] == r && long[2] == g && long[4] == b);
    assert(short[0] == r && short[1] == g && short[2] == b);
    if hex(r) && hex(g) && hex(b) {
        assert(forall|i: int| 0 <= i < 6 ==> hex(#[trigger] long[i]));
    }
}

/// Six digits mean the same as eight that begin with `ff`: without an alpha
/// channel a colour is opaque.
pub proof fn six_digits_are_opaque(h: Seq<char>)
    requires
        h.len() == 6,
    ensures
        digits_color(h) == digits_color(seq!['f', 'f'] + h),
{
    let long = seq!['f', 'f'] + h;
    assert(forall|i: int| 0 <= i < 6 ==> #[trigger] h[i] == long[i + 2]);
    assert(hex_pair(long, 0) == 0xff);
    if forall|i: int| 0 <= i < h.len() ==> hex(#[trigger] h[i]) {
        assert forall|i: int| 0 <= i < long.len() implies hex(#[trigger] long[i]) by {
            if i >= 2 {
                assert(long[i] == h[i - 2]);
            }
        }
    } else {
        let i = choose|i: int| 0 <= i < h.len() && !hex(#[trigger] h[i]);
        assert(!hex(long[i + 2]));
    }
}

/// Every channel value can be recovered from a packed colour.
pub proof fn packing_keeps_channels(
    a: u8,
    r: u8,
    g: u8,
    b: u8,
    a2: u8,
    r2: u8,
    g2: u8,
    b2: u8,
)
    requires
        argb(a as int, r as int, g as int, b as int) == argb(
            a2 as int,
            r2 as int,
            g2 as int,
            b2 as int,
        ),
    ensures
        a == a2 && r == r2 && g == g2 && b == b2,
{
}

proof fn digit_is_read(n: int)
    requires
        0 <= n < 16,
    ensures
        hex("0123456789abcdef"@[n]),
        hex_value("0123456789abcdef"@[n]) == n,
        !white_space("0123456789abcdef"@[n]),
{
    reveal_strlit("0123456789abcdef");
    let d = "0123456789abcdef"@;
    assert(d[0] == '0' && d[1] == '1' && d[2] == '2' && d[3] == '3' && d[4] == '4' && d[5] == '5'
        && d[6] == '6' && d[7] == '7' && d[8] == '8' && d[9] == '9' && d[10] == 'a' && d[11] == 'b'
        && d[12] == 'c' && d[13] == 'd' && d[14] == 'e' && d[15] == 'f');
}

/// A colour that is written as a number sign and its eight hexadecimal digits, most
/// significant first, is read back, whatever white space stands around it.
pub proof fn written_colors_are_read(n: Seq<int>, a: Seq<char>, b: Seq<char>)
    requires
        n.len() == 8,
        forall|i: int| 0 <= i < 8 ==> 0 <= #[trigger] n[i] < 16,
        forall|i: int| 0 <= i < a.len() ==> white_space(#[trigger] a[i]),
        forall|i: int| 0 <= i < b.len() ==> white_space(#[trigger] b[i]),
    ensures
        color_of(a + (seq!['#'] + n.map_values(|d: int| "0123456789abcdef"@[d])) + b) == Some(
            n[0] * 0x1000_0000 + n[1] * 0x100_0000 + n[2] * 0x10_0000 + n[3] * 0x1_0000 + n[4]
                * 0x1000 + n[5] * 0x100 + n[6] * 0x10 + n[7],
        ),
{
    let h = n.map_values(|d: int| "0123456789abcdef"@[d]);
    assert forall|i: int| 0 <= i < 8 implies hex(#[trigger] h[i]) && !white_space(h[i])
        && hex_value(h[i]) == n[i] by {
        digit_is_read(n[i]);
    }
    assert(!white_space(h[7]) && h.last() == h[7]);
    number_sign_introduces_digits(a, h, b);
    assert(hex_value(h[0]) == n[0] && hex_value(h[1]) == n[1] && hex_value(h[2]) == n[2]
        && hex_value(h[3]) == n[3]);
    assert(hex_value(h[4]) == n[4] && hex_value(h[5]) == n[5] && hex_value(h[6]) == n[6]
        && hex_value(h[7]) == n[7]);
}

/// Digits may be written in small letters or capitals.
pub proof fn digits_have_no_case(h: Seq<char>)
    ensures
        digits_color(h) == digits_color(ascii_lowered(h)),
{
    let l = ascii_lowered(h);
    assert forall|i: int| 0 <= i < h.len() implies hex(#[trigger] h[i]) == hex(l[i]) && (hex(h[i])
        ==> hex_value(h[i]) == hex_value(l[i])) by {
        assert(l[i] == ascii_lower(h[i]));
    }
    if forall|i: int| 0 <= i < h.len() ==> hex(#[trigger] h[i]) {
        assert(forall|i: int| 0 <= i < l.len() ==> hex(#[trigger] l[i])) by {
            assert forall|i: int| 0 <= i < l.len() implies hex(#[trigger] l[i]) by {
                assert(hex(h[i]));
            }
        }
    } else {
        let i = choose|i: int| 0 <= i < h.len() && !hex(#[trigger] h[i]);
        assert(!hex(l[i]));
    }
}

/// Nothing is a colour but a number sign with three, six or eight hexadecimal digits
/// behind it.
pub proof fn colors_are_made_of_digits(s: Seq<char>, i: int)
    requires
        color_of(s) is Some,
    ensures
        ({
            let t = trimmed(s);
            &&& t.len() == 4 || t.len() == 7 || t.len() == 9
            &&& t[0] == '#'
            &&& 1 <= i < t.len() ==> '0' <= t[i] <= '9' || 'a' <= t[i] <= 'f' || 'A' <= t[i] <= 'F'
        }),
{
    let t = trimmed(s);
    let h = t.skip(1);
    if 1 <= i < t.len() {
        assert(hex(h[i - 1]));
    }
}

/// A colour takes no more than 32 bits.
pub proof fn color_fits(s: Seq<char>)
    ensures
        color_of(s) matches Some(c) ==> 0 <= c <= u32::MAX,
{
    let h = trimmed(s).skip(1);
    if forall|i: int| 0 <= i < h.len() ==> hex(#[trigger] h[i]) {
        assert forall|i: int| 0 <= i < h.len() implies 0 <= hex_value(#[trigger] h[i]) < 16 by {
            assert(hex(h[i]));
        }
    }
}

/// What stands behind the number sign is read as digits, whatever white space stands
/// around.
pub proof fn number_sign_introduces_digits(a: Seq<char>, h: Seq<char>, b: Seq<char>)
    requires
        forall|i: int| 0 <= i < a.len() ==> white_space(#[trigger] a[i]),
        forall|i: int| 0 <= i < b.len() ==> white_space(#[trigger] b[i]),
        h.len() > 0 && !white_space(h.last()),
    ensures
        color_of(a + (seq!['#'] + h) + b) == digits_color(h),
{
    let t = seq!['#'] + h;
    assert(t.last() == h.last());
    assert(!white_space('#'));
    trimming_removes_white_space_around(a, t, b);
    assert(t.skip(1) == h);
}

} // verus!
