//! Where the menu stands on the screen, and the mode it was started in.

use vstd::prelude::*;

use crate::single::{single, single_error, to_single};
use crate::text::{is_text, to_chars};

verus! {

/// The bar is at least this wide.
pub const MIN_WIDTH: u32 = 480;

/// The width of the screen where no output reports one.
pub const FALLBACK_SCREEN_WIDTH: u32 = 1920;

/// The gap between the bar and the top of the screen.
pub const MARGIN_TOP: i32 = 8;

/// The part of the screen's width that the bar takes is 0.45 in single precision,
/// which is this many 2^25ths.
pub const WIDTH_FRACTION: u64 = 15_099_494;

/// A mode of an output.
#[derive(Clone, Copy, Debug)]
pub struct Mode {
    /// Whether the output is in this mode now.
    pub current: bool,
    /// Width and height in pixels.
    pub dimensions: (i32, i32),
}

/// What an output reports of itself.
#[derive(Debug)]
pub struct Output {
    /// Width and height in the compositor's space.
    pub logical_size: Option<(i32, i32)>,
    pub modes: Vec<Mode>,
}

/// The dimensions of the first current mode.
pub open spec fn current_dimensions(modes: Seq<Mode>) -> Option<(i32, i32)>
    decreases modes.len(),
{
    if modes.len() == 0 {
        None
    } else if modes[0].current {
        Some(modes[0].dimensions)
    } else {
        current_dimensions(modes.skip(1))
    }
}

/// The 32-bit pattern of `w` without a sign.
pub open spec fn unsigned(w: i32) -> int {
    if w < 0 {
        w + 0x1_0000_0000
    } else {
        w as int
    }
}

/// The width of an output, by its logical size if it has one, else by its mode.
pub open spec fn output_width(o: Output) -> Option<int> {
    match o.logical_size {
        Some((w, _)) => Some(unsigned(w)),
        None => match current_dimensions(o.modes@) {
            Some((w, _)) => Some(unsigned(w)),
            None => None,
        },
    }
}

/// The width of the widest output that has one.
pub open spec fn widest(outputs: Seq<Output>) -> Option<int>
    decreases outputs.len(),
{
    if outputs.len() == 0 {
        None
    } else {
        match (widest(outputs.drop_last()), output_width(outputs.last())) {
            (Some(a), Some(b)) => Some(
                if a <= b {
                    b
                } else {
                    a
                },
            ),
            (Some(a), None) => Some(a),
            (None, b) => b,
        }
    }
}

fn to_unsigned(w: i32) -> (r: u32)
    ensures
        r == unsigned(w),
{
    if w < 0 {
        (w as i64 + 0x1_0000_0000) as u32
    } else {
        w as u32
    }
}

fn find_width(o: &Output) -> (r: Option<u32>)
    ensures
        match r {
            Some(w) => output_width(*o) == Some(w as int),
            None => output_width(*o) is None,
        },
{
    if let Some((w, _)) = o.logical_size {
        return Some(to_unsigned(w));
    }
    let mut i: usize = 0;
    assert(o.modes@.skip(0) == o.modes@);
    while i < o.modes.len()
        invariant
            i <= o.modes@.len(),
            o.logical_size is None,
            current_dimensions(o.modes@) == current_dimensions(o.modes@.skip(i as int)),
        decreases o.modes.len() - i,
    {
        let mode = o.modes[i];
        assert(o.modes@.skip(i as int)[0] == mode);
        if mode.current {
            return Some(to_unsigned(mode.dimensions.0));
        }
        assert(o.modes@.skip(i as int).skip(1) == o.modes@.skip(i + 1));
        i += 1;
    }
    None
}

/// The width of the widest output.
pub fn screen_width(outputs: &Vec<Output>) -> (w: u32)
    ensures
        w == match widest(outputs@) {
            Some(w) => w,
            None => FALLBACK_SCREEN_WIDTH as int,
        },
{
    let mut max: Option<u32> = None;
    let mut i: usize = 0;
    assert(outputs@.take(0).len() == 0);
    while i < outputs.len()
        invariant
            i <= outputs@.len(),
            match max {
                Some(w) => widest(outputs@.take(i as int)) == Some(w as int),
                None => widest(outputs@.take(i as int)) is None,
            },
        decreases outputs.len() - i,
    {
        let ghost next = outputs@.take(i + 1);
        assert(next.drop_last() == outputs@.take(i as int));
        max = match (max, find_width(&outputs[i])) {
            (Some(a), Some(b)) => Some(
                if a <= b {
                    b
                } else {
                    a
                },
            ),
            (Some(a), None) => Some(a),
            (None, b) => b,
        };
        i += 1;
    }
    assert(outputs@.take(i as int) == outputs@);
    match max {
        Some(w) => w,
        None => FALLBACK_SCREEN_WIDTH,
    }
}

/// The bar's part of a screen of the given width, computed in single precision and
/// cut off to whole pixels.
pub open spec fn width_part(screen_width: u32) -> int {
    single(single(screen_width as int) * WIDTH_FRACTION) / 0x200_0000
}

/// The width of the bar on a screen of the given width.
pub fn bar_width(screen_width: u32) -> (w: u32)
    ensures
        w == if width_part(screen_width) < MIN_WIDTH {
            MIN_WIDTH as int
        } else {
            width_part(screen_width)
        },
{
    proof {
        single_error(screen_width as int);
    }
    let screen: u64 = to_single(screen_width as u64);
    assert(screen <= 0x1_0000_0100);
    assert(screen * WIDTH_FRACTION <= 0x1_0000_0100 * 15_099_494);
    proof {
        single_error(screen * WIDTH_FRACTION);
    }
    let part: u64 = to_single(screen * WIDTH_FRACTION) / 0x200_0000;
    if part < MIN_WIDTH as u64 {
        MIN_WIDTH
    } else {
        part as u32
    }
}

/// Whether the arguments, behind the program's name, ask for applications in place
/// of lines to choose from.
pub fn wants_drun(args: &Vec<String>) -> (b: bool)
    ensures
        b <==> exists|i: int| 1 <= i < args@.len() && #[trigger] args@[i]@ == "--drun"@,
{
    let mut i: usize = 1;
    while i < args.len()
        invariant
            1 <= i,
            forall|j: int| 1 <= j < i && j < args@.len() ==> #[trigger] args@[j]@ != "--drun"@,
        decreases args.len() - i,
    {
        if is_text(to_chars(args[i].as_str()).as_slice(), "--drun") {
            return true;
        }
        i += 1;
    }
    false
}

/// The bar takes 45 percent of the screen, to within a pixel on screens of less
/// than 2^19 pixels and in proportion beyond.
pub proof fn bar_takes_its_part(screen_width: u32)
    ensures
        20 * width_part(screen_width) <= 9 * screen_width + 1 + screen_width / 0x8_0000,
        20 * width_part(screen_width) >= 9 * screen_width - 21 - screen_width / 0x8_0000,
{
    single_error(screen_width as int);
    let p = single(screen_width as int) * WIDTH_FRACTION;
    single_error(p);
}

/// No output is wider than the screen, and the screen is as wide as one of them.
pub proof fn widest_is_a_maximum(outputs: Seq<Output>, i: int)
    requires
        0 <= i < outputs.len(),
    ensures
        output_width(outputs[i]) matches Some(w) ==> (widest(outputs) matches Some(m) && w <= m),
        widest(outputs) matches Some(m) ==> exists|j: int|
            0 <= j < outputs.len() && output_width(#[trigger] outputs[j]) == Some(m),
    decreases outputs.len(),
{
    let rest = outputs.drop_last();
    if rest.len() > 0 {
        let k = if i < rest.len() {
            i
        } else {
            0
        };
        widest_is_a_maximum(rest, k);
        if widest(rest) is Some && widest(rest) == widest(outputs) {
            let j = choose|j: int|
                0 <= j < rest.len() && output_width(#[trigger] rest[j]) == widest(rest);
            assert(outputs[j] == rest[j]);
        }
    }
    assert(outputs.last() == outputs[outputs.len() - 1]);
}

/// The width of an output is that of its logical size, whatever its modes; without one,
/// that of the first mode that is current. A negative number counts as its bit pattern
/// without a sign.
pub proof fn output_width_is_logical_or_current(o: Output, i: int)
    ensures
        o.logical_size matches Some((w, h)) ==> output_width(o) == Some(
            w as int % 0x1_0000_0000,
        ),
        o.logical_size is None && 0 <= i < o.modes@.len() && o.modes@[i].current && (forall|j: int|
            0 <= j < i ==> !(#[trigger] o.modes@[j]).current) ==> output_width(o) == Some(
            o.modes@[i].dimensions.0 as int % 0x1_0000_0000,
        ),
        o.logical_size is None && (forall|j: int|
            0 <= j < o.modes@.len() ==> !(#[trigger] o.modes@[j]).current) ==> output_width(
            o,
        ) is None,
{
    if forall|j: int| 0 <= j < o.modes@.len() ==> !(#[trigger] o.modes@[j]).current {
        no_mode_is_current(o.modes@);
    }
    if 0 <= i < o.modes@.len() && o.modes@[i].current && (forall|j: int|
        0 <= j < i ==> !(#[trigger] o.modes@[j]).current) {
        first_current_mode(o.modes@, i);
    }
}

proof fn first_current_mode(modes: Seq<Mode>, i: int)
    requires
        0 <= i < modes.len(),
        modes[i].current,
        forall|j: int| 0 <= j < i ==> !(#[trigger] modes[j]).current,
    ensures
        current_dimensions(modes) == Some(modes[i].dimensions),
    decreases i,
{
    if i > 0 {
        let rest = modes.skip(1);
        assert(!modes[0].current);
        assert forall|j: int| 0 <= j < i - 1 implies !(#[trigger] rest[j]).current by {
            assert(rest[j] == modes[j + 1]);
        }
        first_current_mode(rest, i - 1);
    }
}

proof fn no_mode_is_current(modes: Seq<Mode>)
    requires
        forall|j: int| 0 <= j < modes.len() ==> !(#[trigger] modes[j]).current,
    ensures
        current_dimensions(modes) is None,
    decreases modes.len(),
{
    if modes.len() > 0 {
        let rest = modes.skip(1);
        assert(!modes[0].current);
        assert forall|j: int| 0 <= j < rest.len() implies !(#[trigger] rest[j]).current by {
            assert(rest[j] == modes[j + 1]);
        }
        no_mode_is_current(rest);
    }
}

/// Outputs without a width do not count, wherever they stand.
pub proof fn outputs_without_a_width_do_not_count(a: Seq<Output>, o: Output)
    ensures
        output_width(o) is None ==> widest(a.push(o)) == widest(a),
        widest(Seq::empty()) is None,
{
    assert(a.push(o).drop_last() == a);
}

} // verus!
