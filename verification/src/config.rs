//! Runtime configuration.
//!
//! Everything that affects appearance or behaviour can be set in a TOML file, so
//! that the launcher can be themed without recompiling. Of these files the first
//! that exists wins:
//!
//!   1. the path given on the command line
//!   2. `$QMENU_CONFIG`
//!   3. `$XDG_CONFIG_HOME/qmenu/config.toml` (or `~/.config/qmenu/config.toml`)
//!   4. `$QMENU_DEFAULT_CONFIG`, a packaged fallback that the user's own file
//!      overrides
//!
//! Any key the file omits keeps its built-in default, so a partial file is fine.

use vstd::prelude::*;
use vstd::utf8::encode_utf8;

use crate::color::{color_fits, color_of, parse_color};
use crate::path::{join, joined, paths};

verus! {

/// A single-precision number, held by its IEEE 754 bit pattern. The
/// configuration only hands such numbers on.
#[derive(Clone, Copy, Debug, PartialEq, Eq, Structural)]
pub struct Float {
    pub bits: u32,
}

/// The configuration the rest of the program uses. Colours are `0xAARRGGBB`.
#[derive(Clone, Debug)]
pub struct Config {
    pub bg: u32,
    pub fg: u32,
    pub prompt: u32,
    pub sel_bg: u32,
    pub sel_fg: u32,
    pub muted: u32,
    pub border: u32,
    pub width_fraction: Float,
    pub min_width: u32,
    pub margin_top: i32,
    pub max_visible_items: usize,
    pub font_size: Float,
    pub line_height: Float,
    pub pad_x: Float,
    pub pad_y: Float,
    pub corner_radius: Float,
    pub border_width: Float,
    pub row_radius: Float,
    /// Gap between the prompt panel and the results panel, in pixels.
    pub result_gap: Float,
    pub font_family: Option<String>,
    /// Vertical placement: `center`, or `top` (which uses `margin_top`).
    pub anchor: String,
    pub icons_enabled: bool,
    pub icon_size: u32,
    pub icon_gap: Float,
    pub icon_theme: Option<String>,
    pub show_all_when_empty: bool,
    pub placeholder: String,
    pub terminal: String,
    /// Animate the results drawer growing and shrinking.
    pub animate: bool,
    /// Smoothing time constant of the animation in ms; smaller is snappier.
    pub animation_ms: Float,
}

/// What a configuration file says. Every key is optional.
#[derive(Debug)]
pub struct RawConfig {
    pub colors: RawColors,
    pub layout: RawLayout,
    pub icons: RawIcons,
    pub behavior: RawBehavior,
}

#[derive(Debug)]
pub struct RawColors {
    pub background: Option<String>,
    pub foreground: Option<String>,
    pub prompt: Option<String>,
    pub selection_background: Option<String>,
    pub selection_foreground: Option<String>,
    pub muted: Option<String>,
    pub border: Option<String>,
}

#[derive(Debug)]
pub struct RawLayout {
    pub width_fraction: Option<Float>,
    pub min_width: Option<u32>,
    pub margin_top: Option<i32>,
    pub max_visible_items: Option<usize>,
    pub font_size: Option<Float>,
    pub line_height: Option<Float>,
    pub pad_x: Option<Float>,
    pub pad_y: Option<Float>,
    pub corner_radius: Option<Float>,
    pub border_width: Option<Float>,
    pub row_radius: Option<Float>,
    pub result_gap: Option<Float>,
    pub font_family: Option<String>,
    pub anchor: Option<String>,
}

#[derive(Debug)]
pub struct RawIcons {
    pub enabled: Option<bool>,
    pub size: Option<u32>,
    pub gap: Option<Float>,
    pub theme: Option<String>,
}

#[derive(Debug)]
pub struct RawBehavior {
    pub show_all_when_empty: Option<bool>,
    pub placeholder: Option<String>,
    pub terminal: Option<String>,
    pub animate: Option<bool>,
    pub animation_ms: Option<Float>,
}

/// The value that is set, or else the one that stood before.
pub open spec fn set_or<T>(value: Option<T>, before: T) -> T {
    match value {
        Some(v) => v,
        None => before,
    }
}

/// The colour that is named, or else the one that stood before. A malformed
/// name counts as none.
pub open spec fn color_or(name: Option<String>, before: u32) -> u32 {
    match name {
        Some(s) => match color_of(s@) {
            Some(c) => c as u32,
            None => before,
        },
        None => before,
    }
}

/// An optional value that is set, or else the one that stood before.
pub open spec fn some_or<T>(value: Option<T>, before: Option<T>) -> Option<T> {
    if value is Some {
        value
    } else {
        before
    }
}

impl RawConfig {
    /// No key set.
    pub open spec fn sets_nothing(&self) -> bool {
        *self == (RawConfig {
            colors: RawColors {
                background: None,
                foreground: None,
                prompt: None,
                selection_background: None,
                selection_foreground: None,
                muted: None,
                border: None,
            },
            layout: RawLayout {
                width_fraction: None,
                min_width: None,
                margin_top: None,
                max_visible_items: None,
                font_size: None,
                line_height: None,
                pad_x: None,
                pad_y: None,
                corner_radius: None,
                border_width: None,
                row_radius: None,
                result_gap: None,
                font_family: None,
                anchor: None,
            },
            icons: RawIcons { enabled: None, size: None, gap: None, theme: None },
            behavior: RawBehavior {
                show_all_when_empty: None,
                placeholder: None,
                terminal: None,
                animate: None,
                animation_ms: None,
            },
        })
    }

    /// The configuration that the file makes of `c`: what it sets is taken over,
    /// the rest stays. At least one item is visible.
    pub open spec fn applied(self, c: Config) -> Config {
        Config {
            bg: color_or(self.colors.background, c.bg),
            fg: color_or(self.colors.foreground, c.fg),
            prompt: color_or(self.colors.prompt, c.prompt),
            sel_bg: color_or(self.colors.selection_background, c.sel_bg),
            sel_fg: color_or(self.colors.selection_foreground, c.sel_fg),
            muted: color_or(self.colors.muted, c.muted),
            border: color_or(self.colors.border, c.border),
            width_fraction: set_or(self.layout.width_fraction, c.width_fraction),
            min_width: set_or(self.layout.min_width, c.min_width),
            margin_top: set_or(self.layout.margin_top, c.margin_top),
            max_visible_items: match self.layout.max_visible_items {
                Some(v) => if v == 0 {
                    1
                } else {
                    v
                },
                None => c.max_visible_items,
            },
            font_size: set_or(self.layout.font_size, c.font_size),
            line_height: set_or(self.layout.line_height, c.line_height),
            pad_x: set_or(self.layout.pad_x, c.pad_x),
            pad_y: set_or(self.layout.pad_y, c.pad_y),
            corner_radius: set_or(self.layout.corner_radius, c.corner_radius),
            border_width: set_or(self.layout.border_width, c.border_width),
            row_radius: set_or(self.layout.row_radius, c.row_radius),
            result_gap: set_or(self.layout.result_gap, c.result_gap),
            font_family: some_or(self.layout.font_family, c.font_family),
            anchor: set_or(self.layout.anchor, c.anchor),
            icons_enabled: set_or(self.icons.enabled, c.icons_enabled),
            icon_size: set_or(self.icons.size, c.icon_size),
            icon_gap: set_or(self.icons.gap, c.icon_gap),
            icon_theme: some_or(self.icons.theme, c.icon_theme),
            show_all_when_empty: set_or(self.behavior.show_all_when_empty, c.show_all_when_empty),
            placeholder: set_or(self.behavior.placeholder, c.placeholder),
            terminal: set_or(self.behavior.terminal, c.terminal),
            animate: set_or(self.behavior.animate, c.animate),
            animation_ms: set_or(self.behavior.animation_ms, c.animation_ms),
        }
    }
}

fn pick_color(name: &Option<String>, before: u32) -> (c: u32)
    ensures
        c == color_or(*name, before),
{
    match name {
        Some(s) => match parse_color(s.as_str()) {
            Some(c) => c,
            None => before,
        },
        None => before,
    }
}

fn set<T>(slot: &mut T, value: Option<T>)
    ensures
        *final(slot) == set_or(value, *old(slot)),
{
    if let Some(v) = value {
        *slot = v;
    }
}

fn set_some<T>(slot: &mut Option<T>, value: Option<T>)
    ensures
        *final(slot) == some_or(value, *old(slot)),
{
    if value.is_some() {
        *slot = value;
    }
}

fn at_least_one(value: Option<usize>) -> (r: Option<usize>)
    ensures
        r == (match value {
            Some(v) => Some(
                if v == 0 {
                    1
                } else {
                    v
                },
            ),
            None => None,
        }),
{
    match value {
        Some(v) => Some(
            if v == 0 {
                1
            } else {
                v
            },
        ),
        None => None,
    }
}

impl RawConfig {
    /// Takes over into `c` what the file sets.
    pub fn apply(self, c: &mut Config)
        ensures
            *final(c) == self.applied(*old(c)),
    {
        c.bg = pick_color(&self.colors.background, c.bg);
        c.fg = pick_color(&self.colors.foreground, c.fg);
        c.prompt = pick_color(&self.colors.prompt, c.prompt);
        c.sel_bg = pick_color(&self.colors.selection_background, c.sel_bg);
        c.sel_fg = pick_color(&self.colors.selection_foreground, c.sel_fg);
        c.muted = pick_color(&self.colors.muted, c.muted);
        c.border = pick_color(&self.colors.border, c.border);

        let l = self.layout;
        set(&mut c.width_fraction, l.width_fraction);
        set(&mut c.min_width, l.min_width);
        set(&mut c.margin_top, l.margin_top);
        set(&mut c.max_visible_items, at_least_one(l.max_visible_items));
        set(&mut c.font_size, l.font_size);
        set(&mut c.line_height, l.line_height);
        set(&mut c.pad_x, l.pad_x);
        set(&mut c.pad_y, l.pad_y);
        set(&mut c.corner_radius, l.corner_radius);
        set(&mut c.border_width, l.border_width);
        set(&mut c.row_radius, l.row_radius);
        set(&mut c.result_gap, l.result_gap);
        set_some(&mut c.font_family, l.font_family);
        set(&mut c.anchor, l.anchor);

        let i = self.icons;
        set(&mut c.icons_enabled, i.enabled);
        set(&mut c.icon_size, i.size);
        set(&mut c.icon_gap, i.gap);
        set_some(&mut c.icon_theme, i.theme);

        let b = self.behavior;
        set(&mut c.show_all_when_empty, b.show_all_when_empty);
        set(&mut c.placeholder, b.placeholder);
        set(&mut c.terminal, b.terminal);
        set(&mut c.animate, b.animate);
        set(&mut c.animation_ms, b.animation_ms);
    }
}

impl Default for RawConfig {
    /// A file that sets nothing.
    fn default() -> (r: Self)
        ensures
            r.sets_nothing(),
    {
        RawConfig {
            colors: RawColors {
                background: None,
                foreground: None,
                prompt: None,
                selection_background: None,
                selection_foreground: None,
                muted: None,
                border: None,
            },
            layout: RawLayout {
                width_fraction: None,
                min_width: None,
                margin_top: None,
                max_visible_items: None,
                font_size: None,
                line_height: None,
                pad_x: None,
                pad_y: None,
                corner_radius: None,
                border_width: None,
                row_radius: None,
                result_gap: None,
                font_family: None,
                anchor: None,
            },
            icons: RawIcons { enabled: None, size: None, gap: None, theme: None },
            behavior: RawBehavior {
                show_all_when_empty: None,
                placeholder: None,
                terminal: None,
                animate: None,
                animation_ms: None,
            },
        }
    }
}

impl Config {
    /// The built-in configuration: a neutral dark theme with a blue accent.
    pub open spec fn built_in(&self) -> bool {
        &&& self.bg == 0xf21e_1e2e
        &&& self.fg == 0xffcd_d6f4
        &&& self.prompt == 0xff89_b4fa
        &&& self.sel_bg == 0xff89_b4fa
        &&& self.sel_fg == 0xff11_111b
        &&& self.muted == 0xff93_99b2
        &&& self.border == 0xff89_b4fa
        // 0.45
        &&& self.width_fraction.bits == 0x3ee6_6666
        &&& self.min_width == 480
        &&& self.margin_top == 8
        &&& self.max_visible_items == 12
        // 15.0
        &&& self.font_size.bits == 0x4170_0000
        // 30.0
        &&& self.line_height.bits == 0x41f0_0000
        // 14.0
        &&& self.pad_x.bits == 0x4160_0000
        // 10.0
        &&& self.pad_y.bits == 0x4120_0000
        // 14.0
        &&& self.corner_radius.bits == 0x4160_0000
        // 2.0
        &&& self.border_width.bits == 0x4000_0000
        // 8.0
        &&& self.row_radius.bits == 0x4100_0000
        // 8.0
        &&& self.result_gap.bits == 0x4100_0000
        &&& self.font_family is None
        &&& self.anchor@ == "center"@
        &&& self.icons_enabled
        &&& self.icon_size == 20
        // 10.0
        &&& self.icon_gap.bits == 0x4120_0000
        &&& self.icon_theme is None
        &&& !self.show_all_when_empty
        &&& self.placeholder@ == "Search…"@
        &&& self.terminal@ == "xterm"@
        &&& self.animate
        // 55.0
        &&& self.animation_ms.bits == 0x425c_0000
    }
}

impl Default for Config {
    fn default() -> (c: Self)
        ensures
            c.built_in(),
    {
        Config {
            bg: 0xf21e_1e2e,
            fg: 0xffcd_d6f4,
            prompt: 0xff89_b4fa,
            sel_bg: 0xff89_b4fa,
            sel_fg: 0xff11_111b,
            muted: 0xff93_99b2,
            border: 0xff89_b4fa,
            width_fraction: Float { bits: 0x3ee6_6666 },
            min_width: 480,
            margin_top: 8,
            max_visible_items: 12,
            font_size: Float { bits: 0x4170_0000 },
            line_height: Float { bits: 0x41f0_0000 },
            pad_x: Float { bits: 0x4160_0000 },
            pad_y: Float { bits: 0x4120_0000 },
            corner_radius: Float { bits: 0x4160_0000 },
            border_width: Float { bits: 0x4000_0000 },
            row_radius: Float { bits: 0x4100_0000 },
            result_gap: Float { bits: 0x4100_0000 },
            font_family: None,
            anchor: "center".to_owned(),
            icons_enabled: true,
            icon_size: 20,
            icon_gap: Float { bits: 0x4120_0000 },
            icon_theme: None,
            show_all_when_empty: false,
            placeholder: "Search…".to_owned(),
            terminal: "xterm".to_owned(),
            animate: true,
            animation_ms: Float { bits: 0x425c_0000 },
        }
    }
}

impl Config {
    /// The built-in configuration with what the file sets on top. `raw` is
    /// absent where there is no file, or none that can be read and parsed.
    pub fn load(raw: Option<RawConfig>) -> (c: Config)
        ensures
            exists|d: Config| #[trigger] d.built_in() && c == (match raw {
                Some(r) => r.applied(d),
                None => d,
            }),
    {
        let mut c: Config = Config::default();
        let ghost d = c;
        match raw {
            Some(r) => r.apply(&mut c),
            None => {},
        }
        assert(d.built_in());
        c
    }
}

/// Where the user's own configuration file is looked for.
pub open spec fn user_config_path(config_home: Option<Seq<u8>>, home: Option<Seq<u8>>) -> Option<
    Seq<u8>,
> {
    let file = encode_utf8("qmenu/config.toml"@);
    match config_home {
        Some(dir) => Some(joined(dir, file)),
        None => match home {
            Some(home) => Some(joined(joined(home, encode_utf8(".config"@)), file)),
            None => None,
        },
    }
}

/// What an optional path stands for.
pub open spec fn path_view(p: Option<Vec<u8>>) -> Option<Seq<u8>> {
    match p {
        Some(v) => Some(v@),
        None => None,
    }
}

/// Where the user's own configuration file is looked for, from
/// `$XDG_CONFIG_HOME` and `$HOME`.
pub fn default_config_path(config_home: &Option<Vec<u8>>, home: &Option<Vec<u8>>) -> (p: Option<
    Vec<u8>,
>)
    ensures
        path_view(p) == user_config_path(path_view(*config_home), path_view(*home)),
{
    let file = "qmenu/config.toml".as_bytes();
    match config_home {
        Some(dir) => Some(join(dir.as_slice(), file)),
        None => match home {
            Some(home) => {
                let dir = join(home.as_slice(), ".config".as_bytes());
                Some(join(dir.as_slice(), file))
            },
            None => None,
        },
    }
}

/// The one-element list of a path that is given, the empty list otherwise.
pub open spec fn given(p: Option<Vec<u8>>) -> Seq<Seq<u8>> {
    match p {
        Some(v) => seq![v@],
        None => seq![],
    }
}

/// The places to look for a configuration file, first the one that wins.
pub fn config_candidates(
    explicit: Option<Vec<u8>>,
    from_env: Option<Vec<u8>>,
    user: Option<Vec<u8>>,
    packaged: Option<Vec<u8>>,
) -> (v: Vec<Vec<u8>>)
    ensures
        paths(v@) == given(explicit) + given(from_env) + given(user) + given(packaged),
{
    let mut v: Vec<Vec<u8>> = Vec::new();
    match explicit {
        Some(p) => v.push(p),
        None => {},
    }
    match from_env {
        Some(p) => v.push(p),
        None => {},
    }
    match user {
        Some(p) => v.push(p),
        None => {},
    }
    match packaged {
        Some(p) => v.push(p),
        None => {},
    }
    assert(paths(v@) == given(explicit) + given(from_env) + given(user) + given(packaged));
    v
}

/// The first candidate that exists; `exists` tells of each whether it does.
pub fn first_existing<'a>(candidates: &'a Vec<Vec<u8>>, exists: &Vec<bool>) -> (p: Option<
    &'a Vec<u8>,
>)
    requires
        candidates@.len() == exists@.len(),
    ensures
        p is None <==> forall|i: int| 0 <= i < exists@.len() ==> !#[trigger] exists@[i],
        p matches Some(path) ==> exists|i: int|
            {
                &&& 0 <= i < exists@.len()
                &&& #[trigger] exists@[i]
                &&& forall|k: int| 0 <= k < i ==> !#[trigger] exists@[k]
                &&& *path == candidates@[i]
            },
{
    let mut i: usize = 0;
    while i < candidates.len()
        invariant
            i <= candidates@.len(),
            candidates@.len() == exists@.len(),
            forall|k: int| 0 <= k < i ==> !#[trigger] exists@[k],
        decreases candidates.len() - i,
    {
        if exists[i] {
            return Some(&candidates[i]);
        }
        i += 1;
    }
    None
}

/// A file that sets nothing changes nothing.
pub proof fn empty_file_changes_nothing(raw: RawConfig, c: Config)
    requires
        raw.sets_nothing(),
    ensures
        raw.applied(c) == c,
{
}

/// A key that the file omits keeps its value.
pub proof fn omitted_keys_keep_their_values(raw: RawConfig, c: Config)
    ensures
        ({
            let d = raw.applied(c);
            &&& raw.colors.background is None ==> d.bg == c.bg
            &&& raw.colors.foreground is None ==> d.fg == c.fg
            &&& raw.colors.prompt is None ==> d.prompt == c.prompt
            &&& raw.colors.selection_background is None ==> d.sel_bg == c.sel_bg
            &&& raw.colors.selection_foreground is None ==> d.sel_fg == c.sel_fg
            &&& raw.colors.muted is None ==> d.muted == c.muted
            &&& raw.colors.border is None ==> d.border == c.border
            &&& raw.layout.width_fraction is None ==> d.width_fraction == c.width_fraction
            &&& raw.layout.min_width is None ==> d.min_width == c.min_width
            &&& raw.layout.margin_top is None ==> d.margin_top == c.margin_top
            &&& raw.layout.max_visible_items is None ==> d.max_visible_items == c.max_visible_items
            &&& raw.layout.font_size is None ==> d.font_size == c.font_size
            &&& raw.layout.line_height is None ==> d.line_height == c.line_height
            &&& raw.layout.pad_x is None ==> d.pad_x == c.pad_x
            &&& raw.layout.pad_y is None ==> d.pad_y == c.pad_y
            &&& raw.layout.corner_radius is None ==> d.corner_radius == c.corner_radius
            &&& raw.layout.border_width is None ==> d.border_width == c.border_width
            &&& raw.layout.row_radius is None ==> d.row_radius == c.row_radius
            &&& raw.layout.result_gap is None ==> d.result_gap == c.result_gap
            &&& raw.layout.font_family is None ==> d.font_family == c.font_family
            &&& raw.layout.anchor is None ==> d.anchor == c.anchor
            &&& raw.icons.enabled is None ==> d.icons_enabled == c.icons_enabled
            &&& raw.icons.size is None ==> d.icon_size == c.icon_size
            &&& raw.icons.gap is None ==> d.icon_gap == c.icon_gap
            &&& raw.icons.theme is None ==> d.icon_theme == c.icon_theme
            &&& raw.behavior.show_all_when_empty is None ==> d.show_all_when_empty == c.show_all_when_empty
            &&& raw.behavior.placeholder is None ==> d.placeholder == c.placeholder
            &&& raw.behavior.terminal is None ==> d.terminal == c.terminal
            &&& raw.behavior.animate is None ==> d.animate == c.animate
            &&& raw.behavior.animation_ms is None ==> d.animation_ms == c.animation_ms
        }),
{
}

/// A key that the file sets takes effect, a colour if it is well formed, and at least
/// one item is visible.
pub proof fn set_keys_take_effect(raw: RawConfig, c: Config)
    ensures
        ({
            let d = raw.applied(c);
            &&& raw.colors.background matches Some(s) ==> (color_of(s@) matches Some(v) ==> d.bg == v)
            &&& raw.colors.background matches Some(s) ==> (color_of(s@) is None ==> d.bg == c.bg)
            &&& raw.colors.foreground matches Some(s) ==> (color_of(s@) matches Some(v) ==> d.fg == v)
            &&& raw.colors.foreground matches Some(s) ==> (color_of(s@) is None ==> d.fg == c.fg)
            &&& raw.colors.prompt matches Some(s) ==> (color_of(s@) matches Some(v) ==> d.prompt == v)
            &&& raw.colors.prompt matches Some(s) ==> (color_of(s@) is None ==> d.prompt == c.prompt)
            &&& raw.colors.selection_background matches Some(s) ==> (color_of(s@) matches Some(v) ==> d.sel_bg == v)
            &&& raw.colors.selection_background matches Some(s) ==> (color_of(s@) is None ==> d.sel_bg == c.sel_bg)
            &&& raw.colors.selection_foreground matches Some(s) ==> (color_of(s@) matches Some(v) ==> d.sel_fg == v)
            &&& raw.colors.selection_foreground matches Some(s) ==> (color_of(s@) is None ==> d.sel_fg == c.sel_fg)
            &&& raw.colors.muted matches Some(s) ==> (color_of(s@) matches Some(v) ==> d.muted == v)
            &&& raw.colors.muted matches Some(s) ==> (color_of(s@) is None ==> d.muted == c.muted)
            &&& raw.colors.border matches Some(s) ==> (color_of(s@) matches Some(v) ==> d.border == v)
            &&& raw.colors.border matches Some(s) ==> (color_of(s@) is None ==> d.border == c.border)
            &&& raw.layout.width_fraction matches Some(v) ==> d.width_fraction == v
            &&& raw.layout.min_width matches Some(v) ==> d.min_width == v
            &&& raw.layout.margin_top matches Some(v) ==> d.margin_top == v
            &&& raw.layout.font_size matches Some(v) ==> d.font_size == v
            &&& raw.layout.line_height matches Some(v) ==> d.line_height == v
            &&& raw.layout.pad_x matches Some(v) ==> d.pad_x == v
            &&& raw.layout.pad_y matches Some(v) ==> d.pad_y == v
            &&& raw.layout.corner_radius matches Some(v) ==> d.corner_radius == v
            &&& raw.layout.border_width matches Some(v) ==> d.border_width == v
            &&& raw.layout.row_radius matches Some(v) ==> d.row_radius == v
            &&& raw.layout.result_gap matches Some(v) ==> d.result_gap == v
            &&& raw.layout.anchor matches Some(v) ==> d.anchor == v
            &&& raw.layout.max_visible_items matches Some(v) ==> (v >= 1 ==> d.max_visible_items == v)
            &&& raw.layout.max_visible_items == Some(0usize) ==> d.max_visible_items == 1
            &&& raw.layout.font_family is Some ==> d.font_family == raw.layout.font_family
            &&& raw.icons.enabled matches Some(v) ==> d.icons_enabled == v
            &&& raw.icons.size matches Some(v) ==> d.icon_size == v
            &&& raw.icons.gap matches Some(v) ==> d.icon_gap == v
            &&& raw.icons.theme is Some ==> d.icon_theme == raw.icons.theme
            &&& raw.behavior.show_all_when_empty matches Some(v) ==> d.show_all_when_empty == v
            &&& raw.behavior.placeholder matches Some(v) ==> d.placeholder == v
            &&& raw.behavior.terminal matches Some(v) ==> d.terminal == v
            &&& raw.behavior.animate matches Some(v) ==> d.animate == v
            &&& raw.behavior.animation_ms matches Some(v) ==> d.animation_ms == v
        }),
{
    colors_fit(raw.colors);
}

proof fn colors_fit(r: RawColors)
    ensures
        r.background matches Some(s) ==> (color_of(s@) matches Some(v) ==> 0 <= v <= u32::MAX),
        r.foreground matches Some(s) ==> (color_of(s@) matches Some(v) ==> 0 <= v <= u32::MAX),
        r.prompt matches Some(s) ==> (color_of(s@) matches Some(v) ==> 0 <= v <= u32::MAX),
        r.selection_background matches Some(s) ==> (color_of(s@) matches Some(v) ==> 0 <= v
            <= u32::MAX),
        r.selection_foreground matches Some(s) ==> (color_of(s@) matches Some(v) ==> 0 <= v
            <= u32::MAX),
        r.muted matches Some(s) ==> (color_of(s@) matches Some(v) ==> 0 <= v <= u32::MAX),
        r.border matches Some(s) ==> (color_of(s@) matches Some(v) ==> 0 <= v <= u32::MAX),
{
    assert forall|s: Seq<char>| #[trigger] color_of(s) matches Some(v) ==> 0 <= v <= u32::MAX by {
        color_fits(s);
    }
}

/// Where the user's configuration file is: `qmenu/config.toml` in the configuration
/// directory that is named, or else in `.config` in the home directory.
pub proof fn user_config_is_looked_for_here(config_home: Option<Seq<u8>>, home: Option<Seq<u8>>)
    ensures
        config_home matches Some(dir) ==> user_config_path(config_home, home) == Some(
            joined(dir, encode_utf8("qmenu/config.toml"@)),
        ),
        config_home is None ==> (home matches Some(home) ==> user_config_path(
            config_home,
            Some(home),
        ) == Some(
            joined(joined(home, encode_utf8(".config"@)), encode_utf8("qmenu/config.toml"@)),
        )),
        config_home is None && home is None ==> user_config_path(config_home, home) is None,
{
}

/// Applying a file a second time changes nothing more.
pub proof fn applying_twice_is_applying_once(raw: RawConfig, c: Config)
    ensures
        raw.applied(raw.applied(c)) == raw.applied(c),
{
}

/// No file hides all the items.
pub proof fn some_item_stays_visible(raw: RawConfig, c: Config)
    requires
        c.max_visible_items >= 1,
    ensures
        raw.applied(c).max_visible_items >= 1,
{
}

/// The candidates are the paths that are given, in the order of their precedence.
pub proof fn given_paths_are_candidates(p: Vec<u8>)
    ensures
        given(Some(p)) == seq![p@],
        given(None) == Seq::<Seq<u8>>::empty(),
        path_view(Some(p)) == Some(p@),
        path_view(None) is None,
{
}

} // verus!
