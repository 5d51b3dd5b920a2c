use qmenu::config::{
    config_candidates, default_config_path, first_existing, Config, Float, RawConfig,
};

fn float(f: f32) -> Float {
    Float { bits: f.to_bits() }
}

fn bytes(s: &str) -> Option<Vec<u8>> {
    Some(s.as_bytes().to_vec())
}

fn text(s: &str) -> Option<String> {
    Some(s.to_string())
}

fn same_config(a: &Config, b: &Config) -> bool {
    format!("{a:?}") == format!("{b:?}")
}

#[test]
fn built_in_configuration() {
    let c = Config::default();
    assert_eq!(c.bg, 0xf21e1e2e);
    assert_eq!(c.fg, 0xffcdd6f4);
    assert_eq!(c.prompt, 0xff89b4fa);
    assert_eq!(c.sel_bg, 0xff89b4fa);
    assert_eq!(c.sel_fg, 0xff11111b);
    assert_eq!(c.muted, 0xff9399b2);
    assert_eq!(c.border, 0xff89b4fa);
    assert_eq!(c.width_fraction, float(0.45));
    assert_eq!(c.min_width, 480);
    assert_eq!(c.margin_top, 8);
    assert_eq!(c.max_visible_items, 12);
    assert_eq!(c.font_size, float(15.0));
    assert_eq!(c.line_height, float(30.0));
    assert_eq!(c.pad_x, float(14.0));
    assert_eq!(c.pad_y, float(10.0));
    assert_eq!(c.corner_radius, float(14.0));
    assert_eq!(c.border_width, float(2.0));
    assert_eq!(c.row_radius, float(8.0));
    assert_eq!(c.result_gap, float(8.0));
    assert_eq!(c.font_family, None);
    assert_eq!(c.anchor, "center");
    assert!(c.icons_enabled);
    assert_eq!(c.icon_size, 20);
    assert_eq!(c.icon_gap, float(10.0));
    assert_eq!(c.icon_theme, None);
    assert!(!c.show_all_when_empty);
    assert_eq!(c.placeholder, "Search…");
    assert_eq!(c.terminal, "xterm");
    assert!(c.animate);
    assert_eq!(c.animation_ms, float(55.0));
}

#[test]
fn without_a_file_the_defaults_stand() {
    assert!(same_config(&Config::load(None), &Config::default()));
}

#[test]
fn an_empty_file_changes_nothing() {
    assert!(same_config(&Config::load(Some(RawConfig::default())), &Config::default()));
}

fn full() -> RawConfig {
    let mut r = RawConfig::default();
    r.colors.background = text("#010203");
    r.colors.foreground = text("#11010203");
    r.colors.prompt = text("#abc");
    r.colors.selection_background = text(" #040506 ");
    r.colors.selection_foreground = text("#070809");
    r.colors.muted = text("#0a0b0c");
    r.colors.border = text("#0d0e0f");
    r.layout.width_fraction = Some(float(0.6));
    r.layout.min_width = Some(300);
    r.layout.margin_top = Some(-4);
    r.layout.max_visible_items = Some(7);
    r.layout.font_size = Some(float(11.5));
    r.layout.line_height = Some(float(21.0));
    r.layout.pad_x = Some(float(1.0));
    r.layout.pad_y = Some(float(2.5));
    r.layout.corner_radius = Some(float(3.0));
    r.layout.border_width = Some(float(4.0));
    r.layout.row_radius = Some(float(5.0));
    r.layout.result_gap = Some(float(6.0));
    r.layout.font_family = text("Inter");
    r.layout.anchor = text("top");
    r.icons.enabled = Some(false);
    r.icons.size = Some(32);
    r.icons.gap = Some(float(9.0));
    r.icons.theme = text("Papirus");
    r.behavior.show_all_when_empty = Some(true);
    r.behavior.placeholder = text("Run");
    r.behavior.terminal = text("foot");
    r.behavior.animate = Some(false);
    r.behavior.animation_ms = Some(float(20.0));
    r
}

#[test]
fn every_key_is_taken_over() {
    let c = Config::load(Some(full()));
    assert_eq!(c.bg, 0xff010203);
    assert_eq!(c.fg, 0x11010203);
    assert_eq!(c.prompt, 0xffaabbcc);
    assert_eq!(c.sel_bg, 0xff040506);
    assert_eq!(c.sel_fg, 0xff070809);
    assert_eq!(c.muted, 0xff0a0b0c);
    assert_eq!(c.border, 0xff0d0e0f);
    assert_eq!(c.width_fraction, float(0.6));
    assert_eq!(c.min_width, 300);
    assert_eq!(c.margin_top, -4);
    assert_eq!(c.max_visible_items, 7);
    assert_eq!(c.font_size, float(11.5));
    assert_eq!(c.line_height, float(21.0));
    assert_eq!(c.pad_x, float(1.0));
    assert_eq!(c.pad_y, float(2.5));
    assert_eq!(c.corner_radius, float(3.0));
    assert_eq!(c.border_width, float(4.0));
    assert_eq!(c.row_radius, float(5.0));
    assert_eq!(c.result_gap, float(6.0));
    assert_eq!(c.font_family.as_deref(), Some("Inter"));
    assert_eq!(c.anchor, "top");
    assert!(!c.icons_enabled);
    assert_eq!(c.icon_size, 32);
    assert_eq!(c.icon_gap, float(9.0));
    assert_eq!(c.icon_theme.as_deref(), Some("Papirus"));
    assert!(c.show_all_when_empty);
    assert_eq!(c.placeholder, "Run");
    assert_eq!(c.terminal, "foot");
    assert!(!c.animate);
    assert_eq!(c.animation_ms, float(20.0));
}

#[test]
fn applying_a_file_twice_is_applying_it_once() {
    let once = Config::load(Some(full()));
    let mut twice = once.clone();
    full().apply(&mut twice);
    assert!(same_config(&once, &twice));
}

#[test]
fn malformed_colors_keep_the_default() {
    let mut r = RawConfig::default();
    r.colors.background = text("blue");
    r.colors.border = text("#12");
    r.colors.muted = text("#fff");
    let c = Config::load(Some(r));
    assert_eq!(c.bg, 0xf21e1e2e);
    assert_eq!(c.border, 0xff89b4fa);
    assert_eq!(c.muted, 0xffffffff);
}

#[test]
fn at_least_one_item_is_visible() {
    let mut r = RawConfig::default();
    r.layout.max_visible_items = Some(0);
    assert_eq!(Config::load(Some(r)).max_visible_items, 1);
}

#[test]
fn user_configuration_file() {
    assert_eq!(
        default_config_path(&bytes("/x"), &bytes("/home/u")),
        bytes("/x/qmenu/config.toml")
    );
    assert_eq!(
        default_config_path(&None, &bytes("/home/u")),
        bytes("/home/u/.config/qmenu/config.toml")
    );
    assert_eq!(default_config_path(&None, &None), None);
}

#[test]
fn order_of_the_configuration_files() {
    assert_eq!(
        config_candidates(bytes("a"), bytes("b"), bytes("c"), bytes("d")),
        [b"a", b"b", b"c", b"d"]
    );
    assert_eq!(config_candidates(None, bytes("b"), None, bytes("d")), [b"b", b"d"]);
    assert!(config_candidates(None, None, None, None).is_empty());
}

#[test]
fn the_first_file_that_exists_wins() {
    let files = config_candidates(bytes("a"), bytes("b"), bytes("c"), None);
    assert_eq!(first_existing(&files, &vec![false, true, true]), Some(&files[1]));
    assert_eq!(first_existing(&files, &vec![true, true, true]), Some(&files[0]));
    assert_eq!(first_existing(&files, &vec![false, false, false]), None);
}

#[test]
fn omitted_keys_keep_their_values() {
    let mut r = RawConfig::default();
    r.layout.min_width = Some(1);
    let c = Config::load(Some(r));
    let mut want = Config::default();
    want.min_width = 1;
    assert!(same_config(&c, &want));
}
