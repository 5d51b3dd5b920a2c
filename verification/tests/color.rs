use qmenu::color::{argb_to_text_color, parse_color, Rgba};

#[test]
fn parses_the_three_notations() {
    assert_eq!(parse_color("#89b4fa"), Some(0xff89b4fa));
    assert_eq!(parse_color("#89B4FA"), Some(0xff89b4fa));
    assert_eq!(parse_color("#f21e1e2e"), Some(0xf21e1e2e));
    assert_eq!(parse_color("#00000000"), Some(0));
    assert_eq!(parse_color("#1a9"), Some(0xff11aa99));
    assert_eq!(parse_color("  #fff\t"), Some(0xffffffff));
}

#[test]
fn malformed_colors_give_none() {
    for s in [
        "", "#", "fff", "89b4fa", "#ff", "#ffff", "#fffff", "#fffffff", "#fffffffff", "#ggg",
        "#12345g", "#1234567z", "# 12345", "##fff", "#+12345", "#-12345", "#+1234567", "#+12",
        "#é1", "#aé12345", "#ééé", "#0x1234",
    ] {
        assert_eq!(parse_color(s), None, "{s:?}");
    }
}

#[test]
fn short_notation_means_doubled_digits() {
    for (short, long) in [("#123", "#112233"), ("#aF0", "#aaFF00"), ("#000", "#000000")] {
        assert!(parse_color(short).is_some());
        assert_eq!(parse_color(short), parse_color(long));
    }
}

#[test]
fn six_digits_mean_full_opacity() {
    assert_eq!(parse_color("#cdd6f4"), parse_color("#ffcdd6f4"));
    assert_ne!(parse_color("#cdd6f4"), parse_color("#fecdd6f4"));
}

#[test]
fn unpacks_channels() {
    assert_eq!(
        argb_to_text_color(0x01020304),
        Rgba { a: 1, r: 2, g: 3, b: 4 }
    );
    assert_eq!(
        argb_to_text_color(0xff89b4fa),
        Rgba { a: 0xff, r: 0x89, g: 0xb4, b: 0xfa }
    );
    // Different colours have different channels.
    assert_ne!(argb_to_text_color(0x01020304), argb_to_text_color(0x01020404));
}
