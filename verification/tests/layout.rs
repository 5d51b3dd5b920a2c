use qmenu::layout::{
    bar_width, screen_width, wants_drun, Mode, Output, FALLBACK_SCREEN_WIDTH, MARGIN_TOP,
    MIN_WIDTH,
};

fn output(logical: Option<(i32, i32)>, modes: &[(bool, i32, i32)]) -> Output {
    Output {
        logical_size: logical,
        modes: modes
            .iter()
            .map(|m| Mode { current: m.0, dimensions: (m.1, m.2) })
            .collect(),
    }
}

#[test]
fn bar_widths_are_those_of_the_hardware() {
    let mut widths: Vec<u32> = (0..70_000).collect();
    for shift in 16..32 {
        for d in 0..50u32 {
            widths.push((1u32 << shift).wrapping_add(d * 12_347));
            widths.push((1u32 << shift) - d);
        }
    }
    widths.push(u32::MAX);
    for w in widths {
        let hardware = ((w as f32 * 0.45f32) as u32).max(480);
        assert_eq!(bar_width(w), hardware, "{w}");
    }
}

#[test]
fn bar_widths_of_common_screens() {
    assert_eq!(bar_width(1920), 864);
    assert_eq!(bar_width(2560), 1152);
    assert_eq!(bar_width(3840), 1728);
    assert_eq!(bar_width(800), MIN_WIDTH);
    assert_eq!(bar_width(0), 480);
    assert_eq!(MARGIN_TOP, 8);
}

#[test]
fn bar_takes_45_percent_of_the_screen() {
    for w in 1100..20_000u32 {
        let twentieths = 20 * bar_width(w) as i64;
        assert!((twentieths - 9 * w as i64).abs() <= 21, "{w}");
    }
}

#[test]
fn the_widest_output_counts() {
    let outputs = vec![
        output(Some((1280, 720)), &[(true, 3840, 2160)]),
        output(None, &[(false, 5000, 1), (true, 1920, 1080), (true, 4000, 1)]),
        output(None, &[(false, 9000, 9000)]),
        output(None, &[]),
    ];
    assert_eq!(screen_width(&outputs), 1920);
    assert_eq!(screen_width(&vec![output(Some((1366, 768)), &[])]), 1366);
}

#[test]
fn without_a_size_the_fallback_counts() {
    assert_eq!(screen_width(&vec![]), FALLBACK_SCREEN_WIDTH);
    assert_eq!(screen_width(&vec![output(None, &[(false, 9000, 9000)])]), 1920);
}

#[test]
fn negative_widths_wrap() {
    assert_eq!(screen_width(&vec![output(Some((-1, 0)), &[])]), u32::MAX);
    assert_eq!(screen_width(&vec![output(Some((i32::MIN, 0)), &[])]), 0x8000_0000);
}

#[test]
fn mode_is_taken_from_the_arguments() {
    let args = |a: &[&str]| a.iter().map(|s| s.to_string()).collect::<Vec<String>>();
    assert!(wants_drun(&args(&["qmenu", "--drun"])));
    assert!(wants_drun(&args(&["qmenu", "-x", "--drun", "y"])));
    assert!(!wants_drun(&args(&["qmenu"])));
    assert!(!wants_drun(&args(&["--drun"])));
    assert!(!wants_drun(&args(&["qmenu", "--Drun", "drun", "--drun "])));
    assert!(!wants_drun(&args(&[])));
}
