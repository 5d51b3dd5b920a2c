use qmenu::menu::{
    bar_height, filter, read_items, Qmenu, BG, KEY_BACKSPACE, KEY_BRACKETLEFT, KEY_C, KEY_DOWN,
    KEY_ESCAPE, KEY_KP_ENTER, KEY_N, KEY_P, KEY_PAGE_DOWN, KEY_PAGE_UP, KEY_RETURN, KEY_U, KEY_UP,
    KEY_W, MAX_VISIBLE_ITEMS, SEL_BG,
};
use qmenu::text::to_chars;

const KEY_A: u32 = 0x61;

fn type_text(m: &mut Qmenu, s: &str) {
    for c in s.chars() {
        assert!(m.press_key(KEY_A, false, Some(&c.to_string())));
    }
}

fn press(m: &mut Qmenu, key: u32) -> bool {
    m.press_key(key, false, None)
}

fn ctrl(m: &mut Qmenu, key: u32) -> bool {
    m.press_key(key, true, Some("\u{10}"))
}

fn numbered(n: usize) -> Qmenu {
    let lines: Vec<String> = (0..n).map(|i| format!("item {i}")).collect();
    Qmenu::dmenu(&lines.join("\n"))
}

fn apps() -> Qmenu {
    Qmenu::drun(vec![
        ("Files".to_string(), "nautilus".to_string()),
        ("Firefox".to_string(), "firefox".to_string()),
    ])
}

#[test]
fn items_are_the_non_empty_lines() {
    assert_eq!(read_items("one\ntwo\r\n\n three \n\n"), ["one", "two", " three "]);
    assert!(read_items("").is_empty());
    assert!(read_items("\n\n").is_empty());
}

#[test]
fn a_new_menu_shows_everything() {
    let m = Qmenu::dmenu("one\ntwo\nthree\n");
    assert_eq!(m.filtered(), &[0, 1, 2]);
    assert_eq!((m.selected(), m.scroll()), (0, 0));
    assert_eq!(m.query(), "");
    assert_eq!((m.width(), m.height()), (0, 4 * 24 + 12));
    assert!(!m.exit());
    assert_eq!(m.result(), None);
    assert_eq!(m.text(), "> \none\ntwo\nthree");
}

#[test]
fn typing_filters_without_regard_to_case() {
    let mut m = Qmenu::dmenu("Firefox\nfiles\nTerminal\nÉditeur\nNotes");
    type_text(&mut m, "FI");
    assert_eq!(m.query(), "FI");
    assert_eq!(m.filtered(), &[0, 1]);
    type_text(&mut m, "r");
    assert_eq!(m.filtered(), &[0]);
    let mut m = Qmenu::dmenu("Firefox\nÉditeur");
    type_text(&mut m, "édi");
    assert_eq!(m.filtered(), &[1]);
}

#[test]
fn filtering_given_texts() {
    let texts: Vec<Vec<char>> = ["abc", "", "xbcx", "cb"].iter().map(|s| to_chars(s)).collect();
    assert_eq!(filter(&texts, &to_chars("bc")), [0, 2]);
    assert_eq!(filter(&texts, &to_chars("")), [0, 1, 2, 3]);
    assert_eq!(filter(&texts, &to_chars("z")), Vec::<usize>::new());
    assert_eq!(filter(&texts, &to_chars("BC")), Vec::<usize>::new());
}

#[test]
fn control_characters_are_not_typed() {
    let mut m = numbered(3);
    m.press_key(KEY_A, false, Some("1\t\u{7f}\u{85}"));
    assert_eq!(m.query(), "1");
    assert_eq!(m.filtered(), &[1]);
}

#[test]
fn a_key_that_types_nothing_changes_nothing() {
    let mut m = numbered(3);
    press(&mut m, KEY_DOWN);
    assert!(press(&mut m, 0xffe1));
    assert_eq!(m.selected(), 1);
    // One that types no characters still filters anew.
    assert!(m.press_key(0xff09, false, Some("\t")));
    assert_eq!(m.selected(), 0);
}

#[test]
fn enter_confirms_the_selection() {
    for key in [KEY_RETURN, KEY_KP_ENTER] {
        let mut m = Qmenu::dmenu("one\ntwo\nthree");
        press(&mut m, KEY_DOWN);
        assert!(!press(&mut m, key));
        assert!(m.exit());
        assert_eq!(m.result(), Some("two"));
    }
}

#[test]
fn enter_gives_the_command_of_an_application() {
    let mut m = apps();
    type_text(&mut m, "fire");
    press(&mut m, KEY_RETURN);
    assert_eq!(m.result(), Some("firefox"));
    let mut m = apps();
    press(&mut m, KEY_RETURN);
    assert_eq!(m.result(), Some("nautilus"));
}

#[test]
fn unmatched_query_is_the_choice_in_dmenu_mode() {
    let mut m = Qmenu::dmenu("one\ntwo");
    type_text(&mut m, "Xyz");
    assert!(m.filtered().is_empty());
    press(&mut m, KEY_RETURN);
    assert_eq!(m.result(), Some("Xyz"));
}

#[test]
fn enter_without_a_match_does_nothing_in_drun_mode() {
    for key in [KEY_RETURN, KEY_KP_ENTER] {
        let mut m = apps();
        type_text(&mut m, "fix");
        assert!(!press(&mut m, key));
        assert!(!m.exit());
        assert_eq!(m.result(), None);
        assert_eq!(m.query(), "fix");
        // The query can still be mended.
        press(&mut m, KEY_BACKSPACE);
        press(&mut m, key);
        assert!(m.exit());
        assert_eq!(m.result(), Some("nautilus"));
    }
    let mut m = Qmenu::drun(vec![]);
    press(&mut m, KEY_RETURN);
    assert!(!m.exit());
    press(&mut m, KEY_ESCAPE);
    assert!(m.exit());
}

#[test]
fn nothing_to_choose_gives_no_choice() {
    let mut m = Qmenu::dmenu("");
    press(&mut m, KEY_RETURN);
    assert!(m.exit());
    assert_eq!(m.result(), None);
}

#[test]
fn cancelling_gives_no_choice() {
    let mut m = numbered(3);
    assert!(!press(&mut m, KEY_ESCAPE));
    assert!(m.exit());
    assert_eq!(m.result(), None);
    for key in [KEY_C, KEY_BRACKETLEFT] {
        let mut m = numbered(3);
        assert!(!ctrl(&mut m, key));
        assert!(m.exit());
        assert_eq!(m.result(), None);
    }
    let mut m = numbered(3);
    m.closed();
    assert!(m.exit());
    assert_eq!(m.result(), None);
}

#[test]
fn without_ctrl_letters_are_typed() {
    let mut m = numbered(3);
    assert!(m.press_key(KEY_C, false, Some("c")));
    assert!(!m.exit());
    assert_eq!(m.query(), "c");
    assert!(m.press_key(KEY_U, false, Some("u")));
    assert_eq!(m.query(), "cu");
    // With Ctrl, other letters do nothing.
    assert!(ctrl(&mut m, KEY_A));
    assert_eq!(m.query(), "cu");
}

#[test]
fn selection_moves_and_stops_at_the_ends() {
    let mut m = numbered(3);
    press(&mut m, KEY_UP);
    assert_eq!(m.selected(), 0);
    press(&mut m, KEY_DOWN);
    assert_eq!(m.selected(), 1);
    ctrl(&mut m, KEY_N);
    assert_eq!(m.selected(), 2);
    press(&mut m, KEY_DOWN);
    assert_eq!(m.selected(), 2);
    ctrl(&mut m, KEY_P);
    assert_eq!(m.selected(), 1);
    press(&mut m, KEY_PAGE_DOWN);
    assert_eq!(m.selected(), 2);
    press(&mut m, KEY_PAGE_UP);
    assert_eq!(m.selected(), 0);
}

#[test]
fn down_and_up_come_back() {
    let mut m = numbered(40);
    for _ in 0..20 {
        press(&mut m, KEY_DOWN);
    }
    assert_eq!(m.selected(), 20);
    press(&mut m, KEY_DOWN);
    press(&mut m, KEY_UP);
    assert_eq!(m.selected(), 20);
}

#[test]
fn the_list_scrolls_with_the_selection() {
    let mut m = numbered(40);
    for _ in 0..13 {
        press(&mut m, KEY_DOWN);
    }
    assert_eq!((m.selected(), m.scroll()), (13, 0));
    press(&mut m, KEY_DOWN);
    assert_eq!((m.selected(), m.scroll()), (14, 1));
    press(&mut m, KEY_PAGE_DOWN);
    assert_eq!((m.selected(), m.scroll()), (28, 15));
    for _ in 0..13 {
        press(&mut m, KEY_UP);
    }
    assert_eq!((m.selected(), m.scroll()), (15, 15));
    press(&mut m, KEY_UP);
    assert_eq!((m.selected(), m.scroll()), (14, 14));
    m.move_selection(isize::MAX);
    assert_eq!((m.selected(), m.scroll()), (39, 26));
    m.move_selection(isize::MIN);
    assert_eq!((m.selected(), m.scroll()), (0, 0));
}

#[test]
fn moving_in_an_empty_list_does_nothing() {
    let mut m = Qmenu::dmenu("one");
    type_text(&mut m, "z");
    press(&mut m, KEY_DOWN);
    press(&mut m, KEY_PAGE_UP);
    assert_eq!((m.selected(), m.scroll()), (0, 0));
}

#[test]
fn typing_selects_the_first_match() {
    let mut m = numbered(40);
    m.move_selection(30);
    type_text(&mut m, "1");
    assert_eq!((m.selected(), m.scroll()), (0, 0));
    assert_eq!(m.filtered(), &[1, 10, 11, 12, 13, 14, 15, 16, 17, 18, 19, 21, 31]);
}

#[test]
fn backspace_undoes_a_character() {
    let mut m = numbered(12);
    type_text(&mut m, "é1");
    assert!(m.filtered().is_empty());
    press(&mut m, KEY_BACKSPACE);
    assert_eq!(m.query(), "é");
    press(&mut m, KEY_BACKSPACE);
    assert_eq!(m.query(), "");
    assert_eq!(m.filtered().len(), 12);
    press(&mut m, KEY_BACKSPACE);
    assert_eq!(m.query(), "");
}

#[test]
fn ctrl_u_clears_the_query() {
    let mut m = numbered(2);
    type_text(&mut m, "some words");
    assert!(ctrl(&mut m, KEY_U));
    assert_eq!(m.query(), "");
    assert_eq!(m.filtered(), &[0, 1]);
}

#[test]
fn ctrl_w_deletes_a_word() {
    let mut m = numbered(2);
    type_text(&mut m, "one two  three  ");
    ctrl(&mut m, KEY_W);
    assert_eq!(m.query(), "one two  ");
    ctrl(&mut m, KEY_W);
    assert_eq!(m.query(), "one ");
    ctrl(&mut m, KEY_W);
    assert_eq!(m.query(), "");
    ctrl(&mut m, KEY_W);
    assert_eq!(m.query(), "");
    // Only spaces part words.
    type_text(&mut m, "a\u{a0}b");
    ctrl(&mut m, KEY_W);
    assert_eq!(m.query(), "");
}

#[test]
fn the_result_of_an_item_is_its_action() {
    let mut m = Qmenu::new(
        vec!["a".to_string(), "b".to_string()],
        vec!["A!".to_string(), "B!".to_string()],
        true,
    );
    type_text(&mut m, "b");
    m.confirm();
    assert_eq!(m.result(), Some("B!"));
}

#[test]
fn text_shows_the_rows_in_view() {
    let mut m = numbered(20);
    m.move_selection(16);
    let text = m.text();
    let rows: Vec<&str> = text.split('\n').collect();
    assert_eq!(rows.len(), 1 + MAX_VISIBLE_ITEMS);
    assert_eq!(rows[0], "> ");
    assert_eq!(rows[1], "item 3");
    assert_eq!(rows[14], "item 16");
    type_text(&mut m, "m 1");
    assert_eq!(m.text().split('\n').next(), Some("> m 1"));
}

#[test]
fn heights() {
    assert_eq!(bar_height(0), 36);
    assert_eq!(bar_height(1), 60);
    assert_eq!(bar_height(14), 372);
    assert_eq!(bar_height(15), 372);
    assert_eq!(bar_height(usize::MAX), 372);
}

#[test]
fn the_compositor_may_change_the_size() {
    let mut m = numbered(1);
    assert_eq!(m.frame_size(), None);
    m.set_width(864);
    assert_eq!(m.frame_size(), Some((864, 60, 3456)));
    m.configure(0, 0);
    assert_eq!(m.frame_size(), Some((864, 60, 3456)));
    m.configure(100, 0);
    assert_eq!(m.frame_size(), Some((100, 60, 400)));
    m.configure(0, 70);
    assert_eq!(m.frame_size(), Some((100, 70, 400)));
    assert_eq!((m.width(), m.height()), (100, 70));
}

#[test]
fn drawing_highlights_the_selected_row() {
    let mut m = numbered(3);
    m.set_width(5);
    press(&mut m, KEY_DOWN);
    let (w, h) = (m.width() as usize, m.height() as usize);
    let mut canvas = vec![7u8; w * h * 4 + 6];
    assert_eq!(m.draw(&mut canvas), "> \nitem 0\nitem 1\nitem 2");
    for y in 0..h {
        let color = if (54..78).contains(&y) { SEL_BG } else { BG };
        for x in 0..w {
            let o = (y * w + x) * 4;
            assert_eq!(canvas[o..o + 4], color.to_le_bytes(), "{x} {y}");
        }
    }
    // What is left of the canvas is background, as far as there are whole pixels.
    let end = w * h * 4;
    assert_eq!(canvas[end..end + 4], BG.to_le_bytes());
    assert_eq!(canvas[end + 4..], [7, 7]);
}

#[test]
fn an_empty_list_has_no_highlight() {
    let mut m = Qmenu::dmenu("one");
    m.set_width(2);
    type_text(&mut m, "z");
    let mut canvas = vec![0u8; 2 * m.height() as usize * 4];
    assert_eq!(m.draw(&mut canvas), "> z");
    for px in canvas.chunks_exact(4) {
        assert_eq!(px, BG.to_le_bytes());
    }
}
