use qmenu::text::{
    contains, copied, find, from_chars, is_control, is_le, is_text, is_text_ignoring_case,
    is_white_space, lines, to_chars, trim,
};

fn string(v: &[char]) -> String {
    v.iter().collect()
}

#[test]
fn white_space_is_that_of_std() {
    for u in 0..=0x10ffffu32 {
        if let Some(c) = char::from_u32(u) {
            assert_eq!(is_white_space(c), c.is_whitespace(), "{u:x}");
        }
    }
}

#[test]
fn control_characters_are_those_of_std() {
    for u in 0..=0x10ffffu32 {
        if let Some(c) = char::from_u32(u) {
            assert_eq!(is_control(c), c.is_control(), "{u:x}");
        }
    }
}

#[test]
fn characters_there_and_back() {
    for s in ["", "a", "héllo wörld", "日本\n"] {
        assert_eq!(from_chars(&to_chars(s)), s);
        assert_eq!(string(&copied(&to_chars(s))), s);
    }
}

#[test]
fn find_gives_the_first_place_or_the_length() {
    let s = to_chars("a=b=c");
    assert_eq!(find(&s, '='), 1);
    assert_eq!(find(&s, 'x'), 5);
    assert_eq!(find(&[], 'x'), 0);
}

#[test]
fn trimming_is_that_of_std() {
    for s in ["", "  ", " a ", "\t\u{3000}x y\u{a0}\r\n", "x"] {
        let c = to_chars(s);
        assert_eq!(string(trim(&c)), s.trim());
        let again = to_chars(s.trim());
        assert_eq!(string(trim(&again)), s.trim());
    }
}

#[test]
fn lines_are_those_of_std() {
    for s in ["", "\n", "a", "a\n", "a\nb", "a\r\nb\r\n", "a\r\r\nb\r", "\r\n\n\r", "x\ry\n\nz"] {
        let ours: Vec<String> = lines(&to_chars(s)).iter().map(|l| string(l)).collect();
        let theirs: Vec<String> = s.lines().map(|l| l.to_string()).collect();
        assert_eq!(ours, theirs, "{s:?}");
    }
}

#[test]
fn comparing_texts() {
    assert!(is_text(&to_chars("Name"), "Name"));
    assert!(!is_text(&to_chars("Name"), "name"));
    assert!(!is_text(&to_chars("Name"), "Names"));
    assert!(is_text_ignoring_case(&to_chars("TRUE"), "true"));
    assert!(is_text_ignoring_case(&to_chars("tRuE"), "true"));
    assert!(!is_text_ignoring_case(&to_chars("True "), "true"));
    // Only ASCII letters are folded.
    assert!(!is_text_ignoring_case(&to_chars("É"), "é"));
}

#[test]
fn containment_is_that_of_std() {
    for whole in ["", "a", "abcabd", "aaab", "firefox"] {
        for part in ["", "a", "abd", "aab", "fox", "firefoxx", "b"] {
            assert_eq!(contains(&to_chars(whole), &to_chars(part)), whole.contains(part));
        }
    }
}

#[test]
fn order_is_that_of_std() {
    let words = ["", "a", "ab", "b", "Z", "é", "\u{ffff}", "\u{10000}", "日本", "日本語"];
    for a in words {
        for b in words {
            assert_eq!(is_le(&to_chars(a), &to_chars(b)), a <= b, "{a:?} {b:?}");
        }
    }
}
