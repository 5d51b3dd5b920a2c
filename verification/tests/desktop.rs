use qmenu::desktop::{
    application_dirs, clean_exec, is_desktop_file, load_desktop_entries, parse_desktop_entry,
    sort_by_key, terminal_command, DesktopFile, Keyed,
};
use qmenu::path::DataEnv;
use qmenu::text::to_chars;

fn pair(a: &str, b: &str) -> (String, String) {
    (a.to_string(), b.to_string())
}

fn parse(content: &str) -> Option<(String, String)> {
    parse_desktop_entry(content, "foot")
}

fn file(name: &str, content: Option<&str>) -> DesktopFile {
    DesktopFile { file_name: name.to_string(), content: content.map(|c| c.to_string()) }
}

fn entry(name: &str, command: &str) -> String {
    format!("[Desktop Entry]\nType=Application\nName={name}\nExec={command}\n")
}

#[test]
fn field_codes_are_stripped() {
    assert_eq!(clean_exec("firefox %u"), "firefox");
    assert_eq!(clean_exec("app %f --x %U %i y"), "app  --x   y");
    assert_eq!(clean_exec("sh -c \"echo 100%%\""), "sh -c \"echo 100%\"");
    assert_eq!(clean_exec("%%%%"), "%%");
    assert_eq!(clean_exec("%%u"), "%u");
    assert_eq!(clean_exec("a%"), "a");
    assert_eq!(clean_exec("%"), "");
    assert_eq!(clean_exec("a%\u{e9}b"), "ab");
    assert_eq!(clean_exec("  spaced\t"), "spaced");
    assert_eq!(clean_exec(""), "");
}

#[test]
fn cleaning_gives_back_escaped_commands() {
    for s in ["a%b", "100%", "%%", "%f %u", "plain", " x % y "] {
        assert_eq!(clean_exec(&s.replace('%', "%%")), s.trim());
    }
}

#[test]
fn commands_without_percent_signs_are_only_trimmed() {
    for s in ["ls -l", "  ls ", "", "\u{3000}x"] {
        assert_eq!(clean_exec(s), s.trim());
    }
}

#[test]
fn an_application_is_parsed() {
    assert_eq!(
        parse("[Desktop Entry]\nType=Application\nName=Firefox\nExec=firefox %u\n"),
        Some(pair("Firefox", "firefox"))
    );
    assert_eq!(
        parse("\n# comment\n [Desktop Entry] \r\n Name = A B \r\n  Exec =  run  it \r\n"),
        Some(pair("A B", "run  it"))
    );
}

#[test]
fn the_type_may_be_left_out() {
    assert_eq!(parse("[Desktop Entry]\nName=A\nExec=a"), Some(pair("A", "a")));
}

#[test]
fn other_types_are_skipped() {
    assert_eq!(parse("[Desktop Entry]\nType=Link\nName=A\nExec=a"), None);
    assert_eq!(parse("[Desktop Entry]\nType=application\nName=A\nExec=a"), None);
}

#[test]
fn hidden_entries_are_skipped() {
    assert_eq!(parse("[Desktop Entry]\nName=A\nExec=a\nNoDisplay=true"), None);
    assert_eq!(parse("[Desktop Entry]\nName=A\nExec=a\nHidden= TRUE "), None);
    assert_eq!(
        parse("[Desktop Entry]\nName=A\nExec=a\nHidden=false\nNoDisplay=1"),
        Some(pair("A", "a"))
    );
}

#[test]
fn the_last_flag_counts_and_the_first_text() {
    assert_eq!(
        parse("[Desktop Entry]\nName=A\nName=B\nExec=a\nExec=b\nHidden=true\nHidden=no"),
        Some(pair("A", "a"))
    );
    assert_eq!(
        parse("[Desktop Entry]\nType=Application\nType=Link\nName=A\nExec=a"),
        Some(pair("A", "a"))
    );
}

#[test]
fn a_name_and_a_command_are_needed() {
    assert_eq!(parse("[Desktop Entry]\nExec=a"), None);
    assert_eq!(parse("[Desktop Entry]\nName=A"), None);
    assert_eq!(parse("[Desktop Entry]\nName=A\nExec="), None);
    assert_eq!(parse("[Desktop Entry]\nName=A\nExec= %u "), None);
    assert_eq!(parse("[Desktop Entry]\nName=\nExec=a"), Some(pair("", "a")));
    assert_eq!(parse(""), None);
}

#[test]
fn only_the_entry_group_counts() {
    assert_eq!(
        parse("Name=X\n[Other]\nName=Y\n[Desktop Entry]\nName=A\nExec=a=b\n[Desktop Action new]\nName=Z\nExec=z\nHidden=true"),
        Some(pair("A", "a=b"))
    );
    assert_eq!(
        parse("[Desktop Entry]\nName=A\n[X]\nExec=x\n[Desktop Entry]\nExec=a"),
        Some(pair("A", "a"))
    );
}

#[test]
fn localised_keys_and_other_lines_do_not_count() {
    assert_eq!(
        parse("[Desktop Entry]\nName[de]=Z\nName=A\n#Exec=x\nExec\nExec=a\nname=y"),
        Some(pair("A", "a"))
    );
}

#[test]
fn terminal_entries_are_wrapped() {
    assert_eq!(
        parse("[Desktop Entry]\nName=Top\nExec=htop %f\nTerminal=True"),
        Some(pair("Top", "foot -e htop"))
    );
}

#[test]
fn terminal_from_the_environment() {
    let t = |s: &str| Some(s.to_string());
    assert_eq!(terminal_command(t("a"), t("b")), "a");
    assert_eq!(terminal_command(None, t("b")), "b");
    assert_eq!(terminal_command(t(""), t("b")), "");
    assert_eq!(terminal_command(None, None), "xterm");
}

#[test]
fn desktop_files_by_their_names() {
    assert!(is_desktop_file("a.desktop"));
    assert!(is_desktop_file("a.b.desktop"));
    assert!(is_desktop_file("..desktop"));
    assert!(!is_desktop_file(".desktop"));
    assert!(!is_desktop_file("desktop"));
    assert!(!is_desktop_file("a.Desktop"));
    assert!(!is_desktop_file("a.desktop~"));
    for name in ["a.desktop", ".desktop", "..desktop", "x", "desktop", "é.desktop", "a.desktop.b"] {
        let theirs = std::path::Path::new(name).extension().and_then(|e| e.to_str());
        assert_eq!(is_desktop_file(name), theirs == Some("desktop"), "{name}");
    }
}

#[test]
fn application_directories() {
    let env = DataEnv {
        home: Some(b"/home/u".to_vec()),
        data_home: None,
        data_dirs: Some("/a:/b".to_string()),
    };
    assert_eq!(
        application_dirs(&env),
        [
            b"/home/u/.local/share/applications".to_vec(),
            b"/a/applications".to_vec(),
            b"/b/applications".to_vec(),
        ]
    );
}

#[test]
fn entries_are_sorted_without_regard_to_case() {
    let files = vec![
        file("1.desktop", Some(&entry("zoom", "z"))),
        file("2.desktop", Some(&entry("Éclair", "e"))),
        file("3.desktop", Some(&entry("Beta", "b"))),
        file("4.desktop", Some(&entry("alpha", "a"))),
        file("5.desktop", Some(&entry("éclair", "f"))),
    ];
    assert_eq!(
        load_desktop_entries(&files, "xterm"),
        [
            pair("alpha", "a"),
            pair("Beta", "b"),
            pair("zoom", "z"),
            pair("Éclair", "e"),
            pair("éclair", "f"),
        ]
    );
}

#[test]
fn equal_names_keep_their_order() {
    let files = vec![
        file("1.desktop", Some(&entry("Same", "one"))),
        file("2.desktop", Some(&entry("a", "two"))),
        file("3.desktop", Some(&entry("sAME", "three"))),
        file("4.desktop", Some(&entry("same", "four"))),
    ];
    assert_eq!(
        load_desktop_entries(&files, "xterm"),
        [pair("a", "two"), pair("Same", "one"), pair("sAME", "three"), pair("same", "four")]
    );
}

#[test]
fn the_first_file_of_an_id_shadows_the_others() {
    let files = vec![
        file("x.desktop", Some(&entry("Own", "own"))),
        file("y.desktop", Some("[Desktop Entry]\nName=Y\nExec=y\nNoDisplay=true")),
        file("z.desktop", None),
        file("x.desktop", Some(&entry("System", "system"))),
        file("y.desktop", Some(&entry("Y", "y"))),
        file("z.desktop", Some(&entry("Z", "z"))),
        file("notes.txt", Some(&entry("N", "n"))),
    ];
    assert_eq!(load_desktop_entries(&files, "xterm"), [pair("Own", "own")]);
}

#[test]
fn no_files_give_no_entries() {
    assert!(load_desktop_entries(&vec![], "xterm").is_empty());
}

#[test]
fn sorting_by_given_keys_is_stable() {
    let keyed = |k: &str, n: &str| Keyed { key: to_chars(k), entry: pair(n, "") };
    let sorted = sort_by_key(vec![
        keyed("b", "1"),
        keyed("a", "2"),
        keyed("b", "3"),
        keyed("", "4"),
        keyed("a", "5"),
        keyed("ab", "6"),
    ]);
    let names: Vec<&str> = sorted.iter().map(|k| k.entry.0.as_str()).collect();
    assert_eq!(names, ["4", "2", "5", "6", "1", "3"]);
}

#[test]
fn only_terminal_entries_depend_on_the_terminal() {
    let plain = "[Desktop Entry]\nName=A\nExec=a";
    assert_eq!(parse_desktop_entry(plain, "foot"), parse_desktop_entry(plain, "kitty"));
    let wrapped = "[Desktop Entry]\nName=A\nExec=a\nTerminal=true";
    assert_eq!(parse_desktop_entry(wrapped, "kitty"), Some(pair("A", "kitty -e a")));
}

#[test]
fn the_named_data_directory_shadows_the_system_without_a_home() {
    let env = DataEnv {
        home: None,
        data_home: Some(b"/d".to_vec()),
        data_dirs: Some("/s".to_string()),
    };
    assert_eq!(
        application_dirs(&env),
        [b"/d/applications".to_vec(), b"/s/applications".to_vec()]
    );
    let files = vec![
        file("a.desktop", Some("[Desktop Entry]\nName=D\nExec=d\n")),
        file("a.desktop", Some("[Desktop Entry]\nName=S\nExec=s\n")),
    ];
    assert_eq!(load_desktop_entries(&files, "xterm"), [pair("D", "d")]);
}
