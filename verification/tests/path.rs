use std::path::Path;

use qmenu::path::{
    append, copied, data_subdirs, extension, file_name, find_user_data_dir, is_absolute, join,
    join_each, shared_subdirs, split_colons, DataEnv,
};

const SAMPLES: [&str; 26] = [
    "", "/", ".", "..", "a", "a/", "a//", "a/b", "/a/b", "a/.", "a/./", "a/..", "../a", "./a",
    ".hidden", "a.svg", "a.b.svg", "dir.d/file", "dir.d/file.PNG", "a.", ".a.b", "..a", "a..",
    "a/.svg", "é/ü.desktop", "//x.y//",
];

fn path(s: &str) -> &Path {
    Path::new(s)
}

#[test]
fn file_names_are_those_of_std() {
    for s in SAMPLES {
        let theirs = path(s).file_name().and_then(|n| n.to_str()).map(|n| n.as_bytes());
        assert_eq!(file_name(s.as_bytes()), theirs, "{s:?}");
    }
}

#[test]
fn extensions_are_those_of_std() {
    for s in SAMPLES {
        let theirs = path(s).extension().and_then(|n| n.to_str()).map(|n| n.as_bytes());
        assert_eq!(extension(s.as_bytes()), theirs, "{s:?}");
    }
}

#[test]
fn joining_is_that_of_std() {
    for a in SAMPLES {
        for b in SAMPLES {
            let theirs = path(a).join(path(b));
            assert_eq!(
                join(a.as_bytes(), b.as_bytes()),
                theirs.to_str().unwrap().as_bytes(),
                "{a:?} {b:?}"
            );
        }
    }
}

#[test]
fn absolute_paths_start_at_the_root() {
    for s in SAMPLES {
        assert_eq!(is_absolute(s.as_bytes()), path(s).is_absolute(), "{s:?}");
    }
}

#[test]
fn splitting_leaves_out_empty_parts() {
    for s in ["", ":", "a", ":a", "a:", "a:b", "a::b", "::a:bc:::", "/usr/share:/opt"] {
        let theirs: Vec<&[u8]> =
            s.split(':').filter(|p| !p.is_empty()).map(|p| p.as_bytes()).collect();
        assert_eq!(split_colons(s.as_bytes()), theirs, "{s:?}");
    }
}

#[test]
fn joining_below_each_directory() {
    let dirs = vec![b"/a".to_vec(), b"b/".to_vec(), vec![]];
    assert_eq!(join_each(&dirs, b"x"), [b"/a/x".to_vec(), b"b/x".to_vec(), b"x".to_vec()]);
    assert!(join_each(&vec![], b"x").is_empty());
}

#[test]
fn data_directories_apart() {
    let e = env(Some("/h"), None, Some("/a:/b"));
    assert_eq!(find_user_data_dir(&e), Some(b"/h/.local/share".to_vec()));
    assert_eq!(shared_subdirs(&e, b"x"), [b"/a/x".to_vec(), b"/b/x".to_vec()]);
    assert_eq!(find_user_data_dir(&env(None, None, None)), None);
}

#[test]
fn byte_strings() {
    let mut v = copied(b"ab");
    append(&mut v, b"cd");
    assert_eq!(v, b"abcd");
}

fn env(home: Option<&str>, data_home: Option<&str>, data_dirs: Option<&str>) -> DataEnv {
    DataEnv {
        home: home.map(|s| s.as_bytes().to_vec()),
        data_home: data_home.map(|s| s.as_bytes().to_vec()),
        data_dirs: data_dirs.map(|s| s.to_string()),
    }
}

fn dirs(e: &DataEnv) -> Vec<String> {
    data_subdirs(e, b"icons").into_iter().map(|d| String::from_utf8(d).unwrap()).collect()
}

#[test]
fn data_directories_by_default() {
    assert_eq!(
        dirs(&env(Some("/home/u"), None, None)),
        ["/home/u/.local/share/icons", "/usr/local/share/icons", "/usr/share/icons"]
    );
}

#[test]
fn user_data_directory_is_first() {
    assert_eq!(
        dirs(&env(Some("/home/u"), Some("/d"), Some("/a::/b/:"))),
        ["/d/icons", "/a/icons", "/b/icons"]
    );
}

#[test]
fn the_home_directory_is_only_a_fallback() {
    assert_eq!(dirs(&env(None, Some("/d"), Some("/a"))), ["/d/icons", "/a/icons"]);
    assert_eq!(dirs(&env(None, None, Some("/a"))), ["/a/icons"]);
    assert_eq!(dirs(&env(None, None, Some(""))), Vec::<String>::new());
}
