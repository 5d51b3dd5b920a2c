use image::{ImageFormat, RgbaImage};
use qmenu::icons::{
    decode_icon, drawing_icon, icon_base_dirs, is_svg, picture_icon, pixmap_dirs, Check, Icon,
    IconLoader, Search,
};
use qmenu::path::DataEnv;

fn env(home: Option<&str>, data_dirs: Option<&str>) -> DataEnv {
    DataEnv {
        home: home.map(|s| s.as_bytes().to_vec()),
        data_home: None,
        data_dirs: data_dirs.map(|s| s.to_string()),
    }
}

fn strings(v: Vec<Vec<u8>>) -> Vec<String> {
    v.into_iter().map(|p| String::from_utf8(p).unwrap()).collect()
}

/// Answers the search from lists of directories and files, and gives what it finds
/// and what it asked about.
fn run(mut s: Search, dirs: &[&str], files: &[&str]) -> (Option<String>, Vec<String>) {
    let mut asked = Vec::new();
    loop {
        let yes = match s.next() {
            Some((check, path)) => {
                let p = String::from_utf8(path.clone()).unwrap();
                let yes = match check {
                    Check::Dir => dirs.contains(&p.as_str()),
                    Check::File => files.contains(&p.as_str()),
                    Check::Exists => {
                        dirs.contains(&p.as_str()) || files.contains(&p.as_str())
                    }
                };
                asked.push(p);
                yes
            }
            None => break,
        };
        s.answer(yes);
    }
    (s.found().map(|p| String::from_utf8(p.clone()).unwrap()), asked)
}

fn icon(size: u32, byte: u8) -> Icon {
    Icon { size, rgba: vec![byte; (size * size * 4) as usize] }
}

#[test]
fn theme_directories() {
    assert_eq!(
        strings(icon_base_dirs(&env(Some("/home/u"), None))),
        [
            "/home/u/.icons",
            "/home/u/.local/share/icons",
            "/usr/local/share/icons",
            "/usr/share/icons",
        ]
    );
    assert_eq!(strings(icon_base_dirs(&env(None, Some("/a:/b")))), ["/a/icons", "/b/icons"]);
}

#[test]
fn pixmap_directories() {
    assert_eq!(strings(pixmap_dirs(&env(Some("/h"), None))), ["/usr/share/pixmaps"]);
    assert_eq!(
        strings(pixmap_dirs(&env(None, Some("/a::/b/")))),
        ["/usr/share/pixmaps", "/a/pixmaps", "/b/pixmaps"]
    );
}

#[test]
fn an_icon_without_a_name_is_nowhere() {
    let l = IconLoader::new(20, None, &env(None, None));
    assert_eq!(run(l.resolve(""), &[], &[]), (None, vec![]));
}

#[test]
fn an_absolute_path_is_taken_as_it_is() {
    let l = IconLoader::new(20, None, &env(None, None));
    let path = "/opt/app/icon.png".to_string();
    assert_eq!(
        run(l.resolve(&path), &[], &["/opt/app/icon.png"]),
        (Some(path.clone()), vec![path.clone()])
    );
    // Whatever is there will do.
    assert_eq!(run(l.resolve("/opt"), &["/opt"], &[]).0, Some("/opt".to_string()));
    assert_eq!(run(l.resolve(&path), &[], &[]), (None, vec![path]));
}

#[test]
fn themes_are_searched_in_order() {
    let l = IconLoader::new(20, Some("Papirus".to_string()), &env(None, Some("/a:/b")));
    let (found, asked) = run(l.resolve("x"), &[], &[]);
    assert_eq!(found, None);
    assert_eq!(
        asked,
        [
            "/a/icons/Papirus", "/a/icons/Adwaita", "/a/icons/hicolor", "/b/icons/Papirus",
            "/b/icons/Adwaita", "/b/icons/hicolor", "/a/icons/x.svg", "/a/icons/x.png",
            "/b/icons/x.svg", "/b/icons/x.png", "/usr/share/pixmaps/x.svg",
            "/usr/share/pixmaps/x.png", "/a/pixmaps/x.svg", "/a/pixmaps/x.png",
            "/b/pixmaps/x.svg", "/b/pixmaps/x.png",
        ]
    );
}

#[test]
fn default_themes_are_not_repeated() {
    let asked_with = |theme: Option<&str>| {
        let l = IconLoader::new(20, theme.map(|t| t.to_string()), &env(None, Some("/a")));
        run(l.resolve("x"), &[], &[]).1
    };
    assert_eq!(asked_with(None)[..2], ["/a/icons/Adwaita", "/a/icons/hicolor"]);
    assert_eq!(asked_with(Some("hicolor"))[..2], ["/a/icons/hicolor", "/a/icons/Adwaita"]);
    assert_eq!(asked_with(Some("hicolor"))[2], "/a/icons/x.svg");
    assert_eq!(asked_with(Some("Adwaita"))[..2], ["/a/icons/Adwaita", "/a/icons/hicolor"]);
    assert_eq!(asked_with(Some("Adwaita"))[2], "/a/icons/x.svg");
}

#[test]
fn sizes_near_the_wanted_one_come_first() {
    let l = IconLoader::new(20, Some("T".to_string()), &env(None, Some("/a")));
    let (found, asked) = run(l.resolve("x"), &["/a/icons/T"], &[]);
    assert_eq!(found, None);
    let sizes = [20, 40, 48, 64, 32, 128, 256, 24, 22, 16, 96, 512];
    let mut want = vec!["/a/icons/T".to_string()];
    for s in sizes {
        want.push(format!("/a/icons/T/{s}x{s}/apps/x.svg"));
        want.push(format!("/a/icons/T/{s}x{s}/apps/x.png"));
    }
    want.push("/a/icons/T/scalable/apps/x.svg".to_string());
    want.push("/a/icons/T/scalable/apps/x.png".to_string());
    for s in sizes {
        want.push(format!("/a/icons/T/apps/{s}x{s}/x.svg"));
        want.push(format!("/a/icons/T/apps/{s}x{s}/x.png"));
    }
    want.push("/a/icons/T/apps/scalable/x.svg".to_string());
    want.push("/a/icons/T/apps/scalable/x.png".to_string());
    want.push("/a/icons/Adwaita".to_string());
    assert_eq!(asked[..want.len()], want[..]);
}

#[test]
fn repeated_sizes_in_a_row_are_asked_for_once() {
    // 24 and its double, then 48 again.
    let l = IconLoader::new(24, Some("T".to_string()), &env(None, Some("/a")));
    let asked = run(l.resolve("x"), &["/a/icons/T"], &[]).1;
    let apart: Vec<&String> = asked.iter().filter(|p| p.ends_with("48x48/apps/x.svg")).collect();
    assert_eq!(apart.len(), 1);
    let l = IconLoader::new(0, Some("T".to_string()), &env(None, Some("/a")));
    let asked = run(l.resolve("x"), &["/a/icons/T"], &[]).1;
    assert_eq!(asked[1], "/a/icons/T/0x0/apps/x.svg");
    assert_eq!(asked[3], "/a/icons/T/48x48/apps/x.svg");
}

#[test]
fn the_first_file_is_found() {
    let l = IconLoader::new(20, None, &env(Some("/h"), Some("/a")));
    let files = [
        "/a/icons/hicolor/48x48/apps/app.png",
        "/a/icons/hicolor/scalable/apps/app.svg",
        "/usr/share/pixmaps/app.png",
    ];
    assert_eq!(
        run(l.resolve("app"), &["/a/icons/hicolor"], &files).0.as_deref(),
        Some("/a/icons/hicolor/48x48/apps/app.png")
    );
    // Without the theme's directory, its files are not looked for.
    assert_eq!(
        run(l.resolve("app"), &[], &files).0.as_deref(),
        Some("/usr/share/pixmaps/app.png")
    );
    assert_eq!(
        run(l.resolve("app"), &[], &["/h/.icons/app.svg", "/a/pixmaps/app.svg"]).0.as_deref(),
        Some("/h/.icons/app.svg")
    );
    assert_eq!(
        run(l.resolve("app"), &[], &["/a/pixmaps/app.svg"]).0.as_deref(),
        Some("/a/pixmaps/app.svg")
    );
    assert_eq!(run(l.resolve("app"), &[], &["/usr/share/pixmaps/app.xpm"]).0, None);
}

#[test]
fn icons_are_kept_by_name() {
    let mut l = IconLoader::new(2, None, &env(None, None));
    assert_eq!(l.size(), 2);
    assert!(!l.is_cached("a"));
    assert_eq!(l.get("a", Some(icon(2, 7))).map(|i| i.rgba[0]), Some(7));
    assert!(l.is_cached("a"));
    assert!(!l.is_cached("b"));
    // What was loaded first stays.
    assert_eq!(l.get("a", Some(icon(2, 8))).map(|i| i.rgba[0]), Some(7));
    assert_eq!(l.get("a", None).map(|i| i.rgba[0]), Some(7));
    // So does the knowledge that there is nothing.
    assert!(l.get("b", None).is_none());
    assert!(l.is_cached("b"));
    assert!(l.get("b", Some(icon(2, 9))).is_none());
    assert_eq!(l.get("a", None).map(|i| i.size), Some(2));
    assert!(l.get("", None).is_none());
}

#[test]
fn drawings_by_their_names() {
    for p in ["a.svg", "/x/a.SVG", "a.b.sVg", "a.svg/"] {
        assert!(is_svg(p.as_bytes()), "{p}");
    }
    for p in ["a.png", "svg", ".svg", "a.svgz", "a.svg.png", "", "a.sv", "a.svg/.."] {
        assert!(!is_svg(p.as_bytes()), "{p}");
    }
}

#[test]
fn drawings_become_straight_alpha() {
    let i = drawing_icon(Some(vec![10, 20, 128, 128]), 1).unwrap();
    assert_eq!((i.size, i.rgba), (1, vec![19, 39, 255, 128]));
    assert!(drawing_icon(None, 1).is_none());
    let i = decode_icon(b"/x/a.svg", b"<svg/>", Some(vec![10, 20, 128, 128]), 1).unwrap();
    assert_eq!(i.rgba, [19, 39, 255, 128]);
    assert!(decode_icon(b"/x/a.svg", b"<svg/>", None, 1).is_none());
}

fn png(w: u32, h: u32, pixels: &[u8]) -> Vec<u8> {
    let img = RgbaImage::from_raw(w, h, pixels.to_vec()).unwrap();
    let mut out = std::io::Cursor::new(Vec::new());
    img.write_to(&mut out, ImageFormat::Png).unwrap();
    out.into_inner()
}

#[test]
fn pictures_become_square_icons() {
    let pixels: Vec<u8> = (0..16 * 4).map(|i| i as u8).collect();
    let i = decode_icon(b"/x/a.png", &png(4, 4, &pixels), None, 4).unwrap();
    assert_eq!((i.size, i.rgba), (4, pixels));
    let flat: Vec<u8> = (0..8 * 4).map(|i| i as u8).collect();
    let i = decode_icon(b"/x/a.png", &png(4, 2, &flat), None, 4).unwrap();
    assert_eq!(i.rgba.len(), 64);
    assert_eq!(i.rgba[16..48], flat[..]);
    assert!(decode_icon(b"/x/a.png", b"no picture", None, 4).is_none());
    // A drawing is of no use to a picture.
    assert!(decode_icon(b"/x/a.png", b"", Some(vec![0; 64]), 4).is_none());
}

#[test]
fn decoded_pictures_become_icons() {
    let i = picture_icon(Some((vec![1, 2, 3, 4], 1, 1)), 3).unwrap();
    assert_eq!((i.size, i.rgba.len()), (3, 36));
    assert!(picture_icon(None, 3).is_none());
    // A square too large to be addressed cannot be filled.
    assert!(picture_icon(Some((vec![1, 2, 3, 4], 1, 1)), 0x8000).is_none());
}

#[test]
fn own_icons_take_a_home_directory() {
    let mut env = DataEnv {
        home: None,
        data_home: Some(b"/d".to_vec()),
        data_dirs: Some("/s".to_string()),
    };
    assert_eq!(strings(icon_base_dirs(&env)), ["/s/icons"]);
    env.home = Some(b"/h".to_vec());
    assert_eq!(strings(icon_base_dirs(&env)), ["/h/.icons", "/d/icons", "/s/icons"]);
}

#[test]
fn plain_pictures_become_plain_icons() {
    let color = [200u8, 17, 255, 3];
    let pixels: Vec<u8> = color.iter().copied().cycle().take(64 * 32 * 4).collect();
    let i = decode_icon(b"a.png", &png(64, 32, &pixels), None, 20).unwrap();
    for (n, px) in i.rgba.chunks_exact(4).enumerate() {
        let row = n / 20;
        let want = if (5..15).contains(&row) { color } else { [0; 4] };
        assert_eq!(px, want, "{n}");
    }
}
