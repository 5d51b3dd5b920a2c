//! Application icons for drun mode.
//!
//! The `Icon=` key of a desktop entry is usually a name (such as `firefox`) and
//! not a path. It is resolved against the directories of the icon themes, and the
//! file that is found is decoded into a square bitmap for the rows of the menu.
//! Icons are loaded once and kept by name.

use vstd::prelude::*;
use vstd::hash_map::StringHashMap;
use vstd::utf8::encode_utf8;

use crate::bitmap::{
    decode_raster, fit_center, fit_size, fits_in_center, fitted, raster_pixels, straight_byte,
    unpremultiply,
};
use crate::path::{
    absolute, append, colon_parts, copied, each_joined, extension, extension_of,
    find_user_data_dir, is_absolute, join, join_each, joined, joining_puts_one_separator, paths,
    shared_subdirs, split_colons, DataEnv, DOT,
};
use crate::text::{is_text, string_views, to_chars};

verus! {

/// The decimal digits of `n`, as ASCII.
pub open spec fn decimal(n: nat) -> Seq<u8>
    decreases n,
{
    if n < 10 {
        seq![(0x30 + n) as u8]
    } else {
        decimal(n / 10).push((0x30 + n % 10) as u8)
    }
}

/// The directory name for icons of `s` by `s` pixels.
pub open spec fn square_name(s: u32) -> Seq<u8> {
    decimal(s as nat).push(0x78) + decimal(s as nat)
}

/// `v` with every run of equal numbers replaced by one of them.
pub open spec fn deduped(v: Seq<u32>) -> Seq<u32>
    decreases v.len(),
{
    if v.len() == 0 {
        v
    } else if v.len() > 1 && v.last() == v[v.len() - 2] {
        deduped(v.drop_last())
    } else {
        deduped(v.drop_last()).push(v.last())
    }
}

/// The icon sizes to look for, the wanted one first.
pub open spec fn icon_sizes(size: u32) -> Seq<u32> {
    deduped(seq![size, (size * 2) as u32, 48, 64, 32, 128, 256, 24, 22, 16, 96, 512])
}

/// The subdirectories of a theme to look in, in order. Themes differ in whether
/// the size or the purpose comes first.
pub open spec fn theme_subdirs(size: u32) -> Seq<Seq<u8>> {
    let apps = encode_utf8("/apps"@);
    let under = encode_utf8("apps/"@);
    icon_sizes(size).map_values(|s: u32| square_name(s) + apps).push(
        encode_utf8("scalable/apps"@),
    ) + icon_sizes(size).map_values(|s: u32| under + square_name(s)).push(
        encode_utf8("apps/scalable"@),
    )
}

/// The file of an icon in a directory.
pub open spec fn icon_file(dir: Seq<u8>, name: Seq<u8>, ext: Seq<u8>) -> Seq<u8> {
    joined(dir, name.push(DOT) + ext)
}

/// The files that may hold an icon in each of `dirs`: a drawing comes before a
/// picture.
pub open spec fn icon_files(dirs: Seq<Seq<u8>>, name: Seq<u8>) -> Seq<Seq<u8>>
    decreases dirs.len(),
{
    if dirs.len() == 0 {
        seq![]
    } else {
        icon_files(dirs.drop_last(), name).push(
            icon_file(dirs.last(), name, encode_utf8("svg"@)),
        ).push(icon_file(dirs.last(), name, encode_utf8("png"@)))
    }
}

/// What can be asked of a path.
#[derive(Clone, Copy, Debug, PartialEq, Eq, Structural)]
pub enum Check {
    /// Whether there is anything.
    Exists,
    /// Whether it is a directory.
    Dir,
    /// Whether it is a regular file.
    File,
}

/// Files to look for in order, provided that there is a certain directory.
pub struct Group {
    /// What to ask of each file.
    pub check: Check,
    /// The directory that has to be there, if any.
    pub dir: Option<Vec<u8>>,
    pub files: Vec<Vec<u8>>,
}

/// What a group stands for.
#[verifier::ext_equal]
pub struct GroupView {
    pub check: Check,
    pub dir: Option<Seq<u8>>,
    pub files: Seq<Seq<u8>>,
}

impl View for Group {
    type V = GroupView;

    open spec fn view(&self) -> GroupView {
        GroupView {
            check: self.check,
            dir: match self.dir {
                Some(d) => Some(d@),
                None => None,
            },
            files: paths(self.files@),
        }
    }
}

/// What a list of groups stands for.
pub open spec fn group_views(v: Seq<Group>) -> Seq<GroupView> {
    v.map_values(|g: Group| g@)
}

/// The first of `files` that `disk` has.
pub open spec fn first_file(
    files: Seq<Seq<u8>>,
    check: Check,
    disk: spec_fn(Check, Seq<u8>) -> bool,
) -> Option<Seq<u8>>
    decreases files.len(),
{
    if files.len() == 0 {
        None
    } else if disk(check, files[0]) {
        Some(files[0])
    } else {
        first_file(files.skip(1), check, disk)
    }
}

/// The file that is found in the first group that has one.
pub open spec fn first_hit(
    groups: Seq<GroupView>,
    disk: spec_fn(Check, Seq<u8>) -> bool,
) -> Option<Seq<u8>>
    decreases groups.len(),
{
    if groups.len() == 0 {
        None
    } else {
        let g = groups[0];
        let entered = match g.dir {
            Some(d) => disk(Check::Dir, d),
            None => true,
        };
        if entered && first_file(g.files, g.check, disk) is Some {
            first_file(g.files, g.check, disk)
        } else {
            first_hit(groups.skip(1), disk)
        }
    }
}

/// Where to look for an icon in the themes of one base directory.
pub open spec fn theme_groups(
    base: Seq<u8>,
    themes: Seq<Seq<char>>,
    size: u32,
    name: Seq<u8>,
) -> Seq<GroupView> {
    themes.map_values(
        |t: Seq<char>|
            {
                let dir = joined(base, encode_utf8(t));
                GroupView {
                    check: Check::File,
                    dir: Some(dir),
                    files: icon_files(
                        theme_subdirs(size).map_values(|sub: Seq<u8>| joined(dir, sub)),
                        name,
                    ),
                }
            },
    )
}

/// Where to look for an icon in the themes of all base directories.
pub open spec fn all_theme_groups(
    bases: Seq<Seq<u8>>,
    themes: Seq<Seq<char>>,
    size: u32,
    name: Seq<u8>,
) -> Seq<GroupView>
    decreases bases.len(),
{
    if bases.len() == 0 {
        seq![]
    } else {
        all_theme_groups(bases.drop_last(), themes, size, name) + theme_groups(
            bases.last(),
            themes,
            size,
            name,
        )
    }
}

/// Files to look for without further ado.
pub open spec fn plain_group(files: Seq<Seq<u8>>) -> GroupView {
    GroupView { check: Check::File, dir: None, files }
}

/// Writes `n` in decimal digits.
fn write_decimal(n: u32) -> (v: Vec<u8>)
    ensures
        v@ == decimal(n as nat),
    decreases n,
{
    if n < 10 {
        let mut v: Vec<u8> = Vec::new();
        v.push(0x30 + n as u8);
        assert(v@ == decimal(n as nat));
        v
    } else {
        let mut v = write_decimal(n / 10);
        v.push(0x30 + (n % 10) as u8);
        v
    }
}

fn write_square_name(s: u32) -> (v: Vec<u8>)
    ensures
        v@ == square_name(s),
{
    let digits = write_decimal(s);
    let mut v = copied(digits.as_slice());
    v.push(0x78);
    append(&mut v, digits.as_slice());
    v
}

/// Removes consecutive repetitions.
fn dedup(v: &Vec<u32>) -> (r: Vec<u32>)
    ensures
        r@ == deduped(v@),
{
    let mut r: Vec<u32> = Vec::new();
    let mut i: usize = 0;
    assert(v@.take(0) == Seq::<u32>::empty());
    while i < v.len()
        invariant
            i <= v@.len(),
            r@ == deduped(v@.take(i as int)),
        decreases v.len() - i,
    {
        let ghost next = v@.take(i + 1);
        assert(next.drop_last() == v@.take(i as int));
        if i == 0 || v[i] != v[i - 1] {
            r.push(v[i]);
        }
        i += 1;
    }
    assert(v@.take(i as int) == v@);
    r
}

fn list_theme_subdirs(size: u32) -> (v: Vec<Vec<u8>>)
    requires
        size * 2 <= u32::MAX,
    ensures
        paths(v@) == theme_subdirs(size),
{
    let wanted: Vec<u32> = vec![size, size * 2, 48, 64, 32, 128, 256, 24, 22, 16, 96, 512];
    assert(wanted@ == seq![size, (size * 2) as u32, 48, 64, 32, 128, 256, 24, 22, 16, 96, 512]);
    let sizes = dedup(&wanted);
    let ghost apps = encode_utf8("/apps"@);
    let ghost under = encode_utf8("apps/"@);
    let ghost size_first = sizes@.map_values(|s: u32| square_name(s) + apps);
    let ghost apps_first = sizes@.map_values(|s: u32| under + square_name(s));
    let mut v: Vec<Vec<u8>> = Vec::new();
    let mut i: usize = 0;
    while i < sizes.len()
        invariant
            i <= sizes@.len(),
            apps == encode_utf8("/apps"@),
            size_first == sizes@.map_values(|s: u32| square_name(s) + apps),
            paths(v@) == size_first.take(i as int),
        decreases sizes.len() - i,
    {
        let ghost before = paths(v@);
        let mut sub = write_square_name(sizes[i]);
        append(&mut sub, "/apps".as_bytes());
        v.push(sub);
        assert(paths(v@) == before.push(size_first[i as int]));
        i += 1;
    }
    assert(paths(v@) == size_first);
    v.push(copied("scalable/apps".as_bytes()));
    let ghost first_half = size_first.push(encode_utf8("scalable/apps"@));
    assert(paths(v@) == first_half);
    let mut i: usize = 0;
    while i < sizes.len()
        invariant
            i <= sizes@.len(),
            under == encode_utf8("apps/"@),
            apps_first == sizes@.map_values(|s: u32| under + square_name(s)),
            paths(v@) == first_half + apps_first.take(i as int),
        decreases sizes.len() - i,
    {
        let ghost before = paths(v@);
        let mut sub = copied("apps/".as_bytes());
        let square = write_square_name(sizes[i]);
        append(&mut sub, square.as_slice());
        v.push(sub);
        assert(paths(v@) == before.push(apps_first[i as int]));
        assert(apps_first.take(i + 1) == apps_first.take(i as int).push(apps_first[i as int]));
        i += 1;
    }
    assert(apps_first.take(i as int) == apps_first);
    let ghost before = paths(v@);
    v.push(copied("apps/scalable".as_bytes()));
    assert(paths(v@) == before.push(encode_utf8("apps/scalable"@)));
    assert(paths(v@) == theme_subdirs(size));
    v
}

fn make_icon_file(dir: &[u8], name: &[u8], ext: &[u8]) -> (p: Vec<u8>)
    ensures
        p@ == icon_file(dir@, name@, ext@),
{
    let mut file = copied(name);
    file.push(DOT);
    append(&mut file, ext);
    join(dir, file.as_slice())
}

fn list_icon_files(dirs: &Vec<Vec<u8>>, name: &[u8]) -> (v: Vec<Vec<u8>>)
    ensures
        paths(v@) == icon_files(paths(dirs@), name@),
{
    let ghost all = paths(dirs@);
    let mut v: Vec<Vec<u8>> = Vec::new();
    let mut i: usize = 0;
    assert(all.take(0).len() == 0);
    assert(paths(v@) == icon_files(all.take(0), name@));
    while i < dirs.len()
        invariant
            i <= dirs@.len(),
            all == paths(dirs@),
            paths(v@) == icon_files(all.take(i as int), name@),
        decreases dirs.len() - i,
    {
        let ghost next = all.take(i + 1);
        assert(next.drop_last() == all.take(i as int));
        assert(next.last() == dirs@[i as int]@);
        let ghost before = paths(v@);
        let svg = make_icon_file(dirs[i].as_slice(), name, "svg".as_bytes());
        let png = make_icon_file(dirs[i].as_slice(), name, "png".as_bytes());
        let ghost (s, p) = (svg@, png@);
        v.push(svg);
        v.push(png);
        assert(paths(v@) == before.push(s).push(p));
        i += 1;
    }
    assert(all.take(i as int) == all);
    v
}

/// What a search stands for: the groups that are left to look through, and what
/// was found.
#[verifier::ext_equal]
pub struct SearchView {
    pub rest: Seq<GroupView>,
    pub found: Option<Seq<u8>>,
}

/// `rest` from the first group on that has something to ask.
pub open spec fn settled(rest: Seq<GroupView>) -> Seq<GroupView>
    decreases rest.len(),
{
    if rest.len() > 0 && rest[0].dir is None && rest[0].files.len() == 0 {
        settled(rest.skip(1))
    } else {
        rest
    }
}

impl SearchView {
    /// Whether there is nothing left to ask.
    pub open spec fn over(self) -> bool {
        self.found is Some || self.rest.len() == 0
    }

    /// What is to be asked next.
    pub open spec fn question(self) -> (Check, Seq<u8>)
        recommends
            !self.over(),
    {
        let g = self.rest[0];
        match g.dir {
            Some(d) => (Check::Dir, d),
            None => (g.check, g.files[0]),
        }
    }

    /// The search after the answer to its question.
    pub open spec fn answered(self, yes: bool) -> SearchView {
        let g = self.rest[0];
        if g.dir is Some {
            if yes {
                SearchView {
                    rest: settled(seq![GroupView { dir: None, ..g }] + self.rest.skip(1)),
                    ..self
                }
            } else {
                SearchView { rest: settled(self.rest.skip(1)), ..self }
            }
        } else if yes {
            SearchView { found: Some(g.files[0]), ..self }
        } else {
            SearchView {
                rest: settled(
                    seq![GroupView { files: g.files.skip(1), ..g }] + self.rest.skip(1),
                ),
                ..self
            }
        }
    }

    /// What the search finds on `disk`.
    pub open spec fn outcome(self, disk: spec_fn(Check, Seq<u8>) -> bool) -> Option<Seq<u8>> {
        match self.found {
            Some(p) => Some(p),
            None => first_hit(self.rest, disk),
        }
    }

    /// The first group, if there is one, has something to ask.
    pub open spec fn wf(self) -> bool {
        self.rest.len() > 0 ==> self.rest[0].dir is Some || self.rest[0].files.len() > 0
    }

    /// How many questions are left at most.
    pub open spec fn questions_left(self) -> nat {
        if self.found is Some {
            0
        } else {
            questions_in(self.rest)
        }
    }
}

/// How many questions there are in `groups`.
pub open spec fn questions_in(groups: Seq<GroupView>) -> nat
    decreases groups.len(),
{
    if groups.len() == 0 {
        0
    } else {
        let g = groups[0];
        (if g.dir is Some {
            1nat
        } else {
            0nat
        }) + g.files.len() + questions_in(groups.skip(1))
    }
}

/// The search for the file of an icon. It asks about one path after another, and
/// is told what is on disk.
pub struct Search {
    groups: Vec<Group>,
    /// The group to look through.
    at: usize,
    /// Whether its directory is known to be there.
    entered: bool,
    /// The next file of the group.
    file: usize,
    found: Option<Vec<u8>>,
}

impl Search {
    /// What is left of the groups.
    closed spec fn rest(&self) -> Seq<GroupView> {
        if self.at < self.groups@.len() {
            let g = self.groups@[self.at as int]@;
            seq![
                GroupView {
                    check: g.check,
                    dir: if self.entered {
                        None
                    } else {
                        g.dir
                    },
                    files: g.files.skip(self.file as int),
                },
            ] + group_views(self.groups@).skip(self.at + 1)
        } else {
            seq![]
        }
    }

    /// The marks lie within the lists.
    closed spec fn in_bounds(&self) -> bool {
        self.at < self.groups@.len() ==> self.file <= self.groups@[self.at as int].files@.len()
    }

    pub closed spec fn wf(&self) -> bool {
        self.in_bounds() && self@.wf()
    }
}

impl View for Search {
    type V = SearchView;

    closed spec fn view(&self) -> SearchView {
        SearchView {
            rest: self.rest(),
            found: match self.found {
                Some(p) => Some(p@),
                None => None,
            },
        }
    }
}

impl Search {
    /// A search through `groups`.
    fn new(groups: Vec<Group>) -> (s: Search)
        ensures
            s.wf(),
            s@ == (SearchView { rest: settled(group_views(groups@)), found: None }),
    {
        let ghost all = group_views(groups@);
        let mut s = Search { groups, at: 0, entered: false, file: 0, found: None };
        assert(s.rest() == all) by {
            if all.len() > 0 {
                let g = groups@[0]@;
                assert(g.files.skip(0) == g.files);
                assert(s.rest() == seq![g] + all.skip(1));
            }
        }
        s.settle();
        s
    }

    /// Passes over groups that have nothing left to ask.
    fn settle(&mut self)
        requires
            old(self).in_bounds(),
        ensures
            final(self).wf(),
            final(self)@ == (SearchView { rest: settled(old(self)@.rest), ..old(self)@ }),
    {
        let ghost before = self@;
        while self.at < self.groups.len() && (self.entered || self.groups[self.at].dir.is_none())
            && self.file == self.groups[self.at].files.len()
            invariant
                self.in_bounds(),
                settled(self@.rest) == settled(before.rest),
                self@.found == before.found,
            decreases self.groups@.len() - self.at,
        {
            let ghost rest = self@.rest;
            let ghost all = group_views(self.groups@);
            self.at += 1;
            self.entered = false;
            self.file = 0;
            assert(self@.rest == rest.skip(1)) by {
                assert(rest.skip(1) == all.skip(self.at as int));
                if self.at < self.groups@.len() {
                    let g = self.groups@[self.at as int]@;
                    assert(g.files.skip(0) == g.files);
                    assert(all.skip(self.at as int) == seq![g] + all.skip(self.at + 1));
                }
            }
            assert(rest[0].files.len() == 0);
        }
        assert(settled(self@.rest) == self@.rest) by {
            if self.at < self.groups@.len() {
                let g = self.groups@[self.at as int]@;
                assert(self@.rest[0].files == g.files.skip(self.file as int));
            }
        }
    }

    /// The question that decides how the search goes on; `None` when it is over.
    pub fn next(&self) -> (q: Option<(Check, &Vec<u8>)>)
        requires
            self.wf(),
        ensures
            q is None <==> self@.over(),
            q matches Some((check, path)) ==> (check, path@) == self@.question(),
    {
        if self.found.is_some() || self.at >= self.groups.len() {
            return None;
        }
        let g = &self.groups[self.at];
        if !self.entered {
            if let Some(dir) = &g.dir {
                return Some((Check::Dir, dir));
            }
        }
        assert(self@.rest[0].files.len() > 0);
        assert(self@.rest[0].files[0] == g.files@[self.file as int]@);
        Some((g.check, &g.files[self.file]))
    }

    /// Takes the answer to the question.
    pub fn answer(&mut self, yes: bool)
        requires
            old(self).wf(),
            !old(self)@.over(),
        ensures
            final(self).wf(),
            final(self)@ == old(self)@.answered(yes),
    {
        let ghost before = self@;
        let ghost tail = group_views(self.groups@).skip(self.at + 1);
        let ghost g = self.groups@[self.at as int]@;
        assert(self.at < self.groups.len());
        assert(before.rest.skip(1) == tail);
        if !self.entered && self.groups[self.at].dir.is_some() {
            assert(before.rest[0].dir is Some);
            if yes {
                self.entered = true;
                assert(self@.rest == seq![GroupView { dir: None, ..before.rest[0] }] + tail);
            } else {
                self.at += 1;
                self.entered = false;
                self.file = 0;
                assert(self@.rest == tail) by {
                    if self.at < self.groups@.len() {
                        let n = self.groups@[self.at as int]@;
                        assert(n.files.skip(0) == n.files);
                        assert(tail == seq![n] + group_views(self.groups@).skip(self.at + 1));
                    }
                }
            }
            self.settle();
        } else {
            assert(before.rest[0].dir is None);
            assert(before.rest[0].files.len() > 0);
            assert(self.file < self.groups@[self.at as int].files.len());
            assert(before.rest[0].files[0] == g.files[self.file as int]);
            if yes {
                let path = copied(self.groups[self.at].files[self.file].as_slice());
                self.found = Some(path);
            } else {
                self.file += 1;
                assert(g.files.skip(self.file as int) == before.rest[0].files.skip(1));
                assert(self@.rest == seq![
                    GroupView { files: before.rest[0].files.skip(1), ..before.rest[0] },
                ] + tail);
                self.settle();
            }
        }
        assert(self@ =~= before.answered(yes));
    }

    /// What was found so far.
    pub fn found(&self) -> (p: Option<&Vec<u8>>)
        ensures
            match p {
                Some(path) => self@.found == Some(path@),
                None => self@.found is None,
            },
    {
        match &self.found {
            Some(p) => Some(p),
            None => None,
        }
    }
}

/// A decoded icon: a square of straight-alpha RGBA pixels.
pub struct Icon {
    /// The length of a side in pixels.
    pub size: u32,
    pub rgba: Vec<u8>,
}

impl Icon {
    /// There are four bytes for each pixel.
    pub open spec fn wf(&self) -> bool {
        self.rgba@.len() == 4 * (self.size * self.size)
    }
}

/// What a loader of icons stands for.
#[verifier::ext_equal]
pub struct LoaderView {
    /// The length of a side of each icon.
    pub size: u32,
    /// The directories that hold icon themes.
    pub base_dirs: Seq<Seq<u8>>,
    /// The directories that hold icons without a theme.
    pub pixmap_dirs: Seq<Seq<u8>>,
    /// The themes to look in, in order.
    pub themes: Seq<Seq<char>>,
    /// The icons that were loaded, by name; `None` where there was nothing to load.
    pub cache: Map<Seq<char>, Option<Icon>>,
}

impl LoaderView {
    /// The icons are squares of the loader's size, and have names.
    pub open spec fn wf(self) -> bool {
        forall|name: Seq<char>|
            self.cache.dom().contains(name) ==> (#[trigger] self.cache[name] matches Some(icon)
                ==> icon.wf() && icon.size == self.size && name.len() > 0)
    }

    /// Where to look for the icon `name`. An absolute path stands for itself. A
    /// name is looked for in the themes, then in the base directories, then among
    /// the icons without a theme.
    pub open spec fn places(self, name: Seq<char>) -> Seq<GroupView> {
        let bytes = encode_utf8(name);
        if name.len() == 0 {
            seq![]
        } else if absolute(bytes) {
            seq![GroupView { check: Check::Exists, dir: None, files: seq![bytes] }]
        } else {
            all_theme_groups(self.base_dirs, self.themes, self.size, bytes).push(
                plain_group(icon_files(self.base_dirs, bytes)),
            ).push(plain_group(icon_files(self.pixmap_dirs, bytes)))
        }
    }

    /// The loader once it was asked for the icon `name` and `loaded` is what there
    /// was to load.
    pub open spec fn asked(self, name: Seq<char>, loaded: Option<Icon>) -> LoaderView {
        if self.cache.dom().contains(name) {
            self
        } else {
            LoaderView { cache: self.cache.insert(name, loaded), ..self }
        }
    }
}

/// `themes` with `theme` in it.
pub open spec fn with_theme(themes: Seq<Seq<char>>, theme: Seq<char>) -> Seq<Seq<char>> {
    if themes.contains(theme) {
        themes
    } else {
        themes.push(theme)
    }
}

/// The themes to look in: the chosen one, and the common defaults.
pub open spec fn theme_list(chosen: Option<Seq<char>>) -> Seq<Seq<char>> {
    let first = match chosen {
        Some(theme) => seq![theme],
        None => seq![],
    };
    with_theme(with_theme(first, "Adwaita"@), "hicolor"@)
}

/// The directories that hold icon themes: those of a user who has a home directory,
/// and those shared by all.
pub open spec fn icon_base_dirs_of(env: &DataEnv) -> Seq<Seq<u8>> {
    let icons = encode_utf8("icons"@);
    let own = match (env.home, env.user_data_dir()) {
        (Some(home), Some(dir)) => seq![
            joined(home@, encode_utf8(".icons"@)),
            joined(dir, icons),
        ],
        _ => seq![],
    };
    own + each_joined(env.shared_data_dirs(), icons)
}

/// The directories that hold icons without a theme.
pub open spec fn pixmap_dirs_of(env: &DataEnv) -> Seq<Seq<u8>> {
    let shared = match env.data_dirs {
        Some(dirs) => colon_parts(encode_utf8(dirs@)),
        None => seq![],
    };
    seq![encode_utf8("/usr/share/pixmaps"@)] + each_joined(shared, encode_utf8("pixmaps"@))
}

/// Lists the directories that hold icon themes.
pub fn icon_base_dirs(env: &DataEnv) -> (v: Vec<Vec<u8>>)
    ensures
        paths(v@) == icon_base_dirs_of(env),
{
    let mut v: Vec<Vec<u8>> = Vec::new();
    if let (Some(home), Some(dir)) = (&env.home, find_user_data_dir(env)) {
        v.push(join(home.as_slice(), ".icons".as_bytes()));
        v.push(join(dir.as_slice(), "icons".as_bytes()));
    }
    let ghost own = paths(v@);
    let mut dirs = shared_subdirs(env, "icons".as_bytes());
    let ghost below = dirs@;
    v.append(&mut dirs);
    assert(paths(v@) == own + paths(below));
    assert(paths(v@) == icon_base_dirs_of(env));
    v
}

/// Lists the directories that hold icons without a theme.
pub fn pixmap_dirs(env: &DataEnv) -> (v: Vec<Vec<u8>>)
    ensures
        paths(v@) == pixmap_dirs_of(env),
{
    let mut v: Vec<Vec<u8>> = Vec::new();
    v.push(copied("/usr/share/pixmaps".as_bytes()));
    let shared = match &env.data_dirs {
        Some(dirs) => split_colons(dirs.as_str().as_bytes()),
        None => Vec::new(),
    };
    let ghost own = paths(v@);
    let mut dirs = join_each(&shared, "pixmaps".as_bytes());
    let ghost below = dirs@;
    v.append(&mut dirs);
    assert(paths(v@) == own + paths(below));
    assert(paths(v@) == pixmap_dirs_of(env));
    v
}

/// Adds a theme to the end of the list unless it is there.
fn add_theme(themes: &mut Vec<String>, theme: &str)
    ensures
        string_views(final(themes)@) == with_theme(string_views(old(themes)@), theme@),
{
    let ghost before = string_views(themes@);
    let mut i: usize = 0;
    while i < themes.len()
        invariant
            i <= themes@.len(),
            before == string_views(themes@),
            *themes == *old(themes),
            forall|j: int| 0 <= j < i ==> before[j] != theme@,
        decreases themes.len() - i,
    {
        if is_text(to_chars(themes[i].as_str()).as_slice(), theme) {
            assert(before[i as int] == theme@);
            return;
        }
        i += 1;
    }
    themes.push(theme.to_owned());
    assert(string_views(themes@) == before.push(theme@));
}

/// Finds icons by name and keeps those that were loaded.
pub struct IconLoader {
    size: u32,
    base_dirs: Vec<Vec<u8>>,
    pixmap_dirs: Vec<Vec<u8>>,
    themes: Vec<String>,
    cache: StringHashMap<Option<Icon>>,
}

impl View for IconLoader {
    type V = LoaderView;

    closed spec fn view(&self) -> LoaderView {
        LoaderView {
            size: self.size,
            base_dirs: paths(self.base_dirs@),
            pixmap_dirs: paths(self.pixmap_dirs@),
            themes: string_views(self.themes@),
            cache: self.cache@,
        }
    }
}

impl IconLoader {
    /// A loader of icons of `size` by `size` pixels that has loaded none yet.
    pub fn new(size: u32, theme: Option<String>, env: &DataEnv) -> (l: IconLoader)
        ensures
            l@ == (LoaderView {
                size,
                base_dirs: icon_base_dirs_of(env),
                pixmap_dirs: pixmap_dirs_of(env),
                themes: theme_list(
                    match theme {
                        Some(t) => Some(t@),
                        None => None,
                    },
                ),
                cache: Map::empty(),
            }),
            l@.wf(),
    {
        let mut themes: Vec<String> = Vec::new();
        match theme {
            Some(t) => {
                themes.push(t);
                assert(string_views(themes@) == seq![t@]);
            },
            None => {
                assert(string_views(themes@) == Seq::<Seq<char>>::empty());
            },
        }
        add_theme(&mut themes, "Adwaita");
        add_theme(&mut themes, "hicolor");
        IconLoader {
            size,
            base_dirs: icon_base_dirs(env),
            pixmap_dirs: pixmap_dirs(env),
            themes,
            cache: StringHashMap::new(),
        }
    }

    /// Whether the icon `name` was asked for before.
    pub fn is_cached(&self, name: &str) -> (b: bool)
        ensures
            b == self@.cache.dom().contains(name@),
    {
        self.cache.contains_key(name)
    }

    /// The icon `name`. The first time it is asked for, it is `loaded` that is kept
    /// and returned; from then on, what was kept. An icon without a name is never
    /// there.
    pub fn get(&mut self, name: &str, loaded: Option<Icon>) -> (r: Option<&Icon>)
        requires
            old(self)@.wf(),
            loaded matches Some(icon) ==> icon.wf() && icon.size == old(self)@.size,
            name@.len() == 0 ==> loaded is None,
        ensures
            name@.len() == 0 ==> r is None,
            final(self)@ == old(self)@.asked(name@, loaded),
            final(self)@.wf(),
            match r {
                Some(icon) => final(self)@.cache[name@] == Some(*icon),
                None => final(self)@.cache[name@] is None,
            },
    {
        if !self.cache.contains_key(name) {
            self.cache.insert(name.to_owned(), loaded);
        }
        match self.cache.get(name) {
            Some(Some(icon)) => Some(icon),
            _ => None,
        }
    }

    /// Where to look for the icon `name` among the themes.
    fn list_theme_groups(&self, name: &[u8]) -> (v: Vec<Group>)
        requires
            self@.size * 2 <= u32::MAX,
        ensures
            group_views(v@) == all_theme_groups(
                self@.base_dirs,
                self@.themes,
                self@.size,
                name@,
            ),
    {
        let subdirs = list_theme_subdirs(self.size);
        let ghost bases = self@.base_dirs;
        let ghost themes = self@.themes;
        let ghost size = self.size;
        let mut v: Vec<Group> = Vec::new();
        let mut b: usize = 0;
        assert(bases.take(0).len() == 0);
        assert(group_views(v@) == all_theme_groups(bases.take(0), themes, size, name@));
        while b < self.base_dirs.len()
            invariant
                b <= self.base_dirs@.len(),
                bases == self@.base_dirs,
                themes == self@.themes,
                size == self.size,
                paths(subdirs@) == theme_subdirs(size),
                group_views(v@) == all_theme_groups(bases.take(b as int), themes, size, name@),
            decreases self.base_dirs.len() - b,
        {
            let ghost before = group_views(v@);
            let ghost base = bases[b as int];
            let ghost here = theme_groups(base, themes, size, name@);
            let mut t: usize = 0;
            while t < self.themes.len()
                invariant
                    t <= self.themes@.len(),
                    b < self.base_dirs@.len(),
                    base == self.base_dirs@[b as int]@,
                    themes == self@.themes,
                    paths(subdirs@) == theme_subdirs(size),
                    here == theme_groups(base, themes, size, name@),
                    group_views(v@) == before + here.take(t as int),
                decreases self.themes.len() - t,
            {
                let ghost listed = group_views(v@);
                let dir = join(self.base_dirs[b].as_slice(), self.themes[t].as_str().as_bytes());
                let mut dirs: Vec<Vec<u8>> = Vec::new();
                let ghost below = theme_subdirs(size).map_values(|sub: Seq<u8>| joined(dir@, sub));
                let mut i: usize = 0;
                while i < subdirs.len()
                    invariant
                        i <= subdirs@.len(),
                        paths(subdirs@) == theme_subdirs(size),
                        below == theme_subdirs(size).map_values(
                            |sub: Seq<u8>| joined(dir@, sub),
                        ),
                        paths(dirs@) == below.take(i as int),
                    decreases subdirs.len() - i,
                {
                    let ghost so_far = paths(dirs@);
                    assert(paths(subdirs@)[i as int] == subdirs@[i as int]@);
                    dirs.push(join(dir.as_slice(), subdirs[i].as_slice()));
                    assert(paths(dirs@) == so_far.push(below[i as int]));
                    i += 1;
                }
                assert(paths(subdirs@).len() == subdirs@.len());
                assert(below.take(i as int) == below);
                let files = list_icon_files(&dirs, name);
                let group = Group { check: Check::File, dir: Some(dir), files };
                assert(group@ == here[t as int]);
                let ghost view = group@;
                v.push(group);
                assert(group_views(v@) == listed.push(view));
                assert(here.take(t + 1) == here.take(t as int).push(here[t as int]));
                t += 1;
            }
            assert(here.take(t as int) == here);
            assert(bases.take(b + 1).drop_last() == bases.take(b as int));
            b += 1;
        }
        assert(bases.take(b as int) == bases);
        v
    }

    /// The search for the file of the icon `name`.
    pub fn resolve(&self, name: &str) -> (s: Search)
        requires
            name@.len() > 0 && !absolute(encode_utf8(name@)) ==> self@.size * 2 <= u32::MAX,
        ensures
            s.wf(),
            s@ == (SearchView { rest: settled(self@.places(name@)), found: None }),
    {
        let bytes = name.as_bytes();
        let mut groups: Vec<Group> = Vec::new();
        if name.is_empty() {
            assert(group_views(groups@) == self@.places(name@));
            return Search::new(groups);
        }
        if is_absolute(bytes) {
            let mut files: Vec<Vec<u8>> = Vec::new();
            files.push(copied(bytes));
            assert(paths(files@) == seq![bytes@]);
            let group = Group { check: Check::Exists, dir: None, files };
            let ghost view = group@;
            groups.push(group);
            assert(group_views(groups@) == seq![view]);
            return Search::new(groups);
        }
        let mut groups = self.list_theme_groups(bytes);
        let ghost themed = group_views(groups@);
        let flat = Group {
            check: Check::File,
            dir: None,
            files: list_icon_files(&self.base_dirs, bytes),
        };
        let pixmaps = Group {
            check: Check::File,
            dir: None,
            files: list_icon_files(&self.pixmap_dirs, bytes),
        };
        let ghost (f, p) = (flat@, pixmaps@);
        groups.push(flat);
        groups.push(pixmaps);
        assert(group_views(groups@) == themed.push(f).push(p));
        Search::new(groups)
    }

    /// The length of a side of each icon.
    pub fn size(&self) -> (n: u32)
        ensures
            n == self@.size,
    {
        self.size
    }
}

/// Whether a file holds a vector drawing, by its extension `svg` in any case.
pub open spec fn names_svg(path: Seq<u8>) -> bool {
    match extension_of(path) {
        Some(e) => {
            &&& e.len() == 3
            &&& e[0] == 0x73 || e[0] == 0x53
            &&& e[1] == 0x76 || e[1] == 0x56
            &&& e[2] == 0x67 || e[2] == 0x47
        },
        None => false,
    }
}

/// Whether `path` names a vector drawing.
pub fn is_svg(path: &[u8]) -> (b: bool)
    ensures
        b == names_svg(path@),
{
    match extension(path) {
        Some(e) => e.len() == 3 && (e[0] == 0x73 || e[0] == 0x53) && (e[1] == 0x76 || e[1] == 0x56)
            && (e[2] == 0x67 || e[2] == 0x47),
        None => false,
    }
}

/// Whether a picture of `w` by `h` pixels can be fitted into a square of `size` in
/// this machine's address space.
pub open spec fn fittable(w: u32, h: u32, size: u32) -> bool {
    ||| w == size && h == size
    ||| {
        &&& 4 * (size * size) <= u32::MAX
        &&& 4 * (size * size) <= isize::MAX
        &&& 16 * (fitted(w, h, size).1 * w) <= isize::MAX
    }
}

fn is_fittable(w: u32, h: u32, size: u32) -> (b: bool)
    ensures
        b == fittable(w, h, size),
{
    if w == size && h == size {
        return true;
    }
    if size >= 0x8000 {
        assert(4 * (size * size) > u32::MAX) by (nonlinear_arith)
            requires
                size >= 0x8000,
        ;
        return false;
    }
    assert(4 * (size * size) <= u32::MAX) by (nonlinear_arith)
        requires
            size < 0x8000,
    ;
    let (_, dh) = fit_size(w, h, size);
    assert(dh * w <= 0x8000 * 0x1_0000_0000) by (nonlinear_arith)
        requires
            dh <= 0x8000,
            w <= 0x1_0000_0000,
    ;
    let limit: u64 = isize::MAX as u64;
    4 * (size as u64 * size as u64) <= limit && 16 * (dh as u64 * w as u64) <= limit
}

/// Whether `rgba` shows the picture `pixels` of `w` by `h` in a square of `size`.
pub open spec fn shows(pixels: Seq<u8>, w: u32, h: u32, size: u32, rgba: Seq<u8>) -> bool {
    if w == size && h == size {
        rgba == pixels
    } else {
        fits_in_center(pixels, w, h, size, rgba)
    }
}

/// Makes an icon of `size` by `size` pixels of a decoded picture, given with its
/// width and height. It keeps its proportions and stands in the centre. There is no
/// icon without a picture, and none of one that cannot be fitted.
pub fn picture_icon(picture: Option<(Vec<u8>, u32, u32)>, size: u32) -> (r: Option<Icon>)
    requires
        picture matches Some((pixels, w, h)) ==> pixels@.len() == 4 * (h * w),
    ensures
        r matches Some(icon) ==> icon.wf() && icon.size == size,
        match picture {
            Some((pixels, w, h)) if fittable(w, h, size) => r matches Some(icon) && shows(
                pixels@,
                w,
                h,
                size,
                icon.rgba@,
            ),
            _ => r is None,
        },
{
    match picture {
        Some((pixels, w, h)) => {
            if is_fittable(w, h, size) {
                let rgba = fit_center(&pixels, w, h, size);
                Some(Icon { size, rgba })
            } else {
                None
            }
        },
        None => None,
    }
}

/// Makes an icon of `size` by `size` pixels of a drawing's premultiplied pixels at
/// that size. There is no icon without them.
pub fn drawing_icon(drawing: Option<Vec<u8>>, size: u32) -> (r: Option<Icon>)
    requires
        drawing matches Some(pixels) ==> pixels@.len() == 4 * (size * size),
    ensures
        r matches Some(icon) ==> icon.wf() && icon.size == size,
        match drawing {
            Some(pixels) => r matches Some(icon) && (forall|i: int|
                0 <= i < pixels@.len() ==> #[trigger] icon.rgba@[i] == straight_byte(pixels@, i)),
            None => r is None,
        },
{
    match drawing {
        Some(pixels) => {
            let mut rgba = pixels;
            unpremultiply(&mut rgba);
            Some(Icon { size, rgba })
        },
        None => None,
    }
}

/// Makes an icon of `size` by `size` pixels of the file `path`, which holds `data`.
/// Of a vector drawing, `drawing` are the premultiplied pixels at that size.
pub fn decode_icon(path: &[u8], data: &[u8], drawing: Option<Vec<u8>>, size: u32) -> (r: Option<
    Icon,
>)
    requires
        drawing matches Some(pixels) ==> pixels@.len() == 4 * (size * size),
    ensures
        r matches Some(icon) ==> icon.wf() && icon.size == size,
        names_svg(path@) ==> match drawing {
            Some(pixels) => r matches Some(icon) && (forall|i: int|
                0 <= i < pixels@.len() ==> #[trigger] icon.rgba@[i] == straight_byte(pixels@, i)),
            None => r is None,
        },
        !names_svg(path@) ==> match raster_pixels(data@) {
            Some((pixels, w, h)) if fittable(w, h, size) => r matches Some(icon) && shows(
                pixels,
                w,
                h,
                size,
                icon.rgba@,
            ),
            _ => r is None,
        },
{
    if is_svg(path) {
        drawing_icon(drawing, size)
    } else {
        picture_icon(decode_raster(data), size)
    }
}

proof fn settled_keeps_hits(
    rest: Seq<GroupView>,
    disk: spec_fn(Check, Seq<u8>) -> bool,
)
    ensures
        first_hit(settled(rest), disk) == first_hit(rest, disk),
        questions_in(settled(rest)) == questions_in(rest),
        (SearchView { rest: settled(rest), found: None }).wf(),
    decreases rest.len(),
{
    if rest.len() > 0 && rest[0].dir is None && rest[0].files.len() == 0 {
        settled_keeps_hits(rest.skip(1), disk);
    }
}

/// A truthful answer does not change what the search finds, and brings it closer
/// to its end.
pub proof fn truthful_answers_keep_outcome(
    s: SearchView,
    disk: spec_fn(Check, Seq<u8>) -> bool,
)
    requires
        s.wf(),
        !s.over(),
    ensures
        ({
            let (check, path) = s.question();
            let next = s.answered(disk(check, path));
            &&& next.wf()
            &&& next.outcome(disk) == s.outcome(disk)
            &&& next.questions_left() < s.questions_left()
        }),
{
    let g = s.rest[0];
    let tail = s.rest.skip(1);
    let (check, path) = s.question();
    if g.dir is Some {
        let open = seq![GroupView { dir: None, ..g }] + tail;
        assert(open.skip(1) == tail);
        assert(open[0] == (GroupView { dir: None, ..g }));
        if disk(check, path) {
            settled_keeps_hits(open, disk);
        } else {
            settled_keeps_hits(tail, disk);
        }
    } else {
        let shorter = seq![GroupView { files: g.files.skip(1), ..g }] + tail;
        assert(shorter.skip(1) == tail);
        assert(shorter[0] == (GroupView { files: g.files.skip(1), ..g }));
        settled_keeps_hits(shorter, disk);
    }
}

/// A search that is over has found what there is to find.
pub proof fn search_over_is_decided(s: SearchView, disk: spec_fn(Check, Seq<u8>) -> bool)
    requires
        s.over(),
    ensures
        s.outcome(disk) == s.found,
{
}

/// A search among `groups` that is answered truthfully to its end finds the first
/// file there is.
pub proof fn search_finds_first_hit(
    groups: Seq<GroupView>,
    disk: spec_fn(Check, Seq<u8>) -> bool,
)
    ensures
        (SearchView { rest: settled(groups), found: None }).wf(),
        (SearchView { rest: settled(groups), found: None }).outcome(disk) == first_hit(
            groups,
            disk,
        ),
{
    settled_keeps_hits(groups, disk);
}

/// An icon without a name is nowhere, and an absolute path is taken if there is
/// anything there; neither depends on the themes.
pub proof fn paths_need_no_theme(
    l: LoaderView,
    name: Seq<char>,
    disk: spec_fn(Check, Seq<u8>) -> bool,
)
    ensures
        name.len() == 0 ==> first_hit(l.places(name), disk) is None,
        name.len() > 0 && absolute(encode_utf8(name)) ==> first_hit(l.places(name), disk) == (
        if disk(Check::Exists, encode_utf8(name)) {
            Some(encode_utf8(name))
        } else {
            None
        }),
{
    if name.len() > 0 && absolute(encode_utf8(name)) {
        let groups = l.places(name);
        assert(groups.skip(1).len() == 0);
        assert(groups[0].files.skip(1).len() == 0);
        reveal_with_fuel(first_file, 2);
        reveal_with_fuel(first_hit, 2);
    }
}

proof fn deduped_keeps_first(v: Seq<u32>)
    requires
        v.len() > 0,
    ensures
        deduped(v).len() > 0,
        deduped(v)[0] == v[0],
    decreases v.len(),
{
    if v.len() > 1 {
        deduped_keeps_first(v.drop_last());
    } else {
        assert(deduped(v.drop_last()).len() == 0);
    }
}

/// In a theme, the directory of the wanted size is the first to be looked in.
pub proof fn wanted_size_comes_first(size: u32)
    ensures
        icon_sizes(size)[0] == size,
        theme_subdirs(size)[0] == square_name(size) + encode_utf8("/apps"@),
{
    deduped_keeps_first(
        seq![size, (size * 2) as u32, 48, 64, 32, 128, 256, 24, 22, 16, 96, 512],
    );
}

/// What was loaded first stays: later questions for the same icon change nothing,
/// whatever there would be to load, and questions for other icons do not touch it.
pub proof fn first_load_stays(
    l: LoaderView,
    name: Seq<char>,
    loaded: Option<Icon>,
    other: Seq<char>,
    later: Option<Icon>,
)
    ensures
        l.asked(name, loaded).asked(name, later) == l.asked(name, loaded),
        l.cache.dom().contains(name) ==> l.asked(name, loaded) == l,
        l.asked(name, loaded).asked(other, later).cache[name] == l.asked(name, loaded).cache[name],
{
}

/// The theme list holds every default once, and `hicolor` is the last resort unless
/// it is the chosen theme.
pub proof fn hicolor_is_last_resort(chosen: Option<Seq<char>>)
    ensures
        theme_list(chosen).contains("hicolor"@),
        theme_list(chosen).contains("Adwaita"@),
        chosen matches Some(t) ==> theme_list(chosen)[0] == t,
        chosen != Some("hicolor"@) ==> theme_list(chosen).last() == "hicolor"@,
        theme_list(chosen).no_duplicates(),
{
    reveal_strlit("Adwaita");
    reveal_strlit("hicolor");
    let a = "Adwaita"@;
    let h = "hicolor"@;
    assert(a[0] != h[0]);
    let first = match chosen {
        Some(theme) => seq![theme],
        None => seq![],
    };
    let second = with_theme(first, a);
    assert(second.contains(a)) by {
        if !first.contains(a) {
            assert(second.last() == a);
        }
    }
    let third = with_theme(second, h);
    assert(third.contains(h)) by {
        if !second.contains(h) {
            assert(third.last() == h);
        }
    }
    let i = choose|i: int| 0 <= i < second.len() && second[i] == a;
    assert(third[i] == a);
    assert(chosen matches Some(t) ==> first[0] == t);
}

/// The file of an icon in a directory has the whole name of the icon, dots and all, with
/// a dot and the extension behind it. So icons of different names have different files.
pub proof fn icon_files_bear_the_whole_name(
    dir: Seq<u8>,
    name: Seq<u8>,
    other: Seq<u8>,
    ext: Seq<u8>,
)
    requires
        !(name.len() > 0 && name[0] == 0x2f),
        !(other.len() > 0 && other[0] == 0x2f),
    ensures
        dir.len() > 0 && dir.last() != 0x2f ==> icon_file(dir, name, ext) == dir + seq![0x2f] + name
            + seq![0x2e] + ext,
        dir.len() == 0 || dir.last() == 0x2f ==> icon_file(dir, name, ext) == dir + name + seq![
            0x2e,
        ] + ext,
        icon_file(dir, name, ext) == icon_file(dir, other, ext) ==> name == other,
{
    let rel = name.push(DOT) + ext;
    joining_puts_one_separator(dir, rel);
    assert(dir + seq![0x2f] + rel == dir + seq![0x2f] + name + seq![0x2e] + ext);
    let rel2 = other.push(DOT) + ext;
    joining_puts_one_separator(dir, rel2);
    assert(dir + rel == dir + name + seq![0x2e] + ext);
    let base = if dir.len() > 0 && dir.last() != 0x2f {
        dir + seq![0x2f]
    } else {
        dir
    };
    let a = base + rel;
    let b = base + rel2;
    if a == b {
        assert(a.len() == b.len());
        assert forall|i: int| 0 <= i < name.len() implies name[i] == other[i] by {
            assert(a[base.len() + i] == name[i]);
            assert(b[base.len() + i] == other[i]);
        }
        assert(name == other);
    }
}

/// In each directory the drawing is looked for first and the picture second, directory
/// after directory, and nothing else is looked for.
pub proof fn drawings_come_before_pictures(dirs: Seq<Seq<u8>>, name: Seq<u8>, i: int)
    ensures
        icon_files(dirs, name).len() == 2 * dirs.len(),
        0 <= i < dirs.len() ==> icon_files(dirs, name)[2 * i] == icon_file(
            dirs[i],
            name,
            encode_utf8("svg"@),
        ),
        0 <= i < dirs.len() ==> icon_files(dirs, name)[2 * i + 1] == icon_file(
            dirs[i],
            name,
            encode_utf8("png"@),
        ),
    decreases dirs.len(),
{
    if dirs.len() > 0 {
        drawings_come_before_pictures(dirs.drop_last(), name, i);
    }
}

/// Decimal digits: one for a number below ten, and one more behind those of a tenth of
/// any other.
pub proof fn digits_are_decimal(n: nat, d: nat)
    requires
        d < 10,
    ensures
        decimal(d) == seq![(0x30 + d) as u8],
        n > 0 ==> decimal(10 * n + d) == decimal(n).push((0x30 + d) as u8),
{
}

/// Of numbers in a row that are the same one is kept, and every other number.
pub proof fn repetitions_go(a: Seq<u32>, x: u32, y: u32)
    ensures
        deduped(a.push(x).push(x)) == deduped(a.push(x)),
        x != y ==> deduped(a.push(x).push(y)) == deduped(a.push(x)).push(y),
        deduped(seq![x]) == seq![x],
        deduped(Seq::empty()) == Seq::<u32>::empty(),
{
    let b = a.push(x);
    assert(b.push(x).drop_last() == b && b.push(y).drop_last() == b);
    assert(b.push(x)[b.push(x).len() - 2] == x && b.push(y)[b.push(y).len() - 2] == x);
    assert(seq![x].drop_last() == Seq::<u32>::empty());
    assert(deduped(Seq::<u32>::empty()) == Seq::<u32>::empty());
}

/// The directories of a theme, for the wanted size, its double and the common sizes: by
/// size and then purpose, with the scalable icons behind, and the other way round.
pub proof fn theme_directories_are_named_by_size(size: u32, i: int)
    ensures
        ({
            let sizes = deduped(
                seq![size, (size * 2) as u32, 48, 64, 32, 128, 256, 24, 22, 16, 96, 512],
            );
            let n = sizes.len() as int;
            let dirs = theme_subdirs(size);
            let digits = decimal(sizes[i] as nat);
            let square = digits + seq![0x78] + digits;
            &&& dirs.len() == 2 * n + 2
            &&& 0 <= i < n ==> dirs[i] == square + encode_utf8("/apps"@)
            &&& dirs[n] == encode_utf8("scalable/apps"@)
            &&& 0 <= i < n ==> dirs[n + 1 + i] == encode_utf8("apps/"@) + square
            &&& dirs[2 * n + 1] == encode_utf8("apps/scalable"@)
        }),
{
    let sizes = icon_sizes(size);
    if 0 <= i < sizes.len() {
        let digits = decimal(sizes[i] as nat);
        assert(square_name(sizes[i]) == digits + seq![0x78] + digits);
    }
}

/// The first file there is, is found: every group before its own lacks its directory or
/// has no file, its own has its directory if it needs one, and no file before it.
pub proof fn first_file_there_is_found(
    groups: Seq<GroupView>,
    disk: spec_fn(Check, Seq<u8>) -> bool,
    g: int,
    f: int,
)
    requires
        0 <= g < groups.len(),
        0 <= f < groups[g].files.len(),
        groups[g].dir matches Some(d) ==> disk(Check::Dir, d),
        disk(groups[g].check, groups[g].files[f]),
        forall|i: int|
            0 <= i < f ==> !disk(groups[g].check, #[trigger] groups[g].files[i]),
        forall|h: int, i: int|
            0 <= h < g && 0 <= i < groups[h].files.len() && (groups[h].dir matches Some(d)
                ==> disk(Check::Dir, d)) ==> !disk(
                groups[h].check,
                #[trigger] groups[h].files[i],
            ),
    ensures
        first_hit(groups, disk) == Some(groups[g].files[f]),
    decreases g,
{
    let group = groups[0];
    if g == 0 {
        first_of_files(group.files, group.check, disk, f);
    } else {
        let entered = group.dir matches Some(d) ==> disk(Check::Dir, d);
        if entered {
            assert forall|i: int| 0 <= i < group.files.len() implies !disk(
                group.check,
                #[trigger] group.files[i],
            ) by {
                assert(groups[0].files[i] == group.files[i]);
            }
            none_of_files(group.files, group.check, disk);
        }
        let rest = groups.skip(1);
        assert(forall|h: int| 0 <= h < rest.len() ==> #[trigger] rest[h] == groups[h + 1]);
        assert forall|h: int, i: int|
            0 <= h < g - 1 && 0 <= i < rest[h].files.len() && (rest[h].dir matches Some(d)
                ==> disk(Check::Dir, d)) implies !disk(
            rest[h].check,
            #[trigger] rest[h].files[i],
        ) by {
            assert(groups[h + 1].files[i] == rest[h].files[i]);
        }
        assert(rest[g - 1] == groups[g]);
        assert forall|i: int| 0 <= i < f implies !disk(
            rest[g - 1].check,
            #[trigger] rest[g - 1].files[i],
        ) by {
            assert(groups[g].files[i] == rest[g - 1].files[i]);
        }
        first_file_there_is_found(rest, disk, g - 1, f);
    }
}

/// Where there is no file in any group that can be entered, nothing is found.
pub proof fn nothing_there_is_nothing_found(
    groups: Seq<GroupView>,
    disk: spec_fn(Check, Seq<u8>) -> bool,
)
    requires
        forall|h: int, i: int|
            0 <= h < groups.len() && 0 <= i < groups[h].files.len() && (groups[h].dir matches Some(
                d,
            ) ==> disk(Check::Dir, d)) ==> !disk(groups[h].check, #[trigger] groups[h].files[i]),
    ensures
        first_hit(groups, disk) is None,
    decreases groups.len(),
{
    if groups.len() > 0 {
        let group = groups[0];
        let entered = group.dir matches Some(d) ==> disk(Check::Dir, d);
        if entered {
            assert forall|i: int| 0 <= i < group.files.len() implies !disk(
                group.check,
                #[trigger] group.files[i],
            ) by {
                assert(groups[0].files[i] == group.files[i]);
            }
            none_of_files(group.files, group.check, disk);
        }
        let rest = groups.skip(1);
        assert(forall|h: int| 0 <= h < rest.len() ==> #[trigger] rest[h] == groups[h + 1]);
        assert forall|h: int, i: int|
            0 <= h < rest.len() && 0 <= i < rest[h].files.len() && (rest[h].dir matches Some(d)
                ==> disk(Check::Dir, d)) implies !disk(
            rest[h].check,
            #[trigger] rest[h].files[i],
        ) by {
            assert(groups[h + 1].files[i] == rest[h].files[i]);
        }
        nothing_there_is_nothing_found(rest, disk);
    }
}

proof fn first_of_files(
    files: Seq<Seq<u8>>,
    check: Check,
    disk: spec_fn(Check, Seq<u8>) -> bool,
    f: int,
)
    requires
        0 <= f < files.len(),
        disk(check, files[f]),
        forall|i: int| 0 <= i < f ==> !disk(check, #[trigger] files[i]),
    ensures
        first_file(files, check, disk) == Some(files[f]),
    decreases f,
{
    if f > 0 {
        let rest = files.skip(1);
        assert(!disk(check, files[0]));
        assert forall|i: int| 0 <= i < f - 1 implies !disk(check, #[trigger] rest[i]) by {
            assert(rest[i] == files[i + 1]);
        }
        first_of_files(rest, check, disk, f - 1);
    }
}

proof fn none_of_files(
    files: Seq<Seq<u8>>,
    check: Check,
    disk: spec_fn(Check, Seq<u8>) -> bool,
)
    requires
        forall|i: int| 0 <= i < files.len() ==> !disk(check, #[trigger] files[i]),
    ensures
        first_file(files, check, disk) is None,
    decreases files.len(),
{
    if files.len() > 0 {
        let rest = files.skip(1);
        assert(!disk(check, files[0]));
        assert forall|i: int| 0 <= i < rest.len() implies !disk(check, #[trigger] rest[i]) by {
            assert(rest[i] == files[i + 1]);
        }
        none_of_files(rest, check, disk);
    }
}

/// The themes are gone through base directory by base directory, in each in the order of
/// the theme list, and a theme is looked through only if its directory is there.
pub proof fn themes_are_searched_in_order(
    bases: Seq<Seq<u8>>,
    themes: Seq<Seq<char>>,
    size: u32,
    name: Seq<u8>,
    b: int,
    t: int,
)
    ensures
        all_theme_groups(bases, themes, size, name).len() == bases.len() * themes.len(),
        0 <= b < bases.len() && 0 <= t < themes.len() ==> all_theme_groups(
            bases,
            themes,
            size,
            name,
        )[b * themes.len() + t] == ({
            let dir = joined(bases[b], encode_utf8(themes[t]));
            GroupView {
                check: Check::File,
                dir: Some(dir),
                files: icon_files(
                    theme_subdirs(size).map_values(|sub: Seq<u8>| joined(dir, sub)),
                    name,
                ),
            }
        }),
    decreases bases.len(),
{
    let k = themes.len() as int;
    if bases.len() > 0 {
        let rest = bases.drop_last();
        themes_are_searched_in_order(rest, themes, size, name, b, t);
        let n = rest.len() as int;
        assert((n + 1) * k == n * k + k) by (nonlinear_arith);
        if 0 <= b < n && 0 <= t < k {
            assert(b * k + t < n * k) by (nonlinear_arith)
                requires
                    0 <= b < n,
                    0 <= t < k,
            ;
            assert(0 <= b * k) by (nonlinear_arith)
                requires
                    0 <= b,
                    0 <= k,
            ;
        }
    } else {
        assert(bases.len() * k == 0) by (nonlinear_arith)
            requires
                bases.len() == 0,
        ;
    }
}

/// A name is looked for in the themes, then in the base directories themselves, then
/// among the icons without a theme, and nowhere else.
pub proof fn names_are_looked_for_everywhere(l: LoaderView, name: Seq<char>)
    requires
        name.len() > 0,
        !(encode_utf8(name).len() > 0 && encode_utf8(name)[0] == 0x2f),
    ensures
        ({
            let bytes = encode_utf8(name);
            l.places(name) == all_theme_groups(l.base_dirs, l.themes, l.size, bytes) + seq![
                GroupView {
                    check: Check::File,
                    dir: None,
                    files: icon_files(l.base_dirs, bytes),
                },
                GroupView {
                    check: Check::File,
                    dir: None,
                    files: icon_files(l.pixmap_dirs, bytes),
                },
            ]
        }),
{
    let bytes = encode_utf8(name);
    let themed = all_theme_groups(l.base_dirs, l.themes, l.size, bytes);
    let flat = plain_group(icon_files(l.base_dirs, bytes));
    let last = plain_group(icon_files(l.pixmap_dirs, bytes));
    assert(themed.push(flat).push(last) == themed + seq![flat, last]);
}

/// The theme list is the chosen theme, Adwaita and hicolor, in this order and each once.
pub proof fn themes_are_these(chosen: Option<Seq<char>>)
    ensures
        chosen is None ==> theme_list(chosen) == seq!["Adwaita"@, "hicolor"@],
        chosen matches Some(t) ==> {
            &&& t != "Adwaita"@ && t != "hicolor"@ ==> theme_list(chosen) == seq![
                t,
                "Adwaita"@,
                "hicolor"@,
            ]
            &&& t == "Adwaita"@ ==> theme_list(chosen) == seq![t, "hicolor"@]
            &&& t == "hicolor"@ ==> theme_list(chosen) == seq![t, "Adwaita"@]
        },
{
    reveal_strlit("Adwaita");
    reveal_strlit("hicolor");
    let a = "Adwaita"@;
    let h = "hicolor"@;
    assert(a[0] != h[0]);
    match chosen {
        Some(t) => {
            let first = seq![t];
            assert(first.contains(a) <==> t == a) by {
                assert(first[0] == t);
            }
            let second = with_theme(first, a);
            if t == a {
                assert(!first.contains(h));
                assert(first.push(h) == seq![t, h]);
            } else {
                assert(second == seq![t, a]);
                assert(second[0] == t && second[1] == a);
                assert(second.contains(h) <==> t == h);
                assert(second.push(h) == seq![t, a, h]);
            }
        },
        None => {
            let none = Seq::<Seq<char>>::empty();
            assert(with_theme(none, a) == seq![a]);
            assert(!seq![a].contains(h));
            assert(seq![a].push(h) == seq![a, h]);
        },
    }
}

/// Where icons are looked for. With a home directory: in `.icons` there and in the
/// user's data directory; then in each directory of the list that all share. Icons
/// without a theme: in the system's directory and in those of the list, if it is set.
pub proof fn icon_directories_are_these(env: &DataEnv, k: int)
    ensures
        ({
            let dirs = icon_base_dirs_of(env);
            let list = match env.data_dirs {
                Some(dirs) => colon_parts(encode_utf8(dirs@)),
                None => colon_parts(encode_utf8("/usr/local/share:/usr/share"@)),
            };
            let own: int = if env.home is Some {
                2
            } else {
                0
            };
            &&& dirs.len() == own + list.len()
            &&& 0 <= k < list.len() ==> dirs[own + k] == joined(list[k], encode_utf8("icons"@))
            &&& env.home matches Some(home) ==> {
                &&& dirs[0] == joined(home@, encode_utf8(".icons"@))
                &&& dirs[1] == joined(
                    match env.data_home {
                        Some(dir) => dir@,
                        None => joined(home@, encode_utf8(".local/share"@)),
                    },
                    encode_utf8("icons"@),
                )
            }
        }),
        ({
            let dirs = pixmap_dirs_of(env);
            &&& dirs[0] == encode_utf8("/usr/share/pixmaps"@)
            &&& env.data_dirs is None ==> dirs.len() == 1
            &&& env.data_dirs matches Some(list) ==> {
                let list = colon_parts(encode_utf8(list@));
                &&& dirs.len() == 1 + list.len()
                &&& 0 <= k < list.len() ==> dirs[1 + k] == joined(
                    list[k],
                    encode_utf8("pixmaps"@),
                )
            }
        }),
{
}

/// The first time an icon is asked for, what was loaded is kept under its name, be it an
/// icon or nothing, and everything else stays.
pub proof fn first_load_is_kept(
    l: LoaderView,
    name: Seq<char>,
    loaded: Option<Icon>,
    other: Seq<char>,
)
    ensures
        l.asked(name, loaded).cache.dom().contains(name),
        !l.cache.dom().contains(name) ==> l.asked(name, loaded).cache[name] == loaded,
        other != name ==> (l.asked(name, loaded).cache.dom().contains(other)
            <==> l.cache.dom().contains(other)) && l.asked(name, loaded).cache[other]
            == l.cache[other],
        l.asked(name, loaded) == (LoaderView { cache: l.asked(name, loaded).cache, ..l }),
{
}

/// A file holds a drawing if its extension is `svg` in small letters or capitals, and
/// any other file does not.
pub proof fn drawings_have_the_extension_svg(p: Seq<u8>)
    ensures
        extension_of(p) is None ==> !names_svg(p),
        extension_of(p) matches Some(e) ==> (names_svg(p) <==> e.len() == 3 && (forall|i: int|
            0 <= i < 3 ==> #[trigger] e[i] == seq![0x73u8, 0x76, 0x67][i] || e[i] + 0x20 == seq![
                0x73u8,
                0x76,
                0x67,
            ][i])),
{
    let svg = seq![0x73u8, 0x76, 0x67];
    assert(svg[0] == 0x73 && svg[1] == 0x76 && svg[2] == 0x67);
}

/// A picture of the right size can be fitted, and so can any picture that two gigabytes
/// hold in the course of it, whatever the machine.
pub proof fn pictures_that_memory_holds_are_fittable(w: u32, h: u32, size: u32)
    ensures
        w == size && h == size ==> fittable(w, h, size),
        4 * (size * size) <= 0x7fff_ffff && 16 * (size * w) <= 0x7fff_ffff ==> fittable(w, h, size),
{
    if 4 * (size * size) <= 0x7fff_ffff && 16 * (size * w) <= 0x7fff_ffff {
        let dh = fitted(w, h, size).1;
        assert(0 <= dh <= size);
        assert(dh * w <= size * w) by (nonlinear_arith)
            requires
                0 <= dh <= size,
                0 <= w,
        ;
    }
}

/// An icon shows its picture: as it is where it has the icon's size, and fitted into the
/// centre where it has not.
pub proof fn icons_show_their_pictures(
    pixels: Seq<u8>,
    w: u32,
    h: u32,
    size: u32,
    rgba: Seq<u8>,
)
    requires
        shows(pixels, w, h, size, rgba),
    ensures
        w == size && h == size ==> rgba == pixels,
        !(w == size && h == size) ==> fits_in_center(pixels, w, h, size, rgba),
{
}

} // verus!
