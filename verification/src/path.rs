//! Unix file paths as byte strings, and the directories the XDG environment
//! variables name.

use vstd::prelude::*;
use vstd::utf8::encode_utf8;

verus! {

/// The byte `/`.
pub const SLASH: u8 = 0x2f;

/// The byte `.`.
pub const DOT: u8 = 0x2e;

/// The byte `:`.
pub const COLON: u8 = 0x3a;

/// Whether a path starts at the root.
pub open spec fn absolute(p: Seq<u8>) -> bool {
    p.len() > 0 && p[0] == SLASH
}

/// `rel` below `base`. An absolute `rel` stands alone, and no second separator
/// follows one that `base` ends with.
pub open spec fn joined(base: Seq<u8>, rel: Seq<u8>) -> Seq<u8> {
    if absolute(rel) {
        rel
    } else if base.len() == 0 || base.last() == SLASH {
        base + rel
    } else {
        base.push(SLASH) + rel
    }
}

/// The part of `p` behind its last separator.
pub open spec fn after_slash(p: Seq<u8>) -> Seq<u8>
    decreases p.len(),
{
    if p.len() == 0 || p.last() == SLASH {
        seq![]
    } else {
        after_slash(p.drop_last()).push(p.last())
    }
}

/// The last component of a path, if it names a file or directory: separators
/// and `.` components at the end do not count, and `..` names nothing.
pub open spec fn file_name_of(p: Seq<u8>) -> Option<Seq<u8>>
    decreases p.len(),
{
    if p.len() == 0 {
        None
    } else if p.last() == SLASH || after_slash(p) == seq![DOT] {
        file_name_of(p.drop_last())
    } else if after_slash(p) == seq![DOT, DOT] {
        None
    } else {
        Some(after_slash(p))
    }
}

/// The part of `name` behind its last dot, or all of it.
pub open spec fn after_dot(name: Seq<u8>) -> Seq<u8>
    decreases name.len(),
{
    if name.len() == 0 || name.last() == DOT {
        seq![]
    } else {
        after_dot(name.drop_last()).push(name.last())
    }
}

/// What follows the last dot of the file name. A name without a dot, or with
/// only a leading one, has no extension.
pub open spec fn extension_of(p: Seq<u8>) -> Option<Seq<u8>> {
    match file_name_of(p) {
        Some(name) => {
            let ext = after_dot(name);
            if ext.len() + 1 < name.len() {
                Some(ext)
            } else {
                None
            }
        },
        None => None,
    }
}

/// The non-empty parts of `s` between colons.
pub open spec fn colon_parts(s: Seq<u8>) -> Seq<Seq<u8>>
    decreases s.len(),
{
    let n = colon_position(s);
    if s.len() == 0 {
        seq![]
    } else if n == 0 {
        colon_parts(s.skip(1))
    } else if 0 < n < s.len() {
        seq![s.take(n)] + colon_parts(s.skip(n + 1))
    } else {
        seq![s]
    }
}

/// Where the first colon of `s` stands, or `s.len()`.
pub open spec fn colon_position(s: Seq<u8>) -> int
    decreases s.len(),
{
    if s.len() == 0 || s[0] == COLON {
        0
    } else {
        1 + colon_position(s.skip(1))
    }
}

/// What a list of paths stands for.
pub open spec fn paths(v: Seq<Vec<u8>>) -> Seq<Seq<u8>> {
    v.map_values(|x: Vec<u8>| x@)
}

/// Every path of `dirs` with `rel` below it.
pub open spec fn each_joined(dirs: Seq<Seq<u8>>, rel: Seq<u8>) -> Seq<Seq<u8>> {
    dirs.map_values(|d: Seq<u8>| joined(d, rel))
}

/// The variables of the environment that name data directories. The paths are
/// raw bytes; `data_dirs` is absent where the variable is not Unicode.
pub struct DataEnv {
    /// `$HOME`.
    pub home: Option<Vec<u8>>,
    /// `$XDG_DATA_HOME`.
    pub data_home: Option<Vec<u8>>,
    /// `$XDG_DATA_DIRS`.
    pub data_dirs: Option<String>,
}

impl DataEnv {
    /// The user's data directory: the one that is named, or else one in the home
    /// directory.
    pub open spec fn user_data_dir(&self) -> Option<Seq<u8>> {
        match self.data_home {
            Some(dir) => Some(dir@),
            None => match self.home {
                Some(home) => Some(joined(home@, encode_utf8(".local/share"@))),
                None => None,
            },
        }
    }

    /// The directories shared by all users, first the most important.
    pub open spec fn shared_data_dirs(&self) -> Seq<Seq<u8>> {
        match self.data_dirs {
            Some(dirs) => colon_parts(encode_utf8(dirs@)),
            None => colon_parts(encode_utf8("/usr/local/share:/usr/share"@)),
        }
    }

    /// The directory called `sub` in each data directory, the user's first.
    pub open spec fn data_subdirs(&self, sub: Seq<u8>) -> Seq<Seq<u8>> {
        let shared = each_joined(self.shared_data_dirs(), sub);
        match self.user_data_dir() {
            Some(dir) => seq![joined(dir, sub)] + shared,
            None => shared,
        }
    }
}

/// A copy of the bytes of `s`.
pub fn copied(s: &[u8]) -> (v: Vec<u8>)
    ensures
        v@ == s@,
{
    vstd::slice::slice_to_vec(s)
}

/// Appends the bytes of `b` to `a`.
pub fn append(a: &mut Vec<u8>, b: &[u8])
    ensures
        final(a)@ == old(a)@ + b@,
{
    let ghost before = a@;
    let mut i: usize = 0;
    while i < b.len()
        invariant
            i <= b@.len(),
            a@ == before + b@.take(i as int),
        decreases b.len() - i,
    {
        a.push(b[i]);
        assert(b@.take(i + 1) == b@.take(i as int).push(b@[i as int]));
        i += 1;
    }
    assert(b@.take(b@.len() as int) == b@);
}

/// Whether the path starts at the root.
pub fn is_absolute(p: &[u8]) -> (r: bool)
    ensures
        r == absolute(p@),
{
    p.len() > 0 && p[0] == SLASH
}

/// `rel` below `base`.
pub fn join(base: &[u8], rel: &[u8]) -> (p: Vec<u8>)
    ensures
        p@ == joined(base@, rel@),
{
    if is_absolute(rel) {
        return copied(rel);
    }
    let mut p = copied(base);
    if base.len() > 0 && base[base.len() - 1] != SLASH {
        p.push(SLASH);
    }
    append(&mut p, rel);
    p
}

/// The last component of the path, if it names a file or directory.
pub fn file_name(p: &[u8]) -> (r: Option<&[u8]>)
    ensures
        r is Some <==> file_name_of(p@) is Some,
        r matches Some(n) ==> file_name_of(p@) == Some(n@),
{
    let mut end: usize = p.len();
    assert(p@.take(end as int) == p@);
    while end > 0
        invariant
            end <= p@.len(),
            file_name_of(p@.take(end as int)) == file_name_of(p@),
        decreases end,
    {
        let ghost cut = p@.take(end as int);
        let mut start: usize = end;
        assert(p@.subrange(end as int, end as int) == Seq::<u8>::empty());
        assert(cut.take(end as int) == cut);
        assert(after_slash(cut.take(end as int)) + p@.subrange(end as int, end as int)
            == after_slash(cut));
        while start > 0 && p[start - 1] != SLASH
            invariant
                start <= end <= p@.len(),
                cut == p@.take(end as int),
                after_slash(cut.take(start as int)) + p@.subrange(start as int, end as int)
                    == after_slash(cut),
            decreases start,
        {
            let ghost head = cut.take(start as int);
            assert(head.drop_last() == cut.take(start - 1));
            assert(p@.subrange(start - 1, end as int) == seq![p@[start - 1]] + p@.subrange(
                start as int,
                end as int,
            ));
            start -= 1;
        }
        let name = vstd::slice::slice_subrange(p, start, end);
        assert(after_slash(cut.take(start as int)) == Seq::<u8>::empty());
        assert(name@ == after_slash(cut));
        assert(cut.drop_last() == p@.take(end - 1));
        if name.len() == 0 || (name.len() == 1 && name[0] == DOT) {
            assert(name.len() == 1 ==> name@ == seq![DOT]);
            assert(name.len() == 0 ==> cut.last() == SLASH);
            end -= 1;
        } else if name.len() == 2 && name[0] == DOT && name[1] == DOT {
            assert(name@ == seq![DOT, DOT]);
            return None;
        } else {
            assert(cut.last() != SLASH);
            assert(name@ != seq![DOT, DOT]) by {
                assert(seq![DOT, DOT][0] == DOT && seq![DOT, DOT][1] == DOT);
            }
            assert(name@ != seq![DOT]) by {
                assert(seq![DOT][0] == DOT);
            }
            return Some(name);
        }
    }
    assert(p@.take(0).len() == 0);
    None
}

/// What follows the last dot of the file name.
pub fn extension(p: &[u8]) -> (r: Option<&[u8]>)
    ensures
        r is Some <==> extension_of(p@) is Some,
        r matches Some(e) ==> extension_of(p@) == Some(e@),
{
    let name = match file_name(p) {
        Some(name) => name,
        None => {
            return None;
        },
    };
    let len: usize = name.len();
    let mut start: usize = len;
    assert(name@.take(len as int) == name@);
    assert(after_dot(name@.take(len as int)) + name@.subrange(len as int, len as int) == after_dot(
        name@,
    ));
    while start > 0 && name[start - 1] != DOT
        invariant
            start <= len == name@.len(),
            after_dot(name@.take(start as int)) + name@.subrange(start as int, len as int)
                == after_dot(name@),
        decreases start,
    {
        let ghost head = name@.take(start as int);
        assert(head.drop_last() == name@.take(start - 1));
        assert(name@.subrange(start - 1, len as int) == seq![name@[start - 1]] + name@.subrange(
            start as int,
            len as int,
        ));
        start -= 1;
    }
    assert(after_dot(name@.take(start as int)) == Seq::<u8>::empty());
    let ext = vstd::slice::slice_subrange(name, start, len);
    assert(ext@ == after_dot(name@));
    if start > 1 {
        Some(ext)
    } else {
        None
    }
}

proof fn colon_position_is_first(s: Seq<u8>, n: int)
    requires
        0 <= n <= s.len(),
        forall|i: int| 0 <= i < n ==> s[i] != COLON,
        n < s.len() ==> s[n] == COLON,
    ensures
        colon_position(s) == n,
    decreases s.len(),
{
    if n > 0 {
        assert forall|i: int| 0 <= i < n - 1 implies s.skip(1)[i] != COLON by {
            assert(s.skip(1)[i] == s[i + 1]);
        }
        colon_position_is_first(s.skip(1), n - 1);
    }
}

/// The non-empty parts of `s` between colons.
pub fn split_colons(s: &[u8]) -> (v: Vec<Vec<u8>>)
    ensures
        paths(v@) == colon_parts(s@),
{
    let mut out: Vec<Vec<u8>> = Vec::new();
    let mut rest: &[u8] = s;
    while rest.len() > 0
        invariant
            paths(out@) + colon_parts(rest@) == colon_parts(s@),
        decreases rest@.len(),
    {
        let mut n: usize = 0;
        while n < rest.len() && rest[n] != COLON
            invariant
                n <= rest@.len(),
                forall|i: int| 0 <= i < n ==> rest@[i] != COLON,
            decreases rest.len() - n,
        {
            n += 1;
        }
        proof {
            colon_position_is_first(rest@, n as int);
        }
        let ghost before = paths(out@);
        if n > 0 {
            let part = copied(vstd::slice::slice_subrange(rest, 0, n));
            assert(part@ == rest@.take(n as int));
            out.push(part);
            assert(paths(out@) == before.push(rest@.take(n as int)));
            assert(n == rest@.len() ==> rest@.take(n as int) == rest@);
        }
        let next: usize = if n < rest.len() {
            n + 1
        } else {
            n
        };
        rest = vstd::slice::slice_subrange(rest, next, rest.len());
    }
    assert(colon_parts(rest@) == Seq::<Seq<u8>>::empty());
    out
}

/// Every path of `dirs` with `rel` below it.
pub fn join_each(dirs: &Vec<Vec<u8>>, rel: &[u8]) -> (v: Vec<Vec<u8>>)
    ensures
        paths(v@) == each_joined(paths(dirs@), rel@),
{
    let ghost all = each_joined(paths(dirs@), rel@);
    let mut v: Vec<Vec<u8>> = Vec::new();
    let mut i: usize = 0;
    while i < dirs.len()
        invariant
            i <= dirs@.len(),
            all == each_joined(paths(dirs@), rel@),
            paths(v@) == all.take(i as int),
        decreases dirs.len() - i,
    {
        let ghost before = paths(v@);
        v.push(join(dirs[i].as_slice(), rel));
        assert(paths(v@) == before.push(all[i as int]));
        i += 1;
    }
    assert(all.take(i as int) == all);
    v
}

/// The user's data directory.
pub fn find_user_data_dir(env: &DataEnv) -> (dir: Option<Vec<u8>>)
    ensures
        match dir {
            Some(d) => env.user_data_dir() == Some(d@),
            None => env.user_data_dir() is None,
        },
{
    match (&env.data_home, &env.home) {
        (Some(dir), _) => Some(copied(dir.as_slice())),
        (None, Some(home)) => Some(join(home.as_slice(), ".local/share".as_bytes())),
        (None, None) => None,
    }
}

/// The directory called `sub` in each directory shared by all users.
pub fn shared_subdirs(env: &DataEnv, sub: &[u8]) -> (v: Vec<Vec<u8>>)
    ensures
        paths(v@) == each_joined(env.shared_data_dirs(), sub@),
{
    let shared = match &env.data_dirs {
        Some(dirs) => split_colons(dirs.as_str().as_bytes()),
        None => split_colons("/usr/local/share:/usr/share".as_bytes()),
    };
    join_each(&shared, sub)
}

/// The directory called `sub` in each data directory, the user's first.
pub fn data_subdirs(env: &DataEnv, sub: &[u8]) -> (v: Vec<Vec<u8>>)
    ensures
        paths(v@) == env.data_subdirs(sub@),
{
    let mut v: Vec<Vec<u8>> = Vec::new();
    if let Some(dir) = find_user_data_dir(env) {
        v.push(join(dir.as_slice(), sub));
    }
    let ghost user = paths(v@);
    let mut shared = shared_subdirs(env, sub);
    let ghost below = shared@;
    v.append(&mut shared);
    assert(paths(v@) == user + paths(below));
    assert(paths(v@) == env.data_subdirs(sub@));
    v
}

/// The user's own data directory comes before those shared by all, and where one is
/// named it is that one, whatever the home directory.
pub proof fn user_data_dir_comes_first(env: &DataEnv, sub: Seq<u8>)
    ensures
        env.user_data_dir() matches Some(dir) ==> env.data_subdirs(sub)[0] == joined(dir, sub),
        env.data_home matches Some(dir) ==> env.data_subdirs(sub)[0] == joined(dir@, sub),
        env.data_subdirs(sub).len() == env.shared_data_dirs().len() + (
        if env.user_data_dir() is Some {
            1int
        } else {
            0int
        }),
{
}

/// A relative path goes below a directory behind exactly one separator, and an absolute
/// one stands alone.
pub proof fn joining_puts_one_separator(base: Seq<u8>, rel: Seq<u8>)
    ensures
        rel.len() > 0 && rel[0] == 0x2f ==> joined(base, rel) == rel,
        !(rel.len() > 0 && rel[0] == 0x2f) && base.len() > 0 && base.last() != 0x2f ==> joined(
            base,
            rel,
        ) == base + seq![0x2f] + rel,
        !(rel.len() > 0 && rel[0] == 0x2f) && (base.len() == 0 || base.last() == 0x2f) ==> joined(
            base,
            rel,
        ) == base + rel,
{
    assert(base.push(SLASH) + rel == base + seq![0x2f] + rel);
}

proof fn after_slash_is_the_rest(dir: Seq<u8>, name: Seq<u8>)
    requires
        !name.contains(0x2f),
    ensures
        after_slash(dir + seq![0x2f] + name) == name,
        after_slash(name) == name,
    decreases name.len(),
{
    let p = dir + seq![0x2f] + name;
    if name.len() == 0 {
        assert(p.last() == 0x2f);
    } else {
        let rest = name.drop_last();
        assert forall|i: int| 0 <= i < rest.len() implies rest[i] != 0x2f by {
            assert(name.contains(name[i]));
        }
        after_slash_is_the_rest(dir, rest);
        assert(name.contains(name.last()));
        assert(p.drop_last() == dir + seq![0x2f] + rest);
        assert(rest.push(name.last()) == name);
    }
}

/// The file name of a path is what stands behind its last separator, whatever stands
/// before; separators and single dots at the end do not count, and two dots name
/// nothing.
pub proof fn file_name_is_the_last_part(dir: Seq<u8>, name: Seq<u8>)
    ensures
        !name.contains(0x2f) && name.len() > 0 && name != seq![0x2eu8] && name != seq![
            0x2eu8,
            0x2eu8,
        ] ==> file_name_of(dir + seq![0x2f] + name) == Some(name) && file_name_of(name) == Some(
            name,
        ),
        file_name_of(dir + seq![0x2f]) == file_name_of(dir),
        file_name_of(dir + seq![0x2f, 0x2e]) == file_name_of(dir),
        file_name_of(dir + seq![0x2f, 0x2e, 0x2e]) is None,
        file_name_of(Seq::empty()) is None,
{
    let dot = seq![0x2eu8];
    let dots = seq![0x2eu8, 0x2eu8];
    if !name.contains(0x2f) && name.len() > 0 && name != dot && name != dots {
        after_slash_is_the_rest(dir, name);
        assert(name.contains(name.last()));
        assert((dir + seq![0x2f] + name).last() == name.last());
    }
    assert((dir + seq![0x2f]).drop_last() == dir);
    after_slash_is_the_rest(dir, dot);
    assert(dir + seq![0x2f, 0x2e] == dir + seq![0x2f] + dot);
    assert((dir + seq![0x2f, 0x2e]).drop_last() == dir + seq![0x2f]);
    after_slash_is_the_rest(dir, dots);
    assert(dir + seq![0x2f, 0x2e, 0x2e] == dir + seq![0x2f] + dots);
    assert(dots.len() == 2 && dot.len() == 1);
}

proof fn after_dot_is_the_rest(stem: Seq<u8>, ext: Seq<u8>)
    requires
        !ext.contains(0x2e),
    ensures
        after_dot(stem + seq![0x2e] + ext) == ext,
        after_dot(ext) == ext,
    decreases ext.len(),
{
    let p = stem + seq![0x2e] + ext;
    if ext.len() == 0 {
        assert(p.last() == 0x2e);
    } else {
        let rest = ext.drop_last();
        assert forall|i: int| 0 <= i < rest.len() implies rest[i] != 0x2e by {
            assert(ext.contains(ext[i]));
        }
        after_dot_is_the_rest(stem, rest);
        assert(ext.contains(ext.last()));
        assert(p.drop_last() == stem + seq![0x2e] + rest);
        assert(rest.push(ext.last()) == ext);
    }
}

/// The extension is what stands behind the last dot of the file name, if anything stands
/// before that dot.
pub proof fn extension_is_behind_the_last_dot(p: Seq<u8>, stem: Seq<u8>, ext: Seq<u8>)
    requires
        !ext.contains(0x2e),
    ensures
        file_name_of(p) == Some(stem + seq![0x2e] + ext) && stem.len() > 0 ==> extension_of(p)
            == Some(ext),
        file_name_of(p) == Some(stem + seq![0x2e] + ext) && stem.len() == 0 ==> extension_of(
            p,
        ) is None,
        file_name_of(p) == Some(ext) ==> extension_of(p) is None,
        file_name_of(p) is None ==> extension_of(p) is None,
{
    after_dot_is_the_rest(stem, ext);
}

/// Colons part a list: what stands before the first is a part of its own unless it is
/// empty, and the rest has its own parts.
pub proof fn colons_part_lists(a: Seq<u8>, b: Seq<u8>)
    requires
        !a.contains(0x3a),
    ensures
        a.len() > 0 ==> colon_parts(a + seq![0x3a] + b) == seq![a] + colon_parts(b),
        colon_parts(seq![0x3a] + b) == colon_parts(b),
        a.len() > 0 ==> colon_parts(a) == seq![a],
        colon_parts(Seq::empty()) == Seq::<Seq<u8>>::empty(),
{
    let s = a + seq![0x3a] + b;
    assert forall|i: int| 0 <= i < a.len() implies a[i] != COLON by {
        assert(a.contains(a[i]));
    }
    assert(forall|i: int| 0 <= i < a.len() ==> s[i] == a[i]);
    assert(s[a.len() as int] == COLON);
    colon_position_is_first(s, a.len() as int);
    colon_position_is_first(a, a.len() as int);
    assert(s.take(a.len() as int) == a);
    assert(s.skip(a.len() as int + 1) == b);
    let t = seq![0x3a] + b;
    colon_position_is_first(t, 0);
    assert(t.skip(1) == b);
}

/// Where data is looked for: in the user's directory, which is the one that is named or
/// `.local/share` in the home directory, and then in each directory of the list that
/// all share, in the order of the list.
pub proof fn data_is_looked_for_in_order(env: &DataEnv, sub: Seq<u8>, k: int)
    ensures
        ({
            let dirs = env.data_subdirs(sub);
            let list = match env.data_dirs {
                Some(dirs) => colon_parts(encode_utf8(dirs@)),
                None => colon_parts(encode_utf8("/usr/local/share:/usr/share"@)),
            };
            let own: int = if env.data_home is Some || env.home is Some {
                1
            } else {
                0
            };
            &&& dirs.len() == own + list.len()
            &&& 0 <= k < list.len() ==> dirs[own + k] == joined(list[k], sub)
            &&& env.data_home matches Some(dir) ==> dirs[0] == joined(dir@, sub)
            &&& env.data_home is None ==> (env.home matches Some(home) ==> dirs[0] == joined(
                joined(home@, encode_utf8(".local/share"@)),
                sub,
            ))
        }),
{
}

/// A path is absolute if it begins with a separator.
pub proof fn absolute_paths_begin_with_a_separator(p: Seq<u8>)
    ensures
        absolute(p) <==> p.len() > 0 && p[0] == 0x2f,
{
}

/// One or two dots alone name no file.
pub proof fn dots_name_no_file()
    ensures
        file_name_of(seq![0x2e]) is None,
        file_name_of(seq![0x2e, 0x2e]) is None,
{
    let none = Seq::<u8>::empty();
    let dot = seq![0x2eu8];
    let dots = seq![0x2eu8, 0x2eu8];
    after_slash_is_the_rest(none, dot);
    after_slash_is_the_rest(none, dots);
    assert(dot.drop_last() == none);
    assert(file_name_of(none) is None);
    assert(dots.len() == 2 && dot.len() == 1);
}

/// A list stands for its paths, one for one.
pub proof fn lists_stand_for_their_paths(v: Seq<Vec<u8>>, i: int)
    ensures
        paths(v).len() == v.len(),
        0 <= i < v.len() ==> paths(v)[i] == v[i]@,
{
}

} // verus!
