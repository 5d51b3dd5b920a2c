//! Desktop entries: the applications that drun mode offers.

use vstd::prelude::*;
use vstd::hash_set::StringHashSet;
use vstd::utf8::encode_utf8;

use crate::path::{data_subdirs, paths, DataEnv};
use crate::text::{
    ascii, ascii_lowered, case_is_that_of_ascii_letters, copied, find, from_chars, is_le,
    is_text, is_text_ignoring_case, line_feeds_end_lines, lines, lines_of, lowercase,
    position_is_behind_what_lacks_it, position_of, same_ignoring_case, text_le,
    text_le_antisymmetric, text_le_total, text_le_transitive, to_chars, to_lowercase, trim,
    trimmed, trimming_removes_white_space_around, views, white_space,
};

verus! {

/// An `Exec` value without its field codes: `%%` becomes a percent sign, and
/// any other percent sign goes together with the character behind it.
pub open spec fn without_field_codes(s: Seq<char>) -> Seq<char>
    decreases s.len(),
{
    if s.len() == 0 {
        seq![]
    } else if s[0] != '%' {
        seq![s[0]] + without_field_codes(s.skip(1))
    } else if s.len() == 1 {
        seq![]
    } else if s[1] == '%' {
        seq!['%'] + without_field_codes(s.skip(2))
    } else {
        without_field_codes(s.skip(2))
    }
}

/// The command that an `Exec` value stands for.
pub open spec fn command_of(value: Seq<char>) -> Seq<char> {
    trimmed(without_field_codes(value))
}

/// Strips the field codes (`%f`, `%U`, `%i`, ...) from an `Exec` value and
/// unescapes `%%`. Quoting is left intact, so that the result can run through
/// `sh -c`.
pub fn clean_exec(value: &str) -> (r: String)
    ensures
        r@ == command_of(value@),
{
    let s = to_chars(value);
    let mut out: Vec<char> = Vec::new();
    let mut i: usize = 0;
    assert(s@.skip(0) == s@);
    while i < s.len()
        invariant
            i <= s@.len(),
            s@ == value@,
            out@ + without_field_codes(s@.skip(i as int)) == without_field_codes(value@),
        decreases s.len() - i,
    {
        let ghost rest = s@.skip(i as int);
        assert(rest.len() > 1 ==> rest[1] == s@[i + 1]);
        assert(rest.skip(1) == s@.skip(i + 1));
        assert(rest.len() > 1 ==> rest.skip(2) == s@.skip(i + 2));
        if s[i] != '%' {
            out.push(s[i]);
            i += 1;
        } else if i + 1 == s.len() {
            i += 1;
        } else {
            if s[i + 1] == '%' {
                out.push('%');
            }
            i += 2;
        }
    }
    assert(out@ == without_field_codes(value@));
    from_chars(trim(out.as_slice()))
}

/// Whether a line opens a group of a desktop file.
pub open spec fn group_header(line: Seq<char>) -> bool {
    line.len() > 0 && line[0] == '[' && line.last() == ']'
}

/// Whether the last line of `lines` belongs to the `[Desktop Entry]` group.
pub open spec fn in_entry_group(lines: Seq<Seq<char>>) -> bool
    decreases lines.len(),
{
    if lines.len() == 0 {
        false
    } else if group_header(trimmed(lines.last())) {
        trimmed(lines.last()) == "[Desktop Entry]"@
    } else {
        in_entry_group(lines.drop_last())
    }
}

/// Whether a line sets a key: no header, no comment, and an equals sign.
pub open spec fn sets_key(line: Seq<char>) -> bool {
    &&& !group_header(line)
    &&& line.len() > 0
    &&& line[0] != '#'
    &&& position_of(line, '=') < line.len()
}

/// The key that a line sets, and the value.
pub open spec fn setting_of(line: Seq<char>) -> (Seq<char>, Seq<char>) {
    let n = position_of(line, '=');
    (trimmed(line.take(n)), trimmed(line.skip(n + 1)))
}

/// What the lines of a desktop file set in its `[Desktop Entry]` group, in order.
pub open spec fn settings(lines: Seq<Seq<char>>) -> Seq<(Seq<char>, Seq<char>)>
    decreases lines.len(),
{
    if lines.len() == 0 {
        seq![]
    } else if in_entry_group(lines) && sets_key(trimmed(lines.last())) {
        settings(lines.drop_last()).push(setting_of(trimmed(lines.last())))
    } else {
        settings(lines.drop_last())
    }
}

/// The value that `key` is set to first.
pub open spec fn first_value(set: Seq<(Seq<char>, Seq<char>)>, key: Seq<char>) -> Option<Seq<char>>
    decreases set.len(),
{
    if set.len() == 0 {
        None
    } else if first_value(set.drop_last(), key) is Some {
        first_value(set.drop_last(), key)
    } else if set.last().0 == key {
        Some(set.last().1)
    } else {
        None
    }
}

/// The value that `key` is set to last.
pub open spec fn last_value(set: Seq<(Seq<char>, Seq<char>)>, key: Seq<char>) -> Option<Seq<char>>
    decreases set.len(),
{
    if set.len() == 0 {
        None
    } else if set.last().0 == key {
        Some(set.last().1)
    } else {
        last_value(set.drop_last(), key)
    }
}

/// Whether `key` is last set to `true`, in any case.
pub open spec fn flag(set: Seq<(Seq<char>, Seq<char>)>, key: Seq<char>) -> bool {
    match last_value(set, key) {
        Some(v) => same_ignoring_case(v, "true"@),
        None => false,
    }
}

/// The name and command that a desktop file offers. It offers none if it is
/// hidden, is of a type other than `Application`, or lacks a name or a command.
pub open spec fn entry_of(content: Seq<char>, terminal: Seq<char>) -> Option<
    (Seq<char>, Seq<char>),
> {
    entry_set(settings(lines_of(content)), terminal)
}

/// The name and command that the settings of a desktop file make.
pub open spec fn entry_set(set: Seq<(Seq<char>, Seq<char>)>, terminal: Seq<char>) -> Option<
    (Seq<char>, Seq<char>),
> {
    let typ = first_value(set, "Type"@);
    if flag(set, "NoDisplay"@) || flag(set, "Hidden"@) {
        None
    } else if typ is Some && typ != Some("Application"@) {
        None
    } else {
        match (first_value(set, "Name"@), first_value(set, "Exec"@)) {
            (Some(name), Some(value)) => {
                let cmd = command_of(value);
                if cmd.len() == 0 {
                    None
                } else if flag(set, "Terminal"@) {
                    Some((name, terminal + " -e "@ + cmd))
                } else {
                    Some((name, cmd))
                }
            },
            _ => None,
        }
    }
}

/// What has been read so far of a desktop file.
struct Fields {
    in_entry: bool,
    name: Option<Vec<char>>,
    command: Option<Vec<char>>,
    typ: Option<Vec<char>>,
    no_display: bool,
    hidden: bool,
    is_terminal: bool,
}

spec fn chars_view(v: Option<Vec<char>>) -> Option<Seq<char>> {
    match v {
        Some(c) => Some(c@),
        None => None,
    }
}

impl Fields {
    spec fn describes(&self, lines: Seq<Seq<char>>) -> bool {
        let set = settings(lines);
        &&& self.in_entry == in_entry_group(lines)
        &&& chars_view(self.name) == first_value(set, "Name"@)
        &&& chars_view(self.command) == first_value(set, "Exec"@)
        &&& chars_view(self.typ) == first_value(set, "Type"@)
        &&& self.no_display == flag(set, "NoDisplay"@)
        &&& self.hidden == flag(set, "Hidden"@)
        &&& self.is_terminal == flag(set, "Terminal"@)
    }

    /// Takes one more line into account.
    fn read_line(&mut self, line: &[char], Ghost(before): Ghost<Seq<Seq<char>>>)
        requires
            old(self).describes(before),
        ensures
            final(self).describes(before.push(line@)),
    {
        let ghost now = before.push(line@);
        assert(now.drop_last() == before);
        let line = trim(line);
        if line.len() > 0 && line[0] == '[' && line[line.len() - 1] == ']' {
            self.in_entry = is_text(line, "[Desktop Entry]");
            return;
        }
        if !self.in_entry || line.len() == 0 || line[0] == '#' {
            return;
        }
        let n: usize = find(line, '=');
        if n == line.len() {
            return;
        }
        let key = trim(vstd::slice::slice_subrange(line, 0, n));
        let val = trim(vstd::slice::slice_subrange(line, n + 1, line.len()));
        assert(line@.subrange(0, n as int) == line@.take(n as int));
        assert(line@.subrange(n + 1, line@.len() as int) == line@.skip(n + 1));
        let ghost set = settings(before);
        assert(settings(now) == set.push((key@, val@)));
        assert(set.push((key@, val@)).drop_last() == set);
        // Only the unlocalised keys count: `Name[de]` and the like are others.
        if self.name.is_none() && is_text(key, "Name") {
            self.name = Some(copied(val));
        }
        if self.command.is_none() && is_text(key, "Exec") {
            self.command = Some(copied(val));
        }
        if self.typ.is_none() && is_text(key, "Type") {
            self.typ = Some(copied(val));
        }
        if is_text(key, "NoDisplay") {
            self.no_display = is_text_ignoring_case(val, "true");
        }
        if is_text(key, "Hidden") {
            self.hidden = is_text_ignoring_case(val, "true");
        }
        if is_text(key, "Terminal") {
            self.is_terminal = is_text_ignoring_case(val, "true");
        }
    }
}

/// What a pair of strings stands for.
pub open spec fn pair_view(p: (String, String)) -> (Seq<char>, Seq<char>) {
    (p.0@, p.1@)
}

/// Parses the `[Desktop Entry]` group of a desktop file into a display name and
/// a command. Gives `None` for what is no application, for hidden entries, and
/// for entries without a usable `Exec`. Entries that ask for a terminal are
/// wrapped with `terminal`.
pub fn parse_desktop_entry(content: &str, terminal: &str) -> (r: Option<(String, String)>)
    ensures
        r is Some <==> entry_of(content@, terminal@) is Some,
        r matches Some(p) ==> entry_of(content@, terminal@) == Some(pair_view(p)),
{
    let chars = to_chars(content);
    let all = lines(chars.as_slice());
    let mut f = Fields {
        in_entry: false,
        name: None,
        command: None,
        typ: None,
        no_display: false,
        hidden: false,
        is_terminal: false,
    };
    let ghost lines = lines_of(content@);
    let mut i: usize = 0;
    assert(lines.take(0) == Seq::<Seq<char>>::empty());
    while i < all.len()
        invariant
            i <= all@.len(),
            views(all@) == lines,
            f.describes(lines.take(i as int)),
        decreases all.len() - i,
    {
        assert(lines[i as int] == all@[i as int]@);
        f.read_line(all[i].as_slice(), Ghost(lines.take(i as int)));
        assert(lines.take(i + 1) == lines.take(i as int).push(lines[i as int]));
        i += 1;
    }
    assert(lines.take(i as int) == lines);
    if f.no_display || f.hidden {
        return None;
    }
    if let Some(t) = &f.typ {
        if !is_text(t.as_slice(), "Application") {
            return None;
        }
    }
    let name = match f.name {
        Some(n) => from_chars(n.as_slice()),
        None => {
            return None;
        },
    };
    let value = match f.command {
        Some(e) => from_chars(e.as_slice()),
        None => {
            return None;
        },
    };
    let cmd = clean_exec(value.as_str());
    if cmd.as_str().is_empty() {
        return None;
    }
    if f.is_terminal {
        let mut wrapped = terminal.to_owned();
        wrapped.append(" -e ");
        wrapped.append(cmd.as_str());
        Some((name, wrapped))
    } else {
        Some((name, cmd))
    }
}

/// A file in one of the application directories.
pub struct DesktopFile {
    /// The name of the file, which is its ID. A file whose name is not Unicode
    /// has no ID and is no candidate.
    pub file_name: String,
    /// What the file holds, if it can be read as text.
    pub content: Option<String>,
}

/// Whether a file name has the extension `desktop`.
pub open spec fn desktop_file_name(name: Seq<char>) -> bool {
    let ext = ".desktop"@;
    name.len() > ext.len() && name.skip(name.len() - ext.len()) == ext
}

/// Whether an earlier file of `files` has the ID `id`.
pub open spec fn claimed(files: Seq<DesktopFile>, id: Seq<char>) -> bool {
    exists|i: int| 0 <= i < files.len() && (#[trigger] files[i]).file_name@ == id
}

/// The entry of a file, if it can be read and offers one.
pub open spec fn file_entry(file: DesktopFile, terminal: Seq<char>) -> Option<
    (Seq<char>, Seq<char>),
> {
    match file.content {
        Some(content) => entry_of(content@, terminal),
        None => None,
    }
}

/// Whether a file counts for the entries: the first that has its ID does, even
/// where it offers no entry.
pub open spec fn counts(files: Seq<DesktopFile>, i: int) -> bool {
    desktop_file_name(files[i].file_name@) && !claimed(files.take(i), files[i].file_name@)
}

/// The entries of the files that count, in the order of the files.
pub open spec fn collected(files: Seq<DesktopFile>, terminal: Seq<char>) -> Seq<
    (Seq<char>, Seq<char>),
>
    decreases files.len(),
{
    if files.len() == 0 {
        seq![]
    } else {
        let rest = collected(files.drop_last(), terminal);
        let entry = file_entry(files.last(), terminal);
        if counts(files, files.len() - 1) && entry is Some {
            rest.push(entry->0)
        } else {
            rest
        }
    }
}

/// Entries with what they are sorted by: their names without regard to case.
pub open spec fn keyed(entries: Seq<(Seq<char>, Seq<char>)>) -> Seq<
    (Seq<char>, (Seq<char>, Seq<char>)),
> {
    entries.map_values(|e: (Seq<char>, Seq<char>)| (lowercase(e.0), e))
}

/// Entries with their names in small ASCII letters.
pub open spec fn ascii_keyed(entries: Seq<(Seq<char>, Seq<char>)>) -> Seq<
    (Seq<char>, (Seq<char>, Seq<char>)),
> {
    entries.map_values(|e: (Seq<char>, Seq<char>)| (ascii_lowered(e.0), e))
}

/// Whether the names of all entries are ASCII.
pub open spec fn ascii_names(entries: Seq<(Seq<char>, Seq<char>)>) -> bool {
    forall|i: int| 0 <= i < entries.len() ==> ascii((#[trigger] entries[i]).0)
}

/// Those of `entries` with the sort key `key`, in order.
pub open spec fn with_key(entries: Seq<(Seq<char>, (Seq<char>, Seq<char>))>, key: Seq<char>) -> Seq<
    (Seq<char>, (Seq<char>, Seq<char>)),
>
    decreases entries.len(),
{
    if entries.len() == 0 {
        seq![]
    } else if entries.last().0 == key {
        with_key(entries.drop_last(), key).push(entries.last())
    } else {
        with_key(entries.drop_last(), key)
    }
}

/// Whether the sort keys ascend.
pub open spec fn ascending(entries: Seq<(Seq<char>, (Seq<char>, Seq<char>))>) -> bool {
    forall|i: int, j: int|
        #![trigger entries[i], entries[j]]
        0 <= i <= j < entries.len() ==> text_le(entries[i].0, entries[j].0)
}

/// Whether `after` is `before` sorted, with entries of equal keys in their old
/// order.
pub open spec fn stably_sorted(
    before: Seq<(Seq<char>, (Seq<char>, Seq<char>))>,
    after: Seq<(Seq<char>, (Seq<char>, Seq<char>))>,
) -> bool {
    &&& ascending(after)
    &&& forall|key: Seq<char>| #[trigger] with_key(after, key) == with_key(before, key)
}

/// What a list of pairs of strings stands for.
pub open spec fn pair_views(v: Seq<(String, String)>) -> Seq<(Seq<char>, Seq<char>)> {
    v.map_values(|p: (String, String)| pair_view(p))
}

/// Whether the file name has the extension `desktop`.
pub fn is_desktop_file(name: &str) -> (r: bool)
    ensures
        r == desktop_file_name(name@),
{
    let chars = to_chars(name);
    let ext = to_chars(".desktop");
    if chars.len() <= ext.len() {
        return false;
    }
    let start: usize = chars.len() - ext.len();
    let tail = vstd::slice::slice_subrange(chars.as_slice(), start, chars.len());
    assert(tail@ == chars@.skip(start as int));
    is_text(tail, ".desktop")
}

/// The directories that hold desktop files, in order of precedence: the user's
/// own shadows those shared by all.
pub fn application_dirs(env: &DataEnv) -> (v: Vec<Vec<u8>>)
    ensures
        paths(v@) == env.data_subdirs(encode_utf8("applications"@)),
{
    data_subdirs(env, "applications".as_bytes())
}

/// The terminal that entries marked `Terminal=true` run in, from
/// `$QMENU_TERMINAL` and `$TERMINAL`.
pub fn terminal_command(qmenu_terminal: Option<String>, terminal: Option<String>) -> (r: String)
    ensures
        r@ == (match (qmenu_terminal, terminal) {
            (Some(t), _) => t@,
            (None, Some(t)) => t@,
            (None, None) => "xterm"@,
        }),
{
    match qmenu_terminal {
        Some(t) => t,
        None => match terminal {
            Some(t) => t,
            None => "xterm".to_owned(),
        },
    }
}

proof fn with_key_of_sum(
    a: Seq<(Seq<char>, (Seq<char>, Seq<char>))>,
    b: Seq<(Seq<char>, (Seq<char>, Seq<char>))>,
    key: Seq<char>,
)
    ensures
        with_key(a + b, key) == with_key(a, key) + with_key(b, key),
    decreases b.len(),
{
    if b.len() == 0 {
        assert(a + b == a);
        assert(with_key(b, key) == Seq::<(Seq<char>, (Seq<char>, Seq<char>))>::empty());
    } else {
        assert((a + b).drop_last() == a + b.drop_last());
        with_key_of_sum(a, b.drop_last(), key);
    }
}

proof fn with_key_of_none(a: Seq<(Seq<char>, (Seq<char>, Seq<char>))>, key: Seq<char>)
    requires
        forall|i: int| 0 <= i < a.len() ==> (#[trigger] a[i]).0 != key,
    ensures
        with_key(a, key) == Seq::<(Seq<char>, (Seq<char>, Seq<char>))>::empty(),
    decreases a.len(),
{
    if a.len() > 0 {
        with_key_of_none(a.drop_last(), key);
    }
}

/// Puts `e` in front of the entries that do not come before it.
proof fn inserting_keeps_order(
    rest: Seq<(Seq<char>, (Seq<char>, Seq<char>))>,
    e: (Seq<char>, (Seq<char>, Seq<char>)),
    sorted: Seq<(Seq<char>, (Seq<char>, Seq<char>))>,
    p: int,
)
    requires
        0 <= p <= sorted.len(),
        ascending(sorted),
        forall|i: int| 0 <= i < p ==> !text_le(e.0, (#[trigger] sorted[i]).0),
        p < sorted.len() ==> text_le(e.0, sorted[p].0),
    ensures
        ascending(sorted.insert(p, e)),
        forall|key: Seq<char>| #[trigger]
            with_key(rest + sorted.insert(p, e), key) == with_key(rest.push(e) + sorted, key),
{
    let now = sorted.insert(p, e);
    assert forall|i: int, j: int|
        #![trigger now[i], now[j]]
        0 <= i <= j < now.len() implies text_le(now[i].0, now[j].0) by {
        text_le_total(e.0, e.0);
        if i < p && j == p {
            assert(now[i] == sorted[i]);
            text_le_total(sorted[i].0, e.0);
        } else if i == p && j > p {
            assert(now[j] == sorted[j - 1]);
            assert(text_le(sorted[p].0, sorted[j - 1].0));
            text_le_transitive(e.0, sorted[p].0, sorted[j - 1].0);
        } else if i != p && j != p {
            let a = if i < p {
                i
            } else {
                i - 1
            };
            let b = if j < p {
                j
            } else {
                j - 1
            };
            assert(now[i] == sorted[a] && now[j] == sorted[b]);
        }
    }
    assert forall|key: Seq<char>| #[trigger]
        with_key(rest + now, key) == with_key(rest.push(e) + sorted, key) by {
        let head = sorted.take(p);
        let tail = sorted.skip(p);
        assert(sorted == head + tail);
        assert(now == head + (seq![e] + tail));
        assert(rest.push(e) == rest + seq![e]);
        with_key_of_sum(rest, now, key);
        with_key_of_sum(head, seq![e] + tail, key);
        with_key_of_sum(seq![e], tail, key);
        with_key_of_sum(rest.push(e), sorted, key);
        with_key_of_sum(rest, seq![e], key);
        with_key_of_sum(head, tail, key);
        if key == e.0 {
            assert forall|i: int| 0 <= i < head.len() implies (#[trigger] head[i]).0
                != key by {
                assert(head[i] == sorted[i]);
                text_le_total(key, key);
            }
            with_key_of_none(head, key);
        } else {
            with_key_of_none(seq![e], key);
        }
        assert(with_key(rest + now, key) == with_key(rest.push(e) + sorted, key));
    }
}

/// An entry with what it is sorted by.
pub struct Keyed {
    pub key: Vec<char>,
    pub entry: (String, String),
}

impl View for Keyed {
    type V = (Seq<char>, (Seq<char>, Seq<char>));

    open spec fn view(&self) -> (Seq<char>, (Seq<char>, Seq<char>)) {
        (self.key@, pair_view(self.entry))
    }
}

/// What a list of entries with their keys stands for.
pub open spec fn keyed_views(v: Seq<Keyed>) -> Seq<(Seq<char>, (Seq<char>, Seq<char>))> {
    v.map_values(|e: Keyed| e@)
}

/// Sorts entries by their keys; those of equal keys keep their order.
pub fn sort_by_key(entries: Vec<Keyed>) -> (r: Vec<Keyed>)
    ensures
        stably_sorted(keyed_views(entries@), keyed_views(r@)),
{
    let ghost all = keyed_views(entries@);
    let mut rest = entries;
    let mut out: Vec<Keyed> = Vec::new();
    assert(keyed_views(rest@) + keyed_views(out@) == all);
    while rest.len() > 0
        invariant
            ascending(keyed_views(out@)),
            forall|key: Seq<char>| #[trigger]
                with_key(keyed_views(rest@) + keyed_views(out@), key) == with_key(all, key),
        decreases rest@.len(),
    {
        let ghost full = keyed_views(rest@);
        let ghost sorted = keyed_views(out@);
        if let Some(entry) = rest.pop() {
            let ghost e = entry@;
            assert(full == keyed_views(rest@).push(e));
            let mut p: usize = 0;
            while p < out.len() && !is_le(entry.key.as_slice(), out[p].key.as_slice())
                invariant
                    p <= out@.len(),
                    e == entry@,
                    sorted == keyed_views(out@),
                    forall|i: int| 0 <= i < p ==> !text_le(e.0, (#[trigger] sorted[i]).0),
                decreases out.len() - p,
            {
                assert(sorted[p as int] == out@[p as int]@);
                p += 1;
            }
            proof {
                if p < out@.len() {
                    assert(sorted[p as int] == out@[p as int]@);
                }
                inserting_keeps_order(keyed_views(rest@), e, sorted, p as int);
            }
            out.insert(p, entry);
            assert(keyed_views(out@) == sorted.insert(p as int, e));
            assert forall|k: Seq<char>| #[trigger]
                with_key(keyed_views(rest@) + keyed_views(out@), k) == with_key(all, k) by {
                assert(with_key(keyed_views(rest@) + sorted.insert(p as int, e), k) == with_key(
                    keyed_views(rest@).push(e) + sorted,
                    k,
                ));
                assert(with_key(full + sorted, k) == with_key(all, k));
            }
        }
    }
    assert(keyed_views(rest@) + keyed_views(out@) == keyed_views(out@));
    out
}

/// Sorts entries by their names without regard to case; equal names keep their
/// order.
fn sort_entries(entries: Vec<(String, String)>) -> (r: Vec<(String, String)>)
    ensures
        stably_sorted(keyed(pair_views(entries@)), keyed(pair_views(r@))),
        ascii_names(pair_views(entries@)) ==> stably_sorted(
            ascii_keyed(pair_views(entries@)),
            ascii_keyed(pair_views(r@)),
        ),
{
    let ghost before = keyed(pair_views(entries@));
    let mut list: Vec<Keyed> = Vec::new();
    let mut i: usize = 0;
    while i < entries.len()
        invariant
            i <= entries@.len(),
            before == keyed(pair_views(entries@)),
            keyed_views(list@) == before.take(i as int),
            forall|k: int|
                0 <= k < i && ascii((#[trigger] before[k]).1.0) ==> before[k].0 == ascii_lowered(
                    before[k].1.0,
                ),
        decreases entries.len() - i,
    {
        let ghost listed = keyed_views(list@);
        let name = entries[i].0.clone();
        let command = entries[i].1.clone();
        let lower = to_lowercase(name.as_str());
        let key = to_chars(lower.as_str());
        list.push(Keyed { key, entry: (name, command) });
        assert(keyed_views(list@) == listed.push(before[i as int]));
        i += 1;
    }
    assert(keyed_views(list@) == before);
    let sorted = sort_by_key(list);
    let ghost after = keyed_views(sorted@);
    proof {
        assert forall|k: int| 0 <= k < after.len() implies (#[trigger] after[k]).0 == lowercase(
            after[k].1.0,
        ) && before.contains(after[k]) by {
            sorting_keeps_entries(before, after, after[k]);
            let m = choose|m: int| 0 <= m < before.len() && before[m] == after[k];
            assert(before[m].0 == lowercase(before[m].1.0));
        }
    }
    let mut out: Vec<(String, String)> = Vec::new();
    let mut i: usize = 0;
    while i < sorted.len()
        invariant
            i <= sorted@.len(),
            after == keyed_views(sorted@),
            forall|k: int|
                0 <= k < after.len() ==> (#[trigger] after[k]).0 == lowercase(after[k].1.0),
            keyed(pair_views(out@)) == after.take(i as int),
        decreases sorted.len() - i,
    {
        let ghost listed = keyed(pair_views(out@));
        assert(after[i as int] == sorted@[i as int]@);
        let name = sorted[i].entry.0.clone();
        let command = sorted[i].entry.1.clone();
        out.push((name, command));
        assert(keyed(pair_views(out@)) == listed.push(after[i as int]));
        i += 1;
    }
    assert(after.take(i as int) == after);
    proof {
        let names = pair_views(entries@);
        if ascii_names(names) {
            assert forall|m: int| 0 <= m < before.len() implies (#[trigger] before[m]).0
                == ascii_lowered(before[m].1.0) by {
                assert(ascii(names[m].0));
            }
            assert(ascii_keyed(names) == before);
            assert(keyed(pair_views(out@)) == after);
            assert forall|k: int| 0 <= k < after.len() implies ascii_keyed(
                pair_views(out@),
            )[k] == #[trigger] after[k] by {
                assert(before.contains(after[k]));
                let m = choose|m: int| 0 <= m < before.len() && before[m] == after[k];
                assert(keyed(pair_views(out@))[k].1 == pair_views(out@)[k]);
            }
            assert(ascii_keyed(pair_views(out@)) == after);
        }
    }
    out
}

/// The entries that a list of files offers, sorted by name. The files are given
/// in the order of their directories' precedence, and of several files with one
/// ID only the first counts.
pub fn load_desktop_entries(files: &Vec<DesktopFile>, terminal: &str) -> (r: Vec<
    (String, String),
>)
    ensures
        stably_sorted(keyed(collected(files@, terminal@)), keyed(pair_views(r@))),
        ascii_names(collected(files@, terminal@)) ==> stably_sorted(
            ascii_keyed(collected(files@, terminal@)),
            ascii_keyed(pair_views(r@)),
        ),
{
    let mut seen = StringHashSet::new();
    let mut out: Vec<(String, String)> = Vec::new();
    let mut i: usize = 0;
    assert(files@.take(0).len() == 0);
    assert(pair_views(out@) == collected(files@.take(0), terminal@));
    while i < files.len()
        invariant
            i <= files@.len(),
            pair_views(out@) == collected(files@.take(i as int), terminal@),
            forall|id: Seq<char>| #[trigger]
                seen@.contains(id) <==> desktop_file_name(id) && claimed(files@.take(i as int), id),
        decreases files.len() - i,
    {
        let file = &files[i];
        let ghost before = files@.take(i as int);
        let ghost now = files@.take(i + 1);
        let ghost out_before = pair_views(out@);
        let ghost seen_before = seen@;
        assert(now.drop_last() == before);
        assert(now.take(i as int) == before);
        assert(now.last() == *file);
        let mut fresh = false;
        if is_desktop_file(file.file_name.as_str()) {
            fresh = seen.insert(file.file_name.clone());
        }
        assert(fresh == counts(now, i as int));
        if fresh {
            if let Some(content) = &file.content {
                if let Some(pair) = parse_desktop_entry(content.as_str(), terminal) {
                    out.push(pair);
                    assert(pair_views(out@) == out_before.push(pair_view(pair)));
                }
            }
        }
        assert(pair_views(out@) == collected(now, terminal@));
        assert forall|id: Seq<char>| #[trigger]
            seen@.contains(id) <==> desktop_file_name(id) && claimed(now, id) by {
            assert(claimed(now, id) <==> claimed(before, id) || file.file_name@ == id) by {
                if claimed(before, id) {
                    let k = choose|k: int|
                        0 <= k < before.len() && (#[trigger] before[k]).file_name@ == id;
                    assert(now[k] == before[k]);
                }
                if claimed(now, id) {
                    let k = choose|k: int|
                        0 <= k < now.len() && (#[trigger] now[k]).file_name@ == id;
                    if k < i {
                        assert(now[k] == before[k]);
                    }
                }
                if file.file_name@ == id {
                    assert(now[i as int].file_name@ == id);
                }
            }
            assert(seen_before.contains(id) <==> desktop_file_name(id) && claimed(before, id));
        }
        i += 1;
    }
    assert(files@.take(i as int) == files@);
    sort_entries(out)
}

/// `s` with every percent sign doubled.
pub open spec fn percent_escaped(s: Seq<char>) -> Seq<char>
    decreases s.len(),
{
    if s.len() == 0 {
        seq![]
    } else if s[0] == '%' {
        seq!['%', '%'] + percent_escaped(s.skip(1))
    } else {
        seq![s[0]] + percent_escaped(s.skip(1))
    }
}

/// Cleaning undoes the escaping of percent signs: a command line whose percent
/// signs are doubled comes back as it was, white space around it aside.
pub proof fn cleaning_undoes_escaping(s: Seq<char>)
    ensures
        without_field_codes(percent_escaped(s)) == s,
        command_of(percent_escaped(s)) == trimmed(s),
    decreases s.len(),
{
    if s.len() > 0 {
        cleaning_undoes_escaping(s.skip(1));
        let rest = percent_escaped(s.skip(1));
        if s[0] == '%' {
            assert((seq!['%', '%'] + rest).skip(2) == rest);
        } else {
            assert((seq![s[0]] + rest).skip(1) == rest);
        }
        assert(seq![s[0]] + s.skip(1) == s);
    }
}

/// A command line without percent signs is only trimmed.
pub proof fn cleaning_without_field_codes_trims(s: Seq<char>)
    requires
        !s.contains('%'),
    ensures
        without_field_codes(s) == s,
        command_of(s) == trimmed(s),
    decreases s.len(),
{
    if s.len() > 0 {
        assert(s[0] != '%');
        assert forall|i: int| 0 <= i < s.skip(1).len() implies s.skip(1)[i] != '%' by {
            assert(s.skip(1)[i] == s[i + 1]);
        }
        cleaning_without_field_codes_trims(s.skip(1));
        assert(seq![s[0]] + s.skip(1) == s);
    }
}

/// A field code behind text without percent signs vanishes.
pub proof fn field_code_vanishes(a: Seq<char>, code: char, b: Seq<char>)
    requires
        !a.contains('%'),
        code != '%',
    ensures
        without_field_codes(a + seq!['%', code] + b) == a + without_field_codes(b),
    decreases a.len(),
{
    let s = a + seq!['%', code] + b;
    if a.len() == 0 {
        assert(s.skip(2) == b);
        assert(a + without_field_codes(b) == without_field_codes(b));
    } else {
        assert(a[0] != '%');
        assert forall|i: int| 0 <= i < a.skip(1).len() implies a.skip(1)[i] != '%' by {
            assert(a.skip(1)[i] == a[i + 1]);
        }
        field_code_vanishes(a.skip(1), code, b);
        assert(s.skip(1) == a.skip(1) + seq!['%', code] + b);
        assert(seq![a[0]] + (a.skip(1) + without_field_codes(b)) == a + without_field_codes(b));
    }
}

/// Entries that are hidden, or of a type other than `Application`, are not offered,
/// and neither are those without a name or a command.
pub proof fn unwanted_entries_are_skipped(
    set: Seq<(Seq<char>, Seq<char>)>,
    terminal: Seq<char>,
)
    ensures
        flag(set, "NoDisplay"@) ==> entry_set(set, terminal) is None,
        flag(set, "Hidden"@) ==> entry_set(set, terminal) is None,
        first_value(set, "Type"@) matches Some(t) ==> t != "Application"@ ==> entry_set(
            set,
            terminal,
        ) is None,
        first_value(set, "Name"@) is None ==> entry_set(set, terminal) is None,
        first_value(set, "Exec"@) is None ==> entry_set(set, terminal) is None,
        entry_set(set, terminal) matches Some((name, command)) ==> command.len() > 0,
{
}

/// An entry that asks for a terminal runs in it, and any other is the same whatever
/// the terminal.
pub proof fn terminal_wraps_the_command(
    set: Seq<(Seq<char>, Seq<char>)>,
    terminal: Seq<char>,
    other: Seq<char>,
)
    ensures
        entry_set(set, terminal) is Some <==> entry_set(set, other) is Some,
        flag(set, "Terminal"@) ==> (entry_set(set, terminal) matches Some((name, command)) ==> (
        first_value(set, "Exec"@) matches Some(value) && command == terminal + " -e "@ + command_of(
            value,
        ))),
        !flag(set, "Terminal"@) ==> entry_set(set, terminal) == entry_set(set, other),
{
}

/// Other keys, localised ones among them, have no say.
pub proof fn other_keys_do_not_count(
    set: Seq<(Seq<char>, Seq<char>)>,
    key: Seq<char>,
    value: Seq<char>,
    terminal: Seq<char>,
)
    requires
        key != "Name"@,
        key != "Exec"@,
        key != "Type"@,
        key != "NoDisplay"@,
        key != "Hidden"@,
        key != "Terminal"@,
    ensures
        entry_set(set.push((key, value)), terminal) == entry_set(set, terminal),
{
    assert(set.push((key, value)).drop_last() == set);
}

/// A file whose ID an earlier one has is shadowed: it adds no entry, whatever
/// it holds.
pub proof fn earlier_file_shadows(
    files: Seq<DesktopFile>,
    file: DesktopFile,
    terminal: Seq<char>,
)
    requires
        claimed(files, file.file_name@),
    ensures
        collected(files.push(file), terminal) == collected(files, terminal),
{
    assert(files.push(file).drop_last() == files);
    assert(files.push(file).take(files.len() as int) == files);
}

/// The entries are those of the files that count, and no others.
pub proof fn entries_are_those_of_counting_files(
    files: Seq<DesktopFile>,
    terminal: Seq<char>,
    entry: (Seq<char>, Seq<char>),
)
    ensures
        collected(files, terminal).contains(entry) <==> exists|i: int|
            0 <= i < files.len() && #[trigger] counts(files, i) && file_entry(files[i], terminal)
                == Some(entry),
    decreases files.len(),
{
    if files.len() > 0 {
        let before = files.drop_last();
        let n = files.len() - 1;
        entries_are_those_of_counting_files(before, terminal, entry);
        assert forall|i: int| 0 <= i < n implies counts(files, i) == counts(before, i) by {
            assert(files.take(i) == before.take(i));
        }
        let rest = collected(before, terminal);
        let all = collected(files, terminal);
        if rest.contains(entry) {
            let k = choose|k: int| 0 <= k < rest.len() && rest[k] == entry;
            assert(all[k] == entry);
            let i = choose|i: int|
                0 <= i < before.len() && #[trigger] counts(before, i) && file_entry(
                    before[i],
                    terminal,
                ) == Some(entry);
            assert(counts(files, i));
            assert(files[i] == before[i]);
        }
        if all.contains(entry) && !rest.contains(entry) {
            let k = choose|k: int| 0 <= k < all.len() && all[k] == entry;
            if k < rest.len() {
                assert(rest[k] == entry);
            }
            assert(counts(files, n));
        }
        if exists|i: int|
            0 <= i < files.len() && #[trigger] counts(files, i) && file_entry(files[i], terminal)
                == Some(entry) {
            let i = choose|i: int|
                0 <= i < files.len() && #[trigger] counts(files, i) && file_entry(
                    files[i],
                    terminal,
                ) == Some(entry);
            if i < n {
                assert(counts(before, i));
                assert(files[i] == before[i]);
                assert(rest.contains(entry));
                let k = choose|k: int| 0 <= k < rest.len() && rest[k] == entry;
                assert(all[k] == entry);
            } else {
                assert(all.last() == entry);
            }
        }
    }
}

proof fn with_key_contains(s: Seq<(Seq<char>, (Seq<char>, Seq<char>))>, e: (Seq<char>, (Seq<char>, Seq<char>)))
    ensures
        s.contains(e) <==> with_key(s, e.0).contains(e),
    decreases s.len(),
{
    if s.len() > 0 {
        let rest = s.drop_last();
        let key = e.0;
        with_key_contains(rest, e);
        if s.contains(e) {
            let k = choose|k: int| 0 <= k < s.len() && s[k] == e;
            if k < rest.len() {
                assert(rest[k] == e);
                let m = choose|m: int|
                    0 <= m < with_key(rest, key).len() && with_key(rest, key)[m] == e;
                assert(with_key(s, key)[m] == e);
            } else {
                assert(with_key(s, key).last() == e);
            }
        }
        if with_key(s, key).contains(e) {
            let m = choose|m: int| 0 <= m < with_key(s, key).len() && with_key(s, key)[m] == e;
            if m < with_key(rest, key).len() {
                assert(with_key(rest, key)[m] == e);
                let k = choose|k: int| 0 <= k < rest.len() && rest[k] == e;
                assert(s[k] == e);
            } else {
                assert(s.last() == e);
            }
        }
    }
}

/// Sorting neither loses nor invents entries.
pub proof fn sorting_keeps_entries(
    before: Seq<(Seq<char>, (Seq<char>, Seq<char>))>,
    after: Seq<(Seq<char>, (Seq<char>, Seq<char>))>,
    entry: (Seq<char>, (Seq<char>, Seq<char>)),
)
    requires
        stably_sorted(before, after),
    ensures
        after.contains(entry) <==> before.contains(entry),
{
    with_key_contains(before, entry);
    with_key_contains(after, entry);
    assert(with_key(after, entry.0) == with_key(before, entry.0));
}

proof fn with_key_drops_first(s: Seq<(Seq<char>, (Seq<char>, Seq<char>))>, key: Seq<char>)
    requires
        s.len() > 0,
    ensures
        with_key(s, key) == (if s[0].0 == key {
            seq![s[0]] + with_key(s.skip(1), key)
        } else {
            with_key(s.skip(1), key)
        }),
{
    assert(s == seq![s[0]] + s.skip(1));
    with_key_of_sum(seq![s[0]], s.skip(1), key);
    let none = Seq::<(Seq<char>, (Seq<char>, Seq<char>))>::empty();
    assert(seq![s[0]].drop_last() == none);
    assert(with_key(none, key) == none);
    assert(with_key(seq![s[0]], key) == (if s[0].0 == key {
        seq![s[0]]
    } else {
        none
    }));
}

/// There is only one way to sort entries and keep those of equal keys in order.
pub proof fn sorting_is_unique(
    before: Seq<(Seq<char>, (Seq<char>, Seq<char>))>,
    a: Seq<(Seq<char>, (Seq<char>, Seq<char>))>,
    b: Seq<(Seq<char>, (Seq<char>, Seq<char>))>,
)
    requires
        stably_sorted(before, a),
        stably_sorted(before, b),
    ensures
        a == b,
{
    assert forall|key: Seq<char>| #[trigger] with_key(a, key) == with_key(b, key) by {
        assert(with_key(a, key) == with_key(before, key));
        assert(with_key(b, key) == with_key(before, key));
    }
    same_keys_same_order(a, b);
}

proof fn same_keys_same_order(a: Seq<(Seq<char>, (Seq<char>, Seq<char>))>, b: Seq<(Seq<char>, (Seq<char>, Seq<char>))>)
    requires
        ascending(a),
        ascending(b),
        forall|key: Seq<char>| #[trigger] with_key(a, key) == with_key(b, key),
    ensures
        a == b,
    decreases a.len(),
{
    if a.len() == 0 {
        if b.len() > 0 {
            with_key_contains(a, b[0]);
            with_key_contains(b, b[0]);
            assert(with_key(a, b[0].0) == with_key(b, b[0].0));
            assert(false);
        }
        assert(a == b);
    } else {
        let ka = a[0].0;
        with_key_contains(a, a[0]);
        with_key_contains(b, a[0]);
        assert(with_key(a, ka) == with_key(b, ka));
        assert(b.contains(a[0]));
        let m = choose|m: int| 0 <= m < b.len() && b[m] == a[0];
        let kb = b[0].0;
        assert(text_le(kb, ka)) by {
            assert(0 <= 0 <= m < b.len());
        }
        with_key_contains(b, b[0]);
        with_key_contains(a, b[0]);
        assert(with_key(a, kb) == with_key(b, kb));
        assert(a.contains(b[0]));
        let n = choose|n: int| 0 <= n < a.len() && a[n] == b[0];
        assert(text_le(ka, kb)) by {
            assert(0 <= 0 <= n < a.len());
        }
        text_le_antisymmetric(ka, kb);
        with_key_drops_first(a, ka);
        with_key_drops_first(b, ka);
        assert(with_key(a, ka)[0] == a[0]);
        assert(with_key(b, ka)[0] == b[0]);
        let a1 = a.skip(1);
        let b1 = b.skip(1);
        assert forall|i: int, j: int|
            #![trigger a1[i], a1[j]]
            0 <= i <= j < a1.len() implies text_le(a1[i].0, a1[j].0) by {
            assert(a1[i] == a[i + 1] && a1[j] == a[j + 1]);
        }
        assert forall|i: int, j: int|
            #![trigger b1[i], b1[j]]
            0 <= i <= j < b1.len() implies text_le(b1[i].0, b1[j].0) by {
            assert(b1[i] == b[i + 1] && b1[j] == b[j + 1]);
        }
        assert forall|key: Seq<char>| #[trigger] with_key(a1, key) == with_key(b1, key) by {
            with_key_drops_first(a, key);
            with_key_drops_first(b, key);
            assert(with_key(a, key) == with_key(b, key));
            if ka == key {
                assert((seq![a[0]] + with_key(a1, key)).skip(1) == with_key(a1, key));
                assert((seq![b[0]] + with_key(b1, key)).skip(1) == with_key(b1, key));
            }
        }
        same_keys_same_order(a1, b1);
        assert(a == seq![a[0]] + a1);
        assert(b == seq![b[0]] + b1);
    }
}

/// A file is a desktop file if its name is `.desktop` with something before it.
pub proof fn desktop_files_end_in_desktop(name: Seq<char>)
    ensures
        desktop_file_name(name) <==> exists|stem: Seq<char>|
            stem.len() > 0 && name == #[trigger] (stem + ".desktop"@),
{
    let ext = ".desktop"@;
    if desktop_file_name(name) {
        let stem = name.take(name.len() - ext.len());
        assert(name == stem + ext);
    }
    if exists|stem: Seq<char>| stem.len() > 0 && name == #[trigger] (stem + ext) {
        let stem = choose|stem: Seq<char>| stem.len() > 0 && name == #[trigger] (stem + ext);
        assert(name.skip(name.len() - ext.len()) == ext);
    }
}

/// What one more file adds to the entries. A desktop file whose whole name no earlier
/// one has adds the entry that it offers, if it offers one; a file of a name that is
/// there, and any other file, adds nothing.
pub proof fn a_file_adds_its_entry_once(
    files: Seq<DesktopFile>,
    file: DesktopFile,
    stem: Seq<char>,
    terminal: Seq<char>,
)
    ensures
        ({
            let name = file.file_name@;
            let known = exists|j: int|
                0 <= j < files.len() && (#[trigger] files[j]).file_name@ == name;
            let before = collected(files, terminal);
            let after = collected(files.push(file), terminal);
            let offer = match file.content {
                Some(content) => entry_of(content@, terminal),
                None => None,
            };
            &&& known ==> after == before
            &&& !desktop_file_name(name) ==> after == before
            &&& offer is None ==> after == before
            &&& !known && stem.len() > 0 && name == stem + ".desktop"@ && offer is Some ==> after
                == before.push(offer->0)
        }),
        collected(Seq::empty(), terminal) == Seq::<(Seq<char>, Seq<char>)>::empty(),
{
    let now = files.push(file);
    assert(now.drop_last() == files);
    assert(now.take(files.len() as int) == files);
    desktop_files_end_in_desktop(file.file_name@);
}

/// Desktop files of different names do not get in each other's way: the entries are
/// those of all the files that offer one, in their order.
pub proof fn files_of_different_names_all_count(files: Seq<DesktopFile>, terminal: Seq<char>)
    requires
        forall|i: int, j: int|
            0 <= i < j < files.len() ==> (#[trigger] files[i]).file_name@ != (
            #[trigger] files[j]).file_name@,
        forall|i: int|
            0 <= i < files.len() ==> desktop_file_name((#[trigger] files[i]).file_name@),
    ensures
        collected(files, terminal) == files.filter_map(
            |f: DesktopFile|
                match f.content {
                    Some(content) => entry_of(content@, terminal),
                    None => None,
                },
        ),
    decreases files.len(),
{
    if files.len() > 0 {
        let rest = files.drop_last();
        let last = files.last();
        assert forall|i: int| 0 <= i < rest.len() implies (#[trigger] rest[i]).file_name@
            != last.file_name@ by {
            assert(files[i].file_name@ != files[files.len() - 1].file_name@);
        }
        files_of_different_names_all_count(rest, terminal);
        assert(rest.push(last) == files);
        desktop_files_end_in_desktop(last.file_name@);
        let stem = choose|stem: Seq<char>|
            stem.len() > 0 && last.file_name@ == #[trigger] (stem + ".desktop"@);
        a_file_adds_its_entry_once(rest, last, stem, terminal);
        let f = |f: DesktopFile|
            match f.content {
                Some(content) => entry_of(content@, terminal),
                None => None,
            };
        assert(f(last) matches Some(e) ==> rest.filter_map(f) + seq![e] == rest.filter_map(f).push(
            e,
        ));
    }
}

proof fn with_key_is_filtered(entries: Seq<(Seq<char>, Seq<char>)>, key: Seq<char>)
    ensures
        with_key(keyed(entries), key) == keyed(
            entries.filter(|e: (Seq<char>, Seq<char>)| lowercase(e.0) == key),
        ),
    decreases entries.len(),
{
    reveal(Seq::filter);
    let all = keyed(entries);
    if entries.len() > 0 {
        let rest = entries.drop_last();
        assert(all.drop_last() == keyed(rest));
        with_key_is_filtered(rest, key);
        let kept = rest.filter(|e: (Seq<char>, Seq<char>)| lowercase(e.0) == key);
        assert(keyed(kept.push(entries.last())) == keyed(kept).push(all.last()));
    } else {
        assert(keyed(entries.filter(|e: (Seq<char>, Seq<char>)| lowercase(e.0) == key)).len() == 0);
    }
}

/// A sorted list of entries has the lower case of the names in order, holds the entries
/// it was made of and no others, and those whose names differ in case alone in the
/// order they had.
pub proof fn entries_are_sorted_by_name(
    before: Seq<(Seq<char>, Seq<char>)>,
    after: Seq<(Seq<char>, Seq<char>)>,
    i: int,
    j: int,
    entry: (Seq<char>, Seq<char>),
)
    requires
        stably_sorted(keyed(before), keyed(after)),
    ensures
        0 <= i <= j < after.len() ==> text_le(lowercase(after[i].0), lowercase(after[j].0)),
        after.contains(entry) <==> before.contains(entry),
        after.filter(|e: (Seq<char>, Seq<char>)| lowercase(e.0) == lowercase(entry.0))
            == before.filter(|e: (Seq<char>, Seq<char>)| lowercase(e.0) == lowercase(entry.0)),
{
    let key = lowercase(entry.0);
    let (kb, ka) = (keyed(before), keyed(after));
    assert(forall|n: int| 0 <= n < after.len() ==> #[trigger] ka[n] == (lowercase(after[n].0), after[n]));
    assert(forall|n: int|
        0 <= n < before.len() ==> #[trigger] kb[n] == (lowercase(before[n].0), before[n]));
    if 0 <= i <= j < after.len() {
        assert(text_le(ka[i].0, ka[j].0));
    }
    sorting_keeps_entries(kb, ka, (key, entry));
    if after.contains(entry) {
        let n = choose|n: int| 0 <= n < after.len() && after[n] == entry;
        assert(ka[n] == (key, entry));
        let n = choose|n: int| 0 <= n < kb.len() && kb[n] == (key, entry);
        assert(before[n] == entry);
    }
    if before.contains(entry) {
        let n = choose|n: int| 0 <= n < before.len() && before[n] == entry;
        assert(kb[n] == (key, entry));
        let n = choose|n: int| 0 <= n < ka.len() && ka[n] == (key, entry);
        assert(after[n] == entry);
    }
    with_key_is_filtered(before, key);
    with_key_is_filtered(after, key);
    let fb = before.filter(|e: (Seq<char>, Seq<char>)| lowercase(e.0) == key);
    let fa = after.filter(|e: (Seq<char>, Seq<char>)| lowercase(e.0) == key);
    assert(with_key(ka, key) == with_key(kb, key));
    assert(keyed(fa) == keyed(fb));
    assert(keyed(fa).len() == fa.len() && keyed(fb).len() == fb.len());
    assert forall|n: int| 0 <= n < fa.len() implies fa[n] == fb[n] by {
        assert(keyed(fa)[n].1 == fa[n]);
        assert(keyed(fb)[n].1 == fb[n]);
    }
    assert(fa == fb);
}

/// Entries sorted by given keys have their keys in order, and those of each key as they
/// were.
pub proof fn keys_are_in_order(
    before: Seq<(Seq<char>, (Seq<char>, Seq<char>))>,
    after: Seq<(Seq<char>, (Seq<char>, Seq<char>))>,
    i: int,
    j: int,
    key: Seq<char>,
)
    requires
        stably_sorted(before, after),
    ensures
        0 <= i <= j < after.len() ==> text_le(after[i].0, after[j].0),
        after.filter(|e: (Seq<char>, (Seq<char>, Seq<char>))| e.0 == key) == before.filter(
            |e: (Seq<char>, (Seq<char>, Seq<char>))| e.0 == key,
        ),
{
    with_key_is_filter(before, key);
    with_key_is_filter(after, key);
    assert(with_key(after, key) == with_key(before, key));
}

proof fn with_key_is_filter(entries: Seq<(Seq<char>, (Seq<char>, Seq<char>))>, key: Seq<char>)
    ensures
        with_key(entries, key) == entries.filter(
            |e: (Seq<char>, (Seq<char>, Seq<char>))| e.0 == key,
        ),
    decreases entries.len(),
{
    reveal(Seq::filter);
    if entries.len() > 0 {
        with_key_is_filter(entries.drop_last(), key);
    }
}

/// What comes of an `Exec` value piece by piece: text without percent signs stays, two
/// percent signs make one, any other character goes with the sign before it, and so
/// does a sign at the end. White space around what is left goes.
pub proof fn field_codes_go_piece_by_piece(a: Seq<char>, code: char, b: Seq<char>)
    requires
        !a.contains('%'),
    ensures
        without_field_codes(a + b) == a + without_field_codes(b),
        without_field_codes(seq!['%', '%'] + b) == seq!['%'] + without_field_codes(b),
        code != '%' ==> without_field_codes(seq!['%', code] + b) == without_field_codes(b),
        without_field_codes(seq!['%']) == Seq::<char>::empty(),
        without_field_codes(a) == a,
        command_of(b) == trimmed(without_field_codes(b)),
    decreases a.len(),
{
    assert((seq!['%', '%'] + b).skip(2) == b);
    assert((seq!['%', code] + b).skip(2) == b);
    cleaning_without_field_codes_trims(a);
    if a.len() == 0 {
        assert(a + b == b);
        assert(a + without_field_codes(b) == without_field_codes(b));
    } else {
        assert(a[0] != '%');
        let rest = a.skip(1);
        assert forall|i: int| 0 <= i < rest.len() implies rest[i] != '%' by {
            assert(rest[i] == a[i + 1]);
        }
        field_codes_go_piece_by_piece(rest, code, b);
        assert((a + b).skip(1) == rest + b);
        assert(seq![a[0]] + (rest + without_field_codes(b)) == a + without_field_codes(b));
    }
}

proof fn entry_group_is_open(lines: Seq<Seq<char>>)
    ensures
        in_entry_group(lines) <==> exists|h: int|
            {
                &&& 0 <= h < lines.len()
                &&& trimmed(#[trigger] lines[h]) == "[Desktop Entry]"@
                &&& forall|g: int|
                    h < g < lines.len() ==> {
                        let t = trimmed(#[trigger] lines[g]);
                        !(t.len() > 0 && t[0] == '[' && t.last() == ']')
                    }
            },
    decreases lines.len(),
{
    reveal_strlit("[Desktop Entry]");
    if lines.len() > 0 {
        let rest = lines.drop_last();
        let last = lines.len() - 1;
        entry_group_is_open(rest);
        assert(forall|i: int| 0 <= i < rest.len() ==> #[trigger] rest[i] == lines[i]);
        let title = "[Desktop Entry]"@;
        assert(title.len() == 15 && title[0] == '[' && title[14] == ']');
        assert(title == trimmed(lines[last]) ==> group_header(trimmed(lines[last])));
        if in_entry_group(lines) {
            if group_header(trimmed(lines[last])) {
                assert(trimmed(lines[last]) == title);
            } else {
                let h = choose|h: int|
                    {
                        &&& 0 <= h < rest.len()
                        &&& trimmed(#[trigger] rest[h]) == title
                        &&& forall|g: int|
                            h < g < rest.len() ==> {
                                let t = trimmed(#[trigger] rest[g]);
                                !(t.len() > 0 && t[0] == '[' && t.last() == ']')
                            }
                    };
                assert(trimmed(lines[h]) == title);
                assert forall|g: int| h < g < lines.len() implies ({
                    let t = trimmed(#[trigger] lines[g]);
                    !(t.len() > 0 && t[0] == '[' && t.last() == ']')
                }) by {
                    if g < last {
                        assert(rest[g] == lines[g]);
                    }
                }
            }
        } else {
            assert forall|h: int|
                0 <= h < lines.len() && trimmed(#[trigger] lines[h]) == title implies exists|g: int|
                h < g < lines.len() && ({
                    let t = trimmed(#[trigger] lines[g]);
                    t.len() > 0 && t[0] == '[' && t.last() == ']'
                }) by {
                if h == last {
                } else if group_header(trimmed(lines[last])) {
                    let t = trimmed(lines[last]);
                    assert(t.len() > 0 && t[0] == '[' && t.last() == ']');
                } else {
                    assert(trimmed(rest[h]) == title);
                    let g = choose|g: int|
                        h < g < rest.len() && ({
                            let t = trimmed(#[trigger] rest[g]);
                            t.len() > 0 && t[0] == '[' && t.last() == ']'
                        });
                    assert(rest[g] == lines[g]);
                }
            }
        }
    }
}

/// What one more line of a desktop file sets. It sets something only where the last
/// line in brackets is `[Desktop Entry]`, and only if it is neither in brackets nor a
/// comment and has an equals sign: the first one parts the key from the value, and
/// white space around them does not count.
pub proof fn a_line_sets_a_key(
    lines: Seq<Seq<char>>,
    line: Seq<char>,
    key: Seq<char>,
    value: Seq<char>,
)
    ensures
        ({
            let t = trimmed(line);
            let bracketed = t.len() > 0 && t[0] == '[' && t.last() == ']';
            let open = exists|h: int|
                {
                    &&& 0 <= h < lines.len()
                    &&& trimmed(#[trigger] lines[h]) == "[Desktop Entry]"@
                    &&& forall|g: int|
                        h < g < lines.len() ==> {
                            let t = trimmed(#[trigger] lines[g]);
                            !(t.len() > 0 && t[0] == '[' && t.last() == ']')
                        }
                };
            let idle = bracketed || !open || t.len() == 0 || t[0] == '#' || !t.contains('=');
            &&& idle ==> settings(lines.push(line)) == settings(lines)
            &&& !idle && t == key + seq!['='] + value && !key.contains('=') ==> settings(
                lines.push(line),
            ) == settings(lines).push((trimmed(key), trimmed(value)))
        }),
        settings(Seq::empty()) == Seq::<(Seq<char>, Seq<char>)>::empty(),
{
    let now = lines.push(line);
    let t = trimmed(line);
    assert(now.drop_last() == lines);
    entry_group_is_open(lines);
    if !t.contains('=') {
        position_is_behind_what_lacks_it(t, '=', Seq::empty());
    }
    if t.contains('=') && position_of(t, '=') >= t.len() {
        let i = choose|i: int| 0 <= i < t.len() && t[i] == '=';
        found_position_is_inside(t, '=', i);
    }
    if t == key + seq!['='] + value && !key.contains('=') {
        position_is_behind_what_lacks_it(key, '=', value);
        assert(t.take(key.len() as int) == key);
        assert(t.skip(key.len() as int + 1) == value);
    }
}

proof fn found_position_is_inside(s: Seq<char>, c: char, i: int)
    requires
        0 <= i < s.len(),
        s[i] == c,
    ensures
        position_of(s, c) < s.len(),
    decreases s.len(),
{
    if s[0] != c {
        found_position_is_inside(s.skip(1), c, i - 1);
    }
}

/// A text key has the value that it is set to first, and the last setting of a flag
/// counts: it is on if that is `true`, in small letters or capitals.
pub proof fn first_text_and_last_flag_count(
    set: Seq<(Seq<char>, Seq<char>)>,
    key: Seq<char>,
    i: int,
)
    ensures
        0 <= i < set.len() && set[i].0 == key && (forall|j: int|
            0 <= j < i ==> (#[trigger] set[j]).0 != key) ==> first_value(set, key) == Some(
            set[i].1,
        ),
        0 <= i < set.len() && set[i].0 == key && (forall|j: int|
            i < j < set.len() ==> (#[trigger] set[j]).0 != key) ==> flag(set, key) == (
        ascii_lowered(set[i].1) == seq!['t', 'r', 'u', 'e']),
        (forall|j: int| 0 <= j < set.len() ==> (#[trigger] set[j]).0 != key) ==> first_value(
            set,
            key,
        ) is None && !flag(set, key),
    decreases set.len(),
{
    reveal_strlit("true");
    let yes = seq!['t', 'r', 'u', 'e'];
    assert("true"@ == yes);
    assert(ascii_lowered(yes) == yes);
    if set.len() > 0 {
        let rest = set.drop_last();
        first_text_and_last_flag_count(rest, key, i);
        assert(forall|j: int| 0 <= j < rest.len() ==> #[trigger] rest[j] == set[j]);
        if 0 <= i < set.len() {
            case_is_that_of_ascii_letters(set[i].1, "true"@);
        }
        if 0 <= i < set.len() && set[i].0 == key && (forall|j: int|
            0 <= j < i ==> (#[trigger] set[j]).0 != key) && i == rest.len() {
            assert(forall|j: int| 0 <= j < rest.len() ==> (#[trigger] rest[j]).0 != key);
        }
        if i < rest.len() {
            assert(set[set.len() - 1] == set.last());
        }
    }
}

/// An entry is offered exactly if it is not hidden, is an application or says nothing of
/// its type, and has a name and a command; it is that name and that command, in the
/// terminal if it asks for one.
pub proof fn offered_entries_are_these(
    set: Seq<(Seq<char>, Seq<char>)>,
    terminal: Seq<char>,
    name: Seq<char>,
    value: Seq<char>,
)
    ensures
        ({
            let typ = first_value(set, "Type"@);
            let hidden = flag(set, "NoDisplay"@) || flag(set, "Hidden"@);
            let command = trimmed(without_field_codes(value));
            first_value(set, "Name"@) == Some(name) && first_value(set, "Exec"@) == Some(value)
                ==> if !hidden && (typ is None || typ == Some("Application"@)) && command.len()
                > 0 {
                entry_set(set, terminal) == Some(
                    (
                        name,
                        if flag(set, "Terminal"@) {
                            terminal + seq![' ', '-', 'e', ' '] + command
                        } else {
                            command
                        },
                    ),
                )
            } else {
                entry_set(set, terminal) is None
            }
        }),
        first_value(set, "Name"@) is None || first_value(set, "Exec"@) is None ==> entry_set(
            set,
            terminal,
        ) is None,
{
    reveal_strlit(" -e ");
    assert(" -e "@ == seq![' ', '-', 'e', ' ']);
}

/// A desktop file that gives a name and a command, each on a line of its own, offers
/// them, the command without its field codes.
pub proof fn written_entries_are_offered(name: Seq<char>, value: Seq<char>, terminal: Seq<char>)
    requires
        !name.contains('\n'),
        !value.contains('\n'),
        name.len() > 0 && !white_space(name[0]) && !white_space(name.last()),
        value.len() > 0 && !white_space(value[0]) && !white_space(value.last()),
        trimmed(without_field_codes(value)).len() > 0,
    ensures
        entry_of(
            "[Desktop Entry]\nName="@ + name + "\nExec="@ + value + "\n"@,
            terminal,
        ) == Some((name, trimmed(without_field_codes(value)))),
{
    reveal_strlit("[Desktop Entry]\nName=");
    reveal_strlit("[Desktop Entry]");
    reveal_strlit("\nExec=");
    reveal_strlit("\n");
    reveal_strlit("Name");
    reveal_strlit("Exec");
    reveal_strlit("Type");
    reveal_strlit("NoDisplay");
    reveal_strlit("Hidden");
    reveal_strlit("Terminal");
    let title = "[Desktop Entry]"@;
    let l1 = "Name"@ + seq!['='] + name;
    let l2 = "Exec"@ + seq!['='] + value;
    let none = Seq::<char>::empty();
    let content = "[Desktop Entry]\nName="@ + name + "\nExec="@ + value + "\n"@;
    assert(content == title + seq!['\n'] + (l1 + seq!['\n'] + (l2 + seq!['\n'] + none)));
    assert(!title.contains('\n'));
    assert forall|i: int| 0 <= i < l1.len() implies l1[i] != '\n' by {
        if i >= 5 {
            assert(name.contains(name[i - 5]));
        }
    }
    assert forall|i: int| 0 <= i < l2.len() implies l2[i] != '\n' by {
        if i >= 5 {
            assert(value.contains(value[i - 5]));
        }
    }
    assert(l1.last() == name.last() && l2.last() == value.last());
    line_feeds_end_lines(title, l1 + seq!['\n'] + (l2 + seq!['\n'] + none));
    line_feeds_end_lines(l1, l2 + seq!['\n'] + none);
    line_feeds_end_lines(l2, none);
    let lines = seq![title, l1, l2];
    assert(lines_of(content) == seq![title] + (seq![l1] + (seq![l2] + lines_of(none))));
    assert(lines_of(content) == lines);
    trimming_removes_white_space_around(none, title, none);
    trimming_removes_white_space_around(none, l1, none);
    trimming_removes_white_space_around(none, l2, none);
    trimming_removes_white_space_around(none, "Name"@, none);
    trimming_removes_white_space_around(none, "Exec"@, none);
    trimming_removes_white_space_around(none, name, none);
    trimming_removes_white_space_around(none, value, none);
    assert(none + title + none == title && none + l1 + none == l1 && none + l2 + none == l2);
    assert(none + name + none == name && none + value + none == value);
    assert(none + "Name"@ + none == "Name"@ && none + "Exec"@ + none == "Exec"@);
    let s0 = Seq::<Seq<char>>::empty();
    let s1 = s0.push(title);
    let s2 = s1.push(l1);
    let s3 = s2.push(l2);
    assert(s3 == lines);
    a_line_sets_a_key(s0, title, none, none);
    assert(trimmed(s1[0]) == title);
    assert(l1[4] == '=' && l2[4] == '=');
    a_line_sets_a_key(s1, l1, "Name"@, name);
    assert(settings(s2) == settings(s1).push(("Name"@, name)));
    assert(s2[0] == title && s2[1] == l1);
    a_line_sets_a_key(s2, l2, "Exec"@, value);
    let set = settings(s3);
    assert(set == seq![("Name"@, name), ("Exec"@, value)]);
    assert("Name"@[0] != "Exec"@[0]);
    assert("Type"@[0] == 'T' && "NoDisplay"@[1] == 'o' && "Hidden"@[0] == 'H' && "Terminal"@[0]
        == 'T');
    assert("Name"@[1] == 'a');
    first_text_and_last_flag_count(set, "Name"@, 0);
    first_text_and_last_flag_count(set, "Exec"@, 1);
    first_text_and_last_flag_count(set, "Type"@, 0);
    first_text_and_last_flag_count(set, "NoDisplay"@, 0);
    first_text_and_last_flag_count(set, "Hidden"@, 0);
    first_text_and_last_flag_count(set, "Terminal"@, 0);
    offered_entries_are_these(set, terminal, name, value);
}

/// A file offers what the settings in its lines make, and one that cannot be read offers
/// nothing.
pub proof fn files_are_read_line_by_line(file: DesktopFile, terminal: Seq<char>)
    ensures
        file.content matches Some(content) ==> file_entry(file, terminal) == entry_set(
            settings(lines_of(content@)),
            terminal,
        ),
        file.content is None ==> file_entry(file, terminal) is None,
{
}

/// A list stands for its entries, one for one, each for its name and its command.
pub proof fn lists_stand_for_their_entries(v: Seq<(String, String)>, w: Seq<Keyed>, i: int)
    ensures
        pair_views(v).len() == v.len(),
        0 <= i < v.len() ==> pair_views(v)[i] == (v[i].0@, v[i].1@),
        keyed_views(w).len() == w.len(),
        0 <= i < w.len() ==> keyed_views(w)[i] == (
            w[i].key@,
            (w[i].entry.0@, w[i].entry.1@),
        ),
{
}

} // verus!
