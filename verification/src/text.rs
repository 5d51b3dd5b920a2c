//! Text as sequences of characters: the few string operations the launcher
//! needs, each with its meaning spelled out over `Seq<char>`.

use vstd::prelude::*;

verus! {

/// The Unicode `White_Space` property.
pub open spec fn white_space(c: char) -> bool {
    let u = c as u32;
    ||| 0x09 <= u <= 0x0d
    ||| u == 0x20
    ||| u == 0x85
    ||| u == 0xa0
    ||| u == 0x1680
    ||| 0x2000 <= u <= 0x200a
    ||| u == 0x2028
    ||| u == 0x2029
    ||| u == 0x202f
    ||| u == 0x205f
    ||| u == 0x3000
}

/// The Unicode general category `Cc`.
pub open spec fn control(c: char) -> bool {
    let u = c as u32;
    u <= 0x1f || 0x7f <= u <= 0x9f
}

/// The code point of `c` with the ASCII capitals folded onto the small letters.
pub open spec fn ascii_folded(c: char) -> u32 {
    let u = c as u32;
    if 0x41 <= u <= 0x5a {
        (u + 0x20) as u32
    } else {
        u
    }
}

/// Equality up to the case of ASCII letters.
pub open spec fn same_ignoring_case(a: Seq<char>, b: Seq<char>) -> bool {
    &&& a.len() == b.len()
    &&& forall|i: int| 0 <= i < a.len() ==> ascii_folded(#[trigger] a[i]) == ascii_folded(b[i])
}

/// `s` without its leading white space.
pub open spec fn trimmed_start(s: Seq<char>) -> Seq<char>
    decreases s.len(),
{
    if s.len() > 0 && white_space(s[0]) {
        trimmed_start(s.skip(1))
    } else {
        s
    }
}

/// `s` without its trailing white space.
pub open spec fn trimmed_end(s: Seq<char>) -> Seq<char>
    decreases s.len(),
{
    if s.len() > 0 && white_space(s.last()) {
        trimmed_end(s.drop_last())
    } else {
        s
    }
}

/// `s` without leading and trailing white space.
pub open spec fn trimmed(s: Seq<char>) -> Seq<char> {
    trimmed_end(trimmed_start(s))
}

/// Where `c` first stands in `s`, or `s.len()` where it does not.
pub open spec fn position_of(s: Seq<char>, c: char) -> int
    decreases s.len(),
{
    if s.len() == 0 || s[0] == c {
        0
    } else {
        1 + position_of(s.skip(1), c)
    }
}

/// A line without the carriage return that stood before its line feed.
pub open spec fn chomped(s: Seq<char>) -> Seq<char> {
    if s.len() > 0 && s.last() == '\r' {
        s.drop_last()
    } else {
        s
    }
}

/// The lines of `s`. A line ends with `\n` or `\r\n`; the last one may go without.
pub open spec fn lines_of(s: Seq<char>) -> Seq<Seq<char>>
    decreases s.len(),
{
    let n = position_of(s, '\n');
    if s.len() == 0 {
        seq![]
    } else if 0 <= n < s.len() {
        seq![chomped(s.take(n))] + lines_of(s.skip(n + 1))
    } else {
        seq![s]
    }
}

/// Whether `part` stands somewhere in `whole`, in one piece.
pub open spec fn has_substring(whole: Seq<char>, part: Seq<char>) -> bool {
    exists|i: int|
        0 <= i <= whole.len() - part.len() && #[trigger] whole.subrange(i, i + part.len()) == part
}

/// The order of strings by their code points, first difference first.
pub open spec fn text_le(a: Seq<char>, b: Seq<char>) -> bool
    decreases a.len(),
{
    if a.len() == 0 {
        true
    } else if b.len() == 0 {
        false
    } else if a[0] != b[0] {
        a[0] < b[0]
    } else {
        text_le(a.skip(1), b.skip(1))
    }
}

/// What a list of character vectors stands for.
pub open spec fn views(v: Seq<Vec<char>>) -> Seq<Seq<char>> {
    v.map_values(|x: Vec<char>| x@)
}

/// What a list of strings stands for.
pub open spec fn string_views(v: Seq<String>) -> Seq<Seq<char>> {
    v.map_values(|x: String| x@)
}

/// `String::push` appends one character.
pub assume_specification[ String::push ](s: &mut String, c: char)
    ensures
        final(s)@ == old(s)@.push(c),
;

/// Whether all characters are ASCII.
pub open spec fn ascii(s: Seq<char>) -> bool {
    forall|i: int| 0 <= i < s.len() ==> (#[trigger] s[i] as u32) < 0x80
}

/// The small letter of an ASCII capital; any other character as it is.
pub open spec fn ascii_lower(c: char) -> char {
    if 'A' <= c <= 'Z' {
        (c as u32 + 0x20) as char
    } else {
        c
    }
}

/// `s` with its ASCII capitals made small.
pub open spec fn ascii_lowered(s: Seq<char>) -> Seq<char> {
    s.map_values(|c: char| ascii_lower(c))
}

/// The text that `str::to_lowercase` makes of `s`: every character replaced by
/// its Unicode lower case.
pub uninterp spec fn lowercase(s: Seq<char>) -> Seq<char>;

/// Calls `str::to_lowercase`, whose result is a function of the text alone. It
/// makes nothing of nothing, and of ASCII text it changes only the letters A to Z.
#[verifier::external_body]
pub(crate) fn to_lowercase(s: &str) -> (r: String)
    ensures
        r@ == lowercase(s@),
        s@.len() == 0 ==> r@.len() == 0,
        ascii(s@) ==> r@ == ascii_lowered(s@),
{
    s.to_lowercase()
}

pub fn is_white_space(c: char) -> (b: bool)
    ensures
        b == white_space(c),
{
    let u: u32 = c as u32;
    (0x09 <= u && u <= 0x0d) || u == 0x20 || u == 0x85 || u == 0xa0 || u == 0x1680 || (0x2000 <= u
        && u <= 0x200a) || u == 0x2028 || u == 0x2029 || u == 0x202f || u == 0x205f || u == 0x3000
}

pub fn is_control(c: char) -> (b: bool)
    ensures
        b == control(c),
{
    let u: u32 = c as u32;
    u <= 0x1f || (0x7f <= u && u <= 0x9f)
}

/// The characters of `s`.
pub fn to_chars(s: &str) -> (v: Vec<char>)
    ensures
        v@ == s@,
{
    let mut v: Vec<char> = Vec::new();
    for c in it: s.chars()
        invariant
            v@ == it.seq().take(it.index() as int),
            it.seq() == s@,
    {
        v.push(c);
        assert(it.seq().take(it.index() + 1) == it.seq().take(it.index() as int).push(c));
    }
    assert(s@.take(s@.len() as int) == s@);
    v
}

/// The string made of `v`.
pub fn from_chars(v: &[char]) -> (s: String)
    ensures
        s@ == v@,
{
    let mut s = String::new();
    let mut i: usize = 0;
    while i < v.len()
        invariant
            i <= v.len(),
            s@ == v@.take(i as int),
        decreases v.len() - i,
    {
        s.push(v[i]);
        assert(v@.take(i + 1) == v@.take(i as int).push(v@[i as int]));
        i += 1;
    }
    assert(v@.take(v@.len() as int) == v@);
    s
}

/// `position_of` is the only place that can hold the first `c`.
pub proof fn position_is_first(s: Seq<char>, c: char, n: int)
    requires
        0 <= n <= s.len(),
        forall|i: int| 0 <= i < n ==> s[i] != c,
        n < s.len() ==> s[n] == c,
    ensures
        position_of(s, c) == n,
    decreases s.len(),
{
    if n > 0 {
        assert forall|i: int| 0 <= i < n - 1 implies s.skip(1)[i] != c by {
            assert(s.skip(1)[i] == s[i + 1]);
        }
        position_is_first(s.skip(1), c, n - 1);
    }
}

/// Where `c` first stands in `s`, or `s.len()` where it does not.
pub fn find(s: &[char], c: char) -> (n: usize)
    ensures
        n <= s@.len(),
        n == position_of(s@, c),
        n < s@.len() ==> s@[n as int] == c,
{
    let mut n: usize = 0;
    while n < s.len() && s[n] != c
        invariant
            n <= s@.len(),
            forall|i: int| 0 <= i < n ==> s@[i] != c,
        decreases s.len() - n,
    {
        n += 1;
    }
    proof {
        position_is_first(s@, c, n as int);
    }
    n
}

proof fn trimmed_start_skips(s: Seq<char>, n: int)
    requires
        0 <= n <= s.len(),
        forall|i: int| 0 <= i < n ==> white_space(s[i]),
        n < s.len() ==> !white_space(s[n]),
    ensures
        trimmed_start(s) == s.skip(n),
    decreases s.len(),
{
    if n > 0 {
        assert forall|i: int| 0 <= i < n - 1 implies white_space(s.skip(1)[i]) by {
            assert(s.skip(1)[i] == s[i + 1]);
        }
        trimmed_start_skips(s.skip(1), n - 1);
        assert(s.skip(1).skip(n - 1) == s.skip(n));
    } else {
        assert(s.skip(0) == s);
    }
}

proof fn trimmed_end_takes(s: Seq<char>, n: int)
    requires
        0 <= n <= s.len(),
        forall|i: int| n <= i < s.len() ==> white_space(s[i]),
        n > 0 ==> !white_space(s[n - 1]),
    ensures
        trimmed_end(s) == s.take(n),
    decreases s.len(),
{
    if n < s.len() {
        trimmed_end_takes(s.drop_last(), n);
        assert(s.drop_last().take(n) == s.take(n));
    } else {
        assert(s.take(n) == s);
    }
}

/// The part of `s` between its leading and its trailing white space.
pub fn trim(s: &[char]) -> (r: &[char])
    ensures
        r@ == trimmed(s@),
{
    let mut i: usize = 0;
    while i < s.len() && is_white_space(s[i])
        invariant
            i <= s@.len(),
            forall|k: int| 0 <= k < i ==> white_space(s@[k]),
        decreases s.len() - i,
    {
        i += 1;
    }
    let mut j: usize = s.len();
    while j > i && is_white_space(s[j - 1])
        invariant
            i <= j <= s@.len(),
            forall|k: int| j <= k < s@.len() ==> white_space(s@[k]),
        decreases j,
    {
        j -= 1;
    }
    proof {
        trimmed_start_skips(s@, i as int);
        trimmed_end_takes(s@.skip(i as int), j - i);
        assert(s@.skip(i as int).take(j - i) == s@.subrange(i as int, j as int));
    }
    vstd::slice::slice_subrange(s, i, j)
}

/// A copy of the characters of `s`.
pub fn copied(s: &[char]) -> (v: Vec<char>)
    ensures
        v@ == s@,
{
    vstd::slice::slice_to_vec(s)
}

/// The lines of `s`.
pub fn lines(s: &[char]) -> (v: Vec<Vec<char>>)
    ensures
        views(v@) == lines_of(s@),
{
    let mut out: Vec<Vec<char>> = Vec::new();
    let mut rest: &[char] = s;
    while rest.len() > 0
        invariant
            views(out@) + lines_of(rest@) == lines_of(s@),
        decreases rest@.len(),
    {
        let n: usize = find(rest, '\n');
        let ghost before = views(out@);
        if n < rest.len() {
            let end: usize = if n > 0 && rest[n - 1] == '\r' {
                n - 1
            } else {
                n
            };
            let line = copied(vstd::slice::slice_subrange(rest, 0, end));
            assert(line@ == chomped(rest@.take(n as int)));
            out.push(line);
            assert(views(out@) == before.push(chomped(rest@.take(n as int))));
            rest = vstd::slice::slice_subrange(rest, n + 1, rest.len());
        } else {
            out.push(copied(rest));
            assert(views(out@) == before.push(rest@));
            rest = vstd::slice::slice_subrange(rest, n, rest.len());
        }
    }
    assert(lines_of(rest@) == Seq::<Seq<char>>::empty());
    out
}

/// Whether `a` is the text `b`.
pub fn is_text(a: &[char], b: &str) -> (r: bool)
    ensures
        r == (a@ == b@),
{
    let t = to_chars(b);
    if a.len() != t.len() {
        return false;
    }
    let mut i: usize = 0;
    while i < a.len()
        invariant
            i <= a@.len(),
            t@ == b@,
            a@.len() == t@.len(),
            a@.take(i as int) == t@.take(i as int),
        decreases a.len() - i,
    {
        if a[i] != t[i] {
            assert(a@[i as int] != t@[i as int]);
            return false;
        }
        assert(a@.take(i + 1) == a@.take(i as int).push(a@[i as int]));
        assert(t@.take(i + 1) == t@.take(i as int).push(t@[i as int]));
        i += 1;
    }
    assert(a@.take(i as int) == a@);
    assert(t@.take(i as int) == t@);
    true
}

fn fold_ascii(c: char) -> (u: u32)
    ensures
        u == ascii_folded(c),
{
    let u: u32 = c as u32;
    if 0x41 <= u && u <= 0x5a {
        u + 0x20
    } else {
        u
    }
}

/// Whether `a` is the text `b` up to the case of ASCII letters.
pub fn is_text_ignoring_case(a: &[char], b: &str) -> (r: bool)
    ensures
        r == same_ignoring_case(a@, b@),
{
    let t = to_chars(b);
    if a.len() != t.len() {
        return false;
    }
    let mut i: usize = 0;
    while i < a.len()
        invariant
            i <= a@.len(),
            t@ == b@,
            a@.len() == t@.len(),
            forall|k: int| 0 <= k < i ==> ascii_folded(#[trigger] a@[k]) == ascii_folded(t@[k]),
        decreases a.len() - i,
    {
        if fold_ascii(a[i]) != fold_ascii(t[i]) {
            return false;
        }
        i += 1;
    }
    true
}

/// Whether `part` stands in `whole` at `i`.
fn stands_at(whole: &[char], part: &[char], i: usize) -> (r: bool)
    requires
        i + part@.len() <= whole@.len(),
    ensures
        r == (whole@.subrange(i as int, i + part@.len()) == part@),
{
    let mut k: usize = 0;
    while k < part.len()
        invariant
            k <= part@.len(),
            i + part@.len() <= whole.len(),
            forall|m: int| 0 <= m < k ==> whole@[i + m] == part@[m],
        decreases part.len() - k,
    {
        if whole[i + k] != part[k] {
            assert(whole@.subrange(i as int, i + part@.len())[k as int] != part@[k as int]);
            return false;
        }
        k += 1;
    }
    assert(whole@.subrange(i as int, i + part@.len()) == part@);
    true
}

/// Whether `part` stands somewhere in `whole`.
pub fn contains(whole: &[char], part: &[char]) -> (r: bool)
    ensures
        r == has_substring(whole@, part@),
{
    if part.len() > whole.len() {
        return false;
    }
    let last: usize = whole.len() - part.len();
    let mut i: usize = 0;
    while i <= last
        invariant
            last == whole@.len() - part@.len(),
            i <= last + 1,
            forall|k: int|
                0 <= k < i ==> #[trigger] whole@.subrange(k, k + part@.len()) != part@,
        decreases last + 1 - i,
    {
        if stands_at(whole, part, i) {
            return true;
        }
        if i == last {
            return false;
        }
        i += 1;
    }
    false
}

proof fn text_le_prefix(a: Seq<char>, b: Seq<char>, n: int)
    requires
        0 <= n <= a.len(),
        n <= b.len(),
        forall|i: int| 0 <= i < n ==> a[i] == b[i],
    ensures
        text_le(a, b) == text_le(a.skip(n), b.skip(n)),
    decreases n,
{
    if n == 0 {
        assert(a.skip(0) == a);
        assert(b.skip(0) == b);
    } else {
        assert forall|i: int| 0 <= i < n - 1 implies a.skip(1)[i] == b.skip(1)[i] by {
            assert(a.skip(1)[i] == a[i + 1]);
            assert(b.skip(1)[i] == b[i + 1]);
        }
        text_le_prefix(a.skip(1), b.skip(1), n - 1);
        assert(a.skip(1).skip(n - 1) == a.skip(n));
        assert(b.skip(1).skip(n - 1) == b.skip(n));
    }
}

/// Whether `a` comes no later than `b`.
pub fn is_le(a: &[char], b: &[char]) -> (r: bool)
    ensures
        r == text_le(a@, b@),
{
    let mut i: usize = 0;
    while i < a.len() && i < b.len() && a[i] == b[i]
        invariant
            i <= a@.len(),
            i <= b@.len(),
            forall|k: int| 0 <= k < i ==> a@[k] == b@[k],
        decreases a.len() - i,
    {
        i += 1;
    }
    proof {
        text_le_prefix(a@, b@, i as int);
    }
    if i == a.len() {
        true
    } else if i == b.len() {
        false
    } else {
        a[i] < b[i]
    }
}

/// Any two texts are ordered.
pub proof fn text_le_total(a: Seq<char>, b: Seq<char>)
    ensures
        text_le(a, b) || text_le(b, a),
    decreases a.len(),
{
    if a.len() > 0 && b.len() > 0 && a[0] == b[0] {
        text_le_total(a.skip(1), b.skip(1));
    }
}

/// The order of texts is transitive.
pub proof fn text_le_transitive(a: Seq<char>, b: Seq<char>, c: Seq<char>)
    requires
        text_le(a, b),
        text_le(b, c),
    ensures
        text_le(a, c),
    decreases a.len(),
{
    if a.len() > 0 && a[0] == b[0] && b[0] == c[0] {
        text_le_transitive(a.skip(1), b.skip(1), c.skip(1));
    }
}

/// Two texts that each come no later than the other are one text.
pub proof fn text_le_antisymmetric(a: Seq<char>, b: Seq<char>)
    requires
        text_le(a, b),
        text_le(b, a),
    ensures
        a == b,
    decreases a.len(),
{
    if a.len() > 0 && b.len() > 0 {
        text_le_antisymmetric(a.skip(1), b.skip(1));
        assert(a == seq![a[0]] + a.skip(1));
        assert(b == seq![b[0]] + b.skip(1));
    }
}

/// Trimming leaves nothing to trim.
pub proof fn trimmed_is_trimmed(s: Seq<char>)
    ensures
        trimmed(s).len() > 0 ==> !white_space(trimmed(s)[0]) && !white_space(trimmed(s).last()),
        trimmed(trimmed(s)) == trimmed(s),
{
    trimmed_start_ends(s);
    trimmed_end_starts(trimmed_start(s));
    let t = trimmed(s);
    assert(trimmed_start(t) == t);
    assert(trimmed_end(t) == t);
}

proof fn trimmed_start_ends(s: Seq<char>)
    ensures
        trimmed_start(s).len() > 0 ==> !white_space(trimmed_start(s)[0]),
    decreases s.len(),
{
    if s.len() > 0 && white_space(s[0]) {
        trimmed_start_ends(s.skip(1));
    }
}

proof fn trimmed_end_starts(s: Seq<char>)
    ensures
        trimmed_end(s).len() > 0 ==> !white_space(trimmed_end(s).last()),
        trimmed_end(s).len() > 0 ==> trimmed_end(s)[0] == s[0],
    decreases s.len(),
{
    if s.len() > 0 && white_space(s.last()) {
        trimmed_end_starts(s.drop_last());
    }
}

/// White space around a text that neither begins nor ends with any goes, and nothing
/// else.
pub proof fn trimming_removes_white_space_around(a: Seq<char>, t: Seq<char>, b: Seq<char>)
    requires
        forall|i: int| 0 <= i < a.len() ==> white_space(#[trigger] a[i]),
        forall|i: int| 0 <= i < b.len() ==> white_space(#[trigger] b[i]),
        t.len() > 0 ==> !white_space(t[0]) && !white_space(t.last()),
    ensures
        trimmed(a + t + b) == t,
{
    let s = a + t + b;
    if t.len() == 0 {
        assert forall|i: int| 0 <= i < s.len() implies white_space(#[trigger] s[i]) by {
            if i < a.len() {
                assert(s[i] == a[i]);
            } else {
                assert(s[i] == b[i - a.len()]);
            }
        }
        trimmed_start_skips(s, s.len() as int);
        assert(s.skip(s.len() as int) == t);
    } else {
        assert(forall|i: int| 0 <= i < a.len() ==> #[trigger] s[i] == a[i]);
        trimmed_start_skips(s, a.len() as int);
        let r = s.skip(a.len() as int);
        assert(r == t + b);
        assert(forall|i: int| t.len() <= i < r.len() ==> #[trigger] r[i] == b[i - t.len()]);
        trimmed_end_takes(r, t.len() as int);
        assert(r.take(t.len() as int) == t);
    }
}

/// A character is found behind what does not hold it, and nowhere in that.
pub proof fn position_is_behind_what_lacks_it(a: Seq<char>, c: char, b: Seq<char>)
    requires
        !a.contains(c),
    ensures
        position_of(a + seq![c] + b, c) == a.len(),
        position_of(a, c) == a.len(),
{
    let s = a + seq![c] + b;
    assert forall|i: int| 0 <= i < a.len() implies #[trigger] s[i] != c by {
        assert(a.contains(a[i]));
    }
    assert forall|i: int| 0 <= i < a.len() implies #[trigger] a[i] != c by {
        assert(a.contains(a[i]));
    }
    assert(s[a.len() as int] == c);
    position_is_first(s, c, a.len() as int);
    position_is_first(a, c, a.len() as int);
}

/// A line feed, or a carriage return and a line feed, ends a line; the rest has its
/// own lines, and without a line feed there is one line, unless there is nothing.
pub proof fn line_feeds_end_lines(a: Seq<char>, b: Seq<char>)
    requires
        !a.contains('\n'),
    ensures
        a.len() == 0 || a.last() != '\r' ==> lines_of(a + seq!['\n'] + b) == seq![a] + lines_of(b),
        lines_of(a + seq!['\r', '\n'] + b) == seq![a] + lines_of(b),
        a.len() > 0 ==> lines_of(a) == seq![a],
        lines_of(Seq::empty()) == Seq::<Seq<char>>::empty(),
{
    position_is_behind_what_lacks_it(a, '\n', b);
    let s = a + seq!['\n'] + b;
    assert(s.take(a.len() as int) == a);
    assert(s.skip(a.len() as int + 1) == b);
    let c = a.push('\r');
    assert(!c.contains('\n')) by {
        assert forall|i: int| 0 <= i < c.len() implies c[i] != '\n' by {
            if i < a.len() {
                assert(a.contains(a[i]));
            }
        }
    }
    position_is_behind_what_lacks_it(c, '\n', b);
    let t = a + seq!['\r', '\n'] + b;
    assert(t == c + seq!['\n'] + b);
    assert(t.take(c.len() as int) == c);
    assert(c.drop_last() == a);
    assert(t.skip(c.len() as int + 1) == b);
}

/// A text holds whatever it is put together of, and what it holds it can be taken
/// apart around.
pub proof fn substrings_are_parts(whole: Seq<char>, a: Seq<char>, part: Seq<char>, b: Seq<char>)
    ensures
        has_substring(a + part + b, part),
        has_substring(whole, part) ==> exists|x: Seq<char>, y: Seq<char>|
            whole == #[trigger] (x + part + y),
{
    let s = a + part + b;
    assert(s.subrange(a.len() as int, a.len() as int + part.len()) == part);
    if has_substring(whole, part) {
        let i = choose|i: int|
            0 <= i <= whole.len() - part.len() && #[trigger] whole.subrange(i, i + part.len())
                == part;
        let x = whole.take(i);
        let y = whole.skip(i + part.len());
        assert(whole == x + part + y);
    }
}

/// Behind what two texts have in common, the first difference decides their order, and
/// a text comes before what goes on behind it.
pub proof fn first_difference_decides(
    p: Seq<char>,
    x: char,
    a: Seq<char>,
    y: char,
    b: Seq<char>,
)
    requires
        x < y,
    ensures
        text_le(p + seq![x] + a, p + seq![y] + b),
        !text_le(p + seq![y] + b, p + seq![x] + a),
        text_le(p, p + a),
        a.len() > 0 ==> !text_le(p + a, p),
    decreases p.len(),
{
    if p.len() > 0 {
        let q = p.skip(1);
        first_difference_decides(q, x, a, y, b);
        assert((p + seq![x] + a).skip(1) == q + seq![x] + a);
        assert((p + seq![y] + b).skip(1) == q + seq![y] + b);
        assert((p + a).skip(1) == q + a);
    } else {
        assert(p + a == a);
        assert((p + seq![x] + a)[0] == x && (p + seq![y] + b)[0] == y);
    }
}

/// Two texts are the same without regard to case if their ASCII capitals made small
/// leave no difference.
pub proof fn case_is_that_of_ascii_letters(a: Seq<char>, b: Seq<char>)
    ensures
        same_ignoring_case(a, b) <==> ascii_lowered(a) == ascii_lowered(b),
{
    if same_ignoring_case(a, b) {
        assert forall|i: int| 0 <= i < a.len() implies ascii_lowered(a)[i] == ascii_lowered(b)[i] by {
            assert(ascii_folded(a[i]) == ascii_folded(b[i]));
        }
        assert(ascii_lowered(a) == ascii_lowered(b));
    }
    if ascii_lowered(a) == ascii_lowered(b) {
        assert(ascii_lowered(a).len() == a.len() && ascii_lowered(b).len() == b.len());
        assert forall|i: int| 0 <= i < a.len() implies ascii_folded(#[trigger] a[i])
            == ascii_folded(b[i]) by {
            assert(ascii_lowered(a)[i] == ascii_lowered(b)[i]);
        }
    }
}

/// Lines that are written one below the other are read as they are.
pub proof fn written_lines_are_read(lines: Seq<Seq<char>>)
    requires
        forall|i: int|
            0 <= i < lines.len() ==> !(#[trigger] lines[i]).contains('\n') && (lines[i].len() == 0
                || lines[i].last() != '\r'),
    ensures
        lines_of(lines.map_values(|l: Seq<char>| l.push('\n')).flatten()) == lines,
    decreases lines.len(),
{
    let written = lines.map_values(|l: Seq<char>| l.push('\n'));
    if lines.len() > 0 {
        let rest = lines.drop_first();
        assert(written.drop_first() == rest.map_values(|l: Seq<char>| l.push('\n')));
        written_lines_are_read(rest);
        let below = written.drop_first().flatten();
        line_feeds_end_lines(lines[0], below);
        assert(written.flatten() == lines[0] + seq!['\n'] + below);
        assert(seq![lines[0]] + rest == lines);
    } else {
        line_feeds_end_lines(Seq::empty(), Seq::empty());
        assert(written.flatten() == Seq::<char>::empty());
        assert(lines == Seq::<Seq<char>>::empty());
    }
}

/// A list stands for its texts, one for one.
pub proof fn lists_stand_for_their_texts(v: Seq<String>, w: Seq<Vec<char>>, i: int)
    ensures
        string_views(v).len() == v.len(),
        0 <= i < v.len() ==> string_views(v)[i] == v[i]@,
        views(w).len() == w.len(),
        0 <= i < w.len() ==> views(w)[i] == w[i]@,
{
}

} // verus!
