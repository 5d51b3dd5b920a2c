//! The menu: what is typed, what matches it, what is selected and what comes of
//! it in the end.

use vstd::prelude::*;

use crate::paint::{
    at, at_bound, channel, fill_rect, holds, inside, paint_solid, LINE_HEIGHT, PAD_Y,
};
use crate::text::{
    ascii, ascii_lowered, contains, control, from_chars, has_substring, is_control, lines,
    lines_of, lowercase, string_views, substrings_are_parts, to_chars, to_lowercase, views,
    written_lines_are_read,
};

verus! {

/// The most items that are shown at once.
pub const MAX_VISIBLE_ITEMS: usize = 14;

/// The background colour.
pub const BG: u32 = 0xff1e_1e2e;

/// The background colour of the selected row.
pub const SEL_BG: u32 = 0xff45_475a;

/// Key symbols, as X and Wayland keyboards report them.
pub const KEY_ESCAPE: u32 = 0xff1b;

pub const KEY_RETURN: u32 = 0xff0d;

pub const KEY_KP_ENTER: u32 = 0xff8d;

pub const KEY_BACKSPACE: u32 = 0xff08;

pub const KEY_UP: u32 = 0xff52;

pub const KEY_DOWN: u32 = 0xff54;

pub const KEY_PAGE_UP: u32 = 0xff55;

pub const KEY_PAGE_DOWN: u32 = 0xff56;

pub const KEY_BRACKETLEFT: u32 = 0x5b;

pub const KEY_C: u32 = 0x63;

pub const KEY_N: u32 = 0x6e;

pub const KEY_P: u32 = 0x70;

pub const KEY_U: u32 = 0x75;

pub const KEY_W: u32 = 0x77;

/// Whether an item matches what was typed: somewhere in it, in any case.
pub open spec fn matches(item: Seq<char>, query: Seq<char>) -> bool {
    has_substring(lowercase(item), lowercase(query))
}

/// The numbers of the texts that `part` stands somewhere in, in order.
pub open spec fn containing(texts: Seq<Seq<char>>, part: Seq<char>) -> Seq<int>
    decreases texts.len(),
{
    if texts.len() == 0 {
        seq![]
    } else if has_substring(texts.last(), part) {
        containing(texts.drop_last(), part).push(texts.len() - 1)
    } else {
        containing(texts.drop_last(), part)
    }
}

/// The numbers of the items that match what was typed, in order.
pub open spec fn matching(items: Seq<Seq<char>>, query: Seq<char>) -> Seq<int>
    decreases items.len(),
{
    if items.len() == 0 {
        seq![]
    } else if matches(items.last(), query) {
        matching(items.drop_last(), query).push(items.len() - 1)
    } else {
        matching(items.drop_last(), query)
    }
}

/// `s` without its control characters.
pub open spec fn printable(s: Seq<char>) -> Seq<char>
    decreases s.len(),
{
    if s.len() == 0 {
        seq![]
    } else if control(s.last()) {
        printable(s.drop_last())
    } else {
        printable(s.drop_last()).push(s.last())
    }
}

/// `s` without the spaces at its end.
pub open spec fn without_spaces(s: Seq<char>) -> Seq<char>
    decreases s.len(),
{
    if s.len() > 0 && s.last() == ' ' {
        without_spaces(s.drop_last())
    } else {
        s
    }
}

/// `s` without what follows its last space.
pub open spec fn without_word(s: Seq<char>) -> Seq<char>
    decreases s.len(),
{
    if s.len() > 0 && s.last() != ' ' {
        without_word(s.drop_last())
    } else {
        s
    }
}

/// The lines below the prompt: one for each item of `shown`.
pub open spec fn item_lines(items: Seq<Seq<char>>, shown: Seq<int>) -> Seq<char>
    decreases shown.len(),
{
    if shown.len() == 0 {
        seq![]
    } else {
        item_lines(items, shown.drop_last()).push('\n') + items[shown.last()]
    }
}

/// What a menu stands for.
#[verifier::ext_equal]
pub struct MenuView {
    pub items: Seq<Seq<char>>,
    /// What each item means.
    pub actions: Seq<Seq<char>>,
    /// Whether a query that matches nothing counts as a choice.
    pub allow_custom: bool,
    pub query: Seq<char>,
    /// The items that match.
    pub filtered: Seq<int>,
    /// Which of them is selected.
    pub selected: int,
    /// Which of them is in the first row.
    pub scroll: int,
    pub width: u32,
    pub height: u32,
    pub configured: bool,
    pub exit: bool,
    pub result: Option<Seq<char>>,
}

impl MenuView {
    /// Every item has an action, the matches are those of the query, and the
    /// selection is one of them and in view.
    pub open spec fn wf(self) -> bool {
        &&& self.actions.len() == self.items.len()
        &&& self.filtered == matching(self.items, self.query)
        &&& if self.filtered.len() == 0 {
            self.selected == 0 && self.scroll == 0
        } else {
            &&& 0 <= self.scroll <= self.selected < self.scroll + MAX_VISIBLE_ITEMS
            &&& self.selected < self.filtered.len()
        }
    }

    /// With another query, and the first match selected.
    pub open spec fn with_query(self, query: Seq<char>) -> MenuView {
        MenuView {
            query,
            filtered: matching(self.items, query),
            selected: 0,
            scroll: 0,
            ..self
        }
    }

    /// The match that is `delta` away from the selected one, or the first or last
    /// if there is none so far away.
    pub open spec fn selection_after(self, delta: int) -> int {
        let to = self.selected + delta;
        if to < 0 {
            0
        } else if to >= self.filtered.len() {
            self.filtered.len() - 1
        } else {
            to
        }
    }

    /// With the selection moved, and the list scrolled no further than it takes
    /// to keep the selection in view.
    pub open spec fn moved(self, delta: int) -> MenuView {
        let to = self.selection_after(delta);
        if self.filtered.len() == 0 {
            self
        } else if to < self.scroll {
            MenuView { selected: to, scroll: to, ..self }
        } else if to >= self.scroll + MAX_VISIBLE_ITEMS {
            MenuView { selected: to, scroll: to + 1 - MAX_VISIBLE_ITEMS, ..self }
        } else {
            MenuView { selected: to, ..self }
        }
    }

    /// Whether there is nothing to confirm: no item matches, and nothing else may
    /// be chosen.
    pub open spec fn stuck(self) -> bool {
        self.selected >= self.filtered.len() && !self.allow_custom
    }

    /// Closed with a choice: the selected item's action or, where nothing matches
    /// and custom input is allowed, what was typed. Where there is nothing to
    /// confirm, nothing happens.
    pub open spec fn confirmed(self) -> MenuView {
        let result = if self.selected < self.filtered.len() {
            Some(self.actions[self.filtered[self.selected]])
        } else if self.query.len() > 0 {
            Some(self.query)
        } else {
            self.result
        };
        if self.stuck() {
            self
        } else {
            MenuView { exit: true, result, ..self }
        }
    }

    /// Closed without a choice.
    pub open spec fn cancelled(self) -> MenuView {
        MenuView { exit: true, ..self }
    }

    /// What a key does. `text` is what the key types, if it types anything.
    pub open spec fn pressed(self, key: u32, ctrl: bool, text: Option<Seq<char>>) -> MenuView {
        if key == KEY_ESCAPE {
            self.cancelled()
        } else if key == KEY_RETURN || key == KEY_KP_ENTER {
            self.confirmed()
        } else if key == KEY_BACKSPACE {
            self.with_query(
                if self.query.len() > 0 {
                    self.query.drop_last()
                } else {
                    self.query
                },
            )
        } else if key == KEY_UP {
            self.moved(-1)
        } else if key == KEY_DOWN {
            self.moved(1)
        } else if key == KEY_PAGE_UP {
            self.moved(-MAX_VISIBLE_ITEMS)
        } else if key == KEY_PAGE_DOWN {
            self.moved(MAX_VISIBLE_ITEMS as int)
        } else if ctrl {
            if key == KEY_P {
                self.moved(-1)
            } else if key == KEY_N {
                self.moved(1)
            } else if key == KEY_C || key == KEY_BRACKETLEFT {
                self.cancelled()
            } else if key == KEY_U {
                self.with_query(seq![])
            } else if key == KEY_W {
                self.with_query(without_word(without_spaces(self.query)))
            } else {
                self
            }
        } else {
            match text {
                Some(t) => self.with_query(self.query + printable(t)),
                None => self,
            }
        }
    }

    /// The matches that are in view.
    pub open spec fn shown(self) -> Seq<int> {
        let end = if self.scroll + MAX_VISIBLE_ITEMS < self.filtered.len() {
            self.scroll + MAX_VISIBLE_ITEMS
        } else {
            self.filtered.len() as int
        };
        self.filtered.subrange(self.scroll, end)
    }

    /// The text of the menu: the prompt with what was typed, and the matches in
    /// view below it.
    pub open spec fn text(self) -> Seq<char> {
        "> "@ + self.query + item_lines(self.items, self.shown())
    }

    /// Whether row `py` of the picture belongs to the selected item.
    pub open spec fn highlights(self, py: int) -> bool {
        let top = PAD_Y + (self.selected - self.scroll + 1) * LINE_HEIGHT;
        self.filtered.len() > 0 && top <= py < top + LINE_HEIGHT
    }
}

/// Whether a key has a meaning of its own, whatever it types.
pub open spec fn has_fixed_meaning(key: u32) -> bool {
    ||| key == KEY_ESCAPE
    ||| key == KEY_RETURN
    ||| key == KEY_KP_ENTER
    ||| key == KEY_BACKSPACE
    ||| key == KEY_UP
    ||| key == KEY_DOWN
    ||| key == KEY_PAGE_UP
    ||| key == KEY_PAGE_DOWN
}

/// Whether a key confirms the selection.
pub open spec fn confirms(key: u32) -> bool {
    key == KEY_RETURN || key == KEY_KP_ENTER
}

/// Whether a key cancels the menu.
pub open spec fn cancels(key: u32, ctrl: bool) -> bool {
    key == KEY_ESCAPE || (!has_fixed_meaning(key) && ctrl && (key == KEY_C || key
        == KEY_BRACKETLEFT))
}

/// What filtering gives where it takes no knowledge of other alphabets: without a
/// query every item matches, and ASCII texts match as their small letters do.
pub open spec fn filters_plainly(m: MenuView) -> bool {
    &&& m.query.len() == 0 ==> m.filtered == Seq::new(m.items.len(), |i: int| i)
    &&& ascii(m.query) && (forall|i: int| 0 <= i < m.items.len() ==> ascii(#[trigger] m.items[i]))
        ==> m.filtered == containing(
        m.items.map_values(|t: Seq<char>| ascii_lowered(t)),
        ascii_lowered(m.query),
    )
}

/// The non-empty ones of `lines`.
pub open spec fn non_empty(lines: Seq<Seq<char>>) -> Seq<Seq<char>>
    decreases lines.len(),
{
    if lines.len() == 0 {
        seq![]
    } else if lines.last().len() == 0 {
        non_empty(lines.drop_last())
    } else {
        non_empty(lines.drop_last()).push(lines.last())
    }
}

/// The height of a menu with `n` items, in pixels: a row for the prompt, one for
/// each item up to the limit, and the padding.
pub open spec fn height_for(n: int) -> int {
    let rows = if n < MAX_VISIBLE_ITEMS {
        1 + n
    } else {
        1 + MAX_VISIBLE_ITEMS
    };
    rows * LINE_HEIGHT + 2 * PAD_Y
}

/// The state of the menu.
pub struct Qmenu {
    items: Vec<String>,
    /// Parallel to `items`: what choosing an item yields.
    actions: Vec<String>,
    /// Whether a query that matches nothing is itself a choice (dmenu), or
    /// confirming it does nothing (drun, where only applications can be chosen).
    allow_custom: bool,
    query: String,
    filtered: Vec<usize>,
    selected: usize,
    scroll: usize,
    width: u32,
    height: u32,
    configured: bool,
    exit: bool,
    result: Option<String>,
}

spec fn numbers(v: Seq<usize>) -> Seq<int> {
    v.map_values(|n: usize| n as int)
}

impl View for Qmenu {
    type V = MenuView;

    closed spec fn view(&self) -> MenuView {
        MenuView {
            items: string_views(self.items@),
            actions: string_views(self.actions@),
            allow_custom: self.allow_custom,
            query: self.query@,
            filtered: numbers(self.filtered@),
            selected: self.selected as int,
            scroll: self.scroll as int,
            width: self.width,
            height: self.height,
            configured: self.configured,
            exit: self.exit,
            result: match self.result {
                Some(r) => Some(r@),
                None => None,
            },
        }
    }
}

/// An item matches if and only if its number is among the matches.
pub proof fn matching_is_complete(items: Seq<Seq<char>>, query: Seq<char>, i: int)
    ensures
        matching(items, query).contains(i) <==> 0 <= i < items.len() && matches(items[i], query),
    decreases items.len(),
{
    if items.len() > 0 {
        let rest = matching(items.drop_last(), query);
        let all = matching(items, query);
        matching_is_complete(items.drop_last(), query, i);
        if rest.contains(i) {
            let k = choose|k: int| 0 <= k < rest.len() && rest[k] == i;
            assert(all[k] == i);
        }
        if all.contains(i) && i != items.len() - 1 {
            let k = choose|k: int| 0 <= k < all.len() && all[k] == i;
            assert(rest[k] == i);
        }
        if i == items.len() - 1 {
            if matches(items[i], query) {
                assert(all.last() == i);
            } else if rest.contains(i) {
                assert(i < items.drop_last().len());
            }
        }
    }
}

/// The matches are in the order of the items, each once.
pub proof fn matching_is_ascending(items: Seq<Seq<char>>, query: Seq<char>)
    ensures
        forall|j: int, k: int|
            0 <= j < k < matching(items, query).len() ==> matching(items, query)[j] < matching(
                items,
                query,
            )[k],
        forall|j: int|
            0 <= j < matching(items, query).len() ==> 0 <= #[trigger] matching(items, query)[j]
                < items.len(),
    decreases items.len(),
{
    if items.len() > 0 {
        matching_is_ascending(items.drop_last(), query);
        let rest = matching(items.drop_last(), query);
        let all = matching(items, query);
        assert(forall|j: int| 0 <= j < rest.len() ==> #[trigger] all[j] == rest[j]);
        assert(forall|j: int| rest.len() <= j < all.len() ==> #[trigger] all[j] == items.len() - 1);
    }
}

/// To match is to contain, all in lower case.
proof fn matching_is_containing(items: Seq<Seq<char>>, query: Seq<char>)
    ensures
        matching(items, query) == containing(
            items.map_values(|t: Seq<char>| lowercase(t)),
            lowercase(query),
        ),
    decreases items.len(),
{
    let lower = items.map_values(|t: Seq<char>| lowercase(t));
    if items.len() > 0 {
        assert(lower.drop_last() == items.drop_last().map_values(|t: Seq<char>| lowercase(t)));
        matching_is_containing(items.drop_last(), query);
    }
}

/// The numbers of the texts that `part` stands somewhere in, in order.
pub fn filter(texts: &Vec<Vec<char>>, part: &[char]) -> (v: Vec<usize>)
    ensures
        v@.map_values(|n: usize| n as int) == containing(views(texts@), part@),
        part@.len() == 0 ==> v@.map_values(|n: usize| n as int) == Seq::new(
            texts@.len(),
            |i: int| i,
        ),
{
    let ghost all = views(texts@);
    let mut v: Vec<usize> = Vec::new();
    let mut i: usize = 0;
    assert(numbers(v@) == containing(all.take(0), part@));
    while i < texts.len()
        invariant
            i <= texts@.len(),
            all == views(texts@),
            numbers(v@) == containing(all.take(i as int), part@),
            part@.len() == 0 ==> numbers(v@) == Seq::new(i as nat, |n: int| n),
        decreases texts.len() - i,
    {
        let ghost next = all.take(i + 1);
        let ghost found = numbers(v@);
        assert(next.drop_last() == all.take(i as int));
        assert(next.last() == texts@[i as int]@);
        assert(part@.len() == 0 ==> next.last().subrange(0, 0 + part@.len() as int) == part@);
        if part.len() == 0 || contains(texts[i].as_slice(), part) {
            v.push(i);
            assert(numbers(v@) == found.push(i as int));
        }
        i += 1;
    }
    assert(all.take(i as int) == all);
    v
}

impl Qmenu {
    pub open spec fn wf(&self) -> bool {
        self@.wf() && filters_plainly(self@)
    }

    /// Filters the items anew and selects the first match.
    pub fn recompute_filter(&mut self)
        requires
            old(self)@.actions.len() == old(self)@.items.len(),
        ensures
            final(self)@ == old(self)@.with_query(old(self)@.query),
            final(self).wf(),
    {
        let ghost before = self@;
        let ghost lower = before.items.map_values(|t: Seq<char>| lowercase(t));
        let mut texts: Vec<Vec<char>> = Vec::new();
        let mut i: usize = 0;
        while i < self.items.len()
            invariant
                self@ == before,
                i <= self.items@.len(),
                lower == before.items.map_values(|t: Seq<char>| lowercase(t)),
                views(texts@) == lower.take(i as int),
                forall|j: int|
                    0 <= j < i && ascii(#[trigger] before.items[j]) ==> lower[j] == ascii_lowered(
                        before.items[j],
                    ),
            decreases self.items.len() - i,
        {
            let ghost listed = views(texts@);
            let item = to_lowercase(self.items[i].as_str());
            texts.push(to_chars(item.as_str()));
            assert(views(texts@) == listed.push(lower[i as int]));
            i += 1;
        }
        assert(views(texts@) == lower);
        let query = to_lowercase(self.query.as_str());
        let part = to_chars(query.as_str());
        let filtered = filter(&texts, part.as_slice());
        proof {
            matching_is_containing(before.items, before.query);
            assert(lower.len() == before.items.len());
            assert(texts@.len() == views(texts@).len());
            if forall|j: int| 0 <= j < before.items.len() ==> ascii(#[trigger] before.items[j]) {
                assert(lower == before.items.map_values(|t: Seq<char>| ascii_lowered(t)));
            }
        }
        self.filtered = filtered;
        self.selected = 0;
        self.scroll = 0;
        assert(self@ =~= before.with_query(before.query));
    }

    /// Moves the selection by `delta` matches, as far as there are any, and keeps
    /// it in view.
    pub fn move_selection(&mut self, delta: isize)
        requires
            old(self).wf(),
        ensures
            final(self)@ == old(self)@.moved(delta as int),
            final(self).wf(),
    {
        let ghost before = self@;
        if self.filtered.len() == 0 {
            return;
        }
        let len: i128 = self.filtered.len() as i128;
        let mut sel: i128 = self.selected as i128 + delta as i128;
        if sel < 0 {
            sel = 0;
        }
        if sel >= len {
            sel = len - 1;
        }
        self.selected = sel as usize;
        if self.selected < self.scroll {
            self.scroll = self.selected;
        } else if self.selected - self.scroll >= MAX_VISIBLE_ITEMS {
            self.scroll = self.selected - (MAX_VISIBLE_ITEMS - 1);
        }
        assert(self@ =~= before.moved(delta as int));
    }

    /// Closes the menu with a choice, if there is anything to choose.
    pub fn confirm(&mut self)
        requires
            old(self).wf(),
        ensures
            final(self)@ == old(self)@.confirmed(),
            final(self).wf(),
    {
        let ghost before = self@;
        if self.selected >= self.filtered.len() && !self.allow_custom {
            return;
        }
        if self.selected < self.filtered.len() {
            let idx: usize = self.filtered[self.selected];
            proof {
                matching_is_ascending(before.items, before.query);
                assert(before.filtered[before.selected] == idx);
            }
            let action = self.actions[idx].clone();
            assert(before.actions[idx as int] == action@);
            self.result = Some(action);
        } else if !self.query.as_str().is_empty() {
            self.result = Some(self.query.clone());
        }
        self.exit = true;
        assert(self@ =~= before.confirmed());
    }
}

/// The height of a menu with `n` items, in pixels.
pub fn bar_height(n: usize) -> (h: u32)
    ensures
        h == height_for(n as int),
{
    let items: u32 = if n < MAX_VISIBLE_ITEMS {
        n as u32
    } else {
        MAX_VISIBLE_ITEMS as u32
    };
    (1 + items) * LINE_HEIGHT as u32 + 2 * PAD_Y as u32
}

/// The items that dmenu mode reads: the non-empty lines of its input.
pub fn read_items(input: &str) -> (v: Vec<String>)
    ensures
        string_views(v@) == non_empty(lines_of(input@)),
{
    let chars = to_chars(input);
    let all = lines(chars.as_slice());
    let ghost lines = lines_of(input@);
    let mut v: Vec<String> = Vec::new();
    let mut i: usize = 0;
    assert(lines.take(0).len() == 0);
    assert(string_views(v@) == non_empty(lines.take(0)));
    while i < all.len()
        invariant
            i <= all@.len(),
            views(all@) == lines,
            string_views(v@) == non_empty(lines.take(i as int)),
        decreases all.len() - i,
    {
        let ghost before = string_views(v@);
        let ghost next = lines.take(i + 1);
        assert(next.drop_last() == lines.take(i as int));
        assert(next.last() == all@[i as int]@);
        if all[i].len() > 0 {
            v.push(from_chars(all[i].as_slice()));
            assert(string_views(v@) == before.push(all@[i as int]@));
        }
        i += 1;
    }
    assert(lines.take(i as int) == lines);
    v
}

impl Qmenu {
    /// A menu of `items` and what each means, with nothing typed yet.
    pub fn new(items: Vec<String>, actions: Vec<String>, allow_custom: bool) -> (m: Qmenu)
        requires
            items@.len() == actions@.len(),
        ensures
            m.wf(),
            m@ == (MenuView {
                items: string_views(items@),
                actions: string_views(actions@),
                allow_custom,
                query: seq![],
                filtered: Seq::new(items@.len(), |i: int| i),
                selected: 0,
                scroll: 0,
                width: 0,
                height: height_for(items@.len() as int) as u32,
                configured: false,
                exit: false,
                result: None,
            }),
    {
        let height: u32 = bar_height(items.len());
        let mut m = Qmenu {
            items,
            actions,
            allow_custom,
            query: String::new(),
            filtered: Vec::new(),
            selected: 0,
            scroll: 0,
            width: 0,
            height,
            configured: false,
            exit: false,
            result: None,
        };
        m.recompute_filter();
        m
    }

    /// The menu of dmenu mode: each non-empty line of the input is an item and
    /// means itself, and anything else may be typed too.
    pub fn dmenu(input: &str) -> (m: Qmenu)
        ensures
            m.wf(),
            m@.items == non_empty(lines_of(input@)),
            m@.actions == m@.items,
            m@.allow_custom,
            m@.query.len() == 0,
            m@.filtered == Seq::new(m@.items.len(), |i: int| i),
            m@.selected == 0 && m@.scroll == 0,
            m@.width == 0 && m@.height == height_for(m@.items.len() as int),
            !m@.configured && !m@.exit && m@.result is None,
    {
        let items = read_items(input);
        let mut actions: Vec<String> = Vec::new();
        let mut i: usize = 0;
        while i < items.len()
            invariant
                i <= items@.len(),
                string_views(actions@) == string_views(items@).take(i as int),
            decreases items.len() - i,
        {
            let ghost before = string_views(actions@);
            let item = items[i].clone();
            actions.push(item);
            assert(string_views(actions@) == before.push(items@[i as int]@));
            i += 1;
        }
        assert(string_views(actions@) == string_views(items@));
        assert(string_views(actions@).len() == actions@.len());
        assert(string_views(items@).len() == items@.len());
        Qmenu::new(items, actions, true)
    }

    /// The menu of drun mode: the names of applications, each meaning its
    /// command, and nothing else.
    pub fn drun(entries: Vec<(String, String)>) -> (m: Qmenu)
        ensures
            m.wf(),
            m@.items == entries@.map_values(|e: (String, String)| e.0@),
            m@.actions == entries@.map_values(|e: (String, String)| e.1@),
            !m@.allow_custom,
            m@.query.len() == 0,
            m@.filtered == Seq::new(m@.items.len(), |i: int| i),
            m@.selected == 0 && m@.scroll == 0,
            m@.width == 0 && m@.height == height_for(m@.items.len() as int),
            !m@.configured && !m@.exit && m@.result is None,
    {
        let mut items: Vec<String> = Vec::new();
        let mut actions: Vec<String> = Vec::new();
        let ghost names = entries@.map_values(|e: (String, String)| e.0@);
        let ghost commands = entries@.map_values(|e: (String, String)| e.1@);
        let mut i: usize = 0;
        while i < entries.len()
            invariant
                i <= entries@.len(),
                names == entries@.map_values(|e: (String, String)| e.0@),
                commands == entries@.map_values(|e: (String, String)| e.1@),
                string_views(items@) == names.take(i as int),
                string_views(actions@) == commands.take(i as int),
            decreases entries.len() - i,
        {
            let ghost items_before = string_views(items@);
            let ghost actions_before = string_views(actions@);
            let item = entries[i].0.clone();
            let action = entries[i].1.clone();
            items.push(item);
            actions.push(action);
            assert(string_views(items@) == items_before.push(names[i as int]));
            assert(string_views(actions@) == actions_before.push(commands[i as int]));
            i += 1;
        }
        assert(string_views(items@) == names);
        assert(string_views(actions@) == commands);
        assert(string_views(actions@).len() == actions@.len());
        assert(string_views(items@).len() == items@.len());
        Qmenu::new(items, actions, false)
    }

    /// Closes the menu without a choice.
    pub fn closed(&mut self)
        ensures
            final(self)@ == old(self)@.cancelled(),
    {
        let ghost before = self@;
        self.exit = true;
        assert(self@ =~= before.cancelled());
    }

    /// Takes on the size that the compositor grants; zero leaves a side as it is.
    pub fn configure(&mut self, width: u32, height: u32)
        ensures
            final(self)@ == (MenuView {
                width: if width != 0 {
                    width
                } else {
                    old(self)@.width
                },
                height: if height != 0 {
                    height
                } else {
                    old(self)@.height
                },
                configured: true,
                ..old(self)@
            }),
    {
        let ghost before = self@;
        if width != 0 {
            self.width = width;
        }
        if height != 0 {
            self.height = height;
        }
        self.configured = true;
        assert(self@.items == before.items);
        assert(self@.actions == before.actions);
        assert(self@.filtered == before.filtered);
    }

    /// Replaces what was typed, and filters anew.
    fn set_query(&mut self, query: String)
        requires
            old(self).wf(),
        ensures
            final(self)@ == old(self)@.with_query(query@),
            final(self).wf(),
    {
        let ghost before = self@;
        self.query = query;
        assert(self@ =~= (MenuView { query: query@, ..before }));
        self.recompute_filter();
        assert(self@ =~= before.with_query(query@));
    }

    /// Deletes the last word of the query, and the spaces behind it.
    fn delete_word(&mut self)
        requires
            old(self).wf(),
        ensures
            final(self)@ == old(self)@.with_query(without_word(without_spaces(old(self)@.query))),
            final(self).wf(),
    {
        let q = to_chars(self.query.as_str());
        let ghost query = q@;
        let mut n: usize = q.len();
        assert(query.take(n as int) == query);
        while n > 0 && q[n - 1] == ' '
            invariant
                n <= q@.len(),
                q@ == query,
                without_spaces(query.take(n as int)) == without_spaces(query),
            decreases n,
        {
            assert(query.take(n as int).drop_last() == query.take(n - 1));
            n -= 1;
        }
        let ghost spaceless = query.take(n as int);
        assert(without_spaces(query) == spaceless);
        while n > 0 && q[n - 1] != ' '
            invariant
                n <= q@.len(),
                q@ == query,
                without_word(query.take(n as int)) == without_word(spaceless),
            decreases n,
        {
            assert(query.take(n as int).drop_last() == query.take(n - 1));
            n -= 1;
        }
        let kept = vstd::slice::slice_subrange(q.as_slice(), 0, n);
        assert(kept@ == query.take(n as int));
        assert(kept@ == without_word(without_spaces(query)));
        self.set_query(from_chars(kept));
    }

    /// Appends to the query what a key types, control characters aside.
    fn type_text(&mut self, text: &str)
        requires
            old(self).wf(),
        ensures
            final(self)@ == old(self)@.with_query(old(self)@.query + printable(text@)),
            final(self).wf(),
    {
        let typed = to_chars(text);
        let mut query = self.query.clone();
        let ghost before = query@;
        let mut i: usize = 0;
        assert(typed@.take(0).len() == 0);
        assert(printable(typed@.take(0)) == Seq::<char>::empty());
        while i < typed.len()
            invariant
                i <= typed@.len(),
                query@ == before + printable(typed@.take(i as int)),
            decreases typed.len() - i,
        {
            let ghost next = typed@.take(i + 1);
            assert(next.drop_last() == typed@.take(i as int));
            assert(next.last() == typed@[i as int]);
            if !is_control(typed[i]) {
                query.push(typed[i]);
            }
            i += 1;
        }
        assert(typed@.take(i as int) == text@);
        self.set_query(query);
    }

    /// Deletes the last character of the query.
    fn delete_char(&mut self)
        requires
            old(self).wf(),
        ensures
            final(self)@ == old(self)@.with_query(
                if old(self)@.query.len() > 0 {
                    old(self)@.query.drop_last()
                } else {
                    old(self)@.query
                },
            ),
            final(self).wf(),
    {
        let q = to_chars(self.query.as_str());
        let n: usize = if q.len() > 0 {
            q.len() - 1
        } else {
            0
        };
        let kept = vstd::slice::slice_subrange(q.as_slice(), 0, n);
        assert(q@.len() > 0 ==> kept@ == q@.drop_last());
        assert(q@.len() == 0 ==> kept@ == q@);
        self.set_query(from_chars(kept));
    }

    /// Handles a key press, and tells whether the menu is to be drawn anew.
    /// `text` is what the key types, if it types anything.
    pub fn press_key(&mut self, key: u32, ctrl: bool, text: Option<&str>) -> (redraw: bool)
        requires
            old(self).wf(),
        ensures
            final(self)@ == old(self)@.pressed(
                key,
                ctrl,
                match text {
                    Some(t) => Some(t@),
                    None => None,
                },
            ),
            final(self).wf(),
            redraw == !(confirms(key) || cancels(key, ctrl)),
            final(self)@.query.len() == 0 ==> final(self)@.filtered == Seq::new(
                final(self)@.items.len(),
                |i: int| i,
            ),
    {
        if key == KEY_ESCAPE {
            self.closed();
            return false;
        }
        if key == KEY_RETURN || key == KEY_KP_ENTER {
            self.confirm();
            return false;
        }
        if key == KEY_BACKSPACE {
            self.delete_char();
        } else if key == KEY_UP {
            self.move_selection(-1);
        } else if key == KEY_DOWN {
            self.move_selection(1);
        } else if key == KEY_PAGE_UP {
            self.move_selection(-(MAX_VISIBLE_ITEMS as isize));
        } else if key == KEY_PAGE_DOWN {
            self.move_selection(MAX_VISIBLE_ITEMS as isize);
        } else if ctrl {
            if key == KEY_P {
                self.move_selection(-1);
            } else if key == KEY_N {
                self.move_selection(1);
            } else if key == KEY_C || key == KEY_BRACKETLEFT {
                self.closed();
                return false;
            } else if key == KEY_U {
                self.set_query(String::new());
            } else if key == KEY_W {
                self.delete_word();
            }
        } else if let Some(t) = text {
            self.type_text(t);
        }
        true
    }
}

impl Qmenu {
    /// Sets the width of the menu, in pixels.
    pub fn set_width(&mut self, width: u32)
        ensures
            final(self)@ == (MenuView { width, ..old(self)@ }),
    {
        let ghost before = self@;
        self.width = width;
        assert(self@ =~= (MenuView { width, ..before }));
    }

    pub fn width(&self) -> (w: u32)
        ensures
            w == self@.width,
    {
        self.width
    }

    pub fn height(&self) -> (h: u32)
        ensures
            h == self@.height,
    {
        self.height
    }

    /// What was typed.
    pub fn query(&self) -> (q: &str)
        ensures
            q@ == self@.query,
    {
        self.query.as_str()
    }

    /// The number of the selected match among the matches.
    pub fn selected(&self) -> (n: usize)
        ensures
            n == self@.selected,
    {
        self.selected
    }

    /// The number of the match in the first row.
    pub fn scroll(&self) -> (n: usize)
        ensures
            n == self@.scroll,
    {
        self.scroll
    }

    /// The numbers of the items that match.
    pub fn filtered(&self) -> (v: &Vec<usize>)
        ensures
            v@.map_values(|n: usize| n as int) == self@.filtered,
    {
        &self.filtered
    }

    /// Whether the menu is to be closed.
    pub fn exit(&self) -> (b: bool)
        ensures
            b == self@.exit,
    {
        self.exit
    }

    /// What was chosen, if anything.
    pub fn result(&self) -> (r: Option<&str>)
        ensures
            match r {
                Some(t) => self@.result == Some(t@),
                None => self@.result is None,
            },
    {
        match &self.result {
            Some(t) => Some(t.as_str()),
            None => None,
        }
    }

    /// The width, height and stride (bytes in a row) of the buffer to draw into;
    /// `None` while the menu has no size.
    pub fn frame_size(&self) -> (r: Option<(i32, i32, i32)>)
        requires
            self@.width * 4 <= i32::MAX,
            self@.height <= i32::MAX,
        ensures
            r is None <==> self@.width == 0 || self@.height == 0,
            r matches Some(f) ==> f.0 == self@.width && f.1 == self@.height && f.2 == self@.width
                * 4,
    {
        if self.width == 0 || self.height == 0 {
            return None;
        }
        Some((self.width as i32, self.height as i32, self.width as i32 * 4))
    }

    /// The text of the menu.
    pub fn text(&self) -> (t: String)
        requires
            self.wf(),
        ensures
            t@ == self@.text(),
    {
        let end: usize = if self.filtered.len() - self.scroll > MAX_VISIBLE_ITEMS {
            self.scroll + MAX_VISIBLE_ITEMS
        } else {
            self.filtered.len()
        };
        let ghost shown = self@.shown();
        let ghost head = "> "@ + self@.query;
        let mut text = "> ".to_owned();
        text.append(self.query.as_str());
        let mut i: usize = self.scroll;
        assert(shown.take(0).len() == 0);
        assert(item_lines(self@.items, shown.take(0)) == Seq::<char>::empty());
        while i < end
            invariant
                self.wf(),
                self.scroll <= i <= end <= self.filtered@.len(),
                shown == self@.filtered.subrange(self.scroll as int, end as int),
                text@ == head + item_lines(self@.items, shown.take(i - self.scroll)),
            decreases end - i,
        {
            let idx: usize = self.filtered[i];
            let ghost next = shown.take(i - self.scroll + 1);
            proof {
                matching_is_ascending(self@.items, self@.query);
                assert(self@.filtered[i as int] == idx);
            }
            assert(next.drop_last() == shown.take(i - self.scroll));
            assert(next.last() == idx);
            assert(self@.items[idx as int] == self.items@[idx as int]@);
            text.push('\n');
            text.append(self.items[idx].as_str());
            assert(text@ == head + item_lines(self@.items, next));
            i += 1;
        }
        assert(shown.take(i - self.scroll) == shown);
        text
    }

    /// Draws the background and the bar behind the selected row, and gives the
    /// text that goes on top.
    pub fn draw(&self, canvas: &mut [u8]) -> (t: String)
        requires
            self.wf(),
            holds(old(canvas)@, self@.width, self@.height),
        ensures
            t@ == self@.text(),
            final(canvas)@.len() == old(canvas)@.len(),
            forall|px: int, py: int, k: int|
                0 <= px < self@.width && 0 <= py < self@.height && 0 <= k < 4
                    ==> #[trigger] final(canvas)@[at(self@.width as int, px, py, k)] == (if self@.highlights(
                    py,
                ) {
                    channel(SEL_BG, k)
                } else {
                    channel(BG, k)
                }),
            forall|i: int|
                4 * (self@.height * self@.width) <= i < old(canvas)@.len() / 4 * 4 ==> #[trigger]
                final(canvas)@[i] == channel(BG, i % 4),
            forall|i: int|
                old(canvas)@.len() / 4 * 4 <= i < old(canvas)@.len() ==> #[trigger]
                final(canvas)@[i] == old(canvas)@[i],
    {
        let ghost width = self@.width;
        let ghost height = self@.height;
        paint_solid(canvas, BG);
        let ghost plain = canvas@;
        assert(height * width >= 0) by (nonlinear_arith)
            requires
                width >= 0,
                height >= 0,
        ;
        proof {
            assert forall|px: int, py: int, k: int|
                0 <= px < width && 0 <= py < height && 0 <= k < 4 implies #[trigger] plain[at(
                width as int,
                px,
                py,
                k,
            )] == channel(BG, k) by {
                at_bound(width as int, height as int, px, py, k);
                assert(at(width as int, px, py, k) % 4 == k);
            }
        }
        if self.filtered.len() > 0 {
            let row: usize = self.selected - self.scroll + 1;
            let y: i32 = PAD_Y + row as i32 * LINE_HEIGHT;
            fill_rect(canvas, self.width, self.height, 0, y, self.width, LINE_HEIGHT as u32, SEL_BG);
            assert forall|px: int, py: int, k: int|
                0 <= px < width && 0 <= py < height && 0 <= k < 4 implies #[trigger] canvas@[at(
                width as int,
                px,
                py,
                k,
            )] == (if self@.highlights(py) {
                channel(SEL_BG, k)
            } else {
                channel(BG, k)
            }) by {
                assert(plain[at(width as int, px, py, k)] == channel(BG, k));
                assert(self@.highlights(py) == inside(
                    0,
                    y as int,
                    width as int,
                    LINE_HEIGHT as int,
                    px,
                    py,
                ));
            }
        }
        self.text()
    }
}

/// Every key keeps the menu in order: the matches are those of the query, and
/// the selection is one of them and in view.
pub proof fn keys_keep_order(m: MenuView, key: u32, ctrl: bool, text: Option<Seq<char>>)
    requires
        m.wf(),
    ensures
        m.pressed(key, ctrl, text).wf(),
{
}

/// No key touches the items, their actions, or the size of the menu.
pub proof fn keys_keep_items(m: MenuView, key: u32, ctrl: bool, text: Option<Seq<char>>)
    ensures
        ({
            let n = m.pressed(key, ctrl, text);
            &&& n.items == m.items
            &&& n.actions == m.actions
            &&& n.allow_custom == m.allow_custom
            &&& n.width == m.width
            &&& n.height == m.height
            &&& n.configured == m.configured
        }),
{
}

/// Only the Enter keys make a choice, and the menu is closed only by cancelling it
/// or by confirming where there is something to confirm.
pub proof fn only_enter_chooses(m: MenuView, key: u32, ctrl: bool, text: Option<Seq<char>>)
    ensures
        !confirms(key) ==> m.pressed(key, ctrl, text).result == m.result,
        m.pressed(key, ctrl, text).exit == (m.exit || cancels(key, ctrl) || (confirms(key)
            && !m.stuck())),
{
}

/// Where only applications are offered and none matches, Enter does nothing.
pub proof fn enter_without_a_match_does_nothing(
    m: MenuView,
    key: u32,
    ctrl: bool,
    text: Option<Seq<char>>,
)
    requires
        m.wf(),
        confirms(key),
        !m.allow_custom,
        forall|i: int| 0 <= i < m.items.len() ==> !matches(#[trigger] m.items[i], m.query),
    ensures
        m.pressed(key, ctrl, text) == m,
{
    if m.filtered.len() > 0 {
        let i = m.filtered[0];
        assert(m.filtered.contains(i));
        matching_is_complete(m.items, m.query, i);
    }
}

/// Escape closes the menu without a choice.
pub proof fn escape_cancels(m: MenuView, ctrl: bool, text: Option<Seq<char>>)
    requires
        m.result is None,
    ensures
        m.pressed(KEY_ESCAPE, ctrl, text).exit,
        m.pressed(KEY_ESCAPE, ctrl, text).result is None,
        m.pressed(KEY_C, true, text).exit,
        m.pressed(KEY_C, true, text).result is None,
{
}

/// Enter chooses what the selected item means, and that item matches what was typed.
pub proof fn enter_chooses_selected_match(m: MenuView, ctrl: bool, text: Option<Seq<char>>)
    requires
        m.wf(),
        m.filtered.len() > 0,
    ensures
        ({
            let i = m.filtered[m.selected];
            &&& 0 <= i < m.items.len()
            &&& matches(m.items[i], m.query)
            &&& m.pressed(KEY_RETURN, ctrl, text).exit
            &&& m.pressed(KEY_KP_ENTER, ctrl, text).exit
            &&& m.pressed(KEY_RETURN, ctrl, text).result == Some(m.actions[i])
            &&& m.pressed(KEY_KP_ENTER, ctrl, text).result == Some(m.actions[i])
        }),
{
    let i = m.filtered[m.selected];
    assert(m.filtered.contains(i));
    matching_is_complete(m.items, m.query, i);
}

/// Where only applications are offered, nothing but the action of an item that
/// matches can be chosen.
pub proof fn choice_is_an_action(m: MenuView)
    requires
        m.wf(),
        !m.allow_custom,
        m.result is None,
    ensures
        m.confirmed().result matches Some(r) ==> exists|i: int|
            0 <= i < m.items.len() && matches(#[trigger] m.items[i], m.query) && r == m.actions[i],
        m.confirmed().result is None <==> m.filtered.len() == 0,
        m.confirmed().exit == (m.exit || m.filtered.len() > 0),
{
    matching_is_ascending(m.items, m.query);
    if m.filtered.len() > 0 {
        let i = m.filtered[m.selected];
        assert(m.filtered.contains(i));
        matching_is_complete(m.items, m.query, i);
        assert(matches(m.items[i], m.query));
    }
}

/// Where custom input is allowed and nothing matches, what was typed is chosen.
pub proof fn unmatched_query_is_echoed(m: MenuView)
    requires
        m.wf(),
        m.allow_custom,
        m.query.len() > 0,
        forall|i: int| 0 <= i < m.items.len() ==> !matches(#[trigger] m.items[i], m.query),
    ensures
        m.confirmed().exit,
        m.confirmed().result == Some(m.query),
{
    if m.filtered.len() > 0 {
        let i = m.filtered[0];
        assert(m.filtered.contains(i));
        matching_is_complete(m.items, m.query, i);
    }
}

/// Typing a character and deleting it again restores the query and its matches.
pub proof fn backspace_undoes_typing(m: MenuView, key: u32, c: char)
    requires
        m.wf(),
        !control(c),
        !has_fixed_meaning(key),
    ensures
        m.pressed(key, false, Some(seq![c])).query == m.query.push(c),
        m.pressed(key, false, Some(seq![c])).pressed(KEY_BACKSPACE, false, None) == m.with_query(
            m.query,
        ),
{
    assert(seq![c].drop_last() == Seq::<char>::empty());
    assert(printable(Seq::<char>::empty()) == Seq::<char>::empty());
    assert(printable(seq![c]) == seq![c]);
    let typed = m.pressed(key, false, Some(seq![c]));
    assert(typed.query == m.query.push(c));
    assert(typed.query.drop_last() == m.query);
    assert(typed.pressed(KEY_BACKSPACE, false, None) =~= m.with_query(m.query));
}

proof fn without_spaces_drops(s: Seq<char>, spaces: Seq<char>)
    requires
        forall|i: int| 0 <= i < spaces.len() ==> spaces[i] == ' ',
        s.len() > 0 ==> s.last() != ' ',
    ensures
        without_spaces(s + spaces) == s,
    decreases spaces.len(),
{
    if spaces.len() == 0 {
        assert(s + spaces == s);
    } else {
        assert((s + spaces).drop_last() == s + spaces.drop_last());
        without_spaces_drops(s, spaces.drop_last());
    }
}

proof fn without_word_drops(s: Seq<char>, word: Seq<char>)
    requires
        forall|i: int| 0 <= i < word.len() ==> word[i] != ' ',
        s.len() > 0 ==> s.last() == ' ',
    ensures
        without_word(s + word) == s,
    decreases word.len(),
{
    if word.len() == 0 {
        assert(s + word == s);
    } else {
        assert((s + word).drop_last() == s + word.drop_last());
        without_word_drops(s, word.drop_last());
    }
}

/// Ctrl-w deletes the last word and the spaces behind it, and no more.
pub proof fn ctrl_w_deletes_last_word(
    m: MenuView,
    head: Seq<char>,
    word: Seq<char>,
    spaces: Seq<char>,
    text: Option<Seq<char>>,
)
    requires
        m.query == head + word + spaces,
        head.len() > 0 ==> head.last() == ' ',
        word.len() > 0,
        forall|i: int| 0 <= i < word.len() ==> word[i] != ' ',
        forall|i: int| 0 <= i < spaces.len() ==> spaces[i] == ' ',
    ensures
        m.pressed(KEY_W, true, text).query == head,
{
    assert((head + word).last() == word.last());
    without_spaces_drops(head + word, spaces);
    without_word_drops(head, word);
}

/// Moving down and up again comes back to the same match, unless the selection
/// is at the end.
pub proof fn up_undoes_down(m: MenuView)
    requires
        m.wf(),
        m.selected + 1 < m.filtered.len(),
    ensures
        m.moved(1).selected == m.selected + 1,
        m.moved(1).moved(-1).selected == m.selected,
{
}

/// The selection stops at both ends of the list.
pub proof fn selection_stops_at_ends(m: MenuView, delta: int)
    requires
        m.wf(),
        m.filtered.len() > 0,
    ensures
        delta <= -m.selected ==> m.moved(delta).selected == 0,
        delta >= m.filtered.len() - m.selected ==> m.moved(delta).selected == m.filtered.len() - 1,
{
}

/// Filtering does not regard case: queries with the same lower case match the
/// same items.
pub proof fn filtering_ignores_case(items: Seq<Seq<char>>, a: Seq<char>, b: Seq<char>)
    requires
        lowercase(a) == lowercase(b),
    ensures
        matching(items, a) == matching(items, b),
    decreases items.len(),
{
    if items.len() > 0 {
        filtering_ignores_case(items.drop_last(), a, b);
    }
}

/// No more items are in view than there is room for, and the selected one is
/// among them, in the row that is highlighted.
pub proof fn selected_match_is_shown(m: MenuView)
    requires
        m.wf(),
    ensures
        m.shown().len() <= MAX_VISIBLE_ITEMS,
        m.filtered.len() > 0 ==> {
            &&& 0 <= m.selected - m.scroll < m.shown().len()
            &&& m.shown()[m.selected - m.scroll] == m.filtered[m.selected]
        },
{
}

proof fn matching_is_no_longer(items: Seq<Seq<char>>, query: Seq<char>)
    ensures
        matching(items, query).len() <= items.len(),
    decreases items.len(),
{
    if items.len() > 0 {
        matching_is_no_longer(items.drop_last(), query);
    }
}

/// A menu of the height that its number of items asks for shows the highlighted
/// row in full.
pub proof fn highlight_fits(m: MenuView, py: int)
    requires
        m.wf(),
        m.highlights(py),
    ensures
        0 <= py < height_for(m.items.len() as int),
{
    matching_is_no_longer(m.items, m.query);
}

proof fn item_lines_are_rows(items: Seq<Seq<char>>, shown: Seq<int>)
    ensures
        item_lines(items, shown) == shown.map_values(
            |i: int| seq!['\n'] + items[i],
        ).flatten_alt(),
    decreases shown.len(),
{
    let rows = shown.map_values(|i: int| seq!['\n'] + items[i]);
    if shown.len() > 0 {
        let fewer = shown.drop_last();
        assert(rows.drop_last() == fewer.map_values(|i: int| seq!['\n'] + items[i]));
        item_lines_are_rows(items, fewer);
        assert(rows.last() == seq!['\n'] + items[shown.last()]);
        assert(item_lines(items, fewer).push('\n') + items[shown.last()] == item_lines(
            items,
            fewer,
        ) + (seq!['\n'] + items[shown.last()]));
    }
}

/// The text is the prompt with the query, and below it a row for each match from the
/// first in view on, fourteen at most. Every row holds the query, and the selected one
/// shows the item whose action Enter chooses.
pub proof fn text_shows_matches_in_view(m: MenuView, r: int)
    requires
        m.wf(),
    ensures
        ({
            let left = m.filtered.len() - m.scroll;
            let n = if left < 14 {
                left
            } else {
                14
            };
            &&& m.text() == seq!['>', ' '] + m.query + Seq::new(
                n as nat,
                |j: int| seq!['\n'] + m.items[m.filtered[m.scroll + j]],
            ).flatten_alt()
            &&& 0 <= r < n ==> {
                let i = m.filtered[m.scroll + r];
                &&& 0 <= i < m.items.len()
                &&& has_substring(lowercase(m.items[i]), lowercase(m.query))
                &&& r == m.selected - m.scroll ==> m.pressed(0xff0d, false, None).result == Some(
                    m.actions[i],
                )
            }
            &&& m.filtered.len() > 0 ==> 0 <= m.selected - m.scroll < n
        }),
{
    let left = m.filtered.len() - m.scroll;
    let n = if left < 14 {
        left
    } else {
        14
    };
    reveal_strlit("> ");
    assert("> "@ == seq!['>', ' ']);
    let shown = m.shown();
    item_lines_are_rows(m.items, shown);
    assert(shown.map_values(|i: int| seq!['\n'] + m.items[i]) == Seq::new(
        n as nat,
        |j: int| seq!['\n'] + m.items[m.filtered[m.scroll + j]],
    ));
    if 0 <= r < n {
        let i = m.filtered[m.scroll + r];
        assert(m.filtered.contains(i));
        matching_is_complete(m.items, m.query, i);
    }
}

/// Moving by any number of matches that the list has room for comes to the match that
/// is so far away, moving further stops at the end, and nothing but the selection and
/// what is in view changes.
pub proof fn moving_goes_as_far_as_told(m: MenuView, delta: int)
    requires
        m.wf(),
    ensures
        ({
            let n = m.moved(delta);
            &&& 0 <= m.selected + delta < m.filtered.len() ==> n.selected == m.selected + delta
            &&& m.filtered.len() > 0 && m.selected + delta < 0 ==> n.selected == 0
            &&& m.filtered.len() > 0 && m.selected + delta >= m.filtered.len() ==> n.selected
                == m.filtered.len() - 1
            &&& m.filtered.len() == 0 ==> n == m
            &&& n == (MenuView { selected: n.selected, scroll: n.scroll, ..m })
        }),
{
}

/// The list scrolls no further than it takes: a selection in view leaves it where it
/// is, one above comes into the first row, and one below into the last of fourteen.
pub proof fn scrolling_follows_the_selection(m: MenuView, delta: int)
    requires
        m.wf(),
    ensures
        ({
            let n = m.moved(delta);
            &&& m.scroll <= n.selected < m.scroll + 14 ==> n.scroll == m.scroll
            &&& n.selected < m.scroll ==> n.scroll == n.selected
            &&& n.selected >= m.scroll + 14 ==> n.scroll == n.selected - 13
        }),
{
}

/// What each key does to the selection, by its key symbol: Up, Down and, with Ctrl, p
/// and n move it by one match, the Page keys by fourteen, as far as there are any.
pub proof fn keys_move_by_rows_and_pages(m: MenuView, ctrl: bool, text: Option<Seq<char>>)
    requires
        m.wf(),
    ensures
        ({
            let up = m.pressed(0xff52, ctrl, text).selected;
            let down = m.pressed(0xff54, ctrl, text).selected;
            let page_up = m.pressed(0xff55, ctrl, text).selected;
            let page_down = m.pressed(0xff56, ctrl, text).selected;
            let len = m.filtered.len();
            &&& m.selected >= 1 ==> up == m.selected - 1
            &&& m.selected == 0 ==> up == 0
            &&& m.selected + 1 < len ==> down == m.selected + 1
            &&& m.selected + 1 == len ==> down == m.selected
            &&& m.selected >= 14 ==> page_up == m.selected - 14
            &&& m.selected < 14 ==> page_up == 0
            &&& m.selected + 14 < len ==> page_down == m.selected + 14
            &&& 0 < len <= m.selected + 14 ==> page_down == len - 1
            &&& m.pressed(0xff52, ctrl, text) == m.moved(-1)
            &&& m.pressed(0xff54, ctrl, text) == m.moved(1)
            &&& m.pressed(0xff55, ctrl, text) == m.moved(-14)
            &&& m.pressed(0xff56, ctrl, text) == m.moved(14)
            &&& m.pressed(0x70, true, text) == m.pressed(0xff52, ctrl, text)
            &&& m.pressed(0x6e, true, text) == m.pressed(0xff54, ctrl, text)
        }),
{
}

/// The items are all the lines that have a character, in order and each as often as it
/// is there.
pub proof fn items_are_lines_with_characters(lines: Seq<Seq<char>>, line: Seq<char>)
    ensures
        non_empty(lines) == lines.filter(|l: Seq<char>| l.len() >= 1),
        non_empty(lines).contains(line) <==> lines.contains(line) && line.len() >= 1,
        (forall|i: int| 0 <= i < lines.len() ==> (#[trigger] lines[i]).len() >= 1) ==> non_empty(
            lines,
        ) == lines,
    decreases lines.len(),
{
    reveal(Seq::filter);
    if lines.len() > 0 {
        let rest = lines.drop_last();
        items_are_lines_with_characters(rest, line);
        let kept = non_empty(lines);
        if lines.contains(line) && line.len() >= 1 {
            let i = choose|i: int| 0 <= i < lines.len() && lines[i] == line;
            if i < rest.len() {
                assert(rest[i] == line);
                let k = choose|k: int| 0 <= k < non_empty(rest).len() && non_empty(rest)[k] == line;
                assert(kept[k] == line);
            } else {
                assert(kept.last() == line);
            }
        }
        if kept.contains(line) {
            let k = choose|k: int| 0 <= k < kept.len() && kept[k] == line;
            if k < non_empty(rest).len() {
                assert(non_empty(rest)[k] == line);
                let i = choose|i: int| 0 <= i < rest.len() && rest[i] == line;
                assert(lines[i] == line);
            } else {
                assert(lines.last() == line);
            }
        }
        if forall|i: int| 0 <= i < lines.len() ==> (#[trigger] lines[i]).len() >= 1 {
            assert forall|i: int| 0 <= i < rest.len() implies (#[trigger] rest[i]).len() >= 1 by {
                assert(rest[i] == lines[i]);
            }
            assert(rest.push(lines.last()) == lines);
        }
    }
}

/// Lines that are written one below the other are the items, but for empty ones.
pub proof fn written_lines_become_items(lines: Seq<Seq<char>>)
    requires
        forall|i: int|
            0 <= i < lines.len() ==> !(#[trigger] lines[i]).contains('\n') && (lines[i].len() == 0
                || lines[i].last() != '\r'),
    ensures
        non_empty(lines_of(lines.map_values(|l: Seq<char>| l.push('\n')).flatten()))
            == lines.filter(|l: Seq<char>| l.len() >= 1),
{
    written_lines_are_read(lines);
    items_are_lines_with_characters(lines, Seq::empty());
}

/// The matches are the items in which the query stands in one piece, both in lower
/// case, wherever it stands.
pub proof fn matches_hold_the_query(items: Seq<Seq<char>>, query: Seq<char>, i: int)
    ensures
        matching(items, query).contains(i) <==> 0 <= i < items.len() && exists|
            a: Seq<char>,
            b: Seq<char>,
        | lowercase(items[i]) == #[trigger] (a + lowercase(query) + b),
{
    matching_is_complete(items, query, i);
    if 0 <= i < items.len() {
        let whole = lowercase(items[i]);
        let part = lowercase(query);
        substrings_are_parts(whole, Seq::empty(), part, Seq::empty());
        if exists|a: Seq<char>, b: Seq<char>| whole == #[trigger] (a + part + b) {
            let (a, b) = choose|a: Seq<char>, b: Seq<char>| whole == #[trigger] (a + part + b);
            substrings_are_parts(whole, a, part, b);
        }
    }
}

/// Filtering gives the numbers of all texts that hold the part, in ascending order.
pub proof fn filtering_finds_all_in_order(texts: Seq<Seq<char>>, part: Seq<char>, i: int)
    ensures
        containing(texts, part).contains(i) <==> 0 <= i < texts.len() && exists|
            a: Seq<char>,
            b: Seq<char>,
        | texts[i] == #[trigger] (a + part + b),
        forall|j: int, k: int|
            0 <= j < k < containing(texts, part).len() ==> containing(texts, part)[j]
                < containing(texts, part)[k],
    decreases texts.len(),
{
    if texts.len() > 0 {
        let rest = containing(texts.drop_last(), part);
        let all = containing(texts, part);
        let n = texts.len() - 1;
        filtering_finds_all_in_order(texts.drop_last(), part, i);
        assert forall|k: int| 0 <= k < rest.len() implies 0 <= #[trigger] rest[k] < n by {
            assert(rest.contains(rest[k]));
            filtering_finds_all_in_order(texts.drop_last(), part, rest[k]);
        }
        assert(forall|k: int| 0 <= k < rest.len() ==> #[trigger] all[k] == rest[k]);
        if rest.contains(i) {
            let k = choose|k: int| 0 <= k < rest.len() && rest[k] == i;
            assert(all[k] == i);
        }
        if all.contains(i) && i != n {
            let k = choose|k: int| 0 <= k < all.len() && all[k] == i;
            assert(rest[k] == i);
        }
        substrings_are_parts(texts[n], Seq::empty(), part, Seq::empty());
        if exists|a: Seq<char>, b: Seq<char>| texts[n] == #[trigger] (a + part + b) {
            let (a, b) = choose|a: Seq<char>, b: Seq<char>| texts[n] == #[trigger] (a + part + b);
            substrings_are_parts(texts[n], a, part, b);
            assert(all.last() == n);
        }
    }
}

proof fn printable_is_filtered(s: Seq<char>)
    ensures
        printable(s) == s.filter(|c: char| !control(c)),
    decreases s.len(),
{
    reveal(Seq::filter);
    if s.len() > 0 {
        printable_is_filtered(s.drop_last());
    }
}

/// A key that types something, without Ctrl, appends it to the query but for control
/// characters, and the first match of the new query is selected.
pub proof fn typing_appends_to_the_query(m: MenuView, key: u32, text: Seq<char>)
    requires
        !has_fixed_meaning(key),
    ensures
        ({
            let n = m.pressed(key, false, Some(text));
            &&& n.query == m.query + text.filter(|c: char| !control(c))
            &&& n.filtered == matching(m.items, n.query)
            &&& n.selected == 0 && n.scroll == 0
            &&& n == (MenuView {
                query: n.query,
                filtered: n.filtered,
                selected: 0,
                scroll: 0,
                ..m
            })
        }),
{
    printable_is_filtered(text);
}

/// Which keys have a meaning of their own, by their key symbols.
pub proof fn fixed_keys_are_these(key: u32)
    ensures
        has_fixed_meaning(key) <==> key == 0xff1b || key == 0xff0d || key == 0xff8d || key
            == 0xff08 || key == 0xff52 || key == 0xff54 || key == 0xff55 || key == 0xff56,
{
}

/// Backspace takes the last character, Ctrl-u takes all, and after either the matches
/// are those of what is left, from the first.
pub proof fn editing_keys_shorten_the_query(m: MenuView, ctrl: bool, text: Option<Seq<char>>)
    ensures
        ({
            let n = m.pressed(0xff08, ctrl, text);
            &&& m.query.len() > 0 ==> m.query == n.query.push(m.query.last())
            &&& m.query.len() == 0 ==> n.query == m.query
            &&& n.filtered == matching(m.items, n.query)
            &&& n == (MenuView {
                query: n.query,
                filtered: n.filtered,
                selected: 0,
                scroll: 0,
                ..m
            })
        }),
        ({
            let n = m.pressed(0x75, true, text);
            &&& n.query.len() == 0
            &&& n.filtered == matching(m.items, n.query)
            &&& n == (MenuView {
                query: n.query,
                filtered: n.filtered,
                selected: 0,
                scroll: 0,
                ..m
            })
        }),
        ({
            let n = m.pressed(0x77, true, text);
            &&& (forall|i: int| 0 <= i < m.query.len() ==> m.query[i] == ' ') ==> n.query.len()
                == 0
            &&& n.filtered == matching(m.items, n.query)
            &&& n == (MenuView {
                query: n.query,
                filtered: n.filtered,
                selected: 0,
                scroll: 0,
                ..m
            })
        }),
{
    if m.query.len() > 0 {
        assert(m.query.drop_last().push(m.query.last()) == m.query);
    }
    if forall|i: int| 0 <= i < m.query.len() ==> m.query[i] == ' ' {
        without_spaces_drops(Seq::empty(), m.query);
        assert(Seq::empty() + m.query == m.query);
        assert(without_word(Seq::<char>::empty()) == Seq::<char>::empty());
    }
}

/// Other keys do nothing: with Ctrl all but p, n, c, u, w and the bracket, and without
/// it those that type nothing.
pub proof fn other_keys_do_nothing(m: MenuView, key: u32, text: Option<Seq<char>>)
    requires
        !has_fixed_meaning(key),
    ensures
        m.pressed(key, false, None) == m,
        key != 0x70 && key != 0x6e && key != 0x63 && key != 0x75 && key != 0x77 && key != 0x5b
            ==> m.pressed(key, true, text) == m,
{
}

/// Cancelling closes the menu and leaves everything else as it was: Escape, Ctrl-c and
/// Ctrl-[.
pub proof fn cancelling_changes_nothing_else(m: MenuView, ctrl: bool, text: Option<Seq<char>>)
    ensures
        m.pressed(0xff1b, ctrl, text) == (MenuView { exit: true, ..m }),
        m.pressed(0x63, true, text) == (MenuView { exit: true, ..m }),
        m.pressed(0x5b, true, text) == (MenuView { exit: true, ..m }),
{
}

/// Enter, on either key, closes a menu in which something matches or anything may be
/// typed, and chooses nothing where nothing was typed and nothing matches.
pub proof fn enter_closes_the_menu(m: MenuView, ctrl: bool, text: Option<Seq<char>>)
    requires
        m.wf(),
    ensures
        m.pressed(0xff0d, ctrl, text) == m.confirmed(),
        m.pressed(0xff8d, ctrl, text) == m.confirmed(),
        m.allow_custom || m.filtered.len() > 0 ==> m.confirmed() == (MenuView {
            exit: true,
            result: m.confirmed().result,
            ..m
        }),
        m.filtered.len() == 0 && m.query.len() == 0 ==> m.confirmed().result == m.result,
{
}

/// The highlighted rows of the picture are those of the selected item: behind a padding
/// of six pixels, rows are twenty-four pixels high, and the prompt has the first.
pub proof fn highlight_is_the_selected_row(m: MenuView, py: int)
    requires
        m.wf(),
    ensures
        m.highlights(py) <==> m.filtered.len() > 0 && (py - 6) / 24 == m.selected - m.scroll + 1,
{
}

/// A menu has a row for the prompt and one for each item, up to fourteen, and a padding
/// of six pixels above and below.
pub proof fn menu_has_a_row_for_each_item(n: int)
    requires
        n >= 0,
    ensures
        n <= 14 ==> height_for(n) == 24 * n + 36,
        n >= 14 ==> height_for(n) == height_for(14),
{
}

/// The background is dark, the selected row lighter; both are opaque.
pub proof fn menu_colors_are_these()
    ensures
        BG == 0xff1e1e2e,
        SEL_BG == 0xff45475a,
{
}

} // verus!
