//! The screen-sharing picker: what an app sees when it asks to share the screen.
//!
//! The portal runs a chooser with the sources the app will accept, one per line
//! (`Monitor: eDP-1 …` and `Window: Title (identifier)`), and shares whichever line comes back,
//! or nothing if none does. Nothing is shared until a row is chosen and Enter says so.

use vstd::prelude::*;
use vstd::arithmetic::div_mod::lemma_fundamental_div_mod_converse_mod;
use crate::text::{
    begins_with, chars_of, first_where, first_word, is_space, keep_some, last_index,
    lemma_first_where, lemma_keep_some_add, lemma_last_index, lemma_line_end, lemma_lines_step, line_between,
    lines_from, lines_of, next_line_end, push_char, space, starts_with, string_between,
    string_of, trim_start,
};

verus! {

/// Rows shown at once; the list scrolls with the selection past that.
pub const VISIBLE: usize = 9;

/// Something that can be shared, as the portal named it.
#[derive(Debug, Clone, PartialEq)]
pub enum Source {
    /// A whole screen, by its output name.
    Screen { name: String },
    /// A window, by its `ext-foreign-toplevel-list-v1` identifier.
    Window { identifier: String },
}

/// A source as the rules see it.
pub enum SourceView {
    Screen(Seq<char>),
    Window(Seq<char>),
}

impl View for Source {
    type V = SourceView;

    open spec fn view(&self) -> SourceView {
        match self {
            Source::Screen { name } => SourceView::Screen(name@),
            Source::Window { identifier } => SourceView::Window(identifier@),
        }
    }
}

/// One of the portal's lines, understood.
#[derive(Debug, Clone, PartialEq)]
pub struct Choice {
    /// The line exactly as the portal sent it: the answer has to match it byte for byte.
    pub line: String,
    pub source: Source,
}

impl View for Choice {
    type V = (Seq<char>, SourceView);

    open spec fn view(&self) -> (Seq<char>, SourceView) {
        (self.line@, self.source@)
    }
}

pub open spec fn monitor_prefix() -> Seq<char> {
    seq!['M', 'o', 'n', 'i', 't', 'o', 'r', ':', ' ']
}

pub open spec fn window_prefix() -> Seq<char> {
    seq!['W', 'i', 'n', 'd', 'o', 'w', ':', ' ']
}

/// What a window line names: the identifier in the last pair of brackets, which close the line.
pub open spec fn identifier_in(rest: Seq<char>) -> Option<Seq<char>> {
    match last_index(rest, '(') {
        Some(open) => {
            let tail = rest.skip(open + 1);
            if tail.len() > 0 && tail.last() == ')' && tail.len() > 1 {
                Some(tail.drop_last())
            } else {
                None
            }
        },
        None => None,
    }
}

/// What one of the portal's lines names, if it names anything.
pub open spec fn source_of(line: Seq<char>) -> Option<SourceView> {
    if starts_with(line, monitor_prefix()) {
        match first_word(line.skip(monitor_prefix().len() as int)) {
            Some(name) => Some(SourceView::Screen(name)),
            None => None,
        }
    } else if starts_with(line, window_prefix()) {
        match identifier_in(line.skip(window_prefix().len() as int)) {
            Some(identifier) => Some(SourceView::Window(identifier)),
            None => None,
        }
    } else {
        None
    }
}

/// One of the portal's lines as a choice, if it names something.
pub open spec fn choice_of(line: Seq<char>) -> Option<(Seq<char>, SourceView)> {
    match source_of(line) {
        Some(source) => Some((line, source)),
        None => None,
    }
}

/// `choice_of`, as a function to map lines with.
pub open spec fn reading() -> spec_fn(Seq<char>) -> Option<(Seq<char>, SourceView)> {
    |line: Seq<char>| choice_of(line)
}

pub open spec fn choices_view(c: Seq<Choice>) -> Seq<(Seq<char>, SourceView)> {
    c.map_values(|x: Choice| x@)
}

/// The portal's list, understood: a choice for each line that names a screen or a window, in
/// order.
pub open spec fn choices_in(list: Seq<char>) -> Seq<(Seq<char>, SourceView)> {
    keep_some(lines_of(list).map_values(reading()))
}

/// The position of the last `(` in `v` from `from` on.
fn last_open(v: &Vec<char>, from: usize) -> (r: Option<usize>)
    requires
        from <= v@.len(),
    ensures
        match last_index(v@.skip(from as int), '(') {
            Some(i) => r matches Some(k) && k == from + i,
            None => r is None,
        },
{
    let mut end = v.len();
    while end > from
        invariant
            from <= end <= v@.len(),
            last_index(v@.skip(from as int), '(') == last_index(v@.subrange(from as int, end as int), '('),
        decreases end,
    {
        assert(v@.subrange(from as int, end as int).drop_last() =~= v@.subrange(from as int, end - 1));
        if v[end - 1] == '(' {
            return Some(end - 1);
        }
        end -= 1;
    }
    assert(v@.subrange(from as int, end as int).len() == 0);
    None
}

/// The first word of `v` from `from` on, if there is one.
fn word_from(v: &Vec<char>, from: usize) -> (r: Option<String>)
    requires
        from <= v@.len(),
    ensures
        match first_word(v@.skip(from as int)) {
            Some(w) => r matches Some(s) && s@ == w,
            None => r is None,
        },
{
    let ghost t = v@.skip(from as int);
    let mut lo = from;
    while lo < v.len() && space(v[lo])
        invariant
            from <= lo <= v@.len(),
            trim_start(t) == trim_start(v@.skip(lo as int)),
        decreases v@.len() - lo,
    {
        assert(v@.skip(lo as int).drop_first() =~= v@.skip(lo + 1));
        lo += 1;
    }
    assert(trim_start(v@.skip(lo as int)) == v@.skip(lo as int));
    if lo == v.len() {
        return None;
    }
    let ghost s = v@.skip(lo as int);
    let mut hi = lo;
    while hi < v.len() && !space(v[hi])
        invariant
            lo <= hi <= v@.len(),
            forall|j: int| lo <= j < hi ==> !is_space(#[trigger] v@[j]),
        decreases v@.len() - hi,
    {
        hi += 1;
    }
    proof {
        lemma_first_where(s, |c: char| is_space(c));
        assert forall|j: int| 0 <= j < hi - lo implies !is_space(#[trigger] s[j]) by {
            assert(s[j] == v@[lo + j]);
        }
        if hi < v@.len() {
            assert(is_space(s[hi - lo]));
            assert(first_where(s, |c: char| is_space(c)) == Some(hi - lo));
            assert(s.take(hi - lo) =~= v@.subrange(lo as int, hi as int));
        } else {
            assert(first_where(s, |c: char| is_space(c)) is None);
            assert(s =~= v@.subrange(lo as int, hi as int));
        }
    }
    Some(string_between(v, lo, hi))
}

/// What one of the portal's lines names, if it names anything.
fn source_in(line: &Vec<char>) -> (r: Option<Source>)
    ensures
        match source_of(line@) {
            Some(s) => r matches Some(x) && x@ == s,
            None => r is None,
        },
{
    let monitor = vec!['M', 'o', 'n', 'i', 't', 'o', 'r', ':', ' '];
    let window = vec!['W', 'i', 'n', 'd', 'o', 'w', ':', ' '];
    assert(monitor@ =~= monitor_prefix());
    assert(window@ =~= window_prefix());
    assert(line@.skip(0) =~= line@);
    if begins_with(line, 0, &monitor) {
        match word_from(line, 9) {
            Some(name) => Some(Source::Screen { name }),
            None => None,
        }
    } else if begins_with(line, 0, &window) {
        let open = match last_open(line, 8) {
            Some(open) => open,
            None => return None,
        };
        let ghost rest = line@.skip(8);
        proof {
            lemma_last_index(rest, '(');
        }
        assert(line@.skip(open + 1) =~= rest.skip(open - 8 + 1));
        let n = line.len();
        if n - (open + 1) > 1 && line[n - 1] == ')' {
            let identifier = string_between(line, open + 1, n - 1);
            assert(rest.skip(open - 8 + 1).drop_last() =~= line@.subrange(open + 1, n - 1));
            Some(Source::Window { identifier })
        } else {
            None
        }
    } else {
        None
    }
}

/// Reads the portal's list. Lines that are neither a screen nor a window are left out rather
/// than offered as something nobody can name.
pub fn parse(list: &str) -> (r: Vec<Choice>)
    ensures
        choices_view(r@) == choices_in(list@),
{
    let v = chars_of(list);
    let ghost f = reading();
    let mut out: Vec<Choice> = Vec::new();
    let mut from: usize = 0;
    assert(lines_of(v@) == lines_from(v@, 0));
    while from < v.len()
        invariant
            from <= v@.len(),
            v@ == list@,
            f == reading(),
            keep_some(lines_from(v@, 0).map_values(f)) == choices_view(out@) + keep_some(
                lines_from(v@, from as int).map_values(f),
            ),
        decreases v@.len() - from,
    {
        let end = next_line_end(&v, from);
        proof {
            lemma_line_end(v@, from as int);
            lemma_lines_step(v@, from as int);
        }
        let line = line_between(&v, from, end);
        let ghost here = seq![line@];
        let ghost later = lines_from(v@, end + 1);
        let ghost one = here.map_values(f);
        proof {
            assert(lines_from(v@, from as int) == here + later);
            assert((here + later).map_values(f) =~= one + later.map_values(f));
            lemma_keep_some_add(one, later.map_values(f));
            assert(one.drop_first() =~= Seq::<Option<(Seq<char>, SourceView)>>::empty());
            assert(here[0] == line@);
            assert(one[0] == choice_of(line@));
            reveal_with_fuel(keep_some, 2);
            assert(keep_some(one.drop_first()) =~= Seq::<(Seq<char>, SourceView)>::empty());
            if let Some(c) = choice_of(line@) {
                assert(seq![c] + Seq::<(Seq<char>, SourceView)>::empty() =~= seq![c]);
            }
            assert(keep_some(one) == match choice_of(line@) {
                Some(c) => seq![c],
                None => Seq::<(Seq<char>, SourceView)>::empty(),
            });
        }
        let ghost before = out@;
        match source_in(&line) {
            Some(source) => {
                let text = string_of(&line);
                let choice = Choice { line: text, source };
                out.push(choice);
                assert(choices_view(out@) =~= choices_view(before) + seq![choice@]);
            },
            None => {},
        }
        assert(choices_view(out@) + keep_some(later.map_values(f)) =~= choices_view(before) + keep_some(
            lines_from(v@, from as int).map_values(f),
        ));
        proof {
            if end == v@.len() {
                assert(later.map_values(f) =~= lines_from(v@, v@.len() as int).map_values(f));
            }
        }
        from = if end < v.len() { end + 1 } else { v.len() };
    }
    proof {
        assert(lines_from(v@, from as int).map_values(f) =~= Seq::<Option<(Seq<char>, SourceView)>>::empty());
        assert(choices_view(out@) + Seq::<(Seq<char>, SourceView)>::empty() =~= choices_view(out@));
    }
    out
}

/// What an answer came to.
#[derive(Debug, Clone, Copy, PartialEq, Eq)]
pub enum Act {
    Nothing,
    /// Share the selected row.
    Share,
    /// Share nothing.
    Cancel,
}

/// The keys the picker answers to.
#[derive(Debug, Clone, Copy, PartialEq, Eq)]
pub enum Key {
    Return,
    KeypadEnter,
    Escape,
    Down,
    Up,
    Tab,
    LeftTab,
    Home,
    End,
    /// Any other key, which does nothing.
    Other,
}

/// The picker's list of choices and which of them is selected, while an app waits for an answer.
pub struct Picker {
    choices: Vec<Choice>,
    selected: usize,
    /// The first row in view.
    top: usize,
}

/// Where the selection lands when `index` is asked for among `count` rows.
pub open spec fn clamped(index: int, count: int) -> int {
    if index < count - 1 { index } else if count > 0 { count - 1 } else { 0 }
}

/// The first row in view once `selected` is selected, from `top` before: the view moves just far
/// enough to show it.
pub open spec fn scrolled(selected: int, top: int) -> int {
    if selected < top {
        selected
    } else if selected >= top + VISIBLE {
        selected + 1 - VISIBLE
    } else {
        top
    }
}

impl Picker {
    /// The selection is a row of the list, and in view.
    pub closed spec fn wf(self) -> bool {
        &&& (self.choices@.len() == 0 ==> self.selected == 0 && self.top == 0)
        &&& (self.choices@.len() > 0 ==> self.selected < self.choices@.len())
        &&& self.top <= self.selected < self.top + VISIBLE
    }

    pub closed spec fn choice_list(self) -> Seq<Choice> {
        self.choices@
    }

    pub closed spec fn selected_row(self) -> int {
        self.selected as int
    }

    pub closed spec fn top_row(self) -> int {
        self.top as int
    }

    /// A picker with the first row selected and in view.
    pub fn new(choices: Vec<Choice>) -> (r: Self)
        ensures
            r.wf(),
            r.choice_list() == choices@,
            r.selected_row() == 0,
            r.top_row() == 0,
    {
        Picker { choices, selected: 0, top: 0 }
    }

    /// The row selected.
    pub fn selected(&self) -> (r: usize)
        ensures
            r == self.selected_row(),
    {
        self.selected
    }

    /// The first row in view.
    pub fn top(&self) -> (r: usize)
        ensures
            r == self.top_row(),
    {
        self.top
    }

    /// Enter shares and Escape cancels; the arrows and Tab move the selection round the list,
    /// and Home and End take it to either end.
    pub fn key(&mut self, key: Key, shift: bool) -> (r: Act)
        requires
            old(self).wf(),
        ensures
            final(self).wf(),
            final(self).choice_list() == old(self).choice_list(),
            r == match key {
                Key::Return | Key::KeypadEnter => Act::Share,
                Key::Escape => Act::Cancel,
                _ => Act::Nothing,
            },
            ({
                let count = old(self).choice_list().len() as int;
                let moved = match key {
                    Key::Down => Some(if count > 0 { (old(self).selected_row() + 1) % count } else { 0 }),
                    Key::Up => Some(if count > 0 { (old(self).selected_row() - 1) % count } else { 0 }),
                    Key::Tab => Some(
                        if count > 0 {
                            (old(self).selected_row() + if shift { -1int } else { 1int }) % count
                        } else {
                            0
                        },
                    ),
                    Key::LeftTab => Some(if count > 0 { (old(self).selected_row() - 1) % count } else { 0 }),
                    Key::Home => Some(0int),
                    Key::End => Some(clamped(count - 1, count)),
                    _ => None,
                };
                match moved {
                    Some(s) => final(self).selected_row() == s && final(self).top_row() == scrolled(
                        s,
                        old(self).top_row(),
                    ),
                    None => final(self).selected_row() == old(self).selected_row()
                        && final(self).top_row() == old(self).top_row(),
                }
            }),
    {
        match key {
            Key::Return | Key::KeypadEnter => Act::Share,
            Key::Escape => Act::Cancel,
            Key::Down => self.step(true),
            Key::Up => self.step(false),
            Key::Tab => self.step(!shift),
            Key::LeftTab => self.step(false),
            Key::Home => self.select(0),
            Key::End => {
                let last = if self.choices.len() > 0 { self.choices.len() - 1 } else { 0 };
                self.select(last)
            },
            Key::Other => Act::Nothing,
        }
    }

    /// Moves the selection one row on (`forward`) or back, round from either end to the other.
    fn step(&mut self, forward: bool) -> (r: Act)
        requires
            old(self).wf(),
        ensures
            final(self).wf(),
            r == Act::Nothing,
            final(self).choices@ == old(self).choices@,
            ({
                let count = old(self).choices@.len() as int;
                let s = if count > 0 {
                    (old(self).selected + if forward { 1int } else { -1int }) % count
                } else {
                    0
                };
                final(self).selected == s && final(self).top == scrolled(s, old(self).top as int)
            }),
    {
        let count = self.choices.len();
        if count > 0 {
            let next = if forward {
                if self.selected + 1 == count { 0 } else { self.selected + 1 }
            } else {
                if self.selected == 0 { count - 1 } else { self.selected - 1 }
            };
            proof {
                let x = self.selected + if forward { 1int } else { -1int };
                if x < 0 {
                    assert(x == -1 * count + next);
                    lemma_fundamental_div_mod_converse_mod(x, count as int, -1, next as int);
                } else if x >= count {
                    assert(x == 1 * count + next);
                    lemma_fundamental_div_mod_converse_mod(x, count as int, 1, next as int);
                } else {
                    assert(x == 0 * count + next);
                    lemma_fundamental_div_mod_converse_mod(x, count as int, 0, next as int);
                }
            }
            self.select(next)
        } else {
            Act::Nothing
        }
    }

    /// Selects row `index`, or the last row for one past the end, and scrolls it into view.
    fn select(&mut self, index: usize) -> (r: Act)
        requires
            old(self).wf(),
        ensures
            final(self).wf(),
            r == Act::Nothing,
            final(self).choices@ == old(self).choices@,
            final(self).selected == clamped(index as int, old(self).choices@.len() as int),
            final(self).top == scrolled(final(self).selected as int, old(self).top as int),
    {
        let count = self.choices.len();
        let last = if count > 0 { count - 1 } else { 0 };
        self.selected = if index < last { index } else { last };
        if self.selected < self.top {
            self.top = self.selected;
        } else if self.selected - self.top >= VISIBLE {
            self.top = self.selected + 1 - VISIBLE;
        }
        Act::Nothing
    }

    /// A click on row `row` of those in view: on the selected one it shares, on another it
    /// selects that one.
    pub fn click_row(&mut self, row: usize) -> (r: Act)
        requires
            old(self).wf(),
            old(self).top_row() + row <= usize::MAX,
        ensures
            final(self).wf(),
            final(self).choice_list() == old(self).choice_list(),
            old(self).top_row() + row == old(self).selected_row() ==> r == Act::Share
                && final(self).selected_row() == old(self).selected_row()
                && final(self).top_row() == old(self).top_row(),
            old(self).top_row() + row != old(self).selected_row() ==> r == Act::Nothing
                && final(self).selected_row() == clamped(
                old(self).top_row() + row,
                old(self).choice_list().len() as int,
            ) && final(self).top_row() == scrolled(final(self).selected_row(), old(self).top_row()),
    {
        let index = self.top + row;
        if index == self.selected {
            Act::Share
        } else {
            self.select(index)
        }
    }

    /// The line the portal will recognise for the selected row.
    pub fn chosen(&self) -> (r: Option<&Choice>)
        requires
            self.wf(),
        ensures
            self.choice_list().len() == 0 ==> r is None,
            self.choice_list().len() > 0 ==> r == Some(&self.choice_list()[self.selected_row()]),
    {
        if self.selected < self.choices.len() {
            Some(&self.choices[self.selected])
        } else {
            None
        }
    }

    /// What goes back to the portal: the selected row's own line and a newline when sharing,
    /// nothing when not, which the portal reads as declined.
    pub fn answer_line(&self, share: bool) -> (r: Option<String>)
        requires
            self.wf(),
        ensures
            (share && self.choice_list().len() > 0) ==> (r matches Some(s)
                && s@ == self.choice_list()[self.selected_row()].line@.push('\n')),
            !(share && self.choice_list().len() > 0) ==> r is None,
    {
        if !share {
            return None;
        }
        match self.chosen() {
            Some(choice) => {
                let mut line = choice.line.clone();
                push_char(&mut line, '\n');
                Some(line)
            },
            None => None,
        }
    }
}

} // verus!
