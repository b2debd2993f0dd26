//! The key sheet's answers to the keyboard: typing filters its rows, Esc clears the filter and
//! then closes it, and Enter starts the tour, whose lessons the arrows step through. And the
//! filter itself: the rows whose words or keys hold what was typed.

use vstd::prelude::*;
use crate::text::{chars_of, push_char, string_between, trim, trim_bounds};

verus! {

/// What a key on the sheet comes to for the desktop around it.
#[derive(Debug, Clone, Copy, PartialEq, Eq)]
pub enum Outcome {
    Nothing,
    Close,
}

/// The keys the sheet answers to; any other key may still type a character.
#[derive(Debug, Clone, Copy, PartialEq, Eq)]
pub enum SheetKey {
    Escape,
    Return,
    KeypadEnter,
    Right,
    Down,
    Left,
    Up,
    BackSpace,
    Other,
}

/// The sheet: whether it is open, which lesson of the tour is showing if any, and the filter
/// typed so far.
pub struct Sheet {
    open: bool,
    tour: Option<usize>,
    query: String,
}

/// A control character, as Unicode's general category `Cc` has them.
pub open spec fn is_control(c: char) -> bool {
    (c as u32) <= 0x1f || (0x7f <= (c as u32) && (c as u32) <= 0x9f)
}

/// Only the control characters are held back from the filter: every other character, the space
/// among them, is one a person types.
pub proof fn law_a_typed_character_is_no_control(c: char)
    requires
        0x20 <= (c as u32) < 0x7f || (c as u32) > 0x9f,
    ensures
        !is_control(c),
{
}

impl Sheet {
    pub closed spec fn is_shown(self) -> bool {
        self.open
    }

    pub closed spec fn lesson(self) -> Option<usize> {
        self.tour
    }

    pub closed spec fn filter(self) -> Seq<char> {
        self.query@
    }

    /// A closed sheet with nothing typed.
    pub fn new() -> (r: Self)
        ensures
            !r.is_shown(),
            r.lesson() is None,
            r.filter() == Seq::<char>::empty(),
    {
        Sheet { open: false, tour: None, query: String::new() }
    }

    pub fn is_open(&self) -> (r: bool)
        ensures
            r == self.is_shown(),
    {
        self.open
    }

    /// Opens the key list, with nothing typed.
    pub fn open(&mut self)
        ensures
            final(self).is_shown(),
            final(self).lesson() is None,
            final(self).filter() == Seq::<char>::empty(),
    {
        self.open = true;
        self.tour = None;
        self.query = String::new();
    }

    /// Starts the tour at its first lesson, from the sheet or straight from the wallpaper.
    pub fn start_tour(&mut self)
        ensures
            final(self).is_shown(),
            final(self).lesson() == Some(0usize),
            final(self).filter() == Seq::<char>::empty(),
    {
        self.open = true;
        self.tour = Some(0);
        self.query = String::new();
    }

    pub fn touring(&self) -> (r: bool)
        ensures
            r == self.lesson() is Some,
    {
        self.tour.is_some()
    }

    /// The lesson showing, if the tour is.
    pub fn lesson_showing(&self) -> (r: Option<usize>)
        ensures
            r == self.lesson(),
    {
        self.tour
    }

    /// The filter typed so far.
    pub fn query(&self) -> (r: &str)
        ensures
            r@ == self.filter(),
    {
        self.query.as_str()
    }

    pub fn close(&mut self)
        ensures
            !final(self).is_shown(),
            final(self).lesson() is None,
            final(self).filter() == old(self).filter(),
    {
        self.open = false;
        self.tour = None;
    }

    /// A key while it's open, with the character it types if any; the tour has `lessons`
    /// lessons. On the tour, Enter and the arrows right and down step on, past the last lesson
    /// back to the list, the arrows left and up step back, and Esc goes back to the list.
    /// Otherwise Enter starts the tour, typing filters the rows, Backspace takes the last
    /// character off, and Esc clears the filter, then closes.
    pub fn key(&mut self, key: SheetKey, ch: Option<char>, lessons: usize) -> (r: Outcome)
        ensures
            old(self).lesson() is None && key != SheetKey::Return && key != SheetKey::KeypadEnter && key
                != SheetKey::Escape && key != SheetKey::BackSpace && ch is Some && (0x20 <= (ch->0 as u32) < 0x7f
                || (ch->0 as u32) > 0x9f) ==> final(self).filter() == old(self).filter().push(ch->0),
            final(self).is_shown() == (old(self).is_shown() || (old(self).lesson() is None && (key == SheetKey::Return
                || key == SheetKey::KeypadEnter))),
            match old(self).lesson() {
                Some(step) => r == Outcome::Nothing && final(self).filter() == old(self).filter() && final(self).lesson()
                    == match key {
                    SheetKey::Escape => None,
                    SheetKey::Return | SheetKey::KeypadEnter | SheetKey::Right | SheetKey::Down => if step + 1
                        < lessons {
                        Some((step + 1) as usize)
                    } else {
                        None
                    },
                    SheetKey::Left | SheetKey::Up => Some(if step > 0 { (step - 1) as usize } else { 0usize }),
                    _ => Some(step),
                },
                None => match key {
                    SheetKey::Return | SheetKey::KeypadEnter => r == Outcome::Nothing && final(self).lesson()
                        == Some(0usize) && final(self).filter() == Seq::<char>::empty(),
                    SheetKey::Escape => final(self).lesson() is None && if old(self).filter().len() > 0 {
                        r == Outcome::Nothing && final(self).filter() == Seq::<char>::empty()
                    } else {
                        r == Outcome::Close && final(self).filter() == old(self).filter()
                    },
                    SheetKey::BackSpace => r == Outcome::Nothing && final(self).lesson() is None && final(self).filter()
                        == if old(self).filter().len() > 0 {
                        old(self).filter().drop_last()
                    } else {
                        old(self).filter()
                    },
                    _ => r == Outcome::Nothing && final(self).lesson() is None && final(self).filter() == match ch {
                        Some(c) => if is_control(c) {
                            old(self).filter()
                        } else {
                            old(self).filter().push(c)
                        },
                        None => old(self).filter(),
                    },
                },
            },
    {
        if let Some(step) = self.tour {
            match key {
                SheetKey::Escape => self.tour = None,
                SheetKey::Return | SheetKey::KeypadEnter | SheetKey::Right | SheetKey::Down => {
                    // Past the last lesson it goes back to the list it came from.
                    if step < lessons && lessons - step > 1 {
                        self.tour = Some(step + 1);
                    } else {
                        self.tour = None;
                    }
                },
                SheetKey::Left | SheetKey::Up => {
                    self.tour = Some(if step > 0 { step - 1 } else { 0 });
                },
                _ => return Outcome::Nothing,
            }
            return Outcome::Nothing;
        }
        // The first row of the list starts it.
        if matches!(key, SheetKey::Return | SheetKey::KeypadEnter) {
            self.start_tour();
            return Outcome::Nothing;
        }
        match key {
            SheetKey::Escape => {
                if chars_of(self.query.as_str()).len() == 0 {
                    return Outcome::Close;
                }
                self.query = String::new();
            },
            SheetKey::BackSpace => {
                let chars = chars_of(self.query.as_str());
                if chars.len() > 0 {
                    self.query = string_between(&chars, 0, chars.len() - 1);
                    assert(chars@.subrange(0, chars@.len() - 1) =~= chars@.drop_last());
                }
            },
            _ => {
                if let Some(c) = ch {
                    let code = c as u32;
                    if !(code <= 0x1f || (0x7f <= code && code <= 0x9f)) {
                        push_char(&mut self.query, c);
                    }
                }
            },
        }
        Outcome::Nothing
    }
}

} // verus!

verus! {

/// One line of the sheet: its keycaps, what they do, and the bindings it stands for.
#[derive(Debug, Clone, PartialEq)]
pub struct Row<B> {
    pub keys: Vec<String>,
    pub does: String,
    pub bindings: Vec<B>,
}

/// A titled group of rows.
#[derive(Debug, Clone, PartialEq)]
pub struct Section<G, B> {
    pub group: G,
    pub rows: Vec<Row<B>>,
}

/// What `str::to_lowercase` makes of a text.
pub uninterp spec fn lower(text: Seq<char>) -> Seq<char>;

/// `str::to_lowercase`: the text in small letters, as Unicode has them.
#[verifier::external_body]
fn lowercase(text: &str) -> (r: String)
    ensures
        r@ == lower(text@),
{
    text.to_lowercase()
}

/// Whether `piece` stands somewhere in `text`, as `str::contains` finds it.
pub open spec fn holds(text: Seq<char>, piece: Seq<char>) -> bool {
    exists|i: int| 0 <= i <= text.len() - piece.len() && #[trigger] text.subrange(i, i + piece.len()) == piece
}

/// Whether `piece` stands in `text` from position `at`.
fn stands_at(text: &Vec<char>, piece: &Vec<char>, at: usize) -> (r: bool)
    requires
        at + piece@.len() <= text@.len(),
    ensures
        r == (text@.subrange(at as int, at + piece@.len()) == piece@),
{
    let mut j: usize = 0;
    while j < piece.len()
        invariant
            j <= piece@.len(),
            at + piece@.len() <= text@.len(),
            text@.len() == text.len(),
            forall|k: int| 0 <= k < j ==> text@[at + k] == piece@[k],
        decreases piece@.len() - j,
    {
        if text[at + j] != piece[j] {
            assert(text@.subrange(at as int, at + piece@.len())[j as int] != piece@[j as int]);
            return false;
        }
        j += 1;
    }
    assert(text@.subrange(at as int, at + piece@.len()) =~= piece@);
    true
}

/// Whether `piece` stands somewhere in `text`.
fn holds_piece(text: &Vec<char>, piece: &Vec<char>) -> (r: bool)
    ensures
        r == holds(text@, piece@),
{
    if piece.len() > text.len() {
        return false;
    }
    let last = text.len() - piece.len();
    let mut at: usize = 0;
    loop
        invariant
            last == text@.len() - piece@.len(),
            at <= last,
            forall|i: int| 0 <= i < at ==> #[trigger] text@.subrange(i, i + piece@.len()) != piece@,
        decreases last - at,
    {
        if stands_at(text, piece, at) {
            return true;
        }
        if at == last {
            return false;
        }
        at += 1;
    }
}

/// Whether `row` answers `query`, already in small letters: by what it does or by a key.
pub open spec fn answers<B>(row: Row<B>, query: Seq<char>) -> bool {
    holds(lower(row.does@), query) || exists|k: int| 0 <= k < row.keys@.len() && holds(lower(#[trigger] row.keys@[k]@), query)
}

/// The rows of `rows` that answer `query`, in order.
pub open spec fn answering<B>(rows: Seq<Row<B>>, query: Seq<char>) -> Seq<Row<B>> {
    rows.filter(|row: Row<B>| answers(row, query))
}

/// A section as its group and its rows.
pub open spec fn parts<G, B>(section: Section<G, B>) -> (G, Seq<Row<B>>) {
    (section.group, section.rows@)
}

/// Each of `sections` with only its rows that answer `query`, and those with any left.
pub open spec fn answered<G, B>(sections: Seq<Section<G, B>>, query: Seq<char>) -> Seq<(G, Seq<Row<B>>)> {
    sections.map_values(|section: Section<G, B>| (section.group, answering(section.rows@, query))).filter(
        |part: (G, Seq<Row<B>>)| part.1.len() > 0,
    )
}

/// Whether `row` answers `query`.
fn row_answers<B>(row: &Row<B>, query: &Vec<char>) -> (r: bool)
    ensures
        r == answers(*row, query@),
{
    let does = chars_of(lowercase(row.does.as_str()).as_str());
    if holds_piece(&does, query) {
        return true;
    }
    let mut k: usize = 0;
    while k < row.keys.len()
        invariant
            k <= row.keys@.len(),
            !holds(lower(row.does@), query@),
            forall|i: int| 0 <= i < k ==> !holds(lower(#[trigger] row.keys@[i]@), query@),
        decreases row.keys@.len() - k,
    {
        let key = chars_of(lowercase(row.keys[k].as_str()).as_str());
        if holds_piece(&key, query) {
            return true;
        }
        k += 1;
    }
    false
}

/// The rows of `rows` that answer `query`, in order.
fn answering_rows<B>(rows: Vec<Row<B>>, query: &Vec<char>) -> (r: Vec<Row<B>>)
    ensures
        r@ == answering(rows@, query@),
{
    let ghost all = rows@;
    assert(all.len() == rows.len());
    let mut rest = rows;
    let mut kept: Vec<Row<B>> = Vec::new();
    let mut i: usize = 0;
    proof {
        assert(all.take(0) =~= Seq::<Row<B>>::empty());
        reveal(Seq::filter);
    }
    while rest.len() > 0
        invariant
            i <= all.len() <= usize::MAX,
            rest@ == all.skip(i as int),
            kept@ == answering(all.take(i as int), query@),
        decreases rest@.len(),
    {
        let row = rest.remove(0);
        proof {
            assert(row == all[i as int]);
            assert(all.take(i + 1) =~= all.take(i as int).push(row));
            all.take(i as int).lemma_filter_push(row, |row: Row<B>| answers(row, query@));
            assert(rest@ =~= all.skip(i + 1));
        }
        if row_answers(&row, query) {
            kept.push(row);
        }
        i += 1;
    }
    assert(all.take(i as int) =~= all);
    kept
}

/// The sections with only the rows that match `query` by what they do or by their keys, and
/// only those left with any. The query has the white space at its ends left out and is matched
/// in small letters, as the rows are; one with nothing left leaves the sections as they are.
pub fn filtered<G, B>(sections: Vec<Section<G, B>>, query: &str) -> (r: Vec<Section<G, B>>)
    ensures
        lower(trim(query@)).len() == 0 ==> r@ == sections@,
        lower(trim(query@)).len() > 0 ==> r@.map_values(|section: Section<G, B>| parts(section)) == answered(
            sections@,
            lower(trim(query@)),
        ),
{
    let text = chars_of(query);
    let (from, to) = trim_bounds(&text, 0, text.len());
    assert(text@.subrange(0, text@.len() as int) =~= query@);
    let trimmed = string_between(&text, from, to);
    let wanted = chars_of(lowercase(trimmed.as_str()).as_str());
    if wanted.len() == 0 {
        return sections;
    }
    let ghost q = wanted@;
    let ghost all = sections@;
    assert(all.len() == sections.len());
    let ghost pick = |section: Section<G, B>| (section.group, answering(section.rows@, q));
    let ghost full = |part: (G, Seq<Row<B>>)| part.1.len() > 0;
    let mut rest = sections;
    let mut out: Vec<Section<G, B>> = Vec::new();
    let mut i: usize = 0;
    proof {
        reveal(Seq::filter);
        assert(all.take(0).map_values(pick) =~= Seq::<(G, Seq<Row<B>>)>::empty());
        assert(out@.map_values(|section: Section<G, B>| parts(section)) =~= Seq::<(G, Seq<Row<B>>)>::empty());
    }
    while rest.len() > 0
        invariant
            i <= all.len() <= usize::MAX,
            q == wanted@,
            rest@ == all.skip(i as int),
            pick == (|section: Section<G, B>| (section.group, answering(section.rows@, q))),
            full == (|part: (G, Seq<Row<B>>)| part.1.len() > 0),
            out@.map_values(|section: Section<G, B>| parts(section)) == all.take(i as int).map_values(pick).filter(full),
        decreases rest@.len(),
    {
        let section = rest.remove(0);
        let ghost before = out@;
        proof {
            assert(section == all[i as int]);
            assert(all.take(i + 1).map_values(pick) =~= all.take(i as int).map_values(pick).push(pick(section)));
            all.take(i as int).map_values(pick).lemma_filter_push(pick(section), full);
            assert(rest@ =~= all.skip(i + 1));
        }
        let Section { group, rows } = section;
        let kept = answering_rows(rows, &wanted);
        if kept.len() > 0 {
            out.push(Section { group, rows: kept });
            proof {
                assert(out@.map_values(|section: Section<G, B>| parts(section)) =~= before.map_values(
                    |section: Section<G, B>| parts(section),
                ).push(pick(section)));
            }
        }
        i += 1;
    }
    proof {
        assert(all.take(i as int) =~= all);
    }
    out
}

} // verus!
