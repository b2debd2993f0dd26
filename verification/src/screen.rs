//! The screens the desktop is spread across, and which workspace each one shows.

use vstd::prelude::*;
use crate::layout::{Direction, Rect};
use crate::text::{first_where, lemma_first_where, lemma_first_where_at, lemma_first_where_none};

verus! {

/// What is drawn over the focused screen when a press lands on another one.
#[derive(Debug, Clone, Copy, PartialEq, Eq)]
pub enum Overlay {
    Nothing,
    /// The explorer, quick settings, the notification centre or the shortcut sheet.
    Panel,
    /// Something that asks or takes every click: a picker, an offer, a card or an overview.
    Card,
}

/// What a press on a screen other than the focused one does.
#[derive(Debug, Clone, Copy, PartialEq, Eq)]
pub enum PressElsewhere {
    MoveKeyboard,
    /// As a click outside the panel would: it closes, and the keyboard stays.
    ClosePanels,
    /// Nothing at all: the card is still up, on the screen the keyboard is on.
    Ignore,
}

pub open spec fn press_elsewhere_spec(overlay: Overlay) -> PressElsewhere {
    match overlay {
        Overlay::Nothing => PressElsewhere::MoveKeyboard,
        Overlay::Panel => PressElsewhere::ClosePanels,
        Overlay::Card => PressElsewhere::Ignore,
    }
}

pub fn press_elsewhere(overlay: Overlay) -> (r: PressElsewhere)
    ensures
        r == press_elsewhere_spec(overlay),
{
    match overlay {
        Overlay::Nothing => PressElsewhere::MoveKeyboard,
        Overlay::Panel => PressElsewhere::ClosePanels,
        Overlay::Card => PressElsewhere::Ignore,
    }
}

/// Whether `d` runs across (left or right) rather than up or down.
pub open spec fn across(d: Direction) -> bool {
    d is Left || d is Right
}

/// Where `r` starts and ends along the axis `d` runs on.
pub open spec fn span(r: Rect, d: Direction) -> (int, int) {
    if across(d) {
        (r.x as int, r.x + r.w)
    } else {
        (r.y as int, r.y + r.h)
    }
}

/// How far `there` lies on the `d` side of `here`, when it lies wholly on that side.
pub open spec fn gap(here: Rect, there: Rect, d: Direction) -> Option<int> {
    let (here_near, here_far) = span(here, d);
    let (near, far) = span(there, d);
    if d is Left || d is Up {
        if far <= here_near { Some(here_near - far) } else { None }
    } else {
        if near >= here_far { Some(near - here_far) } else { None }
    }
}

/// How much of the other axis `here` and `there` share, never below nothing.
pub open spec fn overlap(here: Rect, there: Rect, d: Direction) -> int {
    let o = if across(d) {
        vstd::math::min(here.y + here.h, there.y + there.h) - vstd::math::max(here.y as int, there.y as int)
    } else {
        vstd::math::min(here.x + here.w, there.x + there.w) - vstd::math::max(here.x as int, there.x as int)
    };
    if o < 0 { 0 } else { o }
}

/// Whether screen `i` is a candidate for going `d` from screen `from`.
pub open spec fn candidate(rects: Seq<Rect>, from: int, i: int, d: Direction) -> bool {
    &&& 0 <= i < rects.len()
    &&& i != from
    &&& gap(rects[from], rects[i], d) is Some
}

/// Nearer first, and among equally near, the one that lines up best.
pub open spec fn closer(rects: Seq<Rect>, from: int, i: int, j: int, d: Direction) -> bool {
    let gi = gap(rects[from], rects[i], d)->0;
    let gj = gap(rects[from], rects[j], d)->0;
    gi < gj || (gi == gj && overlap(rects[from], rects[i], d) > overlap(rects[from], rects[j], d))
}

/// Whether candidates `i` and `j` are equally good.
pub open spec fn level(rects: Seq<Rect>, from: int, i: int, j: int, d: Direction) -> bool {
    gap(rects[from], rects[i], d) == gap(rects[from], rects[j], d)
        && overlap(rects[from], rects[i], d) == overlap(rects[from], rects[j], d)
}

/// The screen `direction` of the one at `from`, by where the screens actually sit: the nearest on
/// that side, and among equals the one that lines up with it best across the other axis; among
/// screens equal in both, the first.
pub fn towards(rects: &[Rect], from: usize, direction: Direction) -> (r: Option<usize>)
    ensures
        from >= rects@.len() ==> r is None,
        from < rects@.len() ==> (r is None <==> forall|i: int| !candidate(rects@, from as int, i, direction)),
        r matches Some(i) ==> {
            &&& from < rects@.len()
            &&& candidate(rects@, from as int, i as int, direction)
            &&& forall|j: int| #[trigger] candidate(rects@, from as int, j, direction) ==>
                    !closer(rects@, from as int, j, i as int, direction)
                    && (level(rects@, from as int, j, i as int, direction) ==> i <= j)
        },
{
    if from >= rects.len() {
        return None;
    }
    let here = rects[from];
    let horizontal = match direction {
        Direction::Left | Direction::Right => true,
        _ => false,
    };
    let backwards = match direction {
        Direction::Left | Direction::Up => true,
        _ => false,
    };
    let (here_near, here_far): (i64, i64) = if horizontal {
        (here.x as i64, here.x as i64 + here.w as i64)
    } else {
        (here.y as i64, here.y as i64 + here.h as i64)
    };
    let mut best: Option<(usize, i64, i64)> = None;
    let mut i: usize = 0;
    while i < rects.len()
        invariant
            from < rects@.len(),
            here == rects@[from as int],
            i <= rects@.len(),
            horizontal == across(direction),
            backwards == (direction is Left || direction is Up),
            (here_near as int, here_far as int) == span(here, direction),
            best matches Some((b, g, o)) ==> {
                &&& b < i
                &&& candidate(rects@, from as int, b as int, direction)
                &&& gap(here, rects@[b as int], direction) == Some(g as int)
                &&& overlap(here, rects@[b as int], direction) == o as int
            },
            best is None ==> forall|j: int| 0 <= j < i ==> !candidate(rects@, from as int, j, direction),
            best matches Some((b, g, o)) ==> forall|j: int| 0 <= j < i && #[trigger] candidate(rects@, from as int, j, direction) ==>
                !closer(rects@, from as int, j, b as int, direction)
                && (level(rects@, from as int, j, b as int, direction) ==> b <= j),
        decreases rects@.len() - i,
    {
        let there = rects[i];
        if i != from {
            let (near, far): (i64, i64) = if horizontal {
                (there.x as i64, there.x as i64 + there.w as i64)
            } else {
                (there.y as i64, there.y as i64 + there.h as i64)
            };
            let gap_here: Option<i64> = if backwards {
                if far <= here_near { Some(here_near - far) } else { None }
            } else {
                if near >= here_far { Some(near - here_far) } else { None }
            };
            if let Some(g) = gap_here {
                let (lo, hi): (i64, i64) = if horizontal {
                    (
                        if here.y as i64 > there.y as i64 { here.y as i64 } else { there.y as i64 },
                        if (here.y as i64 + here.h as i64) < (there.y as i64 + there.h as i64) {
                            here.y as i64 + here.h as i64
                        } else {
                            there.y as i64 + there.h as i64
                        },
                    )
                } else {
                    (
                        if here.x as i64 > there.x as i64 { here.x as i64 } else { there.x as i64 },
                        if (here.x as i64 + here.w as i64) < (there.x as i64 + there.w as i64) {
                            here.x as i64 + here.w as i64
                        } else {
                            there.x as i64 + there.w as i64
                        },
                    )
                };
                let o: i64 = if hi - lo < 0 { 0 } else { hi - lo };
                assert(overlap(here, there, direction) == o as int);
                let better = match best {
                    None => true,
                    Some((_, bg, bo)) => g < bg || (g == bg && o > bo),
                };
                if better {
                    best = Some((i, g, o));
                }
            }
        }
        i += 1;
    }
    match best {
        Some((b, _, _)) => Some(b),
        None => None,
    }
}


/// Where workspace `i` went in an edit of the list.
fn follow(map: &[usize], count: usize, i: usize) -> (r: usize)
    requires
        count > 0,
    ensures
        r == follows(map@, count, i),
        r < count,
{
    let to = if i < map.len() { map[i] } else { 0 };
    if to < count { to } else { count - 1 }
}

fn contains(v: &Vec<usize>, x: usize) -> (r: bool)
    ensures
        r == v@.contains(x),
{
    let mut i: usize = 0;
    while i < v.len()
        invariant
            i <= v@.len(),
            forall|j: int| 0 <= j < i ==> v@[j] != x,
        decreases v@.len() - i,
    {
        if v[i] == x {
            return true;
        }
        i += 1;
    }
    false
}

/// The lowest of the first `count` workspaces not in `taken`, or the first.
/// Whether `v[k]` is among the items of `v` before it.
fn contains_before(v: &Vec<usize>, k: usize) -> (r: bool)
    requires
        k < v@.len(),
    ensures
        r == v@.take(k as int).contains(v@[k as int]),
{
    let mut i: usize = 0;
    while i < k
        invariant
            i <= k < v@.len(),
            forall|j: int| 0 <= j < i ==> v@[j] != v@[k as int],
        decreases k - i,
    {
        if v[i] == v[k] {
            assert(v@.take(k as int)[i as int] == v@[k as int]);
            return true;
        }
        i += 1;
    }
    assert forall|j: int| 0 <= j < k implies v@.take(k as int)[j] != v@[k as int] by {}
    false
}

fn lowest_not_in(taken: &Vec<usize>, count: usize) -> (r: usize)
    requires
        count > 0,
    ensures
        r == match free_of(taken@, count as nat) {
            Some(w) => w,
            None => 0,
        },
        r < count,
{
    let mut w: usize = 0;
    while w < count
        invariant
            w <= count,
            free_of(taken@, w as nat) is None,
        decreases count - w,
    {
        if !contains(taken, w) {
            proof {
                assert(free_of(taken@, (w + 1) as nat) == Some(w));
                lemma_free_of(taken@, (w + 1) as nat);
                lemma_free_of(taken@, count as nat);
            }
            return w;
        }
        w += 1;
    }
    0
}

/// There are `count` homes after an edit.
pub proof fn lemma_homes_followed_len(homes: Seq<Option<Seq<char>>>, map: Seq<usize>, count: usize)
    requires
        count > 0,
    ensures
        homes_followed(homes, map, count).len() == count,
    decreases homes.len(),
{
    if homes.len() > 0 {
        lemma_homes_followed_len(homes.drop_last(), map, count);
    }
}

/// What a screen is known by from one connection to the next: its connector's name.
pub trait Named {
    fn name(&self) -> String;
}

impl Named for str {
    fn name(&self) -> (r: String)
        ensures
            r@ == self@,
    {
        self.to_owned()
    }
}

impl Named for String {
    fn name(&self) -> (r: String)
        ensures
            r@ == self@,
    {
        self.clone()
    }
}

/// One screen: an output, known by its connector's name, and the workspace it is showing.
#[derive(Debug, Clone, PartialEq, Eq)]
pub struct Screen {
    pub output: String,
    /// Where its top left corner sits in the layout of screens, in logical pixels.
    pub x: i32,
    pub y: i32,
    /// 0-based.
    pub workspace: usize,
    /// The workspace it was showing before it took over one from a screen that went out, to go
    /// back to when that screen returns. Cleared by anything else it's asked to show.
    pub carried_from: Option<usize>,
}

/// A screen as the rules see it.
pub struct ScreenView {
    pub output: Seq<char>,
    pub x: i32,
    pub y: i32,
    pub workspace: usize,
    /// The workspace it goes back to when the screen whose workspace it carries returns.
    pub carried_from: Option<usize>,
}

impl View for Screen {
    type V = ScreenView;

    open spec fn view(&self) -> ScreenView {
        ScreenView {
            output: self.output@,
            x: self.x,
            y: self.y,
            workspace: self.workspace,
            carried_from: self.carried_from,
        }
    }
}

/// Where a screen sits: left to right, then top to bottom.
pub open spec fn sits_before(a: ScreenView, b: ScreenView) -> bool {
    a.x < b.x || (a.x == b.x && a.y < b.y)
}

/// Screens in order sit left to right, and those one above the other top to bottom.
pub proof fn law_sorted_screens_run_left_to_right_then_top_to_bottom(s: Seq<ScreenView>)
    requires
        sorted(s),
    ensures
        forall|i: int, j: int| 0 <= i < j < s.len() ==> #[trigger] s[i].x < #[trigger] s[j].x
            || (s[i].x == s[j].x && s[i].y <= s[j].y),
{
    assert forall|i: int, j: int| 0 <= i < j < s.len() implies #[trigger] s[i].x < #[trigger] s[j].x
        || (s[i].x == s[j].x && s[i].y <= s[j].y) by {
        assert(!sits_before(s[j], s[i]));
    }
}

pub open spec fn same_place(a: ScreenView, b: ScreenView) -> bool {
    a.x == b.x && a.y == b.y
}

/// Screens in the order they sit in.
pub open spec fn sorted(s: Seq<ScreenView>) -> bool {
    forall|i: int, j: int| 0 <= i < j < s.len() ==> !sits_before(#[trigger] s[j], #[trigger] s[i])
}

/// No two screens are the same output.
pub open spec fn distinct_outputs(s: Seq<ScreenView>) -> bool {
    forall|i: int, j: int|
        0 <= i < s.len() && 0 <= j < s.len() && i != j ==> #[trigger] s[i].output != #[trigger] s[j].output
}

/// No two screens show the same workspace.
pub open spec fn distinct_workspaces(s: Seq<ScreenView>) -> bool {
    forall|i: int, j: int|
        0 <= i < s.len() && 0 <= j < s.len() && i != j ==> #[trigger] s[i].workspace != #[trigger] s[j].workspace
}

pub open spec fn is_output(name: Seq<char>) -> spec_fn(ScreenView) -> bool {
    |s: ScreenView| s.output == name
}

pub open spec fn is_showing(workspace: usize) -> spec_fn(ScreenView) -> bool {
    |s: ScreenView| s.workspace == workspace
}

/// Where `name` is in `s`.
pub open spec fn find_output(s: Seq<ScreenView>, name: Seq<char>) -> Option<int> {
    first_where(s, is_output(name))
}

/// Which screen in `s` is showing `workspace`: the first, if several are.
pub open spec fn find_showing(s: Seq<ScreenView>, workspace: usize) -> Option<int> {
    first_where(s, is_showing(workspace))
}

/// A remembered name as text.
pub open spec fn name_view(h: Option<String>) -> Option<Seq<char>> {
    match h {
        Some(s) => Some(s@),
        None => None,
    }
}

/// `homes` once `workspace` has been last shown on the screen called `name`.
pub open spec fn homes_with(homes: Seq<Option<Seq<char>>>, workspace: usize, name: Seq<char>) -> Seq<Option<Seq<char>>> {
    let grown = if homes.len() <= workspace {
        homes + Seq::new((workspace + 1 - homes.len()) as nat, |i: int| None::<Seq<char>>)
    } else {
        homes
    };
    grown.update(workspace as int, Some(name))
}

/// What going to a workspace did.
#[derive(Debug, Default, PartialEq, Eq)]
pub struct Show {
    /// Whether anything changed at all.
    pub changed: bool,
    /// The workspace the focused screen was showing.
    pub from: usize,
    /// The screen the keyboard moved to, already showing the workspace; `None` when the focused
    /// screen shows it instead.
    pub moved_to: Option<usize>,
}

/// `s` with the screen at `i` showing `workspace`, carrying nothing.
pub open spec fn showing_now(s: Seq<ScreenView>, i: int, workspace: usize) -> Seq<ScreenView> {
    s.update(i, ScreenView { workspace, carried_from: None, ..s[i] })
}

/// Where a workspace is laid out and drawn: the screen showing it; else the screen that last
/// showed it, if that one is lit; else the focused one.
pub open spec fn home_screen(s: Seq<ScreenView>, homes: Seq<Option<Seq<char>>>, focused: usize, index: usize) -> usize {
    match find_showing(s, index) {
        Some(i) => i as usize,
        None => if index < homes.len() && homes[index as int] is Some && find_output(s, homes[index as int]->0) is Some {
            find_output(s, homes[index as int]->0)->0 as usize
        } else {
            focused
        },
    }
}

/// A workspace is laid out on the screen showing it; else on the lit screen that last showed it;
/// else on the focused screen, where it would appear if switched to.
pub proof fn law_where_a_workspace_is_laid_out(s: Seq<ScreenView>, homes: Seq<Option<Seq<char>>>, focused: usize, index: usize)
    requires
        s.len() <= usize::MAX,
    ensures
        ({
            let r = home_screen(s, homes, focused, index);
            &&& (exists|k: int| 0 <= k < s.len() && #[trigger] s[k].workspace == index) ==> r < s.len() && s[r as int].workspace
                == index
            &&& (forall|k: int| 0 <= k < s.len() ==> #[trigger] s[k].workspace != index) && index < homes.len()
                && homes[index as int] is Some && (exists|k: int| 0 <= k < s.len() && #[trigger] s[k].output
                == homes[index as int]->0)
                ==> r < s.len() && s[r as int].output == homes[index as int]->0
            &&& (forall|k: int| 0 <= k < s.len() ==> #[trigger] s[k].workspace != index) && (index >= homes.len()
                || homes[index as int] is None || forall|k: int| 0 <= k < s.len() ==> #[trigger] s[k].output
                != homes[index as int]->0) ==> r == focused
        }),
{
    lemma_first_where(s, is_showing(index));
    if index < homes.len() && homes[index as int] is Some {
        lemma_first_where(s, is_output(homes[index as int]->0));
        if exists|k: int| 0 <= k < s.len() && #[trigger] s[k].output == homes[index as int]->0 {
            let k = choose|k: int| 0 <= k < s.len() && #[trigger] s[k].output == homes[index as int]->0;
            assert(is_output(homes[index as int]->0)(s[k]));
        }
    }
    if exists|k: int| 0 <= k < s.len() && #[trigger] s[k].workspace == index {
        let k = choose|k: int| 0 <= k < s.len() && #[trigger] s[k].workspace == index;
        assert(is_showing(index)(s[k]));
    }
}

/// Only those that went out showing a workspace below `count`.
pub open spec fn gone_below(g: Seq<(Seq<char>, usize)>, count: usize) -> Seq<(Seq<char>, usize)>
    decreases g.len(),
{
    if g.len() == 0 {
        g
    } else if g.last().1 < count {
        gone_below(g.drop_last(), count).push(g.last())
    } else {
        gone_below(g.drop_last(), count)
    }
}

/// All but the one called `name`.
pub open spec fn gone_but(g: Seq<(Seq<char>, usize)>, name: Seq<char>) -> Seq<(Seq<char>, usize)>
    decreases g.len(),
{
    if g.len() == 0 {
        g
    } else if g.last().0 != name {
        gone_but(g.drop_last(), name).push(g.last())
    } else {
        gone_but(g.drop_last(), name)
    }
}

/// A screen that no longer goes back to a workspace past `count`.
pub open spec fn forget_carried(s: ScreenView, count: usize) -> ScreenView {
    match s.carried_from {
        Some(own) => if own >= count { ScreenView { carried_from: None, ..s } } else { s },
        None => s,
    }
}

/// Whether `r`, at `k` among the others, stays ahead of `v` once `v` is put among them: it sits
/// before it, or at the same place and was ahead of it already (`k < before`).
pub open spec fn stays_ahead(r: ScreenView, v: ScreenView, k: int, before: int) -> bool {
    sits_before(r, v) || (same_place(r, v) && k < before)
}

/// `p` is where `v` goes among `rest`, which keep their order.
pub open spec fn slot_for(rest: Seq<ScreenView>, v: ScreenView, before: int, p: int) -> bool {
    &&& 0 <= p <= rest.len()
    &&& forall|k: int| 0 <= k < p ==> stays_ahead(#[trigger] rest[k], v, k, before)
    &&& forall|k: int| p <= k < rest.len() ==> !stays_ahead(#[trigger] rest[k], v, k, before)
}

/// Where `v` goes among `rest`: after everything that sits before it, and after those at the same
/// place that were ahead of it.
pub open spec fn slot(rest: Seq<ScreenView>, v: ScreenView, before: int) -> int {
    choose|p: int| slot_for(rest, v, before, p)
}

/// `rest` with `v` put in its place, as a stable sort by place puts it.
pub open spec fn placed(rest: Seq<ScreenView>, v: ScreenView, before: int) -> Seq<ScreenView> {
    rest.insert(slot(rest, v, before), v)
}

/// There is one place for a screen.
pub proof fn lemma_slot_unique(rest: Seq<ScreenView>, v: ScreenView, before: int, p: int)
    requires
        slot_for(rest, v, before, p),
    ensures
        slot(rest, v, before) == p,
{
    let q = slot(rest, v, before);
    assert(slot_for(rest, v, before, q));
    if q < p {
        assert(stays_ahead(rest[q], v, q, before));
    } else if p < q {
        assert(stays_ahead(rest[p], v, p, before));
    }
}

/// Putting a screen in its place keeps the list in order.
pub proof fn lemma_placed_sorted(rest: Seq<ScreenView>, v: ScreenView, before: int, p: int)
    requires
        sorted(rest),
        slot_for(rest, v, before, p),
    ensures
        sorted(rest.insert(p, v)),
{
    let t = rest.insert(p, v);
    assert forall|i: int, j: int| 0 <= i < j < t.len() implies !sits_before(#[trigger] t[j], #[trigger] t[i]) by {
        if j < p {
            assert(t[i] == rest[i] && t[j] == rest[j]);
        } else if i > p {
            assert(t[i] == rest[i - 1] && t[j] == rest[j - 1]);
        } else if i == p {
            assert(!stays_ahead(rest[j - 1], v, j - 1, before));
        } else if j == p {
            assert(stays_ahead(rest[i], v, i, before));
        } else {
            assert(t[i] == rest[i] && t[j] == rest[j - 1]);
        }
    }
}

/// The first `n` workspaces that no screen in `s` shows, the lowest of them.
pub open spec fn lowest_free(s: Seq<ScreenView>, n: nat) -> Option<usize>
    decreases n,
{
    if n == 0 {
        None
    } else {
        match lowest_free(s, (n - 1) as nat) {
            Some(w) => Some(w),
            None => if find_showing(s, (n - 1) as usize) is None { Some((n - 1) as usize) } else { None },
        }
    }
}

/// `lowest_free` is the least of the first `n` that nothing shows.
pub proof fn lemma_lowest_free(s: Seq<ScreenView>, n: nat)
    requires
        n <= usize::MAX,
    ensures
        lowest_free(s, n) matches Some(w) ==> w < n && find_showing(s, w) is None
            && forall|u: usize| u < w ==> find_showing(s, u) is Some,
        lowest_free(s, n) is None ==> forall|u: usize| u < n ==> find_showing(s, u) is Some,
    decreases n,
{
    if n > 0 {
        lemma_lowest_free(s, (n - 1) as nat);
    }
}

/// At least one.
pub open spec fn at_least_one(count: usize) -> usize {
    if count == 0 { 1 } else { count }
}

pub open spec fn is_gone(name: Seq<char>) -> spec_fn((Seq<char>, usize)) -> bool {
    |g: (Seq<char>, usize)| g.0 == name
}

/// What the screen called `name` was showing when it went out, if that is still one of the
/// `count`.
pub open spec fn remembered(gone: Seq<(Seq<char>, usize)>, name: Seq<char>, count: usize) -> Option<usize> {
    match first_where(gone, is_gone(name)) {
        Some(at) => if gone[at].1 < count { Some(gone[at].1) } else { None },
        None => None,
    }
}

/// Those gone once the screen called `name` is back.
pub open spec fn gone_after(gone: Seq<(Seq<char>, usize)>, name: Seq<char>) -> Seq<(Seq<char>, usize)> {
    match first_where(gone, is_gone(name)) {
        Some(at) => gone.remove(at),
        None => gone,
    }
}

/// The screen that carried on `remembered` for the one coming back, and its own workspace to go
/// back to, when it can.
pub open spec fn hand_back(s: Seq<ScreenView>, remembered: Option<usize>, count: usize) -> Option<(int, usize)> {
    match remembered {
        Some(w) => match find_showing(s, w) {
            Some(c) => match s[c].carried_from {
                Some(own) => if own < count && find_showing(s, own) is None { Some((c, own)) } else { None },
                None => None,
            },
            None => None,
        },
        None => None,
    }
}

/// The workspace a screen coming up takes: the one it showed before if nothing else shows it,
/// else the one set aside for it, else the lowest free one, else the first.
pub open spec fn arrival(s: Seq<ScreenView>, remembered: Option<usize>, wanted: Option<usize>, count: usize) -> usize {
    if remembered is Some && find_showing(s, remembered->0) is None {
        remembered->0
    } else if wanted is Some && wanted->0 < count && find_showing(s, wanted->0) is None {
        wanted->0
    } else {
        match lowest_free(s, count as nat) {
            Some(w) => w,
            None => 0,
        }
    }
}

/// The screens once a new one called `name` has come up at (`x`, `y`).
pub open spec fn arrived(s: Seq<ScreenView>, gone: Seq<(Seq<char>, usize)>, name: Seq<char>, x: i32, y: i32, count: usize, wanted: Option<usize>) -> Seq<ScreenView> {
    let count = at_least_one(count);
    let back = remembered(gone, name, count);
    let s1 = match hand_back(s, back, count) {
        Some((c, own)) => showing_now(s, c, own),
        None => s,
    };
    let v = ScreenView { output: name, x, y, workspace: arrival(s1, back, wanted, count), carried_from: None };
    placed(s1, v, s1.len() as int)
}

/// The homes once a new screen called `name` has come up.
pub open spec fn arrived_homes(s: Seq<ScreenView>, homes: Seq<Option<Seq<char>>>, gone: Seq<(Seq<char>, usize)>, name: Seq<char>, count: usize, wanted: Option<usize>) -> Seq<Option<Seq<char>>> {
    let count = at_least_one(count);
    let back = remembered(gone, name, count);
    let (s1, homes1) = match hand_back(s, back, count) {
        Some((c, own)) => (showing_now(s, c, own), homes_with(homes, own, s[c].output)),
        None => (s, homes),
    };
    homes_with(homes1, arrival(s1, back, wanted, count), name)
}

/// The screens once the screen at `i` has moved to (`x`, `y`).
pub open spec fn moved(s: Seq<ScreenView>, i: int, x: i32, y: i32) -> Seq<ScreenView> {
    placed(s.remove(i), ScreenView { x, y, ..s[i] }, i)
}

/// Those that stay ahead of a screen are a run at the front of a sorted list.
pub proof fn lemma_ahead_prefix(rest: Seq<ScreenView>, v: ScreenView, before: int, j: int, k: int)
    requires
        sorted(rest),
        0 <= j < k < rest.len(),
        stays_ahead(rest[k], v, k, before),
    ensures
        stays_ahead(rest[j], v, j, before),
{
    assert(!sits_before(rest[k], rest[j]));
}

/// Taking a screen out keeps the others in order.
pub proof fn lemma_remove_sorted(s: Seq<ScreenView>, i: int)
    requires
        sorted(s),
        0 <= i < s.len(),
    ensures
        sorted(s.remove(i)),
{
    let t = s.remove(i);
    assert forall|a: int, b: int| 0 <= a < b < t.len() implies !sits_before(#[trigger] t[b], #[trigger] t[a]) by {
        let a0 = if a < i { a } else { a + 1 };
        let b0 = if b < i { b } else { b + 1 };
        assert(t[a] == s[a0] && t[b] == s[b0]);
    }
}

/// A screen showing, and going back to, workspaces that can be counted past.
pub open spec fn bounded(v: ScreenView) -> bool {
    v.workspace < usize::MAX && (v.carried_from matches Some(c) ==> c < usize::MAX)
}

pub open spec fn all_bounded(s: Seq<ScreenView>) -> bool {
    forall|i: int| 0 <= i < s.len() ==> bounded(#[trigger] s[i])
}

/// Showing another workspace moves no screen and renames none.
pub proof fn lemma_showing_now(s: Seq<ScreenView>, i: int, w: usize)
    requires
        0 <= i < s.len(),
    ensures
        same_frame(showing_now(s, i, w), s),
        all_bounded(s) && w < usize::MAX ==> all_bounded(showing_now(s, i, w)),
{
    let t = showing_now(s, i, w);
    assert forall|k: int| 0 <= k < t.len() implies (#[trigger] t[k]).x == s[k].x && t[k].y == s[k].y && t[k].output == s[k].output by {
        if k == i {
        } else {
            assert(t[k] == s[k]);
        }
    }
    if all_bounded(s) && w < usize::MAX {
        assert forall|k: int| 0 <= k < t.len() implies bounded(#[trigger] t[k]) by {
            if k != i {
                assert(t[k] == s[k]);
            }
        }
    }
}

/// Taking a screen out, or putting one in, keeps every screen's workspace countable past.
pub proof fn lemma_bounded_moves(s: Seq<ScreenView>, i: int, p: int, v: ScreenView)
    requires
        all_bounded(s),
        0 <= i < s.len(),
        0 <= p < s.len(),
        bounded(v),
    ensures
        all_bounded(s.remove(i)),
        all_bounded(s.remove(i).insert(p, v)),
{
    let r = s.remove(i);
    assert forall|k: int| 0 <= k < r.len() implies bounded(#[trigger] r[k]) by {
        if k < i {
            assert(r[k] == s[k]);
        } else {
            assert(r[k] == s[k + 1]);
        }
    }
    let t = r.insert(p, v);
    assert forall|k: int| 0 <= k < t.len() implies bounded(#[trigger] t[k]) by {
        if k < p {
            assert(t[k] == r[k]);
        } else if k > p {
            assert(t[k] == r[k - 1]);
        }
    }
}

/// Putting one in keeps them countable past.
pub proof fn lemma_bounded_insert(s: Seq<ScreenView>, p: int, v: ScreenView)
    requires
        all_bounded(s),
        0 <= p <= s.len(),
        bounded(v),
    ensures
        all_bounded(s.insert(p, v)),
{
    let t = s.insert(p, v);
    assert forall|k: int| 0 <= k < t.len() implies bounded(#[trigger] t[k]) by {
        if k < p {
            assert(t[k] == s[k]);
        } else if k > p {
            assert(t[k] == s[k - 1]);
        }
    }
}

/// Where workspace `i` went in an edit of the list: `map` says, and one past the end of `map`
/// or past the `count` there are now is the last one.
pub open spec fn follows(map: Seq<usize>, count: usize, i: usize) -> usize {
    let to = if i < map.len() { map[i as int] } else { 0 };
    if to < count { to } else { (count - 1) as usize }
}

/// The lowest of the first `n` workspaces not in `taken`.
pub open spec fn free_of(taken: Seq<usize>, n: nat) -> Option<usize>
    decreases n,
{
    if n == 0 {
        None
    } else {
        match free_of(taken, (n - 1) as nat) {
            Some(w) => Some(w),
            None => if !taken.contains((n - 1) as usize) { Some((n - 1) as usize) } else { None },
        }
    }
}

pub proof fn lemma_free_of(taken: Seq<usize>, n: nat)
    requires
        n <= usize::MAX,
    ensures
        free_of(taken, n) matches Some(w) ==> w < n && !taken.contains(w)
            && forall|u: usize| u < w ==> taken.contains(u),
        free_of(taken, n) is None ==> forall|u: usize| u < n ==> taken.contains(u),
    decreases n,
{
    if n > 0 {
        lemma_free_of(taken, (n - 1) as nat);
    }
}

/// Where each screen's workspace went in an edit.
pub open spec fn moves(shown: Seq<usize>, map: Seq<usize>, count: usize) -> Seq<usize> {
    shown.map_values(|w: usize| follows(map, count, w))
}

/// Whether the `i`th move lands where an earlier one already does.
pub open spec fn collides(m: Seq<usize>, i: int) -> bool {
    m.take(i).contains(m[i])
}

/// Where the first `k` screens go, given where their workspaces moved, `m`: each follows its
/// workspace unless an earlier screen's workspace moved to the same one; then it takes the lowest
/// workspace no screen holds, that is none moved to and none taken by an earlier such screen.
pub open spec fn placed_upto(m: Seq<usize>, count: usize, k: nat) -> Seq<usize>
    decreases k,
{
    if k == 0 {
        Seq::empty()
    } else {
        let t = placed_upto(m, count, (k - 1) as nat);
        let i = k - 1;
        let to = if collides(m, i) {
            match free_of(m + t, count as nat) {
                Some(w) => w,
                None => 0,
            }
        } else {
            m[i]
        };
        t.push(to)
    }
}

/// Where each screen, showing `shown` in order, goes in an edit: after its workspace, unless an
/// earlier screen's workspace went to the same one, when it takes the lowest one no screen holds.
pub open spec fn targets(shown: Seq<usize>, map: Seq<usize>, count: usize) -> Seq<usize> {
    placed_upto(moves(shown, map, count), count, shown.len())
}

/// Placing fewer screens places a prefix of the same list.
pub proof fn lemma_placed_prefix(m: Seq<usize>, count: usize, n: nat, k: nat)
    requires
        k <= n,
    ensures
        placed_upto(m, count, n).len() == n,
        placed_upto(m, count, n).take(k as int) == placed_upto(m, count, k),
    decreases n,
{
    if n > 0 {
        lemma_placed_prefix(m, count, (n - 1) as nat, if k == n { (n - 1) as nat } else { k });
        if k < n {
            assert(placed_upto(m, count, n).take(k as int) =~= placed_upto(m, count, (n - 1) as nat).take(k as int));
        } else {
            assert(placed_upto(m, count, n).take(k as int) =~= placed_upto(m, count, n));
        }
    } else {
        assert(placed_upto(m, count, n).take(k as int) =~= placed_upto(m, count, k));
    }
}

/// What each placed screen gets: its move, or where nothing it could collide with lies.
pub proof fn lemma_placed_at(m: Seq<usize>, count: usize, n: nat, k: int)
    requires
        count > 0,
        n <= m.len(),
        0 <= k < n,
        forall|i: int| 0 <= i < m.len() ==> #[trigger] m[i] < count,
    ensures
        placed_upto(m, count, n)[k] < count,
        !collides(m, k) ==> placed_upto(m, count, n)[k] == m[k],
        collides(m, k) ==> placed_upto(m, count, n)[k] == match free_of(m + placed_upto(m, count, k as nat), count as nat) {
            Some(w) => w,
            None => 0usize,
        },
{
    lemma_placed_prefix(m, count, n, (k + 1) as nat);
    assert(placed_upto(m, count, n)[k] == placed_upto(m, count, (k + 1) as nat)[k]);
    let tk = placed_upto(m, count, k as nat);
    lemma_placed_prefix(m, count, k as nat, 0);
    lemma_free_of(m + tk, count as nat);
    let to = if collides(m, k) {
        match free_of(m + tk, count as nat) {
            Some(w) => w,
            None => 0,
        }
    } else {
        m[k]
    };
    assert(placed_upto(m, count, (k + 1) as nat) == tk.push(to));
    assert(placed_upto(m, count, (k + 1) as nat)[k] == to);
}

/// Every screen lands on one of the `count`.
pub proof fn lemma_targets_below(shown: Seq<usize>, map: Seq<usize>, count: usize)
    requires
        count > 0,
    ensures
        targets(shown, map, count).len() == shown.len(),
        forall|k: int| 0 <= k < shown.len() ==> #[trigger] targets(shown, map, count)[k] < count,
{
    let m = moves(shown, map, count);
    lemma_placed_prefix(m, count, shown.len(), 0);
    assert forall|k: int| 0 <= k < shown.len() implies #[trigger] targets(shown, map, count)[k] < count by {
        lemma_placed_at(m, count, shown.len(), k);
    }
}

/// A move lands where its first claimant, a screen that did not collide, also landed.
pub proof fn lemma_first_claim(m: Seq<usize>, i: int)
    requires
        0 <= i < m.len(),
    ensures
        exists|f: int| 0 <= f <= i && m[f] == m[i] && !collides(m, f),
    decreases i,
{
    if collides(m, i) {
        let j = choose|j: int| 0 <= j < i && m.take(i)[j] == m[i];
        assert(m[j] == m[i]);
        lemma_first_claim(m, j);
        let f = choose|f: int| 0 <= f <= j && m[f] == m[j] && !collides(m, f);
        assert(0 <= f <= i && m[f] == m[i] && !collides(m, f));
    } else {
        assert(0 <= i <= i && m[i] == m[i] && !collides(m, i));
    }
}

/// While there are no more screens than workspaces, a screen whose move collides finds a
/// workspace no screen holds.
pub proof fn lemma_collider_finds_room(m: Seq<usize>, count: usize, j: int)
    requires
        count > 0,
        m.len() <= count,
        0 <= j < m.len(),
        collides(m, j),
        forall|i: int| 0 <= i < m.len() ==> #[trigger] m[i] < count,
    ensures
        free_of(m + placed_upto(m, count, j as nat), count as nat) is Some,
{
    let t = placed_upto(m, count, j as nat);
    lemma_placed_prefix(m, count, j as nat, 0);
    let held = m + t;
    let q = t + m.skip(j + 1);
    assert forall|v: usize| held.contains(v) implies q.contains(v) by {
        let at = choose|at: int| 0 <= at < held.len() && held[at] == v;
        if at >= m.len() {
            assert(q[at - m.len()] == t[at - m.len()]);
        } else if at > j {
            assert(q[t.len() + at - j - 1] == m[at]);
        } else {
            let i = if at == j {
                choose|i: int| 0 <= i < j && m.take(j)[i] == m[j]
            } else {
                at
            };
            assert(m[i] == v);
            lemma_first_claim(m, i);
            let f = choose|f: int| 0 <= f <= i && m[f] == m[i] && !collides(m, f);
            lemma_placed_at(m, count, j as nat, f);
            assert(q[f] == t[f]);
        }
    }
    lemma_free_of(held, count as nat);
    if free_of(held, count as nat) is None {
        assert forall|w: usize| w < count as nat implies q.contains(w) by {
            assert(held.contains(w));
        }
        lemma_pigeon(q, count as nat);
        assert(false);
    }
}

/// The screens' targets never repeat while there are enough workspaces.
pub proof fn lemma_targets_distinct(shown: Seq<usize>, map: Seq<usize>, count: usize)
    requires
        count > 0,
        shown.len() <= count,
    ensures
        forall|i: int, j: int| 0 <= i < shown.len() && 0 <= j < shown.len() && i != j
            ==> #[trigger] targets(shown, map, count)[i] != #[trigger] targets(shown, map, count)[j],
{
    let m = moves(shown, map, count);
    let n = shown.len();
    let t = targets(shown, map, count);
    assert forall|i: int| 0 <= i < m.len() implies #[trigger] m[i] < count by {}
    // A screen that collided holds a workspace nothing moved to and no earlier screen holds.
    assert forall|k: int| 0 <= k < n && collides(m, k) implies !(m + placed_upto(m, count, k as nat)).contains(#[trigger] t[k]) by {
        lemma_collider_finds_room(m, count, k);
        lemma_placed_at(m, count, n, k);
        lemma_free_of(m + placed_upto(m, count, k as nat), count as nat);
    }
    assert forall|i: int, j: int| 0 <= i < n && 0 <= j < n && i != j implies #[trigger] t[i] != #[trigger] t[j] by {
        let (a, b) = if i < j { (i, j) } else { (j, i) };
        lemma_placed_at(m, count, n, a);
        lemma_placed_at(m, count, n, b);
        lemma_placed_prefix(m, count, n, b as nat);
        let tb = placed_upto(m, count, b as nat);
        assert(tb[a] == t[a]);
        if collides(m, b) {
            assert((m + tb)[m.len() + a] == t[a]);
        } else if collides(m, a) {
            assert(!(m + placed_upto(m, count, a as nat)).contains(t[a]));
            assert((m + placed_upto(m, count, a as nat))[b] == m[b]);
        } else {
            if m[a] == m[b] {
                assert(m.take(b)[a] == m[b]);
            }
        }
    }
}

/// Each workspace's home once the list has been edited: the first remembered home of those
/// that went to it.
pub open spec fn homes_followed(homes: Seq<Option<Seq<char>>>, map: Seq<usize>, count: usize) -> Seq<Option<Seq<char>>>
    decreases homes.len(),
{
    if homes.len() == 0 {
        Seq::new(count as nat, |i: int| None::<Seq<char>>)
    } else {
        let h = homes_followed(homes.drop_last(), map, count);
        let to = follows(map, count, (homes.len() - 1) as usize);
        if h[to as int] is None { h.update(to as int, homes.last()) } else { h }
    }
}

/// `homes` once each of `s` has been last shown on its screen, left to right.
pub open spec fn homes_shown(homes: Seq<Option<Seq<char>>>, s: Seq<ScreenView>) -> Seq<Option<Seq<char>>>
    decreases s.len(),
{
    if s.len() == 0 {
        homes
    } else {
        homes_with(homes_shown(homes, s.drop_last()), s.last().workspace, s.last().output)
    }
}

/// Where `w` went, if anywhere.
pub open spec fn follows_opt(map: Seq<usize>, count: usize, w: Option<usize>) -> Option<usize> {
    match w {
        Some(w) => Some(follows(map, count, w)),
        None => None,
    }
}

/// The screens once the list has been edited.
pub open spec fn remapped(s: Seq<ScreenView>, map: Seq<usize>, count: usize) -> Seq<ScreenView> {
    let count = at_least_one(count);
    let t = targets(s.map_values(|v: ScreenView| v.workspace), map, count);
    Seq::new(s.len(), |k: int| ScreenView {
        workspace: t[k],
        carried_from: follows_opt(map, count, s[k].carried_from),
        ..s[k]
    })
}

/// Each workspace's home once the list has been edited.
pub open spec fn remapped_homes(s: Seq<ScreenView>, homes: Seq<Option<Seq<char>>>, map: Seq<usize>, count: usize) -> Seq<Option<Seq<char>>> {
    let count = at_least_one(count);
    homes_shown(homes_followed(homes, map, count), remapped(s, map, count))
}

/// What went out, showing where its workspace went.
pub open spec fn remapped_gone(g: Seq<(Seq<char>, usize)>, map: Seq<usize>, count: usize) -> Seq<(Seq<char>, usize)> {
    let count = at_least_one(count);
    g.map_values(|e: (Seq<char>, usize)| (e.0, follows(map, count, e.1)))
}

/// If every one of the first `n` workspaces is in `t`, `t` holds at least `n`.
pub proof fn lemma_pigeon(t: Seq<usize>, n: nat)
    requires
        n <= usize::MAX,
        forall|w: usize| w < n ==> t.contains(w),
    ensures
        t.len() >= n,
    decreases n,
{
    if n > 0 {
        let last = (n - 1) as usize;
        assert(t.contains(last));
        let at = choose|i: int| 0 <= i < t.len() && t[i] == last;
        let rest = t.remove(at);
        assert forall|w: usize| w < (n - 1) as nat implies rest.contains(w) by {
            assert(t.contains(w));
            let i = choose|i: int| 0 <= i < t.len() && t[i] == w;
            if i < at {
                assert(rest[i] == w);
            } else {
                assert(rest[i - 1] == w);
            }
        }
        lemma_pigeon(rest, (n - 1) as nat);
    }
}

/// With fewer screens than workspaces, one of them is free.
pub proof fn lemma_some_free(s: Seq<ScreenView>, count: usize)
    requires
        s.len() < count,
    ensures
        lowest_free(s, count as nat) is Some,
{
    lemma_lowest_free(s, count as nat);
    if lowest_free(s, count as nat) is None {
        let t = s.map_values(|v: ScreenView| v.workspace);
        assert forall|w: usize| w < count as nat implies t.contains(w) by {
            lemma_first_where(s, is_showing(w));
            let i = find_showing(s, w)->0;
            assert(t[i] == w);
        }
        lemma_pigeon(t, count as nat);
    }
}

/// A screen showing a workspace no other screen shows keeps every workspace on one screen at
/// most.
pub proof fn law_show_keeps_one_screen_per_workspace(s: Seq<ScreenView>, f: int, index: usize)
    requires
        distinct_workspaces(s),
        0 <= f < s.len(),
        find_showing(s, index) is None,
    ensures
        distinct_workspaces(showing_now(s, f, index)),
{
    lemma_first_where(s, is_showing(index));
    let t = showing_now(s, f, index);
    assert forall|i: int, j: int| 0 <= i < t.len() && 0 <= j < t.len() && i != j
        implies #[trigger] t[i].workspace != #[trigger] t[j].workspace by {
        if i != f && j != f {
            assert(t[i] == s[i] && t[j] == s[j]);
        } else if i == f {
            assert(t[j] == s[j]);
        } else {
            assert(t[i] == s[i]);
        }
    }
}

/// Two screens trading workspaces keep every workspace on one screen at most.
pub proof fn law_swap_keeps_one_screen_per_workspace(s: Seq<ScreenView>, f: int, other: int)
    requires
        distinct_workspaces(s),
        0 <= f < s.len(),
        0 <= other < s.len(),
        f != other,
    ensures
        distinct_workspaces(showing_now(showing_now(s, f, s[other].workspace), other, s[f].workspace)),
{
    let t = showing_now(showing_now(s, f, s[other].workspace), other, s[f].workspace);
    assert forall|i: int, j: int| 0 <= i < t.len() && 0 <= j < t.len() && i != j
        implies #[trigger] t[i].workspace != #[trigger] t[j].workspace by {
        let si = if i == f { other } else if i == other { f } else { i };
        let sj = if j == f { other } else if j == other { f } else { j };
        assert(t[i].workspace == s[si].workspace);
        assert(t[j].workspace == s[sj].workspace);
    }
}

/// Carrying on a workspace nothing shows keeps every workspace on one screen at most.
pub proof fn law_carry_keeps_one_screen_per_workspace(s: Seq<ScreenView>, f: int, index: usize, own: Option<usize>)
    requires
        distinct_workspaces(s),
        0 <= f < s.len(),
        find_showing(s, index) is None,
    ensures
        distinct_workspaces(s.update(f, ScreenView { workspace: index, carried_from: own, ..s[f] })),
{
    lemma_first_where(s, is_showing(index));
    let t = s.update(f, ScreenView { workspace: index, carried_from: own, ..s[f] });
    assert forall|i: int, j: int| 0 <= i < t.len() && 0 <= j < t.len() && i != j
        implies #[trigger] t[i].workspace != #[trigger] t[j].workspace by {
        if i != f {
            assert(t[i] == s[i]);
        }
        if j != f {
            assert(t[j] == s[j]);
        }
    }
}

/// A screen going out keeps every workspace on one screen at most.
/// A screen moving in the layout keeps every workspace on one screen at most.
pub proof fn law_move_keeps_one_screen_per_workspace(s: Seq<ScreenView>, i: int, x: i32, y: i32)
    requires
        sorted(s),
        distinct_workspaces(s),
        0 <= i < s.len(),
    ensures
        distinct_workspaces(moved(s, i, x, y)),
{
    let rest = s.remove(i);
    let v = ScreenView { x, y, ..s[i] };
    lemma_remove_sorted(s, i);
    law_remove_keeps_one_screen_per_workspace(s, i);
    lemma_slot_exists(rest, v, i);
    let p = slot(rest, v, i);
    let t = rest.insert(p, v);
    assert forall|k: int| 0 <= k < rest.len() implies #[trigger] rest[k].workspace != v.workspace by {
        let k0 = if k < i { k } else { k + 1 };
        assert(rest[k] == s[k0]);
    }
    assert forall|a: int, b: int| 0 <= a < t.len() && 0 <= b < t.len() && a != b
        implies #[trigger] t[a].workspace != #[trigger] t[b].workspace by {
        if a != p {
            let a0 = if a < p { a } else { a - 1 };
            assert(t[a] == rest[a0]);
        }
        if b != p {
            let b0 = if b < p { b } else { b - 1 };
            assert(t[b] == rest[b0]);
        }
    }
}

pub proof fn law_remove_keeps_one_screen_per_workspace(s: Seq<ScreenView>, i: int)
    requires
        distinct_workspaces(s),
        0 <= i < s.len(),
    ensures
        distinct_workspaces(s.remove(i)),
{
    let t = s.remove(i);
    assert forall|a: int, b: int| 0 <= a < t.len() && 0 <= b < t.len() && a != b
        implies #[trigger] t[a].workspace != #[trigger] t[b].workspace by {
        let a0 = if a < i { a } else { a + 1 };
        let b0 = if b < i { b } else { b + 1 };
        assert(t[a] == s[a0] && t[b] == s[b0]);
    }
}

/// A screen coming up, while there are more workspaces than screens, keeps every workspace on
/// one screen at most: no screen looks at the same desktop as another.
pub proof fn law_add_keeps_one_screen_per_workspace(
    s: Seq<ScreenView>,
    gone: Seq<(Seq<char>, usize)>,
    name: Seq<char>,
    x: i32,
    y: i32,
    count: usize,
    wanted: Option<usize>,
)
    requires
        sorted(s),
        distinct_workspaces(s),
        s.len() < count,
    ensures
        distinct_workspaces(arrived(s, gone, name, x, y, count, wanted)),
{
    let back = remembered(gone, name, count);
    let s1 = match hand_back(s, back, count) {
        Some((c, own)) => showing_now(s, c, own),
        None => s,
    };
    if let Some((c, own)) = hand_back(s, back, count) {
        lemma_first_where(s, is_showing(back->0));
        law_show_keeps_one_screen_per_workspace(s, c, own);
        lemma_showing_now(s, c, own);
        lemma_same_frame(s1, s);
    }
    let w = arrival(s1, back, wanted, count);
    if !(back is Some && find_showing(s1, back->0) is None)
        && !(wanted is Some && wanted->0 < count && find_showing(s1, wanted->0) is None) {
        lemma_some_free(s1, count);
        lemma_lowest_free(s1, count as nat);
    }
    assert(find_showing(s1, w) is None);
    lemma_first_where(s1, is_showing(w));
    let v = ScreenView { output: name, x, y, workspace: w, carried_from: None };
    let p = slot(s1, v, s1.len() as int);
    assert(slot_for(s1, v, s1.len() as int, p)) by {
        lemma_slot_exists(s1, v, s1.len() as int);
    }
    let t = s1.insert(p, v);
    assert forall|a: int, b: int| 0 <= a < t.len() && 0 <= b < t.len() && a != b
        implies #[trigger] t[a].workspace != #[trigger] t[b].workspace by {
        if a != p {
            let a0 = if a < p { a } else { a - 1 };
            assert(t[a] == s1[a0]);
        }
        if b != p {
            let b0 = if b < p { b } else { b - 1 };
            assert(t[b] == s1[b0]);
        }
    }
}

/// There is a place for every screen among the others, whatever order they are in: after those
/// at the front that stay ahead of it.
pub proof fn lemma_slot_exists(rest: Seq<ScreenView>, v: ScreenView, before: int)
    requires
        sorted(rest),
    ensures
        slot_for(rest, v, before, slot(rest, v, before)),
{
    let p = slot_scan(rest, v, before, 0, 0);
    lemma_slot_unique(rest, v, before, p);
}

/// Walks `rest` from `k`, with the front `p` staying ahead of `v` and those from `p` to `k` not.
proof fn slot_scan(rest: Seq<ScreenView>, v: ScreenView, before: int, k: int, p: int) -> (q: int)
    requires
        sorted(rest),
        0 <= p <= k <= rest.len(),
        forall|j: int| 0 <= j < p ==> stays_ahead(#[trigger] rest[j], v, j, before),
        forall|j: int| p <= j < k ==> !stays_ahead(#[trigger] rest[j], v, j, before),
    ensures
        slot_for(rest, v, before, q),
    decreases rest.len() - k,
{
    if k == rest.len() {
        p
    } else if stays_ahead(rest[k], v, k, before) {
        if p < k {
            lemma_ahead_prefix(rest, v, before, p, k);
        }
        slot_scan(rest, v, before, k + 1, k + 1)
    } else {
        slot_scan(rest, v, before, k + 1, p)
    }
}

/// After an edit to the workspace list, with as many workspaces as screens, no two screens show
/// the same workspace, whatever they showed before.
pub proof fn law_remap_keeps_one_screen_per_workspace(s: Seq<ScreenView>, map: Seq<usize>, count: usize)
    requires
        s.len() <= at_least_one(count),
    ensures
        distinct_workspaces(remapped(s, map, count)),
{
    let c = at_least_one(count);
    let shown = s.map_values(|v: ScreenView| v.workspace);
    lemma_targets_distinct(shown, map, c);
    lemma_targets_below(shown, map, c);
}

/// A screen that goes out and comes back gets back what it was showing, when that is still one
/// of the workspaces and nothing else shows it.
pub proof fn law_a_screen_comes_back_to_its_workspace(
    s: Seq<ScreenView>,
    gone: Seq<(Seq<char>, usize)>,
    name: Seq<char>,
    workspace: usize,
    x: i32,
    y: i32,
    count: usize,
    wanted: Option<usize>,
)
    requires
        workspace < count,
        find_showing(s, workspace) is None,
        sorted(s),
    ensures
        ({
            let back = gone_but(gone, name).push((name, workspace));
            let t = arrived(s, back, name, x, y, count, wanted);
            exists|k: int| 0 <= k < t.len() && t[k].output == name && t[k].workspace == workspace
        }),
{
    let back = gone_but(gone, name).push((name, workspace));
    lemma_gone_but(gone, name);
    lemma_first_where_at(back, is_gone(name), back.len() - 1);
    assert(remembered(back, name, count) == Some(workspace));
    lemma_first_where(s, is_showing(workspace));
    assert(hand_back(s, Some(workspace), count) is None);
    let v = ScreenView { output: name, x, y, workspace, carried_from: None };
    lemma_slot_exists(s, v, s.len() as int);
    let p = slot(s, v, s.len() as int);
    let t = arrived(s, back, name, x, y, count, wanted);
    assert(t[p] == v);
}

/// Nothing kept for `name` is called `name`.
pub proof fn lemma_gone_but(g: Seq<(Seq<char>, usize)>, name: Seq<char>)
    ensures
        forall|i: int| 0 <= i < gone_but(g, name).len() ==> (#[trigger] gone_but(g, name)[i]).0 != name,
    decreases g.len(),
{
    if g.len() > 0 {
        lemma_gone_but(g.drop_last(), name);
        let r = gone_but(g.drop_last(), name);
        let t = gone_but(g, name);
        assert forall|i: int| 0 <= i < t.len() implies (#[trigger] t[i]).0 != name by {
            if i < r.len() {
                assert(t[i] == r[i]);
            }
        }
    }
}

/// Two lists of screens at the same places under the same names.
pub open spec fn same_frame(a: Seq<ScreenView>, b: Seq<ScreenView>) -> bool {
    &&& a.len() == b.len()
    &&& forall|i: int| 0 <= i < a.len() ==> (#[trigger] a[i]).x == b[i].x && a[i].y == b[i].y && a[i].output == b[i].output
}

/// Order and names go by places and names alone.
pub proof fn lemma_same_frame(a: Seq<ScreenView>, b: Seq<ScreenView>)
    requires
        same_frame(a, b),
    ensures
        sorted(a) == sorted(b),
        distinct_outputs(a) == distinct_outputs(b),
{
    assert(forall|i: int| 0 <= i < a.len() ==> a[i].x == b[i].x && a[i].y == b[i].y && a[i].output == b[i].output);
}

/// Every lit screen, left to right, and which one the keyboard is on.
///
/// How many workspaces there are is not kept here: it's the workspace list's to say. Anything
/// that picks or clamps a workspace is told the count by its caller.
#[derive(Debug)]
pub struct Screens {
    list: Vec<Screen>,
    focused: usize,
    /// Per workspace, the name of the screen that last showed it.
    homes: Vec<Option<String>>,
    /// Screens that went out, by name, with the workspace each was showing.
    gone: Vec<(String, usize)>,
}

impl Default for Screens {
    fn default() -> (r: Self)
        ensures
            r.wf(),
            r.screens().len() == 0,
            r.focus_index() == 0,
            r.homes().len() == 0,
            r.gone().len() == 0,
    {
        Screens::new()
    }
}

impl Screens {
    /// The screens, left to right.
    pub closed spec fn screens(self) -> Seq<ScreenView> {
        self.list@.map_values(|s: Screen| s@)
    }

    /// The screen the keyboard is on.
    pub closed spec fn focus_index(self) -> usize {
        self.focused
    }

    /// Per workspace, the name of the screen that last showed it.
    pub closed spec fn homes(self) -> Seq<Option<Seq<char>>> {
        self.homes@.map_values(|h: Option<String>| name_view(h))
    }

    /// Screens that went out, by name, with the workspace each was showing.
    pub closed spec fn gone(self) -> Seq<(Seq<char>, usize)> {
        self.gone@.map_values(|g: (String, usize)| (g.0@, g.1))
    }

    /// Sorted as they sit, each output once, the keyboard on a screen that is there (or on the
    /// first place when there is none), and no workspace past the last that can be counted.
    pub closed spec fn wf(self) -> bool {
        &&& sorted(self.screens())
        &&& distinct_outputs(self.screens())
        &&& (self.list@.len() == 0 ==> self.focused == 0)
        &&& (self.list@.len() > 0 ==> self.focused < self.list@.len())
        &&& all_bounded(self.screens())
    }

    /// The screen the keyboard is on, if any.
    pub closed spec fn focused_screen(self) -> Option<ScreenView> {
        if self.focused < self.list@.len() {
            Some(self.list@[self.focused as int]@)
        } else {
            None
        }
    }

    /// The workspace the keyboard is looking at.
    pub closed spec fn current(self) -> usize {
        match self.focused_screen() {
            Some(s) => s.workspace,
            None => 0,
        }
    }

    /// What a well-formed list of screens is: sorted as they sit, each output once, every
    /// workspace one that can be counted, and the keyboard on a screen that is there, or on the
    /// first place when there is none. Every operation keeps this, so the keyboard is never left
    /// on a screen that has gone.
    pub proof fn law_the_keyboard_is_on_a_screen_that_is_there(self)
        requires
            self.wf(),
        ensures
            sorted(self.screens()),
            forall|i: int, j: int| 0 <= i < j < self.screens().len() ==> #[trigger] self.screens()[i].x
                < #[trigger] self.screens()[j].x || (self.screens()[i].x == self.screens()[j].x
                && self.screens()[i].y <= self.screens()[j].y),
            distinct_outputs(self.screens()),
            all_bounded(self.screens()),
            self.screens().len() == 0 ==> self.focus_index() == 0 && self.focused_screen() is None,
            self.screens().len() > 0 ==> self.focus_index() < self.screens().len()
                && self.focused_screen() == Some(self.screens()[self.focus_index() as int]),
            self.current() == match self.focused_screen() {
                Some(s) => s.workspace,
                None => 0,
            },
    {
        law_sorted_screens_run_left_to_right_then_top_to_bottom(self.screens());
    }

    pub fn new() -> (r: Self)
        ensures
            r.wf(),
            r.screens().len() == 0,
            r.focus_index() == 0,
            r.homes().len() == 0,
            r.gone().len() == 0,
    {
        Screens { list: Vec::new(), focused: 0, homes: Vec::new(), gone: Vec::new() }
    }

    pub fn is_empty(&self) -> (r: bool)
        ensures
            r == (self.screens().len() == 0),
    {
        self.list.len() == 0
    }

    pub fn len(&self) -> (r: usize)
        ensures
            r == self.screens().len(),
    {
        self.list.len()
    }

    /// The screens, left to right.
    pub fn iter(&self) -> (r: std::slice::Iter<'_, Screen>)
        ensures
            vstd::std_specs::slice::into_iter_elts(r).map_values(|s: Screen| s@) == self.screens(),
    {
        broadcast use vstd::std_specs::slice::axiom_spec_slice_iter;
        let r = self.list.as_slice().iter();
        assert(vstd::std_specs::slice::into_iter_elts(r) =~= self.list@);
        r
    }

    /// Where the screen called `output` is in the list.
    pub fn index_of(&self, output: &str) -> (r: Option<usize>)
        ensures
            r matches Some(i) ==> find_output(self.screens(), output@) == Some(i as int),
            r is None ==> find_output(self.screens(), output@) is None,
    {
        let name = output.to_owned();
        let mut i: usize = 0;
        while i < self.list.len()
            invariant
                name@ == output@,
                i <= self.list@.len(),
                forall|j: int| 0 <= j < i ==> !is_output(output@)(#[trigger] self.screens()[j]),
            decreases self.list@.len() - i,
        {
            if self.list[i].output == name {
                proof {
                    lemma_first_where_at(self.screens(), is_output(output@), i as int);
                }
                return Some(i);
            }
            i += 1;
        }
        proof {
            lemma_first_where_none(self.screens(), is_output(output@));
        }
        None
    }

    pub fn get(&self, index: usize) -> (r: Option<&Screen>)
        ensures
            index < self.screens().len() ==> (r matches Some(s) && s@ == self.screens()[index as int]),
            index >= self.screens().len() ==> r is None,
    {
        if index < self.list.len() {
            Some(&self.list[index])
        } else {
            None
        }
    }

    pub fn focused_index(&self) -> (r: usize)
        ensures
            r == self.focus_index(),
    {
        self.focused
    }

    pub fn focused(&self) -> (r: Option<&Screen>)
        ensures
            r is None <==> self.focused_screen() is None,
            r matches Some(s) ==> self.focused_screen() == Some(s@),
    {
        if self.focused < self.list.len() {
            Some(&self.list[self.focused])
        } else {
            None
        }
    }

    /// The name of the output the keyboard is on.
    pub fn focused_output(&self) -> (r: Option<String>)
        ensures
            r is None <==> self.focused_screen() is None,
            r matches Some(s) ==> self.focused_screen()->0.output == s@,
    {
        if self.focused < self.list.len() {
            Some(self.list[self.focused].output.clone())
        } else {
            None
        }
    }

    /// The workspace the keyboard is looking at. With no screens at all, which only happens
    /// between a screen going out and the next one lighting up, it is the first.
    pub fn workspace(&self) -> (r: usize)
        ensures
            r == self.current(),
    {
        if self.focused < self.list.len() {
            self.list[self.focused].workspace
        } else {
            0
        }
    }

    /// `workspace` was last shown on the screen called `name`.
    fn set_home(&mut self, workspace: usize, name: String)
        requires
            workspace < usize::MAX,
        ensures
            final(self).homes() == homes_with(old(self).homes(), workspace, name@),
            final(self).list@ == old(self).list@,
            final(self).focused == old(self).focused,
            final(self).gone@ == old(self).gone@,
    {
        let ghost start = self.homes();
        while self.homes.len() <= workspace
            invariant
                workspace < usize::MAX,
                start.len() <= self.homes@.len(),
                self.homes@.len() > start.len() ==> self.homes@.len() <= workspace + 1,
                self.homes() =~= start + Seq::new((self.homes@.len() - start.len()) as nat, |i: int| None::<Seq<char>>),
                self.list@ == old(self).list@,
                self.focused == old(self).focused,
                self.gone@ == old(self).gone@,
            decreases workspace + 1 - self.homes@.len(),
        {
            let ghost before = self.homes@;
            self.homes.push(None);
            assert(self.homes@ == before.push(None));
            assert(self.homes() =~= before.map_values(|h: Option<String>| name_view(h)).push(None));
        }
        let ghost before = self.homes@;
        self.homes.set(workspace, Some(name));
        assert(self.homes@ == before.update(workspace as int, Some(name)));
        assert(self.homes() =~= homes_with(start, workspace, name@));
    }

    /// Puts `screen` in its place among the others, which are in order: left to right, then top
    /// to bottom, and after those at the same place that were ahead of it (`before` of them at
    /// most), as a stable sort by place would.
    fn sort(&mut self, screen: Screen, before: usize)
        requires
            sorted(old(self).screens()),
        ensures
            final(self).screens() == placed(old(self).screens(), screen@, before as int),
            slot_for(old(self).screens(), screen@, before as int, slot(old(self).screens(), screen@, before as int)),
            final(self).focused == old(self).focused,
            final(self).homes@ == old(self).homes@,
            final(self).gone@ == old(self).gone@,
    {
        let ghost rest = self.screens();
        let ghost v = screen@;
        let mut p: usize = 0;
        let mut found = false;
        while p < self.list.len() && !found
            invariant
                p <= self.list@.len(),
                rest == self.screens(),
                v == screen@,
                forall|k: int| 0 <= k < p ==> stays_ahead(#[trigger] rest[k], v, k, before as int),
                found ==> p < rest.len() && !stays_ahead(rest[p as int], v, p as int, before as int),
            decreases self.list@.len() - p + if found { 0int } else { 1int },
        {
            let here = &self.list[p];
            assert(rest[p as int] == here@);
            let ahead = here.x < screen.x || (here.x == screen.x && here.y < screen.y)
                || (here.x == screen.x && here.y == screen.y && p < before);
            if ahead {
                p += 1;
            } else {
                found = true;
            }
        }
        proof {
            assert forall|k: int| p <= k < rest.len() implies !stays_ahead(#[trigger] rest[k], v, k, before as int) by {
                if k > p && stays_ahead(rest[k], v, k, before as int) {
                    lemma_ahead_prefix(rest, v, before as int, p as int, k);
                }
            }
            assert(slot_for(rest, v, before as int, p as int));
            lemma_slot_unique(rest, v, before as int, p as int);
        }
        self.list.insert(p, screen);
        assert(self.screens() =~= rest.insert(p as int, v));
    }

    /// Lights `output` at (`x`, `y`). A screen that was here before takes back the workspace it
    /// was showing, and a screen that carried it on while it was gone goes back to its own.
    /// Failing that it takes `wanted`, the workspace the caller has set aside for it — a scratch
    /// one of its own, or the one it was remembered as showing in an earlier session. Failing
    /// that, the lowest-numbered of the `count` workspaces no other screen has, so a second screen
    /// comes up on workspace 2 rather than looking at the same desktop twice. The first screen to
    /// arrive takes the keyboard, and the keyboard stays on the screen it was on. A screen that
    /// is already lit only moves. Returns where the screen is now.
    pub fn add(&mut self, output: &str, x: i32, y: i32, count: usize, wanted: Option<usize>) -> (r: usize)
        requires
            old(self).wf(),
        ensures
            final(self).wf(),
            forall|i: int, j: int| 0 <= i < j < final(self).screens().len() ==> #[trigger] final(self).screens()[i].x
                < #[trigger] final(self).screens()[j].x || (final(self).screens()[i].x == final(self).screens()[j].x
                && final(self).screens()[i].y <= final(self).screens()[j].y),
            distinct_workspaces(old(self).screens()) && (find_output(old(self).screens(), output@) is Some
                || old(self).screens().len() < count) ==> distinct_workspaces(final(self).screens()),
            find_output(final(self).screens(), output@) == Some(r as int),
            match find_output(old(self).screens(), output@) {
                Some(i) => {
                    &&& final(self).screens() == moved(old(self).screens(), i, x, y)
                    &&& final(self).homes() == old(self).homes()
                    &&& final(self).gone() == old(self).gone()
                    &&& find_output(final(self).screens(), old(self).focused_screen()->0.output)
                        == Some(final(self).focus_index() as int)
                },
                None => {
                    &&& final(self).screens() == arrived(old(self).screens(), old(self).gone(), output@, x, y, count, wanted)
                    &&& final(self).homes() == arrived_homes(old(self).screens(), old(self).homes(), old(self).gone(), output@, count, wanted)
                    &&& final(self).gone() == gone_after(old(self).gone(), output@)
                    &&& match old(self).focused_screen() {
                        Some(f) => find_output(final(self).screens(), f.output) == Some(final(self).focus_index() as int),
                        None => final(self).focus_index() == 0,
                    }
                },
            },
    {
        proof {
            lemma_first_where(self.screens(), is_output(output@));
        }
        let ghost s = self.screens();
        let ghost g = self.gone();
        let r = match self.index_of(output) {
            Some(index) => {
                let r = self.move_to(index, x, y);
                proof {
                    if distinct_workspaces(s) {
                        law_move_keeps_one_screen_per_workspace(s, index as int, x, y);
                    }
                }
                r
            },
            None => {
                let r = self.light(output, x, y, count, wanted);
                proof {
                    if distinct_workspaces(s) && s.len() < count {
                        law_add_keeps_one_screen_per_workspace(s, g, output@, x, y, count, wanted);
                    }
                }
                r
            },
        };
        proof {
            law_sorted_screens_run_left_to_right_then_top_to_bottom(self.screens());
        }
        r
    }

    /// The screen at `index`, already lit, moves to (`x`, `y`); the keyboard stays on the screen
    /// it was on.
    fn move_to(&mut self, index: usize, x: i32, y: i32) -> (r: usize)
        requires
            old(self).wf(),
            index < old(self).screens().len(),
        ensures
            final(self).wf(),
            find_output(final(self).screens(), old(self).screens()[index as int].output) == Some(r as int),
            final(self).screens() == moved(old(self).screens(), index as int, x, y),
            final(self).homes() == old(self).homes(),
            final(self).gone() == old(self).gone(),
            find_output(final(self).screens(), old(self).focused_screen()->0.output)
                == Some(final(self).focus_index() as int),
    {
        let focused = self.focused_output();
        let ghost s = self.screens();
        let ghost f = s[self.focused as int];
        let ghost name = s[index as int].output;
        assert(s[index as int] == self.list@[index as int]@);
        let mut screen = self.list.remove(index);
        let output = screen.output.clone();
        screen.x = x;
        screen.y = y;
        proof {
            assert(self.screens() =~= s.remove(index as int));
            lemma_remove_sorted(s, index as int);
        }
        self.sort(screen, index);
        proof {
            let v = ScreenView { x, y, ..s[index as int] };
            let t = self.screens();
            let rest = s.remove(index as int);
            let p = slot(rest, v, index as int);
            lemma_placed_sorted(rest, v, index as int, p);
            assert(bounded(s[index as int]));
            if p < s.len() - 1 {
                lemma_bounded_moves(s, index as int, p, v);
            } else {
                lemma_bounded_moves(s, index as int, 0, v);
                lemma_bounded_insert(rest, p, v);
            }
            assert forall|a: int, b: int| 0 <= a < t.len() && 0 <= b < t.len() && a != b
                implies #[trigger] t[a].output != #[trigger] t[b].output by {
                let ar = if a < p { a } else { a - 1 };
                let br = if b < p { b } else { b - 1 };
                let a0 = if a == p { index as int } else if ar < index { ar } else { ar + 1 };
                let b0 = if b == p { index as int } else if br < index { br } else { br + 1 };
                assert(t[a].output == s[a0].output);
                assert(t[b].output == s[b0].output);
            }
            let fi = self.focused as int;
            let fr = if fi < index { fi } else { fi - 1 };
            let k = if fi == index { p } else if fr < p { fr } else { fr + 1 };
            assert(t[k].output == f.output);
            assert(t[p].output == name);
            lemma_first_where(t, is_output(f.output));
            lemma_first_where(t, is_output(name));
        }
        self.focused = match focused {
            Some(name) => match self.index_of(name.as_str()) {
                Some(i) => i,
                None => 0,
            },
            None => 0,
        };
        match self.index_of(output.as_str()) {
            Some(i) => i,
            None => index,
        }
    }

    /// Forgets that `name` went out, and says what it was showing then, if that is one of the
    /// `count` workspaces.
    fn take_gone(&mut self, name: &String, count: usize) -> (r: Option<usize>)
        ensures
            r == remembered(old(self).gone(), name@, count),
            final(self).gone() == gone_after(old(self).gone(), name@),
            final(self).list@ == old(self).list@,
            final(self).focused == old(self).focused,
            final(self).homes@ == old(self).homes@,
    {
        let ghost g0 = self.gone();
        let mut at: Option<usize> = None;
        let mut k: usize = 0;
        while k < self.gone.len() && at.is_none()
            invariant
                k <= self.gone@.len(),
                g0 == self.gone(),
                at is None ==> forall|j: int| 0 <= j < k ==> !is_gone(name@)(#[trigger] g0[j]),
                at matches Some(a) ==> a < g0.len() && is_gone(name@)(g0[a as int])
                    && forall|j: int| 0 <= j < a ==> !is_gone(name@)(#[trigger] g0[j]),
            decreases self.gone@.len() - k + if at is None { 1int } else { 0int },
        {
            assert(g0[k as int] == (self.gone@[k as int].0@, self.gone@[k as int].1));
            if self.gone[k].0 == *name {
                at = Some(k);
            } else {
                k += 1;
            }
        }
        proof {
            match at {
                Some(a) => lemma_first_where_at(g0, is_gone(name@), a as int),
                None => lemma_first_where_none(g0, is_gone(name@)),
            }
        }
        match at {
            Some(a) => {
                let entry = self.gone.remove(a);
                assert(self.gone() =~= g0.remove(a as int));
                if entry.1 < count {
                    Some(entry.1)
                } else {
                    None
                }
            },
            None => None,
        }
    }

    /// The screen that carried on workspace `back` for a screen coming back goes back to what it
    /// was showing, if that is still one of the `count` and nothing else shows it.
    fn hand_back_to(&mut self, back: Option<usize>, count: usize)
        requires
            old(self).wf(),
        ensures
            final(self).wf(),
            final(self).screens() == match hand_back(old(self).screens(), back, count) {
                Some((c, own)) => showing_now(old(self).screens(), c, own),
                None => old(self).screens(),
            },
            final(self).homes() == match hand_back(old(self).screens(), back, count) {
                Some((c, own)) => homes_with(old(self).homes(), own, old(self).screens()[c].output),
                None => old(self).homes(),
            },
            final(self).focused == old(self).focused,
            final(self).gone@ == old(self).gone@,
            same_frame(final(self).screens(), old(self).screens()),
    {
        let ghost s0 = self.screens();
        if let Some(w) = back {
            proof {
                lemma_first_where(s0, is_showing(w));
            }
            if let Some(carrier) = self.showing(w) {
                assert(s0[carrier as int] == self.list@[carrier as int]@);
                if let Some(own) = self.list[carrier].carried_from {
                    proof {
                        lemma_first_where(s0, is_showing(own));
                    }
                    if own < count && self.showing(own).is_none() {
                        let carrier_name = self.list[carrier].output.clone();
                        self.list[carrier].workspace = own;
                        self.list[carrier].carried_from = None;
                        assert(self.screens() =~= showing_now(s0, carrier as int, own));
                        proof {
                            lemma_showing_now(s0, carrier as int, own);
                            lemma_same_frame(self.screens(), s0);
                        }
                        self.set_home(own, carrier_name);
                    }
                }
            }
        }
    }

    /// The workspace a screen coming up takes, of `count` (at least one).
    fn arrival_for(&self, back: Option<usize>, wanted: Option<usize>, count: usize) -> (r: usize)
        requires
            count > 0,
            back matches Some(w) ==> w < count,
        ensures
            r == arrival(self.screens(), back, wanted, count),
            r < count,
    {
        let ghost s1 = self.screens();
        if let Some(w) = back {
            if self.showing(w).is_none() {
                return w;
            }
        }
        if let Some(v) = wanted {
            if v < count && self.showing(v).is_none() {
                return v;
            }
        }
        let mut chosen: Option<usize> = None;
        let mut w: usize = 0;
        while w < count && chosen.is_none()
            invariant
                w <= count,
                s1 == self.screens(),
                chosen is None ==> lowest_free(s1, w as nat) is None,
                chosen matches Some(c) ==> lowest_free(s1, count as nat) == chosen && c < count,
            decreases count - w + if chosen is None { 1int } else { 0int },
        {
            if self.showing(w).is_none() {
                chosen = Some(w);
                proof {
                    assert(lowest_free(s1, (w + 1) as nat) == Some(w));
                    lemma_lowest_free(s1, (w + 1) as nat);
                    lemma_lowest_free(s1, count as nat);
                }
            } else {
                w += 1;
            }
        }
        match chosen {
            Some(c) => c,
            None => 0,
        }
    }

    /// A screen not lit before comes up.
    fn light(&mut self, output: &str, x: i32, y: i32, count: usize, wanted: Option<usize>) -> (r: usize)
        requires
            old(self).wf(),
            find_output(old(self).screens(), output@) is None,
        ensures
            final(self).wf(),
            find_output(final(self).screens(), output@) == Some(r as int),
            final(self).screens() == arrived(old(self).screens(), old(self).gone(), output@, x, y, count, wanted),
            final(self).homes() == arrived_homes(old(self).screens(), old(self).homes(), old(self).gone(), output@, count, wanted),
            final(self).gone() == gone_after(old(self).gone(), output@),
            match old(self).focused_screen() {
                Some(f) => find_output(final(self).screens(), f.output) == Some(final(self).focus_index() as int),
                None => final(self).focus_index() == 0,
            },
    {
        let count = if count == 0 { 1 } else { count };
        let name = output.to_owned();
        let ghost s0 = self.screens();
        let focused = self.focused_output();
        let back = self.take_gone(&name, count);
        self.hand_back_to(back, count);
        let ghost s1 = self.screens();
        let workspace = self.arrival_for(back, wanted, count);
        let screen = Screen { output: name, x, y, workspace, carried_from: None };
        let ghost v = screen@;
        let home_name = output.to_owned();
        self.set_home(workspace, home_name);
        let len = self.list.len();
        self.sort(screen, len);
        proof {
            let t = self.screens();
            let p = slot(s1, v, s1.len() as int);
            lemma_placed_sorted(s1, v, s1.len() as int, p);
            lemma_first_where(s0, is_output(output@));
            assert(same_frame(s1, s0));
            lemma_bounded_insert(s1, p, v);
            assert forall|a: int, b: int| 0 <= a < t.len() && 0 <= b < t.len() && a != b
                implies #[trigger] t[a].output != #[trigger] t[b].output by {
                let a0 = if a < p { a } else { a - 1 };
                let b0 = if b < p { b } else { b - 1 };
                if a != p {
                    assert(t[a].output == s1[a0].output);
                    assert(s1[a0].output == s0[a0].output);
                }
                if b != p {
                    assert(t[b].output == s1[b0].output);
                    assert(s1[b0].output == s0[b0].output);
                }
            }
            assert(t[p].output == output@);
            lemma_first_where(t, is_output(output@));
            if focused is Some {
                let fi = old(self).focused as int;
                let k = if fi < p { fi } else { fi + 1 };
                assert(t[k].output == s0[fi].output);
                lemma_first_where(t, is_output(s0[fi].output));
            }
        }
        self.focused = match focused {
            Some(name) => match self.index_of(name.as_str()) {
                Some(i) => i,
                None => 0,
            },
            None => 0,
        };
        match self.index_of(output) {
            Some(i) => i,
            None => 0,
        }
    }

    /// The workspace list changed: `map` says where each old index went, and `count` is how many
    /// there are now. Every screen follows its workspace; if two would end up on the same one (a
    /// deleted workspace's screen landing where another already looks), the later takes the
    /// lowest one nothing is showing. What each workspace remembers follows it too.
    pub fn remap(&mut self, map: &[usize], count: usize)
        requires
            old(self).wf(),
        ensures
            final(self).wf(),
            final(self).focus_index() == old(self).focus_index(),
            final(self).screens() == remapped(old(self).screens(), map@, count),
            old(self).screens().len() <= at_least_one(count) ==> distinct_workspaces(final(self).screens()),
            final(self).homes() == remapped_homes(old(self).screens(), old(self).homes(), map@, count),
            final(self).gone() == remapped_gone(old(self).gone(), map@, count),
    {
        let count = if count == 0 { 1 } else { count };
        let ghost s0 = self.screens();
        let ghost shown = s0.map_values(|v: ScreenView| v.workspace);
        let ghost t = targets(shown, map@, count);
        let ghost m = moves(shown, map@, count);
        // Where each screen's workspace went.
        let mut moved: Vec<usize> = Vec::new();
        let mut k: usize = 0;
        while k < self.list.len()
            invariant
                count > 0,
                k <= self.list@.len(),
                self.list@.len() == s0.len(),
                s0 == self.screens(),
                shown == s0.map_values(|v: ScreenView| v.workspace),
                m == moves(shown, map@, count),
                moved@ == m.take(k as int),
            decreases self.list@.len() - k,
        {
            assert(self.screens()[k as int] == self.list@[k as int]@);
            let to = follow(map, count, self.list[k].workspace);
            moved.push(to);
            assert(moved@ =~= m.take(k + 1));
            k += 1;
        }
        assert(moved@ =~= m);
        // Every screen follows its workspace, and one whose workspace went where an earlier one's
        // did takes the lowest no screen holds.
        let mut taken: Vec<usize> = Vec::new();
        let mut held: Vec<usize> = moved.clone();
        let mut k: usize = 0;
        while k < self.list.len()
            invariant
                count > 0,
                k <= self.list@.len(),
                self.list@.len() == s0.len(),
                moved@ == m,
                m.len() == s0.len(),
                taken@ == placed_upto(m, count, k as nat),
                held@ == m + taken@,
                forall|j: int| 0 <= j < k ==> #[trigger] self.screens()[j] == (ScreenView {
                    workspace: taken@[j],
                    carried_from: follows_opt(map@, count, s0[j].carried_from),
                    ..s0[j]
                }),
                forall|j: int| k <= j < s0.len() ==> #[trigger] self.screens()[j] == s0[j],
                self.focused == old(self).focused,
                self.homes@ == old(self).homes@,
                self.gone@ == old(self).gone@,
            decreases self.list@.len() - k,
        {
            proof {
                lemma_placed_prefix(m, count, k as nat, 0);
            }
            assert(self.screens()[k as int] == self.list@[k as int]@);
            let mut to = moved[k];
            if contains_before(&moved, k) {
                to = lowest_not_in(&held, count);
            }
            let ghost before = self.screens();
            taken.push(to);
            held.push(to);
            assert(held@ =~= m + taken@);
            assert(taken@ =~= placed_upto(m, count, (k + 1) as nat));
            self.list[k].workspace = to;
            let carried = match self.list[k].carried_from {
                Some(c) => Some(follow(map, count, c)),
                None => None,
            };
            self.list[k].carried_from = carried;
            assert(self.screens() =~= before.update(k as int, ScreenView {
                workspace: to,
                carried_from: follows_opt(map@, count, s0[k as int].carried_from),
                ..s0[k as int]
            }));
            k += 1;
        }
        proof {
            lemma_placed_prefix(m, count, k as nat, 0);
            assert(taken@ =~= t);
            assert(self.screens() =~= remapped(s0, map@, count));
            assert(same_frame(self.screens(), s0));
            lemma_same_frame(self.screens(), s0);
            assert forall|j: int| 0 <= j < self.screens().len() implies bounded(#[trigger] self.screens()[j]) by {
                lemma_targets_below(shown, map@, count);
                assert(self.screens()[j].workspace == t[j]);
            }
        }
        // What each workspace remembers follows it.
        let ghost h0 = self.homes();
        let mut homes: Vec<Option<String>> = Vec::new();
        let mut n: usize = 0;
        while n < count
            invariant
                n <= count,
                homes@.len() == n,
                forall|j: int| 0 <= j < n ==> (#[trigger] homes@[j]) is None,
            decreases count - n,
        {
            homes.push(None);
            n += 1;
        }
        let ghost empty = homes@.map_values(|h: Option<String>| name_view(h));
        assert(empty =~= homes_followed(h0.take(0), map@, count));
        let mut i: usize = 0;
        while i < self.homes.len()
            invariant
                count > 0,
                i <= self.homes@.len(),
                h0 == self.homes(),
                homes@.len() == count,
                homes@.map_values(|h: Option<String>| name_view(h)) =~= homes_followed(h0.take(i as int), map@, count),
            decreases self.homes@.len() - i,
        {
            proof {
                assert(h0.take(i + 1).drop_last() =~= h0.take(i as int));
                lemma_homes_followed_len(h0.take(i as int), map@, count);
            }
            let to = follow(map, count, i);
            if homes[to].is_none() {
                let home = match &self.homes[i] {
                    Some(name) => Some(name.clone()),
                    None => None,
                };
                assert(name_view(home) == h0[i as int]);
                let ghost before = homes@;
                homes.set(to, home);
                assert(homes@.map_values(|h: Option<String>| name_view(h)) =~=
                    before.map_values(|h: Option<String>| name_view(h)).update(to as int, h0[i as int]));
            }
            i += 1;
        }
        assert(h0.take(i as int) =~= h0);
        self.homes = homes;
        let ghost s1 = self.screens();
        proof {
            lemma_targets_below(shown, map@, count);
            assert forall|q: int| 0 <= q < s1.len() implies #[trigger] s1[q].workspace < count by {
                assert(s1[q].workspace == t[q]);
            }
        }
        let ghost hf = self.homes();
        let mut j: usize = 0;
        while j < self.list.len()
            invariant
                count > 0,
                j <= self.list@.len(),
                s1 == self.screens(),
                forall|q: int| 0 <= q < s1.len() ==> #[trigger] s1[q].workspace < count,
                self.homes() == homes_shown(hf, s1.take(j as int)),
                self.homes().len() == count,
                self.focused == old(self).focused,
                self.gone@ == old(self).gone@,
            decreases self.list@.len() - j,
        {
            proof {
                assert(s1.take(j + 1).drop_last() =~= s1.take(j as int));
            }
            assert(s1[j as int] == self.list@[j as int]@);
            let workspace = self.list[j].workspace;
            assert(s1[j as int].workspace < count);
            assert(workspace < count);
            let name = self.list[j].output.clone();
            let ghost h_before = self.homes();
            self.set_home(workspace, name);
            assert(self.homes().len() == h_before.len());
            j += 1;
        }
        assert(s1.take(j as int) =~= s1);
        // Screens that went out come back to where their workspace went.
        let ghost g0 = self.gone();
        let ghost l2 = self.list@;
        let ghost h2 = self.homes@;
        let mut q: usize = 0;
        while q < self.gone.len()
            invariant
                count > 0,
                q <= self.gone@.len(),
                self.gone@.len() == g0.len(),
                forall|e: int| 0 <= e < q ==> #[trigger] self.gone()[e] == (g0[e].0, follows(map@, count, g0[e].1)),
                forall|e: int| q <= e < g0.len() ==> #[trigger] self.gone()[e] == g0[e],
                self.list@ == l2,
                self.homes@ == h2,
                self.focused == old(self).focused,
            decreases self.gone@.len() - q,
        {
            let ghost before = self.gone();
            assert(before[q as int] == (self.gone@[q as int].0@, self.gone@[q as int].1));
            let to = follow(map, count, self.gone[q].1);
            let ghost g_before = self.gone@;
            self.gone[q].1 = to;
            assert(self.gone@ == g_before.update(q as int, (g_before[q as int].0, to)));
            assert(self.gone() =~= before.update(q as int, (g0[q as int].0, follows(map@, count, g0[q as int].1))));
            q += 1;
        }
        assert(self.gone() =~= remapped_gone(g0, map@, count));
        proof {
            if s0.len() <= at_least_one(count) {
                law_remap_keeps_one_screen_per_workspace(s0, map@, count);
            }
        }
    }

    /// Where a workspace is laid out and drawn: the screen showing it; else the screen that last
    /// showed it, if that one is lit; else the focused one, where it would appear if switched to.
    pub fn screen_for_workspace(&self, index: usize) -> (r: usize)
        ensures
            r == home_screen(self.screens(), self.homes(), self.focus_index(), index),
            (exists|k: int| 0 <= k < self.screens().len() && #[trigger] self.screens()[k].workspace == index)
                ==> r < self.screens().len() && self.screens()[r as int].workspace == index,
            (forall|k: int| 0 <= k < self.screens().len() ==> #[trigger] self.screens()[k].workspace != index)
                && index < self.homes().len() && self.homes()[index as int] is Some && (exists|k: int|
                0 <= k < self.screens().len() && #[trigger] self.screens()[k].output == self.homes()[index as int]->0)
                ==> r < self.screens().len() && self.screens()[r as int].output == self.homes()[index as int]->0,
            (forall|k: int| 0 <= k < self.screens().len() ==> #[trigger] self.screens()[k].workspace != index) && (
            index >= self.homes().len() || self.homes()[index as int] is None || forall|k: int|
                0 <= k < self.screens().len() ==> #[trigger] self.screens()[k].output != self.homes()[index as int]->0)
                ==> r == self.focus_index(),
    {
        proof {
            assert(self.screens().len() == self.list@.len() && self.list@.len() == self.list.len());
            law_where_a_workspace_is_laid_out(self.screens(), self.homes(), self.focus_index(), index);
            lemma_first_where(self.screens(), is_showing(index));
            if exists|k: int| 0 <= k < self.screens().len() && #[trigger] self.screens()[k].workspace == index {
                let k = choose|k: int| 0 <= k < self.screens().len() && #[trigger] self.screens()[k].workspace == index;
                assert(is_showing(index)(self.screens()[k]));
            }
        }
        match self.showing(index) {
            Some(i) => {
                return i;
            },
            None => {},
        }
        if index < self.homes.len() {
            if let Some(home) = &self.homes[index] {
                assert(self.homes()[index as int] == Some(home@));
                let mut i: usize = 0;
                while i < self.list.len()
                    invariant
                        i <= self.list@.len(),
                        forall|j: int| 0 <= j < i ==> !is_output(home@)(#[trigger] self.screens()[j]),
                        find_showing(self.screens(), index) is None,
                        forall|k: int| 0 <= k < self.screens().len() ==> #[trigger] self.screens()[k].workspace != index,
                        index < self.homes().len(),
                        self.homes()[index as int] == Some(home@),
                    decreases self.list@.len() - i,
                {
                    assert(self.screens()[i as int] == self.list@[i as int]@);
                    if self.list[i].output == *home {
                        proof {
                            lemma_first_where_at(self.screens(), is_output(home@), i as int);
                            assert(self.screens()[i as int].output == self.homes()[index as int]->0);
                        }
                        return i;
                    }
                    i += 1;
                }
                proof {
                    lemma_first_where_none(self.screens(), is_output(home@));
                }
            }
        }
        self.focused
    }

    /// Points the keyboard at `index`. Returns whether it moved.
    pub fn focus(&mut self, index: usize) -> (r: bool)
        requires
            old(self).wf(),
        ensures
            final(self).wf(),
            distinct_workspaces(old(self).screens()) ==> distinct_workspaces(final(self).screens()),
            r == (index < old(self).screens().len() && index != old(self).focus_index()),
            final(self).focus_index() == if r { index } else { old(self).focus_index() },
            final(self).screens() == old(self).screens(),
            final(self).homes() == old(self).homes(),
            final(self).gone() == old(self).gone(),
    {
        if index >= self.list.len() || index == self.focused {
            return false;
        }
        self.focused = index;
        true
    }

    /// The screen beside the focused one to the left (`-1`) or right (`1`), if there is one.
    pub fn beside(&self, side: i32) -> (r: Option<usize>)
        ensures
            ({
                let at = self.focus_index() + if side > 0 { 1int } else if side < 0 { -1int } else { 0int };
                if 0 <= at < self.screens().len() { r == Some(at as usize) } else { r is None }
            }),
    {
        let step: i128 = if side > 0 { 1 } else if side < 0 { -1 } else { 0 };
        let at: i128 = self.focused as i128 + step;
        if at >= 0 && at < self.list.len() as i128 {
            Some(at as usize)
        } else {
            None
        }
    }

    /// Goes to workspace `index` of `count`. If another screen is showing it, the keyboard moves
    /// to that screen and nothing else changes; otherwise the focused screen shows it.
    pub fn show(&mut self, index: usize, count: usize) -> (r: Show)
        requires
            old(self).wf(),
        ensures
            final(self).wf(),
            distinct_workspaces(old(self).screens()) ==> distinct_workspaces(final(self).screens()),
            final(self).gone() == old(self).gone(),
            ({
                let index = if index < count { index } else if count == 0 { 0 } else { (count - 1) as usize };
                match old(self).focused_screen() {
                    None => r == Show { changed: false, from: 0, moved_to: None } && *final(self) == *old(self),
                    Some(f) => if f.workspace == index {
                        r == Show { changed: false, from: 0, moved_to: None } && *final(self) == *old(self)
                    } else {
                        match find_showing(old(self).screens(), index) {
                            Some(other) => {
                                &&& r == Show { changed: true, from: f.workspace, moved_to: Some(other as usize) }
                                &&& final(self).focus_index() == other
                                &&& final(self).screens() == old(self).screens()
                                &&& final(self).homes() == old(self).homes()
                            },
                            None => {
                                &&& r == Show { changed: true, from: f.workspace, moved_to: None }
                                &&& final(self).focus_index() == old(self).focus_index()
                                &&& final(self).screens() == showing_now(old(self).screens(), old(self).focus_index() as int, index)
                                &&& final(self).homes() == homes_with(old(self).homes(), index, f.output)
                            },
                        }
                    },
                }
            }),
    {
        let index = if index < count { index } else if count == 0 { 0 } else { count - 1 };
        if self.focused >= self.list.len() {
            return Show { changed: false, from: 0, moved_to: None };
        }
        let from = self.list[self.focused].workspace;
        if from == index {
            return Show { changed: false, from: 0, moved_to: None };
        }
        proof {
            lemma_first_where(self.screens(), is_showing(index));
        }
        if let Some(other) = self.showing(index) {
            self.focused = other;
            return Show { changed: true, from, moved_to: Some(other) };
        }
        let focused = self.focused;
        let ghost before = self.screens();
        self.list[focused].workspace = index;
        self.list[focused].carried_from = None;
        assert(self.screens() =~= showing_now(before, focused as int, index));
        proof {
            if distinct_workspaces(before) {
                law_show_keeps_one_screen_per_workspace(before, focused as int, index);
            }
        }
        let name = self.list[focused].output.clone();
        self.set_home(index, name);
        Show { changed: true, from, moved_to: None }
    }

    /// The focused screen and screen `other` trade workspaces. The keyboard stays on the focused
    /// screen, now showing what `other` was.
    pub fn swap_with(&mut self, other: usize) -> (r: bool)
        requires
            old(self).wf(),
        ensures
            final(self).wf(),
            distinct_workspaces(old(self).screens()) ==> distinct_workspaces(final(self).screens()),
            final(self).gone() == old(self).gone(),
            final(self).focus_index() == old(self).focus_index(),
            r == (other != old(self).focus_index() && other < old(self).screens().len()
                && old(self).focus_index() < old(self).screens().len()),
            !r ==> *final(self) == *old(self),
            r ==> {
                let s = old(self).screens();
                let f = old(self).focus_index() as int;
                &&& final(self).screens() == showing_now(showing_now(s, f, s[other as int].workspace), other as int, s[f].workspace)
                &&& final(self).homes() == homes_with(homes_with(old(self).homes(), s[other as int].workspace, s[f].output), s[f].workspace, s[other as int].output)
            },
    {
        let focused = self.focused;
        if other == focused || other >= self.list.len() || focused >= self.list.len() {
            return false;
        }
        let ghost s = self.screens();
        let mine = self.list[focused].workspace;
        let theirs = self.list[other].workspace;
        self.list[focused].workspace = theirs;
        self.list[focused].carried_from = None;
        self.list[other].workspace = mine;
        self.list[other].carried_from = None;
        assert(self.screens() =~= showing_now(showing_now(s, focused as int, theirs), other as int, mine));
        proof {
            if distinct_workspaces(s) {
                law_swap_keeps_one_screen_per_workspace(s, focused as int, other as int);
            }
        }
        let name = self.list[focused].output.clone();
        self.set_home(theirs, name);
        let name = self.list[other].output.clone();
        self.set_home(mine, name);
        true
    }

    /// The focused screen carries on workspace `index` for a screen that went out, and goes back
    /// to what it was showing when that screen returns.
    pub fn carry(&mut self, index: usize) -> (r: bool)
        requires
            old(self).wf(),
            index < usize::MAX,
        ensures
            final(self).wf(),
            distinct_workspaces(old(self).screens()) ==> distinct_workspaces(final(self).screens()),
            final(self).gone() == old(self).gone(),
            final(self).focus_index() == old(self).focus_index(),
            r == (find_showing(old(self).screens(), index) is None && old(self).focused_screen() is Some),
            !r ==> *final(self) == *old(self),
            r ==> {
                let f = old(self).focused_screen()->0;
                let own = match f.carried_from { Some(c) => Some(c), None => Some(f.workspace) };
                &&& final(self).screens() == old(self).screens().update(old(self).focus_index() as int,
                        ScreenView { workspace: index, carried_from: own, ..f })
                &&& final(self).homes() == homes_with(old(self).homes(), index, f.output)
            },
    {
        if self.showing(index).is_some() {
            return false;
        }
        let focused = self.focused;
        if focused >= self.list.len() {
            return false;
        }
        let ghost s = self.screens();
        if self.list[focused].carried_from.is_none() {
            let own = self.list[focused].workspace;
            self.list[focused].carried_from = Some(own);
        }
        self.list[focused].workspace = index;
        let ghost f = s[focused as int];
        assert(self.screens() =~= s.update(focused as int, ScreenView {
            workspace: index,
            carried_from: match f.carried_from { Some(c) => Some(c), None => Some(f.workspace) },
            ..f
        }));
        proof {
            if distinct_workspaces(s) {
                law_carry_keeps_one_screen_per_workspace(s, focused as int, index, match f.carried_from {
                    Some(c) => Some(c),
                    None => Some(f.workspace),
                });
            }
        }
        let name = self.list[focused].output.clone();
        self.set_home(index, name);
        true
    }

    /// Puts a screen out (unplugged, or the lid shut on it), remembering what it was showing for
    /// when it comes back. The keyboard moves to the nearest screen left of it. Returns the
    /// workspace it was showing, which nothing else is now.
    pub fn remove(&mut self, output: &str) -> (r: Option<usize>)
        requires
            old(self).wf(),
        ensures
            final(self).wf(),
            distinct_workspaces(old(self).screens()) ==> distinct_workspaces(final(self).screens()),
            find_output(old(self).screens(), output@) is None ==> r is None && *final(self) == *old(self),
            find_output(old(self).screens(), output@) matches Some(i) ==> {
                let s = old(self).screens();
                let f = old(self).focus_index();
                let f1 = if f >= i { if f == 0 { 0 } else { f - 1 } } else { f as int };
                &&& r == Some(s[i].workspace)
                &&& final(self).screens() == s.remove(i)
                &&& final(self).focus_index() == if s.len() - 1 == 0 { 0 } else if f1 < s.len() - 1 { f1 } else { s.len() - 2 }
                &&& final(self).homes() == old(self).homes()
                &&& final(self).gone() == gone_but(old(self).gone(), output@).push((output@, s[i].workspace))
            },
    {
        proof {
            lemma_first_where(self.screens(), is_output(output@));
        }
        let index = match self.index_of(output) {
            Some(index) => index,
            None => return None,
        };
        let ghost s = self.screens();
        let screen = self.list.remove(index);
        assert(self.screens() =~= s.remove(index as int));
        proof {
            if distinct_workspaces(s) {
                law_remove_keeps_one_screen_per_workspace(s, index as int);
            }
        }
        let ghost g = self.gone();
        let mut kept: Vec<(String, usize)> = Vec::new();
        let mut k: usize = 0;
        while k < self.gone.len()
            invariant
                k <= self.gone@.len(),
                g == self.gone(),
                kept@.map_values(|e: (String, usize)| (e.0@, e.1)) =~= gone_but(g.take(k as int), screen.output@),
            decreases self.gone@.len() - k,
        {
            assert(g.take(k + 1).drop_last() =~= g.take(k as int));
            if self.gone[k].0 != screen.output {
                let entry = (self.gone[k].0.clone(), self.gone[k].1);
                kept.push(entry);
            }
            k += 1;
        }
        assert(g.take(k as int) =~= g);
        let workspace = screen.workspace;
        kept.push((screen.output, workspace));
        self.gone = kept;
        if self.focused >= index {
            self.focused = if self.focused == 0 { 0 } else { self.focused - 1 };
        }
        let last = if self.list.len() == 0 { 0 } else { self.list.len() - 1 };
        if self.focused > last {
            self.focused = last;
        }
        Some(workspace)
    }

    /// Workspaces past `count` have gone. Forgets the homes and the remembered workspaces that
    /// pointed at them, so nothing comes back to a workspace that isn't there.
    pub fn trim_homes(&mut self, count: usize)
        requires
            old(self).wf(),
        ensures
            final(self).wf(),
            distinct_workspaces(old(self).screens()) ==> distinct_workspaces(final(self).screens()),
            final(self).focus_index() == old(self).focus_index(),
            final(self).homes() == if count < old(self).homes().len() { old(self).homes().take(count as int) } else { old(self).homes() },
            final(self).gone() == gone_below(old(self).gone(), count),
            final(self).screens() == old(self).screens().map_values(|s: ScreenView| forget_carried(s, count)),
    {
        let ghost h = self.homes@;
        self.homes.truncate(count);
        assert(self.homes() =~= if count < h.len() { h.map_values(|x: Option<String>| name_view(x)).take(count as int) } else { h.map_values(|x: Option<String>| name_view(x)) });
        let ghost g = self.gone();
        let mut kept: Vec<(String, usize)> = Vec::new();
        let mut k: usize = 0;
        while k < self.gone.len()
            invariant
                k <= self.gone@.len(),
                g == self.gone(),
                kept@.map_values(|e: (String, usize)| (e.0@, e.1)) =~= gone_below(g.take(k as int), count),
            decreases self.gone@.len() - k,
        {
            assert(g.take(k + 1).drop_last() =~= g.take(k as int));
            if self.gone[k].1 < count {
                let entry = (self.gone[k].0.clone(), self.gone[k].1);
                kept.push(entry);
            }
            k += 1;
        }
        assert(g.take(k as int) =~= g);
        self.gone = kept;
        let ghost s = self.screens();
        let ghost h2 = self.homes@;
        let ghost g2 = self.gone@;
        let mut i: usize = 0;
        while i < self.list.len()
            invariant
                i <= self.list@.len(),
                self.list@.len() == s.len(),
                self.screens().len() == s.len(),
                forall|j: int| 0 <= j < i ==> #[trigger] self.screens()[j] == forget_carried(s[j], count),
                forall|j: int| i <= j < s.len() ==> #[trigger] self.screens()[j] == s[j],
                self.focused == old(self).focused,
                self.homes@ == h2,
                self.gone@ == g2,
            decreases self.list@.len() - i,
        {
            let ghost before = self.screens();
            let forget = match self.list[i].carried_from {
                Some(own) => own >= count,
                None => false,
            };
            if forget {
                let ghost l0 = self.list@;
                self.list[i].carried_from = None;
                assert(self.list@[i as int]@ == ScreenView { carried_from: None, ..l0[i as int]@ });
                assert(forall|j: int| 0 <= j < self.list@.len() && j != i ==> self.list@[j] == l0[j]);
                assert(before[i as int] == l0[i as int]@);
                assert(forget_carried(s[i as int], count) == ScreenView { carried_from: None, ..l0[i as int]@ });
            }
            assert(self.screens() =~= before.update(i as int, forget_carried(s[i as int], count)));
            i += 1;
        }
        assert(self.screens() =~= s.map_values(|x: ScreenView| forget_carried(x, count)));
        proof {
            lemma_same_frame(self.screens(), s);
            assert(sorted(self.screens()));
            assert(distinct_outputs(self.screens()));
            assert forall|i: int| 0 <= i < self.screens().len() implies bounded(#[trigger] self.screens()[i]) by {
                assert(bounded(s[i]));
            }
            assert forall|i: int| 0 <= i < s.len() implies (#[trigger] self.screens()[i]).workspace == s[i].workspace by {}
        }
    }

    /// Which screen is showing workspace `index`, if any.
    pub fn showing(&self, index: usize) -> (r: Option<usize>)
        ensures
            r matches Some(i) ==> find_showing(self.screens(), index) == Some(i as int),
            r is None ==> find_showing(self.screens(), index) is None,
    {
        let mut i: usize = 0;
        while i < self.list.len()
            invariant
                i <= self.list@.len(),
                forall|j: int| 0 <= j < i ==> !is_showing(index)(#[trigger] self.screens()[j]),
            decreases self.list@.len() - i,
        {
            if self.list[i].workspace == index {
                proof {
                    lemma_first_where_at(self.screens(), is_showing(index), i as int);
                }
                return Some(i);
            }
            i += 1;
        }
        proof {
            lemma_first_where_none(self.screens(), is_showing(index));
        }
        None
    }

    /// The workspace `output` is showing.
    pub fn workspace_of(&self, output: &str) -> (r: Option<usize>)
        ensures
            r is None <==> find_output(self.screens(), output@) is None,
            r matches Some(w) ==> w == self.screens()[find_output(self.screens(), output@)->0].workspace,
    {
        proof {
            lemma_first_where(self.screens(), is_output(output@));
        }
        match self.index_of(output) {
            Some(index) => {
                assert(find_output(self.screens(), output@) == Some(index as int));
                assert(self.screens()[index as int] == self.list@[index as int]@);
                Some(self.list[index].workspace)
            },
            None => None,
        }
    }
}

} // verus!
