//! `circuit`: traces reaching the logo, routed the way a circuit board routes a signal, one leg
//! along a row and one down a column at a time.

use vstd::prelude::*;

verus! {

/// One cell of a track, with the character that joins it to its neighbours.
#[derive(Debug, Clone, Copy, PartialEq)]
pub struct Step {
    pub col: i32,
    pub row: i32,
    pub ch: char,
}

/// The sign of `d`: -1, 0 or 1.
pub open spec fn sign(d: int) -> int {
    if d > 0 { 1 } else if d < 0 { -1 } else { 0 }
}

pub open spec fn distance(a: int, b: int) -> int {
    if a <= b { b - a } else { a - b }
}

/// The corner or line a cell takes, from the way the track turns at it: `into` is the way it
/// came in, `out` the way it leaves.
pub open spec fn joint_of(into: (int, int), out: (int, int)) -> char {
    if into.1 == 0 && out.1 == 0 {
        '─'
    } else if into.0 == 0 && out.0 == 0 {
        '│'
    } else if (into == (1int, 0int) && out == (0int, 1int)) || (into == (0int, -1int) && out == (-1int, 0int)) {
        '┐'
    } else if (into == (1int, 0int) && out == (0int, -1int)) || (into == (0int, 1int) && out == (-1int, 0int)) {
        '┘'
    } else if (into == (-1int, 0int) && out == (0int, 1int)) || (into == (0int, -1int) && out == (1int, 0int)) {
        '┌'
    } else if (into == (-1int, 0int) && out == (0int, -1int)) || (into == (0int, 1int) && out == (1int, 0int)) {
        '└'
    } else {
        '─'
    }
}

/// The corner or line a cell takes, from the way the track turns at it.
pub fn joint(into: (i32, i32), out: (i32, i32)) -> (r: char)
    ensures
        r == joint_of((into.0 as int, into.1 as int), (out.0 as int, out.1 as int)),
{
    if into.1 == 0 && out.1 == 0 {
        '─'
    } else if into.0 == 0 && out.0 == 0 {
        '│'
    } else if (into.0 == 1 && into.1 == 0 && out.0 == 0 && out.1 == 1) || (into.0 == 0 && into.1 == -1
        && out.0 == -1 && out.1 == 0) {
        '┐'
    } else if (into.0 == 1 && into.1 == 0 && out.0 == 0 && out.1 == -1) || (into.0 == 0 && into.1 == 1
        && out.0 == -1 && out.1 == 0) {
        '┘'
    } else if (into.0 == -1 && into.1 == 0 && out.0 == 0 && out.1 == 1) || (into.0 == 0 && into.1 == -1
        && out.0 == 1 && out.1 == 0) {
        '┌'
    } else if (into.0 == -1 && into.1 == 0 && out.0 == 0 && out.1 == -1) || (into.0 == 0 && into.1 == 1
        && out.0 == 1 && out.1 == 0) {
        '└'
    } else {
        '─'
    }
}

/// The cells from `from` to `to`, `from` itself left out: along the row to `to`'s column, then
/// along that column to `to`'s row.
pub open spec fn leg(from: (int, int), to: (int, int)) -> Seq<(int, int)> {
    Seq::new(distance(from.0, to.0) as nat, |k: int| (from.0 + sign(to.0 - from.0) * (k + 1), from.1))
        + Seq::new(distance(from.1, to.1) as nat, |k: int| (to.0, from.1 + sign(to.1 - from.1) * (k + 1)))
}

pub open spec fn point(p: (i32, i32)) -> (int, int) {
    (p.0 as int, p.1 as int)
}

/// The cells of a track through `points`, one leg at a time.
pub open spec fn track_cells(points: Seq<(i32, i32)>) -> Seq<(int, int)>
    decreases points.len(),
{
    if points.len() == 0 {
        Seq::empty()
    } else if points.len() == 1 {
        seq![point(points[0])]
    } else {
        track_cells(points.drop_last()) + leg(point(points[points.len() - 2]), point(points.last()))
    }
}

/// The way into cell `i` and out of it: from the cells either side, each standing in for the
/// other at the ends.
pub open spec fn turns(cells: Seq<(int, int)>, i: int) -> ((int, int), (int, int)) {
    let here = cells[i];
    let before = if i > 0 { cells[i - 1] } else { here };
    let after = if i + 1 < cells.len() { cells[i + 1] } else { here };
    let into = (sign(here.0 - before.0), sign(here.1 - before.1));
    let out = (sign(after.0 - here.0), sign(after.1 - here.1));
    let into = if into == (0int, 0int) { out } else { into };
    let out = if out == (0int, 0int) { into } else { out };
    (into, out)
}

/// Step `i` of a track over `cells`.
pub open spec fn step_of(cells: Seq<(int, int)>, i: int) -> (int, int, char) {
    let (into, out) = turns(cells, i);
    (cells[i].0, cells[i].1, joint_of(into, out))
}

pub open spec fn steps_view(steps: Seq<Step>) -> Seq<(int, int, char)> {
    steps.map_values(|s: Step| (s.col as int, s.row as int, s.ch))
}

pub open spec fn cells_view(cells: Seq<(i32, i32)>) -> Seq<(int, int)> {
    cells.map_values(|c: (i32, i32)| point(c))
}

/// The way from `a` to `b`, one of -1, 0 and 1.
fn towards(a: i32, b: i32) -> (r: i32)
    ensures
        r == sign(b - a),
{
    if b > a {
        1
    } else if b < a {
        -1
    } else {
        0
    }
}

/// A track through `points`, one leg at a time: along a row to the next point's column, then
/// along that column to its row, which is how a board routes a signal. Every cell's character
/// comes from the cells either side of it.
pub fn route(points: &[(i32, i32)]) -> (r: Vec<Step>)
    ensures
        steps_view(r@) == Seq::new(
            track_cells(points@).len(),
            |i: int| step_of(track_cells(points@), i),
        ),
{
    if points.len() == 0 {
        let none: Vec<Step> = Vec::new();
        assert(steps_view(none@) =~= Seq::new(0, |i: int| step_of(track_cells(points@), i)));
        return none;
    }
    let start = points[0];
    let mut cells: Vec<(i32, i32)> = Vec::new();
    cells.push(start);
    let mut col = start.0;
    let mut row = start.1;
    let mut i: usize = 1;
    assert(points@.take(1).drop_last() =~= Seq::<(i32, i32)>::empty());
    assert(cells_view(cells@) =~= track_cells(points@.take(1)));
    while i < points.len()
        invariant
            1 <= i <= points@.len(),
            cells_view(cells@) == track_cells(points@.take(i as int)),
            (col, row) == points@[i - 1],
        decreases points@.len() - i,
    {
        let target = points[i];
        let ghost from = point(points@[i - 1]);
        let ghost base = cells_view(cells@);
        let ghost whole = leg(from, point(target));
        let ghost across = distance(from.0, target.0 as int);
        while col != target.0
            invariant
                1 <= i < points@.len(),
                target == points@[i as int],
                from == point(points@[i as int - 1]),
                whole == leg(from, point(target)),
                across == distance(from.0, target.0 as int),
                row == from.1,
                distance(from.0, col as int) <= across,
                distance(col as int, target.0 as int) == across - distance(from.0, col as int),
                cells_view(cells@) == base + whole.take(distance(from.0, col as int)),
            decreases distance(col as int, target.0 as int),
        {
            let d = towards(col, target.0);
            let ghost prev = cells@;
            let ghost k = distance(from.0, col as int);
            col = col + d;
            cells.push((col, row));
            assert(k == distance(from.0, col as int) - 1);
            assert(whole[k] == (col as int, row as int));
            assert(whole.take(k + 1) =~= whole.take(k).push(whole[k]));
            assert(cells_view(cells@) =~= cells_view(prev).push(point((col, row))));
        }
        let ghost down = distance(from.1, target.1 as int);
        while row != target.1
            invariant
                1 <= i < points@.len(),
                target == points@[i as int],
                from == point(points@[i as int - 1]),
                whole == leg(from, point(target)),
                across == distance(from.0, target.0 as int),
                down == distance(from.1, target.1 as int),
                col == target.0,
                distance(from.1, row as int) <= down,
                distance(row as int, target.1 as int) == down - distance(from.1, row as int),
                cells_view(cells@) == base + whole.take(across + distance(from.1, row as int)),
            decreases distance(row as int, target.1 as int),
        {
            let d = towards(row, target.1);
            let ghost prev = cells@;
            let ghost k = across + distance(from.1, row as int);
            row = row + d;
            cells.push((col, row));
            assert(k == across + distance(from.1, row as int) - 1);
            assert(whole[k] == (col as int, row as int));
            assert(whole.take(k + 1) =~= whole.take(k).push(whole[k]));
            assert(cells_view(cells@) =~= cells_view(prev).push(point((col, row))));
        }
        proof {
            assert(whole.take(across + down) =~= whole);
            assert(points@.take(i + 1).drop_last() =~= points@.take(i as int));
            assert(points@.take(i + 1)[i as int - 1] == points@[i as int - 1]);
        }
        i += 1;
    }
    assert(points@.take(i as int) =~= points@);
    let ghost cs = cells_view(cells@);
    let mut steps: Vec<Step> = Vec::new();
    let mut j: usize = 0;
    while j < cells.len()
        invariant
            j <= cells@.len(),
            cs == cells_view(cells@),
            cs == track_cells(points@),
            steps_view(steps@) == Seq::new(j as nat, |k: int| step_of(cs, k)),
        decreases cells@.len() - j,
    {
        let (c, r) = cells[j];
        let before = if j > 0 { cells[j - 1] } else { (c, r) };
        let after = if j + 1 < cells.len() { cells[j + 1] } else { (c, r) };
        let into = (towards(before.0, c), towards(before.1, r));
        let out = (towards(c, after.0), towards(r, after.1));
        let into = if into.0 == 0 && into.1 == 0 { out } else { into };
        let out = if out.0 == 0 && out.1 == 0 { into } else { out };
        let ch = joint(into, out);
        proof {
            assert(cs[j as int] == point(cells@[j as int]));
            if j > 0 {
                assert(cs[j - 1] == point(cells@[j - 1]));
            }
            if j + 1 < cells@.len() {
                assert(cs[j + 1] == point(cells@[j + 1]));
            }
        }
        assert((c as int, r as int, ch) == step_of(cs, j as int));
        let ghost prev = steps@;
        steps.push(Step { col: c, row: r, ch });
        assert(steps_view(steps@) =~= steps_view(prev).push((c as int, r as int, ch)));
        assert(steps_view(steps@) =~= Seq::new(j as nat + 1, |k: int| step_of(cs, k)));
        j += 1;
    }
    steps
}

/// Whether two cells are side by side: one apart along a row or a column.
pub open spec fn adjacent(a: (int, int), b: (int, int)) -> bool {
    distance(a.0, b.0) + distance(a.1, b.1) == 1
}

/// A leg runs from beside where it starts to where it ends, a cell at a time.
proof fn lemma_leg(from: (int, int), to: (int, int))
    ensures
        leg(from, to).len() == distance(from.0, to.0) + distance(from.1, to.1),
        leg(from, to).len() > 0 ==> leg(from, to).last() == to && adjacent(from, leg(from, to)[0]),
        forall|k: int| 0 <= k < leg(from, to).len() - 1 ==> adjacent(#[trigger] leg(from, to)[k], leg(from, to)[k + 1]),
{
    let l = leg(from, to);
    let a = distance(from.0, to.0);
    let b = distance(from.1, to.1);
    let s0 = sign(to.0 - from.0);
    let s1 = sign(to.1 - from.1);
    assert forall|k: int| 0 <= k < a implies #[trigger] l[k] == (from.0 + s0 * (k + 1), from.1) && (
        if s0 == 1 { l[k].0 == from.0 + k + 1 } else { l[k].0 == from.0 - k - 1 }) by {
        assert(s0 == 1 || s0 == -1);
    }
    assert forall|k: int| a <= k < a + b implies #[trigger] l[k] == (to.0, from.1 + s1 * (k - a + 1)) && (
        if s1 == 1 { l[k].1 == from.1 + k - a + 1 } else { l[k].1 == from.1 - k + a - 1 }) by {
        assert(s1 == 1 || s1 == -1);
    }
    if a > 0 {
        assert(s0 * a == to.0 - from.0);
    }
    if b > 0 {
        assert(s1 * b == to.1 - from.1);
    }
    assert forall|k: int| 0 <= k < l.len() - 1 implies adjacent(#[trigger] l[k], l[k + 1]) by {
        if k + 1 < a {
        } else if k + 1 == a {
            assert(l[k].0 == to.0);
        } else {
        }
    }
    if l.len() > 0 {
        if b > 0 {
            assert(l.last() == l[a + b - 1]);
        } else {
            assert(l.last() == l[a - 1]);
        }
    }
}

/// A track starts at its first point and ends at its last.
pub proof fn law_a_track_runs_from_its_first_point_to_its_last(points: Seq<(i32, i32)>)
    requires
        points.len() > 0,
    ensures
        track_cells(points).len() > 0,
        track_cells(points)[0] == point(points[0]),
        track_cells(points).last() == point(points.last()),
    decreases points.len(),
{
    if points.len() > 1 {
        let rest = points.drop_last();
        law_a_track_runs_from_its_first_point_to_its_last(rest);
        lemma_leg(point(points[points.len() - 2]), point(points.last()));
        assert(rest.last() == points[points.len() - 2]);
        assert(rest[0] == points[0]);
    }
}

/// Each cell of a track is one cell from the one before it.
pub proof fn law_each_step_is_one_cell_from_the_last(points: Seq<(i32, i32)>)
    ensures
        forall|i: int| 0 <= i < track_cells(points).len() - 1 ==> adjacent(
            #[trigger] track_cells(points)[i],
            track_cells(points)[i + 1],
        ),
    decreases points.len(),
{
    if points.len() > 1 {
        let rest = points.drop_last();
        let head = track_cells(rest);
        let from = point(points[points.len() - 2]);
        let l = leg(from, point(points.last()));
        law_each_step_is_one_cell_from_the_last(rest);
        law_a_track_runs_from_its_first_point_to_its_last(rest);
        lemma_leg(from, point(points.last()));
        assert(rest.last() == points[points.len() - 2]);
        let all = track_cells(points);
        assert(all == head + l);
        assert forall|i: int| 0 <= i < all.len() - 1 implies adjacent(#[trigger] all[i], all[i + 1]) by {
            if i + 1 < head.len() {
                assert(all[i] == head[i] && all[i + 1] == head[i + 1]);
            } else if i + 1 == head.len() {
                assert(all[i] == head.last() && all[i + 1] == l[0]);
            } else {
                assert(all[i] == l[i - head.len()] && all[i + 1] == l[i - head.len() + 1]);
            }
        }
    }
}

} // verus!
