//! `maze`: a maze carved by a depth-first walk, and the way through it to the dead end furthest
//! from the start, which the variation walks to the logo on the wall at its end.

use vstd::prelude::*;
use super::{hash24, hash24_of};

verus! {

/// Cells in the maze across and down. The map it is cast in has a square for every cell and every
/// wall between them.
pub const CELLS_ACROSS: usize = 8;
pub const CELLS_DOWN: usize = 6;

/// The plan's squares across and down: a square for every cell and every wall between them.
pub const PLAN_W: usize = 17;
pub const PLAN_H: usize = 13;
/// How many squares the plan has.
pub const PLAN_SQUARES: usize = 221;

/// The plan: `w` × `h` squares, a row at a time, each solid or open.
pub struct Plan {
    pub w: usize,
    pub h: usize,
    pub solid: Vec<bool>,
}

impl Plan {
    /// Every square has its place.
    pub open spec fn wf(self) -> bool {
        self.solid@.len() == self.w * self.h
    }

    /// Whether the square at (`x`, `y`) is solid; everything off the map is.
    pub open spec fn solid_at(self, x: int, y: int) -> bool {
        x < 0 || y < 0 || x >= self.w || y >= self.h || self.solid@[y * self.w + x]
    }

    /// Whether the square at (`x`, `y`) is solid; everything off the map is.
    pub fn solid(&self, x: i32, y: i32) -> (r: bool)
        requires
            self.wf(),
        ensures
            r == self.solid_at(x as int, y as int),
    {
        if x < 0 || y < 0 || x as usize >= self.w || y as usize >= self.h {
            return true;
        }
        let (x, y) = (x as usize, y as usize);
        assert(y * self.w + x < self.w * self.h) by (nonlinear_arith)
            requires
                x < self.w,
                y < self.h,
        ;
        assert(self.solid@.len() == self.solid.len());
        self.solid[y * self.w + x]
    }
}

/// The map's width and height in squares.
pub open spec fn map_w() -> int {
    PLAN_W as int
}

pub open spec fn map_h() -> int {
    PLAN_H as int
}

pub open spec fn cell_total() -> int {
    (CELLS_ACROSS * CELLS_DOWN) as int
}

/// The column and row of cell number `c`.
pub open spec fn cx(c: int) -> int {
    c % CELLS_ACROSS as int
}

pub open spec fn cy(c: int) -> int {
    c / CELLS_ACROSS as int
}

/// The plan's square of cell (`x`, `y`), the plan being 17 squares across.
pub open spec fn square(x: int, y: int) -> int {
    (2 * y + 1) * 17 + 2 * x + 1
}

/// The plan's square between cells `a` and `b`.
pub open spec fn wall(a: (int, int), b: (int, int)) -> int {
    (a.1 + b.1 + 1) * 17 + a.0 + b.0 + 1
}

pub open spec fn cell_of(c: int) -> (int, int) {
    (cx(c), cy(c))
}

pub open spec fn side_by_side(a: (int, int), b: (int, int)) -> bool {
    (if a.0 <= b.0 { b.0 - a.0 } else { a.0 - b.0 }) + (if a.1 <= b.1 { b.1 - a.1 } else { a.1 - b.1 }) == 1
}

/// How many of `s` are set.
pub open spec fn count_set(s: Seq<bool>) -> int
    decreases s.len(),
{
    if s.len() == 0 {
        0
    } else {
        count_set(s.drop_last()) + if s.last() { 1int } else { 0int }
    }
}

proof fn lemma_count_bounds(s: Seq<bool>)
    ensures
        0 <= count_set(s) <= s.len(),
    decreases s.len(),
{
    if s.len() > 0 {
        lemma_count_bounds(s.drop_last());
    }
}

/// Setting one more adds one to the count.
proof fn lemma_count_set_one(s: Seq<bool>, i: int)
    requires
        0 <= i < s.len(),
        !s[i],
    ensures
        count_set(s.update(i, true)) == count_set(s) + 1,
    decreases s.len(),
{
    let t = s.update(i, true);
    if i == s.len() - 1 {
        assert(t.drop_last() =~= s.drop_last());
    } else {
        assert(t.drop_last() =~= s.drop_last().update(i, true));
        lemma_count_set_one(s.drop_last(), i);
    }
}

/// Whether square `q` of the plan may be open: it is a reached cell's, or the wall between a
/// reached cell and the one it was reached from.
pub open spec fn open_square(seen: Seq<bool>, parent: Seq<usize>, q: int) -> bool {
    ||| exists|c: int| 0 <= c < cell_total() && seen[c] && q == #[trigger] square(cx(c), cy(c))
    ||| exists|c: int| 0 < c < cell_total() && seen[c] && q == #[trigger] wall(cell_of(c), cell_of(parent[c] as int))
}

/// What the carve keeps true as it goes: the cells it has reached are open, and each but the
/// first hangs off a neighbour it was reached from, one deeper, with the wall between them open.
pub open spec fn carved(solid: Seq<bool>, seen: Seq<bool>, parent: Seq<usize>, depth: Seq<usize>) -> bool {
    &&& solid.len() == PLAN_SQUARES
    &&& seen.len() == cell_total()
    &&& parent.len() == cell_total()
    &&& depth.len() == cell_total()
    &&& seen[0]
    &&& parent[0] == usize::MAX
    &&& depth[0] == 0
    &&& forall|c: int| 0 <= c < cell_total() && seen[c] ==> !#[trigger] solid[square(cx(c), cy(c))]
    &&& forall|c: int|
        0 <= c < cell_total() && !#[trigger] seen[c] ==> parent[c] == usize::MAX && depth[c] == 0
    &&& forall|c: int| 0 <= c < cell_total() ==> #[trigger] depth[c] < count_set(seen)
    &&& forall|c: int|
        #![trigger parent[c]]
        0 < c < cell_total() && seen[c] ==> {
            let p = parent[c] as int;
            &&& 0 <= p < cell_total()
            &&& seen[p]
            &&& side_by_side(cell_of(c), cell_of(p))
            &&& !solid[wall(cell_of(c), cell_of(p))]
            &&& depth[c] == depth[p] + 1
        }
    &&& forall|q: int| 0 <= q < PLAN_SQUARES && !#[trigger] solid[q] ==> open_square(seen, parent, q)
}

/// Reaching cell `next` from cell `here` keeps what the carve keeps true.
proof fn lemma_carve_step(
    solid: Seq<bool>,
    seen: Seq<bool>,
    parent: Seq<usize>,
    depth: Seq<usize>,
    here: int,
    next: int,
)
    requires
        carved(solid, seen, parent, depth),
        0 <= here < cell_total(),
        seen[here],
        0 <= next < cell_total(),
        !seen[next],
        side_by_side(cell_of(next), cell_of(here)),
    ensures
        count_set(seen.update(next, true)) == count_set(seen) + 1,
        count_set(seen.update(next, true)) <= cell_total(),
        depth[here] + 1 < count_set(seen.update(next, true)),
        carved(
            solid.update(wall(cell_of(next), cell_of(here)), false).update(square(cx(next), cy(next)), false),
            seen.update(next, true),
            parent.update(next, here as usize),
            depth.update(next, (depth[here] + 1) as usize),
        ),
{
    lemma_count_set_one(seen, next);
    lemma_count_bounds(seen.update(next, true));
    lemma_cell(next);
    lemma_cell(here);
    assert(0 <= wall(cell_of(next), cell_of(here)) < PLAN_SQUARES);
    assert(0 <= square(cx(next), cy(next)) < PLAN_SQUARES);
    let solid2 = solid.update(wall(cell_of(next), cell_of(here)), false).update(square(cx(next), cy(next)), false);
    let seen2 = seen.update(next, true);
    let parent2 = parent.update(next, here as usize);
    let depth2 = depth.update(next, (depth[here] + 1) as usize);
    assert forall|c: int| 0 <= c < cell_total() && seen2[c] implies !#[trigger] solid2[square(cx(c), cy(c))] by {
        lemma_cell(c);
        if c != next {
            assert(seen[c]);
            assert(!solid[square(cx(c), cy(c))]);
        }
    }
    assert forall|c: int| #![trigger parent2[c]] 0 < c < cell_total() && seen2[c] implies {
        let p = parent2[c] as int;
        &&& 0 <= p < cell_total()
        &&& seen2[p]
        &&& side_by_side(cell_of(c), cell_of(p))
        &&& !solid2[wall(cell_of(c), cell_of(p))]
        &&& depth2[c] == depth2[p] + 1
    } by {
        lemma_cell(c);
        if c != next {
            assert(seen[c] && parent2[c] == parent[c]);
            let p = parent[c] as int;
            lemma_cell(p);
            assert(seen[p]);
            assert(p != next);
            assert(!solid[wall(cell_of(c), cell_of(p))]);
        } else {
            assert(here != next);
        }
    }
    assert forall|c: int| 0 <= c < cell_total() implies #[trigger] depth2[c] < count_set(seen2) by {
        if c != next {
            assert(depth[c] < count_set(seen));
        }
    }
    assert forall|q: int| 0 <= q < PLAN_SQUARES && !#[trigger] solid2[q] implies open_square(seen2, parent2, q) by {
        if q == square(cx(next), cy(next)) {
            assert(seen2[next]);
        } else if q == wall(cell_of(next), cell_of(here)) {
            assert(parent2[next] as int == here);
            assert(q == wall(cell_of(next), cell_of(parent2[next] as int)));
        } else {
            assert(!solid[q]);
            assert(open_square(seen, parent, q));
            if exists|c: int| 0 <= c < cell_total() && seen[c] && q == #[trigger] square(cx(c), cy(c)) {
                let c = choose|c: int| 0 <= c < cell_total() && seen[c] && q == #[trigger] square(cx(c), cy(c));
                assert(seen2[c]);
            } else {
                let c = choose|c: int| 0 < c < cell_total() && seen[c] && q == #[trigger] wall(cell_of(c), cell_of(parent[c] as int));
                assert(c != next);
                assert(seen2[c] && parent2[c] == parent[c]);
            }
        }
    }
}

/// Cell (`x`, `y`)'s number.
pub open spec fn index_of(x: int, y: int) -> int {
    y * CELLS_ACROSS as int + x
}

proof fn lemma_cell(c: int)
    requires
        0 <= c < cell_total(),
    ensures
        0 <= cx(c) < CELLS_ACROSS,
        0 <= cy(c) < CELLS_DOWN,
        c == index_of(cx(c), cy(c)),
{
}

/// Every cell beside (`x`, `y`) has been reached.
pub open spec fn settled(seen: Seq<bool>, x: int, y: int) -> bool {
    &&& (x + 1 < CELLS_ACROSS ==> seen[index_of(x + 1, y)])
    &&& (x > 0 ==> seen[index_of(x - 1, y)])
    &&& (y + 1 < CELLS_DOWN ==> seen[index_of(x, y + 1)])
    &&& (y > 0 ==> seen[index_of(x, y - 1)])
}

/// Whether cell (`x`, `y`) is on the walk's stack.
pub open spec fn on_stack(stack: Seq<(usize, usize)>, x: int, y: int) -> bool {
    exists|k: int| 0 <= k < stack.len() && #[trigger] stack[k].0 == x && stack[k].1 == y
}

/// With every reached cell settled, every cell is reached: the grid hangs together.
proof fn lemma_all_reached(seen: Seq<bool>, x: int, y: int)
    requires
        seen.len() == cell_total(),
        seen[0],
        forall|a: int, b: int|
            0 <= a < CELLS_ACROSS && 0 <= b < CELLS_DOWN && #[trigger] seen[index_of(a, b)] ==> settled(seen, a, b),
        0 <= x < CELLS_ACROSS,
        0 <= y < CELLS_DOWN,
    ensures
        seen[index_of(x, y)],
    decreases y, x,
{
    if x > 0 {
        lemma_all_reached(seen, x - 1, y);
    } else if y > 0 {
        lemma_all_reached(seen, x, y - 1);
    }
}

/// `c` alone where `b` holds, else nothing.
pub open spec fn one_if(b: bool, c: (usize, usize)) -> Seq<(usize, usize)> {
    if b { seq![c] } else { Seq::empty() }
}

/// The cells beside (`x`, `y`) not yet reached: right, left, down and up, in that order.
pub open spec fn unseen_around(seen: Seq<bool>, x: int, y: int) -> Seq<(usize, usize)> {
    one_if(x + 1 < CELLS_ACROSS && !seen[index_of(x + 1, y)], ((x + 1) as usize, y as usize))
        + one_if(x > 0 && !seen[index_of(x - 1, y)], ((x - 1) as usize, y as usize))
        + one_if(y + 1 < CELLS_DOWN && !seen[index_of(x, y + 1)], (x as usize, (y + 1) as usize))
        + one_if(y > 0 && !seen[index_of(x, y - 1)], (x as usize, (y - 1) as usize))
}

/// The cells beside (`x`, `y`) not yet reached: right, left, down and up, in that order.
fn unseen_beside(seen: &Vec<bool>, x: usize, y: usize) -> (r: Vec<(usize, usize)>)
    requires
        seen@.len() == cell_total(),
        x < CELLS_ACROSS,
        y < CELLS_DOWN,
    ensures
        r@.len() <= 4,
        forall|k: int| #![trigger r@[k]] 0 <= k < r@.len() ==> r@[k].0 < CELLS_ACROSS && r@[k].1 < CELLS_DOWN
            && !seen@[index_of(r@[k].0 as int, r@[k].1 as int)]
            && side_by_side((x as int, y as int), (r@[k].0 as int, r@[k].1 as int)),
        r@.len() == 0 ==> settled(seen@, x as int, y as int),
        r@ == unseen_around(seen@, x as int, y as int),
{
    let cw = CELLS_ACROSS;
    let ch = CELLS_DOWN;
    let ghost (xi, yi) = (x as int, y as int);
    let mut options: Vec<(usize, usize)> = Vec::new();
    if x + 1 < cw && !seen[y * cw + x + 1] {
        options.push((x + 1, y));
    }
    assert(options@ =~= one_if(xi + 1 < CELLS_ACROSS && !seen@[index_of(xi + 1, yi)], ((xi + 1) as usize, y)));
    let ghost a = options@;
    if x > 0 && !seen[y * cw + x - 1] {
        options.push((x - 1, y));
    }
    assert(options@ =~= a + one_if(xi > 0 && !seen@[index_of(xi - 1, yi)], ((xi - 1) as usize, y)));
    let ghost b = options@;
    if y + 1 < ch && !seen[(y + 1) * cw + x] {
        options.push((x, y + 1));
    }
    assert(options@ =~= b + one_if(yi + 1 < CELLS_DOWN && !seen@[index_of(xi, yi + 1)], (x, (yi + 1) as usize)));
    let ghost c = options@;
    if y > 0 && !seen[(y - 1) * cw + x] {
        options.push((x, y - 1));
    }
    assert(options@ =~= c + one_if(yi > 0 && !seen@[index_of(xi, yi - 1)], (x, (yi - 1) as usize)));
    options
}

/// Reaches cell `to` from cell `from`, beside it: marks it reached, one deeper than `from`,
/// and opens it and the wall between them.
fn reach(
    solid: &mut Vec<bool>,
    seen: &mut Vec<bool>,
    parent: &mut Vec<usize>,
    depth: &mut Vec<usize>,
    from: (usize, usize),
    to: (usize, usize),
)
    requires
        carved(old(solid)@, old(seen)@, old(parent)@, old(depth)@),
        from.0 < CELLS_ACROSS && from.1 < CELLS_DOWN,
        to.0 < CELLS_ACROSS && to.1 < CELLS_DOWN,
        old(seen)@[index_of(from.0 as int, from.1 as int)],
        !old(seen)@[index_of(to.0 as int, to.1 as int)],
        side_by_side((from.0 as int, from.1 as int), (to.0 as int, to.1 as int)),
    ensures
        carved(final(solid)@, final(seen)@, final(parent)@, final(depth)@),
        count_set(final(seen)@) == count_set(old(seen)@) + 1,
        count_set(final(seen)@) <= cell_total(),
        final(seen)@ == old(seen)@.update(index_of(to.0 as int, to.1 as int), true),
        final(depth)@[index_of(to.0 as int, to.1 as int)] >= 1,
        final(solid)@ == old(solid)@.update(wall((to.0 as int, to.1 as int), (from.0 as int, from.1 as int)), false).update(
            square(to.0 as int, to.1 as int),
            false,
        ),
        final(parent)@ == old(parent)@.update(index_of(to.0 as int, to.1 as int), index_of(from.0 as int, from.1 as int) as usize),
        final(depth)@ == old(depth)@.update(
            index_of(to.0 as int, to.1 as int),
            (old(depth)@[index_of(from.0 as int, from.1 as int)] + 1) as usize,
        ),
{
    let (x, y) = from;
    let (nx, ny) = to;
    let here = y * CELLS_ACROSS + x;
    let next = ny * CELLS_ACROSS + nx;
    proof {
        lemma_cell(here as int);
        lemma_cell(next as int);
        assert(cell_of(next as int) == (nx as int, ny as int));
        assert(cell_of(here as int) == (x as int, y as int));
        lemma_carve_step(old(solid)@, old(seen)@, old(parent)@, old(depth)@, here as int, next as int);
    }
    seen.set(next, true);
    parent.set(next, here);
    let d = depth[here] + 1;
    depth.set(next, d);
    solid.set((y + ny + 1) * PLAN_W + (x + nx + 1), false);
    solid.set((ny * 2 + 1) * PLAN_W + nx * 2 + 1, false);
}

/// Where the seeded walk stands: the plan's squares, the cells reached, the cell each was
/// reached from and how deep it is, the stack of cells the walk is in, and how many picks it has
/// drawn.
pub type Walk = (Seq<bool>, Seq<bool>, Seq<usize>, Seq<usize>, Seq<(usize, usize)>, u64);

/// The walk before its first step: the top-left cell reached and open, nothing else.
pub open spec fn walk_start() -> Walk {
    (
        Seq::new(PLAN_SQUARES as nat, |q: int| q != square(0, 0)),
        Seq::new(cell_total() as nat, |c: int| c == 0),
        Seq::new(cell_total() as nat, |c: int| usize::MAX),
        Seq::new(cell_total() as nat, |c: int| 0usize),
        seq![(0usize, 0usize)],
        0u64,
    )
}

/// Which of `count` options the `draws`th pick of the walk for `seed` takes: the pick's 24
/// random bits times the count, scaled by 2^-24, and no further than the last.
pub open spec fn pick(seed: u64, draws: u64, count: int) -> int {
    let hash = hash24_of(seed ^ draws.wrapping_mul(0x9e37_79b9_7f4a_7c15));
    let scaled = (((hash * count) as u64) >> 24u64) as int;
    if scaled < count - 1 { scaled } else { count - 1 }
}

/// One step of the walk for `seed`: from the cell on top of the stack, reach a neighbour not yet
/// reached, the one the next pick names, opening the wall between them; with none left, step
/// back off it. A walk with an empty stack has finished and stays as it is.
pub open spec fn walk_step(w: Walk, seed: u64) -> Walk {
    let (solid, seen, parent, depth, stack, draws) = w;
    if stack.len() == 0 {
        w
    } else {
        let (x, y) = stack.last();
        let options = unseen_around(seen, x as int, y as int);
        if options.len() == 0 {
            (solid, seen, parent, depth, stack.drop_last(), draws)
        } else {
            let d = (draws + 1) as u64;
            let (nx, ny) = options[pick(seed, d, options.len() as int)];
            let here = index_of(x as int, y as int);
            let next = index_of(nx as int, ny as int);
            (
                solid.update(wall((nx as int, ny as int), (x as int, y as int)), false).update(square(nx as int, ny as int), false),
                seen.update(next, true),
                parent.update(next, here as usize),
                depth.update(next, (depth[here] + 1) as usize),
                stack.push((nx, ny)),
                d,
            )
        }
    }
}

/// `n` steps of the walk for `seed` from `w`.
pub open spec fn walk_from(w: Walk, seed: u64, n: nat) -> Walk
    decreases n,
{
    if n == 0 {
        w
    } else {
        walk_from(walk_step(w, seed), seed, (n - 1) as nat)
    }
}

/// Where the walk for `seed` ends: each cell is stepped on once and off once, 95 steps in all.
pub open spec fn walked(seed: u64) -> Walk {
    walk_from(walk_start(), seed, 95)
}

proof fn lemma_walk_succ(w: Walk, seed: u64, n: nat)
    ensures
        walk_from(w, seed, n + 1) == walk_step(walk_from(w, seed, n), seed),
    decreases n,
{
    assert(walk_from(w, seed, n + 1) == walk_from(walk_step(w, seed), seed, n));
    if n > 0 {
        lemma_walk_succ(walk_step(w, seed), seed, (n - 1) as nat);
        assert(walk_from(w, seed, n) == walk_from(walk_step(w, seed), seed, (n - 1) as nat));
    } else {
        assert(walk_from(walk_step(w, seed), seed, 0) == walk_step(w, seed));
    }
}

proof fn lemma_walk_finished(w: Walk, seed: u64, n: nat)
    requires
        w.4.len() == 0,
    ensures
        walk_from(w, seed, n) == w,
    decreases n,
{
    if n > 0 {
        lemma_walk_finished(w, seed, (n - 1) as nat);
    }
}

proof fn lemma_walk_add(w: Walk, seed: u64, a: nat, b: nat)
    ensures
        walk_from(w, seed, a + b) == walk_from(walk_from(w, seed, a), seed, b),
    decreases a,
{
    if a > 0 {
        lemma_walk_add(walk_step(w, seed), seed, (a - 1) as nat, b);
        assert((a + b - 1) as nat == ((a - 1) as nat + b) as nat);
    }
}

/// What the walk keeps true of its stack: it holds reached cells, each once, and every reached
/// cell off it has had all its neighbours reached.
#[verifier::opaque]
spec fn walk_ok(seen: Seq<bool>, stack: Seq<(usize, usize)>) -> bool {
    &&& seen.len() == cell_total()
    &&& forall|k: int| 0 <= k < stack.len() ==> #[trigger] stack[k].0 < CELLS_ACROSS
        && stack[k].1 < CELLS_DOWN && seen[index_of(stack[k].0 as int, stack[k].1 as int)]
    &&& forall|i: int, j: int| 0 <= i < j < stack.len() ==> stack[i] != stack[j]
    &&& forall|a: int, b: int|
        0 <= a < CELLS_ACROSS && 0 <= b < CELLS_DOWN && #[trigger] seen[index_of(a, b)] && !on_stack(stack, a, b)
        ==> settled(seen, a, b)
}

proof fn lemma_walk_start(seen: Seq<bool>)
    requires
        seen.len() == cell_total(),
        forall|c: int| 0 <= c < cell_total() ==> #[trigger] seen[c] == (c == 0),
    ensures
        walk_ok(seen, seq![(0usize, 0usize)]),
{
    reveal(walk_ok);
    let stack = seq![(0usize, 0usize)];
    assert forall|a: int, b: int|
        0 <= a < CELLS_ACROSS && 0 <= b < CELLS_DOWN && #[trigger] seen[index_of(a, b)] && !on_stack(stack, a, b)
        implies settled(seen, a, b) by {
        assert(stack[0].0 == a && stack[0].1 == b);
    }
}

proof fn lemma_walk_top(seen: Seq<bool>, stack: Seq<(usize, usize)>)
    requires
        walk_ok(seen, stack),
        stack.len() > 0,
    ensures
        stack.last().0 < CELLS_ACROSS,
        stack.last().1 < CELLS_DOWN,
        seen[index_of(stack.last().0 as int, stack.last().1 as int)],
{
    reveal(walk_ok);
    assert(stack[stack.len() - 1].0 < CELLS_ACROSS);
}

/// Dropping a settled cell from the top keeps what the walk keeps true.
proof fn lemma_walk_pop(seen: Seq<bool>, stack: Seq<(usize, usize)>)
    requires
        walk_ok(seen, stack),
        stack.len() > 0,
        settled(seen, stack.last().0 as int, stack.last().1 as int),
    ensures
        walk_ok(seen, stack.drop_last()),
{
    reveal(walk_ok);
    let rest = stack.drop_last();
    let (x, y) = stack.last();
    assert forall|a: int, b: int|
        0 <= a < CELLS_ACROSS && 0 <= b < CELLS_DOWN && #[trigger] seen[index_of(a, b)] && !on_stack(rest, a, b)
        implies settled(seen, a, b) by {
        if a != x || b != y {
            if on_stack(stack, a, b) {
                let k = choose|k: int| 0 <= k < stack.len() && #[trigger] stack[k].0 == a && stack[k].1 == b;
                assert(rest[k] == stack[k]);
                assert(on_stack(rest, a, b));
            }
        }
    }
    assert forall|i: int, j: int| 0 <= i < j < rest.len() implies rest[i] != rest[j] by {
        assert(rest[i] == stack[i] && rest[j] == stack[j]);
    }
    assert forall|k: int| 0 <= k < rest.len() implies #[trigger] rest[k].0 < CELLS_ACROSS
        && rest[k].1 < CELLS_DOWN && seen[index_of(rest[k].0 as int, rest[k].1 as int)] by {
        assert(rest[k] == stack[k]);
    }
}

/// Reaching a new cell and pushing it keeps what the walk keeps true.
proof fn lemma_walk_push(seen: Seq<bool>, stack: Seq<(usize, usize)>, nx: usize, ny: usize)
    requires
        walk_ok(seen, stack),
        nx < CELLS_ACROSS,
        ny < CELLS_DOWN,
        !seen[index_of(nx as int, ny as int)],
    ensures
        walk_ok(seen.update(index_of(nx as int, ny as int), true), stack.push((nx, ny))),
{
    reveal(walk_ok);
    let n = index_of(nx as int, ny as int);
    let seen2 = seen.update(n, true);
    let stack2 = stack.push((nx, ny));
    assert forall|k: int| 0 <= k < stack.len() implies stack[k] != (nx, ny) by {
        assert(seen[index_of(stack[k].0 as int, stack[k].1 as int)]);
    }
    assert forall|i: int, j: int| 0 <= i < j < stack2.len() implies stack2[i] != stack2[j] by {
        assert(stack2[i] == stack[i]);
    }
    assert forall|k: int| 0 <= k < stack2.len() implies #[trigger] stack2[k].0 < CELLS_ACROSS
        && stack2[k].1 < CELLS_DOWN && seen2[index_of(stack2[k].0 as int, stack2[k].1 as int)] by {
        if k < stack.len() {
            assert(stack2[k] == stack[k]);
            assert(seen[index_of(stack[k].0 as int, stack[k].1 as int)]);
        }
    }
    assert forall|a: int, b: int|
        0 <= a < CELLS_ACROSS && 0 <= b < CELLS_DOWN && #[trigger] seen2[index_of(a, b)] && !on_stack(stack2, a, b)
        implies settled(seen2, a, b) by {
        if a == nx && b == ny {
            assert(stack2[stack.len() as int].0 == a && stack2[stack.len() as int].1 == b);
        } else {
            assert(index_of(a, b) != n);
            assert(seen[index_of(a, b)]);
            if on_stack(stack, a, b) {
                let k = choose|k: int| 0 <= k < stack.len() && #[trigger] stack[k].0 == a && stack[k].1 == b;
                assert(stack2[k] == stack[k]);
                assert(on_stack(stack2, a, b));
            }
            assert(settled(seen, a, b));
        }
    }
}

/// When the walk's stack is empty, every cell has been reached.
proof fn lemma_walk_done(seen: Seq<bool>, stack: Seq<(usize, usize)>)
    requires
        walk_ok(seen, stack),
        stack.len() == 0,
        seen[0],
    ensures
        forall|c: int| 0 <= c < cell_total() ==> #[trigger] seen[c],
{
    reveal(walk_ok);
    assert forall|a: int, b: int|
        0 <= a < CELLS_ACROSS && 0 <= b < CELLS_DOWN && #[trigger] seen[index_of(a, b)]
        implies settled(seen, a, b) by {
        assert(!on_stack(stack, a, b));
    }
    assert forall|c: int| 0 <= c < cell_total() implies #[trigger] seen[c] by {
        lemma_cell(c);
        lemma_all_reached(seen, cx(c), cy(c));
    }
}

/// The plan's square between cells `a` and `b`, as (across, down).
pub open spec fn wall_between(a: int, b: int) -> (int, int) {
    (cx(a) + cx(b) + 1, cy(a) + cy(b) + 1)
}

/// Cell `c` hangs off the neighbour `parent` names, one shallower by `depth`, with the wall
/// between them open.
pub open spec fn hangs_from(plan: Plan, parent: Seq<usize>, depth: Seq<usize>, c: int) -> bool {
    let p = parent[c] as int;
    &&& 0 <= p < cell_total()
    &&& side_by_side(cell_of(c), cell_of(p))
    &&& !plan.solid_at(wall_between(c, p).0, wall_between(c, p).1)
    &&& depth[c] == depth[p] + 1
}

/// The plan is a perfect maze on the tree `parent` and `depth` describe: the first cell is at
/// depth 0 and every other hangs off a neighbour one shallower through an open wall; and no square
/// is open but the cells' own and those walls, so the tree's ways are the maze's only ways.
pub open spec fn maze_tree(plan: Plan, parent: Seq<usize>, depth: Seq<usize>) -> bool {
    &&& parent.len() == cell_total()
    &&& depth.len() == cell_total()
    &&& depth[0] == 0
    &&& forall|c: int| 0 < c < cell_total() ==> #[trigger] hangs_from(plan, parent, depth, c)
    &&& forall|x: int, y: int|
        0 <= x < PLAN_W && 0 <= y < PLAN_H && !#[trigger] plan.solid_at(x, y) ==> (x % 2 == 1 && y % 2 == 1)
            || exists|c: int| 0 < c < cell_total() && #[trigger] wall_between(c, parent[c] as int) == (x, y)
}

/// The way runs down the tree from the first cell, a level a step, to the last of the deepest
/// cells.
pub open spec fn way_down(way: Seq<(usize, usize)>, parent: Seq<usize>, depth: Seq<usize>) -> bool {
    let last = index_of(way.last().0 as int, way.last().1 as int);
    &&& way.len() > 0
    &&& way[0] == (0usize, 0usize)
    &&& way.len() == depth[last] + 1
    &&& forall|i: int| #![trigger way[i]] 0 <= i < way.len() - 1 ==> parent[index_of(way[i + 1].0 as int, way[i + 1].1 as int)] as int
        == index_of(way[i].0 as int, way[i].1 as int)
    &&& forall|c: int| 0 <= c < cell_total() ==> #[trigger] depth[c] <= depth[last]
    &&& forall|c: int| last < c < cell_total() ==> #[trigger] depth[c] < depth[last]
}

/// A square's place in the plan's rows names it once.
proof fn lemma_plan_place(x: int, y: int, a: int, b: int)
    requires
        0 <= x < PLAN_W,
        0 <= a < PLAN_W,
        0 <= y,
        0 <= b,
        y * 17 + x == b * 17 + a,
    ensures
        x == a,
        y == b,
{
    assert(x == a && y == b) by (nonlinear_arith)
        requires
            0 <= x < 17,
            0 <= a < 17,
            0 <= y,
            0 <= b,
            y * 17 + x == b * 17 + a,
    ;
}

/// The finished carve's plan is a perfect maze on the tree it kept.
proof fn lemma_maze_tree(map: Plan, seen: Seq<bool>, parent: Seq<usize>, depth: Seq<usize>)
    requires
        carved(map.solid@, seen, parent, depth),
        map.w == PLAN_W,
        map.h == PLAN_H,
        forall|c: int| 0 <= c < cell_total() ==> #[trigger] seen[c],
    ensures
        maze_tree(map, parent, depth),
{
    assert forall|c: int| 0 < c < cell_total() implies #[trigger] hangs_from(map, parent, depth, c) by {
        lemma_cell(c);
        assert(seen[c]);
        let p = parent[c] as int;
        lemma_cell(p);
        assert(!map.solid@[wall(cell_of(c), cell_of(p))]);
    }
    assert forall|x: int, y: int|
        0 <= x < PLAN_W && 0 <= y < PLAN_H && !#[trigger] map.solid_at(x, y) implies (x % 2 == 1 && y % 2 == 1)
            || exists|c: int| 0 < c < cell_total() && #[trigger] wall_between(c, parent[c] as int) == (x, y) by {
        let q = y * 17 + x;
        assert(0 <= q < PLAN_SQUARES);
        assert(!map.solid@[q]);
        assert(open_square(seen, parent, q));
        if exists|c: int| 0 <= c < cell_total() && seen[c] && q == #[trigger] square(cx(c), cy(c)) {
            let c = choose|c: int| 0 <= c < cell_total() && seen[c] && q == #[trigger] square(cx(c), cy(c));
            lemma_cell(c);
            lemma_plan_place(x, y, 2 * cx(c) + 1, 2 * cy(c) + 1);
        } else {
            let c = choose|c: int| 0 < c < cell_total() && seen[c] && q == #[trigger] wall(cell_of(c), cell_of(parent[c] as int));
            let p = parent[c] as int;
            lemma_cell(c);
            lemma_cell(p);
            lemma_plan_place(x, y, cx(c) + cx(p) + 1, cy(c) + cy(p) + 1);
            assert(wall_between(c, parent[c] as int) == (x, y));
        }
    }
}

/// The way, the chain back from the last deepest cell turned round, runs down the tree to it.
proof fn lemma_way_down(
    parent: Seq<usize>,
    depth: Seq<usize>,
    far: usize,
    back: Seq<(usize, usize)>,
    way: Seq<(usize, usize)>,
)
    requires
        depth.len() == cell_total(),
        far < cell_total(),
        forall|k: int| 0 <= k < cell_total() ==> depth[k] <= depth[far as int],
        forall|k: int| far < k < cell_total() ==> depth[k] < depth[far as int],
        back.len() > 0,
        back.last() == (0usize, 0usize),
        back.len() == depth[far as int] + 1,
        index_of(back[0].0 as int, back[0].1 as int) == far,
        forall|k: int| #![trigger back[k]] 0 <= k < back.len() - 1 ==> parent[index_of(back[k].0 as int, back[k].1 as int)] as int
            == index_of(back[k + 1].0 as int, back[k + 1].1 as int),
        way.len() == back.len(),
        forall|j: int| 0 <= j < way.len() ==> way[j] == back[back.len() - 1 - j],
    ensures
        way_down(way, parent, depth),
{
    assert(way[0] == back[back.len() - 1]);
    assert(way.last() == back[0]);
    assert forall|i: int| #![trigger way[i]] 0 <= i < way.len() - 1 implies parent[index_of(way[i + 1].0 as int, way[i + 1].1 as int)] as int
        == index_of(way[i].0 as int, way[i].1 as int) by {
        let j = back.len() - 2 - i;
        assert(way[i] == back[j + 1]);
        assert(way[i + 1] == back[j]);
    }
    assert forall|c: int| 0 <= c < cell_total() implies #[trigger] depth[c] <= depth[far as int] by {}
    assert forall|c: int| far < c < cell_total() implies #[trigger] depth[c] < depth[far as int] by {}
}

proof fn lemma_cell_of_index(x: int, y: int)
    requires
        0 <= x < CELLS_ACROSS,
        0 <= y < CELLS_DOWN,
    ensures
        cx(index_of(x, y)) == x,
        cy(index_of(x, y)) == y,
        0 <= index_of(x, y) < cell_total(),
{
    assert((y * 8 + x) % 8 == x && (y * 8 + x) / 8 == y) by (nonlinear_arith)
        requires
            0 <= x < 8,
            0 <= y,
    ;
}

/// With every cell reached, every cell's square of the plan is open.
proof fn lemma_cells_open(map: Plan, seen: Seq<bool>, parent: Seq<usize>, depth: Seq<usize>)
    requires
        carved(map.solid@, seen, parent, depth),
        map.w == PLAN_W,
        map.h == PLAN_H,
        forall|c: int| 0 <= c < cell_total() ==> #[trigger] seen[c],
    ensures
        forall|x: int, y: int| 0 <= x < CELLS_ACROSS && 0 <= y < CELLS_DOWN ==> !#[trigger] map.solid_at(2 * x + 1, 2 * y + 1),
{
    assert forall|x: int, y: int| 0 <= x < CELLS_ACROSS && 0 <= y < CELLS_DOWN
        implies !#[trigger] map.solid_at(2 * x + 1, 2 * y + 1) by {
        lemma_cell_of_index(x, y);
        let c = index_of(x, y);
        assert(seen[c]);
        assert(!map.solid@[square(cx(c), cy(c))]);
    }
}

/// The way, back to front, runs from cell to neighbouring cell through open walls.
proof fn lemma_way_steps(map: Plan, back: Seq<(usize, usize)>, way: Seq<(usize, usize)>)
    requires
        map.w == PLAN_W,
        map.h == PLAN_H,
        map.solid@.len() == PLAN_SQUARES,
        forall|k: int| #![trigger back[k]] 0 <= k < back.len() ==> back[k].0 < CELLS_ACROSS && back[k].1 < CELLS_DOWN,
        forall|k: int| #![trigger back[k]] 0 <= k < back.len() - 1 ==> side_by_side(
            (back[k].0 as int, back[k].1 as int),
            (back[k + 1].0 as int, back[k + 1].1 as int),
        ) && !map.solid@[wall(
            (back[k].0 as int, back[k].1 as int),
            (back[k + 1].0 as int, back[k + 1].1 as int),
        )],
        way.len() == back.len(),
        forall|j: int| 0 <= j < way.len() ==> way[j] == back[back.len() - 1 - j],
    ensures
        forall|i: int| #![trigger way[i]] 0 <= i < way.len() ==> way[i].0 < CELLS_ACROSS && way[i].1 < CELLS_DOWN,
        forall|i: int| #![trigger way[i]] 0 <= i < way.len() - 1 ==> {
            let (a, b) = (way[i], way[i + 1]);
            &&& side_by_side((a.0 as int, a.1 as int), (b.0 as int, b.1 as int))
            &&& !map.solid_at(a.0 + b.0 + 1, a.1 + b.1 + 1)
        },
{
    assert forall|i: int| #![trigger way[i]] 0 <= i < way.len() implies way[i].0 < CELLS_ACROSS && way[i].1 < CELLS_DOWN by {
        let j = back.len() - 1 - i;
        assert(way[i] == back[j]);
    }
    assert forall|i: int| #![trigger way[i]] 0 <= i < way.len() - 1 implies {
        let (a, b) = (way[i], way[i + 1]);
        &&& side_by_side((a.0 as int, a.1 as int), (b.0 as int, b.1 as int))
        &&& !map.solid_at(a.0 + b.0 + 1, a.1 + b.1 + 1)
    } by {
        let j = back.len() - 2 - i;
        assert(way[i] == back[j + 1]);
        assert(way[i + 1] == back[j]);
    }
}

/// Carves a maze with a depth-first walk from the top-left cell, and returns the map and the way
/// from that cell to the dead end furthest from it, as cells.
#[verifier::spinoff_prover]
pub fn carve(seed: u64) -> (r: (Plan, Vec<(usize, usize)>))
    ensures
        r.0.wf(),
        r.0.w == map_w(),
        r.0.h == map_h(),
        r.1@.len() > 0,
        r.1@[0] == (0usize, 0usize),
        forall|x: int, y: int| 0 <= x < CELLS_ACROSS && 0 <= y < CELLS_DOWN ==> !#[trigger] r.0.solid_at(2 * x + 1, 2 * y + 1),
        forall|i: int| #![trigger r.1@[i]] 0 <= i < r.1@.len() ==> r.1@[i].0 < CELLS_ACROSS && r.1@[i].1 < CELLS_DOWN,
        forall|i: int| #![trigger r.1@[i]] 0 <= i < r.1@.len() - 1 ==> {
            let (a, b) = (r.1@[i], r.1@[i + 1]);
            &&& side_by_side((a.0 as int, a.1 as int), (b.0 as int, b.1 as int))
            &&& !r.0.solid_at(a.0 + b.0 + 1, a.1 + b.1 + 1)
        },
        r.0.solid@ == walked(seed).0,
        maze_tree(r.0, walked(seed).2, walked(seed).3),
        way_down(r.1@, walked(seed).2, walked(seed).3),
{
    let cw = CELLS_ACROSS;
    let ch = CELLS_DOWN;
    let w = PLAN_W;
    let h = PLAN_H;
    let mut solid = vec![true; PLAN_SQUARES];
    let mut seen = vec![false; cw * ch];
    let mut parent = vec![usize::MAX; cw * ch];
    let mut depth = vec![0usize; cw * ch];
    let mut stack: Vec<(usize, usize)> = Vec::new();
    stack.push((0, 0));
    seen.set(0, true);
    solid.set(w + 1, false);
    let mut draws: u64 = 0;
    proof {
        lemma_count_bounds(seen@);
        assert(count_set(seen@) == 1) by {
            lemma_take_counts(seen@, 47);
            assert(seen@.take(48) =~= seen@);
        }
        assert(stack@ =~= seq![(0usize, 0usize)]);
        lemma_walk_start(seen@);
        assert forall|q: int| 0 <= q < PLAN_SQUARES && !#[trigger] solid@[q] implies open_square(seen@, parent@, q) by {
            assert(q == 18);
            assert(square(cx(0), cy(0)) == 18);
        }
        assert(solid@ =~= walk_start().0);
        assert(seen@ =~= walk_start().1);
        assert(parent@ =~= walk_start().2);
        assert(depth@ =~= walk_start().3);
    }
    let ghost mut steps: nat = 0;
    while stack.len() > 0
        invariant
            w == map_w(),
            h == map_h(),
            cw == CELLS_ACROSS,
            ch == CELLS_DOWN,
            carved(solid@, seen@, parent@, depth@),
            1 <= count_set(seen@) <= cell_total(),
            draws as int == count_set(seen@) - 1,
            walk_ok(seen@, stack@),
            (exists|c: int| 0 <= c < cell_total() && depth@[c] >= 1) || (stack@ == seq![(0usize, 0usize)]
                && !seen@[1]),
            (solid@, seen@, parent@, depth@, stack@, draws) == walk_from(walk_start(), seed, steps),
            steps + 2 * (cell_total() - count_set(seen@)) + stack@.len() == 95,
        decreases 2 * (cell_total() - count_set(seen@)) + stack@.len(),
    {
        let ghost before: Walk = (solid@, seen@, parent@, depth@, stack@, draws);
        proof {
            lemma_walk_top(seen@, stack@);
            lemma_walk_succ(walk_start(), seed, steps);
        }
        let (x, y) = stack[stack.len() - 1];
        let options = unseen_beside(&seen, x, y);
        if options.len() == 0 {
            proof {
                if stack@ == seq![(0usize, 0usize)] {
                    assert(x == 0 && y == 0);
                    assert(seen@[1]);
                }
                lemma_walk_pop(seen@, stack@);
            }
            stack.pop();
            proof {
                assert((solid@, seen@, parent@, depth@, stack@, draws) == walk_step(before, seed));
                steps = steps + 1;
            }
            continue;
        }
        draws += 1;
        let hash = hash24(seed ^ draws.wrapping_mul(0x9e37_79b9_7f4a_7c15));
        // The option's place: the hash's top 24 bits times the count, scaled by 2^-24 and rounded
        // down, which for the four options a cell has at most is exactly what scaling a number in
        // [0, 1) with 24 bits after the point by the count gives.
        let len = options.len();
        assert(len <= 4);
        assert(hash < 0x100_0000);
        assert(hash * (len as u64) <= 0x400_0000) by (nonlinear_arith)
            requires
                hash < 0x100_0000,
                len <= 4,
        ;
        let scaled = ((hash * len as u64) >> 24) as usize;
        let pick = if scaled < len - 1 { scaled } else { len - 1 };
        let (nx, ny) = options[pick];
        proof {
            lemma_walk_push(seen@, stack@, nx, ny);
        }
        assert(pick as int == self::pick(seed, draws, len as int));
        reach(&mut solid, &mut seen, &mut parent, &mut depth, (x, y), (nx, ny));
        stack.push((nx, ny));
        proof {
            assert(depth@[index_of(nx as int, ny as int)] >= 1);
            assert((solid@, seen@, parent@, depth@, stack@, draws) == walk_step(before, seed));
            steps = steps + 1;
        }
    }
    proof {
        lemma_walk_done(seen@, stack@);
        lemma_walk_add(walk_start(), seed, steps, (95 - steps) as nat);
        lemma_walk_finished((solid@, seen@, parent@, depth@, stack@, draws), seed, (95 - steps) as nat);
        assert((solid@, seen@, parent@, depth@, stack@, draws) == walked(seed));
    }
    // Every cell's way back to the start is its chain of parents, so the furthest cell is a dead
    // end, and its chain is the way.
    let far = deepest(&depth);
    let back = chain(&solid, &seen, &parent, &depth, far);
    let way = reversed(&back);
    let map = Plan { w, h, solid };
    assert(PLAN_W * PLAN_H == PLAN_SQUARES);
    proof {
        lemma_cells_open(map, seen@, parent@, depth@);
        lemma_way_steps(map, back@, way@);
        lemma_maze_tree(map, seen@, parent@, depth@);
        lemma_way_down(parent@, depth@, far, back@, way@);
    }
    (map, way)
}

/// The deepest cell, the last of them where several are as deep.
fn deepest(depth: &Vec<usize>) -> (r: usize)
    requires
        depth@.len() == cell_total(),
    ensures
        r < cell_total(),
        forall|k: int| 0 <= k < cell_total() ==> depth@[k] <= depth@[r as int],
        forall|k: int| r < k < cell_total() ==> depth@[k] < depth@[r as int],
{
    let mut far: usize = 0;
    let mut i: usize = 1;
    while i < depth.len()
        invariant
            depth@.len() == cell_total(),
            far < i,
            1 <= i <= cell_total(),
            forall|k: int| 0 <= k < i ==> depth@[k] <= depth@[far as int],
            forall|k: int| far < k < i ==> depth@[k] < depth@[far as int],
        decreases cell_total() - i,
    {
        if depth[i] >= depth[far] {
            far = i;
        }
        i += 1;
    }
    far
}

/// The cells from `far` back to the start, each the one the one before was reached from.
#[verifier::spinoff_prover]
#[verifier::rlimit(60)]
fn chain(solid: &Vec<bool>, seen: &Vec<bool>, parent: &Vec<usize>, depth: &Vec<usize>, far: usize) -> (r: Vec<(usize, usize)>)
    requires
        carved(solid@, seen@, parent@, depth@),
        far < cell_total(),
        depth@[far as int] >= 1,
    ensures
        r@.len() > 0,
        r@.last() == (0usize, 0usize),
        r@.len() == depth@[far as int] + 1,
        index_of(r@[0].0 as int, r@[0].1 as int) == far,
        forall|k: int| #![trigger r@[k]] 0 <= k < r@.len() - 1 ==> parent@[index_of(r@[k].0 as int, r@[k].1 as int)] as int
            == index_of(r@[k + 1].0 as int, r@[k + 1].1 as int),
        forall|k: int| #![trigger r@[k]] 0 <= k < r@.len() ==> r@[k].0 < CELLS_ACROSS
            && r@[k].1 < CELLS_DOWN && !solid@[square(r@[k].0 as int, r@[k].1 as int)]
            && depth@[index_of(r@[k].0 as int, r@[k].1 as int)] == depth@[far as int] - k,
        forall|k: int| #![trigger r@[k]] 0 <= k < r@.len() - 1 ==> side_by_side(
            (r@[k].0 as int, r@[k].1 as int),
            (r@[k + 1].0 as int, r@[k + 1].1 as int),
        ) && !solid@[wall(
            (r@[k].0 as int, r@[k].1 as int),
            (r@[k + 1].0 as int, r@[k + 1].1 as int),
        )],
{
    assert(seen@[far as int]);
    let mut back: Vec<(usize, usize)> = Vec::new();
    let mut at = far;
    while at != usize::MAX
        invariant
            carved(solid@, seen@, parent@, depth@),
            at == usize::MAX || (at < cell_total() && seen@[at as int]),
            back@.len() == 0 ==> at == far,
            back@.len() > 0 && at == usize::MAX ==> back@.last() == (0usize, 0usize),
            back@.len() > 0 && at != usize::MAX ==> side_by_side(
                (back@.last().0 as int, back@.last().1 as int),
                cell_of(at as int),
            ) && !solid@[wall((back@.last().0 as int, back@.last().1 as int), cell_of(at as int))],
            at != usize::MAX ==> depth@[at as int] == depth@[far as int] - back@.len(),
            at == usize::MAX ==> back@.len() == depth@[far as int] + 1,
            back@.len() > 0 ==> index_of(back@[0].0 as int, back@[0].1 as int) == far,
            back@.len() > 0 ==> parent@[index_of(back@.last().0 as int, back@.last().1 as int)] == at,
            forall|k: int| #![trigger back@[k]] 0 <= k < back@.len() - 1 ==> parent@[index_of(back@[k].0 as int, back@[k].1 as int)] as int
                == index_of(back@[k + 1].0 as int, back@[k + 1].1 as int),
            forall|k: int| #![trigger back@[k]] 0 <= k < back@.len() ==> back@[k].0 < CELLS_ACROSS
                && back@[k].1 < CELLS_DOWN && !solid@[square(back@[k].0 as int, back@[k].1 as int)]
                && depth@[index_of(back@[k].0 as int, back@[k].1 as int)] == depth@[far as int] - k,
            forall|k: int| #![trigger back@[k]] 0 <= k < back@.len() - 1 ==> side_by_side(
                (back@[k].0 as int, back@[k].1 as int),
                (back@[k + 1].0 as int, back@[k + 1].1 as int),
            ) && !solid@[wall(
                (back@[k].0 as int, back@[k].1 as int),
                (back@[k + 1].0 as int, back@[k + 1].1 as int),
            )],
        decreases (if at == usize::MAX { 0 } else { depth@[at as int] + 1 }),
    {
        let ghost prev = back@;
        proof {
            lemma_cell(at as int);
        }
        let cell = (at % CELLS_ACROSS, at / CELLS_ACROSS);
        assert(cell_of(at as int) == (cell.0 as int, cell.1 as int));
        assert(index_of(cell.0 as int, cell.1 as int) == at);
        back.push(cell);
        let up = parent[at];
        proof {
            if at != 0 {
                assert(0 < at < cell_total() && seen@[at as int]);
                assert(parent@[at as int] == up);
            }
            assert(forall|k: int| 0 <= k < prev.len() ==> back@[k] == prev[k]);
        }
        at = up;
    }
    back
}

/// `v` back to front.
fn reversed(v: &Vec<(usize, usize)>) -> (r: Vec<(usize, usize)>)
    ensures
        r@.len() == v@.len(),
        forall|j: int| 0 <= j < r@.len() ==> r@[j] == v@[v@.len() - 1 - j],
{
    let mut out: Vec<(usize, usize)> = Vec::new();
    let mut k = v.len();
    while k > 0
        invariant
            k <= v@.len(),
            out@.len() == v@.len() - k,
            forall|j: int| 0 <= j < out@.len() ==> out@[j] == v@[v@.len() - 1 - j],
        decreases k,
    {
        k -= 1;
        out.push(v[k]);
    }
    out
}

/// Counting what is set in a prefix of a run where only the first item is.
proof fn lemma_take_counts(s: Seq<bool>, k: int)
    requires
        0 <= k < s.len(),
        s[0],
        forall|i: int| 0 < i < s.len() ==> !#[trigger] s[i],
    ensures
        count_set(s.take(k + 1)) == 1,
    decreases k,
{
    if k > 0 {
        lemma_take_counts(s, k - 1);
        assert(s.take(k + 1).drop_last() =~= s.take(k));
    } else {
        assert(s.take(1).drop_last() =~= Seq::<bool>::empty());
        reveal_with_fuel(count_set, 2);
    }
}

} // verus!
