//! `frost`: ice grown on the glass: whether a wandering speck is near ice, which ice it touches,
//! and how it folds back in at the edges.

use vstd::prelude::*;

verus! {

/// `v` bounced back inside `0..len`.
pub open spec fn bounced(v: int, len: int) -> int {
    if v < 0 {
        if -v < len - 1 { -v } else { len - 1 }
    } else if v >= len {
        if 2 * (len - 1) - v > 0 { 2 * (len - 1) - v } else { 0 }
    } else {
        v
    }
}

/// `v` bounced back inside `0..len`: off the start it comes back as far in, off the end as far
/// back, and no further than the other edge.
pub fn bounce(v: i32, len: i32) -> (r: i32)
    requires
        v < 0 ==> v > i32::MIN && len > i32::MIN,
        0 <= v && v >= len ==> i32::MIN <= 2 * (len - 1) - v && 2 * (len - 1) <= i32::MAX,
    ensures
        r == bounced(v as int, len as int),
        len >= 1 ==> 0 <= r < len,
{
    if v < 0 {
        let back = -v;
        let last = len - 1;
        if back < last { back } else { last }
    } else if v >= len {
        let folded = 2 * (len - 1) - v;
        if folded > 0 { folded } else { 0 }
    } else {
        v
    }
}

} // verus!

verus! {

/// Dots a side of the blocks a speck jumps across.
pub const BLOCK: usize = 8;

/// The glass the frost grows on, as its rules read it: `w` × `h` dots a row at a time, the ice on
/// each (0 for none), and how much ice each block of `BLOCK` × `BLOCK` dots holds.
pub struct Glass {
    pub w: usize,
    pub h: usize,
    pub ice: Vec<u32>,
    pub blocks: Vec<u16>,
}

/// Blocks across `n` dots, the last perhaps not full.
pub open spec fn blocks_over(n: int) -> int {
    (n + BLOCK - 1) / BLOCK as int
}

/// The block holding dot `v`, as `/` on `i32` has it: rounded towards zero.
pub open spec fn block_of(v: int) -> int {
    if v >= 0 { v / BLOCK as int } else { -((-v) / BLOCK as int) }
}

/// The eight neighbours of a dot, in the order they are looked at: right, left, down, up, then
/// the corners.
pub open spec fn toward(k: int) -> (int, int) {
    if k == 0 { (1, 0) }
    else if k == 1 { (-1, 0) }
    else if k == 2 { (0, 1) }
    else if k == 3 { (0, -1) }
    else if k == 4 { (1, 1) }
    else if k == 5 { (-1, 1) }
    else if k == 6 { (1, -1) }
    else { (-1, -1) }
}

impl Glass {
    /// Every dot and every block has its place, and the sizes fit the `i32`s dots are found by.
    pub open spec fn wf(self) -> bool {
        &&& self.w <= i32::MAX
        &&& self.h <= i32::MAX
        &&& self.ice@.len() == self.w * self.h
        &&& self.blocks@.len() == blocks_over(self.w as int) * blocks_over(self.h as int)
    }

    /// Whether block (`bx`, `by`) is on the glass and holds ice.
    pub open spec fn iced(self, bx: int, by: int) -> bool {
        0 <= bx < blocks_over(self.w as int) && 0 <= by < blocks_over(self.h as int)
            && self.blocks@[by * blocks_over(self.w as int) + bx] > 0
    }

    /// Whether there is ice in the block holding dot (`x`, `y`) or any block round it.
    pub open spec fn ice_near(self, x: int, y: int) -> bool {
        exists|bx: int, by: int|
            block_of(x) - 1 <= bx <= block_of(x) + 1 && block_of(y) - 1 <= by <= block_of(y) + 1 && #[trigger] self.iced(bx, by)
    }

    /// Whether dot (`x`, `y`) is on the glass and frozen.
    pub open spec fn frozen(self, x: int, y: int) -> bool {
        0 <= x < self.w && 0 <= y < self.h && self.ice@[y * self.w + x] != 0
    }

    /// The first of the eight neighbours of (`x`, `y`), from the `k`th on, that is frozen.
    pub open spec fn first_frozen(self, x: int, y: int, k: int) -> Option<int>
        decreases 8 - k,
    {
        if k >= 8 || k < 0 {
            None
        } else if self.frozen(x + toward(k).0, y + toward(k).1) {
            Some(k)
        } else {
            self.first_frozen(x, y, k + 1)
        }
    }

    fn iced_block(&self, bx: i64, by: i64) -> (r: bool)
        requires
            self.wf(),
            i32::MIN <= bx <= i32::MAX,
            i32::MIN <= by <= i32::MAX,
        ensures
            r == self.iced(bx as int, by as int),
    {
        let across = self.w / BLOCK + if self.w % BLOCK == 0 { 0 } else { 1 };
        let down = self.h / BLOCK + if self.h % BLOCK == 0 { 0 } else { 1 };
        assert(across == blocks_over(self.w as int) && down == blocks_over(self.h as int));
        if bx < 0 || by < 0 || bx as usize >= across || by as usize >= down {
            return false;
        }
        let (cx, cy) = (bx as usize, by as usize);
        assert(cy * across + cx < across * down) by (nonlinear_arith)
            requires
                cx < across,
                cy < down,
        ;
        assert(self.blocks@.len() == self.blocks.len());
        self.blocks[cy * across + cx] > 0
    }

    /// Whether there is ice in the block holding (`x`, `y`) or any block round it.
    pub fn near(&self, x: i32, y: i32) -> (r: bool)
        requires
            self.wf(),
        ensures
            r == self.ice_near(x as int, y as int),
    {
        let (px, py) = (x as i64, y as i64);
        let b = BLOCK as i64;
        let bx = if px >= 0 { px / b } else { -((-px) / b) };
        let by = if py >= 0 { py / b } else { -((-py) / b) };
        assert(-0x1000_0000 <= bx <= 0x0fff_ffff && -0x1000_0000 <= by <= 0x0fff_ffff);
        let mut dy: i64 = -1;
        while dy <= 1
            invariant
                self.wf(),
                -1 <= dy <= 2,
                bx == block_of(x as int),
                by == block_of(y as int),
                -0x1000_0000 <= bx <= 0x0fff_ffff,
                -0x1000_0000 <= by <= 0x0fff_ffff,
                forall|cx: int, cy: int| bx - 1 <= cx <= bx + 1 && by - 1 <= cy < by + dy ==> !#[trigger] self.iced(cx, cy),
            decreases 2 - dy,
        {
            let mut dx: i64 = -1;
            while dx <= 1
                invariant
                    self.wf(),
                    -1 <= dy <= 1,
                    -1 <= dx <= 2,
                    bx == block_of(x as int),
                    by == block_of(y as int),
                    -0x1000_0000 <= bx <= 0x0fff_ffff,
                    -0x1000_0000 <= by <= 0x0fff_ffff,
                    forall|cx: int, cy: int| bx - 1 <= cx <= bx + 1 && by - 1 <= cy < by + dy ==> !#[trigger] self.iced(cx, cy),
                    forall|cx: int| bx - 1 <= cx < bx + dx ==> !#[trigger] self.iced(cx, by + dy),
                decreases 2 - dx,
            {
                if self.iced_block(bx + dx, by + dy) {
                    return true;
                }
                dx += 1;
            }
            dy += 1;
        }
        false
    }

    fn frozen_dot(&self, x: i64, y: i64) -> (r: bool)
        requires
            self.wf(),
            i32::MIN - 1 <= x <= i32::MAX + 1,
            i32::MIN - 1 <= y <= i32::MAX + 1,
        ensures
            r == self.frozen(x as int, y as int),
    {
        if x < 0 || y < 0 || x as usize >= self.w || y as usize >= self.h {
            return false;
        }
        let (x, y) = (x as usize, y as usize);
        assert(y * self.w + x < self.w * self.h) by (nonlinear_arith)
            requires
                x < self.w,
                y < self.h,
        ;
        assert(self.ice@.len() == self.ice.len());
        self.ice[y * self.w + x] != 0
    }

    /// The dot of the first frozen neighbour of (`x`, `y`), looking right, left, down, up and then
    /// at the corners, if it is touching any ice.
    pub fn touching(&self, x: i32, y: i32) -> (r: Option<usize>)
        requires
            self.wf(),
        ensures
            match self.first_frozen(x as int, y as int, 0) {
                Some(k) => r is Some && r->0 == (y + toward(k).1) * self.w + x + toward(k).0,
                None => r is None,
            },
    {
        let ways: [(i64, i64); 8] = [(1, 0), (-1, 0), (0, 1), (0, -1), (1, 1), (-1, 1), (1, -1), (-1, -1)];
        let (px, py) = (x as i64, y as i64);
        let mut k: usize = 0;
        while k < 8
            invariant
                self.wf(),
                k <= 8,
                px == x,
                py == y,
                forall|j: int| 0 <= j < 8 ==> #[trigger] ways@[j] == (toward(j).0 as i64, toward(j).1 as i64),
                self.first_frozen(x as int, y as int, 0) == self.first_frozen(x as int, y as int, k as int),
            decreases 8 - k,
        {
            let (dx, dy) = ways[k];
            assert(ways@[k as int] == (dx, dy));
            assert(dx == toward(k as int).0 && dy == toward(k as int).1);
            if self.frozen_dot(px + dx, py + dy) {
                let (nx, ny) = ((px + dx) as usize, (py + dy) as usize);
                assert(self.ice@.len() == self.ice.len());
                assert(self.first_frozen(x as int, y as int, k as int) == Some(k as int));
                assert(ny * self.w + nx < self.w * self.h) by (nonlinear_arith)
                    requires
                        nx < self.w,
                        ny < self.h,
                ;
                let at = ny * self.w + nx;
                assert(at as int == (y + toward(k as int).1) * self.w + x + toward(k as int).0);
                return Some(at);
            }
            k += 1;
        }
        None
    }
}

} // verus!
