//! `life`: the logo seeded on a Game of Life board and taken apart by its rules.

use vstd::prelude::*;
use super::maze::count_set;

verus! {

/// The board: which cells are alive, and how many generations each has survived (255 once it
/// stops counting), a row at a time.
pub struct Board {
    pub cols: i32,
    pub rows: i32,
    pub alive: Vec<bool>,
    pub age: Vec<u8>,
    /// How many cells are alive, and how many generations since the last spark.
    pub population: usize,
    pub since_spark: u32,
}

/// Whether the cell at (`col`, `row`) of a `cols` × `rows` board is alive; nothing off the board
/// is.
pub open spec fn alive_at(alive: Seq<bool>, cols: int, rows: int, col: int, row: int) -> bool {
    0 <= col < cols && 0 <= row < rows && alive[row * cols + col]
}

pub open spec fn one_if(b: bool) -> int {
    if b { 1 } else { 0 }
}

/// How many of the eight cells round (`col`, `row`) are alive.
pub open spec fn neighbour_count(alive: Seq<bool>, cols: int, rows: int, col: int, row: int) -> int {
    one_if(alive_at(alive, cols, rows, col - 1, row - 1)) + one_if(alive_at(alive, cols, rows, col, row - 1))
        + one_if(alive_at(alive, cols, rows, col + 1, row - 1)) + one_if(alive_at(alive, cols, rows, col - 1, row))
        + one_if(alive_at(alive, cols, rows, col + 1, row)) + one_if(alive_at(alive, cols, rows, col - 1, row + 1))
        + one_if(alive_at(alive, cols, rows, col, row + 1)) + one_if(alive_at(alive, cols, rows, col + 1, row + 1))
}

/// The rules: three neighbours give birth, two or three carry on, everything else dies.
pub open spec fn lives(alive: bool, neighbours: int) -> bool {
    (alive && (neighbours == 2 || neighbours == 3)) || (!alive && neighbours == 3)
}

/// The rules, said cell by cell: a cell is alive after a generation just when three of its
/// neighbours were, or it was alive and two were. Crowded by four or more, or left with fewer than
/// two, a live cell dies; an empty cell comes alive only with exactly three.
pub proof fn law_conways_rules(alive: bool, neighbours: int)
    ensures
        lives(alive, neighbours) == (neighbours == 3 || (alive && neighbours == 2)),
        neighbours >= 4 ==> !lives(alive, neighbours),
        neighbours <= 1 ==> !lives(alive, neighbours),
        !alive ==> (lives(alive, neighbours) <==> neighbours == 3),
{
}

impl Board {
    /// Every cell has its place.
    pub open spec fn wf(self) -> bool {
        &&& 0 <= self.cols
        &&& 0 <= self.rows
        &&& self.cols * self.rows <= i32::MAX
        &&& self.alive@.len() == self.cols * self.rows
        &&& self.age@.len() == self.alive@.len()
    }

    /// Whether the cell at (`col`, `row`) is alive; nothing off the board is.
    pub fn at(&self, col: i32, row: i32) -> (r: bool)
        requires
            self.wf(),
        ensures
            r == alive_at(self.alive@, self.cols as int, self.rows as int, col as int, row as int),
    {
        if 0 <= col && col < self.cols && 0 <= row && row < self.rows {
            assert(0 <= row * self.cols && 0 <= row * self.cols + col < self.cols * self.rows) by (nonlinear_arith)
                requires
                    0 <= col < self.cols,
                    0 <= row < self.rows,
            ;
            assert(self.alive@.len() == self.alive.len());
            self.alive[(row * self.cols + col) as usize]
        } else {
            false
        }
    }

    /// How many of the eight cells round (`col`, `row`) are alive.
    pub fn neighbours(&self, col: i32, row: i32) -> (r: usize)
        requires
            self.wf(),
            i32::MIN < col < i32::MAX,
            i32::MIN < row < i32::MAX,
        ensures
            r == neighbour_count(self.alive@, self.cols as int, self.rows as int, col as int, row as int),
    {
        let mut count: usize = 0;
        if self.at(col - 1, row - 1) {
            count += 1;
        }
        if self.at(col, row - 1) {
            count += 1;
        }
        if self.at(col + 1, row - 1) {
            count += 1;
        }
        if self.at(col - 1, row) {
            count += 1;
        }
        if self.at(col + 1, row) {
            count += 1;
        }
        if self.at(col - 1, row + 1) {
            count += 1;
        }
        if self.at(col, row + 1) {
            count += 1;
        }
        if self.at(col + 1, row + 1) {
            count += 1;
        }
        count
    }

    /// One generation: three neighbours give birth, two or three carry on, everything else
    /// dies; a cell that carries on is a generation older, and one born or dead is new.
    pub fn generation(&mut self)
        requires
            old(self).wf(),
        ensures
            final(self).wf(),
            final(self).cols == old(self).cols,
            final(self).rows == old(self).rows,
            forall|col: int, row: int| #![trigger final(self).alive@[row * old(self).cols + col]]
                0 <= col < old(self).cols && 0 <= row < old(self).rows ==> {
                    let i = row * old(self).cols + col;
                    let now = lives(
                        old(self).alive@[i],
                        neighbour_count(old(self).alive@, old(self).cols as int, old(self).rows as int, col, row),
                    );
                    &&& final(self).alive@[i] == now
                    &&& final(self).alive@[i] == (neighbour_count(old(self).alive@, old(self).cols as int, old(self).rows as int, col, row)
                        == 3 || (old(self).alive@[i] && neighbour_count(old(self).alive@, old(self).cols as int, old(self).rows as int, col, row) == 2))
                    &&& final(self).age@[i] == if !now {
                        0
                    } else if old(self).alive@[i] {
                        if old(self).age@[i] < 255 { (old(self).age@[i] + 1) as u8 } else { 255u8 }
                    } else {
                        0
                    }
                },
            final(self).population == count_set(final(self).alive@),
            final(self).since_spark == if old(self).since_spark < u32::MAX { (old(self).since_spark + 1) as u32 } else {
                u32::MAX
            },
    {
        let cols = self.cols;
        let rows = self.rows;
        let spark = self.since_spark;
        let ghost before = self.alive@;
        let mut next: Vec<bool> = Vec::new();
        let mut row: i32 = 0;
        while row < rows
            invariant
                self.wf(),
                self.cols == cols,
                self.rows == rows,
                self.alive@ == before,
                0 <= row <= rows,
                next@.len() == row * cols,
                self.age@.len() == old(self).age@.len(),
                forall|c: int, r: int| #![trigger next@[r * cols + c]]
                    0 <= c < cols && 0 <= r < row ==> next@[r * cols + c] == lives(
                        before[r * cols + c],
                        neighbour_count(before, cols as int, rows as int, c, r),
                    ),
                forall|c: int, r: int| #![trigger self.age@[r * cols + c]]
                    0 <= c < cols && 0 <= r < row ==> self.age@[r * cols + c] == if !next@[r * cols + c] {
                        0
                    } else if before[r * cols + c] {
                        if old(self).age@[r * cols + c] < 255 { (old(self).age@[r * cols + c] + 1) as u8 } else { 255u8 }
                    } else {
                        0
                    },
                forall|k: int| row * cols <= k < self.age@.len() ==> #[trigger] self.age@[k] == old(self).age@[k],
            decreases rows - row,
        {
            let mut col: i32 = 0;
            while col < cols
                invariant
                    self.wf(),
                    self.cols == cols,
                    self.rows == rows,
                    self.alive@ == before,
                    0 <= row < rows,
                    0 <= col <= cols,
                    next@.len() == row * cols + col,
                    self.age@.len() == old(self).age@.len(),
                    forall|c: int, r: int| #![trigger next@[r * cols + c]]
                        0 <= c < cols && 0 <= r && (r < row || (r == row && c < col)) ==> next@[r * cols + c] == lives(
                            before[r * cols + c],
                            neighbour_count(before, cols as int, rows as int, c, r),
                        ),
                    forall|c: int, r: int| #![trigger self.age@[r * cols + c]]
                        0 <= c < cols && 0 <= r && (r < row || (r == row && c < col)) ==> self.age@[r * cols + c]
                            == if !next@[r * cols + c] {
                            0
                        } else if before[r * cols + c] {
                            if old(self).age@[r * cols + c] < 255 { (old(self).age@[r * cols + c] + 1) as u8 } else { 255u8 }
                        } else {
                            0
                        },
                    forall|k: int| row * cols + col <= k < self.age@.len() ==> #[trigger] self.age@[k] == old(self).age@[k],
                decreases cols - col,
            {
                assert(0 <= row * cols && 0 <= row * cols + col < cols * rows) by (nonlinear_arith)
                    requires
                        0 <= col < cols,
                        0 <= row < rows,
                ;
                assert(self.alive@.len() == self.alive.len());
                let i = (row * cols + col) as usize;
                let neighbours = self.neighbours(col, row);
                let was = self.alive[i];
                let alive = (was && (neighbours == 2 || neighbours == 3)) || (!was && neighbours == 3);
                let ghost prev_next = next@;
                let ghost prev_age = self.age@;
                next.push(alive);
                let aged: u8 = if !alive {
                    0
                } else if was {
                    if self.age[i] < 255 { self.age[i] + 1 } else { 255 }
                } else {
                    0
                };
                self.age.set(i, aged);
                proof {
                    assert forall|c: int, r: int|
                        0 <= c < cols && 0 <= r && (r < row || (r == row && c < col + 1)) implies #[trigger] next@[r * cols
                            + c] == lives(before[r * cols + c], neighbour_count(before, cols as int, rows as int, c, r))
                            && self.age@[r * cols + c] == if !next@[r * cols + c] {
                            0
                        } else if before[r * cols + c] {
                            if old(self).age@[r * cols + c] < 255 { (old(self).age@[r * cols + c] + 1) as u8 } else { 255u8 }
                        } else {
                            0
                        } by {
                        lemma_places(cols as int, c, r, col as int, row as int);
                        if !(r == row && c == col) {
                            assert(next@[r * cols + c] == prev_next[r * cols + c]);
                            assert(self.age@[r * cols + c] == prev_age[r * cols + c]);
                        }
                    }
                }
                col += 1;
            }
            assert(row * cols + cols == (row + 1) * cols) by (nonlinear_arith);
            row += 1;
        }
        proof {
            assert(forall|c: int, r: int| 0 <= c < cols && 0 <= r < rows ==> #[trigger] next@[r * cols + c] == lives(
                before[r * cols + c],
                neighbour_count(before, cols as int, rows as int, c, r),
            ));
        }
        assert(next@.len() == cols * rows) by (nonlinear_arith)
            requires
                next@.len() == rows * cols,
        ;
        self.alive = next;
        self.population = count_alive(&self.alive);
        self.since_spark = if spark < u32::MAX { spark + 1 } else { u32::MAX };
    }
}

/// Two cells of a board `cols` across are at the same place only if they are the same cell, and
/// one comes before another in reading order exactly when its place is lower.
proof fn lemma_places(cols: int, c: int, r: int, c2: int, r2: int)
    requires
        0 <= c < cols,
        0 <= c2 < cols,
        0 <= r,
        0 <= r2,
    ensures
        (r * cols + c == r2 * cols + c2) <==> (c == c2 && r == r2),
        (r < r2 || (r == r2 && c < c2)) <==> r * cols + c < r2 * cols + c2,
{
    if r < r2 {
        assert(r * cols + c < r2 * cols + c2) by (nonlinear_arith)
            requires
                r < r2,
                0 <= c < cols,
                0 <= c2,
        ;
    } else if r > r2 {
        assert(r * cols + c > r2 * cols + c2) by (nonlinear_arith)
            requires
                r > r2,
                0 <= c2 < cols,
                0 <= c,
        ;
    }
}

/// How many cells are alive.
fn count_alive(alive: &Vec<bool>) -> (r: usize)
    ensures
        r == count_set(alive@),
{
    let mut n: usize = 0;
    let mut i: usize = 0;
    while i < alive.len()
        invariant
            i <= alive@.len(),
            n == count_set(alive@.take(i as int)),
            n <= i,
        decreases alive@.len() - i,
    {
        assert(alive@.take(i + 1).drop_last() =~= alive@.take(i as int));
        if alive[i] {
            n += 1;
        }
        i += 1;
    }
    assert(alive@.take(i as int) =~= alive@);
    n
}

} // verus!
