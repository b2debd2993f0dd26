//! The living wallpaper's integer parts: the character grid it draws into, the logo's place in
//! it, Braille dots, the pseudo-random numbers its variations run on, and the routes, mazes and
//! boards some of them lay out before a frame is drawn.

pub mod circuit;
pub mod departures;
pub mod frost;
pub mod life;
pub mod maze;
pub mod preview;
pub mod prompt;
pub mod slipstream;
pub mod turns;

use vstd::prelude::*;
use crate::text::{
    chars_of, first_where, integer_between, integer_of, lemma_first_where, lemma_line_end, lemma_lines_step,
    line_between, lines_from, lines_of, next_line_end, trim, trim_bounds,
};

verus! {

/// The mockup's page colour.
pub open spec fn background() -> [u8; 3] {
    [11u8, 14u8, 19u8]
}

/// One character cell: what it shows and in which colour.
#[derive(Debug, Clone, Copy, PartialEq)]
pub struct Cell {
    pub ch: char,
    pub rgb: [u8; 3],
}

/// An empty cell: a space on the page colour.
pub fn blank() -> (r: Cell)
    ensures
        r.ch == ' ',
        r.rgb@ == background()@,
{
    let r = Cell { ch: ' ', rgb: [11, 14, 19] };
    assert(r.rgb@ =~= background()@);
    r
}

/// The character grid, `cols` across and `rows` down, a row at a time.
pub struct Grid {
    pub cols: i32,
    pub rows: i32,
    pub cells: Vec<Cell>,
}

/// How many cells a `cols` × `rows` grid holds: none for a grid with no width or height.
pub open spec fn cell_count(cols: int, rows: int) -> int {
    if cols * rows > 0 { cols * rows } else { 0 }
}

/// Whether every cell of `cells` is empty.
pub open spec fn all_blank(cells: Seq<Cell>) -> bool {
    forall|i: int| 0 <= i < cells.len() ==> #[trigger] cells[i].ch == ' ' && cells[i].rgb@ == background()@
}

/// `n` empty cells.
fn blanks(n: usize) -> (r: Vec<Cell>)
    ensures
        r@.len() == n,
        all_blank(r@),
{
    let mut r: Vec<Cell> = Vec::new();
    while r.len() < n
        invariant
            r@.len() <= n,
            all_blank(r@),
        decreases n - r@.len(),
    {
        r.push(blank());
    }
    r
}

impl Grid {
    /// An empty grid `cols` across and `rows` down.
    pub fn new(cols: i32, rows: i32) -> (r: Self)
        requires
            i32::MIN <= cols * rows <= i32::MAX,
        ensures
            r.cols == cols,
            r.rows == rows,
            r.cells@.len() == cell_count(cols as int, rows as int),
            all_blank(r.cells@),
    {
        let n = cols * rows;
        let cells = blanks(if n > 0 { n as usize } else { 0 });
        Grid { cols, rows, cells }
    }

    /// Empties every cell, ready for the next step, and sizes the grid to `cols` × `rows`.
    pub fn blank(&mut self, cols: i32, rows: i32)
        requires
            i32::MIN <= cols * rows <= i32::MAX,
        ensures
            final(self).cols == cols,
            final(self).rows == rows,
            final(self).cells@.len() == cell_count(cols as int, rows as int),
            all_blank(final(self).cells@),
    {
        self.cols = cols;
        self.rows = rows;
        self.cells.clear();
        let n = cols * rows;
        let want: usize = if n > 0 { n as usize } else { 0 };
        while self.cells.len() < want
            invariant
                self.cols == cols,
                self.rows == rows,
                self.cells@.len() <= want,
                all_blank(self.cells@),
            decreases want - self.cells@.len(),
        {
            self.cells.push(blank());
        }
    }
}

/// One letter of the logo, at its cell.
#[derive(Debug, Clone, Copy)]
pub struct Letter {
    pub col: i32,
    pub row: i32,
    pub ch: char,
}

/// The grid laid out for a screen: its size in cells and each cell's in pixels, where the grid
/// starts in the buffer, the logo's letters and the logo's box.
#[derive(Debug)]
pub struct Layout {
    pub cols: i32,
    pub rows: i32,
    pub cell_w: usize,
    pub cell_h: usize,
    /// Where the grid starts in the buffer, centring it.
    pub origin: (usize, usize),
    pub letters: Vec<Letter>,
    /// The logo's column, row, width and height in cells.
    pub logo: (i32, i32, i32, i32),
}

/// The screen's readings, handed to the wallpaper so a variation can show them or react to them.
#[derive(Debug, Clone, PartialEq)]
pub struct Readings {
    /// Local time as HH:MM, as the bar shows it; empty until the first reading.
    pub time: String,
    /// The local date as the bar writes it, e.g. `Fri 11 Sep`.
    pub date: String,
    /// The name of the workspace on this screen.
    pub place: String,
    /// Charge in percent and whether it's charging; `None` without a battery.
    pub battery: Option<(u8, bool)>,
}

impl Default for Readings {
    fn default() -> (r: Self)
        ensures
            r.time@.len() == 0,
            r.date@.len() == 0,
            r.place@.len() == 0,
            r.battery is None,
    {
        Readings { time: String::new(), date: String::new(), place: String::new(), battery: None }
    }
}

/// A clock's `HH:MM`, as the hours and the minutes either side of its first colon read, white
/// space round each left out.
pub open spec fn clock_reading(t: Seq<char>) -> Option<(int, int)> {
    match first_where(t, |c: char| c == ':') {
        Some(p) => match (integer_of(trim(t.take(p))), integer_of(trim(t.skip(p + 1)))) {
            (Some(h), Some(m)) => Some((h, m)),
            _ => None,
        },
        None => None,
    }
}

/// The hours and minutes of a clock's `HH:MM`.
pub fn read_clock(time: &str) -> (r: Option<(i64, i64)>)
    ensures
        match clock_reading(time@) {
            Some((h, m)) => r == Some((h as i64, m as i64)),
            None => r is None,
        },
{
    let v = chars_of(time);
    let mut p: usize = 0;
    while p < v.len() && v[p] != ':'
        invariant
            p <= v@.len(),
            forall|j: int| 0 <= j < p ==> v@[j] != ':',
        decreases v@.len() - p,
    {
        p += 1;
    }
    proof {
        lemma_first_where(v@, |c: char| c == ':');
    }
    if p == v.len() {
        return None;
    }
    let (a, b) = trim_bounds(&v, 0, p);
    let hours = integer_between(&v, a, b);
    let (c, d) = trim_bounds(&v, p + 1, v.len());
    let minutes = integer_between(&v, c, d);
    proof {
        assert(v@.subrange(0, p as int) =~= v@.take(p as int));
        assert(v@.subrange(p + 1, v@.len() as int) =~= v@.skip(p + 1));
    }
    match (hours, minutes) {
        (Some(h), Some(m)) => Some((h, m)),
        _ => None,
    }
}

/// How far ahead of UTC a local clock `difference` minutes ahead of it is, rounded to a quarter
/// of an hour, which every time zone is a multiple of, and brought into -12 h..+14 h.
pub open spec fn offset_of(difference: int) -> int {
    let ahead = difference % 1440;
    let rounded = ((ahead + 7) / 15 * 15) % 1440;
    if rounded > 14 * 60 { rounded - 1440 } else { rounded }
}

/// A clock `difference` minutes ahead of UTC is offset by the quarter of an hour nearest it: a
/// multiple of 15 minutes, within 7 minutes of the difference round the clock's 24 hours, and
/// between 10 hours behind and 14 hours ahead, so that each difference has one offset.
pub proof fn law_an_offset_is_the_nearest_quarter_hour(difference: int)
    ensures
        -600 < offset_of(difference) <= 840,
        offset_of(difference) % 15 == 0,
        (offset_of(difference) - difference) % 1440 <= 7 || (offset_of(difference) - difference) % 1440 >= 1433,
{
    let d = difference;
    let a = d % 1440;
    let q = d / 1440;
    assert(d == 1440 * q + a && 0 <= a < 1440);
    let t = (a + 7) / 15;
    let raw = t * 15;
    assert(a - 7 <= raw <= a + 7 && 0 <= raw <= 1440) by (nonlinear_arith)
        requires
            t == (a + 7) / 15,
            raw == t * 15,
            0 <= a < 1440,
    ;
    let rounded = raw % 1440;
    assert(rounded == if raw == 1440 { 0 } else { raw });
    let o = offset_of(d);
    assert(o == if rounded > 840 { rounded - 1440 } else { rounded });
    assert(o % 15 == 0) by (nonlinear_arith)
        requires
            raw == t * 15,
            rounded == if raw == 1440 { 0 } else { raw },
            o == if rounded > 840 { rounded - 1440 } else { rounded },
    ;
    let k: int = (if raw == 1440 { 1int } else { 0int }) + (if rounded > 840 { 1int } else { 0int });
    assert(o - d == (raw - a) - 1440 * (k + q));
    let e = raw - a;
    assert((o - d) % 1440 == if e >= 0 { e } else { e + 1440 }) by (nonlinear_arith)
        requires
            o - d == e - 1440 * (k + q),
            -7 <= e <= 7,
    ;
}

impl Readings {
    /// Minutes the local clock is ahead of UTC, worked out from the `HH:MM` reading against the
    /// minute of the day it is in UTC, `utc_minute`. The reading lags by up to a couple of
    /// seconds and is truncated to the minute, so the difference is rounded to the nearest
    /// quarter of an hour.
    pub fn utc_offset(&self, utc_minute: i64) -> (r: Option<i64>)
        requires
            clock_reading(self.time@) matches Some((h, m)) ==> i64::MIN <= h * 60 <= i64::MAX && i64::MIN <= h
                * 60 + m <= i64::MAX && i64::MIN <= h * 60 + m - utc_minute <= i64::MAX,
        ensures
            match clock_reading(self.time@) {
                Some((h, m)) => r == Some(offset_of(h * 60 + m - utc_minute) as i64),
                None => r is None,
            },
            match clock_reading(self.time@) {
                Some((h, m)) => r matches Some(o) && -600 < o <= 840 && o % 15 == 0 && ((o - (h * 60 + m - utc_minute))
                    % 1440 <= 7 || (o - (h * 60 + m - utc_minute)) % 1440 >= 1433),
                None => true,
            },
    {
        proof {
            if let Some((h, m)) = clock_reading(self.time@) {
                law_an_offset_is_the_nearest_quarter_hour(h * 60 + m - utc_minute);
            }
        }
        let (hours, minutes) = match read_clock(self.time.as_str()) {
            Some(hm) => hm,
            None => return None,
        };
        let local = hours * 60 + minutes;
        let difference = local - utc_minute;
        let mut ahead = difference % 1440;
        if ahead < 0 {
            ahead += 1440;
        }
        assert(ahead == (local - utc_minute) % 1440);
        let rounded = ((ahead + 7) / 15 * 15) % 1440;
        Some(if rounded > 14 * 60 { rounded - 1440 } else { rounded })
    }
}

/// The lines of a piece of text art, a character at a time.
pub fn art(text: &str) -> (r: Vec<Vec<char>>)
    ensures
        r@.len() == lines_of(text@).len(),
        forall|i: int| 0 <= i < r@.len() ==> #[trigger] r@[i]@ == lines_of(text@)[i],
{
    let v = chars_of(text);
    let mut out: Vec<Vec<char>> = Vec::new();
    let mut from: usize = 0;
    assert(lines_of(v@) == lines_from(v@, 0));
    while from < v.len()
        invariant
            from <= v@.len(),
            v@ == text@,
            lines_from(v@, 0) =~= out@.map_values(|l: Vec<char>| l@) + lines_from(v@, from as int),
        decreases v@.len() - from,
    {
        let end = next_line_end(&v, from);
        proof {
            lemma_line_end(v@, from as int);
            lemma_lines_step(v@, from as int);
        }
        let line = line_between(&v, from, end);
        let ghost before = out@;
        out.push(line);
        proof {
            assert(out@.map_values(|l: Vec<char>| l@) =~= before.map_values(|l: Vec<char>| l@).push(line@));
            if end == v@.len() {
                assert(lines_from(v@, end + 1) =~= lines_from(v@, v@.len() as int));
            }
        }
        from = if end < v.len() { end + 1 } else { v.len() };
    }
    assert(lines_from(v@, from as int) =~= Seq::<Seq<char>>::empty());
    proof {
        assert forall|i: int| 0 <= i < out@.len() implies #[trigger] out@[i]@ == lines_of(text@)[i] by {
            assert(out@.map_values(|l: Vec<char>| l@)[i] == out@[i]@);
        }
    }
    out
}

/// The widest line's length, at least 1.
pub open spec fn widest(lines: Seq<Vec<char>>) -> int
    decreases lines.len(),
{
    if lines.len() == 0 {
        1
    } else {
        let rest = widest(lines.drop_last());
        if lines.last()@.len() > rest { lines.last()@.len() as int } else { rest }
    }
}

/// How wide a piece of text art is: its longest line, and at least 1.
pub fn art_width(lines: &[Vec<char>]) -> (r: usize)
    ensures
        r == widest(lines@),
{
    let mut best: usize = 1;
    let mut i: usize = 0;
    while i < lines.len()
        invariant
            i <= lines@.len(),
            best == widest(lines@.take(i as int)),
        decreases lines@.len() - i,
    {
        assert(lines@.take(i + 1).drop_last() =~= lines@.take(i as int));
        if lines[i].len() > best {
            best = lines[i].len();
        }
        i += 1;
    }
    assert(lines@.take(i as int) =~= lines@);
    best
}

/// The golden-ratio step of splitmix64.
pub open spec fn golden() -> u64 {
    0x9e37_79b9_7f4a_7c15u64
}

/// `n` wrapped round to 64 bits.
pub open spec fn wrap64(n: int) -> u64 {
    (n % 0x1_0000_0000_0000_0000) as u64
}

/// splitmix64's mixing of `z`.
pub open spec fn mixed(z: u64) -> u64 {
    let a = wrap64((z ^ (z >> 30u64)) * 0xbf58_476d_1ce4_e5b9u64);
    let b = wrap64((a ^ (a >> 27u64)) * 0x94d0_49bb_1331_11ebu64);
    b ^ (b >> 31u64)
}

/// splitmix64's mixing of `z`.
pub fn mix64(z: u64) -> (r: u64)
    ensures
        r == mixed(z),
{
    let a = (z ^ (z >> 30)).wrapping_mul(0xbf58_476d_1ce4_e5b9);
    let b = (a ^ (a >> 27)).wrapping_mul(0x94d0_49bb_1331_11eb);
    b ^ (b >> 31)
}

/// The next number from a splitmix64 sequence, advancing `state`.
pub fn next_random(state: &mut u64) -> (r: u64)
    ensures
        *final(state) == wrap64(*old(state) + golden()),
        r == mixed(*final(state)),
{
    *state = state.wrapping_add(0x9e37_79b9_7f4a_7c15);
    mix64(*state)
}

/// The top 24 bits of splitmix64's number for `n`: the steady pseudo-random number the
/// variations scale to `[0, 1)` by dividing by 2^24.
pub open spec fn hash24_of(n: u64) -> u64 {
    mixed(wrap64(n + golden())) >> 40u64
}

/// The top 24 bits of splitmix64's number for `n`.
pub fn hash24(n: u64) -> (r: u64)
    ensures
        r == hash24_of(n),
        r < 0x100_0000,
{
    let r = mix64(n.wrapping_add(0x9e37_79b9_7f4a_7c15)) >> 40;
    let m = mix64(n.wrapping_add(0x9e37_79b9_7f4a_7c15));
    assert(m >> 40u64 < 0x100_0000) by (bit_vector);
    r
}

/// Where dot `bit` of a Braille pattern sits: which of the two columns and which of the four
/// rows.
pub open spec fn braille_dot(bit: int) -> (int, int) {
    if bit == 0 {
        (0, 0)
    } else if bit == 1 {
        (0, 1)
    } else if bit == 2 {
        (0, 2)
    } else if bit == 3 {
        (1, 0)
    } else if bit == 4 {
        (1, 1)
    } else if bit == 5 {
        (1, 2)
    } else if bit == 6 {
        (0, 3)
    } else {
        (1, 3)
    }
}

/// Whether `dots` has the dot at (`across`, `down`), a bit a dot, row by row from the top left.
pub open spec fn has_dot(dots: u8, across: int, down: int) -> bool {
    (dots >> ((down * 2 + across) as u8)) & 1u8 == 1u8
}

/// The Unicode Braille bits for the dots of `dots` from bit `k` on.
pub open spec fn braille_bits(dots: u8, k: int) -> int
    decreases 8 - k,
{
    if k >= 8 || k < 0 {
        0
    } else {
        let (across, down) = braille_dot(k);
        (if has_dot(dots, across, down) { pow2(k) } else { 0 }) + braille_bits(dots, k + 1)
    }
}

pub open spec fn pow2(k: int) -> int
    decreases k,
{
    if k <= 0 { 1 } else { 2 * pow2(k - 1) }
}

/// `char::from_u32`: the character with code `code`, where there is one.
#[verifier::external_body]
fn char_from(code: u32) -> (r: Option<char>)
    ensures
        (code < 0xD800 || (0xE000 <= code && code <= 0x10FFFF)) ==> r == Some(code as char),
        !(code < 0xD800 || (0xE000 <= code && code <= 0x10FFFF)) ==> r is None,
{
    char::from_u32(code)
}

/// Where dot `bit` of a Braille pattern sits.
fn dot_place(bit: u8) -> (r: (u8, u8))
    requires
        bit < 8,
    ensures
        r.0 as int == braille_dot(bit as int).0,
        r.1 as int == braille_dot(bit as int).1,
{
    match bit {
        0 => (0, 0),
        1 => (0, 1),
        2 => (0, 2),
        3 => (1, 0),
        4 => (1, 1),
        5 => (1, 2),
        6 => (0, 3),
        _ => (1, 3),
    }
}

/// The Braille pattern with a dot at each of (`across` 0..2, `down` 0..4) set in `dots`, a bit a
/// dot, row by row from the top left.
pub fn braille(dots: u8) -> (r: char)
    ensures
        r as int == 0x2800 + braille_bits(dots, 0),
{
    let mut bits: u32 = 0;
    let mut bit: u8 = 8;
    proof {
        reveal_with_fuel(pow2, 9);
    }
    while bit > 0
        invariant
            bit <= 8,
            bits as int == braille_bits(dots, bit as int),
            bits < 256,
            braille_bits(dots, bit as int) <= 256 - pow2(bit as int),
        decreases bit,
    {
        bit -= 1;
        let (across, down) = dot_place(bit);
        let shift: u8 = down * 2 + across;
        proof {
            lemma_pow2_shift(bit as u32);
            lemma_pow2_positive(bit as int);
            assert(pow2(bit + 1) == 2 * pow2(bit as int));
        }
        if (dots >> shift) & 1 == 1 {
            bits += 1u32 << (bit as u32);
        }
    }
    match char_from(0x2800 + bits) {
        Some(c) => c,
        None => ' ',
    }
}

proof fn lemma_pow2_positive(k: int)
    ensures
        pow2(k) >= 1,
    decreases k,
{
    if k > 0 {
        lemma_pow2_positive(k - 1);
    }
}

/// Shifting a 1 left by `k` gives `pow2(k)`.
proof fn lemma_pow2_shift(k: u32)
    requires
        k < 8,
    ensures
        (1u32 << k) == pow2(k as int),
{
    reveal_with_fuel(pow2, 9);
    if k == 0 {
        assert((1u32 << 0u32) == 1u32) by (bit_vector);
    } else if k == 1 {
        assert((1u32 << 1u32) == 2u32) by (bit_vector);
    } else if k == 2 {
        assert((1u32 << 2u32) == 4u32) by (bit_vector);
    } else if k == 3 {
        assert((1u32 << 3u32) == 8u32) by (bit_vector);
    } else if k == 4 {
        assert((1u32 << 4u32) == 16u32) by (bit_vector);
    } else if k == 5 {
        assert((1u32 << 5u32) == 32u32) by (bit_vector);
    } else if k == 6 {
        assert((1u32 << 6u32) == 64u32) by (bit_vector);
    } else {
        assert((1u32 << 7u32) == 128u32) by (bit_vector);
    }
}

/// Whether byte `i` of an RGBA picture `width` pixels across is one of the `w` pixels from
/// column `x` of some row from `y` up to `until`.
pub open spec fn filled(i: int, width: int, x: int, w: int, y: int, until: int) -> bool {
    exists|row: int| y <= row < until && #[trigger] run_from(row, width, x) <= i < run_from(row, width, x) + w * 4
}

/// Where row `row`'s pixels from column `x` start, in bytes.
pub open spec fn run_from(row: int, width: int, x: int) -> int {
    (row * width + x) * 4
}

/// The byte of `rgb` made opaque that byte `i` of a pixel takes.
pub open spec fn opaque(rgb: [u8; 3], i: int) -> u8 {
    if i % 4 == 3 { 255u8 } else { rgb@[i % 4] }
}

/// Paints `w` × `h` pixels of an RGBA picture `width` pixels across, from column `x` of row
/// `y`, solid `rgb`.
pub fn fill(pixels: &mut [u8], width: usize, x: usize, y: usize, w: usize, h: usize, rgb: [u8; 3])
    requires
        y + h <= usize::MAX,
        h > 0 ==> ((y + h - 1) * width + x + w) * 4 <= old(pixels)@.len(),
    ensures
        final(pixels)@.len() == old(pixels)@.len(),
        forall|i: int| 0 <= i < old(pixels)@.len() ==> #[trigger] final(pixels)@[i] == if filled(i, width as int, x as int, w as int, y as int, y + h) {
            opaque(rgb, i)
        } else {
            old(pixels)@[i]
        },
{
    let ghost before = pixels@;
    let mut row = y;
    let end = y + h;
    while row < end
        invariant
            y <= row <= end == y + h,
            h > 0 ==> ((y + h - 1) * width + x + w) * 4 <= before.len(),
            pixels@.len() == before.len(),
            pixels@.len() == pixels.len(),
            forall|i: int| 0 <= i < before.len() ==> #[trigger] pixels@[i] == if filled(i, width as int, x as int, w as int, y as int, row as int) {
                opaque(rgb, i)
            } else {
                before[i]
            },
        decreases end - row,
    {
        assert((row * width + x + w) * 4 <= ((y + h - 1) * width + x + w) * 4 && row * width <= row * width + x)
            by (nonlinear_arith)
            requires
                y <= row < y + h,
        ;
        let start = (row * width + x) * 4;
        let stop = start + w * 4;
        let mut k = start;
        while k < stop
            invariant
                y <= row < end == y + h,
                start == (row * width + x) * 4,
                stop == start + w * 4,
                start <= k <= stop <= before.len(),
                pixels@.len() == before.len(),
                forall|i: int| 0 <= i < before.len() ==> #[trigger] pixels@[i] == if filled(i, width as int, x as int, w as int, y as int, row as int) || (start <= i < k) {
                    opaque(rgb, i)
                } else {
                    before[i]
                },
            decreases stop - k,
        {
            let byte = if k % 4 == 3 { 255 } else { rgb[k % 4] };
            let ghost prev = pixels@;
            pixels[k] = byte;
            proof {
                assert forall|i: int| 0 <= i < before.len() implies #[trigger] pixels@[i] == if filled(i, width as int, x as int, w as int, y as int, row as int) || (start <= i < k + 1) {
                    opaque(rgb, i)
                } else {
                    before[i]
                } by {
                    if i != k {
                        assert(pixels@[i] == prev[i]);
                    } else {
                        assert(pixels@[i] == opaque(rgb, i));
                        if filled(i, width as int, x as int, w as int, y as int, row as int) {
                        }
                    }
                }
            }
            k += 1;
        }
        proof {
            assert forall|i: int| 0 <= i < before.len() implies #[trigger] pixels@[i] == if filled(i, width as int, x as int, w as int, y as int, row + 1) {
                opaque(rgb, i)
            } else {
                before[i]
            } by {
                if start <= i < stop {
                    assert(run_from(row as int, width as int, x as int) <= i < run_from(row as int, width as int, x as int) + w * 4);
                    assert(filled(i, width as int, x as int, w as int, y as int, row + 1));
                } else {
                    if filled(i, width as int, x as int, w as int, y as int, row + 1) {
                        let r = choose|r: int| y <= r < row + 1 && #[trigger] run_from(r, width as int, x as int) <= i < run_from(r, width as int, x as int) + w * 4;
                        if r < row {
                            assert(filled(i, width as int, x as int, w as int, y as int, row as int));
                        }
                    } else {
                        if filled(i, width as int, x as int, w as int, y as int, row as int) {
                            let r = choose|r: int| y <= r < row && #[trigger] run_from(r, width as int, x as int) <= i < run_from(r, width as int, x as int) + w * 4;
                            assert(y <= r < row + 1);
                        }
                    }
                }
            }
        }
        row += 1;
    }
}

} // verus!
