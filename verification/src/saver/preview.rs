//! Previews of the wallpaper are drawn several times the size asked for and shrunk, each pixel
//! of the small picture the average of the block of the large one it stands for.

use vstd::prelude::*;

verus! {

/// Channel `c` of the RGBA pixel at (`col`, `row`) of a picture `width` pixels across.
pub open spec fn channel_at(p: Seq<u8>, width: int, col: int, row: int, c: int) -> int {
    p[(row * width + col) * 4 + c] as int
}

/// Channel `c` summed over `n` pixels of row `row` from column `col`.
pub open spec fn run_sum(p: Seq<u8>, width: int, col: int, row: int, c: int, n: int) -> int
    decreases n,
{
    if n <= 0 {
        0
    } else {
        run_sum(p, width, col, row, c, n - 1) + channel_at(p, width, col + n - 1, row, c)
    }
}

/// Channel `c` summed over the first `rows` rows of the `factor` × `factor` block that pixel
/// (`x`, `y`) of the small picture stands for.
pub open spec fn block_sum(p: Seq<u8>, width: int, factor: int, x: int, y: int, c: int, rows: int) -> int
    decreases rows,
{
    if rows <= 0 {
        0
    } else {
        block_sum(p, width, factor, x, y, c, rows - 1) + run_sum(p, width, x * factor, y * factor + rows - 1, c, factor)
    }
}

/// Channel `c` of pixel (`x`, `y`) of the small picture: the block's average, rounded down.
pub open spec fn average(p: Seq<u8>, width: int, factor: int, x: int, y: int, c: int) -> int {
    block_sum(p, width, factor, x, y, c, factor) / (factor * factor)
}

proof fn lemma_run_sum_bound(p: Seq<u8>, width: int, col: int, row: int, c: int, n: int)
    ensures
        0 <= run_sum(p, width, col, row, c, n) <= 255 * (if n > 0 { n } else { 0 }),
    decreases n,
{
    if n > 0 {
        lemma_run_sum_bound(p, width, col, row, c, n - 1);
    }
}

proof fn lemma_block_sum_bound(p: Seq<u8>, width: int, factor: int, x: int, y: int, c: int, rows: int)
    requires
        factor >= 0,
    ensures
        0 <= block_sum(p, width, factor, x, y, c, rows) <= 255 * factor * (if rows > 0 { rows } else { 0 }),
    decreases rows,
{
    if rows > 0 {
        lemma_block_sum_bound(p, width, factor, x, y, c, rows - 1);
        lemma_run_sum_bound(p, width, x * factor, y * factor + rows - 1, c, factor);
        assert(255 * factor * (rows - 1) + 255 * factor == 255 * factor * rows) by (nonlinear_arith);
    }
}

/// Two pixels of a picture `w` across are at the same place only if they are the same pixel.
proof fn lemma_pixel_places(w: int, x: int, y: int, x2: int, y2: int)
    requires
        0 <= x < w,
        0 <= x2 < w,
        0 <= y,
        0 <= y2,
    ensures
        (y * w + x == y2 * w + x2) <==> (x == x2 && y == y2),
        (y < y2 || (y == y2 && x < x2)) <==> y * w + x < y2 * w + x2,
{
    if y < y2 {
        assert(y * w + x < y2 * w + x2) by (nonlinear_arith)
            requires
                y < y2,
                0 <= x < w,
                0 <= x2,
        ;
    } else if y > y2 {
        assert(y * w + x > y2 * w + x2) by (nonlinear_arith)
            requires
                y > y2,
                0 <= x2 < w,
                0 <= x,
        ;
    }
}

/// `pixels`, `width` wide, shrunk by `factor` into `small` (`w` × `h`), each pixel the average of
/// the block it stands for.
pub fn shrink(pixels: &[u8], width: usize, factor: usize, small: &mut [u8], w: usize, h: usize)
    requires
        1 <= factor <= 4104,
        h * factor <= usize::MAX,
        w > 0 && h > 0 ==> ((h * factor - 1) * width + w * factor) * 4 <= pixels@.len(),
        w * h * 4 <= old(small)@.len(),
    ensures
        final(small)@.len() == old(small)@.len(),
        forall|x: int, y: int, c: int|
            0 <= x < w && 0 <= y < h && 0 <= c < 3 ==> #[trigger] final(small)@[(y * w + x) * 4 + c] as int
                == average(pixels@, width as int, factor as int, x, y, c),
        forall|x: int, y: int| 0 <= x < w && 0 <= y < h ==> #[trigger] final(small)@[(y * w + x) * 4 + 3] == 255,
        forall|i: int| w * h * 4 <= i < old(small)@.len() ==> #[trigger] final(small)@[i] == old(small)@[i],
{
    assert(1 <= factor * factor <= 4104 * 4104) by (nonlinear_arith)
        requires
            1 <= factor <= 4104,
    ;
    let area = (factor * factor) as u32;
    assert(small@.len() == small.len());
    let ghost untouched = small@;
    let mut y: usize = 0;
    while y < h
        invariant
            1 <= factor <= 4104,
            area == factor * factor,
            1 <= area,
            h * factor <= usize::MAX,
            w > 0 && h > 0 ==> ((h * factor - 1) * width + w * factor) * 4 <= pixels@.len(),
            w * h * 4 <= small@.len(),
            small@.len() == small.len(),
            small@.len() == untouched.len(),
            y <= h,
            forall|xx: int, yy: int, c: int|
                0 <= xx < w && 0 <= yy < y && 0 <= c < 3 ==> #[trigger] small@[(yy * w + xx) * 4 + c] as int
                    == average(pixels@, width as int, factor as int, xx, yy, c),
            forall|xx: int, yy: int| 0 <= xx < w && 0 <= yy < y ==> #[trigger] small@[(yy * w + xx) * 4 + 3] == 255,
            forall|i: int| y * w * 4 <= i < small@.len() ==> #[trigger] small@[i] == untouched[i],
        decreases h - y,
    {
        let mut x: usize = 0;
        while x < w
            invariant
                1 <= factor <= 4104,
                area == factor * factor,
                1 <= area,
                h * factor <= usize::MAX,
                w > 0 && h > 0 ==> ((h * factor - 1) * width + w * factor) * 4 <= pixels@.len(),
                w * h * 4 <= small@.len(),
                small@.len() == small.len(),
                small@.len() == untouched.len(),
                y < h,
                x <= w,
                forall|xx: int, yy: int, c: int|
                    0 <= xx < w && 0 <= yy && (yy < y || (yy == y && xx < x)) && 0 <= c < 3
                        ==> #[trigger] small@[(yy * w + xx) * 4 + c] as int == average(
                        pixels@,
                        width as int,
                        factor as int,
                        xx,
                        yy,
                        c,
                    ),
                forall|xx: int, yy: int|
                    0 <= xx < w && 0 <= yy && (yy < y || (yy == y && xx < x)) ==> #[trigger] small@[(yy * w + xx) * 4 + 3]
                        == 255,
                forall|i: int| (y * w + x) * 4 <= i < small@.len() ==> #[trigger] small@[i] == untouched[i],
            decreases w - x,
        {
            let (s0, s1, s2) = block_sums(pixels, width, factor, x, y, w, h);
            assert((y * w + x) * 4 + 4 <= w * h * 4 && y * w <= y * w + x) by (nonlinear_arith)
                requires
                    x < w,
                    y < h,
            ;
            let at = (y * w + x) * 4;
            proof {
                lemma_block_sum_bound(pixels@, width as int, factor as int, x as int, y as int, 0, factor as int);
                lemma_block_sum_bound(pixels@, width as int, factor as int, x as int, y as int, 1, factor as int);
                lemma_block_sum_bound(pixels@, width as int, factor as int, x as int, y as int, 2, factor as int);
                assert(s0 as int / (factor * factor) <= 255) by (nonlinear_arith)
                    requires
                        s0 <= 255 * factor * factor,
                        factor >= 1,
                ;
                assert(s1 as int / (factor * factor) <= 255) by (nonlinear_arith)
                    requires
                        s1 <= 255 * factor * factor,
                        factor >= 1,
                ;
                assert(s2 as int / (factor * factor) <= 255) by (nonlinear_arith)
                    requires
                        s2 <= 255 * factor * factor,
                        factor >= 1,
                ;
            }
            let ghost before = small@;
            small[at] = (s0 / area) as u8;
            small[at + 1] = (s1 / area) as u8;
            small[at + 2] = (s2 / area) as u8;
            small[at + 3] = 255;
            proof {
                assert forall|xx: int, yy: int, c: int|
                    0 <= xx < w && 0 <= yy && (yy < y || (yy == y && xx < x + 1)) && 0 <= c < 3
                        implies #[trigger] small@[(yy * w + xx) * 4 + c] as int == average(
                        pixels@,
                        width as int,
                        factor as int,
                        xx,
                        yy,
                        c,
                    ) by {
                    lemma_pixel_places(w as int, xx, yy, x as int, y as int);
                    if !(yy == y && xx == x) {
                        assert((yy * w + xx) * 4 + c < at);
                        assert(small@[(yy * w + xx) * 4 + c] == before[(yy * w + xx) * 4 + c]);
                    }
                }
                assert forall|xx: int, yy: int|
                    0 <= xx < w && 0 <= yy && (yy < y || (yy == y && xx < x + 1)) implies #[trigger] small@[(yy * w + xx) * 4 + 3]
                        == 255 by {
                    lemma_pixel_places(w as int, xx, yy, x as int, y as int);
                    if !(yy == y && xx == x) {
                        assert((yy * w + xx) * 4 + 3 < at);
                    }
                }
            }
            x += 1;
        }
        assert((y * w + w) * 4 == (y + 1) * w * 4) by (nonlinear_arith);
        proof {
            assert forall|xx: int, yy: int, c: int|
                0 <= xx < w && 0 <= yy < y + 1 && 0 <= c < 3 implies #[trigger] small@[(yy * w + xx) * 4 + c] as int
                    == average(pixels@, width as int, factor as int, xx, yy, c) by {
                if yy == y {
                    assert(xx < x);
                }
            }
        }
        y += 1;
    }
}

/// The three colour channels of pixel (`x`, `y`) of the small picture, each summed over its
/// block.
fn block_sums(pixels: &[u8], width: usize, factor: usize, x: usize, y: usize, w: usize, h: usize) -> (r: (
    u32,
    u32,
    u32,
))
    requires
        1 <= factor <= 4104,
        x < w,
        y < h,
        h * factor <= usize::MAX,
        ((h * factor - 1) * width + w * factor) * 4 <= pixels@.len(),
    ensures
        r.0 == block_sum(pixels@, width as int, factor as int, x as int, y as int, 0, factor as int),
        r.1 == block_sum(pixels@, width as int, factor as int, x as int, y as int, 1, factor as int),
        r.2 == block_sum(pixels@, width as int, factor as int, x as int, y as int, 2, factor as int),
{
    assert(pixels@.len() == pixels.len());
    let mut s0: u32 = 0;
    let mut s1: u32 = 0;
    let mut s2: u32 = 0;
    let mut dy: usize = 0;
    while dy < factor
        invariant
            1 <= factor <= 4104,
            x < w,
            y < h,
            h * factor <= usize::MAX,
            ((h * factor - 1) * width + w * factor) * 4 <= pixels@.len(),
            pixels@.len() == pixels.len(),
            dy <= factor,
            s0 == block_sum(pixels@, width as int, factor as int, x as int, y as int, 0, dy as int),
            s1 == block_sum(pixels@, width as int, factor as int, x as int, y as int, 1, dy as int),
            s2 == block_sum(pixels@, width as int, factor as int, x as int, y as int, 2, dy as int),
        decreases factor - dy,
    {
        assert(((y * factor + dy) * width + x * factor + factor) * 4 <= ((h * factor - 1) * width + w * factor) * 4
            && y * factor <= y * factor + dy && (y * factor + dy) * width <= (y * factor + dy) * width + x * factor
            && x * factor <= x * factor + factor && y * factor + dy < h * factor) by (nonlinear_arith)
            requires
                x < w,
                y < h,
                dy < factor,
        ;
        proof {
            lemma_block_sum_bound(pixels@, width as int, factor as int, x as int, y as int, 0, dy as int);
            lemma_block_sum_bound(pixels@, width as int, factor as int, x as int, y as int, 1, dy as int);
            lemma_block_sum_bound(pixels@, width as int, factor as int, x as int, y as int, 2, dy as int);
            assert(255 * factor * dy + 255 * factor <= 255 * 4104 * 4104) by (nonlinear_arith)
                requires
                    dy < factor <= 4104,
            ;
        }
        let start = ((y * factor + dy) * width + x * factor) * 4;
        let mut k: usize = 0;
        let (b0, b1, b2) = (s0, s1, s2);
        while k < factor
            invariant
                1 <= factor <= 4104,
                dy < factor,
                start == ((y * factor + dy) * width + x * factor) * 4,
                start + factor * 4 <= pixels@.len(),
                pixels@.len() == pixels.len(),
                k <= factor,
                b0 <= 255 * factor * dy,
                b1 <= 255 * factor * dy,
                b2 <= 255 * factor * dy,
                255 * factor * dy + 255 * factor <= 255 * 4104 * 4104,
                s0 == b0 + run_sum(pixels@, width as int, (x * factor) as int, (y * factor + dy) as int, 0, k as int),
                s1 == b1 + run_sum(pixels@, width as int, (x * factor) as int, (y * factor + dy) as int, 1, k as int),
                s2 == b2 + run_sum(pixels@, width as int, (x * factor) as int, (y * factor + dy) as int, 2, k as int),
            decreases factor - k,
        {
            proof {
                lemma_run_sum_bound(pixels@, width as int, (x * factor) as int, (y * factor + dy) as int, 0, k as int);
                lemma_run_sum_bound(pixels@, width as int, (x * factor) as int, (y * factor + dy) as int, 1, k as int);
                lemma_run_sum_bound(pixels@, width as int, (x * factor) as int, (y * factor + dy) as int, 2, k as int);
                assert(((y * factor + dy) * width + x * factor + k) * 4 == start + k * 4);
            }
            let at = start + k * 4;
            s0 += pixels[at] as u32;
            s1 += pixels[at + 1] as u32;
            s2 += pixels[at + 2] as u32;
            k += 1;
        }
        dy += 1;
    }
    (s0, s1, s2)
}

} // verus!
