//! What was open when the session ended: a record of apps and places, never window titles,
//! and the one-line grammar each workspace's tiling tree is written in.
//!
//! The tree as one line: `0` is a leaf, `v0.5(a,b)` a side-by-side split and `h0.5(a,b)` a
//! stacked one. Leaves are slot numbers within the workspace.

use vstd::prelude::*;
use crate::calendar::{seconds_now, stamp, stamp_text};
use crate::layout::{Shape, ShapeView};
use crate::text::{
    all_digits, chars_between, chars_of, decimal, digit_value, decimal_chars, first_where, is_digit, lemma_decimal,
    lemma_first_where, lemma_first_where_at, lemma_first_where_none, push_all, push_char, string_between, trim,
    trim_bounds, trim_end, trim_start, value, is_space,
};

verus! {

/// The file's name inside Slipstream's state folder.
pub const FILE_NAME: &'static str = "session.toml";

/// Bumped when the format changes in a way an older Slipstream would read wrongly. A file from a
/// newer version is ignored rather than half-understood.
pub const VERSION: u32 = 1;

/// More than this many windows and the rest are left out, so a runaway can't write a huge file.
/// No tree deeper than this, nor with a slot past it, is read either.
pub const MAX_WINDOWS: usize = 60;

pub open spec fn is_sign(c: char) -> bool {
    c == '+' || c == '-'
}

pub open spec fn is_mark(c: char) -> bool {
    c == 'e' || c == 'E'
}

pub open spec fn marks() -> spec_fn(char) -> bool {
    |c: char| is_mark(c)
}

/// Digits with at most one point among them, and at least one digit.
pub open spec fn is_mantissa(m: Seq<char>) -> bool {
    &&& forall|i: int| 0 <= i < m.len() ==> is_digit(#[trigger] m[i]) || m[i] == '.'
    &&& forall|i: int, j: int| 0 <= i < m.len() && 0 <= j < m.len() && #[trigger] m[i] == '.' && #[trigger] m[j] == '.' ==> i == j
    &&& exists|i: int| 0 <= i < m.len() && is_digit(#[trigger] m[i])
}

/// `e` or `E`, a sign if any, and at least one digit.
pub open spec fn is_exponent(e: Seq<char>) -> bool {
    &&& e.len() >= 2
    &&& is_mark(e[0])
    &&& {
        let d = if is_sign(e[1]) { e.skip(2) } else { e.skip(1) };
        d.len() > 0 && all_digits(d)
    }
}

pub open spec fn is_unsigned(u: Seq<char>) -> bool {
    match first_where(u, marks()) {
        Some(k) => is_mantissa(u.take(k)) && is_exponent(u.skip(k)),
        None => is_mantissa(u),
    }
}

/// A decimal number as `f32` reads one: a sign if any, digits with at most one point, and an
/// exponent if any.
pub open spec fn is_decimal(r: Seq<char>) -> bool {
    if r.len() > 0 && is_sign(r[0]) {
        is_unsigned(r.skip(1))
    } else {
        is_unsigned(r)
    }
}

/// Ten to the `n`.
pub open spec fn pow10(n: nat) -> nat
    decreases n,
{
    if n == 0 { 1 } else { 10 * pow10((n - 1) as nat) }
}

/// The least size an `f32` reading rounds to infinity: halfway between the largest finite `f32`,
/// 2^128 - 2^104, and 2^128, where rounding to the nearest, ties to even, goes up.
pub open spec fn f32_overflow() -> nat {
    340282356779733661637539395458142568448
}

/// The digits of a mantissa, the point left out.
pub open spec fn mant_digits(m: Seq<char>) -> Seq<char>
    decreases m.len(),
{
    if m.len() == 0 {
        m
    } else if m.last() == '.' {
        mant_digits(m.drop_last())
    } else {
        mant_digits(m.drop_last()).push(m.last())
    }
}

/// How many digits of a mantissa stand after its point.
pub open spec fn after_point(m: Seq<char>) -> nat
    decreases m.len(),
{
    if m.len() == 0 || m.last() == '.' {
        0
    } else if m.drop_last().contains('.') {
        after_point(m.drop_last()) + 1
    } else {
        0
    }
}

/// The power of ten an exponent `e`, `e` or `E` then a sign if any then digits, stands for.
pub open spec fn exponent_value(e: Seq<char>) -> int {
    if is_sign(e[1]) {
        if e[1] == '-' { -value(e.skip(2)) } else { value(e.skip(2)) as int }
    } else {
        value(e.skip(1)) as int
    }
}

/// A decimal number's mantissa and the power of ten it is scaled by.
pub open spec fn number_parts(r: Seq<char>) -> (Seq<char>, int) {
    let u = if r.len() > 0 && is_sign(r[0]) { r.skip(1) } else { r };
    match first_where(u, marks()) {
        Some(k) => (u.take(k), exponent_value(u.skip(k)) - after_point(u.take(k))),
        None => (u, -(after_point(u) as int)),
    }
}

/// Whether a decimal number is one an `f32` holds: its size, the digits `n` times ten to the
/// `s`, below where reading rounds to infinity.
#[verifier::opaque]
pub open spec fn fits_f32(r: Seq<char>) -> bool {
    let (m, s) = number_parts(r);
    let n = value(mant_digits(m));
    if s >= 0 {
        n * pow10(s as nat) < f32_overflow()
    } else {
        n < f32_overflow() * pow10((-s) as nat)
    }
}

/// A ratio as it is written: a decimal number, as `f32` reads one — a sign if any, digits with
/// at most one point, and an exponent if any — and one `f32` holds as a finite number.
pub open spec fn is_number(r: Seq<char>) -> bool {
    is_decimal(r) && fits_f32(r)
}

pub open spec fn letter(vertical: bool) -> char {
    if vertical { 'v' } else { 'h' }
}

/// `t` is a split's text: its letter, its ratio, and its two trees `ta` and `tb` in brackets
/// after a comma.
pub open spec fn split_of(t: Seq<char>, vertical: bool, ratio: Seq<char>, ta: Seq<char>, tb: Seq<char>) -> bool {
    t == seq![letter(vertical)] + ratio + seq!['('] + ta + seq![','] + tb + seq![')']
}

/// How many leading characters of `t` are digits.
pub open spec fn digit_run(t: Seq<char>) -> nat
    decreases t.len(),
{
    if t.len() > 0 && is_digit(t[0]) {
        1 + digit_run(t.drop_first())
    } else {
        0
    }
}

/// Where the text of the tree `s` that starts `t` ends: a leaf is its run of digits, a split its
/// letter, ratio and bracket, its first tree, a comma, its second tree and a bracket.
pub open spec fn text_end(t: Seq<char>, s: ShapeView) -> int
    decreases s,
{
    match s {
        ShapeView::Leaf(_) => digit_run(t) as int,
        ShapeView::Split { ratio, a, b, .. } => {
            let ka = 2 + ratio.len() + text_end(t.skip(2 + ratio.len() as int), *a);
            ka + 1 + text_end(t.skip(ka + 1), *b) + 1
        },
    }
}

/// `t` is the text of the tree `s`, `depth` splits down: a leaf is its slot's digits (below
/// `MAX_WINDOWS`); a split, no deeper than `MAX_WINDOWS`, is its letter, its ratio, and its two
/// trees' texts in brackets after a comma.
pub open spec fn reads(t: Seq<char>, s: ShapeView, depth: nat) -> bool
    decreases s,
{
    match s {
        ShapeView::Leaf(slot) => t.len() > 0 && all_digits(t) && value(t) == slot && slot < MAX_WINDOWS,
        ShapeView::Split { vertical, ratio, a, b } => {
            let open: int = 1 + ratio.len() as int;
            let ka = open + 1 + text_end(t.skip(open + 1), *a);
            &&& depth < MAX_WINDOWS
            &&& is_number(ratio)
            &&& open < ka && ka + 1 < t.len()
            &&& split_of(t, vertical, ratio, t.subrange(open + 1, ka), t.subrange(ka + 1, t.len() - 1))
            &&& reads(t.subrange(open + 1, ka), *a, depth + 1)
            &&& reads(t.subrange(ka + 1, t.len() - 1), *b, depth + 1)
        },
    }
}

/// A run of digits followed by something else, or by nothing, is all the run there is.
pub proof fn lemma_digit_run(x: Seq<char>, y: Seq<char>)
    requires
        all_digits(x),
        y.len() == 0 || !is_digit(y[0]),
    ensures
        digit_run(x + y) == x.len(),
    decreases x.len(),
{
    if x.len() > 0 {
        assert((x + y).drop_first() =~= x.drop_first() + y);
        lemma_digit_run(x.drop_first(), y);
    } else {
        assert(x + y =~= y);
    }
}

/// A tree's text, followed by something other than a digit, ends where the text ends.
pub proof fn lemma_text_end(x: Seq<char>, y: Seq<char>, s: ShapeView, depth: nat)
    requires
        reads(x, s, depth),
        y.len() == 0 || !is_digit(y[0]),
    ensures
        text_end(x + y, s) == x.len(),
    decreases s,
{
    match s {
        ShapeView::Leaf(_) => {
            lemma_digit_run(x, y);
        },
        ShapeView::Split { vertical, ratio, a, b } => {
            let open: int = 1 + ratio.len() as int;
            let ka = open + 1 + text_end(x.skip(open + 1), *a);
            let ta = x.subrange(open + 1, ka);
            let tb = x.subrange(ka + 1, x.len() - 1);
            let xy = x + y;
            assert(xy.skip(open + 1) =~= ta + (seq![','] + tb + seq![')'] + y));
            lemma_text_end(ta, seq![','] + tb + seq![')'] + y, *a, depth + 1);
            assert(xy.skip(ka + 1) =~= tb + (seq![')'] + y));
            lemma_text_end(tb, seq![')'] + y, *b, depth + 1);
        },
    }
}

/// The tree as one line.
pub open spec fn written(s: ShapeView) -> Seq<char>
    decreases s,
{
    match s {
        ShapeView::Leaf(slot) => decimal(slot as nat),
        ShapeView::Split { vertical, ratio, a, b } =>
            seq![letter(vertical)] + ratio + seq!['('] + written(*a) + seq![','] + written(*b) + seq![')'],
    }
}

/// A tree a record can hold, `depth` splits down: slots and depth below `MAX_WINDOWS`, and every
/// ratio a number.
pub open spec fn holdable(s: ShapeView, depth: nat) -> bool
    decreases s,
{
    match s {
        ShapeView::Leaf(slot) => slot < MAX_WINDOWS,
        ShapeView::Split { ratio, a, b, .. } =>
            depth < MAX_WINDOWS && is_number(ratio) && holdable(*a, depth + 1) && holdable(*b, depth + 1),
    }
}

fn sign(c: char) -> (r: bool)
    ensures
        r == is_sign(c),
{
    c == '+' || c == '-'
}

fn mark(c: char) -> (r: bool)
    ensures
        r == is_mark(c),
{
    c == 'e' || c == 'E'
}

fn digit(c: char) -> (r: bool)
    ensures
        r == is_digit(c),
{
    '0' <= c && c <= '9'
}

/// Whether `t` from `from` up to `to` is digits with one point at most and a digit at least.
fn mantissa(t: &Vec<char>, from: usize, to: usize) -> (r: bool)
    requires
        from <= to <= t@.len(),
    ensures
        r == is_mantissa(t@.subrange(from as int, to as int)),
{
    let ghost m = t@.subrange(from as int, to as int);
    let mut points: usize = 0;
    let mut point_at: usize = 0;
    let mut digits = false;
    let mut i = from;
    while i < to
        invariant
            from <= i <= to <= t@.len(),
            m == t@.subrange(from as int, to as int),
            points <= 1,
            forall|j: int| from <= j < i ==> is_digit(#[trigger] t@[j]) || t@[j] == '.',
            points == 0 ==> forall|j: int| from <= j < i ==> t@[j] != '.',
            points == 1 ==> from <= point_at < i && t@[point_at as int] == '.'
                && forall|j: int| from <= j < i && j != point_at ==> t@[j] != '.',
            digits <==> exists|j: int| from <= j < i && is_digit(#[trigger] t@[j]),
        decreases to - i,
    {
        let c = t[i];
        if c == '.' {
            if points == 1 {
                assert(m[point_at - from] == '.' && m[i - from] == '.');
                return false;
            }
            points = 1;
            point_at = i;
        } else if digit(c) {
            digits = true;
        } else {
            assert(m[i - from] == c);
            return false;
        }
        i += 1;
    }
    if !digits {
        assert forall|j: int| 0 <= j < m.len() implies !is_digit(#[trigger] m[j]) by {
            assert(m[j] == t@[from + j]);
        }
        return false;
    }
    assert forall|j: int| 0 <= j < m.len() implies is_digit(#[trigger] m[j]) || m[j] == '.' by {
        assert(m[j] == t@[from + j]);
    }
    assert forall|a: int, b: int| 0 <= a < m.len() && 0 <= b < m.len() && #[trigger] m[a] == '.' && #[trigger] m[b] == '.' implies a == b by {
        assert(m[a] == t@[from + a] && m[b] == t@[from + b]);
    }
    let ghost w = choose|j: int| from <= j < i && is_digit(#[trigger] t@[j]);
    assert(m[w - from] == t@[w]);
    true
}

/// Whether `t` from `from` up to `to` is an exponent.
fn exponent(t: &Vec<char>, from: usize, to: usize) -> (r: bool)
    requires
        from <= to <= t@.len(),
    ensures
        r == is_exponent(t@.subrange(from as int, to as int)),
{
    let ghost e = t@.subrange(from as int, to as int);
    if to - from < 2 || !mark(t[from]) {
        return false;
    }
    let start = if sign(t[from + 1]) { from + 2 } else { from + 1 };
    let ghost d = if is_sign(e[1]) { e.skip(2) } else { e.skip(1) };
    assert(d == t@.subrange(start as int, to as int));
    if start >= to {
        return false;
    }
    let mut i = start;
    while i < to
        invariant
            start <= i <= to <= t@.len(),
            forall|j: int| start <= j < i ==> is_digit(#[trigger] t@[j]),
            d == t@.subrange(start as int, to as int),
            e == t@.subrange(from as int, to as int),
            d == if is_sign(e[1]) { e.skip(2) } else { e.skip(1) },
            e.len() >= 2,
            is_mark(e[0]),
        decreases to - i,
    {
        if !digit(t[i]) {
            assert(d[i - start] == t@[i as int]);
            return false;
        }
        i += 1;
    }
    assert forall|j: int| 0 <= j < d.len() implies is_digit(#[trigger] d[j]) by {
        assert(d[j] == t@[start + j]);
    }
    true
}

/// Whether `t` from `from` up to `to` is a ratio as it is written.
fn number(t: &Vec<char>, from: usize, to: usize) -> (r: bool)
    requires
        from <= to <= t@.len(),
    ensures
        r == is_number(t@.subrange(from as int, to as int)),
{
    decimal_text(t, from, to) && fits(t, from, to)
}

/// Whether `t` from `from` up to `to` is a decimal number as `f32` reads one.
fn decimal_text(t: &Vec<char>, from: usize, to: usize) -> (r: bool)
    requires
        from <= to <= t@.len(),
    ensures
        r == is_decimal(t@.subrange(from as int, to as int)),
{
    let ghost whole = t@.subrange(from as int, to as int);
    let start = if from < to && sign(t[from]) { from + 1 } else { from };
    let ghost u = t@.subrange(start as int, to as int);
    assert(u == if whole.len() > 0 && is_sign(whole[0]) { whole.skip(1) } else { whole });
    let mut k = start;
    while k < to && !mark(t[k])
        invariant
            start <= k <= to <= t@.len(),
            forall|j: int| start <= j < k ==> !is_mark(#[trigger] t@[j]),
        decreases to - k,
    {
        k += 1;
    }
    proof {
        assert forall|j: int| 0 <= j < k - start implies !marks()(#[trigger] u[j]) by {
            assert(u[j] == t@[start + j]);
        }
        if k < to {
            assert(u[k - start] == t@[k as int]);
            lemma_first_where_at(u, marks(), k - start);
            assert(u.take(k - start) == t@.subrange(start as int, k as int));
            assert(u.skip(k - start) == t@.subrange(k as int, to as int));
        } else {
            lemma_first_where_none(u, marks());
        }
    }
    if k < to {
        mantissa(t, start, k) && exponent(t, k, to)
    } else {
        mantissa(t, start, to)
    }
}


/// `a`, no more than `cap`.
pub open spec fn capped(a: nat, cap: nat) -> nat {
    if a < cap { a } else { cap }
}

/// Ten to a power is at least one and grows with the power.
proof fn lemma_pow10(a: nat, b: nat)
    requires
        a <= b,
    ensures
        1 <= pow10(a) <= pow10(b),
    decreases b,
{
    if b > 0 {
        if a < b {
            lemma_pow10(a, (b - 1) as nat);
        } else {
            lemma_pow10((a - 1) as nat, (b - 1) as nat);
        }
    }
}

/// Digits written down are worth less than ten to their count, and a run of digits is its front
/// scaled past its back, plus its back.
proof fn lemma_value_split(d: Seq<char>, p: int)
    requires
        all_digits(d),
        0 <= p <= d.len(),
    ensures
        value(d) < pow10(d.len()),
        value(d.skip(p)) < pow10((d.len() - p) as nat),
        value(d) == value(d.take(p)) * pow10((d.len() - p) as nat) + value(d.skip(p)),
    decreases d.len(),
{
    if d.len() == 0 {
        assert(d.take(p) =~= d);
        assert(d.skip(p) =~= d);
        return;
    }
    let dl = d.drop_last();
    assert(all_digits(dl)) by {
        assert forall|i: int| 0 <= i < dl.len() implies is_digit(#[trigger] dl[i]) by {
            assert(dl[i] == d[i]);
        }
    }
    assert(is_digit(d[d.len() - 1]));
    let dv = digit_value(d.last());
    assert(dv <= 9);
    assert(value(d) == value(dl) * 10 + dv);
    let pl = pow10((d.len() - 1) as nat);
    assert(pow10(d.len()) == 10 * pl);
    if p == d.len() {
        lemma_value_split(dl, 0);
        assert(value(d) < pow10(d.len())) by (nonlinear_arith)
            requires
                value(dl) < pl,
                value(d) == value(dl) * 10 + dv,
                dv <= 9,
                pow10(d.len()) == 10 * pl,
        ;
        assert(d.take(p) =~= d);
        assert(d.skip(p) =~= Seq::<char>::empty());
        assert(pow10((d.len() - p) as nat) == 1);
    } else {
        lemma_value_split(dl, p);
        let q = value(dl.take(p));
        let rest = value(dl.skip(p));
        let pp = pow10((dl.len() - p) as nat);
        assert(d.take(p) =~= dl.take(p));
        assert(d.skip(p).drop_last() =~= dl.skip(p));
        assert(d.skip(p).last() == d.last());
        assert(value(d.skip(p)) == rest * 10 + dv);
        assert(pow10((d.len() - p) as nat) == 10 * pp);
        assert(value(d) < pow10(d.len()) && value(d.skip(p)) < 10 * pp
            && value(d) == q * (10 * pp) + value(d.skip(p))) by (nonlinear_arith)
            requires
                value(dl) < pl,
                value(dl) == q * pp + rest,
                rest < pp,
                value(d) == value(dl) * 10 + dv,
                value(d.skip(p)) == rest * 10 + dv,
                dv <= 9,
                pow10(d.len()) == 10 * pl,
        ;
    }
}

/// The digits of `t` from `from` up to `to`, read as a number no more than `cap`.
fn capped_value(t: &Vec<char>, from: usize, to: usize, cap: u128) -> (r: u128)
    requires
        from <= to <= t@.len(),
        all_digits(t@.subrange(from as int, to as int)),
        cap >= 9,
    ensures
        r == capped(value(t@.subrange(from as int, to as int)), cap as nat),
{
    let mut x: u128 = 0;
    let mut i = from;
    while i < to
        invariant
            from <= i <= to <= t@.len(),
            all_digits(t@.subrange(from as int, to as int)),
            cap >= 9,
            x == capped(value(t@.subrange(from as int, i as int)), cap as nat),
        decreases to - i,
    {
        let ghost before = t@.subrange(from as int, i as int);
        let ghost after = t@.subrange(from as int, i + 1);
        assert(after.drop_last() =~= before);
        assert(after.last() == t@[i as int]);
        assert(t@.subrange(from as int, to as int)[i - from] == t@[i as int]);
        let d = (t[i] as u32 - '0' as u32) as u128;
        assert(d == digit_value(t@[i as int]));
        assert(value(after) == value(before) * 10 + d);
        if x > (cap - d) / 10 {
            assert(value(after) >= cap) by (nonlinear_arith)
                requires
                    x > (cap - d) / 10,
                    x == capped(value(before), cap as nat),
                    value(after) == value(before) * 10 + d,
                    d <= 9,
                    cap >= 9,
            ;
            x = cap;
        } else {
            let y = x * 10 + d;
            assert(y <= cap) by (nonlinear_arith)
                requires
                    x <= (cap - d) / 10,
                    y == x * 10 + d,
                    d <= 9,
                    cap >= 9,
            ;
            assert(capped(value(after), cap as nat) == y) by (nonlinear_arith)
                requires
                    x == capped(value(before), cap as nat),
                    value(after) == value(before) * 10 + d,
                    y == x * 10 + d,
                    y <= cap,
            ;
            x = y;
        }
        i += 1;
    }
    x
}

/// The digits of the mantissa `t[from..to]`, the point left out, and how many stand after it.
fn mantissa_parts(t: &Vec<char>, from: usize, to: usize) -> (r: (Vec<char>, usize))
    requires
        from <= to <= t@.len(),
        is_mantissa(t@.subrange(from as int, to as int)),
    ensures
        r.0@ == mant_digits(t@.subrange(from as int, to as int)),
        r.1 == after_point(t@.subrange(from as int, to as int)),
        all_digits(r.0@),
        r.1 <= r.0@.len(),
{
    let ghost m = t@.subrange(from as int, to as int);
    let mut digits: Vec<char> = Vec::new();
    let mut after: usize = 0;
    let mut point = false;
    let mut i = from;
    while i < to
        invariant
            from <= i <= to <= t@.len(),
            m == t@.subrange(from as int, to as int),
            is_mantissa(m),
            digits@ == mant_digits(t@.subrange(from as int, i as int)),
            after == after_point(t@.subrange(from as int, i as int)),
            point == t@.subrange(from as int, i as int).contains('.'),
            all_digits(digits@),
            after <= digits@.len(),
            digits@.len() <= i - from,
        decreases to - i,
    {
        let ghost before = t@.subrange(from as int, i as int);
        let ghost now = t@.subrange(from as int, i + 1);
        assert(now.drop_last() =~= before);
        assert(now.last() == t@[i as int]);
        assert(m[i - from] == t@[i as int]);
        let c = t[i];
        if c == '.' {
            point = true;
            after = 0;
            assert(now.contains('.')) by {
                assert(now[i - from] == '.');
            }
        } else {
            assert(is_digit(c));
            digits.push(c);
            if point {
                after += 1;
            }
            proof {
                assert forall|j: int| 0 <= j < digits@.len() implies is_digit(#[trigger] digits@[j]) by {}
                if now.contains('.') {
                    let w = choose|w: int| 0 <= w < now.len() && now[w] == '.';
                    assert(w < now.len() - 1);
                    assert(before[w] == '.');
                } else {
                    assert(!before.contains('.')) by {
                        if before.contains('.') {
                            let w = choose|w: int| 0 <= w < before.len() && before[w] == '.';
                            assert(now[w] == '.');
                        }
                    }
                }
            }
        }
        i += 1;
    }
    (digits, after)
}

/// Whether the decimal number `t[from..to]` is one an `f32` holds as a finite number.
fn fits(t: &Vec<char>, from: usize, to: usize) -> (r: bool)
    requires
        from <= to <= t@.len(),
        is_decimal(t@.subrange(from as int, to as int)),
    ensures
        r == fits_f32(t@.subrange(from as int, to as int)),
{
    let ghost whole = t@.subrange(from as int, to as int);
    let start = if from < to && sign(t[from]) { from + 1 } else { from };
    let ghost u = t@.subrange(start as int, to as int);
    assert(u == if whole.len() > 0 && is_sign(whole[0]) { whole.skip(1) } else { whole });
    let mut k = start;
    while k < to && !mark(t[k])
        invariant
            start <= k <= to <= t@.len(),
            forall|j: int| start <= j < k ==> !is_mark(#[trigger] t@[j]),
        decreases to - k,
    {
        k += 1;
    }
    proof {
        assert forall|j: int| 0 <= j < k - start implies !marks()(#[trigger] u[j]) by {
            assert(u[j] == t@[start + j]);
        }
        if k < to {
            assert(u[k - start] == t@[k as int]);
            lemma_first_where_at(u, marks(), k - start);
            assert(u.take(k - start) == t@.subrange(start as int, k as int));
            assert(u.skip(k - start) == t@.subrange(k as int, to as int));
        } else {
            lemma_first_where_none(u, marks());
            assert(u == t@.subrange(start as int, k as int));
        }
    }
    let (digits, after) = mantissa_parts(t, start, k);
    // The exponent, no more than 2^70: far past any count of digits a text can hold.
    let cap: u128 = 0x40_0000_0000_0000_0000;
    let mut negative = false;
    let mut e: u128 = 0;
    let ghost mut big: int = 0;
    if k < to {
        let ghost ex = t@.subrange(k as int, to as int);
        let digits_from = if sign(t[k + 1]) { k + 2 } else { k + 1 };
        negative = t[k + 1] == '-';
        assert(ex[1] == t@[k + 1]);
        assert(ex.skip(digits_from - k) =~= t@.subrange(digits_from as int, to as int));
        e = capped_value(t, digits_from, to, cap);
        proof {
            big = value(t@.subrange(digits_from as int, to as int)) as int;
            assert(exponent_value(ex) == if negative { -big } else { big });
        }
    }
    assert(e == capped(big as nat, cap as nat));
    let r = scaled_fits(&digits, after, negative, e, Ghost(big));
    proof {
        reveal(fits_f32);
        assert(number_parts(whole) == (t@.subrange(start as int, k as int), (if negative { -big } else { big }) - after));
    }
    r
}

/// `n` times ten to the `s`, no more than the `f32` limit, from `n` no more than it.
fn times_ten_capped(x: u128, s: u128, Ghost(n): Ghost<nat>) -> (y: u128)
    requires
        x == capped(n, f32_overflow()),
    ensures
        y == capped(n * pow10(s as nat), f32_overflow()),
{
    let top: u128 = 340282356779733661637539395458142568448;
    let mut y = x;
    let mut i: u128 = 0;
    assert(pow10(0) == 1);
    assert(n * pow10(0) == n);
    while i < s
        invariant
            i <= s,
            y == capped(n * pow10(i as nat), top as nat),
        decreases s - i,
    {
        let ghost a = n * pow10(i as nat);
        assert(n * pow10((i + 1) as nat) == 10 * a) by (nonlinear_arith)
            requires
                pow10((i + 1) as nat) == 10 * pow10(i as nat),
                a == n * pow10(i as nat),
        ;
        if y > top / 10 {
            assert(10 * a >= top) by (nonlinear_arith)
                requires
                    y > top / 10,
                    y == capped(a, top as nat),
            ;
            y = top;
        } else {
            assert(capped(10 * a, top as nat) == if 10 * y < top { 10 * y } else { top as int }) by (nonlinear_arith)
                requires
                    y <= top / 10,
                    y == capped(a, top as nat),
            ;
            y = if 10 * y < top { 10 * y } else { top };
        }
        i += 1;
    }
    y
}

/// The size test of `fits_f32`, for the digits `digits` scaled by ten to the exponent, `big`
/// below zero where `negative`, less `after`; `e` is `big` no more than 2^70.
/// Whether the digits `digits`, scaled up by ten to `ss`, stay below the `f32` limit; `s` is
/// `ss`, or both are 39 or more.
fn fits_up(digits: &Vec<char>, s: u128, Ghost(ss): Ghost<nat>) -> (r: bool)
    requires
        all_digits(digits@),
        s == ss || (s >= 39 && ss >= 39),
    ensures
        r == (value(digits@) * pow10(ss) < f32_overflow()),
{
    let n_d = digits.len();
    let top: u128 = 340282356779733661637539395458142568448;
    let x = capped_value(&digits, 0, n_d, top);
    assert(digits@.subrange(0, n_d as int) =~= digits@);
    let ghost n = value(digits@);
    if x == 0 {
        assert(n == 0);
        assert(n * pow10(ss) == 0) by (nonlinear_arith)
            requires
                n == 0,
        ;
        return true;
    }
    if s >= 39 {
        proof {
            lemma_pow10(39, ss);
            assert(pow10(39) == 1000000000000000000000000000000000000000) by {
                reveal_with_fuel(pow10, 40);
            }
            assert(n * pow10(ss) >= pow10(ss)) by (nonlinear_arith)
                requires
                    n >= 1,
            ;
        }
        return false;
    }
    let y = times_ten_capped(x, s, Ghost(n));
    y < top
}

/// Whether the digits `digits`, scaled down by ten to `jj`, stay below the `f32` limit; `j` is
/// `jj`, or both are at least the count of digits.
fn fits_down(digits: &Vec<char>, j: u128, Ghost(jj): Ghost<nat>) -> (r: bool)
    requires
        all_digits(digits@),
        j == jj || (j >= digits@.len() && jj >= digits@.len()),
    ensures
        r == (value(digits@) < f32_overflow() * pow10(jj)),
{
    let n_d = digits.len();
    let top: u128 = 340282356779733661637539395458142568448;
    proof {
        lemma_value_split(digits@, 0);
    }
    let ghost n = value(digits@);
    if j >= n_d as u128 {
        proof {
            lemma_pow10(n_d as nat, jj);
            assert(n < f32_overflow() * pow10(jj)) by (nonlinear_arith)
                requires
                    n < pow10(n_d as nat),
                    pow10(n_d as nat) <= pow10(jj),
            ;
        }
        return true;
    }
    let keep = n_d - j as usize;
    let q = capped_value(&digits, 0, keep, top);
    proof {
        lemma_value_split(digits@, keep as int);
        assert(digits@.subrange(0, keep as int) =~= digits@.take(keep as int));
        let pp = pow10(jj);
        let qv = value(digits@.take(keep as int));
        let rv = value(digits@.skip(keep as int));
        assert((n < f32_overflow() * pp) == (qv < f32_overflow())) by (nonlinear_arith)
            requires
                n == qv * pp + rv,
                rv < pp,
        ;
    }
    q < top
}

/// The size test of `fits_f32`, for the digits `digits` scaled by ten to the exponent, `big`
/// below zero where `negative`, less `after`; `e` is `big` no more than 2^70.
fn scaled_fits(digits: &Vec<char>, after: usize, negative: bool, e: u128, Ghost(big): Ghost<int>) -> (r: bool)
    requires
        all_digits(digits@),
        after <= digits@.len(),
        big >= 0,
        e == capped(big as nat, 0x40_0000_0000_0000_0000),
    ensures
        ({
            let n = value(digits@);
            let s = (if negative { -big } else { big }) - after;
            r == if s >= 0 {
                n * pow10(s as nat) < f32_overflow()
            } else {
                n < f32_overflow() * pow10((-s) as nat)
            }
        }),
{
    let ghost sc: int = (if negative { -big } else { big }) - after;
    assert(digits@.len() == digits.len());
    if !negative && e >= after as u128 {
        fits_up(digits, e - after as u128, Ghost(sc as nat))
    } else {
        let j: u128 = if negative { after as u128 + e } else { after as u128 - e };
        let r = fits_down(digits, j, Ghost((-sc) as nat));
        proof {
            if sc >= 0 {
                assert(sc == 0);
                assert(pow10(0) == 1);
                let n = value(digits@);
                let p0 = pow10(0);
                assert(n * p0 == n && f32_overflow() * p0 == f32_overflow()) by (nonlinear_arith)
                    requires
                        p0 == 1,
                ;
            }
        }
        r
    }
}

/// A ratio as written holds no bracket.
pub proof fn lemma_number_has_no_bracket(r: Seq<char>)
    requires
        is_number(r),
    ensures
        forall|i: int| 0 <= i < r.len() ==> #[trigger] r[i] != '(' && r[i] != ',' && r[i] != ')',
{
    let u = if r.len() > 0 && is_sign(r[0]) { r.skip(1) } else { r };
    let off: int = if r.len() > 0 && is_sign(r[0]) { 1 } else { 0 };
    lemma_first_where(u, marks());
    assert forall|i: int| 0 <= i < r.len() implies #[trigger] r[i] != '(' && r[i] != ',' && r[i] != ')' by {
        if i >= off {
            let j = i - off;
            assert(u[j] == r[i]);
            match first_where(u, marks()) {
                Some(k) => {
                    if j < k {
                        assert(u.take(k)[j] == u[j]);
                    } else {
                        let e = u.skip(k);
                        assert(e[j - k] == u[j]);
                        if j - k >= 1 {
                            let d = if is_sign(e[1]) { e.skip(2) } else { e.skip(1) };
                            if !(j - k == 1 && is_sign(e[1])) {
                                let di = if is_sign(e[1]) { j - k - 2 } else { j - k - 1 };
                                assert(d[di] == e[j - k]);
                            }
                        }
                    }
                },
                None => {},
            }
        }
    }
}

/// A split's letter, ratio and brackets round two trees' texts are its text.
pub proof fn lemma_split_reads(u: Seq<char>, vertical: bool, ratio: Seq<char>, ta: Seq<char>, tb: Seq<char>, a: ShapeView, b: ShapeView, depth: nat)
    requires
        split_of(u, vertical, ratio, ta, tb),
        reads(ta, a, depth + 1),
        reads(tb, b, depth + 1),
        is_number(ratio),
        depth < MAX_WINDOWS,
    ensures
        reads(u, ShapeView::Split { vertical, ratio, a: Box::new(a), b: Box::new(b) }, depth),
{
    let open: int = 1 + ratio.len() as int;
    assert(u.skip(open + 1) =~= ta + (seq![','] + tb + seq![')']));
    lemma_text_end(ta, seq![','] + tb + seq![')'], a, depth + 1);
    let ka = open + 1 + ta.len();
    assert(u.subrange(open + 1, ka) =~= ta);
    assert(u.subrange(ka + 1, u.len() - 1) =~= tb);
}

/// What a split's text is made of, where it stands in `t` from `pos`.
proof fn split_parts(t: Seq<char>, pos: int, depth: nat, sv: ShapeView, k: int) -> (r: (Seq<char>, Seq<char>))
    requires
        0 <= pos <= k <= t.len(),
        reads(t.subrange(pos, k), sv, depth),
        sv is Split,
    ensures
        ({
            let ratio = sv->ratio;
            let open: int = pos + 1 + ratio.len();
            let ka = open + 1 + r.0.len();
            let kb = ka + 1 + r.1.len();
            &&& pos < k
            &&& depth < MAX_WINDOWS
            &&& is_number(ratio)
            &&& t[pos] == letter(sv->vertical)
            &&& open < k
            &&& t[open] == '('
            &&& forall|i: int| pos + 1 <= i < open ==> #[trigger] t[i] != '('
            &&& t.subrange(pos + 1, open) == ratio
            &&& ka < k
            &&& t.subrange(open + 1, ka) == r.0
            &&& t[ka] == ','
            &&& reads(r.0, *sv->a, depth + 1)
            &&& kb == k - 1
            &&& t.subrange(ka + 1, kb) == r.1
            &&& t[kb] == ')'
            &&& reads(r.1, *sv->b, depth + 1)
        }),
{
    let u = t.subrange(pos, k);
    match sv {
        ShapeView::Split { vertical, ratio, a, b } => {
            let open0: int = 1 + ratio.len() as int;
            let ka0 = open0 + 1 + text_end(u.skip(open0 + 1), *a);
            let ta = u.subrange(open0 + 1, ka0);
            let tb = u.subrange(ka0 + 1, u.len() - 1);
            lemma_number_has_no_bracket(ratio);
            let open: int = pos + 1 + ratio.len();
            let ka = open + 1 + ta.len();
            let kb = ka + 1 + tb.len();
            assert(u.len() == 4 + ratio.len() + ta.len() + tb.len());
            assert(t[pos] == u[0]);
            assert(t[open] == u[open - pos]);
            assert forall|i: int| pos + 1 <= i < open implies #[trigger] t[i] != '(' by {
                assert(t[i] == u[i - pos]);
                assert(u[i - pos] == ratio[i - pos - 1]);
            }
            assert(t.subrange(pos + 1, open) =~= ratio) by {
                assert forall|i: int| 0 <= i < ratio.len() implies t.subrange(pos + 1, open)[i] == ratio[i] by {
                    assert(t[pos + 1 + i] == u[1 + i]);
                }
            }
            assert(t.subrange(open + 1, ka) =~= ta) by {
                assert forall|i: int| 0 <= i < ta.len() implies t.subrange(open + 1, ka)[i] == ta[i] by {
                    assert(t[open + 1 + i] == u[open + 1 + i - pos]);
                }
            }
            assert(t[ka] == u[ka - pos]);
            assert(t.subrange(ka + 1, kb) =~= tb) by {
                assert forall|i: int| 0 <= i < tb.len() implies t.subrange(ka + 1, kb)[i] == tb[i] by {
                    assert(t[ka + 1 + i] == u[ka + 1 + i - pos]);
                }
            }
            assert(t[kb] == u[kb - pos]);
            (ta, tb)
        },
        ShapeView::Leaf(_) => (Seq::empty(), Seq::empty()),
    }
}

/// A reading of a leaf is its digits; a reading starting with a letter is a split.
proof fn reading_starts(t: Seq<char>, pos: int, depth: nat, sv: ShapeView, k: int)
    requires
        0 <= pos <= k <= t.len(),
        reads(t.subrange(pos, k), sv, depth),
    ensures
        pos < k,
        sv is Leaf ==> is_digit(t[pos]) && all_digits(t.subrange(pos, k)),
        sv is Split ==> t[pos] == letter(sv->vertical),
{
    let u = t.subrange(pos, k);
    match sv {
        ShapeView::Leaf(_) => {
            assert(u[0] == t[pos]);
        },
        ShapeView::Split { .. } => {
            let (ta, tb) = split_parts(t, pos, depth, sv, k);
        },
    }
}

/// One tree off the front of `t` from `pos`, `depth` splits down, and where what follows it
/// starts. `None` for anything malformed, and for a tree no record could hold: deeper than
/// `MAX_WINDOWS` or with a slot past it.
#[verifier::spinoff_prover]
fn take(t: &Vec<char>, pos: usize, depth: usize) -> (r: Option<(Shape, usize)>)
    requires
        pos <= t@.len(),
        depth <= MAX_WINDOWS,
    ensures
        r matches Some((s, k)) ==> pos < k <= t@.len() && reads(t@.subrange(pos as int, k as int), s@, depth as nat),
        forall|sv: ShapeView, k: int|
            pos <= k <= t@.len() && #[trigger] reads(t@.subrange(pos as int, k), sv, depth as nat)
            && (k == t@.len() || !is_digit(t@[k])) ==> (r matches Some((s, k2)) && s@ == sv && k2 == k),
    decreases t@.len() - pos,
{
    if pos >= t.len() {
        proof {
            assert forall|sv: ShapeView, k: int|
                pos <= k <= t@.len() && #[trigger] reads(t@.subrange(pos as int, k), sv, depth as nat) implies false by {
                reading_starts(t@, pos as int, depth as nat, sv, k);
            }
        }
        return None;
    }
    let first = t[pos];
    if first != 'v' && first != 'h' {
        // A leaf: the digits up to the first thing that isn't one.
        let mut end = pos;
        let mut slot: usize = 0;
        while end < t.len() && digit(t[end])
            invariant
                pos <= end <= t@.len(),
                all_digits(t@.subrange(pos as int, end as int)),
                slot == if value(t@.subrange(pos as int, end as int)) < MAX_WINDOWS {
                    value(t@.subrange(pos as int, end as int))
                } else {
                    MAX_WINDOWS as nat
                },
            decreases t@.len() - end,
        {
            let ghost before = t@.subrange(pos as int, end as int);
            let d = (t[end] as u32 - '0' as u32) as usize;
            assert(t@.subrange(pos as int, end + 1).drop_last() == before);
            assert(t@.subrange(pos as int, end + 1).last() == t@[end as int]);
            slot = if slot >= MAX_WINDOWS || slot * 10 + d >= MAX_WINDOWS { MAX_WINDOWS } else { slot * 10 + d };
            end += 1;
        }
        proof {
            assert forall|sv: ShapeView, k: int|
                pos <= k <= t@.len() && #[trigger] reads(t@.subrange(pos as int, k), sv, depth as nat)
                && (k == t@.len() || !is_digit(t@[k])) implies sv is Leaf && k == end && sv->0 == slot by {
                reading_starts(t@, pos as int, depth as nat, sv, k);
                if sv is Split {
                    assert(first == letter(sv->vertical));
                }
                if end < k {
                    assert(t@.subrange(pos as int, k)[end - pos] == t@[end as int]);
                } else if k < end {
                    assert(t@.subrange(pos as int, end as int)[k - pos] == t@[k]);
                }
            }
        }
        if end == pos || slot >= MAX_WINDOWS {
            return None;
        }
        return Some((Shape::Leaf(slot), end));
    }
    let vertical = first == 'v';
    if depth >= MAX_WINDOWS {
        proof {
            assert forall|sv: ShapeView, k: int|
                pos <= k <= t@.len() && #[trigger] reads(t@.subrange(pos as int, k), sv, depth as nat) implies false by {
                reading_starts(t@, pos as int, depth as nat, sv, k);
                if sv is Split {
                    let parts = split_parts(t@, pos as int, depth as nat, sv, k);
                }
            }
        }
        return None;
    }
    // The ratio runs up to the first bracket.
    let mut open = pos + 1;
    while open < t.len() && t[open] != '('
        invariant
            pos + 1 <= open <= t@.len(),
            forall|i: int| pos + 1 <= i < open ==> #[trigger] t@[i] != '(',
        decreases t@.len() - open,
    {
        open += 1;
    }
    let is_ratio = open < t.len() && number(t, pos + 1, open);
    proof {
        assert forall|sv: ShapeView, k: int|
            pos <= k <= t@.len() && #[trigger] reads(t@.subrange(pos as int, k), sv, depth as nat)
            implies sv is Split && is_ratio && open == pos + 1 + (sv->ratio).len() && sv->vertical == vertical by {
            reading_starts(t@, pos as int, depth as nat, sv, k);
            if sv is Leaf {
                assert(is_digit(first));
            }
            let parts = split_parts(t@, pos as int, depth as nat, sv, k);
            let at = pos + 1 + (sv->ratio).len();
            if open < at {
                assert(t@[open as int] != '(');
            } else if open > at {
                assert(t@[at] != '(');
            }
        }
    }
    if !is_ratio {
        return None;
    }
    let first_tree = take(t, open + 1, depth + 1);
    let (a, ka) = match first_tree {
        Some(found) => found,
        None => {
            proof {
                assert forall|sv: ShapeView, k: int|
                    pos <= k <= t@.len() && #[trigger] reads(t@.subrange(pos as int, k), sv, depth as nat) implies false by {
                    let parts = split_parts(t@, pos as int, depth as nat, sv, k);
                    let ka = open + 1 + parts.0.len();
                    assert(reads(t@.subrange((open + 1) as int, ka), *sv->a, (depth + 1) as nat));
                }
            }
            return None;
        },
    };
    if ka >= t.len() || t[ka] != ',' {
        proof {
            assert forall|sv: ShapeView, k: int|
                pos <= k <= t@.len() && #[trigger] reads(t@.subrange(pos as int, k), sv, depth as nat) implies false by {
                let parts = split_parts(t@, pos as int, depth as nat, sv, k);
                let ka2 = open + 1 + parts.0.len();
                assert(reads(t@.subrange((open + 1) as int, ka2), *sv->a, (depth + 1) as nat));
            }
        }
        return None;
    }
    let second_tree = take(t, ka + 1, depth + 1);
    let (b, kb) = match second_tree {
        Some(found) => found,
        None => {
            proof {
                assert forall|sv: ShapeView, k: int|
                    pos <= k <= t@.len() && #[trigger] reads(t@.subrange(pos as int, k), sv, depth as nat) implies false by {
                    let parts = split_parts(t@, pos as int, depth as nat, sv, k);
                    let ka2 = open + 1 + parts.0.len();
                    assert(reads(t@.subrange((open + 1) as int, ka2), *sv->a, (depth + 1) as nat));
                    let kb2 = ka2 + 1 + parts.1.len();
                    assert(reads(t@.subrange((ka + 1) as int, kb2), *sv->b, (depth + 1) as nat));
                }
            }
            return None;
        },
    };
    if kb >= t.len() || t[kb] != ')' {
        proof {
            assert forall|sv: ShapeView, k: int|
                pos <= k <= t@.len() && #[trigger] reads(t@.subrange(pos as int, k), sv, depth as nat) implies false by {
                let parts = split_parts(t@, pos as int, depth as nat, sv, k);
                let ka2 = open + 1 + parts.0.len();
                assert(reads(t@.subrange((open + 1) as int, ka2), *sv->a, (depth + 1) as nat));
                let kb2 = ka2 + 1 + parts.1.len();
                assert(reads(t@.subrange((ka + 1) as int, kb2), *sv->b, (depth + 1) as nat));
            }
        }
        return None;
    }
    let ratio = string_between(t, pos + 1, open);
    let ghost av = a@;
    let ghost bv = b@;
    let ghost rv = ratio@;
    let shape = Shape::Split { vertical, ratio, a: Box::new(a), b: Box::new(b) };
    assert(shape@ == ShapeView::Split { vertical, ratio: rv, a: Box::new(av), b: Box::new(bv) });
    proof {
        let u = t@.subrange(pos as int, kb + 1);
        let ta = t@.subrange(open + 1, ka as int);
        let tb = t@.subrange(ka + 1, kb as int);
        assert(u =~= seq![letter(vertical)] + rv + seq!['('] + ta + seq![','] + tb + seq![')']);
        assert(reads(ta, av, (depth + 1) as nat));
        assert(reads(tb, bv, (depth + 1) as nat));
        assert(is_number(rv));
        lemma_split_reads(u, vertical, rv, ta, tb, av, bv, depth as nat);
        assert forall|sv: ShapeView, k: int|
            pos <= k <= t@.len() && #[trigger] reads(t@.subrange(pos as int, k), sv, depth as nat)
            implies sv == shape@ && k == kb + 1 by {
            let parts = split_parts(t@, pos as int, depth as nat, sv, k);
            let ka2 = open + 1 + parts.0.len();
            assert(reads(t@.subrange((open + 1) as int, ka2), *sv->a, (depth + 1) as nat));
            let kb2 = ka2 + 1 + parts.1.len();
            assert(reads(t@.subrange((ka + 1) as int, kb2), *sv->b, (depth + 1) as nat));
        }
    }
    Some((shape, kb + 1))
}


/// A tree a record can hold reads back from its own text.
pub proof fn lemma_written_reads(s: ShapeView, depth: nat)
    requires
        holdable(s, depth),
    ensures
        reads(written(s), s, depth),
        written(s).len() > 0,
        is_digit(written(s)[0]) || written(s)[0] == 'v' || written(s)[0] == 'h',
        is_digit(written(s).last()) || written(s).last() == ')',
    decreases s,
{
    match s {
        ShapeView::Leaf(slot) => {
            lemma_decimal(slot as nat);
        },
        ShapeView::Split { vertical, ratio, a, b } => {
            lemma_written_reads(*a, depth + 1);
            lemma_written_reads(*b, depth + 1);
            lemma_split_reads(written(s), vertical, ratio, written(*a), written(*b), *a, *b, depth);
        },
    }
}

/// A tree a record can hold survives the round trip: its text, read back, is the tree again,
/// and only it (`decode` finds every tree a text reads as).
pub proof fn law_a_tree_survives_the_round_trip(s: ShapeView)
    requires
        holdable(s, 0),
    ensures
        reads(trim(written(s)), s, 0),
{
    lemma_written_reads(s, 0);
    let t = written(s);
    assert(!is_space(t[0]));
    assert(trim_start(t) == t);
    assert(!is_space(t.last()));
    assert(trim_end(t) == t);
}

/// Whatever a text reads as is a tree a record can hold: no deeper than `MAX_WINDOWS`, no slot
/// past it.
pub proof fn law_only_holdable_trees_are_read(t: Seq<char>, s: ShapeView, depth: nat)
    requires
        reads(t, s, depth),
    ensures
        holdable(s, depth),
    decreases s,
{
    match s {
        ShapeView::Leaf(_) => {},
        ShapeView::Split { vertical, ratio, a, b } => {
            let open: int = 1 + ratio.len() as int;
            let ka = open + 1 + text_end(t.skip(open + 1), *a);
            law_only_holdable_trees_are_read(t.subrange(open + 1, ka), *a, depth + 1);
            law_only_holdable_trees_are_read(t.subrange(ka + 1, t.len() - 1), *b, depth + 1);
        },
    }
}


/// One window: which app, and where it was.
#[derive(Debug, Clone, PartialEq)]
pub struct Win {
    /// The `app_id`, lower-cased. Matched to a `.desktop` entry when the layout is put back;
    /// never run as a command, because any client can set any `app_id`.
    pub app: String,
    /// Its workspace's number counting from 1, or absent for a window in the code rain, which
    /// belongs to no workspace.
    pub workspace: Option<usize>,
    /// Its place among that workspace's windows, or among the rain's: what `tiles` refers to.
    pub slot: usize,
    pub focused: bool,
    pub in_rain: bool,
    /// "centre", "orbit" or "distant", when gravity was on for its workspace.
    pub gravity: Option<String>,
    pub pinned: bool,
}

/// One workspace's tiling tree, as the one-line grammar.
#[derive(Debug, Clone, PartialEq)]
pub struct Tiling {
    /// Its number when it was written, counting from 1.
    pub index: usize,
    /// Its name, if it had one: a named workspace is found again by name.
    pub name: String,
    pub tiles: String,
}

/// A whole desktop, as it was.
#[derive(Debug, Clone, PartialEq)]
pub struct Record {
    pub version: u32,
    /// UTC, so a file that moves between machines still sorts.
    pub saved_at: String,
    /// The workspace that was in front, counting from 1.
    pub active_workspace: usize,
    pub windows: Vec<Win>,
    pub workspaces: Vec<Tiling>,
}

/// A window as the rules see it.
pub struct WinView {
    pub app: Seq<char>,
    pub workspace: Option<usize>,
    pub slot: usize,
    pub focused: bool,
    pub in_rain: bool,
    pub gravity: Option<Seq<char>>,
    pub pinned: bool,
}

pub open spec fn text_view(o: Option<String>) -> Option<Seq<char>> {
    match o {
        Some(s) => Some(s@),
        None => None,
    }
}

impl View for Win {
    type V = WinView;

    open spec fn view(&self) -> WinView {
        WinView {
            app: self.app@,
            workspace: self.workspace,
            slot: self.slot,
            focused: self.focused,
            in_rain: self.in_rain,
            gravity: text_view(self.gravity),
            pinned: self.pinned,
        }
    }
}

impl View for Tiling {
    type V = (usize, Seq<char>, Seq<char>);

    open spec fn view(&self) -> (usize, Seq<char>, Seq<char>) {
        (self.index, self.name@, self.tiles@)
    }
}

impl Default for Win {
    fn default() -> (r: Self)
        ensures
            r@ == (WinView {
                app: Seq::empty(),
                workspace: None,
                slot: 0,
                focused: false,
                in_rain: false,
                gravity: None,
                pinned: false,
            }),
    {
        Win {
            app: String::new(),
            workspace: None,
            slot: 0,
            focused: false,
            in_rain: false,
            gravity: None,
            pinned: false,
        }
    }
}

impl Default for Tiling {
    fn default() -> (r: Self)
        ensures
            r@ == (0usize, Seq::<char>::empty(), Seq::<char>::empty()),
    {
        Tiling { index: 0, name: String::new(), tiles: String::new() }
    }
}

impl Default for Record {
    fn default() -> (r: Self)
        ensures
            r.version == 0,
            r.saved_at@ == Seq::<char>::empty(),
            r.active_workspace == 0,
            r.windows@.len() == 0,
            r.workspaces@.len() == 0,
    {
        Record {
            version: 0,
            saved_at: String::new(),
            active_workspace: 0,
            windows: Vec::new(),
            workspaces: Vec::new(),
        }
    }
}

/// Whether a flag is off: such a flag is left out of the file.
pub fn is_false(b: &bool) -> (r: bool)
    ensures
        r == !*b,
{
    !*b
}

/// Two names, or their absence, are the same.
fn same_text(a: &Option<String>, b: &Option<String>) -> (r: bool)
    ensures
        r == (text_view(*a) == text_view(*b)),
{
    match (a, b) {
        (Some(x), Some(y)) => *x == *y,
        (None, None) => true,
        _ => false,
    }
}

fn same_win(a: &Win, b: &Win) -> (r: bool)
    ensures
        r == (a@ == b@),
{
    a.app == b.app && a.workspace == b.workspace && a.slot == b.slot && a.focused == b.focused
        && a.in_rain == b.in_rain && same_text(&a.gravity, &b.gravity) && a.pinned == b.pinned
}

fn same_tiling(a: &Tiling, b: &Tiling) -> (r: bool)
    ensures
        r == (a@ == b@),
{
    a.index == b.index && a.name == b.name && a.tiles == b.tiles
}

/// The windows as the rules see them.
pub open spec fn wins_view(w: Seq<Win>) -> Seq<WinView> {
    w.map_values(|x: Win| x@)
}

pub open spec fn tilings_view(t: Seq<Tiling>) -> Seq<(usize, Seq<char>, Seq<char>)> {
    t.map_values(|x: Tiling| x@)
}

impl Record {
    /// A record taken `secs` seconds after the epoch, with `windows` and `workspaces` filled in
    /// by the caller; past `MAX_WINDOWS` windows the rest are left out.
    pub fn at(secs: i64, active_workspace: usize, windows: Vec<Win>, workspaces: Vec<Tiling>) -> (r: Self)
        ensures
            r.version == VERSION,
            r.saved_at@ == stamp_text(secs as int),
            r.active_workspace == active_workspace,
            r.windows@ == if windows@.len() <= MAX_WINDOWS { windows@ } else { windows@.take(MAX_WINDOWS as int) },
            r.workspaces@ == workspaces@,
    {
        let mut windows = windows;
        windows.truncate(MAX_WINDOWS);
        Record {
            version: VERSION,
            saved_at: stamp(secs),
            active_workspace,
            windows,
            workspaces,
        }
    }

    /// A record of this moment, with `windows` and `workspaces` filled in by the caller.
    pub fn new(active_workspace: usize, windows: Vec<Win>, workspaces: Vec<Tiling>) -> (r: Self)
        ensures
            r.version == VERSION,
            exists|secs: int| r.saved_at@ == stamp_text(secs),
            r.active_workspace == active_workspace,
            r.windows@ == if windows@.len() <= MAX_WINDOWS { windows@ } else { windows@.take(MAX_WINDOWS as int) },
            r.workspaces@ == workspaces@,
    {
        let secs = seconds_now();
        Record::at(secs, active_workspace, windows, workspaces)
    }

    /// Whether this file came from a Slipstream that knew something this one doesn't.
    pub fn is_too_new(&self) -> (r: bool)
        ensures
            r == (self.version > VERSION),
    {
        self.version > VERSION
    }

    /// The same desktop as `other`, the moment it was taken aside: everything but when.
    pub fn same_desktop(&self, other: &Record) -> (r: bool)
        ensures
            r == (self.version == other.version && self.active_workspace == other.active_workspace
                && wins_view(self.windows@) == wins_view(other.windows@)
                && tilings_view(self.workspaces@) == tilings_view(other.workspaces@)),
    {
        if self.version != other.version || self.active_workspace != other.active_workspace {
            return false;
        }
        if self.windows.len() != other.windows.len() || self.workspaces.len() != other.workspaces.len() {
            proof {
                assert(wins_view(self.windows@).len() == self.windows@.len());
                assert(tilings_view(self.workspaces@).len() == self.workspaces@.len());
            }
            return false;
        }
        let mut i: usize = 0;
        while i < self.windows.len()
            invariant
                i <= self.windows@.len(),
                self.windows@.len() == other.windows@.len(),
                forall|j: int| 0 <= j < i ==> self.windows@[j]@ == other.windows@[j]@,
            decreases self.windows@.len() - i,
        {
            if !same_win(&self.windows[i], &other.windows[i]) {
                assert(wins_view(self.windows@)[i as int] != wins_view(other.windows@)[i as int]);
                return false;
            }
            i += 1;
        }
        assert(wins_view(self.windows@) =~= wins_view(other.windows@));
        let mut k: usize = 0;
        while k < self.workspaces.len()
            invariant
                k <= self.workspaces@.len(),
                self.workspaces@.len() == other.workspaces@.len(),
                forall|j: int| 0 <= j < k ==> self.workspaces@[j]@ == other.workspaces@[j]@,
            decreases self.workspaces@.len() - k,
        {
            if !same_tiling(&self.workspaces[k], &other.workspaces[k]) {
                assert(tilings_view(self.workspaces@)[k as int] != tilings_view(other.workspaces@)[k as int]);
                return false;
            }
            k += 1;
        }
        assert(tilings_view(self.workspaces@) =~= tilings_view(other.workspaces@));
        true
    }
}

/// Whether a tiling's text reads as a tree.
pub open spec fn decodes(t: Seq<char>) -> bool {
    exists|s: ShapeView| reads(trim(t), s, 0)
}

pub open spec fn unreadable() -> spec_fn((usize, Seq<char>, Seq<char>)) -> bool {
    |t: (usize, Seq<char>, Seq<char>)| !decodes(t.2)
}

/// The number of the first workspace whose tiling can't be read, if any: a record with one is
/// unreadable as a whole, so nothing half-understood is offered.
pub fn unreadable_tiling(workspaces: &Vec<Tiling>) -> (r: Option<usize>)
    ensures
        match first_where(tilings_view(workspaces@), unreadable()) {
            Some(i) => r == Some(workspaces@[i].index),
            None => r is None,
        },
{
    let ghost v = tilings_view(workspaces@);
    let mut i: usize = 0;
    while i < workspaces.len()
        invariant
            i <= workspaces@.len(),
            v == tilings_view(workspaces@),
            forall|j: int| 0 <= j < i ==> !unreadable()(#[trigger] v[j]),
        decreases workspaces@.len() - i,
    {
        let tiles = workspaces[i].tiles.as_str();
        let shape = decode(tiles);
        assert(v[i as int] == workspaces@[i as int]@);
        if shape.is_none() {
            proof {
                lemma_first_where_at(v, unreadable(), i as int);
            }
            return Some(workspaces[i].index);
        }
        proof {
            let s = shape->0;
            assert(reads(trim(workspaces@[i as int].tiles@), s@, 0));
        }
        i += 1;
    }
    proof {
        lemma_first_where_none(v, unreadable());
    }
    None
}

/// The tiling tree as one line: `0` is a leaf, `v0.5(a,b)` a side-by-side split and `h0.5(a,b)`
/// a stacked one.
pub fn encode(shape: &Shape) -> (r: String)
    ensures
        r@ == written(shape@),
    decreases shape,
{
    match shape {
        Shape::Leaf(slot) => {
            let digits = decimal_chars(*slot);
            let mut r = String::new();
            push_all(&mut r, &digits);
            r
        },
        Shape::Split { vertical, ratio, a, b } => {
            let mut r = String::new();
            push_char(&mut r, if *vertical { 'v' } else { 'h' });
            r.append(ratio.as_str());
            push_char(&mut r, '(');
            let first = encode(a);
            r.append(first.as_str());
            push_char(&mut r, ',');
            let second = encode(b);
            r.append(second.as_str());
            push_char(&mut r, ')');
            assert(r@ =~= written(shape@));
            r
        },
    }
}

/// `encode` read back. `None` for anything malformed: a hand-edited or truncated file leaves the
/// desktop empty rather than half-built. So is a tree no record could hold, deeper than
/// `MAX_WINDOWS` or with a slot past it, or with a ratio too big for an `f32` to hold as a finite
/// number. White space around the line is no part of it.
pub fn decode(text: &str) -> (r: Option<Shape>)
    ensures
        r matches Some(s) ==> reads(trim(text@), s@, 0),
        r is None ==> forall|sv: ShapeView| !reads(trim(text@), sv, 0),
        forall|sv: ShapeView| #[trigger] reads(trim(text@), sv, 0) ==> (r matches Some(s) && s@ == sv),
{
    let chars = chars_of(text);
    let (lo, hi) = trim_bounds(&chars, 0, chars.len());
    assert(chars@.subrange(0, chars@.len() as int) == chars@);
    let t = chars_between(&chars, lo, hi);
    assert(t@.subrange(0, t@.len() as int) == t@);
    match take(&t, 0, 0) {
        Some((s, k)) => {
            if k == t.len() {
                Some(s)
            } else {
                proof {
                    assert forall|sv: ShapeView| #[trigger] reads(trim(text@), sv, 0) implies false by {
                        assert(reads(t@.subrange(0, t@.len() as int), sv, 0));
                    }
                }
                None
            }
        },
        None => {
            proof {
                assert forall|sv: ShapeView| #[trigger] reads(trim(text@), sv, 0) implies false by {
                    assert(reads(t@.subrange(0, t@.len() as int), sv, 0));
                }
            }
            None
        },
    }
}

} // verus!
