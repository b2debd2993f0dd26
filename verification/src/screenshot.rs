//! Screenshots: what the file is called, which folder it goes in, and the part of the screen's
//! picture that is kept.

use vstd::prelude::*;
use crate::layout::Rect;
use crate::text::{
    begins_with, chars_between, chars_of, decimal, decimal_chars, is_digit, lemma_decimal, first_some, lemma_first_some_add, lemma_line_end,
    lemma_lines_step, line_between, lines_from, lines_of, next_line_end, padded,
    push_all, push_char, push_padded, starts_with, string_of, trim, trim_bounds,
};

verus! {

/// `Screenshot_YYYY-MM-DD_HH-MM-SS.png` for a local date and time.
pub open spec fn dated_name(parts: Seq<i32>) -> Seq<char> {
    seq!['S', 'c', 'r', 'e', 'e', 'n', 's', 'h', 'o', 't', '_'] + padded(parts[0] as int, 4)
        + seq!['-'] + padded(parts[1] as int, 2) + seq!['-'] + padded(parts[2] as int, 2)
        + seq!['_'] + padded(parts[3] as int, 2) + seq!['-'] + padded(parts[4] as int, 2)
        + seq!['-'] + padded(parts[5] as int, 2) + seq!['.', 'p', 'n', 'g']
}

/// `Screenshot_YYYY-MM-DD_HH-MM-SS.png`, from a local date and time: year, month, day, hour,
/// minute and second.
pub fn file_name(parts: [i32; 6]) -> (r: String)
    ensures
        r@ == dated_name(parts@),
{
    let mut r = String::new();
    push_all(&mut r, &vec!['S', 'c', 'r', 'e', 'e', 'n', 's', 'h', 'o', 't', '_']);
    push_padded(&mut r, parts[0] as i64, 4);
    push_char(&mut r, '-');
    push_padded(&mut r, parts[1] as i64, 2);
    push_char(&mut r, '-');
    push_padded(&mut r, parts[2] as i64, 2);
    push_char(&mut r, '_');
    push_padded(&mut r, parts[3] as i64, 2);
    push_char(&mut r, '-');
    push_padded(&mut r, parts[4] as i64, 2);
    push_char(&mut r, '-');
    push_padded(&mut r, parts[5] as i64, 2);
    push_all(&mut r, &vec!['.', 'p', 'n', 'g']);
    assert(r@ =~= dated_name(parts@));
    r
}

/// The path `rest` names from the folder `base`, as `Path::join` builds it.
pub uninterp spec fn joined(base: Seq<char>, rest: Seq<char>) -> Seq<char>;

/// Whether two paths name the same place, as `Path`'s `==` compares them.
pub uninterp spec fn same_place(a: Seq<char>, b: Seq<char>) -> bool;

/// `Path::join`: the path `rest` names from `base`, as text. As its documentation has it on a
/// Unix system, an absolute `rest` replaces `base`, and a relative one extends it, after a `/`
/// where `base` does not end in one and straight after it where it does; text joined from text loses nothing in `to_string_lossy`.
/// What it gives for an empty `base` or `rest` is left unsaid.
#[verifier::external_body]
fn join(base: &str, rest: &str) -> (r: String)
    ensures
        r@ == joined(base@, rest@),
        rest@.len() > 0 && rest@[0] == '/' ==> r@ == rest@,
        rest@.len() > 0 && rest@[0] != '/' && base@.len() > 0 && base@.last() != '/' ==> r@ == base@ + seq!['/'] + rest@,
        rest@.len() > 0 && rest@[0] != '/' && base@.len() > 0 && base@.last() == '/' ==> r@ == base@ + rest@,
{
    std::path::Path::new(base).join(rest).to_string_lossy().into_owned()
}

/// `Path`'s `==`: whether two paths name the same place, component by component.
#[verifier::external_body]
pub(crate) fn same_path(a: &str, b: &str) -> (r: bool)
    ensures
        r == same_place(a@, b@),
{
    std::path::Path::new(a) == std::path::Path::new(b)
}

pub open spec fn pictures_key() -> Seq<char> {
    seq!['X', 'D', 'G', '_', 'P', 'I', 'C', 'T', 'U', 'R', 'E', 'S', '_', 'D', 'I', 'R', '=']
}

pub open spec fn home_mark() -> Seq<char> {
    seq!['$', 'H', 'O', 'M', 'E']
}

/// `t` without the `c`s at its start.
pub open spec fn trim_start_of(t: Seq<char>, c: char) -> Seq<char>
    decreases t.len(),
{
    if t.len() > 0 && t[0] == c {
        trim_start_of(t.drop_first(), c)
    } else {
        t
    }
}

/// `t` without the `c`s at its end.
pub open spec fn trim_end_of(t: Seq<char>, c: char) -> Seq<char>
    decreases t.len(),
{
    if t.len() > 0 && t.last() == c {
        trim_end_of(t.drop_last(), c)
    } else {
        t
    }
}

/// The value a line of `user-dirs.dirs` gives the pictures folder, quotes and white space
/// taken off, if the line is that folder's.
pub open spec fn pictures_value(line: Seq<char>) -> Option<Seq<char>> {
    let t = trim(line);
    if starts_with(t, pictures_key()) {
        Some(trim_end_of(trim_start_of(trim(t.skip(pictures_key().len() as int)), '"'), '"'))
    } else {
        None
    }
}

/// The pictures folder a line of `user-dirs.dirs` names, if it names one: under the home folder
/// for `$HOME/…`, or an absolute path. Never the home folder itself, which would scatter
/// screenshots there.
pub open spec fn place_of(line: Seq<char>, home: Seq<char>) -> Option<Seq<char>> {
    match pictures_value(line) {
        Some(value) => {
            if starts_with(value, home_mark()) {
                let path = joined(home, trim_start_of(value.skip(5), '/'));
                if same_place(path, home) { None } else { Some(path) }
            } else if value.len() > 0 && value[0] == '/' {
                if same_place(value, home) { None } else { Some(value) }
            } else {
                None
            }
        },
        None => None,
    }
}

pub open spec fn placing(home: Seq<char>) -> spec_fn(Seq<char>) -> Option<Seq<char>> {
    |line: Seq<char>| place_of(line, home)
}

pub open spec fn pictures_word() -> Seq<char> {
    seq!['P', 'i', 'c', 't', 'u', 'r', 'e', 's']
}

pub open spec fn screenshots_word() -> Seq<char> {
    seq!['S', 'c', 'r', 'e', 'e', 'n', 's', 'h', 'o', 't', 's']
}

/// The pictures folder: the first that a line of `user_dirs` names, else `~/Pictures`.
pub open spec fn pictures_folder(user_dirs: Option<Seq<char>>, home: Seq<char>) -> Seq<char> {
    let named = match user_dirs {
        Some(text) => first_some(lines_of(text).map_values(placing(home))),
        None => None,
    };
    match named {
        Some(path) => path,
        None => joined(home, pictures_word()),
    }
}

/// Where `c`s stop at the start of `v[from..to]`.
fn skip_start_of(v: &Vec<char>, from: usize, to: usize, c: char) -> (r: usize)
    requires
        from <= to <= v@.len(),
    ensures
        from <= r <= to,
        v@.subrange(r as int, to as int) == trim_start_of(v@.subrange(from as int, to as int), c),
{
    let mut i = from;
    while i < to && v[i] == c
        invariant
            from <= i <= to <= v@.len(),
            trim_start_of(v@.subrange(from as int, to as int), c) == trim_start_of(
                v@.subrange(i as int, to as int),
                c,
            ),
        decreases to - i,
    {
        assert(v@.subrange(i as int, to as int).drop_first() =~= v@.subrange(i + 1, to as int));
        i += 1;
    }
    i
}

/// Where `c`s start at the end of `v[from..to]`.
fn skip_end_of(v: &Vec<char>, from: usize, to: usize, c: char) -> (r: usize)
    requires
        from <= to <= v@.len(),
    ensures
        from <= r <= to,
        v@.subrange(from as int, r as int) == trim_end_of(v@.subrange(from as int, to as int), c),
{
    let mut i = to;
    while i > from && v[i - 1] == c
        invariant
            from <= i <= to <= v@.len(),
            trim_end_of(v@.subrange(from as int, to as int), c) == trim_end_of(
                v@.subrange(from as int, i as int),
                c,
            ),
        decreases i,
    {
        assert(v@.subrange(from as int, i as int).drop_last() =~= v@.subrange(from as int, i - 1));
        i -= 1;
    }
    i
}

/// The pictures folder one line of `user-dirs.dirs` names, if it names one.
fn place_in(line: &Vec<char>, home: &str) -> (r: Option<String>)
    ensures
        match place_of(line@, home@) {
            Some(p) => r matches Some(s) && s@ == p,
            None => r is None,
        },
{
    let (lo, hi) = trim_bounds(line, 0, line.len());
    assert(line@.subrange(0, line@.len() as int) =~= line@);
    let t = chars_between(line, lo, hi);
    let key = vec!['X', 'D', 'G', '_', 'P', 'I', 'C', 'T', 'U', 'R', 'E', 'S', '_', 'D', 'I', 'R', '='];
    assert(key@ =~= pictures_key());
    assert(t@.skip(0) =~= t@);
    if !begins_with(&t, 0, &key) {
        return None;
    }
    let (a, b) = trim_bounds(&t, 17, t.len());
    assert(t@.subrange(17, t@.len() as int) =~= t@.skip(17));
    let a = skip_start_of(&t, a, b, '"');
    let b = skip_end_of(&t, a, b, '"');
    let value = chars_between(&t, a, b);
    assert(value@ == pictures_value(line@)->0);
    let mark = vec!['$', 'H', 'O', 'M', 'E'];
    assert(mark@ =~= home_mark());
    assert(value@.skip(0) =~= value@);
    if begins_with(&value, 0, &mark) {
        let from = skip_start_of(&value, 5, value.len(), '/');
        assert(value@.subrange(5, value@.len() as int) =~= value@.skip(5));
        let rest = string_of(&chars_between(&value, from, value.len()));
        let path = join(home, rest.as_str());
        if same_path(path.as_str(), home) {
            None
        } else {
            Some(path)
        }
    } else if value.len() > 0 && value[0] == '/' {
        let path = string_of(&value);
        if same_path(path.as_str(), home) {
            None
        } else {
            Some(path)
        }
    } else {
        None
    }
}

/// The Screenshots folder inside the pictures folder `user-dirs.dirs` names (`user_dirs`, the
/// file's text), or inside `~/Pictures` when it names none.
pub fn folder_in(user_dirs: Option<&str>, home: &str) -> (r: String)
    ensures
        r@ == joined(
            pictures_folder(
                match user_dirs {
                    Some(t) => Some(t@),
                    None => None,
                },
                home@,
            ),
            screenshots_word(),
        ),
        ({
            let folder = pictures_folder(
                match user_dirs {
                    Some(t) => Some(t@),
                    None => None,
                },
                home@,
            );
            folder.len() > 0 && folder.last() != '/' ==> r@ == folder + seq!['/'] + screenshots_word()
        }),
        user_dirs is None && home@.len() > 0 && home@.last() != '/' ==> r@ == home@ + seq!['/'] + pictures_word() + seq!['/']
            + screenshots_word(),
{
    let ghost f = placing(home@);
    let mut found: Option<String> = None;
    if let Some(text) = user_dirs {
        let v = chars_of(text);
        let mut from: usize = 0;
        assert(lines_of(v@) == lines_from(v@, 0));
        while from < v.len() && found.is_none()
            invariant
                from <= v@.len(),
                v@ == text@,
                f == placing(home@),
                match found {
                    Some(p) => first_some(lines_from(v@, 0).map_values(f)) == Some(p@),
                    None => first_some(lines_from(v@, 0).map_values(f)) == first_some(
                        lines_from(v@, from as int).map_values(f),
                    ),
                },
            decreases v@.len() - from,
        {
            let end = next_line_end(&v, from);
            proof {
                lemma_line_end(v@, from as int);
                lemma_lines_step(v@, from as int);
            }
            let line = line_between(&v, from, end);
            let ghost here = seq![line@];
            let ghost later = lines_from(v@, end + 1);
            let ghost one = here.map_values(f);
            proof {
                assert((here + later).map_values(f) =~= one + later.map_values(f));
                lemma_first_some_add(one, later.map_values(f));
                assert(here[0] == line@);
                assert(one[0] == place_of(line@, home@));
                assert(one.drop_first() =~= Seq::<Option<Seq<char>>>::empty());
                reveal_with_fuel(first_some, 2);
            }
            found = place_in(&line, home);
            proof {
                if end == v@.len() {
                    assert(later.map_values(f) =~= lines_from(v@, v@.len() as int).map_values(f));
                }
            }
            from = if end < v.len() { end + 1 } else { v.len() };
        }
        proof {
            if found is None {
                assert(lines_from(v@, from as int).map_values(f) =~= Seq::<Option<Seq<char>>>::empty());
            }
        }
    }
    let pictures = match found {
        Some(path) => path,
        None => join(home, "Pictures"),
    };
    proof {
        reveal_strlit("Pictures");
        reveal_strlit("Screenshots");
        assert("Pictures"@ =~= pictures_word());
        assert("Screenshots"@ =~= screenshots_word());
        if user_dirs is None && home@.len() > 0 && home@.last() != '/' {
            assert(pictures@ == home@ + seq!['/'] + pictures_word());
            assert(pictures@.last() == 's');
        }
    }
    join(pictures.as_str(), "Screenshots")
}

pub open spec fn png_suffix() -> Seq<char> {
    seq!['.', 'p', 'n', 'g']
}

/// `t` without the `.png`s at its end.
pub open spec fn stem_of(t: Seq<char>) -> Seq<char>
    decreases t.len(),
{
    if t.len() >= 4 && t.skip(t.len() - 4) == png_suffix() {
        stem_of(t.take(t.len() - 4))
    } else {
        t
    }
}

/// The name the `n`th try at saving a screenshot called `name` takes, counting from 1: the name
/// itself, then `stem_2.png`, `stem_3.png` and on, so that no earlier screenshot taken the same
/// second is written over.
pub open spec fn try_name(name: Seq<char>, n: nat) -> Seq<char> {
    if n == 1 {
        name
    } else {
        stem_of(name) + seq!['_'] + decimal(n) + png_suffix()
    }
}

/// The name the `n`th try at saving a screenshot called `name` takes, counting from 1.
pub fn numbered(name: &str, n: usize) -> (r: String)
    ensures
        r@ == try_name(name@, n as nat),
{
    let v = chars_of(name);
    if n == 1 {
        return string_of(&v);
    }
    let suffix = vec!['.', 'p', 'n', 'g'];
    assert(suffix@ =~= png_suffix());
    let mut end = v.len();
    assert(v@.take(end as int) =~= v@);
    while end >= 4 && begins_with(&v, end - 4, &suffix)
        invariant
            end <= v@.len(),
            stem_of(name@) == stem_of(v@.take(end as int)),
            v@ == name@,
            suffix@ == png_suffix(),
        decreases end,
    {
        let ghost t = v@.take(end as int);
        assert(v@.skip(end - 4).take(4) =~= t.skip(end - 4));
        assert(t.skip(t.len() - 4) == png_suffix());
        assert(stem_of(t) == stem_of(t.take(t.len() - 4)));
        assert(t.take(end - 4) =~= v@.take(end - 4));
        end -= 4;
    }
    proof {
        if end >= 4 {
            assert(v@.skip(end - 4).take(4) =~= v@.take(end as int).skip(end - 4));
        }
        assert(v@.take(end as int) =~= v@.subrange(0, end as int));
    }
    let mut r = string_of(&chars_between(&v, 0, end));
    push_char(&mut r, '_');
    push_all(&mut r, &decimal_chars(n));
    push_all(&mut r, &suffix);
    r
}

/// A picture's size in pixels.
#[derive(Debug, Clone, Copy, PartialEq, Eq)]
pub struct Size {
    pub w: i32,
    pub h: i32,
}

pub open spec fn clamp(v: int, lo: int, hi: int) -> int {
    if v < lo { lo } else if v > hi { hi } else { v }
}

/// `a + b`, held to what an `i32` holds.
pub open spec fn saturating_sum(a: int, b: int) -> int {
    clamp(a + b, i32::MIN as int, i32::MAX as int)
}

/// The columns and rows of a `size` picture that `crop` covers: left, top, right and bottom.
pub open spec fn crop_bounds(size: Size, crop: Rect) -> (int, int, int, int) {
    (
        clamp(crop.x as int, 0, size.w as int),
        clamp(crop.y as int, 0, size.h as int),
        clamp(saturating_sum(crop.x as int, crop.w as int), 0, size.w as int),
        clamp(saturating_sum(crop.y as int, crop.h as int), 0, size.h as int),
    )
}

/// Rows `top` up to `bottom` of an RGBA picture `width` pixels across, each from column `left`
/// up to `right`, one after the other.
pub open spec fn cut(pixels: Seq<u8>, width: int, left: int, right: int, top: int, bottom: int) -> Seq<u8>
    decreases bottom - top,
{
    if bottom <= top {
        Seq::empty()
    } else {
        cut(pixels, width, left, right, top, bottom - 1) + pixels.subrange(
            ((bottom - 1) * width + left) * 4,
            ((bottom - 1) * width + right) * 4,
        )
    }
}

/// The part of an RGBA picture `size` big inside `crop`, in its own pixels, clipped to the
/// picture, with its width and height. `None` if nothing of it is inside.
pub fn cropped(pixels: &[u8], size: Size, crop: Rect) -> (r: Option<(Vec<u8>, u32, u32)>)
    requires
        0 <= size.w,
        0 <= size.h,
        size.w * size.h * 4 <= pixels@.len(),
    ensures
        ({
            let (left, top, right, bottom) = crop_bounds(size, crop);
            if right <= left || bottom <= top {
                r is None
            } else {
                r matches Some((out, w, h)) && out@ == cut(pixels@, size.w as int, left, right, top, bottom)
                    && w == right - left && h == bottom - top
            }
        }),
{
    let ghost bounds = crop_bounds(size, crop);
    let x0 = clamp_to(crop.x, 0, size.w);
    let y0 = clamp_to(crop.y, 0, size.h);
    let x1 = clamp_to(saturating_add(crop.x, crop.w), 0, size.w);
    let y1 = clamp_to(saturating_add(crop.y, crop.h), 0, size.h);
    assert(x0 == bounds.0 && y0 == bounds.1 && x1 == bounds.2 && y1 == bounds.3);
    if x1 <= x0 || y1 <= y0 {
        return None;
    }
    let width = size.w as usize;
    let (x0, y0, x1, y1) = (x0 as usize, y0 as usize, x1 as usize, y1 as usize);
    let mut out: Vec<u8> = Vec::new();
    let mut row = y0;
    while row < y1
        invariant
            0 <= x0 < x1 <= width,
            y0 <= row <= y1 <= size.h,
            width == size.w,
            size.w * size.h * 4 <= pixels.len(),
            out@ == cut(pixels@, width as int, x0 as int, x1 as int, y0 as int, row as int),
        decreases y1 - row,
    {
        assert((row + 1) * width <= size.h * width) by (nonlinear_arith)
            requires
                row + 1 <= size.h,
                0 <= width,
        ;
        assert(size.h * width * 4 == size.w * size.h * 4) by (nonlinear_arith)
            requires
                width == size.w,
        ;
        assert((row + 1) * width == row * width + width) by (nonlinear_arith);
        assert(row * width + x1 <= size.h * width);
        assert((row * width + x1) * 4 <= pixels.len());
        let start = (row * width + x0) * 4;
        let stop = (row * width + x1) * 4;
        let mut k = start;
        while k < stop
            invariant
                start <= k <= stop <= pixels@.len(),
                out@ == cut(pixels@, width as int, x0 as int, x1 as int, y0 as int, row as int) + pixels@.subrange(
                    start as int,
                    k as int,
                ),
            decreases stop - k,
        {
            out.push(pixels[k]);
            assert(pixels@.subrange(start as int, k + 1) =~= pixels@.subrange(start as int, k as int).push(pixels@[k as int]));
            k += 1;
        }
        assert(cut(pixels@, width as int, x0 as int, x1 as int, y0 as int, row + 1) == cut(
            pixels@,
            width as int,
            x0 as int,
            x1 as int,
            y0 as int,
            row as int,
        ) + pixels@.subrange(start as int, stop as int));
        row += 1;
    }
    Some((out, (x1 - x0) as u32, (y1 - y0) as u32))
}

/// `a + b`, held to what an `i32` holds, as `i32::saturating_add` adds.
fn saturating_add(a: i32, b: i32) -> (r: i32)
    ensures
        r == saturating_sum(a as int, b as int),
{
    let sum = a as i64 + b as i64;
    if sum > i32::MAX as i64 {
        i32::MAX
    } else if sum < i32::MIN as i64 {
        i32::MIN
    } else {
        sum as i32
    }
}

/// `v` held between `lo` and `hi`.
fn clamp_to(v: i32, lo: i32, hi: i32) -> (r: i32)
    requires
        lo <= hi,
    ensures
        r == clamp(v as int, lo as int, hi as int),
{
    if v < lo { lo } else if v > hi { hi } else { v }
}

/// No two tries at saving a screenshot take the same name, so a later one never writes over
/// an earlier one.
pub proof fn law_each_try_names_its_own_file(name: Seq<char>, n: nat, m: nat)
    requires
        1 <= n,
        1 <= m,
        n != m,
    ensures
        try_name(name, n) != try_name(name, m),
{
    lemma_decimal(n);
    lemma_decimal(m);
    if n >= 2 && m >= 2 {
        let a = try_name(name, n);
        let b = try_name(name, m);
        if a == b {
            let k: int = stem_of(name).len() as int + 1;
            assert(a == stem_of(name) + seq!['_'] + decimal(n) + png_suffix());
            assert(b == stem_of(name) + seq!['_'] + decimal(m) + png_suffix());
            assert(a.len() == stem_of(name).len() + 1 + decimal(n).len() + 4);
            assert(b.len() == stem_of(name).len() + 1 + decimal(m).len() + 4);
            assert(decimal(n).len() == decimal(m).len());
            assert(decimal(n) =~= a.subrange(k, k + decimal(n).len() as int));
            assert(decimal(m) =~= b.subrange(k, k + decimal(m).len() as int));
        }
    } else if n == 1 {
        lemma_no_name_is_its_own_retry(name, m);
    } else {
        lemma_no_name_is_its_own_retry(name, n);
    }
}

/// A name is never what a later try would call it.
proof fn lemma_no_name_is_its_own_retry(name: Seq<char>, m: nat)
    requires
        m >= 2,
    ensures
        name != try_name(name, m),
{
    lemma_decimal(m);
    let d = decimal(m);
    let x = stem_of(name);
    if name == try_name(name, m) {
        let body = x + seq!['_'] + d;
        assert(name == body + png_suffix());
        assert(name.skip(name.len() - 4) =~= png_suffix());
        assert(name.take(name.len() - 4) =~= body);
        assert(stem_of(name) == stem_of(body));
        assert(is_digit(body.last()));
        assert(body.skip(body.len() - 4) != png_suffix()) by {
            if body.len() >= 4 {
                assert(body.skip(body.len() - 4)[3] == body.last());
            }
        }
        assert(stem_of(body) == body);
        assert(x.len() == x.len() + 1 + d.len());
    }
}

} // verus!
