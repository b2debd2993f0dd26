//! Text a character at a time, and finding things in sequences: what this library reads and
//! writes is built from `char`s.

use vstd::prelude::*;

verus! {

/// The characters of `s`, in order.
pub fn chars_of(s: &str) -> (v: Vec<char>)
    ensures
        v@ == s@,
{
    broadcast use vstd::string::group_string_axioms;
    let mut v: Vec<char> = Vec::new();
    for c in it: s.chars()
        invariant
            v@ == it.seq().take(it.index() as int),
            it.seq() == s@,
    {
        v.push(c);
    }
    v
}

} // verus!

verus! {

/// `String::push`: adds `c` at the end of `s`.
#[verifier::external_body]
pub(crate) fn push_char(s: &mut String, c: char)
    ensures
        final(s)@ == old(s)@.push(c),
{
    s.push(c);
}

/// The characters of `v` from `from` up to `to`.
pub fn chars_between(v: &Vec<char>, from: usize, to: usize) -> (r: Vec<char>)
    requires
        from <= to <= v@.len(),
    ensures
        r@ == v@.subrange(from as int, to as int),
{
    let mut r: Vec<char> = Vec::new();
    let mut i = from;
    while i < to
        invariant
            from <= i <= to <= v@.len(),
            r@ == v@.subrange(from as int, i as int),
        decreases to - i,
    {
        r.push(v[i]);
        assert(v@.subrange(from as int, i + 1) == v@.subrange(from as int, i as int).push(v@[i as int]));
        i += 1;
    }
    r
}

/// The characters of `v` as a string.
pub fn string_of(v: &Vec<char>) -> (s: String)
    ensures
        s@ == v@,
{
    let mut s = String::new();
    let mut i: usize = 0;
    while i < v.len()
        invariant
            i <= v@.len(),
            s@ == v@.take(i as int),
        decreases v@.len() - i,
    {
        push_char(&mut s, v[i]);
        assert(v@.take(i + 1) == v@.take(i as int).push(v@[i as int]));
        i += 1;
    }
    assert(v@.take(i as int) == v@);
    s
}

/// The characters of `v` from `from` up to `to`, as a string.
pub fn string_between(v: &Vec<char>, from: usize, to: usize) -> (s: String)
    requires
        from <= to <= v@.len(),
    ensures
        s@ == v@.subrange(from as int, to as int),
{
    let mut s = String::new();
    let mut i: usize = from;
    while i < to
        invariant
            from <= i <= to <= v@.len(),
            s@ == v@.subrange(from as int, i as int),
        decreases to - i,
    {
        push_char(&mut s, v[i]);
        assert(v@.subrange(from as int, i + 1) == v@.subrange(from as int, i as int).push(v@[i as int]));
        i += 1;
    }
    s
}

/// Adds the characters of `t` at the end of `s`.
pub fn push_all(s: &mut String, t: &Vec<char>)
    ensures
        final(s)@ == old(s)@ + t@,
{
    let mut i: usize = 0;
    while i < t.len()
        invariant
            i <= t@.len(),
            s@ == old(s)@ + t@.take(i as int),
        decreases t@.len() - i,
    {
        push_char(s, t[i]);
        assert(t@.take(i + 1) == t@.take(i as int).push(t@[i as int]));
        i += 1;
    }
    assert(t@.take(i as int) == t@);
}

pub open spec fn is_digit(c: char) -> bool {
    '0' <= c && c <= '9'
}

pub open spec fn all_digits(t: Seq<char>) -> bool {
    forall|i: int| 0 <= i < t.len() ==> is_digit(#[trigger] t[i])
}

/// What a digit is worth.
pub open spec fn digit_value(c: char) -> nat {
    (c as int - '0' as int) as nat
}

/// The number the digits `t` write, in base ten.
pub open spec fn value(t: Seq<char>) -> nat
    decreases t.len(),
{
    if t.len() == 0 {
        0
    } else {
        value(t.drop_last()) * 10 + digit_value(t.last())
    }
}

/// The digit for `d`, below ten.
pub open spec fn digit_char(d: nat) -> char {
    (d + '0' as nat) as char
}

/// `n` in base ten, without leading zeros (`0` for nothing).
pub open spec fn decimal(n: nat) -> Seq<char>
    decreases n,
{
    if n < 10 {
        seq![digit_char(n)]
    } else {
        decimal(n / 10).push(digit_char(n % 10))
    }
}

/// A digit is worth what it was made from.
pub proof fn lemma_digit_char(d: nat)
    requires
        d < 10,
    ensures
        digit_value(digit_char(d)) == d,
        is_digit(digit_char(d)),
{
    assert(digit_char(d) as int == d + 48);
}

/// `decimal` writes digits that read back as the number.
pub proof fn lemma_decimal(n: nat)
    ensures
        decimal(n).len() > 0,
        all_digits(decimal(n)),
        value(decimal(n)) == n,
    decreases n,
{
    lemma_digit_char(n % 10);
    if n < 10 {
        assert(decimal(n).drop_last().len() == 0);
        assert(value(decimal(n).drop_last()) == 0);
        assert(decimal(n).last() == digit_char(n));
    } else {
        lemma_decimal(n / 10);
        let d = decimal(n);
        assert(d.drop_last() == decimal(n / 10));
        assert(d.last() == digit_char(n % 10));
        assert(value(d) == value(decimal(n / 10)) * 10 + digit_value(digit_char(n % 10)));
        assert forall|i: int| 0 <= i < d.len() implies is_digit(#[trigger] d[i]) by {
            if i < d.len() - 1 {
                assert(d[i] == decimal(n / 10)[i]);
            }
        }
    }
}

/// `n` in base ten.
pub fn decimal_chars(n: usize) -> (v: Vec<char>)
    ensures
        v@ == decimal(n as nat),
    decreases n,
{
    if n < 10 {
        let c = char_of_digit(n as u32);
        let mut v = Vec::new();
        v.push(c);
        assert(v@ == seq![digit_char(n as nat)]);
        v
    } else {
        let mut v = decimal_chars(n / 10);
        let c = char_of_digit((n % 10) as u32);
        v.push(c);
        v
    }
}

/// The digit for `d`.
pub fn char_of_digit(d: u32) -> (c: char)
    requires
        d < 10,
    ensures
        c == digit_char(d as nat),
{
    match d {
        0 => '0',
        1 => '1',
        2 => '2',
        3 => '3',
        4 => '4',
        5 => '5',
        6 => '6',
        7 => '7',
        8 => '8',
        _ => '9',
    }
}

} // verus!

verus! {

/// White space, as Unicode's `White_Space` property has it.
pub open spec fn is_space(c: char) -> bool {
    let u = c as u32;
    (0x9 <= u && u <= 0xd) || u == 0x20 || u == 0x85 || u == 0xa0 || u == 0x1680
        || (0x2000 <= u && u <= 0x200a) || u == 0x2028 || u == 0x2029 || u == 0x202f
        || u == 0x205f || u == 0x3000
}

pub fn space(c: char) -> (r: bool)
    ensures
        r == is_space(c),
{
    let u = c as u32;
    (0x9 <= u && u <= 0xd) || u == 0x20 || u == 0x85 || u == 0xa0 || u == 0x1680
        || (0x2000 <= u && u <= 0x200a) || u == 0x2028 || u == 0x2029 || u == 0x202f
        || u == 0x205f || u == 0x3000
}

/// `t` without the white space at its start.
pub open spec fn trim_start(t: Seq<char>) -> Seq<char>
    decreases t.len(),
{
    if t.len() > 0 && is_space(t[0]) {
        trim_start(t.drop_first())
    } else {
        t
    }
}

/// `t` without the white space at its end.
pub open spec fn trim_end(t: Seq<char>) -> Seq<char>
    decreases t.len(),
{
    if t.len() > 0 && is_space(t.last()) {
        trim_end(t.drop_last())
    } else {
        t
    }
}

/// `t` without the white space at either end.
pub open spec fn trim(t: Seq<char>) -> Seq<char> {
    trim_end(trim_start(t))
}

/// Where `v` starts and ends once the white space at either end is left out.
pub fn trim_bounds(v: &Vec<char>, from: usize, to: usize) -> (r: (usize, usize))
    requires
        from <= to <= v@.len(),
    ensures
        from <= r.0 <= r.1 <= to,
        v@.subrange(r.0 as int, r.1 as int) == trim(v@.subrange(from as int, to as int)),
{
    let ghost t = v@.subrange(from as int, to as int);
    let mut lo = from;
    while lo < to && space(v[lo])
        invariant
            from <= lo <= to <= v@.len(),
            trim_start(t) == trim_start(v@.subrange(lo as int, to as int)),
        decreases to - lo,
    {
        assert(v@.subrange(lo as int, to as int).drop_first() == v@.subrange(lo + 1, to as int));
        lo += 1;
    }
    let mut hi = to;
    while hi > lo && space(v[hi - 1])
        invariant
            from <= lo <= hi <= to <= v@.len(),
            trim_start(t) == v@.subrange(lo as int, to as int),
            trim_end(v@.subrange(lo as int, to as int)) == trim_end(v@.subrange(lo as int, hi as int)),
        decreases hi,
    {
        assert(v@.subrange(lo as int, hi as int).drop_last() == v@.subrange(lo as int, hi - 1));
        hi -= 1;
    }
    (lo, hi)
}

} // verus!

verus! {

/// The first position in `s` whose item `p` holds of.
pub open spec fn first_where<A>(s: Seq<A>, p: spec_fn(A) -> bool) -> Option<int>
    decreases s.len(),
{
    if s.len() == 0 {
        None
    } else {
        match first_where(s.drop_last(), p) {
            Some(i) => Some(i),
            None => if p(s.last()) { Some(s.len() - 1) } else { None },
        }
    }
}

/// `first_where` is the least position whose item `p` holds of.
pub proof fn lemma_first_where<A>(s: Seq<A>, p: spec_fn(A) -> bool)
    ensures
        first_where(s, p) matches Some(i) ==> 0 <= i < s.len() && p(s[i]) && forall|j: int|
            0 <= j < i ==> !p(#[trigger] s[j]),
        first_where(s, p) is None ==> forall|j: int| 0 <= j < s.len() ==> !p(#[trigger] s[j]),
    decreases s.len(),
{
    if s.len() > 0 {
        lemma_first_where(s.drop_last(), p);
        assert forall|j: int| 0 <= j < s.len() - 1 implies s.drop_last()[j] == s[j] by {}
    }
}

/// The least position whose item `p` holds of, told by where it is.
pub proof fn lemma_first_where_at<A>(s: Seq<A>, p: spec_fn(A) -> bool, i: int)
    requires
        0 <= i < s.len(),
        p(s[i]),
        forall|j: int| 0 <= j < i ==> !p(#[trigger] s[j]),
    ensures
        first_where(s, p) == Some(i),
{
    lemma_first_where(s, p);
}

/// There is no position whose item `p` holds of.
pub proof fn lemma_first_where_none<A>(s: Seq<A>, p: spec_fn(A) -> bool)
    requires
        forall|j: int| 0 <= j < s.len() ==> !p(#[trigger] s[j]),
    ensures
        first_where(s, p) is None,
{
    lemma_first_where(s, p);
}

} // verus!

verus! {

/// `n` zeros.
pub open spec fn zeros(n: int) -> Seq<char> {
    Seq::new(if n > 0 { n as nat } else { 0 }, |i: int| '0')
}

/// `n` in base ten, at least `width` characters long: zeros after the sign, if there is one, make
/// up the width.
pub open spec fn padded(n: int, width: int) -> Seq<char> {
    if n >= 0 {
        zeros(width - decimal(n as nat).len()) + decimal(n as nat)
    } else {
        seq!['-'] + zeros(width - 1 - decimal((-n) as nat).len()) + decimal((-n) as nat)
    }
}

/// Adds `n` written at least `width` characters long to the end of `s`.
pub fn push_padded(s: &mut String, n: i64, width: usize)
    ensures
        final(s)@ == old(s)@ + padded(n as int, width as int),
{
    let magnitude: u64 = if n >= 0 { n as u64 } else { (-(n as i128)) as u64 };
    let digits = decimal_chars_u64(magnitude);
    let mut out: Vec<char> = Vec::new();
    let mut fill: usize = if n >= 0 { 0 } else { 1 };
    if n < 0 {
        out.push('-');
    }
    while fill < width && digits.len() < width - fill
        invariant
            fill <= width + 1,
            n >= 0 ==> out@ == zeros(fill as int),
            n < 0 ==> fill >= 1 && out@ == seq!['-'] + zeros(fill - 1),
            n >= 0 ==> fill == 0 || fill + digits@.len() <= width,
            n < 0 ==> fill == 1 || fill + digits@.len() <= width,
            digits@ == decimal(magnitude as nat),
        decreases width + 1 - fill,
    {
        out.push('0');
        proof {
            if n >= 0 {
                assert(zeros(fill + 1) =~= zeros(fill as int).push('0'));
            } else {
                assert(seq!['-'] + zeros(fill as int) =~= (seq!['-'] + zeros(fill - 1)).push('0'));
            }
        }
        fill += 1;
    }
    proof {
        if n >= 0 {
            assert(magnitude as int == n);
            assert(zeros(fill as int) =~= zeros(width - decimal(n as nat).len()));
        } else {
            assert(magnitude as int == -n);
            assert(zeros(fill - 1) =~= zeros(width - 1 - decimal((-n) as nat).len()));
        }
    }
    push_all(s, &out);
    push_all(s, &digits);
    assert(old(s)@ + out@ + digits@ =~= old(s)@ + padded(n as int, width as int));
}

/// `n` in base ten.
pub fn decimal_chars_u64(n: u64) -> (v: Vec<char>)
    ensures
        v@ == decimal(n as nat),
    decreases n,
{
    if n < 10 {
        let c = char_of_digit(n as u32);
        let mut v = Vec::new();
        v.push(c);
        assert(v@ == seq![digit_char(n as nat)]);
        v
    } else {
        let mut v = decimal_chars_u64(n / 10);
        let c = char_of_digit((n % 10) as u32);
        v.push(c);
        v
    }
}

} // verus!

verus! {

/// Where the line that starts at `from` ends: at the first `\n` from there on, or at the end.
pub open spec fn line_end(t: Seq<char>, from: int) -> int
    decreases t.len() - from,
{
    if from >= t.len() {
        t.len() as int
    } else if t[from] == '\n' {
        from
    } else {
        line_end(t, from + 1)
    }
}

/// `line_end` finds the first `\n` at or after `from`.
pub proof fn lemma_line_end(t: Seq<char>, from: int)
    requires
        0 <= from <= t.len(),
    ensures
        from <= line_end(t, from) <= t.len(),
        line_end(t, from) < t.len() ==> t[line_end(t, from)] == '\n',
        forall|j: int| from <= j < line_end(t, from) ==> t[j] != '\n',
    decreases t.len() - from,
{
    if from < t.len() && t[from] != '\n' {
        lemma_line_end(t, from + 1);
    }
}

/// A line as `str::lines` hands it out: without the `\r` of a `\r\n` ending.
pub open spec fn line_text(piece: Seq<char>, ended: bool) -> Seq<char> {
    if ended && piece.len() > 0 && piece.last() == '\r' {
        piece.drop_last()
    } else {
        piece
    }
}

/// The lines of `t` from position `from` on.
pub open spec fn lines_from(t: Seq<char>, from: int) -> Seq<Seq<char>>
    decreases t.len() - from,
    via lines_from_decreases
{
    if from < 0 || from >= t.len() {
        Seq::empty()
    } else {
        let e = line_end(t, from);
        if e < t.len() {
            seq![line_text(t.subrange(from, e), true)] + lines_from(t, e + 1)
        } else {
            seq![t.subrange(from, e)]
        }
    }
}

#[via_fn]
proof fn lines_from_decreases(t: Seq<char>, from: int) {
    if 0 <= from < t.len() {
        lemma_line_end(t, from);
    }
}

/// The lines of `t`, as `str::lines` splits them: at each `\n`, with no line after a final one.
pub open spec fn lines_of(t: Seq<char>) -> Seq<Seq<char>> {
    lines_from(t, 0)
}

/// The values of the items that hold one, in order.
pub open spec fn keep_some<A>(s: Seq<Option<A>>) -> Seq<A>
    decreases s.len(),
{
    if s.len() == 0 {
        Seq::empty()
    } else {
        let rest = keep_some(s.drop_first());
        match s[0] {
            Some(a) => seq![a] + rest,
            None => rest,
        }
    }
}

/// The value of the first item that holds one.
pub open spec fn first_some<A>(s: Seq<Option<A>>) -> Option<A>
    decreases s.len(),
{
    if s.len() == 0 {
        None
    } else if s[0] is Some {
        s[0]
    } else {
        first_some(s.drop_first())
    }
}

/// Whether `t` begins with `p`.
pub open spec fn starts_with(t: Seq<char>, p: Seq<char>) -> bool {
    p.len() <= t.len() && t.take(p.len() as int) == p
}

/// The position of the last `c` in `t`.
pub open spec fn last_index(t: Seq<char>, c: char) -> Option<int>
    decreases t.len(),
{
    if t.len() == 0 {
        None
    } else if t.last() == c {
        Some(t.len() - 1)
    } else {
        last_index(t.drop_last(), c)
    }
}

/// `last_index` finds the last `c` in `t`.
pub proof fn lemma_last_index(t: Seq<char>, c: char)
    ensures
        last_index(t, c) matches Some(i) ==> 0 <= i < t.len() && t[i] == c && forall|j: int|
            i < j < t.len() ==> t[j] != c,
        last_index(t, c) is None ==> forall|j: int| 0 <= j < t.len() ==> t[j] != c,
    decreases t.len(),
{
    if t.len() > 0 {
        lemma_last_index(t.drop_last(), c);
        assert forall|j: int| 0 <= j < t.len() - 1 implies t.drop_last()[j] == t[j] by {}
    }
}

/// The first word of `t`, as `split_whitespace` finds it, if it has one.
pub open spec fn first_word(t: Seq<char>) -> Option<Seq<char>> {
    let s = trim_start(t);
    if s.len() == 0 {
        None
    } else {
        match first_where(s, |c: char| is_space(c)) {
            Some(i) => Some(s.take(i)),
            None => Some(s),
        }
    }
}

/// Where the line that starts at `from` ends.
pub fn next_line_end(v: &Vec<char>, from: usize) -> (r: usize)
    requires
        from <= v@.len(),
    ensures
        r == line_end(v@, from as int),
{
    let mut i = from;
    while i < v.len() && v[i] != '\n'
        invariant
            from <= i <= v@.len(),
            line_end(v@, from as int) == line_end(v@, i as int),
        decreases v@.len() - i,
    {
        i += 1;
    }
    i
}

/// The line of `v` from `from` up to `to`, which ends it.
pub fn line_between(v: &Vec<char>, from: usize, to: usize) -> (r: Vec<char>)
    requires
        from <= to <= v@.len(),
    ensures
        r@ == line_text(v@.subrange(from as int, to as int), to < v@.len()),
{
    let last = if to < v.len() && to > from && v[to - 1] == '\r' { to - 1 } else { to };
    let mut r: Vec<char> = Vec::new();
    let mut i = from;
    while i < last
        invariant
            from <= i <= last <= to <= v@.len(),
            r@ == v@.subrange(from as int, i as int),
        decreases last - i,
    {
        r.push(v[i]);
        assert(v@.subrange(from as int, i + 1) == v@.subrange(from as int, i as int).push(v@[i as int]));
        i += 1;
    }
    assert(v@.subrange(from as int, last as int) =~= line_text(v@.subrange(from as int, to as int), to < v@.len()));
    r
}

/// Whether `v` from `from` on begins with `p`.
pub fn begins_with(v: &Vec<char>, from: usize, p: &Vec<char>) -> (r: bool)
    requires
        from <= v@.len(),
    ensures
        r == starts_with(v@.skip(from as int), p@),
{
    if p.len() > v.len() - from {
        return false;
    }
    let mut i: usize = 0;
    while i < p.len()
        invariant
            from <= v@.len(),
            i <= p@.len(),
            from + p@.len() <= v.len(),
            forall|j: int| 0 <= j < i ==> v@[from + j] == p@[j],
        decreases p@.len() - i,
    {
        let k: usize = from + i;
        if v[k] != p[i] {
            assert(v@.skip(from as int).take(p@.len() as int)[i as int] != p@[i as int]);
            return false;
        }
        i += 1;
    }
    assert(v@.skip(from as int).take(p@.len() as int) =~= p@);
    true
}

/// The lines of a text split as `str::lines` splits them, one `line_end` after another.
pub proof fn lemma_lines_step(t: Seq<char>, from: int)
    requires
        0 <= from < t.len(),
    ensures
        lines_from(t, from) == seq![line_text(t.subrange(from, line_end(t, from)), line_end(t, from) < t.len())]
            + lines_from(t, line_end(t, from) + 1),
{
    lemma_line_end(t, from);
}

/// What is kept of two runs one after the other.
pub proof fn lemma_keep_some_add<A>(a: Seq<Option<A>>, b: Seq<Option<A>>)
    ensures
        keep_some(a + b) == keep_some(a) + keep_some(b),
    decreases a.len(),
{
    if a.len() > 0 {
        lemma_keep_some_add(a.drop_first(), b);
        assert((a + b).drop_first() =~= a.drop_first() + b);
    } else {
        assert(a + b =~= b);
    }
}

/// The first value found in two runs one after the other.
pub proof fn lemma_first_some_add<A>(a: Seq<Option<A>>, b: Seq<Option<A>>)
    ensures
        first_some(a + b) == if first_some(a) is Some { first_some(a) } else { first_some(b) },
    decreases a.len(),
{
    if a.len() > 0 {
        lemma_first_some_add(a.drop_first(), b);
        assert((a + b).drop_first() =~= a.drop_first() + b);
    } else {
        assert(a + b =~= b);
    }
}

} // verus!

verus! {

/// What `str::parse::<i64>` reads from `t`: an optional sign, then at least one digit and
/// nothing else, for a number an `i64` holds.
pub open spec fn integer_of(t: Seq<char>) -> Option<int> {
    let signed = t.len() > 0 && (t[0] == '+' || t[0] == '-');
    let digits = if signed { t.skip(1) } else { t };
    let v = if signed && t[0] == '-' { -(value(digits) as int) } else { value(digits) as int };
    if digits.len() == 0 || !all_digits(digits) || v < i64::MIN || v > i64::MAX {
        None
    } else {
        Some(v)
    }
}

/// What `str::parse::<i64>` reads from `v[from..to]`.
pub fn integer_between(v: &Vec<char>, from: usize, to: usize) -> (r: Option<i64>)
    requires
        from <= to <= v@.len(),
    ensures
        match integer_of(v@.subrange(from as int, to as int)) {
            Some(n) => r == Some(n as i64),
            None => r is None,
        },
{
    let ghost t = v@.subrange(from as int, to as int);
    let signed = from < to && (v[from] == '+' || v[from] == '-');
    let negative = signed && v[from] == '-';
    let start = if signed { from + 1 } else { from };
    let ghost digits = v@.subrange(start as int, to as int);
    assert(digits =~= if signed { t.skip(1) } else { t });
    if start == to {
        return None;
    }
    let cap: u64 = 0x8000_0000_0000_0001;
    let mut magnitude: u64 = 0;
    let mut i = start;
    while i < to
        invariant
            start <= i <= to <= v@.len(),
            digits == v@.subrange(start as int, to as int),
            t == v@.subrange(from as int, to as int),
            digits == if signed { t.skip(1) } else { t },
            signed == (t.len() > 0 && (t[0] == '+' || t[0] == '-')),
            start == if signed { from + 1 } else { from as int },
            cap == 0x8000_0000_0000_0001u64,
            all_digits(v@.subrange(start as int, i as int)),
            magnitude as int == if value(v@.subrange(start as int, i as int)) < cap { value(
                v@.subrange(start as int, i as int),
            ) as int } else { cap as int },
        decreases to - i,
    {
        let c = v[i];
        if !('0' <= c && c <= '9') {
            assert(!is_digit(digits[i - start]));
            return None;
        }
        let d = (c as u32 - '0' as u32) as u64;
        let ghost before = v@.subrange(start as int, i as int);
        let ghost after = v@.subrange(start as int, i + 1);
        assert(after.drop_last() =~= before);
        assert(after.last() == c);
        assert(digit_value(c) == d);
        magnitude = if magnitude > cap / 10 { cap } else {
            let next = magnitude * 10 + d;
            if next >= cap { cap } else { next }
        };
        i += 1;
    }
    proof {
        assert(v@.subrange(start as int, i as int) == digits);
    }
    if negative {
        if magnitude > 0x8000_0000_0000_0000 {
            None
        } else if magnitude == 0x8000_0000_0000_0000 {
            Some(i64::MIN)
        } else {
            Some(-(magnitude as i64))
        }
    } else {
        if magnitude > 0x7fff_ffff_ffff_ffff {
            None
        } else {
            Some(magnitude as i64)
        }
    }
}

} // verus!
