//! `prompt`: the logo printed at a terminal. A command is typed a character at a time, and one
//! turn in three the typist's fingers slip on it: two letters the wrong way round, a pause,
//! rubbed out, and typed again.

use vstd::prelude::*;
use crate::text::{chars_of, string_of};

verus! {

/// One turn in this many has the slip: the second, and every third after it.
pub const SLIPS_EVERY: u64 = 3;

/// How many characters of the first command go in right before the slip.
pub const SLIP_AT: usize = 9;

/// How many keystrokes' worth of time the typist stares at the slip before rubbing it out.
pub const PAUSE_KEYS: usize = 13;

/// Whether the typist slips in turn number `turn`.
pub fn slips(turn: u64) -> (r: bool)
    ensures
        r == (turn % SLIPS_EVERY == 1),
{
    turn % SLIPS_EVERY == 1
}

/// The line `keys` keystrokes into typing `text`: with `slip`, the two characters after
/// `SLIP_AT` go in swapped, sit there for `PAUSE_KEYS`, are rubbed out, and the rest is typed
/// right. A line too short to slip on is typed straight.
pub open spec fn typed_line(text: Seq<char>, keys: int, slip: bool) -> Seq<char> {
    let n = text.len() as int;
    let s = SLIP_AT as int;
    let wrong = seq![text[s + 1], text[s]];
    if !slip || n < s + 2 {
        text.take(if keys < n { keys } else { n })
    } else if keys <= s {
        text.take(keys)
    } else if keys <= s + 2 {
        text.take(s) + wrong.take(keys - s)
    } else if keys <= s + 2 + PAUSE_KEYS {
        text.take(s) + wrong
    } else if keys <= s + 4 + PAUSE_KEYS {
        text.take(s) + wrong.take(s + 4 + PAUSE_KEYS - keys)
    } else {
        let rest = keys - (s + 4 + PAUSE_KEYS);
        text.take(s + if rest < n - s { rest } else { n - s })
    }
}

/// Whether typing is still under way `keys` keystrokes in.
pub open spec fn still_typing(text: Seq<char>, keys: int, slip: bool) -> bool {
    let n = text.len() as int;
    if !slip || n < SLIP_AT + 2 {
        keys < n
    } else {
        typed_line(text, keys, slip).len() < n || keys < SLIP_AT + 4 + PAUSE_KEYS
    }
}

/// What a typed line reads `keys` keystrokes after typing starts, and whether typing is still
/// under way.
pub fn typed(text: &str, keys: usize, slip: bool) -> (r: (String, bool))
    ensures
        r.0@ == typed_line(text@, keys as int, slip),
        r.1 == still_typing(text@, keys as int, slip),
{
    let chars = chars_of(text);
    let n = chars.len();
    if !slip || n < SLIP_AT + 2 {
        let shown = if keys < n { keys } else { n };
        let mut line: Vec<char> = Vec::new();
        while line.len() < shown
            invariant
                shown <= chars@.len(),
                line@.len() <= shown,
                line@ == chars@.take(line@.len() as int),
            decreases shown - line@.len(),
        {
            line.push(chars[line.len()]);
            assert(line@ =~= chars@.take(line@.len() as int));
        }
        return (string_of(&line), shown < n);
    }
    let mut line: Vec<char> = Vec::new();
    let start = if keys < SLIP_AT { keys } else { SLIP_AT };
    while line.len() < start
        invariant
            start <= SLIP_AT,
            SLIP_AT + 2 <= chars@.len(),
            line@.len() <= start,
            line@ == chars@.take(line@.len() as int),
        decreases start - line@.len(),
    {
        line.push(chars[line.len()]);
        assert(line@ =~= chars@.take(line@.len() as int));
    }
    let mut left = if keys > SLIP_AT { keys - SLIP_AT } else { 0 };
    let typed_wrong = if left < 2 { left } else { 2 };
    if typed_wrong >= 1 {
        line.push(chars[SLIP_AT + 1]);
    }
    if typed_wrong >= 2 {
        line.push(chars[SLIP_AT]);
    }
    left -= typed_wrong;
    left = if left > PAUSE_KEYS { left - PAUSE_KEYS } else { 0 };
    let rubbed = if left < 2 { left } else { 2 };
    let keep = line.len() - rubbed;
    line.truncate(keep);
    left -= rubbed;
    let rest = if left < n - SLIP_AT { left } else { n - SLIP_AT };
    let mut k: usize = 0;
    let ghost base = line@;
    assert(rest > 0 ==> base =~= chars@.take(SLIP_AT as int));
    while k < rest
        invariant
            SLIP_AT + rest <= chars.len(),
            k <= rest,
            rest > 0 ==> line@ == chars@.take(SLIP_AT + k),
            rest == 0 ==> line@ == base,
        decreases rest - k,
    {
        line.push(chars[SLIP_AT + k]);
        assert(line@ =~= chars@.take(SLIP_AT + k + 1));
        k += 1;
    }
    let under_way = line.len() < n || keys < SLIP_AT + 4 + PAUSE_KEYS;
    proof {
        let t = text@;
        let wrong = seq![t[SLIP_AT + 1], t[SLIP_AT as int]];
        if keys <= SLIP_AT {
        } else if keys <= SLIP_AT + 2 {
            assert(line@ =~= t.take(SLIP_AT as int) + wrong.take(keys - SLIP_AT));
        } else if keys <= SLIP_AT + 2 + PAUSE_KEYS {
            assert(line@ =~= t.take(SLIP_AT as int) + wrong);
        } else if keys <= SLIP_AT + 4 + PAUSE_KEYS {
            assert(line@ =~= t.take(SLIP_AT as int) + wrong.take(SLIP_AT + 4 + PAUSE_KEYS - keys));
        } else {
        }
    }
    (string_of(&line), under_way)
}

} // verus!
