//! `departures`: a split-flap board, with the time in large figures on flap tiles and under them
//! a line of small flaps with the date, the workspace and the battery.

use vstd::prelude::*;
use super::{clock_reading, read_clock, Layout, Readings};
use crate::text::{char_of_digit, chars_of, decimal, decimal_chars, digit_char, is_digit, push_all};

verus! {

/// A figure's tile, in cells: each point of the font is two cells wide and one row tall, which is
/// square on screen, with a cell of ground round the figure.
pub const TILE_W: i32 = 12;
pub const TILE_H: i32 = 9;
/// The gap between the two figures of the hours or of the minutes, and the colon's width.
pub const TILE_GAP: i32 = 1;
pub const COLON_W: i32 = 4;

/// The first place in `set` that holds `ch`.
pub open spec fn first_place(set: Seq<char>, ch: char) -> Option<int>
    decreases set.len(),
{
    if set.len() == 0 {
        None
    } else {
        match first_place(set.drop_last(), ch) {
            Some(i) => Some(i),
            None => if set.last() == ch { Some(set.len() - 1) } else { None },
        }
    }
}

proof fn lemma_first_place(set: Seq<char>, ch: char)
    ensures
        first_place(set, ch) matches Some(i) ==> 0 <= i < set.len() && set[i] == ch && forall|j: int|
            0 <= j < i ==> set[j] != ch,
        first_place(set, ch) is None ==> forall|j: int| 0 <= j < set.len() ==> set[j] != ch,
    decreases set.len(),
{
    if set.len() > 0 {
        lemma_first_place(set.drop_last(), ch);
        assert forall|j: int| 0 <= j < set.len() - 1 implies set.drop_last()[j] == set[j] by {}
    }
}

/// Where `ch` comes in the flaps' `set` of characters, if it is one of them.
pub fn position(set: &[char], ch: char) -> (r: Option<u32>)
    ensures
        match first_place(set@, ch) {
            Some(i) => r == Some(i as u32),
            None => r is None,
        },
{
    let mut i: usize = 0;
    while i < set.len()
        invariant
            i <= set@.len(),
            forall|j: int| 0 <= j < i ==> set@[j] != ch,
        decreases set@.len() - i,
    {
        if set[i] == ch {
            proof {
                lemma_first_place(set@, ch);
                if let Some(k) = first_place(set@, ch) {
                    assert(k == i);
                } else {
                    assert(set@[i as int] != ch);
                }
            }
            return Some(i as u32);
        }
        i += 1;
    }
    proof {
        lemma_first_place(set@, ch);
        if let Some(k) = first_place(set@, ch) {
            assert(set@[k] == ch);
        }
    }
    None
}

/// The board's clock's hours and minutes: from the local clock's minute count since the epoch
/// when there is one, else from the bar's `HH:MM` reading.
pub open spec fn clock_time(time: Seq<char>, local_minute: Option<i64>) -> Option<(int, int)> {
    match local_minute {
        Some(minute) => Some(((minute as int / 60) % 24, minute as int % 60)),
        None => clock_reading(time),
    }
}

/// The last digit of `n`.
pub open spec fn last_digit(n: int) -> char {
    digit_char((n % 10) as nat)
}

/// The board's clock, as four digits: the local clock's when `local_minute`, its minutes since
/// the epoch, is known, and otherwise the bar's reading.
pub fn clock_digits(readings: &Readings, local_minute: Option<i64>) -> (r: Option<[char; 4]>)
    ensures
        match clock_time(readings.time@, local_minute) {
            Some((h, m)) => r matches Some(d) && d@ == seq![
                last_digit(quotient(h, 10)),
                last_digit(h),
                last_digit(quotient(m, 10)),
                last_digit(m),
            ],
            None => r is None,
        },
{
    let (hours, minutes) = match local_minute {
        Some(minute) => {
            let mut hour = minute / 60;
            let mut within = minute % 60;
            if within < 0 {
                hour -= 1;
                within += 60;
            }
            let mut day_hour = hour % 24;
            if day_hour < 0 {
                day_hour += 24;
            }
            (day_hour, within)
        },
        None => match read_clock(readings.time.as_str()) {
            Some(hm) => hm,
            None => return None,
        },
    };
    let d = [digit(hours / 10), digit(hours), digit(minutes / 10), digit(minutes)];
    assert(d@ =~= seq![
        last_digit(quotient(hours as int, 10)),
        last_digit(hours as int),
        last_digit(quotient(minutes as int, 10)),
        last_digit(minutes as int),
    ]);
    Some(d)
}

/// The last digit of `n`.
fn digit(n: i64) -> (r: char)
    ensures
        r == last_digit(n as int),
{
    let mut k = n % 10;
    if k < 0 {
        k += 10;
    }
    char_of_digit(k as u32)
}

/// `a / b` rounded towards zero, as Rust divides.
pub open spec fn quotient(a: int, b: int) -> int {
    if a >= 0 { a / b } else { -((-a) / b) }
}

/// How wide the clock is: four tiles, the gaps between the figures and the colon.
pub open spec fn clock_width() -> int {
    4 * TILE_W + 2 * TILE_GAP + COLON_W
}

/// Where the board's parts go for a logo at `logo` (column, row, width, height): the clock's
/// top-left cell, and the small flaps' first column and row. Above the logo when there's room,
/// which there is on any ordinary screen; below it otherwise.
pub open spec fn board_places(logo: (i32, i32, i32, i32)) -> ((int, int), (int, int)) {
    let (lx, ly, lw, lh) = logo;
    let clock_x = lx + quotient(lw - clock_width(), 2);
    if ly >= TILE_H + 6 {
        ((clock_x, ly - TILE_H - 6), (lx as int, ly - 3))
    } else {
        ((clock_x, ly + lh + 5), (lx as int, ly + lh + 3))
    }
}

/// Where the board's parts go: the clock's top-left cell, and the small flaps' first column and
/// row.
pub fn places(layout: &Layout) -> (r: ((i32, i32), (i32, i32)))
    requires
        i32::MIN <= layout.logo.2 - clock_width(),
        i32::MIN <= layout.logo.0 + quotient(layout.logo.2 - clock_width(), 2) <= i32::MAX,
        layout.logo.1 < TILE_H + 6 ==> i32::MIN <= layout.logo.1 + layout.logo.3 && layout.logo.1 + layout.logo.3 + 5
            <= i32::MAX,
    ensures
        ((r.0.0 as int, r.0.1 as int), (r.1.0 as int, r.1.1 as int)) == board_places(layout.logo),
{
    let (lx, ly, lw, lh) = layout.logo;
    let clock_w = 4 * TILE_W + 2 * TILE_GAP + COLON_W;
    let clock_x = lx + (lw - clock_w) / 2;
    if ly >= TILE_H + 6 {
        ((clock_x, ly - TILE_H - 6), (lx, ly - 3))
    } else {
        ((clock_x, ly + lh + 5), (lx, ly + lh + 3))
    }
}

/// What `str::to_uppercase` makes of a text.
pub uninterp spec fn upper(text: Seq<char>) -> Seq<char>;

/// `str::to_uppercase`: the text in capitals, as Unicode has them.
#[verifier::external_body]
fn uppercase(text: &str) -> (r: String)
    ensures
        r@ == upper(text@),
{
    text.to_uppercase()
}

/// `line` with `text` written over it from position `at`, as far as the line goes.
pub open spec fn laid(line: Seq<char>, text: Seq<char>, at: int) -> Seq<char> {
    Seq::new(line.len(), |i: int| if at <= i < at + text.len() { text[i - at] } else { line[i] })
}

/// `a - b`, or nothing when `b` is more.
pub open spec fn short_of(a: int, b: int) -> int {
    if a > b { a - b } else { 0 }
}

/// What the board says of the battery: charging or not, and how full.
pub open spec fn battery_text(battery: Option<(u8, bool)>) -> Seq<char> {
    match battery {
        Some((percent, true)) => seq!['C', 'H', 'A', 'R', 'G', 'I', 'N', 'G', ' '] + decimal(percent as nat)
            + seq!['%'],
        Some((percent, false)) => seq!['B', 'A', 'T', 'T', 'E', 'R', 'Y', ' '] + decimal(percent as nat) + seq![
            '%',
        ],
        None => Seq::empty(),
    }
}

/// What the board calls the workspace: a workspace without a name of its own goes by its number,
/// which says little on its own.
pub open spec fn place_text(place: Seq<char>) -> Seq<char> {
    if place.len() > 0 && (forall|i: int| 0 <= i < place.len() ==> is_digit(#[trigger] place[i])) {
        seq!['W', 'O', 'R', 'K', 'S', 'P', 'A', 'C', 'E', ' '] + place
    } else {
        upper(place)
    }
}

/// The line of small flaps, `width` long: the date on the left, the battery on the right and
/// the workspace in the middle, in capitals, the workspace cut short to leave room round it.
pub open spec fn info_text(date: Seq<char>, place: Seq<char>, battery: Option<(u8, bool)>, width: int) -> Seq<char> {
    let d = upper(date);
    let b = battery_text(battery);
    let widest = if d.len() > b.len() { d.len() as int } else { b.len() as int };
    let room = short_of(width, 2 * widest + 4);
    let p = place_text(place);
    let p = p.take(if room < p.len() { room } else { p.len() as int });
    let line = Seq::new(width as nat, |i: int| ' ');
    laid(laid(laid(line, d, 0), b, short_of(width, b.len() as int)), p, short_of(width, p.len() as int) / 2)
}

/// Writes `text` over `line` from position `at`, as far as the line goes.
fn lay(line: &mut Vec<char>, text: &Vec<char>, at: usize)
    ensures
        final(line)@ == laid(old(line)@, text@, at as int),
{
    if at >= line.len() {
        assert(final(line)@ =~= laid(old(line)@, text@, at as int));
        return;
    }
    let mut k: usize = 0;
    while k < text.len() && k < line.len() - at
        invariant
            at < line@.len(),
            line@.len() == old(line)@.len(),
            k <= text@.len(),
            line@ == laid(old(line)@, text@.take(k as int), at as int),
        decreases text@.len() - k,
    {
        line.set(at + k, text[k]);
        assert(line@ =~= laid(old(line)@, text@.take(k + 1), at as int));
        k += 1;
    }
    assert(line@ =~= laid(old(line)@, text@, at as int));
}

/// The line of small flaps, `width` long: the date on the left, the workspace in the middle and
/// the battery on the right, in capitals.
pub fn info_line(readings: &Readings, width: usize) -> (r: Vec<char>)
    ensures
        r@ == info_text(readings.date@, readings.place@, readings.battery, width as int),
{
    let mut line: Vec<char> = Vec::new();
    while line.len() < width
        invariant
            line@.len() <= width,
            line@ =~= Seq::new(line@.len(), |i: int| ' '),
        decreases width - line@.len(),
    {
        line.push(' ');
    }
    let ghost blank_line = line@;
    assert(blank_line == Seq::new(width as nat, |i: int| ' '));
    let date = chars_of(uppercase(readings.date.as_str()).as_str());
    lay(&mut line, &date, 0);
    let ghost after_date = line@;
    let battery = battery_chars(readings.battery);
    let battery_len = battery.len();
    let from_right = if width > battery_len { width - battery_len } else { 0 };
    lay(&mut line, &battery, from_right);
    let ghost after_battery = line@;
    assert(after_battery == laid(laid(blank_line, upper(readings.date@), 0), battery_text(readings.battery), short_of(width as int, battery@.len() as int)));
    let widest = if date.len() > battery_len { date.len() } else { battery_len };
    let room = if widest <= (usize::MAX - 4) / 2 && 2 * widest + 4 < width { width - (2 * widest + 4) } else { 0 };
    let place = place_chars(readings.place.as_str());
    let mut cut: Vec<char> = Vec::new();
    while cut.len() < place.len() && cut.len() < room
        invariant
            cut@.len() <= place@.len(),
            cut@.len() <= room,
            cut@ == place@.take(cut@.len() as int),
        decreases place@.len() - cut@.len(),
    {
        cut.push(place[cut.len()]);
        assert(cut@ =~= place@.take(cut@.len() as int));
    }
    let at = if width > cut.len() { (width - cut.len()) / 2 } else { 0 };
    proof {
        let d = upper(readings.date@);
        let b = battery_text(readings.battery);
        let widest_spec = if d.len() > b.len() { d.len() as int } else { b.len() as int };
        assert(widest == widest_spec);
        assert(room == short_of(width as int, 2 * widest_spec + 4));
        let p = place_text(readings.place@);
        assert(cut@ == p.take(if room < p.len() { room as int } else { p.len() as int }));
    }
    lay(&mut line, &cut, at);
    line
}

/// What the board says of the battery.
fn battery_chars(battery: Option<(u8, bool)>) -> (r: Vec<char>)
    ensures
        r@ == battery_text(battery),
{
    match battery {
        Some((percent, charging)) => {
            let mut s = String::new();
            if charging {
                push_all(&mut s, &vec!['C', 'H', 'A', 'R', 'G', 'I', 'N', 'G', ' ']);
            } else {
                push_all(&mut s, &vec!['B', 'A', 'T', 'T', 'E', 'R', 'Y', ' ']);
            }
            push_all(&mut s, &decimal_chars(percent as usize));
            push_all(&mut s, &vec!['%']);
            let r = chars_of(s.as_str());
            assert(r@ =~= battery_text(battery));
            r
        },
        None => Vec::new(),
    }
}

/// What the board calls the workspace.
fn place_chars(place: &str) -> (r: Vec<char>)
    ensures
        r@ == place_text(place@),
{
    let v = chars_of(place);
    let mut all = v.len() > 0;
    let mut i: usize = 0;
    while i < v.len()
        invariant
            i <= v@.len(),
            v@ == place@,
            all == (v@.len() > 0 && forall|j: int| 0 <= j < i ==> is_digit(#[trigger] v@[j])),
        decreases v@.len() - i,
    {
        let c = v[i];
        if !('0' <= c && c <= '9') {
            all = false;
        }
        i += 1;
    }
    if all {
        let mut s = String::new();
        push_all(&mut s, &vec!['W', 'O', 'R', 'K', 'S', 'P', 'A', 'C', 'E', ' ']);
        push_all(&mut s, &v);
        let r = chars_of(s.as_str());
        assert(r@ =~= place_text(place@));
        r
    } else {
        chars_of(uppercase(place).as_str())
    }
}

} // verus!
