//! `slipstream`: the logo's letters carried in on stream lines and away again, a different
//! way in and out each cycle.

use vstd::prelude::*;

verus! {

/// How the letters arrive.
#[derive(Debug, Clone, Copy, PartialEq, Eq)]
pub enum Arrive {
    /// Leaders on the right fly in first; the rest draft in behind them, trailing streaks.
    Draft,
    /// Letters ride curving stream lines in from anywhere down the left edge.
    Crosswind,
    /// A pressure wave crosses the logo, and letters condense out of the air behind it.
    Shock,
}

/// How the letters leave.
#[derive(Debug, Clone, Copy, PartialEq, Eq)]
pub enum Leave {
    /// The trailing edge peels away first, tumbling into the wake.
    Wake,
    /// Letters break into specks and drift off with the flow.
    Scatter,
}

/// The ways in and out for cycle number `cycle`: the three arrivals in turn, and the two
/// leavings in turn.
pub fn effects(cycle: u64) -> (r: (Arrive, Leave))
    ensures
        r.0 == (if cycle % 3 == 0 { Arrive::Draft } else if cycle % 3 == 1 { Arrive::Crosswind } else { Arrive::Shock }),
        r.1 == (if cycle % 2 == 0 { Leave::Wake } else { Leave::Scatter }),
{
    let arrive = match cycle % 3 {
        0 => Arrive::Draft,
        1 => Arrive::Crosswind,
        _ => Arrive::Shock,
    };
    let leave = if cycle % 2 == 0 { Leave::Wake } else { Leave::Scatter };
    (arrive, leave)
}

} // verus!
