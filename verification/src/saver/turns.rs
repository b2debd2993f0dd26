//! Which variation of the wallpaper shows, and which comes next: the chosen variations take
//! turns in shuffled rounds, each round dealing every variation but the one on screen once.
//!
//! Variations are known here by their number in the table of variations; what each draws is
//! none of this module's business.

use vstd::prelude::*;
use vstd::seq_lib::to_multiset_update;
use super::{golden, mixed, next_random, wrap64};

verus! {

/// The items of `s` that `set` holds, in order.
pub open spec fn only_in(s: Seq<usize>, set: Seq<usize>) -> Seq<usize>
    decreases s.len(),
{
    if s.len() == 0 {
        Seq::empty()
    } else {
        let rest = only_in(s.drop_last(), set);
        if set.contains(s.last()) { rest.push(s.last()) } else { rest }
    }
}

/// The items of `s` other than `x`, in order.
pub open spec fn without(s: Seq<usize>, x: usize) -> Seq<usize>
    decreases s.len(),
{
    if s.len() == 0 {
        Seq::empty()
    } else {
        let rest = without(s.drop_last(), x);
        if s.last() != x { rest.push(s.last()) } else { rest }
    }
}

/// A Fisher–Yates shuffle of `s` from position `i` down to 1, each swap drawing the next number
/// of the splitmix64 sequence at `state`; the shuffled items and the state it leaves.
pub open spec fn shuffled(s: Seq<usize>, i: int, state: u64) -> (Seq<usize>, u64)
    decreases i,
{
    if i < 1 || i >= s.len() {
        (s, state)
    } else {
        let next = wrap64(state + golden());
        let j = (mixed(next) % ((i + 1) as u64)) as int;
        shuffled(s.update(i, s[j]).update(j, s[i]), i - 1, next)
    }
}

/// A round dealt from `s`: all of it, shuffled.
pub open spec fn dealt(s: Seq<usize>, state: u64) -> (Seq<usize>, u64) {
    shuffled(s, s.len() - 1, state)
}

/// The first position of `x` in `s`.
pub open spec fn first_at(s: Seq<usize>, x: usize) -> Option<int>
    decreases s.len(),
{
    if s.len() == 0 {
        None
    } else {
        match first_at(s.drop_last(), x) {
            Some(i) => Some(i),
            None => if s.last() == x { Some(s.len() - 1) } else { None },
        }
    }
}

/// The wallpaper's turns: the variations chosen to cycle through, the one on screen and its
/// place in the list, what is left of this round, and where the shuffle has got to.
/// The Slipstream variation, first in the table, which shows when nothing is chosen.
pub const FALLBACK: usize = 0;

pub struct Saver {
    chosen: Vec<usize>,
    index: usize,
    upcoming: Vec<usize>,
    shuffle: u64,
    current: usize,
}

/// The round `next_index` takes its turn from: what is left of the current one, or else a new
/// one dealt from every chosen variation but the one on screen; and the shuffle's state after.
pub open spec fn round_from(chosen: Seq<usize>, upcoming: Seq<usize>, current: usize, shuffle: u64) -> (Seq<usize>, u64) {
    let kept = only_in(upcoming, chosen);
    if kept.len() > 0 {
        (kept, shuffle)
    } else {
        dealt(without(chosen, current), shuffle)
    }
}

impl Saver {
    /// The one on screen is never to come up again in this round, and its place is in the list
    /// while there is one.
    pub closed spec fn wf(self) -> bool {
        &&& self.chosen@.len() > 0 ==> self.index < self.chosen@.len()
        &&& !self.upcoming@.contains(self.current)
    }

    pub closed spec fn chosen_list(self) -> Seq<usize> {
        self.chosen@
    }

    pub closed spec fn showing(self) -> usize {
        self.current
    }

    pub closed spec fn place(self) -> usize {
        self.index
    }

    pub closed spec fn round(self) -> Seq<usize> {
        self.upcoming@
    }

    pub closed spec fn shuffle_state(self) -> u64 {
        self.shuffle
    }

    /// Turns through `chosen`, starting from a place drawn from the splitmix64 sequence at
    /// `seed`. With nothing chosen, the Slipstream variation shows.
    pub fn new(chosen: Vec<usize>, seed: u64) -> (r: Self)
        ensures
            r.wf(),
            r.chosen_list() == chosen@,
            r.shuffle_state() == wrap64(seed + golden()),
            r.place() == mixed(r.shuffle_state()) % (if chosen@.len() > 0 { chosen@.len() as u64 } else { 1u64 }),
            r.showing() == if chosen@.len() > 0 { chosen@[r.place() as int] } else { FALLBACK },
            r.round() == Seq::<usize>::empty(),
    {
        let mut shuffle = seed;
        let n = if chosen.len() > 0 { chosen.len() as u64 } else { 1 };
        let index = (next_random(&mut shuffle) % n) as usize;
        let current = if index < chosen.len() { chosen[index] } else { FALLBACK };
        Saver { chosen, index, upcoming: Vec::new(), shuffle, current }
    }

    /// The variation on screen.
    pub fn current(&self) -> (r: usize)
        ensures
            r == self.showing(),
    {
        self.current
    }

    /// Its place in the chosen list.
    pub fn index(&self) -> (r: usize)
        ensures
            r == self.place(),
    {
        self.index
    }

    /// The chosen variations.
    pub fn chosen(&self) -> (r: &Vec<usize>)
        ensures
            r@ == self.chosen_list(),
    {
        &self.chosen
    }

    /// Hands over to the variation at `index`, taking it out of what is left of the round.
    /// Nothing changes, and `false` comes back, for a place past the end of the list.
    pub fn change_to(&mut self, index: usize) -> (r: bool)
        requires
            old(self).wf(),
        ensures
            final(self).wf(),
            r == (index < old(self).chosen_list().len()),
            final(self).chosen_list() == old(self).chosen_list(),
            final(self).shuffle_state() == old(self).shuffle_state(),
            r ==> final(self).place() == index && final(self).showing() == old(self).chosen_list()[index as int]
                && final(self).round() == without(old(self).round(), old(self).chosen_list()[index as int]),
            !r ==> final(self).place() == old(self).place() && final(self).showing() == old(self).showing()
                && final(self).round() == old(self).round(),
    {
        if index >= self.chosen.len() {
            return false;
        }
        let id = self.chosen[index];
        let upcoming = drop_all(&self.upcoming, id);
        proof {
            lemma_without_lacks(self.upcoming@, id);
        }
        self.upcoming = upcoming;
        self.index = index;
        self.current = id;
        true
    }

    /// Which chosen variation takes the next turn: the next of this round's shuffle, dealing a
    /// new round once it runs out.
    pub fn next_index(&mut self) -> (r: usize)
        requires
            old(self).wf(),
            old(self).chosen_list().len() > 0,
        ensures
            final(self).wf(),
            final(self).chosen_list() == old(self).chosen_list(),
            final(self).showing() == old(self).showing(),
            final(self).place() == old(self).place(),
            r < old(self).chosen_list().len(),
            ({
                let (round, state) = round_from(
                    old(self).chosen_list(),
                    old(self).round(),
                    old(self).showing(),
                    old(self).shuffle_state(),
                );
                &&& final(self).shuffle_state() == state
                &&& round.len() > 0 ==> final(self).round() == round.drop_last() && Some(r as int) == first_at(
                    old(self).chosen_list(),
                    round.last(),
                )
                &&& round.len() == 0 ==> final(self).round() == round && r == (old(self).place() + 1) % (old(
                    self,
                ).chosen_list().len() as int)
            }),
            (exists|k: int| 0 <= k < old(self).chosen_list().len() && old(self).chosen_list()[k] != old(self).showing())
                ==> old(self).chosen_list()[r as int] != old(self).showing(),
    {
        let ghost start = *self;
        let kept = keep_chosen(&self.upcoming, &self.chosen);
        let mut round = kept;
        if round.len() == 0 {
            let others = drop_all(&self.chosen, self.current);
            round = deal(others, &mut self.shuffle);
        }
        proof {
            assert(start.chosen@.len() == start.chosen.len());
            lemma_round_parts(start.chosen@, start.upcoming@, start.current, start.shuffle);
            assert(round@ == round_from(start.chosen@, start.upcoming@, start.current, start.shuffle).0);
            assert(self.index == start.index && self.chosen@ == start.chosen@ && self.current == start.current);
        }
        let ghost full = round@;
        let r = match round.pop() {
            Some(id) => {
                proof {
                    assert(full.contains(id)) by {
                        assert(full[full.len() - 1] == id);
                    }
                    assert(round_from(start.chosen@, start.upcoming@, start.current, start.shuffle).0.contains(id));
                    assert(id != start.current);
                    assert(round@ =~= full.drop_last());
                }
                first_index(&self.chosen, id)
            },
            None => {
                proof {
                    if exists|k: int| 0 <= k < start.chosen@.len() && start.chosen@[k] != start.current {
                        let k = choose|k: int| 0 <= k < start.chosen@.len() && start.chosen@[k] != start.current;
                        lemma_without_keeps(start.chosen@, start.current, k);
                        lemma_without_len(start.chosen@, start.current);
                        let base = without(start.chosen@, start.current);
                        law_a_round_deals_each_once(base, base.len() - 1, start.shuffle);
                    }
                }
                assert(round@ =~= full);
                assert(self.index < self.chosen.len());
                (self.index + 1) % self.chosen.len()
            },
        };
        proof {
            assert forall|y: usize| round@.contains(y) implies y != start.current by {
                let k = choose|k: int| 0 <= k < round@.len() && round@[k] == y;
                assert(full[k] == y);
                assert(full.contains(y));
                assert(round_from(start.chosen@, start.upcoming@, start.current, start.shuffle).0.contains(y));
            }
        }
        self.upcoming = round;
        r
    }

    /// The variations to cycle through changed. A variation just ticked on shows at once, so the
    /// picture behind the Settings window is the preview; with none added, the one on screen
    /// stays if it is still chosen, and otherwise the first takes over, if there is one. The one
    /// that takes over leaves what is left of the round. Whether a new variation took over comes
    /// back.
    pub fn set_wallpaper(&mut self, chosen: Vec<usize>) -> (r: bool)
        requires
            old(self).wf(),
        ensures
            final(self).wf(),
            chosen@ == old(self).chosen_list() ==> !r && final(self).chosen_list() == old(self).chosen_list()
                && final(self).showing() == old(self).showing() && final(self).place() == old(self).place()
                && final(self).round() == old(self).round(),
            chosen@ != old(self).chosen_list() ==> final(self).chosen_list() == chosen@ && match first_new(
                chosen@,
                old(self).chosen_list(),
            ) {
                Some(i) => r && final(self).place() == i && final(self).showing() == chosen@[i]
                    && final(self).round() == without(old(self).round(), chosen@[i]),
                None => match first_at(chosen@, old(self).showing()) {
                    Some(i) => !r && final(self).place() == i && final(self).showing() == old(self).showing()
                        && final(self).round() == old(self).round(),
                    None => if chosen@.len() > 0 {
                        r && final(self).place() == 0 && final(self).showing() == chosen@[0]
                            && final(self).round() == without(old(self).round(), chosen@[0])
                    } else {
                        !r && final(self).place() == old(self).place() && final(self).showing() == old(self).showing()
                            && final(self).round() == old(self).round()
                    },
                },
            },
    {
        if same_list(&chosen, &self.chosen) {
            return false;
        }
        let added = first_added(&chosen, &self.chosen);
        let showing = first_of(&chosen, self.current);
        proof {
            lemma_first_new(chosen@, self.chosen@);
            lemma_first_at(chosen@, self.current);
        }
        let ghost current = self.current;
        let ghost upcoming = self.upcoming@;
        self.chosen = chosen;
        match added {
            Some(index) => {
                self.index = index;
                let id = self.chosen[index];
                self.upcoming = drop_all(&self.upcoming, id);
                proof {
                    lemma_without_lacks(upcoming, id);
                }
                self.current = id;
                true
            },
            None => match showing {
                Some(index) => {
                    // What's on screen is still chosen: leave it up and carry on from where it is.
                    self.index = index;
                    false
                },
                None => {
                    if self.chosen.len() == 0 {
                        // Nothing to take over: what is on screen stays.
                        return false;
                    }
                    let id = self.chosen[0];
                    self.upcoming = drop_all(&self.upcoming, id);
                    proof {
                        lemma_without_lacks(upcoming, id);
                    }
                    self.index = 0;
                    self.current = id;
                    true
                },
            },
        }
    }

    /// Shows one variation now, and only it from then on.
    pub fn show(&mut self, id: usize)
        requires
            old(self).wf(),
        ensures
            final(self).wf(),
            final(self).chosen_list() == seq![id],
            final(self).showing() == id,
            final(self).place() == 0,
            final(self).round() == without(old(self).round(), id),
    {
        self.chosen = vec![id];
        let upcoming = drop_all(&self.upcoming, id);
        proof {
            lemma_without_lacks(self.upcoming@, id);
        }
        self.upcoming = upcoming;
        self.index = 0;
        self.current = id;
    }
}

/// The first place of `new` whose variation `old` does not hold.
pub open spec fn first_new(new: Seq<usize>, old: Seq<usize>) -> Option<int>
    decreases new.len(),
{
    if new.len() == 0 {
        None
    } else {
        match first_new(new.drop_last(), old) {
            Some(i) => Some(i),
            None => if !old.contains(new.last()) { Some(new.len() - 1) } else { None },
        }
    }
}

proof fn lemma_first_new(new: Seq<usize>, old: Seq<usize>)
    ensures
        first_new(new, old) matches Some(i) ==> 0 <= i < new.len() && !old.contains(new[i]) && forall|j: int|
            0 <= j < i ==> old.contains(new[j]),
        first_new(new, old) is None ==> forall|j: int| 0 <= j < new.len() ==> old.contains(new[j]),
    decreases new.len(),
{
    if new.len() > 0 {
        lemma_first_new(new.drop_last(), old);
        assert forall|j: int| 0 <= j < new.len() - 1 implies new.drop_last()[j] == new[j] by {}
    }
}

proof fn lemma_first_at(s: Seq<usize>, x: usize)
    ensures
        first_at(s, x) matches Some(i) ==> 0 <= i < s.len() && s[i] == x && forall|j: int| 0 <= j < i ==> s[j] != x,
        first_at(s, x) is None ==> !s.contains(x),
    decreases s.len(),
{
    if s.len() > 0 {
        lemma_first_at(s.drop_last(), x);
        assert forall|j: int| 0 <= j < s.len() - 1 implies s.drop_last()[j] == s[j] by {}
        if first_at(s, x) is None {
            assert forall|j: int| 0 <= j < s.len() implies s[j] != x by {
                if j < s.len() - 1 {
                    assert(s.drop_last()[j] == s[j]);
                }
            }
        }
    }
}

/// Whether two lists are the same.
fn same_list(a: &Vec<usize>, b: &Vec<usize>) -> (r: bool)
    ensures
        r == (a@ == b@),
{
    if a.len() != b.len() {
        return false;
    }
    let mut i: usize = 0;
    while i < a.len()
        invariant
            i <= a@.len(),
            a@.len() == b@.len(),
            forall|j: int| 0 <= j < i ==> a@[j] == b@[j],
        decreases a@.len() - i,
    {
        if a[i] != b[i] {
            return false;
        }
        i += 1;
    }
    assert(a@ =~= b@);
    true
}

/// Whether `s` holds `x`.
fn holds(s: &Vec<usize>, x: usize) -> (r: bool)
    ensures
        r == s@.contains(x),
{
    let mut i: usize = 0;
    while i < s.len()
        invariant
            i <= s@.len(),
            forall|j: int| 0 <= j < i ==> s@[j] != x,
        decreases s@.len() - i,
    {
        if s[i] == x {
            return true;
        }
        i += 1;
    }
    false
}

/// The first place of `new` whose variation `old` does not hold.
fn first_added(new: &Vec<usize>, old: &Vec<usize>) -> (r: Option<usize>)
    ensures
        match first_new(new@, old@) {
            Some(i) => r matches Some(k) && k == i,
            None => r is None,
        },
{
    let mut i: usize = 0;
    while i < new.len()
        invariant
            i <= new@.len(),
            forall|j: int| 0 <= j < i ==> old@.contains(new@[j]),
        decreases new@.len() - i,
    {
        if !holds(old, new[i]) {
            proof {
                lemma_first_new(new@, old@);
            }
            return Some(i);
        }
        i += 1;
    }
    proof {
        lemma_first_new(new@, old@);
    }
    None
}

/// The first place of `x` in `s`, if it is there.
fn first_of(s: &Vec<usize>, x: usize) -> (r: Option<usize>)
    ensures
        match first_at(s@, x) {
            Some(i) => r matches Some(k) && k == i,
            None => r is None,
        },
{
    let mut i: usize = 0;
    while i < s.len()
        invariant
            i <= s@.len(),
            forall|j: int| 0 <= j < i ==> s@[j] != x,
        decreases s@.len() - i,
    {
        if s[i] == x {
            proof {
                lemma_first_at(s@, x);
            }
            return Some(i);
        }
        i += 1;
    }
    proof {
        lemma_first_at(s@, x);
    }
    None
}

/// The first place of `x` in `s`, which holds it.
fn first_index(s: &Vec<usize>, x: usize) -> (r: usize)
    requires
        s@.contains(x),
    ensures
        first_at(s@, x) == Some(r as int),
        r < s@.len(),
        s@[r as int] == x,
{
    proof {
        lemma_first_at(s@, x);
    }
    match first_of(s, x) {
        Some(i) => i,
        None => {
            assert(false);
            0
        },
    }
}

/// The items of `s` other than `x`, in order.
fn drop_all(s: &Vec<usize>, x: usize) -> (r: Vec<usize>)
    ensures
        r@ == without(s@, x),
{
    let mut r: Vec<usize> = Vec::new();
    let mut i: usize = 0;
    while i < s.len()
        invariant
            i <= s@.len(),
            r@ == without(s@.take(i as int), x),
        decreases s@.len() - i,
    {
        assert(s@.take(i + 1).drop_last() =~= s@.take(i as int));
        if s[i] != x {
            r.push(s[i]);
        }
        i += 1;
    }
    assert(s@.take(i as int) =~= s@);
    r
}

/// The items of `s` that `chosen` holds, in order.
fn keep_chosen(s: &Vec<usize>, chosen: &Vec<usize>) -> (r: Vec<usize>)
    ensures
        r@ == only_in(s@, chosen@),
{
    let mut r: Vec<usize> = Vec::new();
    let mut i: usize = 0;
    while i < s.len()
        invariant
            i <= s@.len(),
            r@ == only_in(s@.take(i as int), chosen@),
        decreases s@.len() - i,
    {
        assert(s@.take(i + 1).drop_last() =~= s@.take(i as int));
        if holds(chosen, s[i]) {
            r.push(s[i]);
        }
        i += 1;
    }
    assert(s@.take(i as int) =~= s@);
    r
}

/// Deals a round from `s`: a Fisher–Yates shuffle drawing on `state`.
fn deal(s: Vec<usize>, state: &mut u64) -> (r: Vec<usize>)
    ensures
        (r@, *final(state)) == dealt(s@, *old(state)),
{
    let mut s = s;
    if s.len() < 2 {
        return s;
    }
    let ghost whole = s@;
    let mut i = s.len() - 1;
    while i >= 1
        invariant
            s@.len() == whole.len(),
            i < s@.len(),
            shuffled(s@, i as int, *state) == dealt(whole, *old(state)),
        decreases i,
    {
        let ghost before = s@;
        let ghost st = *state;
        assert(i < s.len());
        let n = next_random(state);
        let j = (n % (i as u64 + 1)) as usize;
        let a = s[i];
        let b = s[j];
        s.set(i, b);
        s.set(j, a);
        proof {
            lemma_shuffle_step(before, i as int, st);
            assert(s@ == before.update(i as int, before[j as int]).update(j as int, before[i as int]));
        }
        i -= 1;
    }
    assert(shuffled(s@, 0, *state) == (s@, *state));
    s
}

/// One swap of the shuffle, and the rest of it.
proof fn lemma_shuffle_step(s: Seq<usize>, i: int, state: u64)
    requires
        1 <= i < s.len(),
        i < u64::MAX,
    ensures
        ({
            let next = wrap64(state + golden());
            let j = (mixed(next) % ((i + 1) as u64)) as int;
            &&& 0 <= j <= i
            &&& shuffled(s, i, state) == shuffled(s.update(i, s[j]).update(j, s[i]), i - 1, next)
        }),
{
    let next = wrap64(state + golden());
    let m = mixed(next);
    let d = (i + 1) as u64;
    assert(m % d < d);
}

/// Swapping two items keeps what a sequence holds.
proof fn lemma_swap_keeps(s: Seq<usize>, i: int, j: int)
    requires
        0 <= i < s.len(),
        0 <= j < s.len(),
    ensures
        s.update(i, s[j]).update(j, s[i]).to_multiset() == s.to_multiset(),
        s.update(i, s[j]).update(j, s[i]).len() == s.len(),
{
    broadcast use vstd::multiset::group_multiset_axioms;
    let t = s.update(i, s[j]);
    let u = t.update(j, s[i]);
    to_multiset_update(s, i, s[j]);
    to_multiset_update(t, j, s[i]);
    vstd::seq_lib::to_multiset_contains(s, s[i]);
    vstd::seq_lib::to_multiset_contains(s, s[j]);
    assert(s.contains(s[i]) && s.contains(s[j]));
    if j == i {
        assert(u =~= s);
    } else {
        assert(t[j] == s[j]);
        assert(u.to_multiset() =~= s.to_multiset());
    }
}

/// `without` leaves no `x` behind, and nothing that was not there.
proof fn lemma_without_lacks(s: Seq<usize>, x: usize)
    ensures
        !without(s, x).contains(x),
        forall|y: usize| without(s, x).contains(y) ==> s.contains(y),
    decreases s.len(),
{
    if s.len() > 0 {
        lemma_without_lacks(s.drop_last(), x);
        let rest = without(s.drop_last(), x);
        assert forall|y: usize| without(s, x).contains(y) implies s.contains(y) by {
            if rest.contains(y) {
                assert(s.drop_last().contains(y));
                let k = choose|k: int| 0 <= k < s.drop_last().len() && s.drop_last()[k] == y;
                assert(s[k] == y);
            } else {
                assert(s.last() == y);
                assert(s[s.len() - 1] == y);
            }
        }
        if without(s, x).contains(x) {
            if !rest.contains(x) {
                let k = choose|k: int| 0 <= k < without(s, x).len() && without(s, x)[k] == x;
                assert(k == rest.len());
            }
        }
    }
}

/// `without` never adds.
proof fn lemma_without_len(s: Seq<usize>, x: usize)
    ensures
        without(s, x).len() <= s.len(),
    decreases s.len(),
{
    if s.len() > 0 {
        lemma_without_len(s.drop_last(), x);
    }
}

/// `without` keeps everything but `x`.
proof fn lemma_without_keeps(s: Seq<usize>, x: usize, k: int)
    requires
        0 <= k < s.len(),
        s[k] != x,
    ensures
        without(s, x).len() > 0,
    decreases s.len(),
{
    if k < s.len() - 1 {
        assert(s.drop_last()[k] == s[k]);
        lemma_without_keeps(s.drop_last(), x, k);
    }
}

/// What `only_in` keeps is in both lists.
proof fn lemma_only_in_parts(s: Seq<usize>, set: Seq<usize>)
    ensures
        forall|y: usize| only_in(s, set).contains(y) ==> s.contains(y) && set.contains(y),
    decreases s.len(),
{
    if s.len() > 0 {
        lemma_only_in_parts(s.drop_last(), set);
        let rest = only_in(s.drop_last(), set);
        assert forall|y: usize| only_in(s, set).contains(y) implies s.contains(y) && set.contains(y) by {
            if rest.contains(y) {
                assert(s.drop_last().contains(y));
                let k = choose|k: int| 0 <= k < s.drop_last().len() && s.drop_last()[k] == y;
                assert(s[k] == y);
            } else {
                assert(s[s.len() - 1] == y);
            }
        }
    }
}

/// A shuffle holds what it was given, each as many times.
pub proof fn law_a_round_deals_each_once(s: Seq<usize>, i: int, state: u64)
    requires
        i < u64::MAX,
    ensures
        shuffled(s, i, state).0.to_multiset() == s.to_multiset(),
        shuffled(s, i, state).0.len() == s.len(),
    decreases i,
{
    if 1 <= i < s.len() {
        lemma_shuffle_step(s, i, state);
        let next = wrap64(state + golden());
        let j = (mixed(next) % ((i + 1) as u64)) as int;
        lemma_swap_keeps(s, i, j);
        law_a_round_deals_each_once(s.update(i, s[j]).update(j, s[i]), i - 1, next);
    }
}

/// Every variation in a round that `next_index` takes its turn from is chosen, and none is the
/// one on screen.
proof fn lemma_round_parts(chosen: Seq<usize>, upcoming: Seq<usize>, current: usize, shuffle: u64)
    requires
        !upcoming.contains(current),
        chosen.len() <= usize::MAX,
    ensures
        forall|y: usize| #[trigger] round_from(chosen, upcoming, current, shuffle).0.contains(y) ==> chosen.contains(y)
            && y != current,
{
    lemma_only_in_parts(upcoming, chosen);
    lemma_without_lacks(chosen, current);
    lemma_without_len(chosen, current);
    let base = without(chosen, current);
    law_a_round_deals_each_once(base, base.len() - 1, shuffle);
    let dealt_round = dealt(base, shuffle).0;
    assert forall|y: usize| dealt_round.contains(y) implies base.contains(y) by {
        vstd::seq_lib::to_multiset_contains(dealt_round, y);
        vstd::seq_lib::to_multiset_contains(base, y);
    }
}

/// One turn: `next_index`, then `change_to` the place it gave. The one that takes over is the last
/// of the round it took its turn from, and leaves what is left of that round.
pub open spec fn turn(chosen: Seq<usize>, upcoming: Seq<usize>, current: usize, shuffle: u64) -> (Seq<usize>, usize, u64) {
    let (round, state) = round_from(chosen, upcoming, current, shuffle);
    if round.len() > 0 {
        (without(round.drop_last(), round.last()), round.last(), state)
    } else {
        (round, current, state)
    }
}

/// What is left of the round, the one on screen and the shuffle after `k` turns from `st`.
pub open spec fn after_turns(chosen: Seq<usize>, st: (Seq<usize>, usize, u64), k: nat) -> (Seq<usize>, usize, u64)
    decreases k,
{
    if k == 0 {
        st
    } else {
        let p = after_turns(chosen, st, (k - 1) as nat);
        turn(chosen, p.0, p.1, p.2)
    }
}

/// Nothing is taken out of a list that holds none of it.
proof fn lemma_without_none(s: Seq<usize>, x: usize)
    requires
        !s.contains(x),
    ensures
        without(s, x) == s,
    decreases s.len(),
{
    if s.len() > 0 {
        assert(!s.drop_last().contains(x)) by {
            if s.drop_last().contains(x) {
                let k = choose|k: int| 0 <= k < s.drop_last().len() && s.drop_last()[k] == x;
                assert(s[k] == x);
            }
        }
        lemma_without_none(s.drop_last(), x);
        assert(s.last() != x) by {
            assert(s[s.len() - 1] == s.last());
        }
        assert(s.drop_last().push(s.last()) =~= s);
    }
}

/// Nothing is left out of a list wholly inside `set`.
proof fn lemma_only_in_all(s: Seq<usize>, set: Seq<usize>)
    requires
        forall|k: int| 0 <= k < s.len() ==> set.contains(#[trigger] s[k]),
    ensures
        only_in(s, set) == s,
    decreases s.len(),
{
    if s.len() > 0 {
        lemma_only_in_all(s.drop_last(), set);
        assert(set.contains(s[s.len() - 1]));
        assert(s.drop_last().push(s.last()) =~= s);
    }
}

/// Taking one variation out of a list that names each once names each once.
proof fn lemma_without_distinct(s: Seq<usize>, x: usize)
    requires
        s.no_duplicates(),
    ensures
        without(s, x).no_duplicates(),
    decreases s.len(),
{
    if s.len() > 0 {
        let d = s.drop_last();
        assert(d.no_duplicates());
        lemma_without_distinct(d, x);
        lemma_without_lacks(d, x);
        let rest = without(d, x);
        if s.last() != x {
            assert(!rest.contains(s.last())) by {
                if rest.contains(s.last()) {
                    assert(d.contains(s.last()));
                    let k = choose|k: int| 0 <= k < d.len() && d[k] == s.last();
                    assert(s[k] == s[s.len() - 1]);
                }
            }
            let t = rest.push(s.last());
            assert forall|i: int, j: int| 0 <= i < t.len() && 0 <= j < t.len() && i != j implies t[i] != t[j] by {
                if i == t.len() - 1 {
                    assert(rest[j] == t[j]);
                } else if j == t.len() - 1 {
                    assert(rest[i] == t[i]);
                }
            }
        }
    }
}

/// The variations take turns in rounds. From a state with no round left and `current` one of
/// `chosen`, which names each variation once and at least two: the next round is dealt from every
/// chosen variation but `current`, each once, and the turns that follow show it from its end
/// back to its start, so no variation follows itself and each takes a turn before any comes
/// back. After the round, no round is left and one of `chosen` is on screen, so the next round
/// goes the same way.
pub proof fn law_turns_come_in_rounds(chosen: Seq<usize>, current: usize, shuffle: u64)
    requires
        chosen.no_duplicates(),
        2 <= chosen.len() <= usize::MAX,
        chosen.contains(current),
    ensures
        ({
            let (round, state) = dealt(without(chosen, current), shuffle);
            let m = (chosen.len() - 1) as int;
            &&& round.len() == m
            &&& round.to_multiset() == without(chosen, current).to_multiset()
            &&& round.no_duplicates()
            &&& !round.contains(current)
            &&& forall|y: usize| #[trigger] round.contains(y) ==> chosen.contains(y)
            &&& forall|k: nat| 1 <= k <= m ==> #[trigger] after_turns(chosen, (Seq::empty(), current, shuffle), k)
                == (round.take(m - k), round[m - k], state)
        }),
{
    let base = without(chosen, current);
    let (round, state) = dealt(base, shuffle);
    let m = (chosen.len() - 1) as int;
    lemma_without_lacks(chosen, current);
    lemma_without_distinct(chosen, current);
    // Each variation but `current` is in `base` once: it has one fewer than `chosen`.
    assert(base.len() == m) by {
        lemma_without_count(chosen, current);
    }
    law_a_round_deals_each_once(base, base.len() - 1, shuffle);
    assert(round.len() == m);
    base.lemma_multiset_has_no_duplicates();
    assert forall|y: usize| round.to_multiset().contains(y) implies round.to_multiset().count(y) == 1 by {}
    round.lemma_multiset_has_no_duplicates_conv();
    assert forall|y: usize| #[trigger] round.contains(y) implies chosen.contains(y) && y != current by {
        vstd::seq_lib::to_multiset_contains(round, y);
        vstd::seq_lib::to_multiset_contains(base, y);
    }
    let st0: (Seq<usize>, usize, u64) = (Seq::empty(), current, shuffle);
    assert forall|k: nat| 1 <= k <= m implies #[trigger] after_turns(chosen, st0, k)
        == (round.take(m - k), round[m - k], state) by {
        lemma_round_turns(chosen, current, shuffle, round, state, k);
    }
}

/// How many `without` leaves when `x` is in a list once.
proof fn lemma_without_count(s: Seq<usize>, x: usize)
    requires
        s.no_duplicates(),
        s.contains(x),
    ensures
        without(s, x).len() == s.len() - 1,
    decreases s.len(),
{
    let d = s.drop_last();
    if s.last() == x {
        assert(!d.contains(x)) by {
            if d.contains(x) {
                let k = choose|k: int| 0 <= k < d.len() && d[k] == x;
                assert(s[k] == s[s.len() - 1]);
            }
        }
        lemma_without_none(d, x);
    } else {
        assert(d.contains(x)) by {
            let k = choose|k: int| 0 <= k < s.len() && s[k] == x;
            assert(k != s.len() - 1);
            assert(d[k] == x);
        }
        lemma_without_count(d, x);
    }
}

/// The turns of a round, one by one.
proof fn lemma_round_turns(chosen: Seq<usize>, current: usize, shuffle: u64, round: Seq<usize>, state: u64, k: nat)
    requires
        chosen.len() <= usize::MAX,
        (round, state) == dealt(without(chosen, current), shuffle),
        round.len() == chosen.len() - 1 >= 1,
        round.no_duplicates(),
        forall|y: usize| #[trigger] round.contains(y) ==> chosen.contains(y) && y != current,
        1 <= k <= round.len(),
    ensures
        after_turns(chosen, (Seq::empty(), current, shuffle), k) == (round.take(round.len() - k), round[round.len() - k], state),
    decreases k,
{
    let m = round.len() as int;
    let st0: (Seq<usize>, usize, u64) = (Seq::empty(), current, shuffle);
    if k == 1 {
        assert(after_turns(chosen, st0, 0) == st0);
        assert(only_in(Seq::<usize>::empty(), chosen) == Seq::<usize>::empty());
        assert(round_from(chosen, Seq::empty(), current, shuffle) == (round, state));
        assert(round.drop_last() =~= round.take(m - 1));
        assert(!round.take(m - 1).contains(round.last())) by {
            if round.take(m - 1).contains(round.last()) {
                let j = choose|j: int| 0 <= j < m - 1 && #[trigger] round.take(m - 1)[j] == round.last();
                assert(round[j] == round[m - 1]);
            }
        }
        lemma_without_none(round.take(m - 1), round.last());
    } else {
        lemma_round_turns(chosen, current, shuffle, round, state, (k - 1) as nat);
        let left = round.take(m - (k - 1));
        let cur = round[m - (k - 1)];
        assert(after_turns(chosen, st0, (k - 1) as nat) == (left, cur, state));
        assert forall|j: int| 0 <= j < left.len() implies chosen.contains(#[trigger] left[j]) by {
            assert(left[j] == round[j]);
            assert(round.contains(round[j]));
        }
        lemma_only_in_all(left, chosen);
        assert(left.len() > 0);
        assert(round_from(chosen, left, cur, state) == (left, state));
        assert(left.last() == round[m - k]);
        assert(left.drop_last() =~= round.take(m - k));
        assert(!round.take(m - k).contains(round[m - k])) by {
            if round.take(m - k).contains(round[m - k]) {
                let j = choose|j: int| 0 <= j < m - k && #[trigger] round.take(m - k)[j] == round[m - k];
                assert(round[j] == round[m - k]);
            }
        }
        lemma_without_none(round.take(m - k), round[m - k]);
    }
}

} // verus!
