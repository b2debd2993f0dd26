//! Settings the environment overrides: a comma-separated list of wallpaper variations to cycle
//! through, each trimmed of white space, the empty ones left out.

use vstd::prelude::*;
use crate::text::{
    chars_of, first_where, lemma_first_where_at, lemma_first_where_none, string_between, trim,
    trim_bounds,
};

verus! {

pub open spec fn commas() -> spec_fn(char) -> bool {
    |c: char| c == ','
}

/// A piece of the list, trimmed, if anything is left of it.
pub open spec fn one_id(piece: Seq<char>) -> Seq<Seq<char>> {
    if trim(piece).len() > 0 { seq![trim(piece)] } else { Seq::empty() }
}

/// The ids a comma-separated list names: each piece between commas, trimmed, the empty ones left
/// out.
pub open spec fn ids_in(t: Seq<char>) -> Seq<Seq<char>>
    decreases t.len(),
{
    match first_where(t, commas()) {
        Some(k) => if 0 <= k < t.len() {
            one_id(t.take(k)) + ids_in(t.skip(k + 1))
        } else {
            Seq::empty()
        },
        None => one_id(t),
    }
}

/// The wallpaper variations `list` names, as `SLIPSTREAM_WALLPAPER` gives them: split at the
/// commas, each trimmed, the empty ones left out.
pub fn wallpaper_ids(list: &str) -> (r: Vec<String>)
    ensures
        r@.map_values(|s: String| s@) == ids_in(list@),
{
    let v = chars_of(list);
    let mut out: Vec<String> = Vec::new();
    let mut start: usize = 0;
    let mut i: usize = 0;
    assert(v@.skip(0) =~= v@);
    while i < v.len()
        invariant
            v@ == list@,
            start <= i <= v@.len(),
            forall|j: int| start <= j < i ==> v@[j] != ',',
            out@.map_values(|s: String| s@) + ids_in(v@.skip(start as int)) == ids_in(list@),
        decreases v@.len() - i,
    {
        if v[i] == ',' {
            let ghost rest = v@.skip(start as int);
            let ghost piece = v@.subrange(start as int, i as int);
            let ghost before = out@.map_values(|s: String| s@);
            push_piece(&v, start, i, &mut out);
            proof {
                assert forall|j: int| 0 <= j < i - start implies !commas()(#[trigger] rest[j]) by {
                    assert(rest[j] == v@[start + j]);
                }
                assert(rest[i - start] == ',');
                lemma_first_where_at(rest, commas(), i - start);
                assert(rest.take(i - start) == piece);
                assert(rest.skip(i - start + 1) == v@.skip(i + 1));
                assert(ids_in(rest) == one_id(piece) + ids_in(v@.skip(i + 1)));
                assert(out@.map_values(|s: String| s@) + ids_in(v@.skip(i + 1)) =~= before + ids_in(rest));
            }
            start = i + 1;
        }
        i += 1;
    }
    let ghost rest = v@.skip(start as int);
    let ghost before = out@.map_values(|s: String| s@);
    push_piece(&v, start, v.len(), &mut out);
    proof {
        assert forall|j: int| 0 <= j < rest.len() implies !commas()(#[trigger] rest[j]) by {
            assert(rest[j] == v@[start + j]);
        }
        lemma_first_where_none(rest, commas());
        assert(rest == v@.subrange(start as int, v@.len() as int));
        assert(before + one_id(rest) =~= ids_in(list@));
    }
    out
}

/// Adds the piece `v[from..to]`, trimmed, to `out` if anything is left of it.
fn push_piece(v: &Vec<char>, from: usize, to: usize, out: &mut Vec<String>)
    requires
        from <= to <= v@.len(),
    ensures
        final(out)@.map_values(|s: String| s@) == old(out)@.map_values(|s: String| s@) + one_id(
            v@.subrange(from as int, to as int),
        ),
{
    let (a, b) = trim_bounds(v, from, to);
    let ghost before = out@;
    if a < b {
        out.push(string_between(v, a, b));
        assert(out@.map_values(|s: String| s@) =~= before.map_values(|s: String| s@).push(
            v@.subrange(a as int, b as int),
        ));
    } else {
        assert(one_id(v@.subrange(from as int, to as int)) =~= Seq::<Seq<char>>::empty());
        assert(out@.map_values(|s: String| s@) =~= before.map_values(|s: String| s@));
    }
}

} // verus!
