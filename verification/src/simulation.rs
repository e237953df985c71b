//! What the table of a subset construction does, told by what the NFA does.

use crate::counting::lemma_injection_bound;
use crate::dfa::{
    byte_step, dead, handlers_done, handlers_of, members_at, row_done, states_after,
    subset_construction, LookupState, StateVertex,
};
use crate::nfa::StateView;
use crate::scanner::{accepts, lemma_min_of_is_least, min_of, run, winner};
use vstd::prelude::*;

verus! {

/// From no state, no byte leads anywhere.
proof fn lemma_dead_stays_dead(g: Seq<StateView>, s: Set<usize>, c: u8)
    requires
        dead(s),
    ensures
        dead(byte_step(g, s, c)),
{
}

/// The table follows the NFA: after `w` it is in the row that stands for the
/// states the NFA may be in, and it is stuck exactly where the NFA is in none.
pub proof fn lemma_table_tracks_nfa(
    g: Seq<StateView>,
    start: usize,
    vs: Seq<StateVertex>,
    rows: Seq<LookupState>,
    w: Seq<u8>,
)
    requires
        subset_construction(g, start, vs, rows),
    ensures
        match run(rows, w) {
            Some(q) => q < vs.len() && members_at(vs, q as int) == states_after(g, start, w),
            None => dead(states_after(g, start, w)),
        },
    decreases w.len(),
{
    if w.len() > 0 {
        let prev = w.drop_last();
        lemma_table_tracks_nfa(g, start, vs, rows, prev);
        match run(rows, prev) {
            None => {
                lemma_dead_stays_dead(g, states_after(g, start, prev), w.last());
            },
            Some(q) => {
                assert(row_done(g, vs, rows, q as int, w.last()));
            },
        }
    }
}

/// The table accepts `w` exactly where a state that the NFA may be in after
/// `w` carries a handler, and the handler that fires is the smallest of them.
pub proof fn lemma_table_accepts_what_nfa_accepts(
    g: Seq<StateView>,
    start: usize,
    vs: Seq<StateVertex>,
    rows: Seq<LookupState>,
    w: Seq<u8>,
)
    requires
        subset_construction(g, start, vs, rows),
        w.len() > 0,
    ensures
        accepts(rows, w) <==> !dead(handlers_of(g, states_after(g, start, w))),
        accepts(rows, w) ==> {
            &&& handlers_of(g, states_after(g, start, w)).contains(winner(rows, w))
            &&& forall|h: usize| #[trigger]
                handlers_of(g, states_after(g, start, w)).contains(h) ==> winner(rows, w) <= h
        },
{
    lemma_table_tracks_nfa(g, start, vs, rows, w);
    let want = handlers_of(g, states_after(g, start, w));
    match run(rows, w) {
        None => {
            assert(dead(want));
        },
        Some(q) => {
            assert(handlers_done(g, vs, rows, q as int));
            let ids = rows[q as int].handlers@;
            assert(ids.to_set() == want);
            if ids.len() > 0 {
                assert(ids.to_set().contains(ids[0]));
                lemma_min_of_is_least(ids);
                assert(ids.to_set().contains(min_of(ids)));
                assert forall|h: usize| #[trigger] want.contains(h) implies winner(rows, w) <= h by {
                    assert(ids.to_set().contains(h));
                    let k = choose|k: int| 0 <= k < ids.len() && ids[k] == h;
                    assert(min_of(ids) <= ids[k]);
                }
            } else {
                assert forall|h: usize| !want.contains(h) by {
                    if want.contains(h) {
                        assert(ids.to_set().contains(h));
                        assert(ids.contains(h));
                    }
                }
            }
        },
    }
}

/// Two subset constructions of one NFA accept the same inputs and fire the
/// same handlers, however each has numbered its states.
pub proof fn lemma_same_language(
    g: Seq<StateView>,
    start: usize,
    vs1: Seq<StateVertex>,
    rows1: Seq<LookupState>,
    vs2: Seq<StateVertex>,
    rows2: Seq<LookupState>,
    w: Seq<u8>,
)
    requires
        subset_construction(g, start, vs1, rows1),
        subset_construction(g, start, vs2, rows2),
    ensures
        accepts(rows1, w) == accepts(rows2, w),
        accepts(rows1, w) ==> winner(rows1, w) == winner(rows2, w),
{
    if w.len() > 0 {
        lemma_table_accepts_what_nfa_accepts(g, start, vs1, rows1, w);
        lemma_table_accepts_what_nfa_accepts(g, start, vs2, rows2, w);
    }
}

/// Every state of one subset construction has its like in another of the same NFA.
proof fn lemma_state_has_like(
    g: Seq<StateView>,
    start: usize,
    vs1: Seq<StateVertex>,
    rows1: Seq<LookupState>,
    vs2: Seq<StateVertex>,
    rows2: Seq<LookupState>,
    i: int,
) -> (j: int)
    requires
        subset_construction(g, start, vs1, rows1),
        subset_construction(g, start, vs2, rows2),
        0 <= i < vs1.len(),
    ensures
        0 <= j < vs2.len(),
        members_at(vs2, j) == members_at(vs1, i),
{
    let w = choose|w: Seq<u8>| #[trigger] members_at(vs1, i) == states_after(g, start, w);
    lemma_table_tracks_nfa(g, start, vs2, rows2, w);
    let list = vs1[i].epsilon_closure@;
    assert(list.len() > 0);
    assert(members_at(vs1, i).contains(list[0]));
    run(rows2, w)->Some_0 as int
}

proof fn lemma_no_more_states(
    g: Seq<StateView>,
    start: usize,
    vs1: Seq<StateVertex>,
    rows1: Seq<LookupState>,
    vs2: Seq<StateVertex>,
    rows2: Seq<LookupState>,
)
    requires
        subset_construction(g, start, vs1, rows1),
        subset_construction(g, start, vs2, rows2),
    ensures
        vs1.len() <= vs2.len(),
{
    let f = |i: int|
        choose|j: int| 0 <= j < vs2.len() && members_at(vs2, j) == members_at(vs1, i);
    assert forall|i: int| 0 <= i < vs1.len() implies 0 <= #[trigger] f(i) < vs2.len()
        && members_at(vs2, f(i)) == members_at(vs1, i) by {
        let j = lemma_state_has_like(g, start, vs1, rows1, vs2, rows2, i);
    }
    assert forall|i: int, j: int| 0 <= i < j < vs1.len() implies #[trigger] f(i) != #[trigger] f(
        j,
    ) by {
        assert(0 <= f(i) < vs2.len() && members_at(vs2, f(i)) == members_at(vs1, i));
        assert(0 <= f(j) < vs2.len() && members_at(vs2, f(j)) == members_at(vs1, j));
        assert(members_at(vs1, i) != members_at(vs1, j));
    }
    lemma_injection_bound(vs1.len() as int, vs2.len() as int, f);
}

/// Two subset constructions of one NFA have the same number of states: in
/// whatever order the bytes were tried, only the numbering differs.
pub proof fn lemma_state_count_is_fixed(
    g: Seq<StateView>,
    start: usize,
    vs1: Seq<StateVertex>,
    rows1: Seq<LookupState>,
    vs2: Seq<StateVertex>,
    rows2: Seq<LookupState>,
)
    requires
        subset_construction(g, start, vs1, rows1),
        subset_construction(g, start, vs2, rows2),
    ensures
        vs1.len() == vs2.len(),
{
    lemma_no_more_states(g, start, vs1, rows1, vs2, rows2);
    lemma_no_more_states(g, start, vs2, rows2, vs1, rows1);
}

} // verus!
