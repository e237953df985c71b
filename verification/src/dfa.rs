//! Subset construction: the deterministic automaton of an NFA, and its table.

use crate::counting::{lemma_distinct_sets_bound, lemma_state_list_len, state_list, two_to};
use crate::nfa::{Nfa, StateView};
use std::collections::HashMap;
use vstd::prelude::*;

verus! {

// ---------------------------------------------------------------------------
// What an NFA does, as sets of states
// ---------------------------------------------------------------------------

/// `a` has an epsilon edge to `b`.
pub open spec fn eps_edge(g: Seq<StateView>, a: usize, b: usize) -> bool {
    a < g.len() && g[a as int].epsilon.contains(b)
}

/// Each state of `p` has an epsilon edge to the next.
pub open spec fn eps_path(g: Seq<StateView>, p: Seq<usize>) -> bool {
    &&& p.len() > 0
    &&& forall|k: int| 0 <= k < p.len() - 1 ==> eps_edge(g, #[trigger] p[k], p[k + 1])
}

/// `b` is reached from `a` without input.
pub open spec fn eps_reaches(g: Seq<StateView>, a: usize, b: usize) -> bool {
    exists|p: Seq<usize>| eps_path(g, p) && p[0] == a && #[trigger] p.last() == b
}

/// The epsilon-closure of one state.
pub open spec fn eps_closure(g: Seq<StateView>, a: usize) -> Set<usize> {
    Set::new(|x: usize| eps_reaches(g, a, x))
}

/// No epsilon edge leaves the set.
pub open spec fn eps_closed(g: Seq<StateView>, s: Set<usize>) -> bool {
    forall|a: usize, b: usize| s.contains(a) && #[trigger] eps_edge(g, a, b) ==> s.contains(b)
}

/// The states that the set `s` reaches on byte `c`: the union of the
/// epsilon-closures of the targets of the members' edges on `c`.
pub open spec fn byte_step(g: Seq<StateView>, s: Set<usize>, c: u8) -> Set<usize> {
    Set::new(
        |x: usize|
            exists|a: usize|
                s.contains(a) && a < g.len() && g[a as int].neighbors.contains_key(c)
                    && #[trigger] eps_reaches(g, g[a as int].neighbors[c], x),
    )
}

/// The handlers that the members of `s` carry.
pub open spec fn handlers_of(g: Seq<StateView>, s: Set<usize>) -> Set<usize> {
    Set::new(
        |h: usize|
            exists|a: usize|
                s.contains(a) && a < g.len() && (#[trigger] g[a as int].handler) == Some(h),
    )
}

/// The states that the automaton may be in after reading `w` from `start`.
pub open spec fn states_after(g: Seq<StateView>, start: usize, w: Seq<u8>) -> Set<usize>
    decreases w.len(),
{
    if w.len() == 0 {
        eps_closure(g, start)
    } else {
        byte_step(g, states_after(g, start, w.drop_last()), w.last())
    }
}

pub proof fn lemma_reaches_self(g: Seq<StateView>, a: usize)
    ensures
        eps_reaches(g, a, a),
{
    let p = seq![a];
    assert(eps_path(g, p) && p[0] == a && p.last() == a);
}

pub proof fn lemma_reaches_extend(g: Seq<StateView>, a: usize, b: usize, c: usize)
    requires
        eps_reaches(g, a, b),
        eps_edge(g, b, c),
    ensures
        eps_reaches(g, a, c),
{
    let p = choose|p: Seq<usize>| eps_path(g, p) && p[0] == a && #[trigger] p.last() == b;
    let q = p.push(c);
    assert forall|k: int| 0 <= k < q.len() - 1 implies eps_edge(g, #[trigger] q[k], q[k + 1]) by {
        if k < p.len() - 1 {
            assert(eps_edge(g, p[k], p[k + 1]));
        }
    }
    assert(eps_path(g, q) && q[0] == a && q.last() == c);
}

proof fn lemma_closed_keeps_path(g: Seq<StateView>, s: Set<usize>, p: Seq<usize>)
    requires
        eps_closed(g, s),
        eps_path(g, p),
        s.contains(p[0]),
    ensures
        s.contains(p.last()),
    decreases p.len(),
{
    if p.len() > 1 {
        let q = p.drop_last();
        assert forall|k: int| 0 <= k < q.len() - 1 implies eps_edge(g, #[trigger] q[k], q[k + 1]) by {
            assert(eps_edge(g, p[k], p[k + 1]));
        }
        lemma_closed_keeps_path(g, s, q);
        assert(eps_edge(g, p[p.len() - 2], p[p.len() - 2 + 1]));
    }
}

/// A set that no epsilon edge leaves holds the closure of each of its members.
proof fn lemma_closed_holds_closure(g: Seq<StateView>, s: Set<usize>, a: usize)
    requires
        eps_closed(g, s),
        s.contains(a),
    ensures
        eps_closure(g, a).subset_of(s),
{
    assert forall|x: usize| eps_closure(g, a).contains(x) implies s.contains(x) by {
        let p = choose|p: Seq<usize>| eps_path(g, p) && p[0] == a && #[trigger] p.last() == x;
        lemma_closed_keeps_path(g, s, p);
    }
}

fn list_contains(v: &Vec<usize>, x: usize) -> (r: bool)
    ensures
        r == v@.contains(x),
{
    let mut k: usize = 0;
    while k < v.len()
        invariant
            0 <= k <= v@.len(),
            forall|j: int| 0 <= j < k ==> v@[j] != x,
        decreases v@.len() - k,
    {
        if v[k] == x {
            return true;
        }
        k += 1;
    }
    false
}

/// The epsilon-closure of `from`: the states reached from it over epsilon
/// edges, each once, `from` first.
pub fn closure_of(nfa: &Nfa, from: usize) -> (list: Vec<usize>)
    requires
        nfa.wf(),
        from < nfa.states@.len(),
    ensures
        state_list(list@, nfa.states@.len()),
        list@.to_set() == eps_closure(nfa.graph(), from),
        list@.len() > 0,
        list@[0] == from,
{
    let mut list: Vec<usize> = Vec::new();
    epsilon_closure(nfa, from, &mut list);
    proof {
        assert(list@.to_set() =~= eps_closure(nfa.graph(), from));
        lemma_reaches_self(nfa.graph(), from);
        assert(list@.to_set().contains(from));
        assert(list@.contains(from));
    }
    list
}

/// Adds to `visited` the epsilon-closure of `from`: the states reached from it
/// over epsilon edges, each once, after those already listed.
fn epsilon_closure(nfa: &Nfa, from: usize, visited: &mut Vec<usize>)
    requires
        nfa.wf(),
        from < nfa.states@.len(),
        state_list(old(visited)@, nfa.states@.len()),
        eps_closed(nfa.graph(), old(visited)@.to_set()),
    ensures
        state_list(final(visited)@, nfa.states@.len()),
        eps_closed(nfa.graph(), final(visited)@.to_set()),
        final(visited)@.to_set() == old(visited)@.to_set().union(eps_closure(nfa.graph(), from)),
        old(visited)@.len() <= final(visited)@.len(),
        final(visited)@.take(old(visited)@.len() as int) == old(visited)@,
        !old(visited)@.contains(from) ==> final(visited)@.len() > old(visited)@.len(),
        !old(visited)@.contains(from) ==> final(visited)@[old(visited)@.len() as int] == from,
{
    let ghost g = nfa.graph();
    let ghost base = visited@;
    proof {
        lemma_reaches_self(g, from);
    }
    if list_contains(visited, from) {
        proof {
            lemma_closed_holds_closure(g, base.to_set(), from);
            assert(base.to_set() =~= base.to_set().union(eps_closure(g, from)));
            assert(base.take(base.len() as int) =~= base);
        }
        return ;
    }
    let mut head: usize = visited.len();
    visited.push(from);
    proof {
        assert(visited@.take(base.len() as int) =~= base);
        assert forall|k: int, b: usize|
            0 <= k < head && #[trigger] eps_edge(g, visited@[k], b) implies visited@.contains(b) by {
            assert(base.to_set().contains(base[k]));
            assert(base.to_set().contains(b));
            lemma_push_keeps(base, visited@, from);
        }
        assert forall|k: int| base.len() <= k < visited@.len() implies eps_reaches(
            g,
            from,
            #[trigger] visited@[k],
        ) by {}
    }
    while head < visited.len()
        invariant
            nfa.wf(),
            g == nfa.graph(),
            base == old(visited)@,
            eps_closed(g, base.to_set()),
            base.len() <= head <= visited@.len(),
            base.len() < visited@.len(),
            visited@[base.len() as int] == from,
            visited@.take(base.len() as int) == base,
            state_list(visited@, nfa.states@.len()),
            forall|k: int| base.len() <= k < visited@.len() ==> eps_reaches(g, from, #[trigger] visited@[k]),
            forall|k: int, b: usize|
                0 <= k < head && #[trigger] eps_edge(g, visited@[k], b) ==> visited@.contains(b),
        decreases nfa.states@.len() - head,
    {
        let v = visited[head];
        let ghost edges = g[v as int].epsilon;
        assert(state_closed_at(g, v as int));
        let mut m: usize = 0;
        while m < nfa.states[v].epsilon_neighbors.len()
            invariant
                nfa.wf(),
                g == nfa.graph(),
                v < nfa.states@.len(),
                edges == g[v as int].epsilon,
                edges == nfa.states@[v as int].epsilon_neighbors@,
                v == visited@[head as int],
                0 <= m <= edges.len(),
                base.len() <= head < visited@.len(),
                visited@[base.len() as int] == from,
                visited@.take(base.len() as int) == base,
                state_list(visited@, nfa.states@.len()),
                forall|k: int| base.len() <= k < visited@.len() ==> eps_reaches(g, from, #[trigger] visited@[k]),
                forall|k: int, b: usize|
                    0 <= k < head && #[trigger] eps_edge(g, visited@[k], b) ==> visited@.contains(b),
                forall|j: int| 0 <= j < m ==> visited@.contains(#[trigger] edges[j]),
            decreases edges.len() - m,
        {
            let w = nfa.states[v].epsilon_neighbors[m];
            let ghost before = visited@;
            assert(edges[m as int] == w);
            assert(eps_edge(g, v, w));
            if !list_contains(visited, w) {
                visited.push(w);
                proof {
                    lemma_reaches_extend(g, from, v, w);
                    assert(visited@.take(base.len() as int) =~= before.take(base.len() as int));
                }
            }
            proof {
                lemma_push_keeps(before, visited@, w);
                assert forall|j: int| 0 <= j < m + 1 implies visited@.contains(#[trigger] edges[j]) by {
                    if j < m {
                        assert(before.contains(edges[j]));
                    }
                }
                assert forall|k: int, b: usize|
                    0 <= k < head && #[trigger] eps_edge(g, visited@[k], b) implies visited@.contains(b) by {
                    assert(visited@[k] == before[k]);
                    assert(before.contains(b));
                }
            }
            m += 1;
        }
        proof {
            assert forall|k: int, b: usize|
                0 <= k < head + 1 && #[trigger] eps_edge(g, visited@[k], b) implies visited@.contains(b) by {
                if k == head {
                    let j = choose|j: int| 0 <= j < edges.len() && edges[j] == b;
                    assert(visited@.contains(edges[j]));
                }
            }
            lemma_state_list_len(visited@, nfa.states@.len());
        }
        head += 1;
    }
    proof {
        let s = visited@.to_set();
        assert forall|a: usize, b: usize| s.contains(a) && #[trigger] eps_edge(g, a, b) implies s.contains(b) by {
            let k = choose|k: int| 0 <= k < visited@.len() && visited@[k] == a;
            assert(eps_edge(g, visited@[k], b));
        }
        assert(visited@[base.len() as int] == from);
        assert(s.contains(from));
        lemma_closed_holds_closure(g, s, from);
        assert forall|x: usize| s.contains(x) implies base.to_set().union(eps_closure(g, from)).contains(x) by {
            let k = choose|k: int| 0 <= k < visited@.len() && visited@[k] == x;
            if k < base.len() {
                assert(visited@.take(base.len() as int)[k] == x);
                assert(base.contains(x));
            } else {
                assert(eps_reaches(g, from, visited@[k]));
            }
        }
        assert forall|x: usize| base.to_set().union(eps_closure(g, from)).contains(x) implies s.contains(x) by {
            if base.contains(x) {
                let k = choose|k: int| 0 <= k < base.len() && base[k] == x;
                assert(visited@.take(base.len() as int)[k] == x);
                assert(visited@[k] == x);
            }
        }
        assert(s =~= base.to_set().union(eps_closure(g, from)));
    }
}

/// The edges of state `a` lead to states of `g`.
pub open spec fn state_closed_at(g: Seq<StateView>, a: int) -> bool {
    crate::nfa::state_closed(g[a], g.len())
}

/// After at most one push of `w`, the list holds what it held, and `w`.
proof fn lemma_push_keeps(before: Seq<usize>, after: Seq<usize>, w: usize)
    requires
        after == before || (after == before.push(w)),
        after == before ==> before.contains(w),
    ensures
        after.contains(w),
        forall|x: usize| before.contains(x) ==> after.contains(x),
        forall|k: int| 0 <= k < before.len() ==> after[k] == before[k],
{
    if after == before {
    } else {
        assert(after[before.len() as int] == w);
        assert forall|x: usize| before.contains(x) implies after.contains(x) by {
            let k = choose|k: int| 0 <= k < before.len() && before[k] == x;
            assert(after[k] == x);
        }
    }
}


// ---------------------------------------------------------------------------
// The deterministic automaton
// ---------------------------------------------------------------------------

/// One state of the DFA: the NFA states that it stands for, each once.
pub struct StateVertex {
    pub epsilon_closure: Vec<usize>,
}

/// A DFA state's place in its automaton, which is its row in the table.
#[derive(PartialEq, Eq, Clone, Copy, Debug, Structural)]
pub struct DfaVertexRef(pub usize);

/// One row of the table.
pub struct LookupState {
    /// The rules that accept here, each once; none where the state does not accept.
    pub handlers: Vec<usize>,
    /// The row that each byte leads to.
    pub neighbors: HashMap<u8, usize>,
}

/// The table of a DFA; row 0 is the start.
pub struct LookupTable {
    pub states: Vec<LookupState>,
}

/// A DFA: its states, and the table with one row for each.
pub struct Dfa {
    pub vertexs: Vec<StateVertex>,
    pub lookup_table: LookupTable,
}

/// The NFA states that DFA state `i` stands for.
pub open spec fn members_at(vs: Seq<StateVertex>, i: int) -> Set<usize> {
    vs[i].epsilon_closure@.to_set()
}

/// The set holds no state.
pub open spec fn dead(t: Set<usize>) -> bool {
    forall|x: usize| !t.contains(x)
}

/// Row `i` is right on byte `c`: no entry where the members reach nothing on
/// `c`, else an entry that leads to the state that stands for what they reach.
pub open spec fn row_done(
    g: Seq<StateView>,
    vs: Seq<StateVertex>,
    rows: Seq<LookupState>,
    i: int,
    c: u8,
) -> bool {
    let t = byte_step(g, members_at(vs, i), c);
    let row = rows[i].neighbors@;
    if dead(t) {
        !row.contains_key(c)
    } else {
        row.contains_key(c) && row[c] < vs.len() && members_at(vs, row[c] as int) == t
    }
}

/// Row `i` lists the handlers of the members of state `i`, each once.
pub open spec fn handlers_done(
    g: Seq<StateView>,
    vs: Seq<StateVertex>,
    rows: Seq<LookupState>,
    i: int,
) -> bool {
    &&& rows[i].handlers@.no_duplicates()
    &&& rows[i].handlers@.to_set() == handlers_of(g, members_at(vs, i))
}

/// The states and rows are the subset construction of `g` from `start`, up to
/// the order of the states after the first.
pub open spec fn subset_construction(
    g: Seq<StateView>,
    start: usize,
    vs: Seq<StateVertex>,
    rows: Seq<LookupState>,
) -> bool {
    &&& vs.len() == rows.len()
    &&& vs.len() >= 1
    &&& members_at(vs, 0) == eps_closure(g, start)
    &&& forall|i: int|
        0 <= i < vs.len() ==> state_list(#[trigger] vs[i].epsilon_closure@, g.len())
            && vs[i].epsilon_closure@.len() > 0
    &&& forall|i: int, j: int| 0 <= i < j < vs.len() ==> members_at(vs, i) != members_at(vs, j)
    &&& forall|i: int| 0 <= i < vs.len() ==> handlers_done(g, vs, rows, i)
    &&& forall|i: int, c: u8| 0 <= i < vs.len() ==> #[trigger] row_done(g, vs, rows, i, c)
    &&& forall|i: int|
        0 <= i < vs.len() ==> exists|w: Seq<u8>| #[trigger]
            members_at(vs, i) == states_after(g, start, w)
}

/// Member `j` of the list has an edge on `c` from whose target `x` is reached
/// without input, for some `j` below `k`.
pub open spec fn hit(g: Seq<StateView>, list: Seq<usize>, k: int, c: u8, x: usize) -> bool {
    exists|j: int|
        0 <= j < k && j < list.len() && list[j] < g.len() && g[list[j] as int].neighbors.contains_key(
            c,
        ) && #[trigger] eps_reaches(g, g[list[j] as int].neighbors[c], x)
}

/// The states that the listed states reach on byte `c`.
fn step_closure(nfa: &Nfa, list: &Vec<usize>, c: u8) -> (t: Vec<usize>)
    requires
        nfa.wf(),
        state_list(list@, nfa.states@.len()),
    ensures
        state_list(t@, nfa.states@.len()),
        t@.to_set() == byte_step(nfa.graph(), list@.to_set(), c),
{
    let ghost g = nfa.graph();
    let mut t: Vec<usize> = Vec::new();
    let mut k: usize = 0;
    while k < list.len()
        invariant
            nfa.wf(),
            g == nfa.graph(),
            state_list(list@, nfa.states@.len()),
            0 <= k <= list@.len(),
            state_list(t@, nfa.states@.len()),
            eps_closed(g, t@.to_set()),
            forall|x: usize| t@.to_set().contains(x) <==> hit(g, list@, k as int, c, x),
        decreases list@.len() - k,
    {
        let a = list[k];
        let ghost before = t@.to_set();
        assert(state_closed_at(g, a as int));
        match nfa.states[a].neighbors.get(&c) {
            Some(b) => {
                let b = *b;
                assert(g[a as int].neighbors.contains_key(c) && g[a as int].neighbors[c] == b);
                epsilon_closure(nfa, b, &mut t);
                proof {
                    assert forall|x: usize| t@.to_set().contains(x) <==> hit(
                        g,
                        list@,
                        k + 1,
                        c,
                        x,
                    ) by {
                        if before.contains(x) {
                            assert(hit(g, list@, k as int, c, x));
                            let j = choose|j: int|
                                0 <= j < k && j < list@.len() && list@[j] < g.len() && g[list@[j] as int].neighbors.contains_key(
                                c) && #[trigger] eps_reaches(g, g[list@[j] as int].neighbors[c], x);
                            assert(0 <= j < k + 1 && eps_reaches(g, g[list@[j] as int].neighbors[c], x));
                        }
                        if eps_closure(g, b).contains(x) {
                            assert(eps_reaches(g, g[list@[k as int] as int].neighbors[c], x));
                        }
                        if hit(g, list@, k + 1, c, x) {
                            let j = choose|j: int|
                                0 <= j < k + 1 && j < list@.len() && list@[j] < g.len() && g[list@[j] as int].neighbors.contains_key(
                                c) && #[trigger] eps_reaches(g, g[list@[j] as int].neighbors[c], x);
                            if j < k {
                                assert(hit(g, list@, k as int, c, x));
                            } else {
                                assert(eps_closure(g, b).contains(x));
                            }
                        }
                    }
                }
            },
            None => {
                proof {
                    assert(!g[a as int].neighbors.contains_key(c));
                    assert forall|x: usize| t@.to_set().contains(x) <==> hit(
                        g,
                        list@,
                        k + 1,
                        c,
                        x,
                    ) by {
                        if before.contains(x) {
                            let j = choose|j: int|
                                0 <= j < k && j < list@.len() && list@[j] < g.len() && g[list@[j] as int].neighbors.contains_key(
                                c) && #[trigger] eps_reaches(g, g[list@[j] as int].neighbors[c], x);
                            assert(0 <= j < k + 1 && eps_reaches(g, g[list@[j] as int].neighbors[c], x));
                        }
                        if hit(g, list@, k + 1, c, x) {
                            let j = choose|j: int|
                                0 <= j < k + 1 && j < list@.len() && list@[j] < g.len() && g[list@[j] as int].neighbors.contains_key(
                                c) && #[trigger] eps_reaches(g, g[list@[j] as int].neighbors[c], x);
                            assert(j < k);
                            assert(hit(g, list@, k as int, c, x));
                        }
                    }
                }
            },
        }
        k += 1;
    }
    proof {
        let want = byte_step(g, list@.to_set(), c);
        assert forall|x: usize| t@.to_set().contains(x) <==> want.contains(x) by {
            if t@.to_set().contains(x) {
                let j = choose|j: int|
                    0 <= j < k && j < list@.len() && list@[j] < g.len() && g[list@[j] as int].neighbors.contains_key(
                    c) && #[trigger] eps_reaches(g, g[list@[j] as int].neighbors[c], x);
                assert(list@.to_set().contains(list@[j]));
            }
            if want.contains(x) {
                let a = choose|a: usize|
                    list@.to_set().contains(a) && a < g.len() && g[a as int].neighbors.contains_key(c)
                        && #[trigger] eps_reaches(g, g[a as int].neighbors[c], x);
                let j = choose|j: int| 0 <= j < list@.len() && list@[j] == a;
                assert(eps_reaches(g, g[list@[j] as int].neighbors[c], x));
                assert(hit(g, list@, k as int, c, x));
            }
        }
        assert(t@.to_set() =~= want);
    }
    t
}

/// The handlers of the listed states, each once, in the order of the list.
fn collect_handlers(nfa: &Nfa, list: &Vec<usize>) -> (h: Vec<usize>)
    requires
        nfa.wf(),
        state_list(list@, nfa.states@.len()),
    ensures
        h@.no_duplicates(),
        h@.to_set() == handlers_of(nfa.graph(), list@.to_set()),
{
    let ghost g = nfa.graph();
    let mut h: Vec<usize> = Vec::new();
    let mut k: usize = 0;
    while k < list.len()
        invariant
            nfa.wf(),
            g == nfa.graph(),
            state_list(list@, nfa.states@.len()),
            0 <= k <= list@.len(),
            h@.no_duplicates(),
            forall|x: usize|
                h@.contains(x) <==> exists|j: int|
                    0 <= j < k && (#[trigger] g[list@[j] as int].handler) == Some(x),
        decreases list@.len() - k,
    {
        let a = list[k];
        let ghost before = h@;
        match nfa.states[a].handler {
            Some(id) => {
                assert(g[list@[k as int] as int].handler == Some(id));
                if !list_contains(&h, id) {
                    h.push(id);
                }
                proof {
                    lemma_push_keeps(before, h@, id);
                    assert forall|x: usize| h@.contains(x) implies exists|j: int|
                        0 <= j < k + 1 && (#[trigger] g[list@[j] as int].handler) == Some(x) by {
                        if before.contains(x) {
                            let j = choose|j: int|
                                0 <= j < k && (#[trigger] g[list@[j] as int].handler) == Some(x);
                            assert(0 <= j < k + 1 && g[list@[j] as int].handler == Some(x));
                        } else {
                            let i = choose|i: int| 0 <= i < h@.len() && h@[i] == x;
                            assert(i == before.len());
                        }
                    }
                    assert forall|x: usize|
                        (exists|j: int|
                            0 <= j < k + 1 && (#[trigger] g[list@[j] as int].handler) == Some(
                                x,
                            )) implies h@.contains(x) by {
                        let j = choose|j: int|
                            0 <= j < k + 1 && (#[trigger] g[list@[j] as int].handler) == Some(x);
                        if j < k {
                            assert(before.contains(x));
                        }
                    }
                }
            },
            None => {
                proof {
                    assert forall|x: usize|
                        (exists|j: int|
                            0 <= j < k + 1 && (#[trigger] g[list@[j] as int].handler) == Some(
                                x,
                            )) implies h@.contains(x) by {
                        let j = choose|j: int|
                            0 <= j < k + 1 && (#[trigger] g[list@[j] as int].handler) == Some(x);
                        assert(j < k);
                    }
                }
            },
        }
        k += 1;
    }
    proof {
        let want = handlers_of(g, list@.to_set());
        assert forall|x: usize| h@.to_set().contains(x) <==> want.contains(x) by {
            if h@.contains(x) {
                let j = choose|j: int|
                    0 <= j < k && (#[trigger] g[list@[j] as int].handler) == Some(x);
                assert(list@.to_set().contains(list@[j]));
            }
            if want.contains(x) {
                let a = choose|a: usize|
                    list@.to_set().contains(a) && a < g.len() && (#[trigger] g[a as int].handler)
                        == Some(x);
                let j = choose|j: int| 0 <= j < list@.len() && list@[j] == a;
                assert(g[list@[j] as int].handler == Some(x));
            }
        }
        assert(h@.to_set() =~= want);
    }
    h
}

fn holds_all(a: &Vec<usize>, b: &Vec<usize>) -> (r: bool)
    ensures
        r == a@.to_set().subset_of(b@.to_set()),
{
    let mut k: usize = 0;
    while k < a.len()
        invariant
            0 <= k <= a@.len(),
            forall|j: int| 0 <= j < k ==> b@.contains(#[trigger] a@[j]),
        decreases a@.len() - k,
    {
        if !list_contains(b, a[k]) {
            assert(a@.to_set().contains(a@[k as int]));
            return false;
        }
        k += 1;
    }
    proof {
        assert forall|x: usize| a@.to_set().contains(x) implies b@.to_set().contains(x) by {
            let j = choose|j: int| 0 <= j < a@.len() && a@[j] == x;
            assert(b@.contains(a@[j]));
        }
    }
    true
}

/// Two lists hold the same states: as many, and every member of each in the other.
fn same_members(a: &Vec<usize>, b: &Vec<usize>) -> (r: bool)
    requires
        a@.no_duplicates(),
        b@.no_duplicates(),
    ensures
        r == (a@.to_set() == b@.to_set()),
{
    proof {
        a@.unique_seq_to_set();
        b@.unique_seq_to_set();
    }
    if a.len() != b.len() {
        return false;
    }
    let r = holds_all(a, b) && holds_all(b, a);
    proof {
        if r {
            assert(a@.to_set() =~= b@.to_set());
        }
    }
    r
}

/// The first state that stands for the listed NFA states, if there is one.
fn find_state(vs: &Vec<StateVertex>, t: &Vec<usize>) -> (r: Option<usize>)
    requires
        t@.no_duplicates(),
        forall|i: int| 0 <= i < vs@.len() ==> (#[trigger] vs@[i].epsilon_closure@).no_duplicates(),
    ensures
        match r {
            Some(j) => j < vs@.len() && members_at(vs@, j as int) == t@.to_set(),
            None => forall|i: int| 0 <= i < vs@.len() ==> members_at(vs@, i) != t@.to_set(),
        },
{
    let mut k: usize = 0;
    while k < vs.len()
        invariant
            0 <= k <= vs@.len(),
            t@.no_duplicates(),
            forall|i: int| 0 <= i < vs@.len() ==> (#[trigger] vs@[i].epsilon_closure@).no_duplicates(),
            forall|i: int| 0 <= i < k ==> members_at(vs@, i) != t@.to_set(),
        decreases vs@.len() - k,
    {
        if same_members(&vs[k].epsilon_closure, t) {
            return Some(k);
        }
        k += 1;
    }
    None
}


/// What holds while row `cur` is filled, before byte `next`: the rows below
/// `cur` are done, row `cur` is done below `next` and empty from there on, and
/// the rows above `cur` are empty.
pub open spec fn under_construction(
    g: Seq<StateView>,
    start: usize,
    vs: Seq<StateVertex>,
    rows: Seq<LookupState>,
    words: Seq<Seq<u8>>,
    cur: int,
    next: int,
) -> bool {
    &&& vs.len() == rows.len()
    &&& vs.len() == words.len()
    &&& vs.len() >= 1
    &&& 0 <= cur <= vs.len()
    &&& members_at(vs, 0) == eps_closure(g, start)
    &&& forall|i: int|
        0 <= i < vs.len() ==> state_list(#[trigger] vs[i].epsilon_closure@, g.len())
            && vs[i].epsilon_closure@.len() > 0
    &&& forall|i: int, j: int| 0 <= i < j < vs.len() ==> members_at(vs, i) != members_at(vs, j)
    &&& forall|i: int| 0 <= i < vs.len() ==> handlers_done(g, vs, rows, i)
    &&& forall|i: int, c: u8| 0 <= i < cur ==> #[trigger] row_done(g, vs, rows, i, c)
    &&& forall|c: u8| cur < vs.len() && c < next ==> #[trigger] row_done(g, vs, rows, cur, c)
    &&& forall|c: u8|
        cur < vs.len() && c >= next ==> !(#[trigger] rows[cur].neighbors@.contains_key(c))
    &&& forall|i: int, c: u8|
        cur < i < vs.len() ==> !(#[trigger] rows[i].neighbors@.contains_key(c))
    &&& forall|i: int|
        0 <= i < vs.len() ==> members_at(vs, i) == states_after(g, start, #[trigger] words[i])
}

/// The entry of row `i2` on byte `c2` is made before that of row `i` on `c`:
/// rows are filled in their order, and each row by rising byte.
pub open spec fn entry_before(i2: int, c2: int, i: int, c: int) -> bool {
    i2 < i || (i2 == i && c2 < c)
}

/// Row `j` was made for the entry of row `i` on byte `c`: that entry leads to
/// `j`, and every entry made before it leads to a row made before `j`.
pub open spec fn made_at(rows: Seq<LookupState>, j: int, i: int, c: u8) -> bool {
    &&& 0 <= i < rows.len()
    &&& rows[i].neighbors@.contains_key(c)
    &&& rows[i].neighbors@[c] == j
    &&& forall|i2: int, c2: u8|
        0 <= i2 < rows.len() && entry_before(i2, c2 as int, i, c as int)
            && #[trigger] rows[i2].neighbors@.contains_key(c2) ==> rows[i2].neighbors@[c2] < j
}

/// The rows after the first are numbered in the order in which they were
/// first reached: row by row, and in each row by rising byte.
pub open spec fn numbered_in_order(rows: Seq<LookupState>) -> bool {
    forall|j: int| 1 <= j < rows.len() ==> #[trigger] has_origin(rows, j)
}

/// Row `j` was made for some entry.
pub open spec fn has_origin(rows: Seq<LookupState>, j: int) -> bool {
    exists|i: int, c: u8| #[trigger] made_at(rows, j, i, c)
}

/// Every entry lies before the place (`cur`, `next`) and leads to a row.
pub open spec fn placed(rows: Seq<LookupState>, cur: int, next: int) -> bool {
    forall|i: int, c: u8|
        0 <= i < rows.len() && #[trigger] rows[i].neighbors@.contains_key(c) ==> entry_before(
            i,
            c as int,
            cur,
            next,
        ) && rows[i].neighbors@[c] < rows.len()
}

/// Each row after the first was made for the entry that `origins` names, and
/// that entry lies before the place (`cur`, `next`).
pub open spec fn ordered_so_far(
    rows: Seq<LookupState>,
    origins: Seq<(int, u8)>,
    cur: int,
    next: int,
) -> bool {
    &&& origins.len() == rows.len()
    &&& forall|j: int|
        1 <= j < rows.len() ==> made_at(rows, j, (#[trigger] origins[j]).0, origins[j].1)
            && entry_before(origins[j].0, origins[j].1 as int, cur, next)
}

/// One more entry, at the place (`cur`, `byte`), to a row that was there or to
/// the one new row, keeps the rows numbered in order.
proof fn lemma_entry_made(
    rows0: Seq<LookupState>,
    rows2: Seq<LookupState>,
    origins0: Seq<(int, u8)>,
    cur: int,
    byte: u8,
    target: usize,
) -> (origins2: Seq<(int, u8)>)
    requires
        0 <= cur < rows0.len(),
        placed(rows0, cur, byte as int),
        ordered_so_far(rows0, origins0, cur, byte as int),
        target <= rows0.len(),
        rows2.len() == (if target == rows0.len() {
            rows0.len() + 1
        } else {
            rows0.len()
        }),
        forall|i: int| 0 <= i < rows0.len() && i != cur ==> rows2[i] == rows0[i],
        target == rows0.len() ==> rows2[target as int].neighbors@ == Map::<u8, usize>::empty(),
        rows2[cur].neighbors@ == rows0[cur].neighbors@.insert(byte, target),
    ensures
        ordered_so_far(rows2, origins2, cur, byte + 1),
        origins2 == (if target == rows0.len() {
            origins0.push((cur, byte))
        } else {
            origins0
        }),
{
    let origins2 = if target == rows0.len() {
        origins0.push((cur, byte))
    } else {
        origins0
    };
    assert forall|j: int| 1 <= j < rows2.len() implies made_at(
        rows2,
        j,
        (#[trigger] origins2[j]).0,
        origins2[j].1,
    ) && entry_before(origins2[j].0, origins2[j].1 as int, cur, byte + 1) by {
        if j < rows0.len() {
            let oi = origins0[j].0;
            let oc = origins0[j].1;
            assert(made_at(rows0, j, oi, oc));
            assert(entry_before(oi, oc as int, cur, byte as int));
            assert forall|i2: int, c2: u8|
                0 <= i2 < rows2.len() && entry_before(i2, c2 as int, oi, oc as int)
                    && #[trigger] rows2[i2].neighbors@.contains_key(c2) implies rows2[i2].neighbors@[c2]
                < j by {
                if i2 < rows0.len() {
                    assert(rows0[i2].neighbors@.contains_key(c2));
                }
            }
        } else {
            assert forall|i2: int, c2: u8|
                0 <= i2 < rows2.len() && entry_before(i2, c2 as int, cur, byte as int)
                    && #[trigger] rows2[i2].neighbors@.contains_key(c2) implies rows2[i2].neighbors@[c2]
                < j by {
                if i2 < rows0.len() {
                    assert(rows0[i2].neighbors@.contains_key(c2));
                }
            }
        }
    }
    origins2
}

/// States that stand for different sets of the states of `g` are at most 2
/// to the power of the number of those.
proof fn lemma_states_bound(g: Seq<StateView>, vs: Seq<StateVertex>)
    requires
        g.len() <= usize::MAX,
        forall|i: int| 0 <= i < vs.len() ==> state_list(#[trigger] vs[i].epsilon_closure@, g.len()),
        forall|i: int, j: int| 0 <= i < j < vs.len() ==> members_at(vs, i) != members_at(vs, j),
    ensures
        vs.len() <= two_to(g.len()),
{
    let lists = vs.map_values(|v: StateVertex| v.epsilon_closure@);
    assert forall|i: int, j: int| 0 <= i < j < lists.len() implies (#[trigger] lists[i]).to_set() != (
    #[trigger] lists[j]).to_set() by {
        assert(members_at(vs, i) != members_at(vs, j));
    }
    lemma_distinct_sets_bound(lists, g.len());
}

impl StateVertex {
    /// The NFA states that this state stands for.
    pub open spec fn members(&self) -> Set<usize> {
        self.epsilon_closure@.to_set()
    }
}

impl DfaVertexRef {
    /// The reference to the state at `index`.
    pub fn new(index: usize) -> (r: DfaVertexRef)
        ensures
            r.0 == index,
    {
        DfaVertexRef(index)
    }
}

impl LookupState {
    /// A row without handlers and without entries.
    pub fn new() -> (s: LookupState)
        ensures
            s.handlers@ == Seq::<usize>::empty(),
            s.neighbors@ == Map::<u8, usize>::empty(),
    {
        LookupState { handlers: Vec::new(), neighbors: HashMap::new() }
    }

    /// Makes byte `ch` lead to row `index`.
    pub fn insert_neighbor(&mut self, ch: u8, index: usize)
        ensures
            final(self).neighbors@ == old(self).neighbors@.insert(ch, index),
            final(self).handlers == old(self).handlers,
    {
        self.neighbors.insert(ch, index);
    }
}

/// Every entry of the rows leads to a row, and there is a first row.
pub open spec fn rows_wf(rows: Seq<LookupState>) -> bool {
    &&& rows.len() >= 1
    &&& forall|i: int, c: u8|
        0 <= i < rows.len() && #[trigger] rows[i].neighbors@.contains_key(c)
            ==> rows[i].neighbors@[c] < rows.len()
}

impl LookupTable {
    /// A table without rows.
    pub fn new() -> (t: LookupTable)
        ensures
            t.states@.len() == 0,
    {
        LookupTable { states: Vec::new() }
    }

    /// The table has a start row, and every entry leads to a row.
    pub open spec fn wf(&self) -> bool {
        rows_wf(self.states@)
    }

    /// Row `id` exists and accepts: it lists a handler.
    pub fn is_acceptable(&self, id: usize) -> (r: bool)
        ensures
            r == (id < self.states@.len() && self.states@[id as int].handlers@.len() > 0),
    {
        id < self.states.len() && self.states[id].handlers.len() > 0
    }

    /// Decides whether the table is well formed.
    pub fn is_valid(&self) -> (r: bool)
        ensures
            r == self.wf(),
    {
        if self.states.len() == 0 {
            return false;
        }
        let mut i: usize = 0;
        while i < self.states.len()
            invariant
                0 <= i <= self.states@.len(),
                forall|k: int, c: u8|
                    0 <= k < i && #[trigger] self.states@[k].neighbors@.contains_key(c)
                        ==> self.states@[k].neighbors@[c] < self.states@.len(),
            decreases self.states@.len() - i,
        {
            let mut next: u16 = 0;
            while next < 256
                invariant
                    0 <= i < self.states@.len(),
                    0 <= next <= 256,
                    forall|c: u8|
                        c < next && #[trigger] self.states@[i as int].neighbors@.contains_key(c)
                            ==> self.states@[i as int].neighbors@[c] < self.states@.len(),
                decreases 256 - next,
            {
                let byte = next as u8;
                match self.states[i].neighbors.get(&byte) {
                    Some(target) => {
                        if *target >= self.states.len() {
                            assert(self.states@[i as int].neighbors@.contains_key(byte));
                            return false;
                        }
                    },
                    None => {},
                }
                next += 1;
            }
            i += 1;
        }
        true
    }
}

fn set_target(rows: &mut Vec<LookupState>, cur: usize, byte: u8, target: usize)
    requires
        cur < old(rows)@.len(),
    ensures
        final(rows)@.len() == old(rows)@.len(),
        forall|i: int| 0 <= i < old(rows)@.len() && i != cur ==> final(rows)@[i] == old(rows)@[i],
        final(rows)@[cur as int].neighbors@ == old(rows)@[cur as int].neighbors@.insert(byte, target),
        final(rows)@[cur as int].handlers == old(rows)@[cur as int].handlers,
{
    rows[cur].insert_neighbor(byte, target);
}

impl Dfa {
    /// The automaton is the subset construction of `nfa`.
    pub open spec fn represents(&self, nfa: &Nfa) -> bool {
        subset_construction(nfa.graph(), nfa.start.0, self.vertexs@, self.lookup_table.states@)
    }

    /// Builds the DFA of an NFA. State 0 stands for the epsilon-closure of the
    /// NFA's start. The states are taken in turn and, for each, the bytes in
    /// rising order; a set of NFA states that no earlier state stands for
    /// becomes the next state.
    pub fn build(nfa: &Nfa) -> (dfa: Dfa)
        requires
            nfa.wf(),
        ensures
            dfa.represents(nfa),
            dfa.lookup_table.wf(),
            numbered_in_order(dfa.lookup_table.states@),
    {
        let ghost g = nfa.graph();
        let ghost start = nfa.start.0;
        let size: usize = nfa.states.len();
        assert(g.len() == size);
        let mut vs: Vec<StateVertex> = Vec::new();
        let mut rows: Vec<LookupState> = Vec::new();
        let first = closure_of(nfa, nfa.start.0);
        let first_handlers = collect_handlers(nfa, &first);
        vs.push(StateVertex { epsilon_closure: first });
        rows.push(LookupState { handlers: first_handlers, neighbors: HashMap::new() });
        proof {
            lemma_states_bound(g, vs@);
        }
        let ghost mut words: Seq<Seq<u8>> = seq![Seq::<u8>::empty()];
        let ghost mut origins: Seq<(int, u8)> = seq![(0int, 0u8)];
        let mut cur: usize = 0;
        while cur < vs.len()
            invariant
                nfa.wf(),
                g == nfa.graph(),
                start == nfa.start.0,
                under_construction(g, start, vs@, rows@, words, cur as int, 0),
                ordered_so_far(rows@, origins, cur as int, 0),
                g.len() <= usize::MAX,
                vs@.len() <= two_to(g.len()),
            decreases two_to(g.len()) - vs@.len(), vs@.len() - cur,
        {
            let ghost count = vs@.len();
            let mut next: u16 = 0;
            while next < 256
                invariant
                    nfa.wf(),
                    g.len() <= usize::MAX,
                    count <= vs@.len(),
                    g == nfa.graph(),
                    start == nfa.start.0,
                    cur < vs@.len(),
                    0 <= next <= 256,
                    under_construction(g, start, vs@, rows@, words, cur as int, next as int),
                    ordered_so_far(rows@, origins, cur as int, next as int),
                decreases 256 - next,
            {
                let byte = next as u8;
                let ghost vs0 = vs@;
                let ghost rows0 = rows@;
                let ghost words0 = words;
                let t = step_closure(nfa, &vs[cur].epsilon_closure, byte);
                let ghost tset = t@.to_set();
                assert(tset == byte_step(g, members_at(vs0, cur as int), byte));
                if t.len() > 0 {
                    assert(tset.contains(t@[0]));
                    let target = match find_state(&vs, &t) {
                        Some(j) => j,
                        None => {
                            let handlers = collect_handlers(nfa, &t);
                            vs.push(StateVertex { epsilon_closure: t });
                            rows.push(LookupState { handlers, neighbors: HashMap::new() });
                            proof {
                                words = words.push(words[cur as int].push(byte));
                                assert(words[cur as int].push(byte).drop_last() =~= words[cur as int]);
                            }
                            vs.len() - 1
                        },
                    };
                    let ghost vs1 = vs@;
                    let ghost rows1 = rows@;
                    proof {
                        assert forall|i: int, c: u8| 0 <= i < vs0.len() implies row_done(
                            g,
                            vs1,
                            rows1,
                            i,
                            c,
                        ) == row_done(g, vs0, rows0, i, c) by {
                            assert(vs1[i] == vs0[i]);
                            assert(rows1[i] == rows0[i]);
                            if rows0[i].neighbors@.contains_key(c) && rows0[i].neighbors@[c] < vs0.len() {
                                assert(vs1[rows0[i].neighbors@[c] as int] == vs0[rows0[i].neighbors@[c] as int]);
                            }
                        }
                        assert forall|i: int| 0 <= i < vs1.len() implies handlers_done(
                            g,
                            vs1,
                            rows1,
                            i,
                        ) by {
                            if i < vs0.len() {
                                assert(handlers_done(g, vs0, rows0, i));
                                assert(vs1[i] == vs0[i]);
                                assert(rows1[i] == rows0[i]);
                            }
                        }
                        assert forall|i: int, j: int| 0 <= i < j < vs1.len() implies members_at(
                            vs1,
                            i,
                        ) != members_at(vs1, j) by {
                            assert(vs1[i] == vs0[i]);
                            if j < vs0.len() {
                                assert(vs1[j] == vs0[j]);
                                assert(members_at(vs0, i) != members_at(vs0, j));
                            } else {
                                assert(members_at(vs0, i) != tset);
                                assert(members_at(vs1, j) == tset);
                            }
                        }
                        assert(under_construction(g, start, vs1, rows1, words, cur as int, next as int));
                    }
                    set_target(&mut rows, cur, byte, target);
                    proof {
                        let rows2 = rows@;
                        assert forall|i: int, c: u8|
                            0 <= i < rows0.len() && #[trigger] rows0[i].neighbors@.contains_key(
                                c,
                            ) implies entry_before(i, c as int, cur as int, next as int)
                            && rows0[i].neighbors@[c] < rows0.len() by {
                            if i < cur || (i == cur && c < next) {
                                assert(row_done(g, vs0, rows0, i, c));
                            }
                        }
                        origins = lemma_entry_made(rows0, rows2, origins, cur as int, byte, target);
                        assert forall|i: int, c: u8| 0 <= i < vs1.len() && i != cur implies row_done(
                            g,
                            vs1,
                            rows2,
                            i,
                            c,
                        ) == row_done(g, vs1, rows1, i, c) by {
                            assert(rows2[i] == rows1[i]);
                        }
                        assert forall|c: u8| c != byte implies row_done(
                            g,
                            vs1,
                            rows2,
                            cur as int,
                            c,
                        ) == row_done(g, vs1, rows1, cur as int, c) by {}
                        assert(row_done(g, vs1, rows2, cur as int, byte));
                        assert forall|i: int| 0 <= i < vs1.len() implies handlers_done(
                            g,
                            vs1,
                            rows2,
                            i,
                        ) by {
                            assert(handlers_done(g, vs1, rows1, i));
                        }
                        assert(under_construction(
                            g,
                            start,
                            vs1,
                            rows2,
                            words,
                            cur as int,
                            next as int + 1,
                        ));
                    }
                } else {
                    proof {
                        assert(dead(tset));
                        assert(row_done(g, vs0, rows0, cur as int, byte));
                    }
                }
                next += 1;
            }
            proof {
                lemma_states_bound(g, vs@);
            }
            cur += 1;
        }
        proof {
            assert forall|i: int| 0 <= i < vs@.len() implies exists|w: Seq<u8>| #[trigger]
                members_at(vs@, i) == states_after(g, start, w) by {
                assert(members_at(vs@, i) == states_after(g, start, words[i]));
            }
            assert forall|j: int| 1 <= j < rows@.len() implies #[trigger] has_origin(rows@, j) by {
                assert(made_at(rows@, j, origins[j].0, origins[j].1));
            }
        }
        proof {
            assert forall|i: int, c: u8|
                0 <= i < rows@.len() && #[trigger] rows@[i].neighbors@.contains_key(c) implies rows@[i].neighbors@[c]
                < rows@.len() by {
                assert(row_done(g, vs@, rows@, i, c));
            }
        }
        Dfa { vertexs: vs, lookup_table: LookupTable { states: rows } }
    }

    /// The start state.
    pub fn get_start(&self) -> (r: DfaVertexRef)
        ensures
            r.0 == 0,
    {
        DfaVertexRef(0)
    }
}

} // verus!
