//! The shape of the fragments that Thompson's construction builds: one state
//! without an outgoing edge, the end, and every state reached from the start.

use crate::nfa::{
    alternation, blank, closure, concatenation, literal, rule_fragment, thompson_from,
    with_epsilon, with_handler, with_pair, with_rule, Fragment, StateView,
};
use crate::regex_expr::Charactor;
use vstd::prelude::*;

verus! {

/// An edge leaves the state.
pub open spec fn has_out(s: StateView) -> bool {
    s.epsilon.len() > 0 || exists|c: u8| s.neighbors.contains_key(c)
}

/// `a` has an edge to `b`, on a byte or on none.
pub open spec fn edge(g: Seq<StateView>, a: int, b: int) -> bool {
    &&& 0 <= a < g.len()
    &&& ((exists|k: int| 0 <= k < g[a].epsilon.len() && #[trigger] g[a].epsilon[k] == b) || (exists|
        c: u8,
    | #[trigger] g[a].neighbors.contains_key(c) && g[a].neighbors[c] == b))
}

/// Each state of `p` has an edge to the next.
pub open spec fn walk(g: Seq<StateView>, p: Seq<int>) -> bool {
    &&& p.len() > 0
    &&& forall|k: int| 0 <= k < p.len() - 1 ==> edge(g, #[trigger] p[k], p[k + 1])
}

/// `b` is reached from `a` over edges.
pub open spec fn reaches(g: Seq<StateView>, a: int, b: int) -> bool {
    exists|p: Seq<int>| walk(g, p) && p[0] == a && #[trigger] p.last() == b
}

/// `h` has the states and the edges of `g`, and maybe more.
pub open spec fn extends(g: Seq<StateView>, h: Seq<StateView>) -> bool {
    &&& g.len() <= h.len()
    &&& forall|a: int, b: int| #[trigger] edge(g, a, b) ==> edge(h, a, b)
    &&& forall|a: int| 0 <= a < g.len() && has_out(#[trigger] g[a]) ==> has_out(h[a])
}

/// The states from `lo` up to `hi` are a fragment entered by `f.start` and
/// left by `f.end`: only the end has no outgoing edge, and the start reaches all.
pub open spec fn frag_ok(g: Seq<StateView>, f: Fragment, lo: int, hi: int) -> bool {
    &&& 0 <= lo <= f.start < hi
    &&& lo <= f.end < hi
    &&& hi <= g.len()
    &&& !has_out(g[f.end as int])
    &&& forall|a: int| lo <= a < hi && a != f.end ==> has_out(#[trigger] g[a])
    &&& forall|a: int| lo <= a < hi ==> #[trigger] reaches(g, f.start as int, a)
}

/// The whole arena is one fragment.
pub open spec fn shaped(g: Seq<StateView>, f: Fragment) -> bool {
    frag_ok(g, f, 0, g.len() as int)
}

/// The fragments of the stack lie side by side from `base` to the end of the
/// arena; `lows` holds where each begins, and the end.
pub open spec fn stack_ok(g: Seq<StateView>, stack: Seq<Fragment>, lows: Seq<int>, base: int) -> bool {
    &&& lows.len() == stack.len() + 1
    &&& lows[0] == base
    &&& 0 <= base
    &&& lows.last() == g.len()
    &&& forall|j: int, k: int| 0 <= j <= k < lows.len() ==> #[trigger] lows[j] <= #[trigger] lows[k]
    &&& forall|k: int|
        0 <= k < stack.len() ==> frag_ok(g, #[trigger] stack[k], lows[k], lows[k + 1])
}

proof fn lemma_reaches_itself(g: Seq<StateView>, a: int)
    ensures
        reaches(g, a, a),
{
    let p = seq![a];
    assert(walk(g, p) && p[0] == a && p.last() == a);
}

proof fn lemma_edge_reaches(g: Seq<StateView>, a: int, b: int)
    requires
        edge(g, a, b),
    ensures
        reaches(g, a, b),
{
    let p = seq![a, b];
    assert(walk(g, p) && p[0] == a && p.last() == b);
}

proof fn lemma_reaches_trans(g: Seq<StateView>, a: int, b: int, c: int)
    requires
        reaches(g, a, b),
        reaches(g, b, c),
    ensures
        reaches(g, a, c),
{
    let p = choose|p: Seq<int>| walk(g, p) && p[0] == a && #[trigger] p.last() == b;
    let q = choose|q: Seq<int>| walk(g, q) && q[0] == b && #[trigger] q.last() == c;
    let r = p.drop_last() + q;
    assert forall|k: int| 0 <= k < r.len() - 1 implies edge(g, #[trigger] r[k], r[k + 1]) by {
        if k < p.len() - 2 {
            assert(edge(g, p[k], p[k + 1]));
        } else if k == p.len() - 2 {
            assert(edge(g, p[k], p[k + 1]));
            assert(r[k + 1] == q[0]);
        } else {
            let j = k - (p.len() - 1);
            assert(edge(g, q[j], q[j + 1]));
            assert(r[k] == q[j]);
            assert(r[k + 1] == q[j + 1]);
        }
    }
    assert(r.last() == q.last());
    if p.len() == 1 {
        assert(r[0] == q[0]);
    } else {
        assert(r[0] == p[0]);
    }
    assert(walk(g, r) && r[0] == a && r.last() == c);
}

proof fn lemma_extends_reaches(g: Seq<StateView>, h: Seq<StateView>, a: int, b: int)
    requires
        extends(g, h),
        reaches(g, a, b),
    ensures
        reaches(h, a, b),
{
    let p = choose|p: Seq<int>| walk(g, p) && p[0] == a && #[trigger] p.last() == b;
    assert forall|k: int| 0 <= k < p.len() - 1 implies edge(h, #[trigger] p[k], p[k + 1]) by {
        assert(edge(g, p[k], p[k + 1]));
    }
    assert(walk(h, p) && p[0] == a && p.last() == b);
}

proof fn lemma_extends_trans(g: Seq<StateView>, h: Seq<StateView>, k: Seq<StateView>)
    requires
        extends(g, h),
        extends(h, k),
    ensures
        extends(g, k),
{
    assert forall|a: int, b: int| #[trigger] edge(g, a, b) implies edge(k, a, b) by {
        assert(edge(h, a, b));
    }
    assert forall|a: int| 0 <= a < g.len() && has_out(#[trigger] g[a]) implies has_out(k[a]) by {
        assert(has_out(h[a]));
    }
}

/// Two more blank states change nothing of what was there.
proof fn lemma_pair_extends(g: Seq<StateView>)
    ensures
        extends(g, with_pair(g)),
        with_pair(g).len() == g.len() + 2,
        forall|a: int| 0 <= a < g.len() ==> with_pair(g)[a] == g[a],
        with_pair(g)[g.len() as int] == blank(),
        with_pair(g)[g.len() as int + 1] == blank(),
        !has_out(blank()),
{
    let h = with_pair(g);
    assert forall|a: int, b: int| #[trigger] edge(g, a, b) implies edge(h, a, b) by {
        assert(h[a] == g[a]);
    }
}

/// One more epsilon edge: the edge is there, its source has an outgoing edge,
/// and nothing else changes.
proof fn lemma_epsilon_extends(g: Seq<StateView>, from: usize, to: usize)
    requires
        from < g.len(),
    ensures
        extends(g, with_epsilon(g, from, to)),
        with_epsilon(g, from, to).len() == g.len(),
        forall|a: int| 0 <= a < g.len() && a != from ==> with_epsilon(g, from, to)[a] == g[a],
        edge(with_epsilon(g, from, to), from as int, to as int),
        has_out(with_epsilon(g, from, to)[from as int]),
{
    let h = with_epsilon(g, from, to);
    let old_eps = g[from as int].epsilon;
    let new_eps = h[from as int].epsilon;
    assert(new_eps == old_eps.push(to));
    assert(new_eps[old_eps.len() as int] == to);
    assert(edge(h, from as int, to as int));
    assert forall|a: int, b: int| #[trigger] edge(g, a, b) implies edge(h, a, b) by {
        if a == from {
            if exists|k: int| 0 <= k < g[a].epsilon.len() && #[trigger] g[a].epsilon[k] == b {
                let k = choose|k: int| 0 <= k < g[a].epsilon.len() && #[trigger] g[a].epsilon[k] == b;
                assert(new_eps[k] == b);
            } else {
                let c = choose|c: u8| #[trigger]
                    g[a].neighbors.contains_key(c) && g[a].neighbors[c] == b;
                assert(h[a].neighbors.contains_key(c) && h[a].neighbors[c] == b);
            }
        } else {
            assert(h[a] == g[a]);
        }
    }
    assert forall|a: int| 0 <= a < g.len() && has_out(#[trigger] g[a]) implies has_out(h[a]) by {
        if a != from {
            assert(h[a] == g[a]);
        }
    }
}

/// A fragment that an extension leaves untouched is still a fragment.
proof fn lemma_frag_kept(g: Seq<StateView>, h: Seq<StateView>, f: Fragment, lo: int, hi: int)
    requires
        frag_ok(g, f, lo, hi),
        extends(g, h),
        forall|a: int| lo <= a < hi ==> h[a] == g[a],
    ensures
        frag_ok(h, f, lo, hi),
{
    assert forall|a: int| lo <= a < hi implies #[trigger] reaches(h, f.start as int, a) by {
        lemma_extends_reaches(g, h, f.start as int, a);
    }
    assert forall|a: int| lo <= a < hi && a != f.end implies has_out(#[trigger] h[a]) by {
        assert(has_out(g[a]));
    }
}


/// A literal's two states are a fragment.
proof fn lemma_literal_frag(g: Seq<StateView>, byte: u8)
    requires
        g.len() + 2 <= usize::MAX,
    ensures
        extends(g, literal(g, byte).0),
        literal(g, byte).0.len() == g.len() + 2,
        forall|a: int| 0 <= a < g.len() ==> literal(g, byte).0[a] == g[a],
        frag_ok(literal(g, byte).0, literal(g, byte).1, g.len() as int, g.len() as int + 2),
{
    let s = g.len() as int;
    let e = g.len() as int + 1;
    let g0 = with_pair(g);
    let h = literal(g, byte).0;
    lemma_pair_extends(g);
    assert(h[s].neighbors.contains_key(byte) && h[s].neighbors[byte] == e);
    assert(edge(h, s, e));
    assert forall|a: int, b: int| #[trigger] edge(g, a, b) implies edge(h, a, b) by {
        assert(h[a] == g[a]);
    }
    assert forall|a: int| 0 <= a < g.len() && has_out(#[trigger] g[a]) implies has_out(h[a]) by {
        assert(h[a] == g[a]);
    }
    lemma_reaches_itself(h, s);
    lemma_edge_reaches(h, s, e);
    assert(h[e] == blank());
    assert forall|a: int| s <= a < s + 2 implies #[trigger] reaches(h, s, a) by {}
}

/// Two fragments side by side and their alternation's two states are a fragment.
proof fn lemma_alternation_frag(
    g: Seq<StateView>,
    left: Fragment,
    right: Fragment,
    lo: int,
    mid: int,
)
    requires
        g.len() + 2 <= usize::MAX,
        frag_ok(g, left, lo, mid),
        frag_ok(g, right, mid, g.len() as int),
    ensures
        extends(g, alternation(g, left, right).0),
        alternation(g, left, right).0.len() == g.len() + 2,
        forall|a: int| 0 <= a < lo ==> alternation(g, left, right).0[a] == g[a],
        frag_ok(alternation(g, left, right).0, alternation(g, left, right).1, lo, g.len() as int + 2),
{
    let s = g.len() as usize;
    let e = (g.len() + 1) as usize;
    let g0 = with_pair(g);
    let g1 = with_epsilon(g0, left.end, e);
    let g2 = with_epsilon(g1, right.end, e);
    let g3 = with_epsilon(g2, s, left.start);
    let g4 = with_epsilon(g3, s, right.start);
    lemma_pair_extends(g);
    lemma_epsilon_extends(g0, left.end, e);
    lemma_epsilon_extends(g1, right.end, e);
    lemma_epsilon_extends(g2, s, left.start);
    lemma_epsilon_extends(g3, s, right.start);
    lemma_extends_trans(g3, g4, g4);
    lemma_extends_trans(g2, g3, g4);
    lemma_extends_trans(g1, g2, g4);
    lemma_extends_trans(g0, g1, g4);
    lemma_extends_trans(g, g0, g4);
    assert(g4[e as int] == blank());
    assert(edge(g4, left.end as int, e as int));
    assert(edge(g4, right.end as int, e as int));
    assert(edge(g4, s as int, left.start as int));
    assert(edge(g4, s as int, right.start as int));
    lemma_edge_reaches(g4, s as int, left.start as int);
    lemma_edge_reaches(g4, s as int, right.start as int);
    lemma_edge_reaches(g4, left.end as int, e as int);
    assert forall|a: int| lo <= a < g.len() + 2 && a != e implies has_out(#[trigger] g4[a]) by {
        if a == s {
        } else if a == left.end {
            assert(has_out(g1[a]));
        } else if a == right.end {
            assert(has_out(g2[a]));
        } else {
            assert(has_out(g[a]));
        }
    }
    assert forall|a: int| lo <= a < g.len() + 2 implies #[trigger] reaches(g4, s as int, a) by {
        if a == s {
            lemma_reaches_itself(g4, s as int);
        } else if a == e {
            assert(reaches(g, left.start as int, left.end as int));
            lemma_extends_reaches(g, g4, left.start as int, left.end as int);
            lemma_reaches_trans(g4, s as int, left.start as int, left.end as int);
            lemma_reaches_trans(g4, s as int, left.end as int, e as int);
        } else if a < mid {
            assert(reaches(g, left.start as int, a));
            lemma_extends_reaches(g, g4, left.start as int, a);
            lemma_reaches_trans(g4, s as int, left.start as int, a);
        } else {
            assert(reaches(g, right.start as int, a));
            lemma_extends_reaches(g, g4, right.start as int, a);
            lemma_reaches_trans(g4, s as int, right.start as int, a);
        }
    }
}

/// A fragment at the end of the arena and its closure's two states are a fragment.
proof fn lemma_closure_frag(g: Seq<StateView>, sub: Fragment, lo: int)
    requires
        g.len() + 2 <= usize::MAX,
        frag_ok(g, sub, lo, g.len() as int),
    ensures
        extends(g, closure(g, sub).0),
        closure(g, sub).0.len() == g.len() + 2,
        forall|a: int| 0 <= a < lo ==> closure(g, sub).0[a] == g[a],
        frag_ok(closure(g, sub).0, closure(g, sub).1, lo, g.len() as int + 2),
{
    let s = g.len() as usize;
    let e = (g.len() + 1) as usize;
    let g0 = with_pair(g);
    let g1 = with_epsilon(g0, s, sub.start);
    let g2 = with_epsilon(g1, s, e);
    let g3 = with_epsilon(g2, sub.end, sub.start);
    let g4 = with_epsilon(g3, sub.end, e);
    lemma_pair_extends(g);
    lemma_epsilon_extends(g0, s, sub.start);
    lemma_epsilon_extends(g1, s, e);
    lemma_epsilon_extends(g2, sub.end, sub.start);
    lemma_epsilon_extends(g3, sub.end, e);
    lemma_extends_trans(g3, g4, g4);
    lemma_extends_trans(g2, g3, g4);
    lemma_extends_trans(g1, g2, g4);
    lemma_extends_trans(g0, g1, g4);
    lemma_extends_trans(g, g0, g4);
    assert(g4[e as int] == blank());
    assert(edge(g4, s as int, sub.start as int));
    assert(edge(g4, s as int, e as int));
    lemma_edge_reaches(g4, s as int, sub.start as int);
    lemma_edge_reaches(g4, s as int, e as int);
    assert forall|a: int| lo <= a < g.len() + 2 && a != e implies has_out(#[trigger] g4[a]) by {
        if a == s {
            assert(has_out(g1[a]));
        } else if a == sub.end {
        } else {
            assert(has_out(g[a]));
        }
    }
    assert forall|a: int| lo <= a < g.len() + 2 implies #[trigger] reaches(g4, s as int, a) by {
        if a == s {
            lemma_reaches_itself(g4, s as int);
        } else if a == e {
        } else {
            assert(reaches(g, sub.start as int, a));
            lemma_extends_reaches(g, g4, sub.start as int, a);
            lemma_reaches_trans(g4, s as int, sub.start as int, a);
        }
    }
}

/// Two fragments side by side are one, once the left end leads to the right start.
proof fn lemma_concatenation_frag(
    g: Seq<StateView>,
    left: Fragment,
    right: Fragment,
    lo: int,
    mid: int,
)
    requires
        frag_ok(g, left, lo, mid),
        frag_ok(g, right, mid, g.len() as int),
    ensures
        extends(g, concatenation(g, left, right).0),
        concatenation(g, left, right).0.len() == g.len(),
        forall|a: int| 0 <= a < lo ==> concatenation(g, left, right).0[a] == g[a],
        frag_ok(
            concatenation(g, left, right).0,
            concatenation(g, left, right).1,
            lo,
            g.len() as int,
        ),
{
    let h = with_epsilon(g, left.end, right.start);
    lemma_epsilon_extends(g, left.end, right.start);
    lemma_edge_reaches(h, left.end as int, right.start as int);
    assert(h[right.end as int] == g[right.end as int]);
    assert forall|a: int| lo <= a < g.len() && a != right.end implies has_out(#[trigger] h[a]) by {
        if a != left.end {
            assert(has_out(g[a]));
        }
    }
    assert forall|a: int| lo <= a < g.len() implies #[trigger] reaches(h, left.start as int, a) by {
        if a < mid {
            assert(reaches(g, left.start as int, a));
            lemma_extends_reaches(g, h, left.start as int, a);
        } else {
            assert(reaches(g, left.start as int, left.end as int));
            lemma_extends_reaches(g, h, left.start as int, left.end as int);
            assert(reaches(g, right.start as int, a));
            lemma_extends_reaches(g, h, right.start as int, a);
            lemma_reaches_trans(h, left.start as int, left.end as int, right.start as int);
            lemma_reaches_trans(h, left.start as int, right.start as int, a);
        }
    }
}

/// A handler changes no edge.
proof fn lemma_handler_keeps_frag(
    g: Seq<StateView>,
    at: usize,
    handler: usize,
    f: Fragment,
    lo: int,
    hi: int,
)
    requires
        frag_ok(g, f, lo, hi),
    ensures
        frag_ok(with_handler(g, at, handler), f, lo, hi),
        extends(g, with_handler(g, at, handler)),
{
    let h = with_handler(g, at, handler);
    assert forall|a: int, b: int| #[trigger] edge(g, a, b) implies edge(h, a, b) by {
        assert(h[a].epsilon == g[a].epsilon);
        assert(h[a].neighbors == g[a].neighbors);
    }
    assert forall|a: int| 0 <= a < g.len() implies has_out(#[trigger] h[a]) == has_out(g[a]) by {
        assert(h[a].epsilon == g[a].epsilon);
        assert(h[a].neighbors == g[a].neighbors);
    }
    assert forall|a: int| lo <= a < hi implies #[trigger] reaches(h, f.start as int, a) by {
        lemma_extends_reaches(g, h, f.start as int, a);
    }
    assert forall|a: int| lo <= a < hi && a != f.end implies has_out(#[trigger] h[a]) by {
        assert(has_out(g[a]));
    }
}


/// Evaluating tokens never shortens the arena.
pub proof fn lemma_thompson_grows(
    g: Seq<StateView>,
    stack: Seq<Fragment>,
    t: Seq<Charactor>,
    i: int,
)
    requires
        0 <= i,
        thompson_from(g, stack, t, i) is Ok,
    ensures
        g.len() <= thompson_from(g, stack, t, i)->Ok_0.0.len(),
    decreases t.len() - i,
{
    let n = stack.len() as int;
    if i < t.len() {
        match t[i] {
            Charactor::Char(b) => {
                let p = literal(g, b);
                lemma_thompson_grows(p.0, stack.push(p.1), t, i + 1);
            },
            Charactor::Or => {
                let p = alternation(g, stack[n - 2], stack[n - 1]);
                lemma_thompson_grows(p.0, stack.take(n - 2).push(p.1), t, i + 1);
            },
            Charactor::Concat => {
                let p = concatenation(g, stack[n - 2], stack[n - 1]);
                lemma_thompson_grows(p.0, stack.take(n - 2).push(p.1), t, i + 1);
            },
            Charactor::Closure => {
                let p = closure(g, stack[n - 1]);
                lemma_thompson_grows(p.0, stack.take(n - 1).push(p.1), t, i + 1);
            },
            _ => {
                lemma_thompson_grows(g, stack, t, i + 1);
            },
        }
    }
}

proof fn lemma_stack_step(
    g: Seq<StateView>,
    stack: Seq<Fragment>,
    lows: Seq<int>,
    base: int,
    h: Seq<StateView>,
    f: Fragment,
    kept: int,
)
    requires
        stack_ok(g, stack, lows, base),
        0 <= kept <= stack.len(),
        extends(g, h),
        forall|a: int| 0 <= a < lows[kept] ==> h[a] == g[a],
        frag_ok(h, f, lows[kept], h.len() as int),
    ensures
        stack_ok(h, stack.take(kept).push(f), lows.take(kept + 1).push(h.len() as int), base),
{
    let stack2 = stack.take(kept).push(f);
    let lows2 = lows.take(kept + 1).push(h.len() as int);
    assert(lows[kept] <= lows[lows.len() - 1]);
    assert forall|j: int, k: int| 0 <= j <= k < lows2.len() implies #[trigger] lows2[j]
        <= #[trigger] lows2[k] by {
        if k <= kept {
            assert(lows[j] <= lows[k]);
        } else if j <= kept {
            assert(lows[j] <= lows[kept]);
        }
    }
    assert forall|k: int| 0 <= k < stack2.len() implies frag_ok(
        h,
        #[trigger] stack2[k],
        lows2[k],
        lows2[k + 1],
    ) by {
        if k < kept {
            assert(frag_ok(g, stack[k], lows[k], lows[k + 1]));
            assert(lows[k + 1] <= lows[kept]);
            lemma_frag_kept(g, h, stack[k], lows[k], lows[k + 1]);
        }
    }
}

/// Evaluating tokens over fragments that lie side by side leaves one fragment
/// that holds all of them, and what lay below them untouched.
proof fn lemma_thompson_shape(
    g: Seq<StateView>,
    stack: Seq<Fragment>,
    lows: Seq<int>,
    base: int,
    t: Seq<Charactor>,
    i: int,
)
    requires
        0 <= i <= t.len(),
        stack_ok(g, stack, lows, base),
        thompson_from(g, stack, t, i) is Ok,
        thompson_from(g, stack, t, i)->Ok_0.0.len() <= usize::MAX,
    ensures
        frag_ok(
            thompson_from(g, stack, t, i)->Ok_0.0,
            thompson_from(g, stack, t, i)->Ok_0.1,
            base,
            thompson_from(g, stack, t, i)->Ok_0.0.len() as int,
        ),
        extends(g, thompson_from(g, stack, t, i)->Ok_0.0),
        forall|a: int| 0 <= a < base ==> thompson_from(g, stack, t, i)->Ok_0.0[a] == g[a],
    decreases t.len() - i,
{
    let n = stack.len() as int;
    let res = thompson_from(g, stack, t, i)->Ok_0.0;
    if i >= t.len() {
        assert(frag_ok(g, stack[0], lows[0], lows[1]));
    } else {
        assert(lows[0] <= lows[n]);
        match t[i] {
            Charactor::Char(b) => {
                let p = literal(g, b);
                lemma_thompson_grows(p.0, stack.push(p.1), t, i + 1);
                lemma_literal_frag(g, b);
                lemma_stack_step(g, stack, lows, base, p.0, p.1, n);
                assert(stack.take(n) =~= stack);
                assert(lows.take(n + 1) =~= lows);
                lemma_thompson_shape(
                    p.0,
                    stack.push(p.1),
                    lows.push(p.0.len() as int),
                    base,
                    t,
                    i + 1,
                );
                lemma_extends_trans(g, p.0, res);
            },
            Charactor::Or => {
                let p = alternation(g, stack[n - 2], stack[n - 1]);
                lemma_thompson_grows(p.0, stack.take(n - 2).push(p.1), t, i + 1);
                assert(frag_ok(g, stack[n - 2], lows[n - 2], lows[n - 2 + 1]));
                assert(frag_ok(g, stack[n - 1], lows[n - 1], lows[n - 1 + 1]));
                assert(lows[0] <= lows[n - 2]);
                lemma_alternation_frag(g, stack[n - 2], stack[n - 1], lows[n - 2], lows[n - 1]);
                lemma_stack_step(g, stack, lows, base, p.0, p.1, n - 2);
                lemma_thompson_shape(
                    p.0,
                    stack.take(n - 2).push(p.1),
                    lows.take(n - 1).push(p.0.len() as int),
                    base,
                    t,
                    i + 1,
                );
                lemma_extends_trans(g, p.0, res);
            },
            Charactor::Concat => {
                let p = concatenation(g, stack[n - 2], stack[n - 1]);
                lemma_thompson_grows(p.0, stack.take(n - 2).push(p.1), t, i + 1);
                assert(frag_ok(g, stack[n - 2], lows[n - 2], lows[n - 2 + 1]));
                assert(frag_ok(g, stack[n - 1], lows[n - 1], lows[n - 1 + 1]));
                assert(lows[0] <= lows[n - 2]);
                lemma_concatenation_frag(g, stack[n - 2], stack[n - 1], lows[n - 2], lows[n - 1]);
                lemma_stack_step(g, stack, lows, base, p.0, p.1, n - 2);
                lemma_thompson_shape(
                    p.0,
                    stack.take(n - 2).push(p.1),
                    lows.take(n - 1).push(p.0.len() as int),
                    base,
                    t,
                    i + 1,
                );
                lemma_extends_trans(g, p.0, res);
            },
            Charactor::Closure => {
                let p = closure(g, stack[n - 1]);
                lemma_thompson_grows(p.0, stack.take(n - 1).push(p.1), t, i + 1);
                assert(frag_ok(g, stack[n - 1], lows[n - 1], lows[n - 1 + 1]));
                assert(lows[0] <= lows[n - 1]);
                lemma_closure_frag(g, stack[n - 1], lows[n - 1]);
                lemma_stack_step(g, stack, lows, base, p.0, p.1, n - 1);
                lemma_thompson_shape(
                    p.0,
                    stack.take(n - 1).push(p.1),
                    lows.take(n).push(p.0.len() as int),
                    base,
                    t,
                    i + 1,
                );
                lemma_extends_trans(g, p.0, res);
            },
            _ => {
                lemma_thompson_shape(g, stack, lows, base, t, i + 1);
            },
        }
    }
}

/// The fragment of a rule, built onto an arena, holds exactly the states that
/// were added; what was there is untouched.
pub proof fn lemma_rule_fragment_added(g: Seq<StateView>, t: Seq<Charactor>, handler: usize)
    requires
        rule_fragment(g, t, handler) is Ok,
        rule_fragment(g, t, handler)->Ok_0.0.len() <= usize::MAX,
    ensures
        frag_ok(
            rule_fragment(g, t, handler)->Ok_0.0,
            rule_fragment(g, t, handler)->Ok_0.1,
            g.len() as int,
            rule_fragment(g, t, handler)->Ok_0.0.len() as int,
        ),
        extends(g, rule_fragment(g, t, handler)->Ok_0.0),
        forall|a: int| 0 <= a < g.len() ==> rule_fragment(g, t, handler)->Ok_0.0[a] == g[a],
{
    let lows = seq![g.len() as int];
    let p = thompson_from(g, Seq::<Fragment>::empty(), t, 0)->Ok_0;
    lemma_thompson_shape(g, Seq::<Fragment>::empty(), lows, g.len() as int, t, 0);
    lemma_handler_keeps_frag(p.0, p.1.end, handler, p.1, g.len() as int, p.0.len() as int);
    lemma_extends_trans(g, p.0, with_handler(p.0, p.1.end, handler));
}

/// The automaton of one rule has exactly one state without an outgoing edge,
/// its end, and its start reaches every state.
pub proof fn lemma_rule_fragment_shape(t: Seq<Charactor>, handler: usize)
    requires
        rule_fragment(Seq::<StateView>::empty(), t, handler) is Ok,
        rule_fragment(Seq::<StateView>::empty(), t, handler)->Ok_0.0.len() <= usize::MAX,
    ensures
        shaped(
            rule_fragment(Seq::<StateView>::empty(), t, handler)->Ok_0.0,
            rule_fragment(Seq::<StateView>::empty(), t, handler)->Ok_0.1,
        ),
{
    lemma_rule_fragment_added(Seq::<StateView>::empty(), t, handler);
}

/// Adding a rule to an automaton of that shape gives one of that shape.
pub proof fn lemma_with_rule_shape(
    held: Option<(Seq<StateView>, Fragment)>,
    t: Seq<Charactor>,
    handler: usize,
)
    requires
        held is Some ==> shaped(held->Some_0.0, held->Some_0.1),
        with_rule(held, t, handler) is Ok,
        with_rule(held, t, handler)->Ok_0.0.len() <= usize::MAX,
    ensures
        shaped(with_rule(held, t, handler)->Ok_0.0, with_rule(held, t, handler)->Ok_0.1),
{
    match held {
        None => {
            lemma_rule_fragment_shape(t, handler);
        },
        Some(left) => {
            let right = rule_fragment(left.0, t, handler)->Ok_0;
            lemma_rule_fragment_added(left.0, t, handler);
            lemma_frag_kept(left.0, right.0, left.1, 0, left.0.len() as int);
            lemma_alternation_frag(right.0, left.1, right.1, 0, left.0.len() as int);
        },
    }
}


// ---------------------------------------------------------------------------
// Handlers
// ---------------------------------------------------------------------------

/// Evaluating tokens gives no state a handler and takes none away: the states
/// that were there keep theirs, and the new ones have none.
proof fn lemma_thompson_keeps_handlers(
    g: Seq<StateView>,
    stack: Seq<Fragment>,
    t: Seq<Charactor>,
    i: int,
)
    requires
        0 <= i,
        thompson_from(g, stack, t, i) is Ok,
    ensures
        g.len() <= thompson_from(g, stack, t, i)->Ok_0.0.len(),
        forall|a: int|
            0 <= a < thompson_from(g, stack, t, i)->Ok_0.0.len() ==> (
            #[trigger] thompson_from(g, stack, t, i)->Ok_0.0[a]).handler == (if a < g.len() {
                g[a].handler
            } else {
                None
            }),
    decreases t.len() - i,
{
    let n = stack.len() as int;
    let res = thompson_from(g, stack, t, i)->Ok_0.0;
    if i < t.len() {
        match t[i] {
            Charactor::Char(b) => {
                let p = literal(g, b);
                lemma_thompson_keeps_handlers(p.0, stack.push(p.1), t, i + 1);
                assert forall|a: int| 0 <= a < res.len() implies (#[trigger] res[a]).handler == (if a
                    < g.len() {
                    g[a].handler
                } else {
                    None
                }) by {
                    if a < p.0.len() {
                        assert(res[a].handler == p.0[a].handler);
                    }
                }
            },
            Charactor::Or => {
                let p = alternation(g, stack[n - 2], stack[n - 1]);
                lemma_thompson_keeps_handlers(p.0, stack.take(n - 2).push(p.1), t, i + 1);
                assert forall|a: int| 0 <= a < res.len() implies (#[trigger] res[a]).handler == (if a
                    < g.len() {
                    g[a].handler
                } else {
                    None
                }) by {
                    if a < p.0.len() {
                        assert(res[a].handler == p.0[a].handler);
                    }
                }
            },
            Charactor::Concat => {
                let p = concatenation(g, stack[n - 2], stack[n - 1]);
                lemma_thompson_keeps_handlers(p.0, stack.take(n - 2).push(p.1), t, i + 1);
                assert forall|a: int| 0 <= a < res.len() implies (#[trigger] res[a]).handler == (if a
                    < g.len() {
                    g[a].handler
                } else {
                    None
                }) by {
                    if a < p.0.len() {
                        assert(res[a].handler == p.0[a].handler);
                    }
                }
            },
            Charactor::Closure => {
                let p = closure(g, stack[n - 1]);
                lemma_thompson_keeps_handlers(p.0, stack.take(n - 1).push(p.1), t, i + 1);
                assert forall|a: int| 0 <= a < res.len() implies (#[trigger] res[a]).handler == (if a
                    < g.len() {
                    g[a].handler
                } else {
                    None
                }) by {
                    if a < p.0.len() {
                        assert(res[a].handler == p.0[a].handler);
                    }
                }
            },
            _ => {
                lemma_thompson_keeps_handlers(g, stack, t, i + 1);
            },
        }
    }
}

/// Adding a rule tags one state, the end of the rule's own fragment, which is
/// a new state: every state that was there keeps its handler, or its lack of
/// one, and no other new state has one.
pub proof fn lemma_rule_tags_its_end_only(g: Seq<StateView>, t: Seq<Charactor>, handler: usize)
    requires
        rule_fragment(g, t, handler) is Ok,
        rule_fragment(g, t, handler)->Ok_0.0.len() <= usize::MAX,
    ensures
        g.len() <= rule_fragment(g, t, handler)->Ok_0.1.end < rule_fragment(
            g,
            t,
            handler,
        )->Ok_0.0.len(),
        forall|a: int|
            0 <= a < rule_fragment(g, t, handler)->Ok_0.0.len() ==> (#[trigger] rule_fragment(
                g,
                t,
                handler,
            )->Ok_0.0[a]).handler == (if a == rule_fragment(g, t, handler)->Ok_0.1.end {
                Some(handler)
            } else if a < g.len() {
                g[a].handler
            } else {
                None
            }),
{
    let p = thompson_from(g, Seq::<Fragment>::empty(), t, 0)->Ok_0;
    lemma_thompson_keeps_handlers(g, Seq::<Fragment>::empty(), t, 0);
    lemma_rule_fragment_added(g, t, handler);
    let res = rule_fragment(g, t, handler)->Ok_0.0;
    assert forall|a: int| 0 <= a < res.len() implies (#[trigger] res[a]).handler == (if a
        == p.1.end {
        Some(handler)
    } else if a < g.len() {
        g[a].handler
    } else {
        None
    }) by {
        assert(p.0[a].handler == (if a < g.len() {
            g[a].handler
        } else {
            None
        }));
    }
}

} // verus!
