//! What a pattern matches, and that the automaton of a rule accepts it.

use crate::nfa::{
    alternation, closure, concatenation, literal, rule_fragment, thompson_from, with_epsilon,
    with_handler, with_pair, Fragment, StateView,
};
use crate::regex_expr::Charactor;
use crate::shape::lemma_thompson_grows;
use vstd::prelude::*;

verus! {

/// A pattern as a tree.
pub enum Pattern {
    /// One byte.
    Byte(u8),
    /// The one or the other.
    Either(Box<Pattern>, Box<Pattern>),
    /// The one and then the other.
    Then(Box<Pattern>, Box<Pattern>),
    /// Any number of times, also none.
    Many(Box<Pattern>),
}

/// The pattern matches the whole of `w`.
pub open spec fn pattern_matches(p: Pattern, w: Seq<u8>) -> bool
    decreases p, w.len(),
{
    match p {
        Pattern::Byte(b) => w == seq![b],
        Pattern::Either(l, r) => pattern_matches(*l, w) || pattern_matches(*r, w),
        Pattern::Then(l, r) => exists|k: int|
            0 <= k <= w.len() && pattern_matches(*l, #[trigger] w.take(k)) && pattern_matches(*r, w.skip(k)),
        Pattern::Many(inner) => w.len() == 0 || exists|k: int|
            1 <= k <= w.len() && pattern_matches(*inner, #[trigger] w.take(k)) && pattern_matches(p, w.skip(k)),
    }
}

/// The tree of the postfix tokens `t[i..]`, over the trees of `stack`; `None`
/// where an operator lacks an operand or the trees do not end as one.
pub open spec fn pattern_from(t: Seq<Charactor>, i: int, stack: Seq<Pattern>) -> Option<Pattern>
    decreases t.len() - i,
{
    let n = stack.len() as int;
    if i < 0 || i >= t.len() {
        if n == 1 {
            Some(stack[0])
        } else {
            None
        }
    } else {
        match t[i] {
            Charactor::Char(b) => pattern_from(t, i + 1, stack.push(Pattern::Byte(b))),
            Charactor::Or => if n < 2 {
                None
            } else {
                pattern_from(
                    t,
                    i + 1,
                    stack.take(n - 2).push(
                        Pattern::Either(Box::new(stack[n - 2]), Box::new(stack[n - 1])),
                    ),
                )
            },
            Charactor::Concat => if n < 2 {
                None
            } else {
                pattern_from(
                    t,
                    i + 1,
                    stack.take(n - 2).push(
                        Pattern::Then(Box::new(stack[n - 2]), Box::new(stack[n - 1])),
                    ),
                )
            },
            Charactor::Closure => if n < 1 {
                None
            } else {
                pattern_from(
                    t,
                    i + 1,
                    stack.take(n - 1).push(Pattern::Many(Box::new(stack[n - 1]))),
                )
            },
            _ => pattern_from(t, i + 1, stack),
        }
    }
}

/// The tree of a pattern in postfix order.
pub open spec fn pattern_of(t: Seq<Charactor>) -> Option<Pattern> {
    pattern_from(t, 0, Seq::<Pattern>::empty())
}

/// One step from `a` to `c`: on the first byte of `w`, or on none.
pub open spec fn steps(g: Seq<StateView>, a: int, c: int, bytewise: bool, w: Seq<u8>) -> bool {
    &&& 0 <= a < g.len()
    &&& if bytewise {
        w.len() > 0 && g[a].neighbors.contains_key(w[0]) && g[a].neighbors[w[0]] == c
    } else {
        exists|k: int| 0 <= k < g[a].epsilon.len() && #[trigger] g[a].epsilon[k] == c
    }
}

/// What is left of `w` after a step.
pub open spec fn left_over(bytewise: bool, w: Seq<u8>) -> Seq<u8> {
    if bytewise {
        w.skip(1)
    } else {
        w
    }
}

/// `n` steps lead from `a` to `b` and read `w`.
pub open spec fn goes(g: Seq<StateView>, a: int, b: int, w: Seq<u8>, n: nat) -> bool
    decreases n,
{
    if n == 0 {
        a == b && w.len() == 0
    } else {
        exists|c: int, bytewise: bool| #[trigger]
            steps(g, a, c, bytewise, w) && goes(g, c, b, left_over(bytewise, w), (n - 1) as nat)
    }
}

/// Steps lead from `a` to `b` and read `w`.
pub open spec fn reads(g: Seq<StateView>, a: int, b: int, w: Seq<u8>) -> bool {
    exists|n: nat| goes(g, a, b, w, n)
}

/// Every step of `g` is a step of `h`.
pub open spec fn keeps_steps(g: Seq<StateView>, h: Seq<StateView>) -> bool {
    forall|a: int, c: int, bytewise: bool, w: Seq<u8>| #[trigger]
        steps(g, a, c, bytewise, w) ==> steps(h, a, c, bytewise, w)
}

pub proof fn lemma_goes_kept(g: Seq<StateView>, h: Seq<StateView>, a: int, b: int, w: Seq<u8>, n: nat)
    requires
        keeps_steps(g, h),
        goes(g, a, b, w, n),
    ensures
        goes(h, a, b, w, n),
    decreases n,
{
    if n > 0 {
        let (c, bytewise) = choose|c: int, bytewise: bool| #[trigger]
            steps(g, a, c, bytewise, w) && goes(g, c, b, left_over(bytewise, w), (n - 1) as nat);
        lemma_goes_kept(g, h, c, b, left_over(bytewise, w), (n - 1) as nat);
        assert(steps(h, a, c, bytewise, w));
    }
}

pub proof fn lemma_reads_kept(g: Seq<StateView>, h: Seq<StateView>, a: int, b: int, w: Seq<u8>)
    requires
        keeps_steps(g, h),
        reads(g, a, b, w),
    ensures
        reads(h, a, b, w),
{
    let n = choose|n: nat| goes(g, a, b, w, n);
    lemma_goes_kept(g, h, a, b, w, n);
}

pub proof fn lemma_goes_joined(
    g: Seq<StateView>,
    a: int,
    b: int,
    c: int,
    w1: Seq<u8>,
    w2: Seq<u8>,
    n1: nat,
    n2: nat,
)
    requires
        goes(g, a, b, w1, n1),
        goes(g, b, c, w2, n2),
    ensures
        goes(g, a, c, w1 + w2, n1 + n2),
    decreases n1,
{
    if n1 == 0 {
        assert(w1 + w2 =~= w2);
    } else {
        let (x, bytewise) = choose|x: int, bytewise: bool| #[trigger]
            steps(g, a, x, bytewise, w1) && goes(g, x, b, left_over(bytewise, w1), (n1 - 1) as nat);
        lemma_goes_joined(g, x, b, c, left_over(bytewise, w1), w2, (n1 - 1) as nat, n2);
        assert(left_over(bytewise, w1 + w2) =~= left_over(bytewise, w1) + w2);
        assert(steps(g, a, x, bytewise, w1 + w2));
    }
}

pub proof fn lemma_reads_joined(g: Seq<StateView>, a: int, b: int, c: int, w1: Seq<u8>, w2: Seq<u8>)
    requires
        reads(g, a, b, w1),
        reads(g, b, c, w2),
    ensures
        reads(g, a, c, w1 + w2),
{
    let n1 = choose|n: nat| goes(g, a, b, w1, n);
    let n2 = choose|n: nat| goes(g, b, c, w2, n);
    lemma_goes_joined(g, a, b, c, w1, w2, n1, n2);
}

/// A state reads nothing on its way to itself.
pub proof fn lemma_reads_nothing(g: Seq<StateView>, a: int)
    ensures
        reads(g, a, a, Seq::<u8>::empty()),
{
    assert(goes(g, a, a, Seq::<u8>::empty(), 0));
}

/// One step on no byte reads nothing.
pub proof fn lemma_reads_epsilon(g: Seq<StateView>, a: int, c: int)
    requires
        steps(g, a, c, false, Seq::<u8>::empty()),
    ensures
        reads(g, a, c, Seq::<u8>::empty()),
{
    let w = Seq::<u8>::empty();
    assert(goes(g, c, c, left_over(false, w), 0));
    assert(goes(g, a, c, w, 1));
}

/// One more epsilon edge keeps every step and is a step.
pub proof fn lemma_epsilon_steps(g: Seq<StateView>, from: usize, to: usize)
    requires
        from < g.len(),
    ensures
        keeps_steps(g, with_epsilon(g, from, to)),
        steps(with_epsilon(g, from, to), from as int, to as int, false, Seq::<u8>::empty()),
        with_epsilon(g, from, to).len() == g.len(),
{
    let h = with_epsilon(g, from, to);
    let old_eps = g[from as int].epsilon;
    assert(h[from as int].epsilon[old_eps.len() as int] == to);
    assert forall|a: int, c: int, bytewise: bool, w: Seq<u8>| #[trigger]
        steps(g, a, c, bytewise, w) implies steps(h, a, c, bytewise, w) by {
        if a == from {
            if !bytewise {
                let k = choose|k: int| 0 <= k < g[a].epsilon.len() && #[trigger] g[a].epsilon[k] == c;
                assert(h[a].epsilon[k] == c);
            }
        } else {
            assert(h[a] == g[a]);
        }
    }
}

/// Two more blank states keep every step.
pub proof fn lemma_pair_steps(g: Seq<StateView>)
    ensures
        keeps_steps(g, with_pair(g)),
        with_pair(g).len() == g.len() + 2,
{
    let h = with_pair(g);
    assert forall|a: int, c: int, bytewise: bool, w: Seq<u8>| #[trigger]
        steps(g, a, c, bytewise, w) implies steps(h, a, c, bytewise, w) by {
        assert(h[a] == g[a]);
    }
}

pub proof fn lemma_keeps_steps_trans(g: Seq<StateView>, h: Seq<StateView>, k: Seq<StateView>)
    requires
        keeps_steps(g, h),
        keeps_steps(h, k),
    ensures
        keeps_steps(g, k),
{
    assert forall|a: int, c: int, bytewise: bool, w: Seq<u8>| #[trigger]
        steps(g, a, c, bytewise, w) implies steps(k, a, c, bytewise, w) by {
        assert(steps(h, a, c, bytewise, w));
    }
}


/// The state has no edge.
pub open spec fn bare(s: StateView) -> bool {
    s.epsilon.len() == 0 && forall|b: u8| !s.neighbors.contains_key(b)
}

/// Every step from a state between `lo` and `hi` leads to one between them.
pub open spec fn inside(g: Seq<StateView>, lo: int, hi: int) -> bool {
    forall|a: int, c: int, bytewise: bool, w: Seq<u8>|
        lo <= a < hi && #[trigger] steps(g, a, c, bytewise, w) ==> lo <= c < hi
}

/// The states from `lo` up to `hi` are a fragment that reads, from its start
/// to its end, exactly what `p` matches.
pub open spec fn means(g: Seq<StateView>, f: Fragment, lo: int, hi: int, p: Pattern) -> bool {
    &&& 0 <= lo <= f.start < hi
    &&& lo <= f.end < hi
    &&& hi <= g.len()
    &&& inside(g, lo, hi)
    &&& bare(g[f.end as int])
    &&& forall|w: Seq<u8>| #[trigger] reads(g, f.start as int, f.end as int, w) ==> pattern_matches(p, w)
    &&& forall|w: Seq<u8>| #[trigger] pattern_matches(p, w) ==> reads(g, f.start as int, f.end as int, w)
}

/// From a state without an edge, no step leads anywhere.
pub proof fn lemma_bare_stays(g: Seq<StateView>, a: int, b: int, w: Seq<u8>, n: nat)
    requires
        0 <= a < g.len(),
        bare(g[a]),
        goes(g, a, b, w, n),
    ensures
        n == 0,
        a == b,
        w.len() == 0,
{
    if n > 0 {
        let (c, bytewise) = choose|c: int, bytewise: bool| #[trigger]
            steps(g, a, c, bytewise, w) && goes(g, c, b, left_over(bytewise, w), (n - 1) as nat);
        assert(false);
    }
}

/// A step before steps is steps.
pub proof fn lemma_step_first(g: Seq<StateView>, a: int, c: int, b: int, bytewise: bool, w: Seq<u8>)
    requires
        steps(g, a, c, bytewise, w),
        reads(g, c, b, left_over(bytewise, w)),
    ensures
        reads(g, a, b, w),
{
    let n = choose|n: nat| goes(g, c, b, left_over(bytewise, w), n);
    assert(goes(g, a, b, w, n + 1));
}

/// Steps inside a fragment that another arena holds unchanged are steps there.
pub proof fn lemma_goes_within(
    g: Seq<StateView>,
    h: Seq<StateView>,
    lo: int,
    hi: int,
    a: int,
    b: int,
    w: Seq<u8>,
    n: nat,
)
    requires
        0 <= lo <= hi <= g.len(),
        hi <= h.len(),
        inside(g, lo, hi),
        forall|x: int| lo <= x < hi ==> h[x] == g[x],
        lo <= a < hi,
        goes(h, a, b, w, n),
    ensures
        goes(g, a, b, w, n),
        lo <= b < hi,
    decreases n,
{
    if n > 0 {
        let (c, bytewise) = choose|c: int, bytewise: bool| #[trigger]
            steps(h, a, c, bytewise, w) && goes(h, c, b, left_over(bytewise, w), (n - 1) as nat);
        assert(h[a] == g[a]);
        assert(steps(g, a, c, bytewise, w));
        lemma_goes_within(g, h, lo, hi, c, b, left_over(bytewise, w), (n - 1) as nat);
    }
}

/// A fragment that a larger arena holds unchanged means there what it meant.
proof fn lemma_means_kept(
    g: Seq<StateView>,
    h: Seq<StateView>,
    f: Fragment,
    lo: int,
    hi: int,
    p: Pattern,
)
    requires
        means(g, f, lo, hi, p),
        keeps_steps(g, h),
        g.len() <= h.len(),
        forall|x: int| lo <= x < hi ==> h[x] == g[x],
    ensures
        means(h, f, lo, hi, p),
{
    assert forall|a: int, c: int, bytewise: bool, w: Seq<u8>|
        lo <= a < hi && #[trigger] steps(h, a, c, bytewise, w) implies lo <= c < hi by {
        assert(h[a] == g[a]);
        assert(steps(g, a, c, bytewise, w));
    }
    assert forall|w: Seq<u8>| #[trigger] reads(h, f.start as int, f.end as int, w) implies pattern_matches(
        p,
        w,
    ) by {
        let n = choose|n: nat| goes(h, f.start as int, f.end as int, w, n);
        lemma_goes_within(g, h, lo, hi, f.start as int, f.end as int, w, n);
        assert(reads(g, f.start as int, f.end as int, w));
    }
    assert forall|w: Seq<u8>| #[trigger] pattern_matches(p, w) implies reads(
        h,
        f.start as int,
        f.end as int,
        w,
    ) by {
        assert(reads(g, f.start as int, f.end as int, w));
        lemma_reads_kept(g, h, f.start as int, f.end as int, w);
    }
}

/// A literal's fragment reads its byte and nothing else.
proof fn lemma_literal_means(g: Seq<StateView>, byte: u8)
    requires
        g.len() + 2 <= usize::MAX,
    ensures
        keeps_steps(g, literal(g, byte).0),
        literal(g, byte).0.len() == g.len() + 2,
        forall|x: int| 0 <= x < g.len() ==> literal(g, byte).0[x] == g[x],
        means(
            literal(g, byte).0,
            literal(g, byte).1,
            g.len() as int,
            g.len() as int + 2,
            Pattern::Byte(byte),
        ),
{
    let s = g.len() as int;
    let e = g.len() as int + 1;
    let h = literal(g, byte).0;
    let one = seq![byte];
    assert forall|a: int, c: int, bytewise: bool, w: Seq<u8>| #[trigger]
        steps(g, a, c, bytewise, w) implies steps(h, a, c, bytewise, w) by {
        assert(h[a] == g[a]);
    }
    assert(bare(h[e]));
    assert forall|a: int, c: int, bytewise: bool, w: Seq<u8>|
        s <= a < s + 2 && #[trigger] steps(h, a, c, bytewise, w) implies s <= c < s + 2 by {
        if a == s {
            assert(bytewise && w[0] == byte && c == e);
        }
    }
    assert forall|w: Seq<u8>| #[trigger] reads(h, s, e, w) implies pattern_matches(Pattern::Byte(byte), w) by {
        let n = choose|n: nat| goes(h, s, e, w, n);
        assert(n > 0);
        let (c, bytewise) = choose|c: int, bytewise: bool| #[trigger]
            steps(h, s, c, bytewise, w) && goes(h, c, e, left_over(bytewise, w), (n - 1) as nat);
        assert(bytewise && w[0] == byte && c == e);
        lemma_bare_stays(h, e, e, w.skip(1), (n - 1) as nat);
        assert(w =~= one);
    }
    assert forall|w: Seq<u8>| #[trigger] pattern_matches(Pattern::Byte(byte), w) implies reads(h, s, e, w) by {
        assert(steps(h, s, e, true, w));
        lemma_reads_nothing(h, e);
        assert(left_over(true, w) =~= Seq::<u8>::empty());
        lemma_step_first(h, s, e, e, true, w);
    }
}


/// The state has the one epsilon edge, or the two, and no other edge.
pub open spec fn only_epsilon(s: StateView, targets: Seq<usize>) -> bool {
    s.epsilon == targets && forall|b: u8| !s.neighbors.contains_key(b)
}

/// Steps that lead out of a fragment, whose end has got one edge, to where
/// that edge leads, are steps to the end inside the fragment as it was.
proof fn lemma_exit(
    g: Seq<StateView>,
    h: Seq<StateView>,
    lo: int,
    hi: int,
    end: usize,
    out: usize,
    a: int,
    w: Seq<u8>,
    n: nat,
)
    requires
        0 <= lo <= hi <= g.len() <= h.len(),
        inside(g, lo, hi),
        lo <= end < hi,
        forall|x: int| lo <= x < hi && x != end ==> h[x] == g[x],
        only_epsilon(h[end as int], seq![out]),
        !(lo <= out < hi),
        out < h.len(),
        bare(h[out as int]),
        lo <= a < hi,
        goes(h, a, out as int, w, n),
    ensures
        reads(g, a, end as int, w),
    decreases n,
{
    assert(n > 0);
    let (c, bytewise) = choose|c: int, bytewise: bool| #[trigger]
        steps(h, a, c, bytewise, w) && goes(h, c, out as int, left_over(bytewise, w), (n - 1) as nat);
    if a == end {
        assert(!bytewise && c == out);
        lemma_bare_stays(h, out as int, out as int, w, (n - 1) as nat);
        lemma_reads_nothing(g, end as int);
        assert(w =~= Seq::<u8>::empty());
    } else {
        assert(h[a] == g[a]);
        assert(steps(g, a, c, bytewise, w));
        lemma_exit(g, h, lo, hi, end, out, c, left_over(bytewise, w), (n - 1) as nat);
        lemma_step_first(g, a, c, end as int, bytewise, w);
    }
}

/// The alternation of two fragments reads what the one or the other reads.
proof fn lemma_alternation_means(
    g: Seq<StateView>,
    left: Fragment,
    right: Fragment,
    lo: int,
    mid: int,
    pl: Pattern,
    pr: Pattern,
)
    requires
        g.len() + 2 <= usize::MAX,
        means(g, left, lo, mid, pl),
        means(g, right, mid, g.len() as int, pr),
    ensures
        keeps_steps(g, alternation(g, left, right).0),
        alternation(g, left, right).0.len() == g.len() + 2,
        forall|x: int| 0 <= x < lo ==> alternation(g, left, right).0[x] == g[x],
        means(
            alternation(g, left, right).0,
            alternation(g, left, right).1,
            lo,
            g.len() as int + 2,
            Pattern::Either(Box::new(pl), Box::new(pr)),
        ),
{
    let s = g.len() as usize;
    let e = (g.len() + 1) as usize;
    let g0 = with_pair(g);
    let g1 = with_epsilon(g0, left.end, e);
    let g2 = with_epsilon(g1, right.end, e);
    let g3 = with_epsilon(g2, s, left.start);
    let g4 = with_epsilon(g3, s, right.start);
    let p = Pattern::Either(Box::new(pl), Box::new(pr));
    let nothing = Seq::<u8>::empty();
    lemma_pair_steps(g);
    lemma_epsilon_steps(g0, left.end, e);
    lemma_epsilon_steps(g1, right.end, e);
    lemma_epsilon_steps(g2, s, left.start);
    lemma_epsilon_steps(g3, s, right.start);
    lemma_keeps_steps_trans(g2, g3, g4);
    lemma_keeps_steps_trans(g1, g2, g4);
    lemma_keeps_steps_trans(g0, g1, g4);
    lemma_keeps_steps_trans(g, g0, g4);
    assert(bare(g4[e as int]));
    assert(g4[left.end as int].epsilon =~= seq![e]);
    assert(g4[right.end as int].epsilon =~= seq![e]);
    assert(g4[s as int].epsilon =~= seq![left.start, right.start]);
    assert(only_epsilon(g4[left.end as int], seq![e]));
    assert(only_epsilon(g4[right.end as int], seq![e]));
    assert(only_epsilon(g4[s as int], seq![left.start, right.start]));
    assert(steps(g4, left.end as int, e as int, false, nothing));
    assert(steps(g4, right.end as int, e as int, false, nothing));
    assert(steps(g4, s as int, left.start as int, false, nothing));
    assert(steps(g4, s as int, right.start as int, false, nothing));
    assert forall|a: int, c: int, bytewise: bool, w: Seq<u8>|
        lo <= a < g.len() + 2 && #[trigger] steps(g4, a, c, bytewise, w) implies lo <= c < g.len()
        + 2 by {
        if a == s || a == e || a == left.end || a == right.end {
        } else {
            assert(g4[a] == g[a]);
            assert(steps(g, a, c, bytewise, w));
        }
    }
    assert forall|w: Seq<u8>| #[trigger] reads(g4, s as int, e as int, w) implies pattern_matches(p, w) by {
        let n = choose|n: nat| goes(g4, s as int, e as int, w, n);
        assert(n > 0);
        let (c, bytewise) = choose|c: int, bytewise: bool| #[trigger]
            steps(g4, s as int, c, bytewise, w) && goes(
                g4,
                c,
                e as int,
                left_over(bytewise, w),
                (n - 1) as nat,
            );
        assert(!bytewise);
        if c == left.start {
            lemma_exit(g, g4, lo, mid, left.end, e, c, w, (n - 1) as nat);
            assert(pattern_matches(pl, w));
        } else {
            assert(c == right.start);
            lemma_exit(g, g4, mid, g.len() as int, right.end, e, c, w, (n - 1) as nat);
            assert(pattern_matches(pr, w));
        }
    }
    assert forall|w: Seq<u8>| #[trigger] pattern_matches(p, w) implies reads(g4, s as int, e as int, w) by {
        if pattern_matches(pl, w) {
            assert(reads(g, left.start as int, left.end as int, w));
            lemma_reads_kept(g, g4, left.start as int, left.end as int, w);
            lemma_reads_epsilon(g4, left.end as int, e as int);
            lemma_reads_joined(g4, left.start as int, left.end as int, e as int, w, nothing);
            assert(w + nothing =~= w);
            lemma_step_first(g4, s as int, left.start as int, e as int, false, w);
        } else {
            assert(pattern_matches(pr, w));
            assert(reads(g, right.start as int, right.end as int, w));
            lemma_reads_kept(g, g4, right.start as int, right.end as int, w);
            lemma_reads_epsilon(g4, right.end as int, e as int);
            lemma_reads_joined(g4, right.start as int, right.end as int, e as int, w, nothing);
            assert(w + nothing =~= w);
            lemma_step_first(g4, s as int, right.start as int, e as int, false, w);
        }
    }
}


/// Steps from the left of two joined fragments to the end of the right are
/// steps to the left's end, and then steps from the right's start.
proof fn lemma_cross(
    g: Seq<StateView>,
    h: Seq<StateView>,
    lo: int,
    mid: int,
    left: Fragment,
    right: Fragment,
    a: int,
    w: Seq<u8>,
    n: nat,
) -> (k: int)
    requires
        0 <= lo <= mid <= g.len(),
        g.len() == h.len(),
        inside(g, lo, mid),
        inside(g, mid, g.len() as int),
        lo <= left.end < mid,
        mid <= right.start < g.len(),
        mid <= right.end < g.len(),
        forall|x: int| lo <= x < g.len() && x != left.end ==> h[x] == g[x],
        only_epsilon(h[left.end as int], seq![right.start]),
        lo <= a < mid,
        goes(h, a, right.end as int, w, n),
    ensures
        0 <= k <= w.len(),
        reads(g, a, left.end as int, w.take(k)),
        reads(g, right.start as int, right.end as int, w.skip(k)),
    decreases n,
{
    assert(n > 0);
    let (c, bytewise) = choose|c: int, bytewise: bool| #[trigger]
        steps(h, a, c, bytewise, w) && goes(
            h,
            c,
            right.end as int,
            left_over(bytewise, w),
            (n - 1) as nat,
        );
    if a == left.end {
        assert(!bytewise && c == right.start);
        lemma_goes_within(g, h, mid, g.len() as int, c, right.end as int, w, (n - 1) as nat);
        lemma_reads_nothing(g, a);
        assert(w.take(0) =~= Seq::<u8>::empty());
        assert(w.skip(0) =~= w);
        0
    } else {
        assert(h[a] == g[a]);
        assert(steps(g, a, c, bytewise, w));
        let rest = left_over(bytewise, w);
        let j = lemma_cross(g, h, lo, mid, left, right, c, rest, (n - 1) as nat);
        if bytewise {
            let k = j + 1;
            assert(steps(g, a, c, true, w.take(k)));
            assert(left_over(true, w.take(k)) =~= rest.take(j));
            lemma_step_first(g, a, c, left.end as int, true, w.take(k));
            assert(w.skip(k) =~= rest.skip(j));
            k
        } else {
            assert(steps(g, a, c, false, w.take(j)));
            lemma_step_first(g, a, c, left.end as int, false, w.take(j));
            j
        }
    }
}

/// Two fragments, the one's end joined to the other's start, read what the
/// one reads and then what the other reads.
proof fn lemma_concatenation_means(
    g: Seq<StateView>,
    left: Fragment,
    right: Fragment,
    lo: int,
    mid: int,
    pl: Pattern,
    pr: Pattern,
)
    requires
        means(g, left, lo, mid, pl),
        means(g, right, mid, g.len() as int, pr),
    ensures
        keeps_steps(g, concatenation(g, left, right).0),
        concatenation(g, left, right).0.len() == g.len(),
        forall|x: int| 0 <= x < lo ==> concatenation(g, left, right).0[x] == g[x],
        means(
            concatenation(g, left, right).0,
            concatenation(g, left, right).1,
            lo,
            g.len() as int,
            Pattern::Then(Box::new(pl), Box::new(pr)),
        ),
{
    let h = with_epsilon(g, left.end, right.start);
    let p = Pattern::Then(Box::new(pl), Box::new(pr));
    let nothing = Seq::<u8>::empty();
    let ls = left.start as int;
    let le = left.end as int;
    let rs = right.start as int;
    let re = right.end as int;
    lemma_epsilon_steps(g, left.end, right.start);
    assert(h[le].epsilon =~= seq![right.start]);
    assert(only_epsilon(h[le], seq![right.start]));
    assert(h[re] == g[re]);
    assert forall|a: int, c: int, bytewise: bool, w: Seq<u8>|
        lo <= a < g.len() && #[trigger] steps(h, a, c, bytewise, w) implies lo <= c < g.len() by {
        if a != le {
            assert(h[a] == g[a]);
            assert(steps(g, a, c, bytewise, w));
        }
    }
    assert forall|w: Seq<u8>| #[trigger] reads(h, ls, re, w) implies pattern_matches(p, w) by {
        let n = choose|n: nat| goes(h, ls, re, w, n);
        let k = lemma_cross(g, h, lo, mid, left, right, ls, w, n);
        assert(pattern_matches(pl, w.take(k)));
        assert(pattern_matches(pr, w.skip(k)));
    }
    assert forall|w: Seq<u8>| #[trigger] pattern_matches(p, w) implies reads(h, ls, re, w) by {
        let k = choose|k: int|
            0 <= k <= w.len() && pattern_matches(pl, #[trigger] w.take(k)) && pattern_matches(pr, w.skip(k));
        assert(reads(g, ls, le, w.take(k)));
        assert(reads(g, rs, re, w.skip(k)));
        lemma_reads_kept(g, h, ls, le, w.take(k));
        lemma_reads_kept(g, h, rs, re, w.skip(k));
        lemma_reads_epsilon(h, le, rs);
        lemma_reads_joined(h, ls, le, rs, w.take(k), nothing);
        lemma_reads_joined(h, ls, rs, re, w.take(k) + nothing, w.skip(k));
        assert(w.take(k) + nothing + w.skip(k) =~= w);
    }
}

/// Steps from inside a fragment under closure to the new end are steps to
/// the fragment's end, and then what the closure matches.
proof fn lemma_loop(
    g: Seq<StateView>,
    h: Seq<StateView>,
    lo: int,
    sub: Fragment,
    e: usize,
    p: Pattern,
    a: int,
    w: Seq<u8>,
    n: nat,
) -> (k: int)
    requires
        0 <= lo <= g.len() <= h.len(),
        inside(g, lo, g.len() as int),
        lo <= sub.start < g.len(),
        lo <= sub.end < g.len(),
        forall|x: int| lo <= x < g.len() && x != sub.end ==> h[x] == g[x],
        only_epsilon(h[sub.end as int], seq![sub.start, e]),
        g.len() <= e < h.len(),
        bare(h[e as int]),
        forall|v: Seq<u8>| #[trigger] reads(g, sub.start as int, sub.end as int, v) ==> pattern_matches(p, v),
        lo <= a < g.len(),
        goes(h, a, e as int, w, n),
    ensures
        0 <= k <= w.len(),
        reads(g, a, sub.end as int, w.take(k)),
        pattern_matches(Pattern::Many(Box::new(p)), w.skip(k)),
    decreases n,
{
    let many = Pattern::Many(Box::new(p));
    assert(n > 0);
    let (c, bytewise) = choose|c: int, bytewise: bool| #[trigger]
        steps(h, a, c, bytewise, w) && goes(h, c, e as int, left_over(bytewise, w), (n - 1) as nat);
    if a == sub.end {
        assert(!bytewise);
        lemma_reads_nothing(g, a);
        assert(w.take(0) =~= Seq::<u8>::empty());
        assert(w.skip(0) =~= w);
        if c == e {
            lemma_bare_stays(h, e as int, e as int, w, (n - 1) as nat);
            assert(pattern_matches(many, w));
        } else {
            assert(c == sub.start);
            let j = lemma_loop(g, h, lo, sub, e, p, c, w, (n - 1) as nat);
            assert(pattern_matches(p, w.take(j)));
            if j == 0 {
                assert(w.skip(0) =~= w);
            } else {
                assert(pattern_matches(many, w));
            }
        }
        0
    } else {
        assert(h[a] == g[a]);
        assert(steps(g, a, c, bytewise, w));
        let rest = left_over(bytewise, w);
        let j = lemma_loop(g, h, lo, sub, e, p, c, rest, (n - 1) as nat);
        if bytewise {
            let k = j + 1;
            assert(steps(g, a, c, true, w.take(k)));
            assert(left_over(true, w.take(k)) =~= rest.take(j));
            lemma_step_first(g, a, c, sub.end as int, true, w.take(k));
            assert(w.skip(k) =~= rest.skip(j));
            k
        } else {
            assert(steps(g, a, c, false, w.take(j)));
            lemma_step_first(g, a, c, sub.end as int, false, w.take(j));
            j
        }
    }
}

/// From the end of a fragment under closure, what the closure matches leads
/// to the new end.
proof fn lemma_again(
    h: Seq<StateView>,
    sub: Fragment,
    e: usize,
    p: Pattern,
    w: Seq<u8>,
)
    requires
        steps(h, sub.end as int, sub.start as int, false, Seq::<u8>::empty()),
        steps(h, sub.end as int, e as int, false, Seq::<u8>::empty()),
        forall|v: Seq<u8>| #[trigger] pattern_matches(p, v) ==> reads(h, sub.start as int, sub.end as int, v),
        pattern_matches(Pattern::Many(Box::new(p)), w),
    ensures
        reads(h, sub.end as int, e as int, w),
    decreases w.len(),
{
    let many = Pattern::Many(Box::new(p));
    let nothing = Seq::<u8>::empty();
    if w.len() == 0 {
        lemma_reads_epsilon(h, sub.end as int, e as int);
        assert(w =~= nothing);
    } else {
        let k = choose|k: int|
            1 <= k <= w.len() && pattern_matches(p, #[trigger] w.take(k)) && pattern_matches(many, w.skip(k));
        lemma_again(h, sub, e, p, w.skip(k));
        assert(reads(h, sub.start as int, sub.end as int, w.take(k)));
        lemma_reads_joined(h, sub.start as int, sub.end as int, e as int, w.take(k), w.skip(k));
        assert(w.take(k) + w.skip(k) =~= w);
        assert(steps(h, sub.end as int, sub.start as int, false, w));
        lemma_step_first(h, sub.end as int, sub.start as int, e as int, false, w);
    }
}

/// The closure of a fragment reads what the fragment reads, any number of times.
proof fn lemma_closure_means(g: Seq<StateView>, sub: Fragment, lo: int, p: Pattern)
    requires
        g.len() + 2 <= usize::MAX,
        means(g, sub, lo, g.len() as int, p),
    ensures
        keeps_steps(g, closure(g, sub).0),
        closure(g, sub).0.len() == g.len() + 2,
        forall|x: int| 0 <= x < lo ==> closure(g, sub).0[x] == g[x],
        means(
            closure(g, sub).0,
            closure(g, sub).1,
            lo,
            g.len() as int + 2,
            Pattern::Many(Box::new(p)),
        ),
{
    let s = g.len() as usize;
    let e = (g.len() + 1) as usize;
    let g0 = with_pair(g);
    let g1 = with_epsilon(g0, s, sub.start);
    let g2 = with_epsilon(g1, s, e);
    let g3 = with_epsilon(g2, sub.end, sub.start);
    let g4 = with_epsilon(g3, sub.end, e);
    let many = Pattern::Many(Box::new(p));
    let nothing = Seq::<u8>::empty();
    let ss = sub.start as int;
    let se = sub.end as int;
    lemma_pair_steps(g);
    lemma_epsilon_steps(g0, s, sub.start);
    lemma_epsilon_steps(g1, s, e);
    lemma_epsilon_steps(g2, sub.end, sub.start);
    lemma_epsilon_steps(g3, sub.end, e);
    lemma_keeps_steps_trans(g2, g3, g4);
    lemma_keeps_steps_trans(g1, g2, g4);
    lemma_keeps_steps_trans(g0, g1, g4);
    lemma_keeps_steps_trans(g, g0, g4);
    assert(bare(g4[e as int]));
    assert(g4[se].epsilon =~= seq![sub.start, e]);
    assert(g4[s as int].epsilon =~= seq![sub.start, e]);
    assert(only_epsilon(g4[se], seq![sub.start, e]));
    assert(only_epsilon(g4[s as int], seq![sub.start, e]));
    assert(steps(g4, s as int, ss, false, nothing));
    assert(steps(g4, s as int, e as int, false, nothing));
    assert(steps(g4, se, ss, false, nothing));
    assert(steps(g4, se, e as int, false, nothing));
    assert forall|a: int, c: int, bytewise: bool, w: Seq<u8>|
        lo <= a < g.len() + 2 && #[trigger] steps(g4, a, c, bytewise, w) implies lo <= c < g.len()
        + 2 by {
        if a == s || a == e || a == se {
        } else {
            assert(g4[a] == g[a]);
            assert(steps(g, a, c, bytewise, w));
        }
    }
    assert forall|w: Seq<u8>| #[trigger] reads(g4, s as int, e as int, w) implies pattern_matches(many, w) by {
        let n = choose|n: nat| goes(g4, s as int, e as int, w, n);
        assert(n > 0);
        let (c, bytewise) = choose|c: int, bytewise: bool| #[trigger]
            steps(g4, s as int, c, bytewise, w) && goes(
                g4,
                c,
                e as int,
                left_over(bytewise, w),
                (n - 1) as nat,
            );
        assert(!bytewise);
        if c == e {
            lemma_bare_stays(g4, e as int, e as int, w, (n - 1) as nat);
        } else {
            assert(c == ss);
            let j = lemma_loop(g, g4, lo, sub, e, p, c, w, (n - 1) as nat);
            assert(pattern_matches(p, w.take(j)));
            if j == 0 {
                assert(w.skip(0) =~= w);
            }
        }
    }
    assert forall|v: Seq<u8>| #[trigger] pattern_matches(p, v) implies reads(g4, ss, se, v) by {
        assert(reads(g, ss, se, v));
        lemma_reads_kept(g, g4, ss, se, v);
    }
    assert forall|w: Seq<u8>| #[trigger] pattern_matches(many, w) implies reads(g4, s as int, e as int, w) by {
        if w.len() == 0 {
            lemma_reads_epsilon(g4, s as int, e as int);
            assert(w =~= nothing);
        } else {
            let k = choose|k: int|
                1 <= k <= w.len() && pattern_matches(p, #[trigger] w.take(k)) && pattern_matches(many, w.skip(k));
            lemma_again(g4, sub, e, p, w.skip(k));
            assert(reads(g4, ss, se, w.take(k)));
            lemma_reads_joined(g4, ss, se, e as int, w.take(k), w.skip(k));
            assert(w.take(k) + w.skip(k) =~= w);
            lemma_step_first(g4, s as int, ss, e as int, false, w);
        }
    }
}


/// The fragments of the stack lie side by side from `base` to the end of the
/// arena, and each reads what its tree matches.
pub open spec fn stack_means(
    g: Seq<StateView>,
    stack: Seq<Fragment>,
    trees: Seq<Pattern>,
    lows: Seq<int>,
    base: int,
) -> bool {
    &&& trees.len() == stack.len()
    &&& lows.len() == stack.len() + 1
    &&& lows[0] == base
    &&& 0 <= base
    &&& lows.last() == g.len()
    &&& forall|j: int, k: int| 0 <= j <= k < lows.len() ==> #[trigger] lows[j] <= #[trigger] lows[k]
    &&& forall|k: int|
        0 <= k < stack.len() ==> means(g, #[trigger] stack[k], lows[k], lows[k + 1], trees[k])
}

proof fn lemma_stack_means_step(
    g: Seq<StateView>,
    stack: Seq<Fragment>,
    trees: Seq<Pattern>,
    lows: Seq<int>,
    base: int,
    h: Seq<StateView>,
    f: Fragment,
    p: Pattern,
    kept: int,
)
    requires
        stack_means(g, stack, trees, lows, base),
        0 <= kept <= stack.len(),
        keeps_steps(g, h),
        g.len() <= h.len(),
        forall|a: int| 0 <= a < lows[kept] ==> h[a] == g[a],
        means(h, f, lows[kept], h.len() as int, p),
    ensures
        stack_means(
            h,
            stack.take(kept).push(f),
            trees.take(kept).push(p),
            lows.take(kept + 1).push(h.len() as int),
            base,
        ),
{
    let stack2 = stack.take(kept).push(f);
    let trees2 = trees.take(kept).push(p);
    let lows2 = lows.take(kept + 1).push(h.len() as int);
    assert(lows[kept] <= lows[lows.len() - 1]);
    assert forall|j: int, k: int| 0 <= j <= k < lows2.len() implies #[trigger] lows2[j]
        <= #[trigger] lows2[k] by {
        if k <= kept {
            assert(lows[j] <= lows[k]);
        } else if j <= kept {
            assert(lows[j] <= lows[kept]);
        }
    }
    assert forall|k: int| 0 <= k < stack2.len() implies means(
        h,
        #[trigger] stack2[k],
        lows2[k],
        lows2[k + 1],
        trees2[k],
    ) by {
        if k < kept {
            assert(means(g, stack[k], lows[k], lows[k + 1], trees[k]));
            assert(lows[k + 1] <= lows[kept]);
            lemma_means_kept(g, h, stack[k], lows[k], lows[k + 1], trees[k]);
        }
    }
}

/// Evaluating tokens over fragments that read what their trees match leaves
/// one fragment that reads what the one tree left matches.
proof fn lemma_thompson_means(
    g: Seq<StateView>,
    stack: Seq<Fragment>,
    trees: Seq<Pattern>,
    lows: Seq<int>,
    base: int,
    t: Seq<Charactor>,
    i: int,
)
    requires
        0 <= i <= t.len(),
        stack_means(g, stack, trees, lows, base),
        thompson_from(g, stack, t, i) is Ok,
        thompson_from(g, stack, t, i)->Ok_0.0.len() <= usize::MAX,
    ensures
        pattern_from(t, i, trees) is Some,
        means(
            thompson_from(g, stack, t, i)->Ok_0.0,
            thompson_from(g, stack, t, i)->Ok_0.1,
            base,
            thompson_from(g, stack, t, i)->Ok_0.0.len() as int,
            pattern_from(t, i, trees)->Some_0,
        ),
        keeps_steps(g, thompson_from(g, stack, t, i)->Ok_0.0),
        g.len() <= thompson_from(g, stack, t, i)->Ok_0.0.len(),
        forall|a: int| 0 <= a < base ==> thompson_from(g, stack, t, i)->Ok_0.0[a] == g[a],
    decreases t.len() - i,
{
    let n = stack.len() as int;
    let res = thompson_from(g, stack, t, i)->Ok_0.0;
    if i >= t.len() {
        assert(means(g, stack[0], lows[0], lows[1], trees[0]));
    } else {
        assert(lows[0] <= lows[n]);
        match t[i] {
            Charactor::Char(b) => {
                let p = literal(g, b);
                lemma_thompson_grows(p.0, stack.push(p.1), t, i + 1);
                lemma_literal_means(g, b);
                lemma_stack_means_step(g, stack, trees, lows, base, p.0, p.1, Pattern::Byte(b), n);
                assert(stack.take(n) =~= stack);
                assert(trees.take(n) =~= trees);
                assert(lows.take(n + 1) =~= lows);
                lemma_thompson_means(
                    p.0,
                    stack.push(p.1),
                    trees.push(Pattern::Byte(b)),
                    lows.push(p.0.len() as int),
                    base,
                    t,
                    i + 1,
                );
                lemma_keeps_steps_trans(g, p.0, res);
            },
            Charactor::Or => {
                let p = alternation(g, stack[n - 2], stack[n - 1]);
                let tree = Pattern::Either(Box::new(trees[n - 2]), Box::new(trees[n - 1]));
                lemma_thompson_grows(p.0, stack.take(n - 2).push(p.1), t, i + 1);
                assert(means(g, stack[n - 2], lows[n - 2], lows[n - 2 + 1], trees[n - 2]));
                assert(means(g, stack[n - 1], lows[n - 1], lows[n - 1 + 1], trees[n - 1]));
                assert(lows[0] <= lows[n - 2]);
                lemma_alternation_means(
                    g,
                    stack[n - 2],
                    stack[n - 1],
                    lows[n - 2],
                    lows[n - 1],
                    trees[n - 2],
                    trees[n - 1],
                );
                lemma_stack_means_step(g, stack, trees, lows, base, p.0, p.1, tree, n - 2);
                lemma_thompson_means(
                    p.0,
                    stack.take(n - 2).push(p.1),
                    trees.take(n - 2).push(tree),
                    lows.take(n - 1).push(p.0.len() as int),
                    base,
                    t,
                    i + 1,
                );
                lemma_keeps_steps_trans(g, p.0, res);
            },
            Charactor::Concat => {
                let p = concatenation(g, stack[n - 2], stack[n - 1]);
                let tree = Pattern::Then(Box::new(trees[n - 2]), Box::new(trees[n - 1]));
                lemma_thompson_grows(p.0, stack.take(n - 2).push(p.1), t, i + 1);
                assert(means(g, stack[n - 2], lows[n - 2], lows[n - 2 + 1], trees[n - 2]));
                assert(means(g, stack[n - 1], lows[n - 1], lows[n - 1 + 1], trees[n - 1]));
                assert(lows[0] <= lows[n - 2]);
                lemma_concatenation_means(
                    g,
                    stack[n - 2],
                    stack[n - 1],
                    lows[n - 2],
                    lows[n - 1],
                    trees[n - 2],
                    trees[n - 1],
                );
                lemma_stack_means_step(g, stack, trees, lows, base, p.0, p.1, tree, n - 2);
                lemma_thompson_means(
                    p.0,
                    stack.take(n - 2).push(p.1),
                    trees.take(n - 2).push(tree),
                    lows.take(n - 1).push(p.0.len() as int),
                    base,
                    t,
                    i + 1,
                );
                lemma_keeps_steps_trans(g, p.0, res);
            },
            Charactor::Closure => {
                let p = closure(g, stack[n - 1]);
                let tree = Pattern::Many(Box::new(trees[n - 1]));
                lemma_thompson_grows(p.0, stack.take(n - 1).push(p.1), t, i + 1);
                assert(means(g, stack[n - 1], lows[n - 1], lows[n - 1 + 1], trees[n - 1]));
                assert(lows[0] <= lows[n - 1]);
                lemma_closure_means(g, stack[n - 1], lows[n - 1], trees[n - 1]);
                lemma_stack_means_step(g, stack, trees, lows, base, p.0, p.1, tree, n - 1);
                lemma_thompson_means(
                    p.0,
                    stack.take(n - 1).push(p.1),
                    trees.take(n - 1).push(tree),
                    lows.take(n).push(p.0.len() as int),
                    base,
                    t,
                    i + 1,
                );
                lemma_keeps_steps_trans(g, p.0, res);
            },
            _ => {
                lemma_thompson_means(g, stack, trees, lows, base, t, i + 1);
            },
        }
    }
}

/// A handler changes no step.
pub proof fn lemma_handler_means(
    g: Seq<StateView>,
    at: usize,
    handler: usize,
    f: Fragment,
    lo: int,
    hi: int,
    p: Pattern,
)
    requires
        means(g, f, lo, hi, p),
    ensures
        means(with_handler(g, at, handler), f, lo, hi, p),
        keeps_steps(g, with_handler(g, at, handler)),
{
    let h = with_handler(g, at, handler);
    assert forall|a: int, c: int, bytewise: bool, w: Seq<u8>| #[trigger]
        steps(g, a, c, bytewise, w) implies steps(h, a, c, bytewise, w) by {
        assert(h[a].epsilon == g[a].epsilon);
        assert(h[a].neighbors == g[a].neighbors);
    }
    assert forall|a: int, c: int, bytewise: bool, w: Seq<u8>| #[trigger]
        steps(h, a, c, bytewise, w) implies steps(g, a, c, bytewise, w) by {
        assert(h[a].epsilon == g[a].epsilon);
        assert(h[a].neighbors == g[a].neighbors);
    }
    assert(h[f.end as int].epsilon == g[f.end as int].epsilon);
    assert(h[f.end as int].neighbors == g[f.end as int].neighbors);
    assert forall|w: Seq<u8>| #[trigger] reads(h, f.start as int, f.end as int, w) implies pattern_matches(
        p,
        w,
    ) by {
        lemma_reads_kept(h, g, f.start as int, f.end as int, w);
    }
    assert forall|w: Seq<u8>| #[trigger] pattern_matches(p, w) implies reads(
        h,
        f.start as int,
        f.end as int,
        w,
    ) by {
        assert(reads(g, f.start as int, f.end as int, w));
        lemma_reads_kept(g, h, f.start as int, f.end as int, w);
    }
}

/// The fragment of a rule, built onto an arena, reads from its start to its
/// end exactly what the rule's pattern matches, and changes no state that was there.
pub proof fn lemma_rule_fragment_means(g: Seq<StateView>, t: Seq<Charactor>, handler: usize)
    requires
        rule_fragment(g, t, handler) is Ok,
        rule_fragment(g, t, handler)->Ok_0.0.len() <= usize::MAX,
    ensures
        pattern_of(t) is Some,
        means(
            rule_fragment(g, t, handler)->Ok_0.0,
            rule_fragment(g, t, handler)->Ok_0.1,
            g.len() as int,
            rule_fragment(g, t, handler)->Ok_0.0.len() as int,
            pattern_of(t)->Some_0,
        ),
        keeps_steps(g, rule_fragment(g, t, handler)->Ok_0.0),
        forall|a: int| 0 <= a < g.len() ==> rule_fragment(g, t, handler)->Ok_0.0[a] == g[a],
{
    let lows = seq![g.len() as int];
    let p = thompson_from(g, Seq::<Fragment>::empty(), t, 0)->Ok_0;
    lemma_thompson_means(
        g,
        Seq::<Fragment>::empty(),
        Seq::<Pattern>::empty(),
        lows,
        g.len() as int,
        t,
        0,
    );
    lemma_handler_means(
        p.0,
        p.1.end,
        handler,
        p.1,
        g.len() as int,
        p.0.len() as int,
        pattern_of(t)->Some_0,
    );
    lemma_keeps_steps_trans(g, p.0, with_handler(p.0, p.1.end, handler));
}

/// The automaton of one rule reads, from its start to its end, exactly the
/// inputs that the rule's pattern matches.
pub proof fn lemma_rule_reads_what_its_pattern_matches(
    t: Seq<Charactor>,
    handler: usize,
    w: Seq<u8>,
)
    requires
        rule_fragment(Seq::<StateView>::empty(), t, handler) is Ok,
        rule_fragment(Seq::<StateView>::empty(), t, handler)->Ok_0.0.len() <= usize::MAX,
    ensures
        pattern_of(t) is Some,
        reads(
            rule_fragment(Seq::<StateView>::empty(), t, handler)->Ok_0.0,
            rule_fragment(Seq::<StateView>::empty(), t, handler)->Ok_0.1.start as int,
            rule_fragment(Seq::<StateView>::empty(), t, handler)->Ok_0.1.end as int,
            w,
        ) <==> pattern_matches(pattern_of(t)->Some_0, w),
{
    lemma_rule_fragment_means(Seq::<StateView>::empty(), t, handler);
}

} // verus!
