//! From patterns to the table: the table accepts an input exactly where a
//! rule's pattern matches it, and the earliest such rule fires.

use crate::compiler::rules_automaton;
use crate::dfa::{
    byte_step, dead, eps_closure, eps_edge, eps_path, eps_reaches, handlers_of,
    lemma_reaches_extend, lemma_reaches_self, states_after, subset_construction, LookupState,
    StateVertex,
};
use crate::language::{
    bare, goes, inside, keeps_steps, left_over, lemma_bare_stays, lemma_epsilon_steps,
    lemma_goes_within, lemma_keeps_steps_trans, lemma_pair_steps, lemma_reads_joined,
    lemma_reads_kept, lemma_reads_nothing, lemma_rule_fragment_means, lemma_step_first,
    means, only_epsilon, pattern_matches, pattern_of, reads, steps, Pattern,
};
use crate::nfa::{alternation, rule_fragment, with_epsilon, with_pair, with_rule, Fragment, StateView};
use crate::regex_expr::{compiled, Charactor};
use crate::scanner::{accepts, lemma_best_is_longest, longest, winner};
use crate::shape::{lemma_rule_tags_its_end_only, lemma_thompson_grows};
use crate::simulation::lemma_table_accepts_what_nfa_accepts;
use vstd::utf8::encode_utf8;
use vstd::prelude::*;

verus! {

/// States that reach each other over epsilon edges read nothing on the way.
proof fn lemma_path_reads_nothing(g: Seq<StateView>, p: Seq<usize>)
    requires
        eps_path(g, p),
    ensures
        reads(g, p[0] as int, p.last() as int, Seq::<u8>::empty()),
    decreases p.len(),
{
    let nothing = Seq::<u8>::empty();
    if p.len() == 1 {
        lemma_reads_nothing(g, p[0] as int);
    } else {
        let q = p.skip(1);
        assert forall|k: int| 0 <= k < q.len() - 1 implies eps_edge(g, #[trigger] q[k], q[k + 1]) by {
            assert(eps_edge(g, p[k + 1], p[k + 1 + 1]));
        }
        lemma_path_reads_nothing(g, q);
        assert(eps_edge(g, p[0], p[1]));
        let k = choose|k: int| 0 <= k < g[p[0] as int].epsilon.len() && g[p[0] as int].epsilon[k] == p[1];
        assert(g[p[0] as int].epsilon[k] == p[1] as int);
        assert(steps(g, p[0] as int, p[1] as int, false, nothing));
        lemma_step_first(g, p[0] as int, p[1] as int, p.last() as int, false, nothing);
    }
}

/// What the automaton may be in after `w` is closed under epsilon edges.
proof fn lemma_states_after_closed(g: Seq<StateView>, start: usize, w: Seq<u8>, y: usize, z: usize)
    requires
        states_after(g, start, w).contains(y),
        eps_edge(g, y, z),
    ensures
        states_after(g, start, w).contains(z),
{
    if w.len() == 0 {
        lemma_reaches_extend(g, start, y, z);
    } else {
        let s = states_after(g, start, w.drop_last());
        let c = w.last();
        let a = choose|a: usize|
            s.contains(a) && a < g.len() && g[a as int].neighbors.contains_key(c)
                && #[trigger] eps_reaches(g, g[a as int].neighbors[c], y);
        lemma_reaches_extend(g, g[a as int].neighbors[c], y, z);
    }
}

/// A state that the automaton may be in after `w` is reached by steps that read `w`.
pub proof fn lemma_states_after_are_read(g: Seq<StateView>, start: usize, w: Seq<u8>, x: usize)
    requires
        states_after(g, start, w).contains(x),
    ensures
        reads(g, start as int, x as int, w),
    decreases w.len(),
{
    let nothing = Seq::<u8>::empty();
    if w.len() == 0 {
        let p = choose|p: Seq<usize>| eps_path(g, p) && p[0] == start && #[trigger] p.last() == x;
        lemma_path_reads_nothing(g, p);
        assert(w =~= nothing);
    } else {
        let before = w.drop_last();
        let s = states_after(g, start, before);
        let c = w.last();
        let a = choose|a: usize|
            s.contains(a) && a < g.len() && g[a as int].neighbors.contains_key(c)
                && #[trigger] eps_reaches(g, g[a as int].neighbors[c], x);
        let b = g[a as int].neighbors[c];
        lemma_states_after_are_read(g, start, before, a);
        let p = choose|p: Seq<usize>| eps_path(g, p) && p[0] == b && #[trigger] p.last() == x;
        lemma_path_reads_nothing(g, p);
        let one = seq![c];
        assert(steps(g, a as int, b as int, true, one));
        assert(left_over(true, one) =~= nothing);
        lemma_reads_nothing(g, b as int);
        lemma_step_first(g, a as int, b as int, b as int, true, one);
        lemma_reads_joined(g, start as int, a as int, b as int, before, one);
        lemma_reads_joined(g, start as int, b as int, x as int, before + one, nothing);
        assert(before + one + nothing =~= w);
    }
}

proof fn lemma_goes_into_states_after(
    g: Seq<StateView>,
    start: usize,
    u: Seq<u8>,
    a: usize,
    x: usize,
    w: Seq<u8>,
    n: nat,
)
    requires
        states_after(g, start, u).contains(a),
        goes(g, a as int, x as int, w, n),
    ensures
        states_after(g, start, u + w).contains(x),
    decreases n,
{
    if n == 0 {
        assert(u + w =~= u);
    } else {
        let (c, bytewise) = choose|c: int, bytewise: bool| #[trigger]
            steps(g, a as int, c, bytewise, w) && goes(
                g,
                c,
                x as int,
                left_over(bytewise, w),
                (n - 1) as nat,
            );
        if bytewise {
            let b = g[a as int].neighbors[w[0]];
            lemma_reaches_self(g, b);
            let longer = u.push(w[0]);
            assert(longer.drop_last() =~= u);
            assert(states_after(g, start, longer).contains(b));
            lemma_goes_into_states_after(g, start, longer, b, x, w.skip(1), (n - 1) as nat);
            assert(longer + w.skip(1) =~= u + w);
        } else {
            let k = choose|k: int|
                0 <= k < g[a as int].epsilon.len() && #[trigger] g[a as int].epsilon[k] == c;
            let b = g[a as int].epsilon[k];
            assert(eps_edge(g, a, b));
            lemma_states_after_closed(g, start, u, a, b);
            lemma_goes_into_states_after(g, start, u, b, x, w, (n - 1) as nat);
        }
    }
}

/// The states that the automaton may be in after `w` are exactly those that
/// steps from the start reach while they read `w`.
pub proof fn lemma_states_after_is_what_is_read(
    g: Seq<StateView>,
    start: usize,
    w: Seq<u8>,
    x: usize,
)
    ensures
        states_after(g, start, w).contains(x) <==> reads(g, start as int, x as int, w),
{
    if states_after(g, start, w).contains(x) {
        lemma_states_after_are_read(g, start, w, x);
    }
    if reads(g, start as int, x as int, w) {
        let n = choose|n: nat| goes(g, start as int, x as int, w, n);
        lemma_reaches_self(g, start);
        assert(eps_closure(g, start).contains(start));
        lemma_goes_into_states_after(g, start, Seq::<u8>::empty(), start, x, w, n);
        assert(Seq::<u8>::empty() + w =~= w);
    }
}


/// The automaton of the rules with the trees `trees`: the state `ends[j]`, and
/// no other, accepts rule `j`, and steps from the start read on their way to
/// it exactly what the tree of rule `j` matches.
pub open spec fn rules_mean(
    g: Seq<StateView>,
    f: Fragment,
    trees: Seq<Pattern>,
    ends: Seq<usize>,
) -> bool {
    &&& f.start < g.len()
    &&& f.end < g.len()
    &&& inside(g, 0, g.len() as int)
    &&& bare(g[f.end as int])
    &&& ends.len() == trees.len()
    &&& forall|j: int|
        0 <= j < ends.len() ==> (#[trigger] ends[j]) < g.len() && g[ends[j] as int].handler == Some(
            j as usize,
        )
    &&& forall|x: int|
        0 <= x < g.len() && (#[trigger] g[x]).handler is Some ==> g[x].handler->Some_0 < ends.len()
            && ends[g[x].handler->Some_0 as int] == x
    &&& forall|j: int, w: Seq<u8>|
        0 <= j < ends.len() && #[trigger] reads(g, f.start as int, ends[j] as int, w) ==> pattern_matches(
            trees[j],
            w,
        )
    &&& forall|j: int, w: Seq<u8>|
        0 <= j < ends.len() && #[trigger] pattern_matches(trees[j], w) ==> reads(
            g,
            f.start as int,
            ends[j] as int,
            w,
        )
}

/// Steps from inside a fragment, whose end has got one edge that leads out,
/// end there, or are steps inside the fragment as it was.
proof fn lemma_region(
    g: Seq<StateView>,
    h: Seq<StateView>,
    lo: int,
    hi: int,
    end: usize,
    out: usize,
    a: int,
    b: int,
    w: Seq<u8>,
    n: nat,
)
    requires
        0 <= lo <= hi <= g.len() <= h.len(),
        inside(g, lo, hi),
        lo <= end < hi,
        forall|x: int| lo <= x < hi && x != end ==> h[x] == g[x],
        only_epsilon(h[end as int], seq![out]),
        !(lo <= out < hi),
        out < h.len(),
        bare(h[out as int]),
        lo <= a < hi,
        goes(h, a, b, w, n),
    ensures
        b == out || (lo <= b < hi && goes(g, a, b, w, n)),
    decreases n,
{
    if n > 0 {
        let (c, bytewise) = choose|c: int, bytewise: bool| #[trigger]
            steps(h, a, c, bytewise, w) && goes(h, c, b, left_over(bytewise, w), (n - 1) as nat);
        if a == end {
            assert(!bytewise && c == out);
            lemma_bare_stays(h, out as int, b, w, (n - 1) as nat);
        } else {
            assert(h[a] == g[a]);
            assert(steps(g, a, c, bytewise, w));
            lemma_region(g, h, lo, hi, end, out, c, b, left_over(bytewise, w), (n - 1) as nat);
        }
    }
}

/// What the alternation of two fragments with bare ends does to the arena.
proof fn lemma_alternation_edges(g: Seq<StateView>, left: Fragment, right: Fragment)
    requires
        g.len() + 2 <= usize::MAX,
        left.start < g.len(),
        left.end < g.len(),
        right.start < g.len(),
        right.end < g.len(),
        left.end != right.end,
        bare(g[left.end as int]),
        bare(g[right.end as int]),
    ensures
        keeps_steps(g, alternation(g, left, right).0),
        alternation(g, left, right).0.len() == g.len() + 2,
        alternation(g, left, right).1 == (Fragment {
            start: g.len() as usize,
            end: (g.len() + 1) as usize,
        }),
        forall|x: int|
            0 <= x < g.len() && x != left.end && x != right.end ==> alternation(g, left, right).0[x]
                == g[x],
        forall|x: int|
            0 <= x < g.len() ==> (#[trigger] alternation(g, left, right).0[x]).handler
                == g[x].handler,
        alternation(g, left, right).0[g.len() as int].handler is None,
        alternation(g, left, right).0[g.len() as int + 1].handler is None,
        only_epsilon(
            alternation(g, left, right).0[left.end as int],
            seq![(g.len() + 1) as usize],
        ),
        only_epsilon(
            alternation(g, left, right).0[right.end as int],
            seq![(g.len() + 1) as usize],
        ),
        only_epsilon(
            alternation(g, left, right).0[g.len() as int],
            seq![left.start, right.start],
        ),
        bare(alternation(g, left, right).0[g.len() as int + 1]),
{
    let s = g.len() as usize;
    let e = (g.len() + 1) as usize;
    let g0 = with_pair(g);
    let g1 = with_epsilon(g0, left.end, e);
    let g2 = with_epsilon(g1, right.end, e);
    let g3 = with_epsilon(g2, s, left.start);
    let g4 = with_epsilon(g3, s, right.start);
    lemma_pair_steps(g);
    lemma_epsilon_steps(g0, left.end, e);
    lemma_epsilon_steps(g1, right.end, e);
    lemma_epsilon_steps(g2, s, left.start);
    lemma_epsilon_steps(g3, s, right.start);
    lemma_keeps_steps_trans(g2, g3, g4);
    lemma_keeps_steps_trans(g1, g2, g4);
    lemma_keeps_steps_trans(g0, g1, g4);
    lemma_keeps_steps_trans(g, g0, g4);
    assert(bare(g4[e as int]));
    assert(g4[left.end as int].epsilon =~= seq![e]);
    assert(g4[right.end as int].epsilon =~= seq![e]);
    assert(g4[s as int].epsilon =~= seq![left.start, right.start]);
}

/// One more rule: the automaton of the rules so far, joined to the new rule's
/// fragment, is the automaton of all of them.
proof fn lemma_rule_added(
    g: Seq<StateView>,
    left: Fragment,
    trees: Seq<Pattern>,
    ends: Seq<usize>,
    t: Seq<Charactor>,
) -> (more: Seq<usize>)
    requires
        rules_mean(g, left, trees, ends),
        trees.len() < usize::MAX,
        with_rule(Some((g, left)), t, trees.len() as usize) is Ok,
        with_rule(Some((g, left)), t, trees.len() as usize)->Ok_0.0.len() <= usize::MAX,
    ensures
        pattern_of(t) is Some,
        rules_mean(
            with_rule(Some((g, left)), t, trees.len() as usize)->Ok_0.0,
            with_rule(Some((g, left)), t, trees.len() as usize)->Ok_0.1,
            trees.push(pattern_of(t)->Some_0),
            more,
        ),
{
    let m = trees.len() as usize;
    let added = rule_fragment(g, t, m)->Ok_0;
    let g1 = added.0;
    let right = added.1;
    let joined = alternation(g1, left, right);
    let g2 = joined.0;
    let s = g1.len() as usize;
    let e = (g1.len() + 1) as usize;
    let base = g.len() as int;
    lemma_rule_fragment_means(g, t, m);
    lemma_rule_tags_its_end_only(g, t, m);
    let tree = pattern_of(t)->Some_0;
    let more = ends.push(right.end);
    let trees2 = trees.push(tree);
    assert(g1[left.end as int] == g[left.end as int]);
    lemma_alternation_edges(g1, left, right);
    lemma_keeps_steps_trans(g, g1, g2);
    assert forall|a: int, c: int, bytewise: bool, w: Seq<u8>|
        0 <= a < base && #[trigger] steps(g1, a, c, bytewise, w) implies 0 <= c < base by {
        assert(g1[a] == g[a]);
        assert(steps(g, a, c, bytewise, w));
    }
    assert(inside(g1, 0, base));
    assert forall|a: int, c: int, bytewise: bool, w: Seq<u8>|
        0 <= a < g2.len() && #[trigger] steps(g2, a, c, bytewise, w) implies 0 <= c < g2.len() by {
        if a == s || a == e || a == left.end || a == right.end {
        } else {
            assert(g2[a] == g1[a]);
            assert(steps(g1, a, c, bytewise, w));
        }
    }
    assert forall|j: int| 0 <= j < more.len() implies (#[trigger] more[j]) < g2.len()
        && g2[more[j] as int].handler == Some(j as usize) by {
        if j < ends.len() {
            assert(ends[j] < g.len());
            assert(g2[ends[j] as int].handler == g1[ends[j] as int].handler);
            assert(g1[ends[j] as int].handler == g[ends[j] as int].handler);
        } else {
            assert(g2[right.end as int].handler == g1[right.end as int].handler);
        }
    }
    assert forall|x: int| 0 <= x < g2.len() && (#[trigger] g2[x]).handler is Some implies g2[x].handler->Some_0
        < more.len() && more[g2[x].handler->Some_0 as int] == x by {
        if x < g1.len() {
            assert(g2[x].handler == g1[x].handler);
            if x < base {
                assert(g1[x].handler == g[x].handler);
                assert(g[x].handler is Some);
            }
        }
    }
    assert forall|j: int, w: Seq<u8>|
        0 <= j < more.len() && #[trigger] reads(g2, s as int, more[j] as int, w) implies pattern_matches(
        trees2[j],
        w,
    ) by {
        let n = choose|n: nat| goes(g2, s as int, more[j] as int, w, n);
        assert(more[j] != s);
        assert(n > 0);
        let (c, bytewise) = choose|c: int, bytewise: bool| #[trigger]
            steps(g2, s as int, c, bytewise, w) && goes(
                g2,
                c,
                more[j] as int,
                left_over(bytewise, w),
                (n - 1) as nat,
            );
        assert(!bytewise);
        if c == left.start {
            lemma_region(g1, g2, 0, base, left.end, e, c, more[j] as int, w, (n - 1) as nat);
            assert(j < ends.len());
            lemma_goes_within(g, g1, 0, base, c, more[j] as int, w, (n - 1) as nat);
            assert(reads(g, left.start as int, ends[j] as int, w));
        } else {
            assert(c == right.start);
            lemma_region(
                g1,
                g2,
                base,
                g1.len() as int,
                right.end,
                e,
                c,
                more[j] as int,
                w,
                (n - 1) as nat,
            );
            assert(j == ends.len());
            assert(reads(g1, right.start as int, right.end as int, w));
        }
    }
    assert forall|j: int, w: Seq<u8>|
        0 <= j < more.len() && #[trigger] pattern_matches(trees2[j], w) implies reads(
        g2,
        s as int,
        more[j] as int,
        w,
    ) by {
        if j < ends.len() {
            assert(pattern_matches(trees[j], w));
            assert(reads(g, left.start as int, ends[j] as int, w));
            lemma_reads_kept(g, g2, left.start as int, ends[j] as int, w);
            assert(steps(g2, s as int, left.start as int, false, w));
            lemma_step_first(g2, s as int, left.start as int, more[j] as int, false, w);
        } else {
            assert(reads(g1, right.start as int, right.end as int, w));
            lemma_reads_kept(g1, g2, right.start as int, right.end as int, w);
            assert(steps(g2, s as int, right.start as int, false, w));
            lemma_step_first(g2, s as int, right.start as int, more[j] as int, false, w);
        }
    }
    more
}


/// The tree of the pattern of rule `j`.
pub open spec fn rule_tree(patterns: Seq<String>, j: int) -> Pattern {
    pattern_of(compiled(encode_utf8(patterns[j]@))->Ok_0)->Some_0
}

/// The trees of the first `n` rules.
pub open spec fn rule_trees(patterns: Seq<String>, n: int) -> Seq<Pattern> {
    Seq::new(n as nat, |j: int| rule_tree(patterns, j))
}

/// Adding rules never shortens the arena.
proof fn lemma_rules_grow(patterns: Seq<String>, i: int, g: Seq<StateView>, f: Fragment)
    requires
        0 <= i,
        rules_automaton(patterns, i, Some((g, f))) is Ok,
    ensures
        rules_automaton(patterns, i, Some((g, f)))->Ok_0 is Some,
        g.len() <= rules_automaton(patterns, i, Some((g, f)))->Ok_0->Some_0.0.len(),
    decreases patterns.len() - i,
{
    if i < patterns.len() {
        let t = compiled(encode_utf8(patterns[i]@))->Ok_0;
        let p = with_rule(Some((g, f)), t, i as usize)->Ok_0;
        lemma_thompson_grows(g, Seq::<Fragment>::empty(), t, 0);
        lemma_rules_grow(patterns, i + 1, p.0, p.1);
    }
}

proof fn lemma_rules_mean(
    patterns: Seq<String>,
    i: int,
    g: Seq<StateView>,
    f: Fragment,
    ends: Seq<usize>,
) -> (all: Seq<usize>)
    requires
        1 <= i <= patterns.len() <= usize::MAX,
        rules_mean(g, f, rule_trees(patterns, i), ends),
        rules_automaton(patterns, i, Some((g, f))) is Ok,
        rules_automaton(patterns, i, Some((g, f)))->Ok_0 is Some,
        rules_automaton(patterns, i, Some((g, f)))->Ok_0->Some_0.0.len() <= usize::MAX,
    ensures
        rules_mean(
            rules_automaton(patterns, i, Some((g, f)))->Ok_0->Some_0.0,
            rules_automaton(patterns, i, Some((g, f)))->Ok_0->Some_0.1,
            rule_trees(patterns, patterns.len() as int),
            all,
        ),
    decreases patterns.len() - i,
{
    if i >= patterns.len() {
        ends
    } else {
        let t = compiled(encode_utf8(patterns[i]@))->Ok_0;
        let p = with_rule(Some((g, f)), t, i as usize)->Ok_0;
        lemma_rules_grow(patterns, i + 1, p.0, p.1);
        let more = lemma_rule_added(g, f, rule_trees(patterns, i), ends, t);
        assert(rule_trees(patterns, i).push(pattern_of(t)->Some_0) =~= rule_trees(patterns, i + 1));
        lemma_rules_mean(patterns, i + 1, p.0, p.1, more)
    }
}

/// In the automaton of the rules, each rule has one accepting state, and
/// steps from the start read on their way to it exactly what the rule's
/// pattern matches.
pub proof fn lemma_automaton_means_its_rules(patterns: Seq<String>) -> (ends: Seq<usize>)
    requires
        0 < patterns.len() <= usize::MAX,
        rules_automaton(patterns, 0, None) is Ok,
        rules_automaton(patterns, 0, None)->Ok_0 is Some,
        rules_automaton(patterns, 0, None)->Ok_0->Some_0.0.len() <= usize::MAX,
    ensures
        rules_mean(
            rules_automaton(patterns, 0, None)->Ok_0->Some_0.0,
            rules_automaton(patterns, 0, None)->Ok_0->Some_0.1,
            rule_trees(patterns, patterns.len() as int),
            ends,
        ),
{
    let nothing = Seq::<StateView>::empty();
    let t = compiled(encode_utf8(patterns[0]@))->Ok_0;
    let p = rule_fragment(nothing, t, 0)->Ok_0;
    assert(with_rule(None, t, 0) == rule_fragment(nothing, t, 0));
    lemma_rules_grow(patterns, 1, p.0, p.1);
    lemma_rule_fragment_means(nothing, t, 0);
    lemma_rule_tags_its_end_only(nothing, t, 0);
    let trees = rule_trees(patterns, 1);
    let ends = seq![p.1.end];
    assert(trees[0] == pattern_of(t)->Some_0);
    assert(rules_mean(p.0, p.1, trees, ends));
    lemma_rules_mean(patterns, 1, p.0, p.1, ends)
}

/// The table of the rules accepts an input exactly where the pattern of some
/// rule matches it, and the rule that fires is the earliest whose pattern does.
pub proof fn lemma_table_fires_the_earliest_rule(
    patterns: Seq<String>,
    vs: Seq<StateVertex>,
    rows: Seq<LookupState>,
    w: Seq<u8>,
)
    requires
        0 < patterns.len() <= usize::MAX,
        rules_automaton(patterns, 0, None) is Ok,
        rules_automaton(patterns, 0, None)->Ok_0 is Some,
        rules_automaton(patterns, 0, None)->Ok_0->Some_0.0.len() <= usize::MAX,
        subset_construction(
            rules_automaton(patterns, 0, None)->Ok_0->Some_0.0,
            rules_automaton(patterns, 0, None)->Ok_0->Some_0.1.start,
            vs,
            rows,
        ),
        w.len() > 0,
    ensures
        accepts(rows, w) <==> exists|j: int|
            0 <= j < patterns.len() && #[trigger] pattern_matches(rule_tree(patterns, j), w),
        accepts(rows, w) ==> {
            &&& winner(rows, w) < patterns.len()
            &&& pattern_matches(rule_tree(patterns, winner(rows, w) as int), w)
            &&& forall|j: int|
                0 <= j < winner(rows, w) ==> !#[trigger] pattern_matches(rule_tree(patterns, j), w)
        },
{
    let g = rules_automaton(patterns, 0, None)->Ok_0->Some_0.0;
    let f = rules_automaton(patterns, 0, None)->Ok_0->Some_0.1;
    let ends = lemma_automaton_means_its_rules(patterns);
    let trees = rule_trees(patterns, patterns.len() as int);
    let after = states_after(g, f.start, w);
    let fired = handlers_of(g, after);
    lemma_table_accepts_what_nfa_accepts(g, f.start, vs, rows, w);
    assert forall|h: usize| fired.contains(h) implies h < patterns.len() && pattern_matches(
        rule_tree(patterns, h as int),
        w,
    ) by {
        let a = choose|a: usize|
            after.contains(a) && a < g.len() && (#[trigger] g[a as int].handler) == Some(h);
        assert(g[a as int].handler is Some);
        assert(ends[h as int] == a);
        lemma_states_after_is_what_is_read(g, f.start, w, a);
        assert(reads(g, f.start as int, ends[h as int] as int, w));
        assert(trees[h as int] == rule_tree(patterns, h as int));
    }
    assert forall|j: int|
        0 <= j < patterns.len() && #[trigger] pattern_matches(
            rule_tree(patterns, j),
            w,
        ) implies fired.contains(j as usize) by {
        assert(trees[j] == rule_tree(patterns, j));
        assert(reads(g, f.start as int, ends[j] as int, w));
        lemma_states_after_is_what_is_read(g, f.start, w, ends[j]);
        assert(g[ends[j] as int].handler == Some(j as usize));
    }
    if accepts(rows, w) {
        let k = winner(rows, w);
        assert(fired.contains(k));
        assert forall|j: int| 0 <= j < k implies !#[trigger] pattern_matches(
            rule_tree(patterns, j),
            w,
        ) by {
            if pattern_matches(rule_tree(patterns, j), w) {
                assert(fired.contains(j as usize));
            }
        }
    }
    if exists|j: int|
        0 <= j < patterns.len() && #[trigger] pattern_matches(rule_tree(patterns, j), w) {
        let j = choose|j: int|
            0 <= j < patterns.len() && #[trigger] pattern_matches(rule_tree(patterns, j), w);
        assert(fired.contains(j as usize));
    }
}


/// Some rule's pattern matches `w`.
pub open spec fn some_rule_matches(patterns: Seq<String>, w: Seq<u8>) -> bool {
    exists|j: int| 0 <= j < patterns.len() && #[trigger] pattern_matches(rule_tree(patterns, j), w)
}

/// The match that the table of the rules finds at the head of an input is the
/// longest prefix, of one byte at least, that the pattern of some rule
/// matches, and the handler is that of the earliest rule whose pattern matches
/// that prefix; it finds none exactly where no pattern matches any such prefix.
pub proof fn lemma_match_is_longest_and_earliest(
    patterns: Seq<String>,
    vs: Seq<StateVertex>,
    rows: Seq<LookupState>,
    w: Seq<u8>,
)
    requires
        0 < patterns.len() <= usize::MAX,
        rules_automaton(patterns, 0, None) is Ok,
        rules_automaton(patterns, 0, None)->Ok_0 is Some,
        rules_automaton(patterns, 0, None)->Ok_0->Some_0.0.len() <= usize::MAX,
        subset_construction(
            rules_automaton(patterns, 0, None)->Ok_0->Some_0.0,
            rules_automaton(patterns, 0, None)->Ok_0->Some_0.1.start,
            vs,
            rows,
        ),
        w.len() <= usize::MAX,
    ensures
        match longest(rows, w) {
            Some(m) => {
                &&& 1 <= m.0 <= w.len()
                &&& m.1 < patterns.len()
                &&& pattern_matches(rule_tree(patterns, m.1 as int), w.take(m.0 as int))
                &&& forall|j: int|
                    0 <= j < m.1 ==> !#[trigger] pattern_matches(
                        rule_tree(patterns, j),
                        w.take(m.0 as int),
                    )
                &&& forall|k: int|
                    m.0 < k <= w.len() ==> !some_rule_matches(patterns, #[trigger] w.take(k))
            },
            None => forall|k: int|
                1 <= k <= w.len() ==> !some_rule_matches(patterns, #[trigger] w.take(k)),
        },
{
    lemma_best_is_longest(rows, w, w.len() as int);
    match longest(rows, w) {
        Some(m) => {
            lemma_table_fires_the_earliest_rule(patterns, vs, rows, w.take(m.0 as int));
            assert forall|k: int| m.0 < k <= w.len() implies !some_rule_matches(
                patterns,
                #[trigger] w.take(k),
            ) by {
                lemma_table_fires_the_earliest_rule(patterns, vs, rows, w.take(k));
            }
        },
        None => {
            assert forall|k: int| 1 <= k <= w.len() implies !some_rule_matches(
                patterns,
                #[trigger] w.take(k),
            ) by {
                lemma_table_fires_the_earliest_rule(patterns, vs, rows, w.take(k));
            }
        },
    }
}

} // verus!
