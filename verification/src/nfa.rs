//! Thompson's construction over an arena of states that refer to each other
//! by index.

use crate::language::{lemma_rule_fragment_means, means, pattern_of};
use crate::regex_expr::{Charactor, RegexError, RegexExpr};
use crate::shape::{lemma_rule_fragment_shape, lemma_with_rule_shape, shaped};
use std::collections::HashMap;
use vstd::prelude::*;

verus! {

/// One state of an NFA.
pub struct StateVertex {
    /// The state that each byte leads to.
    pub neighbors: HashMap<u8, usize>,
    /// The states reached without input, in the order they were connected.
    pub epsilon_neighbors: Vec<usize>,
    /// The rule that this state accepts, if it accepts one.
    pub handler: Option<usize>,
}

/// What a state holds, as plain values.
pub struct StateView {
    pub neighbors: Map<u8, usize>,
    pub epsilon: Seq<usize>,
    pub handler: Option<usize>,
}

impl View for StateVertex {
    type V = StateView;

    open spec fn view(&self) -> StateView {
        StateView {
            neighbors: self.neighbors@,
            epsilon: self.epsilon_neighbors@,
            handler: self.handler,
        }
    }
}

/// A state's place in its arena.
#[derive(PartialEq, Eq, Clone, Copy, Debug, Structural)]
pub struct NfaVertexRef(pub usize);

/// A sub-automaton: the states it is entered and left by.
#[derive(PartialEq, Eq, Clone, Copy, Debug, Structural)]
pub struct Fragment {
    pub start: usize,
    pub end: usize,
}

/// An automaton with one start and one end state.
pub struct Nfa {
    pub states: Vec<StateVertex>,
    pub start: NfaVertexRef,
    pub end: NfaVertexRef,
}

/// Collects rules into one automaton.
pub struct NfaBuilder {
    pub nfa: Option<Nfa>,
}

/// The arena as a sequence of plain states.
pub open spec fn graph_of(states: Seq<StateVertex>) -> Seq<StateView> {
    states.map_values(|s: StateVertex| s@)
}

/// A state without edges and without a handler.
pub open spec fn blank() -> StateView {
    StateView { neighbors: Map::empty(), epsilon: Seq::empty(), handler: None }
}

/// `g` with two more blank states.
pub open spec fn with_pair(g: Seq<StateView>) -> Seq<StateView> {
    g.push(blank()).push(blank())
}

/// `g` with one more epsilon edge, the last of those that leave `from`.
pub open spec fn with_epsilon(g: Seq<StateView>, from: usize, to: usize) -> Seq<StateView> {
    if from < g.len() {
        g.update(
            from as int,
            StateView {
                neighbors: g[from as int].neighbors,
                epsilon: g[from as int].epsilon.push(to),
                handler: g[from as int].handler,
            },
        )
    } else {
        g
    }
}

/// `g` with an edge from `from` to `to` on `byte`.
pub open spec fn with_edge(g: Seq<StateView>, from: usize, byte: u8, to: usize) -> Seq<StateView> {
    if from < g.len() {
        g.update(
            from as int,
            StateView {
                neighbors: g[from as int].neighbors.insert(byte, to),
                epsilon: g[from as int].epsilon,
                handler: g[from as int].handler,
            },
        )
    } else {
        g
    }
}

/// `g` with state `at` accepting rule `handler`.
pub open spec fn with_handler(g: Seq<StateView>, at: usize, handler: usize) -> Seq<StateView> {
    if at < g.len() {
        g.update(
            at as int,
            StateView {
                neighbors: g[at as int].neighbors,
                epsilon: g[at as int].epsilon,
                handler: Some(handler),
            },
        )
    } else {
        g
    }
}

/// Two new states with one edge on `byte` between them.
pub open spec fn literal(g: Seq<StateView>, byte: u8) -> (Seq<StateView>, Fragment) {
    let s = g.len() as usize;
    let e = (g.len() + 1) as usize;
    (with_edge(with_pair(g), s, byte, e), Fragment { start: s, end: e })
}

/// A new start that leads to both fragments, and a new end that both lead to.
pub open spec fn alternation(g: Seq<StateView>, left: Fragment, right: Fragment) -> (
    Seq<StateView>,
    Fragment,
) {
    let s = g.len() as usize;
    let e = (g.len() + 1) as usize;
    let g1 = with_epsilon(with_pair(g), left.end, e);
    let g2 = with_epsilon(g1, right.end, e);
    let g3 = with_epsilon(g2, s, left.start);
    let g4 = with_epsilon(g3, s, right.start);
    (g4, Fragment { start: s, end: e })
}

/// A new start that enters the fragment or skips it, and a new end; the
/// fragment's end leads back to its start, or out.
pub open spec fn closure(g: Seq<StateView>, sub: Fragment) -> (Seq<StateView>, Fragment) {
    let s = g.len() as usize;
    let e = (g.len() + 1) as usize;
    let g1 = with_epsilon(with_pair(g), s, sub.start);
    let g2 = with_epsilon(g1, s, e);
    let g3 = with_epsilon(g2, sub.end, sub.start);
    let g4 = with_epsilon(g3, sub.end, e);
    (g4, Fragment { start: s, end: e })
}

/// The left fragment's end leads to the right fragment's start; no new state.
pub open spec fn concatenation(g: Seq<StateView>, left: Fragment, right: Fragment) -> (
    Seq<StateView>,
    Fragment,
) {
    (with_epsilon(g, left.end, right.start), Fragment { start: left.start, end: right.end })
}

/// What evaluating the postfix tokens `t[i..]` makes of the arena `g` and the
/// fragment stack: the arena and the one fragment left, or `MalformedExpression`
/// where an operator lacks an operand or the stack does not end with one fragment.
pub open spec fn thompson_from(
    g: Seq<StateView>,
    stack: Seq<Fragment>,
    t: Seq<Charactor>,
    i: int,
) -> Result<(Seq<StateView>, Fragment), RegexError>
    decreases t.len() - i,
{
    let n = stack.len() as int;
    if i < 0 || i >= t.len() {
        if n == 1 {
            Ok((g, stack[0]))
        } else {
            Err(RegexError::MalformedExpression)
        }
    } else {
        match t[i] {
            Charactor::Char(b) => {
                let p = literal(g, b);
                thompson_from(p.0, stack.push(p.1), t, i + 1)
            },
            Charactor::Or => if n < 2 {
                Err(RegexError::MalformedExpression)
            } else {
                let p = alternation(g, stack[n - 2], stack[n - 1]);
                thompson_from(p.0, stack.take(n - 2).push(p.1), t, i + 1)
            },
            Charactor::Concat => if n < 2 {
                Err(RegexError::MalformedExpression)
            } else {
                let p = concatenation(g, stack[n - 2], stack[n - 1]);
                thompson_from(p.0, stack.take(n - 2).push(p.1), t, i + 1)
            },
            Charactor::Closure => if n < 1 {
                Err(RegexError::MalformedExpression)
            } else {
                let p = closure(g, stack[n - 1]);
                thompson_from(p.0, stack.take(n - 1).push(p.1), t, i + 1)
            },
            _ => thompson_from(g, stack, t, i + 1),
        }
    }
}

/// The fragment of the rule `t` with handler `handler`, built onto the arena `g`.
pub open spec fn rule_fragment(g: Seq<StateView>, t: Seq<Charactor>, handler: usize) -> Result<
    (Seq<StateView>, Fragment),
    RegexError,
> {
    match thompson_from(g, Seq::<Fragment>::empty(), t, 0) {
        Err(e) => Err(e),
        Ok(p) => Ok((with_handler(p.0, p.1.end, handler), p.1)),
    }
}

/// Every edge of the state leads to one of the first `n` states.
pub open spec fn state_closed(s: StateView, n: nat) -> bool {
    &&& forall|k: int| 0 <= k < s.epsilon.len() ==> (#[trigger] s.epsilon[k]) < n
    &&& forall|c: u8| #[trigger] s.neighbors.contains_key(c) ==> s.neighbors[c] < n
}

/// Every edge of `g` leads to a state of `g`.
pub open spec fn closed(g: Seq<StateView>) -> bool {
    forall|a: int| 0 <= a < g.len() ==> state_closed(#[trigger] g[a], g.len())
}

impl StateVertex {
    /// A state without edges and without a handler.
    pub fn new() -> (s: StateVertex)
        ensures
            s@ == blank(),
    {
        StateVertex { neighbors: HashMap::new(), epsilon_neighbors: Vec::new(), handler: None }
    }
}

impl NfaVertexRef {
    /// The reference to the state at `index`.
    pub fn new(index: usize) -> (r: NfaVertexRef)
        ensures
            r.0 == index,
    {
        NfaVertexRef(index)
    }
}

fn push_pair(states: &mut Vec<StateVertex>) -> (s: usize)
    ensures
        graph_of(final(states)@) == with_pair(graph_of(old(states)@)),
        s == old(states)@.len(),
        s + 2 == final(states)@.len(),
        closed(graph_of(old(states)@)) ==> closed(graph_of(final(states)@)),
{
    let s = states.len();
    states.push(StateVertex::new());
    states.push(StateVertex::new());
    assert(graph_of(states@) =~= with_pair(graph_of(old(states)@)));
    assert(closed(graph_of(old(states)@)) ==> closed(graph_of(states@))) by {
        let g = graph_of(old(states)@);
        let h = graph_of(states@);
        if closed(g) {
            assert forall|a: int| 0 <= a < h.len() implies state_closed(#[trigger] h[a], h.len()) by {
                if a < g.len() {
                    assert(state_closed(g[a], g.len()));
                }
            }
        }
    }
    s
}

fn add_epsilon(states: &mut Vec<StateVertex>, from: usize, to: usize)
    requires
        from < old(states)@.len(),
    ensures
        graph_of(final(states)@) == with_epsilon(graph_of(old(states)@), from, to),
        final(states)@.len() == old(states)@.len(),
        closed(graph_of(old(states)@)) && to < old(states)@.len() ==> closed(
            graph_of(final(states)@),
        ),
{
    states[from].epsilon_neighbors.push(to);
    assert(graph_of(states@) =~= with_epsilon(graph_of(old(states)@), from, to));
    assert(closed(graph_of(old(states)@)) && to < old(states)@.len() ==> closed(
        graph_of(states@),
    )) by {
        let g = graph_of(old(states)@);
        let h = graph_of(states@);
        if closed(g) && to < g.len() {
            assert forall|a: int| 0 <= a < h.len() implies state_closed(#[trigger] h[a], h.len()) by {
                assert(state_closed(g[a], g.len()));
            }
        }
    }
}

fn add_edge(states: &mut Vec<StateVertex>, from: usize, byte: u8, to: usize)
    requires
        from < old(states)@.len(),
    ensures
        graph_of(final(states)@) == with_edge(graph_of(old(states)@), from, byte, to),
        final(states)@.len() == old(states)@.len(),
        closed(graph_of(old(states)@)) && to < old(states)@.len() ==> closed(
            graph_of(final(states)@),
        ),
{
    states[from].neighbors.insert(byte, to);
    assert(graph_of(states@) =~= with_edge(graph_of(old(states)@), from, byte, to));
    assert(closed(graph_of(old(states)@)) && to < old(states)@.len() ==> closed(
        graph_of(states@),
    )) by {
        let g = graph_of(old(states)@);
        let h = graph_of(states@);
        if closed(g) && to < g.len() {
            assert forall|a: int| 0 <= a < h.len() implies state_closed(#[trigger] h[a], h.len()) by {
                assert(state_closed(g[a], g.len()));
            }
        }
    }
}

fn set_handler(states: &mut Vec<StateVertex>, at: usize, handler: usize)
    requires
        at < old(states)@.len(),
    ensures
        graph_of(final(states)@) == with_handler(graph_of(old(states)@), at, handler),
        final(states)@.len() == old(states)@.len(),
        closed(graph_of(old(states)@)) ==> closed(graph_of(final(states)@)),
{
    states[at].handler = Some(handler);
    assert(graph_of(states@) =~= with_handler(graph_of(old(states)@), at, handler));
    assert(closed(graph_of(old(states)@)) ==> closed(graph_of(states@))) by {
        let g = graph_of(old(states)@);
        let h = graph_of(states@);
        if closed(g) {
            assert forall|a: int| 0 <= a < h.len() implies state_closed(#[trigger] h[a], h.len()) by {
                assert(state_closed(g[a], g.len()));
            }
        }
    }
}


fn join_alternation(states: &mut Vec<StateVertex>, left: Fragment, right: Fragment) -> (f: Fragment)
    requires
        closed(graph_of(old(states)@)),
        left.start < old(states)@.len(),
        left.end < old(states)@.len(),
        right.start < old(states)@.len(),
        right.end < old(states)@.len(),
    ensures
        (graph_of(final(states)@), f) == alternation(graph_of(old(states)@), left, right),
        closed(graph_of(final(states)@)),
        final(states)@.len() == old(states)@.len() + 2,
        f.start < final(states)@.len(),
        f.end < final(states)@.len(),
{
    let s = push_pair(states);
    let e = states.len() - 1;
    add_epsilon(states, left.end, e);
    add_epsilon(states, right.end, e);
    add_epsilon(states, s, left.start);
    add_epsilon(states, s, right.start);
    Fragment { start: s, end: e }
}

fn join_closure(states: &mut Vec<StateVertex>, sub: Fragment) -> (f: Fragment)
    requires
        closed(graph_of(old(states)@)),
        sub.start < old(states)@.len(),
        sub.end < old(states)@.len(),
    ensures
        (graph_of(final(states)@), f) == closure(graph_of(old(states)@), sub),
        closed(graph_of(final(states)@)),
        final(states)@.len() == old(states)@.len() + 2,
        f.start < final(states)@.len(),
        f.end < final(states)@.len(),
{
    let s = push_pair(states);
    let e = states.len() - 1;
    add_epsilon(states, s, sub.start);
    add_epsilon(states, s, e);
    add_epsilon(states, sub.end, sub.start);
    add_epsilon(states, sub.end, e);
    Fragment { start: s, end: e }
}

fn new_literal(states: &mut Vec<StateVertex>, byte: u8) -> (f: Fragment)
    requires
        closed(graph_of(old(states)@)),
    ensures
        (graph_of(final(states)@), f) == literal(graph_of(old(states)@), byte),
        closed(graph_of(final(states)@)),
        final(states)@.len() == old(states)@.len() + 2,
        f.start < final(states)@.len(),
        f.end < final(states)@.len(),
{
    let s = push_pair(states);
    let e = states.len() - 1;
    add_edge(states, s, byte, e);
    Fragment { start: s, end: e }
}

/// Builds the fragment of one rule onto the arena.
fn extend(states: &mut Vec<StateVertex>, expr: &Vec<Charactor>, handler_id: usize) -> (r: Result<
    Fragment,
    RegexError,
>)
    requires
        closed(graph_of(old(states)@)),
    ensures
        match r {
            Ok(f) => {
                &&& rule_fragment(graph_of(old(states)@), expr@, handler_id) == Ok::<
                    (Seq<StateView>, Fragment),
                    RegexError,
                >((graph_of(final(states)@), f))
                &&& closed(graph_of(final(states)@))
                &&& f.start < final(states)@.len()
                &&& f.end < final(states)@.len()
                &&& old(states)@.len() <= final(states)@.len() <= usize::MAX
            },
            Err(e) => rule_fragment(graph_of(old(states)@), expr@, handler_id) == Err::<
                (Seq<StateView>, Fragment),
                RegexError,
            >(e),
        },
{
    let mut stack: Vec<Fragment> = Vec::new();
    let mut i: usize = 0;
    while i < expr.len()
        invariant
            0 <= i <= expr@.len(),
            closed(graph_of(states@)),
            old(states)@.len() <= states@.len(),
            forall|k: int|
                0 <= k < stack@.len() ==> (#[trigger] stack@[k]).start < states@.len()
                    && stack@[k].end < states@.len(),
            thompson_from(graph_of(old(states)@), Seq::<Fragment>::empty(), expr@, 0)
                == thompson_from(graph_of(states@), stack@, expr@, i as int),
        decreases expr@.len() - i,
    {
        let ghost before = stack@;
        let ghost n = stack@.len() as int;
        match expr[i] {
            Charactor::Char(b) => {
                let f = new_literal(states, b);
                stack.push(f);
            },
            Charactor::Or => {
                if stack.len() < 2 {
                    return Err(RegexError::MalformedExpression);
                }
                let right = stack.pop().unwrap();
                let left = stack.pop().unwrap();
                let f = join_alternation(states, left, right);
                stack.push(f);
                assert(stack@ =~= before.take(n - 2).push(f));
            },
            Charactor::Concat => {
                if stack.len() < 2 {
                    return Err(RegexError::MalformedExpression);
                }
                let right = stack.pop().unwrap();
                let left = stack.pop().unwrap();
                add_epsilon(states, left.end, right.start);
                let f = Fragment { start: left.start, end: right.end };
                stack.push(f);
                assert(stack@ =~= before.take(n - 2).push(f));
            },
            Charactor::Closure => {
                if stack.len() < 1 {
                    return Err(RegexError::MalformedExpression);
                }
                let sub = stack.pop().unwrap();
                let f = join_closure(states, sub);
                stack.push(f);
                assert(stack@ =~= before.take(n - 1).push(f));
            },
            _ => {},
        }
        i += 1;
    }
    if stack.len() != 1 {
        return Err(RegexError::MalformedExpression);
    }
    let f = stack[0];
    set_handler(states, f.end, handler_id);
    let count: usize = states.len();
    assert(states@.len() == count);
    Ok(f)
}

impl Nfa {
    /// The arena as plain states.
    pub open spec fn graph(&self) -> Seq<StateView> {
        graph_of(self.states@)
    }

    /// The start and the end as a fragment.
    pub open spec fn fragment(&self) -> Fragment {
        Fragment { start: self.start.0, end: self.end.0 }
    }

    /// The start and the end are states of the arena, and so is every edge's target.
    pub open spec fn wf(&self) -> bool {
        &&& self.start.0 < self.states@.len()
        &&& self.end.0 < self.states@.len()
        &&& closed(self.graph())
    }

    /// Only the end has no outgoing edge, and the start reaches every state.
    pub open spec fn shaped(&self) -> bool {
        shaped(self.graph(), self.fragment())
    }

    /// Decides whether the automaton is well formed.
    pub fn is_valid(&self) -> (r: bool)
        ensures
            r == self.wf(),
    {
        let n = self.states.len();
        if self.start.0 >= n || self.end.0 >= n {
            return false;
        }
        let ghost g = self.graph();
        let mut a: usize = 0;
        while a < n
            invariant
                n == self.states@.len(),
                g == self.graph(),
                0 <= a <= n,
                forall|k: int| 0 <= k < a ==> state_closed(#[trigger] g[k], g.len()),
            decreases n - a,
        {
            let ghost s = g[a as int];
            let mut k: usize = 0;
            while k < self.states[a].epsilon_neighbors.len()
                invariant
                    n == self.states@.len(),
                    g == self.graph(),
                    a < n,
                    s == g[a as int],
                    0 <= k <= s.epsilon.len(),
                    forall|j: int| 0 <= j < k ==> (#[trigger] s.epsilon[j]) < n,
                decreases s.epsilon.len() - k,
            {
                if self.states[a].epsilon_neighbors[k] >= n {
                    assert(!state_closed(g[a as int], g.len()));
                    return false;
                }
                k += 1;
            }
            let mut next: u16 = 0;
            while next < 256
                invariant
                    n == self.states@.len(),
                    g == self.graph(),
                    a < n,
                    s == g[a as int],
                    0 <= next <= 256,
                    forall|c: u8| c < next && #[trigger] s.neighbors.contains_key(c) ==> s.neighbors[c] < n,
                decreases 256 - next,
            {
                let byte = next as u8;
                match self.states[a].neighbors.get(&byte) {
                    Some(target) => {
                        if *target >= n {
                            assert(s.neighbors.contains_key(byte));
                            assert(!state_closed(g[a as int], g.len()));
                            return false;
                        }
                    },
                    None => {},
                }
                next += 1;
            }
            a += 1;
        }
        true
    }

    /// The automaton of one rule: the fragment that Thompson's construction
    /// makes of the postfix tokens, its end accepting rule `handler_id`. Steps
    /// from its start to its end read exactly what the pattern matches.
    pub fn build(expr: &RegexExpr, handler_id: usize) -> (r: Result<Nfa, RegexError>)
        ensures
            match r {
                Ok(nfa) => {
                    &&& rule_fragment(Seq::<StateView>::empty(), expr@, handler_id) == Ok::<
                        (Seq<StateView>, Fragment),
                        RegexError,
                    >((nfa.graph(), nfa.fragment()))
                    &&& nfa.wf()
                    &&& nfa.shaped()
                    &&& pattern_of(expr@) is Some
                    &&& means(
                        nfa.graph(),
                        nfa.fragment(),
                        0,
                        nfa.states@.len() as int,
                        pattern_of(expr@)->Some_0,
                    )
                },
                Err(e) => rule_fragment(Seq::<StateView>::empty(), expr@, handler_id) == Err::<
                    (Seq<StateView>, Fragment),
                    RegexError,
                >(e),
            },
    {
        let mut states: Vec<StateVertex> = Vec::new();
        assert(graph_of(states@) =~= Seq::<StateView>::empty());
        match extend(&mut states, &expr.0, handler_id) {
            Ok(f) => {
                proof {
                    lemma_rule_fragment_shape(expr@, handler_id);
                    lemma_rule_fragment_means(Seq::<StateView>::empty(), expr@, handler_id);
                }
                Ok(Nfa { states, start: NfaVertexRef(f.start), end: NfaVertexRef(f.end) })
            },
            Err(e) => Err(e),
        }
    }
}

impl NfaBuilder {
    /// A builder that holds no rule.
    pub fn new() -> (b: NfaBuilder)
        ensures
            b.nfa is None,
    {
        NfaBuilder { nfa: None }
    }

    /// What the builder holds is well formed.
    pub open spec fn wf(&self) -> bool {
        self.nfa is Some ==> self.nfa->Some_0.wf()
    }

    /// What the builder holds has the shape of a fragment.
    pub open spec fn shaped(&self) -> bool {
        self.nfa is Some ==> self.nfa->Some_0.shaped()
    }

    /// Adds a rule. The first rule's fragment is the automaton; a later one is
    /// built onto the same arena and joined to the automaton by alternation. A
    /// rule that is refused leaves the builder empty.
    pub fn add_rule(&mut self, expr: &RegexExpr, handler_id: usize) -> (r: Result<(), RegexError>)
        requires
            old(self).wf(),
        ensures
            final(self).wf(),
            old(self).shaped() ==> final(self).shaped(),
            match r {
                Ok(_) => with_rule(held(old(self).nfa), expr@, handler_id) == Ok::<
                    (Seq<StateView>, Fragment),
                    RegexError,
                >(held(final(self).nfa)->Some_0) && final(self).nfa is Some,
                Err(e) => with_rule(held(old(self).nfa), expr@, handler_id) == Err::<
                    (Seq<StateView>, Fragment),
                    RegexError,
                >(e) && final(self).nfa is None,
            },
    {
        match self.nfa.take() {
            Some(left) => {
                let Nfa { states, start, end } = left;
                let mut states = states;
                match extend(&mut states, &expr.0, handler_id) {
                    Ok(right) => {
                        let f = join_alternation(
                            &mut states,
                            Fragment { start: start.0, end: end.0 },
                            right,
                        );
                        let count: usize = states.len();
                        proof {
                            assert(states@.len() == count);
                            if old(self).shaped() {
                                lemma_with_rule_shape(held(old(self).nfa), expr@, handler_id);
                            }
                        }
                        self.nfa = Some(
                            Nfa { states, start: NfaVertexRef(f.start), end: NfaVertexRef(f.end) },
                        );
                        Ok(())
                    },
                    Err(e) => Err(e),
                }
            },
            None => {
                match Nfa::build(expr, handler_id) {
                    Ok(nfa) => {
                        self.nfa = Some(nfa);
                        Ok(())
                    },
                    Err(e) => Err(e),
                }
            },
        }
    }

    /// Hands out the automaton and leaves the builder empty.
    pub fn build(&mut self) -> (r: Option<Nfa>)
        ensures
            r == old(self).nfa,
            final(self).nfa is None,
    {
        self.nfa.take()
    }
}

/// An automaton as its arena and its fragment.
pub open spec fn held(nfa: Option<Nfa>) -> Option<(Seq<StateView>, Fragment)> {
    match nfa {
        Some(nfa) => Some((nfa.graph(), nfa.fragment())),
        None => None,
    }
}

/// The automaton after one more rule: the rule's fragment where none was held,
/// else the alternation of the held fragment and the rule's, built onto the
/// held arena.
pub open spec fn with_rule(
    held: Option<(Seq<StateView>, Fragment)>,
    t: Seq<Charactor>,
    handler: usize,
) -> Result<(Seq<StateView>, Fragment), RegexError> {
    match held {
        None => rule_fragment(Seq::<StateView>::empty(), t, handler),
        Some(left) => match rule_fragment(left.0, t, handler) {
            Err(e) => Err(e),
            Ok(right) => Ok(alternation(right.0, left.1, right.1)),
        },
    }
}

} // verus!
