//! From an ordered list of patterns to the automaton of all of them.

use crate::dfa::{numbered_in_order, subset_construction, Dfa};
use crate::nfa::{held, with_rule, Fragment, NfaBuilder, StateView};
use crate::regex_expr::{compiled, RegexError, RegexExpr};
use vstd::prelude::*;
use vstd::string::StringSliceAdditionalSpecFns;
use vstd::utf8::encode_utf8;

verus! {

/// The NFA of the patterns from `i` on, joined to the automaton `held`. The
/// handler of a pattern is its place in the list. The first pattern that is
/// refused decides the error.
pub open spec fn rules_automaton(
    patterns: Seq<String>,
    i: int,
    held: Option<(Seq<StateView>, Fragment)>,
) -> Result<Option<(Seq<StateView>, Fragment)>, RegexError>
    decreases patterns.len() - i,
{
    if i < 0 || i >= patterns.len() {
        Ok(held)
    } else {
        match compiled(encode_utf8(patterns[i]@)) {
            Err(e) => Err(e),
            Ok(t) => match with_rule(held, t, i as usize) {
                Err(e) => Err(e),
                Ok(p) => rules_automaton(patterns, i + 1, Some(p)),
            },
        }
    }
}

/// Compiles the patterns, in their order, into one DFA: the subset
/// construction of the alternation of their fragments.
pub fn compile(patterns: &Vec<String>) -> (r: Result<Dfa, RegexError>)
    requires
        patterns@.len() > 0,
    ensures
        match r {
            Ok(dfa) => {
                &&& rules_automaton(patterns@, 0, None) is Ok
                &&& rules_automaton(patterns@, 0, None)->Ok_0 is Some
                &&& subset_construction(
                    rules_automaton(patterns@, 0, None)->Ok_0->Some_0.0,
                    rules_automaton(patterns@, 0, None)->Ok_0->Some_0.1.start,
                    dfa.vertexs@,
                    dfa.lookup_table.states@,
                )
                &&& rules_automaton(patterns@, 0, None)->Ok_0->Some_0.0.len() <= usize::MAX
                &&& dfa.lookup_table.wf()
                &&& numbered_in_order(dfa.lookup_table.states@)
            },
            Err(e) => rules_automaton(patterns@, 0, None) == Err::<
                Option<(Seq<StateView>, Fragment)>,
                RegexError,
            >(e),
        },
{
    let mut builder = NfaBuilder::new();
    let mut i: usize = 0;
    while i < patterns.len()
        invariant
            0 <= i <= patterns@.len(),
            builder.wf(),
            i > 0 ==> builder.nfa is Some,
            rules_automaton(patterns@, 0, None) == rules_automaton(
                patterns@,
                i as int,
                held(builder.nfa),
            ),
        decreases patterns@.len() - i,
    {
        let text = patterns[i].as_str();
        assert(text.spec_bytes() == encode_utf8(patterns@[i as int]@));
        let expr = match RegexExpr::build(text) {
            Ok(expr) => expr,
            Err(e) => {
                return Err(e);
            },
        };
        match builder.add_rule(&expr, i) {
            Ok(_) => {},
            Err(e) => {
                return Err(e);
            },
        }
        i += 1;
    }
    match builder.build() {
        Some(nfa) => {
            let size: usize = nfa.states.len();
            assert(nfa.graph().len() == size);
            Ok(Dfa::build(&nfa))
        },
        None => Err(RegexError::MalformedExpression),
    }
}

} // verus!
