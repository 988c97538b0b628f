//! Compiles a small regular-expression dialect into a deterministic finite
//! automaton: a pattern is parsed into a chain of units, lowered to an NFA
//! with epsilon transitions, and determinized by subset construction.
use vstd::prelude::*;
use vstd::std_specs::iter::IteratorSpec;

pub mod codepoint;
pub mod regex;
pub mod automata;
pub mod bitset;
pub mod equivalence;
pub mod subset;

use crate::automata::{dfa_accepts, empty_pattern_nfa, exit_to_sentinel, to_dfa, to_nfa, wildcard_star_nfa, DFA, NFA};
use crate::equivalence::{lemma_empty_pattern_matches_only_empty, lemma_wildcard_star_matches_everything};
use crate::subset::subset_dfa;
use crate::codepoint::{byte_offset, lemma_utf8_len_encoding, utf8_len};
use crate::regex::{
    branch_end, branch_tree, empty_chain, group_error, group_end, group_tree, quantifier_at, unit_end, unit_head, is_empty_chain, is_wildcard_star_chain, parse_regex, parses_to,
    well_formed,
    ChainedMatchable, SyntaxError, SyntaxErrorKind,
};

verus! {

/// The characters of `s`, in order.
pub fn chars_of(s: &str) -> (r: Vec<char>)
    ensures
        r@ == s@,
{
    broadcast use vstd::string::axiom_spec_iter, vstd::string::next_postcondition;

    let mut out: Vec<char> = Vec::new();
    let mut it = s.chars();
    assert(out@ + it.remaining() =~= s@);
    loop
        invariant
            out@ + it.remaining() == s@,
            it.decrease() is Some,
        ensures
            out@ == s@,
        decreases it.decrease()->0,
    {
        match it.next() {
            Some(c) => {
                out.push(c);
                assert(out@ + it.remaining() =~= s@);
            },
            None => {
                assert(out@ =~= s@);
                break;
            },
        }
    }
    out
}

/// Parses a whole pattern; the top level is one group that runs to the end.
pub fn to_regex(regex: &str) -> (r: Result<ChainedMatchable, SyntaxError>)
    ensures
        r is Ok <==> well_formed(regex@),
        r is Ok ==> parses_to(regex@, r->Ok_0),
        regex@.len() == 0 ==> r is Ok && is_empty_chain(r->Ok_0),
        r is Err ==> r->Err_0.kind == group_error(regex@, 0, false).0,
        r is Err ==> 0 <= group_error(regex@, 0, false).1 <= regex@.len() && r->Err_0.position
            == utf8_len(regex@.subrange(0, group_error(regex@, 0, false).1)),
{
    let cs = chars_of(regex);
    let bytes_len = regex.as_bytes().len();
    proof {
        lemma_utf8_len_encoding(regex@);
    }
    if cs.len() == 0 {
        return Ok(empty_chain());
    }
    match parse_regex(&cs, 0, false) {
        Ok((c, _)) => Ok(c),
        Err(e) => {
            let position = byte_offset(&cs, e.position);
            Err(SyntaxError { kind: e.kind, position })
        },
    }
}

/// `dfa` is the subset construction of `nfa`, which lowers `regex`.
pub open spec fn compiled_from(regex: ChainedMatchable, nfa: NFA, dfa: DFA) -> bool {
    &&& nfa.wf()
    &&& exit_to_sentinel(&nfa)
    &&& exists|sets: Seq<Seq<bool>>| subset_dfa(&nfa, dfa, sets)
    &&& (is_empty_chain(regex) ==> empty_pattern_nfa(&nfa))
    &&& (is_wildcard_star_chain(regex) ==> wildcard_star_nfa(&nfa))
}

/// Compiles a parsed pattern to a DFA, by way of the NFA it lowers to.
pub fn to_automata(regex: ChainedMatchable) -> (dfa: DFA)
    ensures
        dfa.wf(),
        dfa.deterministic(),
        exists|nfa: NFA| #[trigger] compiled_from(regex, nfa, dfa),
{
    let ghost chain = regex;
    let nfa = to_nfa(regex);
    let ghost lowered = nfa;
    let dfa = to_dfa(nfa);
    assert(compiled_from(chain, lowered, dfa));
    dfa
}


/// The DFA compiled from the empty pattern accepts the empty subject and nothing else.
pub proof fn lemma_compiled_empty_pattern(regex: ChainedMatchable, dfa: DFA, s: Seq<u8>)
    requires
        is_empty_chain(regex),
        exists|nfa: NFA| #[trigger] compiled_from(regex, nfa, dfa),
    ensures
        dfa_accepts(dfa, s) == (s.len() == 0),
{
    let nfa = choose|nfa: NFA| #[trigger] compiled_from(regex, nfa, dfa);
    lemma_empty_pattern_matches_only_empty(&nfa, dfa, s);
}

/// The DFA compiled from a wildcard repeated any number of times accepts every subject.
pub proof fn lemma_compiled_wildcard_star(regex: ChainedMatchable, dfa: DFA, s: Seq<u8>)
    requires
        is_wildcard_star_chain(regex),
        exists|nfa: NFA| #[trigger] compiled_from(regex, nfa, dfa),
    ensures
        dfa_accepts(dfa, s),
{
    let nfa = choose|nfa: NFA| #[trigger] compiled_from(regex, nfa, dfa);
    lemma_wildcard_star_matches_everything(&nfa, dfa, s);
}


/// The pattern `.*` is one wildcard repeated any number of times.
pub proof fn lemma_wildcard_star_tree(c: ChainedMatchable)
    requires
        parses_to(seq!['.', '*'], c),
    ensures
        is_wildcard_star_chain(c),
{
    let cs = seq!['.', '*'];
    assert(quantifier_at(cs, 1) == Some((crate::regex::Repetition::Any, 2int)));
    assert(unit_end(cs, 0) == Some(2int));
    assert(branch_end(cs, 0) == Some(2int));
    assert(group_tree(cs, 0, c));
    assert(branch_tree(cs, 0, c));
    assert(unit_head(cs, 0, c));
}

} // verus!
