use const_regex::automata::{test_nfa, to_dfa, to_nfa, TransitionType, DFA};
use const_regex::codepoint::{char_to_utf8, code_point_len, is_lead_byte, find_next_code_point, next_char, CharSlice};
use const_regex::regex::{
    parse_match_group, parse_quantifier, parse_regex, parse_u64, Matchable, Repetition, SyntaxErrorKind,
};
use const_regex::{chars_of, to_automata, to_regex};

fn dfa_of(pattern: &str) -> DFA {
    to_automata(to_regex(pattern).unwrap())
}

fn dfa_match(pattern: &str, subject: &str) -> bool {
    const_regex::automata::matches(&dfa_of(pattern), subject)
}

fn nfa_match(pattern: &str, subject: &str) -> bool {
    test_nfa(&to_nfa(to_regex(pattern).unwrap()), subject)
}

fn error_kind(pattern: &str) -> SyntaxErrorKind {
    match to_regex(pattern) {
        Ok(_) => panic!("pattern {pattern:?} was accepted"),
        Err(e) => e.kind,
    }
}

#[test]
fn ext() {
    let s = "€1𝄞123";
    assert_eq!(char_to_utf8(s.chars().next().unwrap()), 0xE282AC00);
    assert_eq!(next_char(s, 0).0, 0xE282AC00);
    let hex = s.as_bytes().iter().map(|x| format!("{x:X}")).collect::<String>();
    assert_eq!(hex, "E282AC31F09D849E313233");
}

#[test]
fn char_to_utf8_widths() {
    assert_eq!(char_to_utf8('a'), 0x61000000);
    assert_eq!(char_to_utf8('é'), 0xC3A90000);
    assert_eq!(char_to_utf8('€'), 0xE282AC00);
    assert_eq!(char_to_utf8('𝄞'), 0xF09D849E);
}

#[test]
fn decoding_walks_codepoints() {
    let s = "€1𝄞";
    assert_eq!(code_point_len(0xE2), 3);
    assert_eq!(code_point_len(0xF0), 4);
    assert!(is_lead_byte(0x41) && is_lead_byte(0xE2));
    assert!(!is_lead_byte(0x80) && !is_lead_byte(0xF8) && !is_lead_byte(0xFF));
    assert_eq!(find_next_code_point(s, 0), 3);
    assert_eq!(next_char(s, 3), (0x31000000, 4));
    assert_eq!(next_char(s, 4), (0xF09D849E, 8));
    let cursor = CharSlice::new(s);
    assert!(!cursor.is_empty());
    let (first, rest) = cursor.get_advance();
    assert_eq!(first, [0xE2, 0x82, 0xAC, 0]);
    let (second, rest) = rest.get_advance();
    assert_eq!(second, [0x31, 0, 0, 0]);
    let (third, rest) = rest.get_advance();
    assert_eq!(third, [0xF0, 0x9D, 0x84, 0x9E]);
    assert!(rest.is_empty());
}

#[test]
fn class_range_scenario() {
    assert!(dfa_match("12[a-d]", "12c"));
    assert!(!dfa_match("12[a-d]", "12e"));
    assert!(!dfa_match("12[a-d]", "2c"));
}

#[test]
fn plus_scenario() {
    assert!(dfa_match("hell[a-z]+o+", "helloo"));
    assert!(dfa_match("hell[a-z]+o+", "hellxo"));
    assert!(dfa_match("hell[a-z]+o+", "hellxxo"));
    assert!(!dfa_match("hell[a-z]+o+", "hellxx"));
    assert!(!dfa_match("hell[a-z]+o+", "hell1o"));
}

#[test]
fn star_scenario() {
    assert!(dfa_match("a*", ""));
    assert!(dfa_match("a*", "aaaa"));
    assert!(!dfa_match("a*", "aab"));
}

#[test]
fn bounded_scenario() {
    assert!(!dfa_match("a{2,3}", "a"));
    assert!(dfa_match("a{2,3}", "aa"));
    assert!(dfa_match("a{2,3}", "aaa"));
    assert!(!dfa_match("a{2,3}", "aaaa"));
}

#[test]
fn empty_pattern_matches_only_empty() {
    assert!(dfa_match("", ""));
    assert!(!dfa_match("", "a"));
    assert!(!dfa_match("", "€"));
    assert!(nfa_match("", ""));
    assert!(!nfa_match("", "a"));
}

#[test]
fn wildcard_star_matches_everything() {
    for s in ["", "a", "hello", "€1𝄞123", "..."] {
        assert!(dfa_match(".*", s));
        assert!(nfa_match(".*", s));
    }
}

#[test]
fn wildcard_star_parses_to_one_repeated_wildcard() {
    let chain = to_regex(".*").unwrap();
    assert_eq!(*chain.repetition(), Repetition::Any);
    assert!(!*chain.matchables().inverted());
    assert_eq!(chain.matchables().matchable().matchables().len(), 1);
    assert!(matches!(chain.matchables().matchable().matchables()[0], Matchable::Any));
    assert!(chain.next().is_none());
}

#[test]
fn empty_pattern_parses_to_empty_chain() {
    let chain = to_regex("").unwrap();
    assert_eq!(*chain.repetition(), Repetition::LessThanEq(0));
    assert!(chain.matchables().matchable().matchables().is_empty());
    assert!(chain.next().is_none());
}

#[test]
fn at_least_zero_is_star() {
    for s in ["", "a", "aa", "aaaaaa", "b", "ab"] {
        assert_eq!(dfa_match("a{0,}", s), dfa_match("a*", s));
        assert_eq!(nfa_match("a{0,}", s), nfa_match("a*", s));
    }
}

#[test]
fn at_least_two_accepts_every_longer_run() {
    assert!(!dfa_match("a{2,}", "a"));
    assert!(dfa_match("a{2,}", "aa"));
    assert!(dfa_match("a{2,}", "aaa"));
    assert!(dfa_match("a{2,}", "aaaaaaa"));
    assert!(!dfa_match("a{2,}", "aab"));
    assert!(dfa_match("(ab){2,}c", "abababc"));
}

#[test]
fn negated_class_is_the_complement() {
    for s in ["x", "d", "A", "€", "𝄞", "-"] {
        assert!(dfa_match("[^abc]", s), "{s:?}");
        assert!(nfa_match("[^abc]", s), "{s:?}");
    }
    for s in ["a", "b", "c", "", "xy"] {
        assert!(!dfa_match("[^abc]", s), "{s:?}");
        assert!(!nfa_match("[^abc]", s), "{s:?}");
    }
    assert!(dfa_match("[^a-y]z", "zz"));
    assert!(!dfa_match("[^a-y]z", "kz"));
}

#[test]
fn at_least_one_is_plus() {
    for s in ["", "a", "aa", "aaaaaa", "b", "ab"] {
        assert_eq!(dfa_match("a{1,}", s), dfa_match("a+", s));
    }
}

#[test]
fn exact_bounds_are_concatenation() {
    for s in ["", "a", "aa", "aaa", "aaaa", "aab"] {
        assert_eq!(dfa_match("a{3,3}", s), dfa_match("aaa", s));
        assert_eq!(dfa_match("(ab){2,2}", s), dfa_match("abab", s));
    }
    assert!(dfa_match("(ab){2,2}", "abab"));
}

#[test]
fn nfa_and_dfa_agree() {
    let patterns = ["12[a-d]", "hell[a-z]+o+", "a*", "a{2,3}", "(ab|c)*d", "x?y+", "[-a]b", ".a.", "(a|b){,2}"];
    let subjects = ["", "12c", "helloo", "hellxo", "aaa", "abcd", "cd", "ababd", "yy", "xy", "-b", "ab", "zaz", "a", "ba", "aba"];
    for p in patterns {
        let dfa = dfa_of(p);
        let nfa = to_nfa(to_regex(p).unwrap());
        for s in subjects {
            assert_eq!(test_nfa(&nfa, s), const_regex::automata::matches(&dfa, s), "pattern {p:?} on {s:?}");
        }
    }
}

#[test]
fn compiling_twice_gives_the_same_dfa() {
    for p in ["12[a-d]", "hell[a-z]+o+", "(ab|c)*d", "a{2,3}"] {
        assert_eq!(dfa_of(p).transitions, dfa_of(p).transitions);
    }
}

#[test]
fn alternation_of_branches() {
    assert!(dfa_match("ab|cd", "ab"));
    assert!(dfa_match("ab|cd", "cd"));
    assert!(!dfa_match("ab|cd", "abd"));
    assert!(!dfa_match("ab|cd", "acd"));
    assert!(dfa_match("x(ab|cd)y", "xcdy"));
}

#[test]
fn unicode_subjects() {
    assert!(dfa_match("€.", "€𝄞"));
    assert!(dfa_match("[à-ï]", "é"));
    assert!(!dfa_match("[à-ï]", "e"));
}

#[test]
fn transitions_out_of_a_state_are_disjoint() {
    let dfa = dfa_of("hell[a-z]+o+");
    for (_, ts) in &dfa.transitions {
        for (i, (a, _)) in ts.iter().enumerate() {
            for (b, _) in ts.iter().skip(i + 1) {
                let (a0, a1) = bounds(a);
                let (b0, b1) = bounds(b);
                assert!(a1 < b0 || b1 < a0);
            }
        }
    }
}

fn bounds(t: &TransitionType) -> (u32, u32) {
    match t {
        TransitionType::Single(c) => (*c, *c),
        TransitionType::Range(a, b) => (*a, *b),
        _ => panic!("unexpected label"),
    }
}

#[test]
fn exclude_range_is_the_complement_of_range() {
    let r = TransitionType::Range(10, 20);
    let x = TransitionType::ExcludeRange(10, 20);
    for c in [0u32, 9, 10, 15, 20, 21, u32::MAX] {
        assert_eq!(r.accepts(c), !x.accepts(c));
    }
}

#[test]
fn class_parsing() {
    let cs = chars_of("[a-d-x]");
    let (m, end) = parse_match_group(&cs, 0).unwrap();
    assert_eq!(end, 7);
    assert!(!m.inverted);
    let units = &m.matchable.matchables;
    assert_eq!(units.len(), 3);
    assert!(matches!(units[0], Matchable::Range('a', 'd')));
    assert!(matches!(units[1], Matchable::Char('-')));
    assert!(matches!(units[2], Matchable::Char('x')));
    let cs = chars_of("[^-a-]");
    let (m, _) = parse_match_group(&cs, 0).unwrap();
    assert!(m.inverted);
    let units = &m.matchable.matchables;
    assert_eq!(units.len(), 3);
    assert!(matches!(units[0], Matchable::Char('-')));
    assert!(matches!(units[1], Matchable::Char('a')));
    assert!(matches!(units[2], Matchable::Char('-')));
}

#[test]
fn quantifier_parsing() {
    let q = |s: &str| parse_quantifier(&chars_of(s), 0);
    assert_eq!(q("").unwrap(), (Repetition::One, 0));
    assert_eq!(q("x").unwrap(), (Repetition::One, 0));
    assert_eq!(q("*").unwrap(), (Repetition::Any, 1));
    assert_eq!(q("+").unwrap(), (Repetition::AtLeast(1), 1));
    assert_eq!(q("?").unwrap(), (Repetition::LessThanEq(1), 1));
    assert_eq!(q("{2,5}x").unwrap(), (Repetition::Range(2, 5), 5));
    assert_eq!(q("{12,}").unwrap(), (Repetition::AtLeast(12), 5));
    assert_eq!(q("{,7}").unwrap(), (Repetition::LessThanEq(7), 4));
    assert_eq!(q("{5,2}").unwrap_err().kind, SyntaxErrorKind::MalformedQuantifier);
    assert_eq!(q("{,}").unwrap_err().kind, SyntaxErrorKind::MalformedQuantifier);
    assert_eq!(q("{3}").unwrap_err().kind, SyntaxErrorKind::MalformedQuantifier);
    assert_eq!(q("{99999999999999999999,}").unwrap_err().kind, SyntaxErrorKind::MalformedQuantifier);
}

#[test]
fn decimal_parsing() {
    let cs = chars_of("18446744073709551615x");
    assert_eq!(parse_u64(&cs, 0).unwrap(), (Some(u64::MAX), 20));
    assert_eq!(parse_u64(&cs, 20).unwrap(), (None, 20));
    assert!(parse_u64(&chars_of("18446744073709551616"), 0).is_err());
}

#[test]
fn group_parsing() {
    let cs = chars_of("(ab)c");
    let (group, end) = parse_regex(&cs, 1, true).unwrap();
    assert_eq!(end, 4);
    assert!(group.next().is_some());
    assert_eq!(*group.repetition(), Repetition::One);
    let (whole, end) = parse_regex(&cs, 0, false).unwrap();
    assert_eq!(end, 5);
    assert!(matches!(whole.matchables().matchable().matchables()[0], Matchable::Subexpression(_)));
    assert!(!*whole.matchables().inverted());
    assert!(whole.matchables().matchable().matchables()[0].is_quantifiable());
}

#[test]
fn syntax_errors() {
    assert_eq!(error_kind("(ab"), SyntaxErrorKind::UnbalancedGroup);
    assert_eq!(error_kind("ab)"), SyntaxErrorKind::UnbalancedGroup);
    assert_eq!(error_kind("[ab"), SyntaxErrorKind::UnbalancedClass);
    assert_eq!(error_kind("a[]"), SyntaxErrorKind::EmptyClass);
    assert_eq!(error_kind("a\\d"), SyntaxErrorKind::UnsupportedEscape);
    assert_eq!(error_kind("[a\\]]"), SyntaxErrorKind::UnsupportedEscape);
    assert_eq!(error_kind("^a"), SyntaxErrorKind::UnsupportedAnchor);
    assert_eq!(error_kind("a$"), SyntaxErrorKind::UnsupportedAnchor);
    assert_eq!(error_kind("a{2"), SyntaxErrorKind::MalformedQuantifier);
    assert_eq!(error_kind("{2,3}"), SyntaxErrorKind::StrayBrace);
    assert_eq!(error_kind("a}"), SyntaxErrorKind::StrayBrace);
    assert_eq!(to_regex("ab)").err().unwrap().position, 2);
    assert_eq!(error_kind("(a"), SyntaxErrorKind::UnbalancedGroup);
    assert_eq!(error_kind("a(b"), SyntaxErrorKind::UnbalancedGroup);
    assert_eq!(error_kind("(a))"), SyntaxErrorKind::UnbalancedGroup);
    assert_eq!(to_regex("a(b").err().unwrap().position, 3);
    assert_eq!(error_kind("()"), SyntaxErrorKind::EmptyBranch);
    assert_eq!(error_kind("(a|)"), SyntaxErrorKind::EmptyBranch);
    assert_eq!(error_kind("a|"), SyntaxErrorKind::EmptyBranch);
    assert_eq!(to_regex("|a").err().unwrap(), const_regex::regex::SyntaxError { kind: SyntaxErrorKind::EmptyBranch, position: 0 });
    assert_eq!(to_regex("a{2,x}").err().unwrap().position, 4);
    assert_eq!(to_regex("é{3}").err().unwrap().position, 4);
    assert_eq!(to_regex("é€)").err().unwrap().position, 5);
    assert_eq!(to_regex("(€").err().unwrap().position, 4);
}

#[test]
fn dfa_states_are_well_formed() {
    let dfa = dfa_of("(ab|c)*d");
    assert!(!dfa.transitions.is_empty());
    for (_, ts) in &dfa.transitions {
        for (_, d) in ts {
            assert!(*d < dfa.transitions.len());
        }
    }
    assert!(!dfa.transitions[0].0);
    let nfa = to_nfa(to_regex("a").unwrap());
    let dfa = to_dfa(nfa);
    assert_eq!(dfa.transitions[0].1, vec![(TransitionType::Single(0x61000000), 1)]);
    assert!(dfa.transitions[1].0);
}

#[test]
fn scenarios_through_the_nfa_walk() {
    assert!(nfa_match("12[a-d]", "12c"));
    assert!(!nfa_match("12[a-d]", "12e"));
    assert!(!nfa_match("12[a-d]", "2c"));
    assert!(nfa_match("hell[a-z]+o+", "helloo"));
    assert!(nfa_match("hell[a-z]+o+", "hellxo"));
    assert!(!nfa_match("hell[a-z]+o+", "hellxx"));
    assert!(!nfa_match("hell[a-z]+o+", "hell1o"));
    assert!(nfa_match("a*", ""));
    assert!(nfa_match("a*", "aaaa"));
    assert!(!nfa_match("a*", "aab"));
    assert!(!nfa_match("a{2,3}", "a"));
    assert!(nfa_match("a{2,3}", "aa"));
    assert!(nfa_match("a{2,3}", "aaa"));
    assert!(!nfa_match("a{2,3}", "aaaa"));
}

#[test]
fn exact_automata_of_a_single_literal() {
    let nfa = to_nfa(to_regex("a").unwrap());
    let lists: Vec<Vec<(Option<TransitionType>, usize)>> =
        nfa.states.iter().map(|s| s.transitions.clone()).collect();
    assert_eq!(
        lists,
        vec![
            vec![(None, 1)],
            vec![(Some(TransitionType::Single(0x6100_0000)), 2)],
            vec![(None, 3)],
            vec![(None, 4)],
            vec![(None, 5)],
        ]
    );
    let dfa = to_dfa(nfa);
    assert_eq!(
        dfa.transitions,
        vec![(false, vec![(TransitionType::Single(0x6100_0000), 1)]), (true, vec![])]
    );
}

#[test]
fn parse_trees_of_small_patterns() {
    let ab = to_regex("ab").unwrap();
    assert!(matches!(ab.matchables().matchable().matchables()[0], Matchable::Char('a')));
    let b = ab.next().as_ref().unwrap();
    assert!(matches!(b.matchables().matchable().matchables()[0], Matchable::Char('b')));
    assert!(b.next().is_none());
    let alt = to_regex("(ab|c)").unwrap();
    match &alt.matchables().matchable().matchables()[0] {
        Matchable::Subexpression(g) => {
            assert_eq!(*g.repetition(), Repetition::One);
            assert_eq!(g.matchables().matchable().matchables().len(), 2);
        }
        _ => panic!("expected a group"),
    }
    let star_alt = to_regex("a*|b").unwrap();
    match &star_alt.matchables().matchable().matchables()[0] {
        Matchable::Subexpression(first) => assert_eq!(*first.repetition(), Repetition::Any),
        _ => panic!("expected a branch"),
    }
}
