//! The NFA and the DFA that subset construction makes of it accept the same
//! subjects. Epsilon walks are shortened to at most one step per state, which
//! bridges the bounded runs of the NFA matcher and the closures of the DFA.
use vstd::prelude::*;
use crate::automata::{
    dfa_accepts, dfa_accepts_from, edge, empty_pattern_nfa, wildcard_star_nfa, first_match, lemma_codes_empty, nfa_accepts,
    nfa_run, some_step, step_ok, DFA, NFA,
};
use crate::codepoint::codes_of;
use crate::subset::{
    closed_superset, entry_set, eps_closed, is_closure, lemma_subset_dfa_step, moved, moves_to,
    subset_dfa,
};

verus! {

broadcast use vstd::std_specs::vec::group_vec_axioms, vstd::seq::group_seq_axioms;

proof fn lemma_some_step_witness(nfa: &NFA, x: int, j: int, codes: Seq<u32>, budget: nat)
    requires
        0 <= x < nfa.states@.len(),
        0 <= j,
        some_step(nfa, x, j, codes, budget),
    ensures
        exists|k: int|
            j <= k < nfa.states@[x].transitions@.len() && #[trigger] step_ok(nfa, edge(nfa, x, k), codes, budget),
    decreases nfa.states@[x].transitions@.len() - j,
{
    if j < nfa.states@[x].transitions@.len() && !step_ok(nfa, edge(nfa, x, j), codes, budget) {
        lemma_some_step_witness(nfa, x, j + 1, codes, budget);
    }
}

/// A run of the NFA from a state of the subset of DFA state `i` is matched by the DFA from `i`.
proof fn lemma_run_in_subset(
    nfa: &NFA,
    dfa: DFA,
    sets: Seq<Seq<bool>>,
    i: int,
    x: int,
    codes: Seq<u32>,
    budget: nat,
)
    requires
        nfa.wf(),
        subset_dfa(nfa, dfa, sets),
        0 <= i < sets.len(),
        eps_closed(nfa, sets[i]),
        0 <= x <= nfa.states@.len(),
        sets[i][x],
        nfa_run(nfa, x, codes, budget),
    ensures
        dfa_accepts_from(dfa, i, codes),
    decreases codes.len(), budget,
{
    let n = nfa.states@.len() as int;
    assert(sets[i].len() == n + 1);
    if x == n {
        assert(codes.len() == 0);
        assert(dfa.transitions@[i].0 == sets[i][n]);
    } else {
        lemma_some_step_witness(nfa, x, 0, codes, budget);
        let k = choose|k: int|
            0 <= k < nfa.states@[x].transitions@.len() && #[trigger] step_ok(nfa, edge(nfa, x, k), codes, budget);
        let e = edge(nfa, x, k);
        assert(e.1 <= n);
        match e.0 {
            None => {
                assert(sets[i][e.1 as int]);
                lemma_run_in_subset(nfa, dfa, sets, i, e.1 as int, codes, (budget - 1) as nat);
            },
            Some(t) => {
                let c = codes[0];
                assert(moves_to(nfa, sets[i], c, e.1 as int, x, k));
                assert(moved(nfa, sets[i], c)[e.1 as int]);
                lemma_subset_dfa_step(nfa, dfa, sets, i, c);
                let next = first_match(dfa.transitions@[i].1@, c)->Some_0;
                assert(is_closure(nfa, moved(nfa, sets[i], c), sets[next as int]));
                assert(sets[next as int][e.1 as int]);
                lemma_run_in_subset(
                    nfa,
                    dfa,
                    sets,
                    next as int,
                    e.1 as int,
                    codes.drop_first(),
                    nfa.states@.len() as nat,
                );
            },
        }
    }
}

/// Every subject that an NFA accepts, a DFA built from it by subset
/// construction accepts as well.
pub proof fn lemma_nfa_accepts_implies_dfa_accepts(nfa: &NFA, dfa: DFA, s: Seq<u8>)
    requires
        nfa.wf(),
        exists|sets: Seq<Seq<bool>>| subset_dfa(nfa, dfa, sets),
        nfa_accepts(nfa, s),
    ensures
        dfa_accepts(dfa, s),
{
    let sets = choose|sets: Seq<Seq<bool>>| subset_dfa(nfa, dfa, sets);
    assert(entry_set(nfa)[0]);
    assert(sets[0][0]);
    lemma_run_in_subset(nfa, dfa, sets, 0, 0, codes_of(s), nfa.states@.len() as nat);
}


/// State `a` has an epsilon transition to `b`.
pub open spec fn eps_link(nfa: &NFA, a: int, b: int) -> bool {
    &&& 0 <= a < nfa.states@.len()
    &&& exists|j: int|
        0 <= j < nfa.states@[a].transitions@.len() && (#[trigger] edge(nfa, a, j)).0 is None && edge(
            nfa,
            a,
            j,
        ).1 == b
}

/// `p` is a walk along epsilon transitions.
pub open spec fn eps_path(nfa: &NFA, p: Seq<int>) -> bool {
    &&& p.len() >= 1
    &&& forall|k: int| 0 <= k < p.len() ==> 0 <= #[trigger] p[k] <= nfa.states@.len()
    &&& forall|k: int| 0 <= k < p.len() - 1 ==> eps_link(nfa, #[trigger] p[k], p[k + 1])
}

/// Epsilon transitions lead from `x` to `z`.
pub open spec fn reaches(nfa: &NFA, x: int, z: int) -> bool {
    exists|p: Seq<int>| #[trigger] eps_path(nfa, p) && p[0] == x && p.last() == z
}

/// From `z`, the codes are consumed without a further epsilon step first:
/// `z` is the sentinel and nothing is left, or a labelled transition of `z`
/// consumes the first code and the rest is accepted from its target.
pub open spec fn consumes(nfa: &NFA, z: int, codes: Seq<u32>) -> bool {
    ||| (z == nfa.states@.len() && codes.len() == 0)
    ||| (0 <= z < nfa.states@.len() && exists|j: int|
        0 <= j < nfa.states@[z].transitions@.len() && (#[trigger] edge(nfa, z, j)).0 is Some
            && step_ok(nfa, edge(nfa, z, j), codes, 0))
}

proof fn lemma_step_ok_some_step(nfa: &NFA, x: int, j: int, k: int, codes: Seq<u32>, budget: nat)
    requires
        0 <= x < nfa.states@.len(),
        0 <= j <= k < nfa.states@[x].transitions@.len(),
        step_ok(nfa, edge(nfa, x, k), codes, budget),
    ensures
        some_step(nfa, x, j, codes, budget),
    decreases k - j,
{
    if j < k {
        lemma_step_ok_some_step(nfa, x, j + 1, k, codes, budget);
    }
}

/// An accepting run splits into an epsilon walk of at most `budget` steps and a consuming state.
proof fn lemma_run_to_path(nfa: &NFA, x: int, codes: Seq<u32>, budget: nat)
    requires
        nfa.wf(),
        0 <= x <= nfa.states@.len(),
        nfa_run(nfa, x, codes, budget),
    ensures
        exists|p: Seq<int>|
            #[trigger] eps_path(nfa, p) && p[0] == x && p.len() <= budget + 1 && consumes(nfa, p.last(), codes),
    decreases budget,
{
    let n = nfa.states@.len() as int;
    if x == n {
        let p = seq![x];
        assert(eps_path(nfa, p));
    } else {
        lemma_some_step_witness(nfa, x, 0, codes, budget);
        let k = choose|k: int|
            0 <= k < nfa.states@[x].transitions@.len() && #[trigger] step_ok(nfa, edge(nfa, x, k), codes, budget);
        let e = edge(nfa, x, k);
        if e.0 is None {
            lemma_run_to_path(nfa, e.1 as int, codes, (budget - 1) as nat);
            let q = choose|q: Seq<int>|
                #[trigger] eps_path(nfa, q) && q[0] == e.1 && q.len() <= budget && consumes(nfa, q.last(), codes);
            let p = seq![x] + q;
            assert(eps_link(nfa, x, e.1 as int));
            assert forall|a: int| 0 <= a < p.len() - 1 implies eps_link(nfa, #[trigger] p[a], p[a + 1]) by {
                if a > 0 {
                    assert(p[a] == q[a - 1] && p[a + 1] == q[a]);
                }
            }
            assert forall|a: int| 0 <= a < p.len() implies 0 <= #[trigger] p[a] <= n by {
                if a > 0 {
                    assert(p[a] == q[a - 1]);
                }
            }
            assert(eps_path(nfa, p));
            assert(p.last() == q.last());
        } else {
            let p = seq![x];
            assert(step_ok(nfa, edge(nfa, x, k), codes, 0));
            assert(eps_path(nfa, p));
        }
    }
}

/// An epsilon walk of at most `budget` steps to a consuming state is an accepting run.
proof fn lemma_path_to_run(nfa: &NFA, p: Seq<int>, codes: Seq<u32>, budget: nat)
    requires
        nfa.wf(),
        eps_path(nfa, p),
        p.len() <= budget + 1,
        consumes(nfa, p.last(), codes),
    ensures
        nfa_run(nfa, p[0], codes, budget),
    decreases p.len(),
{
    let n = nfa.states@.len() as int;
    let x = p[0];
    if p.len() == 1 {
        if x < n {
            let j = choose|j: int|
                0 <= j < nfa.states@[x].transitions@.len() && (#[trigger] edge(nfa, x, j)).0 is Some
                    && step_ok(nfa, edge(nfa, x, j), codes, 0);
            assert(step_ok(nfa, edge(nfa, x, j), codes, budget));
            lemma_step_ok_some_step(nfa, x, 0, j, codes, budget);
        }
    } else {
        let q = p.drop_first();
        assert(eps_link(nfa, p[0], p[1]));
        assert(eps_path(nfa, q)) by {
            assert forall|a: int| 0 <= a < q.len() - 1 implies eps_link(nfa, #[trigger] q[a], q[a + 1]) by {
                assert(q[a] == p[a + 1] && q[a + 1] == p[a + 2]);
            }
            assert forall|a: int| 0 <= a < q.len() implies 0 <= #[trigger] q[a] <= n by {
                assert(q[a] == p[a + 1]);
            }
        }
        assert(q.last() == p.last());
        lemma_path_to_run(nfa, q, codes, (budget - 1) as nat);
        let j = choose|j: int|
            0 <= j < nfa.states@[x].transitions@.len() && (#[trigger] edge(nfa, x, j)).0 is None && edge(
                nfa,
                x,
                j,
            ).1 == p[1];
        assert(step_ok(nfa, edge(nfa, x, j), codes, budget));
        lemma_step_ok_some_step(nfa, x, 0, j, codes, budget);
    }
}

/// An epsilon walk can be shortened to one of at most `n + 1` states with the same ends.
proof fn lemma_shorten_path(nfa: &NFA, p: Seq<int>)
    requires
        eps_path(nfa, p),
    ensures
        exists|q: Seq<int>|
            #[trigger] eps_path(nfa, q) && q[0] == p[0] && q.last() == p.last() && q.len() <= nfa.states@.len() + 1,
    decreases p.len(),
{
    let n = nfa.states@.len() as int;
    if p.no_duplicates() {
        p.unique_seq_to_set();
        let range = vstd::set_lib::set_int_range(0, n + 1);
        assert forall|v: int| p.to_set().contains(v) implies range.contains(v) by {
            let k = choose|k: int| 0 <= k < p.len() && p[k] == v;
        }
        vstd::set_lib::lemma_int_range(0, n + 1);
        vstd::set_lib::lemma_len_subset(p.to_set(), range);
        assert(eps_path(nfa, p));
    } else {
        let (a, b) = choose|a: int, b: int| 0 <= a < p.len() && 0 <= b < p.len() && a != b && p[a] == p[b];
        let (lo, hi) = if a < b {
            (a, b)
        } else {
            (b, a)
        };
        let q = p.subrange(0, lo) + p.subrange(hi, p.len() as int);
        assert forall|k: int| 0 <= k < q.len() implies 0 <= #[trigger] q[k] <= n by {
            if k < lo {
                assert(q[k] == p[k]);
            } else {
                assert(q[k] == p[k - lo + hi]);
            }
        }
        assert forall|k: int| 0 <= k < q.len() - 1 implies eps_link(nfa, #[trigger] q[k], q[k + 1]) by {
            if k + 1 < lo {
                assert(q[k] == p[k] && q[k + 1] == p[k + 1]);
            } else if k + 1 == lo {
                assert(q[k] == p[k] && q[k + 1] == p[hi]);
                assert(p[hi] == p[lo]);
                assert(eps_link(nfa, p[k], p[k + 1]));
            } else {
                assert(q[k] == p[k - lo + hi] && q[k + 1] == p[k + 1 - lo + hi]);
            }
        }
        assert(eps_path(nfa, q));
        if lo == 0 {
            assert(q[0] == p[hi]);
        } else {
            assert(q[0] == p[0]);
        }
        assert(q.last() == p.last());
        lemma_shorten_path(nfa, q);
    }
}

/// A member of the epsilon closure of `m` is reached by epsilon transitions from a member of `m`.
proof fn lemma_closure_reached(nfa: &NFA, m: Seq<bool>, s: Seq<bool>, z: int)
    requires
        nfa.wf(),
        m.len() == nfa.states@.len() + 1,
        is_closure(nfa, m, s),
        0 <= z < s.len(),
        s[z],
    ensures
        exists|x: int| 0 <= x < m.len() && m[x] && reaches(nfa, x, z),
{
    let n = nfa.states@.len() as int;
    let u = Seq::new((n + 1) as nat, |w: int| exists|x: int| 0 <= x < m.len() && m[x] && #[trigger] reaches(nfa, x, w));
    assert forall|w: int| 0 <= w < m.len() && #[trigger] m[w] implies u[w] by {
        let p = seq![w];
        assert(eps_path(nfa, p));
        assert(reaches(nfa, w, w));
    }
    assert forall|i: int, j: int|
        #![trigger u[i], edge(nfa, i, j)]
        0 <= i < nfa.states@.len() && u[i] && 0 <= j < nfa.states@[i].transitions@.len() && edge(nfa, i, j).0 is None
            implies u[edge(nfa, i, j).1 as int] by {
        let x = choose|x: int| 0 <= x < m.len() && m[x] && #[trigger] reaches(nfa, x, i);
        let p = choose|p: Seq<int>| #[trigger] eps_path(nfa, p) && p[0] == x && p.last() == i;
        let d = edge(nfa, i, j).1 as int;
        assert(d <= n);
        let q = p.push(d);
        assert(eps_link(nfa, i, d));
        assert forall|k: int| 0 <= k < q.len() - 1 implies eps_link(nfa, #[trigger] q[k], q[k + 1]) by {
            if k < p.len() - 1 {
                assert(q[k] == p[k] && q[k + 1] == p[k + 1]);
            } else {
                assert(q[k] == i && q[k + 1] == d);
            }
        }
        assert forall|k: int| 0 <= k < q.len() implies 0 <= #[trigger] q[k] <= n by {
            if k < p.len() {
                assert(q[k] == p[k]);
            }
        }
        assert(eps_path(nfa, q));
        assert(reaches(nfa, x, d));
    }
    assert(closed_superset(nfa, m, u));
    assert(u[z]);
}

/// An accepting run from `y`, reached from `x` by epsilon transitions, gives one from `x`.
proof fn lemma_run_after_reach(nfa: &NFA, x: int, y: int, codes: Seq<u32>)
    requires
        nfa.wf(),
        reaches(nfa, x, y),
        0 <= y <= nfa.states@.len(),
        nfa_run(nfa, y, codes, nfa.states@.len() as nat),
    ensures
        nfa_run(nfa, x, codes, nfa.states@.len() as nat),
{
    let n = nfa.states@.len() as int;
    let lead = choose|p: Seq<int>| #[trigger] eps_path(nfa, p) && p[0] == x && p.last() == y;
    lemma_run_to_path(nfa, y, codes, n as nat);
    let tail = choose|p: Seq<int>|
        #[trigger] eps_path(nfa, p) && p[0] == y && p.len() <= n + 1 && consumes(nfa, p.last(), codes);
    let p = lead + tail.drop_first();
    assert forall|k: int| 0 <= k < p.len() implies 0 <= #[trigger] p[k] <= n by {
        if k < lead.len() {
            assert(p[k] == lead[k]);
        } else {
            assert(p[k] == tail[k - lead.len() + 1]);
        }
    }
    assert forall|k: int| 0 <= k < p.len() - 1 implies eps_link(nfa, #[trigger] p[k], p[k + 1]) by {
        if k + 1 < lead.len() {
            assert(p[k] == lead[k] && p[k + 1] == lead[k + 1]);
        } else if k + 1 == lead.len() {
            assert(p[k] == lead.last() && p[k + 1] == tail[1]);
            assert(tail[0] == y);
            assert(eps_link(nfa, tail[0], tail[1]));
        } else {
            assert(p[k] == tail[k - lead.len() + 1] && p[k + 1] == tail[k - lead.len() + 2]);
        }
    }
    assert(eps_path(nfa, p));
    if tail.len() > 1 {
        assert(p.last() == tail.last());
    } else {
        assert(p.last() == lead.last());
    }
    lemma_shorten_path(nfa, p);
    let q = choose|q: Seq<int>|
        #[trigger] eps_path(nfa, q) && q[0] == p[0] && q.last() == p.last() && q.len() <= n + 1;
    lemma_path_to_run(nfa, q, codes, n as nat);
}

/// What the DFA accepts from state `i`, some NFA state of its subset accepts.
proof fn lemma_dfa_run_in_subset(nfa: &NFA, dfa: DFA, sets: Seq<Seq<bool>>, i: int, codes: Seq<u32>)
    requires
        nfa.wf(),
        subset_dfa(nfa, dfa, sets),
        0 <= i < sets.len(),
        dfa_accepts_from(dfa, i, codes),
    ensures
        exists|y: int| 0 <= y <= nfa.states@.len() && sets[i][y] && nfa_run(nfa, y, codes, nfa.states@.len() as nat),
    decreases codes.len(),
{
    let n = nfa.states@.len() as int;
    assert(sets[i].len() == n + 1);
    if codes.len() == 0 {
        assert(dfa.transitions@[i].0 == sets[i][n]);
        assert(nfa_run(nfa, n, codes, n as nat));
    } else {
        let c = codes[0];
        lemma_subset_dfa_step(nfa, dfa, sets, i, c);
        let e = first_match(dfa.transitions@[i].1@, c)->Some_0 as int;
        lemma_dfa_run_in_subset(nfa, dfa, sets, e, codes.drop_first());
        let y2 = choose|y: int|
            0 <= y <= n && sets[e][y] && nfa_run(nfa, y, codes.drop_first(), n as nat);
        let mv = moved(nfa, sets[i], c);
        lemma_closure_reached(nfa, mv, sets[e], y2);
        let t = choose|x: int| 0 <= x < mv.len() && mv[x] && reaches(nfa, x, y2);
        lemma_run_after_reach(nfa, t, y2, codes.drop_first());
        let (x, j) = choose|x: int, j: int| #[trigger] moves_to(nfa, sets[i], c, t, x, j);
        assert(step_ok(nfa, edge(nfa, x, j), codes, n as nat));
        lemma_step_ok_some_step(nfa, x, 0, j, codes, n as nat);
        assert(nfa_run(nfa, x, codes, n as nat));
    }
}

/// An NFA and a DFA built from it by subset construction accept the same subjects.
pub proof fn lemma_nfa_dfa_equivalence(nfa: &NFA, dfa: DFA, s: Seq<u8>)
    requires
        nfa.wf(),
        exists|sets: Seq<Seq<bool>>| subset_dfa(nfa, dfa, sets),
    ensures
        nfa_accepts(nfa, s) == dfa_accepts(dfa, s),
{
    let n = nfa.states@.len() as int;
    if nfa_accepts(nfa, s) {
        lemma_nfa_accepts_implies_dfa_accepts(nfa, dfa, s);
    }
    if dfa_accepts(dfa, s) {
        let sets = choose|sets: Seq<Seq<bool>>| subset_dfa(nfa, dfa, sets);
        lemma_dfa_run_in_subset(nfa, dfa, sets, 0, codes_of(s));
        let y = choose|y: int| 0 <= y <= n && sets[0][y] && nfa_run(nfa, y, codes_of(s), n as nat);
        lemma_closure_reached(nfa, entry_set(nfa), sets[0], y);
        let x = choose|x: int| 0 <= x < entry_set(nfa).len() && entry_set(nfa)[x] && reaches(nfa, x, y);
        assert(x == 0);
        lemma_run_after_reach(nfa, 0, y, codes_of(s));
    }
}


/// Two DFAs built from one NFA by subset construction accept the same subjects.
pub proof fn lemma_subset_dfas_agree(nfa: &NFA, first: DFA, second: DFA, s: Seq<u8>)
    requires
        nfa.wf(),
        exists|sets: Seq<Seq<bool>>| subset_dfa(nfa, first, sets),
        exists|sets: Seq<Seq<bool>>| subset_dfa(nfa, second, sets),
    ensures
        dfa_accepts(first, s) == dfa_accepts(second, s),
{
    lemma_nfa_dfa_equivalence(nfa, first, s);
    lemma_nfa_dfa_equivalence(nfa, second, s);
}


/// The empty pattern matches the empty subject and nothing else, through its
/// NFA and through any DFA built from that NFA by subset construction.
pub proof fn lemma_empty_pattern_matches_only_empty(nfa: &NFA, dfa: DFA, s: Seq<u8>)
    requires
        empty_pattern_nfa(nfa),
        exists|sets: Seq<Seq<bool>>| subset_dfa(nfa, dfa, sets),
    ensures
        nfa_accepts(nfa, s) == (s.len() == 0),
        dfa_accepts(dfa, s) == (s.len() == 0),
{
    let codes = codes_of(s);
    lemma_codes_empty(s);
    assert(edge(nfa, 0, 0) == (None::<crate::automata::TransitionType>, 1usize));
    assert(edge(nfa, 1, 0) == (None::<crate::automata::TransitionType>, 2usize));
    assert(nfa_run(nfa, 2, codes, 0) == (codes.len() == 0));
    assert(some_step(nfa, 1, 1, codes, 1) == false);
    assert(nfa_run(nfa, 1, codes, 1) == (codes.len() == 0));
    assert(some_step(nfa, 0, 1, codes, 2) == false);
    assert(nfa_run(nfa, 0, codes, 2) == (codes.len() == 0));
    assert(nfa.wf());
    lemma_nfa_dfa_equivalence(nfa, dfa, s);
}


/// In the NFA of a repeated wildcard, every run of codes is accepted from
/// the entry given two epsilon steps to spare.
proof fn lemma_wildcard_star_run(nfa: &NFA, codes: Seq<u32>, budget: nat)
    requires
        wildcard_star_nfa(nfa),
        budget >= 2,
    ensures
        nfa_run(nfa, 0, codes, budget),
    decreases codes.len(),
{
    assert(edge(nfa, 0, 0) == (None::<crate::automata::TransitionType>, 1usize));
    assert(edge(nfa, 0, 1) == (None::<crate::automata::TransitionType>, 4usize));
    assert(edge(nfa, 1, 0) == (Some(crate::automata::TransitionType::Any), 2usize));
    assert(edge(nfa, 2, 0) == (None::<crate::automata::TransitionType>, 3usize));
    assert(edge(nfa, 3, 0) == (None::<crate::automata::TransitionType>, 0usize));
    assert(edge(nfa, 4, 0) == (None::<crate::automata::TransitionType>, 5usize));
    if codes.len() == 0 {
        assert(nfa_run(nfa, 5, codes, (budget - 2) as nat));
        assert(step_ok(nfa, edge(nfa, 4, 0), codes, (budget - 1) as nat));
        assert(some_step(nfa, 4, 0, codes, (budget - 1) as nat));
        assert(nfa_run(nfa, 4, codes, (budget - 1) as nat));
        assert(step_ok(nfa, edge(nfa, 0, 1), codes, budget));
        assert(some_step(nfa, 0, 1, codes, budget));
        assert(some_step(nfa, 0, 0, codes, budget));
    } else {
        let rest = codes.drop_first();
        lemma_wildcard_star_run(nfa, rest, 3);
        assert(step_ok(nfa, edge(nfa, 3, 0), rest, 4));
        assert(some_step(nfa, 3, 0, rest, 4));
        assert(nfa_run(nfa, 3, rest, 4));
        assert(step_ok(nfa, edge(nfa, 2, 0), rest, 5));
        assert(some_step(nfa, 2, 0, rest, 5));
        assert(nfa_run(nfa, 2, rest, 5));
        assert(step_ok(nfa, edge(nfa, 1, 0), codes, (budget - 1) as nat));
        assert(some_step(nfa, 1, 0, codes, (budget - 1) as nat));
        assert(nfa_run(nfa, 1, codes, (budget - 1) as nat));
        assert(step_ok(nfa, edge(nfa, 0, 0), codes, budget));
        assert(some_step(nfa, 0, 0, codes, budget));
    }
}

/// A wildcard repeated any number of times matches every subject, the empty
/// one too, through its NFA and through any DFA built from that NFA by subset
/// construction.
pub proof fn lemma_wildcard_star_matches_everything(nfa: &NFA, dfa: DFA, s: Seq<u8>)
    requires
        wildcard_star_nfa(nfa),
        exists|sets: Seq<Seq<bool>>| subset_dfa(nfa, dfa, sets),
    ensures
        nfa_accepts(nfa, s),
        dfa_accepts(dfa, s),
{
    lemma_wildcard_star_run(nfa, codes_of(s), 5);
    assert(nfa.wf());
    lemma_nfa_dfa_equivalence(nfa, dfa, s);
}

} // verus!
