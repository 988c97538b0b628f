//! Determinization: epsilon closure and subset construction, with the
//! contract that ties each DFA state to the set of NFA states it stands for.
use vstd::prelude::*;
use crate::automata::{
    ascending_intervals, edge, first_match, interval, labels_of, transition_accepts, TransitionType,
    DFA, NFA,
};
use crate::bitset::{
    count_true, distinct_of_len, lemma_count_true_bound, lemma_count_true_set, lemma_distinct_bound,
};

verus! {

broadcast use vstd::std_specs::vec::group_vec_axioms, vstd::seq::group_seq_axioms;

/// `set` is closed under epsilon transitions.
pub open spec fn eps_closed(nfa: &NFA, set: Seq<bool>) -> bool {
    forall|i: int, j: int|
        #![trigger set[i], edge(nfa, i, j)]
        0 <= i < nfa.states@.len() && set[i] && 0 <= j < nfa.states@[i].transitions@.len() && edge(
            nfa,
            i,
            j,
        ).0 is None ==> set[edge(nfa, i, j).1 as int]
}

/// Every state of `set` that is not waiting in `stack` has its epsilon successors in `set`.
pub open spec fn closed_off(nfa: &NFA, set: Seq<bool>, stack: Seq<usize>) -> bool {
    forall|i: int, j: int|
        #![trigger set[i], edge(nfa, i, j)]
        0 <= i < nfa.states@.len() && set[i] && !stack.contains(i as usize) && 0 <= j
            < nfa.states@[i].transitions@.len() && edge(nfa, i, j).0 is None ==> set[edge(
            nfa,
            i,
            j,
        ).1 as int]
}

/// `b` holds every entry that `a` holds.
pub open spec fn grows(a: Seq<bool>, b: Seq<bool>) -> bool {
    &&& a.len() == b.len()
    &&& forall|k: int| 0 <= k < a.len() && #[trigger] a[k] ==> b[k]
}

/// `t` holds `a` and is closed under epsilon transitions.
pub open spec fn closed_superset(nfa: &NFA, a: Seq<bool>, t: Seq<bool>) -> bool {
    grows(a, t) && eps_closed(nfa, t)
}

/// Adds to `set` every state that epsilon transitions reach from it: the
/// result is the least set that holds the input and is closed under them.
fn epsilon_close(nfa: &NFA, set: &mut Vec<bool>)
    requires
        nfa.wf(),
        old(set)@.len() == nfa.states@.len() + 1,
    ensures
        closed_superset(nfa, old(set)@, final(set)@),
        forall|t: Seq<bool>| #[trigger] closed_superset(nfa, old(set)@, t) ==> grows(final(set)@, t),
{
    let n = nfa.states.len();
    let m = set.len();
    let mut stack: Vec<usize> = Vec::new();
    let mut k: usize = 0;
    while k < m
        invariant
            m == n + 1,
            k <= m,
            stack@.len() == k,
            forall|x: int| 0 <= x < k ==> #[trigger] stack@[x] == x,
        decreases m - k,
    {
        stack.push(k);
        k = k + 1;
    }
    assert forall|i: int| 0 <= i < m implies #[trigger] stack@.contains(i as usize) by {
        assert(stack@[i] == i);
    }
    proof {
        lemma_count_true_bound(set@);
    }
    while stack.len() > 0
        invariant
            n == nfa.states@.len(),
            m == n + 1,
            nfa.wf(),
            grows(old(set)@, set@),
            set@.len() == m,
            forall|x: int| 0 <= x < stack@.len() ==> #[trigger] stack@[x] < m,
            closed_off(nfa, set@, stack@),
            count_true(set@) <= set@.len(),
            forall|t: Seq<bool>| #[trigger] closed_superset(nfa, old(set)@, t) ==> grows(set@, t),
        decreases m - count_true(set@), stack@.len(),
    {
        let ghost count0 = count_true(set@);
        let ghost before = stack@;
        let s = match stack.pop() {
            Some(x) => x,
            None => {
                return;
            },
        };
        let ghost base = stack@;
        assert(before =~= base.push(s));
        if s < n && set[s] {
            let ts = &nfa.states[s].transitions;
            let mut j: usize = 0;
            while j < ts.len()
                invariant
                    n == nfa.states@.len(),
                    m == n + 1,
                    nfa.wf(),
                    s < n,
                    ts == &nfa.states@[s as int].transitions,
                    set@.len() == m,
                    set@[s as int],
                    grows(old(set)@, set@),
                    forall|x: int| 0 <= x < stack@.len() ==> #[trigger] stack@[x] < m,
                    stack@.len() >= base.len(),
                    forall|x: int| 0 <= x < base.len() ==> #[trigger] stack@[x] == base[x],
                    stack@.len() - base.len() == count_true(set@) - count0,
                    count_true(set@) <= set@.len(),
                    count_true(set@) >= count0,
                    forall|t: Seq<bool>| #[trigger] closed_superset(nfa, old(set)@, t) ==> grows(set@, t),
                    forall|i: int, jj: int|
                        #![trigger set@[i], edge(nfa, i, jj)]
                        0 <= i < n && i != s && set@[i] && !stack@.contains(i as usize) && 0 <= jj
                            < nfa.states@[i].transitions@.len() && edge(nfa, i, jj).0 is None
                            ==> set@[edge(nfa, i, jj).1 as int],
                    forall|jj: int|
                        #![trigger edge(nfa, s as int, jj)]
                        0 <= jj < j && edge(nfa, s as int, jj).0 is None ==> set@[edge(
                            nfa,
                            s as int,
                            jj,
                        ).1 as int],
                decreases ts@.len() - j,
            {
                let (t, d) = ts[j];
                assert(edge(nfa, s as int, j as int) == (t, d));
                if t.is_none() && !set[d] {
                    let ghost prev = set@;
                    let ghost prev_stack = stack@;
                    proof {
                        lemma_count_true_set(set@, d as int);
                    }
                    set.set(d, true);
                    proof {
                        assert forall|t: Seq<bool>| #[trigger] closed_superset(nfa, old(set)@, t) implies grows(
                            set@,
                            t,
                        ) by {
                            assert(grows(prev, t));
                            assert(prev[s as int]);
                            assert(t[s as int]);
                            assert(t[edge(nfa, s as int, j as int).1 as int]);
                            assert forall|k: int| 0 <= k < set@.len() && #[trigger] set@[k] implies t[k] by {
                                if k != d {
                                    assert(set@[k] == prev[k]);
                                }
                            }
                        }
                        lemma_count_true_bound(set@);
                        assert forall|k: int| 0 <= k < m && #[trigger] prev[k] implies set@[k] by {
                            if k != d {
                                assert(set@[k] == prev[k]);
                            }
                        }
                    }
                    stack.push(d);
                    proof {
                        assert forall|i: int| 0 <= i < m && prev_stack.contains(i as usize) implies #[trigger] stack@.contains(
                            i as usize,
                        ) by {
                            let x = choose|x: int| 0 <= x < prev_stack.len() && prev_stack[x] == i as usize;
                            assert(stack@[x] == i as usize);
                        }
                        assert(stack@[stack@.len() - 1] == d);
                        assert(stack@.contains(d));
                    }
                }
                j = j + 1;
            }
        }
        assert forall|i: int, j: int|
            #![trigger set@[i], edge(nfa, i, j)]
            0 <= i < n && set@[i] && !stack@.contains(i as usize) && 0 <= j
                < nfa.states@[i].transitions@.len() && edge(nfa, i, j).0 is None implies set@[edge(
            nfa,
            i,
            j,
        ).1 as int] by {
            if i != s as int && base.contains(i as usize) {
                let x = choose|x: int| 0 <= x < base.len() && base[x] == i as usize;
                assert(stack@[x] == i as usize);
            }
        }
    }
    assert forall|i: int, j: int|
        #![trigger set@[i], edge(nfa, i, j)]
        0 <= i < nfa.states@.len() && set@[i] && 0 <= j < nfa.states@[i].transitions@.len()
            && edge(nfa, i, j).0 is None implies set@[edge(nfa, i, j).1 as int] by {
        assert(!stack@.contains(i as usize));
    }
}


/// The contents of each set.
pub open spec fn views(sets: Seq<Vec<bool>>) -> Seq<Seq<bool>> {
    sets.map_values(|v: Vec<bool>| v@)
}

fn same_bools(a: &Vec<bool>, b: &Vec<bool>) -> (r: bool)
    ensures
        r == (a@ == b@),
{
    if a.len() != b.len() {
        return false;
    }
    let mut i: usize = 0;
    while i < a.len()
        invariant
            a@.len() == b@.len(),
            i <= a@.len(),
            forall|k: int| 0 <= k < i ==> a@[k] == b@[k],
        decreases a@.len() - i,
    {
        if a[i] != b[i] {
            return false;
        }
        i = i + 1;
    }
    assert(a@ =~= b@);
    true
}

fn copy_bools(a: &Vec<bool>) -> (r: Vec<bool>)
    ensures
        r@ == a@,
{
    let mut r: Vec<bool> = Vec::new();
    let mut i: usize = 0;
    while i < a.len()
        invariant
            i <= a@.len(),
            r@ == a@.subrange(0, i as int),
        decreases a@.len() - i,
    {
        r.push(a[i]);
        i = i + 1;
        assert(r@ =~= a@.subrange(0, i as int));
    }
    assert(a@.subrange(0, a@.len() as int) =~= a@);
    r
}

/// Index of the set in `sets` equal to `d`, if any.
fn find_set(sets: &Vec<Vec<bool>>, d: &Vec<bool>) -> (r: Option<usize>)
    ensures
        match r {
            Some(i) => i < sets@.len() && sets@[i as int]@ == d@,
            None => forall|k: int| 0 <= k < sets@.len() ==> sets@[k]@ != d@,
        },
{
    let mut i: usize = 0;
    while i < sets.len()
        invariant
            i <= sets@.len(),
            forall|k: int| 0 <= k < i ==> sets@[k]@ != d@,
        decreases sets@.len() - i,
    {
        if same_bools(&sets[i], d) {
            return Some(i);
        }
        i = i + 1;
    }
    None
}

fn empty_set(m: usize) -> (r: Vec<bool>)
    ensures
        r@.len() == m,
        forall|k: int| 0 <= k < m ==> !r@[k],
{
    let mut r: Vec<bool> = Vec::new();
    let mut i: usize = 0;
    while i < m
        invariant
            i <= m,
            r@.len() == i,
            forall|k: int| 0 <= k < i ==> !r@[k],
        decreases m - i,
    {
        r.push(false);
        i = i + 1;
    }
    r
}

/// Transition `j` of state `i` is labelled `t`, leads to `d`, and leaves a state of `set`.
pub open spec fn hit(nfa: &NFA, set: Seq<bool>, t: TransitionType, d: int, i: int, j: int) -> bool {
    &&& 0 <= i < nfa.states@.len()
    &&& set[i]
    &&& 0 <= j < nfa.states@[i].transitions@.len()
    &&& edge(nfa, i, j).0 == Some(t)
    &&& edge(nfa, i, j).1 == d
}

/// Some transition labelled `t` leads from a state of `set` to `d`.
pub open spec fn labelled_target(nfa: &NFA, set: Seq<bool>, t: TransitionType, d: int) -> bool {
    exists|i: int, j: int| #[trigger] hit(nfa, set, t, d, i, j)
}

/// The states that transitions labelled `t` lead to from the states of `set`.
pub open spec fn targets_of(nfa: &NFA, set: Seq<bool>, t: TransitionType) -> Seq<bool> {
    Seq::new((nfa.states@.len() + 1) as nat, |d: int| labelled_target(nfa, set, t, d))
}

/// `t` is the least set that holds `a` and is closed under epsilon transitions.
pub open spec fn is_closure(nfa: &NFA, a: Seq<bool>, t: Seq<bool>) -> bool {
    &&& closed_superset(nfa, a, t)
    &&& forall|u: Seq<bool>| #[trigger] closed_superset(nfa, a, u) ==> grows(t, u)
}

/// Transition `(i, j)` comes before position `(s, jj)` in state-major order.
pub open spec fn before(i: int, j: int, s: int, jj: int) -> bool {
    i < s || (i == s && j < jj)
}

/// Every label of a transition out of `cur` occurs in `labels`.
pub open spec fn covers_labels(nfa: &NFA, cur: Seq<bool>, labels: Seq<TransitionType>) -> bool {
    forall|i: int, j: int|
        0 <= i < nfa.states@.len() && cur[i] && 0 <= j < nfa.states@[i].transitions@.len() && (
        #[trigger] edge(nfa, i, j)).0 is Some ==> labels.contains(edge(nfa, i, j).0->Some_0)
}

/// Some transition out of a state of `cur` is labelled `t`.
pub open spec fn label_of_set(nfa: &NFA, cur: Seq<bool>, t: TransitionType) -> bool {
    exists|i: int, j: int|
        0 <= i < nfa.states@.len() && cur[i] && 0 <= j < nfa.states@[i].transitions@.len() && #[trigger] edge(
            nfa,
            i,
            j,
        ).0 == Some(t)
}

fn collect_labels(nfa: &NFA, cur: &Vec<bool>) -> (labels: Vec<TransitionType>)
    requires
        cur@.len() == nfa.states@.len() + 1,
    ensures
        covers_labels(nfa, cur@, labels@),
        forall|k: int| 0 <= k < labels@.len() ==> #[trigger] label_of_set(nfa, cur@, labels@[k]),
{
    let n = nfa.states.len();
    let mut labels: Vec<TransitionType> = Vec::new();
    let mut s: usize = 0;
    while s < n
        invariant
            n == nfa.states@.len(),
            cur@.len() == n + 1,
            s <= n,
            forall|k: int| 0 <= k < labels@.len() ==> #[trigger] label_of_set(nfa, cur@, labels@[k]),
            forall|i: int, j: int|
                0 <= i < s && cur@[i] && 0 <= j < nfa.states@[i].transitions@.len() && (
                #[trigger] edge(nfa, i, j)).0 is Some ==> labels@.contains(edge(nfa, i, j).0->Some_0),
        decreases n - s,
    {
        if cur[s] {
            let ts = &nfa.states[s].transitions;
            let mut j: usize = 0;
            while j < ts.len()
                invariant
                    n == nfa.states@.len(),
                    s < n,
                    cur@[s as int],
                    ts == &nfa.states@[s as int].transitions,
                    forall|k: int| 0 <= k < labels@.len() ==> #[trigger] label_of_set(nfa, cur@, labels@[k]),
                    forall|i: int, jj: int|
                        0 <= i < nfa.states@.len() && cur@[i] && 0 <= jj < nfa.states@[i].transitions@.len()
                            && before(i, jj, s as int, j as int) && (#[trigger] edge(nfa, i, jj)).0 is Some
                            ==> labels@.contains(edge(nfa, i, jj).0->Some_0),
                decreases ts@.len() - j,
            {
                let (t, _) = ts[j];
                assert(edge(nfa, s as int, j as int).0 == t);
                if let Some(label) = t {
                    let ghost old_labels = labels@;
                    labels.push(label);
                    proof {
                        assert(labels@[labels@.len() - 1] == label);
                        assert(label_of_set(nfa, cur@, label));
                        assert forall|k: int| 0 <= k < labels@.len() implies #[trigger] label_of_set(nfa, cur@, labels@[k]) by {
                            if k < old_labels.len() {
                                assert(labels@[k] == old_labels[k]);
                            }
                        }
                        assert forall|x: TransitionType| old_labels.contains(x) implies #[trigger] labels@.contains(x) by {
                            let w = choose|w: int| 0 <= w < old_labels.len() && old_labels[w] == x;
                            assert(labels@[w] == x);
                        }
                    }
                }
                j = j + 1;
            }
        }
        s = s + 1;
    }
    labels
}

/// The states that transitions labelled `t` lead to from the states of `cur`.
fn targets_for(nfa: &NFA, cur: &Vec<bool>, t: TransitionType) -> (raw: Vec<bool>)
    requires
        nfa.wf(),
        cur@.len() == nfa.states@.len() + 1,
    ensures
        raw@ == targets_of(nfa, cur@, t),
{
    let n = nfa.states.len();
    let m = cur.len();
    let mut raw = empty_set(m);
    let mut s: usize = 0;
    while s < n
        invariant
            n == nfa.states@.len(),
            m == n + 1,
            nfa.wf(),
            cur@.len() == m,
            raw@.len() == m,
            s <= n,
            forall|d: int|
                0 <= d < m ==> raw@[d] == exists|i: int, j: int|
                    #[trigger] hit(nfa, cur@, t, d, i, j) && i < s,
        decreases n - s,
    {
        let ts = &nfa.states[s].transitions;
        let mut j: usize = 0;
        while j < ts.len()
            invariant
                n == nfa.states@.len(),
                m == n + 1,
                nfa.wf(),
                s < n,
                cur@.len() == m,
                raw@.len() == m,
                ts == &nfa.states@[s as int].transitions,
                forall|d: int|
                    0 <= d < m ==> raw@[d] == exists|i: int, jj: int|
                        #[trigger] hit(nfa, cur@, t, d, i, jj) && before(i, jj, s as int, j as int),
            decreases ts@.len() - j,
        {
            let (label, d) = ts[j];
            assert(edge(nfa, s as int, j as int) == (label, d));
            assert(d < m);
            let ghost prev = raw@;
            if cur[s] && label == Some(t) {
                raw.set(d, true);
            }
            proof {
                assert forall|e: int| 0 <= e < m implies raw@[e] == exists|i: int, jj: int|
                    #[trigger] hit(nfa, cur@, t, e, i, jj) && before(i, jj, s as int, j + 1) by {
                    if raw@[e] {
                        if e == d && cur@[s as int] && label == Some(t) {
                            assert(hit(nfa, cur@, t, e, s as int, j as int));
                        } else {
                            assert(prev[e]);
                        }
                    } else {
                        assert(!prev[e]);
                        assert forall|i: int, jj: int| #[trigger] hit(nfa, cur@, t, e, i, jj) implies !before(
                            i,
                            jj,
                            s as int,
                            j + 1,
                        ) by {
                            if before(i, jj, s as int, j + 1) && !before(i, jj, s as int, j as int) {
                                assert(i == s && jj == j);
                            }
                        }
                    }
                }
            }
            j = j + 1;
        }
        proof {
            assert forall|e: int| 0 <= e < m implies raw@[e] == exists|i: int, jj: int|
                #[trigger] hit(nfa, cur@, t, e, i, jj) && i < s + 1 by {
                if raw@[e] {
                    let (i, jj) = choose|i: int, jj: int|
                        #[trigger] hit(nfa, cur@, t, e, i, jj) && before(i, jj, s as int, ts@.len() as int);
                    assert(hit(nfa, cur@, t, e, i, jj) && i < s + 1);
                } else {
                    assert forall|i: int, jj: int| #[trigger] hit(nfa, cur@, t, e, i, jj) implies !(i < s + 1) by {
                        if i < s + 1 {
                            assert(before(i, jj, s as int, ts@.len() as int));
                        }
                    }
                }
            }
        }
        s = s + 1;
    }
    assert forall|e: int| 0 <= e < m implies raw@[e] == targets_of(nfa, cur@, t)[e] by {
        if raw@[e] {
            let (i, jj) = choose|i: int, jj: int| #[trigger] hit(nfa, cur@, t, e, i, jj) && i < s;
            assert(labelled_target(nfa, cur@, t, e));
        } else {
            assert forall|i: int, jj: int| !#[trigger] hit(nfa, cur@, t, e, i, jj) by {
                if hit(nfa, cur@, t, e, i, jj) {
                    assert(i < s);
                }
            }
        }
    }
    assert(raw@ =~= targets_of(nfa, cur@, t));
    raw
}

/// The labelled transitions out of the states of `cur`: the labels, and for
/// each the epsilon closure of the states it leads to.
fn gather_transitions(nfa: &NFA, cur: &Vec<bool>) -> (r: (Vec<TransitionType>, Vec<Vec<bool>>))
    requires
        nfa.wf(),
        cur@.len() == nfa.states@.len() + 1,
    ensures
        r.0@.len() == r.1@.len(),
        forall|k: int| 0 <= k < r.1@.len() ==> (#[trigger] r.1@[k])@.len() == nfa.states@.len() + 1,
        covers_labels(nfa, cur@, r.0@),
        forall|k: int| 0 <= k < r.0@.len() ==> #[trigger] label_of_set(nfa, cur@, r.0@[k]),
        forall|k: int|
            0 <= k < r.1@.len() ==> is_closure(nfa, targets_of(nfa, cur@, r.0@[k]), #[trigger] r.1@[k]@),
{
    let labels = collect_labels(nfa, cur);
    let mut dests: Vec<Vec<bool>> = Vec::new();
    let mut k: usize = 0;
    while k < labels.len()
        invariant
            nfa.wf(),
            cur@.len() == nfa.states@.len() + 1,
            k <= labels@.len(),
            dests@.len() == k,
            forall|x: int| 0 <= x < dests@.len() ==> (#[trigger] dests@[x])@.len() == nfa.states@.len() + 1,
            forall|x: int|
                0 <= x < dests@.len() ==> is_closure(nfa, targets_of(nfa, cur@, labels@[x]), #[trigger] dests@[x]@),
        decreases labels@.len() - k,
    {
        let mut v = targets_for(nfa, cur, labels[k]);
        let ghost raw = v@;
        epsilon_close(nfa, &mut v);
        assert(is_closure(nfa, raw, v@));
        dests.push(v);
        k = k + 1;
    }
    (labels, dests)
}

/// The first codepoint `t` consumes and the last, for the labels that have them.
pub open spec fn label_bounds(t: TransitionType) -> (int, int) {
    match t {
        TransitionType::Single(c) => (c as int, c as int),
        TransitionType::Range(a, b) => (a as int, b as int),
        TransitionType::ExcludeRange(a, b) => (a as int, b as int),
        TransitionType::Any => (0, u32::MAX as int),
    }
}

/// `points` holds every place where `t` starts or stops consuming.
pub open spec fn has_bounds(points: Seq<u32>, t: TransitionType) -> bool {
    t is Any || ((exists|x: int| 0 <= x < points.len() && points[x] == label_bounds(t).0) && (
    label_bounds(t).1 < u32::MAX ==> exists|x: int|
        0 <= x < points.len() && points[x] == label_bounds(t).1 + 1))
}

/// The points where `t` starts or stops consuming, as the first codepoint of
/// each change (a stop after `u32::MAX` has no such point).
fn push_bounds(t: TransitionType, points: &mut Vec<u32>)
    ensures
        final(points)@.len() >= old(points)@.len(),
        forall|x: int| 0 <= x < old(points)@.len() ==> #[trigger] final(points)@[x] == old(points)@[x],
        has_bounds(final(points)@, t),
{
    let (lo, hi) = match t {
        TransitionType::Single(c) => (c, c),
        TransitionType::Range(a, b) => (a, b),
        TransitionType::ExcludeRange(a, b) => (a, b),
        TransitionType::Any => {
            return;
        },
    };
    assert(label_bounds(t) == (lo as int, hi as int));
    points.push(lo);
    let ghost at = points@.len() - 1;
    assert(points@[at] == lo);
    if hi < u32::MAX {
        points.push(hi + 1);
        assert(points@[at] == lo);
        assert(points@[points@.len() - 1] == hi + 1);
    }
    assert(exists|x: int| 0 <= x < points@.len() && points@[x] == label_bounds(t).0);
}

/// The smallest point above `cur`, if any.
fn next_point(points: &Vec<u32>, cur: u32) -> (r: Option<u32>)
    ensures
        match r {
            Some(p) => p > cur && forall|x: int| 0 <= x < points@.len() && points@[x] > cur ==> p <= #[trigger] points@[x],
            None => forall|x: int| 0 <= x < points@.len() ==> #[trigger] points@[x] <= cur,
        },
{
    let mut best: Option<u32> = None;
    let mut i: usize = 0;
    while i < points.len()
        invariant
            i <= points@.len(),
            match best {
                Some(p) => p > cur && forall|x: int| 0 <= x < i && points@[x] > cur ==> p <= #[trigger] points@[x],
                None => forall|x: int| 0 <= x < i ==> #[trigger] points@[x] <= cur,
            },
        decreases points@.len() - i,
    {
        let p = points[i];
        if p > cur {
            best = match best {
                Some(b) => if p < b {
                    Some(p)
                } else {
                    Some(b)
                },
                None => Some(p),
            };
        }
        i = i + 1;
    }
    best
}

/// Between two points of `points` a label consumes all codepoints or none.
proof fn lemma_same_side(points: Seq<u32>, t: TransitionType, cur: u32, last: u32, c: u32)
    requires
        has_bounds(points, t),
        forall|x: int| 0 <= x < points.len() && points[x] > cur ==> #[trigger] points[x] > last,
        cur <= c <= last,
    ensures
        transition_accepts(t, c) == transition_accepts(t, cur),
{
    if !(t is Any) {
        let x = choose|x: int| 0 <= x < points.len() && points[x] == label_bounds(t).0;
        assert(points[x] > cur ==> points[x] > last);
        if label_bounds(t).1 < u32::MAX {
            let y = choose|y: int| 0 <= y < points.len() && points[y] == label_bounds(t).1 + 1;
            assert(points[y] > cur ==> points[y] > last);
        }
    }
}

/// The states that the labels consuming `c` lead to, together.
pub open spec fn union_for(labels: Seq<TransitionType>, dests: Seq<Seq<bool>>, m: nat, c: u32) -> Seq<
    bool,
> {
    Seq::new(
        m,
        |b: int|
            exists|k: int|
                0 <= k < labels.len() && transition_accepts(labels[k], c) && #[trigger] dests[k][b],
    )
}

/// Whether some label consumes `c`.
pub open spec fn some_label_accepts(labels: Seq<TransitionType>, c: u32) -> bool {
    exists|k: int| 0 <= k < labels.len() && #[trigger] transition_accepts(labels[k], c)
}

/// The union of the sets of the labels that consume `c`, and whether there is one.
fn union_at(labels: &Vec<TransitionType>, dests: &Vec<Vec<bool>>, m: usize, c: u32) -> (r: (Vec<bool>, bool))
    requires
        labels@.len() == dests@.len(),
        forall|k: int| 0 <= k < dests@.len() ==> (#[trigger] dests@[k])@.len() == m,
    ensures
        r.0@ == union_for(labels@, views(dests@), m as nat, c),
        r.1 == some_label_accepts(labels@, c),
{
    let ghost ds = views(dests@);
    let mut union = empty_set(m);
    let mut any = false;
    let mut j: usize = 0;
    while j < labels.len()
        invariant
            labels@.len() == dests@.len(),
            ds == views(dests@),
            forall|k: int| 0 <= k < dests@.len() ==> (#[trigger] dests@[k])@.len() == m,
            j <= labels@.len(),
            union@.len() == m,
            forall|b: int|
                0 <= b < m ==> union@[b] == exists|k: int|
                    0 <= k < j && transition_accepts(labels@[k], c) && #[trigger] ds[k][b],
            any == exists|k: int| 0 <= k < j && #[trigger] transition_accepts(labels@[k], c),
        decreases labels@.len() - j,
    {
        assert(ds[j as int] == dests@[j as int]@);
        if labels[j].accepts(c) {
            any = true;
            let d = &dests[j];
            let mut b: usize = 0;
            while b < m
                invariant
                    union@.len() == m,
                    d@.len() == m,
                    d@ == ds[j as int],
                    transition_accepts(labels@[j as int], c),
                    j < labels@.len(),
                    b <= m,
                    forall|e: int|
                        0 <= e < m ==> union@[e] == ((exists|k: int|
                            0 <= k < j && transition_accepts(labels@[k], c) && #[trigger] ds[k][e]) || (e
                            < b && d@[e])),
                decreases m - b,
            {
                if d[b] {
                    union.set(b, true);
                }
                b = b + 1;
            }
            assert forall|e: int|
                0 <= e < m implies union@[e] == exists|k: int|
                    0 <= k < j + 1 && transition_accepts(labels@[k], c) && #[trigger] ds[k][e] by {
                if union@[e] && !(exists|k: int|
                    0 <= k < j && transition_accepts(labels@[k], c) && #[trigger] ds[k][e]) {
                    assert(ds[j as int][e]);
                }
            }
        }
        j = j + 1;
    }
    assert(union@ =~= union_for(labels@, ds, m as nat, c));
    (union, any)
}

/// Rewrites possibly overlapping labelled transitions into disjoint ones:
/// the codepoints are cut into intervals on which every label either
/// consumes all or none, and each interval leads to the union of the sets
/// of the labels that consume it. Intervals no label consumes are dropped.
fn split_transitions(labels: &Vec<TransitionType>, dests: &Vec<Vec<bool>>, m: usize) -> (r: (
    Vec<TransitionType>,
    Vec<Vec<bool>>,
))
    requires
        labels@.len() == dests@.len(),
        forall|k: int| 0 <= k < dests@.len() ==> (#[trigger] dests@[k])@.len() == m,
    ensures
        r.0@.len() == r.1@.len(),
        forall|k: int| 0 <= k < r.1@.len() ==> (#[trigger] r.1@[k])@.len() == m,
        ascending_intervals(r.0@),
        forall|x: int, c: u32|
            0 <= x < r.0@.len() && interval(r.0@[x]).0 <= c <= interval(r.0@[x]).1 ==> #[trigger] union_for(
                labels@,
                views(dests@),
                m as nat,
                c,
            ) == (#[trigger] r.1@[x])@,
        forall|c: u32|
            (forall|x: int| 0 <= x < r.0@.len() ==> !(interval(#[trigger] r.0@[x]).0 <= c <= interval(
                r.0@[x],
            ).1)) ==> !#[trigger] some_label_accepts(labels@, c),
{
    let mut out_labels: Vec<TransitionType> = Vec::new();
    let mut out_dests: Vec<Vec<bool>> = Vec::new();
    let mut points: Vec<u32> = Vec::new();
    let mut k: usize = 0;
    while k < labels.len()
        invariant
            k <= labels@.len(),
            forall|x: int| 0 <= x < k ==> has_bounds(points@, #[trigger] labels@[x]),
        decreases labels@.len() - k,
    {
        let ghost old_points = points@;
        push_bounds(labels[k], &mut points);
        proof {
            assert forall|x: int| 0 <= x < k implies has_bounds(points@, #[trigger] labels@[x]) by {
                let t = labels@[x];
                assert(has_bounds(old_points, t));
                if !(t is Any) {
                    let w = choose|w: int| 0 <= w < old_points.len() && old_points[w] == label_bounds(t).0;
                    assert(points@[w] == old_points[w]);
                    if label_bounds(t).1 < u32::MAX {
                        let y = choose|y: int|
                            0 <= y < old_points.len() && old_points[y] == label_bounds(t).1 + 1;
                        assert(points@[y] == old_points[y]);
                    }
                }
            }
        }
        k = k + 1;
    }
    let mut cur: u32 = 0;
    loop
        invariant_except_break
            forall|x: int| 0 <= x < out_labels@.len() ==> interval(#[trigger] out_labels@[x]).1 < cur,
            forall|c: u32|
                c < cur && (forall|x: int| 0 <= x < out_labels@.len() ==> !(interval(
                    #[trigger] out_labels@[x],
                ).0 <= c <= interval(out_labels@[x]).1)) ==> !#[trigger] some_label_accepts(labels@, c),
        invariant
            labels@.len() == dests@.len(),
            forall|x: int| 0 <= x < dests@.len() ==> (#[trigger] dests@[x])@.len() == m,
            forall|x: int| 0 <= x < labels@.len() ==> has_bounds(points@, #[trigger] labels@[x]),
            out_labels@.len() == out_dests@.len(),
            forall|x: int| 0 <= x < out_dests@.len() ==> (#[trigger] out_dests@[x])@.len() == m,
            ascending_intervals(out_labels@),
            forall|x: int, c: u32|
                0 <= x < out_labels@.len() && interval(out_labels@[x]).0 <= c <= interval(
                    out_labels@[x],
                ).1 ==> #[trigger] union_for(labels@, views(dests@), m as nat, c) == (
                #[trigger] out_dests@[x])@,
        ensures
            out_labels@.len() == out_dests@.len(),
            forall|x: int| 0 <= x < out_dests@.len() ==> (#[trigger] out_dests@[x])@.len() == m,
            ascending_intervals(out_labels@),
            forall|x: int, c: u32|
                0 <= x < out_labels@.len() && interval(out_labels@[x]).0 <= c <= interval(
                    out_labels@[x],
                ).1 ==> #[trigger] union_for(labels@, views(dests@), m as nat, c) == (
                #[trigger] out_dests@[x])@,
            forall|c: u32|
                (forall|x: int| 0 <= x < out_labels@.len() ==> !(interval(
                    #[trigger] out_labels@[x],
                ).0 <= c <= interval(out_labels@[x]).1)) ==> !#[trigger] some_label_accepts(labels@, c),
        decreases u32::MAX - cur,
    {
        let next = next_point(&points, cur);
        let last = match next {
            Some(p) => p - 1,
            None => u32::MAX,
        };
        assert(cur <= last);
        assert forall|x: int| 0 <= x < points@.len() && points@[x] > cur implies #[trigger] points@[x]
            > last by {
        }
        proof {
            assert forall|t: TransitionType, c: u32|
                #![trigger transition_accepts(t, c), has_bounds(points@, t)]
                has_bounds(points@, t) && cur <= c <= last implies transition_accepts(t, c)
                    == transition_accepts(t, cur) by {
                lemma_same_side(points@, t, cur, last, c);
            }
        }
        let (union, any) = union_at(labels, dests, m, cur);
        proof {
            assert forall|c: u32| cur <= c <= last implies #[trigger] union_for(
                labels@,
                views(dests@),
                m as nat,
                c,
            ) == union_for(labels@, views(dests@), m as nat, cur) by {
                assert forall|k: int| 0 <= k < labels@.len() implies transition_accepts(
                    #[trigger] labels@[k],
                    c,
                ) == transition_accepts(labels@[k], cur) by {
                    assert(has_bounds(points@, labels@[k]));
                }
                assert(union_for(labels@, views(dests@), m as nat, c) =~= union_for(
                    labels@,
                    views(dests@),
                    m as nat,
                    cur,
                ));
            }
            assert forall|c: u32| cur <= c <= last implies #[trigger] some_label_accepts(labels@, c)
                == some_label_accepts(labels@, cur) by {
                assert forall|k: int| 0 <= k < labels@.len() implies transition_accepts(
                    #[trigger] labels@[k],
                    c,
                ) == transition_accepts(labels@[k], cur) by {
                    assert(has_bounds(points@, labels@[k]));
                }
            }
        }
        let ghost old_labels = out_labels@;
        let ghost old_dests = out_dests@;
        if any {
            let t = if cur == last {
                TransitionType::Single(cur)
            } else {
                TransitionType::Range(cur, last)
            };
            out_labels.push(t);
            out_dests.push(union);
            assert(interval(t) == (cur as int, last as int));
            assert forall|x: int| 0 <= x < out_labels@.len() implies interval(
                #[trigger] out_labels@[x],
            ).1 <= last by {
                if x < old_labels.len() {
                    assert(out_labels@[x] == old_labels[x]);
                }
            }
            assert forall|x: int, y: int|
                0 <= x < y < out_labels@.len() implies interval(#[trigger] out_labels@[x]).1
                < interval(#[trigger] out_labels@[y]).0 by {
                if y < old_labels.len() {
                    assert(out_labels@[x] == old_labels[x]);
                    assert(out_labels@[y] == old_labels[y]);
                } else {
                    assert(out_labels@[x] == old_labels[x]);
                }
            }
            assert forall|x: int| 0 <= x < out_labels@.len() implies (#[trigger] out_labels@[x] is Single
                || out_labels@[x] is Range) && interval(out_labels@[x]).0 <= interval(
                out_labels@[x],
            ).1 && (out_labels@[x] is Single <==> interval(out_labels@[x]).0 == interval(out_labels@[x]).1) by {
                if x < old_labels.len() {
                    assert(out_labels@[x] == old_labels[x]);
                }
            }
            assert forall|x: int, c: u32|
                0 <= x < out_labels@.len() && interval(out_labels@[x]).0 <= c <= interval(
                    out_labels@[x],
                ).1 implies #[trigger] union_for(labels@, views(dests@), m as nat, c) == (
            #[trigger] out_dests@[x])@ by {
                if x < old_labels.len() {
                    assert(out_labels@[x] == old_labels[x]);
                    assert(out_dests@[x] == old_dests[x]);
                }
            }
        }
        proof {
            assert forall|c: u32|
                c < last + 1 && (forall|x: int| 0 <= x < out_labels@.len() ==> !(interval(
                    #[trigger] out_labels@[x],
                ).0 <= c <= interval(out_labels@[x]).1)) implies !#[trigger] some_label_accepts(
                labels@,
                c,
            ) by {
                if c < cur {
                    assert forall|x: int| 0 <= x < old_labels.len() implies !(interval(
                        #[trigger] old_labels[x],
                    ).0 <= c <= interval(old_labels[x]).1) by {
                        assert(out_labels@[x] == old_labels[x]);
                    }
                } else if any {
                    assert(out_labels@[out_labels@.len() - 1] == if cur == last {
                        TransitionType::Single(cur)
                    } else {
                        TransitionType::Range(cur, last)
                    });
                }
            }
        }
        match next {
            Some(p) => {
                cur = p;
            },
            None => {
                break;
            },
        }
    }
    (out_labels, out_dests)
}

/// A transition out of a state of `set`, labelled with a label that consumes `c`, leads to `d`.
pub open spec fn moves_to(nfa: &NFA, set: Seq<bool>, c: u32, d: int, i: int, j: int) -> bool {
    &&& 0 <= i < nfa.states@.len()
    &&& set[i]
    &&& 0 <= j < nfa.states@[i].transitions@.len()
    &&& edge(nfa, i, j).0 is Some
    &&& transition_accepts(edge(nfa, i, j).0->Some_0, c)
    &&& edge(nfa, i, j).1 == d
}

/// The states that consuming `c` leads to from the states of `set`.
pub open spec fn moved(nfa: &NFA, set: Seq<bool>, c: u32) -> Seq<bool> {
    Seq::new(
        (nfa.states@.len() + 1) as nat,
        |d: int| exists|i: int, j: int| #[trigger] moves_to(nfa, set, c, d, i, j),
    )
}

/// The set holding only the entry state.
pub open spec fn entry_set(nfa: &NFA) -> Seq<bool> {
    Seq::new((nfa.states@.len() + 1) as nat, |d: int| d == 0)
}

/// Whether `c` lies in the interval of label `t`.
pub open spec fn in_interval(t: TransitionType, c: u32) -> bool {
    interval(t).0 <= c <= interval(t).1
}

/// The transitions `row` out of the subset `src` are those of subset
/// construction: each leads, for every codepoint of its interval, to the set
/// in `vs` that is the epsilon closure of where `src` moves on it; a
/// codepoint outside every interval moves nowhere.
pub open spec fn row_ok(nfa: &NFA, vs: Seq<Seq<bool>>, src: Seq<bool>, row: Seq<(TransitionType, usize)>) -> bool {
    &&& ascending_intervals(labels_of(row))
    &&& forall|x: int| 0 <= x < row.len() ==> (#[trigger] row[x]).1 < vs.len()
    &&& forall|x: int, c: u32|
        0 <= x < row.len() && in_interval(row[x].0, c) ==> is_closure(
            nfa,
            #[trigger] moved(nfa, src, c),
            vs[(#[trigger] row[x]).1 as int],
        )
    &&& forall|c: u32|
        (forall|x: int| 0 <= x < row.len() ==> !in_interval((#[trigger] row[x]).0, c)) ==> forall|d: int|
            0 <= d < nfa.states@.len() + 1 ==> !(#[trigger] moved(nfa, src, c))[d]
}

/// The DFA is the subset construction of the NFA over the subsets `sets`.
pub open spec fn subset_dfa(nfa: &NFA, dfa: DFA, sets: Seq<Seq<bool>>) -> bool {
    &&& sets.len() == dfa.transitions@.len()
    &&& sets.len() > 0
    &&& is_closure(nfa, entry_set(nfa), sets[0])
    &&& forall|i: int| 0 <= i < sets.len() ==> (#[trigger] sets[i]).len() == nfa.states@.len() + 1
    &&& forall|i: int|
        0 <= i < sets.len() ==> #[trigger] dfa.transitions@[i].0 == sets[i][nfa.states@.len() as int]
    &&& forall|i: int| 0 <= i < sets.len() ==> row_ok(nfa, sets, sets[i], #[trigger] dfa.transitions@[i].1@)
    &&& distinct_of_len(sets, (nfa.states@.len() + 1) as nat)
}

/// State `a` is the target of a transition of some state `j < a`.
pub open spec fn reached_earlier(rows: Seq<(bool, Vec<(TransitionType, usize)>)>, a: int) -> bool {
    exists|j: int, x: int| 0 <= j < a && j < rows.len() && 0 <= x < rows[j].1@.len() && #[trigger] rows[j].1@[x].1 == a}

/// Every state but the entry is reached from a state found before it, as
/// breadth-first discovery numbers them.
pub open spec fn discovered_in_order(dfa: DFA) -> bool {
    forall|a: int| 1 <= a < dfa.transitions@.len() ==> #[trigger] reached_earlier(dfa.transitions@, a)
}

/// The union of the closures of the labels that consume `c` is the closure of
/// where the labels lead on `c`.
proof fn lemma_union_is_closure(
    nfa: &NFA,
    cur: Seq<bool>,
    labels: Seq<TransitionType>,
    dests: Seq<Seq<bool>>,
    c: u32,
)
    requires
        nfa.wf(),
        cur.len() == nfa.states@.len() + 1,
        labels.len() == dests.len(),
        covers_labels(nfa, cur, labels),
        forall|k: int| 0 <= k < dests.len() ==> is_closure(nfa, targets_of(nfa, cur, labels[k]), #[trigger] dests[k]),
    ensures
        is_closure(nfa, moved(nfa, cur, c), union_for(labels, dests, (nfa.states@.len() + 1) as nat, c)),
        !some_label_accepts(labels, c) ==> forall|d: int|
            0 <= d < nfa.states@.len() + 1 ==> !moved(nfa, cur, c)[d],
{
    let m = (nfa.states@.len() + 1) as nat;
    let mv = moved(nfa, cur, c);
    let un = union_for(labels, dests, m, c);
    assert forall|d: int| 0 <= d < m && #[trigger] mv[d] implies exists|k: int|
        0 <= k < labels.len() && transition_accepts(labels[k], c) && targets_of(nfa, cur, labels[k])[d] by {
        let (i, j) = choose|i: int, j: int| #[trigger] moves_to(nfa, cur, c, d, i, j);
        let t = edge(nfa, i, j).0->Some_0;
        assert(labels.contains(t));
        let k = choose|k: int| 0 <= k < labels.len() && labels[k] == t;
        assert(hit(nfa, cur, t, d, i, j));
        assert(targets_of(nfa, cur, labels[k])[d]);
    }
    assert forall|d: int| 0 <= d < m && #[trigger] mv[d] implies un[d] by {
        let k = choose|k: int|
            0 <= k < labels.len() && transition_accepts(labels[k], c) && targets_of(nfa, cur, labels[k])[d];
        assert(is_closure(nfa, targets_of(nfa, cur, labels[k]), dests[k]));
        assert(dests[k][d]);
    }
    assert(grows(mv, un));
    assert forall|i: int, j: int|
        #![trigger un[i], edge(nfa, i, j)]
        0 <= i < nfa.states@.len() && un[i] && 0 <= j < nfa.states@[i].transitions@.len() && edge(
            nfa,
            i,
            j,
        ).0 is None implies un[edge(nfa, i, j).1 as int] by {
        let k = choose|k: int| 0 <= k < labels.len() && transition_accepts(labels[k], c) && #[trigger] dests[k][i];
        assert(is_closure(nfa, targets_of(nfa, cur, labels[k]), dests[k]));
        assert(dests[k][edge(nfa, i, j).1 as int]);
        assert(nfa.wf());
        assert(edge(nfa, i, j).1 <= nfa.states@.len());
    }
    assert(eps_closed(nfa, un));
    assert forall|u: Seq<bool>| #[trigger] closed_superset(nfa, mv, u) implies grows(un, u) by {
        assert forall|b: int| 0 <= b < un.len() && #[trigger] un[b] implies u[b] by {
            let k = choose|k: int| 0 <= k < labels.len() && transition_accepts(labels[k], c) && #[trigger] dests[k][b];
            let tk = targets_of(nfa, cur, labels[k]);
            assert forall|d: int| 0 <= d < tk.len() && #[trigger] tk[d] implies u[d] by {
                let (i, j) = choose|i: int, j: int| #[trigger] hit(nfa, cur, labels[k], d, i, j);
                assert(moves_to(nfa, cur, c, d, i, j));
                assert(mv[d]);
            }
            assert(closed_superset(nfa, tk, u));
            assert(is_closure(nfa, tk, dests[k]));
        }
    }
    if !some_label_accepts(labels, c) {
        assert forall|d: int| 0 <= d < m implies !mv[d] by {
            if mv[d] {
                let k = choose|k: int|
                    0 <= k < labels.len() && transition_accepts(labels[k], c) && targets_of(nfa, cur, labels[k])[d];
                assert(transition_accepts(labels[k], c));
            }
        }
    }
}

/// On transitions with ascending disjoint intervals, the first one whose
/// label consumes `c` is the one whose interval holds `c`.
proof fn lemma_first_match_ascending(ts: Seq<(TransitionType, usize)>, c: u32)
    requires
        ascending_intervals(labels_of(ts)),
    ensures
        forall|x: int| 0 <= x < ts.len() && in_interval(ts[x].0, c) ==> first_match(ts, c) == Some(
            #[trigger] ts[x].1,
        ),
        (forall|x: int| 0 <= x < ts.len() ==> !in_interval((#[trigger] ts[x]).0, c)) ==> first_match(ts, c)
            is None,
    decreases ts.len(),
{
    if ts.len() > 0 {
        let rest = ts.drop_first();
        assert(labels_of(rest) =~= labels_of(ts).drop_first());
        assert forall|k: int| 0 <= k < labels_of(ts).len() implies labels_of(ts)[k] == (#[trigger] ts[k]).0 by {}
        assert(ascending_intervals(labels_of(rest))) by {
            assert forall|k: int| 0 <= k < rest.len() implies labels_of(rest)[k] == labels_of(ts)[k + 1] by {}
        }
        lemma_first_match_ascending(rest, c);
        assert(labels_of(ts)[0] == ts[0].0);
        assert(transition_accepts(ts[0].0, c) == in_interval(ts[0].0, c));
        assert forall|x: int| 0 <= x < ts.len() && in_interval(ts[x].0, c) implies first_match(ts, c) == Some(
            #[trigger] ts[x].1,
        ) by {
            if x > 0 {
                assert(labels_of(ts)[x] == ts[x].0);
                assert(interval(labels_of(ts)[0]).1 < interval(labels_of(ts)[x]).0);
                assert(rest[x - 1] == ts[x]);
            }
        }
        assert((forall|x: int| 0 <= x < ts.len() ==> !in_interval((#[trigger] ts[x]).0, c)) ==> first_match(ts, c)
            is None) by {
            if forall|x: int| 0 <= x < ts.len() ==> !in_interval((#[trigger] ts[x]).0, c) {
                assert forall|x: int| 0 <= x < rest.len() implies !in_interval((#[trigger] rest[x]).0, c) by {
                    assert(rest[x] == ts[x + 1]);
                }
                assert(!in_interval(ts[0].0, c));
            }
        }
    }
}

/// `row_ok` survives adding sets after the ones it speaks of.
proof fn lemma_row_ok_extend(
    nfa: &NFA,
    vs: Seq<Seq<bool>>,
    ws: Seq<Seq<bool>>,
    src: Seq<bool>,
    row: Seq<(TransitionType, usize)>,
)
    requires
        row_ok(nfa, vs, src, row),
        vs.len() <= ws.len(),
        forall|a: int| 0 <= a < vs.len() ==> #[trigger] ws[a] == vs[a],
    ensures
        row_ok(nfa, ws, src, row),
{
    assert forall|x: int, c: u32|
        0 <= x < row.len() && in_interval(row[x].0, c) implies is_closure(
        nfa,
        #[trigger] moved(nfa, src, c),
        ws[(#[trigger] row[x]).1 as int],
    ) by {
        assert(ws[row[x].1 as int] == vs[row[x].1 as int]);
    }
}

/// Determinizes an NFA by subset construction. Each DFA state stands for an
/// epsilon-closed set of NFA states, discovered breadth-first from the
/// closure of the entry; it accepts when its set holds the accepting
/// sentinel. The transitions of a state are cut into disjoint intervals of
/// codepoints, each leading to the closure of where the state's NFA states
/// move on them.
pub fn to_dfa(nfa: NFA) -> (dfa: DFA)
    requires
        nfa.wf(),
    ensures
        dfa.wf(),
        dfa.deterministic(),
        exists|sets: Seq<Seq<bool>>| subset_dfa(&nfa, dfa, sets),
        discovered_in_order(dfa),
        dfa.transitions@.len() <= vstd::arithmetic::power2::pow2((nfa.states@.len() + 1) as nat),
{
    let n = nfa.states.len();
    let mut start = empty_set(n);
    start.push(true);
    let m = start.len();
    if n > 0 {
        start.set(n, false);
        start.set(0, true);
    }
    assert(start@ =~= entry_set(&nfa));
    epsilon_close(&nfa, &mut start);
    let mut sets: Vec<Vec<bool>> = Vec::new();
    sets.push(start);
    let mut rows: Vec<(bool, Vec<(TransitionType, usize)>)> = Vec::new();
    let mut i: usize = 0;
    proof {
        assert(views(sets@) =~= seq![sets@[0]@]);
        lemma_distinct_bound(views(sets@), m as nat);
    }
    while i < sets.len()
        invariant
            n == nfa.states@.len(),
            m == n + 1,
            nfa.wf(),
            sets@.len() >= 1,
            i <= sets@.len(),
            rows@.len() == i,
            distinct_of_len(views(sets@), m as nat),
            sets@.len() <= vstd::arithmetic::power2::pow2(m as nat),
            is_closure(&nfa, entry_set(&nfa), views(sets@)[0]),
            forall|r: int| 0 <= r < rows@.len() ==> #[trigger] rows@[r].0 == views(sets@)[r][n as int],
            forall|r: int|
                0 <= r < rows@.len() ==> row_ok(&nfa, views(sets@), views(sets@)[r], #[trigger] rows@[r].1@),
            forall|a: int| 1 <= a < sets@.len() ==> #[trigger] reached_earlier(rows@, a),
        decreases vstd::arithmetic::power2::pow2(m as nat) - i,
    {
        let ghost vs0 = views(sets@);
        let ghost cur = vs0[i as int];
        assert(vs0[i as int] == sets@[i as int]@);
        let (merged_labels, merged_dests) = gather_transitions(&nfa, &sets[i]);
        let (labels, dests) = split_transitions(&merged_labels, &merged_dests, m);
        let mut row: Vec<(TransitionType, usize)> = Vec::new();
        let mut k: usize = 0;
        while k < labels.len()
            invariant
                n == nfa.states@.len(),
                m == n + 1,
                labels@.len() == dests@.len(),
                forall|x: int| 0 <= x < dests@.len() ==> (#[trigger] dests@[x])@.len() == m,
                i < vs0.len(),
                vs0.len() <= sets@.len(),
                forall|a: int| 0 <= a < vs0.len() ==> #[trigger] views(sets@)[a] == vs0[a],
                distinct_of_len(views(sets@), m as nat),
                k <= labels@.len(),
                row@.len() == k,
                forall|j: int|
                    0 <= j < k ==> (#[trigger] row@[j]).0 == labels@[j] && row@[j].1 < sets@.len()
                        && views(sets@)[row@[j].1 as int] == dests@[j]@,
                rows@.len() == i,
                forall|a: int|
                    1 <= a < sets@.len() ==> #[trigger] reached_earlier(rows@, a) || (i < a && exists|x: int|
                        0 <= x < row@.len() && row@[x].1 == a),
            decreases labels@.len() - k,
        {
            let ghost before = views(sets@);
            let idx = match find_set(&sets, &dests[k]) {
                Some(x) => {
                    assert(views(sets@)[x as int] == sets@[x as int]@);
                    x
                },
                None => {
                    let v = copy_bools(&dests[k]);
                    sets.push(v);
                    proof {
                        assert(views(sets@) =~= before.push(v@));
                        assert forall|a: int| 0 <= a < before.len() implies before[a] != v@ by {
                            assert(before[a] == sets@[a]@);
                        }
                    }
                    sets.len() - 1
                },
            };
            proof {
                assert forall|a: int| 0 <= a < before.len() implies #[trigger] views(sets@)[a] == before[a] by {}
            }
            let ghost old_row = row@;
            let ghost old_len = before.len();
            row.push((labels[k], idx));
            proof {
                assert(row@[k as int] == (labels@[k as int], idx));
                assert forall|a: int|
                    1 <= a < sets@.len() implies #[trigger] reached_earlier(rows@, a) || (i < a && exists|x: int|
                        0 <= x < row@.len() && row@[x].1 == a) by {
                    if a < old_len {
                        if !reached_earlier(rows@, a) {
                            let x = choose|x: int| 0 <= x < old_row.len() && old_row[x].1 == a;
                            assert(row@[x] == old_row[x]);
                        }
                    } else {
                        assert(a == idx);
                        assert(row@[k as int].1 == a);
                    }
                }
            }
            proof {
                assert forall|j: int|
                    0 <= j < k + 1 implies (#[trigger] row@[j]).0 == labels@[j] && row@[j].1 < sets@.len()
                        && views(sets@)[row@[j].1 as int] == dests@[j]@ by {
                    if j < k {
                        assert(row@[j] == old_row[j]);
                        assert(views(sets@)[row@[j].1 as int] == before[row@[j].1 as int]);
                    }
                }
            }
            k = k + 1;
        }
        let ghost vs = views(sets@);
        proof {
            assert(labels_of(row@) =~= labels@);
            assert forall|x: int, c: u32|
                0 <= x < row@.len() && in_interval(row@[x].0, c) implies is_closure(
                &nfa,
                #[trigger] moved(&nfa, cur, c),
                vs[(#[trigger] row@[x]).1 as int],
            ) by {
                assert(views(merged_dests@)[0] == merged_dests@[0]@ || merged_dests@.len() == 0);
                assert forall|q: int| 0 <= q < views(merged_dests@).len() implies is_closure(
                    &nfa,
                    targets_of(&nfa, cur, merged_labels@[q]),
                    #[trigger] views(merged_dests@)[q],
                ) by {
                    assert(views(merged_dests@)[q] == merged_dests@[q]@);
                }
                lemma_union_is_closure(&nfa, cur, merged_labels@, views(merged_dests@), c);
                assert(union_for(merged_labels@, views(merged_dests@), m as nat, c) == dests@[x]@);
            }
            assert forall|c: u32|
                (forall|x: int| 0 <= x < row@.len() ==> !in_interval((#[trigger] row@[x]).0, c)) implies forall|d: int|
                0 <= d < nfa.states@.len() + 1 ==> !(#[trigger] moved(&nfa, cur, c))[d] by {
                assert forall|x: int| 0 <= x < labels@.len() implies !(interval(#[trigger] labels@[x]).0 <= c
                    <= interval(labels@[x]).1) by {
                    assert(row@[x].0 == labels@[x]);
                }
                assert(!some_label_accepts(merged_labels@, c));
                assert forall|q: int| 0 <= q < views(merged_dests@).len() implies is_closure(
                    &nfa,
                    targets_of(&nfa, cur, merged_labels@[q]),
                    #[trigger] views(merged_dests@)[q],
                ) by {
                    assert(views(merged_dests@)[q] == merged_dests@[q]@);
                }
                lemma_union_is_closure(&nfa, cur, merged_labels@, views(merged_dests@), c);
            }
            assert(vs[i as int] == cur);
            assert(row_ok(&nfa, vs, cur, row@));
            assert forall|r: int| 0 <= r < rows@.len() implies row_ok(&nfa, vs, vs[r], #[trigger] rows@[r].1@) by {
                assert(vs[r] == vs0[r]);
                lemma_row_ok_extend(&nfa, vs0, vs, vs0[r], rows@[r].1@);
            }
        }
        assert(vs[i as int].len() == m);
        assert(vs[i as int] == sets@[i as int]@);
        let accepting = sets[i][n];
        let ghost old_rows = rows@;
        rows.push((accepting, row));
        proof {
            assert forall|a: int| 1 <= a < sets@.len() implies #[trigger] reached_earlier(rows@, a) by {
                if reached_earlier(old_rows, a) {
                    let (j, x) = choose|j: int, x: int|
                        0 <= j < a && j < old_rows.len() && 0 <= x < old_rows[j].1@.len() && #[trigger] old_rows[j].1@[x].1 == a;
                    assert(rows@[j] == old_rows[j]);
                    assert(rows@[j].1@[x].1 == a);
                } else {
                    let x = choose|x: int| 0 <= x < row@.len() && row@[x].1 == a;
                    assert(rows@[i as int].1@ == row@);
                    assert(rows@[i as int].1@[x].1 == a);
                }
            }
            assert forall|r: int| 0 <= r < rows@.len() implies #[trigger] rows@[r].0 == vs[r][n as int] by {
                if r < old_rows.len() {
                    assert(rows@[r] == old_rows[r]);
                    assert(vs[r] == vs0[r]);
                }
            }
            assert forall|r: int| 0 <= r < rows@.len() implies row_ok(&nfa, vs, vs[r], #[trigger] rows@[r].1@) by {
                if r < old_rows.len() {
                    assert(rows@[r] == old_rows[r]);
                }
            }
            assert(vs[0] == vs0[0]);
            lemma_distinct_bound(views(sets@), m as nat);
        }
        i = i + 1;
    }
    let dfa = DFA { transitions: rows };
    proof {
        let vs = views(sets@);
        assert forall|r: int| 0 <= r < vs.len() implies (#[trigger] vs[r]).len() == n + 1 by {}
        assert forall|r: int, j: int|
            0 <= r < dfa.transitions@.len() && 0 <= j < dfa.transitions@[r].1@.len() implies #[trigger] dfa.transitions@[r].1@[j].1
                < dfa.transitions@.len() by {
            assert(row_ok(&nfa, vs, vs[r], dfa.transitions@[r].1@));
        }
        assert forall|r: int| 0 <= r < dfa.transitions@.len() implies ascending_intervals(
            #[trigger] labels_of(dfa.transitions@[r].1@),
        ) by {
            assert(row_ok(&nfa, vs, vs[r], dfa.transitions@[r].1@));
        }
        assert(subset_dfa(&nfa, dfa, vs));
    }
    dfa
}

/// In a subset construction, the transition that state `i` takes on `c`
/// leads to the epsilon closure of where its NFA states move on `c`, and
/// there is none exactly when they move nowhere.
pub proof fn lemma_subset_dfa_step(nfa: &NFA, dfa: DFA, sets: Seq<Seq<bool>>, i: int, c: u32)
    requires
        subset_dfa(nfa, dfa, sets),
        0 <= i < sets.len(),
    ensures
        match first_match(dfa.transitions@[i].1@, c) {
            Some(d) => d < sets.len() && is_closure(nfa, moved(nfa, sets[i], c), sets[d as int]),
            None => forall|d: int| 0 <= d < nfa.states@.len() + 1 ==> !moved(nfa, sets[i], c)[d],
        },
{
    let row = dfa.transitions@[i].1@;
    assert(row_ok(nfa, sets, sets[i], row));
    lemma_first_match_ascending(row, c);
    if exists|x: int| 0 <= x < row.len() && in_interval(row[x].0, c) {
        let x = choose|x: int| 0 <= x < row.len() && in_interval(row[x].0, c);
        assert(first_match(row, c) == Some(row[x].1));
        assert(is_closure(nfa, moved(nfa, sets[i], c), sets[row[x].1 as int]));
    }
}

} // verus!
