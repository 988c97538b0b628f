//! Automata over packed codepoints: the NFA that a pattern lowers to, the
//! DFA that subset construction makes of it, and the matchers for both.
use vstd::prelude::*;
use vstd::string::StringSliceAdditionalSpecFns;
use crate::codepoint::{char_codes, char_to_utf8, codes_of, lemma_codes_of_encoding, next_char, pack, packed_utf8, step_width};
use crate::regex::{is_empty_chain, is_wildcard_star_chain, ChainedMatchable, Matchable, Repetition};

pub use crate::subset::to_dfa;

verus! {

broadcast use vstd::std_specs::vec::group_vec_axioms, vstd::seq::group_seq_axioms;

/// The label of a transition: which codepoints it consumes.
#[derive(Clone, Copy, PartialEq, Eq, Structural, Debug, Hash)]
pub enum TransitionType {
    Single(u32),
    /// Inclusive range.
    Range(u32, u32),
    /// Everything outside an inclusive range.
    ExcludeRange(u32, u32),
    Any,
}

pub open spec fn transition_accepts(t: TransitionType, c: u32) -> bool {
    match t {
        TransitionType::Single(a) => c == a,
        TransitionType::Range(a, b) => a <= c && c <= b,
        TransitionType::ExcludeRange(a, b) => c < a || b < c,
        TransitionType::Any => true,
    }
}

/// The inclusive interval a `Single` or `Range` label consumes.
pub open spec fn interval(t: TransitionType) -> (int, int) {
    match t {
        TransitionType::Single(a) => (a as int, a as int),
        TransitionType::Range(a, b) => (a as int, b as int),
        _ => (0, -1),
    }
}

/// `Single` or `Range` labels over non-empty intervals, each wholly below the
/// next; a label is `Single` exactly when its interval holds one codepoint.
pub open spec fn ascending_intervals(ts: Seq<TransitionType>) -> bool {
    &&& forall|k: int|
        0 <= k < ts.len() ==> (#[trigger] ts[k] is Single || ts[k] is Range) && interval(ts[k]).0
            <= interval(ts[k]).1 && (ts[k] is Single <==> interval(ts[k]).0 == interval(ts[k]).1)
    &&& forall|k: int, l: int|
        0 <= k < l < ts.len() ==> interval(#[trigger] ts[k]).1 < interval(#[trigger] ts[l]).0
}

/// `ExcludeRange(a, b)` consumes exactly what `Range(a, b)` does not.
pub proof fn lemma_exclude_range_complement(a: u32, b: u32, c: u32)
    ensures
        transition_accepts(TransitionType::ExcludeRange(a, b), c) == !transition_accepts(
            TransitionType::Range(a, b),
            c,
        ),
{
}

impl TransitionType {
    /// Whether this label consumes the codepoint `c`.
    pub fn accepts(&self, c: u32) -> (r: bool)
        ensures
            r == transition_accepts(*self, c),
    {
        match self {
            TransitionType::Single(a) => c == *a,
            TransitionType::Range(a, b) => *a <= c && c <= *b,
            TransitionType::ExcludeRange(a, b) => c < *a || *b < c,
            TransitionType::Any => true,
        }
    }
}

/// An NFA state: labelled and epsilon (`None`) transitions, each to a state index.
pub struct NFAState {
    pub transitions: Vec<(Option<TransitionType>, usize)>,
}

impl NFAState {
    pub fn add_transition(&mut self, t: Option<TransitionType>, d: usize)
        ensures
            final(self).transitions@ == old(self).transitions@.push((t, d)),
    {
        self.transitions.push((t, d))
    }
}

/// An NFA whose entry is state 0; the index one past the last state is the
/// accepting sentinel.
pub struct NFA {
    pub states: Vec<NFAState>,
}

/// Every transition of `states` leads to a state below `bound` or to `bound` itself.
pub open spec fn targets_within(states: Seq<NFAState>, bound: int) -> bool {
    forall|i: int, j: int|
        0 <= i < states.len() && 0 <= j < states[i].transitions@.len() ==> #[trigger] states[i].transitions@[j].1
            <= bound
}

/// Every bound `lo <= hi` below which `old` kept its states' targets, `new` keeps too.
pub open spec fn keeps_from(old: Seq<NFAState>, new: Seq<NFAState>, hi: int) -> bool {
    forall|lo: int| 0 <= lo <= hi && #[trigger] targets_from(old, lo) ==> targets_from(new, lo)
}

/// Every transition of a state from `lo` on leads to a state from `lo` on.
pub open spec fn targets_from(states: Seq<NFAState>, lo: int) -> bool {
    forall|i: int, j: int|
        lo <= i < states.len() && 0 <= j < states[i].transitions@.len() ==> #[trigger] states[i].transitions@[j].1
            >= lo
}

impl NFA {
    /// Every transition leads to a state or to the accepting sentinel.
    pub open spec fn wf(&self) -> bool {
        targets_within(self.states@, self.states@.len() as int)
    }
}

fn push_state(states: &mut Vec<NFAState>) -> (pos: usize)
    requires
        targets_within(old(states)@, old(states)@.len() as int),
    ensures
        pos == old(states)@.len(),
        final(states)@.len() == old(states)@.len() + 1,
        targets_within(final(states)@, final(states)@.len() as int),
        final(states)@[pos as int].transitions@.len() == 0,
        forall|a: int| 0 <= a < pos ==> #[trigger] final(states)@[a] == old(states)@[a],
        targets_within(final(states)@, pos as int),
        forall|lo: int| 0 <= lo && #[trigger] targets_from(old(states)@, lo) ==> targets_from(final(states)@, lo),
{
    let pos = states.len();
    states.push(NFAState { transitions: Vec::new() });
    proof {
        assert forall|i: int, j: int|
            0 <= i < states@.len() && 0 <= j < states@[i].transitions@.len() implies #[trigger] states@[i].transitions@[j].1
                <= states@.len() by {
            if i < pos {
                assert(states@[i] == old(states)@[i]);
            }
        }
        assert forall|lo: int| 0 <= lo && #[trigger] targets_from(old(states)@, lo) implies targets_from(
            states@,
            lo,
        ) by {
            assert forall|i: int, j: int|
                lo <= i < states@.len() && 0 <= j < states@[i].transitions@.len() implies #[trigger] states@[i].transitions@[j].1
                    >= lo by {
                if i < pos {
                    assert(states@[i] == old(states)@[i]);
                }
            }
        }
    }
    pos
}

fn add_edge(states: &mut Vec<NFAState>, i: usize, t: Option<TransitionType>, d: usize)
    requires
        targets_within(old(states)@, old(states)@.len() as int),
        i < old(states)@.len(),
        d <= old(states)@.len(),
    ensures
        final(states)@.len() == old(states)@.len(),
        targets_within(final(states)@, final(states)@.len() as int),
        final(states)@[i as int].transitions@ == old(states)@[i as int].transitions@.push((t, d)),
        forall|a: int| 0 <= a < old(states)@.len() && a != i ==> #[trigger] final(states)@[a] == old(states)@[a],
        forall|lo: int| 0 <= lo <= d && #[trigger] targets_from(old(states)@, lo) ==> targets_from(final(states)@, lo),
        forall|hi: int| d <= hi && #[trigger] targets_within(old(states)@, hi) ==> targets_within(final(states)@, hi),
{
    states[i].add_transition(t, d);
    proof {
        assert forall|a: int, b: int|
            0 <= a < states@.len() && 0 <= b < states@[a].transitions@.len() implies #[trigger] states@[a].transitions@[b].1
                <= states@.len() by {
            if a != i {
                assert(states@[a] == old(states)@[a]);
            } else if b < old(states)@[a].transitions@.len() {
                assert(states@[a].transitions@[b] == old(states)@[a].transitions@[b]);
            }
        }
        assert forall|lo: int| 0 <= lo <= d && #[trigger] targets_from(old(states)@, lo) implies targets_from(
            states@,
            lo,
        ) by {
            assert forall|a: int, b: int|
                lo <= a < states@.len() && 0 <= b < states@[a].transitions@.len() implies #[trigger] states@[a].transitions@[b].1
                    >= lo by {
                if a != i {
                    assert(states@[a] == old(states)@[a]);
                } else if b < old(states)@[a].transitions@.len() {
                    assert(states@[a].transitions@[b] == old(states)@[a].transitions@[b]);
                }
            }
        }
        assert forall|hi: int| d <= hi && #[trigger] targets_within(old(states)@, hi) implies targets_within(
            states@,
            hi,
        ) by {
            assert forall|a: int, b: int|
                0 <= a < states@.len() && 0 <= b < states@[a].transitions@.len() implies #[trigger] states@[a].transitions@[b].1
                    <= hi by {
                if a != i {
                    assert(states@[a] == old(states)@[a]);
                } else if b < old(states)@[a].transitions@.len() {
                    assert(states@[a].transitions@[b] == old(states)@[a].transitions@[b]);
                }
            }
        }
    }
}


/// How a repetition unrolls: the number of copies, the first and last copy
/// count that accept, and whether the last copy may repeat (its end loops
/// back to its own entry). `AtLeast(0)` unrolls one copy, as `Any` does.
fn repetition_plan(r: &Repetition) -> (p: (usize, usize, usize, bool))
    ensures
        p.2 <= p.0,
        *r == Repetition::LessThanEq(0) ==> p == (0usize, 0usize, 0usize, false),
        *r == Repetition::Any ==> p == (1usize, 0usize, 1usize, true),
        p.3 ==> p.0 >= 1,
{
    match r {
        Repetition::One => (1, 1, 1, false),
        Repetition::Any => (1, 0, 1, true),
        Repetition::AtLeast(x) => {
            let n = *x as usize;
            if n == 0 {
                (1, 0, 1, true)
            } else {
                (n, n, n, true)
            }
        },
        Repetition::LessThanEq(x) => (*x as usize, 0, *x as usize, false),
        Repetition::Range(x, y) => (*y as usize, *x as usize, *y as usize, false),
    }
}

/// The inclusive codepoint interval of a class unit, if it has one.
fn unit_interval(m: &Matchable) -> (r: Option<(u32, u32)>) {
    match m {
        Matchable::Char(c) => {
            let p = char_to_utf8(*c);
            Some((p, p))
        },
        Matchable::Range(a, b) => {
            let lo = char_to_utf8(*a);
            let hi = char_to_utf8(*b);
            if lo <= hi {
                Some((lo, hi))
            } else {
                None
            }
        },
        Matchable::Any => Some((0, u32::MAX)),
        Matchable::Subexpression(_) => None,
    }
}

/// The intervals of codepoints that none of `units` consumes, in ascending
/// order. A group has no codepoint set of its own and removes nothing.
fn complement_gaps(units: &Vec<Matchable>) -> (gaps: Vec<(u32, u32)>)
    ensures
        forall|k: int| 0 <= k < gaps@.len() ==> (#[trigger] gaps@[k]).0 <= gaps@[k].1,
{
    let mut ivs: Vec<(u32, u32)> = Vec::new();
    let mut u: usize = 0;
    while u < units.len()
        invariant
            u <= units@.len(),
            forall|k: int| 0 <= k < ivs@.len() ==> (#[trigger] ivs@[k]).0 <= ivs@[k].1,
        decreases units@.len() - u,
    {
        match unit_interval(&units[u]) {
            Some(iv) => {
                if iv.0 <= iv.1 {
                    ivs.push(iv);
                }
            },
            None => {},
        }
        u = u + 1;
    }
    let mut gaps: Vec<(u32, u32)> = Vec::new();
    let mut cur: u32 = 0;
    loop
        invariant
            forall|k: int| 0 <= k < ivs@.len() ==> (#[trigger] ivs@[k]).0 <= ivs@[k].1,
            forall|k: int| 0 <= k < gaps@.len() ==> (#[trigger] gaps@[k]).0 <= gaps@[k].1,
        decreases u32::MAX - cur,
    {
        let mut top: Option<u32> = None;
        let mut next_lo: Option<u32> = None;
        let mut k: usize = 0;
        while k < ivs.len()
            invariant
                k <= ivs@.len(),
                top is Some ==> top->Some_0 >= cur,
                next_lo is Some ==> next_lo->Some_0 > cur,
            decreases ivs@.len() - k,
        {
            let (lo, hi) = ivs[k];
            if lo <= cur && cur <= hi {
                top = match top {
                    Some(t) => if hi > t {
                        Some(hi)
                    } else {
                        Some(t)
                    },
                    None => Some(hi),
                };
            } else if lo > cur {
                next_lo = match next_lo {
                    Some(l) => if lo < l {
                        Some(lo)
                    } else {
                        Some(l)
                    },
                    None => Some(lo),
                };
            }
            k = k + 1;
        }
        match top {
            Some(t) => {
                if t == u32::MAX {
                    break;
                }
                cur = t + 1;
            },
            None => match next_lo {
                Some(l) => {
                    gaps.push((cur, l - 1));
                    cur = l;
                },
                None => {
                    gaps.push((cur, u32::MAX));
                    break;
                },
            },
        }
    }
    gaps
}

/// One copy of a negated class: an entry reached from `prev` by an epsilon
/// step, and from it a labelled step over each gap between the members to a
/// fresh success state, whose index is returned.
fn complement_step(states: &mut Vec<NFAState>, prev: usize, units: &Vec<Matchable>) -> (success: usize)
    requires
        targets_within(old(states)@, old(states)@.len() as int),
        prev < old(states)@.len(),
    ensures
        final(states)@.len() == old(states)@.len() + 2,
        success == old(states)@.len() + 1,
        targets_within(final(states)@, final(states)@.len() as int),
        forall|a: int|
            0 <= a < old(states)@.len() && a != prev ==> #[trigger] final(states)@[a] == old(states)@[a],
        final(states)@[success as int].transitions@.len() == 0,
        targets_within(final(states)@, success as int),
        targets_from(final(states)@, old(states)@.len() as int),
        keeps_from(old(states)@, final(states)@, old(states)@.len() as int),
{
    let ghost base = states@;
    let entry = push_state(states);
    let success = push_state(states);
    add_edge(states, prev, None, entry);
    let gaps = complement_gaps(units);
    let mut k: usize = 0;
    while k < gaps.len()
        invariant
            targets_within(states@, states@.len() as int),
            states@.len() == base.len() + 2,
            entry == base.len(),
            success == base.len() + 1,
            prev < base.len(),
            forall|a: int| 0 <= a < base.len() && a != prev ==> #[trigger] states@[a] == base[a],
            states@[success as int].transitions@.len() == 0,
            targets_within(states@, success as int),
            targets_from(states@, base.len() as int),
            keeps_from(base, states@, base.len() as int),
        decreases gaps@.len() - k,
    {
        let (lo, hi) = gaps[k];
        add_edge(states, entry, Some(TransitionType::Range(lo, hi)), success);
        k = k + 1;
    }
    success
}

/// Lowers one link and everything after it, appending states from index
/// `states.len()` on (the link's entry); returns the states that finish it.
fn recursive_nfa(section: &ChainedMatchable, states: &mut Vec<NFAState>) -> (ends: Vec<usize>)
    requires
        targets_within(old(states)@, old(states)@.len() as int),
    ensures
        targets_within(final(states)@, final(states)@.len() as int),
        final(states)@.len() > old(states)@.len(),
        forall|k: int| 0 <= k < ends@.len() ==> #[trigger] ends@[k] < final(states)@.len(),
        ends@.len() == 1,
        old(states)@.len() <= ends@[0] < final(states)@.len(),
        ends@ == seq![(final(states)@.len() - 1) as usize],
        final(states)@[final(states)@.len() - 1].transitions@.len() == 0,
        targets_within(final(states)@, final(states)@.len() - 1),
        targets_from(final(states)@, old(states)@.len() as int),
        keeps_from(old(states)@, final(states)@, old(states)@.len() as int),
        forall|a: int| 0 <= a < old(states)@.len() ==> #[trigger] final(states)@[a] == old(states)@[a],
        is_empty_chain(*section) ==> {
            let b = old(states)@.len() as int;
            &&& final(states)@.len() == b + 2
            &&& final(states)@[b].transitions@ == seq![(None::<TransitionType>, (b + 1) as usize)]
            &&& final(states)@[b + 1].transitions@.len() == 0
            &&& ends@ == seq![(b + 1) as usize]
        },
        is_wildcard_star_chain(*section) ==> {
            let b = old(states)@.len() as int;
            &&& final(states)@.len() == b + 5
            &&& final(states)@[b].transitions@ == seq![
                (None::<TransitionType>, (b + 1) as usize),
                (None::<TransitionType>, (b + 4) as usize),
            ]
            &&& final(states)@[b + 1].transitions@ == seq![(Some(TransitionType::Any), (b + 2) as usize)]
            &&& final(states)@[b + 2].transitions@ == seq![(None::<TransitionType>, (b + 3) as usize)]
            &&& final(states)@[b + 3].transitions@ == seq![
                (None::<TransitionType>, b as usize),
                (None::<TransitionType>, (b + 4) as usize),
            ]
            &&& final(states)@[b + 4].transitions@.len() == 0
            &&& ends@ == seq![(b + 4) as usize]
        },
    decreases section,
{
    let inverted = section.matchables.inverted;
    let start = push_state(states);
    let ghost after_start = states@;
    let (repeats, acc_lo, acc_hi, loops) = repetition_plan(&section.repetition);
    let mut success_states: Vec<usize> = Vec::new();
    success_states.push(start);
    let mut prev = start;
    let mut r: usize = 0;
    while r < repeats
        invariant
            targets_within(states@, states@.len() as int),
            states@.len() > old(states)@.len(),
            repeats == 0 ==> states@ == after_start && success_states@ == seq![start] && prev == start,
            start == old(states)@.len(),
            targets_from(states@, start as int),
            keeps_from(old(states)@, states@, start as int),
            forall|a: int| 0 <= a < start ==> #[trigger] states@[a] == old(states)@[a],
            start <= prev < states@.len(),
            after_start[start as int].transitions@.len() == 0,
            after_start.len() == start + 1,
            inverted == section.matchables.inverted,
            is_wildcard_star_chain(*section) ==> {
                &&& repeats == 1 && r <= 1
                &&& (r == 0 ==> states@ == after_start && success_states@ == seq![start] && prev == start)
                &&& (r == 1 ==> {
                    &&& states@.len() == start + 4
                    &&& states@[start as int].transitions@ == seq![(None::<TransitionType>, (start + 1) as usize)]
                    &&& states@[start + 1].transitions@ == seq![(Some(TransitionType::Any), (start + 2) as usize)]
                    &&& states@[start + 2].transitions@ == seq![(None::<TransitionType>, (start + 3) as usize)]
                    &&& states@[start + 3].transitions@.len() == 0
                    &&& success_states@ == seq![start, (start + 3) as usize]
                    &&& prev == start + 3
                })
            },
            forall|k: int| 0 <= k < success_states@.len() ==> #[trigger] success_states@[k] >= start,
            success_states@.len() == r + 1,
            forall|k: int|
                0 <= k < success_states@.len() ==> #[trigger] success_states@[k] < states@.len(),
        decreases repeats - r,
    {
        let mut unit_ends: Vec<usize> = Vec::new();
        let mut u: usize = 0;
        while !inverted && u < section.matchables.matchable.matchables.len()
            invariant
                targets_within(states@, states@.len() as int),
                states@.len() > old(states)@.len(),
                prev < states@.len(),
                success_states@.len() == r + 1,
                forall|k: int|
                    0 <= k < success_states@.len() ==> #[trigger] success_states@[k] < states@.len(),
                forall|k: int| 0 <= k < unit_ends@.len() ==> #[trigger] unit_ends@[k] < states@.len(),
                start == old(states)@.len(),
                targets_from(states@, start as int),
                keeps_from(old(states)@, states@, start as int),
                    forall|a: int| 0 <= a < start ==> #[trigger] states@[a] == old(states)@[a],
                start <= prev,
                forall|k: int| 0 <= k < success_states@.len() ==> #[trigger] success_states@[k] >= start,
                forall|k: int| 0 <= k < unit_ends@.len() ==> #[trigger] unit_ends@[k] >= start,
                after_start[start as int].transitions@.len() == 0,
                after_start.len() == start + 1,
                is_wildcard_star_chain(*section) ==> {
                    &&& r == 0 && prev == start && success_states@ == seq![start] && u <= 1
                    &&& (u == 0 ==> states@ == after_start && unit_ends@.len() == 0)
                    &&& (u == 1 ==> {
                        &&& states@.len() == start + 3
                        &&& states@[start as int].transitions@ == seq![(None::<TransitionType>, (start + 1) as usize)]
                        &&& states@[start + 1].transitions@ == seq![(Some(TransitionType::Any), (start + 2) as usize)]
                        &&& states@[start + 2].transitions@.len() == 0
                        &&& unit_ends@ == seq![(start + 2) as usize]
                    })
                },
            decreases section.matchables.matchable.matchables@.len() - u,
        {
            let entry = states.len();
            let ghost before_edge = states@;
            add_edge(states, prev, None, entry);
            let ghost after_edge = states@;
            proof {
                let m = section.matchables.matchable.matchables;
                vstd::std_specs::vec::axiom_vec_index_decreases(m, u as int);
                assert(decreases_to!(section.matchables.matchable => m));
                assert(decreases_to!(*section => section.matchables.matchable));
            }
            let ends = matchable_nfa(&section.matchables.matchable.matchables[u], states);
            proof {
                if is_wildcard_star_chain(*section) {
                    assert(after_edge[start as int].transitions@ =~= seq![(None::<TransitionType>, (start + 1) as usize)]);
                    assert(unit_label(Matchable::Any) == Some(TransitionType::Any));
                    assert(states@[start as int] == after_edge[start as int]);
                }
            }
            let ghost units_before = unit_ends@;
            let mut k: usize = 0;
            while k < ends.len()
                invariant
                    k <= ends@.len(),
                    forall|x: int| 0 <= x < ends@.len() ==> #[trigger] ends@[x] < states@.len(),
                    forall|x: int| 0 <= x < unit_ends@.len() ==> #[trigger] unit_ends@[x] < states@.len(),
                    ends@.len() == 1,
                    ends@[0] >= start,
                    forall|x: int| 0 <= x < unit_ends@.len() ==> #[trigger] unit_ends@[x] >= start,
                    unit_ends@ == units_before + ends@.subrange(0, k as int),
                decreases ends@.len() - k,
            {
                unit_ends.push(ends[k]);
                k = k + 1;
                assert(unit_ends@ =~= units_before + ends@.subrange(0, k as int));
            }
            assert(ends@.subrange(0, ends@.len() as int) =~= ends@);
            u = u + 1;
        }
        let success: usize;
        if inverted {
            success = complement_step(states, prev, &section.matchables.matchable.matchables);
        } else {
            success = states.len();
            let mut k: usize = 0;
            while k < unit_ends.len()
                invariant
                    targets_within(states@, states@.len() as int),
                    states@.len() == success,
                    forall|x: int| 0 <= x < unit_ends@.len() ==> #[trigger] unit_ends@[x] < states@.len(),
                    forall|x: int| 0 <= x < unit_ends@.len() ==> #[trigger] unit_ends@[x] >= start,
                    start == old(states)@.len(),
                    targets_from(states@, start as int),
                    keeps_from(old(states)@, states@, start as int),
                    forall|a: int| 0 <= a < start ==> #[trigger] states@[a] == old(states)@[a],
                    is_wildcard_star_chain(*section) ==> {
                        &&& success == start + 3 && k <= 1
                        &&& unit_ends@ == seq![(start + 2) as usize]
                        &&& states@[start as int].transitions@ == seq![(None::<TransitionType>, (start + 1) as usize)]
                        &&& states@[start + 1].transitions@ == seq![(Some(TransitionType::Any), (start + 2) as usize)]
                        &&& (k == 0 ==> states@[start + 2].transitions@.len() == 0)
                        &&& (k == 1 ==> states@[start + 2].transitions@ == seq![(None::<TransitionType>, (start + 3) as usize)])
                    },
                decreases unit_ends@.len() - k,
            {
                let ghost before = states@;
                add_edge(states, unit_ends[k], None, success);
                proof {
                    if is_wildcard_star_chain(*section) {
                        assert(states@[start as int] == before[start as int]);
                        assert(states@[start + 1] == before[start + 1]);
                        assert(states@[start + 2].transitions@ =~= seq![(None::<TransitionType>, (start + 3) as usize)]);
                    }
                }
                k = k + 1;
            }
            let ghost before_push = states@;
            push_state(states);
            proof {
                if is_wildcard_star_chain(*section) {
                    assert(states@[start as int] == before_push[start as int]);
                    assert(states@[start + 1] == before_push[start + 1]);
                    assert(states@[start + 2] == before_push[start + 2]);
                }
            }
        }
        success_states.push(success);
        proof {
            if is_wildcard_star_chain(*section) {
                assert(success_states@ =~= seq![start, (start + 3) as usize]);
            }
        }
        prev = success;
        r = r + 1;
    }
    let ghost before_loop = states@;
    if loops {
        let back = success_states[success_states.len() - 2];
        add_edge(states, prev, None, back);
    }
    proof {
        if is_wildcard_star_chain(*section) {
            assert(states@[start as int] == before_loop[start as int]);
            assert(states@[start + 1] == before_loop[start + 1]);
            assert(states@[start + 2] == before_loop[start + 2]);
            assert(states@[start + 3].transitions@ =~= seq![(None::<TransitionType>, (start) as usize)]);
        }
    }
    let ghost before_finish = states@;
    let finish = push_state(states);
    let ghost after_finish = states@;
    let mut i = acc_lo;
    while i <= acc_hi && i < success_states.len()
        invariant
            targets_within(states@, states@.len() as int),
            finish < states@.len(),
            start < finish,
            states@.len() == finish + 1,
            states@[finish as int].transitions@.len() == 0,
            targets_within(states@, finish as int),
            forall|k: int| 0 <= k < success_states@.len() ==> #[trigger] success_states@[k] < finish,
            start == old(states)@.len(),
            targets_from(states@, start as int),
            keeps_from(old(states)@, states@, start as int),
            forall|a: int| 0 <= a < start ==> #[trigger] states@[a] == old(states)@[a],
            forall|k: int| 0 <= k < success_states@.len() ==> #[trigger] success_states@[k] >= start,
            is_wildcard_star_chain(*section) ==> {
                &&& success_states@ == seq![start, (start + 3) as usize]
                &&& acc_lo == 0 && acc_hi == 1
                &&& finish == start + 4
                &&& states@.len() == start + 5
                &&& i <= 2
                &&& states@[start + 1].transitions@ == seq![(Some(TransitionType::Any), (start + 2) as usize)]
                &&& states@[start + 2].transitions@ == seq![(None::<TransitionType>, (start + 3) as usize)]
                &&& states@[start + 4].transitions@.len() == 0
                &&& (i == 0 ==> states@[start as int].transitions@ == seq![(None::<TransitionType>, (start + 1) as usize)])
                &&& (i >= 1 ==> states@[start as int].transitions@ == seq![(None::<TransitionType>, (start + 1) as usize), (None::<TransitionType>, (start + 4) as usize)])
                &&& (i <= 1 ==> states@[start + 3].transitions@ == seq![(None::<TransitionType>, (start) as usize)])
                &&& (i == 2 ==> states@[start + 3].transitions@ == seq![(None::<TransitionType>, (start) as usize), (None::<TransitionType>, (start + 4) as usize)])
            },
            is_empty_chain(*section) ==> {
                &&& success_states@ == seq![start]
                &&& acc_lo == 0 && acc_hi == 0
                &&& finish == start + 1
                &&& states@.len() == start + 2
                &&& i <= 1
                &&& states@[start + 1].transitions@.len() == 0
                &&& (i == 0 ==> states@[start as int].transitions@.len() == 0)
                &&& (i == 1 ==> states@[start as int].transitions@ == seq![(None::<TransitionType>, finish)])
            },
            forall|k: int|
                0 <= k < success_states@.len() ==> #[trigger] success_states@[k] < states@.len(),
        decreases success_states@.len() - i,
    {
        let ghost before = states@;
        add_edge(states, success_states[i], None, finish);
        assert(states@[finish as int] == before[finish as int]);
        proof {
            if is_empty_chain(*section) {
                assert(states@[start + 1] == before[start + 1]);
                assert(states@[start as int].transitions@ =~= seq![(None::<TransitionType>, finish)]);
            }
            if is_wildcard_star_chain(*section) {
                assert(states@[start + 1] == before[start + 1]);
                assert(states@[start + 2] == before[start + 2]);
                assert(states@[start + 4] == before[start + 4]);
                if i == 0 {
                    assert(states@[start + 3] == before[start + 3]);
                    assert(states@[start as int].transitions@ =~= seq![(None::<TransitionType>, (start + 1) as usize), (None::<TransitionType>, (start + 4) as usize)]);
                } else {
                    assert(states@[start as int] == before[start as int]);
                    assert(states@[start + 3].transitions@ =~= seq![(None::<TransitionType>, (start) as usize), (None::<TransitionType>, (start + 4) as usize)]);
                }
            }
        }
        i = i + 1;
    }
    proof {
        if is_empty_chain(*section) {
            assert(after_start[start as int].transitions@.len() == 0);
            assert(before_finish == after_start);
            assert(after_finish[start as int] == before_finish[start as int]);
        }
        if is_wildcard_star_chain(*section) {
            assert(after_finish[start as int] == before_finish[start as int]);
            assert(after_finish[start + 1] == before_finish[start + 1]);
            assert(after_finish[start + 2] == before_finish[start + 2]);
            assert(after_finish[start + 3] == before_finish[start + 3]);
        }
    }
    match &section.next {
        Some(n) => {
            let entry = states.len();
            add_edge(states, finish, None, entry);
            recursive_nfa(n, states)
        },
        None => {
            let mut ends: Vec<usize> = Vec::new();
            ends.push(finish);
            assert(ends@ =~= seq![finish]);
            ends
        },
    }
}

/// The label of the step a single unit lowers to (`None` for a group).
pub open spec fn unit_label(m: Matchable) -> Option<TransitionType> {
    match m {
        Matchable::Char(c) => Some(TransitionType::Single(packed_utf8(c))),
        Matchable::Range(a, b) => Some(TransitionType::Range(packed_utf8(a), packed_utf8(b))),
        Matchable::Any => Some(TransitionType::Any),
        Matchable::Subexpression(_) => None,
    }
}

/// Lowers one unit: a labelled step between two fresh states, or a nested group.
fn matchable_nfa(matchable: &Matchable, states: &mut Vec<NFAState>) -> (ends: Vec<usize>)
    requires
        targets_within(old(states)@, old(states)@.len() as int),
    ensures
        targets_within(final(states)@, final(states)@.len() as int),
        final(states)@.len() > old(states)@.len(),
        forall|k: int| 0 <= k < ends@.len() ==> #[trigger] ends@[k] < final(states)@.len(),
        ends@.len() == 1,
        old(states)@.len() <= ends@[0] < final(states)@.len(),
        ends@ == seq![(final(states)@.len() - 1) as usize],
        final(states)@[final(states)@.len() - 1].transitions@.len() == 0,
        targets_within(final(states)@, final(states)@.len() - 1),
        targets_from(final(states)@, old(states)@.len() as int),
        keeps_from(old(states)@, final(states)@, old(states)@.len() as int),
        forall|a: int| 0 <= a < old(states)@.len() ==> #[trigger] final(states)@[a] == old(states)@[a],
        unit_label(*matchable) is Some ==> {
            let b = old(states)@.len() as int;
            &&& final(states)@.len() == b + 2
            &&& final(states)@[b].transitions@ == seq![(unit_label(*matchable), (b + 1) as usize)]
            &&& final(states)@[b + 1].transitions@.len() == 0
            &&& ends@[0] == b + 1
        },
    decreases matchable,
{
    let t = match matchable {
        Matchable::Char(c) => TransitionType::Single(char_to_utf8(*c)),
        Matchable::Range(a, b) => TransitionType::Range(char_to_utf8(*a), char_to_utf8(*b)),
        Matchable::Any => TransitionType::Any,
        Matchable::Subexpression(s) => {
            return recursive_nfa(s, states);
        },
    };
    let ghost base = states@;
    let entry = push_state(states);
    let success = push_state(states);
    let ghost pushed = states@;
    add_edge(states, entry, Some(t), success);
    proof {
        assert(states@[entry as int].transitions@ =~= seq![(Some(t), success)]);
        assert(states@[success as int] == pushed[success as int]);
        assert forall|a: int| 0 <= a < base.len() implies #[trigger] states@[a] == base[a] by {
            assert(states@[a] == pushed[a]);
        }
    }
    let mut ends: Vec<usize> = Vec::new();
    ends.push(success);
    ends
}

/// The NFA that the empty pattern lowers to: an epsilon step from the entry
/// to a second state, and one from there to the accepting sentinel.
pub open spec fn empty_pattern_nfa(nfa: &NFA) -> bool {
    &&& nfa.states@.len() == 2
    &&& nfa.states@[0].transitions@ == seq![(None::<TransitionType>, 1usize)]
    &&& nfa.states@[1].transitions@ == seq![(None::<TransitionType>, 2usize)]
}

/// The NFA that a wildcard repeated any number of times lowers to: the entry
/// steps to the wildcard or to the exit, the wildcard's target loops back to
/// the entry or goes to the exit, and the exit steps to the accepting sentinel.
pub open spec fn wildcard_star_nfa(nfa: &NFA) -> bool {
    &&& nfa.states@.len() == 5
    &&& nfa.states@[0].transitions@ == seq![(None::<TransitionType>, 1usize), (None::<TransitionType>, 4usize)]
    &&& nfa.states@[1].transitions@ == seq![(Some(TransitionType::Any), 2usize)]
    &&& nfa.states@[2].transitions@ == seq![(None::<TransitionType>, 3usize)]
    &&& nfa.states@[3].transitions@ == seq![(None::<TransitionType>, 0usize), (None::<TransitionType>, 4usize)]
    &&& nfa.states@[4].transitions@ == seq![(None::<TransitionType>, 5usize)]
}

/// The last state is the pattern's exit: its one transition is an epsilon
/// step to the accepting sentinel, and no other transition reaches the sentinel.
pub open spec fn exit_to_sentinel(nfa: &NFA) -> bool {
    let n = nfa.states@.len() as int;
    &&& n >= 1
    &&& nfa.states@[n - 1].transitions@ == seq![(None::<TransitionType>, n as usize)]
    &&& forall|i: int, j: int|
        0 <= i < n - 1 && 0 <= j < nfa.states@[i].transitions@.len() ==> #[trigger] nfa.states@[i].transitions@[j].1
            < n
}

/// Lowers a parsed pattern to an NFA: entry at state 0, and every state that
/// finishes the pattern steps by epsilon to the accepting sentinel.
pub fn to_nfa(regex: ChainedMatchable) -> (nfa: NFA)
    ensures
        nfa.wf(),
        nfa.states@.len() > 0,
        exit_to_sentinel(&nfa),
        is_empty_chain(regex) ==> empty_pattern_nfa(&nfa),
        is_wildcard_star_chain(regex) ==> wildcard_star_nfa(&nfa),
{
    let mut states: Vec<NFAState> = Vec::new();
    let ends = recursive_nfa(&regex, &mut states);
    let exit = ends[0];
    let sentinel = states.len();
    let ghost before = states@;
    add_edge(&mut states, exit, None, sentinel);
    proof {
        assert(states@[exit as int].transitions@ =~= seq![(None::<TransitionType>, sentinel)]);
        assert forall|i: int, j: int|
            0 <= i < sentinel - 1 && 0 <= j < states@[i].transitions@.len() implies #[trigger] states@[i].transitions@[j].1
                < sentinel by {
            assert(states@[i] == before[i]);
        }
        if is_empty_chain(regex) {
            assert(states@[0] == before[0]);
        }
        if is_wildcard_star_chain(regex) {
            assert(states@[0] == before[0]);
            assert(states@[1] == before[1]);
            assert(states@[2] == before[2]);
            assert(states@[3] == before[3]);
        }
    }
    NFA { states }
}


/// A DFA: for each state, whether it accepts and its labelled transitions,
/// tried in order. State 0 is the entry.
pub struct DFA {
    pub transitions: Vec<(bool, Vec<(TransitionType, usize)>)>,
}

impl DFA {
    /// There is an entry state and every transition leads to a state.
    pub open spec fn wf(&self) -> bool {
        &&& self.transitions@.len() > 0
        &&& forall|i: int, j: int|
            0 <= i < self.transitions@.len() && 0 <= j < self.transitions@[i].1@.len()
                ==> #[trigger] self.transitions@[i].1@[j].1 < self.transitions@.len()
    }
}

/// The labels of a list of transitions.
pub open spec fn labels_of(ts: Seq<(TransitionType, usize)>) -> Seq<TransitionType> {
    ts.map_values(|e: (TransitionType, usize)| e.0)
}

impl DFA {
    /// The labels of each state are disjoint intervals in ascending order, so
    /// at most one transition consumes any codepoint.
    pub open spec fn deterministic(&self) -> bool {
        forall|i: int|
            0 <= i < self.transitions@.len() ==> ascending_intervals(
                #[trigger] labels_of(self.transitions@[i].1@),
            )
    }
}

/// Destination of the first transition in `ts` that consumes `c`.
pub open spec fn first_match(ts: Seq<(TransitionType, usize)>, c: u32) -> Option<usize>
    decreases ts.len(),
{
    if ts.len() == 0 {
        None
    } else if transition_accepts(ts[0].0, c) {
        Some(ts[0].1)
    } else {
        first_match(ts.drop_first(), c)
    }
}

/// Whether the DFA, started in `state`, accepts the codepoints `codes`: it
/// follows the first matching transition for each codepoint, rejects when
/// none matches, and at the end answers with the state's accepting flag.
pub open spec fn dfa_accepts_from(dfa: DFA, state: int, codes: Seq<u32>) -> bool
    decreases codes.len(),
{
    if state < 0 || state >= dfa.transitions@.len() {
        false
    } else if codes.len() == 0 {
        dfa.transitions@[state].0
    } else {
        match first_match(dfa.transitions@[state].1@, codes[0]) {
            Some(next) => dfa_accepts_from(dfa, next as int, codes.drop_first()),
            None => false,
        }
    }
}

/// Whether the DFA accepts the whole of `s`.
pub open spec fn dfa_accepts(dfa: DFA, s: Seq<u8>) -> bool {
    dfa_accepts_from(dfa, 0, codes_of(s))
}

proof fn lemma_codes_step(bytes: Seq<u8>, pos: int)
    requires
        0 <= pos < bytes.len(),
    ensures
        pos + step_width(bytes, pos) <= bytes.len(),
        codes_of(bytes.subrange(pos, bytes.len() as int)) == seq![
            pack(bytes, pos, step_width(bytes, pos)),
        ] + codes_of(bytes.subrange(pos + step_width(bytes, pos), bytes.len() as int)),
{
    let rest = bytes.subrange(pos, bytes.len() as int);
    let w = step_width(bytes, pos);
    assert(rest[0] == bytes[pos]);
    assert(step_width(rest, 0) == w);
    assert(rest.subrange(w as int, rest.len() as int) =~= bytes.subrange(pos + w, bytes.len() as int));
    if w >= 2 {
        assert(rest[1] == bytes[pos + 1]);
    }
    if w >= 3 {
        assert(rest[2] == bytes[pos + 2]);
    }
    if w >= 4 {
        assert(rest[3] == bytes[pos + 3]);
    }
    assert(pack(rest, 0, w) == pack(bytes, pos, w));
}

/// The destination of the first transition of `ts` that consumes `c`.
fn find_transition(ts: &Vec<(TransitionType, usize)>, c: u32) -> (r: Option<usize>)
    ensures
        r == first_match(ts@, c),
{
    let mut i: usize = 0;
    assert(ts@.subrange(0, ts@.len() as int) =~= ts@);
    while i < ts.len()
        invariant
            i <= ts@.len(),
            first_match(ts@, c) == first_match(ts@.subrange(i as int, ts@.len() as int), c),
        decreases ts@.len() - i,
    {
        let ghost rest = ts@.subrange(i as int, ts@.len() as int);
        assert(rest.drop_first() =~= ts@.subrange(i + 1, ts@.len() as int));
        if ts[i].0.accepts(c) {
            return Some(ts[i].1);
        }
        i = i + 1;
    }
    assert(ts@.subrange(i as int, ts@.len() as int).len() == 0);
    None
}

/// Runs the DFA over `subject`, one codepoint at a time, without backtracking.
pub fn matches(dfa: &DFA, subject: &str) -> (r: bool)
    ensures
        r == dfa_accepts(*dfa, subject.spec_bytes()),
        r == dfa_accepts_from(*dfa, 0, char_codes(subject@)),
{
    proof {
        lemma_codes_of_encoding(subject@);
    }
    let ghost bytes = subject.spec_bytes();
    let len = subject.as_bytes().len();
    if dfa.transitions.len() == 0 {
        return false;
    }
    let mut state: usize = 0;
    let mut pos: usize = 0;
    assert(bytes.subrange(0, bytes.len() as int) =~= bytes);
    while pos < len
        invariant
            len == bytes.len(),
            bytes == subject.spec_bytes(),
            codes_of(bytes) == char_codes(subject@),
            pos <= len,
            state < dfa.transitions@.len(),
            dfa_accepts(*dfa, bytes) == dfa_accepts_from(
                *dfa,
                state as int,
                codes_of(bytes.subrange(pos as int, bytes.len() as int)),
            ),
        decreases len - pos,
    {
        proof {
            lemma_codes_step(bytes, pos as int);
        }
        let (c, next_pos) = next_char(subject, pos);
        let ghost rest = codes_of(bytes.subrange(pos as int, bytes.len() as int));
        assert(rest.drop_first() =~= codes_of(bytes.subrange(next_pos as int, bytes.len() as int)));
        match find_transition(&dfa.transitions[state].1, c) {
            Some(next) => {
                assert(rest[0] == c && rest.len() > 0);
                if next >= dfa.transitions.len() {
                    assert(!dfa_accepts_from(*dfa, next as int, rest.drop_first()));
                    return false;
                }
                state = next;
            },
            None => {
                return false;
            },
        }
        pos = next_pos;
    }
    assert(bytes.subrange(pos as int, bytes.len() as int).len() == 0);
    dfa.transitions[state].0
}


/// The `j`-th transition of state `i`.
pub open spec fn edge(nfa: &NFA, i: int, j: int) -> (Option<TransitionType>, usize) {
    nfa.states@[i].transitions@[j]
}

/// Whether some path from `state` consumes exactly `codes` and ends at the
/// accepting sentinel, taking at most `budget` epsilon transitions before the
/// next codepoint is consumed (the budget is renewed to the number of states
/// after each one). Cutting epsilon cycles out of any accepting path leaves a
/// path within these bounds.
pub open spec fn nfa_run(nfa: &NFA, state: int, codes: Seq<u32>, budget: nat) -> bool
    decreases codes.len(), budget, 2nat, 0nat,
{
    if state < 0 || state > nfa.states@.len() {
        false
    } else if state == nfa.states@.len() {
        codes.len() == 0
    } else {
        some_step(nfa, state, 0, codes, budget)
    }
}

/// Whether one of the transitions of `state` from the `j`-th on leads on to acceptance.
pub open spec fn some_step(nfa: &NFA, state: int, j: int, codes: Seq<u32>, budget: nat) -> bool
    decreases codes.len(), budget, 1nat, nfa.states@[state].transitions@.len() - j,
    when 0 <= state < nfa.states@.len() && 0 <= j
{
    if j >= nfa.states@[state].transitions@.len() {
        false
    } else {
        step_ok(nfa, edge(nfa, state, j), codes, budget) || some_step(
            nfa,
            state,
            j + 1,
            codes,
            budget,
        )
    }
}

/// Whether taking transition `e` leads on to acceptance.
pub open spec fn step_ok(
    nfa: &NFA,
    e: (Option<TransitionType>, usize),
    codes: Seq<u32>,
    budget: nat,
) -> bool
    decreases codes.len(), budget, 0nat, 0nat,
{
    match e.0 {
        None => budget > 0 && nfa_run(nfa, e.1 as int, codes, (budget - 1) as nat),
        Some(t) => codes.len() > 0 && transition_accepts(t, codes[0]) && nfa_run(
            nfa,
            e.1 as int,
            codes.drop_first(),
            nfa.states@.len() as nat,
        ),
    }
}

/// Whether the NFA accepts the whole of `s`.
pub open spec fn nfa_accepts(nfa: &NFA, s: Seq<u8>) -> bool {
    nfa_run(nfa, 0, codes_of(s), nfa.states@.len() as nat)
}

/// A byte string decodes to no codepoint exactly when it is empty.
pub proof fn lemma_codes_empty(bytes: Seq<u8>)
    ensures
        (codes_of(bytes).len() == 0) == (bytes.len() == 0),
{
    if bytes.len() > 0 {
        assert(codes_of(bytes).len() > 0);
    }
}

/// Depth-first walk of the NFA from `state` at byte offset `pos`.
fn nfa_ant(nfa: &NFA, state: usize, pos: usize, s: &str, budget: usize) -> (r: bool)
    requires
        nfa.wf(),
        state <= nfa.states@.len(),
        pos <= s.spec_bytes().len(),
    ensures
        r == nfa_run(
            nfa,
            state as int,
            codes_of(s.spec_bytes().subrange(pos as int, s.spec_bytes().len() as int)),
            budget as nat,
        ),
    decreases s.spec_bytes().len() - pos, budget,
{
    let ghost bytes = s.spec_bytes();
    let ghost codes = codes_of(bytes.subrange(pos as int, bytes.len() as int));
    let len = s.as_bytes().len();
    let n = nfa.states.len();
    proof {
        lemma_codes_empty(bytes.subrange(pos as int, bytes.len() as int));
    }
    if state == n {
        return pos == len;
    }
    let ts = &nfa.states[state].transitions;
    let mut j: usize = 0;
    while j < ts.len()
        invariant
            nfa.wf(),
            n == nfa.states@.len(),
            state < n,
            len == bytes.len(),
            bytes == s.spec_bytes(),
            pos <= len,
            codes == codes_of(bytes.subrange(pos as int, bytes.len() as int)),
            (codes.len() == 0) == (pos == len),
            ts == &nfa.states@[state as int].transitions,
            nfa_run(nfa, state as int, codes, budget as nat) == some_step(
                nfa,
                state as int,
                j as int,
                codes,
                budget as nat,
            ),
        decreases ts@.len() - j,
    {
        let (t, d) = ts[j];
        assert(edge(nfa, state as int, j as int) == (t, d));
        assert(d <= n);
        let ok = match t {
            None => budget > 0 && nfa_ant(nfa, d, pos, s, budget - 1),
            Some(label) => {
                if pos < len {
                    proof {
                        lemma_codes_step(bytes, pos as int);
                    }
                    let (c, next_pos) = next_char(s, pos);
                    assert(codes.drop_first() =~= codes_of(bytes.subrange(next_pos as int, bytes.len() as int)));
                    label.accepts(c) && nfa_ant(nfa, d, next_pos, s, n)
                } else {
                    false
                }
            },
        };
        assert(ok == step_ok(nfa, edge(nfa, state as int, j as int), codes, budget as nat));
        if ok {
            return true;
        }
        j = j + 1;
    }
    false
}

/// Whether the NFA accepts `s`: a reference matcher to check determinization against.
pub fn test_nfa(input: &NFA, s: &str) -> (r: bool)
    requires
        input.wf(),
    ensures
        r == nfa_accepts(input, s.spec_bytes()),
        r == nfa_run(input, 0, char_codes(s@), input.states@.len() as nat),
{
    proof {
        lemma_codes_of_encoding(s@);
    }
    assert(s.spec_bytes().subrange(0, s.spec_bytes().len() as int) =~= s.spec_bytes());
    nfa_ant(input, 0, 0, s, input.states.len())
}


} // verus!
