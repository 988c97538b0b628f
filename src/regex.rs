//! The pattern syntax tree and its recursive-descent parser.
use vstd::prelude::*;

verus! {

broadcast use vstd::std_specs::vec::group_vec_axioms, vstd::seq::group_seq_axioms;

/// One link of a concatenation: a union of units, how often it repeats, and
/// what follows it.
pub struct ChainedMatchable {
    pub matchables: InvertibleMatchable,
    pub repetition: Repetition,
    pub next: Option<Box<ChainedMatchable>>,
}

/// How often a link repeats.
#[derive(Clone, Copy, PartialEq, Eq, Structural, Debug)]
pub enum Repetition {
    /// Exactly once.
    One,
    /// Zero or more times.
    Any,
    /// At least `n` times.
    AtLeast(u64),
    /// At most `n` times.
    LessThanEq(u64),
    /// Between `min` and `max` times, both included.
    Range(u64, u64),
}

/// A union of units; when `inverted`, it stands for what matches none of them.
pub struct InvertibleMatchable {
    pub inverted: bool,
    pub matchable: UnionMatchables,
}

pub struct UnionMatchables {
    pub matchables: Vec<Matchable>,
}

/// A single unit of a pattern.
pub enum Matchable {
    Char(char),
    /// Inclusive range of characters.
    Range(char, char),
    Any,
    Subexpression(ChainedMatchable),
}

pub open spec fn repetition_wf(r: Repetition) -> bool {
    match r {
        Repetition::Range(min, max) => min <= max,
        _ => true,
    }
}

impl ChainedMatchable {
    pub fn matchables(&self) -> (r: &InvertibleMatchable)
        ensures
            *r == self.matchables,
    {
        &self.matchables
    }

    pub fn repetition(&self) -> (r: &Repetition)
        ensures
            *r == self.repetition,
    {
        &self.repetition
    }

    pub fn next(&self) -> (r: &Option<Box<ChainedMatchable>>)
        ensures
            *r == self.next,
    {
        &self.next
    }
}

impl InvertibleMatchable {
    pub fn inverted(&self) -> (r: &bool)
        ensures
            *r == self.inverted,
    {
        &self.inverted
    }

    pub fn matchable(&self) -> (r: &UnionMatchables)
        ensures
            *r == self.matchable,
    {
        &self.matchable
    }
}

impl UnionMatchables {
    pub fn matchables(&self) -> (r: &Vec<Matchable>)
        ensures
            *r == self.matchables,
    {
        &self.matchables
    }
}

impl Matchable {
    /// Whether a quantifier may follow this unit; every unit here accepts one.
    pub fn is_quantifiable(&self) -> (r: bool)
        ensures
            r,
    {
        match self {
            Matchable::Char(_) => true,
            Matchable::Range(_, _) => true,
            Matchable::Any => true,
            Matchable::Subexpression(_) => true,
        }
    }
}


/// What is wrong with a pattern.
#[derive(Clone, Copy, PartialEq, Eq, Structural, Debug)]
pub enum SyntaxErrorKind {
    /// A `(` without its `)`, or a `)` without its `(`.
    UnbalancedGroup,
    /// A `[` without its `]`.
    UnbalancedClass,
    /// A class with nothing in it.
    EmptyClass,
    /// A `\` escape.
    UnsupportedEscape,
    /// A `^` or `$` anchor.
    UnsupportedAnchor,
    /// A `{...}` quantifier that is not `{m,n}`, `{m,}` or `{,n}` with `m <= n`.
    MalformedQuantifier,
    /// A `{` or `}` that follows no unit.
    StrayBrace,
    /// A branch with no unit in it, in a pattern that is not empty.
    EmptyBranch,
}

/// A rejected pattern: the kind of fault and where it was found. The parse
/// functions on characters give the index of the character; `to_regex`
/// gives its byte offset in the pattern.
#[derive(Clone, Copy, PartialEq, Eq, Structural, Debug)]
pub struct SyntaxError {
    pub kind: SyntaxErrorKind,
    pub position: usize,
}

pub open spec fn is_digit(c: char) -> bool {
    '0' <= c && c <= '9'
}

/// Decimal value of a run of digits.
pub open spec fn decimal_value(s: Seq<char>) -> nat
    decreases s.len(),
{
    if s.len() == 0 {
        0
    } else {
        decimal_value(s.drop_last()) * 10 + ((s.last() as u32 - '0' as u32) as nat)
    }
}

/// Index just past the run of digits that starts at `pos`.
pub open spec fn digit_run_end(cs: Seq<char>, pos: int) -> int
    decreases cs.len() - pos,
{
    if pos < cs.len() && is_digit(cs[pos]) {
        digit_run_end(cs, pos + 1)
    } else {
        pos
    }
}

proof fn lemma_digit_run_end(cs: Seq<char>, pos: int)
    requires
        0 <= pos <= cs.len(),
    ensures
        pos <= digit_run_end(cs, pos) <= cs.len(),
        forall|k: int| pos <= k < digit_run_end(cs, pos) ==> is_digit(#[trigger] cs[k]),
        digit_run_end(cs, pos) == cs.len() || !is_digit(cs[digit_run_end(cs, pos)]),
    decreases cs.len() - pos,
{
    if pos < cs.len() && is_digit(cs[pos]) {
        lemma_digit_run_end(cs, pos + 1);
    }
}

/// Reads the run of decimal digits at `pos`: `None` when there is none,
/// an error when its value does not fit in a `u64`.
pub fn parse_u64(cs: &Vec<char>, pos: usize) -> (r: Result<(Option<u64>, usize), SyntaxError>)
    requires
        pos <= cs@.len(),
    ensures
        match r {
            Ok((v, p)) => {
                &&& p == digit_run_end(cs@, pos as int)
                &&& v == (if p == pos {
                    None
                } else {
                    Some(decimal_value(cs@.subrange(pos as int, p as int)) as u64)
                })
                &&& decimal_value(cs@.subrange(pos as int, p as int)) <= u64::MAX
            },
            Err(e) => {
                &&& e.kind == SyntaxErrorKind::MalformedQuantifier
                &&& e.position == pos
                &&& decimal_value(cs@.subrange(pos as int, digit_run_end(cs@, pos as int)))
                    > u64::MAX
            },
        },
{
    proof {
        lemma_digit_run_end(cs@, pos as int);
    }
    let ghost end = digit_run_end(cs@, pos as int);
    let mut p: usize = pos;
    let mut v: u64 = 0;
    let mut overflow = false;
    while p < cs.len() && '0' <= cs[p] && cs[p] <= '9'
        invariant
            pos <= p <= end,
            end == digit_run_end(cs@, pos as int),
            end <= cs@.len(),
            forall|k: int| pos <= k < end ==> is_digit(#[trigger] cs@[k]),
            end == cs@.len() || !is_digit(cs@[end]),
            overflow ==> decimal_value(cs@.subrange(pos as int, p as int)) > u64::MAX,
            !overflow ==> v == decimal_value(cs@.subrange(pos as int, p as int)),
        decreases cs@.len() - p,
    {
        let d = (cs[p] as u32 - '0' as u32) as u64;
        let ghost before = cs@.subrange(pos as int, p as int);
        assert(cs@.subrange(pos as int, p + 1).drop_last() =~= before);
        if overflow || v > (u64::MAX - d) / 10 {
            overflow = true;
        } else {
            v = v * 10 + d;
        }
        p = p + 1;
    }
    if overflow {
        Err(SyntaxError { kind: SyntaxErrorKind::MalformedQuantifier, position: pos })
    } else if p == pos {
        Ok((None, p))
    } else {
        Ok((Some(v), p))
    }
}


/// Repetition of the `{...}` quantifier whose bound runs are `cs[s1..e1]` and `cs[s2..e2]`.
pub open spec fn braced_repetition(cs: Seq<char>, s1: int, e1: int, s2: int, e2: int) -> Option<
    Repetition,
> {
    let min = decimal_value(cs.subrange(s1, e1));
    let max = decimal_value(cs.subrange(s2, e2));
    if (e1 > s1 && min > u64::MAX) || (e2 > s2 && max > u64::MAX) {
        None
    } else if e1 > s1 && e2 > s2 {
        if min <= max {
            Some(Repetition::Range(min as u64, max as u64))
        } else {
            None
        }
    } else if e1 > s1 {
        Some(Repetition::AtLeast(min as u64))
    } else if e2 > s2 {
        Some(Repetition::LessThanEq(max as u64))
    } else {
        None
    }
}

/// The quantifier suffix at `pos` and the index just past it; `None` when it is malformed.
pub open spec fn quantifier_at(cs: Seq<char>, pos: int) -> Option<(Repetition, int)> {
    if pos >= cs.len() {
        Some((Repetition::One, pos))
    } else if cs[pos] == '*' {
        Some((Repetition::Any, pos + 1))
    } else if cs[pos] == '+' {
        Some((Repetition::AtLeast(1), pos + 1))
    } else if cs[pos] == '?' {
        Some((Repetition::LessThanEq(1), pos + 1))
    } else if cs[pos] == '{' {
        let e1 = digit_run_end(cs, pos + 1);
        let e2 = digit_run_end(cs, e1 + 1);
        if e1 < cs.len() && cs[e1] == ',' && e2 < cs.len() && cs[e2] == '}' {
            match braced_repetition(cs, pos + 1, e1, e1 + 1, e2) {
                Some(r) => Some((r, e2 + 1)),
                None => None,
            }
        } else {
            None
        }
    } else {
        Some((Repetition::One, pos))
    }
}

fn expect_char(cs: &Vec<char>, pos: usize, c: char) -> (r: Result<usize, SyntaxError>)
    requires
        pos <= cs@.len(),
    ensures
        match r {
            Ok(p) => pos < cs@.len() && cs@[pos as int] == c && p == pos + 1,
            Err(e) => !(pos < cs@.len() && cs@[pos as int] == c) && e.kind
                == SyntaxErrorKind::MalformedQuantifier && e.position == pos,
        },
{
    if pos < cs.len() && cs[pos] == c {
        Ok(pos + 1)
    } else {
        Err(SyntaxError { kind: SyntaxErrorKind::MalformedQuantifier, position: pos })
    }
}

/// Reads the quantifier suffix at `pos`, if any.
pub fn parse_quantifier(cs: &Vec<char>, pos: usize) -> (r: Result<(Repetition, usize), SyntaxError>)
    requires
        pos <= cs@.len(),
    ensures
        match r {
            Ok((rep, p)) => quantifier_at(cs@, pos as int) == Some((rep, p as int)),
            Err(e) => quantifier_at(cs@, pos as int) is None && e.kind
                == SyntaxErrorKind::MalformedQuantifier && e.position <= cs@.len() && e.position
                == quantifier_error_at(cs@, pos as int),
        },
        r is Ok ==> repetition_wf(r->Ok_0.0),
        r is Ok ==> pos <= r->Ok_0.1 <= cs@.len(),
{
    if pos >= cs.len() {
        return Ok((Repetition::One, pos));
    }
    let c = cs[pos];
    if c == '*' {
        Ok((Repetition::Any, pos + 1))
    } else if c == '+' {
        Ok((Repetition::AtLeast(1), pos + 1))
    } else if c == '?' {
        Ok((Repetition::LessThanEq(1), pos + 1))
    } else if c == '{' {
        proof {
            lemma_digit_run_end(cs@, pos + 1);
        }
        let (min, e1) = match parse_u64(cs, pos + 1) {
            Ok(x) => x,
            Err(e) => {
                return Err(e);
            },
        };
        let s2 = expect_char(cs, e1, ',')?;
        proof {
            lemma_digit_run_end(cs@, s2 as int);
        }
        let (max, e2) = match parse_u64(cs, s2) {
            Ok(x) => x,
            Err(e) => {
                                return Err(e);
            },
        };
        let end = expect_char(cs, e2, '}')?;
        let rep = match (min, max) {
            (Some(a), Some(b)) => {
                if a > b {
                    return Err(
                        SyntaxError { kind: SyntaxErrorKind::MalformedQuantifier, position: pos },
                    );
                }
                Repetition::Range(a, b)
            },
            (Some(a), None) => Repetition::AtLeast(a),
            (None, Some(b)) => Repetition::LessThanEq(b),
            (None, None) => {
                return Err(
                    SyntaxError { kind: SyntaxErrorKind::MalformedQuantifier, position: pos },
                );
            },
        };
        Ok((rep, end))
    } else {
        Ok((Repetition::One, pos))
    }
}


/// What one unit of a class stands for, by scalar values.
pub enum ClassUnit {
    Single(u32),
    Span(u32, u32),
}

/// The class unit that `m` is, if it is one.
pub open spec fn as_class_unit(m: Matchable) -> Option<ClassUnit> {
    match m {
        Matchable::Char(c) => Some(ClassUnit::Single(c as u32)),
        Matchable::Range(a, b) => Some(ClassUnit::Span(a as u32, b as u32)),
        _ => None,
    }
}

/// Whether `items[i..i + 3]` reads `x-y` with `x` and `y` other than `-`.
pub open spec fn range_at(items: Seq<char>, i: int) -> bool {
    &&& i + 2 < items.len()
    &&& items[i] != '-'
    &&& items[i + 1] == '-'
    &&& items[i + 2] != '-'
}

/// The units of a class body from item `i` on: each `x-y` is a range, every
/// other character (a leading or trailing `-` too) stands for itself.
pub open spec fn class_units(items: Seq<char>, i: int) -> Seq<ClassUnit>
    decreases items.len() - i,
{
    if i < 0 || i >= items.len() {
        seq![]
    } else if range_at(items, i) {
        seq![ClassUnit::Span(items[i] as u32, items[i + 2] as u32)] + class_units(items, i + 3)
    } else {
        seq![ClassUnit::Single(items[i] as u32)] + class_units(items, i + 1)
    }
}

/// `ms` holds exactly the class units `us`, in order.
pub open spec fn holds_class_units(ms: Seq<Matchable>, us: Seq<ClassUnit>) -> bool {
    &&& ms.len() == us.len()
    &&& forall|k: int| 0 <= k < ms.len() ==> as_class_unit(#[trigger] ms[k]) == Some(us[k])
}

/// Index of the first `]` or `\` at or after `i`, or `cs.len()` when there is none.
pub open spec fn class_end(cs: Seq<char>, i: int) -> int
    decreases cs.len() - i,
{
    if i >= cs.len() || cs[i] == ']' || cs[i] == '\\' {
        i
    } else {
        class_end(cs, i + 1)
    }
}

proof fn lemma_class_end(cs: Seq<char>, i: int)
    requires
        0 <= i <= cs.len(),
    ensures
        i <= class_end(cs, i) <= cs.len(),
        forall|k: int| i <= k < class_end(cs, i) ==> cs[k] != ']' && cs[k] != '\\',
        class_end(cs, i) < cs.len() ==> (cs[class_end(cs, i)] == ']' || cs[class_end(cs, i)]
            == '\\'),
    decreases cs.len() - i,
{
    if !(i >= cs.len() || cs[i] == ']' || cs[i] == '\\') {
        lemma_class_end(cs, i + 1);
    }
}

/// Parses the class that opens with the `[` at `pos`.
pub fn parse_match_group(cs: &Vec<char>, pos: usize) -> (r: Result<
    (InvertibleMatchable, usize),
    SyntaxError,
>)
    requires
        pos < cs@.len(),
        cs@[pos as int] == '[',
    ensures
        ({
            let inverted = pos + 1 < cs@.len() && cs@[pos + 1] == '^';
            let start = if inverted {
                pos + 2
            } else {
                pos + 1
            };
            let end = class_end(cs@, start);
            let items = cs@.subrange(start, end);
            match r {
                Ok((m, p)) => {
                    &&& pos + 1 < p <= cs@.len()
                    &&& end < cs@.len() && cs@[end] == ']' && items.len() > 0
                    &&& p == end + 1
                    &&& m.inverted == inverted
                    &&& holds_class_units(m.matchable.matchables@, class_units(items, 0))
                },
                Err(e) => {
                    &&& e.position == end
                    &&& end <= cs@.len()
                    &&& (end < cs@.len() ==> (cs@[end] == ']' || cs@[end] == '\\'))
                    &&& (end == cs@.len() ==> e.kind == SyntaxErrorKind::UnbalancedClass)
                    &&& (end < cs@.len() && cs@[end] == '\\' ==> e.kind
                        == SyntaxErrorKind::UnsupportedEscape)
                    &&& (end < cs@.len() && cs@[end] == ']' ==> e.kind
                        == SyntaxErrorKind::EmptyClass && items.len() == 0)
                },
            }
        }),
{
    let inverted = pos < cs.len() - 1 && cs[pos + 1] == '^';
    let start = if inverted {
        pos + 2
    } else {
        pos + 1
    };
    proof {
        lemma_class_end(cs@, start as int);
    }
    let mut end = start;
    while end < cs.len() && cs[end] != ']' && cs[end] != '\\'
        invariant
            start <= end <= class_end(cs@, start as int),
            class_end(cs@, start as int) <= cs@.len(),
            forall|k: int|
                start <= k < class_end(cs@, start as int) ==> cs@[k] != ']' && cs@[k] != '\\',
            class_end(cs@, start as int) < cs@.len() ==> (cs@[class_end(cs@, start as int)]
                == ']' || cs@[class_end(cs@, start as int)] == '\\'),
        decreases cs@.len() - end,
    {
        end = end + 1;
    }
    if end == cs.len() {
        return Err(SyntaxError { kind: SyntaxErrorKind::UnbalancedClass, position: end });
    }
    if cs[end] == '\\' {
        return Err(SyntaxError { kind: SyntaxErrorKind::UnsupportedEscape, position: end });
    }
    if end == start {
        return Err(SyntaxError { kind: SyntaxErrorKind::EmptyClass, position: end });
    }
    let ghost items = cs@.subrange(start as int, end as int);
    let ghost whole = class_units(items, 0);
    let mut ms: Vec<Matchable> = Vec::new();
    let mut i: usize = start;
    assert(whole =~= whole.subrange(0, 0) + class_units(items, 0));
    while i < end
        invariant
            start <= i <= end,
            end < cs@.len(),
            items == cs@.subrange(start as int, end as int),
            whole == class_units(items, 0),
            ms@.len() <= whole.len(),
            whole == whole.subrange(0, ms@.len() as int) + class_units(items, i - start),
            holds_class_units(ms@, whole.subrange(0, ms@.len() as int)),
        decreases end - i,
    {
        let k = i - start;
        let c = cs[i];
        let ghost n = ms@.len() as int;
        assert(items[k as int] == c);
        if end - i > 2 && c != '-' && cs[i + 1] == '-' && cs[i + 2] != '-' {
            let hi = cs[i + 2];
            assert(items[k + 2] == hi);
            assert(range_at(items, k as int));
            let ghost rest = class_units(items, k + 3);
            assert(class_units(items, k as int) == seq![ClassUnit::Span(c as u32, hi as u32)] + rest);
            let ghost old_ms = ms@;
            ms.push(Matchable::Range(c, hi));
            assert(ms@ == old_ms.push(Matchable::Range(c, hi)));
            proof {
                vstd::seq::axiom_seq_push_len(old_ms, Matchable::Range(c, hi));
            }
            assert forall|j: int| 0 <= j < ms@.len() implies as_class_unit(#[trigger] ms@[j]) == Some(
                whole.subrange(0, n + 1)[j],
            ) by {
                if j < n {
                    vstd::seq::axiom_seq_push_index_different(old_ms, Matchable::Range(c, hi), j);
                    assert(ms@[j] == old_ms[j]);
                    assert(whole.subrange(0, n)[j] == whole.subrange(0, n + 1)[j]);
                    assert(as_class_unit(old_ms[j]) == Some(whole.subrange(0, n)[j]));
                } else {
                    assert(ms@.len() == n + 1);
                    vstd::seq::axiom_seq_push_index_same(old_ms, Matchable::Range(c, hi), n);
                    assert(ms@[j] == Matchable::Range(c, hi));
                    assert(whole.subrange(0, n + 1)[j] == ClassUnit::Span(c as u32, hi as u32));
                }
            }
            assert(whole[n] == ClassUnit::Span(c as u32, hi as u32)) by {
                assert(whole == whole.subrange(0, n) + (seq![ClassUnit::Span(c as u32, hi as u32)] + rest));
            }
            assert(whole =~= whole.subrange(0, n + 1) + rest);
            assert(holds_class_units(ms@, whole.subrange(0, n + 1)));
            i = i + 3;
        } else {
            assert(!range_at(items, k as int));
            let ghost rest = class_units(items, k + 1);
            assert(class_units(items, k as int) == seq![ClassUnit::Single(c as u32)] + rest);
            let ghost old_ms = ms@;
            ms.push(Matchable::Char(c));
            assert(ms@ == old_ms.push(Matchable::Char(c)));
            proof {
                vstd::seq::axiom_seq_push_len(old_ms, Matchable::Char(c));
            }
            assert forall|j: int| 0 <= j < ms@.len() implies as_class_unit(#[trigger] ms@[j]) == Some(
                whole.subrange(0, n + 1)[j],
            ) by {
                if j < n {
                    vstd::seq::axiom_seq_push_index_different(old_ms, Matchable::Char(c), j);
                    assert(ms@[j] == old_ms[j]);
                    assert(whole.subrange(0, n)[j] == whole.subrange(0, n + 1)[j]);
                    assert(as_class_unit(old_ms[j]) == Some(whole.subrange(0, n)[j]));
                } else {
                    assert(ms@.len() == n + 1);
                    vstd::seq::axiom_seq_push_index_same(old_ms, Matchable::Char(c), n);
                    assert(ms@[j] == Matchable::Char(c));
                    assert(whole.subrange(0, n + 1)[j] == ClassUnit::Single(c as u32));
                }
            }
            assert(whole[n] == ClassUnit::Single(c as u32)) by {
                assert(whole == whole.subrange(0, n) + (seq![ClassUnit::Single(c as u32)] + rest));
            }
            assert(whole =~= whole.subrange(0, n + 1) + rest);
            assert(holds_class_units(ms@, whole.subrange(0, n + 1)));
            i = i + 1;
        }
    }
    assert(whole.subrange(0, ms@.len() as int) =~= whole);
    Ok((InvertibleMatchable { inverted, matchable: UnionMatchables { matchables: ms } }, end + 1))
}


/// A chain of one wildcard, repeated any number of times.
pub open spec fn is_wildcard_star_chain(c: ChainedMatchable) -> bool {
    &&& c.matchables.inverted == false
    &&& c.matchables.matchable.matchables@.len() == 1
    &&& c.matchables.matchable.matchables@[0] == Matchable::Any
    &&& c.repetition == Repetition::Any
    &&& c.next is None
}

/// The chain that matches only the empty string: no unit, repeated at most zero times.
pub open spec fn is_empty_chain(c: ChainedMatchable) -> bool {
    &&& c.matchables.inverted == false
    &&& c.matchables.matchable.matchables@.len() == 0
    &&& c.repetition == Repetition::LessThanEq(0)
    &&& c.next is None
}

pub fn empty_chain() -> (c: ChainedMatchable)
    ensures
        is_empty_chain(c),
{
    ChainedMatchable {
        matchables: InvertibleMatchable {
            inverted: false,
            matchable: UnionMatchables { matchables: Vec::new() },
        },
        repetition: Repetition::LessThanEq(0),
        next: None,
    }
}

fn single(m: Matchable) -> (r: InvertibleMatchable)
    ensures
        r.inverted == false,
        r.matchable.matchables@ == seq![m],
        r.matchable.matchables@.len() == 1,
        r.matchable.matchables@[0] == m,
{
    let mut v: Vec<Matchable> = Vec::new();
    v.push(m);
    proof {
        vstd::seq::axiom_seq_push_len(Seq::<Matchable>::empty(), m);
        vstd::seq::axiom_seq_push_index_same(Seq::<Matchable>::empty(), m, 0);
    }
    InvertibleMatchable { inverted: false, matchable: UnionMatchables { matchables: v } }
}

/// Whether a branch ends at `pos`: at the end of the pattern, a `|` or a `)`.
pub open spec fn branch_ends_at(cs: Seq<char>, pos: int) -> bool {
    pos >= cs.len() || cs[pos] == '|' || cs[pos] == ')'
}

fn at_branch_end(cs: &Vec<char>, pos: usize) -> (r: bool)
    requires
        pos <= cs@.len(),
    ensures
        r == branch_ends_at(cs@, pos as int),
{
    pos >= cs.len() || cs[pos] == '|' || cs[pos] == ')'
}

/// Where the quantifier at `pos` ends, if it is well formed.
pub open spec fn quantifier_end(cs: Seq<char>, pos: int) -> Option<int> {
    match quantifier_at(cs, pos) {
        Some((_, q)) => Some(q),
        None => None,
    }
}

/// Where the class opened by the `[` at `pos` ends, if it is well formed.
pub open spec fn class_close(cs: Seq<char>, pos: int) -> Option<int> {
    let inverted = pos + 1 < cs.len() && cs[pos + 1] == '^';
    let start = if inverted {
        pos + 2
    } else {
        pos + 1
    };
    let end = class_end(cs, start);
    if end < cs.len() && cs[end] == ']' && end > start {
        Some(end + 1)
    } else {
        None
    }
}

/// Where the unit (with its quantifier) that starts at `pos` ends, if the
/// pattern is well formed there.
pub open spec fn unit_end(cs: Seq<char>, pos: int) -> Option<int>
    decreases cs.len() - pos, 0nat,
{
    if pos < 0 || pos >= cs.len() {
        None
    } else {
        let c = cs[pos];
        if c == '(' {
            match group_end(cs, pos + 1, true) {
                Some(p) => quantifier_end(cs, p),
                None => None,
            }
        } else if c == '[' {
            match class_close(cs, pos) {
                Some(p) => quantifier_end(cs, p),
                None => None,
            }
        } else if c == '\\' || c == '^' || c == '$' || c == '{' || c == '}' {
            None
        } else {
            quantifier_end(cs, pos + 1)
        }
    }
}

/// Where the branch that starts at `pos` ends, if it is well formed: one or
/// more units up to the end of the pattern, a `|` or a `)`.
pub open spec fn branch_end(cs: Seq<char>, pos: int) -> Option<int>
    decreases cs.len() - pos, 1nat,
{
    if pos < 0 || pos > cs.len() {
        None
    } else if branch_ends_at(cs, pos) {
        None
    } else {
        match unit_end(cs, pos) {
            Some(p) => if branch_ends_at(cs, p) {
                Some(p)
            } else if pos < p {
                branch_end(cs, p)
            } else {
                None
            },
            None => None,
        }
    }
}

/// Where the last of the `|`-separated branches that start at `pos` ends,
/// if each of them is well formed.
pub open spec fn branches_end(cs: Seq<char>, pos: int) -> Option<int>
    decreases cs.len() - pos, 2nat,
{
    if pos < 0 || pos > cs.len() {
        None
    } else {
        match branch_end(cs, pos) {
            Some(p) => if p < cs.len() && cs[p] == '|' {
                if pos <= p {
                    branches_end(cs, p + 1)
                } else {
                    None
                }
            } else {
                Some(p)
            },
            None => None,
        }
    }
}

/// How a group closes after its last branch ends at `p`: past its `)` when
/// `nested`, at the end of the pattern otherwise.
pub open spec fn group_close(cs: Seq<char>, p: int, nested: bool) -> Option<int> {
    if nested {
        if 0 <= p < cs.len() && cs[p] == ')' {
            Some(p + 1)
        } else {
            None
        }
    } else if p >= cs.len() {
        Some(p)
    } else {
        None
    }
}

/// Where the group whose branches start at `pos` ends, if it is well formed.
pub open spec fn group_end(cs: Seq<char>, pos: int, nested: bool) -> Option<int>
    decreases cs.len() - pos, 3nat,
{
    match branches_end(cs, pos) {
        Some(p) => group_close(cs, p, nested),
        None => None,
    }
}

/// `c` holds the base and quantifier of the unit that starts at `pos`: a
/// literal, a wildcard, a class with its units, or a group with its tree.
pub open spec fn unit_head(cs: Seq<char>, pos: int, c: ChainedMatchable) -> bool
    decreases cs.len() - pos, 0nat,
{
    let units = c.matchables.matchable.matchables@;
    if pos < 0 || pos >= cs.len() {
        false
    } else if cs[pos] == '(' {
        &&& !c.matchables.inverted
        &&& units.len() == 1
        &&& units[0] is Subexpression
        &&& group_end(cs, pos + 1, true) is Some
        &&& group_tree(cs, pos + 1, units[0]->Subexpression_0)
        &&& quantifier_at(cs, group_end(cs, pos + 1, true)->Some_0) is Some
        &&& c.repetition == quantifier_at(cs, group_end(cs, pos + 1, true)->Some_0)->Some_0.0
    } else if cs[pos] == '[' {
        let inverted = pos + 1 < cs.len() && cs[pos + 1] == '^';
        let start = if inverted {
            pos + 2
        } else {
            pos + 1
        };
        let end = class_end(cs, start);
        &&& c.matchables.inverted == inverted
        &&& holds_class_units(units, class_units(cs.subrange(start, end), 0))
        &&& quantifier_at(cs, end + 1) is Some
        &&& c.repetition == quantifier_at(cs, end + 1)->Some_0.0
    } else {
        &&& !c.matchables.inverted
        &&& units.len() == 1
        &&& (if cs[pos] == '.' {
            units[0] is Any
        } else {
            units[0] is Char && units[0]->Char_0 == cs[pos]
        })
        &&& quantifier_at(cs, pos + 1) is Some
        &&& c.repetition == quantifier_at(cs, pos + 1)->Some_0.0
    }
}

/// `c` is the chain that the branch starting at `pos` reads: its units in
/// order, linked through `next`.
pub open spec fn branch_tree(cs: Seq<char>, pos: int, c: ChainedMatchable) -> bool
    decreases cs.len() - pos, 1nat,
{
    if pos < 0 || pos > cs.len() || branch_ends_at(cs, pos) {
        false
    } else {
        match unit_end(cs, pos) {
            Some(p) => unit_head(cs, pos, c) && if branch_ends_at(cs, p) {
                c.next is None
            } else if pos < p {
                c.next is Some && branch_tree(cs, p, *c.next->Some_0)
            } else {
                false
            },
            None => false,
        }
    }
}

/// From `units[k]` on, `units` holds the branches that start at `pos`, each
/// as a group of its own, up to the last branch.
pub open spec fn alt_tree(cs: Seq<char>, pos: int, units: Seq<Matchable>, k: int) -> bool
    decreases cs.len() - pos, 2nat,
{
    if pos < 0 || pos > cs.len() || k < 0 || k >= units.len() {
        false
    } else {
        &&& units[k] is Subexpression
        &&& branch_tree(cs, pos, units[k]->Subexpression_0)
        &&& match branch_end(cs, pos) {
            Some(q) => if q < cs.len() && cs[q] == '|' {
                pos <= q && alt_tree(cs, q + 1, units, k + 1)
            } else {
                units.len() == k + 1
            },
            None => false,
        }
    }
}

/// `c` is the tree of the group whose branches start at `pos`: the one
/// branch itself, or a union, repeated once, of every branch as a group.
pub open spec fn group_tree(cs: Seq<char>, pos: int, c: ChainedMatchable) -> bool
    decreases cs.len() - pos, 3nat,
{
    if pos < 0 || pos > cs.len() {
        false
    } else {
        match branch_end(cs, pos) {
            Some(p) => if p < cs.len() && cs[p] == '|' {
                &&& !c.matchables.inverted
                &&& c.repetition == Repetition::One
                &&& c.next is None
                &&& alt_tree(cs, pos, c.matchables.matchable.matchables@, 0)
            } else {
                branch_tree(cs, pos, c)
            },
            None => false,
        }
    }
}

/// `c` is the tree of the whole pattern `cs`; the empty pattern is the empty chain.
pub open spec fn parses_to(cs: Seq<char>, c: ChainedMatchable) -> bool {
    if cs.len() == 0 {
        is_empty_chain(c)
    } else {
        group_tree(cs, 0, c)
    }
}

/// Where a malformed `{...}` quantifier at `pos` is first seen to be wrong:
/// a bound too large for 64 bits, a missing `,` or `}`, or bounds that are
/// both absent or out of order (reported at the `{`).
pub open spec fn quantifier_error_at(cs: Seq<char>, pos: int) -> int {
    let e1 = digit_run_end(cs, pos + 1);
    let e2 = digit_run_end(cs, e1 + 1);
    if decimal_value(cs.subrange(pos + 1, e1)) > u64::MAX {
        pos + 1
    } else if !(e1 < cs.len() && cs[e1] == ',') {
        e1
    } else if decimal_value(cs.subrange(e1 + 1, e2)) > u64::MAX {
        e1 + 1
    } else if !(e2 < cs.len() && cs[e2] == '}') {
        e2
    } else {
        pos
    }
}

/// The fault of a malformed class opened at `pos`.
pub open spec fn class_error(cs: Seq<char>, pos: int) -> (SyntaxErrorKind, int) {
    let inverted = pos + 1 < cs.len() && cs[pos + 1] == '^';
    let start = if inverted {
        pos + 2
    } else {
        pos + 1
    };
    let end = class_end(cs, start);
    if end >= cs.len() {
        (SyntaxErrorKind::UnbalancedClass, end)
    } else if cs[end] == '\\' {
        (SyntaxErrorKind::UnsupportedEscape, end)
    } else {
        (SyntaxErrorKind::EmptyClass, end)
    }
}

/// The first fault of the unit at `pos`, when it is malformed.
pub open spec fn unit_error(cs: Seq<char>, pos: int) -> (SyntaxErrorKind, int)
    decreases cs.len() - pos, 0nat,
{
    if pos < 0 || pos >= cs.len() {
        (SyntaxErrorKind::EmptyBranch, pos)
    } else {
        let c = cs[pos];
        if c == '(' {
            match group_end(cs, pos + 1, true) {
                Some(g) => (SyntaxErrorKind::MalformedQuantifier, quantifier_error_at(cs, g)),
                None => group_error(cs, pos + 1, true),
            }
        } else if c == '[' {
            match class_close(cs, pos) {
                Some(p) => (SyntaxErrorKind::MalformedQuantifier, quantifier_error_at(cs, p)),
                None => class_error(cs, pos),
            }
        } else if c == '\\' {
            (SyntaxErrorKind::UnsupportedEscape, pos)
        } else if c == '^' || c == '$' {
            (SyntaxErrorKind::UnsupportedAnchor, pos)
        } else if c == '{' || c == '}' {
            (SyntaxErrorKind::StrayBrace, pos)
        } else {
            (SyntaxErrorKind::MalformedQuantifier, quantifier_error_at(cs, pos + 1))
        }
    }
}

/// The first fault of the branch at `pos`, when it is malformed.
pub open spec fn branch_error(cs: Seq<char>, pos: int) -> (SyntaxErrorKind, int)
    decreases cs.len() - pos, 1nat,
{
    if pos < 0 || pos > cs.len() || branch_ends_at(cs, pos) {
        (SyntaxErrorKind::EmptyBranch, pos)
    } else {
        match unit_end(cs, pos) {
            None => unit_error(cs, pos),
            Some(p) => if pos < p && !branch_ends_at(cs, p) {
                branch_error(cs, p)
            } else {
                (SyntaxErrorKind::EmptyBranch, pos)
            },
        }
    }
}

/// The first fault of the branches from `pos` on, when one is malformed.
pub open spec fn branches_error(cs: Seq<char>, pos: int) -> (SyntaxErrorKind, int)
    decreases cs.len() - pos, 2nat,
{
    if pos < 0 || pos > cs.len() {
        (SyntaxErrorKind::EmptyBranch, pos)
    } else {
        match branch_end(cs, pos) {
            None => branch_error(cs, pos),
            Some(q) => if q < cs.len() && cs[q] == '|' && pos <= q {
                branches_error(cs, q + 1)
            } else {
                (SyntaxErrorKind::EmptyBranch, pos)
            },
        }
    }
}

/// The first fault of the group whose branches start at `pos`, when it is
/// malformed: inside a branch, or a missing or surplus `)` after the last.
pub open spec fn group_error(cs: Seq<char>, pos: int, nested: bool) -> (SyntaxErrorKind, int)
    decreases cs.len() - pos, 3nat,
{
    match branches_end(cs, pos) {
        None => branches_error(cs, pos),
        Some(p) => (SyntaxErrorKind::UnbalancedGroup, p),
    }
}

/// A whole pattern is well formed.
pub open spec fn well_formed(cs: Seq<char>) -> bool {
    cs.len() == 0 || group_end(cs, 0, false) is Some
}

/// Reads the quantifier after a unit's base and makes the link.
fn finish_unit(cs: &Vec<char>, pos: usize, base: InvertibleMatchable, after: usize) -> (r: Result<
    (ChainedMatchable, usize),
    SyntaxError,
>)
    requires
        pos < after <= cs@.len(),
    ensures
        match r {
            Ok((c, p)) => {
                &&& pos < p <= cs@.len()
                &&& c.next is None
                &&& c.matchables == base
                &&& quantifier_at(cs@, after as int) == Some((c.repetition, p as int))
                &&& quantifier_end(cs@, after as int) == Some(p as int)
            },
            Err(e) => {
                &&& e.position <= cs@.len()
                &&& quantifier_end(cs@, after as int) is None
                &&& e.kind == SyntaxErrorKind::MalformedQuantifier
                &&& e.position == quantifier_error_at(cs@, after as int)
            },
        },
{
    match parse_quantifier(cs, after) {
        Ok((repetition, end)) => {
            let chain = ChainedMatchable { matchables: base, repetition, next: None };
            Ok((chain, end))
        },
        Err(e) => Err(e),
    }
}

/// Parses one unit with its quantifier, at a character that does not end a branch.
fn parse_unit(cs: &Vec<char>, pos: usize) -> (r: Result<(ChainedMatchable, usize), SyntaxError>)
    requires
        pos < cs@.len(),
        !branch_ends_at(cs@, pos as int),
    ensures
        match r {
            Ok((c, p)) => {
                &&& pos < p <= cs@.len()
                &&& c.next is None
                &&& unit_end(cs@, pos as int) == Some(p as int)
                &&& unit_head(cs@, pos as int, c)
            },
            Err(e) => {
                &&& e.position <= cs@.len()
                &&& unit_end(cs@, pos as int) is None
                &&& (e.kind, e.position as int) == unit_error(cs@, pos as int)
            },
        },
    decreases cs@.len() - pos, 0nat,
{
    let len = cs.len();
    let c = cs[pos];
    if c == '(' {
        match parse_regex(cs, pos + 1, true) {
            Ok((sub, p)) => {
                let ghost g = sub;
                let base = single(Matchable::Subexpression(sub));
                let r = finish_unit(cs, pos, base, p);
                proof {
                    if r is Ok {
                        let c2 = r->Ok_0.0;
                        assert(c2.matchables.matchable.matchables@[0] == Matchable::Subexpression(g));
                        assert(unit_head(cs@, pos as int, c2));
                    }
                }
                r
            },
            Err(e) => Err(e),
        }
    } else if c == '[' {
        match parse_match_group(cs, pos) {
            Ok((base, p)) => finish_unit(cs, pos, base, p),
            Err(e) => {
                assert((e.kind, e.position as int) == class_error(cs@, pos as int));
                Err(e)
            },
        }
    } else if c == '\\' {
        Err(SyntaxError { kind: SyntaxErrorKind::UnsupportedEscape, position: pos })
    } else if c == '^' || c == '$' {
        Err(SyntaxError { kind: SyntaxErrorKind::UnsupportedAnchor, position: pos })
    } else if c == '{' || c == '}' {
        Err(SyntaxError { kind: SyntaxErrorKind::StrayBrace, position: pos })
    } else if c == '.' {
        let r = finish_unit(cs, pos, single(Matchable::Any), pos + 1);
        proof {
            if r is Ok {
                assert(r->Ok_0.0.matchables.matchable.matchables@[0] == Matchable::Any);
                assert(unit_head(cs@, pos as int, r->Ok_0.0));
            }
        }
        r
    } else {
        let r = finish_unit(cs, pos, single(Matchable::Char(c)), pos + 1);
        proof {
            if r is Ok {
                assert(r->Ok_0.0.matchables.matchable.matchables@[0] == Matchable::Char(c));
                assert(unit_head(cs@, pos as int, r->Ok_0.0));
            }
        }
        r
    }
}

/// Parses the concatenation that starts at `pos`, up to the end of its branch.
fn parse_branch(cs: &Vec<char>, pos: usize) -> (r: Result<(ChainedMatchable, usize), SyntaxError>)
    requires
        pos <= cs@.len(),
    ensures
        match r {
            Ok((c, p)) => {
                &&& pos < p <= cs@.len()
                &&& branch_ends_at(cs@, p as int)
                &&& branch_end(cs@, pos as int) == Some(p as int)
                &&& branch_tree(cs@, pos as int, c)
            },
            Err(e) => {
                &&& e.position <= cs@.len()
                &&& branch_end(cs@, pos as int) is None
                &&& (e.kind, e.position as int) == branch_error(cs@, pos as int)
            },
        },
    decreases cs@.len() - pos, 1nat,
{
    if at_branch_end(cs, pos) {
        return Err(SyntaxError { kind: SyntaxErrorKind::EmptyBranch, position: pos });
    }
    let (mut unit, p) = match parse_unit(cs, pos) {
        Ok(x) => x,
        Err(e) => {
            return Err(e);
        },
    };
    if at_branch_end(cs, p) {
        return Ok((unit, p));
    }
    let (rest, q) = match parse_branch(cs, p) {
        Ok(x) => x,
        Err(e) => {
            return Err(e);
        },
    };
    let ghost head = unit;
    unit.next = Some(Box::new(rest));
    assert(unit.matchables == head.matchables && unit.repetition == head.repetition);
    assert(unit_head(cs@, pos as int, unit));
    Ok((unit, q))
}

/// Parses the branches that start at `pos`, one after each `|`, appending
/// each to `ms` as a group of its own; returns where the last one ends.
fn parse_alternatives(cs: &Vec<char>, pos: usize, ms: &mut Vec<Matchable>) -> (r: Result<usize, SyntaxError>)
    requires
        pos <= cs@.len(),
    ensures
        match r {
            Ok(p) => {
                &&& pos <= p <= cs@.len()
                &&& !(p < cs@.len() && cs@[p as int] == '|')
                &&& branches_end(cs@, pos as int) == Some(p as int)
                &&& final(ms)@.len() > old(ms)@.len()
                &&& forall|a: int| 0 <= a < old(ms)@.len() ==> #[trigger] final(ms)@[a] == old(ms)@[a]
                &&& alt_tree(cs@, pos as int, final(ms)@, old(ms)@.len() as int)
            },
            Err(e) => {
                &&& e.position <= cs@.len()
                &&& branches_end(cs@, pos as int) is None
                &&& (e.kind, e.position as int) == branches_error(cs@, pos as int)
            },
        },
    decreases cs@.len() - pos, 2nat,
{
    let (branch, q) = match parse_branch(cs, pos) {
        Ok(x) => x,
        Err(e) => {
            return Err(e);
        },
    };
    let ghost before = ms@;
    let m = Matchable::Subexpression(branch);
    ms.push(m);
    proof {
        vstd::seq::axiom_seq_push_len(before, m);
        vstd::seq::axiom_seq_push_index_same(before, m, before.len() as int);
        assert forall|a: int| 0 <= a < before.len() implies #[trigger] ms@[a] == before[a] by {
            vstd::seq::axiom_seq_push_index_different(before, m, a);
        }
    }
    if q < cs.len() && cs[q] == '|' {
        let ghost mid = ms@;
        let r = parse_alternatives(cs, q + 1, ms);
        proof {
            if r is Ok {
                assert(ms@[before.len() as int] == mid[before.len() as int]);
                assert forall|a: int| 0 <= a < before.len() implies #[trigger] ms@[a] == before[a] by {
                    assert(ms@[a] == mid[a]);
                }
            }
        }
        r
    } else {
        Ok(q)
    }
}

/// Parses a group: branches separated by `|`. With `bracket_start` the group
/// was opened by a `(` just before `pos` and must close with `)`; otherwise
/// it runs to the end of the pattern. A single branch is the group itself;
/// several become one unit that is the union of the branches.
pub fn parse_regex(cs: &Vec<char>, pos: usize, bracket_start: bool) -> (r: Result<
    (ChainedMatchable, usize),
    SyntaxError,
>)
    requires
        pos <= cs@.len(),
    ensures
        match r {
            Ok((c, p)) => {
                &&& pos <= p <= cs@.len()
                &&& (bracket_start ==> pos < p && cs@[p - 1] == ')')
                &&& (!bracket_start ==> p == cs@.len())
                &&& group_end(cs@, pos as int, bracket_start) == Some(p as int)
                &&& group_tree(cs@, pos as int, c)
            },
            Err(e) => {
                &&& e.position <= cs@.len()
                &&& group_end(cs@, pos as int, bracket_start) is None
                &&& (e.kind, e.position as int) == group_error(cs@, pos as int, bracket_start)
            },
        },
    decreases cs@.len() - pos, 3nat,
{
    let (first, p) = match parse_branch(cs, pos) {
        Ok(x) => x,
        Err(e) => {
            return Err(e);
        },
    };
    let mut end = p;
    let group = if p < cs.len() && cs[p] == '|' {
        let mut ms: Vec<Matchable> = Vec::new();
        let m = Matchable::Subexpression(first);
        ms.push(m);
        proof {
            vstd::seq::axiom_seq_push_len(Seq::<Matchable>::empty(), m);
            vstd::seq::axiom_seq_push_index_same(Seq::<Matchable>::empty(), m, 0);
        }
        let ghost first_ms = ms@;
        end = match parse_alternatives(cs, p + 1, &mut ms) {
            Ok(q) => q,
            Err(e) => {
                return Err(e);
            },
        };
        assert(ms@[0] == first_ms[0]);
        assert(alt_tree(cs@, pos as int, ms@, 0));
        ChainedMatchable {
            matchables: InvertibleMatchable {
                inverted: false,
                matchable: UnionMatchables { matchables: ms },
            },
            repetition: Repetition::One,
            next: None,
        }
    } else {
        first
    };
    if bracket_start {
        if end < cs.len() && cs[end] == ')' {
            Ok((group, end + 1))
        } else {
            Err(SyntaxError { kind: SyntaxErrorKind::UnbalancedGroup, position: end })
        }
    } else if end < cs.len() {
        Err(SyntaxError { kind: SyntaxErrorKind::UnbalancedGroup, position: end })
    } else {
        Ok((group, end))
    }
}

} // verus!
