//! The search: every candidate of the search space is evaluated, and those
//! that reach the target are kept in the order in which they were tried.

use crate::enumerate::all_pairs;
use crate::enumerate::digit_orderings;
use crate::enumerate::factorial_markings;
use crate::enumerate::lemma_each_marking_once;
use crate::enumerate::lemma_each_triple_once;
use crate::enumerate::marking;
use crate::enumerate::marking_index;
use crate::enumerate::operator_triple;
use crate::enumerate::operator_triples;
use crate::enumerate::orderings;
use crate::enumerate::pairs;
use crate::enumerate::rows_of;
use crate::enumerate::DIGIT_COUNT;
use crate::enumerate::GAP_COUNT;
use crate::enumerate::MARK_COUNT;
use crate::enumerate::MARKING_COUNT;
use crate::enumerate::MAX_ORDERINGS;
use crate::enumerate::TRIPLE_COUNT;
use crate::error::ArithmeticError;
use crate::evaluate::calculate;
use crate::evaluate::evaluate;
use crate::math::MAX_FACTORIAL_ARGUMENT;
use crate::operator::Operator;
use crate::render::decimal;
use crate::render::expression;
use crate::render::expression_text;
use crate::render::left_side_text;
use vstd::prelude::*;

verus! {

/// How many candidates there are for each ordering of the digits: one for
/// each operator triple and each marking.
pub const CHOICES_PER_ORDERING: usize = 85184;

/// One expression to try: four digits in some order, three operators and
/// six marks.
#[derive(Debug, PartialEq, Eq)]
pub struct Candidate {
    digits: Vec<i128>,
    ops: Vec<Operator>,
    marks: Vec<bool>,
}

/// What a [`Candidate`] holds.
pub struct CandidateView {
    pub digits: Seq<i128>,
    pub ops: Seq<Operator>,
    pub marks: Seq<bool>,
}

impl CandidateView {
    /// Four digits, three operators and six marks.
    pub open spec fn is_complete(self) -> bool {
        &&& self.digits.len() == DIGIT_COUNT
        &&& self.ops.len() == GAP_COUNT
        &&& self.marks.len() == MARK_COUNT
    }
}

impl View for Candidate {
    type V = CandidateView;

    closed spec fn view(&self) -> CandidateView {
        CandidateView { digits: self.digits@, ops: self.ops@, marks: self.marks@ }
    }
}

impl Candidate {
    #[verifier::type_invariant]
    spec fn is_complete(&self) -> bool {
        self@.is_complete()
    }

    /// Puts a candidate together, if it is given four digits, three
    /// operators and six marks.
    pub fn new(digits: Vec<i128>, ops: Vec<Operator>, marks: Vec<bool>) -> (made: Option<Candidate>)
        ensures
            made is Some <==> (CandidateView { digits: digits@, ops: ops@, marks: marks@ }).is_complete(),
            made matches Some(candidate) ==> candidate@ == (CandidateView {
                digits: digits@,
                ops: ops@,
                marks: marks@,
            }),
    {
        if digits.len() == DIGIT_COUNT && ops.len() == GAP_COUNT && marks.len() == MARK_COUNT {
            Some(Candidate { digits, ops, marks })
        } else {
            None
        }
    }

    /// The four digits, in the order in which the expression has them.
    pub fn digits(&self) -> (digits: &Vec<i128>)
        ensures
            digits@ == self@.digits,
            self@.is_complete(),
    {
        proof {
            use_type_invariant(self);
        }
        &self.digits
    }

    /// The three operators, from left to right.
    pub fn ops(&self) -> (ops: &Vec<Operator>)
        ensures
            ops@ == self@.ops,
            self@.is_complete(),
    {
        proof {
            use_type_invariant(self);
        }
        &self.ops
    }

    /// The six marks: whether the first operand, the second, the first
    /// intermediate result, the third operand, the second intermediate
    /// result and the fourth operand carry a factorial.
    pub fn marks(&self) -> (marks: &Vec<bool>)
        ensures
            marks@ == self@.marks,
            self@.is_complete(),
    {
        proof {
            use_type_invariant(self);
        }
        &self.marks
    }
}

/// What each of the candidates holds.
pub open spec fn views(found: Seq<Candidate>) -> Seq<CandidateView> {
    Seq::new(found.len(), |i: int| found[i]@)
}

/// The candidate at `index` of the search space over the orderings `rows`:
/// the marks change fastest, then the operators, then the ordering.
pub open spec fn candidate_at(rows: Seq<Seq<i128>>, index: int) -> CandidateView {
    CandidateView {
        digits: rows[index / (CHOICES_PER_ORDERING as int)],
        ops: operator_triple((index / (MARKING_COUNT as int)) % (TRIPLE_COUNT as int)),
        marks: marking(index % (MARKING_COUNT as int)),
    }
}

/// The search space over the orderings `rows`, in the order in which a
/// search goes through it.
pub open spec fn candidates(rows: Seq<Seq<i128>>) -> Seq<CandidateView> {
    Seq::new(rows.len() * CHOICES_PER_ORDERING as nat, |index: int| candidate_at(rows, index))
}

/// An index of the search space is made of the index of an ordering, that
/// of an operator triple and that of a marking, each found again by
/// division.
proof fn lemma_index_parts(row: int, triple: int, marks: int, index: int)
    requires
        0 <= triple < TRIPLE_COUNT,
        0 <= marks < MARKING_COUNT,
    ensures
        index == row * CHOICES_PER_ORDERING + triple * MARKING_COUNT + marks <==> {
            &&& index / (CHOICES_PER_ORDERING as int) == row
            &&& (index / (MARKING_COUNT as int)) % (TRIPLE_COUNT as int) == triple
            &&& index % (MARKING_COUNT as int) == marks
        },
{
}

/// The search space is complete: whatever ordering of `rows`, operators and
/// marks one picks, the candidate that holds them is in the space, at one
/// index only where the orderings differ from each other.
pub proof fn lemma_every_candidate_is_tried(
    rows: Seq<Seq<i128>>,
    row: int,
    first: Operator,
    second: Operator,
    third: Operator,
    marks: Seq<bool>,
)
    requires
        0 <= row < rows.len(),
        marks.len() == MARK_COUNT,
    ensures
        ({
            let triple = first.position() * 121 + second.position() * 11 + third.position();
            let index = row * CHOICES_PER_ORDERING + triple * MARKING_COUNT + marking_index(marks);
            let picked = CandidateView { digits: rows[row], ops: seq![first, second, third], marks };
            &&& 0 <= index < candidates(rows).len()
            &&& candidates(rows)[index] == picked
            &&& rows.no_duplicates() ==> forall|other: int|
                0 <= other < candidates(rows).len() && candidates(rows)[other] == picked ==> other
                    == index
        }),
{
    let triple = first.position() * 121 + second.position() * 11 + third.position();
    let marking_at = marking_index(marks);
    let index = row * CHOICES_PER_ORDERING + triple * MARKING_COUNT + marking_at;
    let picked = CandidateView { digits: rows[row], ops: seq![first, second, third], marks };
    lemma_each_triple_once(first, second, third);
    lemma_each_marking_once(marks);
    lemma_index_parts(row, triple, marking_at, index);
    assert(rows.len() * CHOICES_PER_ORDERING >= (row + 1) * CHOICES_PER_ORDERING) by (nonlinear_arith)
        requires
            row + 1 <= rows.len(),
    ;
    assert(candidate_at(rows, index) == picked);
    if rows.no_duplicates() {
        assert forall|other: int|
            0 <= other < candidates(rows).len() && candidates(rows)[other] == picked implies other
            == index by {
            let at = other / (CHOICES_PER_ORDERING as int);
            let other_triple = (other / (MARKING_COUNT as int)) % (TRIPLE_COUNT as int);
            let other_marking = other % (MARKING_COUNT as int);
            assert(0 <= at < rows.len()) by (nonlinear_arith)
                requires
                    0 <= other < rows.len() * CHOICES_PER_ORDERING,
                    at == other / (CHOICES_PER_ORDERING as int),
            ;
            let found = candidate_at(rows, other);
            assert(found == picked);
            assert(rows[at] == rows[row]);
            assert(at == row);
            assert(operator_triple(other_triple) == seq![first, second, third]);
            assert(other_triple == triple);
            assert(marking(other_marking) == marks);
            assert(other_marking == marking_at);
            lemma_index_parts(at, other_triple, other_marking, other);
        }
    }
}

/// Whether a candidate evaluates to the target.
pub open spec fn reaches(candidate: CandidateView, cache: Seq<i128>, target: i128) -> bool {
    evaluate(candidate.digits, candidate.ops, candidate.marks, cache) == Ok::<
        i128,
        ArithmeticError,
    >(target)
}

/// The test by which a search keeps a candidate.
pub open spec fn keeps(cache: Seq<i128>, target: i128) -> spec_fn(CandidateView) -> bool {
    |candidate: CandidateView| reaches(candidate, cache, target)
}

/// What a search has found: the candidates that reach the target, in the
/// order in which they were tried, and how many candidates were tried.
#[derive(Debug, PartialEq, Eq)]
pub struct SearchOutcome {
    pub matches: Vec<Candidate>,
    pub examined: usize,
}

/// Whether `found` is what a search for `target` finds on these digits.
pub open spec fn is_outcome_of(
    found: SearchOutcome,
    digits: Seq<i128>,
    in_order: bool,
    target: i128,
    cache: Seq<i128>,
) -> bool {
    &&& found.examined == candidates(orderings(digits, in_order)).len()
    &&& views(found.matches@) == candidates(orderings(digits, in_order)).filter(
        keeps(cache, target),
    )
}

/// The lines that show what a search has found, one for each match.
pub open spec fn lines_of(found: SearchOutcome, target: i128) -> Seq<Seq<char>> {
    Seq::new(
        found.matches@.len(),
        |i: int|
            expression_text(
                found.matches@[i]@.digits,
                found.matches@[i]@.ops,
                found.matches@[i]@.marks,
                target,
            ),
    )
}

/// A search is repeatable: two searches on the same digits for the same
/// target examine as many candidates, and find the same matches in the same
/// order, which are shown by the same lines.
pub proof fn lemma_search_is_repeatable(
    first: SearchOutcome,
    second: SearchOutcome,
    digits: Seq<i128>,
    in_order: bool,
    target: i128,
    cache: Seq<i128>,
)
    requires
        is_outcome_of(first, digits, in_order, target, cache),
        is_outcome_of(second, digits, in_order, target, cache),
    ensures
        first.examined == second.examined,
        first.matches@.len() == second.matches@.len(),
        views(first.matches@) == views(second.matches@),
        lines_of(first, target) == lines_of(second, target),
{
    assert(views(first.matches@).len() == first.matches@.len());
    assert(views(second.matches@).len() == second.matches@.len());
    assert forall|i: int| 0 <= i < first.matches@.len() implies lines_of(first, target)[i]
        == lines_of(second, target)[i] by {
        assert(views(first.matches@)[i] == first.matches@[i]@);
        assert(views(second.matches@)[i] == second.matches@[i]@);
    }
    assert(lines_of(first, target) =~= lines_of(second, target));
}

/// Every match of a search evaluates to the target and was tried, and the
/// line that shows it ends with the target.
pub proof fn lemma_matches_reach_target(
    found: SearchOutcome,
    digits: Seq<i128>,
    in_order: bool,
    target: i128,
    cache: Seq<i128>,
    i: int,
)
    requires
        is_outcome_of(found, digits, in_order, target, cache),
        0 <= i < found.matches@.len(),
    ensures
        reaches(found.matches@[i]@, cache, target),
        candidates(orderings(digits, in_order)).contains(found.matches@[i]@),
        found.matches@.len() <= found.examined,
        lines_of(found, target)[i] == left_side_text(
            found.matches@[i]@.digits,
            found.matches@[i]@.ops,
            found.matches@[i]@.marks,
        ) + " = "@ + decimal(target as int),
{
    let all = candidates(orderings(digits, in_order));
    let kept = all.filter(keeps(cache, target));
    assert(views(found.matches@).len() == found.matches@.len());
    assert(kept[i] == found.matches@[i]@);
    all.lemma_filter_pred(keeps(cache, target), i);
    assert(kept.contains(kept[i]));
    all.lemma_filter_contains_rev(keeps(cache, target), kept[i]);
    all.lemma_filter_len(keeps(cache, target));
}

/// Tries every candidate over the orderings `rows`, in the order of
/// [`candidates`], and keeps those that evaluate to `target`.
///
/// A candidate whose evaluation fails is passed over: no failure ends the
/// search.
pub fn search_over(rows: &Vec<Vec<i128>>, target: i128, cache: &Vec<i128>) -> (found: SearchOutcome)
    requires
        rows@.len() * CHOICES_PER_ORDERING <= usize::MAX,
        forall|j: int| 0 <= j < rows@.len() ==> (#[trigger] rows@[j])@.len() == DIGIT_COUNT,
        cache@.len() > MAX_FACTORIAL_ARGUMENT,
    ensures
        found.examined == rows@.len() * CHOICES_PER_ORDERING,
        views(found.matches@) == candidates(rows_of(rows@)).filter(keeps(cache@, target)),
{
    let triples: Vec<Vec<Operator>> = operator_triples();
    let markings: Vec<Vec<bool>> = factorial_markings();
    assert(rows@.len() * triples@.len() == rows@.len() * 1331) by (nonlinear_arith)
        requires
            triples@.len() == 1331,
    ;
    let outer: Vec<(usize, usize)> = pairs(rows.len(), triples.len());
    assert(outer@.len() * markings@.len() == outer@.len() * 64) by (nonlinear_arith)
        requires
            markings@.len() == 64,
    ;
    let all: Vec<(usize, usize)> = pairs(outer.len(), markings.len());
    let ghost space = candidates(rows_of(rows@));
    let ghost test = keeps(cache@, target);
    assert(rows_of(rows@).len() == rows@.len());
    assert(space.len() == all@.len());
    let mut matches: Vec<Candidate> = Vec::new();
    let mut next: usize = 0;
    assert(space.take(0) =~= Seq::<CandidateView>::empty());
    assert(views(matches@) =~= space.take(0).filter(test)) by {
        space.take(0).lemma_filter_len(test);
    }
    while next < all.len()
        invariant
            next <= all@.len(),
            triples@.len() == TRIPLE_COUNT,
            markings@.len() == MARKING_COUNT,
            outer@ == all_pairs(rows@.len() as nat, TRIPLE_COUNT as nat),
            all@ == all_pairs(outer@.len() as nat, MARKING_COUNT as nat),
            space == candidates(rows_of(rows@)),
            space.len() == all@.len(),
            test == keeps(cache@, target),
            cache@.len() > MAX_FACTORIAL_ARGUMENT,
            forall|j: int| 0 <= j < rows@.len() ==> (#[trigger] rows@[j])@.len() == DIGIT_COUNT,
            forall|j: int| 0 <= j < TRIPLE_COUNT ==> (#[trigger] triples@[j])@ == operator_triple(j),
            forall|j: int| 0 <= j < MARKING_COUNT ==> (#[trigger] markings@[j])@ == marking(j),
            views(matches@) == space.take(next as int).filter(test),
        decreases all@.len() - next,
    {
        let (outer_at, marking_at): (usize, usize) = all[next];
        let (row_at, triple_at): (usize, usize) = outer[outer_at];
        let row: &Vec<i128> = &rows[row_at];
        let triple: &Vec<Operator> = &triples[triple_at];
        let marks: &Vec<bool> = &markings[marking_at];
        let ghost tried = CandidateView { digits: row@, ops: triple@, marks: marks@ };
        proof {
            assert(tried == candidate_at(rows_of(rows@), next as int));
            assert(space[next as int] == tried);
            assert(space.take(next + 1) =~= space.take(next as int).push(tried));
            space.take(next as int).lemma_filter_push(tried, test);
        }
        let hit: bool = match calculate(row, triple, marks, cache) {
            Ok(value) => value == target,
            Err(_) => false,
        };
        assert(hit == reaches(tried, cache@, target));
        if hit {
            let ghost before = matches@;
            matches.push(Candidate { digits: row.clone(), ops: triple.clone(), marks: marks.clone() });
            assert(views(matches@) =~= views(before).push(tried));
        }
        next = next + 1;
    }
    assert(space.take(next as int) =~= space);
    SearchOutcome { matches, examined: all.len() }
}

/// Tries every candidate over the orderings of `digits` and keeps those
/// that evaluate to `target`.
///
/// A candidate whose evaluation fails is passed over: no failure ends the
/// search. With `in_order` the digits stay as given and 85184 candidates
/// are tried; without it each distinct ordering of the digits is tried, up
/// to twenty-four times as many.
pub fn search(digits: &Vec<i128>, in_order: bool, target: i128, cache: &Vec<i128>) -> (found:
    SearchOutcome)
    requires
        digits@.len() == DIGIT_COUNT,
        cache@.len() > MAX_FACTORIAL_ARGUMENT,
    ensures
        is_outcome_of(found, digits@, in_order, target, cache@),
        found.examined == orderings(digits@, in_order).len() * CHOICES_PER_ORDERING,
        CHOICES_PER_ORDERING <= found.examined <= MAX_ORDERINGS * CHOICES_PER_ORDERING,
        in_order ==> found.examined == CHOICES_PER_ORDERING,
        !in_order && digits@.no_duplicates() ==> found.examined == MAX_ORDERINGS
            * CHOICES_PER_ORDERING,
        found.matches@.len() <= found.examined,
        forall|i: int|
            0 <= i < found.matches@.len() ==> reaches((#[trigger] found.matches@[i])@, cache@, target),
{
    let rows: Vec<Vec<i128>> = digit_orderings(digits, in_order);
    let found: SearchOutcome = search_over(&rows, target, cache);
    proof {
        let space = candidates(rows_of(rows@));
        let test = keeps(cache@, target);
        assert(rows_of(rows@).len() == rows@.len());
        space.lemma_filter_len(test);
        assert(views(found.matches@).len() == found.matches@.len());
        assert forall|i: int| 0 <= i < found.matches@.len() implies reaches(
            (#[trigger] found.matches@[i])@,
            cache@,
            target,
        ) by {
            assert(views(found.matches@)[i] == found.matches@[i]@);
            space.lemma_filter_pred(test, i);
        }
    }
    found
}

/// Writes the line that shows each match of `found`, in the order of the
/// matches.
pub fn lines(found: &SearchOutcome, target: i128) -> (shown: Vec<String>)
    ensures
        shown@.len() == found.matches@.len(),
        forall|i: int| 0 <= i < shown@.len() ==> (#[trigger] shown@[i])@ == lines_of(*found, target)[i],
{
    let mut shown: Vec<String> = Vec::new();
    let mut next: usize = 0;
    while next < found.matches.len()
        invariant
            next <= found.matches@.len(),
            shown@.len() == next,
            forall|i: int| 0 <= i < next ==> (#[trigger] shown@[i])@ == lines_of(*found, target)[i],
        decreases found.matches@.len() - next,
    {
        let tried: &Candidate = &found.matches[next];
        shown.push(expression(tried.digits(), tried.ops(), tried.marks(), target));
        next = next + 1;
    }
    shown
}

} // verus!
