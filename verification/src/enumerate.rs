//! The search space: the orderings of the digits, the operator triples and
//! the ways to mark six places with a factorial.
//!
//! The combinatorics come from `itertools`, which is asked for positions
//! only. What it returns is stated in the contracts of five small functions
//! that Verus takes on trust; everything built on them is verified.

use crate::operator::lemma_operator_at_position;
use crate::operator::lemma_position_of_operator;
use crate::operator::operator_at;
use crate::operator::Operator;
use crate::operator::OPERATOR_COUNT;
use itertools::Itertools;
use vstd::prelude::*;

verus! {

/// How many digits an expression has.
pub const DIGIT_COUNT: usize = 4;

/// How many operators an expression has.
pub const GAP_COUNT: usize = 3;

/// How many places of an expression can carry a factorial.
pub const MARK_COUNT: usize = 6;

/// How many operator triples there are.
pub const TRIPLE_COUNT: usize = 1331;

/// How many ways there are to mark the places of an expression.
pub const MARKING_COUNT: usize = 64;

/// How many orderings four digits have at most.
pub const MAX_ORDERINGS: usize = 24;

/// The rows of a table as sequences.
pub open spec fn rows_of<T>(table: Seq<Vec<T>>) -> Seq<Seq<T>> {
    Seq::new(table.len(), |j: int| table[j]@)
}

/// The number of ways to line up `k` out of `n` things: `n! / (n - k)!`,
/// and zero where `k` exceeds `n`.
pub open spec fn arrangement_count(n: nat, k: nat) -> nat
    decreases k,
{
    if k == 0 {
        1
    } else if n == 0 {
        0
    } else {
        n * arrangement_count((n - 1) as nat, (k - 1) as nat)
    }
}

/// A line-up of `k` positions below `n`, none of them taken twice.
pub open spec fn is_arrangement(n: nat, k: nat, places: Seq<usize>) -> bool {
    &&& places.len() == k
    &&& forall|i: int| 0 <= i < places.len() ==> places[i] < n
    &&& forall|i: int, j: int| 0 <= i < j < places.len() ==> places[i] != places[j]
}

/// `all` holds each line-up of `k` positions below `n` exactly once.
pub open spec fn holds_each_arrangement(n: nat, k: nat, all: Seq<Seq<usize>>) -> bool {
    &&& all.len() == arrangement_count(n, k)
    &&& all.no_duplicates()
    &&& forall|j: int| 0 <= j < all.len() ==> is_arrangement(n, k, #[trigger] all[j])
    &&& forall|places: Seq<usize>| is_arrangement(n, k, places) ==> all.contains(places)
}

/// The line-ups of `k` positions below `n`, in the order in which
/// `Itertools::permutations` yields them.
pub uninterp spec fn arrangements(n: usize, k: usize) -> Seq<Seq<usize>>;

/// `Itertools::permutations` on the positions `0..n`.
///
/// Trusted: the call yields the same line-ups in the same order whenever it
/// is given the same `n` and `k`, and, as its documentation says, it
/// iterates over all `k`-permutations by position, of which there are
/// `n! / (n - k)!`.
#[verifier::external_body]
fn position_arrangements(n: usize, k: usize) -> (all: Vec<Vec<usize>>)
    requires
        arrangement_count(n as nat, k as nat) <= usize::MAX,
    ensures
        rows_of(all@) == arrangements(n, k),
        holds_each_arrangement(n as nat, k as nat, rows_of(all@)),
{
    (0..n).permutations(k).collect_vec()
}

/// The rows of `rows` without those that stand earlier in it already.
pub open spec fn first_occurrences(rows: Seq<Seq<i128>>) -> Seq<Seq<i128>>
    decreases rows.len(),
{
    if rows.len() == 0 {
        rows
    } else if rows.drop_last().contains(rows.last()) {
        first_occurrences(rows.drop_last())
    } else {
        first_occurrences(rows.drop_last()).push(rows.last())
    }
}

/// `Itertools::unique` on rows of integers.
///
/// Trusted: as its documentation says, the call keeps the first of each set
/// of equal rows and leaves the rows it keeps in their order.
#[verifier::external_body]
fn without_repeats(rows: &Vec<Vec<i128>>) -> (kept: Vec<Vec<i128>>)
    ensures
        rows_of(kept@) == first_occurrences(rows_of(rows@)),
{
    rows.iter().cloned().unique().collect_vec()
}

/// `itertools::repeat_n` on a pool of positions.
///
/// Trusted: the call yields `n` copies of `pool`.
#[verifier::external_body]
fn copies(pool: &Vec<usize>, n: usize) -> (pools: Vec<Vec<usize>>)
    ensures
        rows_of(pools@) == Seq::new(n as nat, |i: int| pool@),
{
    itertools::repeat_n(pool.clone(), n).collect_vec()
}

/// The number of ways to pick one item from each of the pools that stand at
/// `from` or later.
pub open spec fn choices_from(pools: Seq<Seq<usize>>, from: int) -> nat
    decreases pools.len() - from,
{
    if from < 0 || from >= pools.len() {
        1
    } else {
        pools[from].len() * choices_from(pools, from + 1)
    }
}

/// Every way to pick one item from each pool, the picks from the last pool
/// changing fastest.
pub open spec fn all_picks(pools: Seq<Seq<usize>>) -> Seq<Seq<usize>> {
    Seq::new(
        choices_from(pools, 0),
        |j: int|
            Seq::new(
                pools.len(),
                |i: int| pools[i][(j / (choices_from(pools, i + 1) as int)) % (pools[i].len() as int)],
            ),
    )
}

/// `Itertools::multi_cartesian_product` on pools of positions.
///
/// Trusted: the call yields every way to pick one item from each pool, and
/// steps through the last pool fastest, as the example in its documentation
/// shows. No pool gives one empty pick; an empty pool gives none.
#[verifier::external_body]
fn picks(pools: &Vec<Vec<usize>>) -> (all: Vec<Vec<usize>>)
    requires
        choices_from(rows_of(pools@), 0) <= usize::MAX,
    ensures
        rows_of(all@) == all_picks(rows_of(pools@)),
{
    pools.iter().map(|pool| pool.iter().copied()).multi_cartesian_product().collect_vec()
}

/// Every pair of a row below `rows` and a column below `columns`, row by row.
pub open spec fn all_pairs(rows: nat, columns: nat) -> Seq<(usize, usize)> {
    Seq::new(
        rows * columns,
        |j: int| ((j / (columns as int)) as usize, (j % (columns as int)) as usize),
    )
}

/// `Itertools::cartesian_product` on the positions `0..rows` and
/// `0..columns`.
///
/// Trusted: the call pairs each row with each column and steps through the
/// columns fastest, as the example in its documentation shows.
#[verifier::external_body]
pub(crate) fn pairs(rows: usize, columns: usize) -> (all: Vec<(usize, usize)>)
    requires
        rows * columns <= usize::MAX,
    ensures
        all@ == all_pairs(rows as nat, columns as nat),
{
    (0..rows).cartesian_product(0..columns).collect_vec()
}

/// The positions `0..n` in rising order.
fn positions(n: usize) -> (pool: Vec<usize>)
    ensures
        pool@ == Seq::new(n as nat, |i: int| i as usize),
{
    let mut pool: Vec<usize> = Vec::new();
    let mut next: usize = 0;
    while next < n
        invariant
            next <= n,
            pool@ == Seq::new(next as nat, |i: int| i as usize),
        decreases n - next,
    {
        pool.push(next);
        next = next + 1;
    }
    pool
}

/// The digits that stand at `places`, in the order of `places`.
pub open spec fn rearranged(digits: Seq<i128>, places: Seq<usize>) -> Seq<i128> {
    Seq::new(places.len(), |i: int| digits[places[i] as int])
}

/// The digits rearranged by each line-up of `all` in turn.
pub open spec fn rearrangements(digits: Seq<i128>, all: Seq<Seq<usize>>) -> Seq<Seq<i128>> {
    Seq::new(all.len(), |j: int| rearranged(digits, all[j]))
}

/// `row` holds the four digits, each position of `digits` used once.
pub open spec fn is_ordering_of(digits: Seq<i128>, row: Seq<i128>) -> bool {
    exists|places: Seq<usize>|
        is_arrangement(DIGIT_COUNT as nat, DIGIT_COUNT as nat, places) && row == #[trigger] rearranged(
            digits,
            places,
        )
}

/// The orderings of four digits that a search goes through: the digits as
/// given where `in_order` is set, else each distinct rearrangement once.
pub open spec fn orderings(digits: Seq<i128>, in_order: bool) -> Seq<Seq<i128>> {
    if in_order {
        seq![digits]
    } else {
        first_occurrences(rearrangements(digits, arrangements(DIGIT_COUNT, DIGIT_COUNT)))
    }
}

/// Dropping repeated rows leaves each row of the input once, and changes
/// nothing where no row is repeated.
pub proof fn lemma_first_occurrences(rows: Seq<Seq<i128>>)
    ensures
        first_occurrences(rows).no_duplicates(),
        forall|row: Seq<i128>| first_occurrences(rows).contains(row) <==> rows.contains(row),
        first_occurrences(rows).len() <= rows.len(),
        rows.len() > 0 ==> first_occurrences(rows).len() > 0,
        rows.no_duplicates() ==> first_occurrences(rows) == rows,
    decreases rows.len(),
{
    if rows.len() > 0 {
        let earlier = rows.drop_last();
        let last = rows.last();
        let kept = first_occurrences(earlier);
        lemma_first_occurrences(earlier);
        assert(rows =~= earlier.push(last));
        assert forall|row: Seq<i128>| rows.contains(row) <==> (earlier.contains(row) || row
            == last) by {
            if rows.contains(row) {
                let at = choose|at: int| 0 <= at < rows.len() && rows[at] == row;
                if at < earlier.len() {
                    assert(earlier[at] == row);
                }
            }
            if earlier.contains(row) {
                let at = choose|at: int| 0 <= at < earlier.len() && earlier[at] == row;
                assert(rows[at] == row);
            }
            if row == last {
                assert(rows[rows.len() - 1] == row);
            }
        }
        if earlier.contains(last) {
            assert(first_occurrences(rows) == kept);
            if rows.no_duplicates() {
                let at = choose|at: int| 0 <= at < earlier.len() && earlier[at] == last;
                assert(rows[at] == rows[rows.len() - 1]);
            }
        } else {
            assert(first_occurrences(rows) == kept.push(last));
            assert forall|row: Seq<i128>| kept.push(last).contains(row) <==> (kept.contains(row)
                || row == last) by {
                if kept.push(last).contains(row) {
                    let at = choose|at: int|
                        0 <= at < kept.push(last).len() && kept.push(last)[at] == row;
                    if at < kept.len() {
                        assert(kept[at] == row);
                    }
                }
                if kept.contains(row) {
                    let at = choose|at: int| 0 <= at < kept.len() && kept[at] == row;
                    assert(kept.push(last)[at] == row);
                }
                if row == last {
                    assert(kept.push(last)[kept.len() as int] == row);
                }
            }
            assert(kept.push(last).no_duplicates()) by {
                assert forall|i: int, j: int|
                    0 <= i < kept.len() + 1 && 0 <= j < kept.len() + 1 && i != j implies kept.push(
                    last,
                )[i] != kept.push(last)[j] by {
                    if i < kept.len() && j < kept.len() {
                    } else if i < kept.len() {
                        assert(kept.contains(kept[i]));
                    } else {
                        assert(kept.contains(kept[j]));
                    }
                }
            }
            if rows.no_duplicates() {
                assert(earlier.no_duplicates()) by {
                    assert forall|i: int, j: int|
                        0 <= i < earlier.len() && 0 <= j < earlier.len() && i != j implies earlier[i]
                        != earlier[j] by {
                        assert(rows[i] != rows[j]);
                    }
                }
            }
        }
    }
}

/// Distinct digits give distinct rows under distinct line-ups.
proof fn lemma_distinct_rearrangements(digits: Seq<i128>, all: Seq<Seq<usize>>)
    requires
        digits.len() == DIGIT_COUNT,
        digits.no_duplicates(),
        holds_each_arrangement(DIGIT_COUNT as nat, DIGIT_COUNT as nat, all),
    ensures
        rearrangements(digits, all).no_duplicates(),
{
    let rows = rearrangements(digits, all);
    assert forall|j: int, m: int| 0 <= j < rows.len() && 0 <= m < rows.len() && j != m implies rows[j]
        != rows[m] by {
        if rows[j] == rows[m] {
            assert(is_arrangement(DIGIT_COUNT as nat, DIGIT_COUNT as nat, all[j]));
            assert(is_arrangement(DIGIT_COUNT as nat, DIGIT_COUNT as nat, all[m]));
            assert forall|i: int| 0 <= i < DIGIT_COUNT implies all[j][i] == all[m][i] by {
                assert(rows[j][i] == digits[all[j][i] as int]);
                assert(rows[m][i] == digits[all[m][i] as int]);
            }
            assert(all[j] =~= all[m]);
        }
    }
}

/// Four things can be lined up in twenty-four ways.
proof fn lemma_orderings_at_most()
    ensures
        arrangement_count(DIGIT_COUNT as nat, DIGIT_COUNT as nat) == MAX_ORDERINGS,
{
    reveal_with_fuel(arrangement_count, 5);
}

/// Rearranges `digits` by each line-up of `all` in turn.
fn rearrange(digits: &Vec<i128>, all: &Vec<Vec<usize>>) -> (rows: Vec<Vec<i128>>)
    requires
        forall|j: int, i: int|
            0 <= j < all@.len() && 0 <= i < all@[j]@.len() ==> all@[j]@[i] < digits@.len(),
    ensures
        rows_of(rows@) == rearrangements(digits@, rows_of(all@)),
{
    let mut rows: Vec<Vec<i128>> = Vec::new();
    let mut j: usize = 0;
    while j < all.len()
        invariant
            j <= all@.len(),
            rows@.len() == j,
            forall|m: int| 0 <= m < j ==> rows@[m]@ == rearranged(digits@, all@[m]@),
            forall|j: int, i: int|
                0 <= j < all@.len() && 0 <= i < all@[j]@.len() ==> all@[j]@[i] < digits@.len(),
        decreases all@.len() - j,
    {
        let places: &Vec<usize> = &all[j];
        let mut row: Vec<i128> = Vec::new();
        let mut i: usize = 0;
        while i < places.len()
            invariant
                i <= places@.len(),
                row@.len() == i,
                forall|m: int| 0 <= m < i ==> row@[m] == digits@[places@[m] as int],
                forall|m: int| 0 <= m < places@.len() ==> places@[m] < digits@.len(),
            decreases places@.len() - i,
        {
            row.push(digits[places[i]]);
            i = i + 1;
        }
        assert(row@ =~= rearranged(digits@, places@));
        rows.push(row);
        j = j + 1;
    }
    assert(rows_of(rows@) =~= rearrangements(digits@, rows_of(all@)));
    rows
}

/// Rearranges `digits` by each line-up of `all` in turn, and keeps the
/// first of each set of equal rearrangements.
pub fn distinct_rearrangements(digits: &Vec<i128>, all: &Vec<Vec<usize>>) -> (kept: Vec<Vec<i128>>)
    requires
        forall|j: int, i: int|
            0 <= j < all@.len() && 0 <= i < all@[j]@.len() ==> all@[j]@[i] < digits@.len(),
    ensures
        rows_of(kept@) == first_occurrences(rearrangements(digits@, rows_of(all@))),
        rows_of(kept@).no_duplicates(),
        forall|row: Seq<i128>|
            rows_of(kept@).contains(row) <==> rearrangements(digits@, rows_of(all@)).contains(row),
        kept@.len() <= all@.len(),
        all@.len() > 0 ==> kept@.len() > 0,
{
    let raw: Vec<Vec<i128>> = rearrange(digits, all);
    let kept: Vec<Vec<i128>> = without_repeats(&raw);
    proof {
        lemma_first_occurrences(rows_of(raw@));
        assert(rows_of(kept@).len() == kept@.len());
        assert(rows_of(raw@).len() == all@.len());
    }
    kept
}

/// The orderings of the four digits that a search goes through.
///
/// Where `in_order` is set there is one, the digits as given. Else there is
/// one for each distinct rearrangement of the digits: twenty-four where the
/// digits differ from each other, fewer where some are equal.
pub fn digit_orderings(digits: &Vec<i128>, in_order: bool) -> (rows: Vec<Vec<i128>>)
    requires
        digits@.len() == DIGIT_COUNT,
    ensures
        rows_of(rows@) == orderings(digits@, in_order),
        1 <= rows@.len() <= MAX_ORDERINGS,
        in_order ==> rows@.len() == 1,
        !in_order && digits@.no_duplicates() ==> rows@.len() == MAX_ORDERINGS,
        rows_of(rows@).no_duplicates(),
        forall|j: int| 0 <= j < rows@.len() ==> is_ordering_of(digits@, #[trigger] rows@[j]@),
        forall|row: Seq<i128>|
            !in_order && is_ordering_of(digits@, row) ==> rows_of(rows@).contains(row),
{
    if in_order {
        let mut rows: Vec<Vec<i128>> = Vec::new();
        rows.push(digits.clone());
        proof {
            assert(rows_of(rows@) =~= seq![digits@]);
            let places: Seq<usize> = seq![0usize, 1usize, 2usize, 3usize];
            assert(is_arrangement(DIGIT_COUNT as nat, DIGIT_COUNT as nat, places));
            assert(digits@ =~= rearranged(digits@, places));
        }
        return rows;
    }
    proof {
        lemma_orderings_at_most();
    }
    let all: Vec<Vec<usize>> = position_arrangements(DIGIT_COUNT, DIGIT_COUNT);
    assert forall|j: int, i: int|
        0 <= j < all@.len() && 0 <= i < all@[j]@.len() implies all@[j]@[i] < digits@.len() by {
        assert(is_arrangement(DIGIT_COUNT as nat, DIGIT_COUNT as nat, rows_of(all@)[j]));
        assert(rows_of(all@)[j][i] == all@[j]@[i]);
    }
    let rows: Vec<Vec<i128>> = distinct_rearrangements(digits, &all);
    proof {
        let places = rows_of(all@);
        let before = rearrangements(digits@, places);
        let kept = rows_of(rows@);
        lemma_first_occurrences(before);
        if digits@.no_duplicates() {
            lemma_distinct_rearrangements(digits@, places);
        }
        assert forall|j: int| 0 <= j < rows@.len() implies is_ordering_of(
            digits@,
            #[trigger] rows@[j]@,
        ) by {
            assert(kept[j] == rows@[j]@);
            assert(kept.contains(kept[j]));
            assert(before.contains(kept[j]));
            let m = choose|m: int| 0 <= m < before.len() && before[m] == kept[j];
            assert(is_arrangement(DIGIT_COUNT as nat, DIGIT_COUNT as nat, places[m]));
            assert(before[m] == rearranged(digits@, places[m]));
        }
        assert forall|row: Seq<i128>| is_ordering_of(digits@, row) implies kept.contains(row) by {
            let line_up = choose|line_up: Seq<usize>|
                is_arrangement(DIGIT_COUNT as nat, DIGIT_COUNT as nat, line_up) && row
                    == #[trigger] rearranged(digits@, line_up);
            assert(places.contains(line_up));
            let m = choose|m: int| 0 <= m < places.len() && places[m] == line_up;
            assert(before[m] == row);
            assert(before.contains(row));
        }
    }
    rows
}

/// The three operators that stand at `index` among all triples: the last
/// operator changes fastest, the first slowest.
pub open spec fn operator_triple(index: int) -> Seq<Operator> {
    seq![operator_at(index / 121), operator_at((index / 11) % 11), operator_at(index % 11)]
}

/// Every choice of three operators has its index among the triples.
pub proof fn lemma_each_triple_once(first: Operator, second: Operator, third: Operator)
    ensures
        ({
            let index = first.position() * 121 + second.position() * 11 + third.position();
            &&& 0 <= index < TRIPLE_COUNT
            &&& operator_triple(index) =~= seq![first, second, third]
            &&& forall|other: int|
                0 <= other < TRIPLE_COUNT && operator_triple(other) == seq![first, second, third]
                    ==> other == index
        }),
{
    let a = first.position();
    let b = second.position();
    let c = third.position();
    let index = a * 121 + b * 11 + c;
    lemma_operator_at_position(first);
    lemma_operator_at_position(second);
    lemma_operator_at_position(third);
    assert(index / 121 == a && (index / 11) % 11 == b && index % 11 == c);
    assert forall|other: int|
        0 <= other < TRIPLE_COUNT && operator_triple(other) == seq![
            first,
            second,
            third,
        ] implies other == index by {
        let triple = operator_triple(other);
        assert(triple[0] == first && triple[1] == second && triple[2] == third);
        lemma_position_of_operator(other / 121);
        lemma_position_of_operator((other / 11) % 11);
        lemma_position_of_operator(other % 11);
        assert(other / 121 == a && (other / 11) % 11 == b && other % 11 == c);
    }
}

/// Three pools of eleven allow 1331 picks.
proof fn lemma_triple_choices(pools: Seq<Seq<usize>>)
    requires
        pools.len() == GAP_COUNT,
        forall|i: int| 0 <= i < pools.len() ==> (#[trigger] pools[i]).len() == OPERATOR_COUNT,
    ensures
        choices_from(pools, 3) == 1,
        choices_from(pools, 2) == 11,
        choices_from(pools, 1) == 121,
        choices_from(pools, 0) == TRIPLE_COUNT,
{
    assert(choices_from(pools, 3) == 1);
    assert(choices_from(pools, 2) == pools[2].len() * choices_from(pools, 3));
    assert(choices_from(pools, 1) == pools[1].len() * choices_from(pools, 2));
    assert(choices_from(pools, 0) == pools[0].len() * choices_from(pools, 1));
}

/// Six pools of two allow 64 picks.
proof fn lemma_marking_choices(pools: Seq<Seq<usize>>)
    requires
        pools.len() == MARK_COUNT,
        forall|i: int| 0 <= i < pools.len() ==> (#[trigger] pools[i]).len() == 2,
    ensures
        choices_from(pools, 6) == 1,
        choices_from(pools, 5) == 2,
        choices_from(pools, 4) == 4,
        choices_from(pools, 3) == 8,
        choices_from(pools, 2) == 16,
        choices_from(pools, 1) == 32,
        choices_from(pools, 0) == MARKING_COUNT,
{
    assert(choices_from(pools, 6) == 1);
    assert(choices_from(pools, 5) == pools[5].len() * choices_from(pools, 6));
    assert(choices_from(pools, 4) == pools[4].len() * choices_from(pools, 5));
    assert(choices_from(pools, 3) == pools[3].len() * choices_from(pools, 4));
    assert(choices_from(pools, 2) == pools[2].len() * choices_from(pools, 3));
    assert(choices_from(pools, 1) == pools[1].len() * choices_from(pools, 2));
    assert(choices_from(pools, 0) == pools[0].len() * choices_from(pools, 1));
}

/// Every triple of operators, in the order of [`operator_triple`].
pub fn operator_triples() -> (triples: Vec<Vec<Operator>>)
    ensures
        triples@.len() == TRIPLE_COUNT,
        forall|j: int| 0 <= j < TRIPLE_COUNT ==> (#[trigger] triples@[j])@ == operator_triple(j),
{
    let pool: Vec<usize> = positions(OPERATOR_COUNT);
    let pools: Vec<Vec<usize>> = copies(&pool, GAP_COUNT);
    proof {
        lemma_triple_choices(rows_of(pools@));
    }
    let all: Vec<Vec<usize>> = picks(&pools);
    assert(rows_of(all@).len() == all@.len());
    let mut triples: Vec<Vec<Operator>> = Vec::new();
    let mut j: usize = 0;
    while j < all.len()
        invariant
            j <= all@.len(),
            all@.len() == TRIPLE_COUNT,
            rows_of(all@) == all_picks(rows_of(pools@)),
            rows_of(pools@) == Seq::new(3, |i: int| pool@),
            pool@ == Seq::new(11, |i: int| i as usize),
            triples@.len() == j,
            forall|m: int| 0 <= m < j ==> (#[trigger] triples@[m])@ == operator_triple(m),
        decreases all@.len() - j,
    {
        let pick: &Vec<usize> = &all[j];
        proof {
            lemma_triple_choices(rows_of(pools@));
            assert(rows_of(all@)[j as int] == pick@);
            assert(pick@.len() == 3);
            assert(pick@[0] == (j as int / 121) % 11);
            assert(pick@[1] == (j as int / 11) % 11);
            assert(pick@[2] == (j as int / 1) % 11);
        }
        let mut triple: Vec<Operator> = Vec::new();
        let mut i: usize = 0;
        while i < pick.len()
            invariant
                i <= pick@.len(),
                triple@.len() == i,
                forall|m: int| 0 <= m < pick@.len() ==> pick@[m] < OPERATOR_COUNT,
                forall|m: int| 0 <= m < i ==> triple@[m] == operator_at(pick@[m] as int),
            decreases pick@.len() - i,
        {
            let op: Option<Operator> = Operator::from_index(pick[i]);
            assert(op is Some);
            triple.push(op.unwrap());
            i = i + 1;
        }
        assert(triple@ =~= operator_triple(j as int));
        triples.push(triple);
        j = j + 1;
    }
    triples
}

/// The six marks that stand at `index` among all markings: the mark of the
/// last place changes fastest, that of the first slowest.
pub open spec fn marking(index: int) -> Seq<bool> {
    seq![
        (index / 32) % 2 == 1,
        (index / 16) % 2 == 1,
        (index / 8) % 2 == 1,
        (index / 4) % 2 == 1,
        (index / 2) % 2 == 1,
        index % 2 == 1,
    ]
}

/// The index of a marking: its marks read as a binary number.
pub open spec fn marking_index(marks: Seq<bool>) -> int {
    (if marks[0] {
        32int
    } else {
        0int
    }) + (if marks[1] {
        16int
    } else {
        0int
    }) + (if marks[2] {
        8int
    } else {
        0int
    }) + (if marks[3] {
        4int
    } else {
        0int
    }) + (if marks[4] {
        2int
    } else {
        0int
    }) + (if marks[5] {
        1int
    } else {
        0int
    })
}

/// Every way to mark six places has its index among the markings.
pub proof fn lemma_each_marking_once(marks: Seq<bool>)
    requires
        marks.len() == MARK_COUNT,
    ensures
        0 <= marking_index(marks) < MARKING_COUNT,
        marking(marking_index(marks)) =~= marks,
        forall|other: int|
            0 <= other < MARKING_COUNT && marking(other) == marks ==> other == marking_index(marks),
{
    assert forall|other: int| 0 <= other < MARKING_COUNT && marking(other) == marks implies other
        == marking_index(marks) by {
        let found = marking(other);
        assert(found[0] == marks[0] && found[1] == marks[1] && found[2] == marks[2] && found[3]
            == marks[3] && found[4] == marks[4] && found[5] == marks[5]);
    }
}

/// Every way to mark the six places of an expression, in the order of
/// [`marking`].
pub fn factorial_markings() -> (markings: Vec<Vec<bool>>)
    ensures
        markings@.len() == MARKING_COUNT,
        forall|j: int| 0 <= j < MARKING_COUNT ==> (#[trigger] markings@[j])@ == marking(j),
{
    let pool: Vec<usize> = positions(2);
    let pools: Vec<Vec<usize>> = copies(&pool, MARK_COUNT);
    proof {
        lemma_marking_choices(rows_of(pools@));
    }
    let all: Vec<Vec<usize>> = picks(&pools);
    assert(rows_of(all@).len() == all@.len());
    let mut markings: Vec<Vec<bool>> = Vec::new();
    let mut j: usize = 0;
    while j < all.len()
        invariant
            j <= all@.len(),
            all@.len() == MARKING_COUNT,
            rows_of(all@) == all_picks(rows_of(pools@)),
            rows_of(pools@) == Seq::new(6, |i: int| pool@),
            pool@ == Seq::new(2, |i: int| i as usize),
            markings@.len() == j,
            forall|m: int| 0 <= m < j ==> (#[trigger] markings@[m])@ == marking(m),
        decreases all@.len() - j,
    {
        let pick: &Vec<usize> = &all[j];
        proof {
            lemma_marking_choices(rows_of(pools@));
            assert(rows_of(all@)[j as int] == pick@);
            assert(pick@.len() == 6);
            assert(pick@[0] == (j as int / 32) % 2);
            assert(pick@[1] == (j as int / 16) % 2);
            assert(pick@[2] == (j as int / 8) % 2);
            assert(pick@[3] == (j as int / 4) % 2);
            assert(pick@[4] == (j as int / 2) % 2);
            assert(pick@[5] == (j as int / 1) % 2);
        }
        let mut marks: Vec<bool> = Vec::new();
        let mut i: usize = 0;
        while i < pick.len()
            invariant
                i <= pick@.len(),
                marks@.len() == i,
                forall|m: int| 0 <= m < i ==> marks@[m] == (pick@[m] == 1),
            decreases pick@.len() - i,
        {
            marks.push(pick[i] == 1);
            i = i + 1;
        }
        assert(marks@ =~= marking(j as int));
        markings.push(marks);
        j = j + 1;
    }
    markings
}

} // verus!
