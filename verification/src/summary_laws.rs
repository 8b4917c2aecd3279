//! What holds of the figures of a column of numbers.
use vstd::prelude::*;
use crate::arith::{ONE_AND_A_HALF, TWO};
use crate::column::FastColumn;
use crate::number::Number;
use crate::summary::{NumericReport, NumericSummary};

verus! {

/// Whether nothing among some numbers is not a number.
pub open spec fn numbers_all(values: Seq<Number>) -> bool {
    forall|i: int| 0 <= i < values.len() ==> !(#[trigger] values[i]).nan()
}

/// The least and the greatest number are numbers of the column, and all lie between them. The column
/// is constant exactly where all its numbers are equal.
pub proof fn law_range_of_numbers(s: NumericSummary, values: Seq<Number>)
    requires
        s.describes(values),
        values.len() > 0,
        numbers_all(values),
    ensures
        values.contains(s.min),
        values.contains(s.max),
        forall|i: int|
            0 <= i < values.len() ==> s.min.le(#[trigger] values[i]) && values[i].le(s.max),
        s.is_constant <==> forall|i: int, j: int|
            0 <= i < values.len() && 0 <= j < values.len() ==> (#[trigger] values[i]).equals(
                #[trigger] values[j],
            ),
{
    let a = crate::selection::law_least(values);
    let b = crate::selection::law_greatest(values);
    if s.is_constant {
        assert forall|i: int, j: int|
            0 <= i < values.len() && 0 <= j < values.len() implies (#[trigger] values[i]).equals(
            #[trigger] values[j],
        ) by {
            assert(s.min.le(values[i]) && values[i].le(s.max));
            assert(s.min.le(values[j]) && values[j].le(s.max));
        }
    }
    if forall|i: int, j: int|
        0 <= i < values.len() && 0 <= j < values.len() ==> (#[trigger] values[i]).equals(
            #[trigger] values[j],
        ) {
        assert(values[a].equals(values[b]));
    }
}

/// The sum is that of the numbers in the order of the rows, the mean the sum by how many they are, and
/// the standard deviation the root of the mean of the squares of the differences from the mean: of all
/// numbers, not of one less.
pub proof fn law_mean_and_deviation(s: NumericSummary, values: Seq<Number>, squares: Seq<Number>)
    requires
        s.describes(values),
        squares.len() == values.len(),
        forall|i: int|
            0 <= i < squares.len() ==> #[trigger] squares[i] == s.sorted@[i].difference(
                s.mean,
            ).product(s.sorted@[i].difference(s.mean)),
    ensures
        s.sum == crate::arith::total(values),
        s.mean == s.sum.quotient(Number::of_integer(values.len() as int)),
        s.sorted@.len() == values.len(),
        s.std == crate::arith::total(squares).quotient(
            Number::of_integer(values.len() as int),
        ).root(),
{
    assert(s.sorted@.len() == values.len());
    assert(crate::summary::squares(s.sorted@, s.mean) =~= squares);
}

/// The median is the number in the middle of the numbers in order, or half the sum of the two there;
/// the quartiles are the numbers nearest to one and to three quarters of the way from the first to the
/// last.
pub proof fn law_median_and_quartiles(s: NumericSummary, values: Seq<Number>) -> (at: (int, int))
    requires
        s.describes(values),
        0 < values.len() <= usize::MAX,
        numbers_all(values),
    ensures
        ({
            let n = values.len() as int;
            let sorted = s.sorted@;
            &&& sorted.len() == n
            &&& forall|i: int, j: int|
                0 <= i < j < n ==> (#[trigger] sorted[i]).le(#[trigger] sorted[j])
            &&& forall|v: Number| sorted.contains(v) <==> values.contains(v)
            &&& forall|k: int| n == 2 * k + 1 ==> s.median == #[trigger] sorted[k]
            &&& forall|k: int|
                n == 2 * k ==> s.median == (#[trigger] sorted[k - 1]).sum(sorted[k]).quotient(
                    Number::of(TWO as int),
                )
            &&& 0 <= at.0 < n && s.q1 == sorted[at.0] && -2 <= (n - 1) - 4 * at.0 < 2
            &&& 0 <= at.1 < n && s.q3 == sorted[at.1] && -2 <= 3 * (n - 1) - 4 * at.1 < 2
        }),
{
    let n = values.len() as int;
    crate::summary::law_sorted(s.sorted@, values);
    let sorted = s.sorted@;
    assert forall|i: int, j: int| 0 <= i < j < n implies (#[trigger] sorted[i]).le(
        #[trigger] sorted[j],
    ) by {
        assert(sorted.contains(sorted[i]) && sorted.contains(sorted[j]));
        let (a, b) = (values.index_of(sorted[i]), values.index_of(sorted[j]));
        assert(!values[a].nan() && !values[b].nan());
    }
    (crate::summary::quarter(n, 1), crate::summary::quarter(n, 3))
}

/// The zeros and the negative numbers are counted among all numbers.
pub proof fn law_zeros_and_negatives(s: NumericSummary, values: Seq<Number>)
    requires
        s.describes(values),
        numbers_all(values),
    ensures
        s.zeros == values.filter(|v: Number| v.equals(Number::of(0))).len(),
        s.negatives == values.filter(|v: Number| v.lt(Number::of(0))).len(),
{
    let zero = Number::of(0);
    crate::category_laws::lemma_rows_of_filter(
        values,
        crate::summary::zero_flags(values),
        |v: Number| !v.nan() && v.equals(zero),
    );
    lemma_same_filter(
        values,
        |v: Number| !v.nan() && v.equals(zero),
        |v: Number| v.equals(Number::of(0)),
    );
    crate::category_laws::lemma_rows_of_filter(
        values,
        crate::summary::negative_flags(values),
        |v: Number| v.lt(Number::of(0)),
    );
}

proof fn lemma_same_filter(
    items: Seq<Number>,
    f: spec_fn(Number) -> bool,
    g: spec_fn(Number) -> bool,
)
    requires
        forall|i: int| 0 <= i < items.len() ==> f(#[trigger] items[i]) == g(items[i]),
    ensures
        items.filter(f) == items.filter(g),
    decreases items.len(),
{
    reveal(Seq::filter);
    if items.len() > 0 {
        let t = items.drop_last();
        assert forall|i: int| 0 <= i < t.len() implies f(#[trigger] t[i]) == g(t[i]) by {
            assert(items[i] == t[i]);
        }
        lemma_same_filter(t, f, g);
        assert(f(items[items.len() - 1]) == g(items[items.len() - 1]));
    }
}

/// An outlier is below the first quartile or above the third by more than one and a half times the
/// distance between them.
pub proof fn law_outliers(s: NumericSummary, values: Seq<Number>)
    requires
        s.describes(values),
    ensures
        ({
            let reach = Number::of(ONE_AND_A_HALF as int).product(s.q3.difference(s.q1));
            let lower = s.q1.difference(reach);
            let upper = s.q3.sum(reach);
            s.outlier_count == s.sorted@.filter(|v: Number| v.lt(lower) || upper.lt(v)).len()
        }),
{
    let reach = Number::of(ONE_AND_A_HALF as int).product(s.q3.difference(s.q1));
    let lower = s.q1.difference(reach);
    let upper = s.q3.sum(reach);
    crate::category_laws::lemma_rows_of_filter(
        s.sorted@,
        crate::summary::outside_flags(s.sorted@, lower, upper),
        |v: Number| v.lt(lower) || upper.lt(v),
    );
}

/// How many different numbers there are: one more with each that equals none before it. Both zeros are
/// the same number.
pub open spec fn different(values: Seq<Number>) -> nat
    decreases values.len(),
{
    if values.len() == 0 {
        0
    } else if exists|i: int|
        0 <= i < values.len() - 1 && (#[trigger] values[i]).equals(values.last()) {
        different(values.drop_last())
    } else {
        different(values.drop_last()) + 1
    }
}

/// The unique numbers are those that equal none before them.
pub proof fn law_unique(s: NumericSummary, values: Seq<Number>)
    requires
        s.describes(values),
        numbers_all(values),
    ensures
        s.unique == different(values),
{
    lemma_different(values);
}

proof fn lemma_different(values: Seq<Number>)
    requires
        numbers_all(values),
    ensures
        crate::summary::places_of(values).to_set().len() == different(values),
    decreases values.len(),
{
    let all = crate::summary::places_of(values);
    if values.len() == 0 {
        assert(all.to_set() =~= Set::empty());
    } else {
        let before = values.drop_last();
        let n = values.len() - 1;
        assert forall|i: int| 0 <= i < before.len() implies !(#[trigger] before[i]).nan() by {
            assert(before[i] == values[i]);
        }
        lemma_different(before);
        let some = crate::summary::places_of(before);
        let last = values.last().place() as i64;
        assert(all.drop_last() =~= some);
        assert(all =~= some.push(last));
        assert(all.to_set() =~= some.to_set().insert(last)) by {
            assert forall|p: i64| all.to_set().contains(p) <==> some.to_set().insert(last).contains(
                p,
            ) by {
                if all.contains(p) {
                    let i = all.index_of(p);
                    if i < n {
                        assert(some[i] == p);
                        assert(some.contains(p));
                    }
                }
                if some.contains(p) {
                    let i = some.index_of(p);
                    assert(all[i] == p);
                }
                assert(all[n] == last);
            }
        }
        some.lemma_cardinality_of_set();
        if exists|i: int| 0 <= i < n && (#[trigger] values[i]).equals(values.last()) {
            let i = choose|i: int| 0 <= i < n && (#[trigger] values[i]).equals(values.last());
            assert(some[i] == last);
            assert(some.contains(last));
        } else if some.contains(last) {
            let i = some.index_of(last);
            assert(values[i].place() as i64 == last);
            assert(!values[i].nan() && !values[n].nan());
            assert(values[i].equals(values.last()));
        }
    }
}

/// A report has a row for each row of the array; the missing ones are those without a number, and
/// there are figures where not all are missing.
pub proof fn law_numeric_report(r: NumericReport, column: FastColumn)
    requires
        r.describes(column),
    ensures
        ({
            let numbers = crate::selection_laws::numbers_in_column(column);
            let values = crate::selection_laws::chosen(
                Seq::new(numbers.len(), |i: int| true),
                numbers,
            );
            &&& r.total == column.size()
            &&& r.missing == column.cells().filter(|c: crate::cell::CellView| !(c is Num)).len()
            &&& r.summary is Some <==> values.len() > 0
            &&& r.summary matches Some(s) ==> s.describes(values)
        }),
{
    let cells = column.cells();
    crate::selection_laws::law_column_cells_are_numbers(column);
    crate::selection_laws::law_numbers_of_a_range(cells, crate::error::Formula::Min);
    lemma_parted(cells);
}

proof fn lemma_parted(cells: Seq<crate::cell::CellView>)
    ensures
        cells.filter(|c: crate::cell::CellView| c is Num).len() + cells.filter(
            |c: crate::cell::CellView| !(c is Num),
        ).len() == cells.len(),
    decreases cells.len(),
{
    reveal(Seq::filter);
    if cells.len() > 0 {
        lemma_parted(cells.drop_last());
    }
}

}
