//! What a column of numbers holds, in figures.
use vstd::prelude::*;
use std::collections::HashSet;
use crate::arith::{mean_of, sum_of, ONE_AND_A_HALF, TWO};
use crate::column::FastColumn;
use crate::number::Number;
use crate::selection::{greatest_of, least_of, rows_of};
use crate::sort::sort_by;

verus! {

/// The figures of a column that holds numbers.
pub struct NumericSummary {
    /// The numbers, from the least up.
    pub sorted: Vec<Number>,
    /// The sum, added up in the order of the rows.
    pub sum: Number,
    pub mean: Number,
    /// The least number.
    pub min: Number,
    /// The greatest number.
    pub max: Number,
    /// The number in the middle, or the mean of the two there.
    pub median: Number,
    /// The standard deviation.
    pub std: Number,
    /// The number a quarter up from the least.
    pub q1: Number,
    /// The number three quarters up from the least.
    pub q3: Number,
    /// How many numbers are 0.
    pub zeros: usize,
    /// How many numbers are below 0.
    pub negatives: usize,
    /// How many different numbers there are; both zeros are the same.
    pub unique: usize,
    /// How many numbers are further from the middle half than one and a half times its width.
    pub outlier_count: usize,
    /// Whether the least number is the greatest.
    pub is_constant: bool,
}

/// A column of numbers: how many rows it has, how many of them are blank, and the figures, unless all
/// are.
pub struct NumericReport {
    pub total: usize,
    pub missing: usize,
    pub summary: Option<NumericSummary>,
}

/// The order of numbers.
pub open spec fn by_value() -> spec_fn(Number, Number) -> bool {
    |a: Number, b: Number| a.place() <= b.place()
}

/// Whether `sorted` holds the numbers from the least up, equal ones in the order in which they came.
pub open spec fn is_sorted_from(sorted: Seq<Number>, values: Seq<Number>) -> bool {
    exists|order: Seq<usize>| #[trigger]
        crate::sort::sorting(values, by_value(), order) && sorted =~= Seq::new(
            values.len(),
            |k: int| values[order[k] as int],
        )
}

/// The place that is nearest to `k` quarters of the way up from the first of `n` to the last, and of
/// two equally near the upper one.
pub open spec fn quarter(n: int, k: int) -> int {
    (k * (n - 1) + 2) / 4
}

/// Which numbers are 0.
pub open spec fn zero_flags(values: Seq<Number>) -> Seq<bool> {
    Seq::new(values.len(), |i: int| values[i].place() == 0)
}

/// Which numbers are below 0.
pub open spec fn negative_flags(values: Seq<Number>) -> Seq<bool> {
    Seq::new(values.len(), |i: int| values[i].place() < 0)
}

/// Which numbers are outside a range.
pub open spec fn outside_flags(values: Seq<Number>, lower: Number, upper: Number) -> Seq<bool> {
    Seq::new(values.len(), |i: int| values[i].lt(lower) || upper.lt(values[i]))
}

/// The places of some numbers on the line of numbers, where both zeros have the same.
pub open spec fn places_of(values: Seq<Number>) -> Seq<i64> {
    Seq::new(values.len(), |i: int| values[i].place() as i64)
}

/// The number in the middle of some in order, or the mean of the two there.
pub open spec fn median_of(sorted: Seq<Number>) -> Number {
    let n = sorted.len() as int;
    if n % 2 == 0 {
        sorted[n / 2 - 1].sum(sorted[n / 2]).quotient(Number::of(TWO as int))
    } else {
        sorted[n / 2]
    }
}

/// The squares of the differences from a number.
pub open spec fn squares(values: Seq<Number>, mean: Number) -> Seq<Number> {
    Seq::new(
        values.len(),
        |i: int| values[i].difference(mean).product(values[i].difference(mean)),
    )
}

/// The standard deviation of some numbers: the root of the mean of the squares of their differences
/// from the mean, taken from the least up.
pub open spec fn deviation(sorted: Seq<Number>, mean: Number) -> Number {
    crate::arith::mean(squares(sorted, mean)).root()
}

/// How far an outlier is from the middle half, at least.
pub open spec fn reach(q1: Number, q3: Number) -> Number {
    Number::of(ONE_AND_A_HALF as int).product(q3.difference(q1))
}

impl NumericSummary {
    /// Whether these are the figures of some numbers.
    pub open spec fn describes(&self, values: Seq<Number>) -> bool {
        let n = values.len() as int;
        &&& is_sorted_from(self.sorted@, values)
        &&& self.sum == crate::arith::total(values)
        &&& self.mean == crate::arith::mean(values)
        &&& crate::selection::least(values) == Some(self.min)
        &&& crate::selection::greatest(values) == Some(self.max)
        &&& self.median == median_of(self.sorted@)
        &&& self.std == deviation(self.sorted@, self.mean)
        &&& self.q1 == self.sorted@[quarter(n, 1)]
        &&& self.q3 == self.sorted@[quarter(n, 3)]
        &&& self.zeros == crate::selection::rows(zero_flags(values)).len()
        &&& self.negatives == crate::selection::rows(negative_flags(values)).len()
        &&& self.unique == places_of(values).to_set().len()
        &&& self.outlier_count == crate::selection::rows(
            outside_flags(
                self.sorted@,
                self.q1.difference(reach(self.q1, self.q3)),
                self.q3.sum(reach(self.q1, self.q3)),
            ),
        ).len()
        &&& self.is_constant == self.min.equals(self.max)
    }
}

impl NumericReport {
    /// Whether this is the report of a column.
    pub open spec fn describes(&self, column: FastColumn) -> bool {
        let values = crate::selection::present(crate::mixed::column_numbers(column));
        &&& self.total == column.size()
        &&& self.missing == column.size() - values.len()
        &&& self.summary is Some <==> values.len() > 0
        &&& self.summary matches Some(s) ==> s.describes(values)
    }
}

/// The numbers from the least up.
fn sort_numbers(values: &Vec<Number>) -> (r: Vec<Number>)
    requires
        forall|i: int| 0 <= i < values@.len() ==> !(#[trigger] values@[i]).nan(),
    ensures
        is_sorted_from(r@, values@),
{
    let ghost le = by_value();
    let order = sort_by(
        values,
        |a: &Number, b: &Number| -> (r: bool)
            ensures
                r == a.le(*b)
            {
                a.at_most(*b)
            },
        Ghost(le),
    );
    let mut r: Vec<Number> = Vec::new();
    let mut k: usize = 0;
    while k < order.len()
        invariant
            k <= order@.len() == values@.len(),
            forall|j: int| 0 <= j < order@.len() ==> 0 <= #[trigger] order@[j] < values@.len(),
            r@.len() == k,
            forall|j: int| 0 <= j < k ==> #[trigger] r@[j] == values@[order@[j] as int],
        decreases order@.len() - k,
    {
        r.push(values[order[k]]);
        k = k + 1;
    }
    assert(r@ =~= Seq::new(values@.len(), |k: int| values@[order@[k] as int]));
    r
}

/// How many different numbers there are.
fn count_unique(values: &Vec<Number>) -> (r: usize)
    ensures
        r == places_of(values@).to_set().len(),
{
    let ghost all = places_of(values@);
    let mut seen: HashSet<i64> = HashSet::new();
    let mut i: usize = 0;
    assert(all.take(0).to_set() =~= Set::empty());
    while i < values.len()
        invariant
            i <= values@.len() == all.len(),
            all == places_of(values@),
            seen@ == all.take(i as int).to_set(),
        decreases values@.len() - i,
    {
        proof {
            lemma_set_step(all, i as int);
        }
        seen.insert(values[i].place_on_line());
        i = i + 1;
    }
    assert(all.take(i as int) =~= all);
    seen.len()
}

/// One more element.
proof fn lemma_set_step(all: Seq<i64>, i: int)
    requires
        0 <= i < all.len(),
    ensures
        all.take(i + 1).to_set() == all.take(i).to_set().insert(all[i]),
{
    let before = all.take(i);
    let after = all.take(i + 1);
    assert forall|x: i64| after.to_set().contains(x) <==> before.to_set().insert(all[i]).contains(x) by {
        if after.contains(x) {
            let k = after.index_of(x);
            if k < i {
                assert(before[k] == x);
            }
        }
        if before.contains(x) {
            let k = before.index_of(x);
            assert(after[k] == x);
        }
        assert(after[i] == all[i]);
    }
    assert(after.to_set() =~= before.to_set().insert(all[i]));
}

/// How many numbers are 0, and how many are below.
fn count_signs(values: &Vec<Number>) -> (r: (usize, usize))
    requires
        forall|i: int| 0 <= i < values@.len() ==> !(#[trigger] values@[i]).nan(),
    ensures
        r.0 == crate::selection::rows(zero_flags(values@)).len(),
        r.1 == crate::selection::rows(negative_flags(values@)).len(),
{
    let zero = Number { bits: 0 };
    let mut zeros: Vec<bool> = Vec::new();
    let mut negatives: Vec<bool> = Vec::new();
    let mut i: usize = 0;
    while i < values.len()
        invariant
            zero.bits == 0,
            forall|i: int| 0 <= i < values@.len() ==> !(#[trigger] values@[i]).nan(),
            i <= values@.len(),
            zeros@.len() == i,
            negatives@.len() == i,
            forall|k: int| 0 <= k < i ==> #[trigger] zeros@[k] == (values@[k].place() == 0),
            forall|k: int| 0 <= k < i ==> #[trigger] negatives@[k] == (values@[k].place() < 0),
        decreases values@.len() - i,
    {
        let v = values[i];
        assert(!values@[i as int].nan());
        zeros.push(v.same_value(zero));
        negatives.push(v.below(zero));
        i = i + 1;
    }
    assert(zeros@ =~= zero_flags(values@));
    assert(negatives@ =~= negative_flags(values@));
    (rows_of(&zeros).len(), rows_of(&negatives).len())
}

/// How many numbers are below `lower` or above `upper`.
fn count_outside(values: &Vec<Number>, lower: Number, upper: Number) -> (r: usize)
    ensures
        r == crate::selection::rows(outside_flags(values@, lower, upper)).len(),
{
    let mut flags: Vec<bool> = Vec::new();
    let mut i: usize = 0;
    while i < values.len()
        invariant
            i <= values@.len(),
            flags@.len() == i,
            forall|k: int|
                0 <= k < i ==> #[trigger] flags@[k] == (values@[k].lt(lower) || upper.lt(
                    values@[k],
                )),
        decreases values@.len() - i,
    {
        flags.push(values[i].below(lower) || upper.below(values[i]));
        i = i + 1;
    }
    assert(flags@ =~= outside_flags(values@, lower, upper));
    rows_of(&flags).len()
}

/// The place `k` quarters of the way up.
fn quarter_of(n: usize, k: usize) -> (r: usize)
    requires
        n > 0,
        1 <= k <= 3,
    ensures
        r == quarter(n as int, k as int),
        r < n,
{
    assert(0 <= k * (n - 1) <= 3 * (n - 1)) by (nonlinear_arith)
        requires
            0 <= k <= 3,
            n >= 1,
    ;
    let x: u128 = (k as u128) * ((n - 1) as u128);
    ((x + 2) / 4) as usize
}

/// There is no blank among the numbers of a column.
proof fn lemma_no_nan(values: Seq<Option<Number>>)
    requires
        forall|i: int|
            0 <= i < values.len() ==> (#[trigger] values[i] matches Some(n) ==> !n.nan()),
    ensures
        forall|i: int|
            0 <= i < crate::selection::present(values).len() ==> !(
            #[trigger] crate::selection::present(values)[i]).nan(),
        crate::selection::present(values).len() <= values.len(),
    decreases values.len(),
{
    if values.len() > 0 {
        let before = values.drop_last();
        assert forall|i: int| 0 <= i < before.len() implies (#[trigger] before[i] matches Some(n)
            ==> !n.nan()) by {
            assert(before[i] == values[i]);
        }
        lemma_no_nan(before);
    }
}

/// The number in the middle of some in order, or the mean of the two there.
fn find_median(sorted: &Vec<Number>) -> (r: Number)
    requires
        sorted@.len() > 0,
    ensures
        r == median_of(sorted@),
{
    let n = sorted.len();
    if n % 2 == 0 {
        let two = Number { bits: TWO };
        sorted[n / 2 - 1].plus(sorted[n / 2]).over(two)
    } else {
        sorted[n / 2]
    }
}

/// The standard deviation of some numbers.
fn find_deviation(sorted: &Vec<Number>, mean: Number) -> (r: Number)
    requires
        sorted@.len() > 0,
    ensures
        r == deviation(sorted@, mean),
{
    let mut all: Vec<Number> = Vec::new();
    let mut i: usize = 0;
    while i < sorted.len()
        invariant
            i <= sorted@.len(),
            all@.len() == i,
            forall|k: int| 0 <= k < i ==> #[trigger] all@[k] == squares(sorted@, mean)[k],
        decreases sorted@.len() - i,
    {
        let d = sorted[i].minus(mean);
        all.push(d.times(d));
        i = i + 1;
    }
    assert(all@ =~= squares(sorted@, mean));
    mean_of(&all).square_root()
}

/// The figures of some numbers.
fn summarize(values: Vec<Number>) -> (r: Option<NumericSummary>)
    requires
        forall|i: int| 0 <= i < values@.len() ==> !(#[trigger] values@[i]).nan(),
    ensures
        r is Some <==> values@.len() > 0,
        r matches Some(s) ==> s.describes(values@),
{
    let n = values.len();
    match (least_of(&values), greatest_of(&values)) {
        (Some(min), Some(max)) => {
            let sorted = sort_numbers(&values);
            let sum = sum_of(&values);
            let mean = mean_of(&values);
            let median = find_median(&sorted);
            let std = find_deviation(&sorted, mean);
            let q1 = sorted[quarter_of(n, 1)];
            let q3 = sorted[quarter_of(n, 3)];
            let (zeros, negatives) = count_signs(&values);
            let unique = count_unique(&values);
            let reach = Number { bits: ONE_AND_A_HALF }.times(q3.minus(q1));
            let outlier_count = count_outside(&sorted, q1.minus(reach), q3.plus(reach));
            let is_constant = min.same_value(max);
            Some(
                NumericSummary {
                    sorted,
                    sum,
                    mean,
                    min,
                    max,
                    median,
                    std,
                    q1,
                    q3,
                    zeros,
                    negatives,
                    unique,
                    outlier_count,
                    is_constant,
                },
            )
        },
        _ => None,
    }
}

/// What a column of numbers holds; none where it is not an array of numbers.
pub fn summarize_numeric_column(column: &FastColumn) -> (r: Option<NumericReport>)
    ensures
        r is Some <==> (column matches FastColumn::Numeric(_) || column
            matches FastColumn::NumericI64(_)),
        r matches Some(report) ==> report.describes(*column),
{
    match column.as_f64_slice() {
        Some(all) => {
            let total = all.len();
            let values = crate::mixed::numbers_of_column(column);
            proof {
                let numbers = crate::mixed::column_numbers(*column);
                assert forall|i: int| 0 <= i < numbers.len() implies (#[trigger] numbers[i]
                    matches Some(n) ==> !n.nan()) by {
                    assert(column.array_number(i) == Some(all@[i]));
                }
                lemma_no_nan(numbers);
            }
            let missing = total - values.len();
            Some(NumericReport { total, missing, summary: summarize(values) })
        },
        None => None,
    }
}

/// The numbers from the least up ascend, are the same numbers, begin with the least and end with the
/// greatest.
pub proof fn law_sorted(sorted: Seq<Number>, values: Seq<Number>)
    requires
        values.len() <= usize::MAX,
        is_sorted_from(sorted, values),
        forall|i: int| 0 <= i < values.len() ==> !(#[trigger] values[i]).nan(),
    ensures
        sorted.len() == values.len(),
        forall|i: int, j: int|
            0 <= i < j < sorted.len() ==> (#[trigger] sorted[i]).place() <= (
            #[trigger] sorted[j]).place(),
        forall|v: Number| sorted.contains(v) <==> values.contains(v),
        values.len() > 0 ==> crate::selection::least(values)->0.equals(sorted[0]),
        values.len() > 0 ==> crate::selection::greatest(values)->0.equals(sorted.last()),
{
    let order = choose|order: Seq<usize>| #[trigger]
        crate::sort::sorting(values, by_value(), order) && sorted =~= Seq::new(
            values.len(),
            |k: int| values[order[k] as int],
        );
    assert forall|i: int, j: int| 0 <= i < j < sorted.len() implies (#[trigger] sorted[i]).place()
        <= (#[trigger] sorted[j]).place() by {
        assert(crate::sort::comes_before(values, by_value(), order[i], order[j]));
    }
    assert forall|v: Number| sorted.contains(v) <==> values.contains(v) by {
        if sorted.contains(v) {
            let k = sorted.index_of(v);
            assert(values[order[k] as int] == v);
        }
        if values.contains(v) {
            let i = values.index_of(v);
            assert(order.contains(i as usize));
            let k = order.index_of(i as usize);
            assert(sorted[k] == v);
        }
    }
    if values.len() > 0 {
        let i = crate::selection::law_least(values);
        assert(values.contains(values[i]));
        let k = sorted.index_of(values[i]);
        assert(sorted.contains(sorted[0]));
        let z = values.index_of(sorted[0]);
        assert(values[i].le(values[z]));
        if k > 0 {
            assert(sorted[0].place() <= sorted[k].place());
        }
        let g = crate::selection::law_greatest(values);
        assert(values.contains(values[g]));
        let l = sorted.index_of(values[g]);
        let last = sorted.len() - 1;
        assert(sorted.contains(sorted[last]));
        let y = values.index_of(sorted[last]);
        assert(values[y].le(values[g]));
        if l < last {
            assert(sorted[l].place() <= sorted[last].place());
        }
    }
}

}
