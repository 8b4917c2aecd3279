//! What holds of selections: which rows satisfy the criteria, and which numbers stand in them.
use vstd::prelude::*;
use crate::aggregate::Pair;
use crate::batch::BatchPair;
use crate::cell::{CellValue, CellView};
use crate::column::FastColumn;
use crate::criteria::{CriteriaView, Op};
use crate::error::{ErrorView, Formula};
use crate::mixed::MixedPair;
use crate::number::Number;

verus! {

/// How many flags are set.
pub open spec fn how_many(flags: Seq<bool>) -> nat {
    flags.filter(|b: bool| b).len()
}

/// The numbers that stand where a flag is set, in order.
pub open spec fn chosen(flags: Seq<bool>, column: Seq<Option<Number>>) -> Seq<Number>
    decreases flags.len(),
{
    if flags.len() == 0 {
        Seq::empty()
    } else {
        let before = chosen(flags.drop_last(), column.drop_last());
        match column.last() {
            Some(n) => if flags.last() {
                before.push(n)
            } else {
                before
            },
            None => before,
        }
    }
}

/// Whether a number stands in a column where a flag is set.
pub open spec fn is_chosen(flags: Seq<bool>, column: Seq<Option<Number>>, n: Number) -> bool {
    exists|i: int| 0 <= i < flags.len() && #[trigger] flags[i] && column[i] == Some(n)
}

/// Whether a number is among those that stand where a flag is set, and none of them is greater.
pub open spec fn is_greatest(flags: Seq<bool>, column: Seq<Option<Number>>, m: Number) -> bool {
    is_chosen(flags, column, m) && forall|i: int|
        0 <= i < flags.len() && #[trigger] flags[i] ==> (column[i] matches Some(n) ==> n.le(m))
}

/// Whether a number is among those that stand where a flag is set, and none of them is less.
pub open spec fn is_least(flags: Seq<bool>, column: Seq<Option<Number>>, m: Number) -> bool {
    is_chosen(flags, column, m) && forall|i: int|
        0 <= i < flags.len() && #[trigger] flags[i] ==> (column[i] matches Some(n) ==> m.le(n))
}

/// Whether no number stands where a flag is set.
pub open spec fn none_chosen(flags: Seq<bool>, column: Seq<Option<Number>>) -> bool {
    forall|i: int| 0 <= i < flags.len() && #[trigger] flags[i] ==> column[i] is None
}

/// Whether there is nothing that is not a number among the numbers of a column.
pub open spec fn all_numbers(column: Seq<Option<Number>>) -> bool {
    forall|i: int| 0 <= i < column.len() ==> (#[trigger] column[i] matches Some(n) ==> !n.nan())
}

/// As many rows are hit as there are hits.
pub proof fn law_rows_are_counted(hits: Seq<bool>)
    ensures
        crate::selection::rows(hits).len() == how_many(hits),
    decreases hits.len(),
{
    reveal(Seq::filter);
    if hits.len() > 0 {
        law_rows_are_counted(hits.drop_last());
    }
}

/// No more flags are set than there are.
pub(crate) proof fn lemma_how_many(flags: Seq<bool>)
    ensures
        how_many(flags) <= flags.len(),
    decreases flags.len(),
{
    reveal(Seq::filter);
    if flags.len() > 0 {
        lemma_how_many(flags.drop_last());
    }
}

/// The numbers picked from the rows hit are those that stand where there is a hit.
pub proof fn law_picked_are_chosen(hits: Seq<bool>, column: Seq<Option<Number>>)
    requires
        hits.len() == column.len() <= usize::MAX,
    ensures
        crate::selection::picked(crate::selection::rows(hits), column) == chosen(hits, column),
    decreases hits.len(),
{
    let rows = crate::selection::rows(hits);
    let all = Seq::new(rows.len(), |k: int| column[rows[k] as int]);
    if hits.len() > 0 {
        let h = hits.drop_last();
        let c = column.drop_last();
        let before = crate::selection::rows(h);
        let some = Seq::new(before.len(), |k: int| c[before[k] as int]);
        law_picked_are_chosen(h, c);
        crate::selection::law_rows_are_the_hits(h);
        if hits.last() {
            assert(all.drop_last() =~= some);
            assert(all.last() == column.last());
        } else {
            assert(all =~= some);
        }
    } else {
        assert(all =~= Seq::empty());
    }
}

/// The numbers that stand where a flag is set are those and no others.
proof fn lemma_chosen_members(flags: Seq<bool>, column: Seq<Option<Number>>)
    requires
        flags.len() == column.len(),
    ensures
        forall|n: Number| #[trigger]
            chosen(flags, column).contains(n) <==> is_chosen(flags, column, n),
        chosen(flags, column).len() == 0 <==> none_chosen(flags, column),
    decreases flags.len(),
{
    if flags.len() > 0 {
        let f = flags.drop_last();
        let c = column.drop_last();
        let last = flags.len() - 1;
        lemma_chosen_members(f, c);
        let all = chosen(flags, column);
        let before = chosen(f, c);
        assert forall|n: Number| #[trigger] all.contains(n) <==> is_chosen(flags, column, n) by {
            if all.contains(n) {
                let k = all.index_of(n);
                if k < before.len() {
                    assert(before[k] == n);
                    assert(before.contains(n));
                    let i = choose|i: int|
                        0 <= i < f.len() && #[trigger] f[i] && c[i] == Some(n);
                    assert(flags[i] && column[i] == Some(n));
                } else {
                    assert(flags[last] && column[last] == Some(n));
                }
            }
            if is_chosen(flags, column, n) {
                let i = choose|i: int|
                    0 <= i < flags.len() && #[trigger] flags[i] && column[i] == Some(n);
                if i < last {
                    assert(f[i] && c[i] == Some(n));
                    assert(before.contains(n));
                    let k = before.index_of(n);
                    assert(all[k] == n);
                } else {
                    assert(all.last() == n);
                }
            }
        }
        if all.len() == 0 {
            assert forall|i: int| 0 <= i < flags.len() && #[trigger] flags[i] implies column[i]
                is None by {
                if i < last {
                    assert(f[i]);
                }
            }
        }
        if none_chosen(flags, column) {
            assert forall|i: int| 0 <= i < f.len() && #[trigger] f[i] implies c[i] is None by {
                assert(flags[i]);
            }
            if flags.last() {
                assert(flags[last]);
            }
        }
    }
}

/// The least and the greatest of the numbers that stand where a flag is set.
pub proof fn law_extremes_of_the_chosen(flags: Seq<bool>, column: Seq<Option<Number>>)
    requires
        flags.len() == column.len(),
        all_numbers(column),
    ensures
        match crate::selection::least(chosen(flags, column)) {
            Some(m) => is_least(flags, column, m),
            None => none_chosen(flags, column),
        },
        match crate::selection::greatest(chosen(flags, column)) {
            Some(m) => is_greatest(flags, column, m),
            None => none_chosen(flags, column),
        },
{
    lemma_chosen_members(flags, column);
    let v = chosen(flags, column);
    if v.len() > 0 {
        assert forall|k: int| 0 <= k < v.len() implies !(#[trigger] v[k]).nan() by {
            assert(v.contains(v[k]));
            assert(is_chosen(flags, column, v[k]));
        }
        let a = crate::selection::law_least(v);
        let b = crate::selection::law_greatest(v);
        assert(v.contains(v[a]) && v.contains(v[b]));
        assert forall|i: int| 0 <= i < flags.len() && #[trigger] flags[i] implies (
        column[i] matches Some(n) ==> v[a].le(n) && n.le(v[b])) by {
            if let Some(n) = column[i] {
                assert(is_chosen(flags, column, n));
                assert(v.contains(n));
                let k = v.index_of(n);
                assert(v[a].le(v[k]) && v[k].le(v[b]));
            }
        }
    }
}

/// The criteria that a list stands for stand in the places of the list; otherwise the first that is
/// refused says why.
pub proof fn law_meanings(inputs: Seq<CellView>)
    ensures
        match crate::criteria::meanings(inputs) {
            Ok(v) => v.len() == inputs.len() && forall|k: int|
                0 <= k < inputs.len() ==> (#[trigger] inputs[k]).meaning() == Ok::<
                    CriteriaView,
                    ErrorView,
                >(v[k]),
            Err(e) => exists|k: int| first_refused(inputs, k, e),
        },
    decreases inputs.len(),
{
    crate::criteria::lemma_meanings(inputs);
    if inputs.len() > 0 {
        let before = inputs.drop_last();
        let n = inputs.len() - 1;
        law_meanings(before);
        if let Err(e) = crate::criteria::meanings(inputs) {
            if crate::criteria::meanings(before) is Err {
                let k = choose|k: int| first_refused(before, k, e);
                assert(before[k] == inputs[k]);
                assert forall|j: int| 0 <= j < k implies (#[trigger] inputs[j]).meaning() is Ok by {
                    assert(before[j] == inputs[j]);
                }
                assert(first_refused(inputs, k, e));
            } else {
                assert forall|j: int| 0 <= j < n implies (#[trigger] inputs[j]).meaning() is Ok by {
                    assert(before[j] == inputs[j]);
                }
                assert(first_refused(inputs, n, e));
            }
        }
    }
}

/// Whether a criterion is the first of a list that is refused, and why.
pub open spec fn first_refused(inputs: Seq<CellView>, k: int, e: ErrorView) -> bool {
    &&& 0 <= k < inputs.len()
    &&& inputs[k].meaning() == Err::<CriteriaView, ErrorView>(e)
    &&& forall|j: int| 0 <= j < k ==> (#[trigger] inputs[j]).meaning() is Ok
}

/// Whether a criterion, as given, is satisfied by a cell.
pub open spec fn satisfied(input: CellView, cell: CellView) -> bool {
    input.meaning() matches Ok(c) && c.holds(cell)
}

/// Whether a row satisfies all criteria, as given, each in its own range.
pub open spec fn satisfies(
    ranges: Seq<Seq<CellView>>,
    inputs: Seq<CellView>,
    i: int,
) -> bool {
    forall|p: int| 0 <= p < ranges.len() ==> satisfied(#[trigger] inputs[p], ranges[p][i])
}

/// Which of `n` rows satisfy all criteria, as given.
pub open spec fn satisfying(
    ranges: Seq<Seq<CellView>>,
    inputs: Seq<CellView>,
    n: nat,
) -> Seq<bool> {
    Seq::new(n, |i: int| satisfies(ranges, inputs, i))
}

/// Which cells of a range satisfy a criterion, as given.
pub open spec fn satisfying_cells(range: Seq<CellView>, input: CellView) -> Seq<bool> {
    Seq::new(range.len(), |i: int| satisfied(input, range[i]))
}

/// The numbers that stand in a range.
pub open spec fn numbers_in(range: Seq<CellView>) -> Seq<Option<Number>> {
    Seq::new(
        range.len(),
        |i: int|
            match range[i] {
                CellView::Num(n) => Some(n),
                _ => None,
            },
    )
}

proof fn lemma_numbers_in(range: Seq<CellView>)
    ensures
        crate::selection::numbers(range) == numbers_in(range),
{
    assert(crate::selection::numbers(range) =~= numbers_in(range));
}

/// A selection is made of the rows that satisfy all criteria, each in its own range. There is none
/// without ranges, with ranges of another length, or with a criterion that is refused.
pub proof fn law_selection(
    ranges: Seq<Seq<CellView>>,
    inputs: Seq<CellView>,
    n: nat,
    formula: Formula,
)
    requires
        ranges.len() == inputs.len(),
    ensures
        match crate::aggregate::selection(ranges, inputs, n, formula) {
            Ok(rows) => {
                &&& ranges.len() > 0
                &&& forall|p: int| 0 <= p < ranges.len() ==> (#[trigger] ranges[p]).len() == n
                &&& rows == crate::selection::rows(satisfying(ranges, inputs, n))
            },
            Err(e) => {
                ||| ranges.len() == 0 && e == ErrorView::NoPairs(formula)
                ||| e == ErrorView::RangeLength(formula) && exists|p: int|
                    0 <= p < ranges.len() && (#[trigger] ranges[p]).len() != n
                ||| (exists|k: int| first_refused(inputs, k, e)) && forall|p: int|
                    0 <= p < ranges.len() ==> (#[trigger] ranges[p]).len() == n
            },
        },
{
    law_meanings(inputs);
    if let Ok(c) = crate::criteria::meanings(inputs) {
        lemma_all_hits(ranges, inputs, c, n);
    }
}

proof fn lemma_all_hits(
    ranges: Seq<Seq<CellView>>,
    inputs: Seq<CellView>,
    c: Seq<CriteriaView>,
    n: nat,
)
    requires
        ranges.len() == inputs.len() == c.len(),
        forall|k: int|
            0 <= k < inputs.len() ==> (#[trigger] inputs[k]).meaning() == Ok::<
                CriteriaView,
                ErrorView,
            >(c[k]),
    ensures
        crate::selection::all_hits(ranges, c, n) == satisfying(ranges, inputs, n),
{
    let a = crate::selection::all_hits(ranges, c, n);
    let b = satisfying(ranges, inputs, n);
    assert forall|i: int| 0 <= i < n implies a[i] == b[i] by {
        if a[i] {
            assert forall|p: int| 0 <= p < ranges.len() implies satisfied(
                #[trigger] inputs[p],
                ranges[p][i],
            ) by {
                assert(c[p].holds(ranges[p][i]));
            }
        }
        if b[i] {
            assert forall|p: int| 0 <= p < ranges.len() implies (#[trigger] c[p]).holds(
                ranges[p][i],
            ) by {
                assert(satisfied(inputs[p], ranges[p][i]));
            }
        }
    }
    assert(a =~= b);
}

/// COUNTIF gives how many cells satisfy the criterion; a criterion that is refused is its error.
pub proof fn law_countif(range: Seq<CellView>, input: CellView)
    ensures
        crate::aggregate::countif(range, input) == (match input.meaning() {
            Ok(_) => Ok::<usize, ErrorView>(how_many(satisfying_cells(range, input)) as usize),
            Err(e) => Err(e),
        }),
{
    if let Ok(c) = input.meaning() {
        assert(crate::selection::hits(range, c) =~= satisfying_cells(range, input));
        law_rows_are_counted(satisfying_cells(range, input));
    }
}

/// The numbers of a target, which is the range itself unless another is given, in the rows whose cell in
/// the range satisfies a criterion, as given.
pub open spec fn chosen_cells(
    range: Seq<CellView>,
    input: CellView,
    target: Option<Seq<CellView>>,
) -> Seq<Number> {
    chosen(
        satisfying_cells(range, input),
        numbers_in(
            match target {
                Some(t) => t,
                None => range,
            },
        ),
    )
}

/// What SUMIF and AVERAGEIF take are the numbers of the target that stand in the rows whose cell in
/// the range satisfies the criterion.
pub proof fn law_sumif(
    range: Seq<CellView>,
    input: CellView,
    target: Option<Seq<CellView>>,
    formula: Formula,
)
    requires
        range.len() <= usize::MAX,
    ensures
        ({
            let column = match target {
                Some(t) => t,
                None => range,
            };
            crate::aggregate::sumif(range, input, target, formula) == (match input.meaning() {
                Ok(_) => if column.len() == range.len() {
                    Ok::<Seq<Number>, ErrorView>(
                        chosen(satisfying_cells(range, input), numbers_in(column)),
                    )
                } else {
                    Err(ErrorView::TargetLength(formula))
                },
                Err(e) => Err(e),
            })
        }),
{
    let column = match target {
        Some(t) => t,
        None => range,
    };
    if let Ok(c) = input.meaning() {
        assert(crate::selection::hits(range, c) =~= satisfying_cells(range, input));
        lemma_numbers_in(column);
        if column.len() == range.len() {
            law_picked_are_chosen(satisfying_cells(range, input), numbers_in(column));
        }
    }
}

/// COUNTIFS gives how many rows satisfy all criteria, and SUMIFS takes the numbers of the target in
/// those rows.
pub proof fn law_countifs_and_sumifs(
    target: Seq<CellView>,
    ranges: Seq<Seq<CellView>>,
    inputs: Seq<CellView>,
)
    requires
        target.len() <= usize::MAX,
        ranges.len() == inputs.len(),
    ensures
        crate::aggregate::countifs(ranges, inputs) == (match crate::aggregate::selection(
            ranges,
            inputs,
            ranges[0].len(),
            Formula::CountIfs,
        ) {
            Ok(_) => Ok::<usize, ErrorView>(
                how_many(satisfying(ranges, inputs, ranges[0].len())) as usize,
            ),
            Err(e) => Err(e),
        }),
        crate::aggregate::sumifs(target, ranges, inputs) == (match crate::aggregate::selection(
            ranges,
            inputs,
            target.len(),
            Formula::SumIfs,
        ) {
            Ok(_) => Ok::<Seq<Number>, ErrorView>(
                chosen(satisfying(ranges, inputs, target.len()), numbers_in(target)),
            ),
            Err(e) => Err(e),
        }),
{
    law_selection(ranges, inputs, ranges[0].len(), Formula::CountIfs);
    law_selection(ranges, inputs, target.len(), Formula::SumIfs);
    law_rows_are_counted(satisfying(ranges, inputs, ranges[0].len()));
    lemma_numbers_in(target);
    law_picked_are_chosen(satisfying(ranges, inputs, target.len()), numbers_in(target));
}

/// The numbers of a range are those of its numeric cells, in order: COUNT gives how many they are, MIN
/// and MAX the least and the greatest of them, and an error where there is none.
pub proof fn law_numbers_of_a_range(range: Seq<CellView>, formula: Formula)
    requires
        all_numbers(numbers_in(range)),
    ensures
        ({
            let all = Seq::new(range.len(), |i: int| true);
            let values = crate::selection::present(crate::selection::numbers(range));
            &&& values == chosen(all, numbers_in(range))
            &&& values.len() == range.filter(|c: CellView| c is Num).len()
            &&& match crate::aggregate::minimum(values, formula) {
                Ok(m) => is_least(all, numbers_in(range), m),
                Err(e) => e == ErrorView::NoNumericValues(formula) && none_chosen(
                    all,
                    numbers_in(range),
                ),
            }
            &&& match crate::aggregate::maximum(values, formula) {
                Ok(m) => is_greatest(all, numbers_in(range), m),
                Err(e) => e == ErrorView::NoNumericValues(formula) && none_chosen(
                    all,
                    numbers_in(range),
                ),
            }
        }),
{
    lemma_present(range);
    law_extremes_of_the_chosen(Seq::new(range.len(), |i: int| true), numbers_in(range));
}

proof fn lemma_present(range: Seq<CellView>)
    ensures
        crate::selection::present(crate::selection::numbers(range)) == chosen(
            Seq::new(range.len(), |i: int| true),
            numbers_in(range),
        ),
        crate::selection::present(crate::selection::numbers(range)).len() == range.filter(
            |c: CellView| c is Num,
        ).len(),
    decreases range.len(),
{
    reveal(Seq::filter);
    let all = Seq::new(range.len(), |i: int| true);
    if range.len() > 0 {
        let before = range.drop_last();
        lemma_present(before);
        assert(all.drop_last() =~= Seq::new(before.len(), |i: int| true));
        assert(numbers_in(range).drop_last() =~= numbers_in(before));
        assert(crate::selection::numbers(range).drop_last() =~= crate::selection::numbers(before));
    }
}

/// The numbers of the numeric cells of a range, in order.
pub open spec fn numeric_cells(range: Seq<CellView>) -> Seq<Number> {
    range.filter(|c: CellView| c is Num).map_values(|c: CellView| c->Num_0)
}

/// The numbers that are there are those of the numeric cells.
pub proof fn law_present_are_numeric_cells(range: Seq<CellView>)
    ensures
        crate::selection::present(crate::selection::numbers(range)) == numeric_cells(range),
    decreases range.len(),
{
    reveal(Seq::filter);
    let kept = range.filter(|c: CellView| c is Num);
    if range.len() > 0 {
        let before = range.drop_last();
        law_present_are_numeric_cells(before);
        assert(crate::selection::numbers(range).drop_last() =~= crate::selection::numbers(before));
        let some = before.filter(|c: CellView| c is Num);
        if range.last() is Num {
            assert(kept =~= some.push(range.last()));
            assert(numeric_cells(range) =~= numeric_cells(before).push(range.last()->Num_0));
        } else {
            assert(kept =~= some);
        }
    } else {
        assert(numeric_cells(range) =~= Seq::empty());
    }
}

/// Whether a number is one of some and none of them is less.
pub open spec fn least_of_all(values: Seq<Number>, m: Number) -> bool {
    values.contains(m) && forall|i: int| 0 <= i < values.len() ==> m.le(#[trigger] values[i])
}

/// Whether a number is one of some and none of them is greater.
pub open spec fn greatest_of_all(values: Seq<Number>, m: Number) -> bool {
    values.contains(m) && forall|i: int| 0 <= i < values.len() ==> (#[trigger] values[i]).le(m)
}

/// The least and the greatest of some numbers are among them, and there is none where there are none.
pub proof fn law_extremes(values: Seq<Number>)
    ensures
        crate::selection::least(values) is None <==> values.len() == 0,
        crate::selection::greatest(values) is None <==> values.len() == 0,
        crate::summary_laws::numbers_all(values) ==> (crate::selection::least(values) matches Some(m)
            ==> least_of_all(values, m)) && (crate::selection::greatest(values) matches Some(m)
            ==> greatest_of_all(values, m)),
{
    if values.len() > 0 && crate::summary_laws::numbers_all(values) {
        let a = crate::selection::law_least(values);
        let b = crate::selection::law_greatest(values);
        assert(values.contains(values[a]) && values.contains(values[b]));
    }
}

/// There is a sum of any numbers; a mean, which is their sum by how many they are, where there are
/// any; and an error where there are none, or where there was no selection.
pub proof fn law_sums_and_means(values: Result<Seq<Number>, ErrorView>, error: ErrorView)
    ensures
        match values {
            Ok(v) => {
                &&& crate::aggregate::summed(values) == Ok::<Number, ErrorView>(
                    crate::arith::total(v),
                )
                &&& crate::aggregate::averaged(values, error) == (if v.len() == 0 {
                    Err::<Number, ErrorView>(error)
                } else {
                    Ok(crate::arith::total(v).quotient(Number::of_integer(v.len() as int)))
                })
            },
            Err(e) => crate::aggregate::summed(values) == Err::<Number, ErrorView>(e)
                && crate::aggregate::averaged(values, error) == Err::<Number, ErrorView>(e),
        },
{
}

/// AVERAGEIF gives the sum of what SUMIF takes by how many numbers that is, and an error where it is
/// none.
pub proof fn law_averageif(range: Seq<CellView>, input: CellView, target: Option<Seq<CellView>>)
    ensures
        crate::aggregate::averageif(range, input, target) == (match crate::aggregate::sumif(
            range,
            input,
            target,
            Formula::AverageIf,
        ) {
            Ok(v) => if v.len() == 0 {
                Err::<Number, ErrorView>(ErrorView::NoMatchingValues(Formula::AverageIf))
            } else {
                Ok(crate::arith::total(v).quotient(Number::of_integer(v.len() as int)))
            },
            Err(e) => Err(e),
        }),
{
}

/// A range is read cell by cell, in order, and so are the ranges and criteria of pairs.
pub proof fn law_ranges_are_read_in_order(
    range: Seq<CellValue>,
    pairs: Seq<Pair>,
    rows: Seq<BatchPair>,
    columns: Seq<MixedPair>,
    i: int,
    p: int,
)
    ensures
        crate::selection::cells(range).len() == range.len(),
        0 <= i < range.len() ==> crate::selection::cells(range)[i] == range[i]@,
        crate::aggregate::ranges(pairs).len() == pairs.len(),
        crate::aggregate::inputs(pairs).len() == pairs.len(),
        0 <= p < pairs.len() ==> crate::aggregate::ranges(pairs)[p] == crate::selection::cells(
            pairs[p].range@,
        ) && crate::aggregate::inputs(pairs)[p] == pairs[p].criteria@,
        crate::batch::ranges(rows).len() == rows.len(),
        crate::batch::inputs(rows).len() == rows.len(),
        0 <= p < rows.len() ==> crate::batch::ranges(rows)[p] == crate::selection::cells(
            rows[p].range@,
        ) && crate::batch::inputs(rows)[p] == crate::selection::cells(rows[p].criteria@),
        crate::mixed::inputs(columns).len() == columns.len(),
        0 <= p < columns.len() ==> crate::mixed::inputs(columns)[p] == columns[p].criteria@,
{
}

/// Which rows of some columns satisfy all criteria, as given, each in its own column.
pub open spec fn masked(pairs: Seq<MixedPair>, n: nat) -> Seq<bool> {
    Seq::new(n, |i: int| forall|p: int| 0 <= p < pairs.len() ==> row_masked(#[trigger] pairs[p], i))
}

/// Whether a row of a column satisfies its criterion.
pub open spec fn row_masked(pair: MixedPair, i: int) -> bool {
    pair.criteria@.meaning() matches Ok(c) && pair.column.mask(c)[i]
}

/// The numbers that stand in the rows of a column.
pub open spec fn numbers_in_column(column: FastColumn) -> Seq<Option<Number>> {
    numbers_in(column.cells())
}

/// A selection on columns is made of the rows that satisfy all criteria, each in its own column.
/// There is none without columns, with a criterion that is refused, or with columns of another length.
pub proof fn law_column_selection(pairs: Seq<MixedPair>, n: nat, formula: Formula)
    ensures
        match crate::mixed::selection(pairs, n, formula) {
            Ok(rows) => {
                &&& pairs.len() > 0
                &&& forall|p: int| 0 <= p < pairs.len() ==> (#[trigger] pairs[p]).column.size() == n
                &&& rows == crate::selection::rows(masked(pairs, n))
            },
            Err(e) => {
                ||| pairs.len() == 0 && e == ErrorView::NoPairs(formula)
                ||| e == ErrorView::RangeLength(formula) && (exists|p: int|
                    0 <= p < pairs.len() && (#[trigger] pairs[p]).column.size() != n)
                    && crate::criteria::meanings(crate::mixed::inputs(pairs)) is Ok
                ||| exists|k: int| first_refused(crate::mixed::inputs(pairs), k, e)
            },
        },
{
    let inputs = crate::mixed::inputs(pairs);
    law_meanings(inputs);
    if let Ok(c) = crate::criteria::meanings(inputs) {
        if pairs.len() > 0 {
            let m = crate::mixed::masks(pairs, c);
            let a = crate::masks::common(m, n);
            let b = masked(pairs, n);
            assert forall|i: int| 0 <= i < n implies a[i] == b[i] by {
                if a[i] {
                    assert forall|p: int| 0 <= p < pairs.len() implies row_masked(
                        #[trigger] pairs[p],
                        i,
                    ) by {
                        assert(m[p][i]);
                        assert(inputs[p].meaning() == Ok::<CriteriaView, ErrorView>(c[p]));
                    }
                }
                if b[i] {
                    assert forall|p: int| 0 <= p < m.len() implies (#[trigger] m[p])[i] by {
                        assert(row_masked(pairs[p], i));
                        assert(inputs[p].meaning() == Ok::<CriteriaView, ErrorView>(c[p]));
                    }
                }
            }
            assert(a =~= b);
        }
    }
}

/// A row of an array of numbers is selected by `<>` exactly where it is not by `=`; what is not a
/// number is selected by `<>` alone.
pub proof fn law_masks_of_arrays(column: FastColumn, c: Number, v: Number, op: Op, i: int)
    requires
        0 <= i < column.size(),
        column.array_number(i) == Some(v),
    ensures
        column.mask(crate::criteria::criterion(Op::Ne, CellView::Num(c)))[i] <==> !column.mask(
            crate::criteria::criterion(Op::Eq, CellView::Num(c)),
        )[i],
        v.nan() ==> (column.mask(crate::criteria::criterion(op, CellView::Num(c)))[i] <==> op
            == Op::Ne),
        !v.nan() && op != Op::Ne ==> (column.mask(
            crate::criteria::criterion(op, CellView::Num(c)),
        )[i] <==> crate::criteria::criterion(op, CellView::Num(c)).holds(CellView::Num(v))),
{
}

/// The cells of a column hold nothing that is not a number.
pub proof fn law_column_cells_are_numbers(column: FastColumn)
    ensures
        all_numbers(numbers_in_column(column)),
{
    let numbers = numbers_in_column(column);
    assert forall|i: int| 0 <= i < numbers.len() implies (#[trigger] numbers[i] matches Some(n)
        ==> !n.nan()) by {
        assert(column.cells()[i] == column.cell(i));
    }
}

/// The numeric cells of a column hold nothing that is not a number.
pub(crate) proof fn lemma_numeric_cells(column: FastColumn)
    ensures
        crate::summary_laws::numbers_all(numeric_cells(column.cells())),
{
    let cells = column.cells();
    let kept = cells.filter(|c: CellView| c is Num);
    law_column_cells_are_numbers(column);
    assert forall|k: int| 0 <= k < kept.len() implies !(#[trigger] numeric_cells(
        cells,
    )[k]).nan() by {
        lemma_kept(cells, k);
        let i = cells.index_of(kept[k]);
        assert(numbers_in(cells)[i] == Some(kept[k]->Num_0));
    }
}

/// What a filter keeps is there, and is kept by it.
proof fn lemma_kept(cells: Seq<CellView>, k: int)
    requires
        0 <= k < cells.filter(|c: CellView| c is Num).len(),
    ensures
        cells.contains(cells.filter(|c: CellView| c is Num)[k]),
        cells.filter(|c: CellView| c is Num)[k] is Num,
    decreases cells.len(),
{
    reveal(Seq::filter);
    let before = cells.drop_last();
    let some = before.filter(|c: CellView| c is Num);
    if k < some.len() {
        lemma_kept(before, k);
        let i = before.index_of(some[k]);
        assert(cells[i] == some[k]);
    } else {
        assert(cells[cells.len() - 1] == cells.last());
    }
}

/// The numbers of a target, which is the range itself unless another is given, in the rows of a column
/// that a criterion selects.
pub open spec fn chosen_rows(
    range: FastColumn,
    input: CellView,
    target: Option<FastColumn>,
) -> Seq<Number> {
    chosen(
        range.mask(input.meaning()->Ok_0),
        numbers_in_column(
            match target {
                Some(t) => t,
                None => range,
            },
        ),
    )
}

/// COUNTIF, SUMIF and AVERAGEIF on columns count the rows that the criterion selects, and take the
/// numbers of the target in them.
pub proof fn law_column_countif_and_sumif(
    range: FastColumn,
    input: CellView,
    target: Option<FastColumn>,
    formula: Formula,
)
    requires
        range.size() <= usize::MAX,
    ensures
        ({
            let column = match target {
                Some(t) => t,
                None => range,
            };
            match input.meaning() {
                Ok(c) => {
                    &&& crate::mixed::countif(range, input) == Ok::<usize, ErrorView>(
                        how_many(range.mask(c)) as usize,
                    )
                    &&& crate::mixed::sumif(range, input, target, formula) == (if column.size()
                        == range.size() {
                        Ok::<Seq<Number>, ErrorView>(
                            chosen(range.mask(c), numbers_in_column(column)),
                        )
                    } else {
                        Err(ErrorView::TargetLength(formula))
                    })
                },
                Err(e) => crate::mixed::countif(range, input) == Err::<usize, ErrorView>(e)
                    && crate::mixed::sumif(range, input, target, formula) == Err::<
                    Seq<Number>,
                    ErrorView,
                >(e),
            }
        }),
{
    let column = match target {
        Some(t) => t,
        None => range,
    };
    if let Ok(c) = input.meaning() {
        law_rows_are_counted(range.mask(c));
        lemma_numbers_in(column.cells());
        if column.size() == range.size() {
            law_picked_are_chosen(range.mask(c), numbers_in_column(column));
        }
    }
}

/// COUNTIFS on columns counts the rows that satisfy all criteria; SUMIFS, AVERAGEIFS, MINIFS and
/// MAXIFS take the numbers of the target in those rows.
pub proof fn law_column_countifs_and_sumifs(
    target: FastColumn,
    pairs: Seq<MixedPair>,
    formula: Formula,
)
    requires
        target.size() <= usize::MAX,
    ensures
        crate::mixed::countifs(pairs) == (match crate::mixed::selection(
            pairs,
            pairs[0].column.size(),
            Formula::CountIfs,
        ) {
            Ok(_) => Ok::<usize, ErrorView>(
                how_many(masked(pairs, pairs[0].column.size())) as usize,
            ),
            Err(e) => Err(e),
        }),
        crate::mixed::selected_numbers(target, pairs, formula) == (match crate::mixed::selection(
            pairs,
            target.size(),
            formula,
        ) {
            Ok(_) => Ok::<Seq<Number>, ErrorView>(
                chosen(masked(pairs, target.size()), numbers_in_column(target)),
            ),
            Err(e) => Err(e),
        }),
{
    law_column_selection(pairs, pairs[0].column.size(), Formula::CountIfs);
    law_rows_are_counted(masked(pairs, pairs[0].column.size()));
    law_column_selection(pairs, target.size(), formula);
    lemma_numbers_in(target.cells());
    law_picked_are_chosen(masked(pairs, target.size()), numbers_in_column(target));
}

/// MINIFS on columns gives one of the numbers selected, and none of them is less; MAXIFS gives one of
/// them, and none is greater. 0 is given only where no number is selected.
pub proof fn law_column_minifs_and_maxifs(target: FastColumn, pairs: Seq<MixedPair>)
    requires
        target.size() <= usize::MAX,
    ensures
        ({
            let rows = masked(pairs, target.size());
            let column = numbers_in_column(target);
            let least = crate::mixed::least_or_zero(
                crate::mixed::selected_numbers(target, pairs, Formula::MinIfs),
            );
            let greatest = crate::mixed::greatest_or_zero(
                crate::mixed::selected_numbers(target, pairs, Formula::MaxIfs),
            );
            &&& least matches Ok(m) ==> is_least(rows, column, m) || (none_chosen(rows, column) && m
                == Number::of(0))
            &&& greatest matches Ok(m) ==> is_greatest(rows, column, m) || (none_chosen(rows, column)
                && m == Number::of(0))
            &&& match crate::mixed::selection(pairs, target.size(), Formula::MinIfs) {
                Ok(_) => least is Ok,
                Err(e) => least == Err::<Number, ErrorView>(e),
            }
            &&& match crate::mixed::selection(pairs, target.size(), Formula::MaxIfs) {
                Ok(_) => greatest is Ok,
                Err(e) => greatest == Err::<Number, ErrorView>(e),
            }
        }),
{
    let rows = masked(pairs, target.size());
    let column = numbers_in_column(target);
    law_column_countifs_and_sumifs(target, pairs, Formula::MinIfs);
    law_column_countifs_and_sumifs(target, pairs, Formula::MaxIfs);
    law_column_cells_are_numbers(target);
    law_extremes_of_the_chosen(rows, column);
}

/// MINIFS and MAXIFS on columns give what a batch of one row of criteria gives on their cells.
pub proof fn law_column_extremes_are_by_cells(target: FastColumn, pairs: Seq<MixedPair>)
    requires
        target.size() <= usize::MAX,
        pairs.len() > 0,
        crate::mixed::same_length(pairs, target.size()),
        crate::criteria::meanings(crate::mixed::inputs(pairs)) matches Ok(c) && forall|
            p: int,
            i: int,
        |
            0 <= p < pairs.len() && 0 <= i < target.size() ==> #[trigger] crate::laws::mask_decides(
                pairs[p].column,
                c[p],
                i,
            ),
    ensures
        ({
            let inputs = Seq::new(pairs.len(), |p: int| seq![pairs[p].criteria@]);
            let ranges = crate::laws::pair_cells(pairs);
            let n = target.size();
            &&& crate::mixed::least_or_zero(
                crate::mixed::selected_numbers(target, pairs, Formula::MinIfs),
            ) == Ok::<Number, ErrorView>(
                crate::batch::minima(
                    crate::batch::batch(ranges, inputs, n, Formula::MinIfs),
                    target.cells(),
                )->Ok_0[0],
            )
            &&& crate::mixed::greatest_or_zero(
                crate::mixed::selected_numbers(target, pairs, Formula::MaxIfs),
            ) == Ok::<Number, ErrorView>(
                crate::batch::maxima(
                    crate::batch::batch(ranges, inputs, n, Formula::MaxIfs),
                    target.cells(),
                )->Ok_0[0],
            )
        }),
{
    lemma_single_row(target, pairs, Formula::MinIfs);
    lemma_single_row(target, pairs, Formula::MaxIfs);
}

/// A batch of one row of criteria takes what the columns take.
proof fn lemma_single_row(target: FastColumn, pairs: Seq<MixedPair>, formula: Formula)
    requires
        target.size() <= usize::MAX,
        pairs.len() > 0,
        crate::mixed::same_length(pairs, target.size()),
        crate::criteria::meanings(crate::mixed::inputs(pairs)) matches Ok(c) && forall|
            p: int,
            i: int,
        |
            0 <= p < pairs.len() && 0 <= i < target.size() ==> #[trigger] crate::laws::mask_decides(
                pairs[p].column,
                c[p],
                i,
            ),
    ensures
        ({
            let inputs = Seq::new(pairs.len(), |p: int| seq![pairs[p].criteria@]);
            let found = crate::batch::batch(
                crate::laws::pair_cells(pairs),
                inputs,
                target.size(),
                formula,
            );
            &&& found is Ok
            &&& found->Ok_0.len() == 1
            &&& crate::mixed::selected_numbers(target, pairs, formula) == Ok::<
                Seq<Number>,
                ErrorView,
            >(crate::batch::addends_by_row(found, target.cells())->Ok_0[0])
        }),
{
    let n = target.size();
    let ranges = crate::laws::pair_cells(pairs);
    let given = crate::mixed::inputs(pairs);
    let inputs = Seq::new(pairs.len(), |p: int| seq![pairs[p].criteria@]);
    let found = crate::batch::batch(ranges, inputs, n, formula);
    law_meanings(given);
    law_batch_errors(ranges, inputs, n, formula);
    if let Err(e) = found {
        assert forall|p: int| 0 <= p < ranges.len() implies (#[trigger] ranges[p]).len() == n by {
            assert(pairs[p].column.size() == n);
        }
        if exists|p: int, k: int| 0 <= p < inputs.len() && #[trigger] first_refused(inputs[p], k, e) {
            let (p, k) = choose|p: int, k: int|
                0 <= p < inputs.len() && #[trigger] first_refused(inputs[p], k, e);
            assert(given[p].meaning() is Ok);
            assert(inputs[p][k] == given[p]);
        }
        assert(false);
    }
    crate::laws::law_batch_is_one_by_one(ranges, inputs, n, formula, 0);
    assert(crate::laws::input_row(inputs, 0) =~= given);
    crate::laws::law_column_selection_is_by_cells(pairs, n, formula);
}

/// Whether this is the sum of some numbers by how many they are, or none where there are none.
pub open spec fn mean_or_none(values: Seq<Number>, mean: Option<Number>) -> bool {
    match mean {
        Some(m) => values.len() > 0 && m == crate::arith::total(values).quotient(
            Number::of_integer(values.len() as int),
        ),
        None => values.len() == 0,
    }
}

/// Whether these are the places of the flags that are set, from the lowest up.
pub open spec fn are_the_rows(rows: Seq<usize>, flags: Seq<bool>) -> bool {
    &&& forall|i: usize| #[trigger] rows.contains(i) <==> i < flags.len() && flags[i as int]
    &&& forall|j: int, k: int| 0 <= j < k < rows.len() ==> #[trigger] rows[j] < #[trigger] rows[k]
}

pub(crate) proof fn lemma_are_the_rows(flags: Seq<bool>)
    requires
        flags.len() <= usize::MAX,
    ensures
        are_the_rows(crate::selection::rows(flags), flags),
{
    let rows = crate::selection::rows(flags);
    crate::selection::law_rows_are_the_hits(flags);
    assert forall|i: usize| #[trigger] rows.contains(i) <==> i < flags.len() && flags[i as int] by {
        if rows.contains(i) {
            let k = rows.index_of(i);
            assert(rows[k] == i);
        }
    }
}

/// A row of some columns.
pub open spec fn row_of(inputs: Seq<Seq<CellView>>, row: int) -> Seq<CellView> {
    Seq::new(inputs.len(), |p: int| inputs[p][row])
}

/// A row of a batch is the rows that satisfy all criteria of that row.
pub(crate) proof fn lemma_batch_rows(
    ranges: Seq<Seq<CellView>>,
    inputs: Seq<Seq<CellView>>,
    n: nat,
    formula: Formula,
    row: int,
)
    requires
        ranges.len() == inputs.len(),
        crate::batch::batch(ranges, inputs, n, formula) is Ok,
        0 <= row < inputs[0].len(),
    ensures
        ({
            let found = crate::batch::batch(ranges, inputs, n, formula);
            let flags = satisfying(ranges, row_of(inputs, row), n);
            &&& found->Ok_0.len() == inputs[0].len()
            &&& found->Ok_0[row] == crate::selection::rows(flags)
            &&& found->Ok_0[row].len() == how_many(flags) <= n
        }),
{
    let given = row_of(inputs, row);
    let flags = satisfying(ranges, given, n);
    assert(given =~= crate::laws::input_row(inputs, row));
    crate::laws::law_batch_is_one_by_one(ranges, inputs, n, formula, row);
    law_selection(ranges, given, n, formula);
    law_rows_are_counted(flags);
    lemma_how_many(flags);
}

/// A row of a batch on one range is the rows whose cell satisfies the criterion of that row.
pub(crate) proof fn lemma_single_batch_row(
    range: Seq<CellView>,
    criteria: Seq<CellView>,
    formula: Formula,
    row: int,
)
    requires
        crate::batch::batch(seq![range], seq![criteria], range.len(), formula) is Ok,
        0 <= row < criteria.len(),
    ensures
        ({
            let found = crate::batch::batch(seq![range], seq![criteria], range.len(), formula);
            let flags = satisfying_cells(range, criteria[row]);
            &&& found->Ok_0.len() == criteria.len()
            &&& found->Ok_0[row] == crate::selection::rows(flags)
            &&& found->Ok_0[row].len() == how_many(flags) <= range.len()
        }),
{
    let rs = seq![range];
    let cs = seq![criteria];
    lemma_batch_rows(rs, cs, range.len(), formula, row);
    let a = satisfying(rs, row_of(cs, row), range.len());
    let b = satisfying_cells(range, criteria[row]);
    assert forall|i: int| 0 <= i < range.len() implies a[i] == b[i] by {
        assert(row_of(cs, row)[0] == criteria[row]);
        assert(rs[0] == range);
    }
    assert(a =~= b);
}

/// A batch has a row of the answer for each row of criteria: the rows that satisfy all criteria of
/// that row. Its counts, sums, means, least and greatest numbers are those of the rows of the answer.
pub proof fn law_batch_row(
    target: Seq<CellView>,
    ranges: Seq<Seq<CellView>>,
    inputs: Seq<Seq<CellView>>,
    formula: Formula,
    row: int,
)
    requires
        target.len() <= usize::MAX,
        ranges.len() == inputs.len(),
        crate::batch::batch(ranges, inputs, target.len(), formula) is Ok,
        0 <= row < inputs[0].len(),
    ensures
        ({
            let found = crate::batch::batch(ranges, inputs, target.len(), formula);
            let flags = satisfying(ranges, row_of(inputs, row), target.len());
            let column = numbers_in(target);
            let values = chosen(flags, column);
            &&& found->Ok_0.len() == inputs[0].len()
            &&& found->Ok_0[row] == crate::selection::rows(flags)
            &&& crate::batch::counts(found)->Ok_0[row] == how_many(flags) as usize
            &&& crate::batch::addends_by_row(found, target)->Ok_0[row] == values
            &&& crate::batch::totals(crate::batch::addends_by_row(found, target))->Ok_0[row]
                == crate::arith::total(values)
            &&& crate::batch::means(crate::batch::addends_by_row(found, target))->Ok_0[row] == (
            if values.len() == 0 {
                None
            } else {
                Some(crate::arith::total(values).quotient(Number::of_integer(values.len() as int)))
            })
            &&& {
                let m = crate::batch::minima(found, target)->Ok_0[row];
                all_numbers(column) ==> is_least(flags, column, m) || (none_chosen(flags, column) && m == Number::of(0))
            }
            &&& {
                let m = crate::batch::maxima(found, target)->Ok_0[row];
                all_numbers(column) ==> is_greatest(flags, column, m) || (none_chosen(flags, column) && m == Number::of(0))
            }
        }),
{
    let n = target.len();
    let flags = satisfying(ranges, row_of(inputs, row), n);
    lemma_batch_rows(ranges, inputs, n, formula, row);
    lemma_numbers_in(target);
    law_picked_are_chosen(flags, numbers_in(target));
    if all_numbers(numbers_in(target)) {
        law_extremes_of_the_chosen(flags, numbers_in(target));
    }
}

/// Whether the first `k` ranges and columns of criteria have the lengths asked for.
pub open spec fn fitting(
    ranges: Seq<Seq<CellView>>,
    inputs: Seq<Seq<CellView>>,
    n: nat,
    m: nat,
    k: int,
) -> bool {
    &&& forall|p: int| 0 <= p < k ==> (#[trigger] ranges[p]).len() == n
    &&& forall|p: int| 0 <= p < k ==> (#[trigger] inputs[p]).len() == m
}

/// Whether every criterion of the first `k` columns is read.
pub open spec fn all_read(inputs: Seq<Seq<CellView>>, k: int) -> bool {
    forall|p: int, row: int|
        0 <= p < k && 0 <= row < inputs[p].len() ==> (#[trigger] inputs[p][row]).meaning() is Ok
}

/// A batch fails where there are no ranges; at the first range of another length, or the first column
/// of criteria of another length than the first of them, the range before the column; and, where all
/// lengths fit, at the first criterion that is refused, column by column.
pub proof fn law_batch_errors(
    ranges: Seq<Seq<CellView>>,
    inputs: Seq<Seq<CellView>>,
    n: nat,
    formula: Formula,
)
    requires
        ranges.len() == inputs.len(),
    ensures
        ({
            let m = inputs[0].len();
            let last = ranges.len() as int;
            match crate::batch::batch(ranges, inputs, n, formula) {
                Ok(found) => {
                    &&& ranges.len() > 0
                    &&& found.len() == m
                    &&& fitting(ranges, inputs, n, m, last)
                    &&& all_read(inputs, last)
                },
                Err(e) => {
                    ||| ranges.len() == 0 && e == ErrorView::NoPairs(formula)
                    ||| e == ErrorView::RangeLength(formula) && exists|p: int|
                        0 <= p < last && (#[trigger] ranges[p]).len() != n && fitting(
                            ranges,
                            inputs,
                            n,
                            m,
                            p,
                        )
                    ||| e == ErrorView::CriteriaLength(formula) && exists|p: int|
                        0 <= p < last && (#[trigger] inputs[p]).len() != m && ranges[p].len() == n
                            && fitting(ranges, inputs, n, m, p)
                    ||| fitting(ranges, inputs, n, m, last) && exists|p: int, k: int|
                        0 <= p < last && #[trigger] first_refused(inputs[p], k, e) && all_read(
                            inputs,
                            p,
                        )
                },
            }
        }),
{
    if ranges.len() > 0 {
        lemma_length_error(ranges, inputs, n, inputs[0].len(), formula);
        lemma_columns_meaning(inputs);
    }
}

proof fn lemma_fitting_before(
    ranges: Seq<Seq<CellView>>,
    inputs: Seq<Seq<CellView>>,
    n: nat,
    m: nat,
    k: int,
)
    requires
        ranges.len() == inputs.len() > 0,
        0 <= k < ranges.len(),
    ensures
        fitting(ranges, inputs, n, m, k) <==> fitting(
            ranges.drop_last(),
            inputs.drop_last(),
            n,
            m,
            k,
        ),
{
    let (r, q) = (ranges.drop_last(), inputs.drop_last());
    assert forall|p: int| 0 <= p < k implies r[p] == #[trigger] ranges[p] by {}
    assert forall|p: int| 0 <= p < k implies ranges[p] == #[trigger] r[p] by {}
    assert forall|p: int| 0 <= p < k implies q[p] == #[trigger] inputs[p] by {}
    assert forall|p: int| 0 <= p < k implies inputs[p] == #[trigger] q[p] by {}
}

proof fn lemma_length_error(
    ranges: Seq<Seq<CellView>>,
    inputs: Seq<Seq<CellView>>,
    n: nat,
    m: nat,
    formula: Formula,
)
    requires
        ranges.len() == inputs.len(),
    ensures
        match crate::batch::length_error(ranges, inputs, n, m, formula) {
            None => fitting(ranges, inputs, n, m, ranges.len() as int),
            Some(e) => {
                ||| e == ErrorView::RangeLength(formula) && exists|p: int|
                    0 <= p < ranges.len() && (#[trigger] ranges[p]).len() != n && fitting(
                        ranges,
                        inputs,
                        n,
                        m,
                        p,
                    )
                ||| e == ErrorView::CriteriaLength(formula) && exists|p: int|
                    0 <= p < inputs.len() && (#[trigger] inputs[p]).len() != m && ranges[p].len()
                        == n && fitting(ranges, inputs, n, m, p)
            },
        },
    decreases ranges.len(),
{
    if ranges.len() > 0 {
        let (r, q) = (ranges.drop_last(), inputs.drop_last());
        lemma_length_error(r, q, n, m, formula);
        let last = ranges.len() - 1;
        assert(ranges[last] == ranges.last());
        assert(inputs[last] == inputs.last());
        match crate::batch::length_error(r, q, n, m, formula) {
            Some(e) => {
                if e == ErrorView::RangeLength(formula) {
                    let p = choose|p: int|
                        0 <= p < r.len() && (#[trigger] r[p]).len() != n && fitting(r, q, n, m, p);
                    lemma_fitting_before(ranges, inputs, n, m, p);
                    assert(ranges[p] == r[p]);
                } else {
                    let p = choose|p: int|
                        0 <= p < q.len() && (#[trigger] q[p]).len() != m && r[p].len() == n
                            && fitting(r, q, n, m, p);
                    lemma_fitting_before(ranges, inputs, n, m, p);
                    assert(inputs[p] == q[p] && ranges[p] == r[p]);
                }
            },
            None => {
                lemma_fitting_before(ranges, inputs, n, m, last);
                assert(fitting(ranges, inputs, n, m, last));
            },
        }
    }
}

proof fn lemma_columns_meaning(inputs: Seq<Seq<CellView>>)
    ensures
        match crate::batch::columns_meaning(inputs) {
            Ok(c) => all_read(inputs, inputs.len() as int),
            Err(e) => exists|p: int, k: int|
                0 <= p < inputs.len() && #[trigger] first_refused(inputs[p], k, e) && all_read(
                    inputs,
                    p,
                ),
        },
    decreases inputs.len(),
{
    if inputs.len() > 0 {
        let before = inputs.drop_last();
        let last = inputs.len() - 1;
        lemma_columns_meaning(before);
        law_meanings(inputs.last());
        assert(inputs[last] == inputs.last());
        assert forall|p: int| 0 <= p < last implies before[p] == #[trigger] inputs[p] by {}
        match crate::batch::columns_meaning(before) {
            Ok(c) => {
                assert forall|p: int, row: int|
                    0 <= p < last && 0 <= row < inputs[p].len() implies (
                #[trigger] inputs[p][row]).meaning() is Ok by {
                    assert(before[p][row].meaning() is Ok);
                }
                assert(all_read(inputs, last));
                if let Err(e) = crate::batch::columns_meaning(inputs) {
                    let k = choose|k: int| first_refused(inputs.last(), k, e);
                    assert(first_refused(inputs[last], k, e));
                } else {
                    assert forall|p: int, row: int|
                        0 <= p < inputs.len() && 0 <= row < inputs[p].len() implies (
                    #[trigger] inputs[p][row]).meaning() is Ok by {}
                }
            },
            Err(e) => {
                let (p, k) = choose|p: int, k: int|
                    0 <= p < before.len() && #[trigger] first_refused(before[p], k, e) && all_read(
                        before,
                        p,
                    );
                assert forall|o: int, row: int|
                    0 <= o < p && 0 <= row < inputs[o].len() implies (
                #[trigger] inputs[o][row]).meaning() is Ok by {
                    assert(before[o][row].meaning() is Ok);
                }
                assert(first_refused(inputs[p], k, e));
            },
        }
    }
}

/// The batches of SUMIF and AVERAGEIF take, for each criterion, what SUMIF takes for it. A target of
/// another length than the range, and a criterion that is refused, are errors.
pub proof fn law_sumif_vec(
    range: Seq<CellView>,
    criteria: Seq<CellView>,
    target: Option<Seq<CellView>>,
    formula: Formula,
)
    requires
        range.len() <= usize::MAX,
    ensures
        ({
            let column = match target {
                Some(t) => t,
                None => range,
            };
            match crate::batch::sumif_vec(range, criteria, target, formula) {
                Ok(v) => {
                    &&& column.len() == range.len()
                    &&& v.len() == criteria.len()
                    &&& forall|row: int|
                        0 <= row < v.len() ==> #[trigger] v[row] == chosen(
                            satisfying_cells(range, criteria[row]),
                            numbers_in(column),
                        )
                },
                Err(e) => {
                    ||| column.len() != range.len() && e == ErrorView::TargetLength(formula)
                    ||| column.len() == range.len() && exists|k: int| first_refused(criteria, k, e)
                },
            }
        }),
{
    let column = match target {
        Some(t) => t,
        None => range,
    };
    let rs = seq![range];
    let cs = seq![criteria];
    if column.len() == range.len() {
        law_batch_errors(rs, cs, range.len(), formula);
        match crate::batch::batch(rs, cs, range.len(), formula) {
            Ok(found) => {
                let v = crate::batch::sumif_vec(range, criteria, target, formula)->Ok_0;
                assert forall|row: int| 0 <= row < v.len() implies #[trigger] v[row] == chosen(
                    satisfying_cells(range, criteria[row]),
                    numbers_in(column),
                ) by {
                    let given = crate::laws::input_row(cs, row);
                    crate::laws::law_batch_is_one_by_one(rs, cs, range.len(), formula, row);
                    law_selection(rs, given, range.len(), formula);
                    let a = satisfying(rs, given, range.len());
                    let b = satisfying_cells(range, criteria[row]);
                    assert forall|i: int| 0 <= i < range.len() implies a[i] == b[i] by {
                        assert(given[0] == criteria[row]);
                        assert(rs[0] == range);
                    }
                    assert(a =~= b);
                    lemma_numbers_in(column);
                    law_picked_are_chosen(a, numbers_in(column));
                }
            },
            Err(e) => {
                assert(rs[0] == range && cs[0] == criteria);
            },
        }
    }
}

/// A row is common to masks exactly where there are masks and each selects it. Where an array is summed
/// up by masks, what is not a number is left out.
pub proof fn law_masks_in_common(masks: Seq<Seq<bool>>, values: Seq<Number>, n: nat, i: int)
    requires
        0 <= i < n,
    ensures
        crate::masks::common(masks, n).len() == n,
        crate::masks::common(masks, n)[i] <==> masks.len() > 0 && forall|m: int|
            0 <= m < masks.len() ==> (#[trigger] masks[m])[i],
        crate::masks::non_nan(values).len() == values.len(),
        i < values.len() ==> crate::masks::non_nan(values)[i] == (if values[i].nan() {
            None
        } else {
            Some(values[i])
        }),
{
}

/// A cell of a column of texts equals a text exactly where the criterion of equality says so; a blank
/// cell equals none.
pub proof fn law_equal_masks(cells: Seq<Option<Seq<char>>>, needle: Seq<char>, negate: bool, i: int)
    requires
        0 <= i < cells.len(),
    ensures
        crate::arrow_text::equal_mask(cells, needle, negate).len() == cells.len(),
        crate::arrow_text::equal_mask(cells, needle, negate)[i] == (negate != (
        cells[i] matches Some(t) && !crate::text::blank(t) && crate::criteria::criterion(
            Op::Eq,
            CellView::Text(needle),
        ).holds(CellView::Text(t)))),
{
}

/// Which of `n` rows every mask selects; none is without masks.
pub open spec fn selected_by_all(masks: Seq<Seq<bool>>, n: nat) -> Seq<bool> {
    Seq::new(
        n,
        |i: int| masks.len() > 0 && forall|m: int| 0 <= m < masks.len() ==> (#[trigger] masks[m])[i],
    )
}

/// The numbers of an array, without what is not a number.
pub open spec fn numbers_only(values: Seq<Number>) -> Seq<Option<Number>> {
    values.map_values(
        |v: Number|
            if v.nan() {
                None
            } else {
                Some(v)
            },
    )
}

pub(crate) proof fn lemma_masked_numbers(masks: Seq<Seq<bool>>, values: Seq<Number>)
    requires
        values.len() <= usize::MAX,
    ensures
        crate::selection::picked(
            crate::selection::rows(crate::masks::common(masks, values.len())),
            crate::masks::non_nan(values),
        ) == chosen(selected_by_all(masks, values.len()), numbers_only(values)),
{
    let flags = crate::masks::common(masks, values.len());
    assert(flags =~= selected_by_all(masks, values.len()));
    assert(crate::masks::non_nan(values) =~= numbers_only(values));
    law_picked_are_chosen(flags, numbers_only(values));
}

}
