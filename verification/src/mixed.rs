//! Formulas over columns, each read in the form in which it comes.
use vstd::prelude::*;
use crate::arith::{mean_of, sum_of};
use crate::cell::{CellValue, CellView};
use crate::column::FastColumn;
use crate::criteria::{parse_criteria, Criteria, CriteriaView};
use crate::error::{ErrorView, Formula, FormulaError};
use crate::masks::{common_rows, count_all_masks_true, sum_and_count_where_all_masks_true, sum_where_all_masks_true};
use crate::number::Number;
use crate::selection::{greatest_of, least_of, rows_of};

verus! {

/// A column with its criterion.
pub struct MixedPair {
    pub column: FastColumn,
    pub criteria: CellValue,
}

/// The numbers of a column, where there are any.
pub open spec fn column_numbers(column: FastColumn) -> Seq<Option<Number>> {
    crate::selection::numbers(column.cells())
}

/// The criteria of some pairs, as given.
pub open spec fn inputs(pairs: Seq<MixedPair>) -> Seq<CellView> {
    Seq::new(pairs.len(), |p: int| pairs[p].criteria@)
}

/// The mask of each pair.
pub open spec fn masks(pairs: Seq<MixedPair>, criteria: Seq<CriteriaView>) -> Seq<Seq<bool>> {
    Seq::new(pairs.len(), |p: int| pairs[p].column.mask(criteria[p]))
}

/// Whether all columns have the same length.
pub open spec fn same_length(pairs: Seq<MixedPair>, n: nat) -> bool {
    forall|p: int| 0 <= p < pairs.len() ==> (#[trigger] pairs[p]).column.size() == n
}

/// The rows that all criteria select. A criterion that is refused comes before columns of different
/// lengths.
pub open spec fn selection(pairs: Seq<MixedPair>, n: nat, formula: Formula) -> Result<
    Seq<usize>,
    ErrorView,
> {
    if pairs.len() == 0 {
        Err(ErrorView::NoPairs(formula))
    } else {
        match crate::criteria::meanings(inputs(pairs)) {
            Ok(c) => if same_length(pairs, n) {
                Ok(crate::selection::rows(crate::masks::common(masks(pairs, c), n)))
            } else {
                Err(ErrorView::RangeLength(formula))
            },
            Err(e) => Err(e),
        }
    }
}

/// The numbers of a column in the rows that all criteria select.
pub open spec fn selected_numbers(target: FastColumn, pairs: Seq<MixedPair>, formula: Formula) -> Result<
    Seq<Number>,
    ErrorView,
> {
    match selection(pairs, target.size(), formula) {
        Ok(rows) => Ok(crate::selection::picked(rows, column_numbers(target))),
        Err(e) => Err(e),
    }
}

/// The rows of an array of numbers hold what the array holds.
proof fn lemma_array(column: FastColumn, values: Seq<Number>)
    requires
        values.len() == column.size(),
        forall|i: int|
            0 <= i < values.len() ==> column.array_number(i) == Some(#[trigger] values[i]),
    ensures
        crate::masks::non_nan(values) == column_numbers(column),
{
    assert forall|i: int| 0 <= i < values.len() implies #[trigger] crate::masks::non_nan(values)[i]
        == column_numbers(column)[i] by {
        assert(column.array_number(i) == Some(values[i]));
    }
    assert(crate::masks::non_nan(values) =~= column_numbers(column));
}

/// The numbers of a column.
pub(crate) fn numbers_of_column(column: &FastColumn) -> (r: Vec<Number>)
    ensures
        r@ == crate::selection::present(column_numbers(*column)),
{
    let ghost all = column_numbers(*column);
    let n = column.len();
    let mut r: Vec<Number> = Vec::new();
    let mut i: usize = 0;
    while i < n
        invariant
            i <= n == column.size() == all.len(),
            all == column_numbers(*column),
            r@ == crate::selection::present(all.take(i as int)),
        decreases n - i,
    {
        proof {
            crate::selection::lemma_present_step(all, i as int);
        }
        if let Some(v) = column.numeric_at(i) {
            r.push(v);
        }
        i = i + 1;
    }
    assert(all.take(i as int) =~= all);
    r
}

/// The numbers in the given rows of a column.
fn pick_column(rows: &Vec<usize>, column: &FastColumn) -> (r: Vec<Number>)
    requires
        forall|k: int| 0 <= k < rows@.len() ==> #[trigger] rows@[k] < column.size(),
    ensures
        r@ == crate::selection::picked(rows@, column_numbers(*column)),
{
    let ghost numbers = column_numbers(*column);
    let ghost all = Seq::new(rows@.len(), |k: int| numbers[rows@[k] as int]);
    let mut r: Vec<Number> = Vec::new();
    let mut k: usize = 0;
    while k < rows.len()
        invariant
            k <= rows@.len() == all.len(),
            numbers == column_numbers(*column),
            all == Seq::new(rows@.len(), |k: int| numbers[rows@[k] as int]),
            forall|k: int| 0 <= k < rows@.len() ==> #[trigger] rows@[k] < column.size(),
            r@ == crate::selection::present(all.take(k as int)),
        decreases rows@.len() - k,
    {
        proof {
            crate::selection::lemma_present_step(all, k as int);
        }
        if let Some(v) = column.numeric_at(rows[k]) {
            r.push(v);
        }
        k = k + 1;
    }
    assert(all.take(k as int) =~= all);
    r
}

/// SUM: the numbers of a column, added up.
pub fn sum_mixed(values: &FastColumn) -> (r: Number)
    ensures
        r == crate::arith::total(crate::selection::present(column_numbers(*values))),
        r == crate::arith::total(crate::selection_laws::numeric_cells(values.cells())),
{
    proof {
        crate::selection_laws::law_present_are_numeric_cells(values.cells());
    }
    sum_of(&numbers_of_column(values))
}

/// AVERAGE: the mean of the numbers of a column.
pub fn average_mixed(values: &FastColumn) -> (r: Result<Number, FormulaError>)
    ensures
        crate::selection::outcome(r) == crate::aggregate::averaged(
            Ok(crate::selection::present(column_numbers(*values))),
            ErrorView::NoNumericValues(Formula::Average),
        ),
        ({
            let all = crate::selection_laws::numeric_cells(values.cells());
            &&& r is Ok <==> all.len() > 0
            &&& r matches Ok(m) ==> m == crate::arith::total(all).quotient(
                Number::of_integer(all.len() as int),
            )
        }),
{
    proof {
        crate::selection_laws::law_present_are_numeric_cells(values.cells());
    }
    let addends = numbers_of_column(values);
    if addends.len() == 0 {
        Err(FormulaError::NoNumericValues(Formula::Average))
    } else {
        Ok(mean_of(&addends))
    }
}

/// COUNT: how many cells are numeric.
pub fn count_mixed(values: &FastColumn) -> (r: usize)
    ensures
        r == crate::selection::present(column_numbers(*values)).len(),
        r == crate::selection_laws::numeric_cells(values.cells()).len(),
{
    proof {
        crate::selection_laws::law_present_are_numeric_cells(values.cells());
    }
    numbers_of_column(values).len()
}

/// MIN.
pub fn min_mixed(values: &FastColumn) -> (r: Result<Number, FormulaError>)
    ensures
        crate::selection::outcome(r) == crate::aggregate::minimum(
            crate::selection::present(column_numbers(*values)),
            Formula::Min,
        ),
        ({
            let all = crate::selection_laws::numeric_cells(values.cells());
            &&& r is Ok <==> all.len() > 0
            &&& r matches Ok(m) ==> crate::selection_laws::least_of_all(all, m)
        }),
{
    proof {
        crate::selection_laws::law_present_are_numeric_cells(values.cells());
        crate::selection_laws::law_extremes(crate::selection_laws::numeric_cells(values.cells()));
        crate::selection_laws::lemma_numeric_cells(*values);
    }
    match least_of(&numbers_of_column(values)) {
        Some(n) => Ok(n),
        None => Err(FormulaError::NoNumericValues(Formula::Min)),
    }
}

/// MAX.
pub fn max_mixed(values: &FastColumn) -> (r: Result<Number, FormulaError>)
    ensures
        crate::selection::outcome(r) == crate::aggregate::maximum(
            crate::selection::present(column_numbers(*values)),
            Formula::Max,
        ),
        ({
            let all = crate::selection_laws::numeric_cells(values.cells());
            &&& r is Ok <==> all.len() > 0
            &&& r matches Ok(m) ==> crate::selection_laws::greatest_of_all(all, m)
        }),
{
    proof {
        crate::selection_laws::law_present_are_numeric_cells(values.cells());
        crate::selection_laws::law_extremes(crate::selection_laws::numeric_cells(values.cells()));
        crate::selection_laws::lemma_numeric_cells(*values);
    }
    match greatest_of(&numbers_of_column(values)) {
        Some(n) => Ok(n),
        None => Err(FormulaError::NoNumericValues(Formula::Max)),
    }
}

/// What COUNTIF gives for a column.
pub open spec fn countif(range: FastColumn, criteria: CellView) -> Result<usize, ErrorView> {
    match criteria.meaning() {
        Ok(c) => Ok(crate::selection::rows(range.mask(c)).len() as usize),
        Err(e) => Err(e),
    }
}

/// The numbers of the target, which is the range itself unless another is given, in the rows that the
/// criterion selects.
pub open spec fn sumif(
    range: FastColumn,
    criteria: CellView,
    target: Option<FastColumn>,
    formula: Formula,
) -> Result<Seq<Number>, ErrorView> {
    let column = match target {
        Some(t) => t,
        None => range,
    };
    match criteria.meaning() {
        Ok(c) => if column.size() != range.size() {
            Err(ErrorView::TargetLength(formula))
        } else {
            Ok(
                crate::selection::picked(
                    crate::selection::rows(range.mask(c)),
                    column_numbers(column),
                ),
            )
        },
        Err(e) => Err(e),
    }
}

/// COUNTIF.
pub fn countif_mixed(range: &FastColumn, criteria: &CellValue) -> (r: Result<
    usize,
    FormulaError,
>)
    ensures
        crate::selection::outcome(r) == countif(*range, criteria@),
        r is Ok <==> criteria@.meaning() is Ok,
        r matches Ok(k) ==> k == crate::selection_laws::how_many(
            range.mask(criteria@.meaning()->Ok_0),
        ),
{
    let n = range.len();
    proof {
        crate::selection_laws::law_column_countif_and_sumif(
            *range,
            criteria@,
            None,
            Formula::SumIf,
        );
        if let Ok(c) = criteria@.meaning() {
            crate::selection_laws::lemma_how_many(range.mask(c));
        }
    }
    let c = parse_criteria(criteria)?;
    let mask = range.build_mask(&c, n);
    Ok(rows_of(&mask).len())
}

/// The numbers of a target in the rows that a criterion selects.
fn pick_where(
    range: &FastColumn,
    criteria: &CellValue,
    target: Option<&FastColumn>,
    formula: Formula,
) -> (r: Result<Vec<Number>, FormulaError>)
    ensures
        crate::selection::outcome(r) == sumif(
            *range,
            criteria@,
            crate::lookup::unref(target),
            formula,
        ),
        r is Ok ==> range.size() <= usize::MAX,
{
    let c = parse_criteria(criteria)?;
    let column = match target {
        Some(t) => t,
        None => range,
    };
    let n = range.len();
    if column.len() != n {
        return Err(FormulaError::TargetLength(formula));
    }
    let mask = range.build_mask(&c, n);
    let rows = rows_of(&mask);
    proof {
        crate::selection::law_rows_are_the_hits(mask@);
    }
    Ok(pick_column(&rows, column))
}

/// SUMIF.
pub fn sumif_mixed(
    range: &FastColumn,
    criteria: &CellValue,
    sum_range: Option<&FastColumn>,
) -> (r: Result<Number, FormulaError>)
    ensures
        crate::selection::outcome(r) == crate::aggregate::summed(
            sumif(*range, criteria@, crate::lookup::unref(sum_range), Formula::SumIf),
        ),
        r matches Ok(t) ==> t == crate::arith::total(
            crate::selection_laws::chosen_rows(
                *range,
                criteria@,
                crate::lookup::unref(sum_range),
            ),
        ),
{
    let addends = pick_where(range, criteria, sum_range, Formula::SumIf)?;
    proof {
        crate::selection_laws::law_column_countif_and_sumif(
            *range,
            criteria@,
            crate::lookup::unref(sum_range),
            Formula::SumIf,
        );
    }
    Ok(sum_of(&addends))
}

/// AVERAGEIF.
pub fn averageif_mixed(
    range: &FastColumn,
    criteria: &CellValue,
    average_range: Option<&FastColumn>,
) -> (r: Result<Number, FormulaError>)
    ensures
        crate::selection::outcome(r) == crate::aggregate::averaged(
            sumif(
                *range,
                criteria@,
                crate::lookup::unref(average_range),
                Formula::AverageIf,
            ),
            ErrorView::NoMatchingValues(Formula::AverageIf),
        ),
        r matches Ok(m) ==> {
            let v = crate::selection_laws::chosen_rows(
                *range,
                criteria@,
                crate::lookup::unref(average_range),
            );
            v.len() > 0 && m == crate::arith::total(v).quotient(Number::of_integer(v.len() as int))
        },
{
    let addends = pick_where(range, criteria, average_range, Formula::AverageIf)?;
    proof {
        crate::selection_laws::law_column_countif_and_sumif(
            *range,
            criteria@,
            crate::lookup::unref(average_range),
            Formula::AverageIf,
        );
    }
    if addends.len() == 0 {
        Err(FormulaError::NoMatchingValues(Formula::AverageIf))
    } else {
        Ok(mean_of(&addends))
    }
}

/// The criteria of some pairs.
fn parse_pairs(pairs: &Vec<MixedPair>) -> (r: Result<Vec<Criteria>, FormulaError>)
    ensures
        match r {
            Ok(v) => crate::criteria::meanings(inputs(pairs@)) == Ok::<
                Seq<CriteriaView>,
                ErrorView,
            >(crate::criteria::views(v@)),
            Err(e) => crate::criteria::meanings(inputs(pairs@)) == Err::<
                Seq<CriteriaView>,
                ErrorView,
            >(e@),
        },
{
    let ghost all = inputs(pairs@);
    let mut out: Vec<Criteria> = Vec::new();
    let mut i: usize = 0;
    assert(crate::criteria::views(out@) =~= Seq::empty());
    while i < pairs.len()
        invariant
            i <= pairs@.len() == all.len(),
            all == inputs(pairs@),
            crate::criteria::meanings(all.take(i as int)) == Ok::<Seq<CriteriaView>, ErrorView>(
                crate::criteria::views(out@),
            ),
        decreases pairs@.len() - i,
    {
        assert(all.take(i + 1).drop_last() =~= all.take(i as int));
        match parse_criteria(&pairs[i].criteria) {
            Ok(c) => {
                let ghost before = crate::criteria::views(out@);
                out.push(c);
                assert(crate::criteria::views(out@) =~= before.push(c@));
            },
            Err(e) => {
                proof {
                    crate::criteria::lemma_first_refusal(all, i + 1);
                }
                return Err(e);
            },
        }
        i = i + 1;
    }
    assert(all.take(i as int) =~= all);
    Ok(out)
}

/// What the masks of a selection select, or why there is none.
spec fn masks_of(pairs: Seq<MixedPair>, n: nat, formula: Formula) -> Result<
    Seq<Seq<bool>>,
    ErrorView,
> {
    if pairs.len() == 0 {
        Err(ErrorView::NoPairs(formula))
    } else {
        match crate::criteria::meanings(inputs(pairs)) {
            Ok(c) => if same_length(pairs, n) {
                Ok(masks(pairs, c))
            } else {
                Err(ErrorView::RangeLength(formula))
            },
            Err(e) => Err(e),
        }
    }
}

/// The mask of each pair.
fn build_masks(pairs: &Vec<MixedPair>, n: usize, formula: Formula) -> (r: Result<
    Vec<Vec<bool>>,
    FormulaError,
>)
    ensures
        match r {
            Ok(m) => masks_of(pairs@, n as nat, formula) == Ok::<Seq<Seq<bool>>, ErrorView>(
                crate::masks::mask_views(m@),
            ) && m@.len() > 0 && forall|p: int|
                0 <= p < m@.len() ==> (#[trigger] m@[p])@.len() == n,
            Err(e) => masks_of(pairs@, n as nat, formula) == Err::<Seq<Seq<bool>>, ErrorView>(e@),
        },
{
    if pairs.len() == 0 {
        return Err(FormulaError::NoPairs(formula));
    }
    let criteria = parse_pairs(pairs)?;
    proof {
        crate::criteria::lemma_meanings(inputs(pairs@));
        assert(crate::criteria::views(criteria@).len() == criteria@.len());
    }
    let mut p: usize = 0;
    while p < pairs.len()
        invariant
            0 < pairs@.len(),
            p <= pairs@.len(),
            crate::criteria::meanings(inputs(pairs@)) is Ok,
            forall|q: int| 0 <= q < p ==> (#[trigger] pairs@[q]).column.size() == n,
        decreases pairs@.len() - p,
    {
        if pairs[p].column.len() != n {
            assert(pairs@[p as int].column.size() != n);
            return Err(FormulaError::RangeLength(formula));
        }
        p = p + 1;
    }
    let mut m: Vec<Vec<bool>> = Vec::new();
    let mut p: usize = 0;
    while p < pairs.len()
        invariant
            p <= pairs@.len() == criteria@.len(),
            forall|q: int| 0 <= q < pairs@.len() ==> (#[trigger] pairs@[q]).column.size() == n,
            m@.len() == p,
            forall|q: int|
                0 <= q < p ==> (#[trigger] m@[q])@ == pairs@[q].column.mask(criteria@[q]@),
        decreases pairs@.len() - p,
    {
        assert(pairs@[p as int].column.size() == n);
        m.push(pairs[p].column.build_mask(&criteria[p], n));
        p = p + 1;
    }
    assert(crate::masks::mask_views(m@) =~= masks(pairs@, crate::criteria::views(criteria@)));
    assert forall|q: int| 0 <= q < m@.len() implies (#[trigger] m@[q])@.len() == n by {
        assert(pairs@[q].column.size() == n);
    }
    Ok(m)
}

/// The rows of a single mask are those common to all masks.
proof fn lemma_single(masks: Seq<Seq<bool>>, n: nat)
    requires
        masks.len() == 1,
        masks[0].len() == n,
    ensures
        crate::masks::common(masks, n) == masks[0],
{
    assert forall|i: int| 0 <= i < n implies #[trigger] crate::masks::common(masks, n)[i]
        == masks[0][i] by {
        if masks[0][i] {
            assert(crate::masks::in_all(masks, i));
        } else {
            assert(!masks[0][i]);
        }
    }
    assert(crate::masks::common(masks, n) =~= masks[0]);
}

/// What COUNTIFS gives for columns.
pub open spec fn countifs(pairs: Seq<MixedPair>) -> Result<usize, ErrorView> {
    match selection(pairs, pairs[0].column.size(), Formula::CountIfs) {
        Ok(rows) => Ok(rows.len() as usize),
        Err(e) => Err(e),
    }
}

/// COUNTIFS.
pub fn countifs_mixed(pairs: &Vec<MixedPair>) -> (r: Result<usize, FormulaError>)
    ensures
        crate::selection::outcome(r) == countifs(pairs@),
        r matches Ok(k) ==> k == crate::selection_laws::how_many(
            crate::selection_laws::masked(pairs@, pairs@[0].column.size()),
        ),
{
    proof {
        crate::selection_laws::law_column_selection(
            pairs@,
            pairs@[0].column.size(),
            Formula::CountIfs,
        );
        crate::selection_laws::law_rows_are_counted(
            crate::selection_laws::masked(pairs@, pairs@[0].column.size()),
        );
        crate::selection_laws::lemma_how_many(
            crate::selection_laws::masked(pairs@, pairs@[0].column.size()),
        );
    }
    let n = if pairs.len() == 0 {
        0
    } else {
        pairs[0].column.len()
    };
    let m = build_masks(pairs, n, Formula::CountIfs)?;
    proof {
        assert(crate::masks::mask_views(m@).len() == m@.len());
        if m@.len() == 1 {
            lemma_single(crate::masks::mask_views(m@), n as nat);
        }
    }
    Ok(count_all_masks_true(&m, n))
}

/// The numbers of a target in the rows that all criteria select.
fn pick_all(target: &FastColumn, pairs: &Vec<MixedPair>, formula: Formula) -> (r: Result<
    Vec<Number>,
    FormulaError,
>)
    ensures
        crate::selection::outcome(r) == selected_numbers(*target, pairs@, formula),
        target.size() <= usize::MAX,
{
    let n = target.len();
    let m = build_masks(pairs, n, formula)?;
    let rows = common_rows(&m, n);
    proof {
        crate::selection::law_rows_are_the_hits(
            crate::masks::common(crate::masks::mask_views(m@), n as nat),
        );
    }
    Ok(pick_column(&rows, target))
}

/// SUMIFS. An array of numbers is read without looking at its cells.
pub fn sumifs_mixed(sum_range: &FastColumn, pairs: &Vec<MixedPair>) -> (r: Result<
    Number,
    FormulaError,
>)
    ensures
        crate::selection::outcome(r) == crate::aggregate::summed(
            selected_numbers(*sum_range, pairs@, Formula::SumIfs),
        ),
        r matches Ok(t) ==> t == crate::arith::total(
            crate::selection_laws::chosen(
                crate::selection_laws::masked(pairs@, sum_range.size()),
                crate::selection_laws::numbers_in_column(*sum_range),
            ),
        ),
{
    let n = sum_range.len();
    proof {
        crate::selection_laws::law_column_countifs_and_sumifs(
            *sum_range,
            pairs@,
            Formula::SumIfs,
        );
    }
    match sum_range.as_f64_slice() {
        Some(values) => {
            let m = build_masks(pairs, n, Formula::SumIfs)?;
            proof {
                lemma_array(*sum_range, values@);
            }
            Ok(sum_where_all_masks_true(&values, &m, n))
        },
        None => {
            let addends = pick_all(sum_range, pairs, Formula::SumIfs)?;
            Ok(sum_of(&addends))
        },
    }
}

/// AVERAGEIFS.
pub fn averageifs_mixed(average_range: &FastColumn, pairs: &Vec<MixedPair>) -> (r: Result<
    Number,
    FormulaError,
>)
    ensures
        crate::selection::outcome(r) == crate::aggregate::averaged(
            selected_numbers(*average_range, pairs@, Formula::AverageIfs),
            ErrorView::NoMatchingValues(Formula::AverageIfs),
        ),
        r matches Ok(m) ==> {
            let v = crate::selection_laws::chosen(
                crate::selection_laws::masked(pairs@, average_range.size()),
                crate::selection_laws::numbers_in_column(*average_range),
            );
            v.len() > 0 && m == crate::arith::total(v).quotient(Number::of_integer(v.len() as int))
        },
{
    let n = average_range.len();
    proof {
        crate::selection_laws::law_column_countifs_and_sumifs(
            *average_range,
            pairs@,
            Formula::AverageIfs,
        );
    }
    let (sum, count) = match average_range.as_f64_slice() {
        Some(values) => {
            let m = build_masks(pairs, n, Formula::AverageIfs)?;
            proof {
                lemma_array(*average_range, values@);
            }
            sum_and_count_where_all_masks_true(&values, &m, n)
        },
        None => {
            let addends = pick_all(average_range, pairs, Formula::AverageIfs)?;
            (sum_of(&addends), addends.len())
        },
    };
    if count == 0 {
        Err(FormulaError::NoMatchingValues(Formula::AverageIfs))
    } else {
        Ok(sum.over(Number::from_count(count)))
    }
}

/// The least number, or 0 where there is none.
pub open spec fn least_or_zero(values: Result<Seq<Number>, ErrorView>) -> Result<Number, ErrorView> {
    match values {
        Ok(v) => Ok(crate::batch::or_zero(crate::selection::least(v))),
        Err(e) => Err(e),
    }
}

/// The greatest number, or 0 where there is none.
pub open spec fn greatest_or_zero(values: Result<Seq<Number>, ErrorView>) -> Result<
    Number,
    ErrorView,
> {
    match values {
        Ok(v) => Ok(crate::batch::or_zero(crate::selection::greatest(v))),
        Err(e) => Err(e),
    }
}

/// MINIFS: 0 where no number is selected.
pub fn minifs_mixed(min_range: &FastColumn, pairs: &Vec<MixedPair>) -> (r: Result<
    Number,
    FormulaError,
>)
    ensures
        crate::selection::outcome(r) == least_or_zero(
            selected_numbers(*min_range, pairs@, Formula::MinIfs),
        ),
        r matches Ok(m) ==> {
            let rows = crate::selection_laws::masked(pairs@, min_range.size());
            let column = crate::selection_laws::numbers_in_column(*min_range);
            ||| crate::selection_laws::is_least(rows, column, m)
            ||| crate::selection_laws::none_chosen(rows, column) && m.bits == 0
        },
{
    let values = pick_all(min_range, pairs, Formula::MinIfs)?;
    proof {
        crate::selection_laws::law_column_minifs_and_maxifs(*min_range, pairs@);
    }
    Ok(crate::batch::or_else_zero(least_of(&values)))
}

/// MAXIFS: 0 where no number is selected.
pub fn maxifs_mixed(max_range: &FastColumn, pairs: &Vec<MixedPair>) -> (r: Result<
    Number,
    FormulaError,
>)
    ensures
        crate::selection::outcome(r) == greatest_or_zero(
            selected_numbers(*max_range, pairs@, Formula::MaxIfs),
        ),
        r matches Ok(m) ==> {
            let rows = crate::selection_laws::masked(pairs@, max_range.size());
            let column = crate::selection_laws::numbers_in_column(*max_range);
            ||| crate::selection_laws::is_greatest(rows, column, m)
            ||| crate::selection_laws::none_chosen(rows, column) && m.bits == 0
        },
{
    let values = pick_all(max_range, pairs, Formula::MaxIfs)?;
    proof {
        crate::selection_laws::law_column_minifs_and_maxifs(*max_range, pairs@);
    }
    Ok(crate::batch::or_else_zero(greatest_of(&values)))
}

}
