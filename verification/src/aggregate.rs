//! Formulas that reduce a range to one value: SUM, MIN, MAX, AVERAGE, COUNT, and those of them that
//! take one criterion or several.
use vstd::prelude::*;
use crate::arith::{mean_of, sum_of};
use crate::cell::{CellValue, CellView};
use crate::criteria::{parse_criteria, Criteria, CriteriaView};
use crate::error::{ErrorView, Formula, FormulaError};
use crate::number::Number;
use crate::selection::{greatest_of, least_of, matching_rows, numbers_of, pick};

verus! {

/// SUM: the numbers of a range, added up.
pub fn sum_values(values: &Vec<CellValue>) -> (r: Number)
    ensures
        r == crate::arith::total(
            crate::selection::present(
                crate::selection::numbers(crate::selection::cells(values@)),
            ),
        ),
        r == crate::arith::total(
            crate::selection_laws::numeric_cells(crate::selection::cells(values@)),
        ),
{
    proof {
        crate::selection_laws::law_present_are_numeric_cells(crate::selection::cells(values@));
    }
    sum_of(&numbers_of(values))
}

/// What MIN gives: the least number of a range.
pub open spec fn minimum(values: Seq<Number>, formula: Formula) -> Result<Number, ErrorView> {
    match crate::selection::least(values) {
        Some(n) => Ok(n),
        None => Err(ErrorView::NoNumericValues(formula)),
    }
}

/// What MAX gives: the greatest number of a range.
pub open spec fn maximum(values: Seq<Number>, formula: Formula) -> Result<Number, ErrorView> {
    match crate::selection::greatest(values) {
        Some(n) => Ok(n),
        None => Err(ErrorView::NoNumericValues(formula)),
    }
}

/// The sum of the numbers that were selected.
pub open spec fn summed(values: Result<Seq<Number>, ErrorView>) -> Result<Number, ErrorView> {
    match values {
        Ok(v) => Ok(crate::arith::total(v)),
        Err(e) => Err(e),
    }
}

/// The mean of the numbers that were selected, or an error where there is none.
pub open spec fn averaged(values: Result<Seq<Number>, ErrorView>, error: ErrorView) -> Result<
    Number,
    ErrorView,
> {
    match values {
        Ok(v) => if v.len() == 0 {
            Err(error)
        } else {
            Ok(crate::arith::mean(v))
        },
        Err(e) => Err(e),
    }
}

/// MIN.
pub fn min_values(values: &Vec<CellValue>) -> (r: Result<Number, FormulaError>)
    ensures
        crate::selection::outcome(r) == minimum(
            crate::selection::present(
                crate::selection::numbers(crate::selection::cells(values@)),
            ),
            Formula::Min,
        ),
        ({
            let all = crate::selection_laws::numeric_cells(crate::selection::cells(values@));
            &&& r is Ok <==> all.len() > 0
            &&& crate::summary_laws::numbers_all(all) ==> (r matches Ok(m)
                ==> crate::selection_laws::least_of_all(all, m))
        }),
{
    proof {
        let cells = crate::selection::cells(values@);
        crate::selection_laws::law_present_are_numeric_cells(cells);
        crate::selection_laws::law_extremes(crate::selection_laws::numeric_cells(cells));
    }
    match least_of(&numbers_of(values)) {
        Some(n) => Ok(n),
        None => Err(FormulaError::NoNumericValues(Formula::Min)),
    }
}

/// MAX.
pub fn max_values(values: &Vec<CellValue>) -> (r: Result<Number, FormulaError>)
    ensures
        crate::selection::outcome(r) == maximum(
            crate::selection::present(
                crate::selection::numbers(crate::selection::cells(values@)),
            ),
            Formula::Max,
        ),
        ({
            let all = crate::selection_laws::numeric_cells(crate::selection::cells(values@));
            &&& r is Ok <==> all.len() > 0
            &&& crate::summary_laws::numbers_all(all) ==> (r matches Ok(m)
                ==> crate::selection_laws::greatest_of_all(all, m))
        }),
{
    proof {
        let cells = crate::selection::cells(values@);
        crate::selection_laws::law_present_are_numeric_cells(cells);
        crate::selection_laws::law_extremes(crate::selection_laws::numeric_cells(cells));
    }
    match greatest_of(&numbers_of(values)) {
        Some(n) => Ok(n),
        None => Err(FormulaError::NoNumericValues(Formula::Max)),
    }
}

/// AVERAGE: the mean of the numbers of a range.
pub fn average_values(values: &Vec<CellValue>) -> (r: Result<Number, FormulaError>)
    ensures
        crate::selection::outcome(r) == averaged(
            Ok(
                crate::selection::present(
                    crate::selection::numbers(crate::selection::cells(values@)),
                ),
            ),
            ErrorView::NoNumericValues(Formula::Average),
        ),
        ({
            let all = crate::selection_laws::numeric_cells(crate::selection::cells(values@));
            &&& r is Ok <==> all.len() > 0
            &&& r matches Ok(m) ==> m == crate::arith::total(all).quotient(
                Number::of_integer(all.len() as int),
            )
        }),
{
    proof {
        crate::selection_laws::law_present_are_numeric_cells(crate::selection::cells(values@));
    }
    let addends = numbers_of(values);
    if addends.len() == 0 {
        Err(FormulaError::NoNumericValues(Formula::Average))
    } else {
        Ok(mean_of(&addends))
    }
}

/// COUNT: how many cells are numeric.
pub fn count_values(values: &Vec<CellValue>) -> (r: usize)
    ensures
        r == crate::selection::present(
            crate::selection::numbers(crate::selection::cells(values@)),
        ).len(),
        r == crate::selection_laws::numeric_cells(crate::selection::cells(values@)).len(),
{
    proof {
        crate::selection_laws::law_present_are_numeric_cells(crate::selection::cells(values@));
    }
    numbers_of(values).len()
}

/// What COUNTIF gives: how many cells satisfy the criterion.
pub open spec fn countif(range: Seq<CellView>, criteria: CellView) -> Result<usize, ErrorView> {
    match criteria.meaning() {
        Ok(c) => Ok(crate::selection::rows(crate::selection::hits(range, c)).len() as usize),
        Err(e) => Err(e),
    }
}

/// The numbers that SUMIF adds: those of the target, which is the range itself unless another is
/// given, in the rows whose cell in the range satisfies the criterion. A criterion that is refused
/// comes before a target of another length.
pub open spec fn sumif(
    range: Seq<CellView>,
    criteria: CellView,
    target: Option<Seq<CellView>>,
    formula: Formula,
) -> Result<Seq<Number>, ErrorView> {
    let column = match target {
        Some(t) => t,
        None => range,
    };
    match criteria.meaning() {
        Ok(c) => if column.len() != range.len() {
            Err(ErrorView::TargetLength(formula))
        } else {
            Ok(
                crate::selection::picked(
                    crate::selection::rows(crate::selection::hits(range, c)),
                    crate::selection::numbers(column),
                ),
            )
        },
        Err(e) => Err(e),
    }
}

/// What AVERAGEIF gives: the mean of the numbers that SUMIF adds.
pub open spec fn averageif(
    range: Seq<CellView>,
    criteria: CellView,
    target: Option<Seq<CellView>>,
) -> Result<Number, ErrorView> {
    averaged(
        sumif(range, criteria, target, Formula::AverageIf),
        ErrorView::NoMatchingValues(Formula::AverageIf),
    )
}

/// The cells of a target, if there is one.
pub open spec fn target_cells(target: Option<&Vec<CellValue>>) -> Option<Seq<CellView>> {
    match target {
        Some(t) => Some(crate::selection::cells(t@)),
        None => None,
    }
}

/// COUNTIF.
pub fn countif_values(range: &Vec<CellValue>, criteria: &CellValue) -> (r: Result<
    usize,
    FormulaError,
>)
    ensures
        crate::selection::outcome(r) == countif(crate::selection::cells(range@), criteria@),
        r is Ok <==> criteria@.meaning() is Ok,
        r matches Ok(k) ==> k == crate::selection_laws::how_many(
            crate::selection_laws::satisfying_cells(crate::selection::cells(range@), criteria@),
        ),
{
    proof {
        crate::selection_laws::law_countif(crate::selection::cells(range@), criteria@);
        crate::selection_laws::lemma_how_many(
            crate::selection_laws::satisfying_cells(crate::selection::cells(range@), criteria@),
        );
        assert(range.len() <= usize::MAX);
    }
    let c = parse_criteria(criteria)?;
    Ok(matching_rows(range, &c).len())
}

/// The numbers of a target in the rows in which a range satisfies a criterion.
fn pick_where(
    range: &Vec<CellValue>,
    criteria: &CellValue,
    target: Option<&Vec<CellValue>>,
    formula: Formula,
) -> (r: Result<Vec<Number>, FormulaError>)
    ensures
        crate::selection::outcome(r) == sumif(
            crate::selection::cells(range@),
            criteria@,
            target_cells(target),
            formula,
        ),
{
    let c = parse_criteria(criteria)?;
    let column = match target {
        Some(t) => t,
        None => range,
    };
    if column.len() != range.len() {
        return Err(FormulaError::TargetLength(formula));
    }
    let rows = matching_rows(range, &c);
    proof {
        crate::selection::law_rows_are_the_hits(
            crate::selection::hits(crate::selection::cells(range@), c@),
        );
    }
    Ok(pick(&rows, column))
}

/// SUMIF.
pub fn sumif_values(
    range: &Vec<CellValue>,
    criteria: &CellValue,
    sum_range: Option<&Vec<CellValue>>,
) -> (r: Result<Number, FormulaError>)
    ensures
        crate::selection::outcome(r) == summed(
            sumif(
                crate::selection::cells(range@),
                criteria@,
                target_cells(sum_range),
                Formula::SumIf,
            ),
        ),
        r matches Ok(t) ==> t == crate::arith::total(
            crate::selection_laws::chosen_cells(
                crate::selection::cells(range@),
                criteria@,
                target_cells(sum_range),
            ),
        ),
{
    proof {
        assert(range.len() <= usize::MAX);
        crate::selection_laws::law_sumif(
            crate::selection::cells(range@),
            criteria@,
            target_cells(sum_range),
            Formula::SumIf,
        );
    }
    let addends = pick_where(range, criteria, sum_range, Formula::SumIf)?;
    Ok(sum_of(&addends))
}

/// AVERAGEIF.
pub fn averageif_values(
    range: &Vec<CellValue>,
    criteria: &CellValue,
    average_range: Option<&Vec<CellValue>>,
) -> (r: Result<Number, FormulaError>)
    ensures
        crate::selection::outcome(r) == averageif(
            crate::selection::cells(range@),
            criteria@,
            target_cells(average_range),
        ),
        r matches Ok(m) ==> {
            let v = crate::selection_laws::chosen_cells(
                crate::selection::cells(range@),
                criteria@,
                target_cells(average_range),
            );
            v.len() > 0 && m == crate::arith::total(v).quotient(Number::of_integer(v.len() as int))
        },
{
    proof {
        assert(range.len() <= usize::MAX);
        crate::selection_laws::law_sumif(
            crate::selection::cells(range@),
            criteria@,
            target_cells(average_range),
            Formula::AverageIf,
        );
    }
    let addends = pick_where(range, criteria, average_range, Formula::AverageIf)?;
    if addends.len() == 0 {
        Err(FormulaError::NoMatchingValues(Formula::AverageIf))
    } else {
        Ok(mean_of(&addends))
    }
}

/// A range with its criterion.
pub struct Pair {
    pub range: Vec<CellValue>,
    pub criteria: CellValue,
}

/// The ranges of some pairs.
pub open spec fn ranges(pairs: Seq<Pair>) -> Seq<Seq<CellView>> {
    Seq::new(pairs.len(), |p: int| crate::selection::cells(pairs[p].range@))
}

/// The criteria of some pairs, as given.
pub open spec fn inputs(pairs: Seq<Pair>) -> Seq<CellView> {
    Seq::new(pairs.len(), |p: int| pairs[p].criteria@)
}

/// Whether all ranges have the same length.
pub open spec fn same_length(ranges: Seq<Seq<CellView>>, n: nat) -> bool {
    forall|p: int| 0 <= p < ranges.len() ==> (#[trigger] ranges[p]).len() == n
}

/// The rows in which every range satisfies its criterion. Ranges of different lengths come before
/// a criterion that is refused.
pub open spec fn selection(
    ranges: Seq<Seq<CellView>>,
    criteria: Seq<CellView>,
    n: nat,
    formula: Formula,
) -> Result<Seq<usize>, ErrorView> {
    if ranges.len() == 0 {
        Err(ErrorView::NoPairs(formula))
    } else if !same_length(ranges, n) {
        Err(ErrorView::RangeLength(formula))
    } else {
        match crate::criteria::meanings(criteria) {
            Ok(c) => Ok(crate::selection::rows(crate::selection::all_hits(ranges, c, n))),
            Err(e) => Err(e),
        }
    }
}

/// What COUNTIFS gives: how many rows satisfy all criteria.
pub open spec fn countifs(ranges: Seq<Seq<CellView>>, criteria: Seq<CellView>) -> Result<
    usize,
    ErrorView,
> {
    match selection(ranges, criteria, ranges[0].len(), Formula::CountIfs) {
        Ok(rows) => Ok(rows.len() as usize),
        Err(e) => Err(e),
    }
}

/// The numbers that SUMIFS adds: those of the target in the rows that satisfy all criteria.
pub open spec fn sumifs(
    target: Seq<CellView>,
    ranges: Seq<Seq<CellView>>,
    criteria: Seq<CellView>,
) -> Result<Seq<Number>, ErrorView> {
    match selection(ranges, criteria, target.len(), Formula::SumIfs) {
        Ok(rows) => Ok(
            crate::selection::picked(rows, crate::selection::numbers(target)),
        ),
        Err(e) => Err(e),
    }
}

/// Whether a row satisfies all criteria.
fn row_matches(pairs: &Vec<Pair>, criteria: &Vec<Criteria>, i: usize) -> (r: bool)
    requires
        criteria@.len() == pairs@.len(),
        forall|p: int| 0 <= p < pairs@.len() ==> i < (#[trigger] pairs@[p]).range@.len(),
    ensures
        r == crate::selection::row_holds(
            ranges(pairs@),
            crate::criteria::views(criteria@),
            i as int,
        ),
{
    let mut p: usize = 0;
    while p < pairs.len()
        invariant
            p <= pairs@.len() == criteria@.len(),
            forall|q: int| 0 <= q < pairs@.len() ==> i < (#[trigger] pairs@[q]).range@.len(),
            forall|q: int|
                0 <= q < p ==> (#[trigger] crate::criteria::views(criteria@)[q]).holds(
                    ranges(pairs@)[q][i as int],
                ),
        decreases pairs@.len() - p,
    {
        if !crate::criteria::matches(&pairs[p].range[i], &criteria[p]) {
            assert(!crate::criteria::views(criteria@)[p as int].holds(
                ranges(pairs@)[p as int][i as int],
            ));
            return false;
        }
        p = p + 1;
    }
    true
}

/// The criteria of some pairs.
fn parse_pairs(pairs: &Vec<Pair>) -> (r: Result<Vec<Criteria>, FormulaError>)
    ensures
        match r {
            Ok(v) => crate::criteria::meanings(inputs(pairs@)) == Ok::<
                Seq<CriteriaView>,
                ErrorView,
            >(crate::criteria::views(v@)),
            Err(e) => crate::criteria::meanings(inputs(pairs@)) == Err::<
                Seq<CriteriaView>,
                ErrorView,
            >(e@),
        },
{
    let ghost all = inputs(pairs@);
    let mut out: Vec<Criteria> = Vec::new();
    let mut i: usize = 0;
    assert(crate::criteria::views(out@) =~= Seq::empty());
    while i < pairs.len()
        invariant
            i <= pairs@.len() == all.len(),
            all == inputs(pairs@),
            crate::criteria::meanings(all.take(i as int)) == Ok::<Seq<CriteriaView>, ErrorView>(
                crate::criteria::views(out@),
            ),
        decreases pairs@.len() - i,
    {
        assert(all.take(i + 1).drop_last() =~= all.take(i as int));
        match parse_criteria(&pairs[i].criteria) {
            Ok(c) => {
                let ghost before = crate::criteria::views(out@);
                out.push(c);
                assert(crate::criteria::views(out@) =~= before.push(c@));
            },
            Err(e) => {
                proof {
                    crate::criteria::lemma_first_refusal(all, i + 1);
                }
                return Err(e);
            },
        }
        i = i + 1;
    }
    assert(all.take(i as int) =~= all);
    Ok(out)
}

/// The rows that satisfy all criteria.
fn select(pairs: &Vec<Pair>, n: usize, formula: Formula) -> (r: Result<Vec<usize>, FormulaError>)
    ensures
        crate::selection::outcome(r) == selection(ranges(pairs@), inputs(pairs@), n as nat, formula),
        r matches Ok(rows) ==> forall|k: int|
            0 <= k < rows@.len() ==> #[trigger] rows@[k] < n,
{
    if pairs.len() == 0 {
        return Err(FormulaError::NoPairs(formula));
    }
    let mut p: usize = 0;
    while p < pairs.len()
        invariant
            p <= pairs@.len(),
            forall|q: int| 0 <= q < p ==> (#[trigger] ranges(pairs@)[q]).len() == n,
        decreases pairs@.len() - p,
    {
        if pairs[p].range.len() != n {
            assert(ranges(pairs@)[p as int].len() != n);
            return Err(FormulaError::RangeLength(formula));
        }
        p = p + 1;
    }
    assert forall|q: int| 0 <= q < pairs@.len() implies (#[trigger] pairs@[q]).range@.len() == n by {
        assert(ranges(pairs@)[q].len() == n);
    }
    let criteria = parse_pairs(pairs)?;
    let ghost wanted = crate::selection::all_hits(
        ranges(pairs@),
        crate::criteria::views(criteria@),
        n as nat,
    );
    proof {
        crate::criteria::lemma_meanings(inputs(pairs@));
    }
    let mut out: Vec<usize> = Vec::new();
    let mut i: usize = 0;
    while i < n
        invariant
            i <= n == wanted.len(),
            criteria@.len() == pairs@.len(),
            forall|q: int| 0 <= q < pairs@.len() ==> (#[trigger] pairs@[q]).range@.len() == n,
            wanted == crate::selection::all_hits(
                ranges(pairs@),
                crate::criteria::views(criteria@),
                n as nat,
            ),
            out@ == crate::selection::rows(wanted.take(i as int)),
        decreases n - i,
    {
        proof {
            crate::selection::lemma_rows_step(wanted, i as int);
        }
        if row_matches(pairs, &criteria, i) {
            out.push(i);
        }
        i = i + 1;
    }
    assert(wanted.take(i as int) =~= wanted);
    proof {
        crate::selection::law_rows_are_the_hits(wanted);
    }
    Ok(out)
}

/// COUNTIFS.
pub fn countifs_values(pairs: &Vec<Pair>) -> (r: Result<usize, FormulaError>)
    ensures
        crate::selection::outcome(r) == countifs(ranges(pairs@), inputs(pairs@)),
        r matches Ok(k) ==> k == crate::selection_laws::how_many(
            crate::selection_laws::satisfying(
                ranges(pairs@),
                inputs(pairs@),
                pairs@[0].range@.len(),
            ),
        ),
{
    proof {
        crate::selection_laws::law_countifs_and_sumifs(
            Seq::empty(),
            ranges(pairs@),
            inputs(pairs@),
        );
        crate::selection_laws::lemma_how_many(
            crate::selection_laws::satisfying(
                ranges(pairs@),
                inputs(pairs@),
                ranges(pairs@)[0].len(),
            ),
        );
    }
    let n = if pairs.len() == 0 {
        0
    } else {
        pairs[0].range.len()
    };
    let rows = select(pairs, n, Formula::CountIfs)?;
    Ok(rows.len())
}

/// SUMIFS.
pub fn sumifs_values(sum_range: &Vec<CellValue>, pairs: &Vec<Pair>) -> (r: Result<
    Number,
    FormulaError,
>)
    ensures
        crate::selection::outcome(r) == summed(
            sumifs(crate::selection::cells(sum_range@), ranges(pairs@), inputs(pairs@)),
        ),
        r matches Ok(t) ==> t == crate::arith::total(
            crate::selection_laws::chosen(
                crate::selection_laws::satisfying(
                    ranges(pairs@),
                    inputs(pairs@),
                    sum_range@.len(),
                ),
                crate::selection_laws::numbers_in(crate::selection::cells(sum_range@)),
            ),
        ),
{
    proof {
        assert(sum_range.len() <= usize::MAX);
        crate::selection_laws::law_countifs_and_sumifs(
            crate::selection::cells(sum_range@),
            ranges(pairs@),
            inputs(pairs@),
        );
    }
    let rows = select(pairs, sum_range.len(), Formula::SumIfs)?;
    Ok(sum_of(&pick(&rows, sum_range)))
}

}
