//! Formulas with criteria, for many criteria at once: one result for each row of the columns of
//! criteria.
//!
//! Rows that are asked for by equality are found by way of indexes, which are made in one pass over
//! the ranges: texts and blanks by their keys, numbers in their order. Other criteria are held against
//! each row of the ranges. Either way the rows are those that satisfy all criteria.
use vstd::prelude::*;
use crate::arith::{mean_of, sum_of};
use crate::cell::{CellValue, CellView, KeyView, LookupKey};
use crate::criteria::{criteria_key, parse_all, Criteria, CriteriaView, Op};
use crate::error::{ErrorView, Formula, FormulaError};
use crate::keys::{keys_of, RowIndex};
use crate::near::NumberIndex;
use crate::number::Number;
use crate::selection::{greatest_of, least_of, pick};

verus! {

/// A range with a column of criteria.
pub struct BatchPair {
    pub range: Vec<CellValue>,
    pub criteria: Vec<CellValue>,
}

/// The ranges of some pairs.
pub open spec fn ranges(pairs: Seq<BatchPair>) -> Seq<Seq<CellView>> {
    Seq::new(pairs.len(), |p: int| crate::selection::cells(pairs[p].range@))
}

/// The columns of criteria of some pairs, as given.
pub open spec fn inputs(pairs: Seq<BatchPair>) -> Seq<Seq<CellView>> {
    Seq::new(pairs.len(), |p: int| crate::selection::cells(pairs[p].criteria@))
}

/// What is wrong with the lengths, at the first pair at which something is.
pub open spec fn length_error(
    ranges: Seq<Seq<CellView>>,
    inputs: Seq<Seq<CellView>>,
    n: nat,
    m: nat,
    formula: Formula,
) -> Option<ErrorView>
    decreases ranges.len(),
{
    if ranges.len() == 0 {
        None
    } else {
        match length_error(ranges.drop_last(), inputs.drop_last(), n, m, formula) {
            Some(e) => Some(e),
            None => if ranges.last().len() != n {
                Some(ErrorView::RangeLength(formula))
            } else if inputs.last().len() != m {
                Some(ErrorView::CriteriaLength(formula))
            } else {
                None
            },
        }
    }
}

/// What columns of criteria stand for, or what is wrong with the first criterion that is refused,
/// column by column.
pub open spec fn columns_meaning(inputs: Seq<Seq<CellView>>) -> Result<
    Seq<Seq<CriteriaView>>,
    ErrorView,
>
    decreases inputs.len(),
{
    if inputs.len() == 0 {
        Ok(Seq::empty())
    } else {
        match columns_meaning(inputs.drop_last()) {
            Ok(before) => match crate::criteria::meanings(inputs.last()) {
                Ok(c) => Ok(before.push(c)),
                Err(e) => Err(e),
            },
            Err(e) => Err(e),
        }
    }
}

/// A row of the columns of criteria.
pub open spec fn criteria_row(columns: Seq<Seq<CriteriaView>>, row: int) -> Seq<CriteriaView> {
    Seq::new(columns.len(), |p: int| columns[p][row])
}

/// The keys of some criteria.
spec fn criteria_keys(criteria: Seq<CriteriaView>) -> Seq<KeyView> {
    Seq::new(criteria.len(), |p: int| criteria[p].value.key())
}

/// The keys of some ranges.
spec fn key_columns(ranges: Seq<Seq<CellView>>) -> Seq<Seq<KeyView>> {
    Seq::new(ranges.len(), |p: int| crate::keys::keys(ranges[p]))
}

/// The rows of the ranges that answer each of `m` rows of criteria: those that satisfy all of them.
pub open spec fn rows_by_row(
    ranges: Seq<Seq<CellView>>,
    columns: Seq<Seq<CriteriaView>>,
    n: nat,
    m: nat,
) -> Seq<Seq<usize>> {
    Seq::new(
        m,
        |row: int|
            crate::selection::rows(
                crate::selection::all_hits(ranges, criteria_row(columns, row), n),
            ),
    )
}

/// The rows of the ranges that answer each row of criteria. The lengths are looked at before the
/// criteria are read.
pub open spec fn batch(
    ranges: Seq<Seq<CellView>>,
    inputs: Seq<Seq<CellView>>,
    n: nat,
    formula: Formula,
) -> Result<Seq<Seq<usize>>, ErrorView> {
    if ranges.len() == 0 {
        Err(ErrorView::NoPairs(formula))
    } else {
        match length_error(ranges, inputs, n, inputs[0].len(), formula) {
            Some(e) => Err(e),
            None => match columns_meaning(inputs) {
                Ok(columns) => Ok(rows_by_row(ranges, columns, n, inputs[0].len())),
                Err(e) => Err(e),
            },
        }
    }
}

/// How many rows there are, for each row of criteria.
pub open spec fn counts(found: Result<Seq<Seq<usize>>, ErrorView>) -> Result<Seq<usize>, ErrorView> {
    match found {
        Ok(rows) => Ok(Seq::new(rows.len(), |row: int| rows[row].len() as usize)),
        Err(e) => Err(e),
    }
}

/// The numbers of a target in the rows found, for each row of criteria.
pub open spec fn addends_by_row(found: Result<Seq<Seq<usize>>, ErrorView>, target: Seq<CellView>) -> Result<
    Seq<Seq<Number>>,
    ErrorView,
> {
    match found {
        Ok(rows) => Ok(
            Seq::new(
                rows.len(),
                |row: int|
                    crate::selection::picked(rows[row], crate::selection::numbers(target)),
            ),
        ),
        Err(e) => Err(e),
    }
}

/// The sum of the numbers, for each row of criteria.
pub open spec fn totals(values: Result<Seq<Seq<Number>>, ErrorView>) -> Result<
    Seq<Number>,
    ErrorView,
> {
    match values {
        Ok(v) => Ok(Seq::new(v.len(), |row: int| crate::arith::total(v[row]))),
        Err(e) => Err(e),
    }
}

/// The mean of the numbers, for each row of criteria, where there are any.
pub open spec fn means(values: Result<Seq<Seq<Number>>, ErrorView>) -> Result<
    Seq<Option<Number>>,
    ErrorView,
> {
    match values {
        Ok(v) => Ok(
            Seq::new(
                v.len(),
                |row: int|
                    if v[row].len() == 0 {
                        None
                    } else {
                        Some(crate::arith::mean(v[row]))
                    },
            ),
        ),
        Err(e) => Err(e),
    }
}

/// The least number of a target in the rows found, for each row of criteria; 0 where there is none.
pub open spec fn minima(found: Result<Seq<Seq<usize>>, ErrorView>, target: Seq<CellView>) -> Result<
    Seq<Number>,
    ErrorView,
> {
    match addends_by_row(found, target) {
        Ok(values) => Ok(
            Seq::new(
                values.len(),
                |row: int| or_zero(crate::selection::least(values[row])),
            ),
        ),
        Err(e) => Err(e),
    }
}

/// The greatest number of a target in the rows found, for each row of criteria; 0 where there is
/// none.
pub open spec fn maxima(found: Result<Seq<Seq<usize>>, ErrorView>, target: Seq<CellView>) -> Result<
    Seq<Number>,
    ErrorView,
> {
    match addends_by_row(found, target) {
        Ok(values) => Ok(
            Seq::new(
                values.len(),
                |row: int| or_zero(crate::selection::greatest(values[row])),
            ),
        ),
        Err(e) => Err(e),
    }
}

/// A number, or 0 in its place.
pub open spec fn or_zero(value: Option<Number>) -> Number {
    match value {
        Some(n) => n,
        None => Number::of(0),
    }
}

/// Some ranges, as contracts speak of them.
pub open spec fn range_views(ranges: Seq<&Vec<CellValue>>) -> Seq<Seq<CellView>> {
    Seq::new(ranges.len(), |p: int| crate::selection::cells(ranges[p]@))
}

/// Some columns of criteria, as contracts speak of them.
pub open spec fn criteria_views(columns: Seq<Vec<Criteria>>) -> Seq<Seq<CriteriaView>> {
    Seq::new(columns.len(), |p: int| crate::criteria::views(columns[p]@))
}

/// Whether a row of the ranges satisfies every criterion of a row of criteria.
fn row_matches(
    ranges: &Vec<&Vec<CellValue>>,
    columns: &Vec<Vec<Criteria>>,
    row: usize,
    i: usize,
) -> (r: bool)
    requires
        columns@.len() == ranges@.len(),
        forall|p: int| 0 <= p < ranges@.len() ==> i < (#[trigger] ranges@[p])@.len(),
        forall|p: int| 0 <= p < columns@.len() ==> row < (#[trigger] columns@[p])@.len(),
    ensures
        r == crate::selection::row_holds(
            range_views(ranges@),
            criteria_row(criteria_views(columns@), row as int),
            i as int,
        ),
{
    let ghost wanted = criteria_row(criteria_views(columns@), row as int);
    let mut p: usize = 0;
    while p < ranges.len()
        invariant
            p <= ranges@.len() == columns@.len(),
            wanted == criteria_row(criteria_views(columns@), row as int),
            forall|p: int| 0 <= p < ranges@.len() ==> i < (#[trigger] ranges@[p])@.len(),
            forall|p: int| 0 <= p < columns@.len() ==> row < (#[trigger] columns@[p])@.len(),
            forall|q: int|
                0 <= q < p ==> (#[trigger] wanted[q]).holds(range_views(ranges@)[q][i as int]),
        decreases ranges@.len() - p,
    {
        assert(i < ranges@[p as int]@.len());
        assert(wanted[p as int] == columns@[p as int]@[row as int]@);
        if !crate::criteria::matches(&ranges[p][i], &columns[p][row]) {
            assert(!wanted[p as int].holds(range_views(ranges@)[p as int][i as int]));
            return false;
        }
        p = p + 1;
    }
    true
}

/// Whether a criterion asks for a text or a blank by equality.
spec fn by_text(c: CriteriaView) -> bool {
    c.keyed() && !(c.value is Num)
}

/// The keys of a row of criteria that all ask for a text or a blank; none where one does not.
fn text_keys(columns: &Vec<Vec<Criteria>>, row: usize) -> (r: Option<Vec<LookupKey>>)
    requires
        forall|p: int| 0 <= p < columns@.len() ==> row < (#[trigger] columns@[p])@.len(),
    ensures
        r matches Some(keys) ==> crate::keys::key_views(keys@) == criteria_keys(
            criteria_row(criteria_views(columns@), row as int),
        ),
        r is Some <==> forall|p: int|
            0 <= p < columns@.len() ==> by_text(
                #[trigger] criteria_row(criteria_views(columns@), row as int)[p],
            ),
{
    let ghost wanted = criteria_row(criteria_views(columns@), row as int);
    let mut r: Vec<LookupKey> = Vec::new();
    let mut p: usize = 0;
    while p < columns.len()
        invariant
            p <= columns@.len(),
            wanted == criteria_row(criteria_views(columns@), row as int),
            forall|p: int| 0 <= p < columns@.len() ==> row < (#[trigger] columns@[p])@.len(),
            r@.len() == p,
            forall|q: int| 0 <= q < p ==> by_text(#[trigger] wanted[q]),
            forall|q: int| 0 <= q < p ==> (#[trigger] r@[q])@ == wanted[q].value.key(),
        decreases columns@.len() - p,
    {
        assert(row < columns@[p as int]@.len());
        assert(wanted[p as int] == columns@[p as int]@[row as int]@);
        match criteria_key(&columns[p][row]) {
            Some(LookupKey::Num(_)) => {
                assert(!by_text(wanted[p as int]));
                return None;
            },
            Some(key) => {
                r.push(key);
            },
            None => {
                assert(!by_text(wanted[p as int]));
                return None;
            },
        }
        p = p + 1;
    }
    assert(crate::keys::key_views(r@) =~= criteria_keys(wanted));
    Some(r)
}

/// The first criterion of a row that asks for a number by equality, and the number.
fn number_asked(columns: &Vec<Vec<Criteria>>, row: usize) -> (r: Option<(usize, Number)>)
    requires
        forall|p: int| 0 <= p < columns@.len() ==> row < (#[trigger] columns@[p])@.len(),
    ensures
        r matches Some((p, v)) ==> p < columns@.len() && criteria_row(
            criteria_views(columns@),
            row as int,
        )[p as int] == crate::criteria::criterion(Op::Eq, CellView::Num(v)),
        r is None ==> forall|p: int|
            0 <= p < columns@.len() ==> !by_number(
                #[trigger] criteria_row(criteria_views(columns@), row as int)[p],
            ),
{
    let mut p: usize = 0;
    while p < columns.len()
        invariant
            p <= columns@.len(),
            forall|q: int|
                0 <= q < p ==> !by_number(
                    #[trigger] criteria_row(criteria_views(columns@), row as int)[q],
                ),
            forall|p: int| 0 <= p < columns@.len() ==> row < (#[trigger] columns@[p])@.len(),
        decreases columns@.len() - p,
    {
        assert(row < columns@[p as int]@.len());
        if let Some(LookupKey::Num(v)) = criteria_key(&columns[p][row]) {
            return Some((p, v));
        }
        p = p + 1;
    }
    None
}

/// Whether a criterion asks for a number by equality.
spec fn by_number(c: CriteriaView) -> bool {
    c.keyed() && c.value is Num
}

/// Whether one of a column of criteria asks for a number by equality.
fn asks_for_number(column: &Vec<Criteria>) -> (r: bool)
    ensures
        r == exists|row: int| 0 <= row < column@.len() && by_number((#[trigger] column@[row])@),
{
    let mut row: usize = 0;
    while row < column.len()
        invariant
            row <= column@.len(),
            forall|k: int| 0 <= k < row ==> !by_number((#[trigger] column@[k])@),
        decreases column@.len() - row,
    {
        if let Some(LookupKey::Num(_)) = criteria_key(&column[row]) {
            assert(by_number(column@[row as int]@));
            return true;
        }
        row = row + 1;
    }
    false
}

/// The indexes of some ranges.
struct Indexes {
    texts: Option<RowIndex>,
    numbers: Vec<Option<NumberIndex>>,
}

impl Indexes {
    /// Whether these are the indexes of the ranges, where there are any.
    spec fn of(&self, ranges: Seq<Seq<CellView>>, n: nat) -> bool {
        &&& self.texts matches Some(t) ==> t.indexes(key_columns(ranges), n)
        &&& self.numbers@.len() == ranges.len()
        &&& forall|p: int|
            0 <= p < ranges.len() ==> (#[trigger] self.numbers@[p] matches Some(t) ==> t.indexes(
                crate::selection::numbers(ranges[p]),
            ))
    }
}

/// The index of the keys of some ranges.
fn index_texts(ranges: &Vec<&Vec<CellValue>>, n: usize) -> (r: RowIndex)
    requires
        forall|p: int| 0 <= p < ranges@.len() ==> (#[trigger] ranges@[p])@.len() == n,
    ensures
        r.indexes(key_columns(range_views(ranges@)), n as nat),
{
    let mut key_cols: Vec<Vec<LookupKey>> = Vec::new();
    let mut p: usize = 0;
    while p < ranges.len()
        invariant
            p <= ranges@.len(),
            key_cols@.len() == p,
            forall|q: int|
                0 <= q < p ==> crate::keys::key_views((#[trigger] key_cols@[q])@) == key_columns(
                    range_views(ranges@),
                )[q],
        decreases ranges@.len() - p,
    {
        key_cols.push(keys_of(ranges[p]));
        p = p + 1;
    }
    proof {
        let all_keys = key_columns(range_views(ranges@));
        assert(crate::keys::column_views(key_cols@) =~= all_keys);
        assert forall|q: int| 0 <= q < key_cols@.len() implies (#[trigger] key_cols@[q])@.len()
            == n by {
            assert(crate::keys::key_views(key_cols@[q]@) == all_keys[q]);
            assert(crate::keys::key_views(key_cols@[q]@).len() == key_cols@[q]@.len());
            assert(ranges@[q]@.len() == n);
        }
    }
    RowIndex::build(&key_cols, n)
}

/// The index of the numbers of a range.
fn index_numbers(range: &Vec<CellValue>) -> (r: NumberIndex)
    ensures
        r.indexes(crate::selection::numbers(crate::selection::cells(range@))),
{
    let mut column: Vec<Option<Number>> = Vec::new();
    let mut i: usize = 0;
    while i < range.len()
        invariant
            i <= range@.len(),
            column@.len() == i,
            forall|k: int| 0 <= k < i ==> #[trigger] column@[k] == range@[k]@.number(),
        decreases range@.len() - i,
    {
        column.push(range[i].number());
        i = i + 1;
    }
    assert(column@ =~= crate::selection::numbers(crate::selection::cells(range@)));
    NumberIndex::build(&column)
}

/// The indexes that the criteria have a use for.
fn make_indexes(
    ranges: &Vec<&Vec<CellValue>>,
    columns: &Vec<Vec<Criteria>>,
    n: usize,
    m: usize,
) -> (r: Indexes)
    requires
        columns@.len() == ranges@.len(),
        forall|p: int| 0 <= p < ranges@.len() ==> (#[trigger] ranges@[p])@.len() == n,
        forall|p: int| 0 <= p < columns@.len() ==> (#[trigger] columns@[p])@.len() == m,
    ensures
        r.of(range_views(ranges@), n as nat),
{
    let mut numbers: Vec<Option<NumberIndex>> = Vec::new();
    let mut p: usize = 0;
    while p < ranges.len()
        invariant
            p <= ranges@.len() == columns@.len(),
            numbers@.len() == p,
            forall|q: int|
                0 <= q < p ==> (#[trigger] numbers@[q] matches Some(t) ==> t.indexes(
                    crate::selection::numbers(range_views(ranges@)[q]),
                )),
        decreases ranges@.len() - p,
    {
        if asks_for_number(&columns[p]) {
            numbers.push(Some(index_numbers(ranges[p])));
        } else {
            numbers.push(None);
        }
        p = p + 1;
    }
    let mut row: usize = 0;
    while row < m
        invariant
            row <= m,
            columns@.len() == ranges@.len() == numbers@.len(),
            forall|p: int| 0 <= p < ranges@.len() ==> (#[trigger] ranges@[p])@.len() == n,
            forall|p: int| 0 <= p < columns@.len() ==> (#[trigger] columns@[p])@.len() == m,
            forall|q: int|
                0 <= q < numbers@.len() ==> (#[trigger] numbers@[q] matches Some(t) ==> t.indexes(
                    crate::selection::numbers(range_views(ranges@)[q]),
                )),
        decreases m - row,
    {
        if text_keys(columns, row).is_some() {
            return Indexes { texts: Some(index_texts(ranges, n)), numbers };
        }
        row = row + 1;
    }
    Indexes { texts: None, numbers }
}

/// Where all criteria ask for a text or a blank, the rows with their keys are those that satisfy them.
proof fn lemma_text_hits(ranges: Seq<Seq<CellView>>, wanted: Seq<CriteriaView>, n: nat)
    requires
        wanted.len() == ranges.len(),
        forall|p: int| 0 <= p < wanted.len() ==> by_text(#[trigger] wanted[p]),
        forall|p: int| 0 <= p < ranges.len() ==> (#[trigger] ranges[p]).len() == n,
    ensures
        crate::keys::key_hits(key_columns(ranges), criteria_keys(wanted), n)
            == crate::selection::all_hits(ranges, wanted, n),
{
    let columns = key_columns(ranges);
    let query = criteria_keys(wanted);
    let a = crate::keys::key_hits(columns, query, n);
    let b = crate::selection::all_hits(ranges, wanted, n);
    assert forall|i: int| 0 <= i < n implies #[trigger] a[i] == b[i] by {
        assert forall|p: int| 0 <= p < ranges.len() implies (#[trigger] wanted[p]).holds(
            ranges[p][i],
        ) == query[p].finds(columns[p][i]) by {
            assert(by_text(wanted[p]));
            assert(ranges[p].len() == n);
        }
        if crate::selection::row_holds(ranges, wanted, i) {
            assert forall|p: int| 0 <= p < columns.len() implies (#[trigger] query[p]).finds(
                columns[p][i],
            ) by {
                assert(wanted[p].holds(ranges[p][i]));
            }
        }
        if crate::keys::agrees(columns, columns.len() as int, query, i) {
            assert forall|p: int| 0 <= p < ranges.len() implies (#[trigger] wanted[p]).holds(
                ranges[p][i],
            ) by {
                assert(query[p].finds(columns[p][i]));
            }
        }
    }
    assert(a =~= b);
}

/// The rows, of some candidates in ascending order, that satisfy a row of criteria.
fn filter_rows(
    candidates: &Vec<usize>,
    ranges: &Vec<&Vec<CellValue>>,
    columns: &Vec<Vec<Criteria>>,
    n: usize,
    row: usize,
) -> (r: Vec<usize>)
    requires
        columns@.len() == ranges@.len(),
        forall|p: int| 0 <= p < ranges@.len() ==> (#[trigger] ranges@[p])@.len() == n,
        forall|p: int| 0 <= p < columns@.len() ==> row < (#[trigger] columns@[p])@.len(),
        forall|k: int| 0 <= k < candidates@.len() ==> #[trigger] candidates@[k] < n,
        forall|j: int, k: int|
            0 <= j < k < candidates@.len() ==> #[trigger] candidates@[j] < #[trigger] candidates@[k],
        forall|i: int|
            0 <= i < n && #[trigger] crate::selection::row_holds(
                range_views(ranges@),
                criteria_row(criteria_views(columns@), row as int),
                i,
            ) ==> candidates@.contains(i as usize),
    ensures
        r@ == crate::selection::rows(
            crate::selection::all_hits(
                range_views(ranges@),
                criteria_row(criteria_views(columns@), row as int),
                n as nat,
            ),
        ),
{
    let ghost views = range_views(ranges@);
    let ghost wanted = criteria_row(criteria_views(columns@), row as int);
    let ghost hits = crate::selection::all_hits(views, wanted, n as nat);
    let mut r: Vec<usize> = Vec::new();
    let mut k: usize = 0;
    while k < candidates.len()
        invariant
            k <= candidates@.len(),
            columns@.len() == ranges@.len(),
            views == range_views(ranges@),
            wanted == criteria_row(criteria_views(columns@), row as int),
            forall|p: int| 0 <= p < ranges@.len() ==> (#[trigger] ranges@[p])@.len() == n,
            forall|p: int| 0 <= p < columns@.len() ==> row < (#[trigger] columns@[p])@.len(),
            forall|j: int| 0 <= j < candidates@.len() ==> #[trigger] candidates@[j] < n,
            forall|j: int, k: int|
                0 <= j < k < candidates@.len() ==> #[trigger] candidates@[j]
                    < #[trigger] candidates@[k],
            forall|j: int|
                0 <= j < r@.len() ==> #[trigger] r@[j] < n && crate::selection::row_holds(
                    views,
                    wanted,
                    r@[j] as int,
                ),
            forall|j: int, q: int|
                0 <= j < r@.len() && k <= q < candidates@.len() ==> #[trigger] r@[j]
                    < #[trigger] candidates@[q],
            forall|a: int, b: int|
                0 <= a < b < r@.len() ==> #[trigger] r@[a] < #[trigger] r@[b],
            forall|j: int|
                0 <= j < k && crate::selection::row_holds(
                    views,
                    wanted,
                    #[trigger] candidates@[j] as int,
                ) ==> r@.contains(candidates@[j]),
        decreases candidates@.len() - k,
    {
        let ghost before = r@;
        let i = candidates[k];
        if row_matches(ranges, columns, row, i) {
            r.push(i);
        }
        proof {
            assert forall|j: int|
                0 <= j < k + 1 && crate::selection::row_holds(
                    views,
                    wanted,
                    #[trigger] candidates@[j] as int,
                ) implies r@.contains(candidates@[j]) by {
                if j < k {
                    let q = before.index_of(candidates@[j]);
                    assert(r@[q] == candidates@[j]);
                } else {
                    assert(r@[r@.len() - 1] == i);
                }
            }
        }
        k = k + 1;
    }
    proof {
        assert forall|i: int| 0 <= i < hits.len() && #[trigger] hits[i] implies r@.contains(
            i as usize,
        ) by {
            assert(crate::selection::row_holds(views, wanted, i));
            let j = candidates@.index_of(i as usize);
            assert(candidates@[j] == i as usize);
        }
        crate::near::lemma_ascending_rows(r@, hits);
    }
    r
}

/// The rows of the ranges that satisfy a row of criteria.
fn find_row(
    ranges: &Vec<&Vec<CellValue>>,
    columns: &Vec<Vec<Criteria>>,
    n: usize,
    row: usize,
    indexes: &Indexes,
) -> (r: Vec<usize>)
    requires
        columns@.len() == ranges@.len(),
        forall|p: int| 0 <= p < ranges@.len() ==> (#[trigger] ranges@[p])@.len() == n,
        forall|p: int| 0 <= p < columns@.len() ==> row < (#[trigger] columns@[p])@.len(),
        indexes.of(range_views(ranges@), n as nat),
    ensures
        r@ == crate::selection::rows(
            crate::selection::all_hits(
                range_views(ranges@),
                criteria_row(criteria_views(columns@), row as int),
                n as nat,
            ),
        ),
{
    let ghost views = range_views(ranges@);
    let ghost wanted = criteria_row(criteria_views(columns@), row as int);
    proof {
        assert forall|p: int| 0 <= p < views.len() implies (#[trigger] views[p]).len() == n by {
            assert(ranges@[p]@.len() == n);
        }
    }
    if let Some((p, v)) = number_asked(columns, row) {
        if let Some(index) = &indexes.numbers[p] {
            let ghost column = crate::selection::numbers(views[p as int]);
            assert(indexes.numbers@[p as int] is Some);
            assert(views[p as int].len() == n);
            let candidates = index.near_rows(v, Ghost(column));
            proof {
                let flags = crate::near::near_flags(column, v);
                crate::selection::law_rows_are_the_hits(flags);
                assert forall|i: int|
                    0 <= i < n && #[trigger] crate::selection::row_holds(
                        views,
                        wanted,
                        i,
                    ) implies candidates@.contains(i as usize) by {
                    assert(wanted[p as int].holds(views[p as int][i]));
                    if let CellView::Num(x) = views[p as int][i] {
                        crate::laws::law_near_is_symmetric(x, v);
                    }
                    assert(flags[i]);
                }
            }
            return filter_rows(&candidates, ranges, columns, n, row);
        }
    } else if let Some(index) = &indexes.texts {
        if let Some(query) = text_keys(columns, row) {
            proof {
                lemma_text_hits(views, wanted, n as nat);
                assert(crate::keys::key_views(query@).len() == query@.len());
            }
            return index.matching(&query, Ghost(key_columns(views)), Ghost(n as nat));
        }
    }
    let mut all: Vec<usize> = Vec::new();
    let mut i: usize = 0;
    while i < n
        invariant
            i <= n,
            all@.len() == i,
            forall|k: int| 0 <= k < i ==> #[trigger] all@[k] == k,
        decreases n - i,
    {
        all.push(i);
        i = i + 1;
    }
    proof {
        assert forall|i: int|
            0 <= i < n && #[trigger] crate::selection::row_holds(
                views,
                wanted,
                i,
            ) implies all@.contains(i as usize) by {
            assert(all@[i] == i as usize);
        }
    }
    filter_rows(&all, ranges, columns, n, row)
}

/// The rows of the ranges that answer each row of criteria.
fn find_rows(
    ranges: &Vec<&Vec<CellValue>>,
    columns: &Vec<Vec<Criteria>>,
    n: usize,
    m: usize,
) -> (r: Vec<Vec<usize>>)
    requires
        columns@.len() == ranges@.len(),
        forall|p: int| 0 <= p < ranges@.len() ==> (#[trigger] ranges@[p])@.len() == n,
        forall|p: int| 0 <= p < columns@.len() ==> (#[trigger] columns@[p])@.len() == m,
    ensures
        Seq::new(r@.len(), |row: int| r@[row]@) == rows_by_row(
            range_views(ranges@),
            criteria_views(columns@),
            n as nat,
            m as nat,
        ),
{
    let indexes = make_indexes(ranges, columns, n, m);
    let mut out: Vec<Vec<usize>> = Vec::new();
    let mut row: usize = 0;
    while row < m
        invariant
            row <= m,
            columns@.len() == ranges@.len(),
            forall|p: int| 0 <= p < ranges@.len() ==> (#[trigger] ranges@[p])@.len() == n,
            forall|p: int| 0 <= p < columns@.len() ==> (#[trigger] columns@[p])@.len() == m,
            indexes.of(range_views(ranges@), n as nat),
            out@.len() == row,
            forall|k: int|
                0 <= k < row ==> (#[trigger] out@[k])@ == crate::selection::rows(
                    crate::selection::all_hits(
                        range_views(ranges@),
                        criteria_row(criteria_views(columns@), k),
                        n as nat,
                    ),
                ),
        decreases m - row,
    {
        out.push(find_row(ranges, columns, n, row, &indexes));
        row = row + 1;
    }
    assert(Seq::new(out@.len(), |row: int| out@[row]@) =~= rows_by_row(
        range_views(ranges@),
        criteria_views(columns@),
        n as nat,
        m as nat,
    ));
    out
}

/// The lengths are as they should be.
pub(crate) proof fn lemma_lengths(
    ranges: Seq<Seq<CellView>>,
    inputs: Seq<Seq<CellView>>,
    n: nat,
    m: nat,
    formula: Formula,
)
    requires
        ranges.len() == inputs.len(),
        length_error(ranges, inputs, n, m, formula) is None,
    ensures
        forall|p: int| 0 <= p < ranges.len() ==> (#[trigger] ranges[p]).len() == n,
        forall|p: int| 0 <= p < inputs.len() ==> (#[trigger] inputs[p]).len() == m,
    decreases ranges.len(),
{
    if ranges.len() > 0 {
        lemma_lengths(ranges.drop_last(), inputs.drop_last(), n, m, formula);
        assert forall|p: int| 0 <= p < ranges.len() implies (#[trigger] ranges[p]).len() == n by {
            if p < ranges.len() - 1 {
                assert(ranges.drop_last()[p] == ranges[p]);
            }
        }
        assert forall|p: int| 0 <= p < inputs.len() implies (#[trigger] inputs[p]).len() == m by {
            if p < inputs.len() - 1 {
                assert(inputs.drop_last()[p] == inputs[p]);
            }
        }
    }
}

/// The first length that is wrong decides.
proof fn lemma_first_length(
    ranges: Seq<Seq<CellView>>,
    inputs: Seq<Seq<CellView>>,
    n: nat,
    m: nat,
    formula: Formula,
    k: int,
)
    requires
        ranges.len() == inputs.len(),
        0 < k <= ranges.len(),
        length_error(ranges.take(k), inputs.take(k), n, m, formula) is Some,
    ensures
        length_error(ranges, inputs, n, m, formula) == length_error(
            ranges.take(k),
            inputs.take(k),
            n,
            m,
            formula,
        ),
    decreases ranges.len(),
{
    if k == ranges.len() {
        assert(ranges.take(k) =~= ranges);
        assert(inputs.take(k) =~= inputs);
    } else {
        assert(ranges.drop_last().take(k) =~= ranges.take(k));
        assert(inputs.drop_last().take(k) =~= inputs.take(k));
        lemma_first_length(ranges.drop_last(), inputs.drop_last(), n, m, formula, k);
    }
}

/// A column that holds a criterion that is refused has all columns refused.
proof fn lemma_first_column(inputs: Seq<Seq<CellView>>, k: int)
    requires
        0 < k <= inputs.len(),
        columns_meaning(inputs.take(k)) is Err,
    ensures
        columns_meaning(inputs) == columns_meaning(inputs.take(k)),
    decreases inputs.len(),
{
    if k == inputs.len() {
        assert(inputs.take(k) =~= inputs);
    } else {
        assert(inputs.drop_last().take(k) =~= inputs.take(k));
        lemma_first_column(inputs.drop_last(), k);
    }
}

/// Columns of criteria stand for columns of the same lengths.
pub(crate) proof fn lemma_columns(inputs: Seq<Seq<CellView>>)
    ensures
        columns_meaning(inputs) matches Ok(v) ==> v.len() == inputs.len() && forall|p: int|
            0 <= p < v.len() ==> crate::criteria::meanings(#[trigger] inputs[p]) == Ok::<
                Seq<CriteriaView>,
                ErrorView,
            >(v[p]),
    decreases inputs.len(),
{
    if inputs.len() > 0 {
        lemma_columns(inputs.drop_last());
        if let Ok(v) = columns_meaning(inputs) {
            assert forall|p: int| 0 <= p < v.len() implies crate::criteria::meanings(
                #[trigger] inputs[p],
            ) == Ok::<Seq<CriteriaView>, ErrorView>(v[p]) by {
                if p < inputs.len() - 1 {
                    assert(inputs.drop_last()[p] == inputs[p]);
                }
            }
        }
    }
}

/// Looks at the lengths.
fn check_lengths(pairs: &Vec<BatchPair>, n: usize, m: usize, formula: Formula) -> (r: Result<
    (),
    FormulaError,
>)
    ensures
        match r {
            Ok(_) => length_error(ranges(pairs@), inputs(pairs@), n as nat, m as nat, formula) is None,
            Err(e) => length_error(ranges(pairs@), inputs(pairs@), n as nat, m as nat, formula)
                == Some(e@),
        },
{
    let ghost rs = ranges(pairs@);
    let ghost cs = inputs(pairs@);
    let mut p: usize = 0;
    while p < pairs.len()
        invariant
            p <= pairs@.len(),
            rs == ranges(pairs@),
            cs == inputs(pairs@),
            length_error(rs.take(p as int), cs.take(p as int), n as nat, m as nat, formula) is None,
        decreases pairs@.len() - p,
    {
        proof {
            assert(rs.take(p + 1).drop_last() =~= rs.take(p as int));
            assert(cs.take(p + 1).drop_last() =~= cs.take(p as int));
        }
        if pairs[p].range.len() != n {
            proof {
                lemma_first_length(rs, cs, n as nat, m as nat, formula, p + 1);
            }
            return Err(FormulaError::RangeLength(formula));
        }
        if pairs[p].criteria.len() != m {
            proof {
                lemma_first_length(rs, cs, n as nat, m as nat, formula, p + 1);
            }
            return Err(FormulaError::CriteriaLength(formula));
        }
        p = p + 1;
    }
    assert(rs.take(p as int) =~= rs);
    assert(cs.take(p as int) =~= cs);
    Ok(())
}

/// Reads the columns of criteria.
fn parse_columns(pairs: &Vec<BatchPair>) -> (r: Result<Vec<Vec<Criteria>>, FormulaError>)
    ensures
        match r {
            Ok(v) => columns_meaning(inputs(pairs@)) == Ok::<Seq<Seq<CriteriaView>>, ErrorView>(
                criteria_views(v@),
            ),
            Err(e) => columns_meaning(inputs(pairs@)) == Err::<Seq<Seq<CriteriaView>>, ErrorView>(
                e@,
            ),
        },
{
    let ghost all = inputs(pairs@);
    let mut out: Vec<Vec<Criteria>> = Vec::new();
    let mut p: usize = 0;
    assert(criteria_views(out@) =~= Seq::empty());
    while p < pairs.len()
        invariant
            p <= pairs@.len() == all.len(),
            all == inputs(pairs@),
            columns_meaning(all.take(p as int)) == Ok::<Seq<Seq<CriteriaView>>, ErrorView>(
                criteria_views(out@),
            ),
        decreases pairs@.len() - p,
    {
        assert(all.take(p + 1).drop_last() =~= all.take(p as int));
        match parse_all(&pairs[p].criteria) {
            Ok(c) => {
                let ghost before = criteria_views(out@);
                out.push(c);
                assert(criteria_views(out@) =~= before.push(crate::criteria::views(c@)));
            },
            Err(e) => {
                proof {
                    lemma_first_column(all, p + 1);
                }
                return Err(e);
            },
        }
        p = p + 1;
    }
    assert(all.take(p as int) =~= all);
    Ok(out)
}

/// All rows are below `n`.
spec fn in_range(found: Seq<Vec<usize>>, n: nat) -> bool {
    forall|row: int, k: int|
        0 <= row < found.len() && 0 <= k < found[row]@.len() ==> #[trigger] found[row]@[k] < n
}

proof fn lemma_in_range(
    found: Seq<Vec<usize>>,
    ranges: Seq<Seq<CellView>>,
    columns: Seq<Seq<CriteriaView>>,
    n: nat,
    m: nat,
)
    requires
        n <= usize::MAX,
        Seq::new(found.len(), |row: int| found[row]@) == rows_by_row(ranges, columns, n, m),
    ensures
        in_range(found, n),
{
    let all = rows_by_row(ranges, columns, n, m);
    let views = Seq::new(found.len(), |row: int| found[row]@);
    assert(views.len() == all.len());
    assert forall|row: int, k: int|
        0 <= row < found.len() && 0 <= k < found[row]@.len() implies #[trigger] found[row]@[k] < n by {
        let hit = crate::selection::all_hits(ranges, criteria_row(columns, row), n);
        assert(views[row] == all[row]);
        assert(found[row]@ == crate::selection::rows(hit));
        crate::selection::law_rows_are_the_hits(hit);
    }
}

/// The rows of the ranges that answer each row of criteria.
fn batch_rows(pairs: &Vec<BatchPair>, n: usize, formula: Formula) -> (r: Result<
    Vec<Vec<usize>>,
    FormulaError,
>)
    ensures
        crate::selection::outcomes(r) == batch(
            ranges(pairs@),
            inputs(pairs@),
            n as nat,
            formula,
        ),
        r matches Ok(found) ==> in_range(found@, n as nat),
{
    if pairs.len() == 0 {
        return Err(FormulaError::NoPairs(formula));
    }
    let m = pairs[0].criteria.len();
    check_lengths(pairs, n, m, formula)?;
    let columns = parse_columns(pairs)?;
    proof {
        lemma_lengths(ranges(pairs@), inputs(pairs@), n as nat, m as nat, formula);
        lemma_columns(inputs(pairs@));
    }
    let mut refs: Vec<&Vec<CellValue>> = Vec::new();
    let mut p: usize = 0;
    while p < pairs.len()
        invariant
            p <= pairs@.len(),
            refs@.len() == p,
            forall|q: int| 0 <= q < p ==> #[trigger] refs@[q] == &pairs@[q].range,
        decreases pairs@.len() - p,
    {
        refs.push(&pairs[p].range);
        p = p + 1;
    }
    proof {
        assert(range_views(refs@) =~= ranges(pairs@));
        assert forall|q: int| 0 <= q < refs@.len() implies (#[trigger] refs@[q])@.len() == n by {
            assert(ranges(pairs@)[q].len() == n);
        }
        assert forall|q: int| 0 <= q < columns@.len() implies (#[trigger] columns@[q])@.len() == m by {
            assert(inputs(pairs@)[q].len() == m);
            crate::criteria::lemma_meanings(inputs(pairs@)[q]);
            assert(criteria_views(columns@)[q].len() == columns@[q]@.len());
        }
    }
    let found = find_rows(&refs, &columns, n, m);
    proof {
        lemma_in_range(
            found@,
            ranges(pairs@),
            criteria_views(columns@),
            n as nat,
            m as nat,
        );
    }
    Ok(found)
}

/// The rows of one range that answer each of some criteria.
fn single_rows(range: &Vec<CellValue>, criteria: &Vec<CellValue>, formula: Formula) -> (r:
    Result<Vec<Vec<usize>>, FormulaError>)
    ensures
        crate::selection::outcomes(r) == batch(
            seq![crate::selection::cells(range@)],
            seq![crate::selection::cells(criteria@)],
            range@.len(),
            formula,
        ),
        r matches Ok(found) ==> in_range(found@, range@.len()),
{
    let ghost rs = seq![crate::selection::cells(range@)];
    let ghost cs = seq![crate::selection::cells(criteria@)];
    proof {
        assert(length_error(
            rs.drop_last(),
            cs.drop_last(),
            range@.len(),
            criteria@.len(),
            formula,
        ) is None);
        assert(rs.last().len() == range@.len());
        assert(columns_meaning(cs.drop_last()) == Ok::<Seq<Seq<CriteriaView>>, ErrorView>(
            Seq::empty(),
        ));
    }
    let column = parse_all(criteria)?;
    let mut columns: Vec<Vec<Criteria>> = Vec::new();
    let mut refs: Vec<&Vec<CellValue>> = Vec::new();
    columns.push(column);
    refs.push(range);
    proof {
        crate::criteria::lemma_meanings(crate::selection::cells(criteria@));
        assert(crate::criteria::views(column@).len() == column@.len());
        assert(criteria_views(columns@) =~= Seq::<Seq<CriteriaView>>::empty().push(
            crate::criteria::views(column@),
        ));
        assert(range_views(refs@) =~= rs);
    }
    let found = find_rows(&refs, &columns, range.len(), criteria.len());
    proof {
        lemma_in_range(
            found@,
            rs,
            criteria_views(columns@),
            range@.len(),
            criteria@.len(),
        );
    }
    Ok(found)
}

/// How many rows there are, for each row of criteria.
fn count_rows(found: &Vec<Vec<usize>>) -> (r: Vec<usize>)
    ensures
        r@ == Seq::new(found@.len(), |row: int| found@[row]@.len() as usize),
{
    let mut r: Vec<usize> = Vec::new();
    let mut i: usize = 0;
    while i < found.len()
        invariant
            i <= found@.len(),
            r@.len() == i,
            forall|k: int| 0 <= k < i ==> #[trigger] r@[k] == found@[k]@.len(),
        decreases found@.len() - i,
    {
        r.push(found[i].len());
        i = i + 1;
    }
    assert(r@ =~= Seq::new(found@.len(), |row: int| found@[row]@.len() as usize));
    r
}

/// The numbers of a target in the rows found, for each row of criteria.
fn addend_rows(found: &Vec<Vec<usize>>, target: &Vec<CellValue>) -> (r: Vec<Vec<Number>>)
    requires
        in_range(found@, target@.len()),
    ensures
        r@.len() == found@.len(),
        forall|row: int|
            0 <= row < r@.len() ==> #[trigger] r@[row]@ == crate::selection::picked(
                found@[row]@,
                crate::selection::numbers(crate::selection::cells(target@)),
            ),
{
    let mut r: Vec<Vec<Number>> = Vec::new();
    let mut i: usize = 0;
    while i < found.len()
        invariant
            i <= found@.len(),
            in_range(found@, target@.len()),
            r@.len() == i,
            forall|row: int|
                0 <= row < r@.len() ==> #[trigger] r@[row]@ == crate::selection::picked(
                    found@[row]@,
                    crate::selection::numbers(crate::selection::cells(target@)),
                ),
        decreases found@.len() - i,
    {
        r.push(pick(&found[i], target));
        i = i + 1;
    }
    r
}

proof fn lemma_counts(found: Vec<Vec<usize>>, r: Vec<usize>)
    requires
        r@ == Seq::new(found@.len(), |row: int| found@[row]@.len() as usize),
    ensures
        counts(crate::selection::outcomes(Ok::<Vec<Vec<usize>>, FormulaError>(found))) == Ok::<
            Seq<usize>,
            ErrorView,
        >(r@),
{
    assert(r@ =~= counts(
        crate::selection::outcomes(Ok::<Vec<Vec<usize>>, FormulaError>(found)),
    )->Ok_0);
}

/// COUNTIF, for many criteria.
pub fn countif_vec_values(range: &Vec<CellValue>, criteria_list: &Vec<CellValue>) -> (r: Result<
    Vec<usize>,
    FormulaError,
>)
    ensures
        crate::selection::outcome(r) == counts(
            batch(
                seq![crate::selection::cells(range@)],
                seq![crate::selection::cells(criteria_list@)],
                range@.len(),
                Formula::CountIfs,
            ),
        ),
        r matches Ok(v) ==> v@.len() == criteria_list@.len() && forall|row: int|
            0 <= row < v@.len() ==> #[trigger] v@[row] == crate::selection_laws::how_many(
                crate::selection_laws::satisfying_cells(
                    crate::selection::cells(range@),
                    criteria_list@[row]@,
                ),
            ),
{
    let found = single_rows(range, criteria_list, Formula::CountIfs)?;
    let r = count_rows(&found);
    proof {
        lemma_counts(found, r);
        let cells = crate::selection::cells(range@);
        let inputs = crate::selection::cells(criteria_list@);
        assert forall|row: int| 0 <= row < r@.len() implies #[trigger] r@[row]
            == crate::selection_laws::how_many(
            crate::selection_laws::satisfying_cells(cells, criteria_list@[row]@),
        ) by {
            assert(range.len() <= usize::MAX);
            crate::selection_laws::lemma_single_batch_row(cells, inputs, Formula::CountIfs, row);
            assert(inputs[row] == criteria_list@[row]@);
        }
    }
    Ok(r)
}

/// What the batches of SUMIF add: the numbers of the target, which is the range itself unless
/// another is given. A target of another length comes before a criterion that is refused.
pub open spec fn sumif_vec(
    range: Seq<CellView>,
    criteria: Seq<CellView>,
    target: Option<Seq<CellView>>,
    formula: Formula,
) -> Result<Seq<Seq<Number>>, ErrorView> {
    let column = match target {
        Some(t) => t,
        None => range,
    };
    if column.len() != range.len() {
        Err(ErrorView::TargetLength(formula))
    } else {
        addends_by_row(batch(seq![range], seq![criteria], range.len(), formula), column)
    }
}

/// The numbers of a target for each of some criteria on a range.
fn pick_batch(
    range: &Vec<CellValue>,
    criteria: &Vec<CellValue>,
    target: Option<&Vec<CellValue>>,
    formula: Formula,
) -> (r: Result<Vec<Vec<Number>>, FormulaError>)
    ensures
        crate::selection::outcomes(r) == sumif_vec(
            crate::selection::cells(range@),
            crate::selection::cells(criteria@),
            crate::aggregate::target_cells(target),
            formula,
        ),
{
    let column = match target {
        Some(t) => t,
        None => range,
    };
    if column.len() != range.len() {
        return Err(FormulaError::TargetLength(formula));
    }
    let found = single_rows(range, criteria, formula)?;
    let r = addend_rows(&found, column);
    proof {
        lemma_addends(found, r, crate::selection::cells(column@));
    }
    Ok(r)
}

proof fn lemma_addends(found: Vec<Vec<usize>>, r: Vec<Vec<Number>>, target: Seq<CellView>)
    requires
        r@.len() == found@.len(),
        forall|row: int|
            0 <= row < r@.len() ==> #[trigger] r@[row]@ == crate::selection::picked(
                found@[row]@,
                crate::selection::numbers(target),
            ),
    ensures
        crate::selection::outcomes(Ok::<Vec<Vec<Number>>, FormulaError>(r)) == addends_by_row(
            crate::selection::outcomes(Ok::<Vec<Vec<usize>>, FormulaError>(found)),
            target,
        ),
{
    assert(Seq::new(r@.len(), |row: int| r@[row]@) =~= addends_by_row(
        crate::selection::outcomes(Ok::<Vec<Vec<usize>>, FormulaError>(found)),
        target,
    )->Ok_0);
}

/// The sum of the numbers, for each row of criteria.
fn total_rows(values: &Vec<Vec<Number>>) -> (r: Vec<Number>)
    ensures
        totals(crate::selection::outcomes(Ok::<Vec<Vec<Number>>, FormulaError>(*values))) == Ok::<
            Seq<Number>,
            ErrorView,
        >(r@),
{
    let mut r: Vec<Number> = Vec::new();
    let mut i: usize = 0;
    while i < values.len()
        invariant
            i <= values@.len(),
            r@.len() == i,
            forall|k: int| 0 <= k < i ==> #[trigger] r@[k] == crate::arith::total(values@[k]@),
        decreases values@.len() - i,
    {
        r.push(sum_of(&values[i]));
        i = i + 1;
    }
    assert(r@ =~= totals(
        crate::selection::outcomes(Ok::<Vec<Vec<Number>>, FormulaError>(*values)),
    )->Ok_0);
    r
}

/// The mean of the numbers, for each row of criteria, where there are any.
fn mean_rows(values: &Vec<Vec<Number>>) -> (r: Vec<Option<Number>>)
    ensures
        means(crate::selection::outcomes(Ok::<Vec<Vec<Number>>, FormulaError>(*values))) == Ok::<
            Seq<Option<Number>>,
            ErrorView,
        >(r@),
{
    let mut r: Vec<Option<Number>> = Vec::new();
    let mut i: usize = 0;
    while i < values.len()
        invariant
            i <= values@.len(),
            r@.len() == i,
            forall|k: int|
                0 <= k < i ==> #[trigger] r@[k] == (if values@[k]@.len() == 0 {
                    None
                } else {
                    Some(crate::arith::mean(values@[k]@))
                }),
        decreases values@.len() - i,
    {
        if values[i].len() == 0 {
            r.push(None);
        } else {
            r.push(Some(mean_of(&values[i])));
        }
        i = i + 1;
    }
    assert(r@ =~= means(
        crate::selection::outcomes(Ok::<Vec<Vec<Number>>, FormulaError>(*values)),
    )->Ok_0);
    r
}

/// SUMIF, for many criteria.
pub fn sumif_vec_values(
    range: &Vec<CellValue>,
    criteria_list: &Vec<CellValue>,
    sum_range: Option<&Vec<CellValue>>,
) -> (r: Result<Vec<Number>, FormulaError>)
    ensures
        crate::selection::outcome(r) == totals(
            sumif_vec(
                crate::selection::cells(range@),
                crate::selection::cells(criteria_list@),
                crate::aggregate::target_cells(sum_range),
                Formula::SumIf,
            ),
        ),
        r matches Ok(v) ==> v@.len() == criteria_list@.len() && forall|row: int|
            0 <= row < v@.len() ==> #[trigger] v@[row] == crate::arith::total(
                crate::selection_laws::chosen_cells(
                    crate::selection::cells(range@),
                    criteria_list@[row]@,
                    crate::aggregate::target_cells(sum_range),
                ),
            ),
{
    let values = pick_batch(range, criteria_list, sum_range, Formula::SumIf)?;
    proof {
        assert(range.len() <= usize::MAX);
        crate::selection_laws::law_sumif_vec(
            crate::selection::cells(range@),
            crate::selection::cells(criteria_list@),
            crate::aggregate::target_cells(sum_range),
            Formula::SumIf,
        );
    }
    Ok(total_rows(&values))
}

/// AVERAGEIF, for many criteria. Where there is nothing to take the mean of, the row has none.
pub fn averageif_vec_values(
    range: &Vec<CellValue>,
    criteria_list: &Vec<CellValue>,
    average_range: Option<&Vec<CellValue>>,
) -> (r: Result<Vec<Option<Number>>, FormulaError>)
    ensures
        crate::selection::outcome(r) == means(
            sumif_vec(
                crate::selection::cells(range@),
                crate::selection::cells(criteria_list@),
                crate::aggregate::target_cells(average_range),
                Formula::AverageIf,
            ),
        ),
        r matches Ok(v) ==> v@.len() == criteria_list@.len() && forall|row: int|
            0 <= row < v@.len() ==> crate::selection_laws::mean_or_none(
                crate::selection_laws::chosen_cells(
                    crate::selection::cells(range@),
                    criteria_list@[row]@,
                    crate::aggregate::target_cells(average_range),
                ),
                #[trigger] v@[row],
            ),
{
    let values = pick_batch(range, criteria_list, average_range, Formula::AverageIf)?;
    proof {
        assert(range.len() <= usize::MAX);
        crate::selection_laws::law_sumif_vec(
            crate::selection::cells(range@),
            crate::selection::cells(criteria_list@),
            crate::aggregate::target_cells(average_range),
            Formula::AverageIf,
        );
    }
    Ok(mean_rows(&values))
}

/// COUNTIFS, for many rows of criteria.
pub fn countifs_vec_values(pairs: &Vec<BatchPair>) -> (r: Result<Vec<usize>, FormulaError>)
    ensures
        crate::selection::outcome(r) == counts(
            batch(
                ranges(pairs@),
                inputs(pairs@),
                ranges(pairs@)[0].len(),
                Formula::CountIfs,
            ),
        ),
        r matches Ok(v) ==> forall|row: int|
            0 <= row < v@.len() ==> #[trigger] v@[row] == crate::selection_laws::how_many(
                crate::selection_laws::satisfying(
                    ranges(pairs@),
                    crate::selection_laws::row_of(inputs(pairs@), row),
                    pairs@[0].range@.len(),
                ),
            ),
{
    let n = if pairs.len() == 0 {
        0
    } else {
        pairs[0].range.len()
    };
    let found = batch_rows(pairs, n, Formula::CountIfs)?;
    let r = count_rows(&found);
    proof {
        lemma_counts(found, r);
        assert forall|row: int| 0 <= row < r@.len() implies #[trigger] r@[row]
            == crate::selection_laws::how_many(
            crate::selection_laws::satisfying(
                ranges(pairs@),
                crate::selection_laws::row_of(inputs(pairs@), row),
                n as nat,
            ),
        ) by {
            crate::selection_laws::law_batch_errors(
                ranges(pairs@),
                inputs(pairs@),
                n as nat,
                Formula::CountIfs,
            );
            crate::selection_laws::lemma_batch_rows(
                ranges(pairs@),
                inputs(pairs@),
                n as nat,
                Formula::CountIfs,
                row,
            );
        }
    }
    Ok(r)
}

/// The numbers of a target for each row of criteria.
fn pick_rows(target: &Vec<CellValue>, pairs: &Vec<BatchPair>, formula: Formula) -> (r:
    Result<Vec<Vec<Number>>, FormulaError>)
    ensures
        crate::selection::outcomes(r) == addends_by_row(
            batch(ranges(pairs@), inputs(pairs@), target@.len(), formula),
            crate::selection::cells(target@),
        ),
{
    let found = batch_rows(pairs, target.len(), formula)?;
    let r = addend_rows(&found, target);
    proof {
        lemma_addends(found, r, crate::selection::cells(target@));
    }
    Ok(r)
}

/// The rows that satisfy all criteria of a row of them.
pub open spec fn rows_for(pairs: Seq<BatchPair>, n: nat, row: int) -> Seq<bool> {
    crate::selection_laws::satisfying(
        ranges(pairs),
        crate::selection_laws::row_of(inputs(pairs), row),
        n,
    )
}

/// The numbers of a target in the rows that satisfy all criteria of a row of them.
pub open spec fn row_numbers(
    target: Seq<CellValue>,
    pairs: Seq<BatchPair>,
    row: int,
) -> Seq<Number> {
    crate::selection_laws::chosen(
        rows_for(pairs, target.len(), row),
        crate::selection_laws::numbers_in(crate::selection::cells(target)),
    )
}

proof fn lemma_row_numbers(target: &Vec<CellValue>, pairs: Seq<BatchPair>, formula: Formula)
    ensures
        addends_by_row(
            batch(ranges(pairs), inputs(pairs), target@.len(), formula),
            crate::selection::cells(target@),
        ) matches Ok(v) ==> forall|row: int|
            0 <= row < v.len() ==> #[trigger] v[row] == row_numbers(target@, pairs, row),
{
    let cells = crate::selection::cells(target@);
    let found = batch(ranges(pairs), inputs(pairs), target@.len(), formula);
    assert(target.len() <= usize::MAX);
    crate::selection_laws::law_batch_errors(ranges(pairs), inputs(pairs), target@.len(), formula);
    if let Ok(v) = addends_by_row(found, cells) {
        assert forall|row: int| 0 <= row < v.len() implies #[trigger] v[row] == row_numbers(
            target@,
            pairs,
            row,
        ) by {
            crate::selection_laws::law_batch_row(
                cells,
                ranges(pairs),
                inputs(pairs),
                formula,
                row,
            );
        }
    }
}

/// SUMIFS, for many rows of criteria.
pub fn sumifs_vec_values(sum_range: &Vec<CellValue>, pairs: &Vec<BatchPair>) -> (r: Result<
    Vec<Number>,
    FormulaError,
>)
    ensures
        crate::selection::outcome(r) == totals(
            addends_by_row(
                batch(ranges(pairs@), inputs(pairs@), sum_range@.len(), Formula::SumIfs),
                crate::selection::cells(sum_range@),
            ),
        ),
        r matches Ok(v) ==> forall|row: int|
            0 <= row < v@.len() ==> #[trigger] v@[row] == crate::arith::total(
                row_numbers(sum_range@, pairs@, row),
            ),
{
    let values = pick_rows(sum_range, pairs, Formula::SumIfs)?;
    proof {
        lemma_row_numbers(sum_range, pairs@, Formula::SumIfs);
    }
    Ok(total_rows(&values))
}

/// AVERAGEIFS, for many rows of criteria. Where there is nothing to take the mean of, the row has
/// none.
pub fn averageifs_vec_values(average_range: &Vec<CellValue>, pairs: &Vec<BatchPair>) -> (r: Result<
    Vec<Option<Number>>,
    FormulaError,
>)
    ensures
        crate::selection::outcome(r) == means(
            addends_by_row(
                batch(
                    ranges(pairs@),
                    inputs(pairs@),
                    average_range@.len(),
                    Formula::AverageIfs,
                ),
                crate::selection::cells(average_range@),
            ),
        ),
        r matches Ok(v) ==> forall|row: int|
            0 <= row < v@.len() ==> crate::selection_laws::mean_or_none(
                row_numbers(average_range@, pairs@, row),
                #[trigger] v@[row],
            ),
{
    let values = pick_rows(average_range, pairs, Formula::AverageIfs)?;
    proof {
        lemma_row_numbers(average_range, pairs@, Formula::AverageIfs);
    }
    Ok(mean_rows(&values))
}

/// A number, or 0 in its place.
pub(crate) fn or_else_zero(value: Option<Number>) -> (r: Number)
    ensures
        r == or_zero(value),
{
    match value {
        Some(n) => n,
        None => Number { bits: 0 },
    }
}

/// MINIFS, for many rows of criteria.
pub fn minifs_vec_values(min_range: &Vec<CellValue>, pairs: &Vec<BatchPair>) -> (r: Result<
    Vec<Number>,
    FormulaError,
>)
    ensures
        crate::selection::outcome(r) == minima(
            batch(ranges(pairs@), inputs(pairs@), min_range@.len(), Formula::MinIfs),
            crate::selection::cells(min_range@),
        ),
        ({
            let column = crate::selection_laws::numbers_in(crate::selection::cells(min_range@));
            crate::selection_laws::all_numbers(column) ==> (r matches Ok(v) ==> forall|row: int|
                0 <= row < v@.len() ==> {
                    let rows = rows_for(pairs@, min_range@.len(), row);
                    ||| crate::selection_laws::is_least(rows, column, #[trigger] v@[row])
                    ||| crate::selection_laws::none_chosen(rows, column) && v@[row].bits == 0
                })
        }),
{
    let values = pick_rows(min_range, pairs, Formula::MinIfs)?;
    let mut r: Vec<Number> = Vec::new();
    let mut i: usize = 0;
    while i < values.len()
        invariant
            i <= values@.len(),
            r@.len() == i,
            forall|k: int|
                0 <= k < i ==> #[trigger] r@[k] == or_zero(crate::selection::least(values@[k]@)),
        decreases values@.len() - i,
    {
        r.push(or_else_zero(least_of(&values[i])));
        i = i + 1;
    }
    assert(r@ =~= minima(
        batch(ranges(pairs@), inputs(pairs@), min_range@.len(), Formula::MinIfs),
        crate::selection::cells(min_range@),
    )->Ok_0);
    proof {
        let cells = crate::selection::cells(min_range@);
        let column = crate::selection_laws::numbers_in(cells);
        assert(min_range.len() <= usize::MAX);
        crate::selection_laws::law_batch_errors(
            ranges(pairs@),
            inputs(pairs@),
            min_range@.len(),
            Formula::MinIfs,
        );
        if crate::selection_laws::all_numbers(column) {
            assert forall|row: int| 0 <= row < r@.len() implies {
                let rows = rows_for(pairs@, min_range@.len(), row);
                ||| crate::selection_laws::is_least(rows, column, #[trigger] r@[row])
                ||| crate::selection_laws::none_chosen(rows, column) && r@[row].bits == 0
            } by {
                crate::selection_laws::law_batch_row(
                    cells,
                    ranges(pairs@),
                    inputs(pairs@),
                    Formula::MinIfs,
                    row,
                );
            }
        }
    }
    Ok(r)
}

/// MAXIFS, for many rows of criteria.
pub fn maxifs_vec_values(max_range: &Vec<CellValue>, pairs: &Vec<BatchPair>) -> (r: Result<
    Vec<Number>,
    FormulaError,
>)
    ensures
        crate::selection::outcome(r) == maxima(
            batch(ranges(pairs@), inputs(pairs@), max_range@.len(), Formula::MaxIfs),
            crate::selection::cells(max_range@),
        ),
        ({
            let column = crate::selection_laws::numbers_in(crate::selection::cells(max_range@));
            crate::selection_laws::all_numbers(column) ==> (r matches Ok(v) ==> forall|row: int|
                0 <= row < v@.len() ==> {
                    let rows = rows_for(pairs@, max_range@.len(), row);
                    ||| crate::selection_laws::is_greatest(rows, column, #[trigger] v@[row])
                    ||| crate::selection_laws::none_chosen(rows, column) && v@[row].bits == 0
                })
        }),
{
    let values = pick_rows(max_range, pairs, Formula::MaxIfs)?;
    let mut r: Vec<Number> = Vec::new();
    let mut i: usize = 0;
    while i < values.len()
        invariant
            i <= values@.len(),
            r@.len() == i,
            forall|k: int|
                0 <= k < i ==> #[trigger] r@[k] == or_zero(crate::selection::greatest(values@[k]@)),
        decreases values@.len() - i,
    {
        r.push(or_else_zero(greatest_of(&values[i])));
        i = i + 1;
    }
    assert(r@ =~= maxima(
        batch(ranges(pairs@), inputs(pairs@), max_range@.len(), Formula::MaxIfs),
        crate::selection::cells(max_range@),
    )->Ok_0);
    proof {
        let cells = crate::selection::cells(max_range@);
        let column = crate::selection_laws::numbers_in(cells);
        assert(max_range.len() <= usize::MAX);
        crate::selection_laws::law_batch_errors(
            ranges(pairs@),
            inputs(pairs@),
            max_range@.len(),
            Formula::MaxIfs,
        );
        if crate::selection_laws::all_numbers(column) {
            assert forall|row: int| 0 <= row < r@.len() implies {
                let rows = rows_for(pairs@, max_range@.len(), row);
                ||| crate::selection_laws::is_greatest(rows, column, #[trigger] r@[row])
                ||| crate::selection_laws::none_chosen(rows, column) && r@[row].bits == 0
            } by {
                crate::selection_laws::law_batch_row(
                    cells,
                    ranges(pairs@),
                    inputs(pairs@),
                    Formula::MaxIfs,
                    row,
                );
            }
        }
    }
    Ok(r)
}

/// LOOKUPIFS: the rows that satisfy all criteria, for each row of criteria.
pub fn lookupifs_indices_values(pairs: &Vec<BatchPair>) -> (r: Result<
    Vec<Vec<usize>>,
    FormulaError,
>)
    ensures
        crate::selection::outcomes(r) == batch(
            ranges(pairs@),
            inputs(pairs@),
            ranges(pairs@)[0].len(),
            Formula::LookupIfs,
        ),
        r matches Ok(v) ==> forall|row: int|
            0 <= row < v@.len() ==> crate::selection_laws::are_the_rows(
                #[trigger] v@[row]@,
                rows_for(pairs@, pairs@[0].range@.len(), row),
            ),
{
    let n = if pairs.len() == 0 {
        0
    } else {
        pairs[0].range.len()
    };
    let found = batch_rows(pairs, n, Formula::LookupIfs)?;
    proof {
        crate::selection_laws::law_batch_errors(
            ranges(pairs@),
            inputs(pairs@),
            n as nat,
            Formula::LookupIfs,
        );
        assert forall|row: int| 0 <= row < found@.len() implies crate::selection_laws::are_the_rows(
            #[trigger] found@[row]@,
            rows_for(pairs@, pairs@[0].range@.len(), row),
        ) by {
            let all = crate::selection::outcomes(Ok::<Vec<Vec<usize>>, FormulaError>(found));
            assert(all->Ok_0[row] == found@[row]@);
            crate::selection_laws::lemma_batch_rows(
                ranges(pairs@),
                inputs(pairs@),
                n as nat,
                Formula::LookupIfs,
                row,
            );
            crate::selection_laws::lemma_are_the_rows(rows_for(pairs@, n as nat, row));
        }
    }
    Ok(found)
}

}
