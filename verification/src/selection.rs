//! The rows of a range that are selected, and the numbers that stand in them.
use vstd::prelude::*;
use crate::cell::{CellValue, CellView};
use crate::criteria::{Criteria, CriteriaView};
use crate::error::{ErrorView, FormulaError};
use crate::number::Number;

verus! {

/// The cells of a range.
pub open spec fn cells(range: Seq<CellValue>) -> Seq<CellView> {
    Seq::new(range.len(), |i: int| range[i]@)
}

/// The number in each cell, if it is numeric.
pub open spec fn numbers(range: Seq<CellView>) -> Seq<Option<Number>> {
    Seq::new(range.len(), |i: int| range[i].number())
}

/// Whether each cell satisfies a criterion.
pub open spec fn hits(range: Seq<CellView>, criterion: CriteriaView) -> Seq<bool> {
    Seq::new(range.len(), |i: int| criterion.holds(range[i]))
}

/// Whether a row satisfies every criterion, each in its own range.
pub open spec fn row_holds(
    ranges: Seq<Seq<CellView>>,
    criteria: Seq<CriteriaView>,
    i: int,
) -> bool {
    forall|p: int| 0 <= p < ranges.len() ==> (#[trigger] criteria[p]).holds(ranges[p][i])
}

/// Whether each of `n` rows satisfies every criterion, each in its own range.
pub open spec fn all_hits(
    ranges: Seq<Seq<CellView>>,
    criteria: Seq<CriteriaView>,
    n: nat,
) -> Seq<bool> {
    Seq::new(n, |i: int| row_holds(ranges, criteria, i))
}

/// The rows that are hit, in order.
pub open spec fn rows(hits: Seq<bool>) -> Seq<usize>
    decreases hits.len(),
{
    if hits.len() == 0 {
        Seq::empty()
    } else if hits.last() {
        rows(hits.drop_last()).push((hits.len() - 1) as usize)
    } else {
        rows(hits.drop_last())
    }
}

/// The values that are there, in order.
pub open spec fn present(values: Seq<Option<Number>>) -> Seq<Number>
    decreases values.len(),
{
    if values.len() == 0 {
        Seq::empty()
    } else {
        match values.last() {
            Some(n) => present(values.drop_last()).push(n),
            None => present(values.drop_last()),
        }
    }
}

/// The numbers in the given rows of a column, in order.
pub open spec fn picked(rows: Seq<usize>, column: Seq<Option<Number>>) -> Seq<Number> {
    present(Seq::new(rows.len(), |k: int| column[rows[k] as int]))
}

/// The least of some numbers, and of equal ones the first.
pub open spec fn least(values: Seq<Number>) -> Option<Number>
    decreases values.len(),
{
    if values.len() == 0 {
        None
    } else {
        match least(values.drop_last()) {
            Some(m) => if m.le(values.last()) {
                Some(m)
            } else {
                Some(values.last())
            },
            None => Some(values.last()),
        }
    }
}

/// The greatest of some numbers, and of equal ones the first.
pub open spec fn greatest(values: Seq<Number>) -> Option<Number>
    decreases values.len(),
{
    if values.len() == 0 {
        None
    } else {
        match greatest(values.drop_last()) {
            Some(m) => if values.last().le(m) {
                Some(m)
            } else {
                Some(values.last())
            },
            None => Some(values.last()),
        }
    }
}

/// What a formula returned, as its contract speaks of it.
pub open spec fn outcome<T: View>(r: Result<T, FormulaError>) -> Result<T::V, ErrorView> {
    match r {
        Ok(v) => Ok(v@),
        Err(e) => Err(e@),
    }
}

/// What a formula returned for many rows.
pub open spec fn outcomes<T>(r: Result<Vec<Vec<T>>, FormulaError>) -> Result<Seq<Seq<T>>, ErrorView> {
    match r {
        Ok(v) => Ok(Seq::new(v@.len(), |i: int| v@[i]@)),
        Err(e) => Err(e@),
    }
}

/// One more row: hit or not.
pub(crate) proof fn lemma_rows_step(hits: Seq<bool>, i: int)
    requires
        0 <= i < hits.len(),
    ensures
        rows(hits.take(i + 1)) == if hits[i] {
            rows(hits.take(i)).push(i as usize)
        } else {
            rows(hits.take(i))
        },
{
    assert(hits.take(i + 1).drop_last() =~= hits.take(i));
}

/// One more value: there or not.
pub(crate) proof fn lemma_present_step(values: Seq<Option<Number>>, i: int)
    requires
        0 <= i < values.len(),
    ensures
        present(values.take(i + 1)) == match values[i] {
            Some(n) => present(values.take(i)).push(n),
            None => present(values.take(i)),
        },
{
    assert(values.take(i + 1).drop_last() =~= values.take(i));
}

/// The rows that are hit are the places of the hits, from the lowest up.
pub proof fn law_rows_are_the_hits(hits: Seq<bool>)
    requires
        hits.len() <= usize::MAX,
    ensures
        forall|k: int|
            0 <= k < rows(hits).len() ==> #[trigger] rows(hits)[k] < hits.len() && hits[rows(
                hits,
            )[k] as int],
        forall|i: int| 0 <= i < hits.len() && #[trigger] hits[i] ==> rows(hits).contains(i as usize),
        forall|j: int, k: int| 0 <= j < k < rows(hits).len() ==> rows(hits)[j] < rows(hits)[k],
    decreases hits.len(),
{
    if hits.len() > 0 {
        let before = hits.drop_last();
        law_rows_are_the_hits(before);
        assert forall|i: int| 0 <= i < hits.len() && #[trigger] hits[i] implies rows(hits).contains(i as usize) by {
            if i < before.len() {
                assert(before[i]);
                let k = rows(before).index_of(i as usize);
                assert(rows(hits)[k] == i as usize);
            } else {
                assert(rows(hits).last() == i as usize);
            }
        }
    }
}

/// The least of some numbers is one of them and at most each; it is the first of those that equal
/// it.
pub proof fn law_least(values: Seq<Number>) -> (i: int)
    requires
        values.len() > 0,
        forall|k: int| 0 <= k < values.len() ==> !(#[trigger] values[k]).nan(),
    ensures
        0 <= i < values.len(),
        least(values) == Some(values[i]),
        forall|k: int| 0 <= k < values.len() ==> values[i].le(#[trigger] values[k]),
        forall|k: int| 0 <= k < i ==> values[i].lt(#[trigger] values[k]),
    decreases values.len(),
{
    let before = values.drop_last();
    if before.len() == 0 {
        0
    } else {
        let i = law_least(before);
        assert(values[i] == before[i]);
        let r = if values[i].le(values.last()) {
            i
        } else {
            values.len() - 1
        };
        assert forall|k: int| 0 <= k < values.len() implies values[r].le(#[trigger] values[k]) by {
            if k < before.len() {
                assert(before[k] == values[k]);
            }
        }
        assert forall|k: int| 0 <= k < r implies values[r].lt(#[trigger] values[k]) by {
            assert(before[k] == values[k]);
        }
        r
    }
}

/// The greatest of some numbers is one of them and at least each; it is the first of those that
/// equal it.
pub proof fn law_greatest(values: Seq<Number>) -> (i: int)
    requires
        values.len() > 0,
        forall|k: int| 0 <= k < values.len() ==> !(#[trigger] values[k]).nan(),
    ensures
        0 <= i < values.len(),
        greatest(values) == Some(values[i]),
        forall|k: int| 0 <= k < values.len() ==> (#[trigger] values[k]).le(values[i]),
        forall|k: int| 0 <= k < i ==> (#[trigger] values[k]).lt(values[i]),
    decreases values.len(),
{
    let before = values.drop_last();
    if before.len() == 0 {
        0
    } else {
        let i = law_greatest(before);
        assert(values[i] == before[i]);
        let r = if values.last().le(values[i]) {
            i
        } else {
            values.len() - 1
        };
        assert forall|k: int| 0 <= k < values.len() implies (#[trigger] values[k]).le(values[r]) by {
            if k < before.len() {
                assert(before[k] == values[k]);
            }
        }
        assert forall|k: int| 0 <= k < r implies (#[trigger] values[k]).lt(values[r]) by {
            assert(before[k] == values[k]);
        }
        r
    }
}

/// The rows in which a flag is set.
pub(crate) fn rows_of(flags: &Vec<bool>) -> (r: Vec<usize>)
    ensures
        r@ == rows(flags@),
{
    let mut r: Vec<usize> = Vec::new();
    let mut i: usize = 0;
    while i < flags.len()
        invariant
            i <= flags@.len(),
            r@ == rows(flags@.take(i as int)),
        decreases flags@.len() - i,
    {
        proof {
            lemma_rows_step(flags@, i as int);
        }
        if flags[i] {
            r.push(i);
        }
        i = i + 1;
    }
    assert(flags@.take(i as int) =~= flags@);
    r
}

/// The rows of a range that satisfy a criterion.
pub(crate) fn matching_rows(range: &Vec<CellValue>, criterion: &Criteria) -> (r: Vec<usize>)
    ensures
        r@ == rows(hits(cells(range@), criterion@)),
{
    let ghost wanted = hits(cells(range@), criterion@);
    let mut r: Vec<usize> = Vec::new();
    let mut i: usize = 0;
    while i < range.len()
        invariant
            i <= range@.len() == wanted.len(),
            wanted == hits(cells(range@), criterion@),
            r@ == rows(wanted.take(i as int)),
        decreases range@.len() - i,
    {
        proof {
            lemma_rows_step(wanted, i as int);
        }
        if crate::criteria::matches(&range[i], criterion) {
            r.push(i);
        }
        i = i + 1;
    }
    assert(wanted.take(i as int) =~= wanted);
    r
}

/// The numbers in a range.
pub(crate) fn numbers_of(range: &Vec<CellValue>) -> (r: Vec<Number>)
    ensures
        r@ == present(numbers(cells(range@))),
{
    let ghost all = numbers(cells(range@));
    let mut r: Vec<Number> = Vec::new();
    let mut i: usize = 0;
    while i < range.len()
        invariant
            i <= range@.len() == all.len(),
            all == numbers(cells(range@)),
            r@ == present(all.take(i as int)),
        decreases range@.len() - i,
    {
        proof {
            lemma_present_step(all, i as int);
        }
        if let CellValue::Num(n) = &range[i] {
            r.push(*n);
        }
        i = i + 1;
    }
    assert(all.take(i as int) =~= all);
    r
}

/// The numbers in the given rows of a range.
pub(crate) fn pick(rows: &Vec<usize>, range: &Vec<CellValue>) -> (r: Vec<Number>)
    requires
        forall|k: int| 0 <= k < rows@.len() ==> #[trigger] rows@[k] < range@.len(),
    ensures
        r@ == picked(rows@, numbers(cells(range@))),
{
    let ghost column = numbers(cells(range@));
    let ghost all = Seq::new(rows@.len(), |k: int| column[rows@[k] as int]);
    let mut r: Vec<Number> = Vec::new();
    let mut i: usize = 0;
    while i < rows.len()
        invariant
            i <= rows@.len() == all.len(),
            column == numbers(cells(range@)),
            all == Seq::new(rows@.len(), |k: int| column[rows@[k] as int]),
            forall|k: int| 0 <= k < rows@.len() ==> #[trigger] rows@[k] < range@.len(),
            r@ == present(all.take(i as int)),
        decreases rows@.len() - i,
    {
        proof {
            lemma_present_step(all, i as int);
        }
        if let CellValue::Num(n) = &range[rows[i]] {
            r.push(*n);
        }
        i = i + 1;
    }
    assert(all.take(i as int) =~= all);
    r
}

/// The least of some numbers.
pub(crate) fn least_of(values: &Vec<Number>) -> (r: Option<Number>)
    ensures
        r == least(values@),
{
    let mut r: Option<Number> = None;
    let mut i: usize = 0;
    while i < values.len()
        invariant
            i <= values@.len(),
            r == least(values@.take(i as int)),
        decreases values@.len() - i,
    {
        assert(values@.take(i + 1).drop_last() =~= values@.take(i as int));
        let v = values[i];
        r = match r {
            Some(m) => if m.at_most(v) {
                Some(m)
            } else {
                Some(v)
            },
            None => Some(v),
        };
        i = i + 1;
    }
    assert(values@.take(i as int) =~= values@);
    r
}

/// The greatest of some numbers.
pub(crate) fn greatest_of(values: &Vec<Number>) -> (r: Option<Number>)
    ensures
        r == greatest(values@),
{
    let mut r: Option<Number> = None;
    let mut i: usize = 0;
    while i < values.len()
        invariant
            i <= values@.len(),
            r == greatest(values@.take(i as int)),
        decreases values@.len() - i,
    {
        assert(values@.take(i + 1).drop_last() =~= values@.take(i as int));
        let v = values[i];
        r = match r {
            Some(m) => if v.at_most(m) {
                Some(m)
            } else {
                Some(v)
            },
            None => Some(v),
        };
        i = i + 1;
    }
    assert(values@.take(i as int) =~= values@);
    r
}

}
