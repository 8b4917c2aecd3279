//! VLOOKUP and XLOOKUP: the value that goes with the first key that is found.
use vstd::prelude::*;
use crate::cell::{cell_to_key, values_equal, CellValue, CellView, KeyView, LookupKey};
use crate::error::{ErrorView, Formula, FormulaError};
use crate::index::KeyIndex;
use crate::text::{text_less, to_lowercase};

verus! {

/// A row of a table: the value of its first cell, which is its key, and all its cells. The key of a
/// row without cells counts for nothing.
pub struct TableRow<T> {
    pub key: CellValue,
    pub cells: Vec<T>,
}

/// The first place that is hit.
pub open spec fn first_hit(hits: Seq<bool>) -> Option<usize>
    decreases hits.len(),
{
    if hits.len() == 0 {
        None
    } else {
        match first_hit(hits.drop_last()) {
            Some(i) => Some(i),
            None => if hits.last() {
                Some((hits.len() - 1) as usize)
            } else {
                None
            },
        }
    }
}

/// The first place that is hit is hit, and none before it.
pub proof fn law_first_hit(hits: Seq<bool>)
    requires
        hits.len() <= usize::MAX,
    ensures
        match first_hit(hits) {
            Some(i) => i < hits.len() && hits[i as int] && forall|j: int|
                0 <= j < i ==> !#[trigger] hits[j],
            None => forall|j: int| 0 <= j < hits.len() ==> !#[trigger] hits[j],
        },
    decreases hits.len(),
{
    if hits.len() > 0 {
        let before = hits.drop_last();
        law_first_hit(before);
        assert forall|j: int| 0 <= j < before.len() implies before[j] == #[trigger] hits[j] by {}
    }
}

/// One more place.
pub(crate) proof fn lemma_first_step(hits: Seq<bool>, i: int)
    requires
        0 <= i < hits.len(),
    ensures
        first_hit(hits.take(i + 1)) == match first_hit(hits.take(i)) {
            Some(r) => Some(r),
            None => if hits[i] {
                Some(i as usize)
            } else {
                None
            },
        },
{
    assert(hits.take(i + 1).drop_last() =~= hits.take(i));
}

/// The first hit of a part that begins at the start is the first hit of all.
pub(crate) proof fn lemma_first_stays(hits: Seq<bool>, i: int)
    requires
        0 <= i <= hits.len(),
        first_hit(hits.take(i)) is Some,
    ensures
        first_hit(hits) == first_hit(hits.take(i)),
    decreases hits.len(),
{
    if i < hits.len() {
        assert(hits.drop_last().take(i) =~= hits.take(i));
        lemma_first_stays(hits.drop_last(), i);
    } else {
        assert(hits.take(i) =~= hits);
    }
}

/// Whether each row has a key equal to the value looked up.
pub open spec fn equal_rows<T>(table: Seq<TableRow<T>>, value: CellView) -> Seq<bool> {
    Seq::new(
        table.len(),
        |i: int| table[i].cells@.len() > 0 && value.equals(table[i].key@),
    )
}

/// Whether a key comes at or before a value: both are numbers, or both are texts, in lower case.
pub open spec fn at_or_before(key: CellView, value: CellView) -> bool {
    match (value, key) {
        (CellView::Num(a), CellView::Num(b)) => b.le(a),
        (CellView::Text(a), CellView::Text(b)) => !crate::text::text_before(
            crate::text::lowercase(a),
            crate::text::lowercase(b),
        ),
        _ => false,
    }
}

/// Whether all rows up to `i` come at or before a value; rows without cells do not count.
pub open spec fn all_before<T>(table: Seq<TableRow<T>>, value: CellView, i: int) -> bool {
    forall|j: int|
        0 <= j <= i ==> (#[trigger] table[j]).cells@.len() == 0 || at_or_before(
            table[j].key@,
            value,
        )
}

/// The last row before the first one that does not come at or before the value.
pub open spec fn approximate_row<T>(table: Seq<TableRow<T>>, value: CellView) -> Option<usize>
    decreases table.len(),
{
    if table.len() == 0 {
        None
    } else if table.last().cells@.len() > 0 && all_before(table, value, table.len() - 1) {
        Some((table.len() - 1) as usize)
    } else {
        approximate_row(table.drop_last(), value)
    }
}

/// The row that a value is found in: approximately, or with an equal key.
pub open spec fn found_row<T>(
    table: Seq<TableRow<T>>,
    value: CellView,
    range_lookup: bool,
) -> Option<usize> {
    if range_lookup {
        approximate_row(table, value)
    } else {
        first_hit(equal_rows(table, value))
    }
}

/// The cell in a column, counted from 1, of the row found.
pub open spec fn vlookup_cell<T>(
    table: Seq<TableRow<T>>,
    row: Option<usize>,
    col_index: usize,
    range_lookup: bool,
    if_not_found: Option<T>,
) -> Result<T, ErrorView> {
    match row {
        Some(i) => if col_index - 1 >= table[i as int].cells@.len() {
            Err(ErrorView::ColumnBeyondRow)
        } else {
            Ok(table[i as int].cells@[col_index - 1])
        },
        None => match if_not_found {
            Some(v) => Ok(v),
            None => if range_lookup {
                Err(ErrorView::NoApproximateMatch)
            } else {
                Err(ErrorView::NotFound(Formula::Vlookup))
            },
        },
    }
}

/// What VLOOKUP gives.
pub open spec fn vlookup<T>(
    table: Seq<TableRow<T>>,
    value: CellView,
    col_index: usize,
    range_lookup: bool,
) -> Result<T, ErrorView> {
    if col_index == 0 {
        Err(ErrorView::ColumnZero)
    } else {
        vlookup_cell(table, found_row(table, value, range_lookup), col_index, range_lookup, None)
    }
}

/// What a reference that was returned stands for.
pub open spec fn referred<T>(r: Result<&T, FormulaError>) -> Result<T, ErrorView> {
    match r {
        Ok(v) => Ok(*v),
        Err(e) => Err(e@),
    }
}

/// What references that were returned stand for.
pub open spec fn all_referred<T>(r: Result<Vec<&T>, FormulaError>) -> Result<Seq<T>, ErrorView> {
    match r {
        Ok(v) => Ok(Seq::new(v@.len(), |i: int| *v@[i])),
        Err(e) => Err(e@),
    }
}

/// An optional reference, as a value.
pub open spec fn unref<T>(v: Option<&T>) -> Option<T> {
    match v {
        Some(x) => Some(*x),
        None => None,
    }
}

/// All values, or the first error.
pub open spec fn collected<T>(results: Seq<Result<T, ErrorView>>) -> Result<Seq<T>, ErrorView>
    decreases results.len(),
{
    if results.len() == 0 {
        Ok(Seq::empty())
    } else {
        match collected(results.drop_last()) {
            Ok(before) => match results.last() {
                Ok(v) => Ok(before.push(v)),
                Err(e) => Err(e),
            },
            Err(e) => Err(e),
        }
    }
}

/// The first error decides.
pub(crate) proof fn lemma_first_error<T>(results: Seq<Result<T, ErrorView>>, k: int)
    requires
        0 < k <= results.len(),
        collected(results.take(k)) is Err,
    ensures
        collected(results) == collected(results.take(k)),
    decreases results.len(),
{
    if k == results.len() {
        assert(results.take(k) =~= results);
    } else {
        assert(results.drop_last().take(k) =~= results.take(k));
        lemma_first_error(results.drop_last(), k);
    }
}

/// Whether a key comes at or before a value.
fn is_at_or_before(key: &CellValue, value: &CellValue) -> (r: bool)
    ensures
        r == at_or_before(key@, value@),
{
    match (value, key) {
        (CellValue::Num(a), CellValue::Num(b)) => b.at_most(*a),
        (CellValue::Text(a), CellValue::Text(b)) => {
            let x = to_lowercase(a.as_str());
            let y = to_lowercase(b.as_str());
            !text_less(x.as_str(), y.as_str())
        },
        _ => false,
    }
}

/// Nothing is found behind a row that does not come at or before the value.
proof fn lemma_stop<T>(table: Seq<TableRow<T>>, value: CellView, i: int)
    requires
        0 <= i < table.len(),
        table[i].cells@.len() > 0,
        !at_or_before(table[i].key@, value),
    ensures
        approximate_row(table, value) == approximate_row(table.take(i), value),
    decreases table.len(),
{
    assert(!all_before(table, value, table.len() - 1)) by {
        if all_before(table, value, table.len() - 1) {
            assert(table[i].cells@.len() == 0 || at_or_before(table[i].key@, value));
        }
    }
    if i == table.len() - 1 {
        assert(table.drop_last() =~= table.take(i));
    } else {
        assert(table.drop_last()[i] == table[i]);
        assert(table.drop_last().take(i) =~= table.take(i));
        lemma_stop(table.drop_last(), value, i);
    }
}

/// The row that VLOOKUP takes approximately.
fn find_approximate<T>(table: &Vec<TableRow<T>>, value: &CellValue) -> (r: Option<usize>)
    ensures
        r == approximate_row(table@, value@),
        r matches Some(i) ==> i < table@.len(),
{
    let mut best: Option<usize> = None;
    let mut i: usize = 0;
    while i < table.len()
        invariant
            i <= table@.len(),
            all_before(table@, value@, i - 1),
            best == approximate_row(table@.take(i as int), value@),
            best matches Some(b) ==> b < i,
        decreases table@.len() - i,
    {
        let ghost part = table@.take(i + 1);
        assert(part.drop_last() =~= table@.take(i as int));
        assert(part.last() == table@[i as int]);
        if table[i].cells.len() > 0 {
            if !is_at_or_before(&table[i].key, value) {
                proof {
                    lemma_stop(table@, value@, i as int);
                }
                return best;
            }
            assert(all_before(table@, value@, i as int));
            assert(all_before(part, value@, i as int)) by {
                assert forall|j: int| 0 <= j <= i implies (#[trigger] part[j]).cells@.len() == 0
                    || at_or_before(part[j].key@, value@) by {
                    assert(part[j] == table@[j]);
                }
            }
            best = Some(i);
        }
        i = i + 1;
    }
    assert(table@.take(i as int) =~= table@);
    best
}

/// The first row with an equal key.
fn find_equal<T>(table: &Vec<TableRow<T>>, value: &CellValue) -> (r: Option<usize>)
    ensures
        r == first_hit(equal_rows(table@, value@)),
        r matches Some(i) ==> i < table@.len(),
{
    let ghost hits = equal_rows(table@, value@);
    let mut i: usize = 0;
    while i < table.len()
        invariant
            i <= table@.len() == hits.len(),
            hits == equal_rows(table@, value@),
            first_hit(hits.take(i as int)) is None,
        decreases table@.len() - i,
    {
        proof {
            lemma_first_step(hits, i as int);
        }
        if table[i].cells.len() > 0 && values_equal(value, &table[i].key) {
            proof {
                lemma_first_stays(hits, i + 1);
            }
            return Some(i);
        }
        i = i + 1;
    }
    assert(hits.take(i as int) =~= hits);
    None
}

/// The cell in a column of the row found.
fn pick_cell<'a, T>(
    table: &'a Vec<TableRow<T>>,
    row: Option<usize>,
    col_index: usize,
    range_lookup: bool,
    if_not_found: Option<&'a T>,
) -> (r: Result<&'a T, FormulaError>)
    requires
        col_index > 0,
        row matches Some(i) ==> i < table@.len(),
    ensures
        referred(r) == vlookup_cell(table@, row, col_index, range_lookup, unref(if_not_found)),
{
    match row {
        Some(i) => if col_index - 1 >= table[i].cells.len() {
            Err(FormulaError::ColumnBeyondRow)
        } else {
            Ok(&table[i].cells[col_index - 1])
        },
        None => match if_not_found {
            Some(v) => Ok(v),
            None => if range_lookup {
                Err(FormulaError::NoApproximateMatch)
            } else {
                Err(FormulaError::NotFound(Formula::Vlookup))
            },
        },
    }
}

/// VLOOKUP. The first row with an equal key gives the value; with `range_lookup`, the last row
/// before the first key that does not come at or before the value.
pub fn vlookup_values<'a, T>(
    lookup_value: &CellValue,
    table: &'a Vec<TableRow<T>>,
    col_index: usize,
    range_lookup: bool,
) -> (r: Result<&'a T, FormulaError>)
    ensures
        referred(r) == vlookup(table@, lookup_value@, col_index, range_lookup),
        forall|i: int| #[trigger]
            crate::lookup_laws::row_answers(table@, lookup_value@, range_lookup, i) && 1 <= col_index
                <= table@[i].cells@.len() ==> (r matches Ok(v) && *v == table@[i].cells@[col_index
                - 1]),
        r is Ok ==> exists|i: int| #[trigger]
            crate::lookup_laws::row_answers(table@, lookup_value@, range_lookup, i),
{
    proof {
        assert(table.len() <= usize::MAX);
        crate::lookup_laws::law_vlookup(table@, lookup_value@, col_index, range_lookup);
        if !(exists|i: int| #[trigger]
            crate::lookup_laws::row_answers(table@, lookup_value@, range_lookup, i)) {
            assert forall|i: int|
                #![trigger table@[i]]
                !crate::lookup_laws::row_answers(table@, lookup_value@, range_lookup, i) by {}
        }
    }
    if col_index == 0 {
        return Err(FormulaError::ColumnZero);
    }
    let row = if range_lookup {
        find_approximate(table, lookup_value)
    } else {
        find_equal(table, lookup_value)
    };
    pick_cell(table, row, col_index, range_lookup, None)
}

/// What VLOOKUP gives for many values: one cell each, or the first error. A value that is not found
/// gives the replacement, if there is one.
pub open spec fn vlookup_many<T>(
    values: Seq<CellView>,
    table: Seq<TableRow<T>>,
    col_index: usize,
    range_lookup: bool,
    if_not_found: Option<T>,
) -> Result<Seq<T>, ErrorView> {
    if col_index == 0 {
        Err(ErrorView::ColumnZero)
    } else {
        collected(
            Seq::new(
                values.len(),
                |i: int|
                    vlookup_cell(
                        table,
                        found_row(table, values[i], range_lookup),
                        col_index,
                        range_lookup,
                        if_not_found,
                    ),
            ),
        )
    }
}

/// The keys of all rows with cells.
spec fn table_keys<T>(table: Seq<TableRow<T>>) -> Seq<Option<KeyView>> {
    Seq::new(
        table.len(),
        |i: int|
            if table[i].cells@.len() > 0 {
                Some(table[i].key@.key())
            } else {
                None
            },
    )
}

/// The index of the keys of all rows with cells.
fn index_table<T>(table: &Vec<TableRow<T>>) -> (r: KeyIndex)
    ensures
        r.indexes(table_keys(table@)),
{
    let mut keys: Vec<Option<LookupKey>> = Vec::new();
    let mut i: usize = 0;
    while i < table.len()
        invariant
            i <= table@.len(),
            keys@.len() == i,
            forall|k: int|
                0 <= k < i ==> crate::index::some_keys(keys@)[k] == #[trigger] table_keys(
                    table@,
                )[k],
        decreases table@.len() - i,
    {
        let ghost before = keys@;
        if table[i].cells.len() > 0 {
            keys.push(Some(cell_to_key(&table[i].key)));
        } else {
            keys.push(None);
        }
        proof {
            assert forall|k: int| 0 <= k < i + 1 implies crate::index::some_keys(keys@)[k]
                == #[trigger] table_keys(table@)[k] by {
                if k < i {
                    assert(crate::index::some_keys(before)[k] == table_keys(table@)[k]);
                }
            }
        }
        i = i + 1;
    }
    assert(crate::index::some_keys(keys@) =~= table_keys(table@));
    KeyIndex::build(&keys)
}

/// The rows with the key of an equal cell are those with an equal key.
proof fn lemma_table_hits<T>(table: Seq<TableRow<T>>, value: CellView)
    ensures
        crate::index::met_flags(table_keys(table), value.key()) == equal_rows(table, value),
{
    assert(crate::index::met_flags(table_keys(table), value.key()) =~= equal_rows(table, value));
}

/// VLOOKUP for many values. Without `range_lookup` the keys are put in an index once.
pub fn vlookup_many_values<'a, T>(
    lookup_values: &Vec<CellValue>,
    table: &'a Vec<TableRow<T>>,
    col_index: usize,
    range_lookup: bool,
    if_not_found: Option<&'a T>,
) -> (r: Result<Vec<&'a T>, FormulaError>)
    ensures
        all_referred(r) == vlookup_many(
            crate::selection::cells(lookup_values@),
            table@,
            col_index,
            range_lookup,
            unref(if_not_found),
        ),
        all_referred(r) matches Ok(v) ==> crate::lookup_laws::vlooked_up(
            crate::selection::cells(lookup_values@),
            table@,
            col_index,
            range_lookup,
            unref(if_not_found),
            v,
        ),
{
    proof {
        assert(table.len() <= usize::MAX);
        crate::lookup_laws::law_vlookup_many(
            crate::selection::cells(lookup_values@),
            table@,
            col_index,
            range_lookup,
            unref(if_not_found),
        );
    }
    if col_index == 0 {
        return Err(FormulaError::ColumnZero);
    }
    let ghost values = crate::selection::cells(lookup_values@);
    let ghost results = Seq::new(
        values.len(),
        |i: int|
            vlookup_cell(
                table@,
                found_row(table@, values[i], range_lookup),
                col_index,
                range_lookup,
                unref(if_not_found),
            ),
    );
    let index = if range_lookup {
        None
    } else {
        Some(index_table(table))
    };
    let n = table.len();
    let mut out: Vec<&'a T> = Vec::new();
    let mut i: usize = 0;
    assert(all_referred(Ok(out))->Ok_0 =~= Seq::empty());
    while i < lookup_values.len()
        invariant
            n == table@.len(),
            col_index > 0,
            i <= lookup_values@.len() == results.len(),
            values == crate::selection::cells(lookup_values@),
            results == Seq::new(
                values.len(),
                |i: int|
                    vlookup_cell(
                        table@,
                        found_row(table@, values[i], range_lookup),
                        col_index,
                        range_lookup,
                        unref(if_not_found),
                    ),
            ),
            index is None <==> range_lookup,
            index matches Some(t) ==> t.indexes(table_keys(table@)),
            collected(results.take(i as int)) == all_referred(Ok(out)),
        decreases lookup_values@.len() - i,
    {
        assert(results.take(i + 1).drop_last() =~= results.take(i as int));
        let row = match &index {
            Some(t) => {
                let key = cell_to_key(&lookup_values[i]);
                proof {
                    lemma_table_hits(table@, lookup_values@[i as int]@);
                }
                t.first(&key, Ghost(table_keys(table@)))
            },
            None => find_approximate(table, &lookup_values[i]),
        };
        match pick_cell(table, row, col_index, range_lookup, if_not_found) {
            Ok(v) => {
                let ghost before = all_referred(Ok(out))->Ok_0;
                out.push(v);
                assert(all_referred(Ok(out))->Ok_0 =~= before.push(*v));
            },
            Err(e) => {
                proof {
                    lemma_first_error(results, i + 1);
                }
                return Err(e);
            },
        }
        i = i + 1;
    }
    assert(results.take(i as int) =~= results);
    Ok(out)
}

/// Whether each key equals the value looked up.
pub open spec fn equal_keys(keys: Seq<CellView>, value: CellView) -> Seq<bool> {
    Seq::new(keys.len(), |i: int| value.equals(keys[i]))
}

/// The value that goes with the key found.
pub open spec fn xlookup_cell<T>(
    row: Option<usize>,
    values: Seq<T>,
    if_not_found: Option<T>,
    formula: Formula,
) -> Result<T, ErrorView> {
    match row {
        Some(i) => Ok(values[i as int]),
        None => match if_not_found {
            Some(v) => Ok(v),
            None => Err(ErrorView::NotFound(formula)),
        },
    }
}

/// What XLOOKUP gives.
pub open spec fn xlookup<T>(
    value: CellView,
    keys: Seq<CellView>,
    values: Seq<T>,
    if_not_found: Option<T>,
) -> Result<T, ErrorView> {
    if keys.len() != values.len() {
        Err(ErrorView::ReturnLength(Formula::Xlookup))
    } else {
        xlookup_cell(first_hit(equal_keys(keys, value)), values, if_not_found, Formula::Xlookup)
    }
}

/// XLOOKUP.
pub fn xlookup_values<'a, T>(
    lookup_value: &CellValue,
    lookup_array: &Vec<CellValue>,
    return_array: &'a Vec<T>,
    if_not_found: Option<&'a T>,
) -> (r: Result<&'a T, FormulaError>)
    ensures
        referred(r) == xlookup(
            lookup_value@,
            crate::selection::cells(lookup_array@),
            return_array@,
            unref(if_not_found),
        ),
        ({
            let keys = crate::selection::cells(lookup_array@);
            keys.len() == return_array@.len() ==> crate::lookup_laws::xlooked_up(
                lookup_value@,
                keys,
                return_array@,
                unref(if_not_found),
                referred(r),
            )
        }),
{
    proof {
        assert(lookup_array.len() <= usize::MAX);
        crate::lookup_laws::law_xlookup(
            lookup_value@,
            crate::selection::cells(lookup_array@),
            return_array@,
            unref(if_not_found),
        );
    }
    if lookup_array.len() != return_array.len() {
        return Err(FormulaError::ReturnLength(Formula::Xlookup));
    }
    let ghost hits = equal_keys(crate::selection::cells(lookup_array@), lookup_value@);
    let mut i: usize = 0;
    while i < lookup_array.len()
        invariant
            i <= lookup_array@.len() == return_array@.len() == hits.len(),
            hits == equal_keys(crate::selection::cells(lookup_array@), lookup_value@),
            first_hit(hits.take(i as int)) is None,
        decreases lookup_array@.len() - i,
    {
        proof {
            lemma_first_step(hits, i as int);
        }
        if values_equal(lookup_value, &lookup_array[i]) {
            proof {
                lemma_first_stays(hits, i + 1);
                assert(lookup_array.len() <= usize::MAX);
                crate::lookup_laws::law_xlookup(
                    lookup_value@,
                    crate::selection::cells(lookup_array@),
                    return_array@,
                    unref(if_not_found),
                );
            }
            return Ok(&return_array[i]);
        }
        i = i + 1;
    }
    assert(hits.take(i as int) =~= hits);
    match if_not_found {
        Some(v) => Ok(v),
        None => Err(FormulaError::NotFound(Formula::Xlookup)),
    }
}

/// The first key that equals each value.
pub open spec fn found_rows(values: Seq<CellView>, keys: Seq<CellView>) -> Seq<Option<usize>> {
    Seq::new(values.len(), |i: int| first_hit(equal_keys(keys, values[i])))
}

/// What XLOOKUP gives for many values: what goes with the first key found, or the first error.
pub open spec fn xlookup_many<T>(
    found: Seq<Option<usize>>,
    values: Seq<T>,
    if_not_found: Option<T>,
    formula: Formula,
) -> Result<Seq<T>, ErrorView> {
    collected(
        Seq::new(found.len(), |i: int| xlookup_cell(found[i], values, if_not_found, formula)),
    )
}

/// The values that go with the keys found.
pub(crate) fn pick_found<'a, T>(
    found: &Vec<Option<usize>>,
    return_array: &'a Vec<T>,
    if_not_found: Option<&'a T>,
    formula: Formula,
) -> (r: Result<Vec<&'a T>, FormulaError>)
    requires
        forall|i: int|
            0 <= i < found@.len() ==> (#[trigger] found@[i] matches Some(row) ==> row
                < return_array@.len()),
    ensures
        all_referred(r) == xlookup_many(found@, return_array@, unref(if_not_found), formula),
{
    let ghost results = Seq::new(
        found@.len(),
        |i: int| xlookup_cell(found@[i], return_array@, unref(if_not_found), formula),
    );
    let mut out: Vec<&'a T> = Vec::new();
    let mut i: usize = 0;
    assert(all_referred(Ok(out))->Ok_0 =~= Seq::empty());
    while i < found.len()
        invariant
            i <= found@.len() == results.len(),
            forall|i: int|
                0 <= i < found@.len() ==> (#[trigger] found@[i] matches Some(row) ==> row
                    < return_array@.len()),
            results == Seq::new(
                found@.len(),
                |i: int| xlookup_cell(found@[i], return_array@, unref(if_not_found), formula),
            ),
            collected(results.take(i as int)) == all_referred(Ok(out)),
        decreases found@.len() - i,
    {
        assert(results.take(i + 1).drop_last() =~= results.take(i as int));
        let v = match found[i] {
            Some(row) => &return_array[row],
            None => match if_not_found {
                Some(v) => v,
                None => {
                    proof {
                        lemma_first_error(results, i + 1);
                    }
                    return Err(FormulaError::NotFound(formula));
                },
            },
        };
        let ghost before = all_referred(Ok(out))->Ok_0;
        out.push(v);
        assert(all_referred(Ok(out))->Ok_0 =~= before.push(*v));
        i = i + 1;
    }
    assert(results.take(i as int) =~= results);
    Ok(out)
}

/// XLOOKUP by place: the first row whose key equals each value.
pub fn xlookup_many_indices(lookup_values: &Vec<CellValue>, lookup_array: &Vec<CellValue>) -> (r:
    Vec<Option<usize>>)
    ensures
        r@ == found_rows(
            crate::selection::cells(lookup_values@),
            crate::selection::cells(lookup_array@),
        ),
        r@.len() == lookup_values@.len(),
        forall|k: int|
            0 <= k < r@.len() ==> match #[trigger] r@[k] {
                Some(i) => crate::lookup_laws::first_equal(
                    crate::selection::cells(lookup_array@),
                    lookup_values@[k]@,
                    i as int,
                ),
                None => crate::lookup_laws::none_equal(
                    crate::selection::cells(lookup_array@),
                    lookup_values@[k]@,
                ),
            },
{
    let r = find_rows(lookup_values, lookup_array);
    proof {
        let keys = crate::selection::cells(lookup_array@);
        assert(lookup_array.len() <= usize::MAX);
        assert forall|k: int| 0 <= k < r@.len() implies match #[trigger] r@[k] {
            Some(i) => crate::lookup_laws::first_equal(keys, lookup_values@[k]@, i as int),
            None => crate::lookup_laws::none_equal(keys, lookup_values@[k]@),
        } by {
            crate::lookup_laws::law_found_rows(
                crate::selection::cells(lookup_values@),
                keys,
                k,
            );
        }
    }
    r
}

/// The keys of some cells.
pub(crate) open spec fn cell_keys(cells: Seq<CellView>) -> Seq<Option<KeyView>> {
    Seq::new(cells.len(), |i: int| Some(cells[i].key()))
}

/// The rows with the key of an equal cell are those with an equal cell.
pub(crate) proof fn lemma_met_is_equal(cells: Seq<CellView>, value: CellView)
    ensures
        crate::index::met_flags(cell_keys(cells), value.key()) == equal_keys(cells, value),
{
    assert(crate::index::met_flags(cell_keys(cells), value.key()) =~= equal_keys(cells, value));
}

/// The first row whose key equals each value: the keys are put in an index once.
fn find_rows(wanted: &Vec<CellValue>, keys: &Vec<CellValue>) -> (r: Vec<Option<usize>>)
    ensures
        r@ == found_rows(crate::selection::cells(wanted@), crate::selection::cells(keys@)),
        forall|i: int|
            0 <= i < r@.len() ==> (#[trigger] r@[i] matches Some(row) ==> row < keys@.len()),
{
    let ghost cells = crate::selection::cells(keys@);
    let mut some: Vec<Option<LookupKey>> = Vec::new();
    let mut i: usize = 0;
    while i < keys.len()
        invariant
            i <= keys@.len() == cells.len(),
            cells == crate::selection::cells(keys@),
            some@.len() == i,
            forall|k: int|
                0 <= k < i ==> crate::index::some_keys(some@)[k] == #[trigger] cell_keys(cells)[k],
        decreases keys@.len() - i,
    {
        let ghost before = some@;
        some.push(Some(cell_to_key(&keys[i])));
        proof {
            assert forall|k: int| 0 <= k < i + 1 implies crate::index::some_keys(some@)[k]
                == #[trigger] cell_keys(cells)[k] by {
                if k < i {
                    assert(crate::index::some_keys(before)[k] == cell_keys(cells)[k]);
                }
            }
        }
        i = i + 1;
    }
    assert(crate::index::some_keys(some@) =~= cell_keys(cells));
    let index = KeyIndex::build(&some);
    let mut r: Vec<Option<usize>> = Vec::new();
    let mut i: usize = 0;
    while i < wanted.len()
        invariant
            i <= wanted@.len(),
            cells.len() == keys@.len(),
            index.indexes(cell_keys(cells)),
            r@.len() == i,
            forall|k: int|
                0 <= k < i ==> #[trigger] r@[k] == first_hit(equal_keys(cells, wanted@[k]@)),
            forall|i: int|
                0 <= i < r@.len() ==> (#[trigger] r@[i] matches Some(row) ==> row < keys@.len()),
        decreases wanted@.len() - i,
    {
        proof {
            lemma_met_is_equal(cells, wanted@[i as int]@);
        }
        r.push(index.first(&cell_to_key(&wanted[i]), Ghost(cell_keys(cells))));
        i = i + 1;
    }
    assert(r@ =~= found_rows(crate::selection::cells(wanted@), cells));
    r
}

/// What XLOOKUP gives for many values.
pub open spec fn xlookup_all<T>(
    wanted: Seq<CellView>,
    keys: Seq<CellView>,
    values: Seq<T>,
    if_not_found: Option<T>,
) -> Result<Seq<T>, ErrorView> {
    if keys.len() != values.len() {
        Err(ErrorView::ReturnLength(Formula::Xlookup))
    } else {
        xlookup_many(
            found_rows(wanted, keys),
            values,
            if_not_found,
            Formula::Xlookup,
        )
    }
}

/// XLOOKUP for many values: the keys are put in an index once.
pub fn xlookup_many_values<'a, T>(
    lookup_values: &Vec<CellValue>,
    lookup_array: &Vec<CellValue>,
    return_array: &'a Vec<T>,
    if_not_found: Option<&'a T>,
) -> (r: Result<Vec<&'a T>, FormulaError>)
    ensures
        all_referred(r) == xlookup_all(
            crate::selection::cells(lookup_values@),
            crate::selection::cells(lookup_array@),
            return_array@,
            unref(if_not_found),
        ),
        all_referred(r) matches Ok(v) ==> crate::lookup_laws::all_xlooked_up(
            crate::selection::cells(lookup_values@),
            crate::selection::cells(lookup_array@),
            return_array@,
            unref(if_not_found),
            v,
        ),
{
    proof {
        assert(lookup_array.len() <= usize::MAX);
        crate::lookup_laws::law_xlookup_many(
            crate::selection::cells(lookup_values@),
            crate::selection::cells(lookup_array@),
            return_array@,
            unref(if_not_found),
        );
    }
    if lookup_array.len() != return_array.len() {
        return Err(FormulaError::ReturnLength(Formula::Xlookup));
    }
    let found = find_rows(lookup_values, lookup_array);
    pick_found(&found, return_array, if_not_found, Formula::Xlookup)
}

}
