//! VLOOKUP and XLOOKUP on columns: no more than the keys and the values that are found is read.
use vstd::prelude::*;
use crate::cell::{CellView, LookupKey, RawValue};
use crate::column::{CellTextRef, ColumnObject, FastColumn, ObjectView};
use crate::error::{ErrorView, Formula, FormulaError};
use crate::index::KeyIndex;

verus! {

/// The texts of a list that holds nothing else.
pub open spec fn all_texts(values: Seq<RawValue>) -> bool {
    forall|i: int| 0 <= i < values.len() ==> #[trigger] values[i] is Str
}

impl FastColumn {
    /// The column of some values: a list that holds texts alone is a column of texts, anything else
    /// is read value by value.
    pub fn of_values(values: Vec<RawValue>, list: bool) -> (r: FastColumn)
        ensures
            list && all_texts(values@) ==> (r matches FastColumn::Text(v) && v@.len()
                == values@.len() && forall|i: int|
                0 <= i < v@.len() ==> values@[i] == RawValue::Str(#[trigger] v@[i])),
            !(list && all_texts(values@)) ==> r == FastColumn::Generic(values),
    {
        if !list {
            return FastColumn::Generic(values);
        }
        let mut texts: Vec<String> = Vec::new();
        let mut i: usize = 0;
        while i < values.len()
            invariant
                list,
                i <= values@.len(),
                texts@.len() == i,
                forall|k: int| 0 <= k < i ==> values@[k] == RawValue::Str(#[trigger] texts@[k]),
            decreases values@.len() - i,
        {
            match &values[i] {
                RawValue::Str(s) => {
                    texts.push(s.clone());
                },
                _ => {
                    assert(!(values@[i as int] is Str));
                    return FastColumn::Generic(values);
                },
            }
            i = i + 1;
        }
        assert forall|k: int| 0 <= k < values@.len() implies #[trigger] values@[k] is Str by {
            assert(values@[k] == RawValue::Str(texts@[k]));
        }
        FastColumn::Text(texts)
    }
}

/// What one value that was looked up gives: the row found, or nothing, for which the replacement
/// stands.
pub open spec fn columnar_cell(row: Option<usize>, values: FastColumn, replaced: bool) -> Result<
    Option<ObjectView>,
    ErrorView,
> {
    match row {
        Some(i) => Ok(Some(values.object(i as int))),
        None => if replaced {
            Ok(None)
        } else {
            Err(ErrorView::NotFound(Formula::Vlookup))
        },
    }
}

/// What VLOOKUP gives for a column of values, each found in a column of keys.
pub open spec fn columnar(
    wanted: FastColumn,
    keys: FastColumn,
    values: FastColumn,
    replaced: bool,
) -> Result<Seq<Option<ObjectView>>, ErrorView> {
    if keys.size() != values.size() {
        Err(ErrorView::ReturnLength(Formula::Vlookup))
    } else {
        crate::lookup::collected(
            columnar_cells(
                crate::lookup::found_rows(wanted.cells(), keys.cells()),
                values,
                replaced,
            ),
        )
    }
}

/// What each value that was looked up gives.
pub open spec fn columnar_cells(found: Seq<Option<usize>>, values: FastColumn, replaced: bool) -> Seq<
    Result<Option<ObjectView>, ErrorView>,
> {
    Seq::new(found.len(), |i: int| columnar_cell(found[i], values, replaced))
}

/// What was handed back, as contracts speak of it.
pub open spec fn objects(r: Result<Vec<Option<ColumnObject>>, FormulaError>) -> Result<
    Seq<Option<ObjectView>>,
    ErrorView,
> {
    match r {
        Ok(v) => Ok(Seq::new(v@.len(), |i: int| object_view(v@[i]))),
        Err(e) => Err(e@),
    }
}

/// One value that was handed back, as contracts speak of it.
pub open spec fn object_view(o: Option<ColumnObject>) -> Option<ObjectView> {
    match o {
        Some(o) => Some(o@),
        None => None,
    }
}

/// Texts and other keys are looked up alike, but a text that is in lower case already is not copied.
fn lookup_row(
    column: &FastColumn,
    i: usize,
    index: &KeyIndex,
    Ghost(cells): Ghost<Seq<CellView>>,
) -> (r: Option<usize>)
    requires
        i < column.size(),
        index.indexes(crate::lookup::cell_keys(cells)),
    ensures
        r == crate::lookup::first_hit(
            crate::lookup::equal_keys(cells, column.cell(i as int)),
        ),
        r matches Some(row) ==> row < cells.len(),
{
    proof {
        crate::lookup::lemma_met_is_equal(cells, column.cell(i as int));
    }
    let ghost keys = crate::lookup::cell_keys(cells);
    match column.cell_text_ref_at(i) {
        Some(CellTextRef::Borrowed(s)) => index.first_text(s, Ghost(keys)),
        Some(CellTextRef::Owned(s)) => index.first_text(s.as_str(), Ghost(keys)),
        None => index.first(&column.cell_key_at(i), Ghost(keys)),
    }
}

/// The index of the keys of a column.
fn index_column(column: &FastColumn) -> (r: KeyIndex)
    ensures
        r.indexes(crate::lookup::cell_keys(column.cells())),
{
    let ghost all = crate::lookup::cell_keys(column.cells());
    let n = column.len();
    let mut keys: Vec<Option<LookupKey>> = Vec::new();
    let mut i: usize = 0;
    while i < n
        invariant
            i <= n == column.size() == all.len(),
            all == crate::lookup::cell_keys(column.cells()),
            keys@.len() == i,
            forall|k: int| 0 <= k < i ==> crate::index::some_keys(keys@)[k] == #[trigger] all[k],
        decreases n - i,
    {
        let ghost before = keys@;
        keys.push(Some(column.cell_key_at(i)));
        proof {
            assert forall|k: int| 0 <= k < i + 1 implies crate::index::some_keys(keys@)[k]
                == #[trigger] all[k] by {
                if k < i {
                    assert(crate::index::some_keys(before)[k] == all[k]);
                }
            }
        }
        i = i + 1;
    }
    assert(crate::index::some_keys(keys@) =~= all);
    KeyIndex::build(&keys)
}

/// VLOOKUP for a column of values: each is found in a column of keys, and gives what stands in
/// the same row of another; where it is not found, the replacement stands for it, if there is one.
pub fn vlookup_many_columnar(
    lookup_values: &FastColumn,
    key_col: &FastColumn,
    return_col: &FastColumn,
    if_not_found: bool,
) -> (r: Result<Vec<Option<ColumnObject>>, FormulaError>)
    ensures
        objects(r) == columnar(*lookup_values, *key_col, *return_col, if_not_found),
        r matches Ok(v) ==> crate::lookup_laws::looked_up(
            *lookup_values,
            *key_col,
            *return_col,
            objects(r)->Ok_0,
        ),
{
    let key_n = key_col.len();
    proof {
        crate::lookup_laws::lemma_looked_up(*lookup_values, *key_col, *return_col, if_not_found);
    }
    if key_n != return_col.len() {
        return Err(FormulaError::ReturnLength(Formula::Vlookup));
    }
    let ghost keys = key_col.cells();
    let ghost found_rows = crate::lookup::found_rows(lookup_values.cells(), keys);
    let ghost results = columnar_cells(found_rows, *return_col, if_not_found);
    let index = index_column(key_col);
    let m = lookup_values.len();
    let mut out: Vec<Option<ColumnObject>> = Vec::new();
    let mut i: usize = 0;
    assert(objects(Ok(out))->Ok_0 =~= Seq::empty());
    while i < m
        invariant
            i <= m == lookup_values.size() == found_rows.len() == results.len(),
            key_n == key_col.size() == return_col.size() == keys.len(),
            keys == key_col.cells(),
            found_rows == crate::lookup::found_rows(lookup_values.cells(), keys),
            results == columnar_cells(found_rows, *return_col, if_not_found),
            index.indexes(crate::lookup::cell_keys(keys)),
            crate::lookup::collected(results.take(i as int)) == objects(Ok(out)),
        decreases m - i,
    {
        assert(results.take(i + 1).drop_last() =~= results.take(i as int));
        let found = lookup_row(lookup_values, i, &index, Ghost(keys));
        assert(found_rows[i as int] == found);
        let o = match found {
            Some(row) => Some(return_col.to_object_at(row)),
            None => if if_not_found {
                None
            } else {
                proof {
                    crate::lookup::lemma_first_error(results, i + 1);
                }
                return Err(FormulaError::NotFound(Formula::Vlookup));
            },
        };
        let ghost before = objects(Ok(out))->Ok_0;
        out.push(o);
        assert(objects(Ok(out))->Ok_0 =~= before.push(object_view(o)));
        i = i + 1;
    }
    assert(results.take(i as int) =~= results);
    Ok(out)
}

/// XLOOKUP for a column of values, which is VLOOKUP with a column of keys and one of values.
pub fn xlookup_many_columnar(
    lookup_values: &FastColumn,
    lookup_array: &FastColumn,
    return_array: &FastColumn,
    if_not_found: bool,
) -> (r: Result<Vec<Option<ColumnObject>>, FormulaError>)
    ensures
        objects(r) == columnar(*lookup_values, *lookup_array, *return_array, if_not_found),
        r matches Ok(v) ==> crate::lookup_laws::looked_up(
            *lookup_values,
            *lookup_array,
            *return_array,
            objects(r)->Ok_0,
        ),
{
    vlookup_many_columnar(lookup_values, lookup_array, return_array, if_not_found)
}

}
