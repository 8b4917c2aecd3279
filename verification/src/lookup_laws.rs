//! What holds of lookups: which row answers, and what is handed back from it.
use vstd::prelude::*;
use crate::cell::CellView;
use crate::column::{FastColumn, ObjectView};
use crate::error::{ErrorView, Formula};
use crate::lookup::TableRow;
use crate::number::Number;

verus! {

/// Whether the first row with cells behind `r` is at `stop` and does not come at or before the value,
/// or there is none and `stop` is the end of the table.
pub open spec fn ends_at<T>(table: Seq<TableRow<T>>, value: CellView, r: int, stop: int) -> bool {
    &&& r < stop <= table.len()
    &&& forall|j: int| r < j < stop ==> (#[trigger] table[j]).cells@.len() == 0
    &&& stop < table.len() ==> table[stop].cells@.len() > 0 && !crate::lookup::at_or_before(
        table[stop].key@,
        value,
    )
}

/// Whether a row is the one that answers a VLOOKUP. Exactly: its key equals the value, and none
/// before it does. Approximately: its key and all before it come at or before the value, and the
/// next one does not. Rows without cells have no key.
pub open spec fn row_answers<T>(
    table: Seq<TableRow<T>>,
    value: CellView,
    range_lookup: bool,
    r: int,
) -> bool {
    &&& 0 <= r < table.len()
    &&& table[r].cells@.len() > 0
    &&& if range_lookup {
        &&& forall|j: int|
            0 <= j <= r && (#[trigger] table[j]).cells@.len() > 0 ==> crate::lookup::at_or_before(
                table[j].key@,
                value,
            )
        &&& exists|stop: int| ends_at(table, value, r, stop)
    } else {
        &&& value.equals(table[r].key@)
        &&& forall|j: int|
            0 <= j < r && (#[trigger] table[j]).cells@.len() > 0 ==> !value.equals(table[j].key@)
    }
}

/// VLOOKUP gives the cell of the row that answers which stands in the column asked for, counted from
/// 1, however the row was found; a column beyond the row, and a value that no row answers, are errors.
pub proof fn law_vlookup<T>(
    table: Seq<TableRow<T>>,
    value: CellView,
    col_index: usize,
    range_lookup: bool,
)
    requires
        table.len() <= usize::MAX,
    ensures
        col_index == 0 ==> crate::lookup::vlookup(table, value, col_index, range_lookup) == Err::<
            T,
            ErrorView,
        >(ErrorView::ColumnZero),
        forall|r: int|
            #![trigger table[r]]
            col_index > 0 && row_answers(table, value, range_lookup, r) ==> {
                let cells = table[r].cells@;
                crate::lookup::vlookup(table, value, col_index, range_lookup) == (if col_index
                    <= cells.len() {
                    Ok::<T, ErrorView>(cells[col_index - 1])
                } else {
                    Err(ErrorView::ColumnBeyondRow)
                })
            },
        col_index > 0 && (forall|r: int|
            #![trigger table[r]]
            !row_answers(table, value, range_lookup, r)) ==> crate::lookup::vlookup(
            table,
            value,
            col_index,
            range_lookup,
        ) == Err::<T, ErrorView>(
            if range_lookup {
                ErrorView::NoApproximateMatch
            } else {
                ErrorView::NotFound(Formula::Vlookup)
            },
        ),
{
    lemma_found_row_answers(table, value, range_lookup);
    let found = crate::lookup::found_row(table, value, range_lookup);
    if let Some(f) = found {
        assert(table[f as int].cells@.len() > 0);
        assert forall|r: int|
            #![trigger table[r]]
            row_answers(table, value, range_lookup, r) implies r == f by {
            lemma_one_row_answers(table, value, range_lookup, r, f as int);
        }
    }
}

/// The row that is found answers; where none is found, none does.
proof fn lemma_found_row_answers<T>(table: Seq<TableRow<T>>, value: CellView, range_lookup: bool)
    requires
        table.len() <= usize::MAX,
    ensures
        match crate::lookup::found_row(table, value, range_lookup) {
            Some(f) => row_answers(table, value, range_lookup, f as int),
            None => forall|r: int|
                #![trigger table[r]]
                !row_answers(table, value, range_lookup, r),
        },
{
    if range_lookup {
        lemma_approximate_row_answers(table, value);
    } else {
        let hits = crate::lookup::equal_rows(table, value);
        crate::lookup::law_first_hit(hits);
        match crate::lookup::first_hit(hits) {
            Some(f) => {
                assert forall|j: int|
                    0 <= j < f && (#[trigger] table[j]).cells@.len() > 0 implies !value.equals(
                    table[j].key@,
                ) by {
                    assert(!hits[j]);
                }
                assert(hits[f as int]);
            },
            None => {
                assert forall|r: int|
                    #![trigger table[r]]
                    !row_answers(table, value, range_lookup, r) by {
                    if 0 <= r < table.len() {
                        assert(!hits[r]);
                    }
                }
            },
        }
    }
}

proof fn lemma_approximate_row_answers<T>(table: Seq<TableRow<T>>, value: CellView)
    requires
        table.len() <= usize::MAX,
    ensures
        match crate::lookup::approximate_row(table, value) {
            Some(f) => row_answers(table, value, true, f as int),
            None => forall|r: int|
                #![trigger table[r]]
                !row_answers(table, value, true, r),
        },
    decreases table.len(),
{
    if table.len() > 0 {
        let n = table.len() - 1;
        let before = table.drop_last();
        assert forall|j: int| 0 <= j < n implies before[j] == #[trigger] table[j] by {}
        lemma_approximate_row_answers(before, value);
        if table[n].cells@.len() > 0 && crate::lookup::all_before(table, value, n) {
            assert(ends_at(table, value, n, n + 1));
            assert(row_answers(table, value, true, n));
        } else {
            match crate::lookup::approximate_row(before, value) {
                Some(f) => {
                    let r = f as int;
                    let stop = choose|stop: int| ends_at(before, value, r, stop);
                    assert(before[r] == table[r]);
                    assert forall|j: int|
                        0 <= j <= r && (#[trigger] table[j]).cells@.len()
                            > 0 implies crate::lookup::at_or_before(table[j].key@, value) by {
                        assert(before[j] == table[j]);
                    }
                    assert forall|j: int| r < j < stop implies (#[trigger] table[j]).cells@.len()
                        == 0 by {
                        assert(before[j] == table[j]);
                    }
                    if stop < n {
                        assert(before[stop] == table[stop]);
                        assert(ends_at(table, value, r, stop));
                    } else if table[n].cells@.len() == 0 {
                        assert(ends_at(table, value, r, n + 1));
                    } else {
                        let bad = choose|j: int|
                            0 <= j <= n && !((#[trigger] table[j]).cells@.len() == 0
                                || crate::lookup::at_or_before(table[j].key@, value));
                        assert(bad == n);
                        assert(ends_at(table, value, r, n));
                    }
                },
                None => {
                    assert forall|r: int|
                        #![trigger table[r]]
                        !row_answers(table, value, true, r) by {
                        if row_answers(table, value, true, r) {
                            if r == n {
                                assert(crate::lookup::all_before(table, value, n));
                            } else {
                                let stop = choose|stop: int| ends_at(table, value, r, stop);
                                assert(before[r] == table[r]);
                                assert forall|j: int|
                                    0 <= j <= r && (#[trigger] before[j]).cells@.len()
                                        > 0 implies crate::lookup::at_or_before(
                                    before[j].key@,
                                    value,
                                ) by {
                                    assert(before[j] == table[j]);
                                }
                                let s = if stop < n {
                                    stop
                                } else {
                                    n
                                };
                                assert forall|j: int| r < j < s implies (
                                #[trigger] before[j]).cells@.len() == 0 by {
                                    assert(before[j] == table[j]);
                                }
                                assert(ends_at(before, value, r, s));
                                assert(row_answers(before, value, true, r));
                            }
                        }
                    }
                },
            }
        }
    }
}

/// One row at most answers.
proof fn lemma_one_row_answers<T>(
    table: Seq<TableRow<T>>,
    value: CellView,
    range_lookup: bool,
    r: int,
    s: int,
)
    requires
        row_answers(table, value, range_lookup, r),
        row_answers(table, value, range_lookup, s),
    ensures
        r == s,
{
    if range_lookup {
        let a = choose|stop: int| ends_at(table, value, r, stop);
        let b = choose|stop: int| ends_at(table, value, s, stop);
        if r < s {
            assert(a <= s) by {
                if s < a {
                    assert(table[s].cells@.len() == 0);
                }
            }
            assert(crate::lookup::at_or_before(table[a].key@, value));
        } else if s < r {
            assert(b <= r) by {
                if r < b {
                    assert(table[r].cells@.len() == 0);
                }
            }
            assert(crate::lookup::at_or_before(table[b].key@, value));
        }
    }
}

/// VLOOKUP for many values gives the cell in the column asked for of the row that answers each, and the
/// replacement for a value that no row answers; without one, that is an error.
pub proof fn law_vlookup_many<T>(
    values: Seq<CellView>,
    table: Seq<TableRow<T>>,
    col_index: usize,
    range_lookup: bool,
    if_not_found: Option<T>,
)
    requires
        table.len() <= usize::MAX,
    ensures
        col_index == 0 ==> crate::lookup::vlookup_many(
            values,
            table,
            col_index,
            range_lookup,
            if_not_found,
        ) == Err::<Seq<T>, ErrorView>(ErrorView::ColumnZero),
        col_index > 0 ==> match crate::lookup::vlookup_many(
            values,
            table,
            col_index,
            range_lookup,
            if_not_found,
        ) {
            Ok(v) => vlooked_up(values, table, col_index, range_lookup, if_not_found, v),
            Err(e) => exists|k: int|
                0 <= k < values.len() && fails_with(
                    table,
                    #[trigger] values[k],
                    col_index,
                    range_lookup,
                    if_not_found,
                    e,
                ),
        },
{
    if col_index > 0 {
        let results = Seq::new(
            values.len(),
            |k: int|
                crate::laws::vlookup_or(table, values[k], col_index, range_lookup, if_not_found),
        );
        crate::laws::law_vlookup_many_collects(
            values,
            table,
            col_index,
            range_lookup,
            if_not_found,
        );
        assert(crate::lookup::vlookup_many(values, table, col_index, range_lookup, if_not_found)
            == crate::lookup::collected(results));
        law_collected(results);
        match crate::lookup::collected(results) {
            Ok(v) => {
                assert forall|k: int, r: int|
                    0 <= k < v.len() && #[trigger] row_answers(
                        table,
                        values[k],
                        range_lookup,
                        r,
                    ) implies col_index <= table[r].cells@.len() && v[k]
                    == table[r].cells@[col_index - 1] by {
                    law_vlookup(table, values[k], col_index, range_lookup);
                    assert(results[k] == Ok::<T, ErrorView>(v[k]));
                }
                assert forall|k: int|
                    0 <= k < v.len() && unanswered(
                        table,
                        values[k],
                        range_lookup,
                    ) implies if_not_found == Some(#[trigger] v[k]) by {
                    law_vlookup(table, values[k], col_index, range_lookup);
                    assert(results[k] == Ok::<T, ErrorView>(v[k]));
                }
            },
            Err(e) => {
                let k = choose|k: int|
                    0 <= k < results.len() && #[trigger] results[k] == Err::<T, ErrorView>(e) && (
                    forall|j: int| 0 <= j < k ==> (#[trigger] results[j]) is Ok);
                law_vlookup(table, values[k], col_index, range_lookup);
                lemma_found_row_answers(table, values[k], range_lookup);
                if let Some(f) = crate::lookup::found_row(table, values[k], range_lookup) {
                    assert(table[f as int].cells@.len() > 0);
                }
                assert(fails_with(
                    table,
                    values[k],
                    col_index,
                    range_lookup,
                    if_not_found,
                    e,
                ));
            },
        }
    }
}

/// Whether each value has the cell in the column asked for, counted from 1, of the row that answers it,
/// and the replacement where no row does.
pub open spec fn vlooked_up<T>(
    values: Seq<CellView>,
    table: Seq<TableRow<T>>,
    col_index: usize,
    range_lookup: bool,
    if_not_found: Option<T>,
    found: Seq<T>,
) -> bool {
    &&& found.len() == values.len()
    &&& forall|k: int, r: int|
        0 <= k < found.len() && #[trigger] row_answers(table, values[k], range_lookup, r) ==> 1
            <= col_index <= table[r].cells@.len() && found[k] == table[r].cells@[col_index - 1]
    &&& forall|k: int|
        0 <= k < found.len() && unanswered(table, values[k], range_lookup) ==> if_not_found == Some(
            #[trigger] found[k],
        )
}

/// Whether no row answers a VLOOKUP.
pub open spec fn unanswered<T>(
    table: Seq<TableRow<T>>,
    value: CellView,
    range_lookup: bool,
) -> bool {
    forall|r: int| #![trigger table[r]] !row_answers(table, value, range_lookup, r)
}

/// Whether a value cannot be looked up, and why: the column is beyond the row that answers, or no row
/// answers and nothing stands for it.
pub open spec fn fails_with<T>(
    table: Seq<TableRow<T>>,
    value: CellView,
    col_index: usize,
    range_lookup: bool,
    if_not_found: Option<T>,
    e: ErrorView,
) -> bool {
    ||| e == ErrorView::ColumnBeyondRow && exists|r: int|
        row_answers(table, value, range_lookup, r) && (#[trigger] table[r]).cells@.len() < col_index
    ||| e == (if range_lookup {
        ErrorView::NoApproximateMatch
    } else {
        ErrorView::NotFound(Formula::Vlookup)
    }) && if_not_found is None && unanswered(table, value, range_lookup)
}

/// A key comes at or before a value of the same kind alone: a number that is not greater, or a text
/// that does not come after it, whatever their letter case.
pub proof fn law_at_or_before(key: CellView, value: CellView)
    ensures
        match (key, value) {
            (CellView::Num(k), CellView::Num(v)) => k.finite() && v.finite() ==> (
            crate::lookup::at_or_before(key, value) <==> k.exact() <= v.exact()),
            (CellView::Text(k), CellView::Text(v)) => crate::lookup::at_or_before(key, value) <==> (
            crate::text::same_text(k, v) || crate::text::text_before(
                crate::text::lowercase(k),
                crate::text::lowercase(v),
            )),
            _ => !crate::lookup::at_or_before(key, value),
        },
{
    match (key, value) {
        (CellView::Num(k), CellView::Num(v)) => {
            if k.finite() && v.finite() {
                crate::number::law_order_is_by_value(k, v);
            }
        },
        (CellView::Text(k), CellView::Text(v)) => {
            let (a, b) = (crate::text::lowercase(k), crate::text::lowercase(v));
            crate::text::law_text_order(a, b, a);
            crate::text::law_text_order(b, a, b);
        },
        _ => {},
    }
}

/// Cells are equal where both are numbers without a noticeable difference, texts that differ in
/// letter case alone, or blank; a number is equal to no text, and nothing to a blank but a blank.
pub proof fn law_equal_cells(a: CellView, b: CellView)
    ensures
        match (a, b) {
            (CellView::Num(x), CellView::Num(y)) => {
                &&& x.finite() && y.finite() && x.exact() == y.exact() ==> a.equals(b)
                &&& x.finite() && y.finite() && x.distance(y) >= Number::of(
                    crate::number::TOLERANCE as int,
                ).size() ==> !a.equals(b)
                &&& a.equals(b) ==> b.equals(a)
            },
            (CellView::Text(x), CellView::Text(y)) => a.equals(b) <==> crate::text::lowercase(x)
                == crate::text::lowercase(y),
            (CellView::Empty, CellView::Empty) => a.equals(b),
            _ => !a.equals(b),
        },
{
    if let (CellView::Num(x), CellView::Num(y)) = (a, b) {
        crate::laws::law_near_is_symmetric(x, y);
        lemma_below_tolerance();
    }
}

proof fn lemma_below_tolerance()
    ensures
        0 <= Number::of(crate::number::TOLERANCE - 1).size() < Number::of(
            crate::number::TOLERANCE as int,
        ).size(),
{
    let a = Number::of(crate::number::TOLERANCE - 1);
    let b = Number::of(crate::number::TOLERANCE as int);
    crate::number::lemma_size_of_zero(a);
    crate::number::lemma_size_increases(a, b);
}

/// Whether a row is the first whose key equals a value.
pub open spec fn first_equal(keys: Seq<CellView>, value: CellView, r: int) -> bool {
    &&& 0 <= r < keys.len()
    &&& value.equals(keys[r])
    &&& forall|j: int| 0 <= j < r ==> !value.equals(#[trigger] keys[j])
}

/// Whether no key equals a value.
pub open spec fn none_equal(keys: Seq<CellView>, value: CellView) -> bool {
    forall|j: int| 0 <= j < keys.len() ==> !value.equals(#[trigger] keys[j])
}

/// The row that is found for a value is the first whose key equals it.
pub proof fn law_found_rows(values: Seq<CellView>, keys: Seq<CellView>, k: int)
    requires
        keys.len() <= usize::MAX,
        0 <= k < values.len(),
    ensures
        crate::lookup::found_rows(values, keys).len() == values.len(),
        match crate::lookup::found_rows(values, keys)[k] {
            Some(r) => first_equal(keys, values[k], r as int),
            None => none_equal(keys, values[k]),
        },
{
    let hits = crate::lookup::equal_keys(keys, values[k]);
    crate::lookup::law_first_hit(hits);
    match crate::lookup::first_hit(hits) {
        Some(r) => {
            assert forall|j: int| 0 <= j < r implies !values[k].equals(#[trigger] keys[j]) by {
                assert(!hits[j]);
            }
        },
        None => {
            assert forall|j: int| 0 <= j < keys.len() implies !values[k].equals(
                #[trigger] keys[j],
            ) by {
                assert(!hits[j]);
            }
        },
    }
}

/// Whether a result is what stands in the row of the first key that equals a value, and where there is
/// none the replacement, or an error without one.
pub open spec fn xlooked_up<T>(
    value: CellView,
    keys: Seq<CellView>,
    values: Seq<T>,
    if_not_found: Option<T>,
    result: Result<T, ErrorView>,
) -> bool {
    &&& forall|r: int| #[trigger]
        first_equal(keys, value, r) ==> result == Ok::<T, ErrorView>(values[r])
    &&& none_equal(keys, value) ==> result == (match if_not_found {
        Some(v) => Ok::<T, ErrorView>(v),
        None => Err(ErrorView::NotFound(Formula::Xlookup)),
    })
}

/// Whether each value has what stands in the row of the first key that equals it, and the replacement
/// where there is none.
pub open spec fn all_xlooked_up<T>(
    wanted: Seq<CellView>,
    keys: Seq<CellView>,
    values: Seq<T>,
    if_not_found: Option<T>,
    found: Seq<T>,
) -> bool {
    &&& found.len() == wanted.len()
    &&& forall|k: int, r: int|
        0 <= k < found.len() && #[trigger] first_equal(keys, wanted[k], r) ==> found[k] == values[r]
    &&& forall|k: int|
        0 <= k < found.len() && none_equal(keys, wanted[k]) ==> if_not_found == Some(
            #[trigger] found[k],
        )
}

/// XLOOKUP gives what stands in the row of the first key that equals the value; where there is none,
/// the replacement, and without one an error. Keys and values of different lengths are an error.
pub proof fn law_xlookup<T>(
    value: CellView,
    keys: Seq<CellView>,
    values: Seq<T>,
    if_not_found: Option<T>,
)
    requires
        keys.len() <= usize::MAX,
    ensures
        keys.len() != values.len() ==> crate::lookup::xlookup(value, keys, values, if_not_found)
            == Err::<T, ErrorView>(ErrorView::ReturnLength(Formula::Xlookup)),
        keys.len() == values.len() ==> xlooked_up(
            value,
            keys,
            values,
            if_not_found,
            crate::lookup::xlookup(value, keys, values, if_not_found),
        ),
{
    law_found_rows(seq![value], keys, 0);
    if let Some(f) = crate::lookup::found_rows(seq![value], keys)[0] {
        assert(value.equals(keys[f as int]));
        assert forall|r: int| #[trigger] first_equal(keys, value, r) implies r == f by {
            if r < f {
                assert(!value.equals(keys[r]));
            } else if f < r {
                assert(!value.equals(keys[f as int]));
            }
        }
    } else {
        assert forall|r: int| !(#[trigger] first_equal(keys, value, r)) by {}
    }
}

/// XLOOKUP for many values gives, for each, what stands in the row of the first key that equals it, and
/// the replacement where there is none; without one, that is an error, and so are keys and values of
/// different lengths.
pub proof fn law_xlookup_many<T>(
    wanted: Seq<CellView>,
    keys: Seq<CellView>,
    values: Seq<T>,
    if_not_found: Option<T>,
)
    requires
        keys.len() <= usize::MAX,
    ensures
        match crate::lookup::xlookup_all(wanted, keys, values, if_not_found) {
            Ok(v) => keys.len() == values.len() && all_xlooked_up(
                wanted,
                keys,
                values,
                if_not_found,
                v,
            ),
            Err(e) => {
                ||| keys.len() != values.len() && e == ErrorView::ReturnLength(Formula::Xlookup)
                ||| keys.len() == values.len() && if_not_found is None && e == ErrorView::NotFound(
                    Formula::Xlookup,
                ) && exists|k: int| 0 <= k < wanted.len() && none_equal(keys, #[trigger] wanted[k])
            },
        },
{
    if keys.len() == values.len() {
        let results = Seq::new(
            wanted.len(),
            |k: int| crate::lookup::xlookup(wanted[k], keys, values, if_not_found),
        );
        crate::laws::law_xlookup_many_collects(wanted, keys, values, if_not_found);
        law_collected(results);
        match crate::lookup::collected(results) {
            Ok(v) => {
                assert forall|k: int, r: int|
                    0 <= k < v.len() && #[trigger] first_equal(keys, wanted[k], r) implies v[k]
                    == values[r] by {
                    law_xlookup(wanted[k], keys, values, if_not_found);
                    assert(results[k] == Ok::<T, ErrorView>(v[k]));
                }
                assert forall|k: int|
                    0 <= k < v.len() && none_equal(keys, wanted[k]) implies if_not_found == Some(
                    #[trigger] v[k],
                ) by {
                    law_xlookup(wanted[k], keys, values, if_not_found);
                    assert(results[k] == Ok::<T, ErrorView>(v[k]));
                }
            },
            Err(e) => {
                let k = choose|k: int|
                    0 <= k < results.len() && #[trigger] results[k] == Err::<T, ErrorView>(e) && (
                    forall|j: int| 0 <= j < k ==> (#[trigger] results[j]) is Ok);
                law_xlookup(wanted[k], keys, values, if_not_found);
                law_found_rows(wanted, keys, k);
                if let Some(r) = crate::lookup::found_rows(wanted, keys)[k] {
                    assert(wanted[k].equals(keys[r as int]));
                }
                assert(none_equal(keys, wanted[k]));
            },
        }
    }
}

/// Many results are all there in their places, or the first error is.
pub proof fn law_collected<T>(results: Seq<Result<T, ErrorView>>)
    ensures
        match crate::lookup::collected(results) {
            Ok(v) => v.len() == results.len() && forall|k: int|
                0 <= k < results.len() ==> #[trigger] results[k] == Ok::<T, ErrorView>(v[k]),
            Err(e) => exists|k: int|
                0 <= k < results.len() && #[trigger] results[k] == Err::<T, ErrorView>(e) && (
                forall|j: int| 0 <= j < k ==> (#[trigger] results[j]) is Ok),
        },
    decreases results.len(),
{
    if results.len() > 0 {
        let before = results.drop_last();
        let n = results.len() - 1;
        law_collected(before);
        assert forall|j: int| 0 <= j < n implies before[j] == #[trigger] results[j] by {}
        match crate::lookup::collected(before) {
            Ok(b) => {
                assert forall|j: int| 0 <= j < n implies (#[trigger] results[j]) is Ok by {
                    assert(before[j] == results[j]);
                }
                if let Ok(v) = crate::lookup::collected(results) {
                    assert forall|k: int| 0 <= k < results.len() implies #[trigger] results[k]
                        == Ok::<T, ErrorView>(v[k]) by {
                        if k < n {
                            assert(before[k] == results[k]);
                        }
                    }
                } else {
                    assert(results[n] == results.last());
                }
            },
            Err(e) => {
                let k = choose|k: int|
                    0 <= k < before.len() && #[trigger] before[k] == Err::<T, ErrorView>(e) && (
                    forall|j: int| 0 <= j < k ==> (#[trigger] before[j]) is Ok);
                assert(results[k] == Err::<T, ErrorView>(e));
                assert forall|j: int| 0 <= j < k implies (#[trigger] results[j]) is Ok by {
                    assert(before[j] is Ok);
                }
            },
        }
    }
}

/// What is handed back from a row is the value that stands there, unchanged: a text character for
/// character, a number bit for bit, an integer as it is, and of other values the value itself. What
/// is missing or not a number gives nothing.
pub proof fn law_objects_are_the_values(column: FastColumn, i: int)
    requires
        0 <= i < column.size() <= usize::MAX,
    ensures
        column matches FastColumn::Numeric(v) ==> column.object(i) == (if v@[i].nan() {
            ObjectView::Nothing
        } else {
            ObjectView::Float(v@[i])
        }),
        column matches FastColumn::NumericI64(v) ==> column.object(i) == ObjectView::Int(v@[i]),
        column matches FastColumn::Text(v) ==> column.object(i) == ObjectView::Text(v@[i]@),
        column matches FastColumn::NativeText(v) ==> column.object(i) == (match v@[i] {
            Some(s) => ObjectView::Text(s@),
            None => ObjectView::Nothing,
        }),
        column matches FastColumn::ArrowText(c) ==> column.object(i) == (match c@[i] {
            Some(s) => ObjectView::Text(s),
            None => ObjectView::Nothing,
        }),
        column matches FastColumn::Generic(v) ==> column.object(i) == ObjectView::Same(i as usize),
{
}

/// A lookup in columns gives, for each value, what is handed back from the row of the first key that
/// equals it, and nothing where there is none and a replacement stands for it. It fails where keys and
/// values differ in length, and where a value without a replacement is not found.
pub proof fn law_columnar_lookup(
    wanted: FastColumn,
    keys: FastColumn,
    values: FastColumn,
    replaced: bool,
)
    requires
        keys.size() <= usize::MAX,
    ensures
        match crate::columnar::columnar(wanted, keys, values, replaced) {
            Ok(v) => {
                &&& keys.size() == values.size()
                &&& v.len() == wanted.size()
                &&& forall|k: int, r: int|
                    #![trigger v[k], values.object(r)]
                    0 <= k < v.len() && first_equal(keys.cells(), wanted.cell(k), r) ==> v[k]
                        == Some(values.object(r))
                &&& forall|k: int|
                    0 <= k < v.len() && none_equal(keys.cells(), wanted.cell(k))
                        ==> replaced && #[trigger] v[k] is None
            },
            Err(e) => {
                ||| keys.size() != values.size() && e == ErrorView::ReturnLength(Formula::Vlookup)
                ||| keys.size() == values.size() && !replaced && e == ErrorView::NotFound(
                    Formula::Vlookup,
                ) && exists|k: int|
                    0 <= k < wanted.size() && none_equal(keys.cells(), #[trigger] wanted.cell(k))
            },
        },
{
    if keys.size() == values.size() {
        let found = crate::lookup::found_rows(wanted.cells(), keys.cells());
        let results = crate::columnar::columnar_cells(found, values, replaced);
        law_collected(results);
        assert forall|k: int| 0 <= k < wanted.size() implies (match #[trigger] found[k] {
            Some(r) => first_equal(keys.cells(), wanted.cell(k), r as int),
            None => none_equal(keys.cells(), wanted.cell(k)),
        }) by {
            law_found_rows(wanted.cells(), keys.cells(), k);
            assert(wanted.cells()[k] == wanted.cell(k));
        }
        match crate::columnar::columnar(wanted, keys, values, replaced) {
            Ok(v) => {
                assert forall|k: int, r: int|
                    #![trigger v[k], values.object(r)]
                    0 <= k < v.len() && first_equal(
                        keys.cells(),
                        wanted.cell(k),
                        r,
                    ) implies v[k] == Some(values.object(r)) by {
                    assert(results[k] == Ok::<Option<ObjectView>, ErrorView>(v[k]));
                    assert(wanted.cell(k).equals(keys.cells()[r]));
                    let f = found[k]->0;
                    if f < r {
                        assert(!wanted.cell(k).equals(keys.cells()[f as int]));
                    } else if r < f {
                        assert(!wanted.cell(k).equals(keys.cells()[r]));
                    }
                }
                assert forall|k: int|
                    0 <= k < v.len() && none_equal(keys.cells(), wanted.cell(k)) implies replaced
                    && #[trigger] v[k] is None by {
                    assert(results[k] == Ok::<Option<ObjectView>, ErrorView>(v[k]));
                    if let Some(f) = found[k] {
                        assert(!wanted.cell(k).equals(keys.cells()[f as int]));
                    }
                }
            },
            Err(e) => {
                let k = choose|k: int|
                    0 <= k < results.len() && #[trigger] results[k] == Err::<
                        Option<ObjectView>,
                        ErrorView,
                    >(e) && (forall|j: int| 0 <= j < k ==> (#[trigger] results[j]) is Ok);
                assert(found[k] is None);
                assert(none_equal(keys.cells(), wanted.cell(k)));
            },
        }
    }
}

/// Whether an object is what stands in a row of a column.
pub open spec fn stands_in(column: FastColumn, i: int, o: ObjectView) -> bool {
    match column {
        FastColumn::Numeric(v) => if v@[i].nan() {
            o is Nothing
        } else {
            o == ObjectView::Float(v@[i])
        },
        FastColumn::NumericI64(v) => o == ObjectView::Int(v@[i]),
        FastColumn::Text(v) => o == ObjectView::Text(v@[i]@),
        FastColumn::NativeText(v) => match v@[i] {
            Some(s) => o == ObjectView::Text(s@),
            None => o is Nothing,
        },
        FastColumn::ArrowText(c) => match c@[i] {
            Some(s) => o == ObjectView::Text(s),
            None => o is Nothing,
        },
        FastColumn::Generic(v) => o == ObjectView::Same(i as usize),
    }
}

/// Whether each value has what stands in the row of the first key that equals it, and nothing where
/// there is no such key.
pub open spec fn looked_up(
    wanted: FastColumn,
    keys: FastColumn,
    values: FastColumn,
    found: Seq<Option<ObjectView>>,
) -> bool {
    &&& found.len() == wanted.size()
    &&& forall|k: int, r: int|
        0 <= k < found.len() && #[trigger] first_equal(keys.cells(), wanted.cell(k), r) ==> (
        found[k] matches Some(o) && stands_in(values, r, o))
    &&& forall|k: int|
        0 <= k < found.len() && none_equal(keys.cells(), wanted.cell(k)) ==> #[trigger] found[k]
            is None
}

pub(crate) proof fn lemma_looked_up(
    wanted: FastColumn,
    keys: FastColumn,
    values: FastColumn,
    replaced: bool,
)
    requires
        keys.size() <= usize::MAX,
    ensures
        crate::columnar::columnar(wanted, keys, values, replaced) matches Ok(v) ==> looked_up(
            wanted,
            keys,
            values,
            v,
        ),
{
    law_columnar_lookup(wanted, keys, values, replaced);
    if let Ok(v) = crate::columnar::columnar(wanted, keys, values, replaced) {
        assert forall|k: int, r: int|
            0 <= k < v.len() && #[trigger] first_equal(keys.cells(), wanted.cell(k), r) implies (
        v[k] matches Some(o) && stands_in(values, r, o)) by {
            law_objects_are_the_values(values, r);
            assert(v[k] == Some(values.object(r)));
        }
    }
}

}
