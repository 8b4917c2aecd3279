//! What holds between the formulas.
use vstd::prelude::*;
use vstd::string::*;
use crate::cell::{CellView, RawValue};
use crate::column::FastColumn;
use crate::criteria::{CriteriaView, Op};
use crate::error::{ErrorView, Formula};
use crate::lookup::TableRow;
use crate::mixed::MixedPair;
use crate::number::Number;

verus! {

/// Numbers are near each other both ways, and every finite number is near itself.
pub proof fn law_near_is_symmetric(a: Number, b: Number)
    ensures
        a.near(b) <==> b.near(a),
        a.finite() ==> a.near(a),
{
    crate::number::lemma_tolerance_is_positive();
}

/// Letter case does not matter, neither in the cell nor in the criterion.
pub proof fn law_case_does_not_matter(
    op: Op,
    cell: Seq<char>,
    cell2: Seq<char>,
    text: Seq<char>,
    text2: Seq<char>,
)
    requires
        crate::text::same_text(cell, cell2),
        crate::text::same_text(text, text2),
    ensures
        crate::criteria::criterion(op, CellView::Text(text)).holds(CellView::Text(cell))
            == crate::criteria::criterion(op, CellView::Text(text2)).holds(CellView::Text(cell2)),
        crate::criteria::pattern(op, text).holds(CellView::Text(cell)) == crate::criteria::pattern(
            op,
            text2,
        ).holds(CellView::Text(cell2)),
{
}

/// A cell is unequal to a value exactly where it is not equal to it, unless both are numbers without
/// a difference: the same infinity, or not numbers.
pub proof fn law_unequal_is_not_equal(value: CellView, cell: CellView)
    requires
        value matches CellView::Num(c) ==> (cell matches CellView::Num(v) ==> !v.no_difference(c)),
    ensures
        crate::criteria::criterion(Op::Ne, value).holds(cell) <==> !crate::criteria::criterion(
            Op::Eq,
            value,
        ).holds(cell),
{
}

/// A text does not match a pattern exactly where it is unequal to it; what is no text does neither.
pub proof fn law_patterns(text: Seq<char>, cell: CellView)
    ensures
        cell is Text ==> (crate::criteria::pattern(Op::Ne, text).holds(cell)
            <==> !crate::criteria::pattern(Op::Eq, text).holds(cell)),
        !(cell is Text) ==> !crate::criteria::pattern(Op::Ne, text).holds(cell)
            && !crate::criteria::pattern(Op::Eq, text).holds(cell),
{
}

/// Of two numbers, or of two texts, one is greater exactly where it is not at most the other, and
/// less exactly where it is not at least the other.
pub proof fn law_order_comparisons(value: CellView, cell: CellView)
    requires
        match (value, cell) {
            (CellView::Num(c), CellView::Num(v)) => !c.nan() && !v.nan(),
            (CellView::Text(_), CellView::Text(_)) => true,
            _ => false,
        },
    ensures
        crate::criteria::criterion(Op::Gt, value).holds(cell) <==> !crate::criteria::criterion(
            Op::Le,
            value,
        ).holds(cell),
        crate::criteria::criterion(Op::Lt, value).holds(cell) <==> !crate::criteria::criterion(
            Op::Ge,
            value,
        ).holds(cell),
{
}

/// A blank criterion is satisfied by blank cells alone.
pub proof fn law_blank_matches_blank(cell: CellView)
    ensures
        crate::criteria::criterion(Op::Eq, CellView::Empty).holds(cell) <==> cell is Empty,
{
}

/// A bare text means equality: it stands for what it stands for with `=` before it. The text has no
/// comparison of its own, and no white space at the ends unless it is a decimal number.
pub proof fn law_bare_text_is_equality(s: Seq<char>)
    requires
        crate::criteria::operator(s) is None,
        crate::text::trimmed(s) == s || (crate::text::decimal(
            crate::text::unsigned(crate::text::trimmed(s)),
        ) && !crate::criteria::has_wildcard(s)),
    ensures
        CellView::Text(s).meaning() == CellView::Text(seq!['='] + s).meaning(),
{
    let t = seq!['='] + s;
    assert(t[0] == '=');
    assert(crate::criteria::operator(t) == Some(Op::Eq));
    assert(t.skip(1) =~= s);
    if crate::text::number_literal(s) {
        crate::text::lemma_number_has_no_wildcard(s);
    }
}

/// A bare text that is no decimal number and has no comparison and no wildcard of its own means
/// equality with it: a cell with the same text satisfies it, and so does no number.
pub proof fn law_bare_text_finds_itself(s: Seq<char>, cell: CellView)
    requires
        crate::criteria::operator(s) is None,
        !crate::criteria::has_wildcard(s),
        !crate::text::decimal(crate::text::unsigned(crate::text::trimmed(s))),
    ensures
        CellView::Text(s).meaning() == Ok::<CriteriaView, ErrorView>(
            crate::criteria::criterion(Op::Eq, CellView::Text(s)),
        ),
        crate::criteria::criterion(Op::Eq, CellView::Text(s)).holds(cell) <==> (
        cell matches CellView::Text(t) && crate::text::same_text(t, s)),
{
}

/// The keys of cells meet exactly where the cells are equal; so rows found by key are those of a scan.
pub proof fn law_keys_meet_for_equal_cells(a: CellView, b: CellView)
    ensures
        a.key().meets(b.key()) <==> a.equals(b),
        crate::criteria::criterion(Op::Eq, a).holds(b) <==> a.equals(b),
{
    if let (CellView::Num(x), CellView::Num(y)) = (a, b) {
        law_near_is_symmetric(x, y);
    }
}

/// With one range, COUNTIFS is COUNTIF.
pub proof fn law_countifs_of_one(range: Seq<CellView>, criteria: CellView)
    ensures
        crate::aggregate::countifs(seq![range], seq![criteria]) == crate::aggregate::countif(
            range,
            criteria,
        ),
{
    lemma_one(range, criteria, Formula::CountIfs);
}

/// With one range, SUMIFS is SUMIF with a target of the same length.
pub proof fn law_sumifs_of_one(
    target: Seq<CellView>,
    range: Seq<CellView>,
    criteria: CellView,
)
    requires
        target.len() == range.len(),
    ensures
        crate::aggregate::sumifs(target, seq![range], seq![criteria]) == crate::aggregate::sumif(
            range,
            criteria,
            Some(target),
            Formula::SumIf,
        ),
{
    lemma_one(range, criteria, Formula::SumIfs);
}

proof fn lemma_one(range: Seq<CellView>, criteria: CellView, formula: Formula)
    ensures
        crate::aggregate::selection(seq![range], seq![criteria], range.len(), formula) == (
        match criteria.meaning() {
            Ok(c) => Ok::<Seq<usize>, ErrorView>(
                crate::selection::rows(crate::selection::hits(range, c)),
            ),
            Err(e) => Err(e),
        }),
{
    let rs = seq![range];
    let cs = seq![criteria];
    assert(crate::aggregate::same_length(rs, range.len()));
    assert(crate::criteria::meanings(cs.drop_last()) == Ok::<Seq<CriteriaView>, ErrorView>(
        Seq::empty(),
    ));
    assert(cs.last() == criteria);
    if let Ok(c) = criteria.meaning() {
        let v = Seq::<CriteriaView>::empty().push(c);
        assert(crate::criteria::meanings(cs) == Ok::<Seq<CriteriaView>, ErrorView>(v));
        assert forall|i: int| 0 <= i < range.len() implies crate::selection::row_holds(rs, v, i)
            == c.holds(range[i]) by {
            assert(v[0] == c);
            assert(rs[0] == range);
        }
        assert(crate::selection::all_hits(rs, v, range.len()) =~= crate::selection::hits(range, c));
    }
}

/// SUMIF without a target takes the range itself.
pub proof fn law_sumif_target_is_the_range(
    range: Seq<CellView>,
    criteria: CellView,
    formula: Formula,
)
    ensures
        crate::aggregate::sumif(range, criteria, None, formula) == crate::aggregate::sumif(
            range,
            criteria,
            Some(range),
            formula,
        ),
{
}

/// All criteria have to hold: a row is selected by one pair more exactly where the pairs before
/// select it and its cell in the new range satisfies the new criterion.
pub proof fn law_criteria_are_joined_by_and(
    ranges: Seq<Seq<CellView>>,
    criteria: Seq<CriteriaView>,
    range: Seq<CellView>,
    criterion: CriteriaView,
    n: nat,
    i: int,
)
    requires
        ranges.len() == criteria.len(),
        0 <= i < n,
    ensures
        crate::selection::all_hits(ranges.push(range), criteria.push(criterion), n)[i] <==> (
        crate::selection::all_hits(ranges, criteria, n)[i] && criterion.holds(range[i])),
{
    let rs = ranges.push(range);
    let cs = criteria.push(criterion);
    if crate::selection::row_holds(rs, cs, i) {
        assert(cs[ranges.len() as int].holds(rs[ranges.len() as int][i]));
        assert forall|p: int| 0 <= p < ranges.len() implies (#[trigger] criteria[p]).holds(
            ranges[p][i],
        ) by {
            assert(cs[p].holds(rs[p][i]));
        }
    }
    if crate::selection::row_holds(ranges, criteria, i) && criterion.holds(range[i]) {
        assert forall|p: int| 0 <= p < rs.len() implies (#[trigger] cs[p]).holds(rs[p][i]) by {
            if p < ranges.len() {
                assert(criteria[p].holds(ranges[p][i]));
            }
        }
    }
}

/// A row of the columns of criteria, as given.
pub open spec fn input_row(inputs: Seq<Seq<CellView>>, row: int) -> Seq<CellView> {
    Seq::new(inputs.len(), |p: int| inputs[p][row])
}

/// A row of a batch is what its criteria select by themselves.
pub proof fn law_batch_is_one_by_one(
    ranges: Seq<Seq<CellView>>,
    inputs: Seq<Seq<CellView>>,
    n: nat,
    formula: Formula,
    row: int,
)
    requires
        ranges.len() == inputs.len(),
        crate::batch::batch(ranges, inputs, n, formula) is Ok,
        0 <= row < inputs[0].len(),
    ensures
        crate::aggregate::selection(ranges, input_row(inputs, row), n, formula) == Ok::<
            Seq<usize>,
            ErrorView,
        >(crate::batch::batch(ranges, inputs, n, formula)->Ok_0[row]),
{
    let m = inputs[0].len();
    let columns = crate::batch::columns_meaning(inputs)->Ok_0;
    crate::batch::lemma_lengths(ranges, inputs, n, m, formula);
    crate::batch::lemma_columns(inputs);
    assert(crate::aggregate::same_length(ranges, n));
    let wanted = crate::batch::criteria_row(columns, row);
    assert forall|p: int| 0 <= p < inputs.len() implies (#[trigger] inputs[p][row]).meaning() == Ok::<
        CriteriaView,
        ErrorView,
    >(columns[p][row]) by {
        assert(inputs[p].len() == m);
        crate::criteria::lemma_meanings(inputs[p]);
    }
    lemma_row_meaning(input_row(inputs, row), wanted);
}

/// Criteria that stand for criteria each do so together.
proof fn lemma_row_meaning(inputs: Seq<CellView>, criteria: Seq<CriteriaView>)
    requires
        inputs.len() == criteria.len(),
        forall|p: int|
            0 <= p < inputs.len() ==> (#[trigger] inputs[p]).meaning() == Ok::<
                CriteriaView,
                ErrorView,
            >(criteria[p]),
    ensures
        crate::criteria::meanings(inputs) == Ok::<Seq<CriteriaView>, ErrorView>(criteria),
    decreases inputs.len(),
{
    if inputs.len() > 0 {
        let before = inputs.drop_last();
        assert forall|p: int| 0 <= p < before.len() implies (#[trigger] before[p]).meaning() == Ok::<
            CriteriaView,
            ErrorView,
        >(criteria.drop_last()[p]) by {
            assert(before[p] == inputs[p]);
        }
        lemma_row_meaning(before, criteria.drop_last());
        assert(inputs.last() == inputs[inputs.len() - 1]);
        assert(criteria.drop_last().push(criteria.last()) =~= criteria);
    } else {
        assert(criteria =~= Seq::empty());
    }
}

/// LOOKUPIFS finds the rows that COUNTIFS counts.
pub proof fn law_lookupifs_are_counted(
    ranges: Seq<Seq<CellView>>,
    inputs: Seq<Seq<CellView>>,
    n: nat,
)
    requires
        crate::batch::batch(ranges, inputs, n, Formula::LookupIfs) is Ok,
        ranges.len() == inputs.len(),
    ensures
        crate::batch::counts(
            crate::batch::batch(ranges, inputs, n, Formula::CountIfs),
        ) == crate::batch::counts(
            crate::batch::batch(ranges, inputs, n, Formula::LookupIfs),
        ),
{
    lemma_same_length_error(
        ranges,
        inputs,
        n,
        inputs[0].len(),
        Formula::LookupIfs,
        Formula::CountIfs,
    );
}

proof fn lemma_same_length_error(
    ranges: Seq<Seq<CellView>>,
    inputs: Seq<Seq<CellView>>,
    n: nat,
    m: nat,
    f: Formula,
    g: Formula,
)
    ensures
        crate::batch::length_error(ranges, inputs, n, m, f) is None
            <==> crate::batch::length_error(ranges, inputs, n, m, g) is None,
    decreases ranges.len(),
{
    if ranges.len() > 0 {
        lemma_same_length_error(ranges.drop_last(), inputs.drop_last(), n, m, f, g);
    }
}

/// Blank cells are found by blank values, one by one and among many.
pub proof fn law_blank_finds_blank(cell: CellView)
    ensures
        CellView::Empty.equals(cell) <==> cell is Empty,
        CellView::Empty.key().meets(cell.key()) <==> cell is Empty,
{
}

/// Whether the key of a row comes at or before a value; a row without cells has none.
pub open spec fn row_before<T>(row: TableRow<T>, value: CellView) -> bool {
    row.cells@.len() > 0 && crate::lookup::at_or_before(row.key@, value)
}

/// In a table whose keys ascend, an approximate VLOOKUP takes the last row whose key comes at or
/// before the value.
pub proof fn law_approximate_row_in_ascending_table<T>(table: Seq<TableRow<T>>, value: CellView)
    requires
        table.len() <= usize::MAX,
        forall|i: int, j: int|
            0 <= i < j < table.len() && row_before(#[trigger] table[j], value) && (
            #[trigger] table[i]).cells@.len() > 0 ==> row_before(table[i], value),
    ensures
        match crate::lookup::approximate_row(table, value) {
            Some(r) => r < table.len() && row_before(table[r as int], value) && forall|j: int|
                r < j < table.len() ==> !row_before(#[trigger] table[j], value),
            None => forall|j: int| 0 <= j < table.len() ==> !row_before(#[trigger] table[j], value),
        },
    decreases table.len(),
{
    if table.len() > 0 {
        let n = table.len() - 1;
        let before = table.drop_last();
        if row_before(table[n], value) {
            assert forall|j: int| 0 <= j <= n implies (#[trigger] table[j]).cells@.len() == 0
                || crate::lookup::at_or_before(table[j].key@, value) by {
                if j < n && table[j].cells@.len() > 0 {
                    assert(row_before(table[n], value));
                    assert(row_before(table[j], value));
                }
            }
            assert(crate::lookup::all_before(table, value, n));
        } else {
            if table[n].cells@.len() > 0 && crate::lookup::all_before(table, value, n) {
                assert(table[n].cells@.len() == 0 || crate::lookup::at_or_before(
                    table[n].key@,
                    value,
                ));
            }
            assert forall|i: int| 0 <= i < before.len() implies before[i] == #[trigger] table[i] by {}
            law_approximate_row_in_ascending_table(before, value);
        }
    }
}

/// Whether a column's mask decides a row as its cell does: not where an array's number is to be
/// unequal to one that it has no difference from, such as the same infinity.
pub open spec fn mask_decides(column: FastColumn, criterion: CriteriaView, i: int) -> bool {
    match (criterion.value, column.array_number(i)) {
        (CellView::Num(c), Some(v)) => criterion.op == Op::Ne && !v.nan() ==> !v.no_difference(c),
        _ => true,
    }
}

/// The mask of a column tells what its cells do, in whatever form it comes.
pub proof fn law_mask_is_by_cells(column: FastColumn, criterion: CriteriaView)
    requires
        forall|i: int| 0 <= i < column.size() ==> #[trigger] mask_decides(column, criterion, i),
    ensures
        column.mask(criterion) == crate::selection::hits(column.cells(), criterion),
{
    let a = column.mask(criterion);
    let b = crate::selection::hits(column.cells(), criterion);
    assert forall|i: int| 0 <= i < column.size() implies #[trigger] a[i] == b[i] by {
        assert(mask_decides(column, criterion, i));
        assert(column.cells()[i] == column.cell(i));
    }
    assert(a =~= b);
}

/// COUNTIF and SUMIF on a column give what they give on its cells.
pub proof fn law_columns_are_as_their_cells(
    range: FastColumn,
    target: FastColumn,
    criteria: CellView,
    formula: Formula,
)
    requires
        criteria.meaning() matches Ok(c) ==> forall|i: int|
            0 <= i < range.size() ==> #[trigger] mask_decides(range, c, i),
    ensures
        crate::mixed::countif(range, criteria) == crate::aggregate::countif(
            range.cells(),
            criteria,
        ),
        crate::mixed::sumif(range, criteria, Some(target), formula) == crate::aggregate::sumif(
            range.cells(),
            criteria,
            Some(target.cells()),
            formula,
        ),
{
    if let Ok(c) = criteria.meaning() {
        law_mask_is_by_cells(range, c);
    }
}

/// The cell in a row is the one which its value makes, in whatever form the column comes; so a
/// formula on columns sees what it sees in a list of values. The key of a row is that of its cell.
pub proof fn law_column_cells_are_those_of_values(column: FastColumn, i: int)
    requires
        0 <= i < column.size(),
    ensures
        column matches FastColumn::Numeric(v) ==> column.cell(i) == RawValue::Float(v@[i]).cell(),
        column matches FastColumn::NumericI64(v) ==> forall|n: Number| #[trigger]
            n.nearest_to_integer(v@[i] as int) ==> column.cell(i) == CellView::Num(n),
        column matches FastColumn::Text(v) ==> column.cell(i) == RawValue::Str(v@[i]).cell(),
        column matches FastColumn::NativeText(v) ==> column.cell(i) == match v@[i] {
            Some(s) => RawValue::Str(s).cell(),
            None => RawValue::Nothing.cell(),
        },
        column matches FastColumn::Generic(v) ==> column.cell(i) == v@[i].cell(),
        column.key(i) == column.cell(i).key(),
{
    if let FastColumn::NumericI64(v) = column {
        assert forall|n: Number| #[trigger] n.nearest_to_integer(v@[i] as int) implies column.cell(i)
            == CellView::Num(n) by {
            crate::number::law_of_integer(n, v@[i] as int);
            crate::number::lemma_integer_is_number(v@[i] as int, n);
        }
    }
}

/// A lookup in columns finds the rows that a lookup in cells with the same keys finds.
pub proof fn law_columnar_lookup_is_by_cells(
    wanted: FastColumn,
    keys: FastColumn,
    wanted_cells: Seq<CellView>,
    key_cells: Seq<CellView>,
)
    requires
        wanted_cells.len() == wanted.size(),
        key_cells.len() == keys.size(),
        forall|i: int|
            0 <= i < wanted.size() ==> wanted.key(i) == (#[trigger] wanted_cells[i]).key(),
        forall|i: int| 0 <= i < keys.size() ==> keys.key(i) == (#[trigger] key_cells[i]).key(),
    ensures
        crate::lookup::found_rows(wanted.cells(), keys.cells())
            == crate::lookup::found_rows(wanted_cells, key_cells),
{
    let a = crate::lookup::found_rows(wanted.cells(), keys.cells());
    let b = crate::lookup::found_rows(wanted_cells, key_cells);
    assert forall|k: int| 0 <= k < wanted.size() implies #[trigger] a[k] == b[k] by {
        let x = crate::lookup::equal_keys(keys.cells(), wanted.cells()[k]);
        let y = crate::lookup::equal_keys(key_cells, wanted_cells[k]);
        assert forall|i: int| 0 <= i < keys.size() implies #[trigger] x[i] == y[i] by {
            assert(wanted.key(k) == wanted_cells[k].key());
            assert(keys.key(i) == key_cells[i].key());
            law_keys_meet_for_equal_cells(wanted.cell(k), keys.cell(i));
            law_keys_meet_for_equal_cells(wanted_cells[k], key_cells[i]);
        }
        assert(x =~= y);
    }
    assert(a =~= b);
}

/// What VLOOKUP gives, with a replacement for a value that is not found.
pub open spec fn vlookup_or<T>(
    table: Seq<TableRow<T>>,
    value: CellView,
    col_index: usize,
    range_lookup: bool,
    if_not_found: Option<T>,
) -> Result<T, ErrorView> {
    match (crate::lookup::vlookup(table, value, col_index, range_lookup), if_not_found) {
        (Err(ErrorView::NotFound(_)), Some(v)) => Ok(v),
        (Err(ErrorView::NoApproximateMatch), Some(v)) => Ok(v),
        (r, _) => r,
    }
}

/// VLOOKUP for many values gives what VLOOKUP gives for each, or the first error; a value that is not
/// found gives the replacement, where there is one.
pub proof fn law_vlookup_many_collects<T>(
    values: Seq<CellView>,
    table: Seq<TableRow<T>>,
    col_index: usize,
    range_lookup: bool,
    if_not_found: Option<T>,
)
    requires
        col_index > 0,
    ensures
        crate::lookup::vlookup_many(values, table, col_index, range_lookup, if_not_found)
            == crate::lookup::collected(
            Seq::new(
                values.len(),
                |k: int| vlookup_or(table, values[k], col_index, range_lookup, if_not_found),
            ),
        ),
{
    let a = Seq::new(
        values.len(),
        |i: int|
            crate::lookup::vlookup_cell(
                table,
                crate::lookup::found_row(table, values[i], range_lookup),
                col_index,
                range_lookup,
                if_not_found,
            ),
    );
    let b = Seq::new(
        values.len(),
        |k: int| vlookup_or(table, values[k], col_index, range_lookup, if_not_found),
    );
    assert(a =~= b);
}

/// XLOOKUP for many values gives what XLOOKUP gives for each, or the first error.
pub proof fn law_xlookup_many_collects<T>(
    wanted: Seq<CellView>,
    keys: Seq<CellView>,
    values: Seq<T>,
    if_not_found: Option<T>,
)
    requires
        keys.len() == values.len(),
    ensures
        crate::lookup::xlookup_all(wanted, keys, values, if_not_found) == crate::lookup::collected(
            Seq::new(
                wanted.len(),
                |k: int| crate::lookup::xlookup(wanted[k], keys, values, if_not_found),
            ),
        ),
{
    let found = crate::lookup::found_rows(wanted, keys);
    let a = Seq::new(
        found.len(),
        |i: int|
            crate::lookup::xlookup_cell(found[i], values, if_not_found, Formula::Xlookup),
    );
    let b = Seq::new(
        wanted.len(),
        |k: int| crate::lookup::xlookup(wanted[k], keys, values, if_not_found),
    );
    assert(a =~= b);
}

/// COUNTIF, SUMIF and AVERAGEIF for many criteria give what they give for each. Where AVERAGEIF has
/// nothing to take the mean of, its row is empty.
pub proof fn law_lists_are_one_by_one(
    range: Seq<CellView>,
    criteria: Seq<CellView>,
    target: Seq<CellView>,
    row: int,
)
    requires
        target.len() == range.len(),
        0 <= row < criteria.len(),
        crate::criteria::meanings(criteria) is Ok,
    ensures
        crate::aggregate::countif(range, criteria[row]) == Ok::<usize, ErrorView>(
            crate::batch::counts(
                crate::batch::batch(
                    seq![range],
                    seq![criteria],
                    range.len(),
                    Formula::CountIfs,
                ),
            )->Ok_0[row],
        ),
        crate::aggregate::sumif(range, criteria[row], Some(target), Formula::SumIf) == Ok::<
            Seq<Number>,
            ErrorView,
        >(
            crate::batch::sumif_vec(
                range,
                criteria,
                Some(target),
                Formula::SumIf,
            )->Ok_0[row],
        ),
        crate::batch::means(
            crate::batch::sumif_vec(range, criteria, Some(target), Formula::AverageIf),
        )->Ok_0[row] == match crate::aggregate::averageif(range, criteria[row], Some(target)) {
            Ok(v) => Some(v),
            Err(e) => None,
        },
{
    let rs = seq![range];
    let cs = seq![criteria];
    let n = range.len();
    let c = crate::criteria::meanings(criteria)->Ok_0;
    crate::criteria::lemma_meanings(criteria);
    assert(cs.last() == criteria);
    assert(rs.last() == range);
    assert(crate::batch::columns_meaning(cs.drop_last()) == Ok::<
        Seq<Seq<CriteriaView>>,
        ErrorView,
    >(Seq::empty()));
    let columns = crate::batch::columns_meaning(cs)->Ok_0;
    assert(columns =~= seq![c]);
    assert(crate::batch::criteria_row(columns, row) =~= seq![c[row]]);
    assert(input_row(cs, row) =~= seq![criteria[row]]);
    lemma_single_batch(rs, cs, n, Formula::CountIfs, row);
    lemma_single_batch(rs, cs, n, Formula::SumIf, row);
    lemma_single_batch(rs, cs, n, Formula::AverageIf, row);
    lemma_one(range, criteria[row], Formula::CountIfs);
    lemma_one(range, criteria[row], Formula::SumIf);
    lemma_one(range, criteria[row], Formula::AverageIf);
}

proof fn lemma_single_batch(
    ranges: Seq<Seq<CellView>>,
    inputs: Seq<Seq<CellView>>,
    n: nat,
    formula: Formula,
    row: int,
)
    requires
        ranges.len() == 1,
        inputs.len() == 1,
        ranges[0].len() == n,
        0 <= row < inputs[0].len(),
        crate::batch::columns_meaning(inputs) is Ok,
    ensures
        crate::batch::batch(ranges, inputs, n, formula) is Ok,
        crate::batch::batch(ranges, inputs, n, formula)->Ok_0.len() == inputs[0].len(),
        crate::aggregate::selection(ranges, input_row(inputs, row), n, formula) == Ok::<
            Seq<usize>,
            ErrorView,
        >(crate::batch::batch(ranges, inputs, n, formula)->Ok_0[row]),
{
    assert(crate::batch::length_error(
        ranges.drop_last(),
        inputs.drop_last(),
        n,
        inputs[0].len(),
        formula,
    ) is None);
    law_batch_is_one_by_one(ranges, inputs, n, formula, row);
}

/// The columns of some pairs, cell by cell.
pub open spec fn pair_cells(pairs: Seq<MixedPair>) -> Seq<Seq<CellView>> {
    Seq::new(pairs.len(), |p: int| pairs[p].column.cells())
}

/// Several columns select the rows that their cells select.
pub proof fn law_column_selection_is_by_cells(pairs: Seq<MixedPair>, n: nat, formula: Formula)
    requires
        crate::mixed::same_length(pairs, n),
        crate::criteria::meanings(crate::mixed::inputs(pairs)) matches Ok(c) ==> forall|p: int, i: int|
            0 <= p < pairs.len() && 0 <= i < n ==> #[trigger] mask_decides(
                pairs[p].column,
                c[p],
                i,
            ),
    ensures
        crate::mixed::selection(pairs, n, formula) == crate::aggregate::selection(
            pair_cells(pairs),
            crate::mixed::inputs(pairs),
            n,
            formula,
        ),
{
    let ranges = pair_cells(pairs);
    let inputs = crate::mixed::inputs(pairs);
    assert forall|p: int| 0 <= p < ranges.len() implies (#[trigger] ranges[p]).len() == n by {
        assert(pairs[p].column.size() == n);
    }
    assert(crate::aggregate::same_length(ranges, n));
    if let Ok(c) = crate::criteria::meanings(inputs) {
        crate::criteria::lemma_meanings(inputs);
        let masks = crate::mixed::masks(pairs, c);
        assert forall|p: int| 0 <= p < pairs.len() implies #[trigger] masks[p]
            == crate::selection::hits(ranges[p], c[p]) by {
            assert(pairs[p].column.size() == n);
            assert forall|i: int| 0 <= i < n implies #[trigger] mask_decides(
                pairs[p].column,
                c[p],
                i,
            ) by {}
            law_mask_is_by_cells(pairs[p].column, c[p]);
        }
        if pairs.len() > 0 {
            let a = crate::masks::common(masks, n);
            let b = crate::selection::all_hits(ranges, c, n);
            assert forall|i: int| 0 <= i < n implies #[trigger] a[i] == b[i] by {
                if crate::masks::in_all(masks, i) {
                    assert forall|p: int| 0 <= p < ranges.len() implies (#[trigger] c[p]).holds(
                        ranges[p][i],
                    ) by {
                        assert(masks[p][i]);
                        assert(masks[p] == crate::selection::hits(ranges[p], c[p]));
                        assert(ranges[p].len() == n);
                    }
                }
                if crate::selection::row_holds(ranges, c, i) {
                    assert forall|p: int| 0 <= p < masks.len() implies (#[trigger] masks[p])[i] by {
                        assert(c[p].holds(ranges[p][i]));
                        assert(ranges[p].len() == n);
                    }
                }
            }
            assert(a =~= b);
        }
    }
}

/// The name of a formula is its own.
pub proof fn law_titles_differ(f: Formula, g: Formula)
    ensures
        f.title() == g.title() ==> f == g,
{
    reveal_strlit("MIN");
    reveal_strlit("MAX");
    reveal_strlit("AVERAGE");
    reveal_strlit("SUMIF");
    reveal_strlit("AVERAGEIF");
    reveal_strlit("COUNTIFS");
    reveal_strlit("SUMIFS");
    reveal_strlit("AVERAGEIFS");
    reveal_strlit("MINIFS");
    reveal_strlit("MAXIFS");
    reveal_strlit("LOOKUPIFS");
    reveal_strlit("VLOOKUP");
    reveal_strlit("XLOOKUP");
    assert("MIN"@[1] == 'I' && "MAX"@[1] == 'A');
    assert("AVERAGE"@[0] == 'A' && "VLOOKUP"@[0] == 'V' && "XLOOKUP"@[0] == 'X');
    assert("SUMIFS"@[0] == 'S' && "MINIFS"@[1] == 'I' && "MAXIFS"@[1] == 'A' && "MINIFS"@[0] == 'M'
        && "MAXIFS"@[0] == 'M');
    assert("AVERAGEIF"@[0] == 'A' && "LOOKUPIFS"@[0] == 'L');
    let (a, b) = (f.title(), g.title());
    if a == b {
        assert(a.len() == b.len());
        assert(a[0] == b[0]);
        assert(a[1] == b[1]);
    }
}

/// A message that concerns a formula begins with its name.
pub proof fn law_messages_name_their_formula(f: Formula)
    ensures
        f.title().is_prefix_of(ErrorView::NoNumericValues(f).words()),
        f.title().is_prefix_of(ErrorView::NoMatchingValues(f).words()),
        f.title().is_prefix_of(ErrorView::TargetLength(f).words()),
        f.title().is_prefix_of(ErrorView::NoPairs(f).words()),
        f.title().is_prefix_of(ErrorView::RangeLength(f).words()),
        f.title().is_prefix_of(ErrorView::CriteriaLength(f).words()),
        f.title().is_prefix_of(ErrorView::NotFound(f).words()),
{
}

}
