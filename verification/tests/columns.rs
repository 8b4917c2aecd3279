use arrow::array::{Array, ArrayData, Int64Array, LargeStringArray, StringArray};
use arrow::buffer::Buffer;
use arrow::datatypes::DataType;
use arrow::ffi::{from_ffi, to_ffi, FFI_ArrowSchema};
use magpyxl::aggregate::{countif_values, sumif_values};
use magpyxl::arrow_text::ArrowTextColumn;
use magpyxl::cell::{CellValue, LookupKey, RawValue};
use magpyxl::column::{CellTextRef, ColumnObject, FastColumn};
use magpyxl::columnar::{vlookup_many_columnar, xlookup_many_columnar};
use magpyxl::criteria::parse_criteria;
use magpyxl::error::FormulaError;
use magpyxl::masks::{
    count_all_masks_true, native_text_eq_mask, sum_and_count_where_all_masks_true, sum_where_all_masks_true,
};
use magpyxl::mixed::{
    average_mixed, averageif_mixed, averageifs_mixed, count_mixed, countif_mixed, countifs_mixed, max_mixed,
    maxifs_mixed, min_mixed, minifs_mixed, sum_mixed, sumif_mixed, sumifs_mixed, MixedPair,
};
use magpyxl::number::Number;

fn n(x: f64) -> Number {
    Number { bits: x.to_bits() }
}

fn values(v: &[f64]) -> Vec<Number> {
    v.iter().map(|x| n(*x)).collect()
}

fn crit(s: &str) -> CellValue {
    CellValue::Text(s.to_string())
}

fn floats(v: &[f64]) -> FastColumn {
    FastColumn::Numeric(values(v))
}

fn ints(v: &[i64]) -> FastColumn {
    FastColumn::NumericI64(v.to_vec())
}

fn texts(v: &[&str]) -> FastColumn {
    FastColumn::Text(v.iter().map(|s| s.to_string()).collect())
}

fn native(v: &[Option<&str>]) -> FastColumn {
    FastColumn::NativeText(v.iter().map(|s| s.map(|t| t.to_string())).collect())
}

fn arrow(v: Vec<Option<&str>>) -> FastColumn {
    FastColumn::ArrowText(ArrowTextColumn::from_data(StringArray::from(v).into_data()).unwrap())
}

fn large(v: Vec<Option<&str>>) -> FastColumn {
    FastColumn::ArrowText(ArrowTextColumn::from_data(LargeStringArray::from(v).into_data()).unwrap())
}

fn generic() -> FastColumn {
    FastColumn::Generic(vec![
        RawValue::Str("Apple".to_string()),
        RawValue::Float(n(2.0)),
        RawValue::Nothing,
        RawValue::Bool(true),
        RawValue::Str("  ".to_string()),
        RawValue::Int { number: Some(n(7.0)), text: Some("7".to_string()) },
    ])
}

fn mask(c: &FastColumn, s: &str) -> Vec<bool> {
    c.build_mask(&parse_criteria(&crit(s)).unwrap(), c.len())
}

fn pair(column: FastColumn, s: &str) -> MixedPair {
    MixedPair { column, criteria: crit(s) }
}

#[test]
fn arrow_arrays_are_read() {
    for c in [arrow(vec![Some("A"), None, Some("é")]), large(vec![Some("A"), None, Some("é")])] {
        assert_eq!(c.len(), 3);
        assert_eq!(c.cell_text_exact_at(0), Some("A"));
        assert_eq!(c.cell_text_exact_at(1), None);
        assert_eq!(c.cell_text_exact_at(2), Some("é"));
        if let FastColumn::ArrowText(a) = &c {
            assert_eq!(a.eq_mask("a", false), vec![true, false, false]);
            assert_eq!(a.eq_mask("É", false), vec![false, false, true]);
            assert_eq!(a.eq_mask("a", true), vec![false, true, true]);
            assert_eq!(a.get(2), Some("é"));
            assert_eq!(a.len(), 3);
        }
    }
    assert!(ArrowTextColumn::from_data(Int64Array::from(vec![1, 2]).into_data()).is_none());
    let sliced = StringArray::from(vec![Some("a"), Some("b"), None]).slice(1, 2);
    let c = ArrowTextColumn::from_data(sliced.into_data()).unwrap();
    assert_eq!(c.len(), 2);
    assert_eq!(c.get(0), Some("b"));
    assert_eq!(c.get(1), None);
    let full = ArrowTextColumn::from_data(StringArray::from(vec!["x", "y"]).into_data()).unwrap();
    assert_eq!(full.eq_mask("Y", false), vec![false, true]);
}

#[test]
fn arrow_data_that_cannot_be_read_give_no_column() {
    // The array of one type with the schema of another has one buffer too few.
    let (array, _) = to_ffi(&Int64Array::from(vec![0, 0]).into_data()).unwrap();
    let schema = FFI_ArrowSchema::try_from(&DataType::Utf8).unwrap();
    let data = from_ffi(array, &schema).unwrap();
    assert_eq!((data.data_type(), data.buffers().len()), (&DataType::Utf8, 1));
    assert!(ArrowTextColumn::from_data(data).is_none());
}

#[test]
fn arrow_offsets_are_aligned_to_their_own_width() {
    let offsets = Buffer::from_slice_ref([9i32, 0, 1, 3]).slice(4);
    assert_ne!(offsets.as_ptr().align_offset(8), 0);
    let texts = Buffer::from("abc".as_bytes());
    let data = ArrayData::try_new(DataType::Utf8, 2, None, 0, vec![offsets, texts], vec![]).unwrap();
    let c = ArrowTextColumn::from_data(data).unwrap();
    assert_eq!((c.get(0), c.get(1)), (Some("a"), Some("bc")));
}

#[test]
fn native_texts_are_masked() {
    let v = vec![Some("East".to_string()), None, Some("WEST".to_string())];
    assert_eq!(native_text_eq_mask(&v, "east", false), vec![true, false, false]);
    assert_eq!(native_text_eq_mask(&v, "east", true), vec![false, true, true]);
    assert_eq!(native_text_eq_mask(&v, "ést", true), vec![true, true, true]);
    let blank = vec![Some(" ".to_string())];
    assert_eq!(native_text_eq_mask(&blank, " ", false), vec![false]);
    assert_eq!(native_text_eq_mask(&blank, " ", true), vec![true]);
}

#[test]
fn long_columns_are_masked_alike() {
    let long: Vec<Option<&str>> = (0..60_000)
        .map(|i| match i % 4 {
            0 => Some("Yes"),
            1 => Some("no"),
            2 => None,
            _ => Some("YES"),
        })
        .collect();
    let short: Vec<Option<&str>> = long[..8].to_vec();
    for (a, b) in [
        (arrow(long.clone()), arrow(short.clone())),
        (large(long.clone()), large(short.clone())),
        (native(&long), native(&short)),
    ] {
        let m = mask(&a, "<>yes");
        assert_eq!(m.len(), 60_000);
        assert_eq!(m[..8], mask(&b, "<>yes")[..]);
        assert_eq!(m[59_992..], mask(&b, "<>yes")[..]);
        assert_eq!(countif_mixed(&a, &crit("yes")).unwrap(), 30_000);
    }
    let numbers: Vec<f64> = (0..60_000).map(|i| (i % 10) as f64).collect();
    assert_eq!(countif_mixed(&floats(&numbers), &crit(">=7")).unwrap(), 18_000);
    let whole: Vec<i64> = (0..60_000).map(|i| i % 10).collect();
    assert_eq!(countif_mixed(&ints(&whole), &crit("<>7")).unwrap(), 54_000);
}

#[test]
fn numeric_masks() {
    let c = floats(&[1.0, f64::NAN, 3.0, 0.1 + 0.2]);
    assert_eq!(mask(&c, ">1"), vec![false, false, true, false]);
    assert_eq!(mask(&c, "0.3"), vec![false, false, false, true]);
    assert_eq!(mask(&c, "<>3"), vec![true, true, false, true]);
    assert_eq!(mask(&c, "<>x"), vec![true, true, true, true]);
    assert_eq!(mask(&c, "x"), vec![false, false, false, false]);
    assert_eq!(mask(&c, "x*"), vec![false, false, false, false]);
    assert_eq!(mask(&c, "<>x*"), vec![false, false, false, false]);
    let blank = parse_criteria(&CellValue::Empty).unwrap();
    assert_eq!(c.build_mask(&blank, 4), vec![false, true, false, false]);
    assert_eq!(mask(&floats(&[f64::INFINITY]), "<>1e999"), vec![true]);
    let ne_inf = parse_criteria(&crit("<>1e999")).unwrap();
    assert!(!floats(&[f64::INFINITY]).matches_at(0, &ne_inf));
    assert_eq!(mask(&ints(&[5, 9007199254740993]), "<=5"), vec![true, false]);
    assert!(!FastColumn::num_matches(n(f64::NAN), &parse_criteria(&crit("=1")).unwrap()));
    assert!(FastColumn::num_matches(n(f64::NAN), &parse_criteria(&crit("<>1")).unwrap()));
}

#[test]
fn fast_masks_are_for_their_columns() {
    let eq = parse_criteria(&crit("a")).unwrap();
    let gt = parse_criteria(&crit(">1")).unwrap();
    let wild = parse_criteria(&crit("a*")).unwrap();
    assert!(native(&[Some("a")]).try_fast_eq_mask(&eq).is_some());
    assert!(texts(&["a"]).try_fast_eq_mask(&eq).is_none());
    assert!(native(&[Some("a")]).try_fast_eq_mask(&wild).is_none());
    assert!(native(&[Some("a")]).try_fast_eq_mask(&gt).is_none());
    assert!(floats(&[1.0]).try_fast_numeric_mask(&gt).is_some());
    assert!(ints(&[1]).try_fast_numeric_mask(&gt).is_some());
    assert!(floats(&[1.0]).try_fast_numeric_mask(&eq).is_none());
}

#[test]
fn text_columns_row_by_row() {
    for c in [
        texts(&["Apple", "banana", ""]),
        native(&[Some("Apple"), Some("banana"), Some("")]),
        arrow(vec![Some("Apple"), Some("banana"), Some("")]),
    ] {
        assert_eq!(mask(&c, "apple"), vec![true, false, false]);
        assert_eq!(mask(&c, "<>apple"), vec![false, true, true]);
        assert_eq!(mask(&c, "b*"), vec![false, true, false]);
        assert_eq!(mask(&c, ">b"), vec![false, true, false]);
        assert_eq!(mask(&c, "="), vec![false, false, false]);
        assert_eq!(mask(&c, "<>"), vec![true, true, true]);
        assert_eq!(mask(&c, "<>5"), vec![true, true, true]);
        let blank = parse_criteria(&CellValue::Empty).unwrap();
        assert_eq!(c.build_mask(&blank, 3), vec![false, false, true]);
    }
    let blank = parse_criteria(&CellValue::Empty).unwrap();
    assert_eq!(native(&[None, Some("x")]).build_mask(&blank, 2), vec![true, false]);
    assert_eq!(arrow(vec![None, Some("x")]).build_mask(&blank, 2), vec![true, false]);
    assert_eq!(mask(&native(&[None]), "<b"), vec![false]);
}

#[test]
fn generic_columns_row_by_row() {
    let c = generic();
    assert_eq!(mask(&c, "apple"), vec![true, false, false, false, false, false]);
    assert_eq!(mask(&c, ">=2"), vec![false, true, false, false, false, true]);
    assert_eq!(mask(&c, "1"), vec![false, false, false, true, false, false]);
    let blank = parse_criteria(&CellValue::Empty).unwrap();
    assert_eq!(c.build_mask(&blank, 6), vec![false, false, true, false, true, false]);
    let empties = FastColumn::Generic(vec![RawValue::Str("".to_string()), RawValue::Nothing]);
    assert_eq!(mask(&empties, "="), vec![false, false]);
    assert_eq!(mask(&empties, "<>"), vec![true, true]);
}

#[test]
fn numbers_of_columns() {
    assert_eq!(sum_mixed(&floats(&[1.0, f64::NAN, 2.0])), n(3.0));
    assert_eq!(sum_mixed(&ints(&[1, -2])), n(-1.0));
    assert_eq!(sum_mixed(&texts(&["1"])), n(0.0));
    assert_eq!(sum_mixed(&generic()), n(10.0));
    assert_eq!(count_mixed(&generic()), 3);
    assert_eq!(count_mixed(&floats(&[1.0, f64::NAN])), 1);
    assert_eq!(average_mixed(&ints(&[4, 5])).unwrap(), n(4.5));
    assert_eq!(
        average_mixed(&texts(&["x"])).unwrap_err().message(),
        "AVERAGE: no numeric values found (division by zero)"
    );
    assert_eq!(min_mixed(&floats(&[f64::NAN, 3.0, -1.0])).unwrap(), n(-1.0));
    assert_eq!(max_mixed(&ints(&[3, 9, -1])).unwrap(), n(9.0));
    assert!(min_mixed(&arrow(vec![Some("1")])).is_err());
    assert!(max_mixed(&floats(&[])).is_err());
    assert_eq!(ints(&[3]).as_f64_slice(), Some(values(&[3.0])));
    assert_eq!(floats(&[3.5]).as_f64_slice(), Some(values(&[3.5])));
    assert_eq!(texts(&["3"]).as_f64_slice(), None);
    assert_eq!(generic().numeric_at(5), Some(n(7.0)));
    assert_eq!(floats(&[f64::NAN]).numeric_at(0), None);
}

#[test]
fn formulas_with_one_criterion() {
    let dept = arrow(vec![Some("IT"), Some("HR"), None, Some("it")]);
    let pay = floats(&[10.0, 20.0, 30.0, f64::NAN]);
    assert_eq!(countif_mixed(&dept, &crit("it")).unwrap(), 2);
    assert_eq!(sumif_mixed(&dept, &crit("<>it"), Some(&pay)).unwrap(), n(50.0));
    assert_eq!(sumif_mixed(&pay, &crit(">15"), None).unwrap(), n(50.0));
    assert_eq!(averageif_mixed(&dept, &crit("it"), Some(&pay)).unwrap(), n(10.0));
    assert_eq!(
        averageif_mixed(&dept, &crit("zz"), Some(&pay)).unwrap_err().message(),
        "AVERAGEIF: no matching numeric values found"
    );
    assert_eq!(
        sumif_mixed(&dept, &crit("it"), Some(&ints(&[1]))).unwrap_err().message(),
        "SUMIF: sum_range must be the same length as range"
    );
    assert_eq!(
        averageif_mixed(&dept, &crit("it"), Some(&ints(&[1]))).unwrap_err().message(),
        "AVERAGEIF: average_range must be the same length as range"
    );
    assert!(matches!(
        sumif_mixed(&dept, &crit("<i*"), Some(&ints(&[1]))),
        Err(FormulaError::InvalidCriteria(_))
    ));
}

#[test]
fn columns_are_as_their_cells() {
    let cells = vec![
        CellValue::Num(n(1.0)),
        CellValue::Empty,
        CellValue::Num(n(3.0)),
    ];
    let column = floats(&[1.0, f64::NAN, 3.0]);
    for c in [">1", "<>1", "1", "<>x", "*", "<=3"] {
        assert_eq!(countif_mixed(&column, &crit(c)).unwrap(), countif_values(&cells, &crit(c)).unwrap());
        assert_eq!(
            sumif_mixed(&column, &crit(c), None).unwrap(),
            sumif_values(&cells, &crit(c), None).unwrap()
        );
    }
}

#[test]
fn formulas_with_several_criteria() {
    let dept = || native(&[Some("IT"), Some("HR"), Some("IT"), Some("it")]);
    let age = || ints(&[30, 40, 50, 60]);
    let city = || texts(&["Pune", "Goa", "pune", "Goa"]);
    let pay = floats(&[1.0, 2.0, f64::NAN, 8.0]);
    assert_eq!(countifs_mixed(&vec![pair(dept(), "it")]).unwrap(), 3);
    assert_eq!(countifs_mixed(&vec![pair(dept(), "it"), pair(age(), ">40")]).unwrap(), 2);
    let three = || vec![pair(dept(), "it"), pair(age(), "<60"), pair(city(), "pune")];
    assert_eq!(countifs_mixed(&three()).unwrap(), 2);
    assert_eq!(sumifs_mixed(&pay, &three()).unwrap(), n(1.0));
    assert_eq!(sumifs_mixed(&generic_pay(), &three()).unwrap(), n(5.0));
    assert_eq!(averageifs_mixed(&pay, &vec![pair(dept(), "it")]).unwrap(), n(4.5));
    assert_eq!(averageifs_mixed(&generic_pay(), &three()).unwrap(), n(5.0));
    assert_eq!(minifs_mixed(&pay, &vec![pair(dept(), "it")]).unwrap(), n(1.0));
    assert_eq!(maxifs_mixed(&pay, &vec![pair(dept(), "it")]).unwrap(), n(8.0));
    assert_eq!(minifs_mixed(&pay, &vec![pair(dept(), "zz")]).unwrap(), n(0.0));
    assert_eq!(maxifs_mixed(&pay, &vec![pair(dept(), "zz")]).unwrap(), n(0.0));
    assert_eq!(
        averageifs_mixed(&pay, &vec![pair(dept(), "zz")]).unwrap_err().message(),
        "AVERAGEIFS: no matching numeric values found"
    );
}

fn generic_pay() -> FastColumn {
    FastColumn::Generic(vec![
        RawValue::Float(n(5.0)),
        RawValue::Nothing,
        RawValue::Str("x".to_string()),
        RawValue::Bool(false),
    ])
}

#[test]
fn errors_of_several_criteria() {
    assert_eq!(
        countifs_mixed(&vec![]).unwrap_err().message(),
        "COUNTIFS: at least one range/criteria pair is required"
    );
    let pairs = vec![pair(ints(&[1]), "1"), pair(ints(&[1, 2]), ">a*")];
    assert!(matches!(countifs_mixed(&pairs), Err(FormulaError::InvalidCriteria(_))));
    let pairs = vec![pair(ints(&[1]), "1"), pair(ints(&[1, 2]), "2")];
    assert_eq!(
        countifs_mixed(&pairs).unwrap_err().message(),
        "COUNTIFS: all ranges must be the same length"
    );
    assert_eq!(
        sumifs_mixed(&ints(&[1, 2]), &pairs).unwrap_err().message(),
        "SUMIFS: all ranges must be the same length as sum_range"
    );
    assert_eq!(
        averageifs_mixed(&texts(&["a", "b"]), &pairs).unwrap_err().message(),
        "AVERAGEIFS: all ranges must be the same length as average_range"
    );
    assert_eq!(
        minifs_mixed(&ints(&[1, 2]), &vec![]).unwrap_err().message(),
        "MINIFS: at least one range/criteria pair is required"
    );
    assert_eq!(
        maxifs_mixed(&ints(&[1, 2]), &pairs).unwrap_err().message(),
        "MAXIFS: all ranges must be the same length as max_range"
    );
}

#[test]
fn masks_are_joined() {
    let a = vec![true, true, false, true];
    let b = vec![true, false, true, true];
    let c = vec![false, true, true, true];
    let v = values(&[1.0, 2.0, 3.0, f64::NAN]);
    assert_eq!(count_all_masks_true(&vec![], 4), 0);
    assert_eq!(count_all_masks_true(&vec![a.clone()], 4), 3);
    assert_eq!(count_all_masks_true(&vec![a.clone()], 1), 3);
    assert_eq!(count_all_masks_true(&vec![a.clone(), b.clone()], 4), 2);
    assert_eq!(count_all_masks_true(&vec![a.clone(), b.clone()], 2), 1);
    assert_eq!(count_all_masks_true(&vec![a.clone(), b.clone(), c.clone()], 4), 1);
    assert_eq!(sum_where_all_masks_true(&v, &vec![], 4), n(0.0));
    assert_eq!(sum_where_all_masks_true(&v, &vec![a.clone()], 4), n(3.0));
    assert_eq!(sum_where_all_masks_true(&v, &vec![a.clone(), b.clone()], 4), n(1.0));
    assert_eq!(
        sum_and_count_where_all_masks_true(&v, &vec![c, b], 4),
        (n(3.0), 1)
    );
}

#[test]
fn long_masks_are_joined_alike() {
    let n_rows: usize = 70_000;
    let a: Vec<bool> = (0..n_rows).map(|i| i % 2 == 0).collect();
    let b: Vec<bool> = (0..n_rows).map(|i| i % 3 == 0).collect();
    let v: Vec<Number> = (0..n_rows).map(|i| n(i as f64)).collect();
    assert_eq!(count_all_masks_true(&vec![a.clone()], n_rows), 35_000);
    let want: Vec<f64> = (0..n_rows).filter(|i| i % 6 == 0).map(|i| i as f64).collect();
    assert_eq!(count_all_masks_true(&vec![a.clone(), b.clone()], n_rows), want.len());
    let sum = want.iter().fold(0.0, |t, x| t + x);
    assert_eq!(sum_where_all_masks_true(&v, &vec![a, b], n_rows), n(sum));
}

#[test]
fn keys_of_columns() {
    let key = |c: &FastColumn, i: usize| match c.cell_key_at(i) {
        LookupKey::Num(x) => format!("{}", f64::from_bits(x.bits)),
        LookupKey::Text(s) => format!("'{}'", s),
        LookupKey::Empty => "blank".to_string(),
    };
    let c = floats(&[1.5, f64::NAN]);
    assert_eq!((key(&c, 0), key(&c, 1)), ("1.5".to_string(), "blank".to_string()));
    assert_eq!(key(&ints(&[3]), 0), "3");
    for c in [texts(&["AB", " "]), native(&[Some("AB"), Some(" ")]), arrow(vec![Some("AB"), Some(" ")])] {
        assert_eq!((key(&c, 0), key(&c, 1)), ("'ab'".to_string(), "blank".to_string()));
        assert!(c.cell_text_ref_at(1).is_none());
    }
    assert_eq!(key(&native(&[None]), 0), "blank");
    assert_eq!(key(&generic(), 0), "'apple'");
    assert_eq!(key(&generic(), 4), "blank");
    let c = texts(&["abc", "aBc", "é"]);
    assert!(matches!(c.cell_text_ref_at(0), Some(CellTextRef::Borrowed("abc"))));
    assert!(matches!(c.cell_text_ref_at(1), Some(CellTextRef::Owned(s)) if s == "abc"));
    assert!(matches!(c.cell_text_ref_at(2), Some(CellTextRef::Owned(s)) if s == "é"));
    assert!(generic().cell_text_ref_at(0).is_none());
}

fn object(o: &Option<ColumnObject>) -> String {
    match o {
        None => "replacement".to_string(),
        Some(ColumnObject::Nothing) => "none".to_string(),
        Some(ColumnObject::Float(x)) => format!("float {}", f64::from_bits(x.bits)),
        Some(ColumnObject::Int(x)) => format!("int {}", x),
        Some(ColumnObject::Text(s)) => format!("text {}", s),
        Some(ColumnObject::Same(i)) => format!("same {}", i),
    }
}

fn looked_up(wanted: &FastColumn, keys: &FastColumn, vals: &FastColumn) -> Vec<String> {
    vlookup_many_columnar(wanted, keys, vals, true).unwrap().iter().map(object).collect()
}

#[test]
fn lookups_in_columns() {
    let keys = arrow(vec![Some("A1"), Some("b2"), None, Some("a1"), Some("")]);
    let wanted = texts(&["a1", "B2", "zz"]);
    assert_eq!(
        looked_up(&wanted, &keys, &floats(&[1.0, f64::NAN, 3.0, 4.0, 5.0])),
        vec!["float 1", "none", "replacement"]
    );
    assert_eq!(
        looked_up(&wanted, &keys, &ints(&[10, 20, 30, 40, 50])),
        vec!["int 10", "int 20", "replacement"]
    );
    assert_eq!(
        looked_up(&wanted, &keys, &native(&[Some("x"), None, None, None, None])),
        vec!["text x", "none", "replacement"]
    );
    let blank = FastColumn::Generic(vec![RawValue::Nothing, RawValue::Str(" ".to_string())]);
    assert_eq!(looked_up(&blank, &keys, &ints(&[1, 2, 3, 4, 5])), vec!["int 3", "int 3"]);
    let numbers = floats(&[2.0, 7.0]);
    assert_eq!(
        looked_up(&numbers, &ints(&[7, 2, 2]), &FastColumn::Generic(vec![
            RawValue::Nothing,
            RawValue::Bool(true),
            RawValue::Bool(false),
        ])),
        vec!["same 1", "same 0"]
    );
    assert_eq!(
        vlookup_many_columnar(&wanted, &keys, &ints(&[1]), true).err().unwrap().message(),
        "VLOOKUP: key column and return column must be the same length"
    );
    assert_eq!(
        xlookup_many_columnar(&wanted, &keys, &ints(&[1, 2, 3, 4, 5]), false).err().unwrap().message(),
        "VLOOKUP: #N/A - value not found"
    );
    let r = xlookup_many_columnar(&texts(&["b2"]), &keys, &ints(&[1, 2, 3, 4, 5]), false).unwrap();
    assert_eq!(object(&r[0]), "int 2");
}

#[test]
fn lists_become_columns() {
    let list = |v: &[&str]| v.iter().map(|s| RawValue::Str(s.to_string())).collect::<Vec<RawValue>>();
    assert!(matches!(FastColumn::of_values(list(&["a", "b"]), true), FastColumn::Text(v) if v == vec!["a", "b"]));
    assert!(matches!(FastColumn::of_values(vec![], true), FastColumn::Text(v) if v.is_empty()));
    assert!(matches!(FastColumn::of_values(list(&["a"]), false), FastColumn::Generic(v) if v.len() == 1));
    let mut some = list(&["a"]);
    some.push(RawValue::Nothing);
    assert!(matches!(FastColumn::of_values(some, true), FastColumn::Generic(v) if v.len() == 2));
}
