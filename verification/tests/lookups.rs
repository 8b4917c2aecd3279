use magpyxl::cell::CellValue;
use magpyxl::error::FormulaError;
use magpyxl::lookup::{
    vlookup_many_values, vlookup_values, xlookup_many_indices, xlookup_many_values, xlookup_values, TableRow,
};
use magpyxl::number::Number;

fn num(x: f64) -> CellValue {
    CellValue::Num(Number { bits: x.to_bits() })
}

fn text(s: &str) -> CellValue {
    CellValue::Text(s.to_string())
}

fn row(key: CellValue, cells: &[&'static str]) -> TableRow<&'static str> {
    TableRow { key, cells: cells.to_vec() }
}

fn people() -> Vec<TableRow<&'static str>> {
    vec![
        row(CellValue::Empty, &[]),
        row(text("Ann"), &["Ann", "10", "Pune"]),
        row(text("Bob"), &["Bob", "20"]),
        row(text("ann"), &["ann", "30", "Goa"]),
        row(CellValue::Empty, &["", "blank", "x"]),
    ]
}

fn grades() -> Vec<TableRow<&'static str>> {
    vec![
        row(num(0.0), &["0", "F"]),
        row(num(50.0), &["50", "C"]),
        row(CellValue::Empty, &[]),
        row(num(70.0), &["70", "B"]),
        row(num(90.0), &["90", "A"]),
    ]
}

#[test]
fn vlookup_takes_the_first_equal_key() {
    let t = people();
    assert_eq!(*vlookup_values(&text("ANN"), &t, 3, false).unwrap(), "Pune");
    assert_eq!(*vlookup_values(&text("bob"), &t, 2, false).unwrap(), "20");
    assert_eq!(*vlookup_values(&CellValue::Empty, &t, 2, false).unwrap(), "blank");
}

#[test]
fn vlookup_errors() {
    let t = people();
    assert_eq!(
        vlookup_values(&text("ANN"), &t, 0, false).unwrap_err().message(),
        "VLOOKUP: col_index is 1-based; use 1 for the first column"
    );
    assert_eq!(
        vlookup_values(&text("bob"), &t, 3, false).unwrap_err().message(),
        "VLOOKUP: col_index is out of range for the table"
    );
    assert_eq!(
        vlookup_values(&text("zed"), &t, 9, false).unwrap_err().message(),
        "VLOOKUP: #N/A - value not found"
    );
    assert_eq!(
        vlookup_values(&num(-1.0), &grades(), 2, true).unwrap_err().message(),
        "VLOOKUP: #N/A - no approximate match found"
    );
}

#[test]
fn vlookup_approximately() {
    let t = grades();
    assert_eq!(*vlookup_values(&num(69.9), &t, 2, true).unwrap(), "C");
    assert_eq!(*vlookup_values(&num(70.0), &t, 2, true).unwrap(), "B");
    assert_eq!(*vlookup_values(&num(1000.0), &t, 2, true).unwrap(), "A");
    assert!(matches!(vlookup_values(&text("70"), &t, 2, true), Err(FormulaError::NoApproximateMatch)));
    let names = vec![row(text("apple"), &["1"]), row(text("Mango"), &["2"]), row(text("zebra"), &["3"])];
    assert_eq!(*vlookup_values(&text("NUT"), &names, 1, true).unwrap(), "2");
    let unsorted = vec![row(num(5.0), &["a"]), row(num(9.0), &["b"]), row(num(1.0), &["c"])];
    assert_eq!(*vlookup_values(&num(6.0), &unsorted, 1, true).unwrap(), "a");
}

#[test]
fn vlookup_for_many() {
    let t = people();
    let wanted = vec![text("ANN"), text("nobody"), CellValue::Empty];
    let r = vlookup_many_values(&wanted, &t, 2, false, Some(&"-")).unwrap();
    assert_eq!(r, vec![&"10", &"-", &"blank"]);
    assert_eq!(
        vlookup_many_values(&wanted, &t, 2, false, None).unwrap_err().message(),
        "VLOOKUP: #N/A - value not found"
    );
    assert!(matches!(
        vlookup_many_values(&wanted, &t, 0, false, Some(&"-")),
        Err(FormulaError::ColumnZero)
    ));
    assert!(matches!(
        vlookup_many_values(&vec![text("bob"), text("nobody")], &t, 3, false, None),
        Err(FormulaError::ColumnBeyondRow)
    ));
    assert!(matches!(
        vlookup_many_values(&vec![text("nobody"), text("bob")], &t, 3, false, None),
        Err(FormulaError::NotFound(_))
    ));
}

#[test]
fn vlookup_for_many_approximately() {
    let t = grades();
    let r = vlookup_many_values(&vec![num(55.0), num(-5.0), num(95.0)], &t, 2, true, Some(&"?")).unwrap();
    assert_eq!(r, vec![&"C", &"?", &"A"]);
    assert!(matches!(
        vlookup_many_values(&vec![num(-5.0)], &t, 2, true, None),
        Err(FormulaError::NoApproximateMatch)
    ));
}

#[test]
fn many_lookups_are_as_single_ones() {
    let t = people();
    for v in [text("Ann"), text("BOB"), CellValue::Empty] {
        let one = *vlookup_values(&v, &t, 2, false).unwrap();
        let many = vlookup_many_values(&vec![v], &t, 2, false, None).unwrap();
        assert_eq!(many, vec![&one]);
    }
    let close = vec![row(num(0.1 + 0.2), &["near"])];
    assert_eq!(*vlookup_values(&num(0.3), &close, 1, false).unwrap(), "near");
    assert_eq!(vlookup_many_values(&vec![num(0.3)], &close, 1, false, None).unwrap(), vec![&"near"]);
    let rows = vec![row(num(5.0), &["a"]), row(num(2.0000000004), &["b"]), row(num(2.0), &["c"])];
    for v in [num(2.0), num(2.0000000008), num(5.0000000001), num(9.0), num(f64::INFINITY)] {
        let one = vlookup_values(&v, &rows, 1, false).ok().copied();
        let many = vlookup_many_values(&vec![v], &rows, 1, false, None).ok().map(|r| *r[0]);
        assert_eq!(one, many);
    }
}

#[test]
fn xlookup_finds_the_first() {
    let keys = vec![num(1.0), text("two"), CellValue::Empty, text("TWO")];
    let vals = vec!["a", "b", "c", "d"];
    assert_eq!(*xlookup_values(&text("Two"), &keys, &vals, None).unwrap(), "b");
    assert_eq!(*xlookup_values(&CellValue::Empty, &keys, &vals, None).unwrap(), "c");
    assert_eq!(*xlookup_values(&num(9.0), &keys, &vals, Some(&"none")).unwrap(), "none");
    assert_eq!(
        xlookup_values(&num(9.0), &keys, &vals, None).unwrap_err().message(),
        "XLOOKUP: #N/A - value not found"
    );
    assert_eq!(
        xlookup_values(&num(1.0), &keys, &vec!["a"], None).unwrap_err().message(),
        "XLOOKUP: lookup_array and return_array must be the same length"
    );
}

#[test]
fn xlookup_for_many() {
    let keys = vec![num(1.0), text("two"), CellValue::Empty, text("TWO"), num(0.0)];
    let vals = vec!["a", "b", "c", "d", "e"];
    let wanted = vec![text("TWO"), CellValue::Empty, num(1.0)];
    assert_eq!(xlookup_many_values(&wanted, &keys, &vals, None).unwrap(), vec![&"b", &"c", &"a"]);
    assert_eq!(
        xlookup_many_values(&vec![num(7.0)], &keys, &vals, Some(&"!")).unwrap(),
        vec![&"!"]
    );
    assert_eq!(
        xlookup_many_values(&vec![num(7.0)], &keys, &vals, None).unwrap_err().message(),
        "XLOOKUP: #N/A - value not found"
    );
    assert!(matches!(
        xlookup_many_values(&wanted, &keys, &vec!["a"], None),
        Err(FormulaError::ReturnLength(_))
    ));
    assert_eq!(
        xlookup_many_indices(&vec![text("two"), num(5.0), CellValue::Empty, num(f64::NAN), num(-0.0)], &keys),
        vec![Some(1), None, Some(2), None, Some(4)]
    );
}
