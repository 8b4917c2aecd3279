use magpyxl::aggregate::{averageif_values, countif_values, countifs_values, sumif_values, sumifs_values, Pair};
use magpyxl::batch::{averageif_vec_values, countif_vec_values, sumif_vec_values};
use magpyxl::categories::{build_category_merge_mapping, summarize_text_column};
use magpyxl::cell::{CellValue, RawValue};
use magpyxl::column::{ColumnObject, FastColumn};
use magpyxl::columnar::vlookup_many_columnar;
use magpyxl::criteria::parse_criteria;
use magpyxl::lookup::{xlookup_many_indices, xlookup_many_values, xlookup_values};
use magpyxl::mixed::{countif_mixed, countifs_mixed, sumifs_mixed, MixedPair};
use magpyxl::number::Number;

fn n(x: f64) -> Number {
    Number { bits: x.to_bits() }
}

fn num(x: f64) -> CellValue {
    CellValue::Num(n(x))
}

fn text(s: &str) -> CellValue {
    CellValue::Text(s.to_string())
}

fn crit(s: &str) -> CellValue {
    text(s)
}

fn holds(s: &str, cell: &CellValue) -> bool {
    magpyxl::criteria::matches(cell, &parse_criteria(&crit(s)).unwrap())
}

fn range() -> Vec<CellValue> {
    vec![num(1.0), text("b"), CellValue::Empty, num(2.0), text("B"), num(1.0)]
}

fn target() -> Vec<CellValue> {
    vec![num(10.0), num(20.0), num(30.0), text("-"), num(50.0), num(60.0)]
}

#[test]
fn order_comparisons_exclude_each_other() {
    for (bound, cells) in [
        ("5", vec![num(4.0), num(5.0), num(6.0)]),
        ("m", vec![text("a"), text("M"), text("z")]),
    ] {
        for c in &cells {
            assert_ne!(holds(&format!(">{}", bound), c), holds(&format!("<={}", bound), c));
            assert_ne!(holds(&format!("<{}", bound), c), holds(&format!(">={}", bound), c));
        }
    }
}

#[test]
fn lists_are_one_by_one() {
    let list = vec![crit("1"), crit("b"), CellValue::Empty, crit("2"), crit("zz")];
    let counts = countif_vec_values(&range(), &list).unwrap();
    let sums = sumif_vec_values(&range(), &list, Some(&target())).unwrap();
    let means = averageif_vec_values(&range(), &list, Some(&target())).unwrap();
    for (k, c) in list.iter().enumerate() {
        assert_eq!(counts[k], countif_values(&range(), c).unwrap());
        assert_eq!(sums[k], sumif_values(&range(), c, Some(&target())).unwrap());
        assert_eq!(means[k], averageif_values(&range(), c, Some(&target())).ok());
    }
    assert_eq!(counts, vec![2, 2, 1, 1, 0]);
}

#[test]
fn one_pair_more_selects_no_more() {
    let one = vec![Pair { range: range(), criteria: crit("<>2") }];
    let two = vec![
        Pair { range: range(), criteria: crit("<>2") },
        Pair { range: target(), criteria: crit(">25") },
    ];
    assert_eq!(countifs_values(&one).unwrap(), 5);
    assert_eq!(countifs_values(&two).unwrap(), 3);
}

#[test]
fn xlookup_many_is_one_by_one() {
    let keys = range();
    let vals: Vec<usize> = (0..keys.len()).collect();
    let wanted = vec![num(2.0), text("B"), CellValue::Empty, num(1.0)];
    let many = xlookup_many_values(&wanted, &keys, &vals, None).unwrap();
    for (k, w) in wanted.iter().enumerate() {
        assert_eq!(many[k], xlookup_values(w, &keys, &vals, None).unwrap());
    }
    assert_eq!(many, vec![&3, &1, &2, &0]);
}

#[test]
fn lookups_in_columns_are_by_cells() {
    let raws = || {
        vec![
            RawValue::Str("Key".to_string()),
            RawValue::Nothing,
            RawValue::Str("  ".to_string()),
            RawValue::Str("other".to_string()),
        ]
    };
    let cells: Vec<CellValue> = raws().iter().map(|r| CellValue::from_py(r)).collect();
    let wanted_raws = || vec![RawValue::Str("OTHER".to_string()), RawValue::Str("".to_string()), RawValue::Str("KEY".to_string())];
    let wanted: Vec<CellValue> = wanted_raws().iter().map(|r| CellValue::from_py(r)).collect();
    let rows = xlookup_many_indices(&wanted, &cells);
    assert_eq!(rows, vec![Some(3), Some(1), Some(0)]);
    let key_columns = vec![
        FastColumn::Generic(raws()),
        FastColumn::NativeText(vec![
            Some("Key".to_string()),
            None,
            Some("  ".to_string()),
            Some("other".to_string()),
        ]),
    ];
    for keys in key_columns {
        for lookup in [FastColumn::Generic(wanted_raws()), FastColumn::of_values(wanted_raws(), true)] {
            let values = FastColumn::NumericI64(vec![0, 1, 2, 3]);
            let found = vlookup_many_columnar(&lookup, &keys, &values, true).unwrap();
            for k in 0..rows.len() {
                assert!(matches!(found[k], Some(ColumnObject::Int(i)) if Some(i as usize) == rows[k]));
            }
        }
    }
}

#[test]
fn text_columns_match_as_lists_of_values() {
    let raws = || {
        vec![
            RawValue::Str("Key".to_string()),
            RawValue::Str("".to_string()),
            RawValue::Str(" \u{a0}".to_string()),
            RawValue::Str(" x".to_string()),
        ]
    };
    let strings = || vec!["Key".to_string(), "".to_string(), " \u{a0}".to_string(), " x".to_string()];
    let columns = [
        FastColumn::Generic(raws()),
        FastColumn::Text(strings()),
        FastColumn::NativeText(strings().into_iter().map(Some).collect()),
    ];
    for column in &columns {
        assert_eq!(countif_mixed(column, &CellValue::Empty).unwrap(), 2);
        for s in ["key", "<>key", "=", "<>", "*", "<>k*", "<l", " ", "<>5"] {
            assert_eq!(
                countif_mixed(column, &crit(s)).unwrap(),
                countif_mixed(&columns[0], &crit(s)).unwrap(),
                "{}",
                s
            );
        }
    }
}

#[test]
fn several_columns_select_as_their_cells() {
    let dept = || FastColumn::Text(vec!["a".to_string(), "B".to_string(), "A".to_string()]);
    let dept_cells = || vec![text("a"), text("B"), text("A")];
    let age = || FastColumn::Numeric(vec![n(1.0), n(f64::NAN), n(3.0)]);
    let age_cells = || vec![num(1.0), CellValue::Empty, num(3.0)];
    let pay = FastColumn::NumericI64(vec![5, 6, 7]);
    let pay_cells = vec![num(5.0), num(6.0), num(7.0)];
    for (x, y) in [("a", ">1"), ("<>a", "<>1"), ("*", "<=3"), ("a", "zz")] {
        let columns = vec![
            MixedPair { column: dept(), criteria: crit(x) },
            MixedPair { column: age(), criteria: crit(y) },
        ];
        let cells = vec![
            Pair { range: dept_cells(), criteria: crit(x) },
            Pair { range: age_cells(), criteria: crit(y) },
        ];
        assert_eq!(countifs_mixed(&columns).unwrap(), countifs_values(&cells).unwrap());
        assert_eq!(sumifs_mixed(&pay, &columns).unwrap(), sumifs_values(&pay_cells, &cells).unwrap());
    }
}

#[test]
fn merged_spellings_stay() {
    let column = FastColumn::Text(
        ["Aa", "aA", "AA", "aA", "b", "B", "c"].iter().map(|s| s.to_string()).collect(),
    );
    let merges = build_category_merge_mapping(&column).unwrap();
    assert_eq!(merges.len(), 3);
    for m in &merges {
        assert_ne!(m.from, m.to);
        assert_eq!(m.from.to_lowercase(), m.to.to_lowercase());
        assert!(merges.iter().all(|other| other.from != m.to));
    }
}

#[test]
fn spellings_are_reported_where_there_are_fewer_categories() {
    for (v, example) in [
        (vec!["x", "y", "z"], ""),
        (vec!["x", "y", "X"], "X/x"),
        (vec!["q ", "y", "Y", "q"], "q/q "),
    ] {
        let unique = v.len();
        let column = FastColumn::Text(v.iter().map(|s| s.to_string()).collect());
        let s = summarize_text_column(&column, 3, 10, n(0.0)).unwrap().summary.unwrap();
        assert_eq!(s.unique, unique);
        assert_eq!(s.normalized_unique < unique, !example.is_empty());
        assert_eq!(s.near_dup_example, example);
    }
}

#[test]
fn sums_commute_and_nothing_adds_nothing() {
    for a in [0.1, -0.2, 1e300, f64::INFINITY, -0.0, 5e-324] {
        for b in [0.3, -1e300, f64::NEG_INFINITY, 0.0] {
            let (x, y) = (n(a).plus(n(b)), n(b).plus(n(a)));
            assert_eq!(x, y);
        }
    }
    for a in [0.1, -0.2, 1e300, f64::NEG_INFINITY, 0.0, -5e-324] {
        assert_eq!(n(a).plus(n(0.0)), n(a));
    }
    assert_eq!(n(-0.0).plus(n(0.0)), n(0.0));
}
