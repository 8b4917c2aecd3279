use magpyxl::aggregate::{countif_values, countifs_values, sumifs_values, Pair};
use magpyxl::batch::{
    averageif_vec_values, averageifs_vec_values, countif_vec_values, countifs_vec_values, lookupifs_indices_values,
    maxifs_vec_values, minifs_vec_values, sumif_vec_values, sumifs_vec_values, BatchPair,
};
use magpyxl::cell::CellValue;
use magpyxl::error::FormulaError;
use magpyxl::number::Number;

fn n(x: f64) -> Number {
    Number { bits: x.to_bits() }
}

fn num(x: f64) -> CellValue {
    CellValue::Num(n(x))
}

fn text(s: &str) -> CellValue {
    CellValue::Text(s.to_string())
}

fn crits(v: &[&str]) -> Vec<CellValue> {
    v.iter().map(|s| text(s)).collect()
}

fn values(v: &[f64]) -> Vec<Number> {
    v.iter().map(|x| n(*x)).collect()
}

fn depts() -> Vec<CellValue> {
    vec![text("IT"), text("HR"), text("it"), CellValue::Empty, text("HR"), text("IT")]
}

fn cities() -> Vec<CellValue> {
    vec![text("Delhi"), text("Pune"), text("Pune"), text("Pune"), text("pune"), text("DELHI")]
}

fn pay() -> Vec<CellValue> {
    vec![num(10.0), num(20.0), num(30.0), num(40.0), text("n/a"), num(60.0)]
}

fn pair(range: Vec<CellValue>, criteria: &[&str]) -> BatchPair {
    BatchPair { range, criteria: crits(criteria) }
}

#[test]
fn countif_for_many() {
    assert_eq!(countif_vec_values(&depts(), &crits(&["it", "Hr", "none"])).unwrap(), vec![3, 2, 0]);
    assert_eq!(countif_vec_values(&depts(), &crits(&["it", "h*"])).unwrap(), vec![3, 2]);
    assert_eq!(countif_vec_values(&depts(), &vec![CellValue::Empty]).unwrap(), vec![1]);
    assert_eq!(countif_vec_values(&depts(), &vec![]).unwrap(), Vec::<usize>::new());
    assert!(matches!(
        countif_vec_values(&depts(), &crits(&["it", "<a*", ">b*"])),
        Err(FormulaError::InvalidCriteria(s)) if s == "<a*"
    ));
}

#[test]
fn many_criteria_allow_for_the_tolerance() {
    let range = vec![num(0.1 + 0.2), num(0.3), num(f64::INFINITY), num(-0.0), num(0.0)];
    assert_eq!(countif_vec_values(&range, &vec![num(0.3)]).unwrap(), vec![2]);
    assert_eq!(countif_vec_values(&range, &crits(&["0.3", ">5"])).unwrap(), vec![2, 1]);
    assert_eq!(countif_values(&range, &num(0.3)).unwrap(), 2);
    assert_eq!(countif_vec_values(&vec![num(0.30000000000000004)], &vec![num(0.3)]).unwrap(), vec![1]);
    assert_eq!(countif_vec_values(&range, &vec![num(0.0), num(-0.0)]).unwrap(), vec![2, 2]);
    assert_eq!(countif_vec_values(&range, &vec![num(f64::INFINITY)]).unwrap(), vec![0]);
    assert_eq!(countif_values(&range, &num(f64::INFINITY)).unwrap(), 0);
    assert_eq!(countif_vec_values(&range, &vec![num(f64::NAN)]).unwrap(), vec![0]);
}

#[test]
fn near_numbers_are_found_in_row_order() {
    let range = vec![
        num(2.0000000004),
        num(5.0),
        num(2.0),
        text("2"),
        num(1.9999999996),
        num(2.0),
        num(2.1),
        num(f64::NEG_INFINITY),
    ];
    let pairs = vec![BatchPair { range: range.clone(), criteria: vec![num(2.0), num(2.0000000009), num(7.0)] }];
    assert_eq!(lookupifs_indices_values(&pairs).unwrap(), vec![vec![0, 2, 4, 5], vec![0, 2, 5], vec![]]);
    let mut seed: u64 = 99;
    let mut cells: Vec<CellValue> = Vec::new();
    for _ in 0..400 {
        seed ^= seed << 13;
        seed ^= seed >> 7;
        seed ^= seed << 17;
        cells.push(num((seed % 23) as f64 + (seed % 5) as f64 * 4e-10));
    }
    let wanted: Vec<CellValue> = (0..23).map(|k| num(k as f64 + 8e-10)).collect();
    let counts = countif_vec_values(&cells, &wanted).unwrap();
    for (k, w) in wanted.iter().enumerate() {
        assert_eq!(counts[k], countif_values(&cells, w).unwrap());
    }
}

#[test]
fn sumif_for_many() {
    assert_eq!(
        sumif_vec_values(&depts(), &crits(&["it", "hr", "x"]), Some(&pay())).unwrap(),
        values(&[100.0, 20.0, 0.0])
    );
    assert_eq!(
        sumif_vec_values(&pay(), &crits(&[">25", "10"]), None).unwrap(),
        values(&[130.0, 10.0])
    );
    let e = sumif_vec_values(&depts(), &crits(&[">a*"]), Some(&vec![])).unwrap_err();
    assert_eq!(e.message(), "SUMIF: sum_range must be the same length as range");
}

#[test]
fn averageif_for_many() {
    assert_eq!(
        averageif_vec_values(&depts(), &crits(&["hr", "x"]), Some(&pay())).unwrap(),
        vec![Some(n(20.0)), None]
    );
    assert_eq!(
        averageif_vec_values(&pay(), &crits(&["<=20", "n/a"]), None).unwrap(),
        vec![Some(n(15.0)), None]
    );
    let e = averageif_vec_values(&depts(), &crits(&["x"]), Some(&vec![])).unwrap_err();
    assert_eq!(e.message(), "AVERAGEIF: average_range must be the same length as range");
}

#[test]
fn countifs_for_many() {
    let pairs = vec![
        pair(depts(), &["IT", "HR", "IT", "OPS"]),
        pair(cities(), &["delhi", "Pune", "Pune", "Pune"]),
    ];
    assert_eq!(countifs_vec_values(&pairs).unwrap(), vec![2, 2, 1, 0]);
    let pairs = vec![
        pair(depts(), &["IT", "*"]),
        pair(cities(), &["delhi", "Pune"]),
    ];
    assert_eq!(countifs_vec_values(&pairs).unwrap(), vec![2, 3]);
}

#[test]
fn batches_refuse_what_does_not_fit() {
    assert_eq!(
        countifs_vec_values(&vec![]).unwrap_err().message(),
        "COUNTIFS: at least one range/criteria pair is required"
    );
    let pairs = vec![pair(depts(), &["IT", "HR"]), pair(cities(), &["x"])];
    assert_eq!(
        countifs_vec_values(&pairs).unwrap_err().message(),
        "COUNTIFS: all criteria columns must be the same length"
    );
    let pairs = vec![pair(depts(), &["IT"]), pair(vec![], &["x", "y"])];
    assert_eq!(
        countifs_vec_values(&pairs).unwrap_err().message(),
        "COUNTIFS: all ranges must be the same length"
    );
    let pairs = vec![pair(depts(), &[">a*"]), pair(cities(), &["x"])];
    assert!(matches!(countifs_vec_values(&pairs), Err(FormulaError::InvalidCriteria(s)) if s == ">a*"));
    let pairs = vec![pair(depts(), &["IT"])];
    assert_eq!(
        sumifs_vec_values(&vec![], &pairs).unwrap_err().message(),
        "SUMIFS: all ranges must be the same length as sum_range"
    );
    assert_eq!(
        averageifs_vec_values(&vec![], &pairs).unwrap_err().message(),
        "AVERAGEIFS: all ranges must be the same length as average_range"
    );
    assert_eq!(
        minifs_vec_values(&vec![], &pairs).unwrap_err().message(),
        "MINIFS: all ranges must be the same length as min_range"
    );
    assert_eq!(
        maxifs_vec_values(&vec![], &pairs).unwrap_err().message(),
        "MAXIFS: all ranges must be the same length as max_range"
    );
    assert_eq!(
        lookupifs_indices_values(&vec![]).unwrap_err().message(),
        "LOOKUPIFS: at least one range/criteria pair is required"
    );
}

#[test]
fn sumifs_for_many() {
    let pairs = vec![
        pair(depts(), &["IT", "HR", "x"]),
        pair(cities(), &["DELHI", "pune", "pune"]),
    ];
    assert_eq!(
        sumifs_vec_values(&pay(), &pairs).unwrap(),
        values(&[70.0, 20.0, 0.0])
    );
    assert_eq!(
        averageifs_vec_values(&pay(), &pairs).unwrap(),
        vec![Some(n(35.0)), Some(n(20.0)), None]
    );
}

#[test]
fn extremes_for_many() {
    let pairs = vec![pair(depts(), &["IT", "HR", "x"])];
    assert_eq!(minifs_vec_values(&pay(), &pairs).unwrap(), values(&[10.0, 20.0, 0.0]));
    assert_eq!(maxifs_vec_values(&pay(), &pairs).unwrap(), values(&[60.0, 20.0, 0.0]));
    let near = vec![BatchPair { range: vec![num(0.1 + 0.2)], criteria: crits(&["0.3"]) }];
    assert_eq!(maxifs_vec_values(&vec![num(-7.0)], &near).unwrap(), values(&[-7.0]));
}

#[test]
fn lookupifs_gives_rows() {
    let pairs = vec![
        pair(depts(), &["IT", "HR", "x"]),
        pair(cities(), &["delhi", "pune", "pune"]),
    ];
    assert_eq!(lookupifs_indices_values(&pairs).unwrap(), vec![vec![0, 5], vec![1, 4], vec![]]);
    let counts = countifs_vec_values(&pairs).unwrap();
    let rows = lookupifs_indices_values(&pairs).unwrap();
    for k in 0..counts.len() {
        assert_eq!(counts[k], rows[k].len());
    }
    let pairs = vec![pair(pay(), &[">15", "<15"])];
    assert_eq!(lookupifs_indices_values(&pairs).unwrap(), vec![vec![1, 2, 3, 5], vec![0]]);
    let blank = vec![BatchPair { range: depts(), criteria: vec![CellValue::Empty] }];
    assert_eq!(lookupifs_indices_values(&blank).unwrap(), vec![vec![3]]);
}

#[test]
fn a_batch_is_its_rows_one_by_one() {
    for list in [vec!["IT", "HR", "zz"], vec!["I*", "<>HR", "it"]] {
        let cities_list = vec!["pune", "Delhi", "pune"];
        let pairs = vec![pair(depts(), &list), pair(cities(), &cities_list)];
        let counts = countifs_vec_values(&pairs).unwrap();
        let sums = sumifs_vec_values(&pay(), &pairs).unwrap();
        for row in 0..3 {
            let one = vec![
                Pair { range: depts(), criteria: text(list[row]) },
                Pair { range: cities(), criteria: text(cities_list[row]) },
            ];
            assert_eq!(counts[row], countifs_values(&one).unwrap());
            assert_eq!(sums[row], sumifs_values(&pay(), &one).unwrap());
        }
    }
}

#[test]
fn a_large_batch_is_counted() {
    let range: Vec<CellValue> = (0..1000).map(|i| num((i % 7) as f64)).collect();
    let other: Vec<CellValue> = (0..1000).map(|i| text(if i % 2 == 0 { "Even" } else { "Odd" })).collect();
    let mut a: Vec<CellValue> = Vec::new();
    let mut b: Vec<CellValue> = Vec::new();
    for k in 0..14 {
        a.push(num((k % 7) as f64));
        b.push(text(if k < 7 { "even" } else { "odd" }));
    }
    let pairs = vec![
        BatchPair { range, criteria: a },
        BatchPair { range: other, criteria: b },
    ];
    let counts = countifs_vec_values(&pairs).unwrap();
    for k in 0..14usize {
        let want = (0..1000usize).filter(|i| i % 7 == k % 7 && (i % 2 == 0) == (k < 7)).count();
        assert_eq!(counts[k], want);
    }
}
