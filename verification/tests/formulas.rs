use magpyxl::aggregate::{
    average_values, averageif_values, count_values, countif_values, countifs_values, max_values, min_values, sum_values,
    sumif_values, sumifs_values, Pair,
};
use magpyxl::cell::CellValue;
use magpyxl::error::{Formula, FormulaError};
use magpyxl::number::Number;

fn n(x: f64) -> Number {
    Number { bits: x.to_bits() }
}

fn num(x: f64) -> CellValue {
    CellValue::Num(n(x))
}

fn text(s: &str) -> CellValue {
    CellValue::Text(s.to_string())
}

fn crit(s: &str) -> CellValue {
    text(s)
}

fn mixed() -> Vec<CellValue> {
    vec![num(3.0), text("x"), CellValue::Empty, num(1.0), num(2.0), text("5")]
}

fn depts() -> Vec<CellValue> {
    vec![text("IT"), text("HR"), text("it"), text("Ops"), text("hr")]
}

fn pay() -> Vec<CellValue> {
    vec![num(10.0), num(20.0), num(30.0), text("n/a"), num(50.0)]
}

fn pair(range: Vec<CellValue>, criteria: &str) -> Pair {
    Pair { range, criteria: crit(criteria) }
}

#[test]
fn sum_takes_the_numbers() {
    assert_eq!(sum_values(&mixed()), n(6.0));
    assert_eq!(sum_values(&vec![]), n(0.0));
    assert_eq!(sum_values(&vec![num(0.1), num(0.2), num(0.3)]), n(0.1 + 0.2 + 0.3));
}

#[test]
fn count_counts_numbers() {
    assert_eq!(count_values(&mixed()), 3);
    assert_eq!(count_values(&vec![text("1")]), 0);
}

#[test]
fn average_needs_a_number() {
    assert_eq!(average_values(&mixed()).unwrap(), n(2.0));
    assert_eq!(average_values(&vec![num(1.0), num(1.0), num(2.0)]).unwrap(), n(4.0 / 3.0));
    let e = average_values(&vec![text("a")]).unwrap_err();
    assert_eq!(e.message(), "AVERAGE: no numeric values found (division by zero)");
}

#[test]
fn min_and_max() {
    assert_eq!(min_values(&mixed()).unwrap(), n(1.0));
    assert_eq!(max_values(&mixed()).unwrap(), n(3.0));
    assert_eq!(min_values(&vec![]).unwrap_err().message(), "MIN: no numeric values found");
    assert_eq!(max_values(&vec![]).unwrap_err().message(), "MAX: no numeric values found");
    assert_eq!(min_values(&vec![num(0.0), num(-0.0)]).unwrap(), n(0.0));
    assert_eq!(max_values(&vec![num(-0.0), num(0.0)]).unwrap(), n(-0.0));
    assert_eq!(min_values(&vec![num(2.0), num(f64::NEG_INFINITY)]).unwrap(), n(f64::NEG_INFINITY));
}

#[test]
fn countif_counts() {
    assert_eq!(countif_values(&depts(), &crit("it")).unwrap(), 2);
    assert_eq!(countif_values(&depts(), &crit("<>it")).unwrap(), 3);
    assert_eq!(countif_values(&pay(), &crit(">15")).unwrap(), 3);
    assert_eq!(countif_values(&depts(), &crit("?r")).unwrap(), 2);
    assert!(matches!(
        countif_values(&depts(), &crit(">i*")),
        Err(FormulaError::InvalidCriteria(s)) if s == ">i*"
    ));
}

#[test]
fn sumif_adds_the_target() {
    assert_eq!(sumif_values(&depts(), &crit("IT"), Some(&pay())).unwrap(), n(40.0));
    assert_eq!(sumif_values(&depts(), &crit("ops"), Some(&pay())).unwrap(), n(0.0));
    assert_eq!(sumif_values(&pay(), &crit(">15"), None).unwrap(), n(100.0));
    assert_eq!(
        sumif_values(&pay(), &crit(">15"), None).unwrap(),
        sumif_values(&pay(), &crit(">15"), Some(&pay())).unwrap()
    );
}

#[test]
fn sumif_reads_the_criterion_before_the_lengths() {
    let short = vec![num(1.0)];
    let e = sumif_values(&depts(), &crit("IT"), Some(&short)).unwrap_err();
    assert_eq!(e.message(), "SUMIF: sum_range must be the same length as range");
    let e = sumif_values(&depts(), &crit(">I*"), Some(&short)).unwrap_err();
    assert!(matches!(e, FormulaError::InvalidCriteria(_)));
}

#[test]
fn averageif_needs_a_match() {
    assert_eq!(averageif_values(&depts(), &crit("hr"), Some(&pay())).unwrap(), n(35.0));
    let e = averageif_values(&depts(), &crit("ops"), Some(&pay())).unwrap_err();
    assert_eq!(e.message(), "AVERAGEIF: no matching numeric values found");
    let e = averageif_values(&depts(), &crit("ops"), Some(&vec![])).unwrap_err();
    assert_eq!(e.message(), "AVERAGEIF: average_range must be the same length as range");
    assert_eq!(averageif_values(&pay(), &crit("<=20"), None).unwrap(), n(15.0));
}

#[test]
fn countifs_joins_with_and() {
    let pairs = vec![pair(depts(), "it"), pair(pay(), ">15")];
    assert_eq!(countifs_values(&pairs).unwrap(), 1);
    let pairs = vec![pair(depts(), "it")];
    assert_eq!(countifs_values(&pairs).unwrap(), countif_values(&depts(), &crit("it")).unwrap());
}

#[test]
fn countifs_errors_come_in_order() {
    assert_eq!(
        countifs_values(&vec![]).unwrap_err().message(),
        "COUNTIFS: at least one range/criteria pair is required"
    );
    let pairs = vec![pair(depts(), ">i*"), pair(vec![], "1")];
    assert_eq!(
        countifs_values(&pairs).unwrap_err().message(),
        "COUNTIFS: all ranges must be the same length"
    );
    let pairs = vec![pair(depts(), "it"), pair(pay(), ">i*")];
    assert!(matches!(countifs_values(&pairs), Err(FormulaError::InvalidCriteria(_))));
}

#[test]
fn sumifs_adds_where_all_hold() {
    let pairs = vec![pair(depts(), "<>hr"), pair(pay(), ">=10")];
    assert_eq!(sumifs_values(&pay(), &pairs).unwrap(), n(40.0));
    let one = vec![pair(depts(), "it")];
    assert_eq!(
        sumifs_values(&pay(), &one).unwrap(),
        sumif_values(&depts(), &crit("it"), Some(&pay())).unwrap()
    );
    assert_eq!(
        sumifs_values(&vec![], &pairs).unwrap_err().message(),
        "SUMIFS: all ranges must be the same length as sum_range"
    );
    assert!(matches!(
        sumifs_values(&pay(), &vec![]),
        Err(FormulaError::NoPairs(Formula::SumIfs))
    ));
}

#[test]
fn formulas_have_names() {
    let all = [
        (Formula::Min, "MIN"),
        (Formula::Max, "MAX"),
        (Formula::Average, "AVERAGE"),
        (Formula::SumIf, "SUMIF"),
        (Formula::AverageIf, "AVERAGEIF"),
        (Formula::CountIfs, "COUNTIFS"),
        (Formula::SumIfs, "SUMIFS"),
        (Formula::AverageIfs, "AVERAGEIFS"),
        (Formula::MinIfs, "MINIFS"),
        (Formula::MaxIfs, "MAXIFS"),
        (Formula::LookupIfs, "LOOKUPIFS"),
        (Formula::Vlookup, "VLOOKUP"),
        (Formula::Xlookup, "XLOOKUP"),
    ];
    for (f, name) in all {
        assert_eq!(f.name(), name);
    }
}
