use magpyxl::categories::{build_category_merge_mapping, summarize_text_column, Category, TextSummary};
use magpyxl::column::FastColumn;
use magpyxl::number::Number;
use magpyxl::summary::summarize_numeric_column;
use magpyxl::tally::tally;

fn n(x: f64) -> Number {
    Number { bits: x.to_bits() }
}

fn values(v: &[f64]) -> Vec<Number> {
    v.iter().map(|x| n(*x)).collect()
}

fn floats(v: &[f64]) -> FastColumn {
    FastColumn::Numeric(values(v))
}

fn texts(v: &[&str]) -> FastColumn {
    FastColumn::Text(v.iter().map(|s| s.to_string()).collect())
}

fn pairs(v: &[Category]) -> Vec<(&str, usize)> {
    v.iter().map(|c| (c.name.as_str(), c.count)).collect()
}

fn summary(v: &[&str], top_n: usize, max_unique: usize, ratio: f64) -> TextSummary {
    summarize_text_column(&texts(v), top_n, max_unique, n(ratio))
        .unwrap()
        .summary
        .unwrap()
}

#[test]
fn numbers_are_summarized() {
    let r = summarize_numeric_column(&floats(&[3.0, f64::NAN, -1.0, 0.0, 3.0, -0.0])).unwrap();
    assert_eq!((r.total, r.missing), (6, 1));
    let s = r.summary.unwrap();
    assert_eq!(s.sorted, values(&[-1.0, 0.0, -0.0, 3.0, 3.0]));
    assert_eq!((s.min, s.max), (n(-1.0), n(3.0)));
    assert_eq!((s.sum, s.mean, s.median), (n(5.0), n(1.0), n(-0.0)));
    assert_eq!(s.std, n((14.0f64 / 5.0).sqrt()));
    assert_eq!((s.q1, s.q3), (n(0.0), n(3.0)));
    assert_eq!((s.zeros, s.negatives, s.unique), (2, 1, 3));
    assert!(!s.is_constant);
    let s = summarize_numeric_column(&floats(&[0.0, -0.0])).unwrap().summary.unwrap();
    assert_eq!((s.unique, s.zeros, s.is_constant), (1, 2, true));
}

#[test]
fn even_numbers_have_two_in_the_middle() {
    let r = summarize_numeric_column(&FastColumn::NumericI64(vec![4, 1, 3, 2])).unwrap();
    let s = r.summary.unwrap();
    assert_eq!((s.median, s.mean, s.sum), (n(2.5), n(2.5), n(10.0)));
    assert_eq!(s.std, n(1.25f64.sqrt()));
    assert_eq!(s.outlier_count, 0);
    assert_eq!((s.q1, s.q3), (n(2.0), n(3.0)));
    assert_eq!(s.sorted, values(&[1.0, 2.0, 3.0, 4.0]));
}

#[test]
fn quarters_are_rounded_like_doubles() {
    for len in 1..200usize {
        let v: Vec<f64> = (0..len).map(|i| i as f64).collect();
        let s = summarize_numeric_column(&floats(&v)).unwrap().summary.unwrap();
        let at = |p: f64| (p * (len as f64 - 1.0)).round() as usize;
        assert_eq!(s.q1, n(at(0.25) as f64), "{}", len);
        assert_eq!(s.q3, n(at(0.75) as f64), "{}", len);
    }
}

#[test]
fn large_columns_are_sorted() {
    let mut seed: u64 = 42;
    let mut v: Vec<f64> = Vec::new();
    for _ in 0..5000 {
        seed ^= seed << 13;
        seed ^= seed >> 7;
        seed ^= seed << 17;
        v.push((seed % 1000) as f64 - 500.0);
    }
    let s = summarize_numeric_column(&floats(&v)).unwrap().summary.unwrap();
    let mut want = v.clone();
    want.sort_by(|a, b| a.partial_cmp(b).unwrap());
    assert_eq!(s.sorted, values(&want));
}

#[test]
fn blank_and_other_columns() {
    let r = summarize_numeric_column(&floats(&[f64::NAN, f64::NAN])).unwrap();
    assert_eq!((r.total, r.missing), (2, 2));
    assert!(r.summary.is_none());
    assert!(summarize_numeric_column(&texts(&["1"])).is_none());
    let s = summarize_numeric_column(&floats(&[2.0, 2.0])).unwrap().summary.unwrap();
    assert!(s.is_constant);
}

#[test]
fn outliers_are_counted() {
    let v = [10.0, 11.0, 12.0, 13.0, 14.0, 100.0, -50.0, 12.5];
    let s = summarize_numeric_column(&floats(&v)).unwrap().summary.unwrap();
    assert_eq!((s.q1, s.q3), (n(11.0), n(13.0)));
    assert_eq!(s.outlier_count, 2);
}

#[test]
fn texts_are_tallied() {
    let t = tally(&vec!["b".to_string(), "a".to_string(), "b".to_string()]);
    assert_eq!(t.names, vec!["b", "a"]);
    assert_eq!(t.counts, vec![2, 1]);
}

#[test]
fn categories_are_summarized() {
    let v = ["IT", "HR", "it", " ", "HR", "Ops", "", "HR", "IT "];
    let r = summarize_text_column(&texts(&v), 2, 10, n(0.0)).unwrap();
    assert_eq!((r.total, r.missing), (9, 2));
    let s = r.summary.unwrap();
    assert_eq!((s.texts, s.unique), (7, 5));
    assert!(s.is_categorical && !s.is_constant);
    assert_eq!(pairs(&s.top_categories), vec![("HR", 3), ("IT", 1)]);
    assert_eq!(pairs(&s.bottom_categories), vec![("it", 1), ("Ops", 1)]);
    assert_eq!(s.normalized_unique, 3);
    assert_eq!(s.near_dup_example, "IT/IT /it");
    assert_eq!((s.most_frequent.as_str(), s.most_frequent_count), ("", 0));
}

#[test]
fn the_bottom_has_at_most_five() {
    let v = ["a", "b", "c", "d", "e", "f", "g", "a"];
    let s = summary(&v, 7, 100, 0.0);
    assert_eq!(s.top_categories.len(), 7);
    assert_eq!(
        pairs(&s.bottom_categories),
        vec![("g", 1), ("f", 1), ("e", 1), ("d", 1), ("c", 1)]
    );
    assert_eq!(s.near_dup_example, "");
    assert_eq!(s.normalized_unique, 7);
    let s = summary(&v, 100, 100, 0.0);
    assert_eq!(s.top_categories.len(), 7);
}

#[test]
fn texts_that_are_no_categories() {
    let v = ["x1", "x2", "x3", "x2", "x1", "x9"];
    let s = summary(&v, 3, 2, 0.1);
    assert!(!s.is_categorical);
    assert_eq!((s.most_frequent.as_str(), s.most_frequent_count), ("x1", 2));
    assert!(s.top_categories.is_empty() && s.bottom_categories.is_empty());
    assert_eq!((s.normalized_unique, s.unique), (4, 4));
    assert!(summary(&v, 3, 2, 0.7).is_categorical);
    assert!(summary(&["k", "k"], 3, 0, 0.1).is_constant);
}

#[test]
fn looks_are_sampled() {
    let s = summary(&["12", " 3.5 ", "x", "2024-01-02", "1e5", "1/2/2023"], 3, 10, 0.0);
    assert_eq!((s.stride, s.sampled), (1, 6));
    assert_eq!((s.numeric_looking, s.date_looking), (3, 2));
    let many: Vec<String> = (0..12_345).map(|i| format!("{}", i)).collect();
    let column = FastColumn::Text(many);
    let s = summarize_text_column(&column, 1, 1, n(0.5)).unwrap().summary.unwrap();
    assert_eq!(s.stride, 2);
    assert_eq!(s.sampled, 6173);
    assert_eq!(s.numeric_looking, 12_345);
    assert_eq!(s.unique, 12_345);
}

#[test]
fn columns_without_texts() {
    assert!(summarize_text_column(&floats(&[1.0]), 1, 1, n(1.0)).is_none());
    let nulls = FastColumn::NativeText(vec![Some("a".to_string()), None]);
    assert!(summarize_text_column(&nulls, 1, 1, n(1.0)).is_none());
    let r = summarize_text_column(&floats(&[]), 1, 1, n(1.0)).unwrap();
    assert_eq!((r.total, r.missing), (0, 0));
    assert!(r.summary.is_none());
    let r = summarize_text_column(&texts(&[" ", ""]), 1, 1, n(1.0)).unwrap();
    assert_eq!((r.total, r.missing), (2, 2));
    assert!(r.summary.is_none());
    assert!(build_category_merge_mapping(&nulls).is_none());
}

#[test]
fn spellings_are_merged() {
    let merged = |v: &[&str]| {
        build_category_merge_mapping(&texts(v))
            .unwrap()
            .into_iter()
            .map(|m| (m.from, m.to))
            .collect::<Vec<(String, String)>>()
    };
    let own = |a: &str, b: &str| (a.to_string(), b.to_string());
    assert_eq!(merged(&["IT", "it"]), vec![own("it", "IT")]);
    assert_eq!(merged(&["IT", "it", "it"]), vec![own("IT", "it")]);
    assert_eq!(merged(&["IT", "it", " it "]), vec![own("it", "IT"), own(" it ", "IT")]);
    assert_eq!(merged(&["IT", "IT", " IT"]), vec![own(" IT", "IT")]);
    assert_eq!(merged(&["a", "b", "c"]), vec![]);
    assert_eq!(merged(&["HR ", " HR"]), vec![own(" HR", "HR ")]);
    assert_eq!(
        merged(&["Hr", "HR", "hr", "HR", "ops", "OPS", "", "  "]),
        vec![own("Hr", "HR"), own("hr", "HR"), own("OPS", "ops")]
    );
    assert_eq!(merged(&["ÉCOLE", "école", "École"]), vec![own("école", "ÉCOLE"), own("École", "ÉCOLE")]);
}

#[test]
fn figures_are_those_of_doubles() {
    let mut seed: u64 = 7;
    for len in [1usize, 2, 3, 10, 501, 2000] {
        let mut v: Vec<f64> = Vec::new();
        for _ in 0..len {
            seed ^= seed << 13;
            seed ^= seed >> 7;
            seed ^= seed << 17;
            v.push((seed % 1_000_003) as f64 / 97.0 - 3000.0);
        }
        let s = summarize_numeric_column(&floats(&v)).unwrap().summary.unwrap();
        let sum: f64 = v.iter().fold(0.0, |t, x| t + x);
        let mean = sum / len as f64;
        let mut sorted = v.clone();
        sorted.sort_by(|a, b| a.partial_cmp(b).unwrap());
        let variance = sorted.iter().map(|x| (x - mean) * (x - mean)).fold(0.0, |t, x| t + x) / len as f64;
        let median = if len % 2 == 0 {
            (sorted[len / 2 - 1] + sorted[len / 2]) / 2.0
        } else {
            sorted[len / 2]
        };
        let at = |p: f64| sorted[(p * (len as f64 - 1.0)).round() as usize];
        let (q1, q3) = (at(0.25), at(0.75));
        let iqr = q3 - q1;
        let outliers = sorted.iter().filter(|x| **x < q1 - 1.5 * iqr || **x > q3 + 1.5 * iqr).count();
        assert_eq!((s.sum, s.mean), (n(sum), n(mean)));
        assert_eq!(s.std, n(variance.sqrt()));
        assert_eq!(s.median, n(median));
        assert_eq!((s.q1, s.q3), (n(q1), n(q3)));
        assert_eq!(s.outlier_count, outliers);
    }
}

#[test]
fn sampled_looks_are_scaled_up() {
    for len in [9_999usize, 10_000, 15_001, 23_456] {
        let column = FastColumn::Text(
            (0..len).map(|i| if i % 7 == 0 { format!("{}", i) } else { format!("x{}", i) }).collect(),
        );
        let s = summarize_text_column(&column, 1, 1, n(0.5)).unwrap().summary.unwrap();
        let stride = (len / 5000).max(1);
        let sampled = (0..len).filter(|i| i % stride == 0).count();
        let hits = (0..len).filter(|i| i % stride == 0 && i % 7 == 0).count();
        let want = if stride > 1 {
            (hits as f64 * (len as f64 / sampled as f64)).round() as usize
        } else {
            hits
        };
        assert_eq!((s.stride, s.sampled, s.numeric_looking), (stride, sampled, want));
    }
}
