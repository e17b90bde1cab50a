use dslop::check::{file_result, Finding, MetricKind, MetricViolation};
use dslop::report::{report_fixes, unique_fixes, violation_total, FixNote};
use dslop::text::Match;

fn note(name: &str, fix: &str) -> FixNote {
    FixNote { name: name.to_string(), fix: fix.to_string() }
}

fn finding(name: &'static str, fix: &'static str, n: usize) -> Finding {
    let matches = (0..n).map(|i| Match { line_number: i + 1, column: 1 }).collect();
    Finding { pattern_name: name, fix, matches }
}

#[test]
fn one_fix_per_name_first_wins() {
    let notes = vec![note("a", "fix a"), note("b", "fix b"), note("a", "other a"), note("c", "fix c")];
    let r = unique_fixes(&notes);
    let got: Vec<(String, String)> = r.into_iter().map(|n| (n.name, n.fix)).collect();
    assert_eq!(
        got,
        vec![
            ("a".to_string(), "fix a".to_string()),
            ("b".to_string(), "fix b".to_string()),
            ("c".to_string(), "fix c".to_string()),
        ]
    );
}

#[test]
fn no_notes_no_fixes() {
    assert!(unique_fixes(&Vec::new()).is_empty());
}

#[test]
fn totals_and_fixes_over_results() {
    let r1 = file_result(
        "a.md",
        vec![finding("em-dash", "no dashes", 2), finding("aphorism", "no aphorisms", 1)],
        vec![MetricViolation::new(MetricKind::SentenceLengthCv, 0.1, 0.3)],
    )
    .unwrap();
    let r2 = file_result("b.md", vec![finding("em-dash", "no dashes", 3)], Vec::<MetricViolation<f64>>::new())
        .unwrap();
    let results = vec![r1, r2];
    assert_eq!(violation_total(&results), 7);
    let fixes = report_fixes(&results);
    let names: Vec<String> = fixes.iter().map(|n| n.name.clone()).collect();
    assert_eq!(names, vec!["em-dash", "aphorism", "sentence-length-cv"]);
    assert_eq!(fixes[0].fix, "no dashes");
}

#[test]
fn no_results_no_violations() {
    let results: Vec<dslop::check::FileResult<f64>> = Vec::new();
    assert_eq!(violation_total(&results), 0);
    assert!(report_fixes(&results).is_empty());
}
