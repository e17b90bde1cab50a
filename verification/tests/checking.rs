use dslop::check::{
    file_result, frontmatter_ext, has_frontmatter_extension, metric_fix, metric_name, metrics_ext,
    pattern_findings, should_run_metrics, strip_frontmatter_in_place, Finding, MetricKind,
    MetricViolation,
};
use dslop::config::{active_patterns, Config};

fn stripped(s: &str) -> String {
    let mut t = s.to_string();
    strip_frontmatter_in_place(&mut t);
    t
}

#[test]
fn frontmatter_is_blanked() {
    assert_eq!(stripped("---\ntitle: x\n---\nBody"), "   \n        \n   \nBody");
}

#[test]
fn frontmatter_with_crlf() {
    assert_eq!(stripped("---\r\ntitle\r\n---\r\nBody"), "   \r\n     \r\n   \r\nBody");
}

#[test]
fn frontmatter_at_end_of_file() {
    assert_eq!(stripped("---\na: 1\n---"), "   \n    \n   ");
}

#[test]
fn frontmatter_without_close_is_kept() {
    assert_eq!(stripped("---\ntitle: x\nBody"), "---\ntitle: x\nBody");
}

#[test]
fn no_opening_fence_is_kept() {
    assert_eq!(stripped("--- not yaml\n---\n"), "--- not yaml\n---\n");
    assert_eq!(stripped("text\n---\nmore"), "text\n---\nmore");
}

#[test]
fn closing_fence_must_end_its_line() {
    assert_eq!(stripped("---\na\n----\nx"), "---\na\n----\nx");
}

#[test]
fn frontmatter_wide_characters_become_one_space_per_byte() {
    assert_eq!(stripped("---\nn\u{e9}\n---\nB"), "   \n   \n   \nB");
    let text = "---\na\u{2014}b\n---\nBody \u{2014} here";
    let out = stripped(text);
    assert_eq!(out.len(), text.len());
    assert_eq!(out.find("Body"), text.find("Body"));
}

#[test]
fn stripping_twice_changes_nothing_more() {
    let once = stripped("---\ntitle: x\n---\nBody");
    assert_eq!(stripped(&once), once);
}

#[test]
fn markdown_extensions() {
    assert!(has_frontmatter_extension("docs/a.md"));
    assert!(has_frontmatter_extension("a.mdx"));
    assert!(has_frontmatter_extension("a.markdown"));
    assert!(!has_frontmatter_extension("a.txt"));
    assert!(!has_frontmatter_extension("README"));
    assert!(!has_frontmatter_extension(".md"));
    assert!(!has_frontmatter_extension("a.MD"));
    assert!(frontmatter_ext(&Some("md".to_string())));
    assert!(!frontmatter_ext(&None));
}

#[test]
fn metrics_by_extension() {
    let exts = vec!["md".to_string(), "txt".to_string()];
    assert!(should_run_metrics("a.md", &exts));
    assert!(should_run_metrics("dir/notes.txt", &exts));
    assert!(!should_run_metrics("a.rs", &exts));
    assert!(!should_run_metrics("Makefile", &exts));
    assert!(should_run_metrics("a.rs", &Vec::new()));
    assert!(should_run_metrics("Makefile", &Vec::new()));
    assert!(metrics_ext(&Some("txt".to_string()), &exts));
    assert!(!metrics_ext(&None, &exts));
}

#[test]
fn findings_of_active_patterns() {
    let c: Config<f64> = Config::defaults(0.3, 1.5, 0.6);
    let ps = active_patterns(&c);
    let fs = pattern_findings("a \u{2014} b", &ps);
    assert_eq!(fs.len(), 1);
    assert_eq!(fs[0].pattern_name, "em-dash");
    assert!(fs[0].fix.starts_with("rewrite without em-dash"));
    let pos: Vec<(usize, usize)> = fs[0].matches.iter().map(|m| (m.line_number, m.column)).collect();
    assert_eq!(pos, vec![(1, 3)]);
}

#[test]
fn clean_text_has_no_findings() {
    let c: Config<f64> = Config::defaults(0.3, 1.5, 0.6);
    let ps = active_patterns(&c);
    assert!(pattern_findings("The build finished in four minutes.", &ps).is_empty());
}

#[test]
fn metric_names_and_advice() {
    assert_eq!(metric_name(MetricKind::SentenceLengthCv), "sentence-length-cv");
    assert_eq!(metric_name(MetricKind::SentenceLengthKurtosis), "sentence-length-kurtosis");
    assert_eq!(metric_name(MetricKind::WordFreqDispersion), "word-freq-dispersion");
    assert!(metric_fix(MetricKind::SentenceLengthCv).starts_with("writing has a metronomic rhythm \u{2014}"));
    let v = MetricViolation::new(MetricKind::WordFreqDispersion, 0.4, 0.6);
    assert_eq!(v.metric_name, "word-freq-dispersion");
    assert_eq!(v.score, 0.4);
    assert_eq!(v.threshold, 0.6);
}

#[test]
fn file_result_only_with_violations() {
    assert!(file_result::<f64>("a.md", Vec::new(), Vec::new()).is_none());
    let v = MetricViolation::new(MetricKind::SentenceLengthCv, 0.1, 0.3);
    let r = file_result("a.md", Vec::<Finding>::new(), vec![v]).unwrap();
    assert_eq!(r.path, "a.md");
    assert_eq!(r.metric_violations.len(), 1);
}

#[test]
fn stripping_keeps_line_breaks_and_length() {
    let text = "---\ntitle: caf\u{e9}\r\ntags: [a]\n---\nBody line\nmore";
    let out = stripped(text);
    let a = text.as_bytes();
    let b = out.as_bytes();
    assert_eq!(a.len(), b.len());
    for (x, y) in a.iter().zip(b.iter()) {
        if *x == b'\n' || *x == b'\r' {
            assert_eq!(x, y);
        } else {
            assert!(*y == b' ' || y == x);
        }
    }
    assert_eq!(out.lines().count(), text.lines().count());
    assert!(out.ends_with("Body line\nmore"));
}

#[test]
fn stripping_keeps_str_lines() {
    let text = "---\r\ntitle: caf\u{e9}\r\n---\r\nFirst line\r\nsecond \u{2014} line\n";
    let out = stripped(text);
    let a: Vec<&str> = text.lines().collect();
    let b: Vec<&str> = out.lines().collect();
    assert_eq!(a.len(), b.len());
    for i in 0..3 {
        assert!(b[i].chars().all(|c| c == ' '));
    }
    assert_eq!(&a[3..], &b[3..]);
}
