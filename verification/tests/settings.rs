use dslop::config::{
    active_patterns, config_search_dirs, enabled_patterns, kind_enabled, resolve_threshold, Config, ConfigOverrides,
    DispersionOverrides, MetricsOverrides, PatternConfig, PatternOverrides, ThresholdOrBool,
    DEFAULT_CHUNK_SIZE, DEFAULT_TOP_N,
};
use dslop::patterns::PatternKind;

fn no_pattern_overrides() -> PatternOverrides {
    PatternOverrides {
        em_dash: None,
        double_hyphen: None,
        contrastive: None,
        demonstrative_is: None,
        filler_adverbs: None,
        weasel_connectives: None,
        banned_flourish: None,
        banned_negation: None,
        negation_pair: None,
        symmetric_negation: None,
        which_chain: None,
        but_opener: None,
        aphorism: None,
        summary_capstone: None,
        declarative_callback: None,
        three_beat: None,
    }
}

fn no_metric_overrides() -> MetricsOverrides<f64> {
    MetricsOverrides {
        sentence_length_cv: None,
        sentence_length_kurtosis: None,
        word_freq_dispersion: None,
        extensions: None,
    }
}

fn defaults() -> Config<f64> {
    Config::defaults(0.3, 1.5, 0.6)
}

#[test]
fn default_configuration() {
    let c = defaults();
    assert!(c.patterns.em_dash && c.patterns.three_beat && c.patterns.banned_negation);
    assert_eq!(c.metrics.sentence_length_cv, Some(0.3));
    assert_eq!(c.metrics.sentence_length_kurtosis, Some(1.5));
    assert_eq!(c.metrics.word_freq_dispersion.threshold, Some(0.6));
    assert_eq!(c.metrics.word_freq_dispersion.chunk_size, 200);
    assert_eq!(c.metrics.word_freq_dispersion.top_n, 20);
    assert_eq!(DEFAULT_CHUNK_SIZE, 200);
    assert_eq!(DEFAULT_TOP_N, 20);
    assert_eq!(c.metrics.extensions, vec!["md", "txt", "rst", "adoc", "tex"]);
}

#[test]
fn all_patterns_active_by_default() {
    let ps = active_patterns(&defaults());
    assert_eq!(ps.len(), 16);
    assert_eq!(ps[0].name, "em-dash");
    assert_eq!(ps[1].name, "double-hyphen");
    assert_eq!(ps[15].name, "three-beat");
}

#[test]
fn disabled_patterns_are_skipped() {
    let mut c = defaults();
    let mut o = no_pattern_overrides();
    o.em_dash = Some(false);
    o.three_beat = Some(false);
    c.patterns.apply(&o);
    let ps = active_patterns(&c);
    assert_eq!(ps.len(), 14);
    assert_eq!(ps[0].name, "double-hyphen");
    assert_eq!(ps[13].name, "declarative-callback");
    assert!(!kind_enabled(&c.patterns, PatternKind::EmDash));
    assert!(kind_enabled(&c.patterns, PatternKind::Aphorism));
}

#[test]
fn overrides_replace_only_what_they_set() {
    let mut p = PatternConfig::default_config();
    let mut o = no_pattern_overrides();
    o.aphorism = Some(false);
    p.apply(&o);
    assert!(!p.aphorism);
    assert!(p.but_opener);
    o.aphorism = Some(true);
    p.apply(&o);
    assert!(p.aphorism);
    assert_eq!(enabled_patterns(&p).len(), 16);
}

#[test]
fn thresholds_resolve() {
    assert_eq!(resolve_threshold(ThresholdOrBool::Threshold(0.25), Some(0.3)), Some(0.25));
    assert_eq!(resolve_threshold(ThresholdOrBool::Disabled(false), Some(0.3)), None);
    assert_eq!(resolve_threshold(ThresholdOrBool::Disabled(true), Some(0.3)), Some(0.3));
    assert_eq!(resolve_threshold::<f64>(ThresholdOrBool::Disabled(true), None), None);
}

#[test]
fn apply_metric_settings() {
    let mut c = defaults();
    let mut m = no_metric_overrides();
    m.sentence_length_cv = Some(ThresholdOrBool::Disabled(false));
    m.sentence_length_kurtosis = Some(ThresholdOrBool::Threshold(2.0));
    m.word_freq_dispersion = Some(DispersionOverrides {
        threshold: None,
        enabled: None,
        chunk_size: Some(50),
        top_n: None,
    });
    m.extensions = Some(vec!["md".to_string()]);
    c.apply(ConfigOverrides { patterns: None, metrics: Some(m) });
    assert_eq!(c.metrics.sentence_length_cv, None);
    assert_eq!(c.metrics.sentence_length_kurtosis, Some(2.0));
    assert_eq!(c.metrics.word_freq_dispersion.threshold, Some(0.6));
    assert_eq!(c.metrics.word_freq_dispersion.chunk_size, 50);
    assert_eq!(c.metrics.word_freq_dispersion.top_n, 20);
    assert_eq!(c.metrics.extensions, vec!["md"]);
    assert!(c.patterns.em_dash);
}

#[test]
fn dispersion_can_be_disabled() {
    let mut c = defaults();
    let mut m = no_metric_overrides();
    m.word_freq_dispersion = Some(DispersionOverrides {
        threshold: Some(0.9),
        enabled: Some(false),
        chunk_size: None,
        top_n: Some(5),
    });
    c.apply(ConfigOverrides { patterns: None, metrics: Some(m) });
    assert_eq!(c.metrics.word_freq_dispersion.threshold, None);
    assert_eq!(c.metrics.word_freq_dispersion.top_n, 5);
}

#[test]
fn dispersion_threshold_replaced() {
    let mut c = defaults();
    let mut m = no_metric_overrides();
    m.word_freq_dispersion = Some(DispersionOverrides {
        threshold: Some(0.9),
        enabled: Some(true),
        chunk_size: None,
        top_n: None,
    });
    c.apply(ConfigOverrides { patterns: None, metrics: Some(m) });
    assert_eq!(c.metrics.word_freq_dispersion.threshold, Some(0.9));
}

#[test]
fn empty_file_changes_nothing() {
    let mut c = defaults();
    c.apply(ConfigOverrides { patterns: Some(no_pattern_overrides()), metrics: Some(no_metric_overrides()) });
    assert_eq!(active_patterns(&c).len(), 16);
    assert_eq!(c.metrics.sentence_length_cv, Some(0.3));
    assert_eq!(c.metrics.extensions.len(), 5);
}

#[test]
fn bare_true_keeps_the_default_threshold() {
    let mut c = defaults();
    let mut m = no_metric_overrides();
    m.sentence_length_cv = Some(ThresholdOrBool::Disabled(true));
    m.sentence_length_kurtosis = Some(ThresholdOrBool::Disabled(false));
    c.apply(ConfigOverrides { patterns: None, metrics: Some(m) });
    assert_eq!(c.metrics.sentence_length_cv, Some(0.3));
    assert_eq!(c.metrics.sentence_length_kurtosis, None);
}

#[test]
fn active_patterns_carry_their_names_and_fixes() {
    let names: Vec<&str> = active_patterns(&defaults()).iter().map(|p| p.name).collect();
    assert_eq!(
        names,
        vec![
            "em-dash", "double-hyphen", "contrastive", "demonstrative-is", "filler-adverbs",
            "weasel-connectives", "banned-flourish", "banned-negation", "negation-pair",
            "symmetric-negation", "which-chain", "but-opener", "aphorism", "summary-capstone",
            "declarative-callback", "three-beat",
        ]
    );
    let ps = active_patterns(&defaults());
    assert_eq!(ps[6].fix, "delete the flourish phrase (\"worth noting\", \"to be clear\", \"at the end of the day\", etc.); the sentence is stronger without it");
}

#[test]
fn config_search_goes_upward() {
    assert_eq!(config_search_dirs("/a/b", false), vec!["/a/b", "/a", "/"]);
    assert_eq!(config_search_dirs("/a/b/notes.md", true), vec!["/a/b", "/a", "/"]);
    assert_eq!(config_search_dirs("a", false), vec!["a", ""]);
    assert_eq!(config_search_dirs("notes.md", true), vec![""]);
    assert_eq!(config_search_dirs("", false), vec![""]);
    assert!(config_search_dirs("/", true).is_empty());
}
