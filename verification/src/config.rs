//! Which patterns are enabled, how configuration overrides apply, and
//! where the configuration file is looked for.
use vstd::prelude::*;

use crate::patterns::{Pattern, PatternKind, kind_fix, kind_name, pattern_of};

verus! {

/// Which patterns are enabled.
pub struct PatternConfig {
    pub em_dash: bool,
    pub double_hyphen: bool,
    pub contrastive: bool,
    pub demonstrative_is: bool,
    pub filler_adverbs: bool,
    pub weasel_connectives: bool,
    pub banned_flourish: bool,
    pub banned_negation: bool,
    pub negation_pair: bool,
    pub symmetric_negation: bool,
    pub which_chain: bool,
    pub but_opener: bool,
    pub aphorism: bool,
    pub summary_capstone: bool,
    pub declarative_callback: bool,
    pub three_beat: bool,
}

/// Pattern settings read from a configuration file; `None` keeps the
/// current setting.
pub struct PatternOverrides {
    pub em_dash: Option<bool>,
    pub double_hyphen: Option<bool>,
    pub contrastive: Option<bool>,
    pub demonstrative_is: Option<bool>,
    pub filler_adverbs: Option<bool>,
    pub weasel_connectives: Option<bool>,
    pub banned_flourish: Option<bool>,
    pub banned_negation: Option<bool>,
    pub negation_pair: Option<bool>,
    pub symmetric_negation: Option<bool>,
    pub which_chain: Option<bool>,
    pub but_opener: Option<bool>,
    pub aphorism: Option<bool>,
    pub summary_capstone: Option<bool>,
    pub declarative_callback: Option<bool>,
    pub three_beat: Option<bool>,
}

/// The setting after an override: the override's value if it has one.
pub open spec fn overridden(o: Option<bool>, current: bool) -> bool {
    match o {
        Some(v) => v,
        None => current,
    }
}

/// Whether the pattern of `kind` is enabled.
pub open spec fn enabled(c: PatternConfig, kind: PatternKind) -> bool {
    match kind {
        PatternKind::EmDash => c.em_dash,
        PatternKind::DoubleHyphen => c.double_hyphen,
        PatternKind::Contrastive => c.contrastive,
        PatternKind::DemonstrativeIs => c.demonstrative_is,
        PatternKind::FillerAdverbs => c.filler_adverbs,
        PatternKind::WeaselConnectives => c.weasel_connectives,
        PatternKind::BannedFlourish => c.banned_flourish,
        PatternKind::BannedNegation => c.banned_negation,
        PatternKind::NegationPair => c.negation_pair,
        PatternKind::SymmetricNegation => c.symmetric_negation,
        PatternKind::WhichChain => c.which_chain,
        PatternKind::ButOpener => c.but_opener,
        PatternKind::Aphorism => c.aphorism,
        PatternKind::SummaryCapstone => c.summary_capstone,
        PatternKind::DeclarativeCallback => c.declarative_callback,
        PatternKind::ThreeBeat => c.three_beat,
    }
}

/// The override of `kind`.
pub open spec fn override_of(o: PatternOverrides, kind: PatternKind) -> Option<bool> {
    match kind {
        PatternKind::EmDash => o.em_dash,
        PatternKind::DoubleHyphen => o.double_hyphen,
        PatternKind::Contrastive => o.contrastive,
        PatternKind::DemonstrativeIs => o.demonstrative_is,
        PatternKind::FillerAdverbs => o.filler_adverbs,
        PatternKind::WeaselConnectives => o.weasel_connectives,
        PatternKind::BannedFlourish => o.banned_flourish,
        PatternKind::BannedNegation => o.banned_negation,
        PatternKind::NegationPair => o.negation_pair,
        PatternKind::SymmetricNegation => o.symmetric_negation,
        PatternKind::WhichChain => o.which_chain,
        PatternKind::ButOpener => o.but_opener,
        PatternKind::Aphorism => o.aphorism,
        PatternKind::SummaryCapstone => o.summary_capstone,
        PatternKind::DeclarativeCallback => o.declarative_callback,
        PatternKind::ThreeBeat => o.three_beat,
    }
}

/// The patterns in their fixed order.
pub open spec fn all_kinds() -> Seq<PatternKind> {
    seq![
        PatternKind::EmDash,
        PatternKind::DoubleHyphen,
        PatternKind::Contrastive,
        PatternKind::DemonstrativeIs,
        PatternKind::FillerAdverbs,
        PatternKind::WeaselConnectives,
        PatternKind::BannedFlourish,
        PatternKind::BannedNegation,
        PatternKind::NegationPair,
        PatternKind::SymmetricNegation,
        PatternKind::WhichChain,
        PatternKind::ButOpener,
        PatternKind::Aphorism,
        PatternKind::SummaryCapstone,
        PatternKind::DeclarativeCallback,
        PatternKind::ThreeBeat,
    ]
}

/// The enabled patterns, in the fixed order.
pub open spec fn enabled_kinds(c: PatternConfig) -> Seq<PatternKind> {
    all_kinds().filter(|k: PatternKind| enabled(c, k))
}

/// The override's value if it has one, else the current setting.
fn merge(o: Option<bool>, current: bool) -> (r: bool)
    ensures
        r == overridden(o, current),
{
    match o {
        Some(v) => v,
        None => current,
    }
}

impl PatternConfig {
    /// Every pattern enabled.
    pub fn default_config() -> (r: PatternConfig)
        ensures
            forall|k: PatternKind| #[trigger] enabled(r, k),
    {
        PatternConfig {
            em_dash: true,
            double_hyphen: true,
            contrastive: true,
            demonstrative_is: true,
            filler_adverbs: true,
            weasel_connectives: true,
            banned_flourish: true,
            banned_negation: true,
            negation_pair: true,
            symmetric_negation: true,
            which_chain: true,
            but_opener: true,
            aphorism: true,
            summary_capstone: true,
            declarative_callback: true,
            three_beat: true,
        }
    }

    /// Apply the pattern settings of a configuration file.
    pub fn apply(&mut self, o: &PatternOverrides)
        ensures
            final(self).em_dash == overridden(o.em_dash, old(self).em_dash),
            final(self).double_hyphen == overridden(o.double_hyphen, old(self).double_hyphen),
            final(self).contrastive == overridden(o.contrastive, old(self).contrastive),
            final(self).demonstrative_is == overridden(o.demonstrative_is, old(self).demonstrative_is),
            final(self).filler_adverbs == overridden(o.filler_adverbs, old(self).filler_adverbs),
            final(self).weasel_connectives == overridden(o.weasel_connectives, old(self).weasel_connectives),
            final(self).banned_flourish == overridden(o.banned_flourish, old(self).banned_flourish),
            final(self).banned_negation == overridden(o.banned_negation, old(self).banned_negation),
            final(self).negation_pair == overridden(o.negation_pair, old(self).negation_pair),
            final(self).symmetric_negation == overridden(o.symmetric_negation, old(self).symmetric_negation),
            final(self).which_chain == overridden(o.which_chain, old(self).which_chain),
            final(self).but_opener == overridden(o.but_opener, old(self).but_opener),
            final(self).aphorism == overridden(o.aphorism, old(self).aphorism),
            final(self).summary_capstone == overridden(o.summary_capstone, old(self).summary_capstone),
            final(self).declarative_callback == overridden(o.declarative_callback, old(self).declarative_callback),
            final(self).three_beat == overridden(o.three_beat, old(self).three_beat),
    {
        let next = PatternConfig {
            em_dash: merge(o.em_dash, self.em_dash),
            double_hyphen: merge(o.double_hyphen, self.double_hyphen),
            contrastive: merge(o.contrastive, self.contrastive),
            demonstrative_is: merge(o.demonstrative_is, self.demonstrative_is),
            filler_adverbs: merge(o.filler_adverbs, self.filler_adverbs),
            weasel_connectives: merge(o.weasel_connectives, self.weasel_connectives),
            banned_flourish: merge(o.banned_flourish, self.banned_flourish),
            banned_negation: merge(o.banned_negation, self.banned_negation),
            negation_pair: merge(o.negation_pair, self.negation_pair),
            symmetric_negation: merge(o.symmetric_negation, self.symmetric_negation),
            which_chain: merge(o.which_chain, self.which_chain),
            but_opener: merge(o.but_opener, self.but_opener),
            aphorism: merge(o.aphorism, self.aphorism),
            summary_capstone: merge(o.summary_capstone, self.summary_capstone),
            declarative_callback: merge(o.declarative_callback, self.declarative_callback),
            three_beat: merge(o.three_beat, self.three_beat),
        };
        *self = next;
    }
}

/// The enabled patterns, in the fixed order of the pattern table.
pub fn active_patterns<T>(config: &Config<T>) -> (r: Vec<Pattern>)
    ensures
        r@.map_values(|p: Pattern| p.kind) == enabled_kinds(config.patterns),
        forall|i: int|
            0 <= i < r@.len() ==> (#[trigger] r@[i]).name@ == kind_name(r@[i].kind) && r@[i].fix@
                == kind_fix(r@[i].kind),
{
    enabled_patterns(&config.patterns)
}

/// The patterns that `config` enables, in the fixed order of the pattern table.
pub fn enabled_patterns(config: &PatternConfig) -> (r: Vec<Pattern>)
    ensures
        r@.map_values(|p: Pattern| p.kind) == enabled_kinds(*config),
        forall|i: int|
            0 <= i < r@.len() ==> (#[trigger] r@[i]).name@ == kind_name(r@[i].kind) && r@[i].fix@
                == kind_fix(r@[i].kind),
{
    let mut out: Vec<Pattern> = Vec::new();
    let ghost kinds = all_kinds();
    let mut i: usize = 0;
    while i < 16
        invariant
            i <= 16,
            kinds == all_kinds(),
            out@.map_values(|p: Pattern| p.kind) == kinds.take(i as int).filter(
                |k: PatternKind| enabled(*config, k),
            ),
            forall|j: int|
                0 <= j < out@.len() ==> (#[trigger] out@[j]).name@ == kind_name(out@[j].kind)
                    && out@[j].fix@ == kind_fix(out@[j].kind),
        decreases 16 - i,
    {
        let kind = kind_at(i);
        assert(kinds.take(i + 1).drop_last() =~= kinds.take(i as int));
        reveal_with_fuel(Seq::filter, 1);
        if kind_enabled(config, kind) {
            let ghost before = out@;
            out.push(pattern_of(kind));
            assert(out@.map_values(|p: Pattern| p.kind) =~= before.map_values(|p: Pattern| p.kind).push(kind));
        }
        i = i + 1;
    }
    assert(kinds.take(16) =~= kinds);
    out
}

/// The pattern kind at position `i` of the fixed order.
fn kind_at(i: usize) -> (r: PatternKind)
    requires
        i < 16,
    ensures
        r == all_kinds()[i as int],
{
    match i {
        0 => PatternKind::EmDash,
        1 => PatternKind::DoubleHyphen,
        2 => PatternKind::Contrastive,
        3 => PatternKind::DemonstrativeIs,
        4 => PatternKind::FillerAdverbs,
        5 => PatternKind::WeaselConnectives,
        6 => PatternKind::BannedFlourish,
        7 => PatternKind::BannedNegation,
        8 => PatternKind::NegationPair,
        9 => PatternKind::SymmetricNegation,
        10 => PatternKind::WhichChain,
        11 => PatternKind::ButOpener,
        12 => PatternKind::Aphorism,
        13 => PatternKind::SummaryCapstone,
        14 => PatternKind::DeclarativeCallback,
        _ => PatternKind::ThreeBeat,
    }
}

/// Whether `config` enables the pattern of `kind`.
pub fn kind_enabled(config: &PatternConfig, kind: PatternKind) -> (r: bool)
    ensures
        r == enabled(*config, kind),
{
    match kind {
        PatternKind::EmDash => config.em_dash,
        PatternKind::DoubleHyphen => config.double_hyphen,
        PatternKind::Contrastive => config.contrastive,
        PatternKind::DemonstrativeIs => config.demonstrative_is,
        PatternKind::FillerAdverbs => config.filler_adverbs,
        PatternKind::WeaselConnectives => config.weasel_connectives,
        PatternKind::BannedFlourish => config.banned_flourish,
        PatternKind::BannedNegation => config.banned_negation,
        PatternKind::NegationPair => config.negation_pair,
        PatternKind::SymmetricNegation => config.symmetric_negation,
        PatternKind::WhichChain => config.which_chain,
        PatternKind::ButOpener => config.but_opener,
        PatternKind::Aphorism => config.aphorism,
        PatternKind::SummaryCapstone => config.summary_capstone,
        PatternKind::DeclarativeCallback => config.declarative_callback,
        PatternKind::ThreeBeat => config.three_beat,
    }
}


/// With every pattern enabled, every pattern is active, in the fixed order.
pub proof fn lemma_all_enabled(c: PatternConfig)
    requires
        forall|k: PatternKind| #[trigger] enabled(c, k),
    ensures
        enabled_kinds(c) == all_kinds(),
{
    let ks = all_kinds();
    let keep = |k: PatternKind| enabled(c, k);
    assert forall|i: int| 0 <= i <= ks.len() implies #[trigger] ks.take(i).filter(keep) == ks.take(i) by {
        lemma_filter_all(ks, keep, i);
    }
    assert(ks.take(ks.len() as int) =~= ks);
}

proof fn lemma_filter_all(ks: Seq<PatternKind>, keep: spec_fn(PatternKind) -> bool, i: int)
    requires
        0 <= i <= ks.len(),
        forall|k: PatternKind| #[trigger] keep(k),
    ensures
        ks.take(i).filter(keep) == ks.take(i),
    decreases i,
{
    reveal_with_fuel(Seq::filter, 1);
    if i > 0 {
        lemma_filter_all(ks, keep, i - 1);
        assert(ks.take(i).drop_last() =~= ks.take(i - 1));
        assert(ks.take(i - 1).push(ks[i - 1]) =~= ks.take(i));
    } else {
        assert(ks.take(0) =~= Seq::<PatternKind>::empty());
    }
}

// ---- the whole configuration ----

/// A metric threshold as a configuration file gives it: a value, or a
/// boolean (`false` disables the metric, `true` keeps its threshold).
pub enum ThresholdOrBool<T> {
    Threshold(T),
    Disabled(bool),
}

/// Settings of the word-frequency statistic. `threshold` is `None` when the
/// statistic is disabled.
pub struct DispersionConfig<T> {
    pub threshold: Option<T>,
    pub chunk_size: usize,
    pub top_n: usize,
}

/// Settings of the file-level statistics, over a threshold type `T`. A
/// threshold of `None` disables its metric; the metrics run on files with
/// one of `extensions` (on every file when it is empty).
pub struct MetricsConfig<T> {
    pub sentence_length_cv: Option<T>,
    pub sentence_length_kurtosis: Option<T>,
    pub word_freq_dispersion: DispersionConfig<T>,
    pub extensions: Vec<String>,
}

/// The configuration with defaults applied.
pub struct Config<T> {
    pub patterns: PatternConfig,
    pub metrics: MetricsConfig<T>,
}

/// Word-frequency settings read from a configuration file.
pub struct DispersionOverrides<T> {
    pub threshold: Option<T>,
    pub enabled: Option<bool>,
    pub chunk_size: Option<usize>,
    pub top_n: Option<usize>,
}

/// Metric settings read from a configuration file.
pub struct MetricsOverrides<T> {
    pub sentence_length_cv: Option<ThresholdOrBool<T>>,
    pub sentence_length_kurtosis: Option<ThresholdOrBool<T>>,
    pub word_freq_dispersion: Option<DispersionOverrides<T>>,
    pub extensions: Option<Vec<String>>,
}

/// Everything a configuration file sets; what it leaves out is `None`.
pub struct ConfigOverrides<T> {
    pub patterns: Option<PatternOverrides>,
    pub metrics: Option<MetricsOverrides<T>>,
}

/// The threshold after a configured value: a value replaces it, `false`
/// disables the metric, and a bare `true` keeps the current threshold.
pub open spec fn threshold_of<T>(v: ThresholdOrBool<T>, current: Option<T>) -> Option<T> {
    match v {
        ThresholdOrBool::Threshold(t) => Some(t),
        ThresholdOrBool::Disabled(false) => None,
        ThresholdOrBool::Disabled(true) => current,
    }
}

/// Apply a configured threshold to the current one.
pub fn resolve_threshold<T>(v: ThresholdOrBool<T>, current: Option<T>) -> (r: Option<T>)
    ensures
        r == threshold_of(v, current),
{
    match v {
        ThresholdOrBool::Threshold(t) => Some(t),
        ThresholdOrBool::Disabled(b) => {
            if b {
                current
            } else {
                None
            }
        },
    }
}

/// A threshold after an optional override.
pub open spec fn threshold_after<T>(o: Option<ThresholdOrBool<T>>, current: Option<T>) -> Option<T> {
    match o {
        Some(v) => threshold_of(v, current),
        None => current,
    }
}

/// The word-frequency threshold after its settings: disabled by
/// `enabled = false`, else replaced by a given threshold, else kept.
pub open spec fn dispersion_threshold_after<T>(d: DispersionOverrides<T>, current: Option<T>) -> Option<T> {
    if d.enabled == Some(false) {
        None
    } else {
        match d.threshold {
            Some(v) => Some(v),
            None => current,
        }
    }
}

/// The word-frequency settings of a configuration file decide its
/// threshold thus: `enabled = false` disables the statistic; otherwise a
/// given threshold is the new threshold, whether or not `enabled` is
/// written; without either, the threshold stays.
pub proof fn lemma_dispersion_threshold<T>(d: DispersionOverrides<T>, current: Option<T>)
    ensures
        d.enabled == Some(false) ==> dispersion_threshold_after(d, current) is None,
        d.enabled != Some(false) && d.threshold is Some ==> dispersion_threshold_after(d, current)
            == d.threshold,
        d.enabled != Some(false) && d.threshold is None ==> dispersion_threshold_after(d, current)
            == current,
{
}

/// A value after an optional override.
pub open spec fn value_after<V>(o: Option<V>, current: V) -> V {
    match o {
        Some(v) => v,
        None => current,
    }
}

/// The pattern settings after optional overrides.
pub open spec fn patterns_after(o: Option<PatternOverrides>, c: PatternConfig) -> PatternConfig {
    match o {
        Some(p) => PatternConfig {
            em_dash: overridden(p.em_dash, c.em_dash),
            double_hyphen: overridden(p.double_hyphen, c.double_hyphen),
            contrastive: overridden(p.contrastive, c.contrastive),
            demonstrative_is: overridden(p.demonstrative_is, c.demonstrative_is),
            filler_adverbs: overridden(p.filler_adverbs, c.filler_adverbs),
            weasel_connectives: overridden(p.weasel_connectives, c.weasel_connectives),
            banned_flourish: overridden(p.banned_flourish, c.banned_flourish),
            banned_negation: overridden(p.banned_negation, c.banned_negation),
            negation_pair: overridden(p.negation_pair, c.negation_pair),
            symmetric_negation: overridden(p.symmetric_negation, c.symmetric_negation),
            which_chain: overridden(p.which_chain, c.which_chain),
            but_opener: overridden(p.but_opener, c.but_opener),
            aphorism: overridden(p.aphorism, c.aphorism),
            summary_capstone: overridden(p.summary_capstone, c.summary_capstone),
            declarative_callback: overridden(p.declarative_callback, c.declarative_callback),
            three_beat: overridden(p.three_beat, c.three_beat),
        },
        None => c,
    }
}

/// A value after an optional override (executable).
fn take_or<V>(o: Option<V>, current: V) -> (r: V)
    ensures
        r == value_after(o, current),
{
    match o {
        Some(v) => v,
        None => current,
    }
}

/// The extensions the metrics run on by default.
pub open spec fn default_extensions() -> Seq<Seq<char>> {
    seq!["md"@, "txt"@, "rst"@, "adoc"@, "tex"@]
}

/// Default word-frequency chunk size, in words.
pub const DEFAULT_CHUNK_SIZE: usize = 200;

/// Default number of most frequent words the word-frequency statistic uses.
pub const DEFAULT_TOP_N: usize = 20;

impl<T> Config<T> {
    /// The default configuration: every pattern enabled, each metric at the
    /// given default threshold, word-frequency chunks of 200 words over the
    /// 20 most frequent words, metrics on `md`, `txt`, `rst`, `adoc` and
    /// `tex` files.
    pub fn defaults(cv: T, kurtosis: T, dispersion: T) -> (r: Config<T>)
        ensures
            forall|k: PatternKind| #[trigger] enabled(r.patterns, k),
            r.metrics.sentence_length_cv == Some(cv),
            r.metrics.sentence_length_kurtosis == Some(kurtosis),
            r.metrics.word_freq_dispersion.threshold == Some(dispersion),
            r.metrics.word_freq_dispersion.chunk_size == DEFAULT_CHUNK_SIZE,
            r.metrics.word_freq_dispersion.top_n == DEFAULT_TOP_N,
            r.metrics.extensions@.map_values(|e: String| e@) == default_extensions(),
    {
        let mut extensions: Vec<String> = Vec::new();
        extensions.push(String::from_str("md"));
        extensions.push(String::from_str("txt"));
        extensions.push(String::from_str("rst"));
        extensions.push(String::from_str("adoc"));
        extensions.push(String::from_str("tex"));
        assert(extensions@.map_values(|e: String| e@) =~= default_extensions());
        Config {
            patterns: PatternConfig::default_config(),
            metrics: MetricsConfig {
                sentence_length_cv: Some(cv),
                sentence_length_kurtosis: Some(kurtosis),
                word_freq_dispersion: DispersionConfig {
                    threshold: Some(dispersion),
                    chunk_size: DEFAULT_CHUNK_SIZE,
                    top_n: DEFAULT_TOP_N,
                },
                extensions,
            },
        }
    }

    /// Apply the settings of a configuration file: each setting it gives
    /// replaces the current one, the rest stay.
    pub fn apply(&mut self, raw: ConfigOverrides<T>)
        ensures
            final(self).patterns == patterns_after(raw.patterns, old(self).patterns),
            final(self).metrics.sentence_length_cv == match raw.metrics {
                Some(m) => threshold_after(m.sentence_length_cv, old(self).metrics.sentence_length_cv),
                None => old(self).metrics.sentence_length_cv,
            },
            final(self).metrics.sentence_length_kurtosis == match raw.metrics {
                Some(m) => threshold_after(
                    m.sentence_length_kurtosis,
                    old(self).metrics.sentence_length_kurtosis,
                ),
                None => old(self).metrics.sentence_length_kurtosis,
            },
            final(self).metrics.word_freq_dispersion == match raw.metrics {
                Some(m) => match m.word_freq_dispersion {
                    Some(d) => DispersionConfig {
                        threshold: dispersion_threshold_after(
                            d,
                            old(self).metrics.word_freq_dispersion.threshold,
                        ),
                        chunk_size: value_after(
                            d.chunk_size,
                            old(self).metrics.word_freq_dispersion.chunk_size,
                        ),
                        top_n: value_after(d.top_n, old(self).metrics.word_freq_dispersion.top_n),
                    },
                    None => old(self).metrics.word_freq_dispersion,
                },
                None => old(self).metrics.word_freq_dispersion,
            },
            final(self).metrics.extensions@ == match raw.metrics {
                Some(m) => match m.extensions {
                    Some(v) => v@,
                    None => old(self).metrics.extensions@,
                },
                None => old(self).metrics.extensions@,
            },
    {
        if let Some(p) = raw.patterns {
            self.patterns.apply(&p);
        }
        if let Some(m) = raw.metrics {
            if let Some(v) = m.sentence_length_cv {
                let current = self.metrics.sentence_length_cv.take();
                self.metrics.sentence_length_cv = resolve_threshold(v, current);
            }
            if let Some(v) = m.sentence_length_kurtosis {
                let current = self.metrics.sentence_length_kurtosis.take();
                self.metrics.sentence_length_kurtosis = resolve_threshold(v, current);
            }
            if let Some(d) = m.word_freq_dispersion {
                if d.enabled == Some(false) {
                    self.metrics.word_freq_dispersion.threshold = None;
                } else if let Some(v) = d.threshold {
                    self.metrics.word_freq_dispersion.threshold = Some(v);
                }
                self.metrics.word_freq_dispersion.chunk_size = take_or(
                    d.chunk_size,
                    self.metrics.word_freq_dispersion.chunk_size,
                );
                self.metrics.word_freq_dispersion.top_n = take_or(
                    d.top_n,
                    self.metrics.word_freq_dispersion.top_n,
                );
            }
            if let Some(v) = m.extensions {
                self.metrics.extensions = v;
            }
        }
    }
}


// ---- where the configuration file is looked for ----

/// The name of the configuration file.
pub const CONFIG_FILE_NAME: &'static str = "dslop.toml";

/// What `std::path::Path::parent` gives for `path`, as text: the path
/// without its final component, if it has one.
pub uninterp spec fn parent_dir(path: Seq<char>) -> Option<Seq<char>>;

/// `std::path::Path::parent` on a path held as text (`None` also where the
/// parent is not valid UTF-8, which a prefix of a `&str` never is). Its
/// contract names the result, and states what the documentation gives of
/// it: the parent is the path without its final component, so it is
/// shorter than the path, and the empty path has none. Which part is the
/// final component is left to the name.
#[verifier::external_body]
fn parent_of(path: &str) -> (r: Option<String>)
    ensures
        r matches Some(q) ==> parent_dir(path@) == Some(q@) && q@.len() < path@.len(),
        r is None ==> parent_dir(path@) is None,
        path@.len() == 0 ==> r is None,
{
    match std::path::Path::new(path).parent() {
        Some(p) => p.to_str().map(|s| s.to_string()),
        None => None,
    }
}

/// The directories from `dir` upward: `dir`, its parent, the parent's
/// parent, and so on while there is a parent. (Each parent is shorter than
/// its child, which the guard records for termination.)
pub open spec fn dirs_upward(dir: Seq<char>) -> Seq<Seq<char>>
    decreases dir.len(),
{
    match parent_dir(dir) {
        Some(p) => if p.len() < dir.len() {
            seq![dir] + dirs_upward(p)
        } else {
            seq![dir]
        },
        None => seq![dir],
    }
}

/// The directories in which to look for the configuration file, nearest
/// first: from `start` upward, or from the directory that holds `start`
/// when it is a file (none when a file has no parent).
pub open spec fn search_dirs(start: Seq<char>, start_is_file: bool) -> Seq<Seq<char>> {
    if start_is_file {
        match parent_dir(start) {
            Some(p) => dirs_upward(p),
            None => seq![],
        }
    } else {
        dirs_upward(start)
    }
}

/// The directories from `dir` upward, nearest first.
fn upward_from(dir: String) -> (r: Vec<String>)
    ensures
        r@.map_values(|d: String| d@) == dirs_upward(dir@),
{
    let mut out: Vec<String> = Vec::new();
    let mut cur = dir;
    loop
        invariant
            dirs_upward(dir@) == out@.map_values(|d: String| d@) + dirs_upward(cur@),
        decreases cur@.len(),
    {
        let next = parent_of(cur.as_str());
        let ghost before = out@.map_values(|d: String| d@);
        let ghost c = cur@;
        out.push(cur);
        assert(out@.map_values(|d: String| d@) =~= before.push(c));
        match next {
            Some(p) => {
                assert(dirs_upward(c) == seq![c] + dirs_upward(p@));
                assert(before.push(c) + dirs_upward(p@) =~= before + (seq![c] + dirs_upward(p@)));
                cur = p;
            },
            None => {
                assert(dirs_upward(c) == seq![c]);
                assert(before.push(c) =~= before + seq![c]);
                return out;
            },
        }
    }
}

/// The directories in which to look for `dslop.toml`, nearest first: from
/// `start` upward, or from the directory holding `start` when it is a file.
/// The first of them that holds the file is the one used.
pub fn config_search_dirs(start: &str, start_is_file: bool) -> (r: Vec<String>)
    ensures
        r@.map_values(|d: String| d@) == search_dirs(start@, start_is_file),
{
    if start_is_file {
        match parent_of(start) {
            Some(p) => upward_from(p),
            None => {
                let out: Vec<String> = Vec::new();
                assert(out@.map_values(|d: String| d@) =~= Seq::<Seq<char>>::empty());
                out
            },
        }
    } else {
        upward_from(String::from_str(start))
    }
}

} // verus!
