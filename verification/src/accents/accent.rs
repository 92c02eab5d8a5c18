//! Accents: ordered rule lists for each severity level.
use vstd::prelude::*;

use super::callback::ReplacementCallback;
use super::rules::{
    compiled, dedup_patterns, make_replacements, rule_outcome, rules_error, rules_model,
    rules_deterministic, rules_outcome, rules_well_formed, Replacement, RuleModel,
    lemma_rules_outcome_unique,
};
use crate::keyed::{dedup, lemma_dedup_distinct, lemma_dedup_elements};
use crate::chars::string_of;

verus! {

/// Words and patterns of one severity level.
pub struct SeverityBody {
    pub words: Vec<(String, ReplacementCallback)>,
    pub patterns: Vec<(String, ReplacementCallback)>,
}

/// Either replaces everything from the previous severity (`Replace`) or adds new words and
/// patterns to the end of the previous ones (`Extend`).
pub enum Severity {
    Replace(SeverityBody),
    Extend(SeverityBody),
}

/// The abstract content of a severity level.
pub ghost enum SeverityModel {
    Replace(Seq<RuleModel>, Seq<RuleModel>),
    Extend(Seq<RuleModel>, Seq<RuleModel>),
}

impl Severity {
    pub open spec fn model(self) -> SeverityModel {
        match self {
            Severity::Replace(b) => SeverityModel::Replace(
                rules_model(b.words@),
                rules_model(b.patterns@),
            ),
            Severity::Extend(b) => SeverityModel::Extend(
                rules_model(b.words@),
                rules_model(b.patterns@),
            ),
        }
    }
}

impl SeverityModel {
    /// Every callback of the level is well formed.
    pub open spec fn well_formed(self) -> bool {
        match self {
            SeverityModel::Replace(w, p) => rules_well_formed(w) && rules_well_formed(p),
            SeverityModel::Extend(w, p) => rules_well_formed(w) && rules_well_formed(p),
        }
    }
}

/// The words and patterns in force after a severity level, given those below it.
pub open spec fn next_rules(
    words: Seq<RuleModel>,
    patterns: Seq<RuleModel>,
    s: SeverityModel,
) -> (Seq<RuleModel>, Seq<RuleModel>) {
    match s {
        SeverityModel::Replace(w, p) => (dedup(w), dedup(p)),
        SeverityModel::Extend(w, p) => (dedup(words + dedup(w)), dedup(patterns + dedup(p))),
    }
}

/// The words and patterns in force at level `n` (level 0 is the base).
pub open spec fn rules_at(
    words: Seq<RuleModel>,
    patterns: Seq<RuleModel>,
    sevs: Seq<SeverityModel>,
    n: int,
) -> (Seq<RuleModel>, Seq<RuleModel>)
    decreases n,
{
    if n <= 0 {
        (dedup(words), dedup(patterns))
    } else {
        let prev = rules_at(words, patterns, sevs, n - 1);
        next_rules(prev.0, prev.1, sevs[n - 1])
    }
}

/// The message for a severity level numbered 0 besides the base.
pub open spec fn zero_severity_message() -> Seq<char> {
    "Severity cannot be 0 since 0 is base one"@
}

/// The first error met while building levels 0 to `n`.
pub open spec fn build_error(
    words: Seq<RuleModel>,
    patterns: Seq<RuleModel>,
    keys: Seq<u64>,
    sevs: Seq<SeverityModel>,
    n: int,
) -> Option<Seq<char>>
    decreases n,
{
    if n <= 0 {
        let r = rules_at(words, patterns, sevs, 0);
        rules_error(r.0, r.1)
    } else {
        match build_error(words, patterns, keys, sevs, n - 1) {
            Some(e) => Some(e),
            None => if keys[n - 1] == 0 {
                Some(zero_severity_message())
            } else {
                let r = rules_at(words, patterns, sevs, n);
                rules_error(r.0, r.1)
            },
        }
    }
}

/// The compiled rules of every level, each with its severity.
pub open spec fn levels(
    words: Seq<RuleModel>,
    patterns: Seq<RuleModel>,
    keys: Seq<u64>,
    sevs: Seq<SeverityModel>,
) -> Seq<(u64, Seq<RuleModel>)> {
    Seq::new(
        keys.len() + 1,
        |j: int|
            (
                if j == 0 {
                    0u64
                } else {
                    keys[j - 1]
                },
                compiled(rules_at(words, patterns, sevs, j).0, rules_at(words, patterns, sevs, j).1),
            ),
    )
}

/// Severity numbers strictly increase.
pub open spec fn strictly_increasing(keys: Seq<u64>) -> bool {
    forall|i: int, j: int| 0 <= i < j < keys.len() ==> keys[i] < keys[j]
}

/// The abstract content of an accent.
pub ghost struct AccentModel {
    pub name: Seq<char>,
    pub normalize_case: bool,
    pub levels: Seq<(u64, Seq<RuleModel>)>,
}

impl AccentModel {
    /// The severity numbers of the levels.
    pub open spec fn severities(self) -> Seq<u64> {
        self.levels.map_values(|l: (u64, Seq<RuleModel>)| l.0)
    }

    /// Level 0 comes first, severities strictly increase, and every callback is well formed.
    pub open spec fn well_formed(self) -> bool {
        &&& self.levels.len() >= 1
        &&& self.levels[0].0 == 0
        &&& strictly_increasing(self.severities())
        &&& forall|i: int| 0 <= i < self.levels.len() ==> rules_well_formed(#[trigger] self.levels[i].1)
    }

    /// The level used for a requested severity: the last one whose severity does not exceed it,
    /// among the first `n`.
    pub open spec fn level_for(self, severity: u64, n: int) -> int
        decreases n,
    {
        if n <= 0 {
            -1
        } else if self.levels[n - 1].0 <= severity {
            n - 1
        } else {
            self.level_for(severity, n - 1)
        }
    }

    /// The level that serves a request of the given severity.
    pub open spec fn level_of(self, severity: u64) -> int {
        self.level_for(severity, self.levels.len() as int)
    }

    /// `out` is a possible result of applying the accent to `text` at `severity`: the rules
    /// of the level that serves it, walked from top to bottom.
    pub open spec fn outcome(self, text: Seq<char>, severity: u64, out: Seq<char>) -> bool {
        rules_outcome(self.levels[self.level_of(severity)].1, text, self.normalize_case, out)
    }

    /// No callback of any level chooses at random.
    pub open spec fn deterministic(self) -> bool {
        forall|i: int| 0 <= i < self.levels.len() ==> rules_deterministic(#[trigger] self.levels[i].1)
    }
}

/// Replaces patterns in text according to rules.
pub struct Accent {
    pub name: String,
    normalize_case: bool,
    /// The replacements for each severity level, sorted from lowest to highest.
    severities: Vec<(u64, Vec<Replacement>)>,
}

/// The abstract content of the levels of an accent.
pub open spec fn levels_model(v: Seq<(u64, Vec<Replacement>)>) -> Seq<(u64, Seq<RuleModel>)> {
    v.map_values(
        |l: (u64, Vec<Replacement>)| (l.0, l.1@.map_values(|x: Replacement| x@)),
    )
}

impl View for Accent {
    type V = AccentModel;

    closed spec fn view(&self) -> AccentModel {
        AccentModel {
            name: self.name@,
            normalize_case: self.normalize_case,
            levels: levels_model(self.severities@),
        }
    }
}

proof fn lemma_dedup_well_formed(s: Seq<RuleModel>)
    requires
        rules_well_formed(s),
    ensures
        rules_well_formed(dedup(s)),
{
    lemma_dedup_elements(s);
    assert forall|i: int| 0 <= i < dedup(s).len() implies (#[trigger] dedup(s)[i]).1.well_formed() by {
        let j = choose|j: int| 0 <= j < s.len() && s[j] == dedup(s)[i];
    }
}

proof fn lemma_compiled_well_formed(w: Seq<RuleModel>, p: Seq<RuleModel>)
    requires
        rules_well_formed(w),
        rules_well_formed(p),
    ensures
        rules_well_formed(compiled(w, p)),
{
    assert forall|i: int| 0 <= i < compiled(w, p).len() implies (#[trigger] compiled(
        w,
        p,
    )[i]).1.well_formed() by {
        if i >= w.len() {
            assert(compiled(w, p)[i].1 == p[i - w.len()].1);
        }
    }
}

proof fn lemma_rules_at_well_formed(
    words: Seq<RuleModel>,
    patterns: Seq<RuleModel>,
    sevs: Seq<SeverityModel>,
    n: int,
)
    requires
        0 <= n <= sevs.len(),
        rules_well_formed(words),
        rules_well_formed(patterns),
        forall|i: int| 0 <= i < sevs.len() ==> (#[trigger] sevs[i]).well_formed(),
    ensures
        rules_well_formed(rules_at(words, patterns, sevs, n).0),
        rules_well_formed(rules_at(words, patterns, sevs, n).1),
    decreases n,
{
    if n == 0 {
        lemma_dedup_well_formed(words);
        lemma_dedup_well_formed(patterns);
    } else {
        lemma_rules_at_well_formed(words, patterns, sevs, n - 1);
        let prev = rules_at(words, patterns, sevs, n - 1);
        assert(sevs[n - 1].well_formed());
        match sevs[n - 1] {
            SeverityModel::Replace(w, p) => {
                lemma_dedup_well_formed(w);
                lemma_dedup_well_formed(p);
            },
            SeverityModel::Extend(w, p) => {
                lemma_dedup_well_formed(w);
                lemma_dedup_well_formed(p);
                assert(rules_well_formed(prev.0 + dedup(w)));
                assert(rules_well_formed(prev.1 + dedup(p)));
                lemma_dedup_well_formed(prev.0 + dedup(w));
                lemma_dedup_well_formed(prev.1 + dedup(p));
            },
        }
    }
}

proof fn lemma_build_error_rest(
    words: Seq<RuleModel>,
    patterns: Seq<RuleModel>,
    keys: Seq<u64>,
    sevs: Seq<SeverityModel>,
    n: int,
    m: int,
)
    requires
        0 <= n <= m,
        build_error(words, patterns, keys, sevs, n) is Some,
    ensures
        build_error(words, patterns, keys, sevs, m) == build_error(words, patterns, keys, sevs, n),
    decreases m - n,
{
    if n < m {
        lemma_build_error_rest(words, patterns, keys, sevs, n + 1, m);
    }
}

impl Accent {
    /// Builds an accent: level 0 from `words` and `patterns`, then one level per severity.
    /// Duplicate words (and patterns) are merged, the last one winning in the place of the
    /// first. Fails with the first rule whose regular expression does not compile, or on a
    /// severity numbered 0.
    pub fn new(
        name: String,
        normalize_case: bool,
        words: Vec<(String, ReplacementCallback)>,
        patterns: Vec<(String, ReplacementCallback)>,
        severities_def: Vec<(u64, Severity)>,
    ) -> (r: Result<Self, String>)
        requires
            strictly_increasing(severities_def@.map_values(|s: (u64, Severity)| s.0)),
            rules_well_formed(rules_model(words@)),
            rules_well_formed(rules_model(patterns@)),
            forall|i: int|
                0 <= i < severities_def@.len() ==> (#[trigger] severities_def@[i]).1.model().well_formed(),
        ensures
            ({
                let w = rules_model(words@);
                let p = rules_model(patterns@);
                let keys = severities_def@.map_values(|s: (u64, Severity)| s.0);
                let sevs = severities_def@.map_values(|s: (u64, Severity)| s.1.model());
                match r {
                    Ok(a) => {
                        &&& build_error(w, p, keys, sevs, keys.len() as int) is None
                        &&& a@ == AccentModel {
                            name: name@,
                            normalize_case,
                            levels: levels(w, p, keys, sevs),
                        }
                        &&& a@.well_formed()
                    },
                    Err(e) => build_error(w, p, keys, sevs, keys.len() as int) == Some(e@),
                }
            }),
    {
        let ghost w0 = rules_model(words@);
        let ghost p0 = rules_model(patterns@);
        let ghost keys = severities_def@.map_values(|s: (u64, Severity)| s.0);
        let ghost sevs = severities_def@.map_values(|s: (u64, Severity)| s.1.model());
        let ghost total = keys.len() as int;
        proof {
            assert forall|i: int| 0 <= i < sevs.len() implies (#[trigger] sevs[i]).well_formed() by {
                assert(severities_def@[i].1.model().well_formed());
            }
            lemma_rules_at_well_formed(w0, p0, sevs, 0);
        }
        let mut words = dedup_patterns(words, "words", false);
        let mut patterns = dedup_patterns(patterns, "patterns", false);
        let mut severities: Vec<(u64, Vec<Replacement>)> = Vec::new();
        let base = match make_replacements(&words, &patterns) {
            Ok(v) => v,
            Err(e) => {
                proof {
                    lemma_build_error_rest(w0, p0, keys, sevs, 0, total);
                }
                return Err(e);
            },
        };
        severities.push((0, base));
        assert(total == severities_def.len());
        let mut rest = severities_def;
        let mut k: usize = 0;
        proof {
            assert(levels_model(severities@) =~= levels(w0, p0, keys, sevs).take(1));
        }
        #[verifier::loop_isolation(false)]
        while rest.len() > 0
            invariant
                k <= total,
                total <= usize::MAX,
                total == keys.len(),
                keys.len() == sevs.len(),
                rest@.len() == total - k,
                forall|i: int|
                    0 <= i < rest@.len() ==> (#[trigger] rest@[i]).0 == keys[k + i] && rest@[i].1.model()
                        == sevs[k + i],
                strictly_increasing(keys),
                forall|i: int| 0 <= i < sevs.len() ==> (#[trigger] sevs[i]).well_formed(),
                rules_well_formed(w0),
                rules_well_formed(p0),
                (rules_model(words@), rules_model(patterns@)) == rules_at(w0, p0, sevs, k as int),
                build_error(w0, p0, keys, sevs, k as int) is None,
                levels_model(severities@) == levels(w0, p0, keys, sevs).take(k + 1),
            decreases rest.len(),
        {
            let ghost before = rest@;
            let (severity, override_or_addition) = rest.remove(0);
            proof {
                assert(before[0].0 == keys[k as int]);
                assert forall|i: int| 0 <= i < rest@.len() implies (#[trigger] rest@[i]).0 == keys[k
                    + 1 + i] && rest@[i].1.model() == sevs[k + 1 + i] by {
                    assert(rest@[i] == before[i + 1]);
                }
            }
            if severity == 0 {
                assert(keys[k as int] == 0);
                assert(build_error(w0, p0, keys, sevs, k as int + 1) == Some(zero_severity_message()));
                proof {
                    lemma_build_error_rest(w0, p0, keys, sevs, k as int + 1, total);
                }
                return Err("Severity cannot be 0 since 0 is base one".to_owned());
            }
            let ghost prev_w = rules_model(words@);
            let ghost prev_p = rules_model(patterns@);
            match override_or_addition {
                Severity::Replace(overrides) => {
                    words = dedup_patterns(overrides.words, "words", false);
                    patterns = dedup_patterns(overrides.patterns, "patterns", false);
                },
                Severity::Extend(additions) => {
                    let mut new_words = dedup_patterns(additions.words, "words", false);
                    let mut new_patterns = dedup_patterns(additions.patterns, "patterns", false);
                    let ghost nw = rules_model(new_words@);
                    let ghost np = rules_model(new_patterns@);
                    let ghost ow = words@;
                    let ghost op = patterns@;
                    words.append(&mut new_words);
                    patterns.append(&mut new_patterns);
                    assert(rules_model(words@) =~= prev_w + nw);
                    assert(rules_model(patterns@) =~= prev_p + np);
                    words = dedup_patterns(words, "words", true);
                    patterns = dedup_patterns(patterns, "patterns", true);
                },
            }
            assert((rules_model(words@), rules_model(patterns@)) == rules_at(
                w0,
                p0,
                sevs,
                k + 1,
            ));
            let replacements = match make_replacements(&words, &patterns) {
                Ok(v) => v,
                Err(e) => {
                    proof {
                        lemma_build_error_rest(w0, p0, keys, sevs, k as int + 1, total);
                    }
                    return Err(e);
                },
            };
            severities.push((severity, replacements));
            k += 1;
            proof {
                assert(levels_model(severities@) =~= levels(w0, p0, keys, sevs).take(k + 1));
            }
        }
        let r = Self { name, normalize_case, severities };
        proof {
            assert(levels(w0, p0, keys, sevs).take(k + 1) =~= levels(w0, p0, keys, sevs));
            let lv = levels(w0, p0, keys, sevs);
            let ks = lv.map_values(|l: (u64, Seq<RuleModel>)| l.0);
            assert(ks[0] == 0);
            assert forall|i: int, j: int| 0 <= i < j < lv.len() implies #[trigger] ks[i] < #[trigger] ks[j] by {
                if i > 0 {
                    assert(keys[i - 1] < keys[j - 1]);
                } else {
                    lemma_keys_positive(w0, p0, keys, sevs, j - 1, total);
                }
            }
            assert forall|i: int| 0 <= i < lv.len() implies rules_well_formed(#[trigger] lv[i].1) by {
                lemma_rules_at_well_formed(w0, p0, sevs, i);
                lemma_compiled_well_formed(rules_at(w0, p0, sevs, i).0, rules_at(w0, p0, sevs, i).1);
            }
        }
        Ok(r)
    }

    /// Returns all registered severities in ascending order. Note that there may be gaps.
    pub fn severities(&self) -> (r: Vec<u64>)
        ensures
            r@ == self@.severities(),
    {
        let mut out: Vec<u64> = Vec::new();
        let mut i: usize = 0;
        while i < self.severities.len()
            invariant
                i <= self.severities.len(),
                out@ =~= self@.severities().take(i as int),
            decreases self.severities.len() - i,
        {
            out.push(self.severities[i].0);
            i += 1;
        }
        assert(self@.severities().take(i as int) =~= self@.severities());
        out
    }

    /// Whether case is adjusted to the replaced text.
    pub fn normalizes_case(&self) -> (r: bool)
        ensures
            r == self@.normalize_case,
    {
        self.normalize_case
    }

    /// The replacements of every level, with their severities.
    pub fn levels(&self) -> (r: &Vec<(u64, Vec<Replacement>)>)
        ensures
            levels_model(r@) == self@.levels,
    {
        &self.severities
    }

    /// Walks the rules of the given severity from top to bottom and applies them. The level
    /// used is the last one whose severity does not exceed the one requested.
    pub fn apply(&self, text: &str, severity: u64) -> (r: String)
        requires
            self@.well_formed(),
        ensures
            0 <= self@.level_of(severity) < self@.levels.len(),
            self@.outcome(text@, severity, r@),
    {
        let ghost m = self@;
        let mut idx: usize = self.severities.len();
        while idx > 0 && self.severities[idx - 1].0 > severity
            invariant
                0 < idx <= self.severities.len(),
                m == self@,
                m.well_formed(),
                m.level_for(severity, m.levels.len() as int) == m.level_for(severity, idx as int),
            decreases idx,
        {
            idx -= 1;
        }
        assert(m.levels[0].0 == 0);
        let chosen = idx - 1;
        let ghost lv = m.level_for(severity, m.levels.len() as int);
        assert(lv == chosen);
        let replacements = &self.severities[chosen].1;
        let ghost rules = m.levels[lv].1;
        assert(rules_well_formed(rules));
        let mut result = text.to_owned();
        let mut i: usize = 0;
        while i < replacements.len()
            invariant
                i <= replacements.len(),
                rules == replacements@.map_values(|x: Replacement| x@),
                rules_well_formed(rules),
                m == self@,
                rules_outcome(rules.take(i as int), text@, m.normalize_case, result@),
            decreases replacements.len() - i,
        {
            let ghost before = result@;
            assert(rules[i as int] == replacements@[i as int]@);
            result = replacements[i].apply(result.as_str(), self.normalize_case);
            proof {
                assert(rules.take(i + 1).drop_last() =~= rules.take(i as int));
                assert(rules.take(i + 1).last() == rules[i as int]);
            }
            i += 1;
        }
        assert(rules.take(i as int) =~= rules);
        result
    }
}

proof fn lemma_keys_positive(
    words: Seq<RuleModel>,
    patterns: Seq<RuleModel>,
    keys: Seq<u64>,
    sevs: Seq<SeverityModel>,
    i: int,
    n: int,
)
    requires
        0 <= i < n,
        build_error(words, patterns, keys, sevs, n) is None,
    ensures
        keys[i] != 0,
    decreases n,
{
    if i < n - 1 {
        lemma_keys_positive(words, patterns, keys, sevs, i, n - 1);
    }
}

/// The level chosen among the first `n` is the last one whose severity does not exceed
/// the request.
proof fn lemma_level_for_bounds(a: AccentModel, severity: u64, n: int)
    requires
        a.well_formed(),
        1 <= n <= a.levels.len(),
    ensures
        0 <= a.level_for(severity, n) < n,
        a.levels[a.level_for(severity, n)].0 <= severity,
        forall|j: int| a.level_for(severity, n) < j < n ==> a.levels[j].0 > severity,
    decreases n,
{
    if a.levels[n - 1].0 > severity {
        if n == 1 {
            assert(a.levels[0].0 == 0);
        } else {
            lemma_level_for_bounds(a, severity, n - 1);
        }
    }
}

/// Applying an accent at a severity is applying it at the highest severity it defines that
/// does not exceed the request: that severity always exists (level 0 qualifies), it is the
/// largest defined one not above the request, and both requests allow the same results for
/// any text.
pub proof fn lemma_apply_at_highest_level(a: AccentModel, severity: u64, text: Seq<char>, out: Seq<char>)
    requires
        a.well_formed(),
    ensures
        ({
            let k = a.levels[a.level_of(severity)].0;
            &&& a.severities().contains(k)
            &&& k <= severity
            &&& forall|j: int| 0 <= j < a.levels.len() && a.levels[j].0 <= severity ==> a.levels[j].0 <= k
            &&& a.outcome(text, severity, out) == a.outcome(text, k, out)
        }),
{
    let n = a.levels.len() as int;
    lemma_level_for_bounds(a, severity, n);
    let lv = a.level_for(severity, n);
    let k = a.levels[lv].0;
    lemma_level_for_bounds(a, k, n);
    let lk = a.level_for(k, n);
    assert(a.severities()[lv] == k);
    assert forall|j: int| 0 <= j < n && a.levels[j].0 <= severity implies a.levels[j].0 <= k by {
        if j > lv {
            assert(a.levels[j].0 > severity);
        } else if j < lv {
            assert(a.severities()[j] == a.levels[j].0);
        }
    }
    if lk < lv {
        assert(a.levels[lv].0 > k);
    } else if lk > lv {
        assert(a.severities()[lk] == a.levels[lk].0);
    }
}

/// An accent whose callbacks choose nothing at random rewrites a text in one way only at
/// each severity, so the result at a severity equals the result at the highest severity
/// it defines that does not exceed the request.
pub proof fn lemma_deterministic_apply(
    a: AccentModel,
    severity: u64,
    text: Seq<char>,
    at_request: Seq<char>,
    at_level: Seq<char>,
)
    requires
        a.well_formed(),
        a.deterministic(),
        a.outcome(text, severity, at_request),
        a.outcome(text, a.levels[a.level_of(severity)].0, at_level),
    ensures
        at_request == at_level,
{
    lemma_apply_at_highest_level(a, severity, text, at_level);
    lemma_level_for_bounds(a, severity, a.levels.len() as int);
    let lv = a.level_of(severity);
    assert(rules_deterministic(a.levels[lv].1));
    lemma_rules_outcome_unique(a.levels[lv].1, text, a.normalize_case, at_request, at_level);
}

} // verus!
