//! Building accents from their plain definitions.
use vstd::prelude::*;

use super::accent::{
    build_error, levels, strictly_increasing, Accent, AccentModel, Severity, SeverityBody,
    SeverityModel,
};
use super::callback::{def_error, def_model, lemma_weight_sum_prefix_le, weights_fit, ReplacementCallback};
use super::outside::weight_sum;
use super::defs::{AccentDef, ReplacementCallbackDef, SeverityBodyDef, SeverityDef};
use super::rules::{kind_name, rules_model, rules_well_formed, RuleModel};
use crate::chars::{decimal, decimal_chars, push_chars, push_str, string_of};

verus! {

/// The rules a list of definitions describes.
pub open spec fn def_rules_model(v: Seq<(String, ReplacementCallbackDef)>) -> Seq<RuleModel> {
    v.map_values(|r: (String, ReplacementCallbackDef)| (r.0@, def_model(r.1)))
}

/// Every weighted choice in the rule definitions fits a `u64`.
pub open spec fn rules_fit(v: Seq<(String, ReplacementCallbackDef)>) -> bool {
    forall|i: int| 0 <= i < v.len() ==> weights_fit(#[trigger] v[i].1)
}

/// The error for rule definition `i`, if its callback is rejected.
pub open spec fn rule_def_error_at(
    rules: Seq<(String, ReplacementCallbackDef)>,
    is_word: bool,
    i: int,
) -> Option<Seq<char>> {
    match def_error(rules[i].1) {
        Some(e) => Some(
            "error in "@ + kind_name(is_word) + " "@ + decimal(i as nat) + ": "@ + rules[i].0@
                + ": "@ + e,
        ),
        None => None,
    }
}

/// The first rejected rule definition among the first `n`.
pub open spec fn rules_def_error(
    rules: Seq<(String, ReplacementCallbackDef)>,
    is_word: bool,
    n: int,
) -> Option<Seq<char>>
    decreases n,
{
    if n <= 0 {
        None
    } else {
        match rules_def_error(rules, is_word, n - 1) {
            Some(e) => Some(e),
            None => rule_def_error_at(rules, is_word, n - 1),
        }
    }
}

/// The first rejected rule of a body: words first, then patterns.
pub open spec fn body_def_error(b: SeverityBodyDef) -> Option<Seq<char>> {
    match rules_def_error(b.words@, true, b.words@.len() as int) {
        Some(e) => Some(e),
        None => rules_def_error(b.patterns@, false, b.patterns@.len() as int),
    }
}

/// The body of a severity definition.
pub open spec fn severity_def_body(d: SeverityDef) -> SeverityBodyDef {
    match d {
        SeverityDef::Replace(b) => b,
        SeverityDef::Extend(b) => b,
    }
}

/// The severity level a definition describes.
pub open spec fn severity_def_model(d: SeverityDef) -> SeverityModel {
    match d {
        SeverityDef::Replace(b) => SeverityModel::Replace(
            def_rules_model(b.words@),
            def_rules_model(b.patterns@),
        ),
        SeverityDef::Extend(b) => SeverityModel::Extend(
            def_rules_model(b.words@),
            def_rules_model(b.patterns@),
        ),
    }
}

/// The first rejected rule among the first `n` severity definitions, with its level.
pub open spec fn severities_def_error(sevs: Seq<(u64, SeverityDef)>, n: int) -> Option<Seq<char>>
    decreases n,
{
    if n <= 0 {
        None
    } else {
        match severities_def_error(sevs, n - 1) {
            Some(e) => Some(e),
            None => match body_def_error(severity_def_body(sevs[n - 1].1)) {
                Some(e) => Some("error in severity "@ + decimal(sevs[n - 1].0 as nat) + ": "@ + e),
                None => None,
            },
        }
    }
}

/// The severity numbers of an accent definition.
pub open spec fn def_keys(d: AccentDef) -> Seq<u64> {
    d.severities@.map_values(|s: (u64, SeverityDef)| s.0)
}

/// The severity levels of an accent definition.
pub open spec fn def_severities(d: AccentDef) -> Seq<SeverityModel> {
    d.severities@.map_values(|s: (u64, SeverityDef)| severity_def_model(s.1))
}

/// The error an accent definition is rejected with, if any: a rejected callback (words,
/// then patterns, then each severity in order), then the errors of building the levels.
pub open spec fn accent_def_error(d: AccentDef) -> Option<Seq<char>> {
    match rules_def_error(d.words@, true, d.words@.len() as int) {
        Some(e) => Some(e),
        None => match rules_def_error(d.patterns@, false, d.patterns@.len() as int) {
            Some(e) => Some(e),
            None => match severities_def_error(d.severities@, d.severities@.len() as int) {
                Some(e) => Some(e),
                None => build_error(
                    def_rules_model(d.words@),
                    def_rules_model(d.patterns@),
                    def_keys(d),
                    def_severities(d),
                    d.severities@.len() as int,
                ),
            },
        },
    }
}

/// Every weighted choice of an accent definition fits a `u64`.
pub open spec fn accent_def_fits(d: AccentDef) -> bool {
    &&& rules_fit(d.words@)
    &&& rules_fit(d.patterns@)
    &&& forall|i: int|
        0 <= i < d.severities@.len() ==> rules_fit(severity_def_body(#[trigger] d.severities@[i].1).words@)
            && rules_fit(severity_def_body(d.severities@[i].1).patterns@)
}

proof fn lemma_rules_def_error_rest(
    rules: Seq<(String, ReplacementCallbackDef)>,
    is_word: bool,
    n: int,
    m: int,
)
    requires
        0 <= n <= m,
        rules_def_error(rules, is_word, n) is Some,
    ensures
        rules_def_error(rules, is_word, m) == rules_def_error(rules, is_word, n),
    decreases m - n,
{
    if n < m {
        lemma_rules_def_error_rest(rules, is_word, n + 1, m);
    }
}

proof fn lemma_severities_def_error_rest(sevs: Seq<(u64, SeverityDef)>, n: int, m: int)
    requires
        0 <= n <= m,
        severities_def_error(sevs, n) is Some,
    ensures
        severities_def_error(sevs, m) == severities_def_error(sevs, n),
    decreases m - n,
{
    if n < m {
        lemma_severities_def_error_rest(sevs, n + 1, m);
    }
}

/// Builds "error in <kind> <i>: <pattern>: <error>".
fn rule_error_message(is_word: bool, i: usize, pattern: &str, err: &str) -> (r: String)
    ensures
        r@ == "error in "@ + kind_name(is_word) + " "@ + decimal(i as nat) + ": "@ + pattern@
            + ": "@ + err@,
{
    let mut m: Vec<char> = Vec::new();
    push_str(&mut m, "error in ");
    if is_word {
        push_str(&mut m, "word");
    } else {
        push_str(&mut m, "pattern");
    }
    push_str(&mut m, " ");
    let digits = decimal_chars(i as u64);
    push_chars(&mut m, &digits);
    push_str(&mut m, ": ");
    push_str(&mut m, pattern);
    push_str(&mut m, ": ");
    push_str(&mut m, err);
    string_of(m.as_slice())
}

/// Converts the callbacks of a list of rule definitions.
fn convert_rules(defs: Vec<(String, ReplacementCallbackDef)>, is_word: bool) -> (r: Result<
    Vec<(String, ReplacementCallback)>,
    String,
>)
    requires
        rules_fit(defs@),
    ensures
        match r {
            Ok(v) => {
                &&& rules_def_error(defs@, is_word, defs@.len() as int) is None
                &&& rules_model(v@) == def_rules_model(defs@)
                &&& rules_well_formed(rules_model(v@))
            },
            Err(e) => rules_def_error(defs@, is_word, defs@.len() as int) == Some(e@),
        },
{
    let ghost orig = defs@;
    let total = defs.len();
    let mut rest = defs;
    let mut out: Vec<(String, ReplacementCallback)> = Vec::new();
    let mut i: usize = 0;
    #[verifier::loop_isolation(false)]
    while rest.len() > 0
        invariant
            i <= total,
                total == orig.len(),
            rest@ == orig.skip(i as int),
            rules_fit(orig),
            rules_def_error(orig, is_word, i as int) is None,
            out@.len() == i,
            forall|j: int|
                0 <= j < i ==> (#[trigger] out@[j]).0@ == orig[j].0@ && out@[j].1@ == def_model(
                    orig[j].1,
                ) && out@[j].1@.well_formed(),
        decreases rest.len(),
    {
        let (pattern, callback_def) = rest.remove(0);
        assert(orig[i as int] == (pattern, callback_def));
        assert(rest@ =~= orig.skip(i + 1));
        assert(weights_fit(orig[i as int].1));
        match ReplacementCallback::try_from(callback_def) {
            Err(err) => {
                let msg = rule_error_message(is_word, i, pattern.as_str(), err.as_str());
                proof {
                    lemma_rules_def_error_rest(orig, is_word, i + 1, orig.len() as int);
                }
                return Err(msg);
            },
            Ok(callback) => {
                out.push((pattern, callback));
            },
        }
        i += 1;
    }
    assert(rules_model(out@) =~= def_rules_model(orig));
    Ok(out)
}

impl SeverityBody {
    /// Converts the callbacks of a severity body: words first, then patterns.
    pub fn try_from(body_def: SeverityBodyDef) -> (r: Result<Self, String>)
        requires
            rules_fit(body_def.words@),
            rules_fit(body_def.patterns@),
        ensures
            match r {
                Ok(b) => {
                    &&& body_def_error(body_def) is None
                    &&& rules_model(b.words@) == def_rules_model(body_def.words@)
                    &&& rules_model(b.patterns@) == def_rules_model(body_def.patterns@)
                    &&& rules_well_formed(rules_model(b.words@))
                    &&& rules_well_formed(rules_model(b.patterns@))
                },
                Err(e) => body_def_error(body_def) == Some(e@),
            },
    {
        let words = convert_rules(body_def.words, true)?;
        let patterns = convert_rules(body_def.patterns, false)?;
        Ok(Self { words, patterns })
    }
}

impl Severity {
    /// Converts a severity definition, keeping its kind.
    pub fn try_from(severity_def: SeverityDef) -> (r: Result<Self, String>)
        requires
            rules_fit(severity_def_body(severity_def).words@),
            rules_fit(severity_def_body(severity_def).patterns@),
        ensures
            match r {
                Ok(s) => {
                    &&& body_def_error(severity_def_body(severity_def)) is None
                    &&& s.model() == severity_def_model(severity_def)
                    &&& s.model().well_formed()
                },
                Err(e) => body_def_error(severity_def_body(severity_def)) == Some(e@),
            },
    {
        match severity_def {
            SeverityDef::Replace(body) => Ok(Severity::Replace(SeverityBody::try_from(body)?)),
            SeverityDef::Extend(body) => Ok(Severity::Extend(SeverityBody::try_from(body)?)),
        }
    }
}

impl Accent {
    /// Builds an accent from its definition: converts every callback, then builds the levels.
    pub fn try_from(accent_def: AccentDef) -> (r: Result<Self, String>)
        requires
            accent_def_fits(accent_def),
            strictly_increasing(def_keys(accent_def)),
        ensures
            match r {
                Ok(a) => {
                    &&& accent_def_error(accent_def) is None
                    &&& a@ == AccentModel {
                        name: accent_def.name@,
                        normalize_case: accent_def.normalize_case,
                        levels: levels(
                            def_rules_model(accent_def.words@),
                            def_rules_model(accent_def.patterns@),
                            def_keys(accent_def),
                            def_severities(accent_def),
                        ),
                    }
                    &&& a@.well_formed()
                },
                Err(e) => accent_def_error(accent_def) == Some(e@),
            },
    {
        let ghost d = accent_def;
        let words = convert_rules(accent_def.words, true)?;
        let patterns = convert_rules(accent_def.patterns, false)?;
        let ghost orig = d.severities@;
        let total = accent_def.severities.len();
        let mut rest = accent_def.severities;
        let mut severities: Vec<(u64, Severity)> = Vec::new();
        let mut i: usize = 0;
        #[verifier::loop_isolation(false)]
        while rest.len() > 0
            invariant
                i <= total,
                total == orig.len(),
                rest@ == orig.skip(i as int),
                severities_def_error(orig, i as int) is None,
                severities@.len() == i,
                forall|j: int|
                    0 <= j < i ==> (#[trigger] severities@[j]).0 == orig[j].0
                        && severities@[j].1.model() == severity_def_model(orig[j].1)
                        && severities@[j].1.model().well_formed(),
            decreases rest.len(),
        {
            let (severity_level, severity_def) = rest.remove(0);
            assert(orig[i as int] == (severity_level, severity_def));
            assert(rest@ =~= orig.skip(i + 1));
            match Severity::try_from(severity_def) {
                Err(err) => {
                    let mut m: Vec<char> = Vec::new();
                    push_str(&mut m, "error in severity ");
                    let digits = decimal_chars(severity_level);
                    push_chars(&mut m, &digits);
                    push_str(&mut m, ": ");
                    push_str(&mut m, err.as_str());
                    proof {
                        lemma_severities_def_error_rest(orig, i + 1, orig.len() as int);
                    }
                    return Err(string_of(m.as_slice()));
                },
                Ok(severity) => {
                    severities.push((severity_level, severity));
                },
            }
            i += 1;
        }
        assert(severities@.map_values(|s: (u64, Severity)| s.0) =~= def_keys(d));
        assert(severities@.map_values(|s: (u64, Severity)| s.1.model()) =~= def_severities(d));
        Self::new(accent_def.name, accent_def.normalize_case, words, patterns, severities)
    }
}

/// Whether every weighted choice in a callback definition adds up to no more than
/// `u64::MAX`, as converting it requires.
pub fn check_weights(def: &ReplacementCallbackDef) -> (r: bool)
    ensures
        r == weights_fit(*def),
    decreases def,
{
        match def {
            ReplacementCallbackDef::Noop => true,
            ReplacementCallbackDef::Simple(_) => true,
            ReplacementCallbackDef::Any(items) => {
                let mut i: usize = 0;
                while i < items.len()
                    invariant
                        *def == ReplacementCallbackDef::Any(*items),
                        i <= items.len(),
                        forall|j: int| 0 <= j < i ==> weights_fit(#[trigger] items@[j]),
                    decreases items.len() - i,
                {
                    assert(decreases_to!(*def => (*def)->Any_0));
                    assert(decreases_to!(def => items@[i as int]));
                    if !check_weights(&items[i]) {
                        assert(!weights_fit(items@[i as int]));
                        return false;
                    }
                    i = i + 1;
                }
                true
            },
            ReplacementCallbackDef::Weights(items) => {
                let mut total: u64 = 0;
                let mut i: usize = 0;
                while i < items.len()
                    invariant
                        *def == ReplacementCallbackDef::Weights(*items),
                        i <= items.len(),
                        total == weight_sum(items@.take(i as int)),
                        forall|j: int| 0 <= j < i ==> weights_fit(#[trigger] items@[j].1),
                    decreases items.len() - i,
                {
                    assert(items@.take(i + 1).drop_last() == items@.take(i as int));
                    if total > u64::MAX - items[i].0 {
                        proof {
                            lemma_weight_sum_prefix_le(items@, i + 1);
                        }
                        return false;
                    }
                    total = total + items[i].0;
                    assert(decreases_to!(*def => (*def)->Weights_0));
                    assert(decreases_to!(def => items@[i as int].1));
                    if !check_weights(&items[i].1) {
                        assert(!weights_fit(items@[i as int].1));
                        return false;
                    }
                    i = i + 1;
                }
                assert(items@.take(items@.len() as int) == items@);
                true
            },
        }
}

/// Every weighted choice of the rule definitions fits a `u64`.
fn rules_fit_check(rules: &Vec<(String, ReplacementCallbackDef)>) -> (r: bool)
    ensures
        r == rules_fit(rules@),
{
    let mut i: usize = 0;
    while i < rules.len()
        invariant
            i <= rules.len(),
            forall|j: int| 0 <= j < i ==> weights_fit(#[trigger] rules@[j].1),
        decreases rules.len() - i,
    {
        if !check_weights(&rules[i].1) {
            return false;
        }
        i = i + 1;
    }
    true
}

impl AccentDef {
    /// Whether every weighted choice of the definition fits a `u64`, as building an
    /// accent from it requires.
    pub fn fits(&self) -> (r: bool)
        ensures
            r == accent_def_fits(*self),
    {
        if !rules_fit_check(&self.words) || !rules_fit_check(&self.patterns) {
            return false;
        }
        let mut i: usize = 0;
        while i < self.severities.len()
            invariant
                i <= self.severities.len(),
                rules_fit(self.words@),
                rules_fit(self.patterns@),
                forall|j: int|
                    0 <= j < i ==> rules_fit(severity_def_body(#[trigger] self.severities@[j].1).words@)
                        && rules_fit(severity_def_body(self.severities@[j].1).patterns@),
            decreases self.severities.len() - i,
        {
            let body = match &self.severities[i].1 {
                SeverityDef::Replace(b) => b,
                SeverityDef::Extend(b) => b,
            };
            if !rules_fit_check(&body.words) || !rules_fit_check(&body.patterns) {
                return false;
            }
            i = i + 1;
        }
        true
    }

    /// Whether the severity numbers strictly increase, as building an accent requires.
    pub fn has_increasing_severities(&self) -> (r: bool)
        ensures
            r == strictly_increasing(def_keys(*self)),
    {
        let mut i: usize = 1;
        if self.severities.len() == 0 {
            return true;
        }
        while i < self.severities.len()
            invariant
                1 <= i <= self.severities.len(),
                forall|a: int, b: int| 0 <= a < b < i ==> def_keys(*self)[a] < def_keys(*self)[b],
            decreases self.severities.len() - i,
        {
            assert(def_keys(*self)[i - 1] == self.severities@[i - 1].0);
            assert(def_keys(*self)[i as int] == self.severities@[i as int].0);
            if self.severities[i - 1].0 >= self.severities[i].0 {
                return false;
            }
            i = i + 1;
        }
        true
    }
}

} // verus!
