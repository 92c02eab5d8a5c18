//! Ordered rule lists: duplicate elimination, compilation into regular expressions and
//! application to text.
use vstd::prelude::*;

use super::callback::{CallbackModel, ReplacementCallback};
use super::outside::{
    compile_pattern, find_matches, interleave, regex_compile_error, regex_matches, regex_pieces,
    split_pieces, views, Pattern,
};
use crate::keyed::{dedup, dedup_step, find_key, lemma_find_key};
use crate::chars::{
    all_lower, chars_of, check_all_lower, decimal, decimal_chars, push_chars, push_str, string_of,
};

verus! {

/// A rule: the text it looks for and the callback that replaces it.
pub type RuleModel = (Seq<char>, CallbackModel);

/// The abstract content of a list of rules.
pub open spec fn rules_model(v: Seq<(String, ReplacementCallback)>) -> Seq<RuleModel> {
    v.map_values(|r: (String, ReplacementCallback)| (r.0@, r.1@))
}

/// Every callback of a rule list is well formed.
pub open spec fn rules_well_formed(v: Seq<RuleModel>) -> bool {
    forall|i: int| 0 <= i < v.len() ==> (#[trigger] v[i]).1.well_formed()
}

/// The regular-expression flags of a rule: case-insensitive when the rule is all lowercase.
pub open spec fn flags(p: Seq<char>) -> Seq<char> {
    if all_lower(p) {
        "mi"@
    } else {
        "m"@
    }
}

/// The regular expression of a word rule: the text between word boundaries.
pub open spec fn word_source(p: Seq<char>) -> Seq<char> {
    "(?"@ + flags(p) + ")\\b"@ + p + "\\b"@
}

/// The regular expression of a pattern rule.
pub open spec fn pattern_source(p: Seq<char>) -> Seq<char> {
    "(?"@ + flags(p) + ")"@ + p
}

/// The regular expression of rule `p`, as a word or as a pattern.
pub open spec fn rule_source(p: Seq<char>, is_word: bool) -> Seq<char> {
    if is_word {
        word_source(p)
    } else {
        pattern_source(p)
    }
}

/// The name of a rule kind in messages.
pub open spec fn kind_name(is_word: bool) -> Seq<char> {
    if is_word {
        "word"@
    } else {
        "pattern"@
    }
}

/// The error for rule `i` of a list, if its regular expression does not compile.
pub open spec fn compile_error_at(rules: Seq<RuleModel>, is_word: bool, i: int) -> Option<
    Seq<char>,
> {
    match regex_compile_error(rule_source(rules[i].0, is_word)) {
        Some(e) => Some(
            "bad regex for "@ + kind_name(is_word) + " "@ + decimal(i as nat) + ": "@ + rules[i].0
                + ": "@ + e,
        ),
        None => None,
    }
}

/// The first compilation error among the first `n` rules.
pub open spec fn first_compile_error(rules: Seq<RuleModel>, is_word: bool, n: int) -> Option<
    Seq<char>,
>
    decreases n,
{
    if n <= 0 {
        None
    } else {
        match first_compile_error(rules, is_word, n - 1) {
            Some(e) => Some(e),
            None => compile_error_at(rules, is_word, n - 1),
        }
    }
}

/// The error of compiling words and then patterns, if any.
pub open spec fn rules_error(words: Seq<RuleModel>, patterns: Seq<RuleModel>) -> Option<
    Seq<char>,
> {
    match first_compile_error(words, true, words.len() as int) {
        Some(e) => Some(e),
        None => first_compile_error(patterns, false, patterns.len() as int),
    }
}

/// The compiled rules: words first, then patterns, each with its regular expression.
pub open spec fn compiled(words: Seq<RuleModel>, patterns: Seq<RuleModel>) -> Seq<RuleModel> {
    Seq::new(words.len(), |i: int| (word_source(words[i].0), words[i].1)) + Seq::new(
        patterns.len(),
        |i: int| (pattern_source(patterns[i].0), patterns[i].1),
    )
}

/// `out` is a possible result of rewriting every match of `rule` in `text`.
pub open spec fn rule_outcome(rule: RuleModel, text: Seq<char>, normalize: bool, out: Seq<char>) -> bool {
    exists|outs: Seq<Seq<char>>|
        {
            &&& outs.len() == regex_matches(rule.0, text).len()
            &&& forall|i: int|
                0 <= i < outs.len() ==> rule.1.produces(
                    regex_matches(rule.0, text)[i],
                    normalize,
                    #[trigger] outs[i],
                )
            &&& out == interleave(regex_pieces(rule.0, text), outs)
        }
}

/// `out` is a possible result of applying the rules one after the other to `text`.
pub open spec fn rules_outcome(
    rules: Seq<RuleModel>,
    text: Seq<char>,
    normalize: bool,
    out: Seq<char>,
) -> bool
    decreases rules.len(),
{
    if rules.len() == 0 {
        out == text
    } else {
        exists|mid: Seq<char>|
            rules_outcome(rules.drop_last(), text, normalize, mid) && rule_outcome(
                rules.last(),
                mid,
                normalize,
                out,
            )
    }
}

/// Every callback of the rules always gives one and the same replacement for a match
/// (no random choice among several).
pub open spec fn rules_deterministic(rules: Seq<RuleModel>) -> bool {
    forall|i: int|
        0 <= i < rules.len() ==> ((#[trigger] rules[i]).1 is Noop || rules[i].1 is Simple)
}

/// With callbacks that choose nothing at random, a rule rewrites a text in one way only.
pub proof fn lemma_rule_outcome_unique(
    rule: RuleModel,
    text: Seq<char>,
    normalize: bool,
    o1: Seq<char>,
    o2: Seq<char>,
)
    requires
        rule.1 is Noop || rule.1 is Simple,
        rule_outcome(rule, text, normalize, o1),
        rule_outcome(rule, text, normalize, o2),
    ensures
        o1 == o2,
{
    let m = regex_matches(rule.0, text);
    let outs1 = choose|outs: Seq<Seq<char>>|
        {
            &&& outs.len() == m.len()
            &&& forall|i: int| 0 <= i < outs.len() ==> rule.1.produces(m[i], normalize, #[trigger] outs[i])
            &&& o1 == interleave(regex_pieces(rule.0, text), outs)
        };
    let outs2 = choose|outs: Seq<Seq<char>>|
        {
            &&& outs.len() == m.len()
            &&& forall|i: int| 0 <= i < outs.len() ==> rule.1.produces(m[i], normalize, #[trigger] outs[i])
            &&& o2 == interleave(regex_pieces(rule.0, text), outs)
        };
    assert forall|i: int| 0 <= i < outs1.len() implies outs1[i] == outs2[i] by {
        assert(rule.1.produces(m[i], normalize, outs1[i]));
        assert(rule.1.produces(m[i], normalize, outs2[i]));
    }
    assert(outs1 =~= outs2);
}

/// With callbacks that choose nothing at random, a rule list rewrites a text in one way only.
pub proof fn lemma_rules_outcome_unique(
    rules: Seq<RuleModel>,
    text: Seq<char>,
    normalize: bool,
    o1: Seq<char>,
    o2: Seq<char>,
)
    requires
        rules_deterministic(rules),
        rules_outcome(rules, text, normalize, o1),
        rules_outcome(rules, text, normalize, o2),
    ensures
        o1 == o2,
    decreases rules.len(),
{
    if rules.len() > 0 {
        assert(rules_outcome(rules, text, normalize, o1) == exists|mid: Seq<char>|
            rules_outcome(rules.drop_last(), text, normalize, mid) && rule_outcome(rules.last(), mid, normalize, o1));
        assert(rules_outcome(rules, text, normalize, o2) == exists|mid: Seq<char>|
            rules_outcome(rules.drop_last(), text, normalize, mid) && rule_outcome(rules.last(), mid, normalize, o2));
        let mid1 = choose|mid: Seq<char>|
            rules_outcome(rules.drop_last(), text, normalize, mid) && rule_outcome(rules.last(), mid, normalize, o1);
        let mid2 = choose|mid: Seq<char>|
            rules_outcome(rules.drop_last(), text, normalize, mid) && rule_outcome(rules.last(), mid, normalize, o2);
        let init = rules.drop_last();
        assert forall|i: int| 0 <= i < init.len() implies (#[trigger] init[i]).1 is Noop
            || init[i].1 is Simple by {
            assert(init[i] == rules[i]);
        }
        lemma_rules_outcome_unique(init, text, normalize, mid1, mid2);
        assert(rules.last() == rules[rules.len() - 1]);
        lemma_rule_outcome_unique(rules.last(), mid1, normalize, o1, o2);
    }
}

/// Maps a regular expression to a callback.
pub struct Replacement {
    source: Pattern,
    cb: ReplacementCallback,
}

impl View for Replacement {
    type V = RuleModel;

    closed spec fn view(&self) -> RuleModel {
        (self.source@, self.cb@)
    }
}

impl Replacement {
    /// The source text of the regular expression.
    pub fn source(&self) -> (r: &str)
        ensures
            r@ == self@.0,
    {
        self.source.as_str()
    }

    /// The callback.
    pub fn callback(&self) -> (r: &ReplacementCallback)
        ensures
            r@ == self@.1,
    {
        &self.cb
    }

    /// Rewrites every match in `text`.
    pub fn apply(&self, text: &str, normalize_case: bool) -> (r: String)
        requires
            self@.1.well_formed(),
        ensures
            rule_outcome(self@, text@, normalize_case, r@),
    {
        let pieces = split_pieces(&self.source, text);
        let matches = find_matches(&self.source, text);
        let ghost ps = regex_pieces(self@.0, text@);
        let ghost ms = regex_matches(self@.0, text@);
        assert(pieces@[0]@ == ps[0]);
        let mut result = chars_of(pieces[0].as_str());
        let ghost mut outs: Seq<Seq<char>> = Seq::empty();
        assert(ps.take(1).drop_last() =~= ps.take(0));
        let mut i: usize = 0;
        while i < matches.len()
            invariant
                i <= matches.len(),
                ps.len() == matches@.len() + 1,
                ps == views(pieces@),
                ms == views(matches@),
                self@.1.well_formed(),
                outs.len() == i,
                forall|j: int| 0 <= j < i ==> self@.1.produces(ms[j], normalize_case, #[trigger] outs[j]),
                result@ == interleave(ps.take(i + 1), outs),
            decreases matches.len() - i,
        {
            let rep = self.cb.replace(matches[i].as_str(), normalize_case);
            let rep_chars = chars_of(rep.as_str());
            push_chars(&mut result, &rep_chars);
            push_str(&mut result, pieces[i + 1].as_str());
            proof {
                let new_outs = outs.push(rep@);
                assert(ps.take(i + 2).drop_last() =~= ps.take(i + 1));
                assert(new_outs.drop_last() =~= outs);
                assert(interleave(ps.take(i + 2), new_outs) == interleave(ps.take(i + 1), outs)
                    + rep@ + ps[i + 1]);
                outs = new_outs;
            }
            i += 1;
        }
        assert(ps.take(i + 1) =~= ps);
        string_of(result.as_slice())
    }
}

/// Keeps the order of the collection and lets later rules overwrite earlier ones with the
/// same key.
pub fn dedup_patterns(
    collection: Vec<(String, ReplacementCallback)>,
    collection_name: &str,
    drop_expected: bool,
) -> (r: Vec<(String, ReplacementCallback)>)
    ensures
        rules_model(r@) == dedup(rules_model(collection@)),
{
    let ghost orig = rules_model(collection@);
    let mut rest = collection;
    let mut filtered: Vec<(String, ReplacementCallback)> = Vec::new();
    let ghost mut n: int = 0;
    while rest.len() > 0
        invariant
            0 <= n <= orig.len(),
            rules_model(rest@) == orig.skip(n),
            rules_model(filtered@) == dedup(orig.take(n)),
        decreases rest.len(),
    {
        let word = rest.remove(0);
        let ghost item = (word.0@, word.1@);
        proof {
            assert(orig.skip(n)[0] == item);
            assert(orig.skip(n + 1) =~= orig.skip(n).drop_first());
            assert(rules_model(rest@) =~= orig.skip(n + 1));
            assert(orig.take(n + 1).drop_last() =~= orig.take(n));
            assert(orig.take(n + 1).last() == item);
        }
        let mut found: usize = 0;
        while found < filtered.len() && !(filtered[found].0 == word.0)
            invariant
                found <= filtered.len(),
                forall|j: int| 0 <= j < found ==> filtered@[j].0@ != word.0@,
            decreases filtered.len() - found,
        {
            found += 1;
        }
        let seen = found < filtered.len();
        let ghost acc = rules_model(filtered@);
        proof {
            lemma_find_key(acc, item.0);
        }
        assert(forall|j: int| 0 <= j < acc.len() ==> #[trigger] acc[j] == (filtered@[j].0@, filtered@[j].1@));
        assert(forall|j: int| 0 <= j < found ==> acc[j].0 != item.0);
        if seen {
            assert(acc[found as int].0 == item.0);
            assert(find_key(acc, item.0) == found);
            filtered.set(found, word);
            assert(rules_model(filtered@) =~= acc.update(found as int, item));
        } else {
            assert(find_key(acc, item.0) < 0);
            filtered.push(word);
            assert(rules_model(filtered@) =~= acc.push(item));
        }
        proof {
            n = n + 1;
        }
    }
    assert(orig.take(n) =~= orig);
    filtered
}

/// Builds the message "bad regex for <kind> <i>: <pattern>: <error>".
fn bad_regex_message(is_word: bool, i: usize, pattern: &str, err: &str) -> (r: String)
    ensures
        r@ == "bad regex for "@ + kind_name(is_word) + " "@ + decimal(i as nat) + ": "@ + pattern@
            + ": "@ + err@,
{
    let mut m: Vec<char> = Vec::new();
    push_str(&mut m, "bad regex for ");
    if is_word {
        push_str(&mut m, "word");
    } else {
        push_str(&mut m, "pattern");
    }
    push_str(&mut m, " ");
    let digits = decimal_chars(i as u64);
    push_chars(&mut m, &digits);
    push_str(&mut m, ": ");
    push_str(&mut m, pattern);
    push_str(&mut m, ": ");
    push_str(&mut m, err);
    string_of(m.as_slice())
}

/// The regular expression source of a rule.
fn rule_regex(pattern: &str, is_word: bool) -> (r: String)
    ensures
        r@ == rule_source(pattern@, is_word),
{
    let cs = chars_of(pattern);
    let mut m: Vec<char> = Vec::new();
    push_str(&mut m, "(?");
    if check_all_lower(&cs) {
        push_str(&mut m, "mi");
    } else {
        push_str(&mut m, "m");
    }
    if is_word {
        push_str(&mut m, ")\\b");
        push_str(&mut m, pattern);
        push_str(&mut m, "\\b");
    } else {
        push_str(&mut m, ")");
        push_str(&mut m, pattern);
    }
    string_of(m.as_slice())
}

/// Compiles one list of rules, appending to `out`.
fn compile_rules(
    rules: &Vec<(String, ReplacementCallback)>,
    is_word: bool,
    out: &mut Vec<Replacement>,
) -> (r: Result<(), String>)
    ensures
        match r {
            Ok(()) => {
                &&& first_compile_error(rules_model(rules@), is_word, rules@.len() as int) is None
                &&& final(out)@.len() == old(out)@.len() + rules@.len()
                &&& forall|j: int|
                    0 <= j < old(out)@.len() ==> (#[trigger] final(out)@[j])@ == old(out)@[j]@
                &&& forall|j: int|
                    0 <= j < rules@.len() ==> (#[trigger] final(out)@[old(out)@.len() + j])@ == (
                    rule_source(rules@[j].0@, is_word),
                    rules@[j].1@,
                )
            },
            Err(e) => first_compile_error(rules_model(rules@), is_word, rules@.len() as int)
                == Some(e@),
        },
{
    let ghost model = rules_model(rules@);
    let ghost start = out@.len();
    let mut i: usize = 0;
    while i < rules.len()
        invariant
            i <= rules.len(),
            model == rules_model(rules@),
            first_compile_error(model, is_word, i as int) is None,
            out@.len() == start + i,
            start == old(out)@.len(),
            forall|j: int| 0 <= j < start ==> (#[trigger] out@[j])@ == old(out)@[j]@,
            forall|j: int|
                0 <= j < i ==> (#[trigger] out@[start + j])@ == (
                    rule_source(rules@[j].0@, is_word),
                    rules@[j].1@,
                ),
        decreases rules.len() - i,
    {
        let source = rule_regex(rules[i].0.as_str(), is_word);
        match compile_pattern(source) {
            Ok(p) => {
                out.push(Replacement { source: p, cb: rules[i].1.duplicate() });
            },
            Err(err) => {
                let msg = bad_regex_message(is_word, i, rules[i].0.as_str(), err.as_str());
                proof {
                    lemma_first_compile_error_rest(model, is_word, i as int + 1, rules@.len() as int);
                }
                return Err(msg);
            },
        }
        i += 1;
    }
    Ok(())
}

proof fn lemma_first_compile_error_rest(rules: Seq<RuleModel>, is_word: bool, n: int, m: int)
    requires
        0 <= n <= m,
        first_compile_error(rules, is_word, n) is Some,
    ensures
        first_compile_error(rules, is_word, m) == first_compile_error(rules, is_word, n),
    decreases m - n,
{
    if n < m {
        lemma_first_compile_error_rest(rules, is_word, n + 1, m);
    }
}

/// Compiles words (between word boundaries) and then patterns into replacements.
pub fn make_replacements(
    words: &Vec<(String, ReplacementCallback)>,
    patterns: &Vec<(String, ReplacementCallback)>,
) -> (r: Result<Vec<Replacement>, String>)
    ensures
        match r {
            Ok(v) => rules_error(rules_model(words@), rules_model(patterns@)) is None && v@.map_values(
                |x: Replacement| x@,
            ) == compiled(rules_model(words@), rules_model(patterns@)),
            Err(e) => rules_error(rules_model(words@), rules_model(patterns@)) == Some(e@),
        },
{
    let mut out: Vec<Replacement> = Vec::new();
    compile_rules(words, true, &mut out)?;
    let ghost out1 = out@;
    assert(forall|j: int| 0 <= j < words@.len() ==> out1[0 + j] == #[trigger] out1[j]);
    compile_rules(patterns, false, &mut out)?;
    let ghost w = rules_model(words@);
    let ghost p = rules_model(patterns@);
    let ghost c = compiled(w, p);
    assert(c.len() == out@.len());
    assert forall|j: int| 0 <= j < out@.len() implies out@[j]@ == #[trigger] c[j] by {
        if j < words@.len() {
            assert(out@[j]@ == out1[j]@);
            assert(c[j] == (word_source(w[j].0), w[j].1));
        } else {
            let k = j - words@.len();
            assert(out@[out1.len() + k] == out@[j]);
            assert(c[j] == (pattern_source(p[k].0), p[k].1));
        }
    }
    assert(out@.map_values(|x: Replacement| x@) =~= compiled(
        rules_model(words@),
        rules_model(patterns@),
    ));
    Ok(out)
}

} // verus!
