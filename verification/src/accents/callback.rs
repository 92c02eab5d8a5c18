//! Replacement callbacks: what a matched piece of text turns into.
use vstd::prelude::*;

use super::defs::ReplacementCallbackDef;
use super::outside::{choose_one, choose_weighted, weight_sum};
use crate::chars::{
    all_ascii, all_lower, all_upper, char_is_ascii, char_is_lower, char_is_upper, char_to_lower,
    char_to_upper, chars_of, check_all_ascii, check_all_lower, check_all_upper, is_ascii_char,
    is_lower, is_upper, lower_of, string_of, upper_of,
};

verus! {

/// A replacement string together with facts about its characters.
#[derive(Debug, PartialEq)]
pub struct SimpleString {
    body: String,
    char_count: usize,
    is_ascii_only: bool,
    is_ascii_lowercase: bool,
    /// Computed with the same test as `is_ascii_lowercase`.
    is_ascii_uppercase: bool,
}

impl View for SimpleString {
    type V = Seq<char>;

    closed spec fn view(&self) -> Seq<char> {
        self.body@
    }
}

impl SimpleString {
    #[verifier::type_invariant]
    closed spec fn facts_hold(self) -> bool {
        &&& self.char_count == self.body@.len()
        &&& self.is_ascii_only == all_ascii(self.body@)
        &&& self.is_ascii_lowercase == all_lower(self.body@)
        &&& self.is_ascii_uppercase == all_lower(self.body@)
    }

    pub fn new(body: &str) -> (r: Self)
        ensures
            r@ == body@,
    {
        let cs = chars_of(body);
        let lower = check_all_lower(&cs);
        Self {
            body: body.to_owned(),
            char_count: cs.len(),
            is_ascii_only: check_all_ascii(&cs),
            is_ascii_lowercase: lower,
            is_ascii_uppercase: lower,
        }
    }

    /// A copy of this string.
    pub fn duplicate(&self) -> (r: Self)
        ensures
            r@ == self@,
    {
        proof {
            use_type_invariant(self);
        }
        Self {
            body: self.body.clone(),
            char_count: self.char_count,
            is_ascii_only: self.is_ascii_only,
            is_ascii_lowercase: self.is_ascii_lowercase,
            is_ascii_uppercase: self.is_ascii_uppercase,
        }
    }

    /// The replacement text.
    pub fn body(&self) -> (r: &str)
        ensures
            r@ == self@,
    {
        self.body.as_str()
    }
}

/// Each character of `new` takes the case of the character of `old` at the same place,
/// where that one is an ASCII letter.
pub open spec fn case_matched(old: Seq<char>, new: Seq<char>) -> Seq<char> {
    Seq::new(
        new.len(),
        |i: int|
            if is_lower(old[i]) {
                lower_of(new[i])
            } else if is_upper(old[i]) {
                upper_of(new[i])
            } else {
                new[i]
            },
    )
}

/// Every character is either not ASCII or an ASCII lowercase letter.
pub open spec fn lower_or_not_ascii(s: Seq<char>) -> bool {
    forall|i: int| 0 <= i < s.len() ==> (!is_ascii_char(#[trigger] s[i]) || is_lower(s[i]))
}

/// The case adjustment of a replacement `new` for the matched text `old`:
/// only an all-lowercase ASCII replacement is adjusted; it becomes uppercase when `old` is all
/// uppercase, stays when `old` has no uppercase ASCII letter, and otherwise takes `old`'s case
/// letter by letter when both have the same length.
pub open spec fn normalized_case(old: Seq<char>, new: Seq<char>) -> Seq<char> {
    if !all_lower(new) {
        new
    } else if all_upper(old) {
        new.map_values(|c: char| upper_of(c))
    } else if lower_or_not_ascii(old) {
        new
    } else if old.len() == new.len() {
        case_matched(old, new)
    } else {
        new
    }
}

fn check_lower_or_not_ascii(s: &Vec<char>) -> (r: bool)
    ensures
        r == lower_or_not_ascii(s@),
{
    let mut i: usize = 0;
    while i < s.len()
        invariant
            i <= s.len(),
            forall|j: int| 0 <= j < i ==> (!is_ascii_char(#[trigger] s@[j]) || is_lower(s@[j])),
        decreases s.len() - i,
    {
        if char_is_ascii(s[i]) && !char_is_lower(s[i]) {
            return false;
        }
        i += 1;
    }
    true
}

/// The abstract content of a replacement callback.
pub ghost enum CallbackModel {
    Noop,
    Simple(Seq<char>),
    Any(Seq<CallbackModel>),
    Weights(Seq<(u64, CallbackModel)>),
}

/// Receives a match and provides its replacement.
#[derive(Debug)]
pub enum ReplacementCallback {
    /// Do not replace.
    Noop,
    /// Puts the string as is.
    Simple(SimpleString),
    /// Selects a random replacement with equal weights.
    Any(Vec<ReplacementCallback>),
    /// Selects a replacement based on relative weights.
    Weights(Vec<(u64, ReplacementCallback)>),
}

impl View for ReplacementCallback {
    type V = CallbackModel;

    open spec fn view(&self) -> CallbackModel {
        self.model()
    }
}

impl ReplacementCallback {
    /// The abstract content of this callback.
    pub open spec fn model(self) -> CallbackModel
        decreases self,
    {
        match self {
            ReplacementCallback::Noop => CallbackModel::Noop,
            ReplacementCallback::Simple(s) => CallbackModel::Simple(s@),
            ReplacementCallback::Any(v) => CallbackModel::Any(
                Seq::new(
                    v@.len(),
                    |i: int|
                        if 0 <= i < v@.len() {
                            v@[i].model()
                        } else {
                            CallbackModel::Noop
                        },
                ),
            ),
            ReplacementCallback::Weights(v) => CallbackModel::Weights(
                Seq::new(
                    v@.len(),
                    |i: int|
                        if 0 <= i < v@.len() {
                            (v@[i].0, v@[i].1.model())
                        } else {
                            (0, CallbackModel::Noop)
                        },
                ),
            ),
        }
    }
}

impl CallbackModel {
    /// Every choice has something to choose from, and weights add up to a positive `u64`.
    pub open spec fn well_formed(self) -> bool
        decreases self,
    {
        match self {
            CallbackModel::Noop => true,
            CallbackModel::Simple(_) => true,
            CallbackModel::Any(v) => {
                &&& v.len() > 0
                &&& forall|i: int| 0 <= i < v.len() ==> (#[trigger] v[i]).well_formed()
            },
            CallbackModel::Weights(v) => {
                &&& v.len() > 0
                &&& 0 < weight_sum(v) <= u64::MAX
                &&& forall|i: int| 0 <= i < v.len() ==> (#[trigger] v[i]).1.well_formed()
            },
        }
    }

    /// `out` is a possible replacement of the matched text `matched`.
    pub open spec fn produces(self, matched: Seq<char>, normalize: bool, out: Seq<char>) -> bool
        decreases self,
    {
        match self {
            CallbackModel::Noop => out == matched,
            CallbackModel::Simple(s) => out == (if normalize {
                normalized_case(matched, s)
            } else {
                s
            }),
            CallbackModel::Any(v) => exists|i: int|
                0 <= i < v.len() && (#[trigger] v[i]).produces(matched, normalize, out),
            CallbackModel::Weights(v) => exists|i: int|
                0 <= i < v.len() && (#[trigger] v[i]).0 > 0 && v[i].1.produces(
                    matched,
                    normalize,
                    out,
                ),
        }
    }
}

/// Weight sums depend on the weights alone.
pub proof fn lemma_weight_sum_same<A, B>(a: Seq<(u64, A)>, b: Seq<(u64, B)>)
    requires
        a.len() == b.len(),
        forall|i: int| 0 <= i < a.len() ==> a[i].0 == b[i].0,
    ensures
        weight_sum(a) == weight_sum(b),
    decreases a.len(),
{
    if a.len() > 0 {
        lemma_weight_sum_same(a.drop_last(), b.drop_last());
    }
}

impl ReplacementCallback {
    /// Adjusts the case of a replacement to the text it replaces (ASCII letters only).
    pub fn normalize_case(old: &str, new: &SimpleString) -> (r: String)
        ensures
            r@ == normalized_case(old@, new@),
    {
        proof {
            use_type_invariant(new);
        }
        let mut body = chars_of(new.body.as_str());
        if !new.is_ascii_lowercase {
            return string_of(body.as_slice());
        }
        let old_chars = chars_of(old);
        if check_all_upper(&old_chars) {
            let mut i: usize = 0;
            while i < body.len()
                invariant
                    i <= body.len(),
                    body@.len() == new@.len(),
                    forall|j: int| 0 <= j < i ==> body@[j] == upper_of(#[trigger] new@[j]),
                    forall|j: int| i <= j < body@.len() ==> body@[j] == new@[j],
                decreases body.len() - i,
            {
                let c = char_to_upper(body[i]);
                body.set(i, c);
                i += 1;
            }
            assert(body@ == new@.map_values(|c: char| upper_of(c)));
            return string_of(body.as_slice());
        }
        if check_lower_or_not_ascii(&old_chars) {
            return string_of(body.as_slice());
        }
        if old_chars.len() == new.char_count {
            let mut i: usize = 0;
            while i < old_chars.len()
                invariant
                    i <= old_chars.len(),
                    old_chars@ == old@,
                    old@.len() == new@.len(),
                    body@.len() == new@.len(),
                    forall|j: int|
                        0 <= j < i ==> body@[j] == #[trigger] case_matched(old@, new@)[j],
                    forall|j: int| i <= j < body@.len() ==> body@[j] == new@[j],
                decreases old_chars.len() - i,
            {
                let c_old = old_chars[i];
                if char_is_lower(c_old) {
                    let c = char_to_lower(body[i]);
                    body.set(i, c);
                } else if char_is_upper(c_old) {
                    let c = char_to_upper(body[i]);
                    body.set(i, c);
                }
                i += 1;
            }
            assert(body@ == case_matched(old@, new@));
        }
        string_of(body.as_slice())
    }

    /// Provides the replacement for a matched piece of text.
    pub fn replace(&self, matched: &str, normalize_case: bool) -> (r: String)
        requires
            self@.well_formed(),
        ensures
            self@.produces(matched@, normalize_case, r@),
        decreases self,
    {
        match self {
            ReplacementCallback::Noop => matched.to_owned(),
            ReplacementCallback::Simple(string) => {
                if normalize_case {
                    Self::normalize_case(matched, string)
                } else {
                    string.body.clone()
                }
            },
            ReplacementCallback::Any(targets) => {
                let chosen = choose_one(targets.as_slice());
                let ghost i = choose|i: int| 0 <= i < targets@.len() && targets@[i] == *chosen;
                assert(decreases_to!(self => targets@[i]));
                assert(self@ matches CallbackModel::Any(m) && m[i] == targets@[i]@);
                let r = chosen.replace(matched, normalize_case);
                r
            },
            ReplacementCallback::Weights(items) => {
                let ghost m = self@->Weights_0;
                proof {
                    lemma_weight_sum_same(items@, m);
                }
                let chosen = choose_weighted(items.as_slice());
                let ghost i = choose|i: int| 0 <= i < items@.len() && items@[i] == *chosen;
                assert(decreases_to!(self => items@[i].1));
                assert(m[i] == (items@[i].0, items@[i].1@));
                let r = chosen.1.replace(matched, normalize_case);
                r
            },
        }
    }

    /// A copy of this callback.
    pub fn duplicate(&self) -> (r: Self)
        ensures
            r@ == self@,
        decreases self,
    {
        match self {
            ReplacementCallback::Noop => ReplacementCallback::Noop,
            ReplacementCallback::Simple(s) => ReplacementCallback::Simple(s.duplicate()),
            ReplacementCallback::Any(v) => {
                let mut out: Vec<ReplacementCallback> = Vec::new();
                let mut i: usize = 0;
                while i < v.len()
                    invariant
                        *self == ReplacementCallback::Any(*v),
                        i <= v.len(),
                        out@.len() == i,
                        forall|j: int| 0 <= j < i ==> (#[trigger] out@[j])@ == v@[j]@,
                    decreases v.len() - i,
                {
                    assert(decreases_to!(*self => (*self)->Any_0));
                    assert(decreases_to!(*self => v@[i as int]));
                    out.push(v[i].duplicate());
                    i += 1;
                }
                let r = ReplacementCallback::Any(out);
                assert(r@->Any_0 =~= self@->Any_0);
                r
            },
            ReplacementCallback::Weights(v) => {
                let mut out: Vec<(u64, ReplacementCallback)> = Vec::new();
                let mut i: usize = 0;
                while i < v.len()
                    invariant
                        *self == ReplacementCallback::Weights(*v),
                        i <= v.len(),
                        out@.len() == i,
                        forall|j: int|
                            0 <= j < i ==> (#[trigger] out@[j]).0 == v@[j].0 && out@[j].1@
                                == v@[j].1@,
                    decreases v.len() - i,
                {
                    assert(decreases_to!(*self => (*self)->Weights_0));
                    assert(decreases_to!(*self => v@[i as int].1));
                    out.push((v[i].0, v[i].1.duplicate()));
                    i += 1;
                }
                let r = ReplacementCallback::Weights(out);
                assert(r@->Weights_0 =~= self@->Weights_0);
                r
            },
        }
    }

    /// Builds a callback from its definition, rejecting empty choices and weights that add
    /// up to zero.
    pub fn try_from(def: ReplacementCallbackDef) -> (r: Result<Self, String>)
        requires
            weights_fit(def),
        ensures
            match r {
                Ok(cb) => def_error(def) is None && cb@ == def_model(def) && cb@.well_formed(),
                Err(e) => def_error(def) == Some(e@),
            },
    {
        Self::convert(&def)
    }

    fn convert(def: &ReplacementCallbackDef) -> (r: Result<Self, String>)
        requires
            weights_fit(*def),
        ensures
            match r {
                Ok(cb) => def_error(*def) is None && cb@ == def_model(*def) && cb@.well_formed(),
                Err(e) => def_error(*def) == Some(e@),
            },
        decreases def,
    {
        match def {
            ReplacementCallbackDef::Noop => Ok(ReplacementCallback::Noop),
            ReplacementCallbackDef::Simple(body) => Ok(
                ReplacementCallback::Simple(SimpleString::new(body.as_str())),
            ),
            ReplacementCallbackDef::Any(items) => {
                if items.len() == 0 {
                    return Err("Empty Any".to_owned());
                }
                let mut converted: Vec<ReplacementCallback> = Vec::new();
                let mut i: usize = 0;
                while i < items.len()
                    invariant
                        *def == ReplacementCallbackDef::Any(*items),
                        0 < items@.len(),
                        i <= items.len(),
                        converted@.len() == i,
                        forall|j: int| 0 <= j < items@.len() ==> weights_fit(#[trigger] items@[j]),
                        first_error(items@.take(i as int)) is None,
                        forall|j: int|
                            0 <= j < i ==> (#[trigger] converted@[j])@ == def_model(items@[j])
                                && converted@[j]@.well_formed(),
                    decreases items.len() - i,
                {
                    assert(decreases_to!(def => items@[i as int]));
                    assert(items@.take(i + 1).drop_last() == items@.take(i as int));
                    match Self::convert(&items[i]) {
                        Ok(cb) => converted.push(cb),
                        Err(e) => {
                            proof {
                                lemma_first_error_prefix(items@, i as int);
                            }
                            return Err(e);
                        },
                    }
                    i += 1;
                }
                assert(items@.take(i as int) == items@);
                let r = ReplacementCallback::Any(converted);
                assert(r@->Any_0 =~= def_model(*def)->Any_0);
                Ok(r)
            },
            ReplacementCallbackDef::Weights(items) => {
                if items.len() == 0 {
                    return Err("Empty Weights".to_owned());
                }
                let mut total: u64 = 0;
                let mut k: usize = 0;
                while k < items.len()
                    invariant
                        k <= items.len(),
                        weight_sum(items@) <= u64::MAX,
                        total == weight_sum(items@.take(k as int)),
                    decreases items.len() - k,
                {
                    proof {
                        lemma_weight_sum_prefix_le(items@, k as int + 1);
                        assert(items@.take(k + 1).drop_last() == items@.take(k as int));
                    }
                    total = total + items[k].0;
                    k += 1;
                }
                assert(items@.take(k as int) == items@);
                if total == 0 {
                    return Err("Weights add up to 0".to_owned());
                }
                let mut converted: Vec<(u64, ReplacementCallback)> = Vec::new();
                let mut i: usize = 0;
                while i < items.len()
                    invariant
                        *def == ReplacementCallbackDef::Weights(*items),
                        0 < items@.len(),
                        0 < weight_sum(items@) <= u64::MAX,
                        i <= items.len(),
                        converted@.len() == i,
                        forall|j: int| 0 <= j < items@.len() ==> weights_fit(#[trigger] items@[j].1),
                        first_weighted_error(items@.take(i as int)) is None,
                        forall|j: int|
                            0 <= j < i ==> (#[trigger] converted@[j]).0 == items@[j].0
                                && converted@[j].1@ == def_model(items@[j].1)
                                && converted@[j].1@.well_formed(),
                    decreases items.len() - i,
                {
                    assert(decreases_to!(def => items@[i as int].1));
                    assert(items@.take(i + 1).drop_last() == items@.take(i as int));
                    match Self::convert(&items[i].1) {
                        Ok(cb) => converted.push((items[i].0, cb)),
                        Err(e) => {
                            proof {
                                lemma_first_weighted_error_prefix(items@, i as int);
                            }
                            return Err(e);
                        },
                    }
                    i += 1;
                }
                assert(items@.take(i as int) == items@);
                let r = ReplacementCallback::Weights(converted);
                assert(r@->Weights_0 =~= def_model(*def)->Weights_0);
                proof {
                    lemma_weight_sum_same(items@, r@->Weights_0);
                }
                Ok(r)
            },
        }
    }
}

/// Every weighted choice in a definition adds up to no more than `u64::MAX`.
pub open spec fn weights_fit(def: ReplacementCallbackDef) -> bool
    decreases def,
{
    match def {
        ReplacementCallbackDef::Noop => true,
        ReplacementCallbackDef::Simple(_) => true,
        ReplacementCallbackDef::Any(items) => forall|i: int|
            0 <= i < items@.len() ==> weights_fit(#[trigger] items@[i]),
        ReplacementCallbackDef::Weights(items) => {
            &&& weight_sum(items@) <= u64::MAX
            &&& forall|i: int| 0 <= i < items@.len() ==> weights_fit(#[trigger] items@[i].1)
        },
    }
}

/// The callback a definition describes.
pub open spec fn def_model(def: ReplacementCallbackDef) -> CallbackModel
    decreases def,
{
    match def {
        ReplacementCallbackDef::Noop => CallbackModel::Noop,
        ReplacementCallbackDef::Simple(s) => CallbackModel::Simple(s@),
        ReplacementCallbackDef::Any(items) => CallbackModel::Any(
            Seq::new(
                items@.len(),
                |i: int|
                    if 0 <= i < items@.len() {
                        def_model(items@[i])
                    } else {
                        CallbackModel::Noop
                    },
            ),
        ),
        ReplacementCallbackDef::Weights(items) => CallbackModel::Weights(
            Seq::new(
                items@.len(),
                |i: int|
                    if 0 <= i < items@.len() {
                        (items@[i].0, def_model(items@[i].1))
                    } else {
                        (0, CallbackModel::Noop)
                    },
            ),
        ),
    }
}

/// The error a definition is rejected with, if any: the first offending choice, searched
/// depth first in order.
pub open spec fn def_error(def: ReplacementCallbackDef) -> Option<Seq<char>>
    decreases def, 0int,
{
    match def {
        ReplacementCallbackDef::Noop => None,
        ReplacementCallbackDef::Simple(_) => None,
        ReplacementCallbackDef::Any(items) => if items@.len() == 0 {
            Some("Empty Any"@)
        } else {
            first_error(items@)
        },
        ReplacementCallbackDef::Weights(items) => if items@.len() == 0 {
            Some("Empty Weights"@)
        } else if weight_sum(items@) == 0 {
            Some("Weights add up to 0"@)
        } else {
            first_weighted_error(items@)
        },
    }
}

/// The first error among a list of definitions.
pub open spec fn first_error(items: Seq<ReplacementCallbackDef>) -> Option<Seq<char>>
    decreases items, items.len(),
{
    if items.len() == 0 {
        None
    } else {
        match first_error(items.drop_last()) {
            Some(e) => Some(e),
            None => def_error(items.last()),
        }
    }
}

/// The first error among a list of weighted definitions.
pub open spec fn first_weighted_error(items: Seq<(u64, ReplacementCallbackDef)>) -> Option<
    Seq<char>,
>
    decreases items, items.len(),
{
    if items.len() == 0 {
        None
    } else {
        match first_weighted_error(items.drop_last()) {
            Some(e) => Some(e),
            None => def_error(items.last().1),
        }
    }
}

proof fn lemma_first_error_prefix(items: Seq<ReplacementCallbackDef>, i: int)
    requires
        0 <= i < items.len(),
        first_error(items.take(i)) is None,
        def_error(items[i]) is Some,
    ensures
        first_error(items) == def_error(items[i]),
    decreases items.len() - i,
{
    if i + 1 == items.len() {
        assert(items.drop_last() == items.take(i));
    } else {
        assert(items.take(i + 1).drop_last() == items.take(i));
        lemma_first_error_prefix_extend(items, i + 1);
    }
}

proof fn lemma_first_error_prefix_extend(items: Seq<ReplacementCallbackDef>, n: int)
    requires
        0 <= n <= items.len(),
        first_error(items.take(n)) is Some,
    ensures
        first_error(items) == first_error(items.take(n)),
    decreases items.len() - n,
{
    if n == items.len() {
        assert(items.take(n) == items);
    } else {
        assert(items.take(n + 1).drop_last() == items.take(n));
        lemma_first_error_prefix_extend(items, n + 1);
    }
}

proof fn lemma_first_weighted_error_prefix(items: Seq<(u64, ReplacementCallbackDef)>, i: int)
    requires
        0 <= i < items.len(),
        first_weighted_error(items.take(i)) is None,
        def_error(items[i].1) is Some,
    ensures
        first_weighted_error(items) == def_error(items[i].1),
    decreases items.len() - i,
{
    if i + 1 == items.len() {
        assert(items.drop_last() == items.take(i));
    } else {
        assert(items.take(i + 1).drop_last() == items.take(i));
        lemma_first_weighted_error_prefix_extend(items, i + 1);
    }
}

proof fn lemma_first_weighted_error_prefix_extend(items: Seq<(u64, ReplacementCallbackDef)>, n: int)
    requires
        0 <= n <= items.len(),
        first_weighted_error(items.take(n)) is Some,
    ensures
        first_weighted_error(items) == first_weighted_error(items.take(n)),
    decreases items.len() - n,
{
    if n == items.len() {
        assert(items.take(n) == items);
    } else {
        assert(items.take(n + 1).drop_last() == items.take(n));
        lemma_first_weighted_error_prefix_extend(items, n + 1);
    }
}

/// A prefix weighs no more than the whole.
pub proof fn lemma_weight_sum_prefix_le<T>(items: Seq<(u64, T)>, n: int)
    requires
        0 <= n <= items.len(),
    ensures
        weight_sum(items.take(n)) <= weight_sum(items),
    decreases items.len() - n,
{
    if n < items.len() {
        lemma_weight_sum_prefix_le(items, n + 1);
        assert(items.take(n + 1).drop_last() == items.take(n));
    } else {
        assert(items.take(n) == items);
    }
}

} // verus!
