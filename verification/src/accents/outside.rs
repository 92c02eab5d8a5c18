//! The calls into `rand` and `regex` that the accent rules make.
use vstd::prelude::*;

verus! {

/// Sum of the weights of a weighted list.
pub open spec fn weight_sum<T>(items: Seq<(u64, T)>) -> int
    decreases items.len(),
{
    if items.len() == 0 {
        0
    } else {
        weight_sum(items.drop_last()) + items.last().0
    }
}

/// `x` occurs in `s`.
pub open spec fn is_element_of<T>(x: T, s: Seq<T>) -> bool {
    exists|i: int| 0 <= i < s.len() && s[i] == x
}

/// `rand::seq::SliceRandom::choose` with the thread-local generator.
/// The chosen element is one of the slice's elements; which one is left to chance.
#[verifier::external_body]
pub(crate) fn choose_one<T>(items: &[T]) -> (r: &T)
    requires
        items@.len() > 0,
    ensures
        is_element_of(*r, items@),
{
    rand::seq::SliceRandom::choose(items, &mut rand::thread_rng()).unwrap()
}

/// `rand::seq::SliceRandom::choose_weighted` with the thread-local generator, weighing each
/// element by its first field. The source draws a number below the total weight and picks
/// the element whose cumulative range holds it, so an element of weight zero is never picked.
/// The source adds the weights up in a `u64` and errs when they are all zero, hence the bounds.
#[verifier::external_body]
pub(crate) fn choose_weighted<T>(items: &[(u64, T)]) -> (r: &(u64, T))
    requires
        items@.len() > 0,
        0 < weight_sum(items@) <= u64::MAX,
    ensures
        r.0 > 0,
        is_element_of(*r, items@),
{
    rand::seq::SliceRandom::choose_weighted(items, &mut rand::thread_rng(), |item| item.0).unwrap()
}

} // verus!

verus! {

#[verifier::external_type_specification]
#[verifier::external_body]
pub struct ExRegex(regex::Regex);

/// A compiled regular expression together with its source text.
pub struct Pattern {
    source: String,
    regex: regex::Regex,
}

impl View for Pattern {
    type V = Seq<char>;

    closed spec fn view(&self) -> Seq<char> {
        self.source@
    }
}

impl Pattern {
    /// The source text of the regular expression.
    pub fn as_str(&self) -> (r: &str)
        ensures
            r@ == self@,
    {
        self.source.as_str()
    }
}

/// The message with which `regex::Regex::new` rejects a source text, or `None` where it
/// compiles.
pub uninterp spec fn regex_compile_error(source: Seq<char>) -> Option<Seq<char>>;

/// The pieces of `text` between the matches of the regular expression `source`
/// (`regex::Regex::split`).
pub uninterp spec fn regex_pieces(source: Seq<char>, text: Seq<char>) -> Seq<Seq<char>>;

/// The successive non-overlapping matches of the regular expression `source` in `text`
/// (`regex::Regex::find_iter`).
pub uninterp spec fn regex_matches(source: Seq<char>, text: Seq<char>) -> Seq<Seq<char>>;

/// `pieces[0] + fills[0] + pieces[1] + ... + fills[n-1] + pieces[n]`.
pub open spec fn interleave(pieces: Seq<Seq<char>>, fills: Seq<Seq<char>>) -> Seq<char>
    decreases fills.len(),
{
    if fills.len() == 0 || pieces.len() == 0 {
        if pieces.len() == 0 {
            Seq::empty()
        } else {
            pieces[0]
        }
    } else {
        interleave(pieces.drop_last(), fills.drop_last()) + fills.last() + pieces.last()
    }
}

/// The views of a list of strings.
pub open spec fn views(v: Seq<String>) -> Seq<Seq<char>> {
    v.map_values(|s: String| s@)
}

/// `regex::Regex::new`: compiles `source`, or returns the text of the error it reports.
#[verifier::external_body]
pub(crate) fn compile_pattern(source: String) -> (r: Result<Pattern, String>)
    ensures
        match r {
            Ok(p) => p@ == source@ && regex_compile_error(source@) is None,
            Err(e) => regex_compile_error(source@) == Some(e@),
        },
{
    match regex::Regex::new(&source) {
        Ok(regex) => Ok(Pattern { source, regex }),
        Err(err) => Err(err.to_string()),
    }
}

/// `regex::Regex::split`: the pieces of `text` around the matches.
#[verifier::external_body]
pub(crate) fn split_pieces(p: &Pattern, text: &str) -> (r: Vec<String>)
    ensures
        views(r@) == regex_pieces(p@, text@),
{
    p.regex.split(text).map(|s| s.to_string()).collect()
}

/// `regex::Regex::find_iter`: the matched texts. `split` is built on the same search, yielding
/// the text before each match and the rest after the last one, so the pieces and the matches
/// interleave back into `text`.
#[verifier::external_body]
pub(crate) fn find_matches(p: &Pattern, text: &str) -> (r: Vec<String>)
    ensures
        views(r@) == regex_matches(p@, text@),
        regex_pieces(p@, text@).len() == r@.len() + 1,
        interleave(regex_pieces(p@, text@), views(r@)) == text@,
{
    p.regex.find_iter(text).map(|m| m.as_str().to_string()).collect()
}

} // verus!
