//! Plain definitions of accents, as read from accent description files.
use vstd::prelude::*;

verus! {

/// How a matched piece of text is replaced, as written in a definition.
pub enum ReplacementCallbackDef {
    Noop,
    Simple(String),
    Any(Vec<ReplacementCallbackDef>),
    Weights(Vec<(u64, ReplacementCallbackDef)>),
}

/// Words and patterns of one severity level.
pub struct SeverityBodyDef {
    pub words: Vec<(String, ReplacementCallbackDef)>,
    pub patterns: Vec<(String, ReplacementCallbackDef)>,
}

/// A severity level either replaces the rules below it or extends them.
pub enum SeverityDef {
    Replace(SeverityBodyDef),
    Extend(SeverityBodyDef),
}

/// A whole accent definition. `severities` is ordered by strictly increasing level,
/// as a map keyed by level gives it.
pub struct AccentDef {
    pub name: String,
    pub normalize_case: bool,
    pub words: Vec<(String, ReplacementCallbackDef)>,
    pub patterns: Vec<(String, ReplacementCallbackDef)>,
    pub severities: Vec<(u64, SeverityDef)>,
}

/// The value `normalize_case` takes when a definition leaves it out.
pub fn default_bool_true() -> (r: bool)
    ensures
        r,
{
    true
}

} // verus!
