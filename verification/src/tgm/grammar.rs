//! The grammar of map files in the TGM format, read as functions from a text and a
//! position to what is found there.
//!
//! Each rule tries its alternatives in order. A rule that does not match gives
//! [`Res::Miss`], and the caller may try another alternative; an exponent without digits
//! gives [`Res::Fatal`], which ends the whole read.
use vstd::prelude::*;
use crate::chars::lower_of;
use crate::keyed::dedup;
use crate::tgm::model::ValueModel;

verus! {

/// What reading a rule at a position gives.
pub ghost enum Res<T> {
    /// The rule matched up to the given end position.
    Matched(int, T),
    /// The rule did not match; another alternative may be tried.
    Miss,
    /// The text is malformed beyond recovery.
    Fatal,
}

/// An object as read: its type path and its variable overrides.
pub type ObjectModel = (Seq<char>, Seq<(Seq<char>, ValueModel)>);

/// Whitespace between tokens.
pub open spec fn is_ws(c: char) -> bool {
    c == ' ' || c == '\t' || c == '\r' || c == '\n'
}

/// A character of an identifier: ASCII letters and digits, `-` and `_`.
pub open spec fn is_ident_char(c: char) -> bool {
    ('a' <= c && c <= 'z') || ('A' <= c && c <= 'Z') || ('0' <= c && c <= '9') || c == '-' || c == '_'
}

pub open spec fn is_digit(c: char) -> bool {
    '0' <= c && c <= '9'
}

/// The character at `p` is `c`.
pub open spec fn char_at(s: Seq<char>, p: int, c: char) -> bool {
    0 <= p < s.len() && s[p] == c
}

/// The end of the run of whitespace starting at `p`.
pub open spec fn ws_end(s: Seq<char>, p: int) -> int
    decreases s.len() - p,
{
    if 0 <= p < s.len() && is_ws(s[p]) {
        ws_end(s, p + 1)
    } else {
        p
    }
}

/// The end of the run of identifier characters starting at `p`.
pub open spec fn ident_end(s: Seq<char>, p: int) -> int
    decreases s.len() - p,
{
    if 0 <= p < s.len() && is_ident_char(s[p]) {
        ident_end(s, p + 1)
    } else {
        p
    }
}

/// The end of the run of digits starting at `p`.
pub open spec fn digits_end(s: Seq<char>, p: int) -> int
    decreases s.len() - p,
{
    if 0 <= p < s.len() && is_digit(s[p]) {
        digits_end(s, p + 1)
    } else {
        p
    }
}

pub proof fn lemma_ws_end(s: Seq<char>, p: int)
    requires
        0 <= p <= s.len(),
    ensures
        p <= ws_end(s, p) <= s.len(),
        forall|i: int| p <= i < ws_end(s, p) ==> is_ws(#[trigger] s[i]),
    decreases s.len() - p,
{
    if p < s.len() && is_ws(s[p]) {
        lemma_ws_end(s, p + 1);
    }
}

/// Skipping whitespace in the part of a text after a prefix does not depend on the prefix.
proof fn lemma_ws_end_after(pre: Seq<char>, b: Seq<char>, j: int)
    requires
        0 <= j <= b.len(),
    ensures
        ws_end(pre + b, pre.len() + j) == pre.len() + ws_end(b, j),
    decreases b.len() - j,
{
    let t = pre + b;
    if j < b.len() {
        assert(t[pre.len() + j] == b[j]);
        lemma_ws_end_after(pre, b, j + 1);
    }
}

/// Spaces, tabs, carriage returns and line breaks between tokens are all skipped: a run
/// of them is passed over whole, up to the whitespace that follows it.
pub proof fn lemma_whitespace_run_skipped(a: Seq<char>, w: Seq<char>, b: Seq<char>)
    requires
        forall|i: int|
            0 <= i < w.len() ==> (#[trigger] w[i] == ' ' || w[i] == '\t' || w[i] == '\r' || w[i] == '\n'),
    ensures
        ws_end(a + w + b, a.len() as int) == a.len() + w.len() + ws_end(b, 0),
    decreases w.len(),
{
    if w.len() == 0 {
        assert(a + w + b =~= a + b);
        lemma_ws_end_after(a, b, 0);
    } else {
        let t = a + w + b;
        assert(t[a.len() as int] == w[0]);
        let a1 = a.push(w[0]);
        let w1 = w.skip(1);
        assert(t =~= a1 + w1 + b);
        assert forall|i: int| 0 <= i < w1.len() implies (#[trigger] w1[i] == ' ' || w1[i] == '\t' || w1[i]
            == '\r' || w1[i] == '\n') by {
            assert(w1[i] == w[i + 1]);
        }
        lemma_whitespace_run_skipped(a1, w1, b);
    }
}

/// Line endings do not matter between tokens: after a `\r\n` break, whitespace skipping
/// lands on the same following text as after a `\n` break (one character further on).
pub proof fn lemma_crlf_skipped_like_lf(a: Seq<char>, b: Seq<char>)
    ensures
        ws_end(a + seq!['\r', '\n'] + b, a.len() as int) == ws_end(a + seq!['\n'] + b, a.len() as int) + 1,
{
    lemma_whitespace_run_skipped(a, seq!['\r', '\n'], b);
    lemma_whitespace_run_skipped(a, seq!['\n'], b);
}

pub proof fn lemma_ident_end(s: Seq<char>, p: int)
    requires
        0 <= p <= s.len(),
    ensures
        p <= ident_end(s, p) <= s.len(),
        forall|i: int| p <= i < ident_end(s, p) ==> is_ident_char(#[trigger] s[i]),
    decreases s.len() - p,
{
    if p < s.len() && is_ident_char(s[p]) {
        lemma_ident_end(s, p + 1);
    }
}

pub proof fn lemma_digits_end(s: Seq<char>, p: int)
    requires
        0 <= p <= s.len(),
    ensures
        p <= digits_end(s, p) <= s.len(),
        forall|i: int| p <= i < digits_end(s, p) ==> is_digit(#[trigger] s[i]),
    decreases s.len() - p,
{
    if p < s.len() && is_digit(s[p]) {
        lemma_digits_end(s, p + 1);
    }
}

/// The text at `p` is `t`.
pub open spec fn tag_at(s: Seq<char>, p: int, t: Seq<char>) -> bool {
    0 <= p && p + t.len() <= s.len() && s.subrange(p, p + t.len()) == t
}

/// The text at `p` is `t` up to ASCII case (`t` in lowercase).
pub open spec fn tag_no_case_at(s: Seq<char>, p: int, t: Seq<char>) -> bool {
    0 <= p && p + t.len() <= s.len() && forall|i: int| 0 <= i < t.len() ==> lower_of(#[trigger] s[p + i]) == t[i]
}

/// The end of a number's mantissa starting at `q` (`digits[.digits]` or `.digits`), or
/// -1 when there is none.
pub open spec fn mantissa_end(s: Seq<char>, q: int) -> int {
    let a = digits_end(s, q);
    if a > q {
        if char_at(s, a, '.') {
            digits_end(s, a + 1)
        } else {
            a
        }
    } else if char_at(s, q, '.') && digits_end(s, q + 1) > q + 1 {
        digits_end(s, q + 1)
    } else {
        -1
    }
}

/// A number, as its text: an optional sign, a mantissa and an optional exponent, or
/// `nan` or `inf` in any case. An `e` without exponent digits is fatal.
pub open spec fn number(s: Seq<char>, p: int) -> Res<Seq<char>> {
    let q = if char_at(s, p, '+') || char_at(s, p, '-') { p + 1 } else { p };
    let m = mantissa_end(s, q);
    if m >= 0 {
        if char_at(s, m, 'e') || char_at(s, m, 'E') {
            let c = if char_at(s, m + 1, '+') || char_at(s, m + 1, '-') { m + 2 } else { m + 1 };
            if digits_end(s, c) > c {
                Res::Matched(digits_end(s, c), s.subrange(p, digits_end(s, c)))
            } else {
                Res::Fatal
            }
        } else {
            Res::Matched(m, s.subrange(p, m))
        }
    } else if tag_no_case_at(s, p, seq!['n', 'a', 'n']) || tag_no_case_at(s, p, seq!['i', 'n', 'f']) {
        Res::Matched(p + 3, s.subrange(p, p + 3))
    } else {
        Res::Miss
    }
}

/// The position of the quote closing a string whose contents start at `i`, or -1.
/// Inside, a backslash must be followed by a double quote; the two are kept as they are.
pub open spec fn content_end(s: Seq<char>, i: int, quote: char) -> int
    decreases s.len() - i,
{
    if i < 0 || i >= s.len() {
        -1
    } else if s[i] == quote {
        i
    } else if s[i] == '\\' {
        if i + 1 < s.len() && s[i + 1] == '"' {
            content_end(s, i + 2, quote)
        } else {
            -1
        }
    } else {
        content_end(s, i + 1, quote)
    }
}

pub proof fn lemma_content_end(s: Seq<char>, i: int, quote: char)
    requires
        0 <= i,
    ensures
        content_end(s, i, quote) == -1 || (i <= content_end(s, i, quote) < s.len()
            && s[content_end(s, i, quote)] == quote),
    decreases s.len() - i,
{
    if i < s.len() && s[i] != quote {
        if s[i] == '\\' {
            if i + 1 < s.len() && s[i + 1] == '"' {
                lemma_content_end(s, i + 2, quote);
            }
        } else {
            lemma_content_end(s, i + 1, quote);
        }
    }
}

/// A non-empty string in double or single quotes, as its raw contents.
pub open spec fn string(s: Seq<char>, p: int) -> Res<Seq<char>> {
    if char_at(s, p, '"') || char_at(s, p, '\'') {
        let e = content_end(s, p + 1, s[p]);
        if e > p + 1 {
            Res::Matched(e + 1, s.subrange(p + 1, e))
        } else {
            Res::Miss
        }
    } else {
        Res::Miss
    }
}

/// The end of the further `/identifier` segments of a path from `i`.
pub open spec fn path_end(s: Seq<char>, i: int) -> int
    decreases s.len() - i,
{
    if 0 <= i && char_at(s, i, '/') && ident_end(s, i + 1) > i + 1 {
        proof {
            lemma_ident_end(s, i + 1);
        }
        path_end(s, ident_end(s, i + 1))
    } else {
        i
    }
}

pub proof fn lemma_path_end(s: Seq<char>, i: int)
    requires
        0 <= i <= s.len(),
    ensures
        i <= path_end(s, i) <= s.len(),
    decreases s.len() - i,
{
    if char_at(s, i, '/') && ident_end(s, i + 1) > i + 1 {
        lemma_ident_end(s, i + 1);
        lemma_path_end(s, ident_end(s, i + 1));
    }
}

/// A type path: `/identifier` segments, at least one.
pub open spec fn path(s: Seq<char>, p: int) -> Res<Seq<char>> {
    if 0 <= p && char_at(s, p, '/') && ident_end(s, p + 1) > p + 1 {
        let e = path_end(s, ident_end(s, p + 1));
        Res::Matched(e, s.subrange(p, e))
    } else {
        Res::Miss
    }
}

/// A value: the first of a number, a string, an object, a list of values, a map and
/// `null` that matches. Maps keep one entry per key, the last one written.
pub open spec fn value(s: Seq<char>, p: int) -> Res<ValueModel>
    decreases s.len() - p, 6int,
{
    if p < 0 || p > s.len() {
        Res::Miss
    } else {
        match number(s, p) {
            Res::Matched(e, t) => Res::Matched(e, ValueModel::Number(t)),
            Res::Fatal => Res::Fatal,
            Res::Miss => match string(s, p) {
                Res::Matched(e, t) => Res::Matched(e, ValueModel::Literal(t)),
                _ => match object(s, p) {
                    Res::Matched(e, o) => Res::Matched(e, ValueModel::Object(o.0, o.1)),
                    Res::Fatal => Res::Fatal,
                    Res::Miss => match value_list(s, p) {
                        Res::Matched(e, items) => Res::Matched(e, ValueModel::List(items)),
                        Res::Fatal => Res::Fatal,
                        Res::Miss => match mapping(s, p) {
                            Res::Matched(e, entries) => Res::Matched(e, ValueModel::Mapping(dedup(entries))),
                            Res::Fatal => Res::Fatal,
                            Res::Miss => if tag_at(s, p, seq!['n', 'u', 'l', 'l']) {
                                Res::Matched(p + 4, ValueModel::Null)
                            } else {
                                Res::Miss
                            },
                        },
                    },
                },
            },
        }
    }
}

/// An object: a path, optionally followed by `{`, variables separated by `;`, and `}`.
/// Without the closing brace the object ends after its path.
pub open spec fn object(s: Seq<char>, p: int) -> Res<ObjectModel>
    decreases s.len() - p, 5int,
{
    match path(s, p) {
        Res::Matched(e, name) => if char_at(s, e, '{') && p < e {
            let q = ws_end(s, e + 1);
            proof {
                lemma_ws_end(s, e + 1);
            }
            match variables(s, q) {
                Res::Matched(i, vars) => if char_at(s, i, '}') {
                    Res::Matched(i + 1, (name, vars))
                } else {
                    Res::Matched(e, (name, Seq::empty()))
                },
                Res::Fatal => Res::Fatal,
                Res::Miss => Res::Matched(e, (name, Seq::empty())),
            }
        } else {
            Res::Matched(e, (name, Seq::empty()))
        },
        _ => Res::Miss,
    }
}

/// Variables separated by `;`, possibly none, each with whitespace around it; ends
/// after the whitespace following the last one.
pub open spec fn variables(s: Seq<char>, q: int) -> Res<Seq<(Seq<char>, ValueModel)>>
    decreases s.len() - q, 4int,
{
    if q < 0 || q > s.len() {
        Res::Miss
    } else {
        proof {
            lemma_ws_end(s, q);
        }
        match variable(s, ws_end(s, q)) {
            Res::Matched(e, v) => if q < e <= s.len() {
                proof {
                    lemma_ws_end(s, e);
                }
                more_variables(s, ws_end(s, e), seq![v])
            } else {
                Res::Miss
            },
            Res::Fatal => Res::Fatal,
            Res::Miss => Res::Matched(q, Seq::empty()),
        }
    }
}

/// Further `; variable` items after those in `acc`, from `i`.
pub open spec fn more_variables(s: Seq<char>, i: int, acc: Seq<(Seq<char>, ValueModel)>) -> Res<
    Seq<(Seq<char>, ValueModel)>,
>
    decreases s.len() - i, 4int,
{
    if char_at(s, i, ';') {
        proof {
            lemma_ws_end(s, i + 1);
        }
        match variable(s, ws_end(s, i + 1)) {
            Res::Matched(e, v) => if i < e <= s.len() {
                proof {
                    lemma_ws_end(s, e);
                }
                more_variables(s, ws_end(s, e), acc.push(v))
            } else {
                Res::Miss
            },
            Res::Fatal => Res::Fatal,
            Res::Miss => Res::Matched(i, acc),
        }
    } else {
        Res::Matched(i, acc)
    }
}

/// An assignment `identifier = value`, with whitespace allowed around `=`.
pub open spec fn variable(s: Seq<char>, p: int) -> Res<(Seq<char>, ValueModel)>
    decreases s.len() - p, 3int,
{
    if 0 <= p <= s.len() && ident_end(s, p) > p {
        proof {
            lemma_ident_end(s, p);
            lemma_ws_end(s, ident_end(s, p));
        }
        let w = ws_end(s, ident_end(s, p));
        if char_at(s, w, '=') {
            proof {
                lemma_ws_end(s, w + 1);
            }
            match value(s, ws_end(s, w + 1)) {
                Res::Matched(e, v) => Res::Matched(e, (s.subrange(p, ident_end(s, p)), v)),
                Res::Fatal => Res::Fatal,
                Res::Miss => Res::Miss,
            }
        } else {
            Res::Miss
        }
    } else {
        Res::Miss
    }
}

/// Where the opening parenthesis of a list at `p` is: after an optional `list`.
pub open spec fn list_open(s: Seq<char>, p: int) -> int {
    if tag_at(s, p, seq!['l', 'i', 's', 't']) {
        p + 4
    } else {
        p
    }
}

/// A list of values: an optional `list`, then `(`, values separated by `,`, at least
/// one, each with whitespace around it, and `)`.
pub open spec fn value_list(s: Seq<char>, p: int) -> Res<Seq<ValueModel>>
    decreases s.len() - p, 5int,
{
    let q = list_open(s, p);
    if 0 <= p && char_at(s, q, '(') {
        proof {
            lemma_ws_end(s, q + 1);
        }
        match value(s, ws_end(s, q + 1)) {
            Res::Matched(e, v) => if q < e <= s.len() {
                proof {
                    lemma_ws_end(s, e);
                }
                match more_values(s, ws_end(s, e), seq![v]) {
                    Res::Matched(i, items) => if char_at(s, i, ')') {
                        Res::Matched(i + 1, items)
                    } else {
                        Res::Miss
                    },
                    Res::Fatal => Res::Fatal,
                    Res::Miss => Res::Miss,
                }
            } else {
                Res::Miss
            },
            Res::Fatal => Res::Fatal,
            Res::Miss => Res::Miss,
        }
    } else {
        Res::Miss
    }
}

/// Further `, value` items after those in `acc`, from `i`.
pub open spec fn more_values(s: Seq<char>, i: int, acc: Seq<ValueModel>) -> Res<Seq<ValueModel>>
    decreases s.len() - i, 4int,
{
    if char_at(s, i, ',') {
        proof {
            lemma_ws_end(s, i + 1);
        }
        match value(s, ws_end(s, i + 1)) {
            Res::Matched(e, v) => if i < e <= s.len() {
                proof {
                    lemma_ws_end(s, e);
                }
                more_values(s, ws_end(s, e), acc.push(v))
            } else {
                Res::Miss
            },
            Res::Fatal => Res::Fatal,
            Res::Miss => Res::Matched(i, acc),
        }
    } else {
        Res::Matched(i, acc)
    }
}

/// A map entry `key = value`, the key a string or a path.
pub open spec fn entry(s: Seq<char>, p: int) -> Res<(Seq<char>, ValueModel)>
    decreases s.len() - p, 3int,
{
    let key = match string(s, p) {
        Res::Matched(e, k) => Res::Matched(e, k),
        _ => path(s, p),
    };
    match key {
        Res::Matched(e, k) => if 0 <= p < e <= s.len() {
            proof {
                lemma_ws_end(s, e);
            }
            let w = ws_end(s, e);
            if char_at(s, w, '=') {
                proof {
                    lemma_ws_end(s, w + 1);
                }
                match value(s, ws_end(s, w + 1)) {
                    Res::Matched(e2, v) => Res::Matched(e2, (k, v)),
                    Res::Fatal => Res::Fatal,
                    Res::Miss => Res::Miss,
                }
            } else {
                Res::Miss
            }
        } else {
            Res::Miss
        },
        _ => Res::Miss,
    }
}

/// A map: `list(`, entries separated by `,`, at least one, and `)`.
pub open spec fn mapping(s: Seq<char>, p: int) -> Res<Seq<(Seq<char>, ValueModel)>>
    decreases s.len() - p, 5int,
{
    if 0 <= p && tag_at(s, p, seq!['l', 'i', 's', 't']) && char_at(s, p + 4, '(') {
        proof {
            lemma_ws_end(s, p + 5);
        }
        match entry(s, ws_end(s, p + 5)) {
            Res::Matched(e, v) => if p < e <= s.len() {
                proof {
                    lemma_ws_end(s, e);
                }
                match more_entries(s, ws_end(s, e), seq![v]) {
                    Res::Matched(i, items) => if char_at(s, i, ')') {
                        Res::Matched(i + 1, items)
                    } else {
                        Res::Miss
                    },
                    Res::Fatal => Res::Fatal,
                    Res::Miss => Res::Miss,
                }
            } else {
                Res::Miss
            },
            Res::Fatal => Res::Fatal,
            Res::Miss => Res::Miss,
        }
    } else {
        Res::Miss
    }
}

/// Further `, entry` items after those in `acc`, from `i`.
pub open spec fn more_entries(s: Seq<char>, i: int, acc: Seq<(Seq<char>, ValueModel)>) -> Res<
    Seq<(Seq<char>, ValueModel)>,
>
    decreases s.len() - i, 4int,
{
    if char_at(s, i, ',') {
        proof {
            lemma_ws_end(s, i + 1);
        }
        match entry(s, ws_end(s, i + 1)) {
            Res::Matched(e, v) => if i < e <= s.len() {
                proof {
                    lemma_ws_end(s, e);
                }
                more_entries(s, ws_end(s, e), acc.push(v))
            } else {
                Res::Miss
            },
            Res::Fatal => Res::Fatal,
            Res::Miss => Res::Matched(i, acc),
        }
    } else {
        Res::Matched(i, acc)
    }
}

/// A list of objects: an optional `list`, then `(`, objects separated by `,`, at least
/// one, each with whitespace around it, and `)`.
pub open spec fn object_list(s: Seq<char>, p: int) -> Res<Seq<ObjectModel>> {
    let q = list_open(s, p);
    if 0 <= p && char_at(s, q, '(') {
        match object(s, ws_end(s, q + 1)) {
            Res::Matched(e, o) => if q < e <= s.len() {
                match more_objects(s, ws_end(s, e), seq![o]) {
                    Res::Matched(i, items) => if char_at(s, i, ')') {
                        Res::Matched(i + 1, items)
                    } else {
                        Res::Miss
                    },
                    Res::Fatal => Res::Fatal,
                    Res::Miss => Res::Miss,
                }
            } else {
                Res::Miss
            },
            Res::Fatal => Res::Fatal,
            Res::Miss => Res::Miss,
        }
    } else {
        Res::Miss
    }
}

/// Further `, object` items after those in `acc`, from `i`.
pub open spec fn more_objects(s: Seq<char>, i: int, acc: Seq<ObjectModel>) -> Res<Seq<ObjectModel>>
    decreases s.len() - i,
{
    if char_at(s, i, ',') {
        proof {
            lemma_ws_end(s, i + 1);
        }
        match object(s, ws_end(s, i + 1)) {
            Res::Matched(e, o) => if i < e <= s.len() {
                proof {
                    lemma_ws_end(s, e);
                }
                more_objects(s, ws_end(s, e), acc.push(o))
            } else {
                Res::Miss
            },
            Res::Fatal => Res::Fatal,
            Res::Miss => Res::Matched(i, acc),
        }
    } else {
        Res::Matched(i, acc)
    }
}

/// A tile definition `"key" = (objects)`.
pub open spec fn tile_definition(s: Seq<char>, p: int) -> Res<(Seq<char>, Seq<ObjectModel>)> {
    match string(s, p) {
        Res::Matched(e, name) => if 0 <= p < e <= s.len() {
            let w = ws_end(s, e);
            if char_at(s, w, '=') {
                match object_list(s, ws_end(s, w + 1)) {
                    Res::Matched(e2, objs) => Res::Matched(e2, (name, objs)),
                    Res::Fatal => Res::Fatal,
                    Res::Miss => Res::Miss,
                }
            } else {
                Res::Miss
            }
        } else {
            Res::Miss
        },
        _ => Res::Miss,
    }
}

/// Further tile definitions after those in `acc`, from `i`.
pub open spec fn more_tile_definitions(s: Seq<char>, i: int, acc: Seq<(Seq<char>, Seq<ObjectModel>)>) -> Res<
    Seq<(Seq<char>, Seq<ObjectModel>)>,
>
    decreases s.len() - i,
{
    if 0 <= i <= s.len() {
        proof {
            lemma_ws_end(s, i);
        }
        match tile_definition(s, ws_end(s, i)) {
            Res::Matched(e, d) => if i < e <= s.len() {
                proof {
                    lemma_ws_end(s, e);
                }
                more_tile_definitions(s, ws_end(s, e), acc.push(d))
            } else {
                Res::Miss
            },
            Res::Fatal => Res::Fatal,
            Res::Miss => Res::Matched(i, acc),
        }
    } else {
        Res::Miss
    }
}

/// One or more tile definitions, with whitespace around each.
pub open spec fn tile_definitions(s: Seq<char>, p: int) -> Res<Seq<(Seq<char>, Seq<ObjectModel>)>> {
    if 0 <= p <= s.len() {
        match tile_definition(s, ws_end(s, p)) {
            Res::Matched(e, d) => if p < e <= s.len() {
                more_tile_definitions(s, ws_end(s, e), seq![d])
            } else {
                Res::Miss
            },
            Res::Fatal => Res::Fatal,
            Res::Miss => Res::Miss,
        }
    } else {
        Res::Miss
    }
}

/// A list of numbers: an optional `list`, then `(`, numbers separated by `,`, at least
/// one, each with whitespace around it, and `)`.
pub open spec fn number_list(s: Seq<char>, p: int) -> Res<Seq<Seq<char>>> {
    let q = list_open(s, p);
    if 0 <= p && char_at(s, q, '(') {
        match number(s, ws_end(s, q + 1)) {
            Res::Matched(e, t) => if q < e <= s.len() {
                match more_numbers(s, ws_end(s, e), seq![t]) {
                    Res::Matched(i, items) => if char_at(s, i, ')') {
                        Res::Matched(i + 1, items)
                    } else {
                        Res::Miss
                    },
                    Res::Fatal => Res::Fatal,
                    Res::Miss => Res::Miss,
                }
            } else {
                Res::Miss
            },
            Res::Fatal => Res::Fatal,
            Res::Miss => Res::Miss,
        }
    } else {
        Res::Miss
    }
}

/// Further `, number` items after those in `acc`, from `i`.
pub open spec fn more_numbers(s: Seq<char>, i: int, acc: Seq<Seq<char>>) -> Res<Seq<Seq<char>>>
    decreases s.len() - i,
{
    if char_at(s, i, ',') {
        proof {
            lemma_ws_end(s, i + 1);
        }
        match number(s, ws_end(s, i + 1)) {
            Res::Matched(e, t) => if i < e <= s.len() {
                proof {
                    lemma_ws_end(s, e);
                }
                more_numbers(s, ws_end(s, e), acc.push(t))
            } else {
                Res::Miss
            },
            Res::Fatal => Res::Fatal,
            Res::Miss => Res::Matched(i, acc),
        }
    } else {
        Res::Matched(i, acc)
    }
}

/// A chunk `(x, y, z) = {"rows"}`, read as its coordinate texts and its rows.
pub open spec fn chunk_definition(s: Seq<char>, p: int) -> Res<(Seq<Seq<char>>, Seq<char>)> {
    match number_list(s, p) {
        Res::Matched(e, nums) => if 0 <= p < e <= s.len() {
            let w = ws_end(s, e);
            if char_at(s, w, '=') {
                let x = ws_end(s, w + 1);
                if char_at(s, x, '{') {
                    match string(s, x + 1) {
                        Res::Matched(e2, rows) => if char_at(s, e2, '}') {
                            Res::Matched(e2 + 1, (nums, rows))
                        } else {
                            Res::Miss
                        },
                        _ => Res::Miss,
                    }
                } else {
                    Res::Miss
                }
            } else {
                Res::Miss
            }
        } else {
            Res::Miss
        },
        Res::Fatal => Res::Fatal,
        Res::Miss => Res::Miss,
    }
}

/// Further chunks after those in `acc`, from `i`.
pub open spec fn more_chunks(s: Seq<char>, i: int, acc: Seq<(Seq<Seq<char>>, Seq<char>)>) -> Res<
    Seq<(Seq<Seq<char>>, Seq<char>)>,
>
    decreases s.len() - i,
{
    if 0 <= i <= s.len() {
        proof {
            lemma_ws_end(s, i);
        }
        match chunk_definition(s, ws_end(s, i)) {
            Res::Matched(e, c) => if i < e <= s.len() {
                proof {
                    lemma_ws_end(s, e);
                }
                more_chunks(s, ws_end(s, e), acc.push(c))
            } else {
                Res::Miss
            },
            Res::Fatal => Res::Fatal,
            Res::Miss => Res::Matched(i, acc),
        }
    } else {
        Res::Miss
    }
}

/// One or more chunks, with whitespace around each.
pub open spec fn chunk_definitions(s: Seq<char>, p: int) -> Res<Seq<(Seq<Seq<char>>, Seq<char>)>> {
    if 0 <= p <= s.len() {
        match chunk_definition(s, ws_end(s, p)) {
            Res::Matched(e, c) => if p < e <= s.len() {
                more_chunks(s, ws_end(s, e), seq![c])
            } else {
                Res::Miss
            },
            Res::Fatal => Res::Fatal,
            Res::Miss => Res::Miss,
        }
    } else {
        Res::Miss
    }
}

/// What a map text holds: its tile definitions, then its chunks. Text after the last
/// chunk is ignored.
#[verifier::opaque]
pub open spec fn map_file(s: Seq<char>) -> Res<(Seq<(Seq<char>, Seq<ObjectModel>)>, Seq<(Seq<Seq<char>>, Seq<char>)>)> {
    match tile_definitions(s, 0) {
        Res::Matched(e, defs) => if 0 <= e <= s.len() {
            match chunk_definitions(s, ws_end(s, e)) {
                Res::Matched(e2, chunks) => Res::Matched(e2, (defs, chunks)),
                Res::Fatal => Res::Fatal,
                Res::Miss => Res::Miss,
            }
        } else {
            Res::Miss
        },
        Res::Fatal => Res::Fatal,
        Res::Miss => Res::Miss,
    }
}

} // verus!
