//! Reading map files in the TGM format: each function reads what the rule of the same
//! name in [`super::grammar`] describes.
use vstd::prelude::*;
use crate::chars::{char_to_lower, string_of};
use crate::keyed::{dedup, find_key, lemma_find_key};
use crate::tgm::grammar::{
    self, char_at, map_file, content_end, digits_end, ident_end, is_digit, is_ident_char, is_ws, list_open,
    mantissa_end, path_end, tag_at, tag_no_case_at, ws_end, ObjectModel, Res,
};
use crate::tgm::model::{object_model, value_model, Object, Tile, Value, ValueModel, Variable};

verus! {

/// What reading a rule at a position gave.
pub enum Outcome<T> {
    /// The rule matched up to the given end position.
    Matched(usize, T),
    /// The rule did not match; another alternative may be tried.
    Miss,
    /// The text is malformed beyond recovery.
    Fatal,
}

/// `o` is what the grammar says `r` is, its values seen through `f`.
pub open spec fn agrees<T, V>(o: Outcome<T>, r: Res<V>, f: spec_fn(T) -> V) -> bool {
    match (o, r) {
        (Outcome::Matched(e, v), Res::Matched(e2, m)) => e == e2 && f(v) == m,
        (Outcome::Miss, Res::Miss) => true,
        (Outcome::Fatal, Res::Fatal) => true,
        _ => false,
    }
}

/// A match of `o` ends after `p` and inside the text.
pub open spec fn advances<T>(o: Outcome<T>, p: int, len: int) -> bool {
    o matches Outcome::Matched(e, _) ==> p < e <= len
}

/// The abstract content of a list of values.
pub open spec fn values_view(v: Seq<Value>) -> Seq<ValueModel> {
    Seq::new(v.len(), |i: int| if 0 <= i < v.len() { value_model(v[i]) } else { ValueModel::Null })
}

/// The abstract content of a list of variables.
pub open spec fn variables_view(v: Seq<Variable>) -> Seq<(Seq<char>, ValueModel)> {
    Seq::new(
        v.len(),
        |i: int| if 0 <= i < v.len() { (v[i].name@, value_model(v[i].value)) } else { (Seq::empty(), ValueModel::Null) },
    )
}

/// The abstract content of a list of map entries.
pub open spec fn entries_view(v: Seq<(String, Value)>) -> Seq<(Seq<char>, ValueModel)> {
    Seq::new(
        v.len(),
        |i: int| if 0 <= i < v.len() { (v[i].0@, value_model(v[i].1)) } else { (Seq::empty(), ValueModel::Null) },
    )
}

/// An object as read: its path and variables.
pub open spec fn object_content(o: Object) -> ObjectModel {
    (o.path@, variables_view(o.variables@))
}

/// The abstract content of a list of objects.
pub open spec fn objects_view(v: Seq<Object>) -> Seq<ObjectModel> {
    Seq::new(v.len(), |i: int| if 0 <= i < v.len() { object_content(v[i]) } else { (Seq::empty(), Seq::empty()) })
}

pub proof fn lemma_object_model(o: Object)
    ensures
        object_model(o) == ValueModel::Object(object_content(o).0, object_content(o).1),
{
    let m = object_model(o);
    assert(m->Object_0 == o.path@);
    assert(m->Object_1 =~= variables_view(o.variables@));
}

fn is_ws_char(c: char) -> (r: bool)
    ensures
        r == is_ws(c),
{
    c == ' ' || c == '\t' || c == '\r' || c == '\n'
}

fn is_ident_char_exec(c: char) -> (r: bool)
    ensures
        r == is_ident_char(c),
{
    ('a' <= c && c <= 'z') || ('A' <= c && c <= 'Z') || ('0' <= c && c <= '9') || c == '-' || c == '_'
}

fn is_digit_char(c: char) -> (r: bool)
    ensures
        r == is_digit(c),
{
    '0' <= c && c <= '9'
}

/// Whether the character at `p` is `c`.
pub fn at_char(s: &Vec<char>, p: usize, c: char) -> (r: bool)
    ensures
        r == char_at(s@, p as int, c),
{
    p < s.len() && s[p] == c
}

/// The end of the whitespace starting at `p`.
pub fn skip_ws(s: &Vec<char>, p: usize) -> (r: usize)
    requires
        p <= s.len(),
    ensures
        r == ws_end(s@, p as int),
        p <= r <= s.len(),
{
    let mut i = p;
    while i < s.len() && is_ws_char(s[i])
        invariant
            p <= i <= s.len(),
            ws_end(s@, i as int) == ws_end(s@, p as int),
        decreases s.len() - i,
    {
        i = i + 1;
    }
    i
}

fn skip_ident(s: &Vec<char>, p: usize) -> (r: usize)
    requires
        p <= s.len(),
    ensures
        r == ident_end(s@, p as int),
        p <= r <= s.len(),
{
    let mut i = p;
    while i < s.len() && is_ident_char_exec(s[i])
        invariant
            p <= i <= s.len(),
            ident_end(s@, i as int) == ident_end(s@, p as int),
        decreases s.len() - i,
    {
        i = i + 1;
    }
    i
}

fn skip_digits(s: &Vec<char>, p: usize) -> (r: usize)
    requires
        p <= s.len(),
    ensures
        r == digits_end(s@, p as int),
        p <= r <= s.len(),
{
    let mut i = p;
    while i < s.len() && is_digit_char(s[i])
        invariant
            p <= i <= s.len(),
            digits_end(s@, i as int) == digits_end(s@, p as int),
        decreases s.len() - i,
    {
        i = i + 1;
    }
    i
}

/// The text between positions `a` and `b`.
pub fn text_between(s: &Vec<char>, a: usize, b: usize) -> (r: String)
    requires
        a <= b <= s.len(),
    ensures
        r@ == s@.subrange(a as int, b as int),
{
    let mut v: Vec<char> = Vec::new();
    let mut i = a;
    while i < b
        invariant
            a <= i <= b <= s.len(),
            v@ == s@.subrange(a as int, i as int),
        decreases b - i,
    {
        v.push(s[i]);
        i = i + 1;
    }
    string_of(v.as_slice())
}

/// Whether the text at `p` is `w`.
fn has_word(s: &Vec<char>, p: usize, w: &[char]) -> (r: bool)
    ensures
        r == tag_at(s@, p as int, w@),
{
    if p > s.len() || w.len() > s.len() - p {
        return false;
    }
    let mut k: usize = 0;
    while k < w.len()
        invariant
            p + w@.len() <= s.len(),
            k <= w@.len(),
            forall|j: int| 0 <= j < k ==> s@[p + j] == w@[j],
        decreases w.len() - k,
    {
        if s[p + k] != w[k] {
            assert(s@.subrange(p as int, p + w@.len())[k as int] != w@[k as int]);
            return false;
        }
        k = k + 1;
    }
    assert(s@.subrange(p as int, p + w@.len()) =~= w@);
    true
}

/// Whether the text at `p` is `w` up to ASCII case (`w` in lowercase).
fn has_word_no_case(s: &Vec<char>, p: usize, w: &[char]) -> (r: bool)
    ensures
        r == tag_no_case_at(s@, p as int, w@),
{
    if p > s.len() || w.len() > s.len() - p {
        return false;
    }
    let mut k: usize = 0;
    while k < w.len()
        invariant
            p + w@.len() <= s.len(),
            k <= w@.len(),
            forall|j: int| 0 <= j < k ==> crate::chars::lower_of(#[trigger] s@[p + j]) == w@[j],
        decreases w.len() - k,
    {
        if char_to_lower(s[p + k]) != w[k] {
            return false;
        }
        k = k + 1;
    }
    true
}

fn has_list(s: &Vec<char>, p: usize) -> (r: bool)
    ensures
        r == tag_at(s@, p as int, seq!['l', 'i', 's', 't']),
{
    let w = ['l', 'i', 's', 't'];
    assert(w@ =~= seq!['l', 'i', 's', 't']);
    has_word(s, p, &w)
}

fn skip_list_word(s: &Vec<char>, p: usize) -> (r: usize)
    requires
        p <= s.len(),
    ensures
        r == list_open(s@, p as int),
        p <= r <= s.len(),
{
    if has_list(s, p) {
        p + 4
    } else {
        p
    }
}

fn mantissa(s: &Vec<char>, q: usize) -> (r: Option<usize>)
    requires
        q <= s.len(),
    ensures
        match r {
            Some(m) => m == mantissa_end(s@, q as int) && q < m <= s.len(),
            None => mantissa_end(s@, q as int) == -1,
        },
{
    let a = skip_digits(s, q);
    if a > q {
        if at_char(s, a, '.') {
            Some(skip_digits(s, a + 1))
        } else {
            Some(a)
        }
    } else if at_char(s, q, '.') {
        let b = skip_digits(s, q + 1);
        if b > q + 1 {
            Some(b)
        } else {
            None
        }
    } else {
        None
    }
}

/// A number, as its text.
pub fn number(s: &Vec<char>, p: usize) -> (r: Outcome<String>)
    requires
        p <= s.len(),
    ensures
        agrees(r, grammar::number(s@, p as int), |t: String| t@),
        advances(r, p as int, s@.len() as int),
{
    let q = if at_char(s, p, '+') || at_char(s, p, '-') { p + 1 } else { p };
    match mantissa(s, q) {
        Some(m) => {
            if at_char(s, m, 'e') || at_char(s, m, 'E') {
                let c = if at_char(s, m + 1, '+') || at_char(s, m + 1, '-') { m + 2 } else { m + 1 };
                let d = skip_digits(s, c);
                if d > c {
                    Outcome::Matched(d, text_between(s, p, d))
                } else {
                    Outcome::Fatal
                }
            } else {
                Outcome::Matched(m, text_between(s, p, m))
            }
        },
        None => {
            let nan = ['n', 'a', 'n'];
            let inf = ['i', 'n', 'f'];
            assert(nan@ =~= seq!['n', 'a', 'n']);
            assert(inf@ =~= seq!['i', 'n', 'f']);
            if has_word_no_case(s, p, &nan) || has_word_no_case(s, p, &inf) {
                Outcome::Matched(p + 3, text_between(s, p, p + 3))
            } else {
                Outcome::Miss
            }
        },
    }
}

fn find_content_end(s: &Vec<char>, start: usize, quote: char) -> (r: Option<usize>)
    requires
        start <= s.len(),
    ensures
        match r {
            Some(e) => e == content_end(s@, start as int, quote) && start <= e < s.len(),
            None => content_end(s@, start as int, quote) == -1,
        },
{
    let mut i = start;
    while i < s.len()
        invariant
            start <= i <= s.len(),
            content_end(s@, i as int, quote) == content_end(s@, start as int, quote),
        decreases s.len() - i,
    {
        let c = s[i];
        if c == quote {
            return Some(i);
        } else if c == '\\' {
            if i + 1 < s.len() && s[i + 1] == '"' {
                i = i + 2;
            } else {
                return None;
            }
        } else {
            i = i + 1;
        }
    }
    None
}

/// A quoted string, as its raw contents.
pub fn string(s: &Vec<char>, p: usize) -> (r: Outcome<String>)
    requires
        p <= s.len(),
    ensures
        agrees(r, grammar::string(s@, p as int), |t: String| t@),
        advances(r, p as int, s@.len() as int),
        !(r is Fatal),
{
    if at_char(s, p, '"') || at_char(s, p, '\'') {
        let quote = s[p];
        match find_content_end(s, p + 1, quote) {
            Some(e) => {
                if e > p + 1 {
                    Outcome::Matched(e + 1, text_between(s, p + 1, e))
                } else {
                    Outcome::Miss
                }
            },
            None => Outcome::Miss,
        }
    } else {
        Outcome::Miss
    }
}

/// A type path.
pub fn path(s: &Vec<char>, p: usize) -> (r: Outcome<String>)
    requires
        p <= s.len(),
    ensures
        agrees(r, grammar::path(s@, p as int), |t: String| t@),
        advances(r, p as int, s@.len() as int),
        !(r is Fatal),
{
    if at_char(s, p, '/') {
        let a = skip_ident(s, p + 1);
        if a > p + 1 {
            let mut i = a;
            while at_char(s, i, '/') && skip_ident(s, i + 1) > i + 1
                invariant
                    a <= i <= s.len(),
                    path_end(s@, i as int) == path_end(s@, a as int),
                decreases s.len() - i,
            {
                i = skip_ident(s, i + 1);
            }
            return Outcome::Matched(i, text_between(s, p, i));
        }
    }
    Outcome::Miss
}

pub proof fn lemma_list_model(items: Vec<Value>)
    ensures
        value_model(Value::List(items)) == ValueModel::List(values_view(items@)),
{
    let m = value_model(Value::List(items));
    assert(m->List_0 =~= values_view(items@));
}

pub proof fn lemma_mapping_model(entries: Vec<(String, Value)>)
    ensures
        value_model(Value::Mapping(entries)) == ValueModel::Mapping(entries_view(entries@)),
{
    let m = value_model(Value::Mapping(entries));
    assert(m->Mapping_0 =~= entries_view(entries@));
}

/// Keeps one entry per key: the order in which keys first appear, each with the value
/// that came last.
pub fn dedup_entries(entries: Vec<(String, Value)>) -> (r: Vec<(String, Value)>)
    ensures
        entries_view(r@) == dedup(entries_view(entries@)),
{
    let ghost orig = entries_view(entries@);
    let mut rest = entries;
    let mut kept: Vec<(String, Value)> = Vec::new();
    let ghost mut n: int = 0;
    while rest.len() > 0
        invariant
            0 <= n <= orig.len(),
            entries_view(rest@) == orig.skip(n),
            entries_view(kept@) == dedup(orig.take(n)),
        decreases rest.len(),
    {
        let item = rest.remove(0);
        let ghost m = (item.0@, value_model(item.1));
        proof {
            assert(orig.skip(n)[0] == m);
            assert(orig.skip(n + 1) =~= orig.skip(n).drop_first());
            assert(entries_view(rest@) =~= orig.skip(n + 1));
            assert(orig.take(n + 1).drop_last() =~= orig.take(n));
            assert(orig.take(n + 1).last() == m);
        }
        let mut found: usize = 0;
        while found < kept.len() && !(kept[found].0 == item.0)
            invariant
                found <= kept.len(),
                forall|j: int| 0 <= j < found ==> kept@[j].0@ != item.0@,
            decreases kept.len() - found,
        {
            found += 1;
        }
        let ghost acc = entries_view(kept@);
        proof {
            lemma_find_key(acc, m.0);
        }
        assert(forall|j: int| 0 <= j < acc.len() ==> #[trigger] acc[j] == (kept@[j].0@, value_model(kept@[j].1)));
        assert(forall|j: int| 0 <= j < found ==> acc[j].0 != m.0);
        if found < kept.len() {
            assert(acc[found as int].0 == m.0);
            assert(find_key(acc, m.0) == found);
            kept.set(found, item);
            assert(entries_view(kept@) =~= acc.update(found as int, m));
        } else {
            assert(find_key(acc, m.0) < 0);
            kept.push(item);
            assert(entries_view(kept@) =~= acc.push(m));
        }
        proof {
            n = n + 1;
        }
    }
    assert(orig.take(n) =~= orig);
    kept
}

/// A value.
pub fn value(s: &Vec<char>, p: usize) -> (r: Outcome<Value>)
    requires
        p <= s.len(),
    ensures
        agrees(r, grammar::value(s@, p as int), |v: Value| value_model(v)),
        advances(r, p as int, s@.len() as int),
    decreases s.len() - p, 6int,
{
    match number(s, p) {
        Outcome::Matched(e, t) => {
            return Outcome::Matched(e, Value::Number(t));
        },
        Outcome::Fatal => {
            return Outcome::Fatal;
        },
        Outcome::Miss => {},
    }
    match string(s, p) {
        Outcome::Matched(e, t) => {
            return Outcome::Matched(e, Value::Literal(t));
        },
        _ => {},
    }
    match object(s, p) {
        Outcome::Matched(e, o) => {
            proof {
                lemma_object_model(o);
            }
            return Outcome::Matched(e, Value::Object(o));
        },
        Outcome::Fatal => {
            return Outcome::Fatal;
        },
        Outcome::Miss => {},
    }
    match value_list(s, p) {
        Outcome::Matched(e, items) => {
            proof {
                lemma_list_model(items);
            }
            return Outcome::Matched(e, Value::List(items));
        },
        Outcome::Fatal => {
            return Outcome::Fatal;
        },
        Outcome::Miss => {},
    }
    match mapping(s, p) {
        Outcome::Matched(e, entries) => {
            let kept = dedup_entries(entries);
            proof {
                lemma_mapping_model(kept);
            }
            return Outcome::Matched(e, Value::Mapping(kept));
        },
        Outcome::Fatal => {
            return Outcome::Fatal;
        },
        Outcome::Miss => {},
    }
    let null = ['n', 'u', 'l', 'l'];
    assert(null@ =~= seq!['n', 'u', 'l', 'l']);
    if has_word(s, p, &null) {
        Outcome::Matched(p + 4, Value::Null)
    } else {
        Outcome::Miss
    }
}

/// An object with its variables.
pub fn object(s: &Vec<char>, p: usize) -> (r: Outcome<Object>)
    requires
        p <= s.len(),
    ensures
        agrees(r, grammar::object(s@, p as int), |o: Object| object_content(o)),
        advances(r, p as int, s@.len() as int),
    decreases s.len() - p, 5int,
{
    match path(s, p) {
        Outcome::Matched(e, name) => {
            if at_char(s, e, '{') {
                let q = skip_ws(s, e + 1);
                match variables(s, q) {
                    Outcome::Matched(i, vars) => {
                        if at_char(s, i, '}') {
                            Outcome::Matched(i + 1, Object::new(name, vars))
                        } else {
                            let r = Object::new(name, Vec::new());
                            assert(variables_view(r.variables@) =~= Seq::empty());
                            Outcome::Matched(e, r)
                        }
                    },
                    Outcome::Fatal => Outcome::Fatal,
                    Outcome::Miss => {
                        let r = Object::new(name, Vec::new());
                        assert(variables_view(r.variables@) =~= Seq::empty());
                        Outcome::Matched(e, r)
                    },
                }
            } else {
                let r = Object::new(name, Vec::new());
                assert(variables_view(r.variables@) =~= Seq::empty());
                Outcome::Matched(e, r)
            }
        },
        _ => Outcome::Miss,
    }
}

/// Variables separated by `;`, possibly none.
pub fn variables(s: &Vec<char>, q: usize) -> (r: Outcome<Vec<Variable>>)
    requires
        q <= s.len(),
    ensures
        agrees(r, grammar::variables(s@, q as int), |v: Vec<Variable>| variables_view(v@)),
        r matches Outcome::Matched(e, _) ==> q <= e <= s@.len(),
    decreases s.len() - q, 4int,
{
    let w = skip_ws(s, q);
    match variable(s, w) {
        Outcome::Matched(e, v) => {
            let mut acc: Vec<Variable> = Vec::new();
            acc.push(v);
            let mut i = skip_ws(s, e);
            proof {
                grammar::lemma_ws_end(s@, q as int);
                assert(variables_view(acc@) =~= seq![(v.name@, value_model(v.value))]);
            }
            loop
                invariant
                    q < i <= s.len(),
                    grammar::more_variables(s@, i as int, variables_view(acc@)) == grammar::variables(s@, q as int),
                decreases s.len() - i,
            {
                if at_char(s, i, ';') {
                    let j = skip_ws(s, i + 1);
                    match variable(s, j) {
                        Outcome::Matched(e2, v2) => {
                            let ghost before = variables_view(acc@);
                            acc.push(v2);
                            assert(variables_view(acc@) =~= before.push((v2.name@, value_model(v2.value))));
                            i = skip_ws(s, e2);
                        },
                        Outcome::Fatal => {
                            return Outcome::Fatal;
                        },
                        Outcome::Miss => {
                            return Outcome::Matched(i, acc);
                        },
                    }
                } else {
                    return Outcome::Matched(i, acc);
                }
            }
        },
        Outcome::Fatal => Outcome::Fatal,
        Outcome::Miss => {
            let r: Vec<Variable> = Vec::new();
            assert(variables_view(r@) =~= Seq::empty());
            Outcome::Matched(q, r)
        },
    }
}

/// An assignment `identifier = value`.
pub fn variable(s: &Vec<char>, p: usize) -> (r: Outcome<Variable>)
    requires
        p <= s.len(),
    ensures
        agrees(r, grammar::variable(s@, p as int), |v: Variable| (v.name@, value_model(v.value))),
        advances(r, p as int, s@.len() as int),
    decreases s.len() - p, 3int,
{
    let a = skip_ident(s, p);
    if a > p {
        let w = skip_ws(s, a);
        if at_char(s, w, '=') {
            let x = skip_ws(s, w + 1);
            match value(s, x) {
                Outcome::Matched(e, v) => Outcome::Matched(e, Variable::new(text_between(s, p, a), v)),
                Outcome::Fatal => Outcome::Fatal,
                Outcome::Miss => Outcome::Miss,
            }
        } else {
            Outcome::Miss
        }
    } else {
        Outcome::Miss
    }
}

/// A list of values.
#[verifier::loop_isolation(false)]
pub fn value_list(s: &Vec<char>, p: usize) -> (r: Outcome<Vec<Value>>)
    requires
        p <= s.len(),
    ensures
        agrees(r, grammar::value_list(s@, p as int), |v: Vec<Value>| values_view(v@)),
        advances(r, p as int, s@.len() as int),
    decreases s.len() - p, 5int,
{
    let q = skip_list_word(s, p);
    if !at_char(s, q, '(') {
        return Outcome::Miss;
    }
    let first = skip_ws(s, q + 1);
    match value(s, first) {
        Outcome::Matched(e, v) => {
            let mut acc: Vec<Value> = Vec::new();
            acc.push(v);
            let mut i = skip_ws(s, e);
            assert(values_view(acc@) =~= seq![value_model(v)]);
            loop
                invariant
                    p < i <= s.len(),
                    q < i,
                    char_at(s@, q as int, '('),
                    q == list_open(s@, p as int),
                    grammar::more_values(s@, i as int, values_view(acc@)) == grammar::more_values(
                        s@,
                        ws_end(s@, e as int),
                        seq![value_model(v)],
                    ),
                decreases s.len() - i,
            {
                if at_char(s, i, ',') {
                    let j = skip_ws(s, i + 1);
                    match value(s, j) {
                        Outcome::Matched(e2, v2) => {
                            let ghost before = values_view(acc@);
                            acc.push(v2);
                            assert(values_view(acc@) =~= before.push(value_model(v2)));
                            i = skip_ws(s, e2);
                        },
                        Outcome::Fatal => {
                            return Outcome::Fatal;
                        },
                        Outcome::Miss => {
                            break;
                        },
                    }
                } else {
                    break;
                }
            }
            if at_char(s, i, ')') {
                Outcome::Matched(i + 1, acc)
            } else {
                Outcome::Miss
            }
        },
        Outcome::Fatal => Outcome::Fatal,
        Outcome::Miss => Outcome::Miss,
    }
}

/// A map entry `key = value`.
pub fn entry(s: &Vec<char>, p: usize) -> (r: Outcome<(String, Value)>)
    requires
        p <= s.len(),
    ensures
        agrees(r, grammar::entry(s@, p as int), |v: (String, Value)| (v.0@, value_model(v.1))),
        advances(r, p as int, s@.len() as int),
    decreases s.len() - p, 3int,
{
    let key = match string(s, p) {
        Outcome::Matched(e, k) => Outcome::Matched(e, k),
        _ => path(s, p),
    };
    match key {
        Outcome::Matched(e, k) => {
            let w = skip_ws(s, e);
            if at_char(s, w, '=') {
                let x = skip_ws(s, w + 1);
                match value(s, x) {
                    Outcome::Matched(e2, v) => Outcome::Matched(e2, (k, v)),
                    Outcome::Fatal => Outcome::Fatal,
                    Outcome::Miss => Outcome::Miss,
                }
            } else {
                Outcome::Miss
            }
        },
        _ => Outcome::Miss,
    }
}

/// A map, as its entries in the order written.
#[verifier::loop_isolation(false)]
pub fn mapping(s: &Vec<char>, p: usize) -> (r: Outcome<Vec<(String, Value)>>)
    requires
        p <= s.len(),
    ensures
        agrees(r, grammar::mapping(s@, p as int), |v: Vec<(String, Value)>| entries_view(v@)),
        advances(r, p as int, s@.len() as int),
    decreases s.len() - p, 5int,
{
    if !(has_list(s, p) && at_char(s, p + 4, '(')) {
        return Outcome::Miss;
    }
    let first = skip_ws(s, p + 5);
    match entry(s, first) {
        Outcome::Matched(e, v) => {
            let ghost m0 = (v.0@, value_model(v.1));
            let mut acc: Vec<(String, Value)> = Vec::new();
            acc.push(v);
            let mut i = skip_ws(s, e);
            assert(entries_view(acc@) =~= seq![m0]);
            loop
                invariant
                    p < i <= s.len(),
                    p + 4 < i,
                    tag_at(s@, p as int, seq!['l', 'i', 's', 't']),
                    char_at(s@, p + 4, '('),
                    grammar::more_entries(s@, i as int, entries_view(acc@)) == grammar::more_entries(
                        s@,
                        ws_end(s@, e as int),
                        seq![m0],
                    ),
                decreases s.len() - i,
            {
                if at_char(s, i, ',') {
                    let j = skip_ws(s, i + 1);
                    match entry(s, j) {
                        Outcome::Matched(e2, v2) => {
                            let ghost before = entries_view(acc@);
                            let ghost m2 = (v2.0@, value_model(v2.1));
                            acc.push(v2);
                            assert(entries_view(acc@) =~= before.push(m2));
                            i = skip_ws(s, e2);
                        },
                        Outcome::Fatal => {
                            return Outcome::Fatal;
                        },
                        Outcome::Miss => {
                            break;
                        },
                    }
                } else {
                    break;
                }
            }
            if at_char(s, i, ')') {
                Outcome::Matched(i + 1, acc)
            } else {
                Outcome::Miss
            }
        },
        Outcome::Fatal => Outcome::Fatal,
        Outcome::Miss => Outcome::Miss,
    }
}

/// The abstract content of a list of texts.
pub open spec fn texts_view(v: Seq<String>) -> Seq<Seq<char>> {
    Seq::new(v.len(), |i: int| if 0 <= i < v.len() { v[i]@ } else { Seq::empty() })
}

/// The abstract content of a list of tile definitions.
pub open spec fn definitions_view(v: Seq<(String, Tile)>) -> Seq<(Seq<char>, Seq<ObjectModel>)> {
    Seq::new(
        v.len(),
        |i: int| if 0 <= i < v.len() { (v[i].0@, objects_view(v[i].1.components@)) } else { (Seq::empty(), Seq::empty()) },
    )
}

/// The abstract content of a list of chunks.
pub open spec fn chunks_view(v: Seq<(Vec<String>, String)>) -> Seq<(Seq<Seq<char>>, Seq<char>)> {
    Seq::new(
        v.len(),
        |i: int| if 0 <= i < v.len() { (texts_view(v[i].0@), v[i].1@) } else { (Seq::empty(), Seq::empty()) },
    )
}

/// A list of objects.
#[verifier::loop_isolation(false)]
pub fn object_list(s: &Vec<char>, p: usize) -> (r: Outcome<Vec<Object>>)
    requires
        p <= s.len(),
    ensures
        agrees(r, grammar::object_list(s@, p as int), |v: Vec<Object>| objects_view(v@)),
        advances(r, p as int, s@.len() as int),
{
    let q = skip_list_word(s, p);
    if !at_char(s, q, '(') {
        return Outcome::Miss;
    }
    let first = skip_ws(s, q + 1);
    match object(s, first) {
        Outcome::Matched(e, o) => {
            let ghost m0 = object_content(o);
            let mut acc: Vec<Object> = Vec::new();
            acc.push(o);
            let mut i = skip_ws(s, e);
            assert(objects_view(acc@) =~= seq![m0]);
            loop
                invariant
                    p < i <= s.len(),
                    q < i,
                    grammar::more_objects(s@, i as int, objects_view(acc@)) == grammar::more_objects(
                        s@,
                        ws_end(s@, e as int),
                        seq![m0],
                    ),
                decreases s.len() - i,
            {
                if at_char(s, i, ',') {
                    let j = skip_ws(s, i + 1);
                    match object(s, j) {
                        Outcome::Matched(e2, o2) => {
                            let ghost before = objects_view(acc@);
                            let ghost m2 = object_content(o2);
                            acc.push(o2);
                            assert(objects_view(acc@) =~= before.push(m2));
                            i = skip_ws(s, e2);
                        },
                        Outcome::Fatal => {
                            return Outcome::Fatal;
                        },
                        Outcome::Miss => {
                            break;
                        },
                    }
                } else {
                    break;
                }
            }
            if at_char(s, i, ')') {
                Outcome::Matched(i + 1, acc)
            } else {
                Outcome::Miss
            }
        },
        Outcome::Fatal => Outcome::Fatal,
        Outcome::Miss => Outcome::Miss,
    }
}

/// A tile definition `"key" = (objects)`.
pub fn tile_definition(s: &Vec<char>, p: usize) -> (r: Outcome<(String, Tile)>)
    requires
        p <= s.len(),
    ensures
        agrees(r, grammar::tile_definition(s@, p as int), |d: (String, Tile)| (d.0@, objects_view(d.1.components@))),
        advances(r, p as int, s@.len() as int),
{
    match string(s, p) {
        Outcome::Matched(e, name) => {
            let w = skip_ws(s, e);
            if at_char(s, w, '=') {
                let x = skip_ws(s, w + 1);
                match object_list(s, x) {
                    Outcome::Matched(e2, objects) => Outcome::Matched(e2, (name, Tile::from(objects))),
                    Outcome::Fatal => Outcome::Fatal,
                    Outcome::Miss => Outcome::Miss,
                }
            } else {
                Outcome::Miss
            }
        },
        _ => Outcome::Miss,
    }
}

/// One or more tile definitions.
#[verifier::loop_isolation(false)]
pub fn tile_definitions(s: &Vec<char>, p: usize) -> (r: Outcome<Vec<(String, Tile)>>)
    requires
        p <= s.len(),
    ensures
        agrees(r, grammar::tile_definitions(s@, p as int), |v: Vec<(String, Tile)>| definitions_view(v@)),
        r matches Outcome::Matched(e, _) ==> p < e <= s@.len(),
{
    let w = skip_ws(s, p);
    match tile_definition(s, w) {
        Outcome::Matched(e, d) => {
            let ghost m0 = (d.0@, objects_view(d.1.components@));
            let mut acc: Vec<(String, Tile)> = Vec::new();
            acc.push(d);
            let mut i = skip_ws(s, e);
            assert(definitions_view(acc@) =~= seq![m0]);
            loop
                invariant
                    p < i <= s.len(),
                    grammar::more_tile_definitions(s@, i as int, definitions_view(acc@))
                        == grammar::more_tile_definitions(s@, ws_end(s@, e as int), seq![m0]),
                decreases s.len() - i,
            {
                let j = skip_ws(s, i);
                match tile_definition(s, j) {
                    Outcome::Matched(e2, d2) => {
                        let ghost before = definitions_view(acc@);
                        let ghost m2 = (d2.0@, objects_view(d2.1.components@));
                        acc.push(d2);
                        assert(definitions_view(acc@) =~= before.push(m2));
                        i = skip_ws(s, e2);
                    },
                    Outcome::Fatal => {
                        return Outcome::Fatal;
                    },
                    Outcome::Miss => {
                        return Outcome::Matched(i, acc);
                    },
                }
            }
        },
        Outcome::Fatal => Outcome::Fatal,
        Outcome::Miss => Outcome::Miss,
    }
}

/// A list of numbers, as their texts.
#[verifier::loop_isolation(false)]
pub fn number_list(s: &Vec<char>, p: usize) -> (r: Outcome<Vec<String>>)
    requires
        p <= s.len(),
    ensures
        agrees(r, grammar::number_list(s@, p as int), |v: Vec<String>| texts_view(v@)),
        advances(r, p as int, s@.len() as int),
{
    let q = skip_list_word(s, p);
    if !at_char(s, q, '(') {
        return Outcome::Miss;
    }
    let first = skip_ws(s, q + 1);
    match number(s, first) {
        Outcome::Matched(e, t) => {
            let ghost m0 = t@;
            let mut acc: Vec<String> = Vec::new();
            acc.push(t);
            let mut i = skip_ws(s, e);
            assert(texts_view(acc@) =~= seq![m0]);
            loop
                invariant
                    p < i <= s.len(),
                    q < i,
                    grammar::more_numbers(s@, i as int, texts_view(acc@)) == grammar::more_numbers(
                        s@,
                        ws_end(s@, e as int),
                        seq![m0],
                    ),
                decreases s.len() - i,
            {
                if at_char(s, i, ',') {
                    let j = skip_ws(s, i + 1);
                    match number(s, j) {
                        Outcome::Matched(e2, t2) => {
                            let ghost before = texts_view(acc@);
                            let ghost m2 = t2@;
                            acc.push(t2);
                            assert(texts_view(acc@) =~= before.push(m2));
                            i = skip_ws(s, e2);
                        },
                        Outcome::Fatal => {
                            return Outcome::Fatal;
                        },
                        Outcome::Miss => {
                            break;
                        },
                    }
                } else {
                    break;
                }
            }
            if at_char(s, i, ')') {
                Outcome::Matched(i + 1, acc)
            } else {
                Outcome::Miss
            }
        },
        Outcome::Fatal => Outcome::Fatal,
        Outcome::Miss => Outcome::Miss,
    }
}

/// A chunk `(x, y, z) = {"rows"}`.
pub fn chunk_definition(s: &Vec<char>, p: usize) -> (r: Outcome<(Vec<String>, String)>)
    requires
        p <= s.len(),
    ensures
        agrees(r, grammar::chunk_definition(s@, p as int), |c: (Vec<String>, String)| (texts_view(c.0@), c.1@)),
        advances(r, p as int, s@.len() as int),
{
    match number_list(s, p) {
        Outcome::Matched(e, nums) => {
            let w = skip_ws(s, e);
            if at_char(s, w, '=') {
                let x = skip_ws(s, w + 1);
                if at_char(s, x, '{') {
                    match string(s, x + 1) {
                        Outcome::Matched(e2, rows) => {
                            if at_char(s, e2, '}') {
                                Outcome::Matched(e2 + 1, (nums, rows))
                            } else {
                                Outcome::Miss
                            }
                        },
                        _ => Outcome::Miss,
                    }
                } else {
                    Outcome::Miss
                }
            } else {
                Outcome::Miss
            }
        },
        Outcome::Fatal => Outcome::Fatal,
        Outcome::Miss => Outcome::Miss,
    }
}

/// One or more chunks.
#[verifier::loop_isolation(false)]
pub fn chunk_definitions(s: &Vec<char>, p: usize) -> (r: Outcome<Vec<(Vec<String>, String)>>)
    requires
        p <= s.len(),
    ensures
        agrees(r, grammar::chunk_definitions(s@, p as int), |v: Vec<(Vec<String>, String)>| chunks_view(v@)),
        r matches Outcome::Matched(e, _) ==> p < e <= s@.len(),
{
    let w = skip_ws(s, p);
    match chunk_definition(s, w) {
        Outcome::Matched(e, c) => {
            let ghost m0 = (texts_view(c.0@), c.1@);
            let mut acc: Vec<(Vec<String>, String)> = Vec::new();
            acc.push(c);
            let mut i = skip_ws(s, e);
            assert(chunks_view(acc@) =~= seq![m0]);
            loop
                invariant
                    p < i <= s.len(),
                    grammar::more_chunks(s@, i as int, chunks_view(acc@)) == grammar::more_chunks(
                        s@,
                        ws_end(s@, e as int),
                        seq![m0],
                    ),
                decreases s.len() - i,
            {
                let j = skip_ws(s, i);
                match chunk_definition(s, j) {
                    Outcome::Matched(e2, c2) => {
                        let ghost before = chunks_view(acc@);
                        let ghost m2 = (texts_view(c2.0@), c2.1@);
                        acc.push(c2);
                        assert(chunks_view(acc@) =~= before.push(m2));
                        i = skip_ws(s, e2);
                    },
                    Outcome::Fatal => {
                        return Outcome::Fatal;
                    },
                    Outcome::Miss => {
                        return Outcome::Matched(i, acc);
                    },
                }
            }
        },
        Outcome::Fatal => Outcome::Fatal,
        Outcome::Miss => Outcome::Miss,
    }
}

/// Why a map text could not be read.
#[derive(Clone, Copy, PartialEq, Eq, Structural, Debug)]
pub enum MapSyntaxError {
    /// The text does not have the shape of a map.
    Unmatched,
    /// A number has an exponent without digits.
    Malformed,
}

/// The contents of a map text: its tile definitions and its chunks, each chunk with
/// the texts of its coordinates and its rows.
pub struct ParsedMap {
    pub definitions: Vec<(String, Tile)>,
    pub chunks: Vec<(Vec<String>, String)>,
}

/// Reads a map text: tile definitions, then chunks; what follows the last chunk is ignored.
pub fn parse(s: &Vec<char>) -> (r: Result<ParsedMap, MapSyntaxError>)
    ensures
        match r {
            Ok(m) => map_file(s@) matches Res::Matched(_, c) && definitions_view(m.definitions@) == c.0
                && chunks_view(m.chunks@) == c.1,
            Err(MapSyntaxError::Unmatched) => map_file(s@) is Miss,
            Err(MapSyntaxError::Malformed) => map_file(s@) is Fatal,
        },
{
    reveal(map_file);
    match tile_definitions(s, 0) {
        Outcome::Matched(e, definitions) => {
            let c = skip_ws(s, e);
            match chunk_definitions(s, c) {
                Outcome::Matched(_, chunks) => Ok(ParsedMap { definitions, chunks }),
                Outcome::Fatal => Err(MapSyntaxError::Malformed),
                Outcome::Miss => Err(MapSyntaxError::Unmatched),
            }
        },
        Outcome::Fatal => Err(MapSyntaxError::Malformed),
        Outcome::Miss => Err(MapSyntaxError::Unmatched),
    }
}

} // verus!
