//! Loading map files: from the bytes of a file to a tile map.
use vstd::prelude::*;
use crate::chars::{chars_of, push_str, string_of};
use crate::tgm::grammar::{map_file, Res};
use crate::tgm::model::Tile;
use crate::tgm::numeric::{whole_number, whole_value};
use crate::tgm::parsing::{chunks_view, definitions_view, parse, MapSyntaxError};
use crate::tgm::tiles::{built_from, position_entries, texts_of, TileMap, UVec3};

verus! {

/// Loads map files (`.dmm`) in the TGM format.
pub struct TgmLoader;

/// Makes map files loadable: it provides the [`TgmLoader`].
pub struct TgmPlugin;

impl TgmPlugin {
    /// The loader this plugin installs.
    pub fn loader(&self) -> (r: TgmLoader) {
        TgmLoader
    }
}

impl TgmLoader {
    /// The file extensions this loader reads.
    pub fn extensions(&self) -> (r: Vec<&'static str>)
        ensures
            r.len() == 1,
            r@[0]@ == "dmm"@,
    {
        let mut v: Vec<&'static str> = Vec::new();
        v.push("dmm");
        v
    }
}

/// Why a map file could not be loaded.
pub struct TgmError {
    message: String,
}

impl TgmError {
    pub fn new(message: String) -> (r: Self)
        ensures
            r.message_view() == message@,
    {
        TgmError { message }
    }

    /// The description of the error.
    pub fn message(&self) -> (r: &str)
        ensures
            r@ == self.message_view(),
    {
        self.message.as_str()
    }

    pub closed spec fn message_view(&self) -> Seq<char> {
        self.message@
    }
}

/// Decodes bytes as UTF-8 with std's `str::from_utf8`. Claimed, as std documents: it
/// succeeds exactly on valid UTF-8, giving the characters the bytes encode; the
/// error's text (std's `Display` of the error) is not described.
#[verifier::external_body]
fn decode_utf8(bytes: &[u8]) -> (r: Result<&str, String>)
    ensures
        r is Ok <==> vstd::utf8::valid_utf8(bytes@),
        r matches Ok(s) ==> s@ == vstd::utf8::decode_utf8(bytes@),
{
    match std::str::from_utf8(bytes) {
        Ok(s) => Ok(s),
        Err(e) => Err(format!("{}", e)),
    }
}

/// The text split at each `\n` (the separators dropped), as `str::split('\n')` does.
pub open spec fn lines(s: Seq<char>) -> Seq<Seq<char>>
    decreases s.len(),
{
    if s.len() == 0 {
        seq![Seq::empty()]
    } else {
        let l = lines(s.drop_last());
        if s.last() == '\n' {
            l.push(Seq::empty())
        } else {
            l.update(l.len() - 1, l.last().push(s.last()))
        }
    }
}

pub proof fn lemma_lines_nonempty(s: Seq<char>)
    ensures
        lines(s).len() >= 1,
    decreases s.len(),
{
    if s.len() > 0 {
        lemma_lines_nonempty(s.drop_last());
    }
}

/// A row without its trailing carriage return, if it has one.
pub open spec fn strip_cr(row: Seq<char>) -> Seq<char> {
    if row.len() > 0 && row.last() == '\r' {
        row.drop_last()
    } else {
        row
    }
}

/// A text with each line break `\n` written as `\r\n`, as Windows writes it.
pub open spec fn crlf(s: Seq<char>) -> Seq<char>
    decreases s.len(),
{
    if s.len() == 0 {
        s
    } else if s.last() == '\n' {
        crlf(s.drop_last()) + seq!['\r', '\n']
    } else {
        crlf(s.drop_last()).push(s.last())
    }
}

/// A text without carriage returns.
pub open spec fn no_cr(s: Seq<char>) -> bool {
    forall|i: int| 0 <= i < s.len() ==> s[i] != '\r'
}

/// A row loses one trailing carriage return and nothing else: a row that does not end
/// in one is kept whole, and the same row followed by one gives it back.
pub proof fn lemma_strip_cr_row(row: Seq<char>)
    requires
        !(row.len() > 0 && row.last() == '\r'),
    ensures
        strip_cr(row) == row,
        strip_cr(row.push('\r')) == row,
{
    assert(row.push('\r').drop_last() =~= row);
}

/// The rows of a text written with `\r\n` line breaks are those of the text with `\n`
/// line breaks, each but the last followed by a carriage return.
proof fn lemma_lines_crlf(s: Seq<char>)
    requires
        no_cr(s),
    ensures
        lines(crlf(s)).len() == lines(s).len(),
        forall|k: int| 0 <= k < lines(s).len() - 1 ==> #[trigger] lines(crlf(s))[k] == lines(s)[k].push('\r'),
        lines(crlf(s)).last() == lines(s).last(),
        forall|k: int| 0 <= k < lines(s).len() ==> no_cr(#[trigger] lines(s)[k]),
    decreases s.len(),
{
    lemma_lines_nonempty(s);
    if s.len() == 0 {
        assert(lines(s) =~= seq![Seq::<char>::empty()]);
        assert forall|k: int| 0 <= k < lines(s).len() implies no_cr(#[trigger] lines(s)[k]) by {}
    } else {
        let s0 = s.drop_last();
        let c = s.last();
        assert(no_cr(s0)) by {
            assert forall|i: int| 0 <= i < s0.len() implies s0[i] != '\r' by {
                assert(s0[i] == s[i]);
            }
        }
        assert(c == s[s.len() - 1]);
        lemma_lines_crlf(s0);
        lemma_lines_nonempty(s0);
        let l0 = lines(crlf(s0));
        let m0 = lines(s0);
        let n = m0.len();
        if c == '\n' {
            let x = crlf(s);
            let y = crlf(s0).push('\r');
            assert(x =~= crlf(s0) + seq!['\r', '\n']);
            assert(x.drop_last() =~= y);
            assert(y.drop_last() =~= crlf(s0));
            assert(lines(y) == l0.update(n - 1, l0.last().push('\r')));
            assert(lines(x) == lines(y).push(Seq::<char>::empty()));
            assert(lines(s) == m0.push(Seq::<char>::empty()));
            assert forall|k: int| 0 <= k < lines(s).len() - 1 implies #[trigger] lines(crlf(s))[k] == lines(
                s,
            )[k].push('\r') by {
                if k < n - 1 {
                    assert(lines(x)[k] == l0[k]);
                } else {
                    assert(lines(x)[k] == l0.last().push('\r'));
                }
            }
            assert forall|k: int| 0 <= k < lines(s).len() implies no_cr(#[trigger] lines(s)[k]) by {
                if k < n {
                    assert(lines(s)[k] == m0[k]);
                }
            }
        } else {
            let x = crlf(s);
            assert(x == crlf(s0).push(c));
            assert(x.drop_last() =~= crlf(s0));
            assert(lines(x) == l0.update(n - 1, l0.last().push(c)));
            assert(lines(s) == m0.update(n - 1, m0.last().push(c)));
            assert forall|k: int| 0 <= k < lines(s).len() - 1 implies #[trigger] lines(crlf(s))[k] == lines(
                s,
            )[k].push('\r') by {
                assert(lines(x)[k] == l0[k]);
                assert(lines(s)[k] == m0[k]);
            }
            assert forall|k: int| 0 <= k < lines(s).len() implies no_cr(#[trigger] lines(s)[k]) by {
                if k < n - 1 {
                    assert(lines(s)[k] == m0[k]);
                } else {
                    let row = m0.last().push(c);
                    assert(no_cr(m0[n - 1]));
                    assert forall|i: int| 0 <= i < row.len() implies row[i] != '\r' by {
                        if i < row.len() - 1 {
                            assert(row[i] == m0[n - 1][i]);
                        }
                    }
                }
            }
        }
    }
}

/// A chunk written with `\r\n` line breaks places the same names at the same positions
/// as the same chunk written with `\n` line breaks, and can be placed just when it can.
pub proof fn lemma_crlf_chunk_same_names(coords: Seq<Seq<char>>, rows: Seq<char>)
    requires
        no_cr(rows),
    ensures
        chunk_placeable((coords, crlf(rows))) == chunk_placeable((coords, rows)),
        chunk_entries((coords, crlf(rows))) == chunk_entries((coords, rows)),
{
    lemma_lines_crlf(rows);
    lemma_lines_nonempty(rows);
    let a = lines(crlf(rows));
    let b = lines(rows);
    let n = b.len();
    assert forall|j: int| 0 <= j < n implies strip_cr(#[trigger] a[j]) == b[j] by {
        assert(no_cr(b[j]));
        if b[j].len() > 0 {
            assert(b[j].last() == b[j][b[j].len() - 1]);
        }
        lemma_strip_cr_row(b[j]);
        if j == n - 1 {
            assert(a[j] == a.last());
        }
    }
    assert forall|j: int| 0 <= j < n implies strip_cr(#[trigger] b[j]) == b[j] by {
        assert(no_cr(b[j]));
        if b[j].len() > 0 {
            assert(b[j].last() == b[j][b[j].len() - 1]);
        }
        lemma_strip_cr_row(b[j]);
    }
    let e1 = chunk_entries((coords, crlf(rows)));
    let e2 = chunk_entries((coords, rows));
    assert forall|k: int| 0 <= k < n implies e1[k] == e2[k] by {
        assert(strip_cr(a[n - 1 - k]) == b[n - 1 - k]);
        assert(strip_cr(b[n - 1 - k]) == b[n - 1 - k]);
    }
    assert(e1 =~= e2);
}

/// The position of a chunk given by the texts of its coordinates.
pub open spec fn chunk_base(coords: Seq<Seq<char>>) -> UVec3 {
    UVec3 {
        x: whole_value(coords[0], u32::MAX as int) as u32,
        y: whole_value(coords[1], u32::MAX as int) as u32,
        z: whole_value(coords[2], u32::MAX as int) as u32,
    }
}

/// A chunk can be placed: it has three coordinates and its rows fit below its `z`.
pub open spec fn chunk_placeable(c: (Seq<Seq<char>>, Seq<char>)) -> bool {
    c.0.len() >= 3 && chunk_base(c.0).z + lines(c.1).len() - 1 <= u32::MAX
}

/// The names a chunk places: its rows from the last to the first, the last at the
/// chunk's position and each further one a row further in `z`.
pub open spec fn chunk_entries(c: (Seq<Seq<char>>, Seq<char>)) -> Seq<(UVec3, Seq<char>)> {
    let rows = lines(c.1);
    let base = chunk_base(c.0);
    Seq::new(
        rows.len(),
        |k: int| (UVec3 { x: base.x, y: base.y, z: (base.z + k) as u32 }, strip_cr(rows[rows.len() - 1 - k])),
    )
}

/// The names all chunks place, the last chunk first.
pub open spec fn map_entries(chunks: Seq<(Seq<Seq<char>>, Seq<char>)>) -> Seq<(UVec3, Seq<char>)>
    decreases chunks.len(),
{
    if chunks.len() == 0 {
        Seq::empty()
    } else {
        chunk_entries(chunks.last()) + map_entries(chunks.drop_last())
    }
}

/// The index of the first `\n`, if any.
pub open spec fn first_newline(s: Seq<char>) -> Option<int> {
    if exists|i: int| 0 <= i < s.len() && s[i] == '\n' {
        Some(choose|i: int| 0 <= i < s.len() && s[i] == '\n' && forall|j: int| 0 <= j < i ==> s[j] != '\n')
    } else {
        None
    }
}

/// Splits a text at each `\n`.
pub fn split_lines(s: &Vec<char>) -> (r: Vec<Vec<char>>)
    ensures
        texts_of(r@) == lines(s@),
{
    let mut pieces: Vec<Vec<char>> = Vec::new();
    let mut cur: Vec<char> = Vec::new();
    let mut i: usize = 0;
    assert(s@.take(0) =~= Seq::<char>::empty());
    assert(texts_of(pieces@).push(cur@) =~= lines(s@.take(0)));
    while i < s.len()
        invariant
            i <= s.len(),
            texts_of(pieces@).push(cur@) == lines(s@.take(i as int)),
        decreases s.len() - i,
    {
        let c = s[i];
        let ghost before = texts_of(pieces@).push(cur@);
        assert(s@.take(i as int + 1).drop_last() =~= s@.take(i as int));
        assert(s@.take(i as int + 1).last() == c);
        if c == '\n' {
            pieces.push(cur);
            cur = Vec::new();
            assert(texts_of(pieces@).push(cur@) =~= before.push(Seq::empty()));
        } else {
            let ghost old_cur = cur@;
            cur.push(c);
            assert(texts_of(pieces@).push(cur@) =~= before.update(before.len() - 1, before.last().push(c)));
        }
        i = i + 1;
    }
    pieces.push(cur);
    assert(s@.take(s.len() as int) =~= s@);
    pieces
}

/// A row without its trailing carriage return, as a string.
fn strip_cr_exec(row: &Vec<char>) -> (r: String)
    ensures
        r@ == strip_cr(row@),
{
    let n = row.len();
    let end = if n > 0 && row[n - 1] == '\r' { n - 1 } else { n };
    let mut v: Vec<char> = Vec::new();
    let mut i: usize = 0;
    while i < end
        invariant
            end <= n == row.len(),
            i <= end,
            v@ == row@.take(i as int),
        decreases end - i,
    {
        v.push(row[i]);
        i = i + 1;
    }
    assert(v@ =~= strip_cr(row@));
    string_of(v.as_slice())
}

/// Appends the names a placeable chunk places.
fn push_chunk_entries(coords: &Vec<String>, rows_text: &String, out: &mut Vec<(UVec3, String)>) -> (ok: bool)
    ensures
        ok == chunk_placeable((crate::tgm::parsing::texts_view(coords@), rows_text@)),
        ok ==> position_entries(final(out)@) == position_entries(old(out)@) + chunk_entries(
            (crate::tgm::parsing::texts_view(coords@), rows_text@),
        ),
        !ok ==> final(out)@ == old(out)@,
{
    let ghost c = (crate::tgm::parsing::texts_view(coords@), rows_text@);
    if coords.len() < 3 {
        return false;
    }
    assert(c.0[0] == coords@[0]@ && c.0[1] == coords@[1]@ && c.0[2] == coords@[2]@);
    let x = whole_number(&chars_of(coords[0].as_str()), u32::MAX);
    let y = whole_number(&chars_of(coords[1].as_str()), u32::MAX);
    let z = whole_number(&chars_of(coords[2].as_str()), u32::MAX);
    let rows = split_lines(&chars_of(rows_text.as_str()));
    proof {
        lemma_lines_nonempty(rows_text@);
    }
    let n = rows.len();
    assert(texts_of(rows@).len() == n);
    assert(n >= 1);
    if (z as u128) + (n as u128) - 1 > u32::MAX as u128 {
        return false;
    }
    let ghost start = position_entries(out@);
    let ghost entries = chunk_entries(c);
    assert(entries.len() == n);
    let mut k: usize = 0;
    while k < n
        invariant
            n == rows.len(),
            texts_of(rows@) == lines(rows_text@),
            entries == chunk_entries(c),
            c == (crate::tgm::parsing::texts_view(coords@), rows_text@),
            chunk_base(c.0) == (UVec3 { x, y, z }),
            z + n - 1 <= u32::MAX,
            entries.len() == n,
            k <= n,
            position_entries(out@) == start + entries.take(k as int),
        decreases n - k,
    {
        let row = strip_cr_exec(&rows[n - 1 - k]);
        assert(texts_of(rows@)[n - 1 - k] == rows@[n - 1 - k]@);
        let position = UVec3 { x, y, z: z + k as u32 };
        let ghost before = position_entries(out@);
        out.push((position, row));
        assert(lines(rows_text@)[n - 1 - k] == rows@[n - 1 - k]@);
        assert(entries[k as int] == (position, row@));
        assert(position_entries(out@) =~= before.push((position, row@)));
        assert(entries.take(k as int + 1) =~= entries.take(k as int).push(entries[k as int]));
        k = k + 1;
    }
    assert(entries.take(n as int) =~= entries);
    true
}

/// Every chunk can be placed.
pub open spec fn all_placeable(chunks: Seq<(Seq<Seq<char>>, Seq<char>)>) -> bool {
    forall|i: int| 0 <= i < chunks.len() ==> chunk_placeable(#[trigger] chunks[i])
}

/// The names all chunks place, the last chunk first; `None` when a chunk has fewer than
/// three coordinates or more rows than fit below its `z`.
pub fn map_positions(chunks: &Vec<(Vec<String>, String)>) -> (r: Option<Vec<(UVec3, String)>>)
    ensures
        r is Some <==> all_placeable(chunks_view(chunks@)),
        r matches Some(v) ==> position_entries(v@) == map_entries(chunks_view(chunks@)),
{
    let ghost view = chunks_view(chunks@);
    let mut out: Vec<(UVec3, String)> = Vec::new();
    let mut j = chunks.len();
    assert(view.take(j as int) =~= view);
    assert(position_entries(out@) + map_entries(view.take(j as int)) =~= map_entries(view));
    while j > 0
        invariant
            view == chunks_view(chunks@),
            j <= chunks.len(),
            position_entries(out@) + map_entries(view.take(j as int)) == map_entries(view),
            forall|i: int| j <= i < chunks.len() ==> chunk_placeable(#[trigger] view[i]),
        decreases j,
    {
        let ghost before = position_entries(out@);
        let ok = push_chunk_entries(&chunks[j - 1].0, &chunks[j - 1].1, &mut out);
        assert(view[j - 1] == (crate::tgm::parsing::texts_view(chunks@[j - 1].0@), chunks@[j - 1].1@));
        if !ok {
            return None;
        }
        assert(view.take(j as int).last() == view[j - 1]);
        assert(view.take(j as int).drop_last() =~= view.take(j - 1));
        assert(map_entries(view.take(j as int)) == chunk_entries(view[j - 1]) + map_entries(view.take(j - 1)));
        assert(position_entries(out@) + map_entries(view.take(j - 1)) =~= before + (chunk_entries(view[j - 1])
            + map_entries(view.take(j - 1))));
        j = j - 1;
    }
    assert(view.take(0) =~= Seq::<(Seq<Seq<char>>, Seq<char>)>::empty());
    assert(position_entries(out@) =~= position_entries(out@) + map_entries(view.take(0)));
    Some(out)
}

proof fn lemma_first_newline(s: Seq<char>)
    ensures
        first_newline(s) matches Some(i) ==> 0 <= i < s.len() && s[i] == '\n',
{
    if exists|i: int| 0 <= i < s.len() && s[i] == '\n' {
        let w = choose|i: int| 0 <= i < s.len() && s[i] == '\n';
        lemma_first_exists(s, w);
    }
}

proof fn lemma_first_exists(s: Seq<char>, w: int)
    requires
        0 <= w < s.len(),
        s[w] == '\n',
    ensures
        exists|i: int| 0 <= i < s.len() && s[i] == '\n' && forall|j: int| 0 <= j < i ==> s[j] != '\n',
    decreases w,
{
    if exists|j: int| 0 <= j < w && s[j] == '\n' {
        let j = choose|j: int| 0 <= j < w && s[j] == '\n';
        lemma_first_exists(s, j);
    }
}

/// The index of the first `\n`, if any.
fn find_newline(s: &Vec<char>) -> (r: Option<usize>)
    ensures
        match r {
            Some(i) => first_newline(s@) == Some(i as int),
            None => first_newline(s@) is None,
        },
{
    let mut i: usize = 0;
    while i < s.len()
        invariant
            i <= s.len(),
            forall|j: int| 0 <= j < i ==> s@[j] != '\n',
        decreases s.len() - i,
    {
        if s[i] == '\n' {
            proof {
                let c = choose|c: int| 0 <= c < s@.len() && s@[c] == '\n' && forall|j: int| 0 <= j < c ==> s@[j] != '\n';
                assert(0 <= i < s@.len() && s@[i as int] == '\n' && forall|j: int| 0 <= j < i ==> s@[j] != '\n');
                if c < i {
                    assert(s@[c] != '\n');
                } else if c > i {
                    assert(s@[i as int] != '\n');
                }
            }
            return Some(i);
        }
        i = i + 1;
    }
    None
}

/// What a map text gives: a tile map when it reads as one and all its chunks can be
/// placed, else an error or, for unplaceable chunks, nothing.
pub open spec fn map_from_text(text: Seq<char>, r: Option<Result<TileMap, TgmError>>) -> bool {
    match map_file(text) {
        Res::Matched(_, parsed) => if all_placeable(parsed.1) {
            r matches Some(Ok(m)) && exists|d: Seq<(String, Tile)>, p: Seq<(UVec3, String)>|
                #![trigger built_from(m, d, p)]
                definitions_view(d) == parsed.0 && position_entries(p) == map_entries(parsed.1)
                    && built_from(m, d, p)
        } else {
            r is None
        },
        Res::Miss => r matches Some(Err(e)) && e.message_view() == "the text is not a map in the TGM format"@,
        Res::Fatal => r matches Some(Err(e)) && e.message_view() == "a number in the map has an exponent without digits"@,
    }
}

/// Makes a tile map from a map text.
pub fn map_of_text(text: &Vec<char>) -> (r: Option<Result<TileMap, TgmError>>)
    ensures
        map_from_text(text@, r),
{
    match parse(text) {
        Ok(parsed) => {
            match map_positions(&parsed.chunks) {
                Some(positions) => {
                    let ghost d = parsed.definitions@;
                    let ghost p = positions@;
                    let m = TileMap::new(parsed.definitions, positions);
                    proof {
                        let parsed_model = map_file(text@)->Matched_1;
                        assert(definitions_view(d) == parsed_model.0);
                        assert(position_entries(p) == map_entries(parsed_model.1));
                    }
                    let ghost gm = m;
                    let r = Some(Ok(m));
                    assert(r matches Some(Ok(mm)) && built_from(mm, d, p)) by {
                        assert(built_from(gm, d, p));
                    }
                    r
                },
                None => {
                    assert(!all_placeable(map_file(text@)->Matched_1.1));
                    assert(map_from_text(text@, None));
                    None
                },
            }
        },
        Err(MapSyntaxError::Unmatched) => {
            Some(Err(TgmError::new(String::from_str("the text is not a map in the TGM format"))))
        },
        Err(MapSyntaxError::Malformed) => {
            Some(Err(TgmError::new(String::from_str("a number in the map has an exponent without digits"))))
        },
    }
}

/// Reads a map file. The text starts after its first line (at its first `\n`); then
/// come tile definitions and chunks. Gives `None` where no map can be made at all: a
/// text without a line break, or a chunk with fewer than three coordinates or more rows
/// than fit below its `z`.
pub fn load_tgm(bytes: &[u8]) -> (r: Option<Result<TileMap, TgmError>>)
    ensures
        !vstd::utf8::valid_utf8(bytes@) ==> r matches Some(Err(_)),
        vstd::utf8::valid_utf8(bytes@) ==> ({
            let text = vstd::utf8::decode_utf8(bytes@);
            match first_newline(text) {
                None => r is None,
                Some(nl) => map_from_text(text.skip(nl), r),
            }
        }),
{
    let raw = match decode_utf8(bytes) {
        Ok(text) => text,
        Err(message) => {
            return Some(Err(TgmError::new(message)));
        },
    };
    let all = chars_of(raw);
    let nl = match find_newline(&all) {
        Some(i) => i,
        None => {
            return None;
        },
    };
    proof {
        lemma_first_newline(all@);
    }
    let mut text: Vec<char> = Vec::new();
    let mut i = nl;
    while i < all.len()
        invariant
            nl <= i <= all.len(),
            text@ == all@.subrange(nl as int, i as int),
        decreases all.len() - i,
    {
        text.push(all[i]);
        i = i + 1;
    }
    assert(text@ =~= all@.skip(nl as int));
    map_of_text(&text)
}

} // verus!
