//! Chat messages: text made of formatted sections, with the part that was spoken aloud.
//! Ranges are byte ranges into the UTF-8 text, as text layouts use them.
use std::ops::Range;
use vstd::prelude::*;
use vstd::string::StringExecFns;
use vstd::utf8::{
    encode_utf8, encode_utf8_decode_utf8, encode_utf8_first_scalar, is_char_boundary, pop_first_scalar,
};

verus! {

/// The number of bytes of the UTF-8 encoding of `s`.
pub open spec fn byte_len(s: Seq<char>) -> int {
    encode_utf8(s).len() as int
}

/// `b` is the byte offset of some character position of `s`.
pub open spec fn on_boundary(s: Seq<char>, b: int) -> bool {
    exists|k: int| 0 <= k <= s.len() && #[trigger] byte_len(s.take(k)) == b
}

/// Encoding a concatenation concatenates the encodings.
pub proof fn lemma_encode_concat(a: Seq<char>, b: Seq<char>)
    ensures
        encode_utf8(a + b) == encode_utf8(a) + encode_utf8(b),
    decreases a.len(),
{
    if a.len() == 0 {
        assert(a + b =~= b);
        assert(encode_utf8(a) + encode_utf8(b) =~= encode_utf8(b));
    } else {
        lemma_encode_concat(a.drop_first(), b);
        assert((a + b).drop_first() =~= a.drop_first() + b);
        assert((a + b)[0] == a[0]);
        assert(encode_utf8(a + b) =~= encode_utf8(a) + encode_utf8(b));
    }
}

/// How a section of a chat message is drawn.
#[derive(Clone, Copy, PartialEq, Eq, Structural, Debug)]
pub struct ChatFormat {
    pub italics: bool,
    pub underline: bool,
    pub bold: bool,
}

/// Plain text.
pub open spec fn plain() -> ChatFormat {
    ChatFormat { italics: false, underline: false, bold: false }
}

impl Default for ChatFormat {
    fn default() -> (r: Self)
        ensures
            r == plain(),
    {
        ChatFormat { italics: false, underline: false, bold: false }
    }
}

/// A part of a chat message and its format.
pub struct ChatSection {
    /// Part of the chat message this format applies to.
    pub range: Range<usize>,
    pub format: ChatFormat,
}

/// A section as plain values: start, end and format.
pub open spec fn section_view(s: ChatSection) -> (int, int, ChatFormat) {
    (s.range.start as int, s.range.end as int, s.format)
}

pub open spec fn sections_view(v: Seq<ChatSection>) -> Seq<(int, int, ChatFormat)> {
    v.map_values(|s: ChatSection| section_view(s))
}

/// A chat message: its text, the formatted sections of it, and the part that is audible.
pub struct ChatMessage {
    pub text: String,
    pub sections: Vec<ChatSection>,
    /// The part of the text that is audible.
    pub spoken_range: Option<Range<usize>>,
}

impl ChatMessage {
    /// The sections as plain values.
    pub open spec fn sections_seq(&self) -> Seq<(int, int, ChatFormat)> {
        sections_view(self.sections@)
    }

    /// Every range lies on character boundaries of the text, start before end.
    pub open spec fn well_formed(&self) -> bool {
        &&& forall|i: int| 0 <= i < self.sections@.len() ==> {
            let s = #[trigger] self.sections@[i];
            &&& s.range.start <= s.range.end
            &&& on_boundary(self.text@, s.range.start as int)
            &&& on_boundary(self.text@, s.range.end as int)
        }
        &&& self.spoken_range matches Some(r) ==> {
            &&& r.start <= r.end
            &&& on_boundary(self.text@, r.start as int)
            &&& on_boundary(self.text@, r.end as int)
        }
    }

    /// An empty message.
    pub fn new() -> (r: Self)
        ensures
            r.text@ == Seq::<char>::empty(),
            r.sections@.len() == 0,
            r.spoken_range is None,
            r.well_formed(),
    {
        ChatMessage { text: String::new(), sections: Vec::new(), spoken_range: None }
    }

    /// Appends `text` as a section of its own.
    pub fn section(&mut self, text: &str, format: ChatFormat)
        requires
            old(self).well_formed(),
            byte_len(old(self).text@ + text@) <= usize::MAX,
        ensures
            final(self).well_formed(),
            final(self).text@ == old(self).text@ + text@,
            final(self).sections_seq() == old(self).sections_seq().push(
                (byte_len(old(self).text@), byte_len(final(self).text@), format),
            ),
            final(self).spoken_range == old(self).spoken_range,
    {
        let ghost before = self.text@;
        let start = self.text.as_str().len();
        self.text.append(text);
        let end = self.text.as_str().len();
        proof {
            lemma_encode_concat(before, text@);
            lemma_extended_boundaries(before, text@);
            assert(start == byte_len(before));
            assert(end == byte_len(self.text@));
        }
        self.sections.push(ChatSection { range: start..end, format });
        proof {
            assert(sections_view(self.sections@) =~= sections_view(old(self).sections@).push(
                (byte_len(before), byte_len(self.text@), format),
            ));
        }
    }

    /// Appends `text` without creating a new section: the last section grows over it,
    /// or a plain section is made for the whole text when there is none.
    pub fn append(&mut self, text: &str)
        requires
            old(self).well_formed(),
            byte_len(old(self).text@ + text@) <= usize::MAX,
        ensures
            final(self).well_formed(),
            final(self).text@ == old(self).text@ + text@,
            final(self).sections_seq() == (if old(self).sections@.len() == 0 {
                seq![(0int, byte_len(final(self).text@), plain())]
            } else {
                let last = old(self).sections_seq().last();
                old(self).sections_seq().drop_last().push((last.0, byte_len(final(self).text@), last.2))
            }),
            final(self).spoken_range == old(self).spoken_range,
    {
        let ghost before = self.text@;
        let start = self.text.as_str().len();
        self.text.append(text);
        let end = self.text.as_str().len();
        proof {
            lemma_encode_concat(before, text@);
            lemma_extended_boundaries(before, text@);
            assert(start == byte_len(before));
            assert(end == byte_len(self.text@));
        }
        let n = self.sections.len();
        if n == 0 {
            self.sections.push(ChatSection { range: 0..end, format: ChatFormat::default() });
            proof {
                assert(byte_len(self.text@.take(0)) == 0) by {
                    assert(self.text@.take(0) =~= Seq::<char>::empty());
                }
                assert(sections_view(self.sections@) =~= seq![(0int, byte_len(self.text@), plain())]);
            }
        } else {
            let last = self.sections.pop().unwrap();
            proof {
                assert(old(self).sections@[n - 1] == last);
                lemma_boundary_within(before, last.range.end as int);
            }
            self.sections.push(ChatSection { range: last.range.start..end, format: last.format });
            proof {
                let o = sections_view(old(self).sections@);
                assert(sections_view(self.sections@) =~= o.drop_last().push((o.last().0, byte_len(self.text@), o.last().2)));
            }
        }
    }

    /// Appends `text` as the spoken part of the message.
    pub fn append_speech(&mut self, text: &str)
        requires
            old(self).well_formed(),
            byte_len(old(self).text@ + text@) <= usize::MAX,
        ensures
            final(self).well_formed(),
            final(self).text@ == old(self).text@ + text@,
            final(self).sections_seq() == (if old(self).sections@.len() == 0 {
                seq![(0int, byte_len(final(self).text@), plain())]
            } else {
                let last = old(self).sections_seq().last();
                old(self).sections_seq().drop_last().push((last.0, byte_len(final(self).text@), last.2))
            }),
            final(self).spoken_range matches Some(r) && r.start == byte_len(old(self).text@) && r.end
                == byte_len(final(self).text@),
    {
        let ghost before = self.text@;
        let start = self.text.as_str().len();
        self.append(text);
        let end = self.text.as_str().len();
        proof {
            lemma_encode_concat(before, text@);
            lemma_extended_boundaries(before, text@);
            assert(start == byte_len(before));
            assert(end == byte_len(self.text@));
        }
        self.spoken_range = Some(start..end);
    }

    /// The sections placed after `base` bytes of a layout that already holds that much
    /// text, for showing the whole message there.
    pub fn layout_sections(&self, base: usize) -> (r: Vec<ChatSection>)
        requires
            self.well_formed(),
            base + byte_len(self.text@) <= usize::MAX,
        ensures
            sections_view(r@) == self.sections_seq().map_values(
                |s: (int, int, ChatFormat)| (base + s.0, base + s.1, s.2),
            ),
    {
        let mut out: Vec<ChatSection> = Vec::new();
        let mut i: usize = 0;
        while i < self.sections.len()
            invariant
                i <= self.sections.len(),
                self.well_formed(),
                base + byte_len(self.text@) <= usize::MAX,
                sections_view(out@) == self.sections_seq().take(i as int).map_values(
                    |s: (int, int, ChatFormat)| (base + s.0, base + s.1, s.2),
                ),
            decreases self.sections.len() - i,
        {
            let s = &self.sections[i];
            proof {
                assert(self.sections@[i as int] == *s);
                lemma_boundary_within(self.text@, s.range.end as int);
            }
            let ghost prev = sections_view(out@);
            out.push(ChatSection { range: (base + s.range.start)..(base + s.range.end), format: s.format });
            proof {
                let t = self.sections_seq()[i as int];
                assert(t == section_view(*s));
                assert(sections_view(out@) =~= prev.push((base + t.0, base + t.1, t.2)));
                assert(self.sections_seq().take(i + 1) =~= self.sections_seq().take(i as int).push(
                    self.sections_seq()[i as int],
                ));
                assert(sections_view(out@) =~= self.sections_seq().take(i + 1).map_values(
                    |s: (int, int, ChatFormat)| (base + s.0, base + s.1, s.2),
                ));
            }
            i = i + 1;
        }
        proof {
            assert(self.sections_seq().take(self.sections@.len() as int) =~= self.sections_seq());
        }
        out
    }

    /// The spoken part of the message, if any, with its sections placed after `base`
    /// bytes of a layout that already holds that much text.
    pub fn spoken_part(&self, base: usize) -> (r: Option<(String, Vec<ChatSection>)>)
        requires
            self.well_formed(),
            base + byte_len(self.text@) <= usize::MAX,
        ensures
            match self.spoken_range {
                None => r is None,
                Some(range) => r matches Some(p) && p.0@ == text_between(
                    self.text@,
                    range.start as int,
                    range.end as int,
                ) && sections_view(p.1@) == spoken_sections(
                    self.sections_seq(),
                    range.start as int,
                    range.start as int,
                    range.end as int,
                    base as int,
                ),
            },
    {
        let (start, end) = match &self.spoken_range {
            Some(range) => (range.start, range.end),
            None => {
                return None;
            },
        };
        let spoken = byte_slice(self.text.as_str(), start, end);
        proof {
            lemma_boundary_within(self.text@, end as int);
        }
        let ghost secs = self.sections_seq();
        let ghost whole = spoken_sections(secs, start as int, start as int, end as int, base as int);
        let mut out: Vec<ChatSection> = Vec::new();
        let mut idx = start;
        let mut done = false;
        let mut i: usize = 0;
        assert(secs.skip(0) =~= secs);
        while i < self.sections.len() && !done
            invariant
                i <= self.sections.len(),
                secs == self.sections_seq(),
                self.well_formed(),
                start <= idx <= end,
                end <= byte_len(self.text@),
                base + byte_len(self.text@) <= usize::MAX,
                whole == spoken_sections(secs, start as int, start as int, end as int, base as int),
                done ==> sections_view(out@) == whole,
                !done ==> sections_view(out@) + spoken_sections(
                    secs.skip(i as int),
                    idx as int,
                    start as int,
                    end as int,
                    base as int,
                ) == whole,
            decreases self.sections.len() - i,
        {
            let s = &self.sections[i];
            let ghost rest = secs.skip(i as int);
            proof {
                assert(self.sections@[i as int] == *s);
                assert(rest[0] == secs[i as int]);
                assert(rest.drop_first() =~= secs.skip(i + 1));
            }
            if s.range.start <= idx && idx < s.range.end {
                let e = if s.range.end < end {
                    s.range.end
                } else {
                    end
                };
                let ghost before = sections_view(out@);
                let ghost old_idx = idx as int;
                out.push(ChatSection { range: (base + idx - start)..(base + e - start), format: s.format });
                proof {
                    assert(sections_view(out@) =~= before + seq![(base + old_idx - start, base + e - start, s.format)]);
                }
                idx = e;
                if idx >= end {
                    done = true;
                    proof {
                        assert(sections_view(out@) =~= before + spoken_sections(rest, old_idx, start as int, end as int, base as int));
                    }
                } else {
                    proof {
                        assert(sections_view(out@) + spoken_sections(secs.skip(i + 1), idx as int, start as int, end as int, base as int)
                            =~= before + spoken_sections(rest, old_idx, start as int, end as int, base as int));
                    }
                }
            }
            i = i + 1;
        }
        proof {
            if !done {
                assert(secs.skip(i as int) =~= Seq::<(int, int, ChatFormat)>::empty());
                assert(sections_view(out@) + Seq::<(int, int, ChatFormat)>::empty() =~= sections_view(out@));
            }
        }
        Some((spoken.to_owned(), out))
    }

    /// The message a speaker sends: `<name> says, "<text>"`, the name in bold and the
    /// quoted text as the spoken part.
    pub fn speech(name: &str, text: &str) -> (r: Self)
        requires
            byte_len(name@ + " says, \""@ + text@ + "\""@) <= usize::MAX,
        ensures
            r.well_formed(),
            r.text@ == name@ + " says, \""@ + text@ + "\""@,
            r.sections_seq() == seq![
                (0int, byte_len(name@), ChatFormat { bold: true, ..plain() }),
                (byte_len(name@), byte_len(name@ + " says, \""@ + text@ + "\""@), plain()),
            ],
            r.spoken_range matches Some(s) && s.start == byte_len(name@ + " says, \""@) && s.end
                == byte_len(name@ + " says, \""@ + text@),
    {
        let ghost a = name@;
        let ghost b = " says, \""@;
        let ghost c = text@;
        let ghost d = "\""@;
        proof {
            lemma_encode_concat(a + b + c, d);
            lemma_encode_concat(a + b, c);
            lemma_encode_concat(a, b);
            assert(Seq::<char>::empty() + a =~= a);
        }
        let mut message = ChatMessage::new();
        message.section(name, ChatFormat { bold: true, ..ChatFormat::default() });
        message.section(" says, \"", ChatFormat::default());
        message.append_speech(text);
        message.append("\"");
        message
    }
}

/// The character position of `s` at byte offset `b`.
pub open spec fn char_index(s: Seq<char>, b: int) -> int {
    choose|k: int| 0 <= k <= s.len() && #[trigger] byte_len(s.take(k)) == b
}

/// The characters of `s` between the byte offsets `start` and `end`.
pub open spec fn text_between(s: Seq<char>, start: int, end: int) -> Seq<char> {
    s.subrange(char_index(s, start), char_index(s, end))
}

/// The sections covering the spoken part `[start, end)` of a message: going through
/// the sections in order, each one holding the current offset `idx` gives the piece
/// from `idx` to its end (cut at `end`), and the walk goes on from there until `end`
/// is reached. Offsets are moved so that `start` falls on `base`.
pub open spec fn spoken_sections(
    secs: Seq<(int, int, ChatFormat)>,
    idx: int,
    start: int,
    end: int,
    base: int,
) -> Seq<(int, int, ChatFormat)>
    decreases secs.len(),
{
    if secs.len() == 0 {
        seq![]
    } else {
        let s = secs[0];
        if s.0 <= idx < s.1 {
            let e = if s.1 < end {
                s.1
            } else {
                end
            };
            let piece = (base + idx - start, base + e - start, s.2);
            if e >= end {
                seq![piece]
            } else {
                seq![piece] + spoken_sections(secs.drop_first(), e, start, end, base)
            }
        } else {
            spoken_sections(secs.drop_first(), idx, start, end, base)
        }
    }
}

/// The bytes of a concatenation split where the first part ends.
proof fn lemma_concat_boundary(a: Seq<char>, b: Seq<char>)
    ensures
        is_char_boundary(encode_utf8(a + b), byte_len(a)),
    decreases a.len(),
{
    broadcast use vstd::utf8::encode_utf8_valid_utf8;

    let bytes = encode_utf8(a + b);
    if a.len() == 0 {
        assert(encode_utf8(a) =~= Seq::<u8>::empty());
    } else {
        let ab = a + b;
        encode_utf8_first_scalar(ab);
        assert(ab[0] == a[0]);
        assert(ab.drop_first() =~= a.drop_first() + b);
        lemma_encode_concat(a.drop_first(), b);
        lemma_encode_concat(a, b);
        assert(pop_first_scalar(bytes) =~= encode_utf8(a.drop_first() + b));
        lemma_concat_boundary(a.drop_first(), b);
    }
}

/// Byte offsets grow with character positions.
proof fn lemma_offsets_increase(s: Seq<char>, k1: int, k2: int)
    requires
        0 <= k1 < k2 <= s.len(),
    ensures
        byte_len(s.take(k1)) < byte_len(s.take(k2)),
{
    let mid = s.take(k2).skip(k1);
    assert(s.take(k1) + mid =~= s.take(k2));
    lemma_encode_concat(s.take(k1), mid);
    assert(mid.len() > 0);
    assert(encode_utf8(mid).len() > 0);
}

/// Encodings are equal only for equal texts.
proof fn lemma_encode_injective(x: Seq<char>, y: Seq<char>)
    requires
        encode_utf8(x) == encode_utf8(y),
    ensures
        x == y,
{
    encode_utf8_decode_utf8(x);
    encode_utf8_decode_utf8(y);
}

/// The text of `s` between two boundaries.
fn byte_slice(s: &str, start: usize, end: usize) -> (r: &str)
    requires
        start <= end,
        on_boundary(s@, start as int),
        on_boundary(s@, end as int),
    ensures
        r@ == text_between(s@, start as int, end as int),
        char_index(s@, start as int) <= char_index(s@, end as int),
{
    let ghost t = s@;
    let ghost k1 = char_index(t, start as int);
    let ghost k2 = char_index(t, end as int);
    proof {
        if k1 > k2 {
            lemma_offsets_increase(t, k2, k1);
        }
        assert(t.take(k1) + t.skip(k1) =~= t);
        lemma_encode_concat(t.take(k1), t.skip(k1));
        lemma_concat_boundary(t.take(k1), t.skip(k1));
    }
    let (_, rest) = s.split_at(start);
    proof {
        assert(encode_utf8(rest@) =~= encode_utf8(t.skip(k1)));
        lemma_encode_injective(rest@, t.skip(k1));
        let part = t.skip(k1).take(k2 - k1);
        assert(t.take(k1) + part =~= t.take(k2));
        lemma_encode_concat(t.take(k1), part);
        assert(part + t.skip(k1).skip(k2 - k1) =~= t.skip(k1));
        lemma_concat_boundary(part, t.skip(k1).skip(k2 - k1));
        lemma_encode_concat(part, t.skip(k1).skip(k2 - k1));
    }
    let (middle, _) = rest.split_at(end - start);
    proof {
        let part = t.skip(k1).take(k2 - k1);
        assert(encode_utf8(middle@) =~= encode_utf8(part));
        lemma_encode_injective(middle@, part);
        assert(part =~= t.subrange(k1, k2));
    }
    middle
}

/// A boundary of a text lies within its encoding.
proof fn lemma_boundary_within(a: Seq<char>, x: int)
    requires
        on_boundary(a, x),
    ensures
        0 <= x <= byte_len(a),
{
    let k = choose|k: int| 0 <= k <= a.len() && #[trigger] byte_len(a.take(k)) == x;
    lemma_encode_concat(a.take(k), a.skip(k));
    assert(a.take(k) + a.skip(k) =~= a);
}

/// Appending to a text keeps its boundaries and adds the end of the new text.
proof fn lemma_extended_boundaries(a: Seq<char>, b: Seq<char>)
    ensures
        forall|x: int| on_boundary(a, x) ==> on_boundary(a + b, x),
        on_boundary(a + b, byte_len(a)),
        on_boundary(a + b, byte_len(a + b)),
{
    assert forall|x: int| on_boundary(a, x) implies on_boundary(a + b, x) by {
        let k = choose|k: int| 0 <= k <= a.len() && #[trigger] byte_len(a.take(k)) == x;
        assert((a + b).take(k) =~= a.take(k));
    }
    assert((a + b).take(a.len() as int) =~= a);
    assert(byte_len((a + b).take(a.len() as int)) == byte_len(a));
    assert((a + b).take((a + b).len() as int) =~= a + b);
    assert(byte_len((a + b).take((a + b).len() as int)) == byte_len(a + b));
}

/// The character position at a byte offset is the only one there.
proof fn lemma_char_index_unique(s: Seq<char>, k: int)
    requires
        0 <= k <= s.len(),
    ensures
        char_index(s, byte_len(s.take(k))) == k,
{
    let b = byte_len(s.take(k));
    let j = char_index(s, b);
    assert(0 <= j <= s.len() && byte_len(s.take(j)) == b);
    if j < k {
        lemma_offsets_increase(s, j, k);
    } else if j > k {
        lemma_offsets_increase(s, k, j);
    }
}

/// The spoken part of a speech message is exactly what was said.
pub proof fn lemma_speech_spoken_text(name: Seq<char>, text: Seq<char>)
    ensures
        text_between(
            name + " says, \""@ + text + "\""@,
            byte_len(name + " says, \""@),
            byte_len(name + " says, \""@ + text),
        ) == text,
{
    let head = name + " says, \""@;
    let full = head + text + "\""@;
    let p1 = head.len() as int;
    let p2 = p1 + text.len();
    assert(full.take(p1) =~= head);
    assert(full.take(p2) =~= head + text);
    lemma_char_index_unique(full, p1);
    lemma_char_index_unique(full, p2);
    assert(full.subrange(p1, p2) =~= text);
}

} // verus!

