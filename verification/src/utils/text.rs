//! Text helpers.
use std::borrow::Cow;
use vstd::prelude::*;
use crate::chars::{chars_of, string_of};

verus! {

/// Number of bytes the UTF-8 encoding of `c` takes.
pub open spec fn utf8_width(c: char) -> nat {
    if (c as u32) < 0x80 {
        1
    } else if (c as u32) < 0x800 {
        2
    } else if (c as u32) < 0x10000 {
        3
    } else {
        4
    }
}

/// Byte offset of the character at index `k` in the UTF-8 encoding of `s`.
pub open spec fn byte_offset(s: Seq<char>, k: int) -> nat
    decreases k,
{
    if k <= 0 || k > s.len() {
        0
    } else {
        byte_offset(s, k - 1) + utf8_width(s[k - 1])
    }
}

/// The character index whose byte offset lies three bytes before that of character `n`.
pub open spec fn cut_index(s: Seq<char>, n: int) -> int {
    choose|j: int| 0 <= j <= n && #[trigger] byte_offset(s, j) + 3 == byte_offset(s, n)
}

/// Whether a string of more than `n` characters can be cut three bytes before its
/// `n`-th character on a character boundary.
pub open spec fn can_truncate(s: Seq<char>, n: int) -> bool {
    s.len() > n ==> exists|j: int| 0 <= j <= n && #[trigger] byte_offset(s, j) + 3 == byte_offset(s, n)
}

/// What `truncate` gives back: the text itself when it has at most `n` characters,
/// else the text up to three bytes before its `n`-th character followed by `...`.
pub open spec fn truncated(s: Seq<char>, n: int) -> Seq<char> {
    if s.len() <= n {
        s
    } else {
        s.take(cut_index(s, n)) + seq!['.', '.', '.']
    }
}

proof fn lemma_byte_offset_increasing(s: Seq<char>, i: int, j: int)
    requires
        0 <= i < j <= s.len(),
    ensures
        byte_offset(s, i) < byte_offset(s, j),
    decreases j - i,
{
    if j > i + 1 {
        lemma_byte_offset_increasing(s, i, j - 1);
    }
}

fn char_width(c: char) -> (r: u64)
    ensures
        r == utf8_width(c),
{
    let v = c as u32;
    if v < 0x80 {
        1
    } else if v < 0x800 {
        2
    } else if v < 0x10000 {
        3
    } else {
        4
    }
}

/// Shortens `s` to at most `max_chars` characters, marking a cut with `...`.
pub fn truncate(s: &str, max_chars: usize) -> (r: Cow<str>)
    requires
        can_truncate(s@, max_chars as int),
    ensures
        r@ == truncated(s@, max_chars as int),
{
    let chars = chars_of(s);
    if chars.len() <= max_chars {
        return Cow::Borrowed(s);
    }
    // Byte offsets of the first `max_chars + 1` characters.
    let mut offsets: Vec<u128> = Vec::new();
    let mut acc: u128 = 0;
    let mut k: usize = 0;
    while k < max_chars
        invariant
            chars@ == s@,
            max_chars < chars.len(),
            k <= max_chars,
            offsets.len() == k,
            acc == byte_offset(s@, k as int),
            acc <= 4 * k,
            forall|i: int| 0 <= i < k ==> offsets@[i] == byte_offset(s@, i),
            forall|i: int| 0 <= i < k ==> offsets@[i] <= 4 * i,
        decreases max_chars - k,
    {
        offsets.push(acc);
        acc = acc + char_width(chars[k]) as u128;
        k = k + 1;
    }
    offsets.push(acc);
    let target = offsets[max_chars];
    let mut j: usize = 0;
    while j <= max_chars
        invariant
            chars@ == s@,
            max_chars < chars.len(),
            offsets.len() == max_chars + 1,
            target == byte_offset(s@, max_chars as int),
            forall|i: int| 0 <= i <= max_chars ==> offsets@[i] == byte_offset(s@, i),
            forall|i: int| 0 <= i <= max_chars ==> offsets@[i] <= 4 * max_chars,
            forall|i: int| 0 <= i < j ==> byte_offset(s@, i) + 3 != target,
            can_truncate(s@, max_chars as int),
        decreases max_chars + 1 - j,
    {
        if offsets[j] + 3 == target {
            proof {
                let c = cut_index(s@, max_chars as int);
                assert(byte_offset(s@, j as int) + 3 == byte_offset(s@, max_chars as int));
                if c < j {
                    lemma_byte_offset_increasing(s@, c, j as int);
                } else if c > j {
                    lemma_byte_offset_increasing(s@, j as int, c);
                }
            }
            let mut out: Vec<char> = Vec::new();
            let mut i: usize = 0;
            while i < j
                invariant
                    chars@ == s@,
                    j <= max_chars < chars.len(),
                    i <= j,
                    out@ == s@.take(i as int),
                decreases j - i,
            {
                out.push(chars[i]);
                i = i + 1;
            }
            out.push('.');
            out.push('.');
            out.push('.');
            assert(out@ == truncated(s@, max_chars as int));
            return Cow::Owned(string_of(out.as_slice()));
        }
        j = j + 1;
    }
    proof {
        let w = choose|w: int| 0 <= w <= max_chars && #[trigger] byte_offset(s@, w) + 3 == byte_offset(s@, max_chars as int);
        assert(byte_offset(s@, w) + 3 != target);
    }
    Cow::Borrowed(s)
}

} // verus!
