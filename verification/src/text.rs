//! Text on top of UTF-8 bytes: comparing, splitting and trimming.
use crate::search::{find_in_u8_slice, first_at, index_of, lemma_index_is, lemma_index_of, occurs_at};
use vstd::prelude::*;
use vstd::string::*;
use vstd::utf8::*;

verus! {

/// `core::str::from_utf8`: succeeds exactly on valid UTF-8, and the text it gives is the one that
/// the bytes encode.
#[verifier::external_body]
pub(crate) fn utf8_text(bytes: &[u8]) -> (text: Option<&str>)
    ensures
        match text {
            Some(s) => valid_utf8(bytes@) && s@ == decode_utf8(bytes@),
            None => !valid_utf8(bytes@),
        },
{
    core::str::from_utf8(bytes).ok()
}

/// The encoding of a concatenation is the concatenation of the encodings.
pub proof fn lemma_encode_concat(a: Seq<char>, b: Seq<char>)
    ensures
        encode_utf8(a + b) == encode_utf8(a) + encode_utf8(b),
    decreases a.len(),
{
    if a.len() == 0 {
        assert(a + b =~= b);
        assert(encode_utf8(a) + encode_utf8(b) =~= encode_utf8(b));
    } else {
        lemma_encode_concat(a.drop_first(), b);
        assert((a + b).drop_first() =~= a.drop_first() + b);
        assert((a + b)[0] == a[0]);
        assert(encode_utf8(a + b) =~= encode_utf8(a) + encode_utf8(b));
    }
}

/// Two texts with the same encoding are the same text.
pub proof fn lemma_encode_injective(a: Seq<char>, b: Seq<char>)
    requires
        encode_utf8(a) == encode_utf8(b),
    ensures
        a == b,
{
    encode_utf8_decode_utf8(a);
    encode_utf8_decode_utf8(b);
}

/// An ASCII character is encoded as the one byte with its number.
pub proof fn lemma_encode_ascii(c: char)
    requires
        (c as u32) < 0x80,
    ensures
        encode_scalar(c as u32) == seq![c as u8],
        encode_utf8(seq![c]) == seq![c as u8],
{
    let v: u32 = c as u32;
    assert(has_width_1_encoding(v));
    assert((v & 0x7F) as u8 == v as u8) by (bit_vector)
        requires
            v < 0x80,
    ;
    assert(encode_scalar(v) =~= seq![c as u8]);
    assert(seq![c].drop_first() =~= Seq::<char>::empty());
    reveal_with_fuel(encode_utf8, 2);
    assert(encode_utf8(seq![c]) =~= encode_scalar(v));
}

/// Distinct ASCII characters have distinct bytes.
proof fn lemma_ascii_distinct(a: char, b: char)
    requires
        (a as u32) < 0x80,
        (b as u32) < 0x80,
        a != b,
    ensures
        a as u8 != b as u8,
{
}

/// Every byte that encodes a character outside ASCII is at least 0x80.
proof fn lemma_encode_wide(c: char)
    requires
        (c as u32) >= 0x80,
    ensures
        forall|i: int| 0 <= i < encode_scalar(c as u32).len() ==> #[trigger] encode_scalar(c as u32)[i] >= 0x80,
{
    let v: u32 = c as u32;
    char_is_scalar(c);
    assert(0xC0u8 | ((v >> 6) & 0x1F) as u8 >= 0x80u8) by (bit_vector);
    assert(0xE0u8 | ((v >> 12) & 0x0F) as u8 >= 0x80u8) by (bit_vector);
    assert(0xF0u8 | ((v >> 18) & 0x7) as u8 >= 0x80u8) by (bit_vector);
    assert(0x80u8 | (v & 0x3F) as u8 >= 0x80u8) by (bit_vector);
    assert(0x80u8 | ((v >> 6) & 0x3F) as u8 >= 0x80u8) by (bit_vector);
    assert(0x80u8 | ((v >> 12) & 0x3F) as u8 >= 0x80u8) by (bit_vector);
}

/// In an encoding, the first byte equal to an ASCII character stands where the first such
/// character stands in the text.
pub proof fn lemma_first_ascii(s: Seq<char>, c: char, j: int) -> (i: int)
    requires
        (c as u32) < 0x80,
        first_at(encode_utf8(s), seq![c as u8], j),
    ensures
        first_at(s, seq![c], i),
        encode_utf8(s.take(i)) == encode_utf8(s).take(j),
        encode_utf8(s.skip(i + 1)) == encode_utf8(s).skip(j + 1),
    decreases s.len(),
{
    let bytes = encode_utf8(s);
    let target = seq![c as u8];
    assert(bytes.subrange(j, j + 1)[0] == bytes[j]);
    assert(bytes[j] == c as u8);
    assert(s.len() > 0);
    let head = encode_scalar(s[0] as u32);
    let rest = s.drop_first();
    assert(bytes =~= head + encode_utf8(rest));
    assert(s =~= seq![s[0]] + rest);
    if s[0] == c {
        lemma_encode_ascii(c);
        if j > 0 {
            assert(bytes.subrange(0, 1) =~= target);
            assert(occurs_at(bytes, target, 0));
        }
        assert(s.subrange(0, 1) =~= seq![c]);
        assert(s.take(0) =~= Seq::<char>::empty());
        assert(bytes.take(0) =~= Seq::<u8>::empty());
        assert(s.skip(1) =~= rest);
        assert(bytes.skip(1) =~= encode_utf8(rest));
        0
    } else {
        if (s[0] as u32) < 0x80 {
            lemma_encode_ascii(s[0]);
            lemma_ascii_distinct(s[0], c);
        } else {
            lemma_encode_wide(s[0]);
        }
        assert(head.len() > 0);
        assert(forall|k: int| 0 <= k < head.len() ==> #[trigger] head[k] != c as u8);
        assert(j >= head.len()) by {
            if j < head.len() {
                assert(bytes[j] == head[j]);
            }
        }
        let tail = encode_utf8(rest);
        let jj = j - head.len();
        assert(tail.subrange(jj, jj + 1) =~= bytes.subrange(j, j + 1));
        assert forall|k: int| 0 <= k < jj implies !#[trigger] occurs_at(tail, target, k) by {
            if occurs_at(tail, target, k) {
                assert(bytes.subrange(k + head.len(), k + head.len() + 1) =~= tail.subrange(k, k + 1));
                assert(occurs_at(bytes, target, k + head.len()));
            }
        }
        let i = lemma_first_ascii(rest, c, jj);
        assert(rest.subrange(i, i + 1)[0] == rest[i]);
        assert(s.subrange(i + 1, i + 2) =~= seq![c]);
        assert forall|k: int| 0 <= k < i + 1 implies !#[trigger] occurs_at(s, seq![c], k) by {
            if occurs_at(s, seq![c], k) {
                assert(s.subrange(k, k + 1)[0] == s[k]);
                assert(s[k] == c);
                assert(k > 0);
                assert(rest.subrange(k - 1, k) =~= seq![c]);
                assert(occurs_at(rest, seq![c], k - 1));
            }
        }
        assert(s.take(i + 1).drop_first() =~= rest.take(i));
        assert(s.take(i + 1)[0] == s[0]);
        assert(encode_utf8(s.take(i + 1)) == head + encode_utf8(rest.take(i)));
        assert(head + tail.take(jj) =~= bytes.take(j));
        assert(s.skip(i + 2) =~= rest.skip(i + 1));
        assert(tail.skip(jj + 1) =~= bytes.skip(j + 1));
        i + 1
    }
}

/// A text without an ASCII character has an encoding without its byte.
pub proof fn lemma_no_ascii(s: Seq<char>, c: char)
    requires
        (c as u32) < 0x80,
    ensures
        index_of(s, seq![c]) is None <==> index_of(encode_utf8(s), seq![c as u8]) is None,
    decreases s.len(),
{
    lemma_index_of(encode_utf8(s), seq![c as u8]);
    lemma_index_of(s, seq![c]);
    if let Some(j) = index_of(encode_utf8(s), seq![c as u8]) {
        let i = lemma_first_ascii(s, c, j);
        assert(occurs_at(s, seq![c], i));
    } else if let Some(i) = index_of(s, seq![c]) {
        assert(s.subrange(i, i + 1)[0] == s[i]);
        assert(s[i] == c);
        let before = s.take(i);
        assert(s =~= before + (seq![c] + s.skip(i + 1)));
        lemma_encode_concat(before, seq![c] + s.skip(i + 1));
        lemma_encode_concat(seq![c], s.skip(i + 1));
        lemma_encode_ascii(c);
        let k = encode_utf8(before).len() as int;
        assert(encode_utf8(s).subrange(k, k + 1) =~= seq![c as u8]);
        assert(occurs_at(encode_utf8(s), seq![c as u8], k));
    }
}

/// Whether two texts are the same.
pub fn str_eq(a: &str, b: &str) -> (same: bool)
    ensures
        same == (a@ == b@),
{
    let x = a.as_bytes();
    let y = b.as_bytes();
    let n: usize = x.len();
    if n != y.len() {
        return false;
    }
    let mut i: usize = 0;
    while i < n
        invariant
            n == x@.len(),
            n == y@.len(),
            x@ == encode_utf8(a@),
            y@ == encode_utf8(b@),
            i <= n,
            forall|j: int| 0 <= j < i ==> x@[j] == #[trigger] y@[j],
        decreases n - i,
    {
        if x[i] != y[i] {
            return false;
        }
        i += 1;
    }
    assert(x@ =~= y@);
    proof {
        lemma_encode_injective(a@, b@);
    }
    true
}

/// The text before the first space, and the text after it where there is a space.
pub open spec fn split_space(s: Seq<char>) -> (Seq<char>, Option<Seq<char>>) {
    match index_of(s, seq![' ']) {
        Some(i) => (s.take(i), Some(s.skip(i + 1))),
        None => (s, None),
    }
}

/// Splits a text at its first space.
pub fn split_at_space(s: &str) -> (parts: (&str, Option<&str>))
    ensures
        parts.0@ == split_space(s@).0,
        match parts.1 {
            Some(rest) => split_space(s@).1 == Some(rest@),
            None => split_space(s@).1 is None,
        },
{
    let bytes = s.as_bytes();
    let space: [u8; 1] = [' ' as u8];
    let ghost c: char = ' ';
    assert(space@ =~= seq![c as u8]);
    match find_in_u8_slice(bytes, &space) {
        None => {
            proof {
                lemma_no_ascii(s@, ' ');
            }
            (s, None)
        },
        Some(j) => {
            let ghost i = lemma_first_ascii(s@, ' ', j as int);
            proof {
                lemma_index_is(s@, seq![' '], i);
                encode_utf8_valid_utf8(s@);
                assert(bytes@.subrange(j as int, j + 1)[0] == bytes@[j as int]);
                is_char_boundary_iff_not_is_continuation_byte(bytes@, j as int);
            }
            let (first, tail) = s.split_at(j);
            let ghost rest_bytes = encode_utf8(tail@);
            proof {
                assert(rest_bytes =~= bytes@.skip(j as int));
                lemma_encode_injective(first@, s@.take(i));
                lemma_encode_concat(seq![' '], s@.skip(i + 1));
                lemma_encode_ascii(' ');
                assert(rest_bytes =~= seq![c as u8] + bytes@.skip(j + 1));
                lemma_encode_injective(tail@, seq![' '] + s@.skip(i + 1));
                encode_utf8_valid_utf8(tail@);
                reveal_with_fuel(is_char_boundary, 2);
                assert(is_char_boundary(rest_bytes, 1));
            }
            let (_, rest) = tail.split_at(1);
            proof {
                assert(encode_utf8(rest@) =~= encode_utf8(s@.skip(i + 1)));
                lemma_encode_injective(rest@, s@.skip(i + 1));
            }
            (first, Some(rest))
        },
    }
}

/// The characters with the Unicode property `White_Space`.
pub open spec fn is_white_space(c: char) -> bool {
    ||| '\u{9}' <= c <= '\u{d}'
    ||| c == ' '
    ||| c == '\u{85}'
    ||| c == '\u{a0}'
    ||| c == '\u{1680}'
    ||| '\u{2000}' <= c <= '\u{200a}'
    ||| c == '\u{2028}'
    ||| c == '\u{2029}'
    ||| c == '\u{202f}'
    ||| c == '\u{205f}'
    ||| c == '\u{3000}'
}

/// A text without its leading white space.
pub open spec fn trimmed(s: Seq<char>) -> Seq<char>
    decreases s.len(),
{
    if s.len() > 0 && is_white_space(s[0]) {
        trimmed(s.drop_first())
    } else {
        s
    }
}

/// Whether a character is white space.
fn white_space(c: char) -> (yes: bool)
    ensures
        yes == is_white_space(c),
{
    ('\u{9}' <= c && c <= '\u{d}') || c == ' ' || c == '\u{85}' || c == '\u{a0}' || c == '\u{1680}' || (
    '\u{2000}' <= c && c <= '\u{200a}') || c == '\u{2028}' || c == '\u{2029}' || c == '\u{202f}' || c
        == '\u{205f}' || c == '\u{3000}'
}

/// Drops the leading white space of a text.
pub fn trim_start(s: &str) -> (rest: &str)
    ensures
        rest@ == trimmed(s@),
{
    let n: usize = s.unicode_len();
    let mut chars = s.chars();
    let mut k: usize = 0;
    assert(s@.skip(0) =~= s@);
    while k < n
        invariant
            n == s@.len(),
            k <= n,
            vstd::std_specs::iter::IteratorSpec::obeys_prophetic_iter_laws(&chars),
            vstd::std_specs::iter::IteratorSpec::remaining(&chars) == s@.skip(k as int),
            trimmed(s@.skip(k as int)) == trimmed(s@),
        decreases n - k,
    {
        match chars.next() {
            Some(c) => {
                assert(c == s@[k as int]);
                if !white_space(c) {
                    return s.substring_char(k, n);
                }
                assert(s@.skip(k as int).drop_first() =~= s@.skip(k + 1));
                k += 1;
            },
            None => {
                return s.substring_char(k, n);
            },
        }
    }
    s.substring_char(k, n)
}

} // verus!
