//! Splitting a byte buffer into spans that each hold one character or a run
//! of bytes that is not UTF-8.
use bstr::ByteSlice;
use vstd::prelude::*;
use vstd::utf8::{
    char_u32_cast, decode_first_scalar, encode_scalar, encode_utf8, encode_utf8_first_scalar,
    length_of_first_scalar, valid_first_scalar,
};

verus! {

/// Whether a UTF-8 encoded scalar starts at position `k` of `s`.
pub open spec fn scalar_at(s: Seq<u8>, k: int) -> bool {
    valid_first_scalar(s.subrange(k, s.len() as int))
}

/// One span `(start, end, c)` of `s`: either the bytes are exactly the UTF-8
/// encoding of `c`, or no UTF-8 scalar starts at any of them.
pub open spec fn span_ok(s: Seq<u8>, span: (usize, usize, char)) -> bool {
    let (start, end, c) = span;
    ||| s.subrange(start as int, end as int) == encode_scalar(c as u32)
    ||| forall|k: int| start <= k < end ==> !#[trigger] scalar_at(s, k)
}

/// The spans are non-empty, follow each other without gap or overlap, and
/// cover `s` from its first byte to its last.
pub open spec fn spans_cover(s: Seq<u8>, spans: Seq<(usize, usize, char)>) -> bool {
    &&& spans.len() == 0 ==> s.len() == 0
    &&& spans.len() > 0 ==> spans[0].0 == 0 && spans.last().1 == s.len()
    &&& forall|i: int| 0 <= i < spans.len() ==> #[trigger] spans[i].0 < spans[i].1 <= s.len()
    &&& forall|i: int| 0 <= i < spans.len() - 1 ==> #[trigger] spans[i].1 == spans[i + 1].0
    &&& forall|i: int| 0 <= i < spans.len() ==> span_ok(s, #[trigger] spans[i])
}

/// Relies on bstr's `ByteSlice::char_indices`: it walks the buffer from the
/// front, yielding each UTF-8 encoded character with its exact span, and
/// in place of invalid input the U+FFFD replacement character over a maximal
/// prefix of a UTF-8 sequence (a byte that starts no valid sequence, and the
/// continuation bytes after it).
#[verifier::external_body]
pub(crate) fn char_spans(buffer: &[u8]) -> (r: Vec<(usize, usize, char)>)
    ensures
        spans_cover(buffer@, r@),
{
    buffer.char_indices().collect()
}

/// Where `s` begins with the UTF-8 encoding of `c`, `c` is the first scalar
/// of `s`.
pub proof fn lemma_first_scalar_of_prefix(s: Seq<u8>, c: char)
    requires
        encode_scalar(c as u32).len() <= s.len(),
        s.subrange(0, encode_scalar(c as u32).len() as int) == encode_scalar(c as u32),
    ensures
        valid_first_scalar(s),
        decode_first_scalar(s) as char == c,
        length_of_first_scalar(s) == encode_scalar(c as u32).len(),
{
    let e = encode_utf8(seq![c]);
    encode_utf8_first_scalar(seq![c]);
    assert(e == encode_scalar(c as u32) + encode_utf8(seq![c].drop_first()));
    assert(e =~= encode_scalar(c as u32));
    let n = e.len() as int;
    assert(forall|i: int| 0 <= i < n ==> s[i] == e[i]) by {
        assert forall|i: int| 0 <= i < n implies s[i] == e[i] by {
            assert(s.subrange(0, n)[i] == s[i]);
        }
    }
    assert(1 <= n <= 4);
    char_u32_cast(c, decode_first_scalar(s));
}

} // verus!
