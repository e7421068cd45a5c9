//! Processing one chunk of input, with the byte-wise fast path, and the
//! decision on a closing line break.
use crate::classify::{char_output, escaped};
use crate::escape::{byte_escape, bytes_escape, char_escape, Formatter};
use crate::fonts::FontProgram;
use vstd::prelude::*;
use vstd::utf8::{
    decode_first_scalar, decode_utf8_first_scalar, encode_scalar, length_of_first_scalar,
    valid_first_scalar, valid_utf8,
};

verus! {

impl Formatter {
    /// Whether every byte is escaped on its own, whatever the characters.
    pub open spec fn bytes_only(&self) -> bool {
        self.all_as_hex && self.as_bytes
    }

    /// Appends the output for one chunk of input. Where every byte is escaped
    /// on its own, the chunk is not decoded at all.
    pub fn process(&self, fonts: &[FontProgram], buffer: &[u8], out: &mut Vec<u8>)
        ensures
            final(out)@ == old(out)@ + escaped(*self, fonts@, buffer@),
    {
        if self.all_as_hex && self.as_bytes {
            self.write_bytes(out, buffer);
            proof {
                lemma_bytes_only_output(*self, fonts@, buffer@);
            }
        } else {
            self.process_str(fonts, buffer, out);
        }
    }

    /// Whether a line break goes after all the output, so that a terminal's
    /// prompt does not follow it on the same line: only on a terminal, and
    /// only where the output may not end with a line break of its own.
    pub fn needs_final_newline(&self, output_is_terminal: bool) -> (r: bool)
        ensures
            r == (output_is_terminal && (self.all_as_hex || self.newline_escaped
                || self.newline_as_hex)),
    {
        output_is_terminal && (self.all_as_hex || self.newline_escaped || self.newline_as_hex)
    }
}

/// Escaping the bytes of `a + b` is escaping those of `a`, then those of `b`.
pub proof fn lemma_bytes_escape_concat(decimal: bool, a: Seq<u8>, b: Seq<u8>)
    ensures
        bytes_escape(decimal, a + b) == bytes_escape(decimal, a) + bytes_escape(decimal, b),
    decreases b.len(),
{
    if b.len() == 0 {
        assert(a + b =~= a);
        assert(bytes_escape(decimal, a) + bytes_escape(decimal, b) =~= bytes_escape(decimal, a));
    } else {
        assert((a + b).drop_last() =~= a + b.drop_last());
        lemma_bytes_escape_concat(decimal, a, b.drop_last());
        assert(bytes_escape(decimal, a + b) =~= bytes_escape(decimal, a) + bytes_escape(decimal, b));
    }
}

/// The first scalar of `s`, encoded again, gives the bytes it was decoded from.
pub proof fn lemma_first_scalar_encoding(s: Seq<u8>)
    requires
        valid_first_scalar(s),
    ensures
        encode_scalar((decode_first_scalar(s) as char) as u32) == s.subrange(
            0,
            length_of_first_scalar(s),
        ),
{
    let n = length_of_first_scalar(s);
    let t = s.subrange(0, n);
    assert(forall|i: int| 0 <= i < n ==> t[i] == s[i]);
    assert(valid_first_scalar(t));
    assert(decode_first_scalar(t) == decode_first_scalar(s));
    assert(length_of_first_scalar(t) == n);
    assert(t.subrange(n, t.len() as int) =~= Seq::<u8>::empty());
    reveal_with_fuel(valid_utf8, 2);
    assert(valid_utf8(t));
    decode_utf8_first_scalar(t);
    assert(t.subrange(0, n) =~= t);
}

/// Where every byte is escaped on its own, decoding the input changes
/// nothing: the output is the escape of each input byte, in order.
pub proof fn lemma_bytes_only_output(f: Formatter, fonts: Seq<FontProgram>, s: Seq<u8>)
    requires
        f.bytes_only(),
    ensures
        escaped(f, fonts, s) == bytes_escape(f.hex_as_decimal, s),
    decreases s.len(),
{
    if s.len() == 0 {
    } else if valid_first_scalar(s) {
        let n = length_of_first_scalar(s);
        assert(1 <= n <= s.len());
        let rest = s.subrange(n, s.len() as int);
        let c = decode_first_scalar(s) as char;
        lemma_first_scalar_encoding(s);
        assert(char_output(f, fonts, c) == char_escape(f, c));
        assert(char_escape(f, c) == bytes_escape(f.hex_as_decimal, s.subrange(0, n)));
        lemma_bytes_only_output(f, fonts, rest);
        lemma_bytes_escape_concat(f.hex_as_decimal, s.subrange(0, n), rest);
        assert(s.subrange(0, n) + rest =~= s);
        assert(escaped(f, fonts, s) == char_output(f, fonts, c) + escaped(f, fonts, rest));
    } else {
        let rest = s.subrange(1, s.len() as int);
        lemma_bytes_only_output(f, fonts, rest);
        lemma_bytes_escape_concat(f.hex_as_decimal, seq![s[0]], rest);
        assert(seq![s[0]] + rest =~= s);
        assert(seq![s[0]].drop_last() =~= Seq::<u8>::empty());
        assert(bytes_escape(f.hex_as_decimal, Seq::<u8>::empty()) == Seq::<u8>::empty());
        assert(bytes_escape(f.hex_as_decimal, seq![s[0]]) =~= byte_escape(f.hex_as_decimal, s[0]));
        assert(escaped(f, fonts, s) == byte_escape(f.hex_as_decimal, s[0]) + escaped(f, fonts, rest));
    }
}

} // verus!
