//! The decision, for each character of the input, between passing it through,
//! a named escape such as `\n`, and a numeric escape; and the whole-buffer
//! processing built on it.
use crate::decode::{char_spans, lemma_first_scalar_of_prefix, scalar_at, span_ok, spans_cover};
use crate::escape::{byte_escape, char_escape, push_utf8, Formatter, BACKSLASH};
use crate::fonts::{glyph_in_fonts, is_char_in_fonts, FontProgram};
use vstd::prelude::*;
use vstd::utf8::{decode_first_scalar, encode_scalar, length_of_first_scalar, valid_first_scalar};

verus! {

/// `n`
pub const LOWER_N: u8 = 0x6e;
/// `r`
pub const LOWER_R: u8 = 0x72;
/// `t`
pub const LOWER_T: u8 = 0x74;
/// The line feed byte.
pub const LINE_FEED: u8 = 0x0a;
/// What a space becomes when spaces are shown as circles.
pub const SPACE_CIRCLE: char = '\u{1f784}';

/// An ASCII control character: below U+0020, or U+007F.
pub open spec fn is_ascii_control(c: char) -> bool {
    (c as u32) < 0x20 || c as u32 == 0x7f
}

/// A character with the Unicode White_Space property.
pub open spec fn is_white_space(c: char) -> bool {
    let v = c as u32;
    ||| 0x09 <= v <= 0x0d
    ||| v == 0x20
    ||| v == 0x85
    ||| v == 0xa0
    ||| v == 0x1680
    ||| 0x2000 <= v <= 0x200a
    ||| v == 0x2028
    ||| v == 0x2029
    ||| v == 0x202f
    ||| v == 0x205f
    ||| v == 0x3000
}

/// Whether a character that no named rule took is escaped: a control
/// character, white space other than a plain space, a space where spaces are
/// escaped, or a non-ASCII character that none of the fonts has a glyph for.
pub open spec fn needs_escape(f: Formatter, fonts: Seq<FontProgram>, c: char) -> bool {
    ||| is_ascii_control(c)
    ||| (c != ' ' && is_white_space(c))
    ||| (c == ' ' && f.space_as_hex)
    ||| ((c as u32) >= 0x80 && !glyph_in_fonts(fonts, c))
}

/// What one decoded character becomes; the first rule that applies wins.
pub open spec fn char_output(f: Formatter, fonts: Seq<FontProgram>, c: char) -> Seq<u8> {
    if f.all_as_hex {
        char_escape(f, c)
    } else if c == '\n' && f.newline_escaped {
        seq![BACKSLASH, LOWER_N]
    } else if c == '\n' && !f.newline_as_hex {
        seq![LINE_FEED]
    } else if c == '\r' && !f.carriage_return_as_hex {
        seq![BACKSLASH, LOWER_R]
    } else if c == '\t' && !f.tab_as_hex {
        seq![BACKSLASH, LOWER_T]
    } else if c == ' ' && f.space_as_circle {
        encode_scalar(SPACE_CIRCLE as u32)
    } else if needs_escape(f, fonts, c) {
        char_escape(f, c)
    } else {
        encode_scalar(c as u32)
    }
}

/// The output for a whole buffer: where a UTF-8 scalar starts, the output of
/// that character; elsewhere the escape of the single byte.
pub open spec fn escaped(f: Formatter, fonts: Seq<FontProgram>, s: Seq<u8>) -> Seq<u8>
    decreases s.len(),
{
    if s.len() == 0 {
        seq![]
    } else if valid_first_scalar(s) {
        char_output(f, fonts, decode_first_scalar(s) as char) + escaped(
            f,
            fonts,
            s.subrange(length_of_first_scalar(s), s.len() as int),
        )
    } else {
        byte_escape(f.hex_as_decimal, s[0]) + escaped(f, fonts, s.subrange(1, s.len() as int))
    }
}

/// Where span `i` starts; the end of the buffer once the spans run out.
pub open spec fn span_start(s: Seq<u8>, spans: Seq<(usize, usize, char)>, i: int) -> int {
    if i < spans.len() {
        spans[i].0 as int
    } else {
        s.len() as int
    }
}

fn is_ascii_control_char(c: char) -> (r: bool)
    ensures
        r == is_ascii_control(c),
{
    (c as u32) < 0x20 || c as u32 == 0x7f
}

fn is_white_space_char(c: char) -> (r: bool)
    ensures
        r == is_white_space(c),
{
    let v = c as u32;
    (0x09 <= v && v <= 0x0d) || v == 0x20 || v == 0x85 || v == 0xa0 || v == 0x1680 || (0x2000 <= v
        && v <= 0x200a) || v == 0x2028 || v == 0x2029 || v == 0x202f || v == 0x205f || v == 0x3000
}

/// Whether `bytes[start..end]` equals `other`.
fn same_bytes(bytes: &[u8], start: usize, end: usize, other: &Vec<u8>) -> (r: bool)
    requires
        start <= end <= bytes@.len(),
    ensures
        r == (bytes@.subrange(start as int, end as int) == other@),
{
    if end - start != other.len() {
        return false;
    }
    let mut i: usize = 0;
    while i < other.len()
        invariant
            end - start == other@.len(),
            start <= end <= bytes@.len(),
            i <= other@.len(),
            forall|j: int| 0 <= j < i ==> bytes@[start + j] == other@[j],
        decreases other@.len() - i,
    {
        if bytes[start + i] != other[i] {
            assert(bytes@.subrange(start as int, end as int)[i as int] != other@[i as int]);
            return false;
        }
        i += 1;
    }
    assert(bytes@.subrange(start as int, end as int) =~= other@);
    true
}

impl Formatter {
    /// Appends what one decoded character becomes.
    pub fn write_decoded_char(&self, fonts: &[FontProgram], c: char, out: &mut Vec<u8>)
        ensures
            final(out)@ == old(out)@ + char_output(*self, fonts@, c),
    {
        if self.all_as_hex {
            self.write_char(out, c);
        } else if c == '\n' && self.newline_escaped {
            out.push(BACKSLASH);
            out.push(LOWER_N);
        } else if c == '\n' && !self.newline_as_hex {
            out.push(LINE_FEED);
        } else if c == '\r' && !self.carriage_return_as_hex {
            out.push(BACKSLASH);
            out.push(LOWER_R);
        } else if c == '\t' && !self.tab_as_hex {
            out.push(BACKSLASH);
            out.push(LOWER_T);
        } else if c == ' ' && self.space_as_circle {
            push_utf8(out, SPACE_CIRCLE);
        } else if is_ascii_control_char(c) || (c != ' ' && is_white_space_char(c)) || (c == ' '
            && self.space_as_hex) || ((c as u32) >= 0x80 && !is_char_in_fonts(fonts, c)) {
            self.write_char(out, c);
        } else {
            push_utf8(out, c);
        }
        assert(out@ =~= old(out)@ + char_output(*self, fonts@, c));
    }

    /// Appends the output for the span `buffer[start..end]` that decoded to
    /// `c`: the character's output where the span is its exact UTF-8 encoding,
    /// else the escape of each byte.
    fn write_span(
        &self,
        fonts: &[FontProgram],
        buffer: &[u8],
        start: usize,
        end: usize,
        c: char,
        out: &mut Vec<u8>,
    )
        requires
            start <= end <= buffer@.len(),
            span_ok(buffer@, (start, end, c)),
        ensures
            final(out)@ + escaped(*self, fonts@, buffer@.subrange(end as int, buffer@.len() as int))
                == old(out)@ + escaped(
                *self,
                fonts@,
                buffer@.subrange(start as int, buffer@.len() as int),
            ),
    {
        let ghost s = buffer@;
        let mut encoded: Vec<u8> = Vec::new();
        push_utf8(&mut encoded, c);
        assert(encoded@ =~= encode_scalar(c as u32));
        if !same_bytes(buffer, start, end, &encoded) {
            let mut k: usize = start;
            while k < end
                invariant
                    start <= k <= end <= s.len(),
                    s == buffer@,
                    forall|j: int| start <= j < end ==> !#[trigger] scalar_at(s, j),
                    out@ + escaped(*self, fonts@, s.subrange(k as int, s.len() as int))
                        == old(out)@ + escaped(
                        *self,
                        fonts@,
                        s.subrange(start as int, s.len() as int),
                    ),
                decreases end - k,
            {
                proof {
                    lemma_escaped_at_byte(*self, fonts@, s, k as int);
                }
                self.write_byte(out, buffer[k]);
                k += 1;
            }
        } else {
            proof {
                lemma_escaped_at_char(*self, fonts@, s, start as int, end as int, c);
            }
            self.write_decoded_char(fonts, c, out);
        }
    }

    /// Appends the output for a whole buffer, going through it one character
    /// (or one invalid byte run) at a time.
    pub fn process_str(&self, fonts: &[FontProgram], buffer: &[u8], out: &mut Vec<u8>)
        ensures
            final(out)@ == old(out)@ + escaped(*self, fonts@, buffer@),
    {
        let ghost s = buffer@;
        let spans = char_spans(buffer);
        let mut i: usize = 0;
        assert(s.subrange(span_start(s, spans@, 0), s.len() as int) =~= s);
        while i < spans.len()
            invariant
                spans_cover(s, spans@),
                s == buffer@,
                i <= spans@.len(),
                out@ + escaped(
                    *self,
                    fonts@,
                    s.subrange(span_start(s, spans@, i as int), s.len() as int),
                ) == old(out)@ + escaped(*self, fonts@, s),
            decreases spans@.len() - i,
        {
            let (start, end, c) = spans[i];
            assert(span_ok(s, spans@[i as int]));
            assert(spans@[i as int].0 < spans@[i as int].1 <= s.len());
            assert(i + 1 < spans@.len() ==> spans@[i as int].1 == spans@[i + 1].0);
            self.write_span(fonts, buffer, start, end, c, out);
            i += 1;
        }
        assert(s.subrange(s.len() as int, s.len() as int) =~= Seq::<u8>::empty());
    }
}

/// Where no scalar starts at `k`, the output from `k` on is the escape of
/// byte `k` followed by the output from `k + 1` on.
proof fn lemma_escaped_at_byte(f: Formatter, fonts: Seq<FontProgram>, s: Seq<u8>, k: int)
    requires
        0 <= k < s.len(),
        !scalar_at(s, k),
    ensures
        escaped(f, fonts, s.subrange(k, s.len() as int)) == byte_escape(f.hex_as_decimal, s[k]) + escaped(
            f,
            fonts,
            s.subrange(k + 1, s.len() as int),
        ),
{
    let rest = s.subrange(k, s.len() as int);
    assert(rest.subrange(1, rest.len() as int) =~= s.subrange(k + 1, s.len() as int));
}

/// Where `s[start..end]` is the UTF-8 encoding of `c`, the output from
/// `start` on is the output of `c` followed by the output from `end` on.
proof fn lemma_escaped_at_char(
    f: Formatter,
    fonts: Seq<FontProgram>,
    s: Seq<u8>,
    start: int,
    end: int,
    c: char,
)
    requires
        0 <= start <= end <= s.len(),
        s.subrange(start, end) == encode_scalar(c as u32),
    ensures
        escaped(f, fonts, s.subrange(start, s.len() as int)) == char_output(f, fonts, c) + escaped(
            f,
            fonts,
            s.subrange(end, s.len() as int),
        ),
{
    let rest = s.subrange(start, s.len() as int);
    assert(rest.subrange(0, end - start) =~= s.subrange(start, end));
    lemma_first_scalar_of_prefix(rest, c);
    assert(rest.subrange(length_of_first_scalar(rest), rest.len() as int) =~= s.subrange(
        end,
        s.len() as int,
    ));
}

/// Two option sets that treat every character alike and write bytes alike
/// give the same output for every buffer.
proof fn lemma_same_char_output(f: Formatter, g: Formatter, fonts: Seq<FontProgram>, s: Seq<u8>)
    requires
        f.hex_as_decimal == g.hex_as_decimal,
        forall|c: char| char_output(f, fonts, c) == char_output(g, fonts, c),
    ensures
        escaped(f, fonts, s) == escaped(g, fonts, s),
    decreases s.len(),
{
    if s.len() == 0 {
    } else if valid_first_scalar(s) {
        lemma_same_char_output(f, g, fonts, s.subrange(length_of_first_scalar(s), s.len() as int));
    } else {
        lemma_same_char_output(f, g, fonts, s.subrange(1, s.len() as int));
    }
}

/// Asking for a newline both as `\n` and as a numeric escape gives, for
/// every buffer, the output of asking for `\n` alone.
pub proof fn lemma_newline_escaped_wins(f: Formatter, fonts: Seq<FontProgram>, s: Seq<u8>)
    requires
        f.newline_escaped,
    ensures
        escaped((Formatter { newline_as_hex: true, ..f }), fonts, s) == escaped(
            (Formatter { newline_as_hex: false, ..f }),
            fonts,
            s,
        ),
{
    let both = Formatter { newline_as_hex: true, ..f };
    let one = Formatter { newline_as_hex: false, ..f };
    assert forall|c: char| char_output(both, fonts, c) == char_output(one, fonts, c) by {}
    lemma_same_char_output(both, one, fonts, s);
}

/// Asking for a space both as a circle and as a numeric escape gives, for
/// every buffer, the output of asking for the circle alone.
pub proof fn lemma_space_circle_wins(f: Formatter, fonts: Seq<FontProgram>, s: Seq<u8>)
    requires
        f.space_as_circle,
    ensures
        escaped((Formatter { space_as_hex: true, ..f }), fonts, s) == escaped(
            (Formatter { space_as_hex: false, ..f }),
            fonts,
            s,
        ),
{
    let both = Formatter { space_as_hex: true, ..f };
    let one = Formatter { space_as_hex: false, ..f };
    assert forall|c: char| char_output(both, fonts, c) == char_output(one, fonts, c) by {}
    lemma_same_char_output(both, one, fonts, s);
}

} // verus!
