//! The textual escapes: a byte as `\xhh` or `\dnnn`, a character as `\u{...}`
//! or as the escapes of its UTF-8 bytes.
use vstd::prelude::*;
use vstd::utf8::{char_is_scalar, encode_scalar};

verus! {

/// `\\`
pub const BACKSLASH: u8 = 0x5c;
/// `0`
pub const DIGIT_ZERO: u8 = 0x30;
/// `a`
pub const LOWER_A: u8 = 0x61;
/// `d`
pub const LOWER_D: u8 = 0x64;
/// `x`
pub const LOWER_X: u8 = 0x78;
/// `u`
pub const LOWER_U: u8 = 0x75;
/// `{`
pub const OPEN_BRACE: u8 = 0x7b;
/// `}`
pub const CLOSE_BRACE: u8 = 0x7d;

/// The options that decide how each character is written.
pub struct Formatter {
    /// Escape a character by its UTF-8 bytes instead of its code point.
    pub as_bytes: bool,
    /// Escape every character, with no special cases.
    pub all_as_hex: bool,
    /// Write numbers in decimal instead of hexadecimal.
    pub hex_as_decimal: bool,
    /// Write a newline as the two characters `\n`.
    pub newline_escaped: bool,
    /// Write a newline as a numeric escape.
    pub newline_as_hex: bool,
    /// Write a carriage return as a numeric escape instead of `\r`.
    pub carriage_return_as_hex: bool,
    /// Write a tab as a numeric escape instead of `\t`.
    pub tab_as_hex: bool,
    /// Write a space as a small circle.
    pub space_as_circle: bool,
    /// Write a space as a numeric escape.
    pub space_as_hex: bool,
}

/// The lowercase hexadecimal digit for `d < 16`.
pub open spec fn hex_digit(d: nat) -> u8 {
    if d < 10 {
        (DIGIT_ZERO + d) as u8
    } else {
        (LOWER_A + (d - 10)) as u8
    }
}

/// `n` in hexadecimal, lowercase, without leading zeros.
pub open spec fn hex_text(n: nat) -> Seq<u8>
    decreases n,
{
    if n < 16 {
        seq![hex_digit(n)]
    } else {
        hex_text(n / 16) + seq![hex_digit(n % 16)]
    }
}

/// `n` in decimal, without leading zeros.
pub open spec fn decimal_text(n: nat) -> Seq<u8>
    decreases n,
{
    if n < 10 {
        seq![(DIGIT_ZERO + n) as u8]
    } else {
        decimal_text(n / 10) + seq![(DIGIT_ZERO + n % 10) as u8]
    }
}

/// The escape of one byte: `\d` and three decimal digits, or `\x` and two
/// lowercase hexadecimal digits.
pub open spec fn byte_escape(decimal: bool, b: u8) -> Seq<u8> {
    if decimal {
        seq![BACKSLASH, LOWER_D, (DIGIT_ZERO + b / 100) as u8, (DIGIT_ZERO + b / 10 % 10) as u8, (DIGIT_ZERO + b % 10) as u8]
    } else {
        seq![BACKSLASH, LOWER_X, hex_digit((b / 16) as nat), hex_digit((b % 16) as nat)]
    }
}

/// The escapes of each byte of `s`, in order.
pub open spec fn bytes_escape(decimal: bool, s: Seq<u8>) -> Seq<u8>
    decreases s.len(),
{
    if s.len() == 0 {
        seq![]
    } else {
        bytes_escape(decimal, s.drop_last()) + byte_escape(decimal, s.last())
    }
}

/// `\u{`, the given digits, `}`.
pub open spec fn braced(digits: Seq<u8>) -> Seq<u8> {
    seq![BACKSLASH, LOWER_U, OPEN_BRACE] + digits + seq![CLOSE_BRACE]
}

/// The escape of a character: its UTF-8 bytes escaped one by one, or its code
/// point in decimal or hexadecimal between `\u{` and `}`.
pub open spec fn char_escape(f: Formatter, c: char) -> Seq<u8> {
    if f.as_bytes {
        bytes_escape(f.hex_as_decimal, encode_scalar(c as u32))
    } else if f.hex_as_decimal {
        braced(decimal_text(c as u32 as nat))
    } else {
        braced(hex_text(c as u32 as nat))
    }
}

fn hex_digit_byte(d: u8) -> (r: u8)
    requires
        d < 16,
    ensures
        r == hex_digit(d as nat),
{
    if d < 10 {
        DIGIT_ZERO + d
    } else {
        LOWER_A + (d - 10)
    }
}

/// Appends `n` in hexadecimal.
fn push_hex(out: &mut Vec<u8>, n: u32)
    ensures
        final(out)@ == old(out)@ + hex_text(n as nat),
    decreases n,
{
    if n >= 16 {
        push_hex(out, n / 16);
    }
    out.push(hex_digit_byte((n % 16) as u8));
    assert(out@ =~= old(out)@ + hex_text(n as nat));
}

/// Appends `n` in decimal.
fn push_decimal(out: &mut Vec<u8>, n: u32)
    ensures
        final(out)@ == old(out)@ + decimal_text(n as nat),
    decreases n,
{
    if n >= 10 {
        push_decimal(out, n / 10);
    }
    out.push(DIGIT_ZERO + (n % 10) as u8);
    assert(out@ =~= old(out)@ + decimal_text(n as nat));
}

/// Appends the UTF-8 encoding of `c`.
pub fn push_utf8(out: &mut Vec<u8>, c: char)
    ensures
        final(out)@ == old(out)@ + encode_scalar(c as u32),
{
    let v = c as u32;
    proof {
        char_is_scalar(c);
    }
    if v <= 0x7f {
        out.push((v & 0x7f) as u8);
    } else if v <= 0x7ff {
        out.push(0xc0 | ((v >> 6) & 0x1f) as u8);
        out.push(0x80 | (v & 0x3f) as u8);
    } else if v <= 0xffff {
        out.push(0xe0 | ((v >> 12) & 0x0f) as u8);
        out.push(0x80 | ((v >> 6) & 0x3f) as u8);
        out.push(0x80 | (v & 0x3f) as u8);
    } else {
        out.push(0xf0 | ((v >> 18) & 0x7) as u8);
        out.push(0x80 | ((v >> 12) & 0x3f) as u8);
        out.push(0x80 | ((v >> 6) & 0x3f) as u8);
        out.push(0x80 | (v & 0x3f) as u8);
    }
    assert(out@ =~= old(out)@ + encode_scalar(v));
}

impl Formatter {
    /// At most one of each pair of competing options is on: a newline is
    /// either escaped as `\n` or numeric, a space either a circle or numeric.
    pub open spec fn well_formed(&self) -> bool {
        &&& !(self.newline_escaped && self.newline_as_hex)
        &&& !(self.space_as_circle && self.space_as_hex)
    }

    /// Builds the options from the requested flags. Where both ways of
    /// writing a newline are asked for, `\n` wins; where both ways of writing
    /// a space are, the circle wins.
    pub fn new(
        as_bytes: bool,
        all_as_hex: bool,
        hex_as_decimal: bool,
        newline_escaped: bool,
        newline_hex: bool,
        carriage_return_as_hex: bool,
        tab_as_hex: bool,
        space_as_circle: bool,
        space_hex: bool,
    ) -> (r: Formatter)
        ensures
            r.well_formed(),
            r == (Formatter {
                as_bytes,
                all_as_hex,
                hex_as_decimal,
                newline_escaped,
                newline_as_hex: newline_hex && !newline_escaped,
                carriage_return_as_hex,
                tab_as_hex,
                space_as_circle,
                space_as_hex: space_hex && !space_as_circle,
            }),
    {
        Formatter {
            as_bytes,
            all_as_hex,
            hex_as_decimal,
            newline_escaped,
            newline_as_hex: newline_hex && !newline_escaped,
            carriage_return_as_hex,
            tab_as_hex,
            space_as_circle,
            space_as_hex: space_hex && !space_as_circle,
        }
    }

    /// Appends the escape of one byte.
    pub fn write_byte(&self, out: &mut Vec<u8>, byte: u8)
        ensures
            final(out)@ == old(out)@ + byte_escape(self.hex_as_decimal, byte),
    {
        out.push(BACKSLASH);
        if self.hex_as_decimal {
            out.push(LOWER_D);
            out.push(DIGIT_ZERO + byte / 100);
            out.push(DIGIT_ZERO + byte / 10 % 10);
            out.push(DIGIT_ZERO + byte % 10);
        } else {
            out.push(LOWER_X);
            out.push(hex_digit_byte(byte / 16));
            out.push(hex_digit_byte(byte % 16));
        }
        assert(out@ =~= old(out)@ + byte_escape(self.hex_as_decimal, byte));
    }

    /// Appends the escapes of each byte of `bytes`, in order.
    pub fn write_bytes(&self, out: &mut Vec<u8>, bytes: &[u8])
        ensures
            final(out)@ == old(out)@ + bytes_escape(self.hex_as_decimal, bytes@),
    {
        let mut i: usize = 0;
        while i < bytes.len()
            invariant
                i <= bytes@.len(),
                out@ == old(out)@ + bytes_escape(self.hex_as_decimal, bytes@.take(i as int)),
            decreases bytes@.len() - i,
        {
            self.write_byte(out, bytes[i]);
            assert(bytes@.take(i + 1).drop_last() =~= bytes@.take(i as int));
            i += 1;
            assert(out@ =~= old(out)@ + bytes_escape(self.hex_as_decimal, bytes@.take(i as int)));
        }
        assert(bytes@.take(i as int) =~= bytes@);
    }

    /// Appends the escape of one character.
    pub fn write_char(&self, out: &mut Vec<u8>, c: char)
        ensures
            final(out)@ == old(out)@ + char_escape(*self, c),
    {
        if self.as_bytes {
            let mut encoded: Vec<u8> = Vec::new();
            push_utf8(&mut encoded, c);
            assert(encoded@ =~= encode_scalar(c as u32));
            self.write_bytes(out, encoded.as_slice());
        } else {
            out.push(BACKSLASH);
            out.push(LOWER_U);
            out.push(OPEN_BRACE);
            if self.hex_as_decimal {
                push_decimal(out, c as u32);
            } else {
                push_hex(out, c as u32);
            }
            out.push(CLOSE_BRACE);
            assert(out@ =~= old(out)@ + char_escape(*self, c));
        }
    }
}

} // verus!
