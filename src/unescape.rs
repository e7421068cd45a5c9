//! Reading escapes back: the inverse of the escaping, for input that holds no
//! backslash of its own and, where spaces become circles, no space.
use crate::classify::{char_output, escaped, needs_escape, LINE_FEED, LOWER_N, LOWER_R, LOWER_T};
use crate::driver::lemma_first_scalar_encoding;
use crate::escape::{
    braced, byte_escape, char_escape, bytes_escape, decimal_text, hex_digit, hex_text, Formatter, BACKSLASH,
    CLOSE_BRACE, DIGIT_ZERO, LOWER_A, LOWER_D, LOWER_U, LOWER_X, OPEN_BRACE,
};
use crate::fonts::FontProgram;
use vstd::prelude::*;
use vstd::utf8::{
    char_is_scalar, decode_first_scalar, encode_scalar, length_of_first_scalar, valid_first_scalar,
};

verus! {

/// The carriage return byte.
pub const CARRIAGE_RETURN: u8 = 0x0d;
/// The tab byte.
pub const TAB: u8 = 0x09;
/// The space byte.
pub const SPACE: u8 = 0x20;

/// A decimal digit, or where `hex` also a lowercase hexadecimal letter.
pub open spec fn is_digit(hex: bool, b: u8) -> bool {
    (DIGIT_ZERO <= b && b < DIGIT_ZERO + 10) || (hex && LOWER_A <= b && b < LOWER_A + 6)
}

/// The value of a digit.
pub open spec fn digit_value(b: u8) -> nat {
    if b < DIGIT_ZERO + 10 {
        (b - DIGIT_ZERO) as nat
    } else {
        (b - LOWER_A + 10) as nat
    }
}

/// The base in which digits are read.
pub open spec fn radix(hex: bool) -> nat {
    if hex {
        16
    } else {
        10
    }
}

/// The number that a run of digits writes.
pub open spec fn digits_value(hex: bool, d: Seq<u8>) -> nat
    decreases d.len(),
{
    if d.len() == 0 {
        0
    } else {
        digits_value(hex, d.drop_last()) * radix(hex) + digit_value(d.last())
    }
}

/// How many digits follow each other in `t` from position `i` on.
pub open spec fn digit_run(hex: bool, t: Seq<u8>, i: int) -> nat
    decreases t.len() - i,
{
    if 0 <= i < t.len() && is_digit(hex, t[i]) {
        1 + digit_run(hex, t, i + 1)
    } else {
        0
    }
}

/// The bytes that escaped text stands for, read from the front: `\xhh` and
/// `\dnnn` are bytes; `\n`, `\r`, `\t` a line feed, carriage return and tab;
/// `\u{...}` a character by its code point (decimal where `decimal`, else
/// hexadecimal); any other byte stands for itself.
pub open spec fn unescaped(decimal: bool, t: Seq<u8>) -> Seq<u8>
    decreases t.len(),
{
    if t.len() == 0 {
        seq![]
    } else if t[0] == BACKSLASH && t.len() >= 2 {
        let k = digit_run(!decimal, t, 3) as int;
        let v = digits_value(!decimal, t.subrange(3, 3 + k));
        if t[1] == LOWER_X && t.len() >= 4 && is_digit(true, t[2]) && is_digit(true, t[3]) {
            seq![(digit_value(t[2]) * 16 + digit_value(t[3])) as u8] + unescaped(
                decimal,
                t.subrange(4, t.len() as int),
            )
        } else if t[1] == LOWER_D && t.len() >= 5 && is_digit(false, t[2]) && is_digit(false, t[3])
            && is_digit(false, t[4]) && digit_value(t[2]) * 100 + digit_value(t[3]) * 10
            + digit_value(t[4]) < 256 {
            seq![(digit_value(t[2]) * 100 + digit_value(t[3]) * 10 + digit_value(t[4])) as u8]
                + unescaped(decimal, t.subrange(5, t.len() as int))
        } else if t[1] == LOWER_N {
            seq![LINE_FEED] + unescaped(decimal, t.subrange(2, t.len() as int))
        } else if t[1] == LOWER_R {
            seq![CARRIAGE_RETURN] + unescaped(decimal, t.subrange(2, t.len() as int))
        } else if t[1] == LOWER_T {
            seq![TAB] + unescaped(decimal, t.subrange(2, t.len() as int))
        } else if t[1] == LOWER_U && t.len() >= 3 && t[2] == OPEN_BRACE && k >= 1 && 3 + k < t.len()
            && t[3 + k] == CLOSE_BRACE && v <= 0x10ffff && !(0xd800 <= v <= 0xdfff) {
            encode_scalar(v as u32) + unescaped(decimal, t.subrange(4 + k, t.len() as int))
        } else {
            seq![t[0]] + unescaped(decimal, t.subrange(1, t.len() as int))
        }
    } else {
        seq![t[0]] + unescaped(decimal, t.subrange(1, t.len() as int))
    }
}

/// Bytes without a backslash stand for themselves.
proof fn lemma_unescaped_plain(decimal: bool, p: Seq<u8>, rest: Seq<u8>)
    requires
        forall|i: int| 0 <= i < p.len() ==> p[i] != BACKSLASH,
    ensures
        unescaped(decimal, p + rest) == p + unescaped(decimal, rest),
    decreases p.len(),
{
    if p.len() == 0 {
        assert(p + rest =~= rest);
        assert(p + unescaped(decimal, rest) =~= unescaped(decimal, rest));
    } else {
        let t = p + rest;
        assert(t[0] == p[0]);
        assert(t.subrange(1, t.len() as int) =~= p.subrange(1, p.len() as int) + rest);
        lemma_unescaped_plain(decimal, p.subrange(1, p.len() as int), rest);
        assert(seq![p[0]] + (p.subrange(1, p.len() as int) + unescaped(decimal, rest)) =~= p
            + unescaped(decimal, rest));
    }
}

/// The escape of a byte stands for that byte.
proof fn lemma_unescaped_byte(decimal: bool, b: u8, rest: Seq<u8>)
    ensures
        unescaped(decimal, byte_escape(decimal, b) + rest) == seq![b] + unescaped(decimal, rest),
{
    let t = byte_escape(decimal, b) + rest;
    if decimal {
        assert(t[0] == BACKSLASH && t[1] == LOWER_D);
        assert(t[2] == (DIGIT_ZERO + b / 100) as u8 && t[3] == (DIGIT_ZERO + b / 10 % 10) as u8
            && t[4] == (DIGIT_ZERO + b % 10) as u8);
        assert(digit_value(t[2]) * 100 + digit_value(t[3]) * 10 + digit_value(t[4]) == b);
        assert(t.subrange(5, t.len() as int) =~= rest);
    } else {
        assert(t[0] == BACKSLASH && t[1] == LOWER_X);
        assert(t[2] == hex_digit((b / 16) as nat) && t[3] == hex_digit((b % 16) as nat));
        assert(digit_value(t[2]) * 16 + digit_value(t[3]) == b);
        assert(t.subrange(4, t.len() as int) =~= rest);
    }
}

/// The escapes of a run of bytes stand for those bytes.
proof fn lemma_unescaped_bytes(decimal: bool, s: Seq<u8>, rest: Seq<u8>)
    ensures
        unescaped(decimal, bytes_escape(decimal, s) + rest) == s + unescaped(decimal, rest),
    decreases s.len(),
{
    if s.len() == 0 {
        assert(bytes_escape(decimal, s) + rest =~= rest);
        assert(s + unescaped(decimal, rest) =~= unescaped(decimal, rest));
    } else {
        let init = s.drop_last();
        let tail = byte_escape(decimal, s.last()) + rest;
        assert(bytes_escape(decimal, s) + rest =~= bytes_escape(decimal, init) + tail);
        lemma_unescaped_bytes(decimal, init, tail);
        lemma_unescaped_byte(decimal, s.last(), rest);
        assert(init + (seq![s.last()] + unescaped(decimal, rest)) =~= s + unescaped(decimal, rest));
    }
}

/// The digits of `n` in hexadecimal are digits, and write `n`.
proof fn lemma_hex_text_value(n: nat)
    ensures
        forall|i: int| 0 <= i < hex_text(n).len() ==> is_digit(true, #[trigger] hex_text(n)[i]),
        digits_value(true, hex_text(n)) == n,
    decreases n,
{
    if n >= 16 {
        lemma_hex_text_value(n / 16);
        assert(hex_text(n).drop_last() =~= hex_text(n / 16));
        assert((n / 16) * 16 + n % 16 == n);
    } else {
        assert(hex_text(n).drop_last() =~= Seq::<u8>::empty());
        assert(digits_value(true, Seq::<u8>::empty()) == 0);
    }
}

/// The digits of `n` in decimal are digits, and write `n`.
proof fn lemma_decimal_text_value(n: nat)
    ensures
        forall|i: int|
            0 <= i < decimal_text(n).len() ==> is_digit(false, #[trigger] decimal_text(n)[i]),
        digits_value(false, decimal_text(n)) == n,
    decreases n,
{
    if n >= 10 {
        lemma_decimal_text_value(n / 10);
        assert(decimal_text(n).drop_last() =~= decimal_text(n / 10));
        assert((n / 10) * 10 + n % 10 == n);
    } else {
        assert(decimal_text(n).drop_last() =~= Seq::<u8>::empty());
        assert(digits_value(false, Seq::<u8>::empty()) == 0);
    }
}

/// A run of `len` digits from `start` on, followed by a byte that is no
/// digit, has length `len`.
proof fn lemma_digit_run(hex: bool, t: Seq<u8>, start: int, len: int)
    requires
        0 <= start,
        0 <= len,
        start + len < t.len(),
        forall|j: int| start <= j < start + len ==> is_digit(hex, #[trigger] t[j]),
        !is_digit(hex, t[start + len]),
    ensures
        digit_run(hex, t, start) == len,
    decreases len,
{
    if len > 0 {
        lemma_digit_run(hex, t, start + 1, len - 1);
    }
}

/// The code point escape of a character stands for its UTF-8 bytes.
proof fn lemma_unescaped_code_point(f: Formatter, c: char, rest: Seq<u8>)
    requires
        !f.as_bytes,
    ensures
        unescaped(f.hex_as_decimal, char_escape(f, c) + rest) == encode_scalar(c as u32)
            + unescaped(f.hex_as_decimal, rest),
{
    let hex = !f.hex_as_decimal;
    let n = c as u32 as nat;
    let d = if hex {
        hex_text(n)
    } else {
        decimal_text(n)
    };
    if hex {
        lemma_hex_text_value(n);
    } else {
        lemma_decimal_text_value(n);
    }
    assert(forall|i: int| 0 <= i < d.len() ==> is_digit(hex, #[trigger] d[i]));
    assert(digits_value(hex, d) == n);
    let t = braced(d) + rest;
    let m = d.len() as int;
    assert(char_escape(f, c) == braced(d));
    assert(t[0] == BACKSLASH && t[1] == LOWER_U && t[2] == OPEN_BRACE);
    assert(t[3 + m] == CLOSE_BRACE);
    assert forall|j: int| 3 <= j < 3 + m implies is_digit(hex, #[trigger] t[j]) by {
        assert(t[j] == d[j - 3]);
    }
    lemma_digit_run(hex, t, 3, m);
    assert(t.subrange(3, 3 + m) =~= d);
    assert(t.subrange(4 + m, t.len() as int) =~= rest);
    char_is_scalar(c);
    assert(d.len() >= 1);
}

/// A code point below 0x80 is encoded as the one byte of the same value.
proof fn lemma_ascii_encoding(v: u32)
    requires
        v < 0x80,
    ensures
        encode_scalar(v) == seq![v as u8],
{
    assert(v & 0x7f == v) by (bit_vector)
        requires
            v < 0x80,
    ;
}

/// `\n`, `\r` and `\t` stand for a line feed, carriage return and tab.
proof fn lemma_unescaped_named(decimal: bool, letter: u8, b: u8, rest: Seq<u8>)
    requires
        (letter == LOWER_N && b == LINE_FEED) || (letter == LOWER_R && b == CARRIAGE_RETURN) || (
        letter == LOWER_T && b == TAB),
    ensures
        unescaped(decimal, seq![BACKSLASH, letter] + rest) == seq![b] + unescaped(decimal, rest),
{
    let t = seq![BACKSLASH, letter] + rest;
    assert(t[0] == BACKSLASH && t[1] == letter);
    assert(t.subrange(2, t.len() as int) =~= rest);
}

/// Escaping loses nothing: reading the escapes back, by the same options'
/// rules, gives the input again. This holds for every input that holds no
/// backslash of its own (one would be read as the start of an escape) and,
/// where spaces become circles, no space (that is lossy by design).
pub proof fn lemma_round_trip(f: Formatter, fonts: Seq<FontProgram>, s: Seq<u8>)
    requires
        forall|i: int| 0 <= i < s.len() ==> s[i] != BACKSLASH,
        f.space_as_circle ==> forall|i: int| 0 <= i < s.len() ==> s[i] != SPACE,
    ensures
        unescaped(f.hex_as_decimal, escaped(f, fonts, s)) == s,
    decreases s.len(),
{
    let decimal = f.hex_as_decimal;
    if s.len() == 0 {
    } else if valid_first_scalar(s) {
        let n = length_of_first_scalar(s);
        assert(1 <= n <= s.len());
        let rest = s.subrange(n, s.len() as int);
        let head = s.subrange(0, n);
        let c = decode_first_scalar(s) as char;
        lemma_first_scalar_encoding(s);
        assert(encode_scalar(c as u32) == head);
        lemma_round_trip(f, fonts, rest);
        let tail = escaped(f, fonts, rest);
        assert(escaped(f, fonts, s) == char_output(f, fonts, c) + tail);
        assert(head + rest =~= s);
        if f.all_as_hex || (!(c == '\n' && (f.newline_escaped || !f.newline_as_hex)) && !(c
            == '\r' && !f.carriage_return_as_hex) && !(c == '\t' && !f.tab_as_hex) && !(c == ' '
            && f.space_as_circle) && needs_escape(f, fonts, c)) {
            assert(char_output(f, fonts, c) == char_escape(f, c));
            if f.as_bytes {
                lemma_unescaped_bytes(decimal, head, tail);
            } else {
                lemma_unescaped_code_point(f, c, tail);
            }
        } else if c == '\n' && f.newline_escaped {
            lemma_ascii_encoding(c as u32);
            lemma_unescaped_named(decimal, LOWER_N, LINE_FEED, tail);
        } else if c == '\r' && !f.carriage_return_as_hex {
            lemma_ascii_encoding(c as u32);
            lemma_unescaped_named(decimal, LOWER_R, CARRIAGE_RETURN, tail);
        } else if c == '\t' && !f.tab_as_hex {
            lemma_ascii_encoding(c as u32);
            lemma_unescaped_named(decimal, LOWER_T, TAB, tail);
        } else {
            assert(!(c == ' ' && f.space_as_circle)) by {
                if c == ' ' {
                    lemma_ascii_encoding(c as u32);
                    assert(head[0] == SPACE);
                }
            }
            if c == '\n' {
                lemma_ascii_encoding(c as u32);
            }
            assert(char_output(f, fonts, c) == head);
            lemma_unescaped_plain(decimal, head, tail);
        }
    } else {
        let rest = s.subrange(1, s.len() as int);
        lemma_round_trip(f, fonts, rest);
        lemma_unescaped_byte(decimal, s[0], escaped(f, fonts, rest));
        assert(seq![s[0]] + rest =~= s);
    }
}

} // verus!
