use glyph_escape::escape::Formatter;
use glyph_escape::fonts::{is_char_in_fonts, FontProgram};

fn plain() -> Formatter {
    Formatter::new(false, false, false, false, false, false, false, false, false)
}

fn run(f: &Formatter, input: &[u8]) -> Vec<u8> {
    let fonts: Vec<FontProgram> = Vec::new();
    let mut out = Vec::new();
    f.process(&fonts, input, &mut out);
    out
}

#[test]
fn letter_and_newline_pass_through() {
    assert_eq!(run(&plain(), b"A\n"), b"A\n".to_vec());
}

#[test]
fn newline_escaped_as_backslash_n() {
    let mut f = plain();
    f.newline_escaped = true;
    assert_eq!(run(&f, b"A\n"), b"A\\n".to_vec());
}

#[test]
fn invalid_byte_escaped_as_hex() {
    assert_eq!(run(&plain(), &[0xff]), b"\\xff".to_vec());
    let all = Formatter::new(true, true, false, true, false, true, true, true, false);
    assert_eq!(run(&all, &[0xff]), b"\\xff".to_vec());
}

#[test]
fn invalid_byte_escaped_as_decimal() {
    let f = Formatter::new(false, false, true, false, false, false, false, false, false);
    assert_eq!(run(&f, &[0xff]), b"\\d255".to_vec());
}

#[test]
fn char_without_glyph_escaped_as_code_point() {
    assert_eq!(run(&plain(), "\u{1f600}".as_bytes()), b"\\u{1f600}".to_vec());
}

#[test]
fn char_without_glyph_escaped_in_decimal() {
    let f = Formatter::new(false, false, true, false, false, false, false, false, false);
    assert_eq!(run(&f, "\u{1f600}".as_bytes()), b"\\u{128512}".to_vec());
}

#[test]
fn char_without_glyph_escaped_by_bytes() {
    let f = Formatter::new(true, false, false, false, false, false, false, false, false);
    assert_eq!(run(&f, "é".as_bytes()), b"\\xc3\\xa9".to_vec());
    let d = Formatter::new(true, false, true, false, false, false, false, false, false);
    assert_eq!(run(&d, "é".as_bytes()), b"\\d195\\d169".to_vec());
}

#[test]
fn two_byte_char_decoded_as_one() {
    assert_eq!(run(&plain(), "aé".as_bytes()), b"a\\u{e9}".to_vec());
}

#[test]
fn space_as_circle() {
    let mut f = plain();
    f.space_as_circle = true;
    let out = run(&f, b" ");
    assert_eq!(out, "\u{1f784}".as_bytes().to_vec());
    assert_eq!(String::from_utf8(out).unwrap().chars().count(), 1);
}

#[test]
fn tab_as_hex_uses_code_point() {
    let mut f = plain();
    f.tab_as_hex = true;
    assert_eq!(run(&f, b"\t"), b"\\u{9}".to_vec());
    assert_eq!(run(&plain(), b"\t"), b"\\t".to_vec());
}

#[test]
fn carriage_return_named_or_hex() {
    assert_eq!(run(&plain(), b"\r"), b"\\r".to_vec());
    let mut f = plain();
    f.carriage_return_as_hex = true;
    assert_eq!(run(&f, b"\r"), b"\\u{d}".to_vec());
}

#[test]
fn newline_as_hex() {
    let f = Formatter::new(false, false, false, false, true, false, false, false, false);
    assert_eq!(run(&f, b"A\n"), b"A\\u{a}".to_vec());
}

#[test]
fn space_plain_or_hex() {
    assert_eq!(run(&plain(), b"a b"), b"a b".to_vec());
    let f = Formatter::new(false, false, false, false, false, false, false, false, true);
    assert_eq!(run(&f, b"a b"), b"a\\u{20}b".to_vec());
}

#[test]
fn other_white_space_and_controls_escaped() {
    assert_eq!(run(&plain(), "\u{a0}".as_bytes()), b"\\u{a0}".to_vec());
    assert_eq!(run(&plain(), "\u{3000}".as_bytes()), b"\\u{3000}".to_vec());
    assert_eq!(run(&plain(), &[0x00, 0x7f]), b"\\u{0}\\u{7f}".to_vec());
}

#[test]
fn all_hex_escapes_everything() {
    let f = Formatter::new(false, true, false, false, false, false, false, false, false);
    assert_eq!(run(&f, b"A \n"), b"\\u{41}\\u{20}\\u{a}".to_vec());
}

#[test]
fn truncated_and_overlong_sequences_escaped_by_byte() {
    assert_eq!(run(&plain(), &[0xe2, 0x98, 0x41]), b"\\xe2\\x98A".to_vec());
    assert_eq!(run(&plain(), &[0xc0, 0x80]), b"\\xc0\\x80".to_vec());
    assert_eq!(run(&plain(), &[0xed, 0xa0, 0x80]), b"\\xed\\xa0\\x80".to_vec());
}

#[test]
fn empty_input_gives_empty_output() {
    assert_eq!(run(&plain(), b""), Vec::<u8>::new());
}

#[test]
fn fast_path_matches_full_pipeline() {
    let f = Formatter::new(true, true, false, false, false, false, false, false, false);
    let fonts: Vec<FontProgram> = Vec::new();
    let input: Vec<u8> = vec![b'A', 0xc3, 0xa9, 0xff, b'\n', 0xf0, 0x9f, 0x98, 0x80, 0xe2, 0x98];
    let mut fast = Vec::new();
    f.process(&fonts, &input, &mut fast);
    let mut full = Vec::new();
    f.process_str(&fonts, &input, &mut full);
    assert_eq!(fast, full);
    assert_eq!(
        fast,
        b"\\x41\\xc3\\xa9\\xff\\x0a\\xf0\\x9f\\x98\\x80\\xe2\\x98".to_vec()
    );
}

#[test]
fn competing_newline_options_resolve_to_escaped() {
    let both = Formatter::new(false, false, false, true, true, false, false, false, false);
    assert!(both.newline_escaped);
    assert!(!both.newline_as_hex);
    let one = Formatter::new(false, false, false, true, false, false, false, false, false);
    assert_eq!(run(&both, b"x\ny\n"), run(&one, b"x\ny\n"));
    assert_eq!(run(&both, b"x\n"), b"x\\n".to_vec());
}

#[test]
fn competing_space_options_resolve_to_circle() {
    let both = Formatter::new(false, false, false, false, false, false, false, true, true);
    assert!(both.space_as_circle);
    assert!(!both.space_as_hex);
    let one = Formatter::new(false, false, false, false, false, false, false, true, false);
    assert_eq!(run(&both, b"a b"), run(&one, b"a b"));
}

#[test]
fn glyph_lookup_is_repeatable() {
    let fonts: Vec<FontProgram> = Vec::new();
    let first = is_char_in_fonts(&fonts, '\u{1f600}');
    let second = is_char_in_fonts(&fonts, '\u{1f600}');
    assert_eq!(first, second);
    assert!(!first);
}

#[test]
fn unparsable_font_data_is_rejected() {
    assert!(FontProgram::from_vec(vec![0, 1, 2, 3]).is_err());
    assert!(FontProgram::from_vec(Vec::new()).is_err());
}

#[test]
fn byte_escapes_are_fixed_width() {
    let f = plain();
    let mut out = Vec::new();
    f.write_byte(&mut out, 10);
    f.write_byte(&mut out, 0);
    assert_eq!(out, b"\\x0a\\x00".to_vec());
    let d = Formatter::new(false, false, true, false, false, false, false, false, false);
    let mut out = Vec::new();
    d.write_byte(&mut out, 10);
    assert_eq!(out, b"\\d010".to_vec());
}

#[test]
fn char_escape_forms() {
    let mut out = Vec::new();
    plain().write_char(&mut out, '\u{10ffff}');
    assert_eq!(out, b"\\u{10ffff}".to_vec());
}

#[test]
fn final_newline_only_on_terminal_when_output_may_lack_one() {
    let f = plain();
    assert!(!f.needs_final_newline(true));
    let mut g = plain();
    g.newline_escaped = true;
    assert!(g.needs_final_newline(true));
    assert!(!g.needs_final_newline(false));
    let h = Formatter::new(false, true, false, false, false, false, false, false, false);
    assert!(h.needs_final_newline(true));
}

fn digit(b: u8) -> u32 {
    (b as char).to_digit(16).unwrap()
}

/// Reads escapes back: `\xhh`, `\dnnn`, `\n`, `\r`, `\t`, `\u{...}`.
fn read_back(decimal: bool, t: &[u8]) -> Vec<u8> {
    let mut out = Vec::new();
    let mut i = 0;
    while i < t.len() {
        if t[i] == b'\\' && i + 1 < t.len() {
            match t[i + 1] {
                b'x' => {
                    out.push((digit(t[i + 2]) * 16 + digit(t[i + 3])) as u8);
                    i += 4;
                }
                b'd' => {
                    out.push((digit(t[i + 2]) * 100 + digit(t[i + 3]) * 10 + digit(t[i + 4])) as u8);
                    i += 5;
                }
                b'n' => {
                    out.push(b'\n');
                    i += 2;
                }
                b'r' => {
                    out.push(b'\r');
                    i += 2;
                }
                b't' => {
                    out.push(b'\t');
                    i += 2;
                }
                b'u' => {
                    let close = i + t[i..].iter().position(|&b| b == b'}').unwrap();
                    let radix = if decimal { 10 } else { 16 };
                    let digits = std::str::from_utf8(&t[i + 3..close]).unwrap();
                    let c = char::from_u32(u32::from_str_radix(digits, radix).unwrap()).unwrap();
                    out.extend_from_slice(c.to_string().as_bytes());
                    i = close + 1;
                }
                _ => {
                    out.push(t[i]);
                    i += 1;
                }
            }
        } else {
            out.push(t[i]);
            i += 1;
        }
    }
    out
}

#[test]
fn escaping_reads_back_to_the_input() {
    let input: Vec<u8> = [
        "A \t\r\n\u{a0}é\u{1f600}\u{7f}".as_bytes(),
        &[0xff, 0xe2, 0x98, b'z'][..],
    ]
    .concat();
    for bits in 0u32..512 {
        let b = |k: u32| bits & (1 << k) != 0;
        let f = Formatter::new(b(0), b(1), b(2), b(3), b(4), b(5), b(6), false, b(7) || b(8));
        let out = run(&f, &input);
        assert_eq!(read_back(f.hex_as_decimal, &out), input, "options {:b}", bits);
    }
}
