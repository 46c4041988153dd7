use vosk_rust::conf::{conf_text, getf};
use vosk_rust::scan::{begins_with, find, find_text};
use vosk_rust::single::{le, lt, max, neg, not_a_number, Arith};
use vosk_rust::text::{
    chars_of, parse_int, parse_usize, space, split_lines, split_word, string_of, trim,
};
use vosk_rust::words::{parse_words, spell_out, spell_out_marked};

struct Numbers;

impl Arith for Numbers {
    fn add(a: u32, _: u32) -> u32 {
        a
    }
    fn sub(a: u32, _: u32) -> u32 {
        a
    }
    fn mul(a: u32, _: u32) -> u32 {
        a
    }
    fn div(a: u32, _: u32) -> u32 {
        a
    }
    fn pow(a: u32, _: u32) -> u32 {
        a
    }
    fn sqrt(a: u32) -> u32 {
        a
    }
    fn ln(a: u32) -> u32 {
        a
    }
    fn sin(a: u32) -> u32 {
        a
    }
    fn cos(a: u32) -> u32 {
        a
    }
    fn round(a: u32) -> u32 {
        a
    }
    fn to_usize(a: u32) -> usize {
        f32::from_bits(a) as usize
    }
    fn from_usize(n: usize) -> u32 {
        (n as f32).to_bits()
    }
    fn parse(text: &str) -> Option<u32> {
        text.parse::<f32>().ok().map(f32::to_bits)
    }
    fn gemm(_: usize, _: usize, _: usize, _: &Vec<u32>, _: &Vec<u32>) -> Vec<u32> {
        vec![]
    }
    fn fft(_: &Vec<(u32, u32)>) -> Vec<(u32, u32)> {
        vec![]
    }
}

fn cs(s: &str) -> Vec<char> {
    s.chars().collect()
}

#[test]
fn order_of_patterns_is_the_order_of_numbers() {
    let vs = [
        f32::NEG_INFINITY, -2.5, -1e-40, -0.0, 0.0, 1e-40, 1.0, 2.5, f32::INFINITY, f32::NAN,
        -f32::NAN,
    ];
    for a in vs {
        assert_eq!(not_a_number(a.to_bits()), a.is_nan());
        assert_eq!(neg(a.to_bits()), (-a).to_bits());
        for b in vs {
            assert_eq!(lt(a.to_bits(), b.to_bits()), a < b);
            assert_eq!(le(a.to_bits(), b.to_bits()), a <= b);
            let m = f32::from_bits(max(a.to_bits(), b.to_bits()));
            let n = a.max(b);
            assert!(m == n || (m.is_nan() && n.is_nan()));
        }
    }
}

#[test]
fn white_space_is_that_of_the_standard_library() {
    for c in (0u32..0x3100).filter_map(char::from_u32) {
        assert_eq!(space(c), c.is_whitespace());
    }
}

#[test]
fn text_helpers_agree_with_the_standard_library() {
    for s in ["", "  ", " a b ", "a\u{a0}", "\u{2003}x y\t", "one  two three"] {
        let v = cs(s);
        assert_eq!(string_of(trim(&v)), s.trim());
        let first = split_word(&v).map(|(w, _)| string_of(w));
        assert_eq!(first.as_deref(), s.split_whitespace().next());
        assert_eq!(chars_of(s), v);
    }
    for s in ["", "a", "a\nb", "a\n", "\n\n", "a\r\nb"] {
        let v = cs(s);
        let got: Vec<String> = split_lines(&v).iter().map(|l| string_of(l)).collect();
        let want: Vec<String> = s.split('\n').map(String::from).collect();
        assert_eq!(got, want);
    }
}

#[test]
fn integers_agree_with_the_standard_library() {
    for s in [
        "", "+", "-", "0", "007", "+5", "-5", "5 ", "1_0", "2147483647", "2147483648",
        "-2147483648", "-2147483649", "18446744073709551615", "18446744073709551616", "\u{663}",
    ] {
        let v = cs(s);
        assert_eq!(parse_int(&v), s.parse::<i32>().ok(), "{s}");
        assert_eq!(parse_usize(&v), s.parse::<usize>().ok(), "{s}");
    }
}

#[test]
fn first_match_is_found() {
    assert_eq!(find(b"abcabc", b"bc", 0), Some(1));
    assert_eq!(find(b"abcabc", b"bc", 2), Some(4));
    assert_eq!(find(b"abcabc", b"bd", 0), None);
    assert_eq!(find(b"ab", b"abc", 0), None);
    assert_eq!(find_text(&cs("x=1 y=2"), &cs("y="), 0), Some(4));
    assert!(begins_with(&cs("input-node"), &cs("input")));
    assert!(!begins_with(&cs("in"), &cs("input")));
}

#[test]
fn word_table_is_filled_by_number() {
    let t = parse_words("a 0\nb 3\nc 1 more\nlonely\n\nd 3\ne x\n").unwrap();
    // The last line has no number, which counts as 0; a later line replaces an earlier one.
    assert_eq!(t, vec!["e", "c", "", "d"]);
    assert_eq!(parse_words("").unwrap(), Vec::<String>::new());
    assert_eq!(parse_words(&format!("a {}", usize::MAX)), None);
}

#[test]
fn spoken_words_make_the_text() {
    let t: Vec<String> =
        ["<eps>", "!SIL", "eins", "", "zwei"].iter().map(|s| s.to_string()).collect();
    assert_eq!(spell_out(&t, &[1, 2, 0, 4, 3, 9, 2]), "eins zwei eins");
    assert_eq!(spell_out(&t, &[]), "");
    assert_eq!(spell_out(&t, &[0, 1, 3]), "");
    assert_eq!(spell_out_marked(&t, &[1, 2, 0, 4, 3, 9]), "eins zwei ? ?");
    let text = spell_out(&t, &[2, 4, 2]);
    assert_eq!(text.split_whitespace().collect::<Vec<_>>(), vec!["eins", "zwei", "eins"]);
}

#[test]
fn settings_come_from_the_first_line_that_has_them() {
    let conf = "# comment\n  --beam= 10.5 \n--beam=3\n--max-active=abc\n--acoustic-scale=2\n";
    assert_eq!(conf_text(conf, "beam").as_deref(), Some("10.5"));
    assert_eq!(conf_text(conf, "lattice"), None);
    assert_eq!(getf::<Numbers>(conf, "beam", 1), 10.5f32.to_bits());
    assert_eq!(getf::<Numbers>(conf, "acoustic-scale", 1), 2.0f32.to_bits());
    // A value that is no number counts as none.
    assert_eq!(getf::<Numbers>(conf, "max-active", 77), 77);
    assert_eq!(getf::<Numbers>("", "beam", 5), 5);
}
