use lifegame::input::{grid_fits, is_space, parse_word, readfilecoord, readfilegrid, BLANK, FILLED};
use lifegame::ppair::{pack, unpack};

fn chars(s: &str) -> Vec<char> {
    s.chars().collect()
}

fn grid(s: &str) -> Vec<(i32, i32)> {
    let c = chars(s);
    assert!(grid_fits(&c));
    readfilegrid(&c).into_iter().map(unpack).collect()
}

fn coords(s: &str) -> Vec<(i32, i32)> {
    readfilecoord(&chars(s)).into_iter().map(unpack).collect()
}

#[test]
fn grid_symbols() {
    assert_eq!(BLANK, '.');
    assert_eq!(FILLED, '*');
}

#[test]
fn grid_reads_rows_and_columns() {
    assert_eq!(grid(".*.\n..*\n***\n"), vec![(1, 0), (2, 1), (0, 2), (1, 2), (2, 2)]);
}

#[test]
fn grid_without_final_newline() {
    assert_eq!(grid("*\n.*"), vec![(0, 0), (1, 1)]);
}

#[test]
fn grid_ignores_other_characters() {
    assert_eq!(grid("a*b.c*\r\n"), vec![(0, 0), (2, 0)]);
}

#[test]
fn grid_empty_line_skips_fifty_rows() {
    assert_eq!(grid("*\n\n*\n"), vec![(0, 0), (0, 51)]);
    // a line with no grid characters counts as empty too
    assert_eq!(grid("*\nxyz\n*"), vec![(0, 0), (0, 51)]);
}

#[test]
fn grid_empty_text() {
    assert_eq!(grid(""), vec![]);
}

#[test]
fn grid_fits_accepts_ordinary_text() {
    assert!(grid_fits(&chars("*.*\n\n.*.\n")));
}

#[test]
fn coords_reads_pairs() {
    assert_eq!(coords("1 2\n-3 4\n"), vec![(1, 2), (-3, 4)]);
}

#[test]
fn coords_skips_bad_lines() {
    assert_eq!(coords("foo\n5\n\n7 x 8 9\r\n+10\t-11 12"), vec![(7, 8), (10, -11)]);
}

#[test]
fn coords_carriage_returns_end_lines() {
    assert_eq!(coords("1\r2\r3 4"), vec![(3, 4)]);
}

#[test]
fn coords_out_of_range_words_are_skipped() {
    assert_eq!(coords("2147483648 1 2\n-2147483648 2147483647"), vec![(1, 2), (i32::MIN, i32::MAX)]);
}

#[test]
fn coords_packs_values() {
    assert_eq!(readfilecoord(&chars("3 -4")), vec![pack(3, -4)]);
}

#[test]
fn parse_word_matches_str_parse() {
    for w in ["0", "-0", "+7", "42", "-2147483648", "2147483647", "2147483648", "", "-", "+", "1a", "--1", " 1", "007", "99999999999999999999"] {
        assert_eq!(parse_word(&chars(w)), w.parse::<i32>().ok(), "word {:?}", w);
    }
}

#[test]
fn is_space_matches_char_is_whitespace() {
    for c in [' ', '\t', '\n', '\u{0b}', '\u{0c}', '\r', '\u{85}', '\u{a0}', '\u{1680}', '\u{2000}', '\u{200a}', '\u{2028}', '\u{2029}', '\u{202f}', '\u{205f}', '\u{3000}', 'a', '0', '\u{200b}', '\u{feff}'] {
        assert_eq!(is_space(c), c.is_whitespace(), "char {:?}", c);
    }
}
