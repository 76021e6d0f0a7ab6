use banded_knapsack::item::Item;
use banded_knapsack::parse::{
    chars_of, is_space_char, parse_capacity_line, parse_input, parse_integer_between,
    parse_item_line, scan_from, split_lines, trim_end_of,
};

fn chars(text: &str) -> Vec<char> {
    text.chars().collect()
}

fn number(text: &str) -> Option<i64> {
    let line = chars(text);
    parse_integer_between(&line, 0, line.len())
}

fn item(weight: i64, profit: i64) -> Item {
    Item { weight, profit }
}

#[test]
fn characters_of_a_text() {
    assert_eq!(chars_of(""), Vec::<char>::new());
    assert_eq!(chars_of("a b\n"), vec!['a', ' ', 'b', '\n']);
    assert_eq!(chars_of("é\u{3000}z"), vec!['é', '\u{3000}', 'z']);
}

#[test]
fn white_space_is_what_the_standard_library_takes_for_it() {
    for code in 0u32..0x11_0000 {
        if let Some(c) = char::from_u32(code) {
            assert_eq!(is_space_char(c), c.is_whitespace());
        }
    }
}

#[test]
fn numbers_are_read_as_the_standard_library_reads_them() {
    for text in [
        "", "+", "-", "0", "-0", "+0", "7", "+7", "-7", "007", "12a", "a12", "1 2", " 1", "1 ",
        "--1", "+-1", "1.5", "1e3", "١٢", "४", "9223372036854775807", "9223372036854775808",
        "-9223372036854775808", "-9223372036854775809", "+9223372036854775807",
        "00000000000000000000000000000000000000000000012",
        "99999999999999999999999999999999999999999999999",
        "-99999999999999999999999999999999999999999999999", "92233720368547758070",
        "18446744073709551616", "340282366920938463463374607431768211456",
    ] {
        assert_eq!(number(text), text.parse::<i64>().ok());
    }
    assert_eq!(number("-9223372036854775808"), Some(i64::MIN));
    assert_eq!(number("9223372036854775807"), Some(i64::MAX));
    assert_eq!(number("9223372036854775808"), None);
    assert_eq!(number("+42"), Some(42));
}

#[test]
fn numbers_inside_a_line() {
    let line = chars("ab-15cd");
    assert_eq!(parse_integer_between(&line, 2, 5), Some(-15));
    assert_eq!(parse_integer_between(&line, 3, 5), Some(15));
    assert_eq!(parse_integer_between(&line, 2, 6), None);
    assert_eq!(parse_integer_between(&line, 4, 4), None);
}

#[test]
fn lines_are_what_the_standard_library_takes_for_them() {
    for text in ["", "\n", "a", "a\n", "a\nb", "a\n\nb\n", "\n\n", "a\n\n", "\na", "x y\n z \n\n"] {
        let expected: Vec<Vec<char>> = text.lines().map(|l| l.chars().collect()).collect();
        assert_eq!(split_lines(&chars(text)), expected);
    }
    assert_eq!(split_lines(&chars("a\r\nb")), vec![chars("a\r"), chars("b")]);
}

#[test]
fn scanning_a_line() {
    let line = chars("  12\t 7x ");
    assert_eq!(scan_from(&line, 0, true), 2);
    assert_eq!(scan_from(&line, 2, false), 4);
    assert_eq!(scan_from(&line, 4, true), 6);
    assert_eq!(scan_from(&line, 6, false), 8);
    assert_eq!(scan_from(&line, 8, true), 9);
    assert_eq!(scan_from(&line, 9, false), 9);
    assert_eq!(scan_from(&line, 2, true), 2);
    assert_eq!(trim_end_of(&line), 8);
    assert_eq!(trim_end_of(&chars(" \t ")), 0);
    assert_eq!(trim_end_of(&chars("")), 0);
}

#[test]
fn capacity_lines() {
    for text in ["10", "  10  ", "\t-3\r", "+5", "", "   ", "10 20", "ten", "1_0", "\u{a0}8\u{3000}"] {
        assert_eq!(parse_capacity_line(&chars(text)), text.trim().parse::<i64>().ok());
    }
    assert_eq!(parse_capacity_line(&chars("  10  ")), Some(10));
    assert_eq!(parse_capacity_line(&chars("10 20")), None);
}

#[test]
fn item_lines() {
    assert_eq!(parse_item_line(&chars("2 3")), Some(item(2, 3)));
    assert_eq!(parse_item_line(&chars("  2\t\t3  ")), Some(item(2, 3)));
    assert_eq!(parse_item_line(&chars("2 3 4 five")), Some(item(2, 3)));
    assert_eq!(parse_item_line(&chars("-2 +3")), Some(item(-2, 3)));
    assert_eq!(parse_item_line(&chars("2\u{2003}3")), Some(item(2, 3)));
    assert_eq!(parse_item_line(&chars("2")), None);
    assert_eq!(parse_item_line(&chars("")), None);
    assert_eq!(parse_item_line(&chars("   ")), None);
    assert_eq!(parse_item_line(&chars("2 x")), None);
    assert_eq!(parse_item_line(&chars("x 2")), None);
    assert_eq!(parse_item_line(&chars("x 2 3")), None);
    assert_eq!(parse_item_line(&chars("2,3")), None);
    assert_eq!(parse_item_line(&chars("2 9223372036854775808")), None);
}

#[test]
fn whole_instances() {
    assert_eq!(
        parse_input("5\n2 3\n3 4\n4 5\n5 6\n"),
        Some((vec![item(2, 3), item(3, 4), item(4, 5), item(5, 6)], 5))
    );
    assert_eq!(parse_input("5"), Some((vec![], 5)));
    assert_eq!(parse_input(" 7 \r\n1 2\r\n"), Some((vec![item(1, 2)], 7)));
    assert_eq!(
        parse_input("10\n\n1 2\nbroken\n3\n4 5 6\n# 7 8\n9 x\n-1 -2"),
        Some((vec![item(1, 2), item(4, 5), item(-1, -2)], 10))
    );
    assert_eq!(parse_input("-4\n1 1"), Some((vec![item(1, 1)], -4)));
}

#[test]
fn instances_without_a_capacity() {
    assert_eq!(parse_input(""), None);
    assert_eq!(parse_input("\n5\n1 2"), None);
    assert_eq!(parse_input("five\n1 2"), None);
    assert_eq!(parse_input("5 6\n1 2"), None);
    assert_eq!(parse_input("9223372036854775808\n1 2"), None);
}
