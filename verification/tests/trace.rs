use krpsim::replay::Execution;
use krpsim::stocks::Stocks;
use krpsim::text::{chars_of, format_decimal, owned_range, parse_decimal, parse_unsigned, trim_range};
use krpsim::trace::{
    find_colon, format_finish, format_firing, format_stock, has_marker, marker_line,
    marks_are_plain, parse_result_file,
};

fn chars(t: &str) -> Vec<char> {
    t.chars().collect()
}

fn texts(items: &[&str]) -> Vec<String> {
    items.iter().map(|t| t.to_string()).collect()
}

fn pairs_of(list: &Vec<Execution>) -> Vec<(u64, String)> {
    list.iter().map(|e| (e.time, e.process_name.clone())).collect()
}

#[test]
fn decimal_numbers_are_written_without_leading_zeros() {
    assert_eq!(format_decimal(0), chars("0"));
    assert_eq!(format_decimal(7), chars("7"));
    assert_eq!(format_decimal(10), chars("10"));
    assert_eq!(format_decimal(90210), chars("90210"));
    assert_eq!(format_decimal(u64::MAX), chars("18446744073709551615"));
}

#[test]
fn decimal_numbers_are_read_back() {
    for n in [0u64, 1, 9, 10, 99, 100, 12345, u64::MAX - 1, u64::MAX] {
        let text = format_decimal(n);
        assert_eq!(parse_decimal(&text, 0, text.len()), Some(n));
        assert_eq!(parse_unsigned(&text, 0, text.len()), Some(n));
    }
}

#[test]
fn unsigned_numbers_may_carry_a_plus_sign_and_zeros() {
    let read = |t: &str| parse_unsigned(&chars(t), 0, t.chars().count());
    assert_eq!(read("+5"), Some(5));
    assert_eq!(read("007"), Some(7));
    assert_eq!(read("+"), None);
    assert_eq!(read(""), None);
    assert_eq!(read("-5"), None);
    assert_eq!(read("++5"), None);
    assert_eq!(read("5+"), None);
    assert_eq!(read("1 2"), None);
    assert_eq!(read("12a"), None);
    assert_eq!(read("18446744073709551615"), Some(u64::MAX));
    assert_eq!(read("18446744073709551616"), None);
    assert_eq!(read("99999999999999999999999"), None);
    assert_eq!(parse_decimal(&chars("+5"), 0, 2), None);
    assert_eq!(parse_decimal(&chars("a12b"), 1, 3), Some(12));
}

#[test]
fn pieces_of_a_line_are_trimmed() {
    let line = chars("  \t a b \u{a0} ");
    assert_eq!(trim_range(&line, 0, line.len()), (4, 7));
    assert_eq!(trim_range(&line, 0, 3), (3, 3));
    assert_eq!(trim_range(&line, 5, 6), (6, 6));
    let text = "h\u{e9}llo:w".to_string();
    assert_eq!(chars_of(&text), chars("h\u{e9}llo:w"));
    assert_eq!(owned_range(&text, 1, 4), "\u{e9}ll");
    assert_eq!(owned_range(&text, 6, 7), "w");
    assert_eq!(owned_range(&text, 3, 3), "");
}

#[test]
fn colons_are_counted_and_the_first_found() {
    let line = chars("a:b:c");
    assert_eq!(find_colon(&line, 0, 5), (2, 1));
    assert_eq!(find_colon(&line, 2, 5), (1, 3));
    assert_eq!(find_colon(&line, 4, 5), (0, 5));
    assert!(has_marker(&chars("Final stocks: and more"), 0, 22));
    assert!(has_marker(&chars("xFinal stocks:"), 1, 14));
    assert!(!has_marker(&chars("Final stocks:"), 0, 12));
    assert!(!has_marker(&chars("Final stock:s"), 0, 13));
}

#[test]
fn log_lines_are_written_as_the_format_says() {
    assert_eq!(format_firing(0, &"buy_apple".to_string()), "0:buy_apple");
    assert_eq!(format_firing(120, &"p".to_string()), "120:p");
    assert_eq!(format_stock(&"euro".to_string(), 10), "euro:10");
    assert_eq!(format_finish(5), "Finished at time 5");
    assert_eq!(marker_line(), "Final stocks:");
}

#[test]
fn a_result_is_read_line_by_line() {
    let lines = texts(&[
        "0:buy_apple",
        "  0 : buy_apple  ",
        "",
        "no colon here",
        "1:2:3",
        "x:late",
        "+7:seven",
        "Finished at time 5",
        "",
        "  Final stocks: whatever follows",
        "euro:0",
        " apple : 5 ",
        "broken",
        "a:b:c",
        "pear:many",
        "euro:3",
        ":9",
        "12:more",
    ]);
    let (runs, stocks) = parse_result_file(&lines);
    assert_eq!(
        pairs_of(&runs),
        vec![
            (0, "buy_apple".to_string()),
            (0, "buy_apple".to_string()),
            (0, "late".to_string()),
            (7, "seven".to_string()),
        ]
    );
    let mut expected = Stocks::new();
    expected.set("euro".to_string(), 3);
    expected.set("apple".to_string(), 5);
    expected.set("pear".to_string(), 0);
    expected.set("".to_string(), 9);
    expected.set("12".to_string(), 0);
    assert!(stocks.same_as(&expected));
}

#[test]
fn a_result_without_marker_has_no_final_stocks() {
    let (runs, stocks) = parse_result_file(&texts(&["3:p", "euro:4"]));
    assert_eq!(pairs_of(&runs), vec![(3, "p".to_string()), (0, "4".to_string())]);
    assert_eq!(stocks.len(), 0);
    let (runs, stocks) = parse_result_file(&vec![]);
    assert!(runs.is_empty());
    assert_eq!(stocks.len(), 0);
}

#[test]
fn written_lines_are_read_back() {
    let mut lines = Vec::new();
    for _ in 0..3 {
        lines.push(format_firing(4, &"make".to_string()));
    }
    lines.push(format_firing(9, &"sell".to_string()));
    lines.push(String::new());
    lines.push(format_finish(12));
    lines.push(String::new());
    lines.push(marker_line());
    lines.push(format_stock(&"gold".to_string(), 77));
    lines.push(format_stock(&"ore".to_string(), 0));
    let (runs, stocks) = parse_result_file(&lines);
    assert_eq!(
        pairs_of(&runs),
        vec![
            (4, "make".to_string()),
            (4, "make".to_string()),
            (4, "make".to_string()),
            (9, "sell".to_string()),
        ]
    );
    let mut expected = Stocks::new();
    expected.set("gold".to_string(), 77);
    expected.set("ore".to_string(), 0);
    assert!(stocks.same_as(&expected));
}

#[test]
fn the_marks_of_a_written_result_are_no_white_space() {
    assert!(marks_are_plain());
}
