use arith::report::error_lines;
use arith::tokenize::{Token, TokenType};

fn at(line: usize, start: usize, end: usize) -> Token {
    Token { token_type: TokenType::Plus, line, line_pos: (start, end) }
}

#[test]
fn error_is_underlined_in_its_line() {
    let lines = error_lines(&"3 @ 4".to_string(), "Invalid token", &at(0, 2, 3));
    assert_eq!(lines, vec!["     | Error: Invalid token:", "   0 | 3 @ 4", "     |   ~"]);
}

#[test]
fn later_lines_are_found_and_numbered() {
    let text = "1 +\r\n(2 * 3\n\n4".to_string();
    let lines = error_lines(&text, "Expected right parentheses", &at(1, 3, 6));
    assert_eq!(lines[1], "   1 | (2 * 3");
    assert_eq!(lines[2], "     |    ~~~");
    assert_eq!(error_lines(&text, "m", &at(0, 0, 1))[1], "   0 | 1 +");
    assert_eq!(error_lines(&text, "m", &at(2, 0, 0))[1], "   2 | ");
    assert_eq!(error_lines(&text, "m", &at(2, 0, 0))[2], "     | ");
    assert_eq!(error_lines(&text, "m", &at(3, 0, 1))[1], "   3 | 4");
}

#[test]
fn missing_line_is_shown_as_question_marks() {
    let lines = error_lines(&"1\n".to_string(), "Expected unary expression after", &at(1, 2, 5));
    assert_eq!(
        lines,
        vec!["     | Error: Expected unary expression after:", "   1 | ?????", "     |   ~~~"]
    );
    assert_eq!(error_lines(&String::new(), "m", &at(0, 0, 0))[1], "   0 | ");
    assert_eq!(error_lines(&"a".to_string(), "m", &at(7, 1, 3))[1], "   7 | ???");
}

#[test]
fn line_numbers_are_decimal_and_padded_to_four() {
    let text = "\n".repeat(1230) + "x";
    assert_eq!(error_lines(&text, "m", &at(7, 0, 0))[1], "   7 | ");
    assert_eq!(error_lines(&text, "m", &at(42, 0, 0))[1], "  42 | ");
    assert_eq!(error_lines(&text, "m", &at(907, 0, 0))[1], " 907 | ");
    assert_eq!(error_lines(&text, "m", &at(1230, 0, 1))[1], "1230 | x");
    assert_eq!(error_lines(&text, "m", &at(12345, 0, 1))[1], "12345 | ?");
    assert_eq!(error_lines(&text, "m", &at(1000000, 1, 3))[1], "1000000 | ???");
}

#[test]
fn lines_are_those_of_the_standard_library() {
    let texts = ["", "a", "a\n", "a\nb", "a\r\nb\r", "\n\na", "a\r\n\r\n", "\r", "x\ry\n z", "\n"];
    for text in texts {
        let owned = text.to_string();
        let found: Vec<&str> = text.lines().collect();
        for k in 0..5 {
            let shown = &error_lines(&owned, "m", &at(k, 0, 2))[1];
            let number = k.to_string();
            let expected = match found.get(k) {
                Some(line) => format!("   {} | {}", number, line),
                None => format!("   {} | ??", number),
            };
            assert_eq!(shown, &expected, "{:?} line {}", text, k);
        }
    }
}
