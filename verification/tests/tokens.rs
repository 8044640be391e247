use arith::number::float_literal;
use arith::tokenize::{
    give_tokens_types, run, single_token_char, split_inside_tokens, split_whitespace_to_tokens,
    token_type_given, token_type_of,
    Side, Token, TokenPos, TokenType,
};

fn chars(text: &str) -> Vec<char> {
    text.chars().collect()
}

fn piece(text: &str, line: usize, start: usize, end: usize) -> TokenPos {
    TokenPos { content: chars(text), line, start, end }
}

fn token(token_type: TokenType, line: usize, start: usize, end: usize) -> Token {
    Token { token_type, line, line_pos: (start, end) }
}

fn number(text: &str) -> TokenType {
    TokenType::Number(text.to_string())
}

fn rebuilt(tokens: &Vec<Token>) -> String {
    let mut text = String::new();
    for t in tokens {
        match &t.token_type {
            TokenType::Number(x) => text.push_str(x),
            TokenType::Identifier(x) => text.push_str(x),
            TokenType::Plus => text.push('+'),
            TokenType::Minus => text.push('-'),
            TokenType::Star => text.push('*'),
            TokenType::Divide => text.push('/'),
            TokenType::Parenthisies(Side::Left) => text.push('('),
            TokenType::Parenthisies(Side::Right) => text.push(')'),
        }
    }
    text
}

#[test]
fn symbols_are_the_six_characters() {
    for c in ['+', '-', '*', '/', '(', ')'] {
        assert!(single_token_char(c));
    }
    for c in ['a', '1', ' ', '@', '.', '=', '[', '\n'] {
        assert!(!single_token_char(c));
    }
}

#[test]
fn tokenizes_sum_and_product_with_columns() {
    let tokens = run(&"3+4*2".to_string()).unwrap();
    assert_eq!(
        tokens,
        vec![
            token(number("3"), 0, 0, 1),
            token(TokenType::Plus, 0, 1, 2),
            token(number("4"), 0, 2, 3),
            token(TokenType::Star, 0, 3, 4),
            token(number("2"), 0, 4, 5),
        ]
    );
    match &tokens[0].token_type {
        TokenType::Number(x) => assert_eq!(x.parse::<f64>().unwrap(), 3.0),
        _ => panic!("not a number"),
    }
}

#[test]
fn empty_text_has_no_tokens() {
    assert_eq!(run(&String::new()).unwrap(), Vec::<Token>::new());
    assert_eq!(run(&"  \n \t ".to_string()).unwrap(), Vec::<Token>::new());
}

#[test]
fn words_carry_line_and_columns() {
    let words = split_whitespace_to_tokens(&"ab  cd\n\n  e+f \t g".to_string());
    assert_eq!(
        words,
        vec![
            piece("ab", 0, 0, 2),
            piece("cd", 0, 4, 6),
            piece("e+f", 2, 2, 5),
            piece("g", 2, 8, 9),
        ]
    );
}

#[test]
fn words_end_at_unicode_whitespace() {
    let words = split_whitespace_to_tokens(&"a\u{a0}b\u{3000}c\r\nd".to_string());
    assert_eq!(
        words,
        vec![piece("a", 0, 0, 1), piece("b", 0, 2, 3), piece("c", 0, 4, 5), piece("d", 1, 0, 1)]
    );
}

#[test]
fn columns_count_characters() {
    let words = split_whitespace_to_tokens(&"\u{e9}t\u{e9} x".to_string());
    assert_eq!(words, vec![piece("\u{e9}t\u{e9}", 0, 0, 3), piece("x", 0, 4, 5)]);
}

#[test]
fn symbols_cut_words() {
    let cut = split_inside_tokens(&vec![piece("12+34", 0, 0, 5), piece("abc", 1, 2, 5)]);
    assert_eq!(
        cut,
        vec![
            piece("12", 0, 0, 2),
            piece("+", 0, 2, 3),
            piece("34", 0, 3, 5),
            piece("abc", 1, 2, 5),
        ]
    );
}

#[test]
fn neighbouring_symbols_stand_alone() {
    let cut = split_inside_tokens(&vec![piece("((a)*-b", 3, 10, 17)]);
    assert_eq!(
        cut,
        vec![
            piece("(", 3, 10, 11),
            piece("(", 3, 11, 12),
            piece("a", 3, 12, 13),
            piece(")", 3, 13, 14),
            piece("*", 3, 14, 15),
            piece("-", 3, 15, 16),
            piece("b", 3, 16, 17),
        ]
    );
}

#[test]
fn single_characters_are_not_cut() {
    let cut = split_inside_tokens(&vec![piece("+", 0, 0, 1), piece("", 0, 4, 4), piece("@", 0, 7, 8)]);
    assert_eq!(cut, vec![piece("+", 0, 0, 1), piece("", 0, 4, 4), piece("@", 0, 7, 8)]);
}

#[test]
fn kinds_in_order_of_priority() {
    let tokens = give_tokens_types(vec![
        piece("1.5e3", 0, 0, 5),
        piece("x1", 0, 6, 8),
        piece("+", 0, 9, 10),
        piece("-", 0, 11, 12),
        piece("*", 0, 13, 14),
        piece("/", 0, 15, 16),
        piece("(", 0, 17, 18),
        piece(")", 0, 19, 20),
        piece("inf", 0, 21, 24),
        piece("", 0, 25, 25),
    ])
    .unwrap();
    assert_eq!(
        tokens,
        vec![
            token(number("1.5e3"), 0, 0, 5),
            token(TokenType::Identifier("x1".to_string()), 0, 6, 8),
            token(TokenType::Plus, 0, 9, 10),
            token(TokenType::Minus, 0, 11, 12),
            token(TokenType::Star, 0, 13, 14),
            token(TokenType::Divide, 0, 15, 16),
            token(TokenType::Parenthisies(Side::Left), 0, 17, 18),
            token(TokenType::Parenthisies(Side::Right), 0, 19, 20),
            token(number("inf"), 0, 21, 24),
            token(TokenType::Identifier(String::new()), 0, 25, 25),
        ]
    );
}

#[test]
fn minus_is_never_part_of_a_number() {
    let tokens = run(&"-5".to_string()).unwrap();
    assert_eq!(tokens, vec![token(TokenType::Minus, 0, 0, 1), token(number("5"), 0, 1, 2)]);
    let tokens = run(&"1e-5".to_string()).unwrap();
    assert_eq!(
        tokens,
        vec![
            token(TokenType::Identifier("1e".to_string()), 0, 0, 2),
            token(TokenType::Minus, 0, 2, 3),
            token(number("5"), 0, 3, 4),
        ]
    );
}

#[test]
fn unknown_symbol_is_an_invalid_token() {
    let (at, reason) = run(&"3 @ 4".to_string()).unwrap_err();
    assert_eq!(reason, "Invalid token");
    assert_eq!(at, token(TokenType::Identifier("@".to_string()), 0, 2, 3));
}

#[test]
fn unknown_word_is_an_invalid_token() {
    let (at, reason) = run(&"1 + a@b\n2 # 3".to_string()).unwrap_err();
    assert_eq!(reason, "Invalid token");
    assert_eq!(at, token(TokenType::Identifier("a@b".to_string()), 0, 4, 7));
}

#[test]
fn first_invalid_piece_is_reported() {
    let (at, reason) =
        give_tokens_types(vec![piece("1", 0, 0, 1), piece("1.2.3", 0, 2, 7), piece("$$", 1, 0, 2)])
            .unwrap_err();
    assert_eq!(reason, "Invalid token");
    assert_eq!(at, token(TokenType::Identifier("1.2.3".to_string()), 0, 2, 7));
}

#[test]
fn float_literals_are_those_of_the_standard_parser() {
    let samples = [
        "", "0", "7", "42", "3.14", "3.", ".5", ".", "1e5", "1E5", "1e+5", "1e-5", "1e", "e5",
        "1.e3", ".5e3", ".e3", "1.5e", "1.5e+", "1e5.0", "1e5e5", "+1", "-1", "+", "-", "+-1",
        "--1", "+.5", "-.", "inf", "INF", "Inf", "-inf", "+inf", "infinity", "INFINITY",
        "InFiNiTy", "-infinity", "infinit", "infinityy", "nan", "NaN", "NAN", "-nan", "+nan",
        "na", "nann", "in", "1 ", " 1", "1_000", "0x10", "1f", "abc", "1..2", "12a", "a12",
        "00012", "1.0.0", "9999999999999999999999999999999", "1e99999", "\u{663}", "1\u{e9}",
        "iNf", "i\u{4e}f", "infinitY", "ynfinity", "e", "E", ".e", "1e+", "1e-", "1+1",
    ];
    for text in samples {
        assert_eq!(float_literal(&chars(text)), text.parse::<f64>().is_ok(), "{:?}", text);
    }
}

#[test]
fn float_literals_of_up_to_four_characters() {
    let alphabet = ['0', '7', '.', 'e', 'E', '+', '-', 'i', 'n', 'f', 'a', 'N', ' '];
    let mut words: Vec<String> = vec![String::new()];
    let mut from = 0;
    for _ in 0..4 {
        let to = words.len();
        for k in from..to {
            for c in alphabet {
                let mut w = words[k].clone();
                w.push(c);
                words.push(w);
            }
        }
        from = to;
    }
    for w in &words {
        assert_eq!(float_literal(&chars(w)), w.parse::<f64>().is_ok(), "{:?}", w);
    }
}

#[test]
fn rebuilt_text_tokenizes_to_itself() {
    let first = run(&" (1 + 2)*x3 \n / 4.5 - -7 ".to_string()).unwrap();
    let once = rebuilt(&first);
    assert_eq!(once, "(1+2)*x3/4.5--7");
    let second = run(&once).unwrap();
    let twice = rebuilt(&second);
    assert_eq!(twice, once);
    assert_eq!(run(&twice).unwrap(), second);
}

#[test]
fn spans_lie_in_their_line() {
    let text = "12 + (3*abc)\n  -4/ 5".to_string();
    let lines: Vec<Vec<char>> = text.lines().map(|l| l.chars().collect()).collect();
    let tokens = run(&text).unwrap();
    assert_eq!(tokens.len(), 11);
    let mut all = String::new();
    for t in &tokens {
        let (start, end) = t.line_pos;
        assert!(start < end && end <= lines[t.line].len());
        all.extend(&lines[t.line][start..end]);
    }
    assert_eq!(all, rebuilt(&tokens));
    assert_eq!(all, "12+(3*abc)-4/5");
}

#[test]
fn whitespace_is_that_of_the_standard_library() {
    for code in 0..=0x10ffffu32 {
        if let Some(c) = char::from_u32(code) {
            assert_eq!(arith::chars::is_whitespace(c), c.is_whitespace(), "{:?}", c);
        }
    }
}

#[test]
fn kind_of_a_piece_given_its_class() {
    assert_eq!(token_type_given(&chars("12"), true), Some(number("12")));
    assert_eq!(token_type_given(&chars("12"), false), Some(number("12")));
    assert_eq!(token_type_given(&chars("ab"), true), Some(TokenType::Identifier("ab".to_string())));
    assert_eq!(token_type_given(&chars("ab"), false), None);
    assert_eq!(token_type_given(&chars("*"), false), Some(TokenType::Star));
    assert_eq!(token_type_given(&chars("@"), false), None);
    assert_eq!(token_type_of(&chars("\u{e9}2")), Some(TokenType::Identifier("\u{e9}2".to_string())));
    assert_eq!(token_type_of(&chars("a_b")), None);
}

#[test]
fn text_and_characters_convert_both_ways() {
    assert_eq!(arith::chars::to_chars("a\u{e9}+"), vec!['a', '\u{e9}', '+']);
    assert_eq!(arith::chars::to_text(&vec!['a', '\u{e9}', '+']), "a\u{e9}+");
}
