use krpsim::lexer::{count_digits, is_delimiter_char, lex, Lexer};
use krpsim::parser::{Error, Parser};
use krpsim::stocks::Stocks;
use krpsim::tokens::Token;

fn strings(items: &[&str]) -> Vec<String> {
    items.iter().map(|t| t.to_string()).collect()
}

fn ident(t: &str) -> Token {
    Token::Identifier(t.to_string())
}

fn tokens_of(items: &[&str]) -> Vec<Token> {
    match lex(&strings(items)) {
        Ok(tokens) => tokens,
        Err(e) => panic!("the lexer stopped at line {} column {}", e.line, e.column),
    }
}

fn parse_of(items: &[&str]) -> (Parser, Result<(), Error>) {
    let mut parser = Parser::new(tokens_of(items));
    let r = parser.parse();
    (parser, r)
}

fn amounts_of(items: &[(&str, u64)]) -> Vec<(String, u64)> {
    items.iter().map(|(k, q)| (k.to_string(), *q)).collect()
}

#[test]
fn a_stock_line_is_cut_into_tokens() {
    assert_eq!(
        tokens_of(&["euro:10"]),
        vec![ident("euro"), Token::Colon, Token::Number(10), Token::NewLine]
    );
}

#[test]
fn a_process_line_is_cut_into_tokens() {
    assert_eq!(
        tokens_of(&["buy_apple:(euro:2;bag:1):(apple:1):30"]),
        vec![
            ident("buy_apple"),
            Token::Colon,
            Token::LeftParen,
            ident("euro"),
            Token::Colon,
            Token::Number(2),
            Token::Semicolon,
            ident("bag"),
            Token::Colon,
            Token::Number(1),
            Token::RightParen,
            Token::Colon,
            Token::LeftParen,
            ident("apple"),
            Token::Colon,
            Token::Number(1),
            Token::RightParen,
            Token::Colon,
            Token::Number(30),
            Token::NewLine,
        ]
    );
}

#[test]
fn the_keywords_are_told_from_identifiers() {
    assert_eq!(
        tokens_of(&["optimize:(time;timer;optimizer)"]),
        vec![
            Token::Optimize,
            Token::Colon,
            Token::LeftParen,
            Token::Time,
            Token::Semicolon,
            ident("timer"),
            Token::Semicolon,
            ident("optimizer"),
            Token::RightParen,
            Token::NewLine,
        ]
    );
}

#[test]
fn comments_give_no_token_and_empty_lines_one() {
    assert_eq!(
        tokens_of(&["# a comment with blanks", "", "a:1", "#b:2"]),
        vec![Token::NewLine, ident("a"), Token::Colon, Token::Number(1), Token::NewLine]
    );
    assert_eq!(tokens_of(&[]), vec![]);
}

#[test]
fn words_that_are_no_names_are_invalid() {
    assert_eq!(
        tokens_of(&["12ab:_x:99999999999999999999999"]),
        vec![
            Token::Invalid("12ab".to_string()),
            Token::Colon,
            Token::Invalid("_x".to_string()),
            Token::Colon,
            Token::Invalid("99999999999999999999999".to_string()),
            Token::NewLine,
        ]
    );
    assert_eq!(
        tokens_of(&["18446744073709551615"]),
        vec![Token::Number(u64::MAX), Token::NewLine]
    );
}

#[test]
fn a_number_moves_the_lexer_by_its_digits_without_leading_zeros() {
    assert_eq!(
        tokens_of(&["007"]),
        vec![Token::Number(7), Token::Number(7), Token::Number(7), Token::NewLine]
    );
    assert_eq!(tokens_of(&["0"]), vec![Token::Number(0), Token::NewLine]);
}

#[test]
fn a_name_moves_the_lexer_by_its_bytes() {
    assert_eq!(tokens_of(&["\u{e9}:1"]), vec![ident("\u{e9}"), Token::Number(1), Token::NewLine]);
    assert_eq!(tokens_of(&["ab\u{e9}:1"]), vec![ident("ab\u{e9}"), Token::Number(1), Token::NewLine]);
    assert_eq!(tokens_of(&["\u{4e2d}\u{6587}:12"]), vec![ident("\u{4e2d}\u{6587}"), Token::NewLine]);
}

#[test]
fn blanks_part_tokens_and_give_none() {
    assert_eq!(
        tokens_of(&[" a : 1 ", "b:  2"]),
        vec![
            ident("a"),
            Token::Colon,
            Token::Number(1),
            Token::NewLine,
            ident("b"),
            Token::Colon,
            Token::Number(2),
            Token::NewLine,
        ]
    );
    assert_eq!(tokens_of(&["a b"]), vec![ident("a"), ident("b"), Token::NewLine]);
    assert_eq!(tokens_of(&["   "]), vec![Token::NewLine]);
}

#[test]
fn the_lexer_stops_at_an_empty_word() {
    let stop = |items: &[&str]| match lex(&strings(items)) {
        Ok(_) => panic!("the lexer went on"),
        Err(e) => (e.line, e.column),
    };
    assert_eq!(stop(&["a:1", "b:\t2"]), (1, 2));
    assert_eq!(stop(&["\ta"]), (0, 0));
    assert_eq!(stop(&["#x", "a\t"]), (1, 1));
    assert_eq!(stop(&["a:1\r"]), (0, 3));
    assert_eq!(stop(&["a \t", "c d"]), (0, 2));
}

#[test]
fn a_lexer_can_be_driven_token_by_token() {
    let mut lexer = Lexer::new("time:x".to_string());
    let first = lexer.identifier();
    assert_eq!(first, Token::Time);
    assert_eq!(lexer.advance(&first), 4);
    assert_eq!(lexer.advance(&Token::Colon), 1);
    assert_eq!(lexer.identifier(), ident("x"));
    let mut tokens = vec![Token::Optimize];
    assert_eq!(lexer.tokenize(&mut tokens), Ok(()));
    assert_eq!(tokens, vec![Token::Optimize, ident("x"), Token::NewLine]);
    assert_eq!(lexer.advance(&Token::Optimize), 8);
    let mut stuck = Lexer::new("a\tb".to_string());
    let mut tokens = Vec::new();
    assert_eq!(stuck.tokenize(&mut tokens), Err(1));
    assert_eq!(tokens, vec![ident("a")]);
}

#[test]
fn digits_are_counted_and_delimiters_known() {
    assert_eq!(count_digits(0), 1);
    assert_eq!(count_digits(9), 1);
    assert_eq!(count_digits(10), 2);
    assert_eq!(count_digits(u64::MAX), 20);
    for c in " \t\n\r();:".chars() {
        assert!(is_delimiter_char(c));
    }
    for c in "a0_#,.".chars() {
        assert!(!is_delimiter_char(c));
    }
}

#[test]
fn tokens_are_compared_and_copied() {
    assert!(ident("a").same_as(&ident("a")));
    assert!(!ident("a").same_as(&ident("b")));
    assert!(!ident("a").same_as(&Token::Invalid("a".to_string())));
    assert!(Token::Number(3).same_as(&Token::Number(3)));
    assert!(!Token::Number(3).same_as(&Token::Number(4)));
    assert!(Token::Time.same_as(&Token::Time));
    assert!(!Token::Time.same_as(&Token::Optimize));
    assert_eq!(Token::Invalid("x".to_string()).duplicate(), Token::Invalid("x".to_string()));
    assert_eq!(Token::RightParen.duplicate(), Token::RightParen);
}

#[test]
fn a_description_is_parsed() {
    let (parser, r) = parse_of(&[
        "# apples",
        "euro:10",
        "",
        "buy_apple:(euro:2):(apple:1;bag:3):7",
        "eat:(apple:1;bag:1):(core:1):0",
        "optimize:(time;apple)",
    ]);
    assert!(r.is_ok());
    let data = parser.into_data().unwrap();
    let mut stocks = Stocks::new();
    stocks.set("euro".to_string(), 10);
    stocks.set("apple".to_string(), 0);
    stocks.set("bag".to_string(), 0);
    stocks.set("core".to_string(), 0);
    assert!(data.stocks.same_as(&stocks));
    assert_eq!(data.objectives, strings(&["time", "apple"]));
    assert_eq!(data.processes.len(), 2);
    assert_eq!(data.processes[0].id, "buy_apple");
    assert_eq!(data.processes[0].input, amounts_of(&[("euro", 2)]));
    assert_eq!(data.processes[0].output, amounts_of(&[("apple", 1), ("bag", 3)]));
    assert_eq!(data.processes[0].time, 7);
    assert_eq!(data.processes[1].id, "eat");
    assert_eq!(data.processes[1].time, 0);
}

#[test]
fn an_output_that_is_a_stock_keeps_its_quantity() {
    let (parser, r) = parse_of(&["a:4", "p:(a:1):(a:2;b:1):1", "optimize:(b)"]);
    assert!(r.is_ok());
    assert_eq!(parser.stocks.get(&"a".to_string()), 4);
    assert_eq!(parser.stocks.get(&"b".to_string()), 0);
    assert_eq!(parser.stocks.len(), 2);
}

#[test]
fn incomplete_descriptions_are_refused() {
    assert!(matches!(parse_of(&["a:1", "p:(a:1):(b:1):1"]).1, Err(Error::MissingOptimize)));
    assert!(matches!(parse_of(&["optimize:(a)"]).1, Err(Error::MissingStocks)));
    assert!(matches!(parse_of(&["a:1", "optimize:(a)"]).1, Err(Error::MissingProcess)));
    assert!(matches!(parse_of(&[]).1, Err(Error::MissingOptimize)));
    let (parser, _) = parse_of(&["a:1", "p:(a:1):(b:1):1"]);
    assert!(parser.into_data().is_none());
}

#[test]
fn names_used_twice_are_refused() {
    assert!(matches!(
        parse_of(&["optimize:(a)", "optimize:(b)"]).1,
        Err(Error::DuplicatedOptimize)
    ));
    assert!(matches!(parse_of(&["a:1", "a:2"]).1, Err(Error::DuplicatedIdentifier)));
    assert!(matches!(
        parse_of(&["a:1", "a:(a:1):(b:1):1"]).1,
        Err(Error::DuplicatedIdentifier)
    ));
    assert!(matches!(
        parse_of(&["a:1", "p:(a:1):(b:1):1", "p:(a:1):(c:1):1"]).1,
        Err(Error::DuplicatedIdentifier)
    ));
    assert!(matches!(
        parse_of(&["a:1", "p:(a:1):(b:1):1", "b:3"]).1,
        Err(Error::DuplicatedIdentifier)
    ));
    assert!(matches!(
        parse_of(&["a:1", "p:(a:1):(b:1):1", "p:5", "optimize:(b)"]).1,
        Err(Error::DuplicatedIdentifier)
    ));
    assert!(matches!(
        parse_of(&["p:(a:1):(b:1):1", "p:5", "optimize:(b)"]).1,
        Err(Error::DuplicatedIdentifier)
    ));
}

#[test]
fn lines_that_end_too_early_are_refused() {
    let early = |tokens: Vec<Token>| {
        let mut parser = Parser::new(tokens);
        parser.parse()
    };
    assert!(matches!(early(vec![ident("a")]), Err(Error::UnexpectedEOF)));
    assert!(matches!(early(vec![ident("a"), Token::Colon]), Err(Error::UnexpectedEOF)));
    assert!(matches!(
        early(vec![ident("a"), Token::Colon, Token::Number(1)]),
        Err(Error::UnexpectedEOF)
    ));
    assert!(matches!(
        early(vec![ident("p"), Token::Colon, Token::LeftParen, ident("a"), Token::Colon]),
        Err(Error::MissingProcess)
    ));
    assert!(matches!(
        early(vec![
            ident("p"),
            Token::Colon,
            Token::LeftParen,
            ident("a"),
            Token::Colon,
            Token::Number(1)
        ]),
        Err(Error::UnexpectedEOF)
    ));
    assert!(matches!(
        early(vec![Token::Optimize, Token::Colon, Token::LeftParen]),
        Err(Error::UnexpectedEOF)
    ));
    assert!(matches!(
        early(vec![Token::Optimize, Token::Colon, Token::LeftParen, Token::Time]),
        Err(Error::UnexpectedEOF)
    ));
}

#[test]
fn tokens_out_of_place_are_refused() {
    match parse_of(&["a:1", ":"]).1 {
        Err(Error::UnexpectedToken(t)) => assert_eq!(t, Token::Colon),
        _ => panic!("the colon was not refused"),
    }
    match parse_of(&["a:b"]).1 {
        Err(Error::UnexpectedToken(t)) => assert_eq!(t, ident("b")),
        _ => panic!("the name was not refused"),
    }
    match parse_of(&["a;1"]).1 {
        Err(Error::ExpectedToken(wanted, found)) => {
            assert_eq!(wanted, Token::Colon);
            assert_eq!(found, Token::Semicolon);
        },
        _ => panic!("the semicolon was not refused"),
    }
    match parse_of(&["p:(1:1):(b:1):1"]).1 {
        Err(Error::ExpectedToken(wanted, found)) => {
            assert_eq!(wanted, ident(""));
            assert_eq!(found, Token::Number(1));
        },
        _ => panic!("the number was not refused"),
    }
    match parse_of(&["p:(a:b):(b:1):1"]).1 {
        Err(Error::ExpectedToken(wanted, found)) => {
            assert_eq!(wanted, Token::Number(0));
            assert_eq!(found, ident("b"));
        },
        _ => panic!("the name was not refused"),
    }
    match parse_of(&["p:(a:1:(b:1):1"]).1 {
        Err(Error::UnexpectedToken(t)) => assert_eq!(t, Token::Colon),
        _ => panic!("the colon was not refused"),
    }
    match parse_of(&["optimize:(3)"]).1 {
        Err(Error::UnexpectedToken(t)) => assert_eq!(t, Token::Number(3)),
        _ => panic!("the number was not refused"),
    }
    match parse_of(&["optimize:(a:b)"]).1 {
        Err(Error::UnexpectedToken(t)) => assert_eq!(t, Token::Colon),
        _ => panic!("the colon was not refused"),
    }
    match parse_of(&["a:1;"]).1 {
        Err(Error::ExpectedToken(wanted, found)) => {
            assert_eq!(wanted, Token::NewLine);
            assert_eq!(found, Token::Semicolon);
        },
        _ => panic!("the semicolon was not refused"),
    }
    match parse_of(&["12ab:1"]).1 {
        Err(Error::UnexpectedToken(t)) => assert_eq!(t, Token::Invalid("12ab".to_string())),
        _ => panic!("the invalid word was not refused"),
    }
}

#[test]
fn a_parser_can_be_driven_piece_by_piece() {
    let mut parser = Parser::new(tokens_of(&["(a:1;b:2):x"]));
    assert_eq!(parser.peek(), Some(&Token::LeftParen));
    assert_eq!(parser.parse_tuple().unwrap(), amounts_of(&[("a", 1), ("b", 2)]));
    assert!(parser.consume(Token::Colon).is_ok());
    assert!(parser.consume(Token::Colon).is_err());
    assert_eq!(parser.consume_ident().unwrap(), "x");
    assert_eq!(parser.advance(), Token::NewLine);
    assert_eq!(parser.peek(), None);
    assert!(matches!(parser.parse_line(), Err(Error::ExpectedLine)));
    assert!(matches!(parser.consume_number(), Err(Error::MissingProcess)));
    let mut parser = Parser::new(tokens_of(&["5", "(a:1):(c:2):9", "optimize:(c)"]));
    assert!(parser.parse_stock("s".to_string()).is_ok());
    assert!(parser.parse_process("p".to_string()).is_ok());
    assert_eq!(parser.advance(), Token::NewLine);
    assert!(parser.parse_optimize().is_ok());
    assert_eq!(parser.optimize, Some(strings(&["c"])));
    assert_eq!(parser.stocks.get(&"s".to_string()), 5);
    assert!(parser.stocks.contains(&"c".to_string()));
    assert_eq!(parser.process[0].time, 9);
}
