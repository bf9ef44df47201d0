use lox_lang::parser::Parser;
use lox_lang::scanner::Scanner;
use lox_lang::token::{Literal, ParserError, Token, TokenType};

fn scan(src: &str) -> Parser {
    let mut parser = Parser::new(src.to_string());
    parser.scan_tokens();
    parser
}

fn kinds(tokens: &[Token]) -> Vec<TokenType> {
    tokens.iter().map(|t| t.token_type).collect()
}

#[test]
fn eof_always_last() {
    for src in ["", "abc", "\"unterminated", "@#$", "1 + 2", "// only a comment"] {
        let parser = scan(src);
        assert!(!parser.tokens.is_empty(), "no tokens for {:?}", src);
        let eof_count = parser
            .tokens
            .iter()
            .filter(|t| t.token_type == TokenType::Eof)
            .count();
        assert_eq!(eof_count, 1, "not exactly one end-of-input token for {:?}", src);
        assert_eq!(parser.tokens.last().unwrap().token_type, TokenType::Eof);
    }
}

#[test]
fn clean_input_has_no_errors() {
    let parser = scan("var x = 12.5; // set x\nprint (x >= 3) != true;");
    assert!(parser.errors.is_empty());
}

#[test]
fn bang_equal_is_one_token() {
    let parser = scan("!=");
    assert_eq!(kinds(&parser.tokens), vec![TokenType::BangEqual, TokenType::Eof]);
    assert!(parser.errors.is_empty());
}

#[test]
fn bang_then_identifier() {
    let parser = scan("!a");
    assert_eq!(
        kinds(&parser.tokens),
        vec![TokenType::Bang, TokenType::Identifier, TokenType::Eof]
    );
    assert_eq!(
        parser.tokens[1].literal,
        Some(Literal::Identifier("a".to_string()))
    );
}

#[test]
fn mismatched_compound_consumes_one_character() {
    let mut cursor = Scanner::new("!a".to_string());
    assert!(!cursor.advance_match('='));
    // Exactly the bang was consumed: the next character is still there.
    assert_eq!(cursor.peek(), Some('a'));
    assert_eq!(cursor.column, 2);
}

#[test]
fn matched_compound_consumes_two_characters() {
    let mut cursor = Scanner::new("<=3".to_string());
    assert!(cursor.advance_match('='));
    assert_eq!(cursor.peek(), Some('3'));
    assert_eq!(cursor.column, 3);
}

#[test]
fn line_numbers_follow_newlines() {
    let parser = scan("1\n2");
    assert_eq!(
        kinds(&parser.tokens),
        vec![TokenType::Number, TokenType::Number, TokenType::Eof]
    );
    assert_eq!(parser.tokens[0].line, 1);
    assert_eq!(parser.tokens[1].line, 2);
    assert_eq!(parser.tokens[1].column, 1);
}

#[test]
fn string_literal_value() {
    let parser = scan("\"hi\"");
    assert_eq!(kinds(&parser.tokens), vec![TokenType::Str, TokenType::Eof]);
    assert_eq!(parser.tokens[0].literal, Some(Literal::Str("hi".to_string())));
    assert!(parser.errors.is_empty());
}

#[test]
fn empty_string_literal() {
    let parser = scan("\"\"");
    assert_eq!(kinds(&parser.tokens), vec![TokenType::Str, TokenType::Eof]);
    assert_eq!(parser.tokens[0].literal, Some(Literal::Str(String::new())));
}

#[test]
fn string_may_span_lines() {
    let parser = scan("\"a\nb\"x");
    assert_eq!(
        kinds(&parser.tokens),
        vec![TokenType::Str, TokenType::Identifier, TokenType::Eof]
    );
    assert_eq!(parser.tokens[0].literal, Some(Literal::Str("a\nb".to_string())));
    assert_eq!(parser.tokens[0].line, 1);
    assert_eq!(parser.tokens[0].column, 1);
    // The closing quote stands at column 2 of line 2, so `x` is at column 3.
    assert_eq!(parser.tokens[1].line, 2);
    assert_eq!(parser.tokens[1].column, 3);
}

#[test]
fn unterminated_string_is_a_diagnostic() {
    let parser = scan("\"hi");
    assert_eq!(kinds(&parser.tokens), vec![TokenType::Eof]);
    assert_eq!(parser.errors.len(), 1);
    assert_eq!(parser.errors[0].error, "Unterminated string");
    assert_eq!(parser.errors[0].line, 1);
    assert_eq!(parser.errors[0].column, 1);
}

#[test]
fn number_with_fraction() {
    let parser = scan("3.14");
    assert_eq!(kinds(&parser.tokens), vec![TokenType::Number, TokenType::Eof]);
    match &parser.tokens[0].literal {
        Some(Literal::Number(text)) => {
            assert_eq!(text, "3.14");
            assert_eq!(text.parse::<f64>().unwrap(), 3.14);
        }
        other => panic!("expected a number literal, got {:?}", other),
    }
}

#[test]
fn trailing_dot_is_a_separate_token() {
    let parser = scan("3.");
    assert_eq!(
        kinds(&parser.tokens),
        vec![TokenType::Number, TokenType::Dot, TokenType::Eof]
    );
    assert_eq!(parser.tokens[0].literal, Some(Literal::Number("3".to_string())));
    assert_eq!(parser.tokens[1].column, 2);
}

#[test]
fn number_stops_at_second_dot() {
    let parser = scan("12.34.5");
    assert_eq!(
        kinds(&parser.tokens),
        vec![TokenType::Number, TokenType::Dot, TokenType::Number, TokenType::Eof]
    );
    assert_eq!(parser.tokens[0].literal, Some(Literal::Number("12.34".to_string())));
    assert_eq!(parser.tokens[2].literal, Some(Literal::Number("5".to_string())));
}

#[test]
fn leading_zeroes_are_kept() {
    let parser = scan("007");
    assert_eq!(parser.tokens[0].literal, Some(Literal::Number("007".to_string())));
}

#[test]
fn keyword_prefix_is_still_an_identifier() {
    let parser = scan("classroom");
    assert_eq!(kinds(&parser.tokens), vec![TokenType::Identifier, TokenType::Eof]);
    assert_eq!(
        parser.tokens[0].literal,
        Some(Literal::Identifier("classroom".to_string()))
    );
}

#[test]
fn exact_keyword_is_a_keyword() {
    let parser = scan("class");
    assert_eq!(kinds(&parser.tokens), vec![TokenType::Class, TokenType::Eof]);
    assert_eq!(parser.tokens[0].literal, None);
}

#[test]
fn all_keywords() {
    let parser = scan(
        "and class else false for fun if nil or print return super this true var while",
    );
    assert_eq!(
        kinds(&parser.tokens),
        vec![
            TokenType::And,
            TokenType::Class,
            TokenType::Else,
            TokenType::False,
            TokenType::For,
            TokenType::Fun,
            TokenType::If,
            TokenType::Nil,
            TokenType::Or,
            TokenType::Print,
            TokenType::Return,
            TokenType::Super,
            TokenType::This,
            TokenType::True,
            TokenType::Var,
            TokenType::While,
            TokenType::Eof,
        ]
    );
}

#[test]
fn identifier_with_underscores_and_digits() {
    let parser = scan("_foo_1");
    assert_eq!(kinds(&parser.tokens), vec![TokenType::Identifier, TokenType::Eof]);
    assert_eq!(
        parser.tokens[0].literal,
        Some(Literal::Identifier("_foo_1".to_string()))
    );
}

#[test]
fn bracket_kinds_are_conventional() {
    let parser = scan("(){}");
    assert_eq!(
        kinds(&parser.tokens),
        vec![
            TokenType::LeftParen,
            TokenType::RightParen,
            TokenType::LeftBrace,
            TokenType::RightBrace,
            TokenType::Eof,
        ]
    );
    for (i, token) in parser.tokens.iter().take(4).enumerate() {
        assert_eq!(token.line, 1);
        assert_eq!(token.column, i + 1);
    }
}

#[test]
fn punctuation_and_operators() {
    let parser = scan(", . - + ; * / = == < <= > >= !");
    assert_eq!(
        kinds(&parser.tokens),
        vec![
            TokenType::Comma,
            TokenType::Dot,
            TokenType::Minus,
            TokenType::Plus,
            TokenType::Semicolon,
            TokenType::Star,
            TokenType::Slash,
            TokenType::Equal,
            TokenType::EqualEqual,
            TokenType::Less,
            TokenType::LessEqual,
            TokenType::Greater,
            TokenType::GreaterEqual,
            TokenType::Bang,
            TokenType::Eof,
        ]
    );
}

#[test]
fn comment_produces_no_tokens() {
    let parser = scan("1 // two\n3");
    assert_eq!(
        kinds(&parser.tokens),
        vec![TokenType::Number, TokenType::Number, TokenType::Eof]
    );
    assert_eq!(parser.tokens[0].literal, Some(Literal::Number("1".to_string())));
    assert_eq!(parser.tokens[1].literal, Some(Literal::Number("3".to_string())));
    assert_eq!(parser.tokens[1].line, 2);
    assert!(parser.errors.is_empty());
}

#[test]
fn comment_at_end_of_input() {
    let parser = scan("// nothing else");
    assert_eq!(kinds(&parser.tokens), vec![TokenType::Eof]);
    assert!(parser.errors.is_empty());
}

#[test]
fn division_is_not_a_comment() {
    let parser = scan("8/2");
    assert_eq!(
        kinds(&parser.tokens),
        vec![TokenType::Number, TokenType::Slash, TokenType::Number, TokenType::Eof]
    );
}

#[test]
fn unexpected_character_is_reported_and_skipped() {
    let parser = scan("1 @ 2");
    assert_eq!(
        kinds(&parser.tokens),
        vec![TokenType::Number, TokenType::Number, TokenType::Eof]
    );
    assert_eq!(parser.errors.len(), 1);
    assert_eq!(parser.errors[0].error, "Unexpected character");
    assert_eq!(parser.errors[0].line, 1);
    assert_eq!(parser.errors[0].column, 3);
}

#[test]
fn every_unexpected_character_is_reported() {
    let parser = scan("@#");
    assert_eq!(kinds(&parser.tokens), vec![TokenType::Eof]);
    assert_eq!(parser.errors.len(), 2);
    assert_eq!(parser.errors[0].column, 1);
    assert_eq!(parser.errors[1].column, 2);
}

#[test]
fn whitespace_produces_nothing() {
    let parser = scan(" \r\t");
    assert_eq!(kinds(&parser.tokens), vec![TokenType::Eof]);
    assert!(parser.errors.is_empty());
}

#[test]
fn eof_token_position() {
    let parser = scan("ab\n");
    let eof = parser.tokens.last().unwrap();
    assert_eq!(eof.line, 2);
    assert_eq!(eof.column, 1);
}

#[test]
fn render_formats_position() {
    let err = ParserError::new(
        String::new(),
        "Unexpected character".to_string(),
        3,
        57,
    );
    assert_eq!(err.render(), "Error: Unexpected character at 3:57");
}

#[test]
fn cursor_next_and_next_line() {
    let mut cursor = Scanner::new("a\nb".to_string());
    assert_eq!(cursor.next(), Some('a'));
    assert_eq!((cursor.line, cursor.column), (1, 2));
    assert_eq!(cursor.next_line(), Some('\n'));
    assert_eq!((cursor.line, cursor.column), (2, 1));
    assert_eq!(cursor.next(), Some('b'));
    assert_eq!(cursor.next(), None);
}

#[test]
fn cursor_skip_line_stops_before_newline() {
    let mut cursor = Scanner::new("ab\ncd".to_string());
    cursor.skip_line();
    assert_eq!(cursor.peek(), Some('\n'));
    assert_eq!(cursor.line, 1);
}

#[test]
fn cursor_string_consumes_closing_quote() {
    let mut cursor = Scanner::new("\"xy\"z".to_string());
    assert_eq!(cursor.string(), Some("xy".to_string()));
    assert_eq!(cursor.peek(), Some('z'));
}

#[test]
fn cursor_number_stops_after_fraction() {
    let mut cursor = Scanner::new("12.5+".to_string());
    assert_eq!(cursor.number(), "12.5");
    assert_eq!(cursor.peek(), Some('+'));
}

#[test]
fn cursor_identifier_stops_at_non_word() {
    let mut cursor = Scanner::new("ab1_c-".to_string());
    assert_eq!(cursor.identifier(), "ab1_c");
    assert_eq!(cursor.peek(), Some('-'));
}
