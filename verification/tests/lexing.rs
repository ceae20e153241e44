use tinybasic::lexer::{
    keyword_token, lex_source, number_token, parse_ident, parse_keyword, parse_num, parse_strlit,
    CharStream, LexError,
};
use tinybasic::token::Token;

#[test]
fn test_parse_strlit() {
    let mut input = CharStream::new("I am quite hungry\"");
    assert_eq!(
        parse_strlit(&mut input),
        Ok(Token::StrLit("I am quite hungry".to_string()))
    );
    let mut input = CharStream::new("He said, \\\"Feed Me!\\\" hungrily\"");
    assert_eq!(
        parse_strlit(&mut input),
        Ok(Token::StrLit("He said, \"Feed Me!\" hungrily".to_string()))
    );
    let mut input = CharStream::new("BACON!");
    assert_eq!(parse_strlit(&mut input), Err(LexError::UnterminatedString));
    assert_eq!(
        LexError::UnterminatedString.message(),
        "unterminated string literal!"
    );
}

#[test]
fn test_parse_num() {
    let input = "15";
    let mut chars = CharStream::new(input);
    assert_eq!(
        parse_num(chars.next().unwrap(), &mut chars),
        Some(Token::Int(15))
    );
    let input = "3.1415";
    let mut chars = CharStream::new(input);
    let token = parse_num(chars.next().unwrap(), &mut chars);
    assert_eq!(token, Some(Token::Float("3.1415".to_string())));
    match token {
        Some(Token::Float(text)) => assert_eq!(text.parse::<f32>(), Ok(3.1415)),
        _ => panic!("not a float literal"),
    }
}

#[test]
fn test_parse_keyword() {
    let input = "IF something == 0 ENDIF";
    let mut chars = CharStream::new(input);
    assert_eq!(
        parse_keyword(chars.next().unwrap(), &mut chars),
        Some(Token::If)
    );
}

#[test]
fn test_parse_tokens() {
    assert_eq!(
        lex_source("+-=+=="),
        Ok(vec![
            Token::Add,
            Token::Sub,
            Token::Assign,
            Token::Add,
            Token::Equals
        ])
    );

    assert_eq!(
        lex_source("IF something == BANANA ENDIF grape"),
        Ok(vec![
            Token::If,
            Token::Ident("something".to_string()),
            Token::Equals,
            Token::Ident("BANANA".to_string()),
            Token::EndIf,
            Token::Ident("grape".to_string()),
        ])
    );

    assert_eq!(
        lex_source("WHILE something == 0 11.11 ENDWHILE"),
        Ok(vec![
            Token::While,
            Token::Ident("something".to_string()),
            Token::Equals,
            Token::Int(0),
            Token::Float("11.11".to_string()),
            Token::EndWhile,
        ])
    );

    assert_eq!(
        lex_source("IF+-123 foo*THEN/\n"),
        Ok(vec![
            Token::If,
            Token::Add,
            Token::Sub,
            Token::Int(123),
            Token::Ident("foo".to_string()),
            Token::Mul,
            Token::Then,
            Token::Div,
            Token::NewLine,
        ])
    );
}

#[test]
fn test_parse_ident() {
    let input = "key = valu3";
    let mut chars = CharStream::new(input);
    let first = chars.next().unwrap();
    assert_eq!(
        parse_ident(first, &mut chars),
        Some(Token::Ident("key".to_string()))
    );
    assert_eq!(chars.next(), Some(' '));
    assert_eq!(chars.next(), Some('='));
    assert_eq!(chars.next(), Some(' '));
    assert_eq!(
        parse_ident(chars.next().unwrap(), &mut chars),
        Some(Token::Ident("valu3".to_string()))
    );
}

#[test]
fn cursor_peeks_without_taking() {
    let mut chars = CharStream::new("ab");
    assert_eq!(chars.peek(), Some('a'));
    assert_eq!(chars.next(), Some('a'));
    assert_eq!(chars.peek(), Some('b'));
    assert_eq!(chars.next(), Some('b'));
    assert_eq!(chars.peek(), None);
    assert_eq!(chars.next(), None);
    assert_eq!(chars.next(), None);
}

#[test]
fn empty_source_has_no_tokens() {
    assert_eq!(lex_source(""), Ok(vec![]));
    assert_eq!(lex_source(" \t  "), Ok(vec![]));
}

#[test]
fn relations_are_lexed() {
    assert_eq!(
        lex_source("> >= < <= == != ="),
        Ok(vec![
            Token::Gt,
            Token::Gte,
            Token::Lt,
            Token::Lte,
            Token::Equals,
            Token::NotEquals,
            Token::Assign,
        ])
    );
    assert_eq!(lex_source(">"), Ok(vec![Token::Gt]));
    assert_eq!(lex_source("<"), Ok(vec![Token::Lt]));
    assert_eq!(lex_source("="), Ok(vec![Token::Assign]));
    assert_eq!(lex_source("==="), Ok(vec![Token::Equals, Token::Assign]));
}

#[test]
fn lone_exclamation_mark_is_invalid() {
    assert_eq!(
        lex_source("!a"),
        Ok(vec![
            Token::Invalid("!".to_string()),
            Token::Ident("a".to_string())
        ])
    );
    assert_eq!(lex_source("!"), Ok(vec![Token::Invalid("!".to_string())]));
}

#[test]
fn every_keyword_is_recognised() {
    assert_eq!(
        lex_source("IF THEN ENDIF WHILE REPEAT ENDWHILE PRINT INPUT LET LABEL GOTO"),
        Ok(vec![
            Token::If,
            Token::Then,
            Token::EndIf,
            Token::While,
            Token::Repeat,
            Token::EndWhile,
            Token::Print,
            Token::Input,
            Token::Let,
            Token::Label,
            Token::Goto,
        ])
    );
}

#[test]
fn keyword_token_matches_whole_words_only() {
    assert_eq!(keyword_token("IF".to_string()), Token::If);
    assert_eq!(keyword_token("IFF".to_string()), Token::Ident("IFF".to_string()));
    assert_eq!(keyword_token("if".to_string()), Token::Ident("if".to_string()));
    assert_eq!(keyword_token("".to_string()), Token::Ident("".to_string()));
    assert_eq!(keyword_token("GOTO".to_string()), Token::Goto);
    assert_eq!(keyword_token("LABEL".to_string()), Token::Label);
}

#[test]
fn capitals_stop_a_keyword_scan() {
    // A keyword run holds capitals only, so the small letters start a name of their own.
    assert_eq!(
        lex_source("IFx"),
        Ok(vec![Token::If, Token::Ident("x".to_string())])
    );
    assert_eq!(
        lex_source("Print"),
        Ok(vec![
            Token::Ident("P".to_string()),
            Token::Ident("rint".to_string())
        ])
    );
    assert_eq!(
        lex_source("A1"),
        Ok(vec![Token::Ident("A".to_string()), Token::Int(1)])
    );
}

#[test]
fn names_take_digits_and_underscores() {
    assert_eq!(
        lex_source("a_1b2 _x"),
        Ok(vec![
            Token::Ident("a_1b2".to_string()),
            Token::Invalid("_".to_string()),
            Token::Ident("x".to_string()),
        ])
    );
}

#[test]
fn unicode_letters_make_names() {
    assert_eq!(
        lex_source("größe = 1"),
        Ok(vec![
            Token::Ident("größe".to_string()),
            Token::Assign,
            Token::Int(1)
        ])
    );
    assert_eq!(lex_source("ÉTÉ"), Ok(vec![Token::Ident("ÉTÉ".to_string())]));
}

#[test]
fn numbers_with_points() {
    assert_eq!(lex_source("1."), Ok(vec![Token::Float("1.".to_string())]));
    assert_eq!(lex_source("0.5"), Ok(vec![Token::Float("0.5".to_string())]));
    assert_eq!(
        lex_source("1.2.3"),
        Ok(vec![Token::Invalid("1.2.3".to_string())])
    );
    assert_eq!(lex_source("1.."), Ok(vec![Token::Invalid("1..".to_string())]));
    assert_eq!(
        lex_source(".5"),
        Ok(vec![Token::Invalid(".".to_string()), Token::Int(5)])
    );
}

#[test]
fn float_literals_are_those_that_parse_as_floats() {
    for text in ["1.", "0.5", "3.1415", "11.11", "1.2.3", "1..", "7.0.", "12345678901234567890.5"] {
        let lexed = lex_source(text).unwrap();
        assert_eq!(lexed.len(), 1);
        match &lexed[0] {
            Token::Float(kept) => {
                assert_eq!(kept, text);
                assert!(text.parse::<f32>().is_ok());
            }
            Token::Invalid(kept) => {
                assert_eq!(kept, text);
                assert!(text.parse::<f32>().is_err());
            }
            other => panic!("unexpected token {:?}", other),
        }
    }
}

#[test]
fn integers_up_to_the_32_bit_limit() {
    assert_eq!(lex_source("0"), Ok(vec![Token::Int(0)]));
    assert_eq!(lex_source("007"), Ok(vec![Token::Int(7)]));
    assert_eq!(lex_source("2147483647"), Ok(vec![Token::Int(2147483647)]));
    assert_eq!(lex_source("0000000002147483647"), Ok(vec![Token::Int(2147483647)]));
}

#[test]
fn integer_that_does_not_fit_is_invalid() {
    // The digits are taken; the token holds the first of them only.
    assert_eq!(
        lex_source("2147483648"),
        Ok(vec![Token::Invalid("2".to_string())])
    );
    assert_eq!(
        lex_source("99999999999 a"),
        Ok(vec![
            Token::Invalid("9".to_string()),
            Token::Ident("a".to_string())
        ])
    );
    let mut chars = CharStream::new("147483648+");
    assert_eq!(parse_num('2', &mut chars), None);
    assert_eq!(chars.next(), Some('+'));
}

#[test]
fn number_token_by_kind() {
    let digits: Vec<char> = "42".chars().collect();
    assert_eq!(number_token(&digits), Some(Token::Int(42)));
    let digits: Vec<char> = "4.2".chars().collect();
    assert_eq!(number_token(&digits), Some(Token::Float("4.2".to_string())));
    let digits: Vec<char> = "4.2.".chars().collect();
    assert_eq!(number_token(&digits), Some(Token::Invalid("4.2.".to_string())));
    let digits: Vec<char> = "4294967296".chars().collect();
    assert_eq!(number_token(&digits), None);
}

#[test]
fn rules_decline_other_first_characters() {
    let mut chars = CharStream::new("bc");
    assert_eq!(parse_keyword('a', &mut chars), None);
    assert_eq!(parse_ident('1', &mut chars), None);
    assert_eq!(parse_num('a', &mut chars), None);
    assert_eq!(chars.next(), Some('b'));
}

#[test]
fn string_literals_in_a_line() {
    assert_eq!(
        lex_source("PRINT \"hello, world\"\n"),
        Ok(vec![
            Token::Print,
            Token::StrLit("hello, world".to_string()),
            Token::NewLine
        ])
    );
    assert_eq!(lex_source("\"\""), Ok(vec![Token::StrLit("".to_string())]));
    assert_eq!(
        lex_source("\"a\nb\""),
        Ok(vec![Token::StrLit("a\nb".to_string())])
    );
}

#[test]
fn string_escapes() {
    // \\ gives one backslash, \" a quote, and any other backslash stays as it is.
    assert_eq!(
        lex_source("\"a\\\\b\""),
        Ok(vec![Token::StrLit("a\\b".to_string())])
    );
    assert_eq!(
        lex_source("\"a\\nb\""),
        Ok(vec![Token::StrLit("a\\nb".to_string())])
    );
    assert_eq!(
        lex_source("\"\\\"\""),
        Ok(vec![Token::StrLit("\"".to_string())])
    );
}

#[test]
fn unterminated_string_is_the_only_error() {
    assert_eq!(lex_source("\""), Err(LexError::UnterminatedString));
    assert_eq!(lex_source("PRINT \"abc"), Err(LexError::UnterminatedString));
    assert_eq!(lex_source("\"abc\\\""), Err(LexError::UnterminatedString));
    assert_eq!(lex_source("\"abc\\"), Err(LexError::UnterminatedString));
    assert_eq!(lex_source("\"a\" \"b"), Err(LexError::UnterminatedString));
}

#[test]
fn text_without_quotes_always_lexes() {
    for text in [
        "+-*/\n",
        "abc DEF ghi\n",
        "+a-B*c/D\n\n",
        "@#$%^&()[]{}~`|;:',?",
        "1.2.3.4 99999999999999999999",
        "\u{0}\u{7f}\u{10ffff}",
    ] {
        assert!(lex_source(text).is_ok());
    }
}

#[test]
fn one_token_for_each_operator_and_letter_run() {
    let tokens = lex_source("+ab-CD*e/\nfg").unwrap();
    assert_eq!(
        tokens,
        vec![
            Token::Add,
            Token::Ident("ab".to_string()),
            Token::Sub,
            Token::Ident("CD".to_string()),
            Token::Mul,
            Token::Ident("e".to_string()),
            Token::Div,
            Token::NewLine,
            Token::Ident("fg".to_string()),
        ]
    );
}

#[test]
fn unknown_characters_become_invalid_tokens() {
    assert_eq!(
        lex_source("a ? b"),
        Ok(vec![
            Token::Ident("a".to_string()),
            Token::Invalid("?".to_string()),
            Token::Ident("b".to_string()),
        ])
    );
    assert_eq!(lex_source("\r"), Ok(vec![Token::Invalid("\r".to_string())]));
}

#[test]
fn tokens_compare_by_value() {
    assert_eq!(Token::Ident("a".to_string()), Token::Ident("a".to_string()));
    assert_ne!(Token::Ident("a".to_string()), Token::Ident("b".to_string()));
    assert_ne!(Token::Ident("a".to_string()), Token::StrLit("a".to_string()));
    assert_ne!(Token::Int(1), Token::Int(2));
    assert_ne!(Token::If, Token::EndIf);
    let token = Token::Float("1.5".to_string());
    assert_eq!(token.clone(), token);
}

#[test]
fn quote_and_line_break_are_no_letters() {
    // What the laws on texts of letters are granted of the character classes.
    assert!(!'"'.is_alphabetic());
    assert!(!'\n'.is_uppercase());
    assert!(!'\n'.is_alphanumeric());
}

#[test]
fn names_and_numbers_hold_no_line_break() {
    let tokens = lex_source("LET abc = 1.5\nPRINT \"x\"\nLET B_2 = abc\n").unwrap();
    for token in &tokens {
        match token {
            Token::Ident(text) | Token::Float(text) => assert!(!text.contains('\n')),
            _ => {}
        }
    }
}
