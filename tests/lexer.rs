use script_lexer::lexer::new_lexer;
use script_lexer::token::Token;

fn lex_all(input: &str, n: usize) -> Vec<Token> {
    let mut lexer = new_lexer(input);
    let mut out = Vec::new();
    for _ in 0..n {
        out.push(lexer.next_token());
    }
    out
}

#[test]
fn test_tokenize_var_declaration() {
    let input = "var test = 5;";
    let mut tokens = new_lexer(input);

    let expected = vec![
        Token::Var,
        Token::Ident("test".to_string()),
        Token::Assign,
        Token::Integer(5),
        Token::Semicolon,
        Token::EOF,
    ];

    for token_expected in expected.iter() {
        let token = tokens.next_token();
        assert_eq!(&token, token_expected);
    }
}

#[test]
fn test_tokenize_if_else_statement() {
    let input = "if true { var x = 5 } else { var y = 5 }";
    let mut tokens = new_lexer(input);

    let expected = vec![
        Token::If,
        Token::Boolean(true),
        Token::LBrace,
        Token::Var,
        Token::Ident("x".to_string()),
        Token::Assign,
        Token::Integer(5),
        Token::RBrace,
        Token::Else,
        Token::LBrace,
        Token::Var,
        Token::Ident("y".to_string()),
        Token::Assign,
        Token::Integer(5),
        Token::RBrace,
    ];

    for token_expected in expected.iter() {
        let token = tokens.next_token();
        assert_eq!(&token, token_expected);
    }
}

#[test]
fn test_tokenize_numeric_expression() {
    let input = "var myVar = 10 * 300 + 500; \
                      return myVar";
    let mut tokens = new_lexer(input);

    let expected = vec![
        Token::Var,
        Token::Ident("myVar".to_string()),
        Token::Assign,
        Token::Integer(10),
        Token::Asterisk,
        Token::Integer(300),
        Token::Plus,
        Token::Integer(500),
        Token::Semicolon,
        Token::Return,
        Token::Ident("myVar".to_string()),
    ];

    for token_expected in expected.iter() {
        let token = tokens.next_token();
        assert_eq!(&token, token_expected);
    }
}

#[test]
fn if_else_statement_ends_with_eof() {
    let tokens = lex_all("if true { var x = 5 } else { var y = 5 }", 16);
    assert_eq!(tokens[15], Token::EOF);
}

#[test]
fn numeric_expression_ends_with_eof() {
    let tokens = lex_all("var myVar = 10 * 300 + 500; return myVar", 12);
    assert_eq!(tokens[11], Token::EOF);
}

#[test]
fn whitespace_only_input_is_end_of_input() {
    for input in ["", " ", "  \t\n\r ", "\u{a0}\u{2003}\u{3000}\u{85}"] {
        assert_eq!(lex_all(input, 1), vec![Token::EOF]);
    }
}

#[test]
fn end_of_input_repeats() {
    assert_eq!(
        lex_all("x", 5),
        vec![Token::Ident("x".to_string()), Token::EOF, Token::EOF, Token::EOF, Token::EOF]
    );
    assert_eq!(lex_all("", 4), vec![Token::EOF, Token::EOF, Token::EOF, Token::EOF]);
}

#[test]
fn double_equals_is_one_token() {
    assert_eq!(lex_all("==", 2), vec![Token::Eq, Token::EOF]);
}

#[test]
fn equals_then_word_is_assign() {
    assert_eq!(lex_all("=a", 3), vec![Token::Assign, Token::Ident("a".to_string()), Token::EOF]);
}

#[test]
fn comparison_operators() {
    assert_eq!(
        lex_all("!= ! <= < >= > = ==", 9),
        vec![
            Token::NotEq,
            Token::Bang,
            Token::Lte,
            Token::Lt,
            Token::Gte,
            Token::Gt,
            Token::Assign,
            Token::Eq,
            Token::EOF,
        ]
    );
}

#[test]
fn lone_operators_at_end_of_input() {
    assert_eq!(lex_all("=", 2), vec![Token::Assign, Token::EOF]);
    assert_eq!(lex_all("!", 2), vec![Token::Bang, Token::EOF]);
    assert_eq!(lex_all("<", 2), vec![Token::Lt, Token::EOF]);
    assert_eq!(lex_all(">", 2), vec![Token::Gt, Token::EOF]);
}

#[test]
fn punctuation() {
    assert_eq!(
        lex_all(":,{}()+-][;*/", 14),
        vec![
            Token::Colon,
            Token::Comma,
            Token::LBrace,
            Token::RBrace,
            Token::LParen,
            Token::RParen,
            Token::Plus,
            Token::Minus,
            Token::RBracket,
            Token::LBracket,
            Token::Semicolon,
            Token::Asterisk,
            Token::Slash,
            Token::EOF,
        ]
    );
}

#[test]
fn keywords() {
    assert_eq!(
        lex_all("var function true false if else return variable", 9),
        vec![
            Token::Var,
            Token::Function,
            Token::Boolean(true),
            Token::Boolean(false),
            Token::If,
            Token::Else,
            Token::Return,
            Token::Ident("variable".to_string()),
            Token::EOF,
        ]
    );
}

#[test]
fn unterminated_string() {
    assert_eq!(lex_all("\"abc", 3), vec![Token::String("abc".to_string()), Token::EOF, Token::EOF]);
}

#[test]
fn strings() {
    assert_eq!(
        lex_all("\"\" \"hello world\" x", 4),
        vec![
            Token::String(String::new()),
            Token::String("hello world".to_string()),
            Token::Ident("x".to_string()),
            Token::EOF,
        ]
    );
}

#[test]
fn digits_end_an_identifier() {
    assert_eq!(
        lex_all("abc123", 3),
        vec![Token::Ident("abc".to_string()), Token::Integer(123), Token::EOF]
    );
}

#[test]
fn non_ascii_letters_form_identifiers() {
    assert_eq!(lex_all("héllo", 2), vec![Token::Ident("héllo".to_string()), Token::EOF]);
}

#[test]
fn illegal_character_then_scanning_goes_on() {
    assert_eq!(
        lex_all("@ 1 #", 4),
        vec![Token::Illegal, Token::Integer(1), Token::Illegal, Token::EOF]
    );
}

#[test]
fn null_character_reads_as_end_of_input() {
    assert_eq!(
        lex_all("a\0b", 4),
        vec![Token::Ident("a".to_string()), Token::EOF, Token::Ident("b".to_string()), Token::EOF]
    );
}

#[test]
fn largest_integer() {
    assert_eq!(lex_all("2147483647", 2), vec![Token::Integer(i32::MAX), Token::EOF]);
    assert_eq!(lex_all("007", 1), vec![Token::Integer(7)]);
}

#[test]
fn integer_overflow_is_reported() {
    let mut lexer = new_lexer("2147483648 x");
    assert_eq!(lexer.try_next_token(), None);
    assert_eq!(lexer.try_next_token(), Some(Token::Ident("x".to_string())));
    assert_eq!(lexer.try_next_token(), Some(Token::EOF));
}

#[test]
fn relexing_token_texts_gives_the_same_tokens() {
    let tokens = vec![
        Token::Ident("abc".to_string()),
        Token::Integer(42),
        Token::String("hi there".to_string()),
        Token::Boolean(false),
        Token::Eq,
        Token::Lte,
        Token::Assign,
        Token::Integer(0),
        Token::Ident("ünïcode".to_string()),
        Token::String(String::new()),
        Token::Function,
    ];
    let text = "abc 42 \"hi there\" false == <= = 0 ünïcode \"\" function ";
    let mut expected = tokens.clone();
    expected.push(Token::EOF);
    assert_eq!(lex_all(text, expected.len()), expected);
}
