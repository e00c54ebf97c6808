use json_study::lexer::{Data, Error, Lexer, Token};

fn lexer_for(input: &str) -> Lexer {
    Lexer::new(input.chars().collect())
}

/// Read tokens until the end-of-input token, asserting every read succeeds.
fn read_all(input: &str) -> Vec<Token> {
    let mut lexer = lexer_for(input);
    let mut tokens: Vec<Token> = vec![];
    loop {
        let result = lexer.read();
        assert!(result.is_ok());
        let token = result.unwrap();
        match token.data {
            Data::EOF => break,
            _ => tokens.push(token),
        }
    }
    tokens
}

/// Expected token payloads, numbers by their converted value.
enum Expect {
    S(&'static str),
    N(f64),
    True,
    False,
    Null,
    Colon,
    Comma,
    LeftBracket,
    RightBracket,
    LeftBrace,
    RightBrace,
}

fn check_data(actual: &[Token], expected: &[Expect]) {
    assert_eq!(actual.len(), expected.len());
    for (t, e) in actual.iter().zip(expected.iter()) {
        match (&t.data, e) {
            (Data::String(s), Expect::S(x)) => assert_eq!(s, x),
            (Data::Number(s), Expect::N(x)) => {
                assert_eq!(s.parse::<f64>().unwrap(), *x)
            }
            (Data::True, Expect::True) => {}
            (Data::False, Expect::False) => {}
            (Data::Null, Expect::Null) => {}
            (Data::Colon, Expect::Colon) => {}
            (Data::Comma, Expect::Comma) => {}
            (Data::LeftBracket, Expect::LeftBracket) => {}
            (Data::RightBracket, Expect::RightBracket) => {}
            (Data::LeftBrace, Expect::LeftBrace) => {}
            (Data::RightBrace, Expect::RightBrace) => {}
            (t, _) => panic!("unexpected token data: {:?}", t),
        }
    }
}

#[test]
fn test_lexer() {
    let input = r#"
        {
            "string": "Hello, 世界",
            "number_integer": 42,
            "number_negative": -123,
            "number_float": 3.14159,
            "number_exponent": 1.23e4,
            "boolean_true": true,
            "boolean_false": false,
            "null_value": null,
            "array": [
                "text",
                123,
                false,
                null,
                {
                "nested_key": "nested_value"
                }
            ],
            "object": {
                "key1": "value1",
                "key2": 2,
                "key3": true
            }
        }
        "#;

    let tokens = read_all(input);

    check_data(
        &tokens,
        &[
            Expect::LeftBrace,
            Expect::S("string"),
            Expect::Colon,
            Expect::S("Hello, 世界"),
            Expect::Comma,
            Expect::S("number_integer"),
            Expect::Colon,
            Expect::N(42.0_f64),
            Expect::Comma,
            Expect::S("number_negative"),
            Expect::Colon,
            Expect::N(-123.0_f64),
            Expect::Comma,
            Expect::S("number_float"),
            Expect::Colon,
            Expect::N(3.14159_f64),
            Expect::Comma,
            Expect::S("number_exponent"),
            Expect::Colon,
            Expect::N(12300.0_f64),
            Expect::Comma,
            Expect::S("boolean_true"),
            Expect::Colon,
            Expect::True,
            Expect::Comma,
            Expect::S("boolean_false"),
            Expect::Colon,
            Expect::False,
            Expect::Comma,
            Expect::S("null_value"),
            Expect::Colon,
            Expect::Null,
            Expect::Comma,
            Expect::S("array"),
            Expect::Colon,
            Expect::LeftBracket,
            Expect::S("text"),
            Expect::Comma,
            Expect::N(123.0_f64),
            Expect::Comma,
            Expect::False,
            Expect::Comma,
            Expect::Null,
            Expect::Comma,
            Expect::LeftBrace,
            Expect::S("nested_key"),
            Expect::Colon,
            Expect::S("nested_value"),
            Expect::RightBrace,
            Expect::RightBracket,
            Expect::Comma,
            Expect::S("object"),
            Expect::Colon,
            Expect::LeftBrace,
            Expect::S("key1"),
            Expect::Colon,
            Expect::S("value1"),
            Expect::Comma,
            Expect::S("key2"),
            Expect::Colon,
            Expect::N(2.0_f64),
            Expect::Comma,
            Expect::S("key3"),
            Expect::Colon,
            Expect::True,
            Expect::RightBrace,
            Expect::RightBrace,
        ],
    );
}

#[test]
fn test_unclosed_string() {
    let mut lexer = lexer_for("\"true");
    let result = lexer.read();
    assert!(result.is_err());
    match result.unwrap_err() {
        Error::UnclosedStringLiteral(line, pos) => {
            assert_eq!(line, (1, 1));
            assert_eq!(pos, (1, 5));
        }
        e => panic!("unexpected error: {:?}", e),
    }
}

#[test]
fn test_string_token_positions() {
    let mut lexer = lexer_for("\"boon\"");
    let token = lexer.read().unwrap();
    assert_eq!(token.line, (1, 1));
    assert_eq!(token.pos, (1, 6));
    match token.data {
        Data::String(s) => assert_eq!(s, "boon"),
        d => panic!("unexpected token data: {:?}", d),
    }
}

#[test]
fn test_string_escape_taken_verbatim() {
    let mut lexer = lexer_for(r#""\"english\"""#);
    let token = lexer.read().unwrap();
    assert_eq!(token.line, (1, 1));
    assert_eq!(token.pos, (1, 13));
    match token.data {
        Data::String(s) => assert_eq!(s, r#""english""#),
        d => panic!("unexpected token data: {:?}", d),
    }
}

#[test]
fn test_number_tokens() {
    let cases: [(&str, (usize, usize), f64); 6] = [
        ("123", (1, 3), 123.0_f64),
        ("-123", (1, 4), -123.0_f64),
        ("3.14", (1, 4), 3.14_f64),
        ("-0.01", (1, 5), -0.01_f64),
        ("1e6", (1, 3), 1e6_f64),
        ("-2.5E-3", (1, 7), -2.5E-3_f64),
    ];
    for (input, pos, value) in cases.iter() {
        let mut lexer = lexer_for(input);
        let token = lexer.read().unwrap();
        assert_eq!(token.line, (1, 1));
        assert_eq!(token.pos, *pos);
        match token.data {
            Data::Number(s) => {
                assert_eq!(&s, input);
                assert_eq!(s.parse::<f64>().unwrap(), *value);
            }
            d => panic!("unexpected token data: {:?}", d),
        }
    }
}

#[test]
fn test_invalid_number_spans_whole_run() {
    for input in ["3.14.14", "-3E14E1", "--11223"].iter() {
        let mut lexer = lexer_for(input);
        let result = lexer.read();
        assert!(result.is_err());
        match result.unwrap_err() {
            Error::InvalidNumber(text, line, pos) => {
                assert_eq!(&text, input);
                assert_eq!(line, (1, 1));
                assert_eq!(pos, (1, 7));
            }
            e => panic!("unexpected error: {:?}", e),
        }
    }
}

#[test]
fn test_keyword_tokens() {
    let mut lexer = lexer_for("true");
    let token = lexer.read().unwrap();
    assert_eq!(token.line, (1, 1));
    assert_eq!(token.pos, (1, 4));
    assert!(matches!(token.data, Data::True));

    let mut lexer = lexer_for("false");
    let token = lexer.read().unwrap();
    assert_eq!(token.pos, (1, 5));
    assert!(matches!(token.data, Data::False));

    let mut lexer = lexer_for("null");
    let token = lexer.read().unwrap();
    assert_eq!(token.pos, (1, 4));
    assert!(matches!(token.data, Data::Null));
}

#[test]
fn test_keyword_mismatch() {
    let mut lexer = lexer_for("truthy");
    let result = lexer.read();
    assert!(result.is_err());
    match result.unwrap_err() {
        Error::InvalidToken(name, line, pos) => {
            assert_eq!(name, "true");
            assert_eq!(line, (1, 1));
            // "tru" matches; the mismatch stands at the fourth character.
            assert_eq!(pos, (1, 4));
        }
        e => panic!("unexpected error: {:?}", e),
    }
}

#[test]
fn test_positions_across_lines() {
    let tokens = read_all("{\n  \"a\": 1\n}");
    assert_eq!(tokens.len(), 5);
    assert_eq!(tokens[0].line, (1, 1));
    assert_eq!(tokens[0].pos, (1, 1));
    assert_eq!(tokens[1].line, (2, 2));
    assert_eq!(tokens[1].pos, (3, 5));
    assert_eq!(tokens[2].line, (2, 2));
    assert_eq!(tokens[2].pos, (6, 6));
    assert_eq!(tokens[3].line, (2, 2));
    assert_eq!(tokens[3].pos, (8, 8));
    assert_eq!(tokens[4].line, (3, 3));
    assert_eq!(tokens[4].pos, (1, 1));
}

#[test]
fn test_eof_token_repeats() {
    let mut lexer = lexer_for("  ");
    for _ in 0..3 {
        let token = lexer.read().unwrap();
        assert!(matches!(token.data, Data::EOF));
    }
}
