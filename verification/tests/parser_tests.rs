use std::collections::BTreeMap;

use json_study::lexer::Error as LexError;
use json_study::{Error, Node, Parser};

fn parser_for(input: &str) -> Parser {
    Parser::new(input.chars().collect())
}

fn parse_one(input: &str) -> Result<Node, Error> {
    parser_for(input).parse()
}

/// A normalized tree for comparison: numbers converted to floats, objects
/// as ordered maps so member order does not matter.
#[derive(Debug, PartialEq)]
enum V {
    S(String),
    N(f64),
    True,
    False,
    Null,
    A(Vec<V>),
    O(BTreeMap<String, V>),
    End,
}

fn norm(node: &Node) -> V {
    match node {
        Node::String(s) => V::S(s.clone()),
        Node::Number(s) => V::N(s.parse::<f64>().unwrap()),
        Node::True => V::True,
        Node::False => V::False,
        Node::Null => V::Null,
        Node::Array(items) => V::A(items.iter().map(norm).collect()),
        Node::Object(members) => V::O(
            members.iter().map(|(k, v)| (k.clone(), norm(v))).collect(),
        ),
        Node::EOF => V::End,
    }
}

fn obj(members: Vec<(&str, V)>) -> V {
    V::O(members.into_iter().map(|(k, v)| (k.to_string(), v)).collect())
}

#[test]
fn test_parser() {
    let input = r#"
        {
            "string": "Hello, 世界",
            "number_integer": 42,
            "number_negative": -123,
            "number_float": 3.14159,
            "number_exponent": 1.23e4,
            "boolean_true": true,
            "boolean_false": false,
            "null_value": null,
            "array": [
                "text",
                123,
                false,
                null,
                {
                "nested_key": "nested_value"
                }
            ],
            "object": {
                "key1": "value1",
                "key2": 2,
                "key3": true
            }
        }
        "#;

    let mut parser = parser_for(input);
    let result = parser.parse();
    assert!(result.is_ok());
    let result = result.unwrap();

    let expected = obj(vec![
        (
            "array",
            V::A(vec![
                V::S("text".to_string()),
                V::N(123.0),
                V::False,
                V::Null,
                obj(vec![("nested_key", V::S("nested_value".to_string()))]),
            ]),
        ),
        ("boolean_false", V::False),
        ("boolean_true", V::True),
        ("null_value", V::Null),
        ("number_exponent", V::N(12300.0)),
        ("number_float", V::N(3.14159)),
        ("number_integer", V::N(42.0)),
        ("number_negative", V::N(-123.0)),
        (
            "object",
            obj(vec![
                ("key1", V::S("value1".to_string())),
                ("key2", V::N(2.0)),
                ("key3", V::True),
            ]),
        ),
        ("string", V::S("Hello, 世界".to_string())),
    ]);
    assert_eq!(norm(&result), expected);

    let result = parser.parse();
    assert!(result.is_ok());
    assert!(matches!(result.unwrap(), Node::EOF));
}

#[test]
fn test_eof_after_value() {
    let mut parser = parser_for("  42  ");
    let first = parser.parse().unwrap();
    assert_eq!(norm(&first), V::N(42.0));
    assert!(matches!(parser.parse().unwrap(), Node::EOF));
    assert!(matches!(parser.parse().unwrap(), Node::EOF));
}

#[test]
fn test_multiple_top_level_values() {
    let mut parser = parser_for("1 true \"x\" [2]");
    assert_eq!(norm(&parser.parse().unwrap()), V::N(1.0));
    assert_eq!(norm(&parser.parse().unwrap()), V::True);
    assert_eq!(norm(&parser.parse().unwrap()), V::S("x".to_string()));
    assert_eq!(norm(&parser.parse().unwrap()), V::A(vec![V::N(2.0)]));
    assert!(matches!(parser.parse().unwrap(), Node::EOF));
}

#[test]
fn test_empty_input_is_eof() {
    assert!(matches!(parse_one("").unwrap(), Node::EOF));
    assert!(matches!(parse_one(" \t\r\n ").unwrap(), Node::EOF));
}

#[test]
fn test_duplicate_keys_last_wins() {
    let result = parse_one("{\"a\":1,\"a\":2}").unwrap();
    match &result {
        Node::Object(members) => {
            assert_eq!(members.len(), 1);
            assert_eq!(members[0].0, "a");
        }
        n => panic!("unexpected node: {:?}", n),
    }
    assert_eq!(norm(&result), obj(vec![("a", V::N(2.0))]));
}

#[test]
fn test_number_conversions() {
    let cases: [(&str, f64); 5] = [
        ("123", 123.0),
        ("-123", -123.0),
        ("3.14", 3.14),
        ("1e6", 1000000.0),
        ("-2.5E-3", -0.0025),
    ];
    for (input, value) in cases.iter() {
        let node = parse_one(input).unwrap();
        assert_eq!(norm(&node), V::N(*value));
    }
}

#[test]
fn test_invalid_numbers_rejected() {
    for input in ["3.14.14", "-3E14E1", "--11223"].iter() {
        let result = parse_one(input);
        match result.unwrap_err() {
            Error::LexerError(LexError::InvalidNumber(text, line, pos)) => {
                assert_eq!(&text, input);
                assert_eq!(line, (1, 1));
                assert_eq!(pos, (1, 7));
            }
            e => panic!("unexpected error: {:?}", e),
        }
    }
}

#[test]
fn test_unclosed_string_through_parser() {
    match parse_one("\"hello").unwrap_err() {
        Error::LexerError(LexError::UnclosedStringLiteral(line, pos)) => {
            assert_eq!(line, (1, 1));
            assert_eq!(pos, (1, 6));
        }
        e => panic!("unexpected error: {:?}", e),
    }
}

fn syntax_message(input: &str) -> String {
    match parse_one(input).unwrap_err() {
        Error::SyntaxError(_, _, message) => message,
        e => panic!("expected a syntax error, got: {:?}", e),
    }
}

#[test]
fn test_targeted_syntax_messages() {
    assert_eq!(syntax_message("{"), "object key must be a string");
    assert_eq!(
        syntax_message("["),
        "array element must be one of: boolean, null, string, number, object, array"
    );
    assert_eq!(
        syntax_message("{\"hello\"; \"world\"}"),
        "object key must be followed by `:`"
    );
    assert_eq!(
        syntax_message("{\"hello\", \"world\"}"),
        "object key must be followed by `:`"
    );
    // The token after the extra comma is read as the next key.
    assert_eq!(
        syntax_message("{\"hello\": \"world\",,,,}"),
        "object key must be a string"
    );
    assert_eq!(
        syntax_message("{hello: \"world\"}"),
        "object key must be a string"
    );
    assert_eq!(
        syntax_message("]"),
        "value must be one of: boolean, null, string, number, object, array"
    );
    assert_eq!(
        syntax_message("[1 2]"),
        "array element must be followed by `,` or `]`"
    );
    assert_eq!(
        syntax_message("{\"a\" 1}"),
        "object key must be followed by `:`"
    );
    assert_eq!(
        syntax_message("{\"a\": 1 2}"),
        "object member must be followed by `,` or `}`"
    );
}

#[test]
fn test_keyword_error_through_parser() {
    match parse_one("{\"hello\": truthy}").unwrap_err() {
        Error::LexerError(LexError::InvalidToken(name, _, _)) => {
            assert_eq!(name, "true");
        }
        e => panic!("unexpected error: {:?}", e),
    }
}

#[test]
fn test_whitespace_never_affects_tree() {
    let compact = "{\"a\":[1,true,null,\"x\"],\"b\":{\"c\":-2.5e1}}";
    let spaced = " {\n  \"a\" : [ 1 , true , null , \"x\" ] ,\n  \"b\" : { \"c\" : -2.5e1 }\n } ";
    let a = parse_one(compact).unwrap();
    let b = parse_one(spaced).unwrap();
    assert_eq!(norm(&a), norm(&b));
}

#[test]
fn test_stray_characters_skipped() {
    let plain = parse_one("[1,2]").unwrap();
    let noisy = parse_one("@[1, #2]?").unwrap();
    assert_eq!(norm(&plain), norm(&noisy));
}

#[test]
fn test_syntax_error_positions() {
    // The offending token after the value of "a" stands on line 2.
    match parse_one("{\"a\": 1\n2}").unwrap_err() {
        Error::SyntaxError(line, pos, message) => {
            assert_eq!(message, "object member must be followed by `,` or `}`");
            assert_eq!(line, (2, 2));
            assert_eq!(pos, (1, 1));
        }
        e => panic!("unexpected error: {:?}", e),
    }
}

#[test]
fn test_parser_stays_usable_after_error() {
    let mut parser = parser_for("{\"a\" 1} 42");
    assert!(parser.parse().is_err());
    // The stream is left in an unspecified consumed state, but further
    // calls stay safe.
    for _ in 0..10 {
        let _ = parser.parse();
    }
}

#[test]
fn test_truncated_keyword_at_end_is_eof() {
    // Input ends while the keyword is still being verified: end of input
    // is reported, as for any other exhaustion met while peeking.
    assert!(matches!(parse_one("tru").unwrap(), Node::EOF));
}

#[test]
fn test_number_grammar_edges() {
    // A trailing dot and a sign-dot prefix are both valid float texts.
    assert_eq!(norm(&parse_one("1.").unwrap()), V::N(1.0));
    assert_eq!(norm(&parse_one("-.5").unwrap()), V::N(-0.5));
    // A bare dot does not begin a number; it is skipped as a stray
    // character, so only the digit is lexed.
    assert_eq!(norm(&parse_one(".5").unwrap()), V::N(5.0));
    // A bare sign is a number run that fails the grammar.
    match parse_one("-").unwrap_err() {
        Error::LexerError(LexError::InvalidNumber(text, line, pos)) => {
            assert_eq!(text, "-");
            assert_eq!(line, (1, 1));
            assert_eq!(pos, (1, 1));
        }
        e => panic!("unexpected error: {:?}", e),
    }
}

#[test]
fn test_nested_arrays() {
    let node = parse_one("[[1],[[true]]]").unwrap();
    assert_eq!(
        norm(&node),
        V::A(vec![V::A(vec![V::N(1.0)]), V::A(vec![V::A(vec![V::True])])])
    );
}

#[test]
fn test_empty_array_rejected() {
    // `]` stands in value position, so the value expectation is reported.
    assert_eq!(
        syntax_message("[]"),
        "value must be one of: boolean, null, string, number, object, array"
    );
}

#[test]
fn test_empty_object_rejected() {
    // The grammar requires at least one member between `{` and `}`.
    assert_eq!(syntax_message("{}"), "object key must be a string");
}
