use synless::json_parser::{parse_json, positions_fit, Json, JsonError};
use synless::json_tokenizer::{decimal_digit, Token, Tokenizer};
use synless::parse_error::ParseError;
use synless::preprocess::preprocess;
use synless::coord::Pos;

fn tokenize(source: &str) -> Vec<Token<'_>> {
    let mut tokenizer = Tokenizer::new("[test_json_tokenizer]", source);
    let mut tokens = Vec::new();
    while let Some(result) = tokenizer.next() {
        match result {
            Ok(token) => tokens.push(token),
            Err(err) => panic!("Tokenization test -- unexpected error:\n{}", err.to_string()),
        }
    }
    tokens
}

fn assert_tokens(source: &str, expected: &[Token]) {
    let tokens = tokenize(source);
    if tokens.len() < expected.len() {
        panic!("Tokenization test -- too few tokens");
    }
    if tokens.len() > expected.len() {
        panic!("Tokenization test -- too many tokens");
    }
    for (found_token, expected_token) in tokens.iter().zip(expected.iter()) {
        if found_token != expected_token {
            panic!(
                "Tokenization test -- wrong token. Found {:?}, expected {:?}.",
                found_token, expected_token
            )
        }
    }
}

fn assert_invalid(source: &str, expected_message: &str) {
    let mut tokenizer = Tokenizer::new("[test_json_tokenizer]", source);
    while let Some(result) = tokenizer.next() {
        match result {
            Ok(_) => (),
            Err(err) => {
                let actual_message = err.to_string();
                if actual_message.contains(expected_message) {
                    return;
                } else {
                    panic!("Tokenization test -- expected error message to contain '{expected_message}', but found error:\n{actual_message}");
                }
            }
        }
    }
    panic!("Tokenization test -- expected error, but tokenization succeeded.")
}

#[test]
fn test_json_tokenizer() {
    // Punctuation and keywords
    assert_tokens(
        "   true[,  false}   {:]null   ",
        &[
            Token::True,
            Token::StartArray,
            Token::Comma,
            Token::False,
            Token::EndObject,
            Token::StartObject,
            Token::Colon,
            Token::EndArray,
            Token::Null,
        ],
    );

    // Valid numbers
    assert_tokens(
        "7 2.3e5 -555",
        &[Token::Number("7"), Token::Number("2.3e5"), Token::Number("-555")],
    );

    // Invalid numbers
    assert_invalid(".5", "Invalid number");
    assert_invalid("1.2.3", "Invalid number");
    assert_invalid("3e4.5", "Invalid number");

    // Error pos
    assert_invalid("[2\n3\n4\n     five]", "at 4:6: Expected JSON value");

    // Plain strings
    assert_tokens("\"Hello, 'world'!\"", &[Token::PlainString("Hello, 'world'!")]);

    // Escaped strings
    assert_tokens(
        r#""NL \n" "\\" "\tTab""#,
        &[
            Token::EscapedString("NL \n".to_owned()),
            Token::EscapedString("\\".to_owned()),
            Token::EscapedString("\tTab".to_owned()),
        ],
    );
    assert_tokens(r#""\u12345""#, &[Token::EscapedString("\u{1234}5".to_owned())]);

    // Invalid strings
    assert_invalid("\"Hello\nWorld\"", "at 1:7: Invalid string.");
}

#[test]
fn test_tokenizer_more() {
    assert_tokens("0 -0.5 1E+3 12e-2", &[
        Token::Number("0"),
        Token::Number("-0.5"),
        Token::Number("1E+3"),
        Token::Number("12e-2"),
    ]);
    // A leading zero ends the number; the rest is another number.
    assert_tokens("012", &[Token::Number("0"), Token::Number("12")]);
    assert_tokens(r#""a\/b\"c""#, &[Token::EscapedString("a/b\"c".to_owned())]);
    assert_tokens(r#""\u+041""#, &[Token::EscapedString("A".to_owned())]);
    assert_invalid(r#""\uD800""#, "Invalid string.");
    assert_invalid(r#""\q""#, "Invalid string.");
    assert_invalid("nul", "Expected JSON value.");
    assert_invalid("@", "expected value");
    assert_invalid("\"open", "Invalid string.");
    assert_tokens("", &[]);
    assert_tokens(" \n\t\r", &[]);
}

#[test]
fn test_tokenizer_unicode_digits() {
    // After the first digit, a number takes any Unicode decimal digit.
    assert_tokens("1\u{662}", &[Token::Number("1\u{662}")]);
    assert_tokens("-7.\u{663}e\u{FF11}", &[Token::Number("-7.\u{663}e\u{FF11}")]);
    // A leading zero stays alone; what follows it is no JSON value.
    assert_invalid("0\u{662}", "Expected JSON value.");
    // The first digit is ASCII.
    assert_invalid("\u{661}", "Expected JSON value.");
    // A numeral that is not a decimal digit ends the number.
    assert_invalid("1\u{2163}", "Expected JSON value.");
}

#[test]
fn test_decimal_digit() {
    assert!(decimal_digit('7'));
    assert!(decimal_digit('\u{662}'));
    assert!(decimal_digit('\u{FF11}'));
    assert!(!decimal_digit('a'));
    assert!(!decimal_digit('\u{2163}'));
    assert!(!decimal_digit('\u{BD}'));
}

#[test]
fn test_tokenizer_positions() {
    let mut t = Tokenizer::new("f", "  [\n  x");
    match t.next() {
        Some(Ok(token)) => assert_eq!(token, Token::StartArray),
        _ => panic!("expected '['"),
    }
    assert_eq!(t.pos(), Pos { row: 0, col: 3 });
    match t.next() {
        Some(Err(e)) => assert_eq!(
            e.to_string(),
            "In f at 2:3: Expected JSON value.\n2 |  x\n     ^ expected value"
        ),
        _ => panic!("expected an error"),
    }
    assert_eq!(t.remaining(), "x");
    assert_eq!(t.peek_char(), Some('x'));
}

fn num(s: &str) -> Json {
    Json::Number(s.to_string())
}

fn string(s: &str) -> Json {
    Json::String(s.to_string())
}

#[test]
fn test_parse_values() {
    assert_eq!(parse_json("f", "null").unwrap(), Json::Null);
    assert_eq!(parse_json("f", " true ").unwrap(), Json::True);
    assert_eq!(parse_json("f", "false").unwrap(), Json::False);
    assert_eq!(parse_json("f", "-1.5e3").unwrap(), num("-1.5e3"));
    assert_eq!(parse_json("f", "\"a\\nb\"").unwrap(), string("a\nb"));
    assert_eq!(parse_json("f", "[]").unwrap(), Json::Array(vec![]));
    assert_eq!(parse_json("f", "{}").unwrap(), Json::Object(vec![]));
    assert_eq!(
        parse_json("f", "[1, [2, null], {\"k\": \"v\"}]").unwrap(),
        Json::Array(vec![
            num("1"),
            Json::Array(vec![num("2"), Json::Null]),
            Json::Object(vec![("k".to_string(), string("v"))]),
        ])
    );
}

#[test]
fn test_parse_keeps_key_order_and_duplicates() {
    assert_eq!(
        parse_json("f", "{\"b\": 1, \"a\": 2, \"b\": 3}").unwrap(),
        Json::Object(vec![
            ("b".to_string(), num("1")),
            ("a".to_string(), num("2")),
            ("b".to_string(), num("3")),
        ])
    );
    // Numbers keep their exact text.
    assert_eq!(
        parse_json("f", "[1.000000000000000000001]").unwrap(),
        Json::Array(vec![num("1.000000000000000000001")])
    );
    assert_eq!(
        parse_json("f", "[1\u{662}]").unwrap(),
        Json::Array(vec![num("1\u{662}")])
    );
}

fn parse_error(source: &str) -> String {
    match parse_json("f.json", source) {
        Ok(json) => panic!("expected an error, got {:?}", json),
        Err(e) => e.to_string(),
    }
}

#[test]
fn test_parse_errors() {
    assert_eq!(parse_error(""), "In f.json at 1:1: File is empty.\n1 |\n   ^ expected JSON value");
    assert!(parse_error("1 2").contains("at 1:4: Expected end of file, found extra token."));
    assert!(parse_error(",").contains("Expected JSON value, found ','."));
    assert!(parse_error(":").contains("Expected JSON value, found ':'."));
    assert!(parse_error("]").contains("Extra ']' does not match any opening '['."));
    assert!(parse_error("}").contains("Extra '}' does not match any opening '{'."));
    assert!(parse_error("[1 2]").contains("Array elements must be separated by commas."));
    assert!(parse_error("[1,").contains("Array not closed."));
    assert!(parse_error("[").contains("Array not closed."));
    assert!(parse_error("[1").contains("Array not closed."));
    assert!(parse_error("[1,]").contains("Trailing commas aren't allowed in JSON."));
    assert!(parse_error("{\"a\": 1 2}").contains("Object elements must be separated by commas."));
    assert!(parse_error("{\"a\" 1}").contains("Object keys must be followed by ':'."));
    assert!(parse_error("{\"a\"").contains("Object keys must be followed by ':'."));
    assert!(parse_error("{\"a\":").contains("Missing value after object key."));
    assert!(parse_error("{1: 2}").contains("Object key must be a string."));
    assert!(parse_error("{").contains("Object not closed."));
    assert!(parse_error("{\"a\": 1,}").contains("Trailing commas aren't allowed in JSON."));
    assert!(parse_error("{\"a\": 1").contains("Object not closed."));
    assert!(parse_error("[1, @]").contains("at 1:5: Expected JSON value."));
}

#[test]
fn test_json_error_messages() {
    assert_eq!(JsonError::UnclosedArray.message_and_label(), ("Array not closed.", "expected ']'."));
    assert_eq!(JsonError::NotAKey.message_and_label(), ("Object key must be a string.", "expected string"));
}

#[test]
fn test_parse_error_display() {
    let error_without_location =
        ParseError::without_location("git-references.md".to_owned(), "Bad writing.".to_owned());
    assert_eq!(error_without_location.to_string(), "In git-references.md: Bad writing.");

    let file_contents = "\n\n\n\n\n\n\n\n\n\n\n\n\n\n\n\nOh shit, git!\n\n";
    let error_with_location = ParseError::with_location(
        "git-references.md".to_owned(),
        "Profanity is unprofessional.".to_owned(),
        file_contents,
        Pos { row: 16, col: 3 },
        "profane".to_owned(),
    );
    assert_eq!(
        error_with_location.to_string(),
        [
            "In git-references.md at 17:4: Profanity is unprofessional.",
            "17 |Oh shit, git!",
            "       ^ profane",
        ]
        .join("\n"),
    );
}

#[test]
fn test_preprocess() {
    assert_eq!(preprocess("a ?? b ??", "??", "null"), "a null b null");
    assert_eq!(preprocess("???", "??", "X"), "X?");
    assert_eq!(preprocess("abc", "", "-"), "-a-b-c-");
    assert_eq!(preprocess("", "", "-"), "-");
    assert_eq!(preprocess("abc", "zz", "y"), "abc");
    assert_eq!(preprocess("é→é", "→", "->"), "é->é");
}

#[test]
fn test_positions_fit() {
    assert!(positions_fit("[1,\n 2]"));
    assert!(positions_fit(""));
    let long_line = "x".repeat(70000);
    assert!(!positions_fit(&long_line));
    let short_lines = "x\n".repeat(70000);
    assert!(positions_fit(&short_lines));
    // A character of three bytes counts as three columns.
    let wide = "\u{4e00}".repeat(21845);
    assert!(positions_fit(&wide));
    let wider = "\u{4e00}".repeat(21846);
    assert!(!positions_fit(&wider));
}
