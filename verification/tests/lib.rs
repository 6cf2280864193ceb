use hamberder::lexer;
use hamberder::parser;

#[test]
fn test_empty() {
    let chunks = vec![String::from("")];
    let tags: parser::TagVec = hamberder::parse(&chunks);
    assert_eq!(tags.len(), 1);
}

#[test]
fn test_obj() {
    let test_str = String::from(
        "
{
    \"version\":  1.0,
    \"config\": [\"en\", \"de\", \"jp\"],
    \"disabled\": true
}
    ",
    );
    let chunks = vec![test_str];
    let tags: parser::TagVec = hamberder::parse(&chunks);
    assert_eq!(tags.len(), 12);
    assert_eq!(tags[0], parser::Tag::BeginObject);
    assert_eq!(tags[1], parser::Tag::ObjectKey(String::from("version")));
    assert_eq!(tags[2], parser::Tag::Number(String::from("1.0")));
    assert_eq!(tags[3], parser::Tag::ObjectKey(String::from("config")));
    assert_eq!(tags[4], parser::Tag::BeginArray);
    assert_eq!(tags[5], parser::Tag::StringLiteral(String::from("en")));
    assert_eq!(tags[6], parser::Tag::StringLiteral(String::from("de")));
    assert_eq!(tags[7], parser::Tag::StringLiteral(String::from("jp")));
    assert_eq!(tags[8], parser::Tag::EndArray);
    assert_eq!(tags[9], parser::Tag::ObjectKey(String::from("disabled")));
    assert_eq!(tags[10], parser::Tag::TrueLiteral);
    assert_eq!(tags[11], parser::Tag::EndObject);
}

#[test]
fn test_empty_input_error_position() {
    let chunks = vec![String::from("")];
    let tags = hamberder::parse(&chunks);
    assert_eq!(tags.len(), 1);
    match &tags[0] {
        parser::Tag::Error(e, info) => {
            assert_eq!(e.message, String::from("Source cannot be empty"));
            assert_eq!(info.line_number, 1);
            assert_eq!(info.char_position, 1);
        }
        _ => assert!(false),
    }
}

#[test]
fn test_object_trailing_comma() {
    let chunks = vec![String::from("{\"key1\": null, \"key2\": -42,}")];
    let tags = hamberder::parse(&chunks);
    assert_eq!(tags.len(), 6);
    assert_eq!(tags[0], parser::Tag::BeginObject);
    assert_eq!(tags[1], parser::Tag::ObjectKey(String::from("key1")));
    assert_eq!(tags[2], parser::Tag::NullLiteral);
    assert_eq!(tags[3], parser::Tag::ObjectKey(String::from("key2")));
    assert_eq!(tags[4], parser::Tag::Number(String::from("-42")));
    match &tags[5] {
        parser::Tag::Error(e, _) => {
            assert_eq!(
                e.message,
                String::from("Expected another key-value pair after comma, but found a '}'")
            );
        }
        _ => assert!(false),
    }
}

#[test]
fn test_array_of_false_and_object() {
    let chunks = vec![String::from("[false, {}]")];
    let tags = hamberder::parse(&chunks);
    assert_eq!(tags.len(), 5);
    assert_eq!(tags[0], parser::Tag::BeginArray);
    assert_eq!(tags[1], parser::Tag::FalseLiteral);
    assert_eq!(tags[2], parser::Tag::BeginObject);
    assert_eq!(tags[3], parser::Tag::EndObject);
    assert_eq!(tags[4], parser::Tag::EndArray);
}

#[test]
fn test_tag_stream_drains_once() {
    let chunks = vec![String::from("[false, {}]")];
    let tags = hamberder::parse(&chunks);
    let mut stream = parser::TagStream::new(tags);
    let mut drained: Vec<parser::Tag> = Vec::new();
    while let Some(t) = stream.next() {
        drained.push(t);
    }
    assert_eq!(drained.len(), 5);
    // Pulling from the exhausted stream again is stream end, not an error.
    assert_eq!(stream.next(), None);
    assert_eq!(stream.next(), None);
}

#[test]
fn test_unterminated_array_eos_error() {
    let chunks = vec![String::from("[")];
    let tags = hamberder::parse(&chunks);
    assert_eq!(tags.len(), 2);
    assert_eq!(tags[0], parser::Tag::BeginArray);
    match &tags[1] {
        parser::Tag::Error(e, info) => {
            assert_eq!(
                e.message,
                String::from("Encountered end of stream, but more tokens expected")
            );
            assert_eq!(info.char_position, 3);
            assert_eq!(info.length, 0);
        }
        _ => assert!(false),
    }
}

#[test]
fn test_minus_without_digits() {
    let tokens = vec![
        (
            lexer::MaybeToken::MinusSign,
            lexer::TokenInfo {
                line_number: 1,
                char_position: 2,
                start: 0,
                length: 1,
            },
        ),
        (
            lexer::MaybeToken::TrueLiteral,
            lexer::TokenInfo {
                line_number: 1,
                char_position: 6,
                start: 1,
                length: 4,
            },
        ),
    ];
    let tags = parser::parse(&tokens);
    assert_eq!(tags.len(), 1);
    match &tags[0] {
        parser::Tag::Error(e, _) => {
            assert_eq!(e.message, String::from("Syntax error. Expected digits after '-'"));
        }
        _ => assert!(false),
    }
}

#[test]
fn test_missing_fraction_digits() {
    let tokens = vec![
        (
            lexer::MaybeToken::Integer(String::from("12")),
            lexer::TokenInfo {
                line_number: 1,
                char_position: 3,
                start: 0,
                length: 2,
            },
        ),
        (
            lexer::MaybeToken::Dot,
            lexer::TokenInfo {
                line_number: 1,
                char_position: 4,
                start: 2,
                length: 1,
            },
        ),
        (
            lexer::MaybeToken::TrueLiteral,
            lexer::TokenInfo {
                line_number: 1,
                char_position: 8,
                start: 3,
                length: 4,
            },
        ),
    ];
    let tags = parser::parse(&tokens);
    assert_eq!(tags.len(), 1);
    match &tags[0] {
        parser::Tag::Error(e, info) => {
            assert_eq!(
                e.message,
                String::from("Syntax error. Expected fractional digits after '.'")
            );
            assert_eq!(info.char_position, 4);
        }
        _ => assert!(false),
    }
}

#[test]
fn test_missing_exponent_digits() {
    let tokens = vec![
        (
            lexer::MaybeToken::Integer(String::from("7")),
            lexer::TokenInfo {
                line_number: 1,
                char_position: 2,
                start: 0,
                length: 1,
            },
        ),
        (
            lexer::MaybeToken::Exponent,
            lexer::TokenInfo {
                line_number: 1,
                char_position: 3,
                start: 1,
                length: 1,
            },
        ),
    ];
    let tags = parser::parse(&tokens);
    assert_eq!(tags.len(), 1);
    match &tags[0] {
        parser::Tag::Error(e, info) => {
            assert_eq!(
                e.message,
                String::from("Syntax error. Expected digits after exponent character")
            );
            assert_eq!(info.char_position, 3);
        }
        _ => assert!(false),
    }
}

#[test]
fn test_array_trailing_comma() {
    let chunks = vec![String::from("[false,]")];
    let tags = hamberder::parse(&chunks);
    assert_eq!(tags.len(), 3);
    assert_eq!(tags[0], parser::Tag::BeginArray);
    assert_eq!(tags[1], parser::Tag::FalseLiteral);
    match &tags[2] {
        parser::Tag::Error(e, _) => {
            assert_eq!(
                e.message,
                String::from("Expected another value after comma, but found a ']'")
            );
        }
        _ => assert!(false),
    }
}

#[test]
fn test_lone_comma_is_an_error() {
    let tokens = vec![(
        lexer::MaybeToken::Comma,
        lexer::TokenInfo {
            line_number: 1,
            char_position: 2,
            start: 0,
            length: 1,
        },
    )];
    let tags = parser::parse(&tokens);
    assert_eq!(tags.len(), 1);
    match &tags[0] {
        parser::Tag::Error(e, _) => {
            assert_eq!(e.message, String::from("Expected a value"));
        }
        _ => assert!(false),
    }
}

#[test]
fn test_missing_pair_after_comma() {
    let chunks = vec![String::from("{\"a\": null, true}")];
    let tags = hamberder::parse(&chunks);
    assert_eq!(tags.len(), 4);
    assert_eq!(tags[0], parser::Tag::BeginObject);
    assert_eq!(tags[1], parser::Tag::ObjectKey(String::from("a")));
    assert_eq!(tags[2], parser::Tag::NullLiteral);
    match &tags[3] {
        parser::Tag::Error(e, _) => {
            assert_eq!(e.message, String::from("Expected another key-value pair"));
        }
        _ => assert!(false),
    }
}

#[test]
fn test_pipeline_chunking_immaterial() {
    let one = hamberder::parse(&vec![String::from("{\"k\": [1, \"\\u00e9\"]}")]);
    let many = hamberder::parse(&vec![
        String::from("{\"k\""),
        String::from(": [1"),
        String::from(", \"\\"),
        String::from("u00e9\"]}"),
    ]);
    assert_eq!(one, many);
    assert_eq!(one.len(), 7);
    assert_eq!(one[4], parser::Tag::StringLiteral(String::from("\\u00e9")));
}

#[test]
fn test_trailing_tokens_not_examined() {
    // The document is exactly one JSON value; whatever follows the first
    // complete value is left unread rather than reported.
    let tags = hamberder::parse(&vec![String::from("true true")]);
    assert_eq!(tags, vec![parser::Tag::TrueLiteral]);
    let tags = hamberder::parse(&vec![String::from("17 4")]);
    assert_eq!(tags, vec![parser::Tag::Number(String::from("17"))]);
}

#[test]
fn test_missing_key_after_comma_message() {
    let chunks = vec![String::from("{,}")];
    let tags = hamberder::parse(&chunks);
    assert_eq!(tags.len(), 2);
    assert_eq!(tags[0], parser::Tag::BeginObject);
    match &tags[1] {
        parser::Tag::Error(e, _) => {
            assert_eq!(
                e.message,
                String::from("Syntax error. Encountered unexpected ',' in object")
            );
        }
        _ => assert!(false),
    }
}
