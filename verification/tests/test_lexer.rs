use hamberder::lexer;

#[test]
fn test_lexer_empty_source() {
    let chunks: Vec<String> = Vec::new();
    let tokens = lexer::lex(&chunks);
    for (token, info) in tokens {
        // bla bla bla
        match token {
            lexer::MaybeToken::Error(_) => {
                assert_eq!(info.line_number, 1);
                assert_eq!(info.char_position, 1);
            }
            _ => assert!(false),
        }
    }
}

#[test]
fn test_lexer_false() {
    let chunks = vec![String::from("false")];
    let tokens = lexer::lex(&chunks);
    assert_eq!(tokens.len(), 1);
    assert_eq!(tokens[0].0, lexer::MaybeToken::FalseLiteral);
    assert_eq!(
        tokens[0].1,
        lexer::TokenInfo {
            line_number: 1,
            char_position: 5,
            start: 0,
            length: 5
        }
    );
}

#[test]
fn test_lexer_true() {
    let chunks = vec![String::from("true")];
    let tokens = lexer::lex(&chunks);
    assert_eq!(tokens.len(), 1);
    assert_eq!(tokens[0].0, lexer::MaybeToken::TrueLiteral);
    assert_eq!(
        tokens[0].1,
        lexer::TokenInfo {
            line_number: 1,
            char_position: 4,
            start: 0,
            length: 4
        }
    );
}

#[test]
fn test_lexer_null() {
    let chunks = vec![String::from("null")];
    let tokens = lexer::lex(&chunks);
    assert_eq!(tokens.len(), 1);
    assert_eq!(tokens[0].0, lexer::MaybeToken::NullLiteral);
    assert_eq!(
        tokens[0].1,
        lexer::TokenInfo {
            line_number: 1,
            char_position: 4,
            start: 0,
            length: 4
        }
    );
}

#[test]
fn test_lexer_chunks() {
    let chunks = vec![String::from("nu"), String::from("l"), String::from("l")];
    let tokens = lexer::lex(&chunks);
    assert_eq!(tokens.len(), 1);
    assert_eq!(tokens[0].0, lexer::MaybeToken::NullLiteral);
    assert_eq!(
        tokens[0].1,
        lexer::TokenInfo {
            line_number: 1,
            char_position: 4,
            start: 0,
            length: 4
        }
    );
}

#[test]
fn test_lexer_strip_ws() {
    let chunks = vec![String::from("   null ")];
    let tokens = lexer::lex(&chunks);
    assert_eq!(tokens.len(), 1);
    assert_eq!(tokens[0].0, lexer::MaybeToken::NullLiteral);
    assert_eq!(
        tokens[0].1,
        lexer::TokenInfo {
            line_number: 1,
            char_position: 7,
            start: 3,
            length: 4
        }
    );
}

#[test]
fn test_lexer_line_nums() {
    let chunks = vec![String::from("\n\r\n   null ")];
    let tokens = lexer::lex(&chunks);
    assert_eq!(tokens.len(), 1);
    assert_eq!(tokens[0].0, lexer::MaybeToken::NullLiteral);
    assert_eq!(
        tokens[0].1,
        lexer::TokenInfo {
            line_number: 3,
            char_position: 7,
            start: 6,
            length: 4
        }
    );
}

#[test]
fn test_empty_quoted_string() {
    let chunks = vec![String::from("\"\"")];
    let tokens = lexer::lex(&chunks);
    assert_eq!(tokens.len(), 1);
    assert_eq!(
        tokens[0].0,
        lexer::MaybeToken::StringLiteral(String::from("\"\""))
    );
    assert_eq!(
        tokens[0].1,
        lexer::TokenInfo {
            line_number: 1,
            char_position: 3,
            start: 0,
            length: 2
        }
    );
}

#[test]
fn test_quoted_string() {
    let chunks = vec![String::from("\"abc\"")];
    let tokens = lexer::lex(&chunks);
    assert_eq!(tokens.len(), 1);
    assert_eq!(
        tokens[0].0,
        lexer::MaybeToken::StringLiteral(String::from("\"abc\""))
    );
    assert_eq!(
        tokens[0].1,
        lexer::TokenInfo {
            line_number: 1,
            char_position: 6,
            start: 0,
            length: 5
        }
    );
}

#[test]
fn test_illegal_escape_char() {
    let chunks = vec![String::from("\"it is illegal to write \\x in json\"")];
    let tokens = lexer::lex(&chunks);
    assert_eq!(tokens.len(), 1);
    if let lexer::MaybeToken::Error(_) = &tokens[0].0 {
        //...
    } else {
        assert!(false);
    }
    assert_eq!(
        tokens[0].1,
        lexer::TokenInfo {
            line_number: 1,
            char_position: 26,
            start: 0,
            length: 25
        }
    );
}

#[test]
fn test_lower_uni_chars() {
    let chunks = vec![String::from("\"\\uabcd\\uefab\\u01cc\"")];
    let tokens = lexer::lex(&chunks);
    assert_eq!(tokens.len(), 1);
    assert_eq!(
        tokens[0].0,
        lexer::MaybeToken::StringLiteral(String::from("\"\\uabcd\\uefab\\u01cc\""))
    );
    assert_eq!(
        tokens[0].1,
        lexer::TokenInfo {
            line_number: 1,
            char_position: 21,
            start: 0,
            length: 20
        }
    );
}

#[test]
fn test_upper_uni_chars() {
    let chunks = vec![String::from("\"\\uABCD\\uEFAB\\u01CC\"")];
    let tokens = lexer::lex(&chunks);
    assert_eq!(tokens.len(), 1);
    assert_eq!(
        tokens[0].0,
        lexer::MaybeToken::StringLiteral(String::from("\"\\uABCD\\uEFAB\\u01CC\""))
    );
    assert_eq!(
        tokens[0].1,
        lexer::TokenInfo {
            line_number: 1,
            char_position: 21,
            start: 0,
            length: 20
        }
    );
}

#[test]
fn test_mixed_uni_chars() {
    let chunks = vec![String::from("\"\\uAbCD\\uEfaB\\u01cC\"")];
    let tokens = lexer::lex(&chunks);
    assert_eq!(tokens.len(), 1);
    assert_eq!(
        tokens[0].0,
        lexer::MaybeToken::StringLiteral(String::from("\"\\uAbCD\\uEfaB\\u01cC\""))
    );
    assert_eq!(
        tokens[0].1,
        lexer::TokenInfo {
            line_number: 1,
            char_position: 21,
            start: 0,
            length: 20
        }
    );
}

#[test]
fn test_illegal_uni_char() {
    let chunks = vec![String::from("\"\\u0a1H\"")];
    let tokens = lexer::lex(&chunks);
    assert_eq!(tokens.len(), 1);
    if let lexer::MaybeToken::Error(_) = &tokens[0].0 {
        //...
    } else {
        assert!(false);
    }
    assert_eq!(
        tokens[0].1,
        lexer::TokenInfo {
            line_number: 1,
            char_position: 7,
            start: 0,
            length: 6
        }
    );
}

#[test]
fn test_multiline_string() {
    let chunks = vec![String::from("\"ab\nc\"")];
    let tokens = lexer::lex(&chunks);
    assert_eq!(tokens.len(), 1);
    if let lexer::MaybeToken::Error(_) = &tokens[0].0 {
        //...
    } else {
        assert!(false);
    }
    assert_eq!(
        tokens[0].1,
        lexer::TokenInfo {
            line_number: 1,
            char_position: 4,
            start: 0,
            length: 3
        }
    );
}

#[test]
fn test_single_chars() {
    let chunks = vec![String::from("-+{}[].e,:E")];
    let tokens = lexer::lex(&chunks);
    assert_eq!(tokens.len(), 11);
}

#[test]
fn test_single_zero_ok() {
    let chunks = vec![String::from("0")];
    let tokens = lexer::lex(&chunks);
    assert_eq!(tokens.len(), 1);
    assert_eq!(tokens[0].0, lexer::MaybeToken::Integer(String::from("0")));
    assert_eq!(
        tokens[0].1,
        lexer::TokenInfo {
            line_number: 1,
            char_position: 2,
            start: 0,
            length: 1
        }
    );
}

#[test]
fn test_parse_bad_float_1() {
    let chunks = vec![String::from("- 1234")];
    let tokens = lexer::lex(&chunks);
    assert_eq!(tokens.len(), 2);
    assert_eq!(tokens[0].0, lexer::MaybeToken::MinusSign);
    assert_eq!(tokens[1].0, lexer::MaybeToken::Integer(String::from("1234")));
}

#[test]
fn test_parse_bad_float_2() {
    let chunks = vec![String::from("12\t.\r34")];
    let tokens = lexer::lex(&chunks);
    println!("dumping tokens: {:?}", tokens);
    assert_eq!(tokens.len(), 3);
    assert_eq!(tokens[0].0, lexer::MaybeToken::Integer(String::from("12")));
    assert_eq!(tokens[1].0, lexer::MaybeToken::Dot);
    assert_eq!(tokens[2].0, lexer::MaybeToken::Integer(String::from("34")));
}

#[test]
fn test_integer() {
    let chunks = vec![String::from("1234")];
    let tokens = lexer::lex(&chunks);
    assert_eq!(tokens.len(), 1);
    assert_eq!(tokens[0].0, lexer::MaybeToken::Integer(String::from("1234")));
    assert_eq!(
        tokens[0].1,
        lexer::TokenInfo {
            line_number: 1,
            char_position: 5,
            start: 0,
            length: 4
        }
    );
}

#[test]
fn test_float() {
    let chunks = vec![String::from("12.34E+300")];
    let tokens = lexer::lex(&chunks);
    assert_eq!(tokens.len(), 6);
    assert_eq!(tokens[0].0, lexer::MaybeToken::Integer(String::from("12")));
    assert_eq!(
        tokens[0].1,
        lexer::TokenInfo {
            line_number: 1,
            char_position: 3,
            start: 0,
            length: 2
        }
    );

    assert_eq!(tokens[1].0, lexer::MaybeToken::Dot);
    assert_eq!(
        tokens[1].1,
        lexer::TokenInfo {
            line_number: 1,
            char_position: 4,
            start: 2,
            length: 1
        }
    );

    assert_eq!(tokens[2].0, lexer::MaybeToken::Integer(String::from("34")));
    assert_eq!(
        tokens[2].1,
        lexer::TokenInfo {
            line_number: 1,
            char_position: 6,
            start: 3,
            length: 2
        }
    );

    assert_eq!(tokens[3].0, lexer::MaybeToken::Exponent);
    assert_eq!(
        tokens[3].1,
        lexer::TokenInfo {
            line_number: 1,
            char_position: 7,
            start: 5,
            length: 1
        }
    );

    assert_eq!(tokens[4].0, lexer::MaybeToken::PlusSign);
    assert_eq!(
        tokens[4].1,
        lexer::TokenInfo {
            line_number: 1,
            char_position: 8,
            start: 6,
            length: 1
        }
    );

    assert_eq!(tokens[5].0, lexer::MaybeToken::Integer(String::from("300")));
    assert_eq!(
        tokens[5].1,
        lexer::TokenInfo {
            line_number: 1,
            char_position: 11,
            start: 7,
            length: 3
        }
    );
}

#[test]
fn test_lexer_empty_array() {
    let chunks = vec![String::from("[]")];
    let tokens = lexer::lex(&chunks);
    assert_eq!(tokens.len(), 2);
    assert_eq!(tokens[0].0, lexer::MaybeToken::LeftBracket);
    assert_eq!(
        tokens[0].1,
        lexer::TokenInfo {
            line_number: 1,
            char_position: 2,
            start: 0,
            length: 1
        }
    );
    assert_eq!(tokens[1].0, lexer::MaybeToken::RightBracket);
    assert_eq!(
        tokens[1].1,
        lexer::TokenInfo {
            line_number: 1,
            char_position: 3,
            start: 1,
            length: 1
        }
    );
}

#[test]
fn test_lexer_array() {
    let chunks = vec![String::from("[false, null, true, 1.234E+2, \"bla\", {}]")];
    let tokens = lexer::lex(&chunks);
    assert_eq!(tokens.len(), 19);
    assert_eq!(tokens[0].0, lexer::MaybeToken::LeftBracket);
    assert_eq!(tokens[1].0, lexer::MaybeToken::FalseLiteral);
    assert_eq!(tokens[2].0, lexer::MaybeToken::Comma);
    assert_eq!(tokens[3].0, lexer::MaybeToken::NullLiteral);
    assert_eq!(tokens[4].0, lexer::MaybeToken::Comma);
    assert_eq!(tokens[5].0, lexer::MaybeToken::TrueLiteral);
    assert_eq!(tokens[6].0, lexer::MaybeToken::Comma);
    assert_eq!(tokens[7].0, lexer::MaybeToken::Integer(String::from("1")));
    assert_eq!(tokens[8].0, lexer::MaybeToken::Dot);
    assert_eq!(tokens[9].0, lexer::MaybeToken::Integer(String::from("234")));
    assert_eq!(tokens[10].0, lexer::MaybeToken::Exponent);
    assert_eq!(tokens[11].0, lexer::MaybeToken::PlusSign);
    assert_eq!(tokens[12].0, lexer::MaybeToken::Integer(String::from("2")));
    assert_eq!(tokens[13].0, lexer::MaybeToken::Comma);
    assert_eq!(
        tokens[14].0,
        lexer::MaybeToken::StringLiteral(String::from("\"bla\""))
    );
    assert_eq!(tokens[15].0, lexer::MaybeToken::Comma);
    assert_eq!(tokens[16].0, lexer::MaybeToken::LeftCurly);
    assert_eq!(tokens[17].0, lexer::MaybeToken::RightCurly);
    assert_eq!(tokens[18].0, lexer::MaybeToken::RightBracket);
}

#[test]
fn test_lexer_empty_object() {
    let chunks = vec![String::from("{}")];
    let tokens = lexer::lex(&chunks);
    assert_eq!(tokens.len(), 2);
    assert_eq!(tokens[0].0, lexer::MaybeToken::LeftCurly);
    assert_eq!(
        tokens[0].1,
        lexer::TokenInfo {
            line_number: 1,
            char_position: 2,
            start: 0,
            length: 1
        }
    );
    assert_eq!(tokens[1].0, lexer::MaybeToken::RightCurly);
    assert_eq!(
        tokens[1].1,
        lexer::TokenInfo {
            line_number: 1,
            char_position: 3,
            start: 1,
            length: 1
        }
    );
}

#[test]
fn test_lexer_object() {
    let chunks = vec![String::from(
        "{
        \"key1\": null,
        \"key2\": -42,
        \"key3\": [
            false
        ],
        \"key4\": {
            \"key5\": {}
        }
    }",
    )];
    let tokens = lexer::lex(&chunks);
    assert_eq!(tokens.len(), 25);
    let expected_tokens = vec![
        lexer::MaybeToken::LeftCurly,
        lexer::MaybeToken::StringLiteral(String::from("\"key1\"")),
        lexer::MaybeToken::Colon,
        lexer::MaybeToken::NullLiteral,
        lexer::MaybeToken::Comma,
        lexer::MaybeToken::StringLiteral(String::from("\"key2\"")),
        lexer::MaybeToken::Colon,
        lexer::MaybeToken::MinusSign,
        lexer::MaybeToken::Integer(String::from("42")),
        lexer::MaybeToken::Comma,
        lexer::MaybeToken::StringLiteral(String::from("\"key3\"")),
        lexer::MaybeToken::Colon,
        lexer::MaybeToken::LeftBracket,
        lexer::MaybeToken::FalseLiteral,
        lexer::MaybeToken::RightBracket,
        lexer::MaybeToken::Comma,
        lexer::MaybeToken::StringLiteral(String::from("\"key4\"")),
        lexer::MaybeToken::Colon,
        lexer::MaybeToken::LeftCurly,
        lexer::MaybeToken::StringLiteral(String::from("\"key5\"")),
        lexer::MaybeToken::Colon,
        lexer::MaybeToken::LeftCurly,
        lexer::MaybeToken::RightCurly,
        lexer::MaybeToken::RightCurly,
        lexer::MaybeToken::RightCurly,
    ];
    for (i, (tok, _)) in tokens.iter().enumerate() {
        assert_eq!(&expected_tokens[i], tok);
    }
}

#[test]
fn test_lexer_chunking_immaterial() {
    let one = lexer::lex(&vec![String::from("{\"a\": 12.5e3}")]);
    let many = lexer::lex(&vec![
        String::from("{\"a"),
        String::from("\": 1"),
        String::from("2.5"),
        String::from("e3}"),
    ]);
    assert_eq!(one, many);
}

#[test]
fn test_lexer_crlf_split_across_chunks() {
    let split = lexer::lex(&vec![String::from("1\r"), String::from("\n2")]);
    let whole = lexer::lex(&vec![String::from("1\r\n2")]);
    assert_eq!(split, whole);
    assert_eq!(split.len(), 2);
    assert_eq!(split[0].0, lexer::MaybeToken::Integer(String::from("1")));
    assert_eq!(split[1].0, lexer::MaybeToken::Integer(String::from("2")));
    assert_eq!(split[1].1.line_number, 2);
    assert_eq!(split[1].1.start, 3);
}

#[test]
fn test_lexer_unicode_escape_verbatim() {
    let chunks = vec![String::from("\"\\uABCD\"")];
    let tokens = lexer::lex(&chunks);
    assert_eq!(tokens.len(), 1);
    assert_eq!(
        tokens[0].0,
        lexer::MaybeToken::StringLiteral(String::from("\"\\uABCD\""))
    );
    assert_eq!(tokens[0].1.length, 8);
    assert_eq!(tokens[0].1.start, 0);
    assert_eq!(tokens[0].1.line_number, 1);
}

#[test]
fn test_lexer_unrecognized_keyword_fragment() {
    let chunks = vec![String::from("falze")];
    let tokens = lexer::lex(&chunks);
    assert_eq!(tokens.len(), 1);
    match &tokens[0].0 {
        lexer::MaybeToken::Error(e) => {
            assert_eq!(e.message, String::from("Unrecognized token"));
            assert_eq!(e.fragment, Some(String::from("fal")));
        }
        _ => assert!(false),
    }
}

#[test]
fn test_lexer_unexpected_character() {
    let chunks = vec![String::from("@")];
    let tokens = lexer::lex(&chunks);
    assert_eq!(tokens.len(), 1);
    match &tokens[0].0 {
        lexer::MaybeToken::Error(e) => {
            assert_eq!(
                e.message,
                String::from("Encountered an unexpected character '@'")
            );
            assert_eq!(e.fragment, None);
        }
        _ => assert!(false),
    }
}

#[test]
fn test_lexer_tokenizer_incremental() {
    let mut t = lexer::Tokenizer::new();
    t.push_chunk("fal");
    assert_eq!(t.tokens().len(), 0);
    t.push_chunk("se");
    assert_eq!(t.tokens().len(), 1);
    t.finish();
    let tokens = t.into_tokens();
    assert_eq!(tokens.len(), 1);
    assert_eq!(tokens[0].0, lexer::MaybeToken::FalseLiteral);
}
