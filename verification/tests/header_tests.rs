use mailparse::header::{normalized_tokens, HeaderToken};

/// Concatenates fragment contents the way a consumer renders them: a
/// line-break marker contributes its collapsed value, or nothing while that
/// value is unset.
fn concat(tokens: &[HeaderToken]) -> String {
    let mut out = String::new();
    for t in tokens {
        match t {
            HeaderToken::Text(s) => out.push_str(s),
            HeaderToken::Whitespace(s) => out.push_str(s),
            HeaderToken::Newline(Some(s)) => out.push_str(s),
            HeaderToken::Newline(None) => {}
            HeaderToken::DecodedWord(s) => out.push_str(s),
        }
    }
    out
}

fn has_decoded_word(tokens: &[HeaderToken]) -> bool {
    tokens
        .iter()
        .any(|t| matches!(t, HeaderToken::DecodedWord(_)))
}

#[test]
fn plain_text_is_unchanged() {
    let input = "Hello world, nothing encoded here";
    let tokens = normalized_tokens(input);
    assert!(!has_decoded_word(&tokens));
    assert_eq!(concat(&tokens), input);
}

#[test]
fn plain_text_fold_becomes_single_space() {
    let tokens = normalized_tokens("Hello\n   world");
    assert!(!has_decoded_word(&tokens));
    assert_eq!(concat(&tokens), "Hello world");
}

#[test]
fn plain_text_crlf_fold_becomes_single_space() {
    let tokens = normalized_tokens("Subject: Hello\r\n\tWorld");
    assert_eq!(concat(&tokens), "Subject: Hello World");
}

#[test]
fn empty_input_gives_empty_output() {
    let tokens = normalized_tokens("");
    assert!(tokens.is_empty());
}

#[test]
fn base64_round_trip() {
    let original = "Hello, World";
    let payload = data_encoding::BASE64_MIME.encode(original.as_bytes());
    let encoded = format!("=?UTF-8?B?{}?=", payload.trim_end());
    let tokens = normalized_tokens(&encoded);
    assert!(tokens
        .iter()
        .any(|t| matches!(t, HeaderToken::DecodedWord(s) if s == original)));
    assert_eq!(concat(&tokens), original);
}

#[test]
fn base64_known_value_decodes() {
    let tokens = normalized_tokens("=?UTF-8?B?SGVsbG8=?=");
    assert!(tokens
        .iter()
        .any(|t| matches!(t, HeaderToken::DecodedWord(s) if s == "Hello")));
}

#[test]
fn boundary_rejection_keeps_marker_literal() {
    let input = "x=?UTF-8?Q?a?=";
    let tokens = normalized_tokens(input);
    assert!(!has_decoded_word(&tokens));
    assert_eq!(concat(&tokens), input);
}

#[test]
fn tab_is_a_boundary() {
    let tokens = normalized_tokens("a\t=?UTF-8?Q?x?=");
    assert!(tokens
        .iter()
        .any(|t| matches!(t, HeaderToken::DecodedWord(s) if s == "x")));
}

#[test]
fn unterminated_marker_falls_back_to_literal_text() {
    let tokens = normalized_tokens("Subject: =?UTF-8?B?abc");
    assert_eq!(
        tokens,
        vec![
            HeaderToken::Text("Subject: "),
            HeaderToken::Text("=?"),
            HeaderToken::Text("UTF-8?B?abc"),
        ]
    );
    assert_eq!(concat(&tokens), "Subject: =?UTF-8?B?abc");
}

#[test]
fn interword_space_collapses() {
    let tokens = normalized_tokens("=?UTF-8?Q?Hello?= =?UTF-8?Q?World?=");
    assert_eq!(
        tokens,
        vec![
            HeaderToken::Whitespace(""),
            HeaderToken::DecodedWord("Hello".to_string()),
            HeaderToken::DecodedWord("World".to_string()),
        ]
    );
    assert_eq!(concat(&tokens), "HelloWorld");
}

#[test]
fn interword_fold_collapses() {
    let tokens = normalized_tokens("=?UTF-8?Q?a?=\n =?UTF-8?Q?b?=");
    assert_eq!(concat(&tokens), "ab");
}

#[test]
fn fold_next_to_plain_text_is_one_space() {
    let tokens = normalized_tokens("Hello\n world");
    assert_eq!(
        tokens,
        vec![
            HeaderToken::Text("Hello"),
            HeaderToken::Newline(Some(" ".to_string())),
            HeaderToken::Text("world"),
        ]
    );
}

#[test]
fn unknown_charset_degrades_to_literal_text() {
    let input = "=?no-such-charset?B?QQ==?=";
    let tokens = normalized_tokens(input);
    assert!(!has_decoded_word(&tokens));
    assert!(tokens
        .iter()
        .any(|t| matches!(t, HeaderToken::Text(s) if *s == input)));
    assert_eq!(concat(&tokens), input);
}

#[test]
fn q_encoding_underscore_is_space() {
    let tokens = normalized_tokens("=?UTF-8?Q?Hello_World?=");
    assert!(tokens
        .iter()
        .any(|t| matches!(t, HeaderToken::DecodedWord(s) if s == "Hello World")));
}

#[test]
fn q_encoding_hex_octets_decode() {
    let tokens = normalized_tokens("=?UTF-8?Q?K=C3=A4se?=");
    assert!(tokens
        .iter()
        .any(|t| matches!(t, HeaderToken::DecodedWord(s) if s == "K\u{e4}se")));
}

#[test]
fn latin1_charset_decodes() {
    let tokens = normalized_tokens("=?ISO-8859-1?Q?K=E4se?=");
    assert!(tokens
        .iter()
        .any(|t| matches!(t, HeaderToken::DecodedWord(s) if s == "K\u{e4}se")));
}

#[test]
fn lowercase_coding_letters_accepted() {
    let tokens = normalized_tokens("=?utf-8?b?SGVsbG8=?= =?utf-8?q?there?=");
    assert_eq!(concat(&tokens), "Hellothere");
}

#[test]
fn unknown_transfer_coding_stays_literal() {
    let input = "=?UTF-8?X?abc?=";
    let tokens = normalized_tokens(input);
    assert!(!has_decoded_word(&tokens));
    assert_eq!(concat(&tokens), input);
}

#[test]
fn malformed_base64_stays_literal() {
    let input = "=?UTF-8?B?!!!?=";
    let tokens = normalized_tokens(input);
    assert!(!has_decoded_word(&tokens));
    assert_eq!(concat(&tokens), input);
}

#[test]
fn missing_second_delimiter_stays_literal() {
    let input = "=?UTF-8?=";
    let tokens = normalized_tokens(input);
    assert!(!has_decoded_word(&tokens));
    assert_eq!(concat(&tokens), input);
}

#[test]
fn q_trailing_whitespace_reappended() {
    let tokens = normalized_tokens("a =?UTF-8?Q?b ?= c");
    assert!(tokens
        .iter()
        .any(|t| matches!(t, HeaderToken::DecodedWord(s) if s == "b ")));
}

#[test]
fn trailing_fold_after_word_is_dropped() {
    let tokens = normalized_tokens("=?UTF-8?Q?a?= ");
    assert_eq!(
        tokens,
        vec![
            HeaderToken::Whitespace(""),
            HeaderToken::DecodedWord("a".to_string()),
        ]
    );
    assert_eq!(concat(&tokens), "a");
}

#[test]
fn adjacent_words_across_fold_collapse() {
    let tokens = normalized_tokens("=?UTF-8?Q?a?=\n=?UTF-8?Q?b?=");
    assert_eq!(concat(&tokens), "ab");
}

#[test]
fn words_on_one_line_collapse_like_words_across_folds() {
    let same_line = concat(&normalized_tokens("=?UTF-8?Q?a?= =?UTF-8?Q?b?="));
    let folded = concat(&normalized_tokens("=?UTF-8?Q?a?=\n =?UTF-8?Q?b?="));
    assert_eq!(same_line, "ab");
    assert_eq!(folded, "ab");
}

#[test]
fn trailing_newline_leaves_no_fold_marker() {
    let tokens = normalized_tokens("Hello\n");
    assert_eq!(tokens, vec![HeaderToken::Text("Hello")]);
}

#[test]
fn empty_middle_line_keeps_both_folds() {
    let tokens = normalized_tokens("a\n\nb");
    assert_eq!(concat(&tokens), "a  b");
}

#[test]
fn bare_carriage_return_is_ordinary_text() {
    let tokens = normalized_tokens("a\rb");
    assert_eq!(concat(&tokens), "a\rb");
}

#[test]
fn terminator_without_right_boundary_is_rejected() {
    let input = "=?UTF-8?B?QQ==?=x";
    let tokens = normalized_tokens(input);
    assert!(!has_decoded_word(&tokens));
    assert_eq!(concat(&tokens), input);
}

#[test]
fn only_terminator_bound_carriage_return_is_dropped() {
    let tokens = normalized_tokens("a\r\r\nb");
    assert_eq!(concat(&tokens), "a\r b");
}
