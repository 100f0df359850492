use mdparse::inline_tokeniser::{tokenise, Tokens};

#[test]
fn test_tokenise() {
    assert_eq!(tokenise(""), vec![]);
    assert_eq!(tokenise("*Hi12*"), vec![Tokens::ASTERISK, Tokens::TEXT("Hi12".to_string()), Tokens::ASTERISK]);
}

#[test]
fn tokenise_every_kind() {
    assert_eq!(
        tokenise("a*[]()\\!|b"),
        vec![
            Tokens::TEXT("a".to_string()),
            Tokens::ASTERISK,
            Tokens::LBRACKET,
            Tokens::RBRACKET,
            Tokens::LPAREN,
            Tokens::RPAREN,
            Tokens::BACKSLASH,
            Tokens::EXCLAMATION,
            Tokens::PIPE,
            Tokens::TEXT("b".to_string()),
        ]
    );
}

#[test]
fn tokenise_text_spans_newlines_and_unicode() {
    assert_eq!(tokenise("é\nü ß"), vec![Tokens::TEXT("é\nü ß".to_string())]);
}

#[test]
fn tokenise_keeps_every_character() {
    for s in ["", "plain", "**a** [b](c) ![d](e) [[f|g]] \\h", "))((!!||", "ä*ö"] {
        let joined: String = tokenise(s).iter().map(|t| t.to_text()).collect();
        assert_eq!(joined, s);
    }
}

#[test]
fn tokenise_text_tokens_are_longest_matches() {
    let tokens = tokenise("ab*cd**ef");
    for w in tokens.windows(2) {
        assert!(!(matches!(w[0], Tokens::TEXT(_)) && matches!(w[1], Tokens::TEXT(_))));
    }
    assert_eq!(tokens.len(), 6);
}

#[test]
fn token_texts() {
    assert_eq!(Tokens::ASTERISK.to_text(), "*");
    assert_eq!(Tokens::BACKSLASH.to_text(), "\\");
    assert_eq!(Tokens::TEXT("xy".to_string()).to_text(), "xy");
}
