use arith_expr::parser::scope_marker::{DelimiterFamily, ScopeMarker};

const ALL: [ScopeMarker; 7] = [
    ScopeMarker::OpenParenthesis,
    ScopeMarker::CloseParenthesis,
    ScopeMarker::OpenCurlyBrace,
    ScopeMarker::CloseCurlyBrace,
    ScopeMarker::OpenBracket,
    ScopeMarker::CloseBracket,
    ScopeMarker::Unknown,
];

#[test]
fn from_str_classifies_the_six_delimiters() {
    assert_eq!(ScopeMarker::from_str("("), ScopeMarker::OpenParenthesis);
    assert_eq!(ScopeMarker::from_str(")"), ScopeMarker::CloseParenthesis);
    assert_eq!(ScopeMarker::from_str("{"), ScopeMarker::OpenCurlyBrace);
    assert_eq!(ScopeMarker::from_str("}"), ScopeMarker::CloseCurlyBrace);
    assert_eq!(ScopeMarker::from_str("["), ScopeMarker::OpenBracket);
    assert_eq!(ScopeMarker::from_str("]"), ScopeMarker::CloseBracket);
}

#[test]
fn from_str_gives_unknown_for_anything_else() {
    assert_eq!(ScopeMarker::from_str(""), ScopeMarker::Unknown);
    assert_eq!(ScopeMarker::from_str("+"), ScopeMarker::Unknown);
    assert_eq!(ScopeMarker::from_str("x"), ScopeMarker::Unknown);
    assert_eq!(ScopeMarker::from_str("()"), ScopeMarker::Unknown);
    assert_eq!(ScopeMarker::from_str("(("), ScopeMarker::Unknown);
    assert_eq!(ScopeMarker::from_str(" ("), ScopeMarker::Unknown);
    assert_eq!(ScopeMarker::from_str("<"), ScopeMarker::Unknown);
}

#[test]
fn from_char_agrees_with_from_str() {
    for c in ['(', ')', '{', '}', '[', ']', '<', 'a', ' '] {
        assert_eq!(ScopeMarker::from_char(c), ScopeMarker::from_str(&c.to_string()));
    }
}

#[test]
fn same_scope_pairs_each_opener_with_its_closer_only() {
    for a in ALL {
        for b in ALL {
            let expected = matches!(
                (a, b),
                (ScopeMarker::OpenParenthesis, ScopeMarker::CloseParenthesis)
                    | (ScopeMarker::CloseParenthesis, ScopeMarker::OpenParenthesis)
                    | (ScopeMarker::OpenCurlyBrace, ScopeMarker::CloseCurlyBrace)
                    | (ScopeMarker::CloseCurlyBrace, ScopeMarker::OpenCurlyBrace)
                    | (ScopeMarker::OpenBracket, ScopeMarker::CloseBracket)
                    | (ScopeMarker::CloseBracket, ScopeMarker::OpenBracket)
            );
            assert_eq!(a.same_scope(&b), expected);
        }
    }
}

#[test]
fn same_scope_is_symmetric() {
    for a in ALL {
        for b in ALL {
            assert_eq!(a.same_scope(&b), b.same_scope(&a));
        }
    }
}

#[test]
fn is_open_and_is_close_split_the_delimiters() {
    assert!(ScopeMarker::OpenParenthesis.is_open());
    assert!(ScopeMarker::OpenCurlyBrace.is_open());
    assert!(ScopeMarker::OpenBracket.is_open());
    assert!(!ScopeMarker::CloseParenthesis.is_open());
    assert!(!ScopeMarker::CloseCurlyBrace.is_open());
    assert!(!ScopeMarker::CloseBracket.is_open());
    assert!(ScopeMarker::CloseParenthesis.is_close());
    assert!(ScopeMarker::CloseCurlyBrace.is_close());
    assert!(ScopeMarker::CloseBracket.is_close());
    assert!(!ScopeMarker::OpenParenthesis.is_close());
    assert!(!ScopeMarker::OpenCurlyBrace.is_close());
    assert!(!ScopeMarker::OpenBracket.is_close());
    assert!(!ScopeMarker::Unknown.is_open());
    assert!(!ScopeMarker::Unknown.is_close());
}

#[test]
fn family_names_the_vocabulary() {
    assert_eq!(ScopeMarker::OpenParenthesis.family(), Some(DelimiterFamily::Paren));
    assert_eq!(ScopeMarker::CloseParenthesis.family(), Some(DelimiterFamily::Paren));
    assert_eq!(ScopeMarker::OpenCurlyBrace.family(), Some(DelimiterFamily::Brace));
    assert_eq!(ScopeMarker::CloseCurlyBrace.family(), Some(DelimiterFamily::Brace));
    assert_eq!(ScopeMarker::OpenBracket.family(), Some(DelimiterFamily::Bracket));
    assert_eq!(ScopeMarker::CloseBracket.family(), Some(DelimiterFamily::Bracket));
    assert_eq!(ScopeMarker::Unknown.family(), None);
}
