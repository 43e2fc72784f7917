use nota_serde_core::error::{IntErrorKind, LexError};
use nota_serde_core::{Dialect, Error, Lexer, Token};

fn lex_nexus(s: &str) -> Vec<Token> {
    let mut l = Lexer::nexus(s);
    let mut out = Vec::new();
    while let Some(t) = l.next_token().expect("lex") {
        out.push(t);
    }
    out
}

#[test]
fn tilde_at_bang_produce_tokens() {
    assert_eq!(lex_nexus("~@!"), vec![Token::Tilde, Token::At, Token::Bang]);
}

#[test]
fn question_token() {
    assert_eq!(lex_nexus("?"), vec![Token::Question]);
}

#[test]
fn star_token() {
    assert_eq!(lex_nexus("*"), vec![Token::Star]);
}

#[test]
fn five_sigils_in_sequence() {
    assert_eq!(
        lex_nexus("~ ! ? * @"),
        vec![Token::Tilde, Token::Bang, Token::Question, Token::Star, Token::At]
    );
}

#[test]
fn tilde_in_nota_mode_is_error() {
    let mut l = Lexer::new("~");
    assert!(l.next_token().is_err());
}

#[test]
fn at_in_nota_mode_is_error() {
    let mut l = Lexer::new("@foo");
    assert!(l.next_token().is_err());
}

#[test]
fn bang_in_nota_mode_is_error() {
    let mut l = Lexer::new("!x");
    assert!(l.next_token().is_err());
}

#[test]
fn question_in_nota_mode_is_error() {
    let mut l = Lexer::new("?");
    assert!(l.next_token().is_err());
}

#[test]
fn star_in_nota_mode_is_error() {
    let mut l = Lexer::new("*");
    assert!(l.next_token().is_err());
}

#[test]
fn brace_in_nota_mode_is_error() {
    let mut l = Lexer::new("{");
    assert!(l.next_token().is_err());
}

#[test]
fn braces() {
    assert_eq!(lex_nexus("{}"), vec![Token::LBrace, Token::RBrace]);
}

#[test]
fn constrain_delim() {
    assert_eq!(lex_nexus("{| |}"), vec![Token::LBracePipe, Token::RBracePipe]);
}

#[test]
fn pattern_delim() {
    assert_eq!(lex_nexus("(| |)"), vec![Token::LParenPipe, Token::RParenPipe]);
}

#[test]
fn pattern_delim_with_content() {
    let toks = lex_nexus("(| Point @h |)");
    assert_eq!(
        toks,
        vec![
            Token::LParenPipe,
            Token::Ident("Point".into()),
            Token::At,
            Token::Ident("h".into()),
            Token::RParenPipe,
        ]
    );
}

#[test]
fn atomic_batch_delim_empty() {
    assert_eq!(lex_nexus("[||]"), vec![Token::LBracketPipe, Token::RBracketPipe]);
}

#[test]
fn atomic_batch_delim_with_space() {
    assert_eq!(lex_nexus("[| |]"), vec![Token::LBracketPipe, Token::RBracketPipe]);
}

#[test]
fn atomic_batch_delim_with_content() {
    let toks = lex_nexus("[| 1 2 3 |]");
    assert_eq!(
        toks,
        vec![
            Token::LBracketPipe,
            Token::Int(1),
            Token::Int(2),
            Token::Int(3),
            Token::RBracketPipe,
        ]
    );
}

#[test]
fn pipe_followed_by_unknown_rejected() {
    let mut l = Lexer::nexus("|x");
    assert!(l.next_token().is_err());
}

#[test]
fn left_angle_in_nexus_rejected_as_reserved() {
    let mut l = Lexer::nexus("<");
    let err = l.next_token().unwrap_err().message();
    assert!(err.contains("reserved"), "got {err}");
}

#[test]
fn right_angle_in_nexus_rejected_as_reserved() {
    let mut l = Lexer::nexus(">");
    let err = l.next_token().unwrap_err().message();
    assert!(err.contains("reserved"), "got {err}");
}

#[test]
fn lexer_dialect_accessor() {
    assert_eq!(Lexer::new("").dialect(), Dialect::Nota);
    assert_eq!(Lexer::nexus("").dialect(), Dialect::Nexus);
}

// ---------- further cases of the token grammar ----------

fn lex_all(s: &str, d: Dialect) -> Result<Vec<Token>, Error> {
    let mut l = Lexer::with_dialect(s, d);
    let mut out = Vec::new();
    while let Some(t) = l.next_token()? {
        out.push(t);
    }
    Ok(out)
}

#[test]
fn nota_pipe_openers_stay_plain() {
    // In nota, `(|` is `(` followed by a `|` the dialect does not know.
    let mut l = Lexer::new("(|");
    assert_eq!(l.next_token().unwrap(), Some(Token::LParen));
    assert_eq!(
        l.next_token().unwrap_err(),
        Error::Lex(LexError::UnexpectedCharacter { byte: b'|', offset: 1, dialect: Dialect::Nota }).into_custom()
    );
}

#[test]
fn reserved_token_error_carries_offset() {
    let mut l = Lexer::nexus("  ;; note\n >");
    assert_eq!(
        l.next_token().unwrap_err(),
        Error::Lex(LexError::ReservedToken { byte: b'>', offset: 11 }).into_custom()
    );
    let msg = Lexer::nexus("<").next_token().unwrap_err().message();
    assert_eq!(
        msg,
        "reserved token '<' at byte offset 0 — `<` `>` `<=` `>=` `!=` are reserved for comparison operators (design pending)"
    );
}

#[test]
fn unexpected_character_message_names_dialect() {
    let msg = Lexer::new("~").next_token().unwrap_err().message();
    assert_eq!(msg, "unexpected character '~' at byte offset 0 (nota dialect)");
    let msg = Lexer::nexus("%").next_token().unwrap_err().message();
    assert_eq!(msg, "unexpected character '%' at byte offset 0 (nexus dialect)");
}

#[test]
fn comments_and_whitespace_are_skipped() {
    let toks = lex_all(";; heading\n  (Point ;; x\n 1 2) ;; end", Dialect::Nota).unwrap();
    assert_eq!(
        toks,
        vec![
            Token::LParen,
            Token::Ident("Point".into()),
            Token::Int(1),
            Token::Int(2),
            Token::RParen,
        ]
    );
}

#[test]
fn single_semicolon_is_not_a_comment() {
    assert!(lex_all(";x", Dialect::Nota).is_err());
}

#[test]
fn keywords_and_identifiers() {
    let toks = lex_all("true false None kebab-name _x", Dialect::Nota).unwrap();
    assert_eq!(
        toks,
        vec![
            Token::Bool(true),
            Token::Bool(false),
            Token::Ident("None".into()),
            Token::Ident("kebab-name".into()),
            Token::Ident("_x".into()),
        ]
    );
}

#[test]
fn colon_token() {
    assert_eq!(lex_all(": :", Dialect::Nota).unwrap(), vec![Token::Colon, Token::Colon]);
}

#[test]
fn equals_only_as_bind_alias() {
    assert_eq!(
        lex_nexus("@a=@b"),
        vec![
            Token::At,
            Token::Ident("a".into()),
            Token::Equals,
            Token::At,
            Token::Ident("b".into()),
        ]
    );
    assert_eq!(
        lex_nexus("@a = @b"),
        vec![
            Token::At,
            Token::Ident("a".into()),
            Token::Equals,
            Token::At,
            Token::Ident("b".into()),
        ]
    );
    // Anywhere else `=` is reserved, and nota has no bind aliases.
    assert_eq!(
        lex_all("a=b", Dialect::Nexus).unwrap_err(),
        Error::Lex(LexError::ReservedToken { byte: b'=', offset: 1 }).into_custom()
    );
    assert_eq!(
        lex_all("@=b", Dialect::Nexus).unwrap_err(),
        Error::Lex(LexError::ReservedToken { byte: b'=', offset: 1 }).into_custom()
    );
    assert_eq!(
        lex_all("@a=@b 5=", Dialect::Nexus).unwrap_err(),
        Error::Lex(LexError::ReservedToken { byte: b'=', offset: 7 }).into_custom()
    );
    assert_eq!(
        lex_all("=", Dialect::Nota).unwrap_err(),
        Error::Lex(LexError::ReservedToken { byte: b'=', offset: 0 }).into_custom()
    );
}

#[test]
fn not_equal_is_reserved() {
    for d in [Dialect::Nota, Dialect::Nexus] {
        assert_eq!(
            lex_all(" !=", d).unwrap_err(),
            Error::Lex(LexError::ReservedToken { byte: b'!', offset: 1 }).into_custom()
        );
        assert_eq!(
            lex_all("<=", d).unwrap_err(),
            Error::Lex(LexError::ReservedToken { byte: b'<', offset: 0 }).into_custom()
        );
        assert_eq!(
            lex_all(">=", d).unwrap_err(),
            Error::Lex(LexError::ReservedToken { byte: b'>', offset: 0 }).into_custom()
        );
    }
    assert_eq!(lex_nexus("!x"), vec![Token::Bang, Token::Ident("x".into())]);
}

#[test]
fn integers_decimal_and_prefixed() {
    let toks = lex_all("0 -7 1_000 0x1F 0b101 0o17 -0x10", Dialect::Nota).unwrap();
    assert_eq!(
        toks,
        vec![
            Token::Int(0),
            Token::Int(-7),
            Token::Int(1000),
            Token::Int(31),
            Token::Int(5),
            Token::Int(15),
            // A sign before the prefix negates the value.
            Token::Int(-16),
        ]
    );
}

#[test]
fn integers_beyond_i128() {
    let toks = lex_all(
        "170141183460469231731687303715884105727 170141183460469231731687303715884105728 -170141183460469231731687303715884105728",
        Dialect::Nota,
    )
    .unwrap();
    assert_eq!(
        toks,
        vec![
            Token::Int(i128::MAX),
            Token::UInt(i128::MAX as u128 + 1),
            Token::Int(i128::MIN),
        ]
    );
    assert_eq!(
        lex_all("340282366920938463463374607431768211455", Dialect::Nota).unwrap(),
        vec![Token::UInt(u128::MAX)]
    );
}

#[test]
fn integer_overflow_is_refused() {
    assert_eq!(
        lex_all("340282366920938463463374607431768211456", Dialect::Nota).unwrap_err(),
        Error::Custom(
            "invalid integer \"340282366920938463463374607431768211456\": number too large to fit in target type".into()
        )
    );
    assert_eq!(
        lex_all("-", Dialect::Nota).unwrap_err(),
        Error::Custom("invalid integer \"-\": invalid digit found in string".into())
    );
    assert_eq!(
        lex_all("0x", Dialect::Nota).unwrap_err(),
        Error::Custom("invalid radix-16 int \"0x\": cannot parse integer from empty string".into())
    );
    // Without the text at hand, the structured error names the span.
    let e = Error::Lex(LexError::InvalidRadixInt { radix: 16, start: 0, end: 2, reason: IntErrorKind::Empty });
    assert_eq!(e.message(), "invalid radix-16 int at byte offsets 0..2: cannot parse integer from empty string");
}

#[test]
fn floats_keep_their_text() {
    let toks = lex_all("2.5 -0.5 1e3 1_0.2_5 1.", Dialect::Nota).unwrap();
    assert_eq!(
        toks,
        vec![
            Token::Float("2.5".into()),
            Token::Float("-0.5".into()),
            Token::Float("1e3".into()),
            Token::Float("10.25".into()),
            Token::Float("1.".into()),
        ]
    );
}

#[test]
fn malformed_float_is_refused() {
    assert_eq!(
        lex_all("1e", Dialect::Nota).unwrap_err(),
        Error::Custom("invalid float \"1e\": invalid float literal".into())
    );
    assert_eq!(
        lex_all("-.", Dialect::Nota).unwrap_err(),
        Error::Custom("invalid float \"-.\": invalid float literal".into())
    );
}

#[test]
fn byte_literals() {
    assert_eq!(
        lex_all("#a1b2c3", Dialect::Nota).unwrap(),
        vec![Token::Bytes(vec![0xa1, 0xb2, 0xc3])]
    );
    assert_eq!(lex_all("#", Dialect::Nota).unwrap_err(), Error::Lex(LexError::EmptyByteLiteral).into_custom());
    assert_eq!(
        lex_all("#abc", Dialect::Nota).unwrap_err(),
        Error::Lex(LexError::OddHexDigitCount { count: 3 }).into_custom()
    );
    // Uppercase hex digits end the literal.
    assert_eq!(
        lex_all("#ab CD", Dialect::Nota).unwrap(),
        vec![Token::Bytes(vec![0xab]), Token::Ident("CD".into())]
    );
}

#[test]
fn inline_strings_and_escapes() {
    assert_eq!(
        lex_all(r#""a \"b\" \\ \n\t\r é""#, Dialect::Nota).unwrap(),
        vec![Token::Str("a \"b\" \\ \n\t\r é".into())]
    );
    assert_eq!(
        lex_all("\"abc", Dialect::Nota).unwrap_err(),
        Error::Lex(LexError::UnterminatedInlineString).into_custom()
    );
    assert_eq!(
        lex_all("\"a\nb\"", Dialect::Nota).unwrap_err(),
        Error::Lex(LexError::NewlineInInlineString).into_custom()
    );
    assert_eq!(
        lex_all("\"a\\q\"", Dialect::Nota).unwrap_err(),
        Error::Lex(LexError::UnknownEscape { byte: b'q' }).into_custom()
    );
    assert_eq!(
        lex_all("\"a\\", Dialect::Nota).unwrap_err(),
        Error::Lex(LexError::UnterminatedEscape).into_custom()
    );
}

#[test]
fn multiline_strings_are_dedented() {
    let text = "\"\"\"\n    two\n      lines\n    \"\"\"";
    assert_eq!(
        lex_all(text, Dialect::Nota).unwrap(),
        vec![Token::Str("two\n  lines".into())]
    );
    assert_eq!(
        lex_all("\"\"\"abc", Dialect::Nota).unwrap_err(),
        Error::Lex(LexError::UnterminatedMultilineString).into_custom()
    );
    assert_eq!(lex_all("\"\"\"\"\"\"", Dialect::Nota).unwrap(), vec![Token::Str(String::new())]);
}

#[test]
fn pipe_errors() {
    assert_eq!(
        Lexer::nexus("|x").next_token().unwrap_err(),
        Error::Lex(LexError::PipeFollowedBy { byte: b'x' }).into_custom()
    );
    assert_eq!(Lexer::nexus("|").next_token().unwrap_err(), Error::Lex(LexError::PipeAtEnd).into_custom());
}

#[test]
fn end_of_input_is_none() {
    let mut l = Lexer::new("  ;; only a comment");
    assert_eq!(l.next_token().unwrap(), None);
    assert_eq!(l.next_token().unwrap(), None);
}

#[test]
fn dedent_empties_blank_lines_it_would_cut_inside_a_character() {
    // The blank middle lines hold U+3000 and U+00A0 (multi-byte white
    // space); cutting the common indentation from them would split the
    // character, so they are left empty.
    let text = "\"\"\"\n  a\n\u{3000}\n  b\n\u{a0}\n  c\n\"\"\"";
    assert_eq!(
        lex_all(text, Dialect::Nota).unwrap(),
        vec![Token::Str("a\n\nb\n\nc".into())]
    );
}

#[test]
fn dedent_cuts_the_indentation_from_blank_lines_too() {
    // A blank line of six spaces under an indentation of four keeps two.
    let text = "\"\"\"\n    a\n      \n    b\n\"\"\"";
    assert_eq!(lex_all(text, Dialect::Nota).unwrap(), vec![Token::Str("a\n  \nb".into())]);
    let text = "[|\n    a\n      \n    b\n|]";
    assert_eq!(lex_all(text, Dialect::Nota).unwrap(), vec![Token::Str("a\n  \nb".into())]);
}

#[test]
fn dedent_keeps_inner_blank_lines_and_drops_outer_ones() {
    let text = "\"\"\"\n\n   x\n\n     y\n \t \n\"\"\"";
    assert_eq!(lex_all(text, Dialect::Nota).unwrap(), vec![Token::Str("x\n\n  y".into())]);
}

#[test]
fn lexing_messages() {
    let msg = |s: &str, d: Dialect| lex_all(s, d).unwrap_err().message();
    assert_eq!(msg("|x", Dialect::Nexus), "unexpected `|` followed by 'x' — expected `|)`, `|}`, or `|]`");
    assert_eq!(msg("|", Dialect::Nexus), "unexpected `|` at end of input");
    assert_eq!(msg("\"ab", Dialect::Nota), "unterminated inline string — missing `\"`");
    assert_eq!(
        msg("\"a\nb\"", Dialect::Nota),
        "unexpected newline in inline `\" \"` string — use `\"\"\" \"\"\"` for multiline"
    );
    assert_eq!(msg("\"a\\", Dialect::Nota), "unterminated escape at end of input");
    assert_eq!(
        msg("\"\\q\"", Dialect::Nota),
        "unknown escape `\\q` in inline string — supported: `\\\\`, `\\\"`, `\\n`, `\\t`, `\\r`"
    );
    assert_eq!(msg("\"\"\"x", Dialect::Nota), "unterminated multiline string — missing `\"\"\"`");
    assert_eq!(msg("#", Dialect::Nota), "`#` must be followed by hex digits");
    assert_eq!(msg("#abc", Dialect::Nota), "byte literal must have even number of hex digits, got 3");
    assert_eq!(msg("1e", Dialect::Nota), "invalid float \"1e\": invalid float literal");
    assert_eq!(
        msg("99999999999999999999999999999999999999999", Dialect::Nota),
        "invalid integer \"99999999999999999999999999999999999999999\": number too large to fit in target type"
    );
    assert_eq!(
        msg("-0x1_0000_0000_0000_0000_0000_0000_0000_0001", Dialect::Nota),
        "invalid radix-16 int \"-0x1_0000_0000_0000_0000_0000_0000_0000_0001\": invalid digit found in string"
    );
    assert_eq!(msg("\u{1}", Dialect::Nota), "unexpected character '\\u{1}' at byte offset 0 (nota dialect)");
    assert_eq!(msg("'", Dialect::Nota), "unexpected character '\\'' at byte offset 0 (nota dialect)");
}

#[test]
fn nota_bracket_strings() {
    assert_eq!(
        lex_all("[hello world] [] [a\"b]", Dialect::Nota).unwrap(),
        vec![
            Token::Str("hello world".into()),
            Token::Str(String::new()),
            Token::Str("a\"b".into()),
        ]
    );
    assert_eq!(
        lex_all("[|\n  a]b\n    c\n  |]", Dialect::Nota).unwrap(),
        vec![Token::Str("a]b\n  c".into())]
    );
    assert_eq!(
        lex_all("[abc", Dialect::Nota).unwrap_err(),
        Error::Lex(LexError::UnterminatedBracketString).into_custom()
    );
    assert_eq!(
        lex_all("[| abc ]", Dialect::Nota).unwrap_err(),
        Error::Lex(LexError::UnterminatedBracketMultiline).into_custom()
    );
    assert_eq!(lex_all("[abc", Dialect::Nota).unwrap_err().message(), "unterminated string — missing `]`");
}

#[test]
fn nota_angle_brackets_delimit_sequences() {
    assert_eq!(
        lex_all("<1 <>>", Dialect::Nota).unwrap(),
        vec![Token::LAngle, Token::Int(1), Token::LAngle, Token::RAngle, Token::RAngle]
    );
    assert_eq!(
        lex_all("<=", Dialect::Nota).unwrap_err(),
        Error::Lex(LexError::ReservedToken { byte: b'<', offset: 0 }).into_custom()
    );
}
