use nota_serde_core::de::NewtypeOpen;
use nota_serde_core::error::{HeadKind, LexError};
use nota_serde_core::{
    Deserializer, Dialect, Error, Lexer, Serializer, Token, BIND_SENTINEL, MUTATE_SENTINEL,
    NEGATE_SENTINEL, SUBSCRIBE_SENTINEL, VALIDATE_SENTINEL,
};

fn tokens(text: &str, d: Dialect) -> Result<Vec<Token>, Error> {
    let mut l = Lexer::with_dialect(text, d);
    let mut out = Vec::new();
    while let Some(t) = l.next_token()? {
        out.push(t);
    }
    Ok(out)
}

#[test]
fn signed_integers_read_back() {
    for v in [0i128, 7, -7, 42, i128::MAX, i128::MIN] {
        for d in [Dialect::Nota, Dialect::Nexus] {
            let mut s = Serializer::with_dialect(d);
            s.serialize_i128(v);
            let text = s.into_output();
            let mut r = Deserializer::with_dialect(&text, d);
            assert_eq!(r.deserialize_i128().unwrap(), v);
            r.expect_end().unwrap();
        }
    }
}

#[test]
fn unsigned_integers_read_back() {
    for v in [0u128, 255, u64::MAX as u128, i128::MAX as u128 + 1, u128::MAX] {
        let mut s = Serializer::new();
        s.serialize_u128(v);
        let text = s.into_output();
        let mut r = Deserializer::new(&text);
        assert_eq!(r.deserialize_u128().unwrap(), v);
        r.expect_end().unwrap();
    }
}

#[test]
fn booleans_read_back() {
    for v in [true, false] {
        let mut s = Serializer::new();
        s.serialize_bool(v);
        let text = s.into_output();
        let mut r = Deserializer::new(&text);
        assert_eq!(r.deserialize_bool().unwrap(), v);
        r.expect_end().unwrap();
    }
}

#[test]
fn bare_strings_read_back() {
    for v in ["hello", "kebab-name", "User", "_x", "a1-b2"] {
        let mut s = Serializer::new();
        s.serialize_str(v).unwrap();
        let text = s.into_output();
        assert_eq!(text, v);
        let mut r = Deserializer::new(&text);
        assert_eq!(r.deserialize_str().unwrap(), v);
        r.expect_end().unwrap();
    }
}

#[test]
fn byte_strings_read_back() {
    for v in [vec![0u8], vec![0xa1, 0xb2, 0xc3], (0u8..=255).collect::<Vec<u8>>()] {
        let mut s = Serializer::new();
        s.serialize_bytes(&v);
        let text = s.into_output();
        let mut r = Deserializer::new(&text);
        assert_eq!(r.deserialize_bytes().unwrap(), v);
        r.expect_end().unwrap();
    }
    // The empty byte string is written `#`, which does not read back.
    let mut s = Serializer::new();
    s.serialize_bytes(&[]);
    let text = s.into_output();
    assert_eq!(
        Deserializer::new(&text).deserialize_bytes().unwrap_err(),
        Error::Lex(LexError::EmptyByteLiteral).into_custom()
    );
}

#[test]
fn none_reads_back_as_absent() {
    let mut s = Serializer::new();
    s.serialize_none();
    let text = s.into_output();
    let mut r = Deserializer::new(&text);
    assert!(!r.deserialize_option().unwrap());
    r.expect_end().unwrap();
}

#[test]
fn unit_names_read_back() {
    let mut s = Serializer::new();
    s.serialize_unit_struct("Marker");
    let text = s.into_output();
    let mut r = Deserializer::new(&text);
    r.deserialize_unit_struct("Marker").unwrap();
    r.expect_end().unwrap();

    let mut s = Serializer::new();
    s.serialize_unit_variant("Archived");
    let text = s.into_output();
    let mut r = Deserializer::new(&text);
    r.deserialize_enum().unwrap();
    assert_eq!(r.variant_name().unwrap(), "Archived");
    assert_eq!(r.expect_pascal_head(HeadKind::Variant).unwrap_err(), Error::UnexpectedEnd.into_custom());
}

#[test]
fn sigils_read_back_in_nexus() {
    for (name, tok) in [
        (MUTATE_SENTINEL, Token::Tilde),
        (NEGATE_SENTINEL, Token::Bang),
        (VALIDATE_SENTINEL, Token::Question),
        (SUBSCRIBE_SENTINEL, Token::Star),
    ] {
        let mut s = Serializer::nexus();
        s.serialize_newtype_struct(name).unwrap();
        s.serialize_str("x").unwrap();
        let text = s.into_output();
        assert_eq!(tokens(&text, Dialect::Nexus).unwrap(), vec![tok, Token::Ident("x".into())]);
        let mut r = Deserializer::nexus(&text);
        assert!(matches!(r.deserialize_newtype_struct(name).unwrap(), NewtypeOpen::Prefixed));
        assert_eq!(r.deserialize_str().unwrap(), "x");
        r.expect_end().unwrap();
    }
}

#[test]
fn bind_reads_back_in_nexus() {
    let mut s = Serializer::nexus();
    s.serialize_newtype_struct(BIND_SENTINEL).unwrap();
    s.serialize_bind("customer-tier").unwrap();
    let text = s.into_output();
    let mut r = Deserializer::nexus(&text);
    match r.deserialize_newtype_struct(BIND_SENTINEL).unwrap() {
        NewtypeOpen::Bind(name) => assert_eq!(name, "customer-tier"),
        _ => panic!("not a bind"),
    }
    r.expect_end().unwrap();
}

#[test]
fn nota_never_yields_nexus_tokens() {
    for text in ["~", "@", "!", "?", "*", "{", "}", "|"] {
        assert!(tokens(text, Dialect::Nota).is_err(), "{text}");
        assert!(tokens(text, Dialect::Nexus).is_ok() || text == "|", "{text}");
    }
}

#[test]
fn nexus_reads_nota_text_the_same() {
    let text = "(Point 1 -2.5 \"s t\" #ff true None) ;; done";
    assert_eq!(tokens(text, Dialect::Nexus).unwrap(), tokens(text, Dialect::Nota).unwrap());
    // Except where a token starts with `[`, `<` or `>`.
    assert_eq!(tokens("[a b]", Dialect::Nota).unwrap(), vec![Token::Str("a b".into())]);
    assert_eq!(
        tokens("[a b]", Dialect::Nexus).unwrap(),
        vec![Token::LBracket, Token::Ident("a".into()), Token::Ident("b".into()), Token::RBracket]
    );
    assert_eq!(tokens("[|", Dialect::Nexus).unwrap(), vec![Token::LBracketPipe]);
    assert!(tokens("[|", Dialect::Nota).is_err());
    assert_eq!(tokens("<>", Dialect::Nota).unwrap(), vec![Token::LAngle, Token::RAngle]);
    assert!(tokens("<>", Dialect::Nexus).is_err());
}

#[test]
fn angle_brackets_reserved_in_nexus() {
    assert_eq!(
        tokens("  >", Dialect::Nexus).unwrap_err(),
        Error::Lex(LexError::ReservedToken { byte: b'>', offset: 2 }).into_custom()
    );
    assert_eq!(tokens("  >", Dialect::Nota).unwrap(), vec![Token::RAngle]);
}

#[test]
fn written_floats_read_as_floats() {
    for v in [0.0f64, 1.0, -3.0, 2.5, 1e300, 123456789.0] {
        let mut s = Serializer::new();
        s.write_float(&format!("{v}"));
        let text = s.into_output();
        match tokens(&text, Dialect::Nota).unwrap().as_slice() {
            [Token::Float(t)] => assert_eq!(t.parse::<f64>().unwrap(), v),
            other => panic!("{text}: {other:?}"),
        }
    }
}

#[test]
fn written_records_lex_back_token_by_token() {
    // (Line (Point 0 -2) (Tag hello #0aff) None)
    let mut s = Serializer::new();
    let mut line = s.serialize_struct("Line");
    line.field(&mut s);
    let mut p = s.serialize_struct("Point");
    p.field(&mut s);
    s.serialize_i32(0);
    p.field(&mut s);
    s.serialize_i32(-2);
    p.close(&mut s);
    line.field(&mut s);
    s.serialize_newtype_struct("Tag").unwrap();
    s.serialize_str("hello").unwrap();
    s.close_newtype();
    line.field(&mut s);
    s.serialize_bytes(&[0x0a, 0xff]);
    line.field(&mut s);
    s.serialize_none();
    line.close(&mut s);
    let text = s.into_output();
    assert_eq!(text, "(Line (Point 0 -2) (Tag hello) #0aff None)");
    for d in [Dialect::Nota, Dialect::Nexus] {
        assert_eq!(
            tokens(&text, d).unwrap(),
            vec![
                Token::LParen,
                Token::Ident("Line".into()),
                Token::LParen,
                Token::Ident("Point".into()),
                Token::Int(0),
                Token::Int(-2),
                Token::RParen,
                Token::LParen,
                Token::Ident("Tag".into()),
                Token::Ident("hello".into()),
                Token::RParen,
                Token::Bytes(vec![0x0a, 0xff]),
                Token::Ident("None".into()),
                Token::RParen,
            ]
        );
    }
}

#[test]
fn written_nexus_forms_lex_back_token_by_token() {
    // [| ~(Set @name 3) !true |]
    let mut s = Serializer::nexus();
    let mut batch = s.serialize_atomic_batch();
    batch.element(&mut s);
    s.serialize_newtype_struct(MUTATE_SENTINEL).unwrap();
    let mut set = s.serialize_struct("Set");
    set.field(&mut s);
    s.serialize_bind("name").unwrap();
    set.field(&mut s);
    s.serialize_i32(3);
    set.close(&mut s);
    batch.element(&mut s);
    s.serialize_newtype_struct(NEGATE_SENTINEL).unwrap();
    s.serialize_bool(true);
    batch.close(&mut s);
    let text = s.into_output();
    assert_eq!(text, "[| ~(Set @name 3) !true |]");
    assert_eq!(
        tokens(&text, Dialect::Nexus).unwrap(),
        vec![
            Token::LBracketPipe,
            Token::Tilde,
            Token::LParen,
            Token::Ident("Set".into()),
            Token::At,
            Token::Ident("name".into()),
            Token::Int(3),
            Token::RParen,
            Token::Bang,
            Token::Bool(true),
            Token::RBracketPipe,
        ]
    );
}

#[test]
fn strings_read_back_in_both_dialects() {
    let samples = [
        "hello world",
        "a\"b\\c",
        "line one\nline two",
        "",
        "true",
        "None",
        "1name",
        "ü ñ 日本 😀",
        "tab\there",
        "a]b",
        "x = y",
        "\"\"\"",
    ];
    for v in samples {
        for d in [Dialect::Nota, Dialect::Nexus] {
            let mut s = Serializer::with_dialect(d);
            s.serialize_str(v).unwrap();
            let text = s.into_output();
            let open = if d == Dialect::Nota { '[' } else { '"' };
            assert!(text.starts_with(open), "{text}");
            let mut r = Deserializer::with_dialect(&text, d);
            assert_eq!(r.deserialize_str().unwrap(), v);
            r.expect_end().unwrap();
        }
    }
}

#[test]
fn sequences_read_back() {
    for items in [vec![], vec![7], vec![1, -2, 3]] {
        let mut s = Serializer::new();
        let mut seq = s.serialize_seq();
        for v in &items {
            seq.element(&mut s);
            s.serialize_i32(*v);
        }
        seq.close(&mut s);
        let text = s.into_output();
        let mut r = Deserializer::new(&text);
        r.open_seq().unwrap();
        let mut back = Vec::new();
        while r.seq_has_next().unwrap() {
            back.push(r.deserialize_i128().unwrap() as i32);
        }
        r.close_seq().unwrap();
        r.expect_end().unwrap();
        assert_eq!(back, items);
    }
}

#[test]
fn maps_read_back_in_key_order() {
    let entries = [("zeta", 26), ("alpha beta", 1), ("mu", 12)];
    let mut s = Serializer::new();
    let mut m = s.serialize_map();
    for (k, v) in entries {
        let mut ks = Serializer::new();
        ks.serialize_str(k).unwrap();
        let mut vs = Serializer::new();
        vs.serialize_i32(v);
        m.serialize_key(ks.into_output());
        m.serialize_value(vs.into_output()).unwrap();
    }
    m.end(&mut s);
    let text = s.into_output();
    assert_eq!(text, "<([alpha beta] 1) (mu 12) (zeta 26)>");
    let mut r = Deserializer::new(&text);
    r.open_seq().unwrap();
    let mut back = Vec::new();
    while r.map_next_key().unwrap() {
        let k = r.deserialize_str().unwrap();
        let v = r.deserialize_i128().unwrap();
        r.close_paren().unwrap();
        back.push((k, v));
    }
    r.close_seq().unwrap();
    r.expect_end().unwrap();
    assert_eq!(
        back,
        vec![("alpha beta".to_string(), 1), ("mu".to_string(), 12), ("zeta".to_string(), 26)]
    );
}

#[test]
fn written_lists_and_maps_lex_back_token_by_token() {
    let text = "<(Point 1 2) [a b] <> <(k 1)>>";
    assert_eq!(
        tokens(text, Dialect::Nota).unwrap(),
        vec![
            Token::LAngle,
            Token::LParen,
            Token::Ident("Point".into()),
            Token::Int(1),
            Token::Int(2),
            Token::RParen,
            Token::Str("a b".into()),
            Token::LAngle,
            Token::RAngle,
            Token::LAngle,
            Token::LParen,
            Token::Ident("k".into()),
            Token::Int(1),
            Token::RParen,
            Token::RAngle,
            Token::RAngle,
        ]
    );
}

#[test]
fn negative_prefixed_integers_keep_their_sign() {
    assert_eq!(tokens("-0x10 -0b11 -0o7", Dialect::Nota).unwrap(), vec![
        Token::Int(-16),
        Token::Int(-3),
        Token::Int(-7),
    ]);
}

#[test]
fn nested_quoted_strings_lex_back() {
    // (Note "x = ü" ["日本" @y]) in nexus: a quoted string may hold `=`
    // and any character, wherever it stands.
    let mut s = Serializer::nexus();
    let mut note = s.serialize_struct("Note");
    note.field(&mut s);
    s.serialize_str("x = ü").unwrap();
    note.field(&mut s);
    let mut seq = s.serialize_seq();
    seq.element(&mut s);
    s.serialize_str("日本").unwrap();
    seq.element(&mut s);
    s.serialize_bind("y").unwrap();
    seq.close(&mut s);
    note.close(&mut s);
    let text = s.into_output();
    assert_eq!(text, "(Note \"x = ü\" [\"日本\" @y])");
    assert_eq!(
        tokens(&text, Dialect::Nexus).unwrap(),
        vec![
            Token::LParen,
            Token::Ident("Note".into()),
            Token::Str("x = ü".into()),
            Token::LBracket,
            Token::Str("日本".into()),
            Token::At,
            Token::Ident("y".into()),
            Token::RBracket,
            Token::RParen,
        ]
    );
}

#[test]
fn nota_bracket_forms_that_do_not_read_back() {
    // A `[…]` text that starts with `|` opens a `[| |]` string instead.
    let mut s = Serializer::new();
    s.serialize_str("|x").unwrap();
    assert_eq!(s.output(), "[|x]");
    assert!(Deserializer::new("[|x]").deserialize_str().is_err());
    // A `[| |]` body is dedented: a final line break and a common
    // indentation do not come back.
    for (v, back) in [("ends\n", "ends"), ("  a\n  b", "a\nb")] {
        let mut s = Serializer::new();
        s.serialize_str(v).unwrap();
        let text = s.into_output();
        assert_eq!(Deserializer::new(&text).deserialize_str().unwrap(), back);
    }
}
