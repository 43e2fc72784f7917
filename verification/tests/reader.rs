use nota_serde_core::de::{FloatSource, VariantOpen};
use nota_serde_core::error::{HeadKind, IntWidth, LexError};
use nota_serde_core::{Deserializer, Error, Token};

#[test]
fn reads_bool() {
    assert!(Deserializer::new("true").deserialize_bool().unwrap());
    assert!(!Deserializer::new("false").deserialize_bool().unwrap());
    assert_eq!(
        Deserializer::new("1").deserialize_bool().unwrap_err(),
        Error::ExpectedBool { got: Token::Int(1) }.into_custom()
    );
    assert_eq!(Deserializer::new("").deserialize_bool().unwrap_err(), Error::UnexpectedEnd.into_custom());
}

#[test]
fn reads_integers_by_width() {
    assert_eq!(Deserializer::new("-128").deserialize_signed(IntWidth::I8).unwrap(), -128);
    assert_eq!(
        Deserializer::new("128").deserialize_signed(IntWidth::I8).unwrap_err(),
        Error::SignedOutOfRange { value: 128, width: IntWidth::I8 }.into_custom()
    );
    assert_eq!(
        Deserializer::new("128").deserialize_signed(IntWidth::I8).unwrap_err().message(),
        "128 out of i8 range"
    );
    assert_eq!(Deserializer::new("255").deserialize_unsigned(IntWidth::U8).unwrap(), 255);
    assert_eq!(
        Deserializer::new("256").deserialize_unsigned(IntWidth::U8).unwrap_err().message(),
        "256 out of u8 range"
    );
    assert_eq!(
        Deserializer::new("-1").deserialize_unsigned(IntWidth::U32).unwrap_err(),
        Error::NegativeUnsigned { value: -1 }.into_custom()
    );
    assert_eq!(
        Deserializer::new("-1").deserialize_u128().unwrap_err().message(),
        "negative integer -1 cannot be represented as unsigned"
    );
    let big = "170141183460469231731687303715884105728";
    assert_eq!(
        Deserializer::new(big).deserialize_i128().unwrap_err().message(),
        "integer 170141183460469231731687303715884105728 exceeds i128::MAX; use a u128 field to hold it"
    );
    assert_eq!(Deserializer::new(big).deserialize_u128().unwrap(), i128::MAX as u128 + 1);
    assert_eq!(
        Deserializer::new("x").deserialize_i128().unwrap_err().message(),
        "expected integer, got Ident(\"x\")"
    );
}

#[test]
fn reads_float_sources() {
    assert!(matches!(Deserializer::new("2.5").deserialize_float().unwrap(), FloatSource::Text(t) if t == "2.5"));
    assert!(matches!(Deserializer::new("3").deserialize_float().unwrap(), FloatSource::Int(3)));
    assert!(matches!(
        Deserializer::new("340282366920938463463374607431768211455").deserialize_float().unwrap(),
        FloatSource::UInt(u128::MAX)
    ));
    assert_eq!(
        Deserializer::new("true").deserialize_float().unwrap_err().message(),
        "expected float, got Bool(true)"
    );
}

#[test]
fn reads_chars() {
    assert_eq!(Deserializer::new("a").deserialize_char().unwrap(), 'a');
    assert_eq!(Deserializer::new("\"é\"").deserialize_char().unwrap(), 'é');
    assert_eq!(
        Deserializer::new("\"\"").deserialize_char().unwrap_err().message(),
        "empty string for char"
    );
    assert_eq!(
        Deserializer::new("ab").deserialize_char().unwrap_err().message(),
        "expected single char, got \"ab\""
    );
    assert_eq!(
        Deserializer::new("1").deserialize_char().unwrap_err().message(),
        "expected string for char, got Int(1)"
    );
}

#[test]
fn reads_strings_and_bytes() {
    assert_eq!(Deserializer::new("\"a b\"").deserialize_str().unwrap(), "a b");
    assert_eq!(Deserializer::new("kebab-name").deserialize_str().unwrap(), "kebab-name");
    assert_eq!(
        Deserializer::new("#0f").deserialize_str().unwrap_err().message(),
        "expected string, got Bytes([15])"
    );
    assert_eq!(Deserializer::new("#00ff").deserialize_bytes().unwrap(), vec![0, 255]);
    assert_eq!(
        Deserializer::new("\"a\\n\"").deserialize_bytes().unwrap_err().message(),
        "expected bytes, got Str(\"a\\n\")"
    );
}

#[test]
fn reads_options() {
    let mut d = Deserializer::new("None");
    assert!(!d.deserialize_option().unwrap());
    d.expect_end().unwrap();
    let mut d = Deserializer::new("7");
    assert!(d.deserialize_option().unwrap());
    assert_eq!(d.deserialize_i128().unwrap(), 7);
    d.expect_end().unwrap();
    // A quoted "None" is a present string.
    let mut d = Deserializer::new("\"None\"");
    assert!(d.deserialize_option().unwrap());
    assert_eq!(d.deserialize_str().unwrap(), "None");
}

#[test]
fn unit_and_tuple_structs_are_refused() {
    let d = Deserializer::new("");
    assert_eq!(d.deserialize_unit().unwrap_err(), Error::UnitForbidden);
    assert_eq!(
        d.deserialize_tuple_struct("Pair", 2).unwrap_err(),
        Error::MultiFieldTupleStructForbidden { name: "Pair".into(), len: 2 }
    );
}

/// `BTreeMap<String, bool>` written `<(k v) …>`.
#[test]
fn reads_map_entries() {
    let mut d = Deserializer::new("<(debug true) (strict false)>");
    d.open_seq().unwrap();
    let mut entries = Vec::new();
    while d.map_next_key().unwrap() {
        let k = d.deserialize_str().unwrap();
        let v = d.deserialize_bool().unwrap();
        d.close_paren().unwrap();
        entries.push((k, v));
    }
    d.close_seq().unwrap();
    d.expect_end().unwrap();
    assert_eq!(entries, vec![("debug".to_string(), true), ("strict".to_string(), false)]);

    let mut d = Deserializer::new("<debug>");
    d.open_seq().unwrap();
    assert_eq!(
        d.map_next_key().unwrap_err().message(),
        "expected `(` to open map entry, got Some(Ident(\"debug\"))"
    );
}

#[test]
fn reads_identifiers() {
    assert_eq!(Deserializer::new("horizontal").deserialize_identifier().unwrap(), "horizontal");
    assert_eq!(
        Deserializer::new("\"x\"").deserialize_identifier().unwrap_err().message(),
        "expected identifier, got Str(\"x\")"
    );
}

#[test]
fn payload_variant_with_value() {
    // `enum E { V(i32) }` written `(V 7)`.
    let mut d = Deserializer::new("(V 7)");
    assert_eq!(d.deserialize_enum().unwrap(), VariantOpen::Payload);
    assert_eq!(d.variant_name().unwrap(), "V");
    assert_eq!(d.deserialize_signed(IntWidth::I32).unwrap(), 7);
    d.close_paren().unwrap();
    d.expect_end().unwrap();
}

#[test]
fn peek_then_next_agree() {
    let mut d = Deserializer::new("  (Point");
    assert_eq!(d.peek().unwrap(), Some(Token::LParen));
    assert_eq!(d.peek().unwrap(), Some(Token::LParen));
    assert_eq!(d.next().unwrap(), Some(Token::LParen));
    assert_eq!(d.next().unwrap(), Some(Token::Ident("Point".into())));
    assert_eq!(d.next().unwrap(), None);
}

#[test]
fn lexing_errors_pass_through() {
    assert_eq!(
        Deserializer::nexus("<").deserialize_bool().unwrap_err(),
        Error::Lex(LexError::ReservedToken { byte: b'<', offset: 0 }).into_custom()
    );
    assert_eq!(
        Deserializer::new("(Point 1 2").expect_pascal_head(HeadKind::Struct).unwrap_err().message(),
        "expected struct name (PascalCase identifier), got LParen"
    );
}

#[test]
fn expect_matching_reports_both_tokens() {
    let mut d = Deserializer::new(")");
    assert_eq!(
        d.expect_matching(&Token::LBracket).unwrap_err().message(),
        "expected LBracket, got RParen"
    );
}
