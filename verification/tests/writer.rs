use nota_serde_core::error::Error;
use nota_serde_core::ser::{is_bare_string_eligible, MapSerializer, NewtypeForm, SeqSerializer};
use nota_serde_core::Serializer;

fn written(f: impl FnOnce(&mut Serializer)) -> String {
    let mut s = Serializer::new();
    f(&mut s);
    s.into_output()
}

fn float_text(v: f64) -> String {
    assert!(v.is_finite());
    format!("{v}")
}

fn str_value(v: &str) -> Result<String, Error> {
    let mut s = Serializer::new();
    s.serialize_str(v)?;
    Ok(s.into_output())
}

fn point(s: &mut Serializer, name: &str, x: f64, y: f64) {
    let mut st = s.serialize_struct(name);
    st.field(s);
    s.write_float(&float_text(x));
    st.field(s);
    s.write_float(&float_text(y));
    st.close(s);
}

fn int_seq(s: &mut Serializer, items: &[i32]) {
    let mut seq: SeqSerializer = s.serialize_seq();
    for v in items {
        seq.element(s);
        s.serialize_i32(*v);
    }
    seq.close(s);
}

#[test]
fn primitives() {
    assert_eq!(written(|s| s.serialize_bool(true)), "true");
    assert_eq!(written(|s| s.serialize_bool(false)), "false");
    assert_eq!(written(|s| s.serialize_i32(42)), "42");
    assert_eq!(written(|s| s.serialize_i64(-7)), "-7");
    assert_eq!(written(|s| s.serialize_u32(0)), "0");
    assert_eq!(written(|s| s.write_float(&float_text(2.5))), "2.5");
    assert_eq!(written(|s| s.write_float(&float_text(1.0))), "1.0");
    assert_eq!(written(|s| s.write_float(&format!("{}", -0.5f32))), "-0.5");
    assert_eq!(str_value("hello").unwrap(), "hello");
    assert_eq!(str_value("kebab-name").unwrap(), "kebab-name");
    assert_eq!(str_value("true").unwrap(), "[true]");
    assert_eq!(str_value("None").unwrap(), "[None]");
    assert_eq!(str_value("hello world").unwrap(), "[hello world]");
}

#[test]
fn string_needing_multiline() {
    assert_eq!(str_value("a]b").unwrap(), "[|\na]b\n|]");
    assert_eq!(str_value("line one\nline two").unwrap(), "[|\nline one\nline two\n|]");
}

#[test]
fn string_with_multiline_closer_fails() {
    assert!(str_value("foo|]bar").is_err());
}

#[test]
fn bytes_direct() {
    assert_eq!(written(|s| s.serialize_bytes(&[0xa1, 0xb2, 0xc3])), "#a1b2c3");
}

#[test]
fn option() {
    assert_eq!(written(|s| s.serialize_none()), "None");
    // `Some(7)` is written as the value itself.
    assert_eq!(written(|s| s.serialize_i32(7)), "7");
}

#[test]
fn unit_forbidden() {
    assert!(Serializer::new().serialize_unit().is_err());
}

#[test]
fn unit_struct() {
    assert_eq!(written(|s| s.serialize_unit_struct("Marker")), "Marker");
}

#[test]
fn unit_variant() {
    assert_eq!(written(|s| s.serialize_unit_variant("Active")), "Active");
    assert_eq!(written(|s| s.serialize_unit_variant("Archived")), "Archived");
}

#[test]
fn newtype_struct_wraps() {
    let text = written(|s| {
        assert_eq!(s.serialize_newtype_struct("Id").unwrap(), NewtypeForm::Plain);
        s.serialize_u32(42);
        s.close_newtype();
    });
    assert_eq!(text, "(Id 42)");
}

#[test]
fn newtype_variant_wrapped() {
    let text = written(|s| {
        s.serialize_newtype_variant("V");
        s.serialize_i32(7);
        s.close_newtype();
    });
    assert_eq!(text, "(V 7)");
}

#[test]
fn tuple_struct_rejected() {
    let err = Serializer::new().serialize_tuple_struct("Pair", 2).err().unwrap();
    assert!(err.message().contains("multi-field unnamed struct"), "unexpected error: {err:?}");
}

#[test]
fn tuple_variant_rejected() {
    let err = Serializer::new().serialize_tuple_variant("Pair", 2).err().unwrap();
    assert!(err.message().contains("multi-field unnamed struct"), "unexpected error: {err:?}");
}

#[test]
fn seq() {
    assert_eq!(written(|s| int_seq(s, &[1, 2, 3])), "<1 2 3>");
}

#[test]
fn tuple() {
    let text = written(|s| {
        let mut t = s.serialize_seq();
        t.element(s);
        s.serialize_i32(1);
        t.element(s);
        s.serialize_str("a").unwrap();
        t.element(s);
        s.serialize_bool(true);
        t.close(s);
    });
    assert_eq!(text, "<1 a true>");
}

#[test]
fn struct_() {
    assert_eq!(written(|s| point(s, "Point", 3.0, 4.0)), "(Point 3.0 4.0)");
}

#[test]
fn struct_variant() {
    let text = written(|s| {
        let mut st = s.serialize_struct_variant("Circle");
        st.field(s);
        s.write_float(&float_text(2.0));
        st.close(s);
    });
    assert_eq!(text, "(Circle 2.0)");
}

#[test]
fn nested_struct() {
    let text = written(|s| {
        let mut line = s.serialize_struct("Line");
        line.field(s);
        point(s, "Point", 0.0, 0.0);
        line.field(s);
        point(s, "Point", 1.0, 2.0);
        line.close(s);
    });
    assert_eq!(text, "(Line (Point 0.0 0.0) (Point 1.0 2.0))");
}

fn map_text(entries: &[(&str, i32)]) -> String {
    let mut s = Serializer::new();
    let mut m: MapSerializer = s.serialize_map();
    for (k, v) in entries {
        let mut ks = Serializer::new();
        ks.serialize_str(k).unwrap();
        m.serialize_key(ks.into_output());
        let mut vs = Serializer::new();
        vs.serialize_i32(*v);
        m.serialize_value(vs.into_output()).unwrap();
    }
    m.end(&mut s);
    s.into_output()
}

#[test]
fn map_canonical_sort() {
    // Entries as a BTreeMap hands them over: in key order.
    assert_eq!(map_text(&[("alpha", 1), ("beta", 2)]), "<(alpha 1) (beta 2)>");
    // In any other order the text is the same.
    assert_eq!(map_text(&[("beta", 2), ("alpha", 1)]), "<(alpha 1) (beta 2)>");
}

#[test]
fn map_canonical_sort_with_hashmap() {
    assert_eq!(map_text(&[("zeta", 26), ("alpha", 1), ("mu", 12)]), "<(alpha 1) (mu 12) (zeta 26)>");
    assert_eq!(map_text(&[("mu", 12), ("zeta", 26), ("alpha", 1)]), "<(alpha 1) (mu 12) (zeta 26)>");
}

#[test]
fn vec_of_structs() {
    let text = written(|s| {
        let mut seq = s.serialize_seq();
        for (x, y) in [(0, 0), (1, 1)] {
            seq.element(s);
            let mut st = s.serialize_struct("Point");
            st.field(s);
            s.serialize_i32(x);
            st.field(s);
            s.serialize_i32(y);
            st.close(s);
        }
        seq.close(s);
    });
    assert_eq!(text, "<(Point 0 0) (Point 1 1)>");
}

#[test]
fn option_of_newtype_wraps() {
    let text = written(|s| {
        assert_eq!(s.serialize_newtype_struct("Id").unwrap(), NewtypeForm::Plain);
        s.serialize_u32(42);
        s.close_newtype();
    });
    assert_eq!(text, "(Id 42)");
}

#[test]
fn empty_seq_and_struct() {
    assert_eq!(written(|s| int_seq(s, &[])), "<>");
    assert_eq!(written(|s| s.serialize_unit_struct("Empty")), "Empty");
}

// ---------- further cases ----------

#[test]
fn integer_extremes() {
    assert_eq!(written(|s| s.serialize_i128(i128::MIN)), "-170141183460469231731687303715884105728");
    assert_eq!(written(|s| s.serialize_u128(u128::MAX)), "340282366920938463463374607431768211455");
    assert_eq!(written(|s| s.serialize_i8(-128)), "-128");
    assert_eq!(written(|s| s.serialize_u8(255)), "255");
    assert_eq!(written(|s| s.serialize_i16(-300)), "-300");
    assert_eq!(written(|s| s.serialize_u16(65535)), "65535");
    assert_eq!(written(|s| s.serialize_u64(u64::MAX)), "18446744073709551615");
}

#[test]
fn float_text_gets_a_point_only_when_needed() {
    assert_eq!(written(|s| s.write_float("3")), "3.0");
    assert_eq!(written(|s| s.write_float("1e300")), "1e300");
    assert_eq!(written(|s| s.write_float("2E5")), "2E5");
    assert_eq!(written(|s| s.write_float("-0")), "-0.0");
}

#[test]
fn string_forms() {
    assert_eq!(str_value("").unwrap(), "[]");
    assert_eq!(str_value("false").unwrap(), "[false]");
    assert_eq!(str_value("1name").unwrap(), "[1name]");
    assert_eq!(str_value("_x").unwrap(), "_x");
    assert_eq!(str_value("ends\n").unwrap(), "[|\nends\n|]");
    assert_eq!(
        str_value("a|]").unwrap_err(),
        Error::StringContainsMultilineCloser
    );
}

#[test]
fn chars_are_one_character_strings() {
    assert_eq!(written(|s| s.serialize_char('a').unwrap()), "a");
    assert_eq!(written(|s| s.serialize_char(' ').unwrap()), "[ ]");
    assert_eq!(written(|s| s.serialize_char(']').unwrap()), "[|\n]\n|]");
}

#[test]
fn empty_bytes() {
    assert_eq!(written(|s| s.serialize_bytes(&[])), "#");
    assert_eq!(written(|s| s.serialize_bytes(&[0x00, 0x0f, 0xff])), "#000fff");
}

#[test]
fn map_value_without_key() {
    let mut m = Serializer::new().serialize_map();
    assert_eq!(m.serialize_value("1".to_string()).unwrap_err(), Error::MapValueWithoutKey);
}

#[test]
fn map_sort_is_by_bytes_and_stable() {
    // Uppercase sorts before lowercase; equal keys keep their order.
    let mut s = Serializer::new();
    let mut m = s.serialize_map();
    for (k, v) in [("b", "1"), ("B", "2"), ("b", "3"), ("a", "4")] {
        m.serialize_key(k.to_string());
        m.serialize_value(v.to_string()).unwrap();
    }
    m.end(&mut s);
    assert_eq!(s.output(), "<(B 2) (a 4) (b 1) (b 3)>");
}

#[test]
fn empty_map() {
    assert_eq!(map_text(&[]), "<>");
}

#[test]
fn tuple_struct_error_message() {
    let err = Serializer::new().serialize_tuple_struct("Pair", 2).err().unwrap();
    assert_eq!(
        err.message(),
        "multi-field unnamed struct `Pair` (len 2) — nota requires named-field structs; use `struct Pair { … }` instead of `struct Pair(…, …)`"
    );
}

#[test]
fn bare_string_eligibility() {
    assert!(is_bare_string_eligible("hello"));
    assert!(is_bare_string_eligible("kebab-name"));
    assert!(is_bare_string_eligible("_x9"));
    assert!(!is_bare_string_eligible(""));
    assert!(!is_bare_string_eligible("true"));
    assert!(!is_bare_string_eligible("None"));
    assert!(!is_bare_string_eligible("9lives"));
    assert!(!is_bare_string_eligible("-x"));
    assert!(!is_bare_string_eligible("a b"));
    assert!(!is_bare_string_eligible("é"));
}

#[test]
fn writer_error_messages() {
    assert_eq!(
        Error::NonFiniteFloat.message(),
        "non-finite floats (NaN, +inf, -inf) have no nota representation"
    );
    assert_eq!(
        Error::UnitForbidden.message(),
        "unit type `()` is forbidden in nota — use a named variant like `Nil` or `None` for absent-value semantics"
    );
    assert_eq!(
        Error::StringContainsMultilineCloser.message(),
        "string literal cannot contain `|]` (would close a multiline string); no escape syntax exists yet"
    );
    assert_eq!(
        Error::MapValueWithoutKey.message(),
        "serialize_value called before serialize_key in map"
    );
}
