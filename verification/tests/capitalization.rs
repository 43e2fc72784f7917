use nota_serde_core::de::{FloatSource, NewtypeOpen, VariantOpen};
use nota_serde_core::error::{HeadKind, IntWidth};
use nota_serde_core::{is_pascal_case, Deserializer, Error};

fn float_value(src: FloatSource) -> f64 {
    match src {
        FloatSource::Text(t) => t.parse().unwrap(),
        FloatSource::Int(i) => i as f64,
        FloatSource::UInt(u) => u as f64,
    }
}

/// Reads `(Point x y)` as the derived visitor of `struct Point { horizontal, vertical }`.
fn read_point(text: &str) -> Result<(f64, f64), Error> {
    let mut d = Deserializer::new(text);
    d.deserialize_struct("Point")?;
    assert!(d.args_has_next()?);
    let x = float_value(d.deserialize_float()?);
    assert!(d.args_has_next()?);
    let y = float_value(d.deserialize_float()?);
    d.close_paren()?;
    d.expect_end()?;
    Ok((x, y))
}

fn read_unit_struct(text: &str, name: &str) -> Result<(), Error> {
    let mut d = Deserializer::new(text);
    d.deserialize_unit_struct(name)?;
    d.expect_end()
}

/// `struct Slot(u64)`.
fn read_slot(text: &str) -> Result<u64, Error> {
    let mut d = Deserializer::new(text);
    assert!(matches!(d.deserialize_newtype_struct("Slot")?, NewtypeOpen::Plain));
    let v = d.deserialize_unsigned(IntWidth::U64)? as u64;
    d.close_paren()?;
    d.expect_end()?;
    Ok(v)
}

#[derive(Debug, PartialEq)]
enum Status {
    Active,
    Sized { w: f64, h: f64 },
}

/// `enum Status { Active, Sized { w, h } }`.
fn read_status(text: &str) -> Result<Status, Error> {
    let mut d = Deserializer::new(text);
    let open = d.deserialize_enum()?;
    let name = d.variant_name()?;
    let v = match (open, name.as_str()) {
        (VariantOpen::Unit, "Active") => Status::Active,
        (VariantOpen::Payload, "Sized") => {
            assert!(d.args_has_next()?);
            let w = float_value(d.deserialize_float()?);
            assert!(d.args_has_next()?);
            let h = float_value(d.deserialize_float()?);
            d.close_paren()?;
            Status::Sized { w, h }
        },
        _ => panic!("unknown variant {name}"),
    };
    d.expect_end()?;
    Ok(v)
}

#[test]
fn pascal_case_starts_uppercase() {
    assert!(is_pascal_case("Foo"));
    assert!(is_pascal_case("FOO"));
    assert!(is_pascal_case("F"));
    assert!(is_pascal_case("FooBar"));
}

#[test]
fn camel_case_rejected() {
    assert!(!is_pascal_case("foo"));
    assert!(!is_pascal_case("fooBar"));
    assert!(!is_pascal_case("f"));
}

#[test]
fn kebab_case_rejected() {
    assert!(!is_pascal_case("foo-bar"));
}

#[test]
fn underscore_leader_rejected() {
    assert!(!is_pascal_case("_Foo"));
    assert!(!is_pascal_case("_foo"));
}

#[test]
fn empty_rejected() {
    assert!(!is_pascal_case(""));
}

#[test]
fn lowercase_struct_head_rejected() {
    let err = read_point("(point 1.0 2.0)").unwrap_err().message();
    assert!(
        err.contains("PascalCase") && err.contains("point"),
        "expected PascalCase rule message, got: {err}"
    );
}

#[test]
fn lowercase_unit_struct_rejected() {
    let err = read_unit_struct("stop", "Stop").unwrap_err().message();
    assert!(
        err.contains("PascalCase") && err.contains("stop"),
        "expected PascalCase rule message, got: {err}"
    );
}

#[test]
fn lowercase_newtype_head_rejected() {
    let err = read_slot("(slot 100)").unwrap_err().message();
    assert!(
        err.contains("PascalCase") && err.contains("slot"),
        "expected PascalCase rule message, got: {err}"
    );
}

#[test]
fn lowercase_unit_variant_rejected() {
    let err = read_status("active").unwrap_err().message();
    assert!(
        err.contains("PascalCase") && err.contains("active"),
        "expected PascalCase rule message, got: {err}"
    );
}

#[test]
fn lowercase_payload_variant_rejected() {
    let err = read_status("(sized 3.0 4.0)").unwrap_err().message();
    assert!(
        err.contains("PascalCase") && err.contains("sized"),
        "expected PascalCase rule message, got: {err}"
    );
}

#[test]
fn pascal_head_works() {
    assert_eq!(read_point("(Point 1.0 2.0)").unwrap(), (1.0, 2.0));
    read_unit_struct("Stop", "Stop").unwrap();
    assert_eq!(read_slot("(Slot 100)").unwrap(), 100);
    assert_eq!(read_status("Active").unwrap(), Status::Active);
    assert_eq!(read_status("(Sized 3.0 4.0)").unwrap(), Status::Sized { w: 3.0, h: 4.0 });
}

#[test]
fn pascal_head_wrong_name_gives_specific_error() {
    let err = read_point("(Line 1.0 2.0)").unwrap_err().message();
    assert!(
        err.contains("expected struct `Point`") && err.contains("Line"),
        "expected schema-mismatch message, got: {err}"
    );
    assert!(!err.contains("must be PascalCase"), "schema-mismatch path leaked the rule wording: {err}");
}

#[test]
fn underscore_leading_struct_head_rejected() {
    let err = read_point("(_Point 1.0 2.0)").unwrap_err().message();
    assert!(err.contains("PascalCase"), "expected PascalCase rule message for `_Point`, got: {err}");
}

/// `struct Tag(String)`.
#[test]
fn pascal_bare_string_in_newtype_value_works() {
    let mut d = Deserializer::new("(Tag User)");
    assert!(matches!(d.deserialize_newtype_struct("Tag").unwrap(), NewtypeOpen::Plain));
    assert_eq!(d.deserialize_str().unwrap(), "User");
    d.close_paren().unwrap();
    d.expect_end().unwrap();
}

/// `struct Person { name: String, role: String }`.
#[test]
fn pascal_bare_string_in_struct_field_works() {
    let mut d = Deserializer::new("(Person User Admin)");
    d.deserialize_struct("Person").unwrap();
    assert!(d.args_has_next().unwrap());
    assert_eq!(d.deserialize_str().unwrap(), "User");
    assert!(d.args_has_next().unwrap());
    assert_eq!(d.deserialize_str().unwrap(), "Admin");
    assert!(!d.args_has_next().unwrap());
    d.close_paren().unwrap();
    d.expect_end().unwrap();
}

fn read_strings(mut d: Deserializer) -> Vec<String> {
    d.open_seq().unwrap();
    let mut v = Vec::new();
    while d.seq_has_next().unwrap() {
        v.push(d.deserialize_str().unwrap());
    }
    d.close_seq().unwrap();
    d.expect_end().unwrap();
    v
}

/// `Vec<String>`. `[ ]` delimits a sequence in nexus; in nota it is a
/// string, and a sequence is written `< >`.
#[test]
fn mixed_case_bare_strings_in_seq_work() {
    let v = read_strings(Deserializer::nexus("[User myField some-tag]"));
    assert_eq!(v, vec!["User", "myField", "some-tag"]);
    let v = read_strings(Deserializer::new("<User myField some-tag>"));
    assert_eq!(v, vec!["User", "myField", "some-tag"]);
    let mut d = Deserializer::new("[User myField some-tag]");
    assert_eq!(d.deserialize_str().unwrap(), "User myField some-tag");
}

// ---------- further cases ----------

#[test]
fn head_errors_are_structured() {
    assert_eq!(
        read_point("(point 1.0 2.0)").unwrap_err(),
        Error::HeadNotPascalCase { kind: HeadKind::Struct, name: "point".into() }.into_custom()
    );
    assert_eq!(
        read_point("(Line 1.0 2.0)").unwrap_err(),
        Error::NameMismatch { kind: HeadKind::Struct, expected: "Point".into(), got: "Line".into() }.into_custom()
    );
    assert_eq!(
        read_point("(5 1.0 2.0)").unwrap_err().message(),
        "expected struct name (PascalCase identifier), got Int(5)"
    );
    assert_eq!(
        read_unit_struct("Go", "Stop").unwrap_err().message(),
        "expected unit struct `Stop`, got `Go`"
    );
    assert_eq!(read_slot("(Slot 100").unwrap_err(), Error::UnexpectedEnd.into_custom());
    assert_eq!(
        read_slot("(Spot 100)").unwrap_err().message(),
        "expected newtype struct `Slot`, got `Spot`"
    );
}

#[test]
fn extra_input_is_refused() {
    assert_eq!(
        read_unit_struct("Stop Stop", "Stop").unwrap_err().message(),
        "extra input after value: Ident(\"Stop\")"
    );
}

#[test]
fn enum_needs_identifier_or_paren() {
    let mut d = Deserializer::new("5");
    assert_eq!(d.deserialize_enum().unwrap_err().message(), "expected enum variant, got Some(Int(5))");
    let mut d = Deserializer::new("");
    assert_eq!(d.deserialize_enum().unwrap_err().message(), "expected enum variant, got None");
}
