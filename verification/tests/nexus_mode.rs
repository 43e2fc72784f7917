use nota_serde_core::de::{FloatSource, NewtypeOpen, VariantOpen};
use nota_serde_core::ser::NewtypeForm;
use nota_serde_core::{
    Deserializer, Error, Serializer, ATOMIC_BATCH_SENTINEL, BIND_SENTINEL, MUTATE_SENTINEL,
    NEGATE_SENTINEL, SUBSCRIBE_SENTINEL, VALIDATE_SENTINEL,
};

fn float_value(src: FloatSource) -> f64 {
    match src {
        FloatSource::Text(t) => t.parse().unwrap(),
        FloatSource::Int(i) => i as f64,
        FloatSource::UInt(u) => u as f64,
    }
}

fn write_point(s: &mut Serializer, x: f64, y: f64) {
    let mut st = s.serialize_struct("Point");
    st.field(s);
    s.write_float(&format!("{x}"));
    st.field(s);
    s.write_float(&format!("{y}"));
    st.close(s);
}

fn read_point(d: &mut Deserializer) -> Result<(f64, f64), Error> {
    d.deserialize_struct("Point")?;
    assert!(d.args_has_next()?);
    let x = float_value(d.deserialize_float()?);
    assert!(d.args_has_next()?);
    let y = float_value(d.deserialize_float()?);
    assert!(!d.args_has_next()?);
    d.close_paren()?;
    Ok((x, y))
}

fn write_status(s: &mut Serializer, active: bool) {
    s.serialize_unit_variant(if active { "Active" } else { "Archived" });
}

fn read_status(d: &mut Deserializer) -> Result<bool, Error> {
    assert_eq!(d.deserialize_enum()?, VariantOpen::Unit);
    let name = d.variant_name()?;
    Ok(name == "Active")
}

/// Writes `wrapper(inner)` for a prefix sentinel.
fn write_prefixed(s: &mut Serializer, sentinel: &str, inner: impl FnOnce(&mut Serializer)) -> Result<(), Error> {
    assert_eq!(s.serialize_newtype_struct(sentinel)?, NewtypeForm::Prefixed);
    inner(s);
    Ok(())
}

fn nexus_text(f: impl FnOnce(&mut Serializer) -> Result<(), Error>) -> Result<String, Error> {
    let mut s = Serializer::nexus();
    f(&mut s)?;
    Ok(s.into_output())
}

fn nota_text(f: impl FnOnce(&mut Serializer) -> Result<(), Error>) -> Result<String, Error> {
    let mut s = Serializer::new();
    f(&mut s)?;
    Ok(s.into_output())
}

fn write_bind(s: &mut Serializer, name: &str) -> Result<(), Error> {
    assert_eq!(s.serialize_newtype_struct(BIND_SENTINEL)?, NewtypeForm::Bind);
    s.serialize_bind(name)
}

fn read_bind(text: &str) -> Result<String, Error> {
    let mut d = Deserializer::nexus(text);
    let r = match d.deserialize_newtype_struct(BIND_SENTINEL)? {
        NewtypeOpen::Bind(name) => name,
        _ => panic!("not a bind"),
    };
    d.expect_end()?;
    Ok(r)
}

fn read_prefixed(d: &mut Deserializer, sentinel: &str) -> Result<(), Error> {
    assert!(matches!(d.deserialize_newtype_struct(sentinel)?, NewtypeOpen::Prefixed));
    Ok(())
}

fn write_batch(s: &mut Serializer, n: usize, mut item: impl FnMut(&mut Serializer, usize)) -> Result<(), Error> {
    assert_eq!(s.serialize_newtype_struct(ATOMIC_BATCH_SENTINEL)?, NewtypeForm::AtomicBatch);
    let mut seq = s.serialize_atomic_batch();
    for i in 0..n {
        seq.element(s);
        item(s, i);
    }
    seq.close(s);
    Ok(())
}

fn read_int_batch(text: &str) -> Result<Vec<i32>, Error> {
    let mut d = Deserializer::nexus(text);
    assert!(matches!(d.deserialize_newtype_struct(ATOMIC_BATCH_SENTINEL)?, NewtypeOpen::AtomicBatch));
    let mut out = Vec::new();
    while d.batch_has_next()? {
        out.push(d.deserialize_signed(nota_serde_core::error::IntWidth::I32)? as i32);
    }
    d.close_atomic_batch()?;
    d.expect_end()?;
    Ok(out)
}

// ---------- bind ----------

#[test]
fn bare_bind() {
    assert_eq!(nexus_text(|s| write_bind(s, "horizontal")).unwrap(), "@horizontal");
}

#[test]
fn bind_roundtrip() {
    let text = nexus_text(|s| write_bind(s, "counter")).unwrap();
    assert_eq!(read_bind(&text).unwrap(), "counter");
}

#[test]
fn bind_kebab_case() {
    assert_eq!(nexus_text(|s| write_bind(s, "customer-tier")).unwrap(), "@customer-tier");
}

#[test]
fn bind_rejects_uppercase_leader() {
    assert!(nexus_text(|s| write_bind(s, "Customer")).is_err());
}

#[test]
fn bind_rejects_digit_leader() {
    assert!(nexus_text(|s| write_bind(s, "1name")).is_err());
}

// ---------- mutate / negate / validate / subscribe ----------

#[test]
fn mutate_prefix_on_record() {
    let text = nexus_text(|s| write_prefixed(s, MUTATE_SENTINEL, |s| write_point(s, 0.0, 0.0))).unwrap();
    assert_eq!(text, "~(Point 0.0 0.0)");
}

#[test]
fn mutate_roundtrip() {
    let text = nexus_text(|s| write_prefixed(s, MUTATE_SENTINEL, |s| write_point(s, 1.5, -2.5))).unwrap();
    let mut d = Deserializer::nexus(&text);
    read_prefixed(&mut d, MUTATE_SENTINEL).unwrap();
    assert_eq!(read_point(&mut d).unwrap(), (1.5, -2.5));
    d.expect_end().unwrap();
}

#[test]
fn negate_prefix_on_variant() {
    let text = nexus_text(|s| write_prefixed(s, NEGATE_SENTINEL, |s| write_status(s, true))).unwrap();
    assert_eq!(text, "!Active");
}

#[test]
fn negate_roundtrip() {
    let text = nexus_text(|s| write_prefixed(s, NEGATE_SENTINEL, |s| write_status(s, false))).unwrap();
    let mut d = Deserializer::nexus(&text);
    read_prefixed(&mut d, NEGATE_SENTINEL).unwrap();
    assert!(!read_status(&mut d).unwrap());
    d.expect_end().unwrap();
}

#[test]
fn validate_prefix_on_int() {
    let text = nexus_text(|s| write_prefixed(s, VALIDATE_SENTINEL, |s| s.serialize_i32(5))).unwrap();
    assert_eq!(text, "?5");
}

#[test]
fn validate_prefix_on_record() {
    let text = nexus_text(|s| write_prefixed(s, VALIDATE_SENTINEL, |s| write_point(s, 3.0, 4.0))).unwrap();
    assert_eq!(text, "?(Point 3.0 4.0)");
}

#[test]
fn validate_roundtrip() {
    let text = nexus_text(|s| write_prefixed(s, VALIDATE_SENTINEL, |s| write_point(s, 1.0, 2.0))).unwrap();
    let mut d = Deserializer::nexus(&text);
    read_prefixed(&mut d, VALIDATE_SENTINEL).unwrap();
    assert_eq!(read_point(&mut d).unwrap(), (1.0, 2.0));
    d.expect_end().unwrap();
}

#[test]
fn validate_rejected_in_nota_ser() {
    let err = nota_text(|s| write_prefixed(s, VALIDATE_SENTINEL, |s| s.serialize_i32(7))).unwrap_err();
    assert!(
        matches!(err, Error::Custom(ref msg) if msg.contains("nota dialect")),
        "unexpected error: {err:?}"
    );
}

#[test]
fn subscribe_prefix_on_record() {
    let text = nexus_text(|s| write_prefixed(s, SUBSCRIBE_SENTINEL, |s| write_point(s, 0.0, 0.0))).unwrap();
    assert_eq!(text, "*(Point 0.0 0.0)");
}

#[test]
fn subscribe_roundtrip() {
    let text = nexus_text(|s| write_prefixed(s, SUBSCRIBE_SENTINEL, |s| write_point(s, 9.0, -1.0))).unwrap();
    let mut d = Deserializer::nexus(&text);
    read_prefixed(&mut d, SUBSCRIBE_SENTINEL).unwrap();
    assert_eq!(read_point(&mut d).unwrap(), (9.0, -1.0));
    d.expect_end().unwrap();
}

#[test]
fn subscribe_rejected_in_nota_ser() {
    assert!(nota_text(|s| write_prefixed(s, SUBSCRIBE_SENTINEL, |s| s.serialize_i32(7))).is_err());
}

// ---------- atomic batch ----------

#[test]
fn empty_atomic_batch() {
    assert_eq!(nexus_text(|s| write_batch(s, 0, |_, _| {})).unwrap(), "[||]");
}

#[test]
fn atomic_batch_of_ints() {
    let v = [1, 2, 3];
    assert_eq!(nexus_text(|s| write_batch(s, 3, |s, i| s.serialize_i32(v[i]))).unwrap(), "[| 1 2 3 |]");
}

#[test]
fn atomic_batch_of_records() {
    let pts = [(1.0, 2.0), (3.0, 4.0)];
    let text = nexus_text(|s| write_batch(s, 2, |s, i| write_point(s, pts[i].0, pts[i].1))).unwrap();
    assert_eq!(text, "[| (Point 1.0 2.0) (Point 3.0 4.0) |]");
}

#[test]
fn atomic_batch_roundtrip_ints() {
    let v = [10, 20, 30];
    let text = nexus_text(|s| write_batch(s, 3, |s, i| s.serialize_i32(v[i]))).unwrap();
    assert_eq!(read_int_batch(&text).unwrap(), vec![10, 20, 30]);
}

#[test]
fn atomic_batch_roundtrip_empty() {
    let text = nexus_text(|s| write_batch(s, 0, |_, _| {})).unwrap();
    assert_eq!(read_int_batch(&text).unwrap(), Vec::<i32>::new());
}

#[test]
fn atomic_batch_roundtrip_records() {
    let pts = [(0.5, 0.25), (-1.0, 1.5)];
    let text = nexus_text(|s| write_batch(s, 2, |s, i| write_point(s, pts[i].0, pts[i].1))).unwrap();
    let mut d = Deserializer::nexus(&text);
    assert!(matches!(d.deserialize_newtype_struct(ATOMIC_BATCH_SENTINEL).unwrap(), NewtypeOpen::AtomicBatch));
    let mut back = Vec::new();
    while d.batch_has_next().unwrap() {
        back.push(read_point(&mut d).unwrap());
    }
    d.close_atomic_batch().unwrap();
    d.expect_end().unwrap();
    assert_eq!(back, pts.to_vec());
}

#[test]
fn atomic_batch_rejected_in_nota_ser() {
    assert!(nota_text(|s| write_batch(s, 1, |s, _| s.serialize_i32(1))).is_err());
}

// ---------- nesting ----------

#[test]
fn validate_wrapping_mutate() {
    let text = nexus_text(|s| {
        write_prefixed(s, VALIDATE_SENTINEL, |s| {
            write_prefixed(s, MUTATE_SENTINEL, |s| s.serialize_i32(7)).unwrap();
        })
    })
    .unwrap();
    assert_eq!(text, "?~7");
    let mut d = Deserializer::nexus("?~7");
    read_prefixed(&mut d, VALIDATE_SENTINEL).unwrap();
    read_prefixed(&mut d, MUTATE_SENTINEL).unwrap();
    assert_eq!(d.deserialize_signed(nota_serde_core::error::IntWidth::I32).unwrap(), 7);
    d.expect_end().unwrap();
}

#[test]
fn validate_wrapping_record() {
    let text = nexus_text(|s| {
        write_prefixed(s, VALIDATE_SENTINEL, |s| {
            write_prefixed(s, MUTATE_SENTINEL, |s| write_point(s, 1.0, 2.0)).unwrap();
        })
    })
    .unwrap();
    assert_eq!(text, "?~(Point 1.0 2.0)");
    let mut d = Deserializer::nexus(&text);
    read_prefixed(&mut d, VALIDATE_SENTINEL).unwrap();
    read_prefixed(&mut d, MUTATE_SENTINEL).unwrap();
    assert_eq!(read_point(&mut d).unwrap(), (1.0, 2.0));
    d.expect_end().unwrap();
}

#[test]
fn subscribe_wrapping_negate() {
    let text = nexus_text(|s| {
        write_prefixed(s, SUBSCRIBE_SENTINEL, |s| {
            write_prefixed(s, NEGATE_SENTINEL, |s| write_status(s, true)).unwrap();
        })
    })
    .unwrap();
    assert_eq!(text, "*!Active");
    let mut d = Deserializer::nexus("*!Active");
    read_prefixed(&mut d, SUBSCRIBE_SENTINEL).unwrap();
    read_prefixed(&mut d, NEGATE_SENTINEL).unwrap();
    assert!(read_status(&mut d).unwrap());
    d.expect_end().unwrap();
}

#[test]
fn atomic_batch_of_mutates() {
    let pts = [(1.0, 2.0), (3.0, 4.0)];
    let text = nexus_text(|s| {
        write_batch(s, 2, |s, i| {
            write_prefixed(s, MUTATE_SENTINEL, |s| write_point(s, pts[i].0, pts[i].1)).unwrap();
        })
    })
    .unwrap();
    assert_eq!(text, "[| ~(Point 1.0 2.0) ~(Point 3.0 4.0) |]");
    let mut d = Deserializer::nexus(&text);
    assert!(matches!(d.deserialize_newtype_struct(ATOMIC_BATCH_SENTINEL).unwrap(), NewtypeOpen::AtomicBatch));
    let mut back = Vec::new();
    while d.batch_has_next().unwrap() {
        read_prefixed(&mut d, MUTATE_SENTINEL).unwrap();
        back.push(read_point(&mut d).unwrap());
    }
    d.close_atomic_batch().unwrap();
    d.expect_end().unwrap();
    assert_eq!(back, pts.to_vec());
}

// ---------- dialect isolation ----------

#[test]
fn bind_rejected_in_nota_ser() {
    let err = nota_text(|s| write_bind(s, "x")).unwrap_err();
    assert!(
        matches!(err, Error::Custom(ref msg) if msg.contains("nota dialect")),
        "unexpected error: {err:?}",
    );
}

#[test]
fn bind_rejected_in_nota_de() {
    let mut d = Deserializer::new("@x");
    assert!(d.deserialize_newtype_struct(BIND_SENTINEL).is_err());
}

#[test]
fn validate_rejected_in_nota_de() {
    let mut d = Deserializer::new("?5");
    assert!(d.deserialize_newtype_struct(VALIDATE_SENTINEL).is_err());
}

#[test]
fn subscribe_rejected_in_nota_de() {
    let mut d = Deserializer::new("*Active");
    assert!(d.deserialize_newtype_struct(SUBSCRIBE_SENTINEL).is_err());
}

#[test]
fn atomic_batch_rejected_in_nota_de() {
    let mut d = Deserializer::new("[| 1 2 |]");
    assert!(d.deserialize_newtype_struct(ATOMIC_BATCH_SENTINEL).is_err());
}

#[test]
fn plain_nota_types_work_in_nexus_mode() {
    let text = nexus_text(|s| {
        write_point(s, 3.0, 4.0);
        Ok(())
    })
    .unwrap();
    assert_eq!(text, "(Point 3.0 4.0)");
    let mut d = Deserializer::nexus(&text);
    assert_eq!(read_point(&mut d).unwrap(), (3.0, 4.0));
    d.expect_end().unwrap();
}

// ---------- further cases ----------

#[test]
fn sentinel_messages() {
    let err = nota_text(|s| write_bind(s, "x")).unwrap_err();
    assert_eq!(
        err.message(),
        "sentinel newtype-struct `@NexusBind` is not valid in nota dialect; serialize via nexus (`to_string_nexus`) instead"
    );
    let err = Deserializer::new("?5").deserialize_newtype_struct(VALIDATE_SENTINEL).err().unwrap();
    assert_eq!(
        err.message(),
        "sentinel newtype-struct `@NexusValidate` is not valid in nota dialect; deserialize via nexus (`from_str_nexus`) instead"
    );
}

#[test]
fn bind_refuses_keywords_and_empty() {
    for bad in ["true", "false", "", "-x", "a b"] {
        let err = nexus_text(|s| write_bind(s, bad)).unwrap_err();
        assert_eq!(
            err.message(),
            format!("bind name `{bad}` must be an identifier starting with a lowercase letter or `_`")
        );
    }
    assert_eq!(nexus_text(|s| write_bind(s, "_tmp")).unwrap(), "@_tmp");
}

#[test]
fn bind_needs_identifier_after_at() {
    let err = Deserializer::nexus("@5").deserialize_newtype_struct(BIND_SENTINEL).err().unwrap();
    assert_eq!(err.message(), "expected identifier after `@`, got Int(5)");
    let err = Deserializer::nexus("~x").deserialize_newtype_struct(BIND_SENTINEL).err().unwrap();
    assert_eq!(err.message(), "expected At, got Tilde");
}

#[test]
fn batch_without_closer_fails() {
    let mut d = Deserializer::nexus("[| 1");
    assert!(matches!(d.deserialize_newtype_struct(ATOMIC_BATCH_SENTINEL).unwrap(), NewtypeOpen::AtomicBatch));
    assert!(d.batch_has_next().unwrap());
    d.deserialize_i128().unwrap();
    assert!(!d.batch_has_next().unwrap());
    assert_eq!(d.close_atomic_batch().unwrap_err(), Error::UnexpectedEnd.into_custom());
}
