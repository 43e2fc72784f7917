//! A realistic document written and read through the library's steps, the
//! way a schema-driven front end drives them: nested structs, enums with
//! unit, newtype and struct variants, sequences of structs, an option, a
//! map, a multiline string and comments.

use std::collections::BTreeMap;

use nota_serde_core::de::VariantOpen;
use nota_serde_core::error::Error;
use nota_serde_core::{Deserializer, Serializer};

#[derive(PartialEq, Debug, Clone)]
struct Project {
    name: String,
    version: String,
    description: String,
    authors: Vec<String>,
    dependencies: Vec<Dep>,
    flags: BTreeMap<String, bool>,
    license: License,
    status: Status,
    release_notes: Option<String>,
}

#[derive(PartialEq, Debug, Clone)]
struct Dep {
    name: String,
    version: String,
    features: Vec<String>,
}

#[derive(PartialEq, Debug, Clone)]
enum License {
    LicenseOfNonAuthority,
    Mit,
    Apache2,
    Dual { primary: String, fallback: String },
}

#[derive(PartialEq, Debug, Clone)]
enum Status {
    Alpha,
    Beta,
    Released(String),
    Archived { reason: String, at_commit: String },
}

// ---------- writing ----------

fn write_str(s: &mut Serializer, v: &str) {
    s.serialize_str(v).unwrap();
}

fn write_strings(s: &mut Serializer, items: &[String]) {
    let mut seq = s.serialize_seq();
    for v in items {
        seq.element(s);
        write_str(s, v);
    }
    seq.close(s);
}

fn write_dep(s: &mut Serializer, d: &Dep) {
    let mut st = s.serialize_struct("Dep");
    st.field(s);
    write_str(s, &d.name);
    st.field(s);
    write_str(s, &d.version);
    st.field(s);
    write_strings(s, &d.features);
    st.close(s);
}

fn text_of(f: impl FnOnce(&mut Serializer)) -> String {
    let mut s = Serializer::new();
    f(&mut s);
    s.into_output()
}

fn write_project(p: &Project) -> String {
    let mut s = Serializer::new();
    let mut st = s.serialize_struct("Project");
    st.field(&mut s);
    write_str(&mut s, &p.name);
    st.field(&mut s);
    write_str(&mut s, &p.version);
    st.field(&mut s);
    write_str(&mut s, &p.description);
    st.field(&mut s);
    write_strings(&mut s, &p.authors);
    st.field(&mut s);
    let mut deps = s.serialize_seq();
    for d in &p.dependencies {
        deps.element(&mut s);
        write_dep(&mut s, d);
    }
    deps.close(&mut s);
    st.field(&mut s);
    let mut m = s.serialize_map();
    for (k, v) in &p.flags {
        m.serialize_key(text_of(|s| write_str(s, k)));
        m.serialize_value(text_of(|s| s.serialize_bool(*v))).unwrap();
    }
    m.end(&mut s);
    st.field(&mut s);
    match &p.license {
        License::LicenseOfNonAuthority => s.serialize_unit_variant("LicenseOfNonAuthority"),
        License::Mit => s.serialize_unit_variant("Mit"),
        License::Apache2 => s.serialize_unit_variant("Apache2"),
        License::Dual { primary, fallback } => {
            let mut v = s.serialize_struct_variant("Dual");
            v.field(&mut s);
            write_str(&mut s, primary);
            v.field(&mut s);
            write_str(&mut s, fallback);
            v.close(&mut s);
        }
    }
    st.field(&mut s);
    match &p.status {
        Status::Alpha => s.serialize_unit_variant("Alpha"),
        Status::Beta => s.serialize_unit_variant("Beta"),
        Status::Released(v) => {
            s.serialize_newtype_variant("Released");
            write_str(&mut s, v);
            s.close_newtype();
        }
        Status::Archived { reason, at_commit } => {
            let mut v = s.serialize_struct_variant("Archived");
            v.field(&mut s);
            write_str(&mut s, reason);
            v.field(&mut s);
            write_str(&mut s, at_commit);
            v.close(&mut s);
        }
    }
    st.field(&mut s);
    match &p.release_notes {
        None => s.serialize_none(),
        Some(v) => write_str(&mut s, v),
    }
    st.close(&mut s);
    s.into_output()
}

// ---------- reading ----------

fn read_strings(d: &mut Deserializer) -> Result<Vec<String>, Error> {
    d.open_seq()?;
    let mut out = Vec::new();
    while d.seq_has_next()? {
        out.push(d.deserialize_str()?);
    }
    d.close_seq()?;
    Ok(out)
}

fn read_dep(d: &mut Deserializer) -> Result<Dep, Error> {
    d.deserialize_struct("Dep")?;
    let name = d.deserialize_str()?;
    let version = d.deserialize_str()?;
    let features = read_strings(d)?;
    assert!(!d.args_has_next()?);
    d.close_paren()?;
    Ok(Dep { name, version, features })
}

fn read_license(d: &mut Deserializer) -> Result<License, Error> {
    match d.deserialize_enum()? {
        VariantOpen::Unit => match d.variant_name()?.as_str() {
            "LicenseOfNonAuthority" => Ok(License::LicenseOfNonAuthority),
            "Mit" => Ok(License::Mit),
            "Apache2" => Ok(License::Apache2),
            other => Err(Error::Custom(format!("unknown variant `{other}`"))),
        },
        VariantOpen::Payload => {
            let name = d.variant_name()?;
            assert_eq!(name, "Dual");
            let primary = d.deserialize_str()?;
            let fallback = d.deserialize_str()?;
            d.close_paren()?;
            Ok(License::Dual { primary, fallback })
        }
    }
}

fn read_status(d: &mut Deserializer) -> Result<Status, Error> {
    match d.deserialize_enum()? {
        VariantOpen::Unit => match d.variant_name()?.as_str() {
            "Alpha" => Ok(Status::Alpha),
            "Beta" => Ok(Status::Beta),
            other => Err(Error::Custom(format!("unknown variant `{other}`"))),
        },
        VariantOpen::Payload => match d.variant_name()?.as_str() {
            "Released" => {
                let v = d.deserialize_str()?;
                d.close_paren()?;
                Ok(Status::Released(v))
            }
            "Archived" => {
                let reason = d.deserialize_str()?;
                let at_commit = d.deserialize_str()?;
                d.close_paren()?;
                Ok(Status::Archived { reason, at_commit })
            }
            other => Err(Error::Custom(format!("unknown variant `{other}`"))),
        },
    }
}

fn read_project(text: &str) -> Result<Project, Error> {
    let mut d = Deserializer::new(text);
    d.deserialize_struct("Project")?;
    let name = d.deserialize_str()?;
    let version = d.deserialize_str()?;
    let description = d.deserialize_str()?;
    let authors = read_strings(&mut d)?;
    d.open_seq()?;
    let mut dependencies = Vec::new();
    while d.seq_has_next()? {
        dependencies.push(read_dep(&mut d)?);
    }
    d.close_seq()?;
    d.open_seq()?;
    let mut flags = BTreeMap::new();
    while d.map_next_key()? {
        let k = d.deserialize_str()?;
        let v = d.deserialize_bool()?;
        d.close_paren()?;
        flags.insert(k, v);
    }
    d.close_seq()?;
    let license = read_license(&mut d)?;
    let status = read_status(&mut d)?;
    let release_notes = if d.deserialize_option()? { Some(d.deserialize_str()?) } else { None };
    d.close_paren()?;
    d.expect_end()?;
    Ok(Project {
        name,
        version,
        description,
        authors,
        dependencies,
        flags,
        license,
        status,
        release_notes,
    })
}

fn sample() -> Project {
    let mut flags = BTreeMap::new();
    flags.insert("debug".to_string(), true);
    flags.insert("strict".to_string(), false);
    flags.insert("verbose".to_string(), true);

    Project {
        name: "nota-serde".into(),
        version: "0.1.0".into(),
        description: "Rust serde implementation of the nota data format.\nData-layer only; nexus adds the messaging layer.".into(),
        authors: vec!["ligoldragon".into()],
        dependencies: vec![
            Dep { name: "serde".into(), version: "1".into(), features: vec!["derive".into()] },
            Dep { name: "thiserror".into(), version: "2".into(), features: vec![] },
        ],
        flags,
        license: License::LicenseOfNonAuthority,
        status: Status::Released("2026-04-23".into()),
        release_notes: None,
    }
}

#[test]
fn roundtrip_realistic_document() {
    let doc = sample();
    let text = write_project(&doc);

    // Fields are positional in declaration order; identifier-shaped
    // strings are bare, others (starting with a digit) are bracketed.
    assert!(text.starts_with("(Project nota-serde [0.1.0]"), "{text}");
    assert!(text.contains("LicenseOfNonAuthority"));
    assert!(text.contains("(Released [2026-04-23])"));
    // An absent option is a bare `None`, here in last position.
    assert!(text.ends_with("None)"));

    // Canonical map order: debug < strict < verbose.
    let d = text.find("(debug ").unwrap();
    let s = text.find("(strict ").unwrap();
    let v = text.find("(verbose ").unwrap();
    assert!(d < s && s < v, "map entries not sorted: {text}");

    let back = read_project(&text).expect("deserialize");
    assert_eq!(back, doc);
}

#[test]
fn roundtrip_with_archived_status_variant() {
    let mut doc = sample();
    doc.status = Status::Archived {
        reason: "superseded by nexus-serde".into(),
        at_commit: "abcdef".into(),
    };
    doc.release_notes = Some("see report 007".into());

    let text = write_project(&doc);
    // A struct variant is positional; a string with spaces is bracketed,
    // an identifier-shaped one bare.
    assert!(text.contains("(Archived [superseded by nexus-serde] abcdef)"), "{text}");
    // A present option is written as its value.
    assert!(text.contains("[see report 007]"));

    let back = read_project(&text).expect("deserialize");
    assert_eq!(back, doc);
}

#[test]
fn parse_hand_written_document() {
    // What a developer would write: positional, indented, with comments
    // between the fields.
    let text = r#"
        ;; Demo project manifest
        (Project
          [tiny]
          [0.0.1]
          [|
            two
            lines
          |]
          <[anon]>
          ;; no deps yet
          <>
          <([debug] true)>
          Mit
          Alpha
          None)
    "#;
    let p = read_project(text).expect("parse hand-written");
    assert_eq!(p.name, "tiny");
    assert_eq!(p.version, "0.0.1");
    assert_eq!(p.description, "two\nlines");
    assert_eq!(p.authors, vec!["anon"]);
    assert_eq!(p.dependencies.len(), 0);
    assert_eq!(p.flags.get("debug"), Some(&true));
    assert!(matches!(p.license, License::Mit));
    assert!(matches!(p.status, Status::Alpha));
    assert_eq!(p.release_notes, None);
}
