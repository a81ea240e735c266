use std::rc::Rc;
use svd::bits::{resolve, BitSpec, RangeError};
use svd::compose::{fields, peripheral, DeclError, Scope};
use svd::doc::Doc;
use svd::lex::{lex, Tok};
use svd::model::{Field, Fields};

fn json(d: &Doc) -> serde_json::Value {
    match d {
        Doc::Int(n) => serde_json::Value::from(*n),
        Doc::Text(s) => serde_json::Value::from(s.clone()),
        Doc::List(v) => serde_json::Value::Array(v.iter().map(json).collect()),
        Doc::Record(kv) => {
            let mut m = serde_json::Map::new();
            for (k, v) in kv {
                m.insert(k.clone(), json(v));
            }
            serde_json::Value::Object(m)
        }
    }
}

fn keys(d: &Doc) -> Vec<String> {
    match d {
        Doc::Record(kv) => kv.iter().map(|(k, _)| k.clone()).collect(),
        _ => Vec::new(),
    }
}

fn walk(f: &Fields) -> Vec<(&'static str, u64, u64)> {
    let mut it = f.into_iter();
    let mut out = Vec::new();
    while let Some(x) = it.next() {
        out.push((x.name, x.bit_offset, x.bit_width));
    }
    out
}

fn field(name: &'static str, off: u64, width: u64) -> Field {
    Field { name, desc: "", bit_offset: off, bit_width: width }
}

#[test]
fn single_bit_is_one_wide() {
    assert_eq!(resolve(&BitSpec::Bit(7)).unwrap(), (7, 1));
    let f = fields("5 => TXEN: \"Transmit Enable\",", &Scope::new()).unwrap();
    assert_eq!(walk(&f), vec![("TXEN", 5, 1)]);
}

#[test]
fn half_open_range_width() {
    let b = BitSpec::Range { from: Some(4), to: Some(12), closed: false };
    assert_eq!(resolve(&b).unwrap(), (4, 8));
    let f = fields("0..12 => RSTRX: \"Reset Receiver\"", &Scope::new()).unwrap();
    assert_eq!(walk(&f), vec![("RSTRX", 0, 12)]);
}

#[test]
fn closed_range_width() {
    let b = BitSpec::Range { from: Some(4), to: Some(12), closed: true };
    assert_eq!(resolve(&b).unwrap(), (4, 9));
    let f = fields("0x10..=0x1F => HI: \"High half\"", &Scope::new()).unwrap();
    assert_eq!(walk(&f), vec![("HI", 16, 16)]);
}

#[test]
fn empty_and_oversized_ranges_fail() {
    let b = BitSpec::Range { from: Some(3), to: Some(3), closed: false };
    assert_eq!(resolve(&b), Err(RangeError::Empty));
    let b = BitSpec::Range { from: Some(5), to: Some(3), closed: true };
    assert_eq!(resolve(&b), Err(RangeError::Empty));
    let b = BitSpec::Range { from: Some(0), to: Some(u64::MAX), closed: true };
    assert_eq!(resolve(&b), Err(RangeError::Empty));
    let b = BitSpec::Range { from: Some(3), to: Some(3), closed: true };
    assert_eq!(resolve(&b), Ok((3, 1)));
}

#[test]
fn missing_from_fails() {
    let b = BitSpec::Range { from: None, to: Some(4), closed: false };
    assert_eq!(resolve(&b), Err(RangeError::FromRequired));
    match fields("..5 => A: \"a\"", &Scope::new()) {
        Err(DeclError::Range { errors: es, .. }) => assert_eq!(es, vec![(0, RangeError::FromRequired)]),
        other => panic!("unexpected {:?}", other),
    }
}

#[test]
fn missing_to_fails() {
    let b = BitSpec::Range { from: Some(2), to: None, closed: true };
    assert_eq!(resolve(&b), Err(RangeError::ToRequired));
    match fields("3.. => A: \"a\"", &Scope::new()) {
        Err(DeclError::Range { errors: es, .. }) => assert_eq!(es, vec![(0, RangeError::ToRequired)]),
        other => panic!("unexpected {:?}", other),
    }
}

#[test]
fn every_range_error_is_reported() {
    let text = "0..4 => A: \"a\", ..3 => B: \"b\", 1 => C: \"c\", 2.. => D: \"d\"";
    let b = text.find("..3").unwrap();
    let d = text.find("2..").unwrap();
    match fields(text, &Scope::new()) {
        Err(DeclError::Range { errors: es, .. }) => {
            assert_eq!(es, vec![(b, RangeError::FromRequired), (d, RangeError::ToRequired)])
        }
        other => panic!("unexpected {:?}", other),
    }
}

#[test]
fn no_base_walks_local_fields() {
    let f = Fields::new(vec![field("A", 0, 1), field("B", 1, 2), field("C", 3, 4)]);
    assert_eq!(walk(&f), vec![("A", 0, 1), ("B", 1, 2), ("C", 3, 4)]);
    assert_eq!(f.len(), 3);
    assert_eq!(f.into_iter().len(), 3);
    let e = Fields::new(Vec::new());
    assert_eq!(e.len(), 0);
    assert!(e.into_iter().next().is_none());
}

#[test]
fn base_chain_walks_root_first() {
    let root = Fields::new(vec![field("R1", 0, 1), field("R2", 1, 1)]);
    let mid = Fields::derived(Rc::new(root), vec![field("M", 2, 1)]);
    let leaf = Fields::derived(Rc::new(mid), vec![field("L1", 3, 1), field("L2", 4, 1)]);
    assert_eq!(
        walk(&leaf),
        vec![("R1", 0, 1), ("R2", 1, 1), ("M", 2, 1), ("L1", 3, 1), ("L2", 4, 1)]
    );
    assert_eq!(leaf.len(), 5);
    let mut it = leaf.into_iter();
    assert_eq!(it.len(), 5);
    it.next();
    it.next();
    it.next();
    assert_eq!(it.len(), 2);
    assert_eq!(it.next().unwrap().name, "L1");
}

#[test]
fn redeclared_field_is_not_merged() {
    let base = Fields::new(vec![field("X", 0, 4)]);
    let f = Fields::derived(Rc::new(base), vec![field("X", 0, 4)]);
    assert_eq!(walk(&f), vec![("X", 0, 4), ("X", 0, 4)]);
    assert_eq!(f.len(), 2);
}

#[test]
fn spliced_base_and_local_duplicate() {
    let mut scope = Scope::new();
    let a = fields("0..12 => RSTRX: \"Reset Receiver\"", &scope).unwrap();
    scope.define("A", a);
    let f = fields("..A, 0..12 => RSTRX: \"Reset Receiver\",", &scope).unwrap();
    assert_eq!(walk(&f), vec![("RSTRX", 0, 12), ("RSTRX", 0, 12)]);
    let expected: serde_json::Value = serde_json::from_str(
        r#"[{"name":"RSTRX","description":"Reset Receiver","bitOffset":0,"bitWidth":12},
            {"name":"RSTRX","description":"Reset Receiver","bitOffset":0,"bitWidth":12}]"#,
    )
    .unwrap();
    assert_eq!(json(&f.to_doc()), expected);
}

#[test]
fn later_definition_hides_earlier() {
    let mut scope = Scope::new();
    scope.define("A", Fields::new(vec![field("OLD", 0, 1)]));
    scope.define("A", Fields::new(vec![field("NEW", 1, 1)]));
    let f = fields("..A,", &scope).unwrap();
    assert_eq!(walk(&f), vec![("NEW", 1, 1)]);
}

#[test]
fn unknown_base_fails() {
    match fields("..B, 1 => X: \"x\"", &Scope::new()) {
        Err(DeclError::UnknownBase { pos }) => assert_eq!(pos, 2),
        other => panic!("unexpected {:?}", other),
    }
}

#[test]
fn empty_body_is_empty_fields() {
    let f = fields("", &Scope::new()).unwrap();
    assert!(f.base.is_none());
    assert_eq!(f.len(), 0);
}

#[test]
fn peripheral_round_trip() {
    let p = peripheral(
        "0x4000 => uart: \"UART\" { 0x08 => mr: \"Mode Register\" { 0..12 => RSTRX: \"Reset Receiver\" } }",
        &Scope::new(),
    )
    .unwrap();
    let expected: serde_json::Value = serde_json::from_str(
        r#"{"name":"uart","description":"UART","baseAddress":16384,"registers":[
            {"name":"mr","description":"Mode Register","addressOffset":8,"fields":[
                {"name":"RSTRX","description":"Reset Receiver","bitOffset":0,"bitWidth":12}]}]}"#,
    )
    .unwrap();
    assert_eq!(json(&p.to_doc()), expected);
}

#[test]
fn debug_unit_scenario() {
    let p = peripheral(
        "0xFFFFF200 => dbgu: \"Debug Unit\" { 0x0000 => cr: \"Control Register\" { 1 => RSTRX: \"Reset Receiver\" } }",
        &Scope::new(),
    )
    .unwrap();
    let d = p.to_doc();
    let expected: serde_json::Value = serde_json::from_str(
        r#"{"name":"dbgu","description":"Debug Unit","baseAddress":4294963712,"registers":[{"name":"cr","description":"Control Register","addressOffset":0,"fields":[{"name":"RSTRX","description":"Reset Receiver","bitOffset":1,"bitWidth":1}]}]}"#,
    )
    .unwrap();
    assert_eq!(json(&d), expected);
    assert_eq!(keys(&d), vec!["name", "description", "baseAddress", "registers"]);
}

#[test]
fn registers_keep_order_and_share_base() {
    let mut scope = Scope::new();
    scope.define("COMMON", fields("0 => EN: \"Enable\"", &scope).unwrap());
    let p = peripheral(
        "0x100 => p: \"P\" { 0 => a: \"A\" { ..COMMON, 1 => X: \"x\" }, 4 => b: \"B\" { ..COMMON, }, }",
        &scope,
    )
    .unwrap();
    assert_eq!(p.addr, 0x100);
    assert_eq!(p.regs.len(), 2);
    assert_eq!(p.regs[0].name, "a");
    assert_eq!(walk(&p.regs[0].fields), vec![("EN", 0, 1), ("X", 1, 1)]);
    assert_eq!(p.regs[1].addr, 4);
    assert_eq!(walk(&p.regs[1].fields), vec![("EN", 0, 1)]);
}

#[test]
fn syntax_errors_give_position() {
    match peripheral("0 => p: \"P\" { 0 => r \"R\" { } }", &Scope::new()) {
        Err(DeclError::Syntax { pos }) => assert_eq!(pos, 21),
        other => panic!("unexpected {:?}", other),
    }
    match peripheral("0 => p: \"P\" { } }", &Scope::new()) {
        Err(DeclError::Syntax { pos }) => assert_eq!(pos, 16),
        other => panic!("unexpected {:?}", other),
    }
    match fields("1 => A: \"unterminated", &Scope::new()) {
        Err(DeclError::Syntax { pos }) => assert_eq!(pos, 8),
        other => panic!("unexpected {:?}", other),
    }
    match fields("1 => A: \"a\" 2 => B: \"b\"", &Scope::new()) {
        Err(DeclError::Syntax { pos }) => assert_eq!(pos, 12),
        other => panic!("unexpected {:?}", other),
    }
}

#[test]
fn lexer_reads_numbers_and_rejects_overflow() {
    let ts = lex("0x1F 42 ..= abc_9").unwrap();
    assert!(matches!(ts[0].tok, Tok::Num(31)));
    assert!(matches!(ts[1].tok, Tok::Num(42)));
    assert!(matches!(ts[2].tok, Tok::DotsEq));
    assert!(matches!(ts[3].tok, Tok::Ident("abc_9")));
    assert_eq!((ts[3].pos, ts[3].end), (12, 17));
    assert!(lex("18446744073709551615").is_ok());
    assert_eq!(lex("18446744073709551616").unwrap_err().pos, 0);
    assert_eq!(lex("0x").unwrap_err().pos, 0);
    assert_eq!(lex("a # b").unwrap_err().pos, 2);
}

#[test]
fn field_record_layout() {
    let f = Field { name: "RSTRX", desc: "Reset Receiver", bit_offset: 2, bit_width: 3 };
    let d = f.to_doc();
    assert_eq!(keys(&d), vec!["name", "description", "bitOffset", "bitWidth"]);
    let expected: serde_json::Value = serde_json::from_str(
        r#"{"name":"RSTRX","description":"Reset Receiver","bitOffset":2,"bitWidth":3}"#,
    )
    .unwrap();
    assert_eq!(json(&d), expected);
}

#[test]
fn device_record_layout() {
    let p = peripheral("0x10 => pio: \"PIO\" { }", &Scope::new()).unwrap();
    let dev = svd::model::Device {
        vendor: "Atmel",
        name: "AT91",
        desc: "Chip",
        version: 2,
        bits: 8,
        width: 32,
        peripherals: vec![p],
    };
    let d = dev.to_doc();
    assert_eq!(
        keys(&d),
        vec!["vendor", "name", "description", "version", "addressUnitBits", "width", "peripherals"]
    );
    let expected: serde_json::Value = serde_json::from_str(
        r#"{"vendor":"Atmel","name":"AT91","description":"Chip","version":2,"addressUnitBits":8,"width":32,
            "peripherals":[{"name":"pio","description":"PIO","baseAddress":16,"registers":[]}]}"#,
    )
    .unwrap();
    assert_eq!(json(&d), expected);
}

#[test]
fn base_marker_needs_comma() {
    let mut scope = Scope::new();
    scope.define("A", Fields::new(vec![field("X", 0, 1)]));
    match fields("..A", &scope) {
        Err(DeclError::Syntax { pos }) => assert_eq!(pos, 2),
        other => panic!("unexpected {:?}", other),
    }
    match fields("..A 1 => B: \"b\"", &scope) {
        Err(DeclError::Syntax { pos }) => assert_eq!(pos, 2),
        other => panic!("unexpected {:?}", other),
    }
}

#[test]
fn every_failing_register_is_reported() {
    let text = "0 => p: \"P\" { 0 => a: \"A\" { ..7 => X: \"x\" }, 4 => b: \"B\" { 0 => Y: \"y\" }, 8 => c: \"C\" { ..Q, } }";
    let q = text.find("Q").unwrap();
    let x = text.find("..7").unwrap();
    match peripheral(text, &Scope::new()) {
        Err(DeclError::Registers(es)) => {
            assert_eq!(es.len(), 2);
            assert_eq!(es[0].0, 0);
            match &es[0].1 {
                DeclError::Range { errors: rs, .. } => assert_eq!(rs, &vec![(x, RangeError::FromRequired)]),
                other => panic!("unexpected {:?}", other),
            }
            assert_eq!(es[1].0, 2);
            match &es[1].1 {
                DeclError::UnknownBase { pos } => assert_eq!(*pos, q),
                other => panic!("unexpected {:?}", other),
            }
        }
        other => panic!("unexpected {:?}", other),
    }
}

#[test]
fn missing_brace_points_at_token() {
    let text = "0 => p: \"P\" { 0 => r: \"R\" 1 => X: \"x\" } }";
    match peripheral(text, &Scope::new()) {
        Err(DeclError::Syntax { pos }) => assert_eq!(pos, text.find("1 =>").unwrap()),
        other => panic!("unexpected {:?}", other),
    }
    match peripheral("0 => p \"P\" { }", &Scope::new()) {
        Err(DeclError::Syntax { pos }) => assert_eq!(pos, 7),
        other => panic!("unexpected {:?}", other),
    }
}

#[test]
fn adjacent_texts_are_separate_tokens() {
    let ts = lex("\"a\" \"b\"").unwrap();
    assert_eq!(ts.len(), 2);
    assert!(matches!(ts[0].tok, Tok::Text("a")));
    assert!(matches!(ts[1].tok, Tok::Text("b")));
    match fields("0 => A: \"a\" \"b\"", &Scope::new()) {
        Err(DeclError::Syntax { pos }) => assert_eq!(pos, 12),
        other => panic!("unexpected {:?}", other),
    }
}

#[test]
fn range_errors_keep_resolved_siblings() {
    match fields("0..4 => A: \"a\", ..3 => B: \"b\", 5..=6 => C: \"c\"", &Scope::new()) {
        Err(DeclError::Range { errors, fields }) => {
            assert_eq!(errors.len(), 1);
            let got: Vec<(&str, u64, u64)> = fields.iter().map(|f| (f.name, f.bit_offset, f.bit_width)).collect();
            assert_eq!(got, vec![("A", 0, 4), ("C", 5, 2)]);
        }
        other => panic!("unexpected {:?}", other),
    }
}

#[test]
fn registers_share_one_base() {
    let mut scope = Scope::new();
    scope.define("COMMON", fields("0 => EN: \"Enable\"", &scope).unwrap());
    let p = peripheral(
        "0 => p: \"P\" { 0 => a: \"A\" { ..COMMON, }, 4 => b: \"B\" { ..COMMON, } }",
        &scope,
    )
    .unwrap();
    let a = p.regs[0].fields.base.as_ref().unwrap();
    let b = p.regs[1].fields.base.as_ref().unwrap();
    assert!(Rc::ptr_eq(a, b));
    assert!(Rc::ptr_eq(a, &scope.entries[0].1));
}
