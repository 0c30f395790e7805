use kicad_codec::binding::Record;
use kicad_codec::board::graphic::curve::Curve;
use kicad_codec::board::graphic::segment::Segment;
use kicad_codec::board::pcb::{General, Layer, LayersList, Net, Version, PCB};
use kicad_codec::common::{Paper, Point, PointList, TitleBlock};
use kicad_codec::document::{parse_document, read, render_document, try_render_document};
use kicad_codec::encoder::{are_choices, are_records, encode_record, field_admits, is_choice, is_left_out};
use kicad_codec::mapper::{decode_record, has_tag, is_keyword};
use kicad_codec::scalar::{find_spelling, fits_scalar};
use kicad_codec::schema::{Field, ScalarKind, Schema};
use kicad_codec::symbol_lib::SymbolLib;
use kicad_codec::tree::{Atom, Node};
use kicad_codec::validate::{
    are_distinct, are_in_order, field_is_well_formed, is_in_order, is_well_formed,
    kind_is_well_formed, union_is_well_formed,
};
use kicad_codec::value::{clone_value, clone_values, same_value, same_values, Value};
use kicad_codec::writer::{is_writable, must_quote, render_node};

fn required(kind: ScalarKind) -> Field {
    Field::Positional { kind, default: None, suppress: false }
}

fn optional(kind: ScalarKind) -> Field {
    Field::Positional { kind, default: Some(Value::Absent), suppress: true }
}

fn flag(keyword: &str) -> Field {
    Field::Flag { keyword: keyword.as_bytes().to_vec() }
}

fn one(key: &str, kind: ScalarKind) -> Schema {
    Schema { tag: Some(key.as_bytes().to_vec()), fields: vec![required(kind)], lenient: false }
}

fn keyed(key: &str, kind: ScalarKind) -> Field {
    Field::Keyed { schema: one(key, kind), default: None, suppress: false }
}

fn record(fields: Vec<Field>) -> Schema {
    Schema { tag: Some(b"r".to_vec()), fields, lenient: false }
}

#[test]
fn declared_schemas_are_well_formed() {
    assert!(is_well_formed(&PCB::schema()));
    assert!(is_well_formed(&SymbolLib::schema()));
    assert!(is_well_formed(&Segment::schema()));
    assert!(is_well_formed(&Segment::schema_with(true)));
    assert!(is_well_formed(&Curve::schema()));
    assert!(is_well_formed(&Layer::schema()));
    assert!(is_well_formed(&LayersList::schema()));
    assert!(is_well_formed(&General::schema()));
    assert!(is_well_formed(&Net::schema()));
    assert!(is_well_formed(&Version::schema()));
    assert!(is_well_formed(&kicad_codec::symbol_lib::Version::schema()));
    assert!(is_well_formed(&Paper::schema()));
    assert!(is_well_formed(&TitleBlock::schema()));
    assert!(is_well_formed(&Point::schema("xy")));
    assert!(is_well_formed(&PointList::schema()));
}

#[test]
fn order_of_bare_values() {
    assert!(is_well_formed(&record(vec![
        required(ScalarKind::Integer),
        optional(ScalarKind::Text)
    ])));
    assert!(!is_well_formed(&record(vec![
        optional(ScalarKind::Text),
        required(ScalarKind::Integer)
    ])));
    assert!(!is_well_formed(&record(vec![optional(ScalarKind::Text), flag("locked")])));
    assert!(is_well_formed(&record(vec![required(ScalarKind::Text), flag("locked")])));
    assert!(!is_well_formed(&record(vec![flag("locked"), required(ScalarKind::Text)])));
    assert!(is_well_formed(&record(vec![flag("locked"), flag("hide")])));
    assert!(!is_well_formed(&record(vec![flag("hide"), flag("hide")])));
    assert!(is_in_order(&required(ScalarKind::Text), &required(ScalarKind::Text)));
    assert!(!is_in_order(&optional(ScalarKind::Text), &optional(ScalarKind::Text)));
    assert!(is_in_order(&optional(ScalarKind::Text), &keyed("a", ScalarKind::Text)));
    assert!(is_in_order(&flag("locked"), &keyed("locked", ScalarKind::Text)));
}

#[test]
fn order_of_lists() {
    assert!(is_well_formed(&record(vec![
        keyed("a", ScalarKind::Integer),
        keyed("b", ScalarKind::Integer)
    ])));
    assert!(!is_well_formed(&record(vec![
        keyed("a", ScalarKind::Integer),
        keyed("a", ScalarKind::Text)
    ])));
    assert!(!is_well_formed(&record(vec![
        keyed("a", ScalarKind::Integer),
        Field::Repeated { schema: one("a", ScalarKind::Integer) }
    ])));
    let tagless = Schema { tag: None, fields: vec![required(ScalarKind::Integer)], lenient: false };
    assert!(!field_is_well_formed(&Field::Keyed {
        schema: Schema { tag: None, fields: vec![], lenient: false },
        default: None,
        suppress: false
    }));
    assert!(!field_is_well_formed(&Field::Repeated {
        schema: Schema { tag: None, fields: vec![], lenient: false }
    }));
    let sequence = Field::Sequence {
        variants: vec![one("a", ScalarKind::Integer), one("b", ScalarKind::Integer)],
    };
    assert!(field_is_well_formed(&sequence));
    assert!(is_in_order(&keyed("c", ScalarKind::Integer), &sequence));
    assert!(!is_in_order(&keyed("a", ScalarKind::Integer), &sequence));
    assert!(!is_in_order(&sequence, &keyed("c", ScalarKind::Integer)));
    assert!(!is_in_order(&sequence, &flag("x")));
    let loose = Field::Sequence { variants: vec![tagless] };
    assert!(field_is_well_formed(&loose));
    assert!(!is_in_order(&keyed("c", ScalarKind::Integer), &loose));
    assert!(is_in_order(&required(ScalarKind::Integer), &loose));
    assert!(are_in_order(&vec![required(ScalarKind::Integer), keyed("c", ScalarKind::Text)]));
    assert!(!are_in_order(&vec![
        keyed("c", ScalarKind::Text),
        flag("x"),
        keyed("c", ScalarKind::Text)
    ]));
}

#[test]
fn unions_must_be_told_apart() {
    let a = || Schema { tag: None, fields: vec![required(ScalarKind::Integer)], lenient: false };
    assert!(union_is_well_formed(&vec![]));
    assert!(union_is_well_formed(&vec![a()]));
    assert!(!union_is_well_formed(&vec![a(), a()]));
    assert!(!union_is_well_formed(&vec![one("x", ScalarKind::Integer), a()]));
    assert!(!union_is_well_formed(&vec![
        one("x", ScalarKind::Integer),
        one("y", ScalarKind::Integer),
        one("x", ScalarKind::Text)
    ]));
    assert!(union_is_well_formed(&vec![
        one("x", ScalarKind::Integer),
        one("y", ScalarKind::Integer)
    ]));
    let nested_bad = Field::Sequence {
        variants: vec![record(vec![flag("a"), flag("a")])],
    };
    assert!(!field_is_well_formed(&nested_bad));
}

#[test]
fn enumerations_need_distinct_spellings() {
    let good = ScalarKind::Symbol { spellings: vec![b"a".to_vec(), b"b".to_vec()], fallback: 1 };
    assert!(kind_is_well_formed(&good));
    let twice = ScalarKind::Symbol { spellings: vec![b"a".to_vec(), b"a".to_vec()], fallback: 0 };
    assert!(!kind_is_well_formed(&twice));
    let out = ScalarKind::Symbol { spellings: vec![b"a".to_vec()], fallback: 1 };
    assert!(!kind_is_well_formed(&out));
    assert!(kind_is_well_formed(&ScalarKind::Quantity));
    assert!(are_distinct(&vec![]));
    assert!(are_distinct(&vec![b"a".to_vec(), b"ab".to_vec(), b"b".to_vec()]));
    assert!(!are_distinct(&vec![b"a".to_vec(), b"ab".to_vec(), b"a".to_vec()]));
    assert_eq!(find_spelling(&vec![b"a".to_vec(), b"b".to_vec(), b"a".to_vec()], b"a"), Some(0));
    assert_eq!(find_spelling(&vec![b"a".to_vec(), b"b".to_vec()], b"b"), Some(1));
    assert_eq!(find_spelling(&vec![b"a".to_vec(), b"b".to_vec()], b"c"), None);
}

#[test]
fn ill_formed_schema_does_not_read_back() {
    let schema = record(vec![optional(ScalarKind::Text), required(ScalarKind::Text)]);
    let values = vec![Value::Absent, Value::Text(b"x".to_vec())];
    let text = render_document(&values, &schema);
    assert_eq!(text, b"(r \"x\")".to_vec());
    assert!(parse_document(&text, &schema).is_err());
}

#[test]
fn writable_trees() {
    let bare = |t: &str| Node::Atom(Atom { text: t.as_bytes().to_vec(), quoted: false });
    let quoted = |t: &str| Node::Atom(Atom { text: t.as_bytes().to_vec(), quoted: true });
    assert!(is_writable(&bare("abc")));
    assert!(is_writable(&bare("a\\")));
    assert!(!is_writable(&bare("")));
    assert!(!is_writable(&bare("a b")));
    assert!(!is_writable(&bare("a\"b")));
    assert!(is_writable(&quoted("")));
    assert!(is_writable(&quoted("a b \\ c")));
    assert!(!is_writable(&quoted("a\\")));
    assert!(is_writable(&Node::List(vec![])));
    assert!(is_writable(&Node::List(vec![bare("a"), Node::List(vec![quoted("b c")])])));
    assert!(!is_writable(&Node::List(vec![bare("a"), Node::List(vec![quoted("b\\")])])));
    for node in [
        bare("abc"),
        quoted("a \\\" b"),
        Node::List(vec![bare("a"), Node::List(vec![quoted("b c"), bare("\\")])]),
    ] {
        assert!(is_writable(&node));
        assert_eq!(read(&render_node(&node)), Ok(node));
    }
    let lost = quoted("a\\");
    assert!(read(&render_node(&lost)).is_err());
    assert!(must_quote(b""));
    assert!(must_quote(b"a)"));
    assert!(!must_quote(b"a.b"));
}

#[test]
fn well_formed_schema_reads_back() {
    let schema = Schema {
        tag: Some(b"part".to_vec()),
        fields: vec![
            required(ScalarKind::Quantity),
            keyed("name", ScalarKind::Text),
            Field::Keyed {
                schema: one("id", ScalarKind::Identifier),
                default: Some(Value::Record(vec![Value::Identifier(
                    kicad_codec::identifier::Identifier::nil(),
                )])),
                suppress: true,
            },
            Field::Repeated { schema: one("pin", ScalarKind::Integer) },
            flag("locked"),
            Field::Sequence {
                variants: vec![one("note", ScalarKind::Text), one("mark", ScalarKind::Integer)],
            },
        ],
        lenient: false,
    };
    assert!(is_well_formed(&schema));
    let values = vec![
        Value::Quantity(kicad_codec::quantity::Quantity { nanos: -2_540_000 }),
        Value::Record(vec![Value::Text(b"U1 (main)".to_vec())]),
        Value::Record(vec![Value::Identifier(kicad_codec::identifier::Identifier::nil())]),
        Value::Sequence(vec![
            Value::Record(vec![Value::Integer(2)]),
            Value::Record(vec![Value::Integer(1)]),
        ]),
        Value::Flag(true),
        Value::Sequence(vec![
            Value::Choice(1, vec![Value::Integer(9)]),
            Value::Choice(0, vec![Value::Text(b"say \"hi\"".to_vec())]),
        ]),
    ];
    let text = try_render_document(&values, &schema).unwrap();
    assert_eq!(
        text,
        b"(part -2.54 (name \"U1 (main)\") (pin 2) (pin 1) locked (mark 9) (note \"say \\\"hi\\\"\"))"
            .to_vec()
    );
    assert!(is_writable(&encode_record(&values, &schema)));
    assert_eq!(parse_document(&text, &schema), Ok(values));
    assert_eq!(try_render_document(&vec![], &schema), None);
}

#[test]
fn values_compare_and_copy() {
    let v = Value::Record(vec![
        Value::Integer(1),
        Value::Sequence(vec![Value::Choice(2, vec![Value::Text(b"x".to_vec())]), Value::Absent]),
        Value::Flag(true),
    ]);
    let copy = clone_value(&v);
    assert_eq!(copy, v);
    assert!(same_value(&copy, &v));
    assert!(!same_value(&v, &Value::Record(vec![Value::Integer(1)])));
    assert!(!same_value(&Value::Integer(1), &Value::Variant(1)));
    assert!(same_values(&clone_values(&vec![Value::Absent, Value::Flag(false)]), &vec![
        Value::Absent,
        Value::Flag(false)
    ]));
    assert!(!same_values(&vec![Value::Absent], &vec![Value::Absent, Value::Absent]));
    assert!(is_left_out(&Some(Value::Integer(0)), true, &Value::Integer(0)));
    assert!(!is_left_out(&Some(Value::Integer(0)), false, &Value::Integer(0)));
    assert!(!is_left_out(&Some(Value::Integer(0)), true, &Value::Integer(1)));
    assert!(!is_left_out(&None, true, &Value::Integer(0)));
}

#[test]
fn conformance_of_parts() {
    let kind = ScalarKind::Symbol { spellings: vec![b"a".to_vec()], fallback: 0 };
    assert!(fits_scalar(&kind, &Value::Variant(0)));
    assert!(!fits_scalar(&kind, &Value::Variant(1)));
    assert!(!fits_scalar(&ScalarKind::Integer, &Value::Text(vec![])));
    assert!(field_admits(&flag("x"), &Value::Flag(false)));
    assert!(!field_admits(&flag("x"), &Value::Absent));
    assert!(field_admits(&optional(ScalarKind::Text), &Value::Absent));
    assert!(!field_admits(&required(ScalarKind::Text), &Value::Absent));
    let n = one("n", ScalarKind::Integer);
    assert!(are_records(&vec![Value::Record(vec![Value::Integer(1)])], &n));
    assert!(!are_records(&vec![Value::Record(vec![Value::Text(vec![])])], &n));
    assert!(!are_records(&vec![Value::Integer(1)], &n));
    let variants = vec![one("a", ScalarKind::Integer), one("b", ScalarKind::Text)];
    assert!(is_choice(&Value::Choice(1, vec![Value::Text(vec![])]), &variants));
    assert!(!is_choice(&Value::Choice(0, vec![Value::Text(vec![])]), &variants));
    assert!(!is_choice(&Value::Choice(2, vec![Value::Text(vec![])]), &variants));
    assert!(!is_choice(&Value::Record(vec![Value::Text(vec![])]), &variants));
    assert!(are_choices(&vec![Value::Choice(0, vec![Value::Integer(3)])], &variants));
    assert!(!are_choices(&vec![Value::Choice(0, vec![])], &variants));
}

#[test]
fn tags_and_keywords() {
    let node = read(b"(net 1)").unwrap();
    assert!(has_tag(&node, b"net"));
    assert!(!has_tag(&node, b"ne"));
    assert!(!has_tag(&read(b"(\"net\" 1)").unwrap(), b"net"));
    assert!(!has_tag(&read(b"((net) 1)").unwrap(), b"net"));
    assert!(!has_tag(&read(b"()").unwrap(), b"net"));
    assert!(!has_tag(&read(b"net").unwrap(), b"net"));
    assert!(is_keyword(&read(b"locked").unwrap(), b"locked"));
    assert!(!is_keyword(&read(b"\"locked\"").unwrap(), b"locked"));
    assert!(!is_keyword(&read(b"(locked)").unwrap(), b"locked"));
    let schema = record(vec![flag("locked"), keyed("a", ScalarKind::Integer)]);
    assert_eq!(
        decode_record(&read(b"(r (a 1) locked)").unwrap(), &schema),
        Ok(vec![Value::Flag(true), Value::Record(vec![Value::Integer(1)])])
    );
    assert_eq!(
        decode_record(&read(b"(r (a 1) \"locked\")").unwrap(), &schema),
        Err(kicad_codec::error::CodecError::UnknownField)
    );
}
