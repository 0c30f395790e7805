use kicad_codec::document::{parse_document, read, render_document};
use kicad_codec::encoder::{conforms, encode_record, encode_union, try_encode_record};
use kicad_codec::error::{CodecError, ErrorKind};
use kicad_codec::identifier::Identifier;
use kicad_codec::lexer::{find_imbalance, lex, tokenize, Token, TokenKind};
use kicad_codec::mapper::{decode_heterogeneous, decode_homogeneous, decode_record, decode_union};
use kicad_codec::quantity::{decode_quantity, encode_quantity, Quantity};
use kicad_codec::scalar::{decode_scalar, encode_scalar};
use kicad_codec::schema::{Field, ScalarKind, Schema};
use kicad_codec::number::{digits_only, looks_like_number};
use kicad_codec::tree::{parse, Atom, AtomClass, Node};
use kicad_codec::value::Value;
use kicad_codec::writer::render_node;

fn bare(text: &str) -> Node {
    Node::Atom(Atom { text: text.as_bytes().to_vec(), quoted: false })
}

fn quoted(text: &str) -> Node {
    Node::Atom(Atom { text: text.as_bytes().to_vec(), quoted: true })
}

fn required(kind: ScalarKind) -> Field {
    Field::Positional { kind, default: None, suppress: false }
}

fn one(key: &str, kind: ScalarKind) -> Schema {
    Schema { tag: Some(key.as_bytes().to_vec()), fields: vec![required(kind)], lenient: false }
}

fn kinds(tokens: &[Token]) -> Vec<TokenKind> {
    tokens.iter().map(|t| t.kind.clone()).collect()
}

#[test]
fn lex_splits_parens_symbols_and_strings() {
    let tokens = lex(b"(net 1 \"+3V3\")").unwrap();
    assert_eq!(
        kinds(&tokens),
        vec![
            TokenKind::Open,
            TokenKind::Bare(b"net".to_vec()),
            TokenKind::Bare(b"1".to_vec()),
            TokenKind::Quoted(b"+3V3".to_vec()),
            TokenKind::Close,
        ]
    );
    let offsets: Vec<usize> = tokens.iter().map(|t| t.offset).collect();
    assert_eq!(offsets, vec![0, 1, 5, 7, 13]);
}

#[test]
fn lex_reads_escaped_quote_and_nothing_else() {
    let tokens = lex(b"\"a\\\"b\\n\"").unwrap();
    assert_eq!(kinds(&tokens), vec![TokenKind::Quoted(b"a\"b\\n".to_vec())]);
}

#[test]
fn lex_keeps_parens_inside_strings() {
    let tokens = lex(b"(a \"(b\")").unwrap();
    assert_eq!(tokens.len(), 4);
    assert_eq!(tokens[2].kind, TokenKind::Quoted(b"(b".to_vec()));
}

#[test]
fn lex_symbol_ends_at_quote() {
    let tokens = lex(b"ab\"cd\"").unwrap();
    assert_eq!(
        kinds(&tokens),
        vec![TokenKind::Bare(b"ab".to_vec()), TokenKind::Quoted(b"cd".to_vec())]
    );
}

#[test]
fn lex_empty_text_has_no_tokens() {
    assert_eq!(lex(b"").unwrap().len(), 0);
    assert_eq!(lex(b" \t\r\n").unwrap().len(), 0);
}

#[test]
fn lex_fails_on_single_unmatched_open() {
    assert_eq!(lex(b"(a (b)"), Err(CodecError::SyntaxError { offset: 6 }));
    assert_eq!(lex(b"("), Err(CodecError::SyntaxError { offset: 1 }));
}

#[test]
fn lex_fails_on_single_unmatched_close() {
    assert_eq!(lex(b"(a) b)"), Err(CodecError::SyntaxError { offset: 5 }));
    assert_eq!(lex(b")"), Err(CodecError::SyntaxError { offset: 0 }));
}

#[test]
fn lex_fails_on_open_string() {
    assert_eq!(lex(b"(a \"bc)"), Err(CodecError::SyntaxError { offset: 3 }));
    assert_eq!(lex(b"\"a\\\""), Err(CodecError::SyntaxError { offset: 0 }));
}

#[test]
fn balanced_text_lexes_and_one_more_paren_does_not() {
    let text = "(a (b \"c)\") (d))";
    assert!(lex(text.as_bytes()).is_ok());
    for at in [0usize, 2, 3, 12, 16] {
        let mut more = text.as_bytes().to_vec();
        more.insert(at, b'(');
        assert!(matches!(lex(&more), Err(CodecError::SyntaxError { .. })));
        let mut less = text.as_bytes().to_vec();
        less.insert(at, b')');
        assert!(matches!(lex(&less), Err(CodecError::SyntaxError { .. })));
    }
}

#[test]
fn tokenize_does_not_ask_for_balance() {
    let tokens = tokenize(b"))(").unwrap();
    assert_eq!(tokens.len(), 3);
    assert_eq!(find_imbalance(&tokens, 3), Some(0));
    let open = tokenize(b"(()").unwrap();
    assert_eq!(find_imbalance(&open, 3), Some(3));
    let fine = tokenize(b"(()())").unwrap();
    assert_eq!(find_imbalance(&fine, 6), None);
}

#[test]
fn parse_builds_nested_lists() {
    let node = read(b"(a (b c) \"d\" ())").unwrap();
    assert_eq!(
        node,
        Node::List(vec![
            bare("a"),
            Node::List(vec![bare("b"), bare("c")]),
            quoted("d"),
            Node::List(vec![]),
        ])
    );
}

#[test]
fn parse_wants_exactly_one_node() {
    assert_eq!(read(b""), Err(CodecError::SyntaxError { offset: 0 }));
    assert_eq!(read(b"a b"), Err(CodecError::SyntaxError { offset: 2 }));
    assert_eq!(read(b"(a) (b)"), Err(CodecError::SyntaxError { offset: 4 }));
    assert_eq!(read(b"a"), Ok(bare("a")));
}

#[test]
fn parse_reports_mismatch_in_tokens() {
    let close = vec![Token { kind: TokenKind::Close, offset: 7 }];
    assert_eq!(parse(&close), Err(CodecError::SyntaxError { offset: 7 }));
    let open = vec![
        Token { kind: TokenKind::Open, offset: 2 },
        Token { kind: TokenKind::Open, offset: 3 },
        Token { kind: TokenKind::Close, offset: 4 },
    ];
    assert_eq!(parse(&open), Err(CodecError::SyntaxError { offset: 2 }));
}

#[test]
fn writer_puts_one_blank_between_siblings() {
    let node = Node::List(vec![
        bare("a"),
        Node::List(vec![bare("b"), bare("c")]),
        quoted("d"),
        Node::List(vec![]),
    ]);
    assert_eq!(render_node(&node), b"(a (b c) \"d\" ())".to_vec());
}

#[test]
fn writer_quotes_what_needs_quotes() {
    assert_eq!(render_node(&bare("a b")), b"\"a b\"".to_vec());
    assert_eq!(render_node(&bare("")), b"\"\"".to_vec());
    assert_eq!(render_node(&bare("a(b")), b"\"a(b\"".to_vec());
    assert_eq!(render_node(&bare("say \"hi\"")), b"\"say \\\"hi\\\"\"".to_vec());
    assert_eq!(render_node(&quoted("x")), b"\"x\"".to_vec());
    assert_eq!(render_node(&bare("F.Cu")), b"F.Cu".to_vec());
}

#[test]
fn text_reads_back_after_writing() {
    let node = Node::List(vec![
        bare("kicad"),
        quoted("with \"quotes\" and (parens)"),
        Node::List(vec![bare("x"), bare("-1.5"), quoted("")]),
    ]);
    assert_eq!(read(&render_node(&node)), Ok(node));
}

#[test]
fn quantity_reads_decimal_literals() {
    assert_eq!(decode_quantity(b"0.12"), Some(Quantity { nanos: 120_000 }));
    assert_eq!(decode_quantity(b"1"), Some(Quantity { nanos: 1_000_000 }));
    assert_eq!(decode_quantity(b"-1.5"), Some(Quantity { nanos: -1_500_000 }));
    assert_eq!(decode_quantity(b"+2.000001"), Some(Quantity { nanos: 2_000_001 }));
    assert_eq!(decode_quantity(b"007.50"), Some(Quantity { nanos: 7_500_000 }));
    assert_eq!(decode_quantity(b"-0"), Some(Quantity { nanos: 0 }));
}

#[test]
fn quantity_refuses_what_is_no_literal() {
    for text in ["", "-", ".5", "1.", "1.2.3", "1e3", "abc", "1.0000001", "1 ", "--1", "0x10"] {
        assert_eq!(decode_quantity(text.as_bytes()), None, "{}", text);
    }
}

#[test]
fn quantity_range_is_64_bits() {
    assert_eq!(
        decode_quantity(b"9223372036854.775807"),
        Some(Quantity { nanos: i64::MAX })
    );
    assert_eq!(decode_quantity(b"9223372036854.775808"), None);
    assert_eq!(
        decode_quantity(b"-9223372036854.775808"),
        Some(Quantity { nanos: i64::MIN })
    );
    assert_eq!(decode_quantity(b"-9223372036854.775809"), None);
    assert_eq!(decode_quantity(b"99999999999999999999999"), None);
}

#[test]
fn quantity_writes_fewest_digits() {
    assert_eq!(encode_quantity(Quantity { nanos: 120_000 }), b"0.12".to_vec());
    assert_eq!(encode_quantity(Quantity { nanos: 1_000_000 }), b"1".to_vec());
    assert_eq!(encode_quantity(Quantity { nanos: -1_500_000 }), b"-1.5".to_vec());
    assert_eq!(encode_quantity(Quantity { nanos: 1 }), b"0.000001".to_vec());
    assert_eq!(encode_quantity(Quantity { nanos: 0 }), b"0".to_vec());
    assert_eq!(encode_quantity(Quantity { nanos: i64::MIN }), b"-9223372036854.775808".to_vec());
}

#[test]
fn quantity_round_trip() {
    for nanos in [0i64, 1, -1, 10, 999_999, 1_000_000, 1_000_001, -120_000, i64::MAX, i64::MIN] {
        let q = Quantity { nanos };
        assert_eq!(decode_quantity(&encode_quantity(q)), Some(q));
    }
}

#[test]
fn quantity_from_millimetres_and_order() {
    assert_eq!(Quantity::from_millimetres(2), Some(Quantity { nanos: 2_000_000 }));
    assert_eq!(Quantity::from_millimetres(i64::MAX), None);
    assert!(Quantity { nanos: 1 }.shorter_than(&Quantity { nanos: 2 }));
    assert!(!Quantity { nanos: 2 }.shorter_than(&Quantity { nanos: 2 }));
    assert!(Quantity { nanos: -5 } < Quantity { nanos: 3 });
}

#[test]
fn identifier_reads_hyphenated_hex() {
    let id = Identifier::decode(b"936da01f-9abd-4d9d-80c7-02af85c822a8").unwrap();
    assert_eq!(id.bits, 0x936da01f9abd4d9d80c702af85c822a8u128);
    assert_eq!(
        Identifier::decode(b"00000000-0000-0000-0000-000000000000"),
        Ok(Identifier::nil())
    );
    assert!(Identifier::nil().is_nil());
    assert!(!id.is_nil());
}

#[test]
fn identifier_refuses_what_is_no_identifier() {
    assert_eq!(Identifier::decode(b"not-an-id"), Err(CodecError::ScalarDecodeError));
    assert_eq!(Identifier::decode(b""), Err(CodecError::ScalarDecodeError));
    assert_eq!(
        Identifier::decode(b"936da01f-9abd-4d9d-80c7-02af85c822ag"),
        Err(CodecError::ScalarDecodeError)
    );
    assert_eq!(Identifier::from_parsed(None), Err(CodecError::ScalarDecodeError));
    assert_eq!(Identifier::from_parsed(Some(7)), Ok(Identifier { bits: 7 }));
}

#[test]
fn identifier_writes_lower_case_hyphenated_hex() {
    let id = Identifier { bits: 0x936DA01F9ABD4D9D80C702AF85C822A8u128 };
    assert_eq!(id.encode(), b"936da01f-9abd-4d9d-80c7-02af85c822a8".to_vec());
    assert_eq!(Identifier::nil().encode(), b"00000000-0000-0000-0000-000000000000".to_vec());
    assert_eq!(Identifier { bits: 1 }.encode(), b"00000000-0000-0000-0000-000000000001".to_vec());
    assert_eq!(Identifier::decode(&id.encode()), Ok(id));
}

#[test]
fn scalar_integer() {
    let atom = Atom { text: b"20221018".to_vec(), quoted: false };
    assert_eq!(decode_scalar(&ScalarKind::Integer, &atom), Ok(Value::Integer(20221018)));
    let quoted = Atom { text: b"1".to_vec(), quoted: true };
    assert_eq!(decode_scalar(&ScalarKind::Integer, &quoted), Err(CodecError::ScalarDecodeError));
    let signed = Atom { text: b"-1".to_vec(), quoted: false };
    assert_eq!(decode_scalar(&ScalarKind::Integer, &signed), Err(CodecError::ScalarDecodeError));
    let big = Atom { text: b"18446744073709551615".to_vec(), quoted: false };
    assert_eq!(decode_scalar(&ScalarKind::Integer, &big), Ok(Value::Integer(u64::MAX)));
    let too_big = Atom { text: b"18446744073709551616".to_vec(), quoted: false };
    assert_eq!(decode_scalar(&ScalarKind::Integer, &too_big), Err(CodecError::ScalarDecodeError));
    assert_eq!(
        encode_scalar(&ScalarKind::Integer, &Value::Integer(1030)),
        Atom { text: b"1030".to_vec(), quoted: false }
    );
    assert_eq!(
        encode_scalar(&ScalarKind::Integer, &Value::Integer(0)),
        Atom { text: b"0".to_vec(), quoted: false }
    );
}

#[test]
fn scalar_quantity_is_never_quoted() {
    let quoted = Atom { text: b"0.12".to_vec(), quoted: true };
    assert_eq!(decode_scalar(&ScalarKind::Quantity, &quoted), Err(CodecError::ScalarDecodeError));
    let word = Atom { text: b"wide".to_vec(), quoted: false };
    assert_eq!(decode_scalar(&ScalarKind::Quantity, &word), Err(CodecError::ScalarDecodeError));
}

#[test]
fn scalar_symbol_falls_back() {
    let kind = ScalarKind::Symbol {
        spellings: vec![b"user".to_vec(), b"signal".to_vec(), b"power".to_vec()],
        fallback: 0,
    };
    let signal = Atom { text: b"signal".to_vec(), quoted: false };
    assert_eq!(decode_scalar(&kind, &signal), Ok(Value::Variant(1)));
    let upper = Atom { text: b"Signal".to_vec(), quoted: false };
    assert_eq!(decode_scalar(&kind, &upper), Ok(Value::Variant(0)));
    let unknown = Atom { text: b"auxiliary".to_vec(), quoted: false };
    assert_eq!(decode_scalar(&kind, &unknown), Ok(Value::Variant(0)));
    assert_eq!(
        encode_scalar(&kind, &Value::Variant(2)),
        Atom { text: b"power".to_vec(), quoted: false }
    );
}

#[test]
fn scalar_text_and_identifier_are_quoted() {
    assert_eq!(
        encode_scalar(&ScalarKind::Text, &Value::Text(b"F.Cu".to_vec())),
        Atom { text: b"F.Cu".to_vec(), quoted: true }
    );
    assert_eq!(
        encode_scalar(&ScalarKind::Identifier, &Value::Identifier(Identifier::nil())),
        Atom { text: b"00000000-0000-0000-0000-000000000000".to_vec(), quoted: true }
    );
    let atom = Atom { text: b"pcbnew".to_vec(), quoted: false };
    assert_eq!(decode_scalar(&ScalarKind::Text, &atom), Ok(Value::Text(b"pcbnew".to_vec())));
}

fn record_a() -> Schema {
    Schema {
        tag: Some(b"record".to_vec()),
        fields: vec![Field::Keyed {
            schema: one("a", ScalarKind::Integer),
            default: None,
            suppress: false,
        }],
        lenient: false,
    }
}

#[test]
fn unknown_field_is_refused_in_strict_mode() {
    let text = b"(record (a 1) (unexpected_field 2))";
    assert_eq!(parse_document(text, &record_a()), Err(CodecError::UnknownField));
    let mut lenient = record_a();
    lenient.lenient = true;
    assert_eq!(
        parse_document(text, &lenient),
        Ok(vec![Value::Record(vec![Value::Integer(1)])])
    );
    assert_eq!(
        parse_document(b"(record (a 1))", &record_a()),
        Ok(vec![Value::Record(vec![Value::Integer(1)])])
    );
}

#[test]
fn tag_mismatch_and_missing_field() {
    assert_eq!(parse_document(b"(other (a 1))", &record_a()), Err(CodecError::TagMismatch));
    assert_eq!(parse_document(b"record", &record_a()), Err(CodecError::TagMismatch));
    assert_eq!(parse_document(b"()", &record_a()), Err(CodecError::TagMismatch));
    assert_eq!(parse_document(b"(\"record\" (a 1))", &record_a()), Err(CodecError::TagMismatch));
    assert_eq!(parse_document(b"(record)", &record_a()), Err(CodecError::MissingField));
    assert_eq!(parse_document(b"(record (a x))", &record_a()), Err(CodecError::ScalarDecodeError));
    assert_eq!(parse_document(b"(record (a 1)", &record_a()), Err(CodecError::SyntaxError { offset: 13 }));
}

fn with_optional(suppress: bool) -> Schema {
    Schema {
        tag: Some(b"item".to_vec()),
        fields: vec![
            required(ScalarKind::Integer),
            Field::Keyed {
                schema: one("count", ScalarKind::Integer),
                default: Some(Value::Record(vec![Value::Integer(0)])),
                suppress,
            },
            Field::Flag { keyword: b"locked".to_vec() },
        ],
        lenient: false,
    }
}

#[test]
fn default_is_suppressed_and_comes_back() {
    let schema = with_optional(true);
    let values = vec![
        Value::Integer(7),
        Value::Record(vec![Value::Integer(0)]),
        Value::Flag(false),
    ];
    assert!(conforms(&values, &schema));
    let text = render_document(&values, &schema);
    assert_eq!(text, b"(item 7)".to_vec());
    assert_eq!(parse_document(&text, &schema), Ok(values));
}

#[test]
fn default_is_written_where_not_suppressed() {
    let schema = with_optional(false);
    let values = vec![
        Value::Integer(7),
        Value::Record(vec![Value::Integer(0)]),
        Value::Flag(true),
    ];
    let text = render_document(&values, &schema);
    assert_eq!(text, b"(item 7 (count 0) locked)".to_vec());
    assert_eq!(parse_document(&text, &schema), Ok(values));
    assert_eq!(
        parse_document(b"(item 7 locked)", &schema),
        Ok(vec![
            Value::Integer(7),
            Value::Record(vec![Value::Integer(0)]),
            Value::Flag(true),
        ])
    );
}

#[test]
fn fields_are_written_in_schema_order_and_read_in_any() {
    let schema = with_optional(true);
    let values = vec![
        Value::Integer(7),
        Value::Record(vec![Value::Integer(3)]),
        Value::Flag(true),
    ];
    assert_eq!(render_document(&values, &schema), b"(item 7 (count 3) locked)".to_vec());
    assert_eq!(parse_document(b"(item 7 locked (count 3))", &schema), Ok(values));
}

#[test]
fn encoding_wants_a_record_of_the_schema() {
    let schema = with_optional(true);
    assert!(try_encode_record(&vec![Value::Integer(7)], &schema).is_none());
    let wrong = vec![Value::Text(b"x".to_vec()), Value::Absent, Value::Flag(true)];
    assert!(!conforms(&wrong, &schema));
    assert!(try_encode_record(&wrong, &schema).is_none());
    let right = vec![
        Value::Integer(7),
        Value::Record(vec![Value::Integer(1)]),
        Value::Flag(false),
    ];
    assert_eq!(
        try_encode_record(&right, &schema).map(|n| render_node(&n)),
        Some(b"(item 7 (count 1))".to_vec())
    );
}

fn shape_a() -> Schema {
    Schema { tag: None, fields: vec![required(ScalarKind::Integer)], lenient: false }
}

fn shape_b() -> Schema {
    Schema {
        tag: None,
        fields: vec![
            required(ScalarKind::Integer),
            Field::Keyed {
                schema: one("note", ScalarKind::Text),
                default: Some(Value::Absent),
                suppress: true,
            },
        ],
        lenient: false,
    }
}

#[test]
fn union_takes_the_first_shape_that_accepts() {
    let node = read(b"(5)").unwrap();
    assert_eq!(
        decode_union(&node, &vec![shape_a(), shape_b()]),
        Ok((0, vec![Value::Integer(5)]))
    );
    assert_eq!(
        decode_union(&node, &vec![shape_b(), shape_a()]),
        Ok((0, vec![Value::Integer(5), Value::Absent]))
    );
    let noted = read(b"(5 (note \"n\"))").unwrap();
    assert_eq!(
        decode_union(&noted, &vec![shape_a(), shape_b()]),
        Ok((1, vec![Value::Integer(5), Value::Record(vec![Value::Text(b"n".to_vec())])]))
    );
}

#[test]
fn union_reports_every_reason() {
    let node = read(b"(x y)").unwrap();
    assert_eq!(
        decode_union(&node, &vec![shape_a(), record_a(), one("x", ScalarKind::Integer)]),
        Err(CodecError::NoMatchingVariant {
            reasons: vec![
                ErrorKind::ScalarDecode,
                ErrorKind::TagMismatch,
                ErrorKind::ScalarDecode,
            ]
        })
    );
    assert_eq!(
        decode_union(&node, &vec![]),
        Err(CodecError::NoMatchingVariant { reasons: vec![] })
    );
}

#[test]
fn union_encodes_by_its_own_shape() {
    let variants = vec![one("a", ScalarKind::Integer), one("b", ScalarKind::Text)];
    let node = encode_union(1, &vec![Value::Text(b"t".to_vec())], &variants);
    assert_eq!(render_node(&node), b"(b \"t\")".to_vec());
    assert_eq!(decode_union(&node, &variants), Ok((1, vec![Value::Text(b"t".to_vec())])));
}

#[test]
fn homogeneous_collects_matching_siblings_in_order() {
    let node = read(b"(x (xy 1 2) skip (other 1) (xy 3 4) (xy 5 6))").unwrap();
    let children = match node {
        Node::List(items) => items,
        _ => unreachable!(),
    };
    let xy = Schema {
        tag: Some(b"xy".to_vec()),
        fields: vec![required(ScalarKind::Integer), required(ScalarKind::Integer)],
        lenient: false,
    };
    assert_eq!(
        decode_homogeneous(&children, &xy),
        Ok(vec![
            Value::Record(vec![Value::Integer(1), Value::Integer(2)]),
            Value::Record(vec![Value::Integer(3), Value::Integer(4)]),
            Value::Record(vec![Value::Integer(5), Value::Integer(6)]),
        ])
    );
    let bad = read(b"((xy 1 2) (xy 3))").unwrap();
    let children = match bad {
        Node::List(items) => items,
        _ => unreachable!(),
    };
    assert_eq!(decode_homogeneous(&children, &xy), Err(CodecError::MissingField));
}

#[test]
fn heterogeneous_resolves_every_child_in_order() {
    let variants = vec![one("a", ScalarKind::Integer), one("b", ScalarKind::Text)];
    let node = read(b"((b x) (a 1) (b y))").unwrap();
    let children = match node {
        Node::List(items) => items,
        _ => unreachable!(),
    };
    assert_eq!(
        decode_heterogeneous(&children, &variants),
        Ok(vec![
            Value::Choice(1, vec![Value::Text(b"x".to_vec())]),
            Value::Choice(0, vec![Value::Integer(1)]),
            Value::Choice(1, vec![Value::Text(b"y".to_vec())]),
        ])
    );
    let bad = read(b"((b x) (c 1))").unwrap();
    let children = match bad {
        Node::List(items) => items,
        _ => unreachable!(),
    };
    assert_eq!(
        decode_heterogeneous(&children, &variants),
        Err(CodecError::NoMatchingVariant {
            reasons: vec![ErrorKind::TagMismatch, ErrorKind::TagMismatch]
        })
    );
}

#[test]
fn sequences_keep_their_order() {
    let schema = Schema {
        tag: Some(b"doc".to_vec()),
        fields: vec![
            Field::Repeated { schema: one("n", ScalarKind::Integer) },
            Field::Sequence { variants: vec![one("a", ScalarKind::Integer), one("b", ScalarKind::Text)] },
        ],
        lenient: false,
    };
    let values = vec![
        Value::Sequence(vec![
            Value::Record(vec![Value::Integer(3)]),
            Value::Record(vec![Value::Integer(1)]),
            Value::Record(vec![Value::Integer(2)]),
        ]),
        Value::Sequence(vec![
            Value::Choice(1, vec![Value::Text(b"z".to_vec())]),
            Value::Choice(0, vec![Value::Integer(9)]),
        ]),
    ];
    assert!(conforms(&values, &schema));
    let node = encode_record(&values, &schema);
    assert_eq!(render_node(&node), b"(doc (n 3) (n 1) (n 2) (b \"z\") (a 9))".to_vec());
    assert_eq!(decode_record(&node, &schema), Ok(values));
}

#[test]
fn error_kinds() {
    assert_eq!(CodecError::SyntaxError { offset: 3 }.kind(), ErrorKind::Syntax);
    assert_eq!(CodecError::TagMismatch.kind(), ErrorKind::TagMismatch);
    assert_eq!(CodecError::MissingField.kind(), ErrorKind::MissingField);
    assert_eq!(CodecError::UnknownField.kind(), ErrorKind::UnknownField);
    assert_eq!(CodecError::ScalarDecodeError.kind(), ErrorKind::ScalarDecode);
    assert_eq!(
        CodecError::NoMatchingVariant { reasons: vec![] }.kind(),
        ErrorKind::NoMatchingVariant
    );
}

#[test]
fn atoms_are_classed_by_their_looks() {
    for text in ["0", "12", "-1.5", "+2", "1.", ".5", "1e3", "1.5E-3", "-0.12e+10", "007"] {
        assert!(looks_like_number(text.as_bytes()), "{}", text);
        let atom = Atom { text: text.as_bytes().to_vec(), quoted: false };
        assert_eq!(atom.class(), AtomClass::Number);
        let quoted = Atom { text: text.as_bytes().to_vec(), quoted: true };
        assert_eq!(quoted.class(), AtomClass::Quoted);
    }
    for text in ["", "-", ".", "e3", "1e", "1e+", "1.2.3", "1e2e3", "F.Cu", "signal", "0x10", "1 ", "--1", "1-"] {
        assert!(!looks_like_number(text.as_bytes()), "{}", text);
        let atom = Atom { text: text.as_bytes().to_vec(), quoted: false };
        assert_eq!(atom.class(), AtomClass::Symbol);
    }
    assert!(digits_only(b""));
    assert!(digits_only(b"0123456789"));
    assert!(!digits_only(b"12a"));
    for text in ["0.12", "1", "-1.5", "+2.000001"] {
        assert!(decode_quantity(text.as_bytes()).is_some());
        assert!(looks_like_number(text.as_bytes()));
    }
}

#[test]
fn unequal_parens_do_not_lex() {
    for text in ["(", ")", "(()", "())", "(a (b)", "a) (b", ")("] {
        assert!(matches!(lex(text.as_bytes()), Err(CodecError::SyntaxError { .. })), "{}", text);
    }
    for text in ["\"(\"", "(\")\")", "(\"((\" )"] {
        assert!(lex(text.as_bytes()).is_ok(), "{}", text);
    }
}

#[test]
fn scalar_word_is_written_bare_where_it_can_be() {
    assert_eq!(
        encode_scalar(&ScalarKind::Word, &Value::Text(b"User.Drawings".to_vec())),
        Atom { text: b"User.Drawings".to_vec(), quoted: false }
    );
    let schema = Schema {
        tag: Some(b"w".to_vec()),
        fields: vec![required(ScalarKind::Word), required(ScalarKind::Text)],
        lenient: false,
    };
    let plain = vec![Value::Text(b"pcbnew".to_vec()), Value::Text(b"pcbnew".to_vec())];
    assert_eq!(render_document(&plain, &schema), b"(w pcbnew \"pcbnew\")".to_vec());
    assert_eq!(parse_document(b"(w pcbnew \"pcbnew\")", &schema), Ok(plain));
    for word in ["two words", "", "a(b", "say \"hi\""] {
        let values = vec![Value::Text(word.as_bytes().to_vec()), Value::Text(b"t".to_vec())];
        let text = render_document(&values, &schema);
        assert_eq!(text[3], b'"', "{}", word);
        assert_eq!(parse_document(&text, &schema), Ok(values));
    }
    let quoted = Atom { text: b"x y".to_vec(), quoted: true };
    assert_eq!(decode_scalar(&ScalarKind::Word, &quoted), Ok(Value::Text(b"x y".to_vec())));
}
