use kicad_codec::binding::{decode, encode, from_text, to_text, Record};
use kicad_codec::board::graphic::curve::Curve;
use kicad_codec::board::graphic::segment::Segment;
use kicad_codec::board::graphic::GraphicItem;
use kicad_codec::board::layer::Layer as LayerName;
use kicad_codec::board::pcb::{
    General, Layer, LayerType, LayersList, Net, PCBContent, Version, PCB,
};
use kicad_codec::common::{Paper, PaperSize, Point, PointList, TitleBlock};
use kicad_codec::document::read;
use kicad_codec::encoder::conforms;
use kicad_codec::error::{CodecError, ErrorKind};
use kicad_codec::identifier::Identifier;
use kicad_codec::quantity::Quantity;
use kicad_codec::symbol_lib::SymbolLib;
use kicad_codec::writer::render_node;

fn mm(nanos: i64) -> Quantity {
    Quantity { nanos }
}

fn segment() -> Segment {
    Segment {
        start: Point::new(mm(1_000_000), mm(0)),
        end: Point::new(mm(2_000_000), mm(0)),
        width: mm(120_000),
        layer: LayerName(String::from("F.Cu")),
        net: 1,
        tstamp: Identifier::nil(),
    }
}

const SEGMENT: &str = r#"(segment (start 1 0) (end 2 0) (width 0.12) (layer "F.Cu") (net 1) (tstamp "00000000-0000-0000-0000-000000000000"))"#;

#[test]
fn segment_decodes() {
    let actual: Segment = from_text(SEGMENT.as_bytes()).unwrap();
    assert_eq!(actual, segment());
    assert_eq!(actual.start.x, mm(1_000_000));
    assert_eq!(actual.end.x, mm(2_000_000));
    assert_eq!(actual.width, mm(120_000));
    assert_eq!(actual.layer.name(), "F.Cu");
    assert_eq!(actual.net, 1);
    assert!(actual.tstamp.is_nil());
}

#[test]
fn segment_encodes_to_equivalent_text() {
    assert_eq!(to_text(&segment()), SEGMENT.as_bytes().to_vec());
    let spaced = "( segment\n  (start 1.0 0)\t(end 2 0.000)\n  (width 0.120) (layer \"F.Cu\") (net 1)\n  (tstamp \"00000000-0000-0000-0000-000000000000\") )";
    let actual: Segment = from_text(spaced.as_bytes()).unwrap();
    assert_eq!(to_text(&actual), SEGMENT.as_bytes().to_vec());
}

#[test]
fn segment_nil_identifier_is_dropped_on_request() {
    let node = segment().encode_with(true);
    assert_eq!(
        render_node(&node),
        br#"(segment (start 1 0) (end 2 0) (width 0.12) (layer "F.Cu") (net 1))"#.to_vec()
    );
    let back: Segment = decode(&node).unwrap();
    assert_eq!(back, segment());
    let mut named = segment();
    named.tstamp = Identifier { bits: 0x936da01f9abd4d9d80c702af85c822a8 };
    assert_eq!(
        render_node(&named.encode_with(true)),
        br#"(segment (start 1 0) (end 2 0) (width 0.12) (layer "F.Cu") (net 1) (tstamp "936da01f-9abd-4d9d-80c7-02af85c822a8"))"#.to_vec()
    );
    assert_eq!(render_node(&segment().encode_with(false)), SEGMENT.as_bytes().to_vec());
}

#[test]
fn segment_is_strict() {
    let unknown = r#"(segment (start 1 0) (end 2 0) (width 0.12) (layer "F.Cu") (net 1) (locked yes))"#;
    assert_eq!(from_text::<Segment>(unknown.as_bytes()), Err(CodecError::UnknownField));
    let missing = r#"(segment (start 1 0) (end 2 0) (layer "F.Cu") (net 1))"#;
    assert_eq!(from_text::<Segment>(missing.as_bytes()), Err(CodecError::MissingField));
    let wide = r#"(segment (start 1 0) (end 2 0) (width wide) (layer "F.Cu") (net 1))"#;
    assert_eq!(from_text::<Segment>(wide.as_bytes()), Err(CodecError::ScalarDecodeError));
    let net = r#"(segment (start 1 0) (end 2 0) (width 1) (layer "F.Cu") (net 256))"#;
    assert_eq!(from_text::<Segment>(net.as_bytes()), Err(CodecError::ScalarDecodeError));
    let tag = r#"(gr_line (start 1 0) (end 2 0) (width 1) (layer "F.Cu") (net 1))"#;
    assert_eq!(from_text::<Segment>(tag.as_bytes()), Err(CodecError::TagMismatch));
}

#[test]
fn segment_fields_in_any_order() {
    let shuffled = r#"(segment (net 1) (width 0.12) (end 2 0) (layer "F.Cu") (start 1 0))"#;
    assert_eq!(from_text::<Segment>(shuffled.as_bytes()), Ok(segment()));
}

const CURVE: &str = r#"(fp_curve (pts (xy 1 1) (xy 1 2) (xy 2 2) (xy 2 1)) (width 0.12) (tstamp "00000000-0000-0000-0000-000000000000"))"#;

fn curve() -> Curve {
    Curve {
        pts: PointList::new(vec![
            Point::new(mm(1_000_000), mm(1_000_000)),
            Point::new(mm(1_000_000), mm(2_000_000)),
            Point::new(mm(2_000_000), mm(2_000_000)),
            Point::new(mm(2_000_000), mm(1_000_000)),
        ]),
        layer: None,
        width: mm(120_000),
        tstamp: Identifier::nil(),
    }
}

#[test]
fn curve_round_trip() {
    let actual: Curve = from_text(CURVE.as_bytes()).unwrap();
    assert_eq!(actual, curve());
    assert_eq!(to_text(&actual), CURVE.as_bytes().to_vec());
    let mut on_layer = curve();
    on_layer.layer = Some(LayerName::new(String::from("F.SilkS")));
    let text = to_text(&on_layer);
    assert_eq!(
        text,
        br#"(fp_curve (pts (xy 1 1) (xy 1 2) (xy 2 2) (xy 2 1)) (layer "F.SilkS") (width 0.12) (tstamp "00000000-0000-0000-0000-000000000000"))"#.to_vec()
    );
    assert_eq!(from_text::<Curve>(&text), Ok(on_layer));
}

#[test]
fn curve_without_identifier_has_nil() {
    let text = r#"(fp_curve (pts) (width 1))"#;
    let actual: Curve = from_text(text.as_bytes()).unwrap();
    assert_eq!(actual.pts.points.len(), 0);
    assert!(actual.tstamp.is_nil());
    assert_eq!(actual.layer, None);
}

#[test]
fn general_round_trip() {
    let actual: General = from_text(b"(general (thickness 0.89))").unwrap();
    assert_eq!(actual, General { thickness: mm(890_000), ..Default::default() });
    assert_eq!(to_text(&actual), b"(general (thickness 0.89))".to_vec());
    let full = General {
        thickness: mm(1_600_000),
        drawings: Some(5),
        tracks: Some(0),
        zones: None,
        modules: Some(12),
        nets: Some(3),
    };
    let text = to_text(&full);
    assert_eq!(
        text,
        b"(general (thickness 1.6) (drawings 5) (tracks 0) (modules 12) (nets 3))".to_vec()
    );
    assert_eq!(from_text::<General>(&text), Ok(full));
}

#[test]
fn net_round_trip() {
    let actual: Net = from_text(br#"(net 1 "+3V3")"#).unwrap();
    assert_eq!(actual, Net { number: 1, name: "+3V3".to_string() });
    assert_eq!(to_text(&actual), br#"(net 1 "+3V3")"#.to_vec());
    assert_eq!(from_text::<Net>(b"(net 256 x)"), Err(CodecError::ScalarDecodeError));
    assert_eq!(from_text::<Net>(b"(net 1)"), Err(CodecError::MissingField));
    assert_eq!(from_text::<Net>(b"(net 1 a b)"), Err(CodecError::UnknownField));
}

#[test]
fn layer_type_spellings() {
    assert_eq!(LayerType::default(), LayerType::User);
    assert_eq!(LayerType::Signal.to_string(), "signal");
    assert_eq!(LayerType::User.name(), "user");
    assert_eq!(LayerType::Jumper.name(), "jumper");
    assert_eq!(LayerType::Mixed.name(), "mixed");
    assert_eq!(LayerType::Power.name(), "power");
    for (i, t) in [LayerType::User, LayerType::Signal, LayerType::Jumper, LayerType::Mixed, LayerType::Power]
        .into_iter()
        .enumerate()
    {
        assert_eq!(t.index(), i);
        assert_eq!(LayerType::from_index(i), Some(t));
    }
    assert_eq!(LayerType::from_index(5), None);
}

#[test]
fn layer_of_unknown_type_is_user() {
    let layer = Layer::from_str(r#"(5 "In1.Cu" auxiliary)"#).unwrap();
    assert_eq!(layer.layer_type, LayerType::User);
    let power = Layer::from_str(r#"(5 "In1.Cu" power)"#).unwrap();
    assert_eq!(power.layer_type, LayerType::Power);
}

#[test]
fn layer_errors() {
    assert_eq!(Layer::from_str(r#"(0 "F.Cu")"#), Err(CodecError::MissingField));
    assert_eq!(Layer::from_str(r#"(x "F.Cu" signal)"#), Err(CodecError::ScalarDecodeError));
    assert_eq!(Layer::from_str(r#"(0 "F.Cu" signal a b)"#), Err(CodecError::UnknownField));
    assert_eq!(Layer::from_str(r#"(0 "F.Cu" signal"#), Err(CodecError::SyntaxError { offset: 16 }));
    assert_eq!(Layer::from_str(r#"(4294967296 "F.Cu" signal)"#), Err(CodecError::ScalarDecodeError));
    assert_eq!(Layer::from_str(r#"0"#), Err(CodecError::TagMismatch));
}

#[test]
fn layer_name_in_other_scripts() {
    let layer = Layer::from_str("(1 \"K\u{fc}pfer \u{9285}\" signal)").unwrap();
    assert_eq!(layer.name, "K\u{fc}pfer \u{9285}");
    assert_eq!(layer.to_string(), "(1 \"K\u{fc}pfer \u{9285}\" signal)");
}

#[test]
fn layers_list_round_trip() {
    let text = r#"(layers (0 "F.Cu" signal) (31 "B.Cu" signal) (40 "Dwgs.User" user "User.Drawings"))"#;
    let actual: LayersList = from_text(text.as_bytes()).unwrap();
    assert_eq!(
        actual,
        LayersList {
            layers: vec![
                Layer { number: 0, name: "F.Cu".to_string(), layer_type: LayerType::Signal, user: None },
                Layer { number: 31, name: "B.Cu".to_string(), layer_type: LayerType::Signal, user: None },
                Layer {
                    number: 40,
                    name: "Dwgs.User".to_string(),
                    layer_type: LayerType::User,
                    user: Some("User.Drawings".to_string())
                },
            ]
        }
    );
    assert_eq!(
        to_text(&actual),
        br#"(layers (0 "F.Cu" signal) (31 "B.Cu" signal) (40 "Dwgs.User" user User.Drawings))"#
            .to_vec()
    );
    assert_eq!(from_text::<LayersList>(&to_text(&actual)), Ok(actual));
    assert_eq!(
        from_text::<LayersList>(br#"(layers (0 "F.Cu" signal) (1))"#),
        Err(CodecError::NoMatchingVariant { reasons: vec![ErrorKind::MissingField] })
    );
}

#[test]
fn paper_and_title_block() {
    let paper: Paper = from_text(b"(paper A4)").unwrap();
    assert_eq!(paper, Paper { size: PaperSize::A4, portrait: false });
    let upright: Paper = from_text(b"(paper A3 portrait)").unwrap();
    assert_eq!(upright, Paper { size: PaperSize::A3, portrait: true });
    assert_eq!(to_text(&upright), b"(paper A3 portrait)".to_vec());
    let odd: Paper = from_text(b"(paper Tabloid)").unwrap();
    assert_eq!(odd.size, PaperSize::A4);
    for i in 0..11 {
        assert_eq!(PaperSize::from_index(i).map(|s| s.index()), Some(i));
    }
    assert_eq!(PaperSize::from_index(11), None);
    let block: TitleBlock = from_text(b"(title_block (title Minnow) (rev \"1.0\"))").unwrap();
    assert_eq!(
        block,
        TitleBlock {
            title: Some("Minnow".to_string()),
            date: None,
            revision: Some("1.0".to_string()),
            company: None
        }
    );
    assert_eq!(to_text(&block), b"(title_block (title \"Minnow\") (rev \"1.0\"))".to_vec());
    assert_eq!(to_text(&TitleBlock::default()), b"(title_block)".to_vec());
}

const BOARD: &str = r#"(kicad_pcb (version 20221018) (generator pcbnew)
  (general (thickness 0.89))
  (paper A4)
  (title_block (title Minnow))
  (layers (0 "F.Cu" signal) (31 "B.Cu" signal))
  (net 0 "")
  (net 1 "+3V3")
  (segment (start 1 0) (end 2 0) (width 0.12) (layer "F.Cu") (net 1))
  (fp_curve (pts (xy 1 1) (xy 1 2) (xy 2 2) (xy 2 1)) (width 0.12))
)"#;

fn board() -> PCB {
    PCB {
        version: Version(20221018),
        generator: "pcbnew".to_string(),
        general: General { thickness: mm(890_000), ..Default::default() },
        page: Paper { size: PaperSize::A4, portrait: false },
        title_block: TitleBlock { title: Some("Minnow".to_string()), ..Default::default() },
        pcb_content: vec![
            PCBContent::LayersList(LayersList {
                layers: vec![
                    Layer { number: 0, name: "F.Cu".to_string(), layer_type: LayerType::Signal, user: None },
                    Layer { number: 31, name: "B.Cu".to_string(), layer_type: LayerType::Signal, user: None },
                ],
            }),
            PCBContent::Net(Net { number: 0, name: String::new() }),
            PCBContent::Net(Net { number: 1, name: "+3V3".to_string() }),
            PCBContent::GraphicItem(GraphicItem::Segment(segment())),
            PCBContent::GraphicItem(GraphicItem::Curve(curve())),
        ],
    }
}

#[test]
fn board_decodes() {
    let result = PCB::from_str(BOARD).unwrap();
    assert!(result.version == Version(20221018));
    assert!(result.generator == "pcbnew");
    assert_eq!(result, board());
}

#[test]
fn board_round_trip() {
    let text = board().to_string();
    assert_eq!(
        text,
        concat_lines(&[
            r#"(kicad_pcb (version 20221018) (generator "pcbnew") (general (thickness 0.89)) (paper A4)"#,
            r#" (title_block (title "Minnow")) (layers (0 "F.Cu" signal) (31 "B.Cu" signal)) (net 0 "")"#,
            r#" (net 1 "+3V3") (segment (start 1 0) (end 2 0) (width 0.12) (layer "F.Cu") (net 1)"#,
            r#" (tstamp "00000000-0000-0000-0000-000000000000"))"#,
            r#" (fp_curve (pts (xy 1 1) (xy 1 2) (xy 2 2) (xy 2 1)) (width 0.12)"#,
            r#" (tstamp "00000000-0000-0000-0000-000000000000")))"#,
        ])
    );
    assert_eq!(PCB::from_str(&text), Ok(board()));
}

fn concat_lines(lines: &[&str]) -> String {
    lines.concat()
}

#[test]
fn board_with_unknown_section_fails() {
    let text = r#"(kicad_pcb (version 1) (generator x) (general (thickness 1)) (paper A4) (title_block) (setup))"#;
    assert_eq!(
        PCB::from_str(text),
        Err(CodecError::NoMatchingVariant {
            reasons: vec![
                ErrorKind::TagMismatch,
                ErrorKind::TagMismatch,
                ErrorKind::TagMismatch,
                ErrorKind::TagMismatch
            ]
        })
    );
    let no_version = r#"(kicad_pcb (generator x) (general (thickness 1)) (paper A4) (title_block))"#;
    assert_eq!(PCB::from_str(no_version), Err(CodecError::MissingField));
}

#[test]
fn versions() {
    assert_eq!(Version::new(), Version(20211123));
    assert_eq!(Version::default(), Version(20211123));
    assert_eq!(kicad_codec::symbol_lib::Version::new(), kicad_codec::symbol_lib::Version(20211014));
    assert_eq!(from_text::<Version>(b"(version 20221018)"), Ok(Version(20221018)));
    assert_eq!(to_text(&Version(7)), b"(version 7)".to_vec());
    assert_eq!(from_text::<Version>(b"(version 4294967296)"), Err(CodecError::ScalarDecodeError));
}

#[test]
fn symbol_library_round_trip() {
    let text = "(kicad_symbol_lib (version 20211014) (generator kicad_symbol_editor))";
    let lib = SymbolLib::from_str(text).unwrap();
    assert_eq!(
        lib,
        SymbolLib {
            version: kicad_codec::symbol_lib::Version::new(),
            generator: "kicad_symbol_editor".to_string()
        }
    );
    assert_eq!(
        lib.to_string(),
        "(kicad_symbol_lib (version 20211014) (generator \"kicad_symbol_editor\"))"
    );
    assert_eq!(SymbolLib::from_str(&lib.to_string()), Ok(lib));
    assert_eq!(
        SymbolLib::from_str("(kicad_symbol_lib (version 1) (generator x) (symbol \"R\"))"),
        Err(CodecError::UnknownField)
    );
}

#[test]
fn records_conform_to_their_schemas() {
    assert!(conforms(&segment().to_record(), &Segment::schema()));
    assert!(conforms(&segment().to_record(), &Segment::schema_with(true)));
    assert!(conforms(&curve().to_record(), &Curve::schema()));
    assert!(conforms(&board().to_record(), &PCB::schema()));
    assert!(!conforms(&segment().to_record(), &Curve::schema()));
    assert_eq!(Segment::from_record(&curve().to_record()), None);
    assert_eq!(Segment::from_record(&segment().to_record()), Some(segment()));
    assert_eq!(PCB::from_record(&board().to_record()), Some(board()));
}

#[test]
fn typed_encode_and_decode_meet() {
    let node = encode(&segment());
    assert_eq!(read(SEGMENT.as_bytes()), Ok(node));
    let back: Segment = decode(&encode(&segment())).unwrap();
    assert_eq!(back, segment());
}

#[test]
fn documents_parse_from_strings() {
    let layer: Layer = r#"(0 "F.Cu" signal)"#.parse().unwrap();
    assert_eq!(layer.name, "F.Cu");
    let parsed: Result<Layer, CodecError> = "(0".parse();
    assert_eq!(parsed, Err(CodecError::SyntaxError { offset: 2 }));
    let pcb = BOARD.parse::<PCB>().unwrap();
    assert_eq!(pcb, board());
    assert_eq!("(kicad_pcb)".parse::<PCB>(), Err(CodecError::MissingField));
}

#[test]
fn curve_nil_identifier_is_dropped_on_request() {
    assert_eq!(
        render_node(&curve().encode_with(true)),
        br#"(fp_curve (pts (xy 1 1) (xy 1 2) (xy 2 2) (xy 2 1)) (width 0.12))"#.to_vec()
    );
    assert_eq!(render_node(&curve().encode_with(false)), CURVE.as_bytes().to_vec());
    let back: Curve = decode(&curve().encode_with(true)).unwrap();
    assert_eq!(back, curve());
    let mut named = curve();
    named.tstamp = Identifier { bits: 1 };
    assert_eq!(
        render_node(&named.encode_with(true)),
        br#"(fp_curve (pts (xy 1 1) (xy 1 2) (xy 2 2) (xy 2 1)) (width 0.12) (tstamp "00000000-0000-0000-0000-000000000001"))"#.to_vec()
    );
    assert!(conforms(&curve().to_record(), &Curve::schema_with(true)));
}

#[test]
fn identifiers_of_a_record_are_confirmed() {
    kicad_codec::encoder::confirm_values_read_back(&board().to_record());
    kicad_codec::encoder::confirm_value_reads_back(&kicad_codec::value::Value::Identifier(
        Identifier { bits: 0x936da01f9abd4d9d80c702af85c822a8 },
    ));
    let text = to_text(&board());
    assert_eq!(from_text::<PCB>(&text), Ok(board()));
}
