use kicad_codec::board::pcb::{Layer, LayerType};

#[test]
fn test_tuple_layer_sexpr() {
    let input = r#"(0 "F.Cu" signal)"#;
    let expected = Layer { number: 0, name: "F.Cu".to_string(), layer_type: LayerType::Signal, user: None };
    let actual = Layer::from_str(input).unwrap();
    assert_eq!(actual, expected);

    assert_eq!(actual.to_string(), input);
}

#[test]
fn layer_with_user_name() {
    let input = r#"(40 "Dwgs.User" user "User.Drawings")"#;
    let actual = Layer::from_str(input).unwrap();
    assert_eq!(actual.number, 40);
    assert_eq!(actual.name, "Dwgs.User");
    assert_eq!(actual.layer_type, LayerType::User);
    assert_eq!(actual.user, Some("User.Drawings".to_string()));
    assert_eq!(actual.to_string(), r#"(40 "Dwgs.User" user User.Drawings)"#);
    assert_eq!(Layer::from_str(&actual.to_string()), Ok(actual));
    let spaced = Layer {
        number: 41,
        name: "Cmts.User".to_string(),
        layer_type: LayerType::User,
        user: Some("User Comments".to_string()),
    };
    assert_eq!(spaced.to_string(), r#"(41 "Cmts.User" user "User Comments")"#);
    assert_eq!(Layer::from_str(&spaced.to_string()), Ok(spaced));
}

#[test]
fn test_deserialize_kicad_pcb_file() {
    let mut contents = String::from(
        "\n(kicad_pcb (version 20221018) (generator pcbnew)\n\n  (general\n    (thickness 1.6)\n  )\n\n  (paper \"A4\")\n  (title_block\n    (title \"Minnow\")\n  )\n\n  (layers\n    (0 \"F.Cu\" signal)\n    (31 \"B.Cu\" signal)\n    (44 \"Edge.Cuts\" user)\n  )\n\n  (net 0 \"\")\n  (net 1 \"GND\")\n)\n",
    );
    contents = contents.trim().to_string();

    let result = kicad_codec::board::pcb::PCB::from_str(&contents).unwrap();

    assert!(result.version == kicad_codec::board::pcb::Version(20221018));
    assert!(result.generator == "pcbnew");
}
