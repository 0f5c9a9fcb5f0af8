use magictile::config::{
    enum_name, read_enum,
    load_int_array, read_identifications, save_int_array, write_identifications, Identification, IrpConfig,
    Polytope, Skew4DConfig, Surface, TogglingMode, VERSION_CURRENT, VERSION_PREVIEW,
};
use magictile::xml::{XElement, XmlDocument, XSI_NS};

fn chars(s: &str) -> Vec<char> {
    s.chars().collect()
}

#[test]
fn int_arrays() {
    assert_eq!(load_int_array(&chars("1:-2::x:30")), vec![1, -2, 30]);
    assert_eq!(load_int_array(&chars("")), Vec::<i32>::new());
    assert_eq!(save_int_array(&[1, -2, 30]), "1:-2:30");
    assert_eq!(save_int_array(&[]), "");
    let v = vec![0, i32::MIN, i32::MAX, 7];
    assert_eq!(load_int_array(&chars(&save_int_array(&v))), v);
}

#[test]
fn identification_round_trips() {
    let mut id = Identification::new(&[1, 2, 3], 2, true);
    id.initial_edges = vec![0];
    id.in_place_reflection = true;
    assert_eq!(id.edges, vec![1, 2, 3]);
    let e = write_identifications(&[id.clone(), Identification::new(&[], -1, false)]);
    assert_eq!(e.children.len(), 2);
    assert_eq!(e.children[0].children[0].text.as_deref(), Some("1:2:3"));
    let doc = XmlDocument::parse(&e.to_pretty_string()).unwrap();
    let ids = read_identifications(&doc, doc.root_element().unwrap());
    assert_eq!(ids.len(), 2);
    assert_eq!(ids[0], id);
    assert_eq!(ids[1].end_rotation, -1);
    assert!(ids[1].edges.is_empty());
}

#[test]
fn identification_reads_in_member_order() {
    let doc = XmlDocument::parse(
        "<Identification><EndRotation>3</EndRotation><EdgeSet>4:5</EdgeSet><UseMirroredEdgeSet>true</UseMirroredEdgeSet></Identification>",
    )
    .unwrap();
    let id = Identification::read(&doc, doc.root_element().unwrap());
    // EdgeSet comes before EndRotation in serialization order, so it is skipped here.
    assert_eq!(id.end_rotation, 3);
    assert!(id.edges.is_empty());
    assert!(id.use_mirrored_edge_set);
}

#[test]
fn irp_config_round_trips() {
    let c = IrpConfig { data_file: Some("x.irp".into()), first_tile: 4, reflect: true, rotate: -2 };
    let doc = XmlDocument::parse(&c.write().to_pretty_string()).unwrap();
    assert_eq!(IrpConfig::read(&doc, doc.root_element().unwrap()), c);

    let none = IrpConfig::default();
    let e = XElement::new("R").attr("xmlns:i", XSI_NS).child(none.write());
    let doc = XmlDocument::parse(&e.to_pretty_string()).unwrap();
    let irp = doc.child(doc.root_element().unwrap(), "IRPConfig").unwrap();
    assert_eq!(IrpConfig::read(&doc, irp), none);
}

#[test]
fn named_enums() {
    assert_eq!(Surface::CliffordTorus.name(), "CliffordTorus");
    assert_eq!(Surface::from_name(&chars(" Boys ")), Some(Surface::Boys));
    assert_eq!(Surface::from_name(&chars("None")), Some(Surface::NoSurface));
    assert_eq!(Surface::from_name(&chars("Torus")), None);
    assert_eq!(Surface::default(), Surface::NoSurface);
    assert_eq!(Polytope::from_name(&chars("Runcinated5Cell")), Some(Polytope::Runcinated5Cell));
    assert_eq!(Polytope::from_name(&chars("?")), None);
    assert_ne!(TogglingMode::NeighborsOnly, TogglingMode::NeighborsAndSelf);
}

#[test]
fn skew_config_round_trips() {
    let c = Skew4DConfig { polytope: Polytope::Bitruncated5Cell };
    let doc = XmlDocument::parse(&c.write().to_pretty_string()).unwrap();
    assert_eq!(Skew4DConfig::read(&doc, doc.root_element().unwrap()), c);
    let bad = XmlDocument::parse("<Skew4DConfig><Polytope>Cube</Polytope></Skew4DConfig>").unwrap();
    assert_eq!(Skew4DConfig::read(&bad, bad.root_element().unwrap()).polytope, Polytope::Duoprism);
}

#[test]
fn versions() {
    assert_eq!(VERSION_PREVIEW, "2.0");
    assert_eq!(VERSION_CURRENT, "2.1");
}

#[test]
fn enum_tables() {
    let names = [("Duoprism", Polytope::Duoprism), ("Runcinated5Cell", Polytope::Runcinated5Cell)];
    assert_eq!(enum_name(Polytope::Runcinated5Cell, &names), "Runcinated5Cell");
    assert_eq!(enum_name(Polytope::Bitruncated5Cell, &names), "");
    assert_eq!(read_enum(&chars(" Duoprism\n"), &names), Some(Polytope::Duoprism));
    assert_eq!(read_enum(&chars("Cube"), &names), None);
}
