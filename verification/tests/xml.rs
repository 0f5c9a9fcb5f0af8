use magictile::xml::{escape, XElement, XmlDocument, XSI_NS};

fn string(v: Vec<char>) -> String {
    v.into_iter().collect()
}

#[test]
fn in_order_matching_skips_out_of_order_elements() {
    let doc = XmlDocument::parse("<R><ID>x</ID><DisplayName>d</DisplayName><Slicing/><Junk/></R>").unwrap();
    let root = doc.root_element().unwrap();
    let members = doc.data_contract_members(root, &["DisplayName", "ID", "Slicing"]);
    let names: Vec<_> = members.iter().map(|(i, n)| (*i, doc.name(*n))).collect();
    assert_eq!(names, vec![(1, "ID"), (2, "Slicing")]);
}

#[test]
fn writes_and_escapes() {
    let e = XElement::new("A").attr("v", "1").child(XElement::with_text("B", "x<y & z")).child(XElement::new("C"));
    let s = e.to_pretty_string();
    assert_eq!(s, "<A v=\"1\">\n  <B>x&lt;y &amp; z</B>\n  <C />\n</A>\n");
    let doc = XmlDocument::parse(&s).unwrap();
    let root = doc.root_element().unwrap();
    assert_eq!(string(doc.text(doc.child(root, "B").unwrap())), "x<y & z");
}

#[test]
fn attributes_are_escaped_with_quotes() {
    let e = XElement::new("A").attr("k", "a\"b>c");
    assert_eq!(e.to_pretty_string(), "<A k=\"a&quot;b&gt;c\" />\n");
}

#[test]
fn nil_elements() {
    let e = XElement::new("R").attr("xmlns:i", XSI_NS).child(XElement::nil("N"));
    let s = e.to_pretty_string();
    let doc = XmlDocument::parse(&s).unwrap();
    let root = doc.root_element().unwrap();
    assert!(doc.is_nil(doc.child(root, "N").unwrap()));
    assert!(!doc.is_nil(root));
    let plain = XmlDocument::parse("<N/>").unwrap();
    assert!(!plain.is_nil(plain.root_element().unwrap()));
}

#[test]
fn children_by_name_in_order() {
    let doc = XmlDocument::parse("<R><A>1</A><B>2</B><A>3<C>4</C></A></R>").unwrap();
    let root = doc.root_element().unwrap();
    let kids = doc.children(root, "A");
    assert_eq!(kids.len(), 2);
    assert_eq!(string(doc.text(kids[1])), "34");
    assert_eq!(string(doc.text(root)), "1234");
    assert!(doc.child(root, "Z").is_none());
    assert_eq!(doc.element_children(root).len(), 3);
}

#[test]
fn attribute_lookup() {
    let doc = XmlDocument::parse("<R x=\"1\" xmlns:p=\"urn:p\" p:y=\"2\"/>").unwrap();
    let root = doc.root_element().unwrap();
    assert_eq!(doc.attribute(root, None, "x"), Some("1".to_string()));
    assert_eq!(doc.attribute(root, Some("urn:p"), "y"), Some("2".to_string()));
    assert_eq!(doc.attribute(root, None, "y"), None);
}

#[test]
fn malformed_documents_are_errors() {
    assert!(XmlDocument::parse("<A><B></A>").is_err());
}

#[test]
fn nested_elements_indent() {
    let mut e = XElement::new("A");
    e.push(XElement::new("B").child(XElement::with_text("C", "t")));
    assert_eq!(e.to_pretty_string(), "<A>\n  <B>\n    <C>t</C>\n  </B>\n</A>\n");
}

#[test]
fn escaping() {
    assert_eq!(escape("a<b>&\"c\"", false), "a&lt;b&gt;&amp;\"c\"");
    assert_eq!(escape("a<b>&\"c\"", true), "a&lt;b&gt;&amp;&quot;c&quot;");
}
