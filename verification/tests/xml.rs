use swarm::xml::{parse_document, sanitize, ImportError, XmlKind};

fn text(chars: Vec<char>) -> String {
    chars.into_iter().collect()
}

#[test]
fn a_declaration_after_a_comment_is_removed() {
    let cleaned = text(sanitize("<!-- license --><?xml version=\"1.0\"?><OpenDRIVE/>"));
    assert_eq!(cleaned, "<!-- license --><OpenDRIVE/>");
    assert!(parse_document("<!-- license --><?xml version=\"1.0\"?><OpenDRIVE/>").is_ok());
}

#[test]
fn byte_order_marks_are_stripped() {
    assert_eq!(text(sanitize("\u{feff}\u{feff}<a/>")), "<a/>");
    assert_eq!(text(sanitize("\u{feff}<?xml version=\"1.0\"?><a/>")), "<a/>");
}

#[test]
fn text_without_a_complete_declaration_is_kept() {
    assert_eq!(text(sanitize("<a/>")), "<a/>");
    assert_eq!(text(sanitize("<?xml version=\"1.0\"")), "<?xml version=\"1.0\"");
    assert_eq!(text(sanitize("")), "");
}

#[test]
fn only_the_first_declaration_is_removed() {
    assert_eq!(text(sanitize("a<?xml x?>b<?xml y?>c")), "ab<?xml y?>c");
}

#[test]
fn malformed_xml_is_an_error() {
    for junk in ["", "not xml at all", "<OpenDRIVE>", "<a></b>"] {
        assert!(
            matches!(parse_document(junk), Err(ImportError::Xml(_))),
            "expected an XML error for {junk:?}"
        );
    }
}

#[test]
fn the_tree_answers_children_and_attributes() {
    let tree = parse_document(r#"<r x="1"><c n="a"/>text<d/><c n="b"><c n="nested"/></c></r>"#)
        .expect("parse");
    let root = tree.root_element().expect("root element");
    assert_eq!(tree.tag(root), "r");
    assert_eq!(tree.attribute(root, "x").map(|s| s.as_str()), Some("1"));
    assert!(tree.attribute(root, "y").is_none());
    let cs = tree.children_named(root, "c");
    assert_eq!(cs.len(), 2, "a grandchild is not a child");
    assert_eq!(tree.attribute(cs[0], "n").map(|s| s.as_str()), Some("a"));
    assert_eq!(tree.attribute(cs[1], "n").map(|s| s.as_str()), Some("b"));
    assert_eq!(tree.child(root, "c"), Some(cs[0]));
    assert_eq!(tree.child(root, "e"), None);
    assert!(tree.len() >= 6);
}

#[test]
fn nodes_come_in_document_order_with_their_parents() {
    let tree = parse_document("<r><a/></r>").expect("parse");
    let root = tree.root_element().unwrap();
    let a = tree.child(root, "a").unwrap();
    assert!(root < a);
    let _ = XmlKind::Element;
}
