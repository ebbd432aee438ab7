use iks::description::{DUPLICATE_ATTRIBUTE, TAG_MISMATCH};
use iks::{Cursor, Document, ParseError};

fn check_doc_xml(doc: &Document, expected: &str) {
    let xml = doc.to_string();
    assert_eq!(xml, expected);
    // Verify that the capacity is measured correctly
    assert_eq!(xml.len(), xml.capacity());
    assert_eq!(doc.str_size(), expected.len());
    let xml2 = doc.to_string();
    assert_eq!(xml2, expected);
}

#[test]
fn document_it_works() {
    let mut doc = Document::new("html").unwrap();
    let p = doc.insert_tag("p").unwrap();
    let b = p.insert_tag(&mut doc, "b").unwrap();
    let blink = b.insert_tag(&mut doc, "blink").unwrap();
    let blink = blink.insert_cdata(&mut doc, "lala").unwrap();
    assert!(!blink.is_null(&doc));

    let first = doc.root().first_child(&doc);
    let foo = first.append_cdata(&mut doc, "foo&").unwrap();
    let p2 = foo.append_tag(&mut doc, "p2").unwrap();

    let bar = p2.prepend_cdata(&mut doc, "bar").unwrap();
    bar.prepend_tag(&mut doc, "p3").unwrap();

    check_doc_xml(
        &doc,
        "<html><p><b><blink>lala</blink></b></p>foo&amp;<p3/>bar<p2/></html>",
    );
}

#[test]
fn attributes() {
    let mut doc = Document::new("doc").unwrap();
    let a = doc.insert_tag("a").unwrap();
    assert!(a.insert_attribute(&mut doc, "i", "1").unwrap().is_tag(&doc));
    assert_eq!(
        a.insert_attribute(&mut doc, "i", "1").unwrap_err(),
        ParseError::BadXml(DUPLICATE_ATTRIBUTE)
    );
    assert!(a.insert_attribute(&mut doc, "j", "2").unwrap().is_tag(&doc));
    assert_eq!(
        a.insert_attribute(&mut doc, "i", "1").unwrap_err(),
        ParseError::BadXml(DUPLICATE_ATTRIBUTE)
    );
    assert_eq!(
        a.insert_attribute(&mut doc, "j", "1").unwrap_err(),
        ParseError::BadXml(DUPLICATE_ATTRIBUTE)
    );
    let b = doc.insert_tag("b").unwrap();
    let b = b.set_attribute(&mut doc, "i", Some("1")).unwrap();
    let _ = b.set_attribute(&mut doc, "i", Some("2")).unwrap();
    check_doc_xml(&doc, "<doc><a i=\"1\" j=\"2\"/><b i=\"2\"/></doc>");

    let first = doc.root().first_child(&doc);
    let _ = first.set_attribute(&mut doc, "k", Some("3"));
    check_doc_xml(&doc, "<doc><a i=\"1\" j=\"2\" k=\"3\"/><b i=\"2\"/></doc>");

    let mut iter = doc.first_child().attributes();
    assert_eq!(iter.next(&doc), Some(("i", "1")));
    assert_eq!(iter.next(&doc), Some(("j", "2")));
    assert_eq!(iter.next(&doc), Some(("k", "3")));
    assert_eq!(iter.next(&doc), None);

    assert_eq!(doc.find_tag("a").attribute(&doc, "i"), Some("1"));
    assert_eq!(doc.find_tag("a").attribute(&doc, "j"), Some("2"));
    assert_eq!(doc.find_tag("a").attribute(&doc, "k"), Some("3"));
    assert_eq!(doc.find_tag("b").attribute(&doc, "i"), Some("2"));

    let a = doc.find_tag("a");
    let _ = a.set_attribute(&mut doc, "i", None);
    let _ = a.set_attribute(&mut doc, "x", None);
    check_doc_xml(&doc, "<doc><a j=\"2\" k=\"3\"/><b i=\"2\"/></doc>");
    let _ = a.set_attribute(&mut doc, "k", None);
    check_doc_xml(&doc, "<doc><a j=\"2\"/><b i=\"2\"/></doc>");
    let _ = a.set_attribute(&mut doc, "j", None);
    check_doc_xml(&doc, "<doc><a/><b i=\"2\"/></doc>");
}

#[test]
fn navigation() {
    let doc = Document::from_str("<a><b>123<c/>456</b>.,;<d/> <e x='1' y='2'> lala<f/></e>789</a>")
        .unwrap();
    let d = &doc;
    assert_eq!(d.root().first_tag(d).first_tag(d).to_string(d), "<c/>");
    assert_eq!(d.root().first_child(d).next(d).to_string(d), ".,;");
    assert_eq!(d.root().first_child(d).next(d).next(d).to_string(d), "<d/>");
    assert_eq!(d.root().first_child(d).next_tag(d).to_string(d), "<d/>");
    assert_eq!(d.root().first_tag(d).last_child(d).cdata(d), "456");
    assert_eq!(d.root().last_child(d).to_string(d), "789");
    assert_eq!(d.root().last_child(d).previous(d).previous(d).to_string(d), " ");
    assert_eq!(
        d.root().last_child(d).previous_tag(d).previous_tag(d).to_string(d),
        "<d/>"
    );
    assert_eq!(d.root().last_child(d).previous(d).first_tag(d).to_string(d), "<f/>");
    assert_eq!(
        d.first_child()
            .first_tag(d)
            .parent(d)
            .next_tag(d)
            .next_tag(d)
            .find_tag(d, "f")
            .root(d)
            .find_tag(d, "e")
            .first_child(d)
            .to_string(d),
        " lala"
    );
    assert_eq!(d.first_tag().first_tag(d).to_string(d), "<c/>");
    assert_eq!(d.find_tag("e").to_string(d), "<e x=\"1\" y=\"2\"> lala<f/></e>");
}

#[test]
fn doc_parser() {
    let doc = Document::from_str("<a><b>123<c/>456</b><d x='1' y='2'>lala</d></a>");
    println!("{}", doc.unwrap().to_string());
}

#[test]
fn serialize_subset() {
    let doc = Document::from_str("<a><b>lala</b><c>bibi</c><d><e>123</e></d></a>").unwrap();
    let d = &doc;
    assert_eq!(d.first_child().to_string(d), "<b>lala</b>");
    assert_eq!(d.find_tag("c").to_string(d), "<c>bibi</c>");
    assert_eq!(d.find_tag("d").to_string(d), "<d><e>123</e></d>");
    assert_eq!(d.find_tag("d").first_child(d).to_string(d), "<e>123</e>");
}

#[test]
fn cursor_clone() {
    let doc = Document::from_str("<a><b>lala</b><c>bibi</c><d><e>123</e></d></a>").unwrap();
    let d = &doc;

    let c4: Cursor;
    {
        let c1 = d.root();
        c4 = c1.clone();
        let c2 = c1.clone().find_tag(d, "d").first_child(d);
        assert_eq!(c2.first_child(d).to_string(d), "123");
        let c3 = c1.find_tag(d, "b").first_child(d);
        assert_eq!(c3.to_string(d), "lala");
    }
    assert_eq!(c4.find_tag(d, "c").first_child(d).to_string(d), "bibi");
}

#[test]
fn removals() {
    let mut doc = Document::from_str("<a>123<b/>456<c/><d><e/></d>789<f/></a>").unwrap();

    doc.find_tag("d").remove(&mut doc);
    assert_eq!(doc.to_string(), "<a>123<b/>456<c/>789<f/></a>");

    doc.find_tag("f").remove(&mut doc);
    assert_eq!(doc.to_string(), "<a>123<b/>456<c/>789</a>");

    doc.first_child().remove(&mut doc);
    assert_eq!(doc.to_string(), "<a><b/>456<c/>789</a>");

    doc.root().last_child(&doc).remove(&mut doc);
    assert_eq!(doc.to_string(), "<a><b/>456<c/></a>");

    let mut children = doc.root().children(&doc);
    while let Some(child) = children.next(&doc) {
        child.remove(&mut doc);
    }
    assert_eq!(doc.to_string(), "<a/>");
}

#[test]
fn iterators() {
    let doc = Document::from_str("<a>lala<b><c>bibi</c><d><e>123</e></d>456</b>foo</a>").unwrap();
    let d = &doc;

    let mut iter = d.find_tag("b").descendant_or_self(d);
    assert_eq!(iter.next().unwrap().name(d), "b");
    assert_eq!(iter.next().unwrap().name(d), "c");
    assert_eq!(iter.next().unwrap().cdata(d), "bibi");
    assert_eq!(iter.next().unwrap().name(d), "d");
    assert_eq!(iter.next().unwrap().name(d), "e");
    assert_eq!(iter.next().unwrap().cdata(d), "123");
    assert_eq!(iter.next().unwrap().cdata(d), "456");
    assert!(iter.next().is_none());

    let mut iter = d.find_tag("b").children(d);
    assert_eq!(iter.next(d).unwrap().name(d), "c");
    assert_eq!(iter.next(d).unwrap().name(d), "d");
    assert_eq!(iter.next(d).unwrap().cdata(d), "456");
    assert!(iter.next(d).is_none());

    let doc = Document::from_str("<a>lala<b/>123<c>101</c>456<d/>abc<e><f/></e></a>").unwrap();
    let d = &doc;
    let mut iter = d.find_tag("d").following_sibling();
    assert_eq!(iter.next(d).unwrap().cdata(d), "abc");
    assert_eq!(iter.next(d).unwrap().name(d), "e");
    assert!(iter.next(d).is_none());

    let doc = Document::from_str("<a>lala<b/>123<c>101</c>456<d/>abc<e><f/></e></a>").unwrap();
    let d = &doc;
    let mut iter = d.find_tag("d").preceding_sibling();
    assert_eq!(iter.next(d).unwrap().cdata(d), "456");
    assert_eq!(iter.next(d).unwrap().name(d), "c");
    assert_eq!(iter.next(d).unwrap().cdata(d), "123");
    assert_eq!(iter.next(d).unwrap().name(d), "b");
    assert_eq!(iter.next(d).unwrap().cdata(d), "lala");
    assert!(iter.next(d).is_none());
}

#[test]
fn null_checks() {
    let mut doc = Document::new("a").unwrap();
    let d = &doc;

    // property
    assert_eq!(d.root().next(d).is_null(d), true);
    assert_eq!(d.root().next(d).is_tag(d), false);
    assert_eq!(d.root().next(d).name(d), "");
    assert_eq!(d.root().next(d).attribute(d, "lala"), None);
    assert_eq!(d.root().next(d).cdata(d), "");
    assert_eq!(d.root().next(d).str_size(d), 0);
    assert_eq!(d.root().next(d).clone().is_null(d), true);
    // navigation
    assert!(d.root().next(d).next(d).is_null(d));
    assert!(d.root().next(d).next_tag(d).is_null(d));
    assert!(d.root().next(d).previous(d).is_null(d));
    assert!(d.root().next(d).previous_tag(d).is_null(d));
    assert!(d.root().next(d).first_child(d).is_null(d));
    assert!(d.root().next(d).last_child(d).is_null(d));
    assert!(d.root().next(d).first_tag(d).is_null(d));
    assert!(d.root().next(d).parent(d).is_null(d));
    assert!(d.root().next(d).root(d).is_null(d));
    assert!(d.root().next(d).find_tag(d, "lala").is_null(d));
    // iterators
    assert!(d.root().next(d).children(d).next(d).is_none());
    assert!(d.root().next(d).descendant_or_self(d).next().is_none());
    assert!(d.root().next(d).following_sibling().next(d).is_none());
    assert!(d.root().next(d).attributes().next(d).is_none());
    // edits
    let null = doc.root().next(&doc);
    assert!(null.insert_tag(&mut doc, "k").is_err());
    assert!(null.append_tag(&mut doc, "k").is_err());
    assert!(null.prepend_tag(&mut doc, "k").is_err());
    assert!(null.insert_attribute(&mut doc, "k", "v").is_err());
    assert!(null.set_attribute(&mut doc, "k", None).is_err());
    assert!(null.insert_cdata(&mut doc, "k").is_err());
    assert!(null.append_cdata(&mut doc, "k").is_err());
    assert!(null.prepend_cdata(&mut doc, "k").is_err());
    null.remove(&mut doc);
    assert_eq!(doc.to_string(), "<a/>");
}

#[test]
fn bad_doc_parser() {
    assert_eq!(
        Document::from_str("<a>lala</b>").err(),
        Some(ParseError::BadXml(TAG_MISMATCH))
    );
    assert_eq!(
        Document::from_str("<a><b><c/></d></a>").err(),
        Some(ParseError::BadXml(TAG_MISMATCH))
    );
    assert_eq!(
        Document::from_str("<a><b><c/></b><d></d><e></e2></a>").err(),
        Some(ParseError::BadXml(TAG_MISMATCH))
    );
    assert_eq!(
        Document::from_str("<a><b x=\"1\" y=\"2\" x=\"abc\"/></a>").err(),
        Some(ParseError::BadXml(DUPLICATE_ATTRIBUTE))
    );
}

#[test]
fn numbering_descendants() {
    let mut doc = Document::from_str("<doc><a>123</a><b><a>456</a><a>789</a></b></doc>").unwrap();
    let mut walk = doc.root().descendant_or_self(&doc);
    let mut found = Vec::new();
    while let Some(c) = walk.next() {
        if c.name(&doc) == "a" {
            found.push(c);
        }
    }
    for (index, c) in found.iter().enumerate() {
        c.set_attribute(&mut doc, "nr", Some(&index.to_string())).unwrap();
    }
    assert_eq!(found.len(), 3);
    assert_eq!(
        doc.to_string(),
        "<doc><a nr=\"0\">123</a><b><a nr=\"1\">456</a><a nr=\"2\">789</a></b></doc>"
    );
}

#[test]
fn find_tag_passes_over_character_data() {
    let doc = Document::from_str("<a>x<b/></a>").unwrap();
    assert!(doc.find_tag("").is_null(&doc));
    assert!(doc.root().find_tag(&doc, "").is_null(&doc));
    assert_eq!(doc.find_tag("b").name(&doc), "b");
}

#[test]
fn attribute_removal_needs_no_memory() {
    let mut doc = Document::new("doc").unwrap();
    let a = doc.insert_tag("a").unwrap();
    a.insert_attribute(&mut doc, "i", "1").unwrap();
    a.insert_attribute(&mut doc, "j", "2").unwrap();
    assert!(a.set_attribute(&mut doc, "i", None).is_ok());
    assert!(a.set_attribute(&mut doc, "x", None).is_ok());
    check_doc_xml(&doc, r#"<doc><a j="2"/></doc>"#);
}
