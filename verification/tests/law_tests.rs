use iks::lint::Handler;
use iks::{
    Document, DocumentParser, Jid, ParseError, SaxElement, SaxParser, StreamError, XPath,
    XPathValue, XmppClientProtocol, escape,
};

#[test]
fn siblings_are_inverse() {
    let doc = Document::from_str("<a><b/>text<c/><d/></a>").unwrap();
    let b = doc.root().first_child(&doc);
    let t = b.next(&doc);
    let c = t.next(&doc);
    assert_eq!(t.previous(&doc).name(&doc), "b");
    assert_eq!(c.previous(&doc).cdata(&doc), "text");
    assert_eq!(c.next(&doc).previous(&doc).name(&doc), "c");
    assert!(b.previous(&doc).is_null(&doc));
    assert!(doc.root().last_child(&doc).next(&doc).is_null(&doc));
    assert_eq!(doc.root().last_child(&doc).parent(&doc).name(&doc), "a");
}

#[test]
fn attribute_set_then_get() {
    let mut doc = Document::new("a").unwrap();
    let root = doc.root();
    root.set_attribute(&mut doc, "x", Some("1")).unwrap();
    root.set_attribute(&mut doc, "y", Some("2")).unwrap();
    assert_eq!(root.attribute(&doc, "x"), Some("1"));
    root.set_attribute(&mut doc, "x", Some("3")).unwrap();
    assert_eq!(root.attribute(&doc, "x"), Some("3"));
    assert_eq!(root.attribute(&doc, "y"), Some("2"));
    root.set_attribute(&mut doc, "x", None).unwrap();
    assert_eq!(root.attribute(&doc, "x"), None);
    assert_eq!(root.attribute(&doc, "y"), Some("2"));
    assert_eq!(doc.to_string(), "<a y=\"2\"/>");
}

#[test]
fn insertion_places() {
    let mut doc = Document::new("a").unwrap();
    let root = doc.root();
    let b = root.insert_tag(&mut doc, "b").unwrap();
    let c = root.insert_tag(&mut doc, "c").unwrap();
    assert_eq!(root.last_child(&doc).name(&doc), "c");
    assert!(c.next(&doc).is_null(&doc));
    let x = b.append_tag(&mut doc, "x").unwrap();
    assert_eq!(b.next(&doc).name(&doc), "x");
    assert_eq!(x.previous(&doc).name(&doc), "b");
    let y = b.prepend_tag(&mut doc, "y").unwrap();
    assert_eq!(b.previous(&doc).name(&doc), "y");
    assert_eq!(y.next(&doc).name(&doc), "b");
    assert_eq!(doc.to_string(), "<a><y/><b/><x/><c/></a>");
    x.remove(&mut doc);
    assert!(x.parent(&doc).is_null(&doc));
    assert_eq!(doc.to_string(), "<a><y/><b/><c/></a>");
}

#[test]
fn escaped_text_has_no_markup() {
    let mut out = String::new();
    escape("a<b>'c'\"&", &mut out);
    assert_eq!(out, "a&lt;b&gt;&apos;c&apos;&quot;&amp;");
    assert!(!out.contains('<') && !out.contains('>') && !out.contains('\'') && !out.contains('"'));
    let mut plain = String::new();
    escape("plain text", &mut plain);
    assert_eq!(plain, "plain text");
}

#[test]
fn jid_full_roundtrip() {
    for s in ["a@b.com/r", "b.com", "a@b.com.", "x@y@z/q/w"] {
        let j = Jid::new(s).unwrap();
        let again = Jid::new(j.full()).unwrap();
        assert_eq!(again, j);
    }
    // a domain written with two trailing dots loses one more on the way
    let j = Jid::new("a@b..").unwrap();
    assert_eq!(j.domainpart(), "b.");
    assert_eq!(Jid::new(j.full()).unwrap().domainpart(), "b");
}

#[test]
fn path_results_pass_last_test() {
    let doc = Document::from_str("<a><b><c/><d/></b><b><c/></b></a>").unwrap();
    let path = XPath::new("/a/b/c").unwrap();
    let result = path.apply(&doc).unwrap();
    assert_eq!(result.items.len(), 2);
    for item in result.items.iter() {
        match item {
            XPathValue::Node(c) => assert_eq!(c.name(&doc), "c"),
        }
    }
}

#[test]
fn errored_protocol_stays_errored() {
    let jid = Jid::new("juliet@example.com/balcony").unwrap();
    let mut p = XmppClientProtocol::new(jid, "pw".to_string());
    p.send_bytes();
    assert!(p.receive_bytes(b"<bogus/>").is_err());
    for input in [&b"<stream:stream>"[..], b"<message/>", b""] {
        match p.receive_bytes(input) {
            Err(StreamError::BadStream(msg)) => assert_eq!(msg, "already errored"),
            _ => panic!("expected the error"),
        }
    }
}

#[test]
fn location_counts_bytes() {
    let text = "<a>\n<b/>\n</a>";
    let mut whole = SaxParser::new();
    {
        let mut elements = whole.elements(text.as_bytes());
        while let Some(r) = elements.next() {
            r.unwrap();
        }
    }
    assert_eq!(whole.location().bytes, text.len());
    assert_eq!(whole.location().lines, 2);
    let mut parser = DocumentParser::new();
    for i in 0..text.len() {
        parser.parse_bytes(&text.as_bytes()[i..i + 1]).unwrap();
    }
    assert_eq!(parser.location().bytes, text.len());
    assert_eq!(parser.location().lines, 2);
    assert_eq!(parser.into_document().unwrap().to_string(), "<a>\n<b/>\n</a>");
}

#[test]
fn lint_counts_and_checks() {
    let mut h = Handler::new(true, true);
    let events = vec![
        SaxElement::StartTag("a".to_string()),
        SaxElement::StartTagContent,
        SaxElement::StartTag("b".to_string()),
        SaxElement::Attribute("x".to_string(), "1".to_string()),
        SaxElement::StartTagEmpty,
        SaxElement::CData("héllo".to_string()),
        SaxElement::StartTag("b".to_string()),
        SaxElement::StartTagEmpty,
        SaxElement::EndTag("a".to_string()),
    ];
    for e in events.iter() {
        h.process_element(e).unwrap();
    }
    assert_eq!(h.nr_tags, 3);
    assert_eq!(h.nr_empty_tags, 2);
    // an empty element tag leaves the level as it is
    assert_eq!(h.max_depth, 3);
    assert_eq!(h.nr_cdata_size, 6);
    assert_eq!(h.level, 2);
    assert_eq!(h.tag_counts, vec![("a".to_string(), 1), ("b".to_string(), 2)]);
    h.process_element(&SaxElement::StartTag("c".to_string())).unwrap();
    h.process_element(&SaxElement::Attribute("y".to_string(), "1".to_string())).unwrap();
    assert_eq!(
        h.process_element(&SaxElement::Attribute("y".to_string(), "2".to_string())),
        Err(ParseError::BadXml("duplicate attribute"))
    );
    assert_eq!(h.error.as_deref(), Some("duplicate attribute: 'y'"));
    assert_eq!(
        h.process_element(&SaxElement::EndTag("d".to_string())),
        Err(ParseError::BadXml("end tag mismatch"))
    );
    assert_eq!(h.error.as_deref(), Some("end tag mismatch: expected 'c', got 'd'"));
    h.clear();
    assert_eq!(h.nr_tags, 0);
    assert!(h.tag_counts.is_empty());
}

fn parse_in_two(text: &str, cut: usize) -> String {
    let mut parser = DocumentParser::new();
    parser.parse_bytes(&text.as_bytes()[..cut]).unwrap();
    parser.parse_bytes(&text.as_bytes()[cut..]).unwrap();
    parser.into_document().unwrap().to_string()
}

#[test]
fn blocks_build_the_same_document() {
    let text = "<a x='1'>ab&amp;cd<![CDATA[<x>]]>e<b>f&#x41;</b>g</a>";
    let whole = Document::from_str(text).unwrap().to_string();
    assert_eq!(whole, "<a x=\"1\">ab&amp;cd&lt;x&gt;e<b>fA</b>g</a>");
    for cut in 0..=text.len() {
        assert_eq!(parse_in_two(text, cut), whole);
    }
}

fn sax_text(parser: &mut SaxParser, bytes: &[u8], out: &mut Vec<String>) {
    let mut elements = parser.elements(bytes);
    while let Some(r) = elements.next() {
        match r.unwrap() {
            SaxElement::CData(s) => {
                // character data may come in pieces; join them
                if let Some(last) = out.last_mut() {
                    if let Some(rest) = last.strip_prefix("text:") {
                        let joined = format!("text:{rest}{s}");
                        *last = joined;
                        continue;
                    }
                }
                out.push(format!("text:{s}"));
            }
            SaxElement::StartTag(n) => out.push(format!("start:{n}")),
            SaxElement::EndTag(n) => out.push(format!("end:{n}")),
            SaxElement::Attribute(n, v) => out.push(format!("attr:{n}={v}")),
            SaxElement::StartTagContent => out.push("content".to_string()),
            SaxElement::StartTagEmpty => out.push("empty".to_string()),
        }
    }
}

#[test]
fn blocks_give_the_same_elements() {
    let text = "<a>one &lt; two<b/>three</a>";
    let mut whole = Vec::new();
    let mut p = SaxParser::new();
    sax_text(&mut p, text.as_bytes(), &mut whole);
    let whole_location = p.location();
    for cut in 0..=text.len() {
        let mut parts = Vec::new();
        let mut q = SaxParser::new();
        sax_text(&mut q, &text.as_bytes()[..cut], &mut parts);
        sax_text(&mut q, &text.as_bytes()[cut..], &mut parts);
        assert_eq!(parts, whole);
        assert_eq!(q.location(), whole_location);
    }
}

#[test]
fn parser_reuses_document_memory() {
    let mut parser = DocumentParser::new();
    parser.parse_bytes(b"<a><b>text</b></a>").unwrap();
    let first = parser.take_document().unwrap();
    assert_eq!(first.to_string(), "<a><b>text</b></a>");
    parser.reuse_document_memory(first);
    let again = parser.take_document().unwrap();
    assert_eq!(again.to_string(), "<a><b>text</b></a>");
}
