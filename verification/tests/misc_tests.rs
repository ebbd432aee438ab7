use iks::description::{
    DOMAIN_EMPTY, DOMAIN_TOO_LONG, LOCAL_EMPTY, NO_DOCUMENT, NO_START_TAG, RESOURCE_EMPTY,
    RESOURCE_TOO_LONG,
};
use iks::{
    BadJid, Document, DocumentBuilder, DocumentParser, Jid, ParseError, SaxElement, XPath,
    XPathValue, escape, escaped_size, need_port,
};

const NOESCAPE: &str = "abc$#@!%^*(){}[]=-+/.,;:FDSF3443";
const MID_CHAR: &str = "abc&def";
const MID_CHAR_ESC: &str = "abc&amp;def";
const ALL: &str = "<>&'\"";
const ALL_ESC: &str = "&lt;&gt;&amp;&apos;&quot;";

#[test]
fn escaped_size_correct() {
    assert_eq!(escaped_size(NOESCAPE), NOESCAPE.len());
    assert_eq!(escaped_size(MID_CHAR), MID_CHAR_ESC.len());
    assert_eq!(escaped_size(ALL), ALL_ESC.len());
}

fn check_escape(input: &str, expected: &str) {
    let mut s = String::new();
    escape(input, &mut s);
    assert_eq!(s, expected);
}

#[test]
fn escape_correct() {
    check_escape(NOESCAPE, NOESCAPE);
    check_escape(MID_CHAR, MID_CHAR_ESC);
    check_escape(ALL, ALL_ESC);
}

#[test]
fn escaped_size_counts_bytes() {
    let mut s = String::new();
    escape("é<ü", &mut s);
    assert_eq!(s, "é&lt;ü");
    assert_eq!(escaped_size("é<ü"), s.len());
    assert_eq!(escaped_size(""), 0);
}

fn check_jid(
    jid: Jid,
    full: &str,
    bare: &str,
    local: Option<&str>,
    domain: &str,
    resource: Option<&str>,
) {
    assert_eq!(jid.full(), full);
    assert_eq!(jid.bare(), bare);
    assert_eq!(jid.localpart(), local);
    assert_eq!(jid.domainpart(), domain);
    assert_eq!(jid.resourcepart(), resource);
}

#[test]
fn good_jids() {
    check_jid(
        Jid::new("juliet@example.com").unwrap(),
        "juliet@example.com",
        "juliet@example.com",
        Some("juliet"),
        "example.com",
        None,
    );
    check_jid(
        Jid::new("juliet@example.com/foo").unwrap(),
        "juliet@example.com/foo",
        "juliet@example.com",
        Some("juliet"),
        "example.com",
        Some("foo"),
    );
    check_jid(
        Jid::new("juliet@example.com/foo@bar").unwrap(),
        "juliet@example.com/foo@bar",
        "juliet@example.com",
        Some("juliet"),
        "example.com",
        Some("foo@bar"),
    );
    check_jid(
        Jid::new("example.com").unwrap(),
        "example.com",
        "example.com",
        None,
        "example.com",
        None,
    );
    check_jid(
        Jid::new("example.com/foobar").unwrap(),
        "example.com/foobar",
        "example.com",
        None,
        "example.com",
        Some("foobar"),
    );
    check_jid(
        Jid::new("a.example.com/b@example.net").unwrap(),
        "a.example.com/b@example.net",
        "a.example.com",
        None,
        "a.example.com",
        Some("b@example.net"),
    );
}

#[test]
fn resource_change() {
    let jid = Jid::new("juliet@example.com/balcony").unwrap();
    check_jid(
        jid.with_resource("orchard").unwrap(),
        "juliet@example.com/orchard",
        "juliet@example.com",
        Some("juliet"),
        "example.com",
        Some("orchard"),
    );

    let jid = Jid::new("juliet@example.com").unwrap();
    check_jid(
        jid.with_resource("street").unwrap(),
        "juliet@example.com/street",
        "juliet@example.com",
        Some("juliet"),
        "example.com",
        Some("street"),
    );
}

#[test]
fn bad_jids() {
    assert_eq!(Jid::new(""), Err(BadJid(DOMAIN_EMPTY)));
    assert_eq!(Jid::new("/resource"), Err(BadJid(DOMAIN_EMPTY)));
    assert_eq!(Jid::new("local@/resource"), Err(BadJid(DOMAIN_EMPTY)));
    assert_eq!(Jid::new("local@"), Err(BadJid(DOMAIN_EMPTY)));

    assert_eq!(Jid::new("@example.com"), Err(BadJid(LOCAL_EMPTY)));

    assert_eq!(Jid::new("example.com/"), Err(BadJid(RESOURCE_EMPTY)));
}

#[test]
fn jid_limits_and_dot() {
    let long = "a".repeat(1024);
    assert_eq!(Jid::new(&long), Err(BadJid(DOMAIN_TOO_LONG)));
    assert!(Jid::new(&"a".repeat(1023)).is_ok());
    let jid = Jid::new("example.com.").unwrap();
    assert_eq!(jid.domainpart(), "example.com");
    assert!(jid.is_bare());
    let jid = Jid::new("juliet@example.com").unwrap();
    assert_eq!(jid.clone().with_resource(""), Err(BadJid(RESOURCE_EMPTY)));
    assert_eq!(jid.with_resource(&long), Err(BadJid(RESOURCE_TOO_LONG)));
}

#[test]
fn host_port_checking() {
    assert!(need_port("example.com"));
    assert!(!need_port("example.com:5222"));
    assert!(need_port("[::1]"));
    assert!(!need_port("[::1]:5222"));
}

fn check_path(document: &Document, expression: &str, expected: &[&str]) {
    let p1 = XPath::new(expression).unwrap();
    let sequence = p1.apply(document).unwrap();
    assert_eq!(sequence.items.len(), expected.len());
    for (i, node) in sequence.items.iter().enumerate() {
        let result = match node {
            XPathValue::Node(cursor) => cursor.to_string(document),
        };
        assert_eq!(result, expected[i]);
    }
}

#[test]
fn simple_steps() {
    let doc = Document::from_str("<a><b><c/></b><d><e>123</e><f>456<b/>789</f><b>abc</b></d></a>")
        .unwrap();

    check_path(
        &doc,
        "/*",
        &["<a><b><c/></b><d><e>123</e><f>456<b/>789</f><b>abc</b></d></a>"],
    );

    check_path(
        &doc,
        "/a",
        &["<a><b><c/></b><d><e>123</e><f>456<b/>789</f><b>abc</b></d></a>"],
    );

    check_path(&doc, "/a/b", &["<b><c/></b>"]);

    check_path(
        &doc,
        "/a/d/*",
        &["<e>123</e>", "<f>456<b/>789</f>", "<b>abc</b>"],
    );

    // `//b` selects every `b` element, in document order. No element of
    // this document is written `<f>456</f>`: its `f` holds `456<b/>789`.
    check_path(&doc, "//b", &["<b><c/></b>", "<b/>", "<b>abc</b>"]);
    let all = XPath::new("//*").unwrap().apply(&doc).unwrap();
    for node in all.items.iter() {
        let XPathValue::Node(cursor) = node;
        assert_ne!(cursor.to_string(&doc), "<f>456</f>");
    }
}

#[test]
fn descendant_and_sibling_steps() {
    let doc = Document::from_str("<a><b><c/></b><d><e>123</e><f>456<b/>789</f><b>abc</b></d></a>")
        .unwrap();
    check_path(&doc, "/a/d/e/following-sibling::b", &["<b>abc</b>"]);
    check_path(&doc, "/a/d/b/preceding-sibling::*", &["<f>456<b/>789</f>", "<e>123</e>"]);
    check_path(&doc, "/a/x", &[]);
    assert!(XPath::new("/a/bogus::b").is_err());
    assert!(XPath::new("/a/child:b").is_err());
    let seq = XPath::new("/a/b").unwrap().apply(&doc).unwrap();
    assert_eq!(seq.to_string(&doc), "<b><c/></b>\n");
}

#[test]
fn builder_and_parser() {
    let mut builder = DocumentBuilder::new();
    assert_eq!(
        builder.append_element(&SaxElement::CData("x".to_string())),
        Err(ParseError::BadXml(NO_START_TAG))
    );
    builder.append_element(&SaxElement::StartTag("a".to_string())).unwrap();
    builder.append_element(&SaxElement::Attribute("k".to_string(), "v".to_string())).unwrap();
    builder.append_element(&SaxElement::StartTagContent).unwrap();
    builder.append_element(&SaxElement::CData("1".to_string())).unwrap();
    builder.append_element(&SaxElement::CData("2".to_string())).unwrap();
    builder.append_element(&SaxElement::EndTag("a".to_string())).unwrap();
    assert_eq!(builder.peek().unwrap().to_string(), "<a k=\"v\">12</a>");
    let doc = builder.take().unwrap();
    assert!(builder.peek().is_none());
    assert_eq!(builder.replace(doc).is_none(), true);

    let mut parser = DocumentParser::new();
    assert_eq!(parser.take_document().err(), Some(ParseError::BadXml(iks::description::DOC_NO_CONTENT)));
    parser.parse_bytes(b"<x><y/>").unwrap();
    parser.parse_bytes(b"</x>").unwrap();
    assert_eq!(parser.location().bytes, 11);
    let doc = parser.take_document().unwrap();
    assert_eq!(doc.to_string(), "<x><y/></x>");
    assert_eq!(parser.take_document().err(), Some(ParseError::BadXml(NO_DOCUMENT)));

    let mut parser = DocumentParser::with_size_hint(4096);
    parser.parse_bytes(b"<big>text</big>").unwrap();
    assert_eq!(parser.into_document().unwrap().to_string(), "<big>text</big>");
}

#[test]
fn builder_size_hint_sizes_first_document() {
    let mut plain = DocumentBuilder::new();
    plain.append_element(&SaxElement::StartTag("a".to_string())).unwrap();
    let plain_bytes = plain.peek().unwrap().arena_stats().allocated_bytes;
    let mut hinted = DocumentBuilder::with_size_hint(8192);
    hinted.append_element(&SaxElement::StartTag("a".to_string())).unwrap();
    let hinted_bytes = hinted.peek().unwrap().arena_stats().allocated_bytes;
    assert!(hinted_bytes >= 8192);
    assert!(plain_bytes < hinted_bytes);
    let mut small = DocumentBuilder::with_size_hint(1);
    small.append_element(&SaxElement::StartTag("a".to_string())).unwrap();
    assert_eq!(small.peek().unwrap().arena_stats().allocated_bytes, plain_bytes);
}

#[test]
fn jid_domain_of_only_a_dot_is_empty() {
    assert_eq!(Jid::new("."), Err(BadJid(DOMAIN_EMPTY)));
    assert_eq!(Jid::new("a@."), Err(BadJid(DOMAIN_EMPTY)));
    assert_eq!(Jid::new("./r"), Err(BadJid(DOMAIN_EMPTY)));
    let j = Jid::new("a@b./r").unwrap();
    assert_eq!(j.domainpart(), "b");
    assert_eq!(j.full(), "a@b/r");
}
