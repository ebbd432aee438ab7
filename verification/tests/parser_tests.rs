use iks::description::REFERENCE_CUSTOM_ENTITY;
use iks::{ParseError, Parser, SaxElement, SaxError, SaxHandler, SaxParser};

/// An element as the tests expect it: start tag content markers are not
/// listed, empty element tags close the last start tag, and character
/// data comes as one piece.
#[derive(Debug, PartialEq, Eq)]
enum Expected<'a> {
    StartTag(&'a str),
    Attribute(&'a str, &'a str),
    EmptyElementTag,
    EndTag(&'a str),
    CData(&'a str),
}

#[derive(Debug, PartialEq, Eq)]
enum Seen {
    StartTag(String),
    Attribute(String, String),
    EmptyElementTag,
    EndTag(String),
    CData(String),
}

fn add(seen: &mut Vec<Seen>, e: &SaxElement) {
    match e {
        SaxElement::StartTag(n) => seen.push(Seen::StartTag(n.clone())),
        SaxElement::Attribute(n, v) => seen.push(Seen::Attribute(n.clone(), v.clone())),
        SaxElement::StartTagContent => {}
        SaxElement::StartTagEmpty => seen.push(Seen::EmptyElementTag),
        SaxElement::EndTag(n) => seen.push(Seen::EndTag(n.clone())),
        SaxElement::CData(s) => {
            if let Some(Seen::CData(last)) = seen.last_mut() {
                last.push_str(s);
            } else {
                seen.push(Seen::CData(s.clone()));
            }
        }
    }
}

/// A handler that writes down what it is given.
struct Collector {
    seen: Vec<Seen>,
}

impl SaxHandler for Collector {
    fn handle_element(&mut self, element: &SaxElement) -> Result<(), SaxError> {
        add(&mut self.seen, element);
        Ok(())
    }
}

fn feed(parser: &mut SaxParser, bytes: &[u8], seen: &mut Vec<Seen>) -> Result<(), ParseError> {
    let mut elements = parser.elements(bytes);
    loop {
        match elements.next() {
            Some(Ok(e)) => add(seen, &e),
            Some(Err(e)) => return Err(e),
            None => return Ok(()),
        }
    }
}

fn same(seen: &[Seen], expected: &[Expected]) {
    assert_eq!(seen.len(), expected.len(), "{:?} vs {:?}", seen, expected);
    for (s, e) in seen.iter().zip(expected.iter()) {
        let ok = match (s, e) {
            (Seen::StartTag(a), Expected::StartTag(b)) => a == b,
            (Seen::Attribute(a, b), Expected::Attribute(c, d)) => a == c && b == d,
            (Seen::EmptyElementTag, Expected::EmptyElementTag) => true,
            (Seen::EndTag(a), Expected::EndTag(b)) => a == b,
            (Seen::CData(a), Expected::CData(b)) => a == b,
            _ => false,
        };
        assert!(ok, "{:?} vs {:?}", s, e);
    }
}

struct Tester<'a> {
    expected: &'a [Expected<'a>],
}

impl<'a> Tester<'a> {
    fn new(expected: &'a [Expected<'a>]) -> Tester<'a> {
        Tester { expected }
    }

    fn check(&mut self, s: &str) {
        let nr_lines = s.matches("\n").count();
        let nr_column = s.lines().last().unwrap().len();

        let mut parser = Parser::new();
        let mut collector = Collector { seen: Vec::new() };
        assert!(parser.parse_bytes_finish(&mut collector, s.as_bytes()).is_ok());
        same(&collector.seen, self.expected);
        assert_eq!(parser.nr_lines(), nr_lines);
        assert_eq!(parser.nr_column(), nr_column);
        assert_eq!(parser.nr_bytes(), s.len());

        // now try byte by byte
        parser.reset();
        let mut collector = Collector { seen: Vec::new() };
        for i in 0..s.len() {
            assert!(parser.parse_bytes(&mut collector, &s.as_bytes()[i..i + 1]).is_ok());
        }
        assert!(parser.parse_finish().is_ok());
        same(&collector.seen, self.expected);
        assert_eq!(parser.nr_lines(), nr_lines);
        assert_eq!(parser.nr_column(), nr_column);
        assert_eq!(parser.nr_bytes(), s.len());
    }

    fn check_once(&mut self, s: &str) {
        let mut parser = SaxParser::new();
        let mut seen = Vec::new();
        assert!(feed(&mut parser, s.as_bytes(), &mut seen).is_ok());
        same(&seen, self.expected);
    }
}

struct BadTester {
    bad_byte: usize,
}

impl BadTester {
    fn new(bad_byte: usize) -> BadTester {
        BadTester { bad_byte }
    }

    fn parse_bytes_finish(parser: &mut SaxParser, bytes: &[u8]) -> Result<(), ParseError> {
        let mut seen = Vec::new();
        feed(parser, bytes, &mut seen)?;
        parser.parse_finish()
    }

    fn check(&mut self, s: &str) {
        let mut parser = SaxParser::new();
        let r = Self::parse_bytes_finish(&mut parser, s.as_bytes());
        assert!(matches!(r, Err(ParseError::BadXml(_))), "{:?}", r);
        assert_eq!(parser.location().bytes, self.bad_byte);
    }

    fn check_not_supported(&mut self, s: &str) {
        let mut parser = SaxParser::new();
        assert_eq!(
            Self::parse_bytes_finish(&mut parser, s.as_bytes()),
            Err(ParseError::BadXml(REFERENCE_CUSTOM_ENTITY))
        );
        assert_eq!(parser.location().bytes, self.bad_byte);
    }

    fn check_bytes(&mut self, bytes: &[u8]) {
        let mut parser = SaxParser::new();
        let r = Self::parse_bytes_finish(&mut parser, bytes);
        assert!(matches!(r, Err(ParseError::BadXml(_))), "{:?}", r);
        assert_eq!(parser.location().bytes, self.bad_byte);
    }
}

use Expected::{Attribute, CData, EmptyElementTag, EndTag, StartTag};

fn tags_cases(full: bool) {
    let run = |expected: &[Expected], s: &str| {
        if full {
            Tester::new(expected).check(s)
        } else {
            Tester::new(expected).check_once(s)
        }
    };
    run(&[StartTag("lonely"), EmptyElementTag], "<lonely/>");
    run(&[StartTag("lonely"), EmptyElementTag], "   <lonely/>    ");
    run(
        &[
            StartTag("parent"),
            StartTag("child"),
            EmptyElementTag,
            StartTag("child"),
            EmptyElementTag,
            CData("child"),
            EndTag("parent"),
        ],
        "<?xml version='1.0'?><parent><child/><child/>child</parent>",
    );
    run(
        &[
            StartTag("parent"),
            StartTag("empty"),
            EmptyElementTag,
            StartTag("b"),
            CData("lala"),
            EndTag("b"),
            EndTag("parent"),
        ],
        "<parent  ><empty \t /><b>lala</b \n></parent>",
    );
    run(
        &[
            StartTag("mytag"),
            Attribute("abc", "123"),
            Attribute("id", "XC72"),
            EndTag("mytag"),
        ],
        "<mytag abc='123' id=\"XC72\"></mytag>",
    );
    run(
        &[
            StartTag("a"),
            StartTag("b"),
            Attribute("x1", "lala"),
            EmptyElementTag,
            StartTag("c"),
            Attribute("x2", "bibi"),
            EmptyElementTag,
            EndTag("a"),
        ],
        "<a><b x1 ='lala'/><c x2\t= \t'bibi'/></a>",
    );
    run(
        &[
            StartTag("tag"),
            Attribute("a", "1"),
            Attribute("b", "2"),
            Attribute("c", "3"),
            Attribute("d", "4"),
            Attribute("e", "5"),
            Attribute("f", "6"),
            Attribute("g", "7"),
            Attribute("id", "xyz9"),
            StartTag("sub"),
            EndTag("sub"),
            EndTag("tag"),
        ],
        "<tag a  =  '1' b  ='2' c=  '3' d='4'   e='5' f='6' g='7' id='xyz9'><sub></sub></tag>",
    );
    run(
        &[
            StartTag("tag"),
            Attribute("a", "12\"34"),
            Attribute("b", "123'456"),
            EmptyElementTag,
        ],
        "<tag a='12\"34' b=\"123'456\" />",
    );
}

fn comments_cases(full: bool) {
    let run = |expected: &[Expected], s: &str| {
        if full {
            Tester::new(expected).check(s)
        } else {
            Tester::new(expected).check_once(s)
        }
    };
    run(
        &[
            StartTag("item"),
            Attribute("url", "http://jabber.org"),
            CData("Jabber Site"),
            EndTag("item"),
        ],
        "<item url='http://jabber.org'><!-- little comment -->Jabber Site</item>",
    );
    run(
        &[
            StartTag("index"),
            StartTag("item"),
            Attribute("name", "lala"),
            Attribute("page", "42"),
            EmptyElementTag,
            EndTag("index"),
        ],
        "<index><!-- <item> - tag has no childs --><item name='lala' page='42'/></index>",
    );
    run(&[StartTag("empty"), EmptyElementTag], "<!-- comment --> <empty/> <!-- lala -->");
}

fn cdatas_cases(full: bool) {
    let run = |expected: &[Expected], s: &str| {
        if full {
            Tester::new(expected).check(s)
        } else {
            Tester::new(expected).check_once(s)
        }
    };
    run(
        &[StartTag("ka"), CData("1234 <ka> lala ] ]] ]]] 4321"), EndTag("ka")],
        "<ka>1234<![CDATA[ <ka> lala ] ]] ]]] ]]>4321</ka>",
    );
    run(
        &[StartTag("data"), CData("[TEST]"), EndTag("data")],
        "<data><![CDATA[[TEST]]]></data>",
    );
    run(
        &[StartTag("data"), CData("[TEST]]"), EndTag("data")],
        "<data><![CDATA[[TEST]]]]></data>",
    );
}

fn entities_cases(full: bool) {
    let run = |expected: &[Expected], s: &str| {
        if full {
            Tester::new(expected).check(s)
        } else {
            Tester::new(expected).check_once(s)
        }
    };
    run(
        &[
            StartTag("body"),
            CData("I'm fixing parser&tester for \"<\" and \">\" chars."),
            EndTag("body"),
        ],
        "<body>I&apos;m fixing parser&amp;tester for &quot;&lt;&quot; and &quot;&gt;&quot; chars.</body>",
    );
    run(
        &[
            StartTag("test"),
            StartTag("standalone"),
            Attribute("be", "happy"),
            EmptyElementTag,
            CData("abcd"),
            StartTag("br"),
            EmptyElementTag,
            CData("<escape>"),
            EndTag("test"),
        ],
        "<test><standalone be='happy'/>abcd<br/>&lt;escape&gt;</test>",
    );
    run(
        &[StartTag("a"), CData(";AB;"), EndTag("a")],
        "<a>&#x3B;&#65;&#x42;&#x3b;</a>",
    );
    run(
        &[StartTag("a"), CData(" \u{90} \u{900} \u{10abc} "), EndTag("a")],
        "<a> &#x90; &#x900; &#x10abc; </a>",
    );
}

#[test]
fn tests_tags() {
    tags_cases(true);
    Tester::new(&[
        StartTag("a"),
        StartTag("b"),
        CData("john&mary"),
        StartTag("c"),
        StartTag("d"),
        Attribute("e", "f"),
        Attribute("g", "123456"),
        Attribute("h", "madcat"),
        Attribute("klm", "nop"),
        EmptyElementTag,
        EndTag("c"),
        EndTag("b"),
        EndTag("a"),
    ])
    .check("<a><b>john&amp;mary<c><d e='f' g='123456' h='madcat' klm='nop'/></c></b></a>");
}

#[test]
fn parser_tags() {
    tags_cases(false);
}

#[test]
fn tests_comments() {
    comments_cases(true);
}

#[test]
fn parser_comments() {
    comments_cases(false);
}

#[test]
fn tests_cdatas() {
    cdatas_cases(true);
    Tester::new(&[
        StartTag("a"),
        CData("[[bg:Чингис хан]][[bn:চেঙ্গিজ খান]]"),
        EndTag("a"),
    ])
    .check("<a>[[bg:Чингис хан]][[bn:চেঙ্গিজ খান]]</a>");
}

#[test]
fn parser_cdatas() {
    cdatas_cases(false);
}

#[test]
fn tests_dtds() {
    Tester::new(&[StartTag("x"), CData("foo"), EndTag("x")])
        .check(" <!DOCTYPE greeting [ <!ELEMENT greeting (#PCDATA)> ]> <x>foo</x>");
}

#[test]
fn parser_dtds() {
    Tester::new(&[StartTag("x"), CData("foo"), EndTag("x")])
        .check_once(" <!DOCTYPE greeting [ <!ELEMENT greeting (#PCDATA)> ]> <x>foo</x>");
}

#[test]
fn pi() {
    Tester::new(&[StartTag("a"), CData("bibi"), EndTag("a")]).check("<a><?xml lala?>bibi</a>");
}

#[test]
fn tests_entities() {
    entities_cases(true);
}

#[test]
fn parser_entities() {
    entities_cases(false);
}

#[test]
fn attribute_entities() {
    Tester::new(&[StartTag("a"), Attribute("b", "a&b BA"), EndTag("a")])
        .check("<a b='a&amp;b &#x42;&#65;'></a>");
}

#[test]
fn long_tag() {
    let name = "abc".repeat(500);
    let xml = format!("<{}></{}>", name, name);

    Tester::new(&[StartTag(&name), EndTag(&name)]).check(&xml);
}

#[test]
fn location() {
    Tester::new(&[StartTag("a"), CData("\n\n "), EndTag("a")]).check("<a>\n\n </a>");
}

fn bad_tags_cases() {
    BadTester::new(4).check("<a>< b/></a>");
    BadTester::new(6).check("<a><b/ ></a>");
    BadTester::new(8).check("<a></ccc/></a>");
    BadTester::new(13).check("<a><b/><c></c/></a>");
    BadTester::new(1).check("</a>");
    BadTester::new(9).check("<a> </a  b>");
    BadTester::new(8).check("<a></a><b/>");
    BadTester::new(10).check("<a a='1' b></a>");
    BadTester::new(11).check("<a a='1' b=></a>");
    BadTester::new(12).check("<a a='12' b '2'></a>");
    BadTester::new(13).check("<a a='123' b c='5'></a>");
    BadTester::new(14).check("<a a='12'></a b='1'>");
    BadTester::new(17).check("<g><test a='123'/ b='lala'></g>");
    BadTester::new(13).check("<a a='1' b='></a>");
    BadTester::new(13).check("<a a='1' b=\"></a>");
    BadTester::new(5).check("<a> <> </a>");
    BadTester::new(6).check("<a> </> </a>");
}

#[test]
fn tests_bad_tags() {
    bad_tags_cases();
}

#[test]
fn parser_bad_tags() {
    bad_tags_cases();
    BadTester::new(2).check("  lala <a></a>");
    BadTester::new(10).check("  <a></a> lala");
}

fn bad_comments_cases() {
    BadTester::new(10).check("<e><!-- -- --></e>");
    BadTester::new(22).check("<ha><!-- <lala> --><!- comment -></ha>");
    BadTester::new(12).check("<!-- c1 --> lala <ha/>");
    BadTester::new(31).check("<!-- c1 --> <ha/> <!-- pika -->c");
    BadTester::new(9).check("<!-- c ---> <ha/>");
}

#[test]
fn tests_bad_comments() {
    bad_comments_cases();
}

#[test]
fn parser_bad_comments() {
    bad_comments_cases();
}

#[test]
fn bad_pi() {
    BadTester::new(12).check("<e/> <?xml >");
    BadTester::new(13).check("<e/> <?xml ?>lala");
}

#[test]
fn tests_bad_cdatas() {
    BadTester::new(2).check("  lala <a></a>");
    BadTester::new(10).check("  <a></a> lala");
    BadTester::new(11).check("  <a></a > lala");
    BadTester::new(2).check("<![CDATA[lala]> <a/>");
    BadTester::new(8).check(" <a/> <![CDATA[lala]>");
    BadTester::new(7).check("<a> <![DATA[lala]> </a>");
    BadTester::new(9).check("<a> <![CDaTA[lala]> </a>");
    BadTester::new(12).check("<a> <![CDATAlala]> </a>");
}

#[test]
fn parser_bad_cdatas() {
    BadTester::new(2).check("<![CDATA[lala]> <a/>");
    BadTester::new(8).check(" <a/> <![CDATA[lala]>");
    BadTester::new(7).check("<a> <![DATA[lala]> </a>");
    BadTester::new(9).check("<a> <![CDaTA[lala]> </a>");
    BadTester::new(12).check("<a> <![CDATAlala]> </a>");
}

#[test]
fn tests_bad_entities() {
    BadTester::new(8).check_not_supported("<a>&lala;</a>");
    BadTester::new(12).check_not_supported("<a>&lala           </a>");
    BadTester::new(16).check("<lol>&lt;<&gt;</lol>");
    BadTester::new(6).check("<a>&#1a;</a>");
    BadTester::new(6).check("<a>&#Xaa;</a>");
    BadTester::new(8).check("<a>&#xa5g;</a>");
    BadTester::new(6).check("<a>&#8;</a>");
    BadTester::new(7).check("<a>&#11;</a>");
    BadTester::new(7).check("<a>&#15;</a>");
    BadTester::new(10).check("<a>&#xD800;</a>");
    BadTester::new(10).check("<a>&#xDfFf;</a>");
    BadTester::new(10).check("<a>&#xfFfE;</a>");
    BadTester::new(10).check("<a>&#xFFff;</a>");
    BadTester::new(12).check("<a>&#x110000;</a>");
}

#[test]
fn parser_bad_entities() {
    BadTester::new(8).check("<a>&lala;<a/>");
    BadTester::new(12).check("<a>&lala           <a/>");
    BadTester::new(6).check("<a>&#1a;<a/>");
    BadTester::new(6).check("<a>&#Xaa;<a/>");
    BadTester::new(8).check("<a>&#xa5g;<a/>");
    BadTester::new(6).check("<a>&#8;<a/>");
    BadTester::new(7).check("<a>&#11;<a/>");
    BadTester::new(7).check("<a>&#15;<a/>");
    BadTester::new(10).check("<a>&#xD800;<a/>");
    BadTester::new(10).check("<a>&#xDfFf;<a/>");
    BadTester::new(10).check("<a>&#xfFfE;<a/>");
    BadTester::new(10).check("<a>&#xFFff;<a/>");
    BadTester::new(12).check("<a>&#x110000;<a/>");
}

#[test]
fn bad_chars() {
    BadTester::new(6).check_bytes(b"<test>\xFF</test>");
    BadTester::new(6).check_bytes(b"<test>\xFE</test>");
    BadTester::new(2).check_bytes(b"<t\x00></t>");
    BadTester::new(2).check_bytes(b"<t\x19></t>");
    BadTester::new(8).check_bytes(b"<test>\xe3\x8fa</test>");
    BadTester::new(7).check_bytes(b"<test>\xC0\x80</test>");
    BadTester::new(7).check_bytes(b"<test>\xC0\xaf</test>");
    BadTester::new(8).check_bytes(b"<test>\xe0\x80\xaf</test>");
    BadTester::new(9).check_bytes(b"<test>\xf0\x80\x80\xaf</test>");
    BadTester::new(7).check_bytes(b"<test>\xc1\xbf</test>");
    BadTester::new(8).check_bytes(b"<test>\xe0\x9f\xbf</test>");
    BadTester::new(9).check_bytes(b"<test>\xf0\x8f\xbf\xbf</test>");
    BadTester::new(1).check_bytes(b"<\x8f\x85></\x8f\x85>");
    BadTester::new(7).check_bytes(
        b"<utf8>\xC1\x80<br/>\xED\x95\x9C\xEA\xB5\xAD\xEC\x96\xB4<err>\xC1\x65</err></utf8>",
    );
}

fn bad_unfinished_cases() {
    BadTester::new(5).check(" <a> ");
    BadTester::new(20).check("  <!-- lala -->     ");
    BadTester::new(27).check(" <a></a> <!-- open comment ");
    BadTester::new(23).check(" <a></a> <?app open pi ");
}

#[test]
fn tests_bad_unfinished() {
    bad_unfinished_cases();
}

#[test]
fn parser_bad_unfinished() {
    bad_unfinished_cases();
}

#[test]
fn valid_xml_chars() {
    assert!(iks::is_valid_xml_char(0x09));
    assert!(iks::is_valid_xml_char(0x20));
    assert!(!iks::is_valid_xml_char(0x08));
    assert!(!iks::is_valid_xml_char(0xD800));
    assert!(!iks::is_valid_xml_char(0xFFFE));
    assert!(iks::is_valid_xml_char(0x10FFFF));
    assert!(!iks::is_valid_xml_char(0x110000));
}

struct Stopper {
    count: usize,
}

impl SaxHandler for Stopper {
    fn handle_element(&mut self, element: &SaxElement) -> Result<(), SaxError> {
        self.count += 1;
        if let SaxElement::EndTag(_) = element {
            return Err(SaxError::HandlerAbort);
        }
        Ok(())
    }
}

#[test]
fn handler_stops_parsing() {
    let mut parser = Parser::new();
    let mut stopper = Stopper { count: 0 };
    assert_eq!(
        parser.parse_bytes(&mut stopper, b"<a><b/></a><c/>"),
        Err(SaxError::HandlerAbort)
    );
    assert_eq!(stopper.count, 5);
    let mut parser = Parser::new();
    assert!(matches!(
        parser.parse_bytes_finish(&mut Stopper { count: 0 }, b"<a"),
        Err(SaxError::BadXml(_))
    ));
    let mut parser = Parser::new();
    assert!(matches!(
        parser.parse_bytes(&mut Stopper { count: 0 }, b"<a>&nope;"),
        Err(SaxError::BadXml(_))
    ));
}

struct Refuser;

impl SaxHandler for Refuser {
    fn handle_element(&mut self, _element: &SaxElement) -> Result<(), SaxError> {
        Err(SaxError::HandlerAbort)
    }
}

#[test]
fn handler_not_asked_without_elements() {
    let mut parser = Parser::new();
    assert_eq!(parser.parse_bytes(&mut Refuser, b"  \n "), Ok(()));
    assert_eq!(parser.parse_bytes(&mut Refuser, b""), Ok(()));
    assert_eq!(parser.parse_bytes(&mut Refuser, b"<a"), Ok(()));
    assert_eq!(parser.parse_bytes(&mut Refuser, b">"), Err(SaxError::HandlerAbort));
    let mut parser = Parser::new();
    assert!(matches!(
        parser.parse_bytes_finish(&mut Refuser, b" "),
        Err(SaxError::BadXml(_))
    ));
}

#[test]
fn location_counts_lines_and_columns_over_blocks() {
    let input = b"<a>\n\n </a>";
    let mut parser = SaxParser::new();
    for i in 0..input.len() {
        let mut rest: &[u8] = &input[i..i + 1];
        loop {
            match parser.parse_bytes(rest).unwrap() {
                Some((_, n)) => rest = &rest[n..],
                None => break,
            }
        }
    }
    let l = parser.location();
    assert_eq!((l.bytes, l.lines, l.column), (10, 2, 5));
}
