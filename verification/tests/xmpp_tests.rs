use iks::{
    Jid, StreamElement, StreamError, StreamParser, XmppClientBuilder, XmppClientProtocol,
    XmppClientProtocolEvent, message_stanza, roster_stanza,
};

#[test]
fn stream_elements() {
    let mut parser = StreamParser::new();
    let input = b"<stream:stream xmlns='jabber:client'><message to='a'><body>hi</body></message><iq/></stream:stream>";
    let mut found = Vec::new();
    let mut elements = parser.elements(input);
    while let Some(r) = elements.next() {
        match r.unwrap() {
            StreamElement::Element(doc) => found.push(doc.to_string()),
            StreamElement::End => found.push("END".to_string()),
        }
    }
    assert_eq!(
        found,
        vec![
            "<stream:stream xmlns=\"jabber:client\"/>".to_string(),
            "<message to=\"a\"><body>hi</body></message>".to_string(),
            "<iq/>".to_string(),
            "END".to_string(),
        ]
    );
}

#[test]
fn stream_errors() {
    let mut parser = StreamParser::new();
    let r = parser.parse_bytes(b"<a><b></a>");
    assert!(r.is_err());
    let mut parser = StreamParser::new();
    assert!(parser.parse_bytes(b"</a>").is_err());
    assert_eq!(
        StreamError::from_parse_error(iks::ParseError::NoMemory),
        StreamError::NoMemory
    );
}

#[test]
fn protocol_flow() {
    let jid = Jid::new("juliet@example.com/balcony").unwrap();
    let mut p = XmppClientProtocol::new(jid, "secret".to_string());
    let hello = p.send_bytes().unwrap();
    let hello = String::from_utf8(hello).unwrap();
    assert!(hello.starts_with("<?xml version='1.0'?><stream:stream"));
    assert!(hello.ends_with("from='juliet@example.com/balcony' to='example.com'>"));
    assert!(p.send_bytes().is_none());

    let mut events = p.events(b"<stream:stream xmlns='jabber:client'><stream:features/>");
    match events.next() {
        Some(Ok(XmppClientProtocolEvent::Continue)) => {}
        _ => panic!("expected continue"),
    }
    match events.next() {
        Some(Ok(XmppClientProtocolEvent::Send(b))) => {
            assert_eq!(b, b"<starttls xmlns='urn:ietf:params:xml:ns:xmpp-tls'/>".to_vec())
        }
        _ => panic!("expected starttls"),
    }
    assert!(events.next().is_none());

    match p.receive_bytes(b"<proceed/>") {
        Ok(Some((XmppClientProtocolEvent::StartTls, n))) => assert_eq!(n, 10),
        _ => panic!("expected tls"),
    }
    let again = String::from_utf8(p.send_bytes().unwrap()).unwrap();
    assert!(again.starts_with("<stream:stream"));

    let input: &[u8] = b"<stream:stream><stream:features/>";
    let n = match p.receive_bytes(input) {
        Ok(Some((XmppClientProtocolEvent::Continue, n))) => n,
        _ => panic!("expected continue"),
    };
    assert_eq!(n, 15);
    let n = match p.receive_bytes(&input[n..]) {
        Ok(Some((XmppClientProtocolEvent::Send(b), n))) => {
            let s = String::from_utf8(b).unwrap();
            assert_eq!(
                s,
                "<auth xmlns='urn:ietf:params:xml:ns:xmpp-sasl' mechanism='PLAIN'>AGp1bGlldABzZWNyZXQ=</auth>"
            );
            n
        }
        _ => panic!("expected auth"),
    };
    // an empty element tag is reported at its '/', so the '>' is still to come
    assert_eq!(n, 17);
    match p.receive_bytes(b"><success/>") {
        Ok(Some((XmppClientProtocolEvent::Send(b), n))) => {
            assert!(String::from_utf8(b).unwrap().starts_with("<stream:stream"));
            assert_eq!(n, 11);
        }
        _ => panic!("expected header"),
    }
    match p.receive_bytes(b"<stream:stream>") {
        Ok(Some((XmppClientProtocolEvent::Continue, _))) => {}
        _ => panic!("expected continue"),
    }
    match p.receive_bytes(b"<stream:features/>") {
        Ok(Some((XmppClientProtocolEvent::Send(b), _))) => {
            let s = String::from_utf8(b).unwrap();
            assert_eq!(
                s,
                "<iq type='set' id='bind'><bind xmlns='urn:ietf:params:xml:ns:xmpp-bind'><resource>balcony</resource></bind></iq>"
            );
        }
        _ => panic!("expected bind"),
    }
    match p.receive_bytes(b"><message><body>hi</body></message>") {
        Ok(Some((XmppClientProtocolEvent::Stanza(doc), n))) => {
            assert_eq!(doc.to_string(), "<message><body>hi</body></message>");
            // the end tag is reported at the end of its name
            assert_eq!(n, 34);
        }
        _ => panic!("expected stanza"),
    }
    match p.receive_bytes(b"><bogus/>") {
        Err(StreamError::BadStream(_)) => {}
        _ => panic!("expected error"),
    }
    match p.receive_bytes(b"<iq/>") {
        Err(StreamError::BadStream(msg)) => assert_eq!(msg, "already errored"),
        _ => panic!("expected error"),
    }
}

#[test]
fn stanzas() {
    let to = Jid::new("romeo@example.net").unwrap();
    let m = message_stanza(&to, "hi & bye").unwrap();
    assert_eq!(
        m.to_string(),
        "<message to=\"romeo@example.net\"><body>hi &amp; bye</body></message>"
    );
    let from = Jid::new("juliet@example.com/balcony").unwrap();
    let r = roster_stanza(&from).unwrap();
    assert_eq!(
        r.to_string(),
        "<iq type=\"get\" from=\"juliet@example.com/balcony\" id=\"roster\"><query xmlns=\"jabber:iq:roster\"/></iq>"
    );
}

#[test]
fn client_settings() {
    let jid = Jid::new("juliet@example.com").unwrap();
    let b = XmppClientBuilder::new(jid, "pw".to_string());
    assert_eq!(b.host(), "example.com");
    assert!(b.timeout().is_none());
    assert!(!b.is_debug());
    let b = b
        .server(Some("talk.example.com:5223".to_string()))
        .debug(true)
        .connection_timeout(std::time::Duration::from_secs(5));
    assert_eq!(b.host(), "talk.example.com:5223");
    assert_eq!(b.timeout(), Some(std::time::Duration::from_secs(5)));
    assert!(b.is_debug());
    let p = b.into_protocol();
    assert_eq!(p.jid().full(), "juliet@example.com");
}

fn stream_outputs(parser: &mut StreamParser, bytes: &[u8], out: &mut Vec<String>) {
    let mut elements = parser.elements(bytes);
    while let Some(r) = elements.next() {
        match r.unwrap() {
            StreamElement::Element(doc) => out.push(doc.to_string()),
            StreamElement::End => out.push("END".to_string()),
        }
    }
}

#[test]
fn stream_blocks_give_the_same_elements() {
    let text: &[u8] =
        b"<stream:stream xmlns='jabber:client'><message to='a'><body>h&amp;i</body></message><iq type='get'/></stream:stream>";
    let mut whole = Vec::new();
    stream_outputs(&mut StreamParser::new(), text, &mut whole);
    assert_eq!(whole.len(), 4);
    for cut in 0..=text.len() {
        let mut parts = Vec::new();
        let mut parser = StreamParser::new();
        stream_outputs(&mut parser, &text[..cut], &mut parts);
        stream_outputs(&mut parser, &text[cut..], &mut parts);
        assert_eq!(parts, whole);
    }
}
