use vstd::prelude::*;
use vstd::utf8::encode_utf8;

use crate::doc_parser::block_no_room;
use crate::document::Document;
use crate::jid::{Jid, JidView, full_text};
use crate::parser::initial_model;
use crate::stream::{
    FEATURES_TAG, IQ_TAG, MESSAGE_TAG, PRESENCE_TAG, PROCEED_TAG, STREAM_TAG, SUCCESS_TAG,
    StreamElement, StreamError, StreamOut, StreamParser, StreamState, spec_stream, stream_error,
};
use crate::tree::{NodeView, name_of};
use crate::utf8_text::str_eq;

verus! {

pub const XML_DECLARATION: &'static str = "<?xml version='1.0'?>";
pub const HEADER_START: &'static str = "<stream:stream xmlns='jabber:client' xmlns:stream='http://etherx.jabber.org/streams' version='1.0' xmllang='en' from='";
pub const HEADER_TO: &'static str = "' to='";
pub const HEADER_END: &'static str = "'>";
pub const STARTTLS: &'static str = "<starttls xmlns='urn:ietf:params:xml:ns:xmpp-tls'/>";
pub const AUTH_START: &'static str = "<auth xmlns='urn:ietf:params:xml:ns:xmpp-sasl' mechanism='PLAIN'>";
pub const AUTH_END: &'static str = "</auth>";
pub const BIND_START: &'static str = "<iq type='set' id='bind'><bind xmlns='urn:ietf:params:xml:ns:xmpp-bind'>";
pub const RESOURCE_START: &'static str = "<resource>";
pub const RESOURCE_END: &'static str = "</resource>";
pub const BIND_END: &'static str = "</bind></iq>";

pub const UNEXPECTED_STREAM: &'static str = "Unexpected stream tag";
pub const UNEXPECTED_FEATURES: &'static str = "Unexpected features tag";
pub const NO_LOCALPART: &'static str = "no localpart for auth";
pub const UNKNOWN_TAG: &'static str = "Unknown tag";
pub const ALREADY_ERRORED: &'static str = "already errored";

/// The standard base64 encoding (with padding) of a byte sequence, as
/// `base64::Engine::encode` of `base64::engine::general_purpose::STANDARD`
/// computes it.
pub uninterp spec fn base64_standard(bytes: Seq<u8>) -> Seq<char>;

/// Calls `base64::Engine::encode` with the standard engine. The contract
/// says that the result is the standard encoding of the argument, named
/// `base64_standard`; the encoding itself is not stated. The crate panics
/// when the encoded length does not fit in `usize`, which `requires`
/// leaves out.
#[verifier::external_body]
fn base64_encode(bytes: &[u8]) -> (r: String)
    requires
        4 * ((bytes@.len() + 2) / 3) <= usize::MAX,
    ensures
        r@ == base64_standard(bytes@),
{
    base64::Engine::encode(&base64::engine::general_purpose::STANDARD, bytes)
}

/// Appends the UTF-8 bytes of `s`.
fn push_text(v: &mut Vec<u8>, s: &str)
    ensures
        final(v)@ == old(v)@ + encode_utf8(s@),
{
    let b = s.as_bytes();
    let mut k: usize = 0;
    while k < b.len()
        invariant
            k <= b@.len(),
            b@ == encode_utf8(s@),
            v@ == old(v)@ + b@.take(k as int),
        decreases b@.len() - k,
    {
        v.push(b[k]);
        k = k + 1;
        assert(v@ =~= old(v)@ + b@.take(k as int));
    }
    assert(b@.take(k as int) =~= b@);
}

/// The phases of the client side of an XMPP stream.
#[derive(Clone, Copy, Debug, PartialEq, Eq, Structural)]
pub enum StreamPhase {
    Connected,
    StartSent,
    StartReceived,
    FeaturesReceived,
    Handshake,
    SecureStartSent,
    SecureStartReceived,
    SecureFeaturesReceived,
    AuthStartSent,
    AuthStartReceived,
    Online,
    Error,
}

/// What the protocol asks its driver to do.
pub enum XmppClientProtocolEvent {
    /// Send these bytes to the server.
    Send(Vec<u8>),
    /// Start TLS on the connection.
    StartTls,
    /// Nothing to do; go on reading.
    Continue,
    /// A stanza arrived.
    Stanza(Document),
    /// The server ended the stream.
    End,
}

/// An event over plain values.
pub enum EventView {
    Send(Seq<u8>),
    StartTls,
    Continue,
    Stanza(Seq<NodeView>),
    End,
}

pub open spec fn event_view(e: XmppClientProtocolEvent) -> EventView {
    match e {
        XmppClientProtocolEvent::Send(b) => EventView::Send(b@),
        XmppClientProtocolEvent::StartTls => EventView::StartTls,
        XmppClientProtocolEvent::Continue => EventView::Continue,
        XmppClientProtocolEvent::Stanza(d) => EventView::Stanza(d@),
        XmppClientProtocolEvent::End => EventView::End,
    }
}

/// The state of a client: the phase, the account and the stream parser.
pub struct ProtocolView {
    pub phase: StreamPhase,
    pub jid: JidView,
    pub password: Seq<char>,
    pub stream: StreamState,
}

/// The stream header that the client sends.
pub open spec fn header_text(j: JidView) -> Seq<char> {
    HEADER_START@ + full_text(j) + HEADER_TO@ + j.domain + HEADER_END@
}

/// The PLAIN authentication message: an empty authorization identity,
/// the local part and the password, separated by NUL bytes.
pub open spec fn auth_payload(local: Seq<char>, password: Seq<char>) -> Seq<u8> {
    seq![0u8] + encode_utf8(local) + seq![0u8] + encode_utf8(password)
}

/// The authentication request around an encoded payload.
pub open spec fn auth_text(encoded: Seq<char>) -> Seq<char> {
    AUTH_START@ + encoded + AUTH_END@
}

/// The resource binding request.
pub open spec fn bind_text(resource: Option<Seq<char>>) -> Seq<char> {
    match resource {
        Some(r) => BIND_START@ + RESOURCE_START@ + r + RESOURCE_END@ + BIND_END@,
        None => BIND_START@ + BIND_END@,
    }
}

/// The protocol's answer to a top level element whose root tag is `name`.
pub open spec fn spec_receive(p: ProtocolView, name: Seq<char>, doc: Seq<NodeView>) -> (
    ProtocolView,
    Result<(EventView, bool), StreamError>,
) {
    let fresh_stream = StreamState {
        sax: initial_model(),
        build: crate::doc_parser::BuildView { doc: None, node: p.stream.build.node },
        level: 0,
    };
    if name == STREAM_TAG@ {
        match p.phase {
            StreamPhase::StartSent => (
                ProtocolView { phase: StreamPhase::StartReceived, ..p },
                Ok((EventView::Continue, false)),
            ),
            StreamPhase::SecureStartSent => (
                ProtocolView { phase: StreamPhase::SecureStartReceived, ..p },
                Ok((EventView::Continue, false)),
            ),
            StreamPhase::AuthStartSent => (
                ProtocolView { phase: StreamPhase::AuthStartReceived, ..p },
                Ok((EventView::Continue, false)),
            ),
            _ => (
                ProtocolView { phase: StreamPhase::Error, ..p },
                Err(StreamError::BadStream(UNEXPECTED_STREAM)),
            ),
        }
    } else if name == FEATURES_TAG@ {
        match p.phase {
            StreamPhase::StartReceived => (
                ProtocolView { phase: StreamPhase::FeaturesReceived, ..p },
                Ok((EventView::Send(encode_utf8(STARTTLS@)), false)),
            ),
            StreamPhase::SecureStartReceived => (
                ProtocolView { phase: StreamPhase::SecureFeaturesReceived, ..p },
                match p.jid.local {
                    Some(l) => Ok(
                        (
                            EventView::Send(
                                encode_utf8(
                                    auth_text(base64_standard(auth_payload(l, p.password))),
                                ),
                            ),
                            false,
                        ),
                    ),
                    None => Err(StreamError::BadStream(NO_LOCALPART)),
                },
            ),
            StreamPhase::AuthStartReceived => (
                ProtocolView { phase: StreamPhase::Online, ..p },
                Ok((EventView::Send(encode_utf8(bind_text(p.jid.resource))), false)),
            ),
            _ => (
                ProtocolView { phase: StreamPhase::Error, ..p },
                Err(StreamError::BadStream(UNEXPECTED_FEATURES)),
            ),
        }
    } else if name == PROCEED_TAG@ {
        (
            ProtocolView { phase: StreamPhase::Handshake, stream: fresh_stream, ..p },
            Ok((EventView::StartTls, true)),
        )
    } else if name == SUCCESS_TAG@ {
        (
            ProtocolView { phase: StreamPhase::AuthStartSent, stream: fresh_stream, ..p },
            Ok((EventView::Send(encode_utf8(header_text(p.jid))), true)),
        )
    } else if name == MESSAGE_TAG@ || name == PRESENCE_TAG@ || name == IQ_TAG@ {
        (p, Ok((EventView::Stanza(doc), false)))
    } else {
        (ProtocolView { phase: StreamPhase::Error, ..p }, Err(StreamError::BadStream(UNKNOWN_TAG)))
    }
}

proof fn lemma_bind_bytes(resource: Option<Seq<char>>, b: Seq<u8>)
    requires
        b == (match resource {
            Some(r) => encode_utf8(BIND_START@) + encode_utf8(RESOURCE_START@) + encode_utf8(r)
                + encode_utf8(RESOURCE_END@) + encode_utf8(BIND_END@),
            None => encode_utf8(BIND_START@) + encode_utf8(BIND_END@),
        }),
    ensures
        b == encode_utf8(bind_text(resource)),
{
    match resource {
        Some(r) => {
            crate::utf8_text::lemma_encode_concat(BIND_START@, RESOURCE_START@);
            crate::utf8_text::lemma_encode_concat(BIND_START@ + RESOURCE_START@, r);
            crate::utf8_text::lemma_encode_concat(BIND_START@ + RESOURCE_START@ + r, RESOURCE_END@);
            crate::utf8_text::lemma_encode_concat(
                BIND_START@ + RESOURCE_START@ + r + RESOURCE_END@,
                BIND_END@,
            );
            assert(b =~= encode_utf8(bind_text(resource)));
        },
        None => {
            crate::utf8_text::lemma_encode_concat(BIND_START@, BIND_END@);
        },
    }
}

/// The bytes of a PLAIN authentication payload.
pub fn auth_payload_bytes(local: &str, password: &str) -> (r: Vec<u8>)
    ensures
        r@ == auth_payload(local@, password@),
{
    let mut v: Vec<u8> = Vec::new();
    v.push(0);
    push_text(&mut v, local);
    v.push(0);
    push_text(&mut v, password);
    assert(v@ =~= auth_payload(local@, password@));
    v
}

/// The bytes of an authentication request carrying the encoded payload.
pub fn auth_request(encoded: &str) -> (r: Vec<u8>)
    ensures
        r@ == encode_utf8(auth_text(encoded@)),
{
    let mut v: Vec<u8> = Vec::new();
    push_text(&mut v, AUTH_START);
    push_text(&mut v, encoded);
    push_text(&mut v, AUTH_END);
    proof {
        crate::utf8_text::lemma_encode_concat(AUTH_START@, encoded@);
        crate::utf8_text::lemma_encode_concat(AUTH_START@ + encoded@, AUTH_END@);
    }
    assert(v@ =~= encode_utf8(auth_text(encoded@)));
    v
}

/// The XMPP client protocol without I/O: it consumes the bytes the server
/// sends and tells what to send back and what happened.
pub struct XmppClientProtocol {
    jid: Jid,
    stream_parser: StreamParser,
    state: StreamPhase,
    password: String,
}

impl View for XmppClientProtocol {
    type V = ProtocolView;

    closed spec fn view(&self) -> ProtocolView {
        ProtocolView {
            phase: self.state,
            jid: self.jid@,
            password: self.password@,
            stream: self.stream_parser@,
        }
    }
}

/// The password is short enough for its authentication message to be
/// encoded.
pub open spec fn password_ok(password: Seq<char>) -> bool {
    crate::entities::utf8_len(password) <= usize::MAX / 2
}

impl XmppClientProtocol {
    /// The stream parser of the server's bytes.
    pub closed spec fn parser(&self) -> StreamParser {
        self.stream_parser
    }

    pub closed spec fn wf(&self) -> bool {
        &&& self.jid.wf()
        &&& self.stream_parser.wf()
        &&& password_ok(self.password@)
        &&& (self.jid@.local matches Some(l) ==> crate::entities::utf8_len(l) <= 1023)
    }

    /// A client for the account `jid`.
    pub fn new(jid: Jid, password: String) -> (r: XmppClientProtocol)
        requires
            jid.wf(),
            password_ok(password@),
            jid@.local matches Some(l) ==> crate::entities::utf8_len(l) <= 1023,
        ensures
            r.wf(),
            r@.phase == StreamPhase::Connected,
            r@.jid == jid@,
            r@.password == password@,
            r@.stream.sax == initial_model(),
            r@.stream.build.doc is None,
            r@.stream.level == 0,
    {
        XmppClientProtocol {
            jid,
            stream_parser: StreamParser::new(),
            state: StreamPhase::Connected,
            password,
        }
    }

    /// The account.
    pub fn jid(&self) -> (r: &Jid)
        ensures
            r@ == self@.jid,
            self.wf() ==> r.wf(),
    {
        &self.jid
    }

    fn extend_with_header(&self, bytes: &mut Vec<u8>)
        requires
            self.jid.wf(),
        ensures
            final(bytes)@ == old(bytes)@ + encode_utf8(header_text(self@.jid)),
    {
        push_text(bytes, HEADER_START);
        push_text(bytes, self.jid.full());
        push_text(bytes, HEADER_TO);
        push_text(bytes, self.jid.domainpart());
        push_text(bytes, HEADER_END);
        proof {
            let j = self@.jid;
            crate::utf8_text::lemma_encode_concat(HEADER_START@, full_text(j));
            crate::utf8_text::lemma_encode_concat(HEADER_START@ + full_text(j), HEADER_TO@);
            crate::utf8_text::lemma_encode_concat(HEADER_START@ + full_text(j) + HEADER_TO@, j.domain);
            crate::utf8_text::lemma_encode_concat(
                HEADER_START@ + full_text(j) + HEADER_TO@ + j.domain,
                HEADER_END@,
            );
            assert(bytes@ =~= old(bytes)@ + encode_utf8(header_text(j)));
        }
    }

    /// Takes a top level element of the stream and answers it: the event,
    /// and whether the rest of the input is to be dropped because the
    /// stream starts over.
    pub fn receive_element(&mut self, element: Document) -> (r: Result<
        (XmppClientProtocolEvent, bool),
        StreamError,
    >)
        requires
            old(self).wf(),
            element.wf(),
        ensures
            final(self).wf(),
            ({
                let (p, out) = spec_receive(old(self)@, name_of(element@, 0), element@);
                &&& final(self)@ == p
                &&& match out {
                    Ok((e, reset)) => r matches Ok((ev, rs)) && event_view(ev) == e && rs == reset,
                    Err(e) => r == Err::<(XmppClientProtocolEvent, bool), StreamError>(e),
                }
            }),
    {
        proof {
            element.lemma_tree();
        }
        let root = element.root();
        let is_stream = str_eq(root.name(&element), STREAM_TAG);
        let is_features = str_eq(root.name(&element), FEATURES_TAG);
        let is_proceed = str_eq(root.name(&element), PROCEED_TAG);
        let is_success = str_eq(root.name(&element), SUCCESS_TAG);
        let is_stanza = str_eq(root.name(&element), MESSAGE_TAG) || str_eq(
            root.name(&element),
            PRESENCE_TAG,
        ) || str_eq(root.name(&element), IQ_TAG);
        if is_stream {
            match self.state {
                StreamPhase::StartSent => {
                    self.state = StreamPhase::StartReceived;
                    Ok((XmppClientProtocolEvent::Continue, false))
                },
                StreamPhase::SecureStartSent => {
                    self.state = StreamPhase::SecureStartReceived;
                    Ok((XmppClientProtocolEvent::Continue, false))
                },
                StreamPhase::AuthStartSent => {
                    self.state = StreamPhase::AuthStartReceived;
                    Ok((XmppClientProtocolEvent::Continue, false))
                },
                _ => {
                    self.state = StreamPhase::Error;
                    Err(StreamError::BadStream(UNEXPECTED_STREAM))
                },
            }
        } else if is_features {
            match self.state {
                StreamPhase::StartReceived => {
                    self.state = StreamPhase::FeaturesReceived;
                    let mut bytes: Vec<u8> = Vec::new();
                    push_text(&mut bytes, STARTTLS);
                    assert(bytes@ =~= encode_utf8(STARTTLS@));
                    Ok((XmppClientProtocolEvent::Send(bytes), false))
                },
                StreamPhase::SecureStartReceived => {
                    self.state = StreamPhase::SecureFeaturesReceived;
                    let localpart = match self.jid.localpart() {
                        Some(localpart) => localpart,
                        None => {
                            return Err(StreamError::BadStream(NO_LOCALPART));
                        },
                    };
                    let payload = auth_payload_bytes(localpart, self.password.as_str());
                    proof {
                        let n = payload@.len();
                        assert(n == 2 + encode_utf8(localpart@).len() + encode_utf8(
                            self.password@,
                        ).len());
                        assert(4 * ((n + 2) / 3) <= usize::MAX) by (nonlinear_arith)
                            requires
                                n <= usize::MAX / 2 + 1025,
                                usize::MAX >= 0xffff_ffff,
                        ;
                    }
                    let encoded = base64_encode(payload.as_slice());
                    let bytes = auth_request(encoded.as_str());
                    Ok((XmppClientProtocolEvent::Send(bytes), false))
                },
                StreamPhase::AuthStartReceived => {
                    self.state = StreamPhase::Online;
                    let mut bytes: Vec<u8> = Vec::new();
                    push_text(&mut bytes, BIND_START);
                    match self.jid.resourcepart() {
                        Some(resourcepart) => {
                            push_text(&mut bytes, RESOURCE_START);
                            push_text(&mut bytes, resourcepart);
                            push_text(&mut bytes, RESOURCE_END);
                        },
                        None => {},
                    }
                    push_text(&mut bytes, BIND_END);
                    proof {
                        lemma_bind_bytes(self@.jid.resource, bytes@);
                    }
                    Ok((XmppClientProtocolEvent::Send(bytes), false))
                },
                _ => {
                    self.state = StreamPhase::Error;
                    Err(StreamError::BadStream(UNEXPECTED_FEATURES))
                },
            }
        } else if is_proceed {
            self.state = StreamPhase::Handshake;
            self.stream_parser.reset();
            Ok((XmppClientProtocolEvent::StartTls, true))
        } else if is_success {
            self.state = StreamPhase::AuthStartSent;
            self.stream_parser.reset();
            let mut bytes: Vec<u8> = Vec::new();
            self.extend_with_header(&mut bytes);
            assert(bytes@ =~= encode_utf8(header_text(self@.jid)));
            Ok((XmppClientProtocolEvent::Send(bytes), true))
        } else if is_stanza {
            Ok((XmppClientProtocolEvent::Stanza(element), false))
        } else {
            self.state = StreamPhase::Error;
            Err(StreamError::BadStream(UNKNOWN_TAG))
        }
    }
}

/// Law of the protocol: once in the error phase, every block of bytes is
/// answered with the same error and nothing changes; a stanza is handed
/// over and leaves the client as it was.
pub proof fn law_protocol_error_and_stanzas(p: ProtocolView, bytes: Seq<u8>, doc: Seq<NodeView>)
    ensures
        p.phase == StreamPhase::Error ==> spec_receive_bytes(p, bytes) == (
            p,
            Err::<Option<(EventView, nat)>, StreamError>(StreamError::BadStream(ALREADY_ERRORED)),
        ),
        spec_receive(p, MESSAGE_TAG@, doc) == (
            p,
            Ok::<(EventView, bool), StreamError>((EventView::Stanza(doc), false)),
        ),
        spec_receive(p, PRESENCE_TAG@, doc) == (
            p,
            Ok::<(EventView, bool), StreamError>((EventView::Stanza(doc), false)),
        ),
        spec_receive(p, IQ_TAG@, doc) == (
            p,
            Ok::<(EventView, bool), StreamError>((EventView::Stanza(doc), false)),
        ),
{
    reveal_strlit("stream:stream");
    reveal_strlit("stream:features");
    reveal_strlit("proceed");
    reveal_strlit("success");
    reveal_strlit("message");
    reveal_strlit("presence");
    reveal_strlit("iq");
    assert(MESSAGE_TAG@[0] != PROCEED_TAG@[0] && MESSAGE_TAG@[0] != SUCCESS_TAG@[0]);
    assert(MESSAGE_TAG@.len() != STREAM_TAG@.len() && MESSAGE_TAG@.len() != FEATURES_TAG@.len());
    assert(PRESENCE_TAG@.len() != PROCEED_TAG@.len() && PRESENCE_TAG@.len() != SUCCESS_TAG@.len());
    assert(PRESENCE_TAG@.len() != STREAM_TAG@.len() && PRESENCE_TAG@.len() != FEATURES_TAG@.len());
    assert(IQ_TAG@.len() != PROCEED_TAG@.len() && IQ_TAG@.len() != SUCCESS_TAG@.len());
    assert(IQ_TAG@.len() != STREAM_TAG@.len() && IQ_TAG@.len() != FEATURES_TAG@.len());
}

/// The protocol's answer to a block of bytes from the server: the first
/// event it gives with the number of bytes used (all of them when the
/// stream starts over or ends), or `None` when the block is used up.
pub open spec fn spec_receive_bytes(p: ProtocolView, bytes: Seq<u8>) -> (
    ProtocolView,
    Result<Option<(EventView, nat)>, StreamError>,
) {
    if p.phase == StreamPhase::Error {
        (p, Err(StreamError::BadStream(ALREADY_ERRORED)))
    } else {
        let (s1, out) = spec_stream(p.stream, bytes, 0);
        let p1 = ProtocolView { stream: s1, ..p };
        match out {
            Ok(Some((StreamOut::Element(d), n))) => {
                let (p2, r) = spec_receive(p1, name_of(d, 0), d);
                match r {
                    Ok((e, reset)) => (
                        p2,
                        Ok(
                            Some(
                                (
                                    e,
                                    if reset {
                                        bytes.len()
                                    } else {
                                        n
                                    },
                                ),
                            ),
                        ),
                    ),
                    Err(e) => (p2, Err(e)),
                }
            },
            Ok(Some((StreamOut::End, _))) => (p1, Ok(Some((EventView::End, bytes.len())))),
            Ok(None) => (p1, Ok(None)),
            Err(e) => (p1, Err(stream_error(e))),
        }
    }
}

/// Law of the stream end: the protocol reports the end event, using the
/// whole block, when the server's stream ends, and only then.
pub proof fn law_stream_end_reported(p: ProtocolView, bytes: Seq<u8>)
    ensures
        (p.phase != StreamPhase::Error && (spec_stream(p.stream, bytes, 0).1 matches Ok(
            Some((StreamOut::End, _)),
        ))) ==> spec_receive_bytes(p, bytes).1 == Ok::<Option<(EventView, nat)>, StreamError>(
            Some((EventView::End, bytes.len())),
        ),
        (spec_receive_bytes(p, bytes).1 matches Ok(Some((EventView::End, _)))) ==> (p.phase
            != StreamPhase::Error && (spec_stream(p.stream, bytes, 0).1 matches Ok(
            Some((StreamOut::End, _)),
        ))),
{
    if p.phase != StreamPhase::Error {
        let (s1, out) = spec_stream(p.stream, bytes, 0);
        if let Ok(Some((StreamOut::Element(d), n))) = out {
            let p1 = ProtocolView { stream: s1, ..p };
            let (p2, r) = spec_receive(p1, name_of(d, 0), d);
            assert(!(r matches Ok((EventView::End, _))));
        }
    }
}

pub open spec fn received_view(r: Result<Option<(XmppClientProtocolEvent, usize)>, StreamError>) -> Result<
    Option<(EventView, nat)>,
    StreamError,
> {
    match r {
        Ok(Some((e, n))) => Ok(Some((event_view(e), n as nat))),
        Ok(None) => Ok(None),
        Err(e) => Err(e),
    }
}

impl XmppClientProtocol {
    /// What the client sends on its own: the stream header after
    /// connecting and after the TLS handshake.
    pub fn send_bytes(&mut self) -> (r: Option<Vec<u8>>)
        requires
            old(self).wf(),
        ensures
            final(self).wf(),
            old(self)@.phase == StreamPhase::Connected ==> final(self)@ == (ProtocolView {
                phase: StreamPhase::StartSent,
                ..old(self)@
            }) && (r matches Some(b) && b@ == encode_utf8(XML_DECLARATION@ + header_text(
                old(self)@.jid,
            ))),
            old(self)@.phase == StreamPhase::Handshake ==> final(self)@ == (ProtocolView {
                phase: StreamPhase::SecureStartSent,
                ..old(self)@
            }) && (r matches Some(b) && b@ == encode_utf8(header_text(old(self)@.jid))),
            old(self)@.phase != StreamPhase::Connected && old(self)@.phase != StreamPhase::Handshake
                ==> final(self)@ == old(self)@ && r is None,
    {
        match self.state {
            StreamPhase::Connected => {
                let mut bytes: Vec<u8> = Vec::new();
                push_text(&mut bytes, XML_DECLARATION);
                self.extend_with_header(&mut bytes);
                proof {
                    crate::utf8_text::lemma_encode_concat(XML_DECLARATION@, header_text(self@.jid));
                    assert(bytes@ =~= encode_utf8(XML_DECLARATION@ + header_text(self@.jid)));
                }
                self.state = StreamPhase::StartSent;
                Some(bytes)
            },
            StreamPhase::Handshake => {
                let mut bytes: Vec<u8> = Vec::new();
                self.extend_with_header(&mut bytes);
                assert(bytes@ =~= encode_utf8(header_text(self@.jid)));
                self.state = StreamPhase::SecureStartSent;
                Some(bytes)
            },
            _ => None,
        }
    }

    /// Takes bytes from the server and gives the first event they make,
    /// with the number of bytes used.
    pub fn receive_bytes(&mut self, bytes: &[u8]) -> (r: Result<
        Option<(XmppClientProtocolEvent, usize)>,
        StreamError,
    >)
        requires
            old(self).wf(),
        ensures
            final(self).wf(),
            r != Err::<Option<(XmppClientProtocolEvent, usize)>, StreamError>(StreamError::NoMemory)
                ==> (final(self)@, received_view(r)) == spec_receive_bytes(old(self)@, bytes@),
            old(self)@.phase == StreamPhase::Error ==> r == Err::<
                Option<(XmppClientProtocolEvent, usize)>,
                StreamError,
            >(StreamError::BadStream(ALREADY_ERRORED)) && final(self)@ == old(self)@,
            r == Err::<Option<(XmppClientProtocolEvent, usize)>, StreamError>(StreamError::NoMemory)
                ==> final(self)@.phase == old(self)@.phase && block_no_room(
                old(self)@.stream.sax,
                bytes@,
                final(self)@.stream.sax,
                final(self)@.stream.build,
                final(self).parser().size_hint(),
                final(self).parser().document(),
            ),
    {
        if self.state == StreamPhase::Error {
            return Err(StreamError::BadStream(ALREADY_ERRORED));
        }
        match self.stream_parser.parse_bytes(bytes) {
            Ok(Some((element, parsed))) => {
                let (result, reset) = match element {
                    StreamElement::Element(doc) => self.receive_element(doc)?,
                    StreamElement::End => (XmppClientProtocolEvent::End, true),
                };
                let parsed = if reset {
                    bytes.len()
                } else {
                    parsed
                };
                Ok(Some((result, parsed)))
            },
            Ok(None) => Ok(None),
            Err(err) => Err(StreamError::from_parse_error(err)),
        }
    }

    /// A lending iterator over the events of a block of bytes.
    pub fn events<'a>(&'a mut self, bytes: &'a [u8]) -> (r: XmppClientProtocolEvents<'a>)
        requires
            old(self).wf(),
        ensures
            r.bytes_parsed == 0,
            r.bytes == bytes,
            *r.protocol == *old(self),
            *final(self) == *final(r.protocol),
    {
        XmppClientProtocolEvents::new(self, bytes)
    }
}

/// Lending iterator over the protocol events of one block of bytes.
pub struct XmppClientProtocolEvents<'a> {
    pub protocol: &'a mut XmppClientProtocol,
    pub bytes: &'a [u8],
    pub bytes_parsed: usize,
}

impl<'a> XmppClientProtocolEvents<'a> {
    pub fn new(protocol: &'a mut XmppClientProtocol, bytes: &'a [u8]) -> (r: Self)
        ensures
            r.bytes_parsed == 0,
            r.bytes == bytes,
            *r.protocol == *old(protocol),
            *final(protocol) == *final(r.protocol),
    {
        XmppClientProtocolEvents { protocol, bytes, bytes_parsed: 0 }
    }

    /// The next event of the block, `None` when the block is used up.
    pub fn next(&mut self) -> (r: Option<Result<XmppClientProtocolEvent, StreamError>>)
        requires
            old(self).protocol.wf(),
            old(self).bytes_parsed <= old(self).bytes@.len(),
        ensures
            final(self).protocol.wf(),
            final(self).bytes == old(self).bytes,
            final(self).bytes_parsed <= final(self).bytes@.len(),
            ({
                let (p1, out) = spec_receive_bytes(
                    old(self).protocol@,
                    old(self).bytes@.subrange(
                        old(self).bytes_parsed as int,
                        old(self).bytes@.len() as int,
                    ),
                );
                r != Some(Err::<XmppClientProtocolEvent, StreamError>(StreamError::NoMemory)) ==> {
                    &&& final(self).protocol@ == p1
                    &&& match out {
                        Ok(Some((e, n))) => r matches Some(Ok(ev)) && event_view(ev) == e
                            && final(self).bytes_parsed == old(self).bytes_parsed + n,
                        Ok(None) => r is None && final(self).bytes_parsed == old(self).bytes@.len(),
                        Err(e) => r == Some(Err::<XmppClientProtocolEvent, StreamError>(e)),
                    }
                }
            }),
            old(self).protocol@.phase == StreamPhase::Error ==> r == Some(
                Err::<XmppClientProtocolEvent, StreamError>(StreamError::BadStream(ALREADY_ERRORED)),
            ) && final(self).protocol@ == old(self).protocol@,
            r == Some(Err::<XmppClientProtocolEvent, StreamError>(StreamError::NoMemory)) ==> block_no_room(
                old(self).protocol@.stream.sax,
                old(self).bytes@.subrange(old(self).bytes_parsed as int, old(self).bytes@.len() as int),
                final(self).protocol@.stream.sax,
                final(self).protocol@.stream.build,
                final(self).protocol.parser().size_hint(),
                final(self).protocol.parser().document(),
            ),
    {
        let rest = vstd::slice::slice_subrange(self.bytes, self.bytes_parsed, self.bytes.len());
        proof {
            crate::stream::lemma_stream_pos(self.protocol@.stream, rest@, 0);
        }
        match self.protocol.receive_bytes(rest) {
            Ok(Some((event, n))) => {
                self.bytes_parsed = self.bytes_parsed + n;
                Some(Ok(event))
            },
            Ok(None) => {
                self.bytes_parsed = self.bytes.len();
                None
            },
            Err(err) => Some(Err(err)),
        }
    }
}

} // verus!
