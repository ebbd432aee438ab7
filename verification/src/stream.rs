use vstd::prelude::*;

use crate::blocks::{element_state, lemma_element_state, spec_elements};
use crate::doc_parser::{BuildView, DocumentBuilder, block_no_room, build_no_room, spec_build};
use crate::document::{Cursor, Document};
use crate::error::ParseError;
use crate::parser::{
    SaxElement, SaxEvent, SaxModel, SaxParser, initial_model, lemma_next_progress, lemma_parse_bad,
    lemma_parse_pos,
    resumes, spec_next,
};
use crate::tree::{NodeView, name_of};
use crate::utf8_text::str_eq;

verus! {

/// The root tag of an XMPP stream.
pub const STREAM_TAG: &'static str = "stream:stream";
pub const FEATURES_TAG: &'static str = "stream:features";
pub const PROCEED_TAG: &'static str = "proceed";
pub const SUCCESS_TAG: &'static str = "success";
pub const MESSAGE_TAG: &'static str = "message";
pub const PRESENCE_TAG: &'static str = "presence";
pub const IQ_TAG: &'static str = "iq";

/// The TCP port of XMPP client connections.
pub const XMPP_CLIENT_PORT: u16 = 5222;

/// The TCP port of XMPP server connections.
pub const XMPP_SERVER_PORT: u16 = 5269;

/// The errors of an XMPP stream: those of the XML below it, and protocol
/// problems.
#[derive(Debug, PartialEq, Eq, Copy, Clone)]
pub enum StreamError {
    NoMemory,
    BadXml(&'static str),
    BadStream(&'static str),
}

impl StreamError {
    /// The stream error for an XML error.
    pub fn from_parse_error(err: ParseError) -> (r: StreamError)
        ensures
            r == stream_error(err),
    {
        match err {
            ParseError::NoMemory => StreamError::NoMemory,
            ParseError::BadXml(msg) => StreamError::BadXml(msg),
        }
    }
}

pub open spec fn stream_error(err: ParseError) -> StreamError {
    match err {
        ParseError::NoMemory => StreamError::NoMemory,
        ParseError::BadXml(msg) => StreamError::BadXml(msg),
    }
}

/// What a stream parser reports: a complete top level element (the stream
/// header counts as one, without children), or the end of the stream.
pub enum StreamElement {
    Element(Document),
    End,
}

/// A stream report over the document's view.
pub enum StreamOut {
    Element(Seq<NodeView>),
    End,
}

/// The nesting level after an element.
pub open spec fn next_level(level: usize, e: SaxEvent) -> usize {
    match e {
        SaxEvent::StartTag(_) => if level < usize::MAX {
            (level + 1) as usize
        } else {
            level
        },
        SaxEvent::StartTagEmpty => if level > 0 {
            (level - 1) as usize
        } else {
            0
        },
        SaxEvent::EndTag(_) => if level > 0 {
            (level - 1) as usize
        } else {
            0
        },
        _ => level,
    }
}

/// The state of a stream parser: the XML parser, the builder of the
/// current element and the nesting level inside the stream.
pub struct StreamState {
    pub sax: SaxModel,
    pub build: BuildView,
    pub level: usize,
}

/// Parsing the block `bytes` from `parsed` on: the state afterwards and
/// the first complete element with the position after it, or `None`
/// when the block is used up first, or the first error.
pub open spec fn spec_stream(s: StreamState, bytes: Seq<u8>, parsed: nat) -> (
    StreamState,
    Result<Option<(StreamOut, nat)>, ParseError>,
)
    decreases bytes.len() - parsed, (if resumes(s.sax.state) {
        1int
    } else {
        0int
    }),
{
    if parsed >= bytes.len() {
        (s, Ok(None))
    } else {
        let (m1, p1, r) = spec_next(s.sax, bytes, parsed);
        match r {
            None => (StreamState { sax: m1, ..s }, Ok(None)),
            Some(Err(e)) => (StreamState { sax: m1, ..s }, Err(e)),
            Some(Ok(e)) => {
                if e matches SaxEvent::EndTag(n) && s.level == 0 && n == STREAM_TAG@ {
                    (StreamState { sax: m1, ..s }, Ok(Some((StreamOut::End, p1))))
                } else {
                    let level1 = next_level(s.level, e);
                    let (b1, br) = spec_build(s.build, e);
                    match br {
                        Err(err) => (StreamState { sax: m1, build: b1, level: level1 }, Err(err)),
                        Ok(_) => {
                            let header = e is StartTagContent && level1 == 1 && (b1.doc matches Some(
                                d,
                            ) && name_of(d, 0) == STREAM_TAG@);
                            let closed = (e is EndTag || e is StartTagEmpty) && level1 == 0
                                && b1.doc is Some;
                            if header {
                                (
                                    StreamState {
                                        sax: m1,
                                        build: BuildView { doc: None, node: b1.node },
                                        level: 0,
                                    },
                                    Ok(Some((StreamOut::Element(b1.doc->0), p1))),
                                )
                            } else if closed {
                                (
                                    StreamState {
                                        sax: m1,
                                        build: BuildView { doc: None, node: b1.node },
                                        level: level1,
                                    },
                                    Ok(Some((StreamOut::Element(b1.doc->0), p1))),
                                )
                            } else {
                                proof {
                                    lemma_next_progress(s.sax, bytes, parsed);
                                }
                                spec_stream(
                                    StreamState { sax: m1, build: b1, level: level1 },
                                    bytes,
                                    p1,
                                )
                            }
                        },
                    }
                }
            },
        }
    }
}

/// The position returned with an element never passes the end of the block.
pub proof fn lemma_stream_pos(s: StreamState, bytes: Seq<u8>, parsed: nat)
    requires
        parsed <= bytes.len(),
    ensures
        spec_stream(s, bytes, parsed).1 matches Ok(Some((_, n))) ==> parsed <= n <= bytes.len(),
    decreases bytes.len() - parsed, (if resumes(s.sax.state) {
        1int
    } else {
        0int
    }),
{
    if parsed < bytes.len() {
        let (m1, p1, r) = spec_next(s.sax, bytes, parsed);
        lemma_next_progress(s.sax, bytes, parsed);
        if let Some(Ok(e)) = r {
            let level1 = next_level(s.level, e);
            let (b1, br) = spec_build(s.build, e);
            lemma_stream_pos(StreamState { sax: m1, build: b1, level: level1 }, bytes, p1);
        }
    }
}

pub open spec fn stream_view(r: Result<Option<(StreamElement, usize)>, ParseError>) -> Result<
    Option<(StreamOut, nat)>,
    ParseError,
> {
    match r {
        Ok(Some((StreamElement::Element(d), n))) => Ok(Some((StreamOut::Element(d@), n as nat))),
        Ok(Some((StreamElement::End, n))) => Ok(Some((StreamOut::End, n as nat))),
        Ok(None) => Ok(None),
        Err(e) => Err(e),
    }
}

/// Parses an XMPP stream: one XML document whose root, the stream tag,
/// stays open, and whose children are reported one by one as documents.
pub struct StreamParser {
    sax_parser: SaxParser,
    builder: DocumentBuilder,
    level: usize,
}

impl View for StreamParser {
    type V = StreamState;

    closed spec fn view(&self) -> StreamState {
        StreamState { sax: self.sax_parser@, build: self.builder@, level: self.level }
    }
}

impl StreamParser {
    pub closed spec fn wf(&self) -> bool {
        self.sax_parser.wf() && self.builder.wf()
    }

    /// The document of the element being built, as held.
    pub closed spec fn document(&self) -> Option<Document> {
        self.builder.document()
    }

    /// The size hint of the builder of the elements.
    pub closed spec fn size_hint(&self) -> usize {
        self.builder.size_hint()
    }

    /// The document that the builder holds is a tree.
    pub proof fn lemma_tree(&self)
        requires
            self.wf(),
        ensures
            self@.build.doc matches Some(d) ==> crate::tree::tree_ok(d),
    {
        self.builder.lemma_tree();
    }

    pub fn new() -> (r: StreamParser)
        ensures
            r.wf(),
            r@.sax == initial_model(),
            r@.build.doc is None,
            r@.build.node is None,
            r@.level == 0,
    {
        StreamParser { sax_parser: SaxParser::new(), builder: DocumentBuilder::new(), level: 0 }
    }

    /// Starts over, as for a new stream.
    pub fn reset(&mut self)
        requires
            old(self).wf(),
        ensures
            final(self).wf(),
            final(self)@.sax == initial_model(),
            final(self)@.build.doc is None,
            final(self)@.build.node == old(self)@.build.node,
            final(self)@.level == 0,
    {
        self.sax_parser.reset();
        let _ = self.builder.take();
        self.level = 0;
    }

    /// Parses the block up to the next complete element; returns it with
    /// the number of bytes used, or `None` when all bytes are used.
    pub fn parse_bytes(&mut self, bytes: &[u8]) -> (r: Result<
        Option<(StreamElement, usize)>,
        ParseError,
    >)
        requires
            old(self).wf(),
        ensures
            final(self).wf(),
            r matches Ok(Some((StreamElement::Element(d), _))) ==> d.wf(),
            r != Err::<Option<(StreamElement, usize)>, ParseError>(ParseError::NoMemory) ==> (
                final(self)@,
                stream_view(r),
            ) == spec_stream(old(self)@, bytes@, 0),
            r == Err::<Option<(StreamElement, usize)>, ParseError>(ParseError::NoMemory)
                ==> block_no_room(
                old(self)@.sax,
                bytes@,
                final(self)@.sax,
                final(self)@.build,
                final(self).size_hint(),
                final(self).document(),
            ),
    {
        let mut parsed: usize = 0;
        let ghost mut k: nat = 0;
        let ghost m0 = self.sax_parser@;
        let ghost all = spec_elements(m0, bytes@, 0);
        loop
            invariant
                self.wf(),
                parsed <= bytes@.len(),
                m0 == old(self)@.sax,
                all == spec_elements(m0, bytes@, 0),
                k <= all.1.len(),
                (self.sax_parser@, parsed as nat) == element_state(m0, bytes@, 0, k),
                spec_elements(self.sax_parser@, bytes@, parsed as nat) == (all.0, all.1.skip(k as int), all.2),
                spec_stream(self@, bytes@, parsed as nat) == spec_stream(old(self)@, bytes@, 0),
            decreases bytes@.len() - parsed, (if resumes(self.sax_parser@.state) {
                1int
            } else {
                0int
            }),
        {
            if parsed >= bytes.len() {
                return Ok(None);
            }
            let ghost s0 = self@;
            let rest = vstd::slice::slice_subrange(bytes, parsed, bytes.len());
            proof {
                lemma_parse_pos(self.sax_parser@, rest@, 0);
                lemma_next_progress(s0.sax, bytes@, parsed as nat);
                assert(rest@ == bytes@.subrange(parsed as int, bytes@.len() as int));
            }
            let ghost mk = self.sax_parser@;
            let ghost p1 = parsed;
            let element = match self.sax_parser.parse_bytes(rest) {
                Ok(Some((element, n))) => {
                    parsed = parsed + n;
                    element
                },
                Ok(None) => {
                    return Ok(None);
                },
                Err(e) => {
                    proof {
                        lemma_parse_bad(mk, rest@, 0);
                    }
                    return Err(e);
                },
            };
            proof {
                let (m2, p2, nx) = spec_next(mk, bytes@, p1 as nat);
                assert(nx == Some(Ok::<SaxEvent, ParseError>(element@)));
                assert(spec_elements(mk, bytes@, p1 as nat).1[0] == element@);
                assert(all.1.skip(k as int).len() > 0);
                assert(all.1.skip(k as int)[0] == all.1[k as int]);
                k = k + 1;
                lemma_element_state(m0, bytes@, 0, k);
            }
            match &element {
                SaxElement::StartTag(_) => {
                    if self.level < usize::MAX {
                        self.level = self.level + 1;
                    }
                },
                SaxElement::StartTagEmpty => {
                    if self.level > 0 {
                        self.level = self.level - 1;
                    }
                },
                SaxElement::EndTag(name) => {
                    if self.level == 0 && str_eq(name.as_str(), STREAM_TAG) {
                        return Ok(Some((StreamElement::End, parsed)));
                    }
                    if self.level > 0 {
                        self.level = self.level - 1;
                    }
                },
                _ => {},
            }
            match self.builder.append_element(&element) {
                Ok(()) => {},
                Err(e) => {
                    proof {
                        if e == ParseError::NoMemory {
                            assert(build_no_room(
                                self.builder@,
                                self.builder.size_hint(),
                                self.builder.document(),
                                all.1[k - 1],
                            ));
                            assert(block_no_room(
                                m0,
                                bytes@,
                                self.sax_parser@,
                                self.builder@,
                                self.builder.size_hint(),
                                self.builder.document(),
                            ));
                        }
                    }
                    return Err(e);
                },
            }
            match &element {
                SaxElement::StartTagContent => {
                    if self.level == 1 && self.is_stream_header() {
                        match self.builder.take() {
                            Some(doc) => {
                                self.level = 0;
                                return Ok(Some((StreamElement::Element(doc), parsed)));
                            },
                            None => {},
                        }
                    }
                },
                SaxElement::EndTag(_) | SaxElement::StartTagEmpty => {
                    if self.level == 0 {
                        match self.builder.take() {
                            Some(doc) => {
                                return Ok(Some((StreamElement::Element(doc), parsed)));
                            },
                            None => {},
                        }
                    }
                },
                _ => {},
            }
        }
    }

    /// The document being built has the stream tag as its root.
    fn is_stream_header(&self) -> (r: bool)
        requires
            self.wf(),
        ensures
            r == (self@.build.doc matches Some(d) && name_of(d, 0) == STREAM_TAG@),
    {
        match self.builder.peek() {
            Some(doc) => {
                let root = doc.root();
                proof {
                    doc.lemma_tree();
                }
                str_eq(root.name(doc), STREAM_TAG)
            },
            None => false,
        }
    }

    /// A lending iterator over the elements of a block.
    pub fn elements<'a>(&'a mut self, bytes: &'a [u8]) -> (r: StreamElements<'a>)
        requires
            old(self).wf(),
        ensures
            r.bytes_parsed == 0,
            r.bytes == bytes,
            *r.parser == *old(self),
            *final(self) == *final(r.parser),
    {
        StreamElements::new(self, bytes)
    }
}

/// Lending iterator over the stream elements of one block.
pub struct StreamElements<'a> {
    pub parser: &'a mut StreamParser,
    pub bytes: &'a [u8],
    pub bytes_parsed: usize,
}

impl<'a> StreamElements<'a> {
    pub fn new(parser: &'a mut StreamParser, bytes: &'a [u8]) -> (r: Self)
        ensures
            r.bytes_parsed == 0,
            r.bytes == bytes,
            *r.parser == *old(parser),
            *final(parser) == *final(r.parser),
    {
        StreamElements { parser, bytes, bytes_parsed: 0 }
    }

    /// The next element of the block, `None` when the block is used up.
    pub fn next(&mut self) -> (r: Option<Result<StreamElement, StreamError>>)
        requires
            old(self).parser.wf(),
        ensures
            final(self).parser.wf(),
            final(self).bytes == old(self).bytes,
            old(self).bytes_parsed >= old(self).bytes@.len() ==> r is None,
            old(self).bytes_parsed < old(self).bytes@.len() ==> {
                let (s1, out) = spec_stream(
                    old(self).parser@,
                    old(self).bytes@.subrange(
                        old(self).bytes_parsed as int,
                        old(self).bytes@.len() as int,
                    ),
                    0,
                );
                r != Some(Err::<StreamElement, StreamError>(StreamError::NoMemory)) ==> {
                    &&& final(self).parser@ == s1
                    &&& match out {
                        Ok(Some((StreamOut::Element(v), n))) => r matches Some(
                            Ok(StreamElement::Element(d)),
                        ) && d@ == v && final(self).bytes_parsed == old(self).bytes_parsed + n,
                        Ok(Some((StreamOut::End, n))) => r matches Some(Ok(StreamElement::End))
                            && final(self).bytes_parsed == old(self).bytes_parsed + n,
                        Ok(None) => r is None && final(self).bytes_parsed == old(self).bytes@.len(),
                        Err(e) => r == Some(Err::<StreamElement, StreamError>(stream_error(e))),
                    }
                }
            },
            old(self).bytes_parsed < old(self).bytes@.len() && r == Some(
                Err::<StreamElement, StreamError>(StreamError::NoMemory),
            ) ==> block_no_room(
                old(self).parser@.sax,
                old(self).bytes@.subrange(old(self).bytes_parsed as int, old(self).bytes@.len() as int),
                final(self).parser@.sax,
                final(self).parser@.build,
                final(self).parser.size_hint(),
                final(self).parser.document(),
            ),
    {
        if self.bytes_parsed >= self.bytes.len() {
            return None;
        }
        let rest = vstd::slice::slice_subrange(self.bytes, self.bytes_parsed, self.bytes.len());
        proof {
            lemma_stream_pos(self.parser@, rest@, 0);
        }
        match self.parser.parse_bytes(rest) {
            Ok(Some((element, n))) => {
                self.bytes_parsed = self.bytes_parsed + n;
                Some(Ok(element))
            },
            Ok(None) => {
                self.bytes_parsed = self.bytes.len();
                None
            },
            Err(err) => Some(Err(StreamError::from_parse_error(err))),
        }
    }
}

} // verus!
