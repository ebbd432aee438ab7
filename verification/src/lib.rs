//! Iks: an XML parser library for Jabber/XMPP and general XML processing.
//!
//! The SAX parser reads XML byte streams and reports their elements; the
//! document builder and parser turn them into element trees kept in a
//! memory arena; cursors edit and query the trees; the stream parser and
//! the client protocol handle XMPP streams; XPath selects nodes.

mod arena;
mod blocks;
mod client;
pub mod description;
mod doc_parser;
mod document;
mod entities;
mod error;
mod handler;
mod jid;
pub mod lint;
mod location;
mod parser;
mod protocol;
mod std_specs;
mod stream;
mod tree;
mod utf8_text;
mod xpath;

pub use arena::{Arena, ArenaSlot, ArenaStats, ArenaStr, MIN_CDATA_BYTES, MIN_STRUCT_WORDS};
pub use client::{
    CONNECTION_TIMEOUT_SECS, XmppClientBuilder, message_stanza, need_port, roster_stanza,
};
pub use doc_parser::{DocumentBuilder, DocumentParser};
pub use document::{
    Ancestor, Attributes, Children, Cursor, DescendantOrSelf, Document, FollowingSibling,
    PrecedingSibling,
};
pub use entities::{escape, escaped_size};
pub use error::{NoMemory, ParseError};
pub use handler::{Parser, SaxError, SaxHandler};
pub use jid::{BadJid, Jid};
pub use location::Location;
pub use parser::{SaxElement, SaxElements, SaxParser, is_valid_xml_char};
pub use protocol::{
    StreamPhase, XmppClientProtocol, XmppClientProtocolEvent, XmppClientProtocolEvents,
    auth_payload_bytes, auth_request,
};
pub use stream::{
    StreamElement, StreamElements, StreamError, StreamParser, XMPP_CLIENT_PORT, XMPP_SERVER_PORT,
};
pub use xpath::{Axis, BadXPath, XPath, XPathSequence, XPathValue};
