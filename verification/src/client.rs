use vstd::prelude::*;

use crate::document::{Cursor, Document, inserted};
use crate::entities::{lemma_ascii_len, utf8_len};
use vstd::string::StringSliceAdditionalSpecFns;
use crate::error::ParseError;
use crate::jid::{Jid, chars_of, find_char, full_text, lemma_find_char};
use crate::protocol::{XmppClientProtocol, password_ok};
use crate::tree::{NodeView, attrs_set, fresh, with_attrs};

verus! {

/// The connection timeout when none is given, in seconds.
pub const CONNECTION_TIMEOUT_SECS: u64 = 30;

/// The position of the last `c` in `s` before position `k`.
pub open spec fn rfind_char(s: Seq<char>, c: char, k: int) -> Option<int>
    decreases k,
{
    if k <= 0 || k > s.len() {
        None
    } else if s[k - 1] == c {
        Some(k - 1)
    } else {
        rfind_char(s, c, k - 1)
    }
}

/// A host name needs a port added when it has no `:` after its last `]`,
/// the end of a bracketed IPv6 address.
pub open spec fn spec_need_port(host: Seq<char>) -> bool {
    match rfind_char(host, ':', host.len() as int) {
        None => true,
        Some(colon) => match find_char(host, ']', 0) {
            None => false,
            Some(bracket) => colon < bracket,
        },
    }
}

/// Tells whether a host name lacks a port number.
pub fn need_port(host: &str) -> (r: bool)
    ensures
        r == spec_need_port(host@),
{
    let v = chars_of(host);
    let n = v.len();
    let mut k = n;
    while k > 0
        invariant
            v@ == host@,
            k <= n == v@.len(),
            rfind_char(host@, ':', k as int) == rfind_char(host@, ':', n as int),
        ensures
            v@ == host@,
            k <= n == v@.len(),
            rfind_char(host@, ':', k as int) == rfind_char(host@, ':', n as int),
            k == 0 || v@[k - 1] == ':',
        decreases k,
    {
        if v[k - 1] == ':' {
            break;
        }
        k = k - 1;
    }
    if k == 0 {
        return true;
    }
    let colon = k - 1;
    assert(rfind_char(host@, ':', n as int) == Some(colon as int));
    let mut b: usize = 0;
    while b < n
        invariant
            v@ == host@,
            n == v@.len(),
            rfind_char(host@, ':', n as int) == Some(colon as int),
            b <= n,
            find_char(host@, ']', b as int) == find_char(host@, ']', 0),
        decreases n - b,
    {
        if v[b] == ']' {
            return colon < b;
        }
        b = b + 1;
    }
    false
}

/// The settings of an XMPP client connection.
pub struct XmppClientBuilder {
    jid: Jid,
    server: Option<String>,
    password: String,
    connection_timeout: Option<std::time::Duration>,
    debug: bool,
}

impl XmppClientBuilder {
    pub closed spec fn wf(&self) -> bool {
        &&& self.jid.wf()
        &&& password_ok(self.password@)
        &&& (self.jid@.local matches Some(l) ==> utf8_len(l) <= 1023)
    }

    pub closed spec fn jid_view(&self) -> Jid {
        self.jid
    }

    pub closed spec fn server_view(&self) -> Option<Seq<char>> {
        match self.server {
            Some(s) => Some(s@),
            None => None,
        }
    }

    pub closed spec fn password_view(&self) -> Seq<char> {
        self.password@
    }

    pub closed spec fn timeout_view(&self) -> Option<std::time::Duration> {
        self.connection_timeout
    }

    pub closed spec fn debug_view(&self) -> bool {
        self.debug
    }

    /// Settings for the account `jid`: no server (the domain is used), the
    /// default timeout, no debug output.
    pub fn new(jid: Jid, password: String) -> (r: XmppClientBuilder)
        requires
            jid.wf(),
            password_ok(password@),
            jid@.local matches Some(l) ==> utf8_len(l) <= 1023,
        ensures
            r.wf(),
            r.jid_view() == jid,
            r.password_view() == password@,
            r.server_view() is None,
            r.timeout_view() is None,
            !r.debug_view(),
    {
        XmppClientBuilder { jid, server: None, password, connection_timeout: None, debug: false }
    }

    /// Sets the server to connect to, instead of the account's domain.
    pub fn server(self, server: Option<String>) -> (r: XmppClientBuilder)
        ensures
            r.server_view() == (match server {
                Some(s) => Some(s@),
                None => None,
            }),
            r.jid_view() == self.jid_view(),
            r.password_view() == self.password_view(),
            r.timeout_view() == self.timeout_view(),
            r.debug_view() == self.debug_view(),
            self.wf() ==> r.wf(),
    {
        XmppClientBuilder { server, ..self }
    }

    /// Sets the time allowed for connecting.
    pub fn connection_timeout(self, timeout: std::time::Duration) -> (r: XmppClientBuilder)
        ensures
            r.timeout_view() == Some(timeout),
            r.jid_view() == self.jid_view(),
            r.password_view() == self.password_view(),
            r.server_view() == self.server_view(),
            r.debug_view() == self.debug_view(),
            self.wf() ==> r.wf(),
    {
        XmppClientBuilder { connection_timeout: Some(timeout), ..self }
    }

    /// Turns the debug output on or off.
    pub fn debug(self, debug: bool) -> (r: XmppClientBuilder)
        ensures
            r.debug_view() == debug,
            r.jid_view() == self.jid_view(),
            r.password_view() == self.password_view(),
            r.server_view() == self.server_view(),
            r.timeout_view() == self.timeout_view(),
            self.wf() ==> r.wf(),
    {
        XmppClientBuilder { debug, ..self }
    }

    /// The host to connect to: the server if one is set, otherwise the
    /// domain of the account.
    pub fn host(&self) -> (r: &str)
        ensures
            r@ == (match self.server_view() {
                Some(s) => s,
                None => self.jid_view()@.domain,
            }),
    {
        match &self.server {
            Some(s) => s.as_str(),
            None => self.jid.domainpart(),
        }
    }

    /// The connection timeout, if one is set.
    pub fn timeout(&self) -> (r: Option<std::time::Duration>)
        ensures
            r == self.timeout_view(),
    {
        self.connection_timeout
    }

    /// Whether the debug output is on.
    pub fn is_debug(&self) -> (r: bool)
        ensures
            r == self.debug_view(),
    {
        self.debug
    }

    /// The protocol state for these settings.
    pub fn into_protocol(self) -> (r: XmppClientProtocol)
        requires
            self.wf(),
        ensures
            r.wf(),
            r@.phase == crate::protocol::StreamPhase::Connected,
            r@.jid == self.jid_view()@,
            r@.password == self.password_view(),
    {
        XmppClientProtocol::new(self.jid, self.password)
    }
}

/// The message stanza to `to` with the text `body`.
pub open spec fn message_tree(to: Seq<char>, body: Seq<char>) -> Seq<NodeView> {
    let d0 = seq![fresh(true, "message"@)];
    let d1 = with_attrs(d0, 0, attrs_set(Seq::empty(), "to"@, Some(to)));
    let d2 = inserted(d1, 0, true, "body"@);
    inserted(d2, 1, false, body)
}

/// The UTF-8 length of a short ASCII name.
proof fn lemma_name_len(s: &str)
    requires
        forall|i: int| 0 <= i < s@.len() ==> (s@[i] as u32) < 0x80,
    ensures
        s.spec_bytes().len() == s@.len(),
{
    lemma_ascii_len(s@);
}

/// Builds a message stanza. It is built unless the address or the text
/// takes more than a sixteenth of the address space.
pub fn message_stanza(to: &Jid, body: &str) -> (r: Result<Document, ParseError>)
    requires
        to.wf(),
    ensures
        r matches Ok(d) ==> d.wf() && d@ == message_tree(full_text(to@), body@),
        r matches Err(e) ==> e == ParseError::NoMemory,
        utf8_len(full_text(to@)) <= usize::MAX / 16 && utf8_len(body@) <= usize::MAX / 16 ==> r is Ok,
{
    let full = to.full();
    let n1 = full.as_bytes().len();
    let n2 = body.as_bytes().len();
    let hint: usize = if n1 <= usize::MAX / 16 && n2 <= usize::MAX / 16 {
        13 + n1 + n2
    } else {
        0
    };
    proof {
        reveal_strlit("message");
        reveal_strlit("to");
        reveal_strlit("body");
        lemma_name_len("message");
        lemma_name_len("to");
        lemma_name_len("body");
    }
    let mut doc = Document::with_size_hint("message", hint)?;
    let root = doc.root();
    proof {
        doc.lemma_tree();
    }
    let root = root.set_attribute(&mut doc, "to", Some(full))?;
    let b = root.insert_tag(&mut doc, "body")?;
    proof {
        doc.lemma_tree();
        assert(doc@[1].children.len() == 0);
    }
    let _ = b.insert_cdata(&mut doc, body)?;
    Ok(doc)
}

/// The roster request from `from`.
pub open spec fn roster_tree(from: Seq<char>) -> Seq<NodeView> {
    let d0 = seq![fresh(true, "iq"@)];
    let a1 = attrs_set(Seq::empty(), "type"@, Some("get"@));
    let a2 = attrs_set(a1, "from"@, Some(from));
    let a3 = attrs_set(a2, "id"@, Some("roster"@));
    let d1 = with_attrs(d0, 0, a3);
    let d2 = inserted(d1, 0, true, "query"@);
    with_attrs(d2, 1, attrs_set(Seq::empty(), "xmlns"@, Some("jabber:iq:roster"@)))
}

/// Builds a roster request. It is built unless the address takes more than
/// an eighth of the address space.
pub fn roster_stanza(from: &Jid) -> (r: Result<Document, ParseError>)
    requires
        from.wf(),
    ensures
        r matches Ok(d) ==> d.wf() && d@ == roster_tree(full_text(from@)),
        r matches Err(e) ==> e == ParseError::NoMemory,
        utf8_len(full_text(from@)) <= usize::MAX / 8 ==> r is Ok,
{
    let full = from.full();
    let n = full.as_bytes().len();
    let hint: usize = if n <= usize::MAX / 8 {
        47 + n
    } else {
        0
    };
    proof {
        reveal_strlit("iq");
        reveal_strlit("type");
        reveal_strlit("get");
        reveal_strlit("from");
        reveal_strlit("id");
        reveal_strlit("roster");
        reveal_strlit("query");
        reveal_strlit("xmlns");
        reveal_strlit("jabber:iq:roster");
        lemma_name_len("iq");
        lemma_name_len("type");
        lemma_name_len("get");
        lemma_name_len("from");
        lemma_name_len("id");
        lemma_name_len("roster");
        lemma_name_len("query");
        lemma_name_len("xmlns");
        lemma_name_len("jabber:iq:roster");
    }
    let mut doc = Document::with_size_hint("iq", hint)?;
    let root = doc.root();
    proof {
        doc.lemma_tree();
    }
    let root = root.set_attribute(&mut doc, "type", Some("get"))?;
    proof {
        doc.lemma_tree();
    }
    let root = root.set_attribute(&mut doc, "from", Some(full))?;
    proof {
        doc.lemma_tree();
    }
    let root = root.set_attribute(&mut doc, "id", Some("roster"))?;
    let q = root.insert_tag(&mut doc, "query")?;
    proof {
        doc.lemma_tree();
    }
    let _ = q.set_attribute(&mut doc, "xmlns", Some("jabber:iq:roster"))?;
    Ok(doc)
}

} // verus!
