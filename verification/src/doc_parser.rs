use vstd::prelude::*;

use crate::arena::{MIN_CDATA_BYTES, fails_to_store};
use crate::entities::utf8_len;
use crate::description::{NO_DOCUMENT, NO_START_TAG, TAG_MISMATCH};
use crate::document::{
    Cursor, Document, attr_edit_error, cdata_no_room, child_edit_error, inserted, last_cdata,
    node_no_room, target,
};
use crate::error::ParseError;
use crate::location::Location;
use crate::blocks::{element_state, lemma_element_state, spec_elements};
use crate::parser::{
    SaxElement, SaxEvent, SaxModel, SaxParser, initial_model, lemma_next_progress, lemma_parse_bad,
    lemma_parse_pos,
    resumes, spec_finish, spec_next,
};
use crate::tree::{NodeView, attr_find, fresh, name_of, with_attrs, with_text};
use crate::utf8_text::str_eq;
use vstd::string::StringSliceAdditionalSpecFns;

verus! {

/// What a document builder holds: the document built so far, if any, and
/// the tag that new content goes into.
pub struct BuildView {
    pub doc: Option<Seq<NodeView>>,
    pub node: Option<usize>,
}

/// The parent of the node a cursor stands on.
pub open spec fn parent_node(node: Option<usize>, d: Seq<NodeView>) -> Option<usize> {
    match target(Cursor { node }, d) {
        Some(i) => d[i as int].parent,
        None => None,
    }
}

/// One element added to the builder: the new state and the outcome. A
/// document with as many nodes as `usize` counts takes no new node; the
/// running out of memory is otherwise left out.
pub open spec fn spec_build(b: BuildView, e: SaxEvent) -> (BuildView, Result<(), ParseError>) {
    match b.doc {
        None => match e {
            SaxEvent::StartTag(n) => (
                BuildView { doc: Some(seq![fresh(true, n)]), node: Some(0usize) },
                Ok(()),
            ),
            _ => (b, Err(ParseError::BadXml(NO_START_TAG))),
        },
        Some(d) => {
            let c = Cursor { node: b.node };
            match e {
                SaxEvent::StartTag(n) => match child_edit_error(c, d) {
                    Some(err) => (b, Err(err)),
                    None => if d.len() >= usize::MAX {
                        (b, Err(ParseError::NoMemory))
                    } else {
                        (
                            BuildView {
                                doc: Some(inserted(d, b.node->0, true, n)),
                                node: Some(d.len() as usize),
                            },
                            Ok(()),
                        )
                    },
                },
                SaxEvent::Attribute(n, v) => match attr_edit_error(c, d) {
                    Some(err) => (b, Err(err)),
                    None => {
                        let i = b.node->0;
                        if attr_find(d[i as int].attrs, n, 0) is Some {
                            (b, Err(ParseError::BadXml(crate::description::DUPLICATE_ATTRIBUTE)))
                        } else {
                            (
                                BuildView {
                                    doc: Some(with_attrs(d, i, d[i as int].attrs.push((n, v)))),
                                    node: b.node,
                                },
                                Ok(()),
                            )
                        }
                    },
                },
                SaxEvent::StartTagContent => (b, Ok(())),
                SaxEvent::StartTagEmpty => (
                    BuildView { doc: b.doc, node: parent_node(b.node, d) },
                    Ok(()),
                ),
                SaxEvent::CData(s) => match child_edit_error(c, d) {
                    Some(err) => (b, Err(err)),
                    None => {
                        let i = b.node->0;
                        match last_cdata(d, i) {
                            Some(l) => (
                                BuildView {
                                    doc: Some(with_text(d, l, d[l as int].text + s)),
                                    node: b.node,
                                },
                                Ok(()),
                            ),
                            None => if d.len() >= usize::MAX {
                                (b, Err(ParseError::NoMemory))
                            } else {
                                (
                                    BuildView { doc: Some(inserted(d, i, false, s)), node: b.node },
                                    Ok(()),
                                )
                            },
                        }
                    },
                },
                SaxEvent::EndTag(n) => {
                    let current = match target(c, d) {
                        Some(i) => name_of(d, i),
                        None => Seq::empty(),
                    };
                    if n != current {
                        (b, Err(ParseError::BadXml(TAG_MISMATCH)))
                    } else {
                        (BuildView { doc: b.doc, node: parent_node(b.node, d) }, Ok(()))
                    }
                },
            }
        },
    }
}

/// The room for character data that a new document starts with, for a
/// size hint: the hint, or the arena's smallest chunk where the hint is
/// smaller.
pub open spec fn cdata_room(size_hint: usize) -> usize {
    if size_hint > MIN_CDATA_BYTES {
        size_hint
    } else {
        MIN_CDATA_BYTES
    }
}

/// Adding the element `e` to a builder that held `b` failed for want of
/// memory, `after` being the document the builder holds afterwards: the
/// first document could not be made (its size hint or root name takes
/// more than a quarter of the address space), or the document's arena, as
/// left, cannot store the text that the element adds.
pub open spec fn build_no_room(b: BuildView, size_hint: usize, after: Option<Document>, e: SaxEvent) -> bool {
    match b.doc {
        None => match e {
            SaxEvent::StartTag(n) => !(size_hint <= usize::MAX / 4 && utf8_len(n) <= usize::MAX / 4),
            _ => false,
        },
        Some(d) => match after {
            None => false,
            Some(fd) => match e {
                SaxEvent::StartTag(n) => node_no_room(d, fd, utf8_len(n)),
                SaxEvent::Attribute(n, v) => fails_to_store(fd.arena_view(), utf8_len(n))
                    || fails_to_store(fd.arena_view(), utf8_len(v)),
                SaxEvent::CData(t) => cdata_no_room(d, b.node->0, fd, t),
                _ => false,
            },
        },
    }
}

/// Builds a document from the elements of a SAX parser.
pub struct DocumentBuilder {
    doc: Option<Document>,
    node: Option<usize>,
    size_hint: usize,
}

impl View for DocumentBuilder {
    type V = BuildView;

    closed spec fn view(&self) -> BuildView {
        BuildView {
            doc: match self.doc {
                Some(d) => Some(d@),
                None => None,
            },
            node: self.node,
        }
    }
}

impl DocumentBuilder {
    pub closed spec fn wf(&self) -> bool {
        self.doc matches Some(d) ==> d.wf()
    }

    /// The document that the builder holds is a tree.
    pub proof fn lemma_tree(&self)
        requires
            self.wf(),
        ensures
            self@.doc matches Some(d) ==> crate::tree::tree_ok(d),
    {
        if let Some(d) = self.doc {
            d.lemma_tree();
        }
    }

    /// The document built so far, as held.
    pub closed spec fn document(&self) -> Option<Document> {
        self.doc
    }

    /// The room for character data, in bytes, that the document which the
    /// builder creates is asked to start with; 0 for the arena's default.
    pub closed spec fn size_hint(&self) -> usize {
        self.size_hint
    }

    /// An empty builder.
    pub fn new() -> (r: DocumentBuilder)
        ensures
            r.wf(),
            r@.doc is None,
            r@.node is None,
            r.size_hint() == 0,
    {
        DocumentBuilder { doc: None, node: None, size_hint: 0 }
    }

    /// An empty builder whose documents start with room for `size_hint`
    /// bytes of character data.
    pub fn with_size_hint(size_hint: usize) -> (r: DocumentBuilder)
        ensures
            r.wf(),
            r@.doc is None,
            r@.node is None,
            r.size_hint() == size_hint,
    {
        DocumentBuilder { doc: None, node: None, size_hint }
    }

    /// Adds one element: a start tag opens a tag (the first one creates the
    /// document), attributes and character data go into the open tag, and
    /// an end tag closes it after checking its name. The document that the
    /// first start tag creates starts with the room for character data that
    /// the size hint asks for.
    pub fn append_element(&mut self, element: &SaxElement) -> (r: Result<(), ParseError>)
        requires
            old(self).wf(),
        ensures
            final(self).wf(),
            final(self).size_hint() == old(self).size_hint(),
            old(self)@.doc is None && r is Ok ==> (final(self).document() matches Some(d)
                && d.arena_view().cdata_chunks()[0].size == cdata_room(old(self).size_hint())),
            r != Err::<(), ParseError>(ParseError::NoMemory) ==> (final(self)@, r) == spec_build(
                old(self)@,
                element@,
            ),
            r == Err::<(), ParseError>(ParseError::NoMemory) ==> final(self)@ == old(self)@
                && build_no_room(old(self)@, old(self).size_hint(), final(self).document(), element@),
    {
        match &mut self.doc {
            None => match element {
                SaxElement::StartTag(name) => {
                    let doc = if self.size_hint > 0 {
                        Document::with_size_hint(name.as_str(), self.size_hint)
                    } else {
                        Document::new(name.as_str())
                    };
                    match doc {
                        Ok(doc) => {
                            self.node = Some(0);
                            self.doc = Some(doc);
                            Ok(())
                        },
                        Err(e) => Err(e),
                    }
                },
                _ => Err(ParseError::BadXml(NO_START_TAG)),
            },
            Some(doc) => {
                let c = Cursor { node: self.node };
                match element {
                    SaxElement::StartTag(name) => {
                        let n = c.insert_tag(doc, name.as_str())?;
                        proof {
                            doc.lemma_tree();
                        }
                        self.node = n.node;
                        Ok(())
                    },
                    SaxElement::Attribute(name, value) => {
                        c.insert_attribute(doc, name.as_str(), value.as_str())?;
                        Ok(())
                    },
                    SaxElement::StartTagContent => Ok(()),
                    SaxElement::StartTagEmpty => {
                        self.node = c.parent(doc).node;
                        Ok(())
                    },
                    SaxElement::CData(s) => {
                        c.insert_cdata(doc, s.as_str())?;
                        proof {
                            doc.lemma_tree();
                        }
                        Ok(())
                    },
                    SaxElement::EndTag(name) => {
                        if !str_eq(name.as_str(), c.name(doc)) {
                            return Err(ParseError::BadXml(TAG_MISMATCH));
                        }
                        self.node = c.parent(doc).node;
                        Ok(())
                    },
                }
            },
        }
    }

    /// The document built so far.
    pub fn peek(&self) -> (r: Option<&Document>)
        ensures
            r == (match self.document() {
                Some(d) => Some(&d),
                None => None::<&Document>,
            }),
            r matches Some(d) ==> self@.doc == Some(d@) && (self.wf() ==> d.wf()),
            r is None ==> self@.doc is None,
    {
        self.doc.as_ref()
    }

    /// Takes the document out, leaving the builder without one.
    pub fn take(&mut self) -> (r: Option<Document>)
        requires
            old(self).wf(),
        ensures
            final(self).wf(),
            final(self).size_hint() == old(self).size_hint(),
            r == old(self).document(),
            final(self)@.doc is None,
            final(self)@.node == old(self)@.node,
            r matches Some(d) ==> d.wf() && old(self)@.doc == Some(d@),
            r is None ==> old(self)@.doc is None,
    {
        self.doc.take()
    }

    /// Puts a document in, returning the one held before.
    pub fn replace(&mut self, doc: Document) -> (r: Option<Document>)
        requires
            old(self).wf(),
            doc.wf(),
        ensures
            final(self).wf(),
            final(self).size_hint() == old(self).size_hint(),
            r == old(self).document(),
            final(self).document() == Some(doc),
            final(self)@.node == old(self)@.node,
    {
        let mut held = Some(doc);
        core::mem::swap(&mut held, &mut self.doc);
        held
    }
}

/// Feeding the block `bytes`, of which `parsed` bytes are used, to a
/// parser and a builder: each element goes to the builder until the block
/// is used up or an error comes.
pub open spec fn spec_feed(m: SaxModel, b: BuildView, bytes: Seq<u8>, parsed: nat) -> (
    SaxModel,
    BuildView,
    Result<(), ParseError>,
)
    decreases bytes.len() - parsed, (if resumes(m.state) {
        1int
    } else {
        0int
    }),
{
    if parsed > bytes.len() {
        (m, b, Ok(()))
    } else {
        let (m1, p1, r) = spec_next(m, bytes, parsed);
        match r {
            None => (m1, b, Ok(())),
            Some(Err(e)) => (m1, b, Err(e)),
            Some(Ok(e)) => {
                let (b1, br) = spec_build(b, e);
                match br {
                    Err(err) => (m1, b1, Err(err)),
                    Ok(_) => {
                        proof {
                            lemma_next_progress(m, bytes, parsed);
                        }
                        spec_feed(m1, b1, bytes, p1)
                    },
                }
            },
        }
    }
}

/// Feeding the block `bytes` to a parser in state `m` stopped for want of
/// memory at one of its elements: the parser is where that element left
/// it, and the builder, holding `b` and `doc`, had no room for it.
pub open spec fn block_no_room(
    m: SaxModel,
    bytes: Seq<u8>,
    last: SaxModel,
    b: BuildView,
    size_hint: usize,
    doc: Option<Document>,
) -> bool {
    exists|k: nat|
        0 < k <= spec_elements(m, bytes, 0).1.len() && last == (#[trigger] element_state(
            m,
            bytes,
            0,
            k,
        )).0 && build_no_room(b, size_hint, doc, spec_elements(m, bytes, 0).1[k - 1])
}

/// Parses XML bytes into a document.
pub struct DocumentParser {
    builder: DocumentBuilder,
    parser: SaxParser,
}

impl DocumentParser {
    pub closed spec fn wf(&self) -> bool {
        self.builder.wf() && self.parser.wf()
    }

    /// The state of the SAX parser.
    pub closed spec fn parser_view(&self) -> SaxModel {
        self.parser@
    }

    /// The state of the builder.
    pub closed spec fn builder_view(&self) -> BuildView {
        self.builder@
    }

    /// The document held by the builder.
    pub closed spec fn document(&self) -> Option<Document> {
        self.builder.document()
    }

    /// The size hint of the builder: the room for character data that a
    /// new document starts with.
    pub closed spec fn size_hint(&self) -> usize {
        self.builder.size_hint()
    }

    /// The document that the builder holds is a tree.
    pub proof fn lemma_builder_tree(&self)
        requires
            self.wf(),
        ensures
            self.builder_view().doc matches Some(d) ==> crate::tree::tree_ok(d),
    {
        if let Some(d) = self.builder.doc {
            d.lemma_tree();
        }
    }

    pub fn new() -> (r: DocumentParser)
        ensures
            r.wf(),
            r.parser_view() == initial_model(),
            r.builder_view().doc is None,
            r.builder_view().node is None,
            r.size_hint() == 0,
    {
        DocumentParser { builder: DocumentBuilder::new(), parser: SaxParser::new() }
    }

    /// A parser whose documents start with room for `size_hint` bytes of
    /// character data.
    pub fn with_size_hint(size_hint: usize) -> (r: DocumentParser)
        ensures
            r.wf(),
            r.parser_view() == initial_model(),
            r.builder_view().doc is None,
            r.builder_view().node is None,
            r.size_hint() == size_hint,
    {
        DocumentParser { builder: DocumentBuilder::with_size_hint(size_hint), parser: SaxParser::new() }
    }

    /// Parses a block of bytes, building the document from its elements.
    /// Input can be given in several blocks.
    pub fn parse_bytes(&mut self, bytes: &[u8]) -> (r: Result<(), ParseError>)
        requires
            old(self).wf(),
        ensures
            final(self).wf(),
            final(self).size_hint() == old(self).size_hint(),
            r != Err::<(), ParseError>(ParseError::NoMemory) ==> (
                final(self).parser_view(),
                final(self).builder_view(),
                r,
            ) == spec_feed(old(self).parser_view(), old(self).builder_view(), bytes@, 0),
            r == Err::<(), ParseError>(ParseError::NoMemory) ==> block_no_room(
                old(self).parser_view(),
                bytes@,
                final(self).parser_view(),
                final(self).builder_view(),
                final(self).size_hint(),
                final(self).document(),
            ),
    {
        let mut parsed: usize = 0;
        let ghost mut k: nat = 0;
        let ghost m0 = self.parser@;
        let ghost all = spec_elements(m0, bytes@, 0);
        loop
            invariant
                self.wf(),
                self.builder.size_hint == old(self).builder.size_hint,
                parsed <= bytes@.len(),
                m0 == old(self).parser@,
                all == spec_elements(m0, bytes@, 0),
                k <= all.1.len(),
                (self.parser@, parsed as nat) == element_state(m0, bytes@, 0, k),
                spec_elements(self.parser@, bytes@, parsed as nat) == (all.0, all.1.skip(k as int), all.2),
                spec_feed(self.parser@, self.builder@, bytes@, parsed as nat) == spec_feed(
                    old(self).parser@,
                    old(self).builder@,
                    bytes@,
                    0,
                ),
            decreases bytes@.len() - parsed, (if resumes(self.parser@.state) {
                1int
            } else {
                0int
            }),
        {
            let ghost mk = self.parser@;
            if parsed >= bytes.len() {
                return Ok(());
            }
            let rest = vstd::slice::slice_subrange(bytes, parsed, bytes.len());
            proof {
                lemma_parse_pos(self.parser@, rest@, 0);
                lemma_next_progress(mk, bytes@, parsed as nat);
                assert(rest@ == bytes@.subrange(parsed as int, bytes@.len() as int));
            }
            match self.parser.parse_bytes(rest) {
                Ok(Some((element, n))) => {
                    let ghost p1 = parsed;
                    parsed = parsed + n;
                    proof {
                        let (m2, p2, nx) = spec_next(mk, bytes@, p1 as nat);
                        assert(nx == Some(Ok::<SaxEvent, ParseError>(element@)));
                        assert(spec_elements(mk, bytes@, p1 as nat).1[0] == element@);
                        assert(all.1.skip(k as int).len() > 0);
                        assert(all.1.skip(k as int)[0] == all.1[k as int]);
                        assert(element@ == all.1[k as int]);
                        k = k + 1;
                        lemma_element_state(m0, bytes@, 0, k);
                    }
                    let b = self.builder.append_element(&element);
                    match b {
                        Ok(()) => {},
                        Err(e) => {
                            proof {
                                if e == ParseError::NoMemory {
                                    assert(build_no_room(
                                        self.builder@,
                                        self.builder.size_hint,
                                        self.builder.doc,
                                        all.1[k - 1],
                                    ));
                                    assert(block_no_room(
                                        m0,
                                        bytes@,
                                        self.parser@,
                                        self.builder@,
                                        self.builder.size_hint,
                                        self.builder.doc,
                                    ));
                                }
                            }
                            return Err(e);
                        },
                    }
                },
                Ok(None) => {
                    return Ok(());
                },
                Err(e) => {
                    proof {
                        lemma_parse_bad(mk, rest@, 0);
                    }
                    return Err(e);
                },
            }
        }
    }

    /// Checks that the document is complete and gives it out.
    pub fn into_document(self) -> (r: Result<Document, ParseError>)
        requires
            self.wf(),
        ensures
            match spec_finish(self.parser_view()) {
                Err(e) => r == Err::<Document, ParseError>(e),
                Ok(_) => match self.document() {
                    None => r == Err::<Document, ParseError>(ParseError::BadXml(NO_DOCUMENT)),
                    Some(d) => r == Ok::<Document, ParseError>(d) && d.wf(),
                },
            },
    {
        let mut p = self;
        p.take_document()
    }

    /// Checks that the document is complete and takes it out.
    pub fn take_document(&mut self) -> (r: Result<Document, ParseError>)
        requires
            old(self).wf(),
        ensures
            final(self).wf(),
            match spec_finish(old(self).parser_view()) {
                Err(e) => r == Err::<Document, ParseError>(e) && *final(self) == *old(self),
                Ok(_) => {
                    &&& match old(self).document() {
                        None => r == Err::<Document, ParseError>(ParseError::BadXml(NO_DOCUMENT)),
                        Some(d) => r == Ok::<Document, ParseError>(d) && d.wf(),
                    }
                    &&& final(self).document() is None
                    &&& final(self).parser_view() == old(self).parser_view()
                    &&& final(self).size_hint() == old(self).size_hint()
                },
            },
    {
        self.parser.parse_finish()?;
        match self.builder.take() {
            None => Err(ParseError::BadXml(NO_DOCUMENT)),
            Some(doc) => Ok(doc),
        }
    }

    /// Hands a used document to the builder, so that its memory is reused.
    pub fn reuse_document_memory(&mut self, doc: Document)
        requires
            old(self).wf(),
            doc.wf(),
        ensures
            final(self).wf(),
            final(self).document() == Some(doc),
            final(self).parser_view() == old(self).parser_view(),
            final(self).size_hint() == old(self).size_hint(),
    {
        let _old = self.builder.replace(doc);
    }

    /// The location of the next byte to read.
    pub fn location(&self) -> (l: Location)
        ensures
            l == self.parser_view().location,
    {
        self.parser.location()
    }
}

impl Document {
    /// Parses a whole document.
    pub fn from_str(s: &str) -> (r: Result<Document, ParseError>)
        ensures
            r matches Ok(d) ==> d.wf(),
            r != Err::<Document, ParseError>(ParseError::NoMemory) ==> ({
                let (m, b, fed) = spec_feed(initial_model(), BuildView { doc: None, node: None }, s.spec_bytes(), 0);
                match fed {
                    Err(e) => r == Err::<Document, ParseError>(e),
                    Ok(_) => match spec_finish(m) {
                        Err(e) => r == Err::<Document, ParseError>(e),
                        Ok(_) => match b.doc {
                            None => r == Err::<Document, ParseError>(ParseError::BadXml(NO_DOCUMENT)),
                            Some(v) => r matches Ok(d) && d@ == v,
                        },
                    },
                }
            }),
    {
        let mut parser = DocumentParser::new();
        parser.parse_bytes(s.as_bytes())?;
        parser.into_document()
    }
}

} // verus!
