use vstd::prelude::*;

use crate::arena::{
    Arena, ArenaStats, ArenaStr, MIN_CDATA_BYTES, fails_to_store, first_room, lemma_fresh_room, lemma_round_up,
};
use crate::description::{
    CDATA_ATTRIBUTE, CDATA_CHILDREN, DUPLICATE_ATTRIBUTE, NULL_CURSOR_EDIT, ROOT_SIBLING,
};
use crate::error::{NoMemory, ParseError};
use crate::tree::{
    NodeView, attr_find, attr_lookup, attrs_set, attrs_xml, close_xml, fresh, lemma_attr_find, lemma_child_parent, lemma_link, lemma_pos_of, lemma_pos_of_unique, law_siblings_inverse, lemma_push_fresh, lemma_unlink, lemma_with_attrs, lemma_with_text, link, name_of, named_from, names_distinct, next_of, next_tag_of, open_xml, pending, pending_nodes, pos_of, preorder, preorder_children, previous_of, previous_tag_of, root_of, stack_weight, tag_before, tag_from, tree_ok, unlink, weight, weight_children, with_attrs, with_text, xml_children, xml_node,
};
use crate::entities::{escape, escape_seq, escaped_size, lemma_ascii_len, lemma_utf8_len_concat, utf8_len};
use vstd::utf8::encode_utf8;
use vstd::string::StringSliceAdditionalSpecFns;
use crate::utf8_text::str_eq;

verus! {

/// A node as stored: its strings live in the document's arena.
struct NodeData {
    parent: Option<usize>,
    is_tag: bool,
    text: ArenaStr,
    children: Vec<usize>,
    attrs: Vec<(ArenaStr, ArenaStr)>,
}

/// The node that a cursor stands on, if any.
pub open spec fn target(c: Cursor, d: Seq<NodeView>) -> Option<usize> {
    match c.node {
        Some(i) => if i < d.len() {
            Some(i)
        } else {
            None
        },
        None => None,
    }
}

/// A place in a document: a node, or nowhere (the null cursor). A cursor
/// is a plain handle; the methods take the document it belongs to. A
/// cursor whose node is not in the document counts as null.
#[derive(Clone, Copy, Debug)]
pub struct Cursor {
    pub node: Option<usize>,
}

/// An XML element tree. The strings are kept in an arena; the tree is a
/// list of nodes with node 0 as the root tag. Removed nodes stay in the
/// list, detached from the tree.
pub struct Document {
    arena: Arena,
    nodes: Vec<NodeData>,
}

spec fn attrs_text(a: Arena, s: Seq<(ArenaStr, ArenaStr)>) -> Seq<(Seq<char>, Seq<char>)> {
    Seq::new(s.len(), |k: int| (a.text(s[k].0), a.text(s[k].1)))
}

spec fn node_view(a: Arena, n: NodeData) -> NodeView {
    NodeView {
        parent: n.parent,
        is_tag: n.is_tag,
        text: a.text(n.text),
        children: n.children@,
        attrs: attrs_text(a, n.attrs@),
    }
}

spec fn node_held(a: Arena, n: NodeData) -> bool {
    &&& a.holds(n.text)
    &&& forall|k: int|
        0 <= k < n.attrs@.len() ==> a.holds(#[trigger] n.attrs@[k].0) && a.holds(n.attrs@[k].1)
}

impl View for Document {
    type V = Seq<NodeView>;

    closed spec fn view(&self) -> Seq<NodeView> {
        Seq::new(self.nodes@.len(), |i: int| node_view(self.arena, self.nodes@[i]))
    }
}

impl Document {
    /// The document's consistency: the arena is consistent and holds every
    /// string of the tree, and the tree has the shape of `tree_ok`.
    pub closed spec fn wf(&self) -> bool {
        &&& self.arena.wf()
        &&& forall|i: int| 0 <= i < self.nodes@.len() ==> node_held(self.arena, #[trigger] self.nodes@[i])
        &&& tree_ok(self@)
    }

    /// A consistent document has the shape of a tree with the root at 0.
    pub proof fn lemma_tree(&self)
        requires
            self.wf(),
        ensures
            tree_ok(self@),
    {
    }

    /// The statistics of the document's arena.
    pub closed spec fn arena_view(&self) -> Arena {
        self.arena
    }
}


/// Held strings keep their text when the arena grows, so the nodes keep
/// their views.
proof fn lemma_views_kept(a1: Arena, a2: Arena, nodes: Seq<NodeData>)
    requires
        forall|i: int| 0 <= i < nodes.len() ==> node_held(a1, #[trigger] nodes[i]),
        forall|h: ArenaStr| a1.holds(h) ==> a2.holds(h) && a2.text(h) == a1.text(h),
    ensures
        forall|i: int|
            0 <= i < nodes.len() ==> node_held(a2, #[trigger] nodes[i]) && node_view(a2, nodes[i])
                == node_view(a1, nodes[i]),
{
    assert forall|i: int| 0 <= i < nodes.len() implies node_held(a2, #[trigger] nodes[i])
        && node_view(a2, nodes[i]) == node_view(a1, nodes[i]) by {
        let n = nodes[i];
        assert(node_held(a1, n));
        assert forall|k: int| 0 <= k < n.attrs@.len() implies a2.holds(#[trigger] n.attrs@[k].0)
            && a2.holds(n.attrs@[k].1) by {
            assert(a1.holds(n.attrs@[k].0));
        }
        assert(attrs_text(a2, n.attrs@) =~= attrs_text(a1, n.attrs@)) by {
            assert forall|k: int| 0 <= k < n.attrs@.len() implies #[trigger] attrs_text(
                a2,
                n.attrs@,
            )[k] == attrs_text(a1, n.attrs@)[k] by {
                assert(a1.holds(n.attrs@[k].0));
                assert(a1.holds(n.attrs@[k].1));
            }
        }
    }
}

/// The index of `x` in a list without repeats.
fn position(v: &Vec<usize>, x: usize) -> (k: usize)
    requires
        v@.contains(x),
        forall|k1: int, k2: int| 0 <= k1 < k2 < v@.len() ==> v@[k1] != v@[k2],
    ensures
        k < v@.len(),
        v@[k as int] == x,
        k == pos_of(v@, x),
{
    let mut k: usize = 0;
    while k < v.len()
        invariant
            k <= v@.len(),
            v@.contains(x),
            forall|j: int| 0 <= j < k ==> v@[j] != x,
            forall|k1: int, k2: int| 0 <= k1 < k2 < v@.len() ==> v@[k1] != v@[k2],
        decreases v@.len() - k,
    {
        if v[k] == x {
            proof {
                lemma_pos_of(v@, x);
                let p = pos_of(v@, x);
                if p != k {
                    if p < k {
                        assert(v@[p] != x);
                    } else {
                        assert(v@[k as int] == v@[p]);
                    }
                }
            }
            return k;
        }
        k = k + 1;
    }
    proof {
        let j = choose|j: int| 0 <= j < v@.len() && v@[j] == x;
        assert(v@[j] != x);
    }
    0
}

impl Document {
    fn with_arena(arena: Arena, root_tag_name: &str) -> (r: Result<Document, ParseError>)
        requires
            arena.wf(),
        ensures
            r matches Ok(d) ==> d.wf() && d@ == seq![fresh(true, root_tag_name@)],
            r matches Ok(d) ==> d.arena_view().cdata_chunks()[0].size == arena.cdata_chunks()[0].size,
            r matches Err(e) ==> e == ParseError::NoMemory,
            r is Err ==> fails_to_store(arena, root_tag_name.spec_bytes().len()),
            r matches Ok(d) ==> first_room(d.arena_view()) >= first_room(arena)
                - root_tag_name.spec_bytes().len(),
    {
        let mut arena = arena;
        let h = match arena.push_str(root_tag_name) {
            Ok(h) => h,
            Err(_) => {
                return Err(ParseError::NoMemory);
            },
        };
        let mut nodes: Vec<NodeData> = Vec::new();
        nodes.push(
            NodeData { parent: None, is_tag: true, text: h, children: Vec::new(), attrs: Vec::new() },
        );
        let d = Document { arena, nodes };
        proof {
            assert(attrs_text(d.arena, d.nodes@[0].attrs@) =~= Seq::empty());
            assert(d@ =~= seq![fresh(true, root_tag_name@)]);
            let v = d@;
            assert(tree_ok(v));
        }
        Ok(d)
    }

    /// Creates a document with a root tag of the given name.
    pub fn new(root_tag_name: &str) -> (r: Result<Document, ParseError>)
        ensures
            r matches Ok(d) ==> d.wf() && d@ == seq![fresh(true, root_tag_name@)],
            r matches Ok(d) ==> d.arena_view().cdata_chunks()[0].size == MIN_CDATA_BYTES,
            r matches Ok(d) ==> first_room(d.arena_view()) >= MIN_CDATA_BYTES
                - root_tag_name.spec_bytes().len(),
            r matches Err(e) ==> e == ParseError::NoMemory,
            root_tag_name.spec_bytes().len() <= usize::MAX / 4 ==> r is Ok,
    {
        match Arena::new() {
            Ok(arena) => {
                proof {
                    lemma_round_up(256, 8);
                    if root_tag_name.spec_bytes().len() <= usize::MAX / 4 {
                        lemma_fresh_room(arena, root_tag_name.spec_bytes().len());
                    }
                }
                Self::with_arena(arena, root_tag_name)
            },
            Err(_) => Err(ParseError::NoMemory),
        }
    }

    /// Creates a document whose arena starts with room for `size_hint`
    /// bytes of character data.
    pub(crate) fn with_size_hint(root_tag_name: &str, size_hint: usize) -> (r: Result<
        Document,
        ParseError,
    >)
        ensures
            r matches Ok(d) ==> d.wf() && d@ == seq![fresh(true, root_tag_name@)],
            r matches Ok(d) ==> d.arena_view().cdata_chunks()[0].size == (if size_hint
                > MIN_CDATA_BYTES {
                size_hint
            } else {
                MIN_CDATA_BYTES
            }),
            r matches Err(e) ==> e == ParseError::NoMemory,
            size_hint <= usize::MAX / 4 && root_tag_name.spec_bytes().len() <= usize::MAX / 4
                ==> r is Ok,
            r matches Ok(d) ==> first_room(d.arena_view()) >= (if size_hint > MIN_CDATA_BYTES {
                size_hint
            } else {
                MIN_CDATA_BYTES
            }) - root_tag_name.spec_bytes().len(),
    {
        match Arena::with_chunk_sizes(0, size_hint) {
            Ok(arena) => {
                proof {
                    lemma_round_up(256, 8);
                    let c = arena.cdata_chunks()[0].size;
                    lemma_round_up(c as nat, 8);
                    if size_hint <= usize::MAX / 4 && root_tag_name.spec_bytes().len() <= usize::MAX / 4 {
                        lemma_fresh_room(arena, root_tag_name.spec_bytes().len());
                    }
                }
                Self::with_arena(arena, root_tag_name)
            },
            Err(_) => Err(ParseError::NoMemory),
        }
    }

    /// A cursor on the root tag.
    pub fn root(&self) -> (r: Cursor)
        ensures
            r.node == Some(0usize),
    {
        Cursor { node: Some(0) }
    }

    /// Memory usage of the document's arena.
    pub fn arena_stats(&self) -> (r: ArenaStats)
        requires
            self.wf(),
        ensures
            r.allocated_bytes == self.arena_view().allocated(),
            r.used_bytes == self.arena_view().used(),
            r.chunks == (if self.arena_view().chunk_count() > u32::MAX {
                u32::MAX as nat
            } else {
                self.arena_view().chunk_count()
            }),
    {
        self.arena.stats()
    }

    fn node_index(&self, c: Cursor) -> (r: Option<usize>)
        ensures
            r == target(c, self@),
    {
        match c.node {
            Some(i) => if i < self.nodes.len() {
                Some(i)
            } else {
                None
            },
            None => None,
        }
    }
}

impl Document {
    proof fn lemma_node(&self, i: int)
        requires
            self.wf(),
            0 <= i < self.nodes@.len(),
        ensures
            self@.len() == self.nodes@.len(),
            self@[i] == node_view(self.arena, self.nodes@[i]),
            self@[i].children == self.nodes@[i].children@,
            self@[i].parent == self.nodes@[i].parent,
            self@[i].is_tag == self.nodes@[i].is_tag,
            node_held(self.arena, self.nodes@[i]),
            self.arena.holds(self.nodes@[i].text),
            self@[i].text == self.arena.text(self.nodes@[i].text),
            self@[i].attrs.len() == self.nodes@[i].attrs@.len(),
            forall|k1: int, k2: int|
                0 <= k1 < k2 < self@[i].children.len() ==> self@[i].children[k1]
                    != self@[i].children[k2],
    {
        let d = self@;
        assert forall|k1: int, k2: int| 0 <= k1 < k2 < d[i].children.len() implies d[i].children[k1]
            != d[i].children[k2] by {
            assert(d[i].children[k1] != d[i].children[k2]);
        }
    }

    /// The index of the child of `p` at position `k` that is the first tag
    /// from there on.
    fn tag_from_exec(&self, p: usize, k: usize) -> (r: Option<usize>)
        requires
            self.wf(),
            p < self@.len(),
        ensures
            r == tag_from(self@, p, k as int),
    {
        proof {
            self.lemma_node(p as int);
        }
        let ch = &self.nodes[p].children;
        let mut j = k;
        while j < ch.len()
            invariant
                self.wf(),
                p < self@.len(),
                *ch == self.nodes@[p as int].children,
                ch@ == self@[p as int].children,
                k <= j || j == k,
                tag_from(self@, p, j as int) == tag_from(self@, p, k as int),
            decreases ch@.len() - j,
        {
            let c = ch[j];
            proof {
                lemma_child_parent(self@, p as int, j as int);
                self.lemma_node(c as int);
            }
            if self.nodes[c].is_tag {
                return Some(c);
            }
            j = j + 1;
        }
        None
    }

    /// The last tag among the children of `p` before position `k`.
    fn tag_before_exec(&self, p: usize, k: usize) -> (r: Option<usize>)
        requires
            self.wf(),
            p < self@.len(),
            k <= self@[p as int].children.len(),
        ensures
            r == tag_before(self@, p, k - 1),
    {
        proof {
            self.lemma_node(p as int);
        }
        let ch = &self.nodes[p].children;
        let mut j = k;
        while j > 0
            invariant
                self.wf(),
                p < self@.len(),
                ch@ == self@[p as int].children,
                j <= ch@.len(),
                tag_before(self@, p, j - 1) == tag_before(self@, p, k - 1),
            decreases j,
        {
            let c = ch[j - 1];
            proof {
                lemma_child_parent(self@, p as int, j - 1);
                self.lemma_node(c as int);
            }
            if self.nodes[c].is_tag {
                return Some(c);
            }
            j = j - 1;
        }
        None
    }

    /// The position of the attribute `name` of node `i`.
    fn attr_index(&self, i: usize, name: &str) -> (r: Option<usize>)
        requires
            self.wf(),
            i < self@.len(),
        ensures
            (match r {
                Some(k) => Some(k as int),
                None => None,
            }) == attr_find(self@[i as int].attrs, name@, 0),
    {
        proof {
            self.lemma_node(i as int);
        }
        let attrs = &self.nodes[i].attrs;
        let ghost all = self@[i as int].attrs;
        let mut k: usize = 0;
        while k < attrs.len()
            invariant
                self.wf(),
                i < self@.len(),
                *attrs == self.nodes@[i as int].attrs,
                all == self@[i as int].attrs,
                all == attrs_text(self.arena, attrs@),
                node_held(self.arena, self.nodes@[i as int]),
                k <= attrs@.len(),
                attr_find(all, name@, k as int) == attr_find(all, name@, 0),
            decreases attrs@.len() - k,
        {
            let n = attrs[k].0;
            assert(self.arena.holds(attrs@[k as int].0));
            let ns = self.arena.as_str(n);
            if str_eq(ns, name) {
                return Some(k);
            }
            k = k + 1;
        }
        None
    }

    /// The first child of `p` from position `k` on named `name`.
    fn named_from_exec(&self, p: usize, k: usize, name: &str) -> (r: Option<usize>)
        requires
            self.wf(),
            p < self@.len(),
        ensures
            r == named_from(self@, p, k as int, name@),
    {
        proof {
            self.lemma_node(p as int);
        }
        let ch = &self.nodes[p].children;
        let mut j = k;
        while j < ch.len()
            invariant
                self.wf(),
                p < self@.len(),
                ch@ == self@[p as int].children,
                named_from(self@, p, j as int, name@) == named_from(self@, p, k as int, name@),
            decreases ch@.len() - j,
        {
            let c = ch[j];
            proof {
                lemma_child_parent(self@, p as int, j as int);
            }
            let cur = Cursor { node: Some(c) };
            if cur.is_tag(self) && str_eq(cur.name(self), name) {
                return Some(c);
            }
            j = j + 1;
        }
        None
    }
}

impl Cursor {
    /// The null cursor.
    pub fn null() -> (r: Cursor)
        ensures
            r.node is None,
    {
        Cursor { node: None }
    }

    /// The cursor stands on no node.
    pub fn is_null(&self, doc: &Document) -> (r: bool)
        ensures
            r == (target(*self, doc@) is None),
    {
        doc.node_index(*self).is_none()
    }

    /// The cursor stands on a tag.
    pub fn is_tag(&self, doc: &Document) -> (r: bool)
        requires
            doc.wf(),
        ensures
            r == (target(*self, doc@) matches Some(i) && doc@[i as int].is_tag),
    {
        match doc.node_index(*self) {
            Some(i) => {
                proof {
                    doc.lemma_node(i as int);
                }
                doc.nodes[i].is_tag
            },
            None => false,
        }
    }

    /// The tag name; empty for character data and for the null cursor.
    pub fn name<'a>(&self, doc: &'a Document) -> (r: &'a str)
        requires
            doc.wf(),
        ensures
            r@ == (match target(*self, doc@) {
                Some(i) => name_of(doc@, i),
                None => Seq::empty(),
            }),
    {
        proof {
            reveal_strlit("");
        }
        match doc.node_index(*self) {
            Some(i) => {
                proof {
                    doc.lemma_node(i as int);
                }
                if doc.nodes[i].is_tag {
                    doc.arena.as_str(doc.nodes[i].text)
                } else {
                    ""
                }
            },
            None => "",
        }
    }

    /// The text of character data; empty for tags and for the null cursor.
    pub fn cdata<'a>(&self, doc: &'a Document) -> (r: &'a str)
        requires
            doc.wf(),
        ensures
            r@ == (match target(*self, doc@) {
                Some(i) => if doc@[i as int].is_tag {
                    Seq::empty()
                } else {
                    doc@[i as int].text
                },
                None => Seq::empty(),
            }),
    {
        proof {
            reveal_strlit("");
        }
        match doc.node_index(*self) {
            Some(i) => {
                proof {
                    doc.lemma_node(i as int);
                }
                if doc.nodes[i].is_tag {
                    ""
                } else {
                    doc.arena.as_str(doc.nodes[i].text)
                }
            },
            None => "",
        }
    }

    /// The value of the attribute `name` of the tag.
    pub fn attribute<'a>(&self, doc: &'a Document, name: &str) -> (r: Option<&'a str>)
        requires
            doc.wf(),
        ensures
            (match r {
                Some(v) => Some(v@),
                None => None,
            }) == (match target(*self, doc@) {
                Some(i) => attr_lookup(doc@[i as int].attrs, name@),
                None => None,
            }),
    {
        let i = match doc.node_index(*self) {
            Some(i) => i,
            None => {
                return None;
            },
        };
        proof {
            doc.lemma_node(i as int);
        }
        match doc.attr_index(i, name) {
            Some(k) => {
                proof {
                    doc.lemma_node(i as int);
                    lemma_attr_find(doc@[i as int].attrs, name@, 0);
                    assert(doc.arena.holds(doc.nodes@[i as int].attrs@[k as int].1));
                }
                let v = doc.nodes[i].attrs[k].1;
                let vs = doc.arena.as_str(v);
                assert(doc@[i as int].attrs[k as int].1 == vs@);
                Some(vs)
            },
            None => None,
        }
    }

    /// The next sibling.
    pub fn next(self, doc: &Document) -> (r: Cursor)
        requires
            doc.wf(),
        ensures
            r.node == (match target(self, doc@) {
                Some(i) => next_of(doc@, i),
                None => None,
            }),
    {
        let i = match doc.node_index(self) {
            Some(i) => i,
            None => {
                return Cursor { node: None };
            },
        };
        proof {
            doc.lemma_node(i as int);
        }
        match doc.nodes[i].parent {
            None => Cursor { node: None },
            Some(p) => {
                proof {
                    doc.lemma_node(p as int);
                }
                let ch = &doc.nodes[p].children;
                let k = position(ch, i);
                if k < ch.len() - 1 {
                    Cursor { node: Some(ch[k + 1]) }
                } else {
                    Cursor { node: None }
                }
            },
        }
    }

    /// The previous sibling.
    pub fn previous(self, doc: &Document) -> (r: Cursor)
        requires
            doc.wf(),
        ensures
            r.node == (match target(self, doc@) {
                Some(i) => previous_of(doc@, i),
                None => None,
            }),
    {
        let i = match doc.node_index(self) {
            Some(i) => i,
            None => {
                return Cursor { node: None };
            },
        };
        proof {
            doc.lemma_node(i as int);
        }
        match doc.nodes[i].parent {
            None => Cursor { node: None },
            Some(p) => {
                proof {
                    doc.lemma_node(p as int);
                }
                let ch = &doc.nodes[p].children;
                let k = position(ch, i);
                if k > 0 {
                    Cursor { node: Some(ch[k - 1]) }
                } else {
                    Cursor { node: None }
                }
            },
        }
    }

    /// The next sibling that is a tag.
    pub fn next_tag(self, doc: &Document) -> (r: Cursor)
        requires
            doc.wf(),
        ensures
            r.node == (match target(self, doc@) {
                Some(i) => next_tag_of(doc@, i),
                None => None,
            }),
    {
        let i = match doc.node_index(self) {
            Some(i) => i,
            None => {
                return Cursor { node: None };
            },
        };
        proof {
            doc.lemma_node(i as int);
        }
        match doc.nodes[i].parent {
            None => Cursor { node: None },
            Some(p) => {
                proof {
                    doc.lemma_node(p as int);
                }
                let k = position(&doc.nodes[p].children, i);
                let n = doc.nodes[p].children.len();
                assert(k < n);
                Cursor { node: doc.tag_from_exec(p, k + 1) }
            },
        }
    }

    /// The previous sibling that is a tag.
    pub fn previous_tag(self, doc: &Document) -> (r: Cursor)
        requires
            doc.wf(),
        ensures
            r.node == (match target(self, doc@) {
                Some(i) => previous_tag_of(doc@, i),
                None => None,
            }),
    {
        let i = match doc.node_index(self) {
            Some(i) => i,
            None => {
                return Cursor { node: None };
            },
        };
        proof {
            doc.lemma_node(i as int);
        }
        match doc.nodes[i].parent {
            None => Cursor { node: None },
            Some(p) => {
                proof {
                    doc.lemma_node(p as int);
                }
                let k = position(&doc.nodes[p].children, i);
                Cursor { node: doc.tag_before_exec(p, k) }
            },
        }
    }

    /// The parent node.
    pub fn parent(self, doc: &Document) -> (r: Cursor)
        requires
            doc.wf(),
        ensures
            r.node == (match target(self, doc@) {
                Some(i) => doc@[i as int].parent,
                None => None,
            }),
    {
        match doc.node_index(self) {
            Some(i) => {
                proof {
                    doc.lemma_node(i as int);
                }
                Cursor { node: doc.nodes[i].parent }
            },
            None => Cursor { node: None },
        }
    }

    /// The top of the tree the node is in: the root tag, or the top of a
    /// removed subtree.
    pub fn root(self, doc: &Document) -> (r: Cursor)
        requires
            doc.wf(),
        ensures
            r.node == (match target(self, doc@) {
                Some(i) => Some(root_of(doc@, i)),
                None => None,
            }),
    {
        let mut i = match doc.node_index(self) {
            Some(i) => i,
            None => {
                return Cursor { node: None };
            },
        };
        let ghost start = i;
        loop
            invariant
                doc.wf(),
                i < doc@.len(),
                target(self, doc@) == Some(start),
                root_of(doc@, i) == root_of(doc@, start),
            decreases i,
        {
            proof {
                doc.lemma_node(i as int);
            }
            match doc.nodes[i].parent {
                None => {
                    assert(root_of(doc@, i) == i);
                    return Cursor { node: Some(i) };
                },
                Some(p) => {
                    assert(p < i);
                    i = p;
                },
            }
        }
    }

    /// The first child.
    pub fn first_child(self, doc: &Document) -> (r: Cursor)
        requires
            doc.wf(),
        ensures
            r.node == (match target(self, doc@) {
                Some(i) => if doc@[i as int].children.len() > 0 {
                    Some(doc@[i as int].children[0])
                } else {
                    None
                },
                None => None,
            }),
    {
        match doc.node_index(self) {
            Some(i) => {
                proof {
                    doc.lemma_node(i as int);
                }
                let ch = &doc.nodes[i].children;
                if ch.len() > 0 {
                    Cursor { node: Some(ch[0]) }
                } else {
                    Cursor { node: None }
                }
            },
            None => Cursor { node: None },
        }
    }

    /// The last child.
    pub fn last_child(self, doc: &Document) -> (r: Cursor)
        requires
            doc.wf(),
        ensures
            r.node == (match target(self, doc@) {
                Some(i) => if doc@[i as int].children.len() > 0 {
                    Some(doc@[i as int].children.last())
                } else {
                    None
                },
                None => None,
            }),
    {
        match doc.node_index(self) {
            Some(i) => {
                proof {
                    doc.lemma_node(i as int);
                }
                let ch = &doc.nodes[i].children;
                if ch.len() > 0 {
                    Cursor { node: Some(ch[ch.len() - 1]) }
                } else {
                    Cursor { node: None }
                }
            },
            None => Cursor { node: None },
        }
    }

    /// The first child that is a tag.
    pub fn first_tag(self, doc: &Document) -> (r: Cursor)
        requires
            doc.wf(),
        ensures
            r.node == (match target(self, doc@) {
                Some(i) => tag_from(doc@, i, 0),
                None => None,
            }),
    {
        match doc.node_index(self) {
            Some(i) => Cursor { node: doc.tag_from_exec(i, 0) },
            None => Cursor { node: None },
        }
    }

    /// The first child tag whose name is `name`.
    pub fn find_tag(self, doc: &Document, name: &str) -> (r: Cursor)
        requires
            doc.wf(),
        ensures
            r.node == (match target(self, doc@) {
                Some(i) => named_from(doc@, i, 0, name@),
                None => None,
            }),
    {
        match doc.node_index(self) {
            Some(i) => Cursor { node: doc.named_from_exec(i, 0, name) },
            None => Cursor { node: None },
        }
    }
}

/// The tree after adding a node with `text` as the last child of `i`.
pub open spec fn inserted(d: Seq<NodeView>, i: usize, is_tag: bool, text: Seq<char>) -> Seq<
    NodeView,
> {
    link(d.push(fresh(is_tag, text)), i, d[i as int].children.len() as int, d.len() as usize)
}

/// The tree after adding a node with `text` next to `i`, right after it
/// (`after`) or right before it.
pub open spec fn beside(d: Seq<NodeView>, i: usize, is_tag: bool, text: Seq<char>, after: bool) -> Seq<
    NodeView,
> {
    let p = d[i as int].parent->0;
    let k = pos_of(d[p as int].children, i);
    link(
        d.push(fresh(is_tag, text)),
        p,
        if after {
            k + 1
        } else {
            k
        },
        d.len() as usize,
    )
}

/// Law of child insertion: the added node is the last child of `i`, with
/// `i` as parent, the text given and no sibling after it; the children
/// that were there keep their order before it.
pub proof fn law_inserted_last_child(d: Seq<NodeView>, i: usize, is_tag: bool, text: Seq<char>)
    requires
        tree_ok(d),
        i < d.len(),
        d[i as int].is_tag,
        d.len() < usize::MAX,
    ensures
        ({
            let e = inserted(d, i, is_tag, text);
            let n = d.len() as usize;
            &&& tree_ok(e)
            &&& e[i as int].children == d[i as int].children.push(n)
            &&& e[n as int].parent == Some(i)
            &&& e[n as int].is_tag == is_tag
            &&& e[n as int].text == text
            &&& next_of(e, n) is None
        }),
{
    let d1 = d.push(fresh(is_tag, text));
    let n = d.len() as usize;
    lemma_push_fresh(d, is_tag, text);
    lemma_link(d1, i, d[i as int].children.len() as int, n);
    let e = inserted(d, i, is_tag, text);
    assert(e[i as int].children =~= d[i as int].children.push(n));
    let s = e[i as int].children;
    assert forall|k1: int, k2: int| 0 <= k1 < k2 < s.len() implies s[k1] != s[k2] by {
        assert(e[i as int].children[k1] != e[i as int].children[k2]);
    }
    lemma_pos_of_unique(s, s.len() - 1);
}

/// Law of sibling insertion: the added node stands right after `i` when
/// `after` holds, right before it otherwise, under the same parent.
pub proof fn law_beside_neighbours(
    d: Seq<NodeView>,
    i: usize,
    is_tag: bool,
    text: Seq<char>,
    after: bool,
)
    requires
        tree_ok(d),
        i < d.len(),
        d[i as int].parent is Some,
        d.len() < usize::MAX,
    ensures
        ({
            let e = beside(d, i, is_tag, text, after);
            let n = d.len() as usize;
            &&& tree_ok(e)
            &&& e[n as int].parent == d[i as int].parent
            &&& e[n as int].is_tag == is_tag
            &&& e[n as int].text == text
            &&& after ==> next_of(e, i) == Some(n) && previous_of(e, n) == Some(i)
            &&& !after ==> previous_of(e, i) == Some(n) && next_of(e, n) == Some(i)
        }),
{
    let p = d[i as int].parent->0;
    let c = d[p as int].children;
    let k = pos_of(c, i);
    lemma_pos_of(c, i);
    let pos = if after {
        k + 1
    } else {
        k
    };
    let d1 = d.push(fresh(is_tag, text));
    let n = d.len() as usize;
    assert(d[p as int].is_tag) by {
        assert(d[p as int].children.len() > 0);
    }
    lemma_push_fresh(d, is_tag, text);
    lemma_link(d1, p, pos, n);
    let e = beside(d, i, is_tag, text, after);
    let s = e[p as int].children;
    assert(s == c.insert(pos, n));
    assert forall|k1: int, k2: int| 0 <= k1 < k2 < s.len() implies s[k1] != s[k2] by {
        assert(e[p as int].children[k1] != e[p as int].children[k2]);
    }
    assert(e[i as int].parent == Some(p));
    if after {
        assert(s[k] == i);
        lemma_pos_of_unique(s, k);
        assert(s[k + 1] == n);
    } else {
        assert(s[k + 1] == i);
        lemma_pos_of_unique(s, k + 1);
        assert(s[k] == n);
    }
    law_siblings_inverse(e, i);
}

/// Law of removal: the removed node has no parent any more and its old
/// parent keeps its other children in their order.
pub proof fn law_unlinked(d: Seq<NodeView>, i: usize)
    requires
        tree_ok(d),
        i < d.len(),
        d[i as int].parent is Some,
    ensures
        ({
            let e = unlink(d, i);
            let p = d[i as int].parent->0;
            &&& tree_ok(e)
            &&& e[i as int].parent is None
            &&& !e[p as int].children.contains(i)
            &&& e[p as int].children == d[p as int].children.remove(pos_of(d[p as int].children, i))
            &&& e[i as int].children == d[i as int].children
        }),
{
    lemma_unlink(d, i);
    let e = unlink(d, i);
    let p = d[i as int].parent->0;
    if e[p as int].children.contains(i) {
        let k = choose|k: int| 0 <= k < e[p as int].children.len() && e[p as int].children[k] == i;
        lemma_child_parent(e, p as int, k);
    }
}

impl Document {
    /// Adds a detached node.
    fn add_node(&mut self, is_tag: bool, text: &str) -> (r: Result<usize, ParseError>)
        requires
            old(self).wf(),
        ensures
            final(self).wf(),
            r matches Ok(n) ==> n == old(self)@.len() && final(self)@ == old(self)@.push(
                fresh(is_tag, text@),
            ),
            r matches Err(e) ==> e == ParseError::NoMemory && final(self)@ == old(self)@,
            r is Err ==> node_no_room(old(self)@, *final(self), text.spec_bytes().len()),
            r is Ok ==> first_room(final(self).arena) >= first_room(old(self).arena)
                - text.spec_bytes().len(),
            old(self)@.len() < usize::MAX && first_room(old(self).arena) >= text.spec_bytes().len()
                ==> r is Ok,
    {
        if self.nodes.len() == usize::MAX {
            return Err(ParseError::NoMemory);
        }
        let ghost a0 = self.arena;
        let ghost ns = self.nodes@;
        let ghost d0 = self@;
        let r = self.arena.push_str(text);
        proof {
            lemma_views_kept(a0, self.arena, ns);
            assert(self@ =~= d0);
        }
        let h = match r {
            Ok(h) => h,
            Err(_) => {
                return Err(ParseError::NoMemory);
            },
        };
        let n = self.nodes.len();
        self.nodes.push(
            NodeData { parent: None, is_tag, text: h, children: Vec::new(), attrs: Vec::new() },
        );
        proof {
            let nd = self.nodes@[n as int];
            assert(attrs_text(self.arena, nd.attrs@) =~= Seq::empty());
            assert(node_view(self.arena, nd) == fresh(is_tag, text@));
            assert(self@ =~= d0.push(fresh(is_tag, text@)));
            lemma_push_fresh(d0, is_tag, text@);
            assert forall|j: int| 0 <= j < self.nodes@.len() implies node_held(
                self.arena,
                #[trigger] self.nodes@[j],
            ) by {
                if j < n {
                    assert(self.nodes@[j] == ns[j]);
                }
            }
        }
        Ok(n)
    }

    /// Puts the detached node `n` among the children of `p` at position
    /// `pos`.
    fn link_node(&mut self, p: usize, pos: usize, n: usize)
        requires
            old(self).wf(),
            p < n < old(self)@.len(),
            old(self)@[p as int].is_tag,
            old(self)@[n as int].parent is None,
            pos <= old(self)@[p as int].children.len(),
        ensures
            final(self).wf(),
            final(self)@ == link(old(self)@, p, pos as int, n),
            final(self).arena == old(self).arena,
    {
        let ghost d0 = self@;
        proof {
            self.lemma_node(p as int);
            self.lemma_node(n as int);
            lemma_link(d0, p, pos as int, n);
        }
        self.nodes[p].children.insert(pos, n);
        self.nodes[n].parent = Some(p);
        proof {
            let e = link(d0, p, pos as int, n);
            assert forall|j: int| 0 <= j < self.nodes@.len() implies #[trigger] self@[j] == e[j] by {
                if j == p as int {
                    assert(attrs_text(self.arena, self.nodes@[j].attrs@) == d0[j].attrs);
                } else if j == n as int {
                    assert(attrs_text(self.arena, self.nodes@[j].attrs@) == d0[j].attrs);
                } else {
                    assert(self.nodes@[j] == old(self).nodes@[j]);
                }
            }
            assert(self@ =~= e);
            assert forall|j: int| 0 <= j < self.nodes@.len() implies node_held(
                self.arena,
                #[trigger] self.nodes@[j],
            ) by {
                assert(node_held(self.arena, old(self).nodes@[j]));
                assert(self.nodes@[j].text == old(self).nodes@[j].text);
                assert(self.nodes@[j].attrs == old(self).nodes@[j].attrs);
            }
        }
    }

    /// Takes the node `i` out of its parent's children.
    fn unlink_node(&mut self, i: usize)
        requires
            old(self).wf(),
            i < old(self)@.len(),
            old(self)@[i as int].parent is Some,
        ensures
            final(self).wf(),
            final(self)@ == unlink(old(self)@, i),
    {
        let ghost d0 = self@;
        proof {
            self.lemma_node(i as int);
            lemma_unlink(d0, i);
        }
        let p = self.nodes[i].parent.unwrap();
        proof {
            self.lemma_node(p as int);
        }
        let k = position(&self.nodes[p].children, i);
        self.nodes[p].children.remove(k);
        self.nodes[i].parent = None;
        proof {
            let e = unlink(d0, i);
            assert forall|j: int| 0 <= j < self.nodes@.len() implies #[trigger] self@[j] == e[j] by {
                if j == p as int {
                    assert(attrs_text(self.arena, self.nodes@[j].attrs@) == d0[j].attrs);
                } else if j == i as int {
                    assert(attrs_text(self.arena, self.nodes@[j].attrs@) == d0[j].attrs);
                } else {
                    assert(self.nodes@[j] == old(self).nodes@[j]);
                }
            }
            assert(self@ =~= e);
            assert forall|j: int| 0 <= j < self.nodes@.len() implies node_held(
                self.arena,
                #[trigger] self.nodes@[j],
            ) by {
                assert(node_held(self.arena, old(self).nodes@[j]));
                assert(self.nodes@[j].text == old(self).nodes@[j].text);
                assert(self.nodes@[j].attrs == old(self).nodes@[j].attrs);
            }
        }
    }

    /// Adds a node with `text` as the last child of the tag `i`.
    fn insert_child(&mut self, i: usize, is_tag: bool, text: &str) -> (r: Result<usize, ParseError>)
        requires
            old(self).wf(),
            i < old(self)@.len(),
            old(self)@[i as int].is_tag,
        ensures
            final(self).wf(),
            r matches Ok(n) ==> n == old(self)@.len() && final(self)@ == inserted(
                old(self)@,
                i,
                is_tag,
                text@,
            ),
            r matches Err(e) ==> e == ParseError::NoMemory && final(self)@ == old(self)@,
            r is Err ==> node_no_room(old(self)@, *final(self), text.spec_bytes().len()),
            r is Ok ==> first_room(final(self).arena) >= first_room(old(self).arena)
                - text.spec_bytes().len(),
            old(self)@.len() < usize::MAX && first_room(old(self).arena) >= text.spec_bytes().len()
                ==> r is Ok,
    {
        let ghost d0 = self@;
        let n = self.add_node(is_tag, text)?;
        proof {
            self.lemma_node(i as int);
        }
        let pos = self.nodes[i].children.len();
        self.link_node(i, pos, n);
        Ok(n)
    }

    /// Adds a node with `text` right after or right before the node `i`.
    fn insert_beside(&mut self, i: usize, is_tag: bool, text: &str, after: bool) -> (r: Result<
        usize,
        ParseError,
    >)
        requires
            old(self).wf(),
            i < old(self)@.len(),
            old(self)@[i as int].parent is Some,
        ensures
            final(self).wf(),
            r matches Ok(n) ==> n == old(self)@.len() && final(self)@ == beside(
                old(self)@,
                i,
                is_tag,
                text@,
                after,
            ),
            r matches Err(e) ==> e == ParseError::NoMemory && final(self)@ == old(self)@,
            r is Err ==> node_no_room(old(self)@, *final(self), text.spec_bytes().len()),
            r is Ok ==> first_room(final(self).arena) >= first_room(old(self).arena)
                - text.spec_bytes().len(),
            old(self)@.len() < usize::MAX && first_room(old(self).arena) >= text.spec_bytes().len()
                ==> r is Ok,
    {
        let ghost d0 = self@;
        proof {
            self.lemma_node(i as int);
        }
        let p = self.nodes[i].parent.unwrap();
        proof {
            self.lemma_node(p as int);
            assert(d0[p as int].is_tag);
        }
        let k = position(&self.nodes[p].children, i);
        let clen = self.nodes[p].children.len();
        assert(k < clen);
        let n = self.add_node(is_tag, text)?;
        proof {
            self.lemma_node(p as int);
        }
        let pos = if after {
            k + 1
        } else {
            k
        };
        self.link_node(p, pos, n);
        Ok(n)
    }
}

/// Adding a node whose text has `n` bytes failed for want of memory: the
/// document had as many nodes as `usize` counts, or its arena, as the edit
/// left it, cannot store the text.
pub open spec fn node_no_room(before: Seq<NodeView>, after: Document, n: nat) -> bool {
    before.len() == usize::MAX || fails_to_store(after.arena_view(), n)
}

/// Adding character data to the tag `i` failed for want of memory: when
/// the last child is character data, the arena as left cannot store the
/// joined text; otherwise a new node could not be added.
pub open spec fn cdata_no_room(before: Seq<NodeView>, i: usize, after: Document, cdata: Seq<char>) -> bool {
    match last_cdata(before, i) {
        Some(l) => fails_to_store(after.arena_view(), utf8_len(before[l as int].text) + utf8_len(cdata)),
        None => node_no_room(before, after, utf8_len(cdata)),
    }
}

/// The error of an edit that adds a child: none for a tag.
pub open spec fn child_edit_error(c: Cursor, d: Seq<NodeView>) -> Option<ParseError> {
    match target(c, d) {
        None => Some(ParseError::BadXml(NULL_CURSOR_EDIT)),
        Some(i) => if d[i as int].is_tag {
            None
        } else {
            Some(ParseError::BadXml(CDATA_CHILDREN))
        },
    }
}

/// The error of an edit that adds a sibling: none for a node with a parent.
pub open spec fn sibling_edit_error(c: Cursor, d: Seq<NodeView>) -> Option<ParseError> {
    match target(c, d) {
        None => Some(ParseError::BadXml(NULL_CURSOR_EDIT)),
        Some(i) => if d[i as int].parent is Some {
            None
        } else {
            Some(ParseError::BadXml(ROOT_SIBLING))
        },
    }
}

/// The error of an attribute edit: none for a tag.
pub open spec fn attr_edit_error(c: Cursor, d: Seq<NodeView>) -> Option<ParseError> {
    match target(c, d) {
        None => Some(ParseError::BadXml(NULL_CURSOR_EDIT)),
        Some(i) => if d[i as int].is_tag {
            None
        } else {
            Some(ParseError::BadXml(CDATA_ATTRIBUTE))
        },
    }
}

/// The last child of `i` when it is character data.
pub open spec fn last_cdata(d: Seq<NodeView>, i: usize) -> Option<usize> {
    let s = d[i as int].children;
    if s.len() > 0 && !d[s.last() as int].is_tag {
        Some(s.last())
    } else {
        None
    }
}

impl Document {
    /// Makes the text of node `c` the string `h`.
    fn set_text(&mut self, c: usize, h: ArenaStr)
        requires
            old(self).wf(),
            c < old(self)@.len(),
            old(self).arena.holds(h),
        ensures
            final(self).wf(),
            final(self)@ == with_text(old(self)@, c, old(self).arena.text(h)),
            final(self).arena == old(self).arena,
    {
        let ghost d0 = self@;
        proof {
            lemma_with_text(d0, c, self.arena.text(h));
        }
        self.nodes[c].text = h;
        proof {
            let e = with_text(d0, c, old(self).arena.text(h));
            assert forall|j: int| 0 <= j < self.nodes@.len() implies #[trigger] self@[j] == e[j] by {
                if j != c as int {
                    assert(self.nodes@[j] == old(self).nodes@[j]);
                }
            }
            assert(self@ =~= e);
            assert forall|j: int| 0 <= j < self.nodes@.len() implies node_held(
                self.arena,
                #[trigger] self.nodes@[j],
            ) by {
                assert(node_held(self.arena, old(self).nodes@[j]));
                assert(self.nodes@[j].attrs == old(self).nodes@[j].attrs);
            }
        }
    }

    /// Stores a string, keeping the tree as it is.
    fn store(&mut self, s: &str) -> (r: Result<ArenaStr, ParseError>)
        requires
            old(self).wf(),
        ensures
            final(self).wf(),
            final(self)@ == old(self)@,
            final(self).nodes == old(self).nodes,
            r matches Ok(h) ==> final(self).arena.holds(h) && final(self).arena.text(h) == s@,
            r matches Err(e) ==> e == ParseError::NoMemory,
            r is Err ==> fails_to_store(final(self).arena, s.spec_bytes().len()),
            r is Ok ==> first_room(final(self).arena) >= first_room(old(self).arena) - s.spec_bytes().len(),
            first_room(old(self).arena) >= s.spec_bytes().len() ==> r is Ok,
            forall|h: ArenaStr|
                old(self).arena.holds(h) ==> final(self).arena.holds(h) && final(self).arena.text(h)
                    == old(self).arena.text(h),
    {
        let ghost a0 = self.arena;
        let ghost d0 = self@;
        let r = self.arena.push_str(s);
        proof {
            lemma_views_kept(a0, self.arena, self.nodes@);
            assert(self@ =~= d0);
        }
        match r {
            Ok(h) => Ok(h),
            Err(_) => Err(ParseError::NoMemory),
        }
    }

    /// Makes `new` the attribute list of the tag `i`.
    proof fn lemma_attrs_replaced(&self, before: Document, i: usize)
        requires
            before.wf(),
            self.arena.wf(),
            i < before@.len(),
            before@[i as int].is_tag,
            self.arena == before.arena,
            self.nodes@.len() == before.nodes@.len(),
            forall|j: int| 0 <= j < self.nodes@.len() && j != i ==> self.nodes@[j] == before.nodes@[j],
            self.nodes@[i as int].text == before.nodes@[i as int].text,
            self.nodes@[i as int].parent == before.nodes@[i as int].parent,
            self.nodes@[i as int].is_tag == before.nodes@[i as int].is_tag,
            self.nodes@[i as int].children == before.nodes@[i as int].children,
            node_held(self.arena, self.nodes@[i as int]),
            names_distinct(attrs_text(self.arena, self.nodes@[i as int].attrs@)),
        ensures
            self.wf(),
            self@ == with_attrs(before@, i, attrs_text(self.arena, self.nodes@[i as int].attrs@)),
    {
        let a = attrs_text(self.arena, self.nodes@[i as int].attrs@);
        lemma_with_attrs(before@, i, a);
        let e = with_attrs(before@, i, a);
        assert forall|j: int| 0 <= j < self.nodes@.len() implies #[trigger] self@[j] == e[j] by {
            if j != i as int {
                assert(self.nodes@[j] == before.nodes@[j]);
            }
        }
        assert(self@ =~= e);
        assert forall|j: int| 0 <= j < self.nodes@.len() implies node_held(
            self.arena,
            #[trigger] self.nodes@[j],
        ) by {
            if j != i as int {
                assert(self.nodes@[j] == before.nodes@[j]);
            }
        }
    }
}

impl Cursor {
    /// Adds a tag with the given name as the last child of this tag, and
    /// returns a cursor on it.
    pub fn insert_tag(self, doc: &mut Document, tag_name: &str) -> (r: Result<Cursor, ParseError>)
        requires
            old(doc).wf(),
        ensures
            final(doc).wf(),
            child_edit_error(self, old(doc)@) is None && old(doc)@.len() < usize::MAX && first_room(
                old(doc).arena_view(),
            ) >= tag_name.spec_bytes().len() ==> r is Ok,
            r is Ok ==> first_room(final(doc).arena_view()) >= first_room(old(doc).arena_view())
                - tag_name.spec_bytes().len(),
            match child_edit_error(self, old(doc)@) {
                Some(e) => r == Err::<Cursor, ParseError>(e) && final(doc)@ == old(doc)@,
                None => match r {
                    Ok(c) => c.node == Some(old(doc)@.len() as usize) && final(doc)@ == inserted(
                        old(doc)@,
                        self.node->0,
                        true,
                        tag_name@,
                    ),
                    Err(e) => e == ParseError::NoMemory && final(doc)@ == old(doc)@ && node_no_room(
                        old(doc)@,
                        *final(doc),
                        tag_name.spec_bytes().len(),
                    ),
                },
            },
    {
        let i = match doc.node_index(self) {
            Some(i) => i,
            None => {
                return Err(ParseError::BadXml(NULL_CURSOR_EDIT));
            },
        };
        proof {
            doc.lemma_node(i as int);
        }
        if !doc.nodes[i].is_tag {
            return Err(ParseError::BadXml(CDATA_CHILDREN));
        }
        let n = doc.insert_child(i, true, tag_name)?;
        Ok(Cursor { node: Some(n) })
    }

    /// Adds a tag with the given name right after this node, and returns a
    /// cursor on it.
    pub fn append_tag(self, doc: &mut Document, tag_name: &str) -> (r: Result<Cursor, ParseError>)
        requires
            old(doc).wf(),
        ensures
            final(doc).wf(),
            match sibling_edit_error(self, old(doc)@) {
                Some(e) => r == Err::<Cursor, ParseError>(e) && final(doc)@ == old(doc)@,
                None => match r {
                    Ok(c) => c.node == Some(old(doc)@.len() as usize) && final(doc)@ == beside(
                        old(doc)@,
                        self.node->0,
                        true,
                        tag_name@,
                        true,
                    ),
                    Err(e) => e == ParseError::NoMemory && final(doc)@ == old(doc)@ && node_no_room(
                        old(doc)@,
                        *final(doc),
                        tag_name.spec_bytes().len(),
                    ),
                },
            },
    {
        let i = match doc.node_index(self) {
            Some(i) => i,
            None => {
                return Err(ParseError::BadXml(NULL_CURSOR_EDIT));
            },
        };
        proof {
            doc.lemma_node(i as int);
        }
        if doc.nodes[i].parent.is_none() {
            return Err(ParseError::BadXml(ROOT_SIBLING));
        }
        let n = doc.insert_beside(i, true, tag_name, true)?;
        Ok(Cursor { node: Some(n) })
    }

    /// Adds a tag with the given name right before this node, and returns a
    /// cursor on it.
    pub fn prepend_tag(self, doc: &mut Document, tag_name: &str) -> (r: Result<Cursor, ParseError>)
        requires
            old(doc).wf(),
        ensures
            final(doc).wf(),
            match sibling_edit_error(self, old(doc)@) {
                Some(e) => r == Err::<Cursor, ParseError>(e) && final(doc)@ == old(doc)@,
                None => match r {
                    Ok(c) => c.node == Some(old(doc)@.len() as usize) && final(doc)@ == beside(
                        old(doc)@,
                        self.node->0,
                        true,
                        tag_name@,
                        false,
                    ),
                    Err(e) => e == ParseError::NoMemory && final(doc)@ == old(doc)@ && node_no_room(
                        old(doc)@,
                        *final(doc),
                        tag_name.spec_bytes().len(),
                    ),
                },
            },
    {
        let i = match doc.node_index(self) {
            Some(i) => i,
            None => {
                return Err(ParseError::BadXml(NULL_CURSOR_EDIT));
            },
        };
        proof {
            doc.lemma_node(i as int);
        }
        if doc.nodes[i].parent.is_none() {
            return Err(ParseError::BadXml(ROOT_SIBLING));
        }
        let n = doc.insert_beside(i, true, tag_name, false)?;
        Ok(Cursor { node: Some(n) })
    }

    /// Adds character data right after this node, and returns a cursor on
    /// it.
    pub fn append_cdata(self, doc: &mut Document, cdata: &str) -> (r: Result<Cursor, ParseError>)
        requires
            old(doc).wf(),
        ensures
            final(doc).wf(),
            match sibling_edit_error(self, old(doc)@) {
                Some(e) => r == Err::<Cursor, ParseError>(e) && final(doc)@ == old(doc)@,
                None => match r {
                    Ok(c) => c.node == Some(old(doc)@.len() as usize) && final(doc)@ == beside(
                        old(doc)@,
                        self.node->0,
                        false,
                        cdata@,
                        true,
                    ),
                    Err(e) => e == ParseError::NoMemory && final(doc)@ == old(doc)@ && node_no_room(
                        old(doc)@,
                        *final(doc),
                        cdata.spec_bytes().len(),
                    ),
                },
            },
    {
        let i = match doc.node_index(self) {
            Some(i) => i,
            None => {
                return Err(ParseError::BadXml(NULL_CURSOR_EDIT));
            },
        };
        proof {
            doc.lemma_node(i as int);
        }
        if doc.nodes[i].parent.is_none() {
            return Err(ParseError::BadXml(ROOT_SIBLING));
        }
        let n = doc.insert_beside(i, false, cdata, true)?;
        Ok(Cursor { node: Some(n) })
    }

    /// Adds character data right before this node, and returns a cursor on
    /// it.
    pub fn prepend_cdata(self, doc: &mut Document, cdata: &str) -> (r: Result<Cursor, ParseError>)
        requires
            old(doc).wf(),
        ensures
            final(doc).wf(),
            match sibling_edit_error(self, old(doc)@) {
                Some(e) => r == Err::<Cursor, ParseError>(e) && final(doc)@ == old(doc)@,
                None => match r {
                    Ok(c) => c.node == Some(old(doc)@.len() as usize) && final(doc)@ == beside(
                        old(doc)@,
                        self.node->0,
                        false,
                        cdata@,
                        false,
                    ),
                    Err(e) => e == ParseError::NoMemory && final(doc)@ == old(doc)@ && node_no_room(
                        old(doc)@,
                        *final(doc),
                        cdata.spec_bytes().len(),
                    ),
                },
            },
    {
        let i = match doc.node_index(self) {
            Some(i) => i,
            None => {
                return Err(ParseError::BadXml(NULL_CURSOR_EDIT));
            },
        };
        proof {
            doc.lemma_node(i as int);
        }
        if doc.nodes[i].parent.is_none() {
            return Err(ParseError::BadXml(ROOT_SIBLING));
        }
        let n = doc.insert_beside(i, false, cdata, false)?;
        Ok(Cursor { node: Some(n) })
    }

    /// Adds character data as the last child of this tag, and returns a
    /// cursor on it. When the last child is already character data, the
    /// text is appended to it instead.
    pub fn insert_cdata(self, doc: &mut Document, cdata: &str) -> (r: Result<Cursor, ParseError>)
        requires
            old(doc).wf(),
        ensures
            final(doc).wf(),
            child_edit_error(self, old(doc)@) is None && last_cdata(old(doc)@, self.node->0) is None
                && old(doc)@.len() < usize::MAX && first_room(old(doc).arena_view())
                >= cdata.spec_bytes().len() ==> r is Ok,
            r is Ok && child_edit_error(self, old(doc)@) is None && last_cdata(old(doc)@, self.node->0) is None
                ==> first_room(final(doc).arena_view()) >= first_room(old(doc).arena_view())
                - cdata.spec_bytes().len(),
            match child_edit_error(self, old(doc)@) {
                Some(e) => r == Err::<Cursor, ParseError>(e) && final(doc)@ == old(doc)@,
                None => match r {
                    Ok(c) => match last_cdata(old(doc)@, self.node->0) {
                        Some(l) => c.node == Some(l) && final(doc)@ == with_text(
                            old(doc)@,
                            l,
                            old(doc)@[l as int].text + cdata@,
                        ),
                        None => c.node == Some(old(doc)@.len() as usize) && final(doc)@ == inserted(
                            old(doc)@,
                            self.node->0,
                            false,
                            cdata@,
                        ),
                    },
                    Err(e) => e == ParseError::NoMemory && final(doc)@ == old(doc)@ && cdata_no_room(
                        old(doc)@,
                        self.node->0,
                        *final(doc),
                        cdata@,
                    ),
                },
            },
    {
        let i = match doc.node_index(self) {
            Some(i) => i,
            None => {
                return Err(ParseError::BadXml(NULL_CURSOR_EDIT));
            },
        };
        proof {
            doc.lemma_node(i as int);
        }
        if !doc.nodes[i].is_tag {
            return Err(ParseError::BadXml(CDATA_CHILDREN));
        }
        let len = doc.nodes[i].children.len();
        if len > 0 {
            let l = doc.nodes[i].children[len - 1];
            proof {
                lemma_child_parent(doc@, i as int, len - 1);
                doc.lemma_node(l as int);
            }
            if !doc.nodes[l].is_tag {
                let ghost d0 = doc@;
                let ghost a0 = doc.arena;
                let h = doc.nodes[l].text;
                let r = doc.arena.concat_str(h, cdata);
                proof {
                    lemma_views_kept(a0, doc.arena, doc.nodes@);
                    assert(doc@ =~= d0);
                }
                match r {
                    Ok(h2) => {
                        doc.set_text(l, h2);
                        return Ok(Cursor { node: Some(l) });
                    },
                    Err(_) => {
                        proof {
                            a0.lemma_text_len(h);
                            assert(a0.text(h) == d0[l as int].text);
                        }
                        return Err(ParseError::NoMemory);
                    },
                }
            }
        }
        let n = doc.insert_child(i, false, cdata)?;
        Ok(Cursor { node: Some(n) })
    }

    /// Takes the node, with its subtree, out of the document. The root and
    /// the null cursor are left alone.
    pub fn remove(self, doc: &mut Document)
        requires
            old(doc).wf(),
        ensures
            final(doc).wf(),
            final(doc)@ == (match target(self, old(doc)@) {
                Some(i) => if old(doc)@[i as int].parent is Some {
                    unlink(old(doc)@, i)
                } else {
                    old(doc)@
                },
                None => old(doc)@,
            }),
    {
        let i = match doc.node_index(self) {
            Some(i) => i,
            None => {
                return ;
            },
        };
        proof {
            doc.lemma_node(i as int);
        }
        if doc.nodes[i].parent.is_some() {
            doc.unlink_node(i);
        }
    }
}

impl Cursor {
    /// Adds an attribute to this tag; a second attribute of the same name is
    /// refused. Returns this cursor.
    pub fn insert_attribute(&self, doc: &mut Document, name: &str, value: &str) -> (r: Result<
        Cursor,
        ParseError,
    >)
        requires
            old(doc).wf(),
        ensures
            final(doc).wf(),
            match attr_edit_error(*self, old(doc)@) {
                Some(e) => r == Err::<Cursor, ParseError>(e) && final(doc)@ == old(doc)@,
                None => {
                    let i = self.node->0;
                    if attr_find(old(doc)@[i as int].attrs, name@, 0) is Some {
                        r == Err::<Cursor, ParseError>(ParseError::BadXml(DUPLICATE_ATTRIBUTE))
                            && final(doc)@ == old(doc)@
                    } else {
                        match r {
                            Ok(c) => c.node == self.node && final(doc)@ == with_attrs(
                                old(doc)@,
                                i,
                                old(doc)@[i as int].attrs.push((name@, value@)),
                            ),
                            Err(e) => e == ParseError::NoMemory && final(doc)@ == old(doc)@ && (
                            fails_to_store(final(doc).arena_view(), name.spec_bytes().len())
                                || fails_to_store(final(doc).arena_view(), value.spec_bytes().len())),
                        }
                    }
                },
            },
    {
        let i = match doc.node_index(*self) {
            Some(i) => i,
            None => {
                return Err(ParseError::BadXml(NULL_CURSOR_EDIT));
            },
        };
        proof {
            doc.lemma_node(i as int);
        }
        if !doc.nodes[i].is_tag {
            return Err(ParseError::BadXml(CDATA_ATTRIBUTE));
        }
        if doc.attr_index(i, name).is_some() {
            return Err(ParseError::BadXml(DUPLICATE_ATTRIBUTE));
        }
        let ghost d0 = doc@;
        let hn = doc.store(name)?;
        let hv = doc.store(value)?;
        let ghost before = *doc;
        proof {
            doc.lemma_node(i as int);
            lemma_attr_find(d0[i as int].attrs, name@, 0);
        }
        doc.nodes[i].attrs.push((hn, hv));
        proof {
            let a = attrs_text(doc.arena, doc.nodes@[i as int].attrs@);
            let a0 = attrs_text(before.arena, before.nodes@[i as int].attrs@);
            assert(a0 == d0[i as int].attrs);
            assert(a =~= a0.push((name@, value@)));
            assert(node_held(doc.arena, doc.nodes@[i as int])) by {
                assert(node_held(before.arena, before.nodes@[i as int]));
                assert forall|k: int| 0 <= k < doc.nodes@[i as int].attrs@.len() implies doc.arena.holds(
                    #[trigger] doc.nodes@[i as int].attrs@[k].0,
                ) && doc.arena.holds(doc.nodes@[i as int].attrs@[k].1) by {
                    if k < before.nodes@[i as int].attrs@.len() {
                        let bn = before.nodes@[i as int];
                        assert(doc.nodes@[i as int].attrs@[k] == bn.attrs@[k]);
                        assert(before.arena.holds(bn.attrs@[k].0));
                        assert(before.arena.holds(bn.attrs@[k].1));
                    } else {
                        assert(doc.nodes@[i as int].attrs@[k] == (hn, hv));
                    }
                }
            }
            assert(names_distinct(a)) by {
                assert forall|k1: int, k2: int| 0 <= k1 < k2 < a.len() implies #[trigger] a[k1].0
                    != #[trigger] a[k2].0 by {
                    if k2 < a0.len() {
                        assert(a[k1] == a0[k1] && a[k2] == a0[k2]);
                    } else {
                        assert(a[k1] == a0[k1]);
                    }
                }
            }
            doc.lemma_attrs_replaced(before, i);
        }
        Ok(Cursor { node: Some(i) })
    }

    /// Sets the attribute `name` of this tag to `value`: an existing one
    /// gets the new value, or is removed for `None`; a new one is added
    /// last. Returns this cursor.
    #[verifier::spinoff_prover]
    pub fn set_attribute(&self, doc: &mut Document, name: &str, value: Option<&str>) -> (r: Result<
        Cursor,
        ParseError,
    >)
        requires
            old(doc).wf(),
        ensures
            final(doc).wf(),
            attr_edit_error(*self, old(doc)@) is None && first_room(old(doc).arena_view())
                >= name.spec_bytes().len() + (match value {
                Some(v) => v.spec_bytes().len() as int,
                None => 0int,
            }) ==> r is Ok,
            r is Ok ==> first_room(final(doc).arena_view()) >= first_room(old(doc).arena_view())
                - name.spec_bytes().len() - (match value {
                Some(v) => v.spec_bytes().len() as int,
                None => 0int,
            }),
            match attr_edit_error(*self, old(doc)@) {
                Some(e) => r == Err::<Cursor, ParseError>(e) && final(doc)@ == old(doc)@,
                None => match r {
                    Ok(c) => c.node == self.node && final(doc)@ == with_attrs(
                        old(doc)@,
                        self.node->0,
                        attrs_set(
                            old(doc)@[self.node->0 as int].attrs,
                            name@,
                            match value {
                                Some(v) => Some(v@),
                                None => None,
                            },
                        ),
                    ),
                    Err(e) => e == ParseError::NoMemory && final(doc)@ == old(doc)@ && (value matches Some(
                        v,
                    ) && (fails_to_store(final(doc).arena_view(), name.spec_bytes().len())
                        || fails_to_store(final(doc).arena_view(), v.spec_bytes().len()))),
                },
            },
    {
        let i = match doc.node_index(*self) {
            Some(i) => i,
            None => {
                return Err(ParseError::BadXml(NULL_CURSOR_EDIT));
            },
        };
        proof {
            doc.lemma_node(i as int);
        }
        if !doc.nodes[i].is_tag {
            return Err(ParseError::BadXml(CDATA_ATTRIBUTE));
        }
        let ghost d0 = doc@;
        let ghost a0 = d0[i as int].attrs;
        proof {
            lemma_attr_find(a0, name@, 0);
        }
        match doc.attr_index(i, name) {
            Some(k) => match value {
                Some(v) => {
                    let hv = doc.store(v)?;
                    let ghost before = *doc;
                    proof {
                        doc.lemma_node(i as int);
                    }
                    let hn = doc.nodes[i].attrs[k].0;
                    doc.nodes[i].attrs.set(k, (hn, hv));
                    proof {
                        let a = attrs_text(doc.arena, doc.nodes@[i as int].attrs@);
                        let ab = attrs_text(before.arena, before.nodes@[i as int].attrs@);
                        assert(ab == a0);
                        assert(a =~= a0.update(k as int, (name@, v@)));
                        assert(node_held(doc.arena, doc.nodes@[i as int])) by {
                            assert(node_held(before.arena, before.nodes@[i as int]));
                            assert forall|m: int|
                                0 <= m < doc.nodes@[i as int].attrs@.len() implies doc.arena.holds(
                                #[trigger] doc.nodes@[i as int].attrs@[m].0,
                            ) && doc.arena.holds(doc.nodes@[i as int].attrs@[m].1) by {
                                if m != k {
                                    let bn = before.nodes@[i as int];
                                    assert(doc.nodes@[i as int].attrs@[m] == bn.attrs@[m]);
                                    assert(before.arena.holds(bn.attrs@[m].0));
                                    assert(before.arena.holds(bn.attrs@[m].1));
                                } else {
                                    assert(doc.nodes@[i as int].attrs@[m] == (hn, hv));
                                    assert(before.nodes@[i as int].attrs@[m].0 == hn);
                                }
                            }
                        }
                        assert(names_distinct(a)) by {
                            assert forall|k1: int, k2: int| 0 <= k1 < k2 < a.len() implies #[trigger] a[k1].0
                                != #[trigger] a[k2].0 by {
                                assert(a[k1].0 == a0[k1].0);
                                assert(a[k2].0 == a0[k2].0);
                            }
                        }
                        doc.lemma_attrs_replaced(before, i);
                    }
                    Ok(Cursor { node: Some(i) })
                },
                None => {
                    let ghost before = *doc;
                    doc.nodes[i].attrs.remove(k);
                    proof {
                        let a = attrs_text(doc.arena, doc.nodes@[i as int].attrs@);
                        assert(a =~= a0.remove(k as int));
                        assert(node_held(doc.arena, doc.nodes@[i as int])) by {
                            assert(node_held(before.arena, before.nodes@[i as int]));
                            assert forall|m: int|
                                0 <= m < doc.nodes@[i as int].attrs@.len() implies doc.arena.holds(
                                #[trigger] doc.nodes@[i as int].attrs@[m].0,
                            ) && doc.arena.holds(doc.nodes@[i as int].attrs@[m].1) by {
                                let bn = before.nodes@[i as int];
                                if m < k {
                                    assert(doc.nodes@[i as int].attrs@[m] == bn.attrs@[m]);
                                    assert(before.arena.holds(bn.attrs@[m].0));
                                    assert(before.arena.holds(bn.attrs@[m].1));
                                } else {
                                    assert(doc.nodes@[i as int].attrs@[m] == bn.attrs@[m + 1]);
                                    assert(before.arena.holds(bn.attrs@[m + 1].0));
                                    assert(before.arena.holds(bn.attrs@[m + 1].1));
                                }
                            }
                        }
                        assert(names_distinct(a)) by {
                            assert forall|k1: int, k2: int| 0 <= k1 < k2 < a.len() implies #[trigger] a[k1].0
                                != #[trigger] a[k2].0 by {
                                let m1 = if k1 < k { k1 } else { k1 + 1 };
                                let m2 = if k2 < k { k2 } else { k2 + 1 };
                                assert(a[k1] == a0[m1]);
                                assert(a[k2] == a0[m2]);
                            }
                        }
                        doc.lemma_attrs_replaced(before, i);
                    }
                    Ok(Cursor { node: Some(i) })
                },
            },
            None => match value {
                Some(v) => {
                    let hn = doc.store(name)?;
                    let hv = doc.store(v)?;
                    let ghost before = *doc;
                    proof {
                        doc.lemma_node(i as int);
                    }
                    doc.nodes[i].attrs.push((hn, hv));
                    proof {
                        let a = attrs_text(doc.arena, doc.nodes@[i as int].attrs@);
                        let ab = attrs_text(before.arena, before.nodes@[i as int].attrs@);
                        assert(ab == a0);
                        assert(a =~= a0.push((name@, v@)));
                        assert(node_held(doc.arena, doc.nodes@[i as int])) by {
                            assert(node_held(before.arena, before.nodes@[i as int]));
                            assert forall|m: int|
                                0 <= m < doc.nodes@[i as int].attrs@.len() implies doc.arena.holds(
                                #[trigger] doc.nodes@[i as int].attrs@[m].0,
                            ) && doc.arena.holds(doc.nodes@[i as int].attrs@[m].1) by {
                                if m < before.nodes@[i as int].attrs@.len() {
                                    let bn = before.nodes@[i as int];
                                    assert(doc.nodes@[i as int].attrs@[m] == bn.attrs@[m]);
                                    assert(before.arena.holds(bn.attrs@[m].0));
                                    assert(before.arena.holds(bn.attrs@[m].1));
                                } else {
                                    assert(doc.nodes@[i as int].attrs@[m] == (hn, hv));
                                }
                            }
                        }
                        assert(names_distinct(a)) by {
                            assert forall|k1: int, k2: int| 0 <= k1 < k2 < a.len() implies #[trigger] a[k1].0
                                != #[trigger] a[k2].0 by {
                                if k2 < a0.len() {
                                    assert(a[k1] == a0[k1] && a[k2] == a0[k2]);
                                } else {
                                    assert(a[k1] == a0[k1]);
                                }
                            }
                        }
                        doc.lemma_attrs_replaced(before, i);
                    }
                    Ok(Cursor { node: Some(i) })
                },
                None => {
                    assert(attrs_set(a0, name@, None) == a0);
                    assert(with_attrs(d0, i, a0) =~= d0);
                    Ok(Cursor { node: Some(i) })
                },
            },
        }
    }
}

/// The XML text of the node a cursor stands on; empty for the null cursor.
pub open spec fn cursor_xml(c: Cursor, d: Seq<NodeView>) -> Seq<char> {
    match target(c, d) {
        Some(i) => xml_node(d, i as int),
        None => Seq::empty(),
    }
}

impl Document {
    /// Appends the attributes of tag `i` as XML.
    fn write_attrs(&self, i: usize, out: &mut String)
        requires
            self.wf(),
            i < self@.len(),
        ensures
            final(out)@ == old(out)@ + attrs_xml(self@[i as int].attrs),
    {
        proof {
            self.lemma_node(i as int);
        }
        let attrs = &self.nodes[i].attrs;
        let ghost all = self@[i as int].attrs;
        let mut k: usize = 0;
        while k < attrs.len()
            invariant
                self.wf(),
                i < self@.len(),
                *attrs == self.nodes@[i as int].attrs,
                all == self@[i as int].attrs,
                all == attrs_text(self.arena, attrs@),
                node_held(self.arena, self.nodes@[i as int]),
                k <= attrs@.len(),
                out@ == old(out)@ + attrs_xml(all.take(k as int)),
            decreases attrs@.len() - k,
        {
            let (n, v) = attrs[k];
            assert(self.arena.holds(attrs@[k as int].0));
            assert(self.arena.holds(attrs@[k as int].1));
            let ghost before = out@;
            out.push(' ');
            out.push_str(self.arena.as_str(n));
            out.push('=');
            out.push('"');
            escape(self.arena.as_str(v), out);
            out.push('"');
            proof {
                assert(all.take(k + 1).drop_last() =~= all.take(k as int));
                assert(all.take(k + 1).last() == all[k as int]);
                assert(out@ =~= old(out)@ + attrs_xml(all.take(k + 1)));
            }
            k = k + 1;
        }
        assert(all.take(k as int) =~= all);
    }

    /// Writes the start of node `c`: the text of character data, an empty
    /// element tag, or a start tag whose frame then goes on the stack.
    fn write_start(&self, c: usize, out: &mut String, stack: &mut Vec<(usize, usize)>)
        requires
            self.wf(),
            c < self@.len(),
            frames_ok(self@, old(stack)@),
        ensures
            final(out)@ + pending(self@, final(stack)@) == old(out)@ + xml_node(self@, c as int)
                + pending(self@, old(stack)@),
            stack_weight(self@, final(stack)@) < stack_weight(self@, old(stack)@) + weight(
                self@,
                c as int,
            ),
            frames_ok(self@, final(stack)@),
    {
        proof {
            self.lemma_node(c as int);
            self.arena.lemma_text_len(self.nodes@[c as int].text);
        }
        let ghost d = self@;
        let h = self.nodes[c].text;
        if !self.nodes[c].is_tag {
            escape(self.arena.as_str(h), out);
            proof {
                assert(out@ + pending(d, stack@) =~= old(out)@ + xml_node(d, c as int) + pending(d, stack@));
            }
        } else {
            out.push('<');
            out.push_str(self.arena.as_str(h));
            self.write_attrs(c, out);
            if self.nodes[c].children.len() == 0 {
                out.push('/');
                out.push('>');
                proof {
                    assert(out@ =~= old(out)@ + xml_node(d, c as int));
                }
            } else {
                out.push('>');
                let ghost s0 = stack@;
                stack.push((c, 0));
                proof {
                    assert(stack@.drop_last() =~= s0);
                    assert(out@ + pending(d, stack@) =~= old(out)@ + xml_node(d, c as int) + pending(
                        d,
                        s0,
                    ));
                }
            }
        }
    }
}

/// Every frame of a stack names a node and a position in its children.
pub open spec fn frames_ok(d: Seq<NodeView>, stack: Seq<(usize, usize)>) -> bool {
    forall|j: int|
        0 <= j < stack.len() ==> (#[trigger] stack[j]).0 < d.len() && stack[j].1 <= d[stack[j].0 as int].children.len()
}

impl Cursor {
    /// The node and its subtree written as XML; empty for the null cursor.
    pub fn to_string(&self, doc: &Document) -> (r: String)
        requires
            doc.wf(),
            utf8_len(cursor_xml(*self, doc@)) <= usize::MAX,
        ensures
            r@ == cursor_xml(*self, doc@),
    {
        let mut out = String::with_capacity(self.str_size(doc));
        let i = match doc.node_index(*self) {
            Some(i) => i,
            None => {
                return out;
            },
        };
        let ghost d = doc@;
        let mut stack: Vec<(usize, usize)> = Vec::new();
        doc.write_start(i, &mut out, &mut stack);
        assert(out@ + pending(d, stack@) =~= xml_node(d, i as int));
        while stack.len() > 0
            invariant
                doc.wf(),
                d == doc@,
                frames_ok(d, stack@),
                out@ + pending(d, stack@) == xml_node(d, i as int),
            decreases stack_weight(d, stack@),
        {
            let top = stack.len() - 1;
            let (p, k) = stack[top];
            proof {
                doc.lemma_node(p as int);
            }
            let ghost s0 = stack@;
            if k < doc.nodes[p].children.len() {
                let c = doc.nodes[p].children[k];
                proof {
                    lemma_child_parent(d, p as int, k as int);
                }
                stack.set(top, (p, k + 1));
                proof {
                    assert(stack@.drop_last() =~= s0.drop_last());
                    assert(pending(d, s0) =~= xml_node(d, c as int) + pending(d, stack@));
                    assert(stack_weight(d, s0) == stack_weight(d, stack@) + weight(d, c as int));
                }
                doc.write_start(c, &mut out, &mut stack);
            } else {
                stack.pop();
                out.push('<');
                out.push('/');
                proof {
                    doc.arena.lemma_text_len(doc.nodes@[p as int].text);
                }
                out.push_str(doc.arena.as_str(doc.nodes[p].text));
                out.push('>');
                proof {
                    assert(s0.drop_last() =~= stack@);
                    assert(xml_children(d, p as int, k as int) =~= Seq::empty());
                    assert(out@ + pending(d, stack@) =~= xml_node(d, i as int));
                }
            }
        }
        assert(out@ =~= xml_node(d, i as int));
        out
    }
}

/// The attributes written for a start of `a` are a start of those written
/// for all of `a`.
proof fn lemma_attrs_xml_prefix(a: Seq<(Seq<char>, Seq<char>)>, k: int)
    requires
        0 <= k <= a.len(),
    ensures
        utf8_len(attrs_xml(a.take(k))) <= utf8_len(attrs_xml(a)),
    decreases a.len() - k,
{
    if k == a.len() {
        assert(a.take(k) =~= a);
    } else {
        lemma_attrs_xml_prefix(a, k + 1);
        let t = a.take(k + 1);
        assert(t.drop_last() =~= a.take(k));
        let piece = seq![' '] + t.last().0 + seq!['=', '"'] + escape_seq(t.last().1) + seq!['"'];
        assert(attrs_xml(t) =~= attrs_xml(a.take(k)) + piece);
        lemma_utf8_len_concat(attrs_xml(a.take(k)), piece);
    }
}

impl Document {
    /// The number of bytes of the attributes of tag `i` written as XML.
    fn attrs_size(&self, i: usize) -> (r: usize)
        requires
            self.wf(),
            i < self@.len(),
            utf8_len(attrs_xml(self@[i as int].attrs)) <= usize::MAX,
        ensures
            r == utf8_len(attrs_xml(self@[i as int].attrs)),
    {
        proof {
            self.lemma_node(i as int);
        }
        let attrs = &self.nodes[i].attrs;
        let ghost all = self@[i as int].attrs;
        let mut size: usize = 0;
        let mut k: usize = 0;
        assert(attrs_xml(all.take(0)) =~= Seq::empty());
        assert(encode_utf8(Seq::<char>::empty()) =~= Seq::<u8>::empty());
        while k < attrs.len()
            invariant
                self.wf(),
                i < self@.len(),
                *attrs == self.nodes@[i as int].attrs,
                all == self@[i as int].attrs,
                all == attrs_text(self.arena, attrs@),
                node_held(self.arena, self.nodes@[i as int]),
                k <= attrs@.len(),
                utf8_len(attrs_xml(all)) <= usize::MAX,
                size == utf8_len(attrs_xml(all.take(k as int))),
            decreases attrs@.len() - k,
        {
            let (n, v) = attrs[k];
            assert(self.arena.holds(attrs@[k as int].0));
            assert(self.arena.holds(attrs@[k as int].1));
            let ghost t = all.take(k + 1);
            let ghost piece = seq![' '] + all[k as int].0 + seq!['=', '"'] + escape_seq(
                all[k as int].1,
            ) + seq!['"'];
            proof {
                assert(t.drop_last() =~= all.take(k as int));
                assert(attrs_xml(t) =~= attrs_xml(all.take(k as int)) + piece);
                lemma_utf8_len_concat(attrs_xml(all.take(k as int)), piece);
                lemma_attrs_xml_prefix(all, k + 1);
                self.arena.lemma_text_len(n);
                lemma_utf8_len_concat(seq![' '] + all[k as int].0 + seq!['=', '"'] + escape_seq(
                    all[k as int].1,
                ), seq!['"']);
                lemma_utf8_len_concat(seq![' '] + all[k as int].0 + seq!['=', '"'], escape_seq(
                    all[k as int].1,
                ));
                lemma_utf8_len_concat(seq![' '] + all[k as int].0, seq!['=', '"']);
                lemma_utf8_len_concat(seq![' '], all[k as int].0);
                lemma_ascii_len(seq![' ']);
                lemma_ascii_len(seq!['=', '"']);
                lemma_ascii_len(seq!['"']);
            }
            let vs = self.arena.as_str(v);
            let e = escaped_size(vs);
            size = size + 1 + n.len + 2 + e + 1;
            k = k + 1;
        }
        assert(all.take(k as int) =~= all);
        size
    }

    /// The number of bytes written by `write_start` for node `c`.
    fn start_size(&self, c: usize, stack: &mut Vec<(usize, usize)>) -> (r: (usize, Ghost<Seq<char>>))
        requires
            self.wf(),
            c < self@.len(),
            frames_ok(self@, old(stack)@),
            utf8_len(xml_node(self@, c as int)) <= usize::MAX,
        ensures
            r.1@ + pending(self@, final(stack)@) == xml_node(self@, c as int) + pending(
                self@,
                old(stack)@,
            ),
            r.0 == utf8_len(r.1@),
            stack_weight(self@, final(stack)@) < stack_weight(self@, old(stack)@) + weight(
                self@,
                c as int,
            ),
            frames_ok(self@, final(stack)@),
    {
        proof {
            self.lemma_node(c as int);
            self.arena.lemma_text_len(self.nodes@[c as int].text);
        }
        let ghost d = self@;
        let h = self.nodes[c].text;
        if !self.nodes[c].is_tag {
            let n = escaped_size(self.arena.as_str(h));
            (n, Ghost(escape_seq(d[c as int].text)))
        } else {
            let ghost v = d[c as int];
            proof {
                lemma_utf8_len_concat(seq!['<'], v.text);
                lemma_utf8_len_concat(seq!['<'] + v.text, attrs_xml(v.attrs));
                lemma_ascii_len(seq!['<']);
                lemma_ascii_len(seq!['/', '>']);
                lemma_ascii_len(seq!['>']);
                lemma_utf8_len_concat(open_xml(v), seq!['/', '>']);
                lemma_utf8_len_concat(open_xml(v), seq!['>']);
                lemma_utf8_len_concat(open_xml(v) + seq!['>'], xml_children(d, c as int, 0));
                lemma_utf8_len_concat(open_xml(v) + seq!['>'] + xml_children(d, c as int, 0), close_xml(v));
            }
            let a = self.attrs_size(c);
            if self.nodes[c].children.len() == 0 {
                (1 + h.len + a + 2, Ghost(open_xml(v) + seq!['/', '>']))
            } else {
                let ghost s0 = stack@;
                stack.push((c, 0));
                proof {
                    assert(stack@.drop_last() =~= s0);
                }
                (1 + h.len + a + 1, Ghost(open_xml(v) + seq!['>']))
            }
        }
    }
}

impl Cursor {
    /// The number of bytes of `to_string`.
    pub fn str_size(&self, doc: &Document) -> (r: usize)
        requires
            doc.wf(),
            utf8_len(cursor_xml(*self, doc@)) <= usize::MAX,
        ensures
            r == utf8_len(cursor_xml(*self, doc@)),
    {
        let i = match doc.node_index(*self) {
            Some(i) => i,
            None => {
                assert(encode_utf8(Seq::<char>::empty()) =~= Seq::<u8>::empty());
                return 0;
            },
        };
        let ghost d = doc@;
        let ghost total = xml_node(d, i as int);
        let mut stack: Vec<(usize, usize)> = Vec::new();
        let (first, Ghost(piece)) = doc.start_size(i, &mut stack);
        let mut size = first;
        let ghost mut out = piece;
        assert(out + pending(d, stack@) =~= total);
        proof {
            lemma_utf8_len_concat(out, pending(d, stack@));
        }
        while stack.len() > 0
            invariant
                doc.wf(),
                d == doc@,
                frames_ok(d, stack@),
                out + pending(d, stack@) == total,
                utf8_len(total) <= usize::MAX,
                size == utf8_len(out),
            decreases stack_weight(d, stack@),
        {
            let top = stack.len() - 1;
            let (p, k) = stack[top];
            proof {
                doc.lemma_node(p as int);
            }
            let ghost s0 = stack@;
            if k < doc.nodes[p].children.len() {
                let c = doc.nodes[p].children[k];
                proof {
                    lemma_child_parent(d, p as int, k as int);
                }
                stack.set(top, (p, k + 1));
                proof {
                    assert(stack@.drop_last() =~= s0.drop_last());
                    assert(pending(d, s0) =~= xml_node(d, c as int) + pending(d, stack@));
                    assert(stack_weight(d, s0) == stack_weight(d, stack@) + weight(d, c as int));
                    lemma_utf8_len_concat(out, pending(d, s0));
                    lemma_utf8_len_concat(xml_node(d, c as int), pending(d, stack@));
                }
                let ghost s1 = stack@;
                let (n, Ghost(piece)) = doc.start_size(c, &mut stack);
                proof {
                    lemma_utf8_len_concat(piece, pending(d, stack@));
                    lemma_utf8_len_concat(out, piece);
                    lemma_utf8_len_concat(out + piece, pending(d, stack@));
                    assert(out + piece + pending(d, stack@) =~= out + (piece + pending(d, stack@)));
                    assert(out + (xml_node(d, c as int) + pending(d, s1)) =~= out + pending(d, s0));
                }
                size = size + n;
                proof {
                    out = out + piece;
                }
            } else {
                stack.pop();
                proof {
                    doc.arena.lemma_text_len(doc.nodes@[p as int].text);
                    assert(s0.drop_last() =~= stack@);
                    assert(xml_children(d, p as int, k as int) =~= Seq::empty());
                    let v = d[p as int];
                    lemma_utf8_len_concat(seq!['<', '/'], v.text);
                    lemma_utf8_len_concat(seq!['<', '/'] + v.text, seq!['>']);
                    lemma_ascii_len(seq!['<', '/']);
                    lemma_ascii_len(seq!['>']);
                    assert(pending(d, s0) =~= close_xml(v) + pending(d, stack@));
                    lemma_utf8_len_concat(out, close_xml(v));
                    lemma_utf8_len_concat(out + close_xml(v), pending(d, stack@));
                    assert(out + close_xml(v) + pending(d, stack@) =~= total);
                }
                size = size + 2 + doc.nodes[p].text.len + 1;
                proof {
                    out = out + close_xml(d[p as int]);
                }
            }
        }
        assert(out =~= total);
        size
    }
}

impl Document {
    /// Adds a tag as the last child of the root.
    pub fn insert_tag(&mut self, tag_name: &str) -> (r: Result<Cursor, ParseError>)
        requires
            old(self).wf(),
        ensures
            final(self).wf(),
            match r {
                Ok(c) => c.node == Some(old(self)@.len() as usize) && final(self)@ == inserted(
                    old(self)@,
                    0,
                    true,
                    tag_name@,
                ),
                Err(e) => e == ParseError::NoMemory && final(self)@ == old(self)@ && node_no_room(
                    old(self)@,
                    *final(self),
                    tag_name.spec_bytes().len(),
                ),
            },
    {
        let root = self.root();
        root.insert_tag(self, tag_name)
    }

    /// Adds character data as the last child of the root, or to the text of
    /// the root's last child when that is character data.
    pub fn insert_cdata(&mut self, cdata: &str) -> (r: Result<Cursor, ParseError>)
        requires
            old(self).wf(),
        ensures
            final(self).wf(),
            match r {
                Ok(c) => match last_cdata(old(self)@, 0) {
                    Some(l) => c.node == Some(l) && final(self)@ == with_text(
                        old(self)@,
                        l,
                        old(self)@[l as int].text + cdata@,
                    ),
                    None => c.node == Some(old(self)@.len() as usize) && final(self)@ == inserted(
                        old(self)@,
                        0,
                        false,
                        cdata@,
                    ),
                },
                Err(e) => e == ParseError::NoMemory && final(self)@ == old(self)@ && cdata_no_room(
                    old(self)@,
                    0,
                    *final(self),
                    cdata@,
                ),
            },
    {
        let root = self.root();
        root.insert_cdata(self, cdata)
    }

    /// The first child of the root.
    pub fn first_child(&self) -> (r: Cursor)
        requires
            self.wf(),
        ensures
            r.node == (if self@[0].children.len() > 0 {
                Some(self@[0].children[0])
            } else {
                None
            }),
    {
        self.root().first_child(self)
    }

    /// The first child of the root that is a tag.
    pub fn first_tag(&self) -> (r: Cursor)
        requires
            self.wf(),
        ensures
            r.node == tag_from(self@, 0, 0),
    {
        self.root().first_tag(self)
    }

    /// The first child tag of the root named `name`.
    pub fn find_tag(&self, name: &str) -> (r: Cursor)
        requires
            self.wf(),
        ensures
            r.node == named_from(self@, 0, 0, name@),
    {
        self.root().find_tag(self, name)
    }

    /// The number of bytes of `to_string`.
    pub fn str_size(&self) -> (r: usize)
        requires
            self.wf(),
            utf8_len(xml_node(self@, 0)) <= usize::MAX,
        ensures
            r == utf8_len(xml_node(self@, 0)),
    {
        self.root().str_size(self)
    }

    /// The whole document written as XML.
    pub fn to_string(&self) -> (r: String)
        requires
            self.wf(),
            utf8_len(xml_node(self@, 0)) <= usize::MAX,
        ensures
            r@ == xml_node(self@, 0),
    {
        self.root().to_string(self)
    }
}

/// The children of a node, in order.
pub struct Children {
    pub current: Cursor,
}

impl Children {
    pub fn new(first: Cursor) -> (r: Children)
        ensures
            r.current == first,
    {
        Children { current: first }
    }

    /// The next child, if any.
    pub fn next(&mut self, doc: &Document) -> (r: Option<Cursor>)
        requires
            doc.wf(),
        ensures
            match target(old(self).current, doc@) {
                Some(i) => r == Some(Cursor { node: Some(i) }) && final(self).current.node == next_of(
                    doc@,
                    i,
                ),
                None => r is None && final(self).current == old(self).current,
            },
    {
        match doc.node_index(self.current) {
            Some(i) => {
                let c = Cursor { node: Some(i) };
                self.current = c.next(doc);
                Some(c)
            },
            None => None,
        }
    }
}

/// The siblings after a node, in order.
pub struct FollowingSibling {
    pub current: Cursor,
}

impl FollowingSibling {
    pub fn new(start: Cursor) -> (r: FollowingSibling)
        ensures
            r.current == start,
    {
        FollowingSibling { current: start }
    }

    /// The next sibling, if any.
    pub fn next(&mut self, doc: &Document) -> (r: Option<Cursor>)
        requires
            doc.wf(),
        ensures
            match target(old(self).current, doc@) {
                Some(i) => match next_of(doc@, i) {
                    Some(n) => r == Some(Cursor { node: Some(n) }) && final(self).current
                        == Cursor { node: Some(n) },
                    None => r is None && final(self).current.node is None,
                },
                None => r is None && final(self).current == old(self).current,
            },
    {
        if doc.node_index(self.current).is_none() {
            return None;
        }
        let n = self.current.next(doc);
        self.current = n;
        match n.node {
            Some(_) => Some(n),
            None => None,
        }
    }
}

/// The siblings before a node, nearest first.
pub struct PrecedingSibling {
    pub current: Cursor,
}

impl PrecedingSibling {
    pub fn new(start: Cursor) -> (r: PrecedingSibling)
        ensures
            r.current == start,
    {
        PrecedingSibling { current: start }
    }

    /// The next sibling going backwards, if any.
    pub fn next(&mut self, doc: &Document) -> (r: Option<Cursor>)
        requires
            doc.wf(),
        ensures
            match target(old(self).current, doc@) {
                Some(i) => match previous_of(doc@, i) {
                    Some(n) => r == Some(Cursor { node: Some(n) }) && final(self).current
                        == Cursor { node: Some(n) },
                    None => r is None && final(self).current.node is None,
                },
                None => r is None && final(self).current == old(self).current,
            },
    {
        if doc.node_index(self.current).is_none() {
            return None;
        }
        let n = self.current.previous(doc);
        self.current = n;
        match n.node {
            Some(_) => Some(n),
            None => None,
        }
    }
}

/// The parents of a node, nearest first.
pub struct Ancestor {
    pub current: Cursor,
}

impl Ancestor {
    pub fn new(start: Cursor) -> (r: Ancestor)
        ensures
            r.current == start,
    {
        Ancestor { current: start }
    }

    /// The next parent up, if any.
    pub fn next(&mut self, doc: &Document) -> (r: Option<Cursor>)
        requires
            doc.wf(),
        ensures
            match target(old(self).current, doc@) {
                Some(i) => match doc@[i as int].parent {
                    Some(n) => r == Some(Cursor { node: Some(n) }) && final(self).current
                        == Cursor { node: Some(n) },
                    None => r is None && final(self).current.node is None,
                },
                None => r is None && final(self).current == old(self).current,
            },
    {
        if doc.node_index(self.current).is_none() {
            return None;
        }
        let n = self.current.parent(doc);
        self.current = n;
        match n.node {
            Some(_) => Some(n),
            None => None,
        }
    }
}

/// The attributes of a tag, in order, as (name, value) pairs.
pub struct Attributes {
    pub node: Cursor,
    pub index: usize,
}

impl Attributes {
    pub fn new(cursor: Cursor) -> (r: Attributes)
        ensures
            r.node == cursor,
            r.index == 0,
    {
        Attributes { node: cursor, index: 0 }
    }

    /// The next attribute, if any.
    pub fn next<'a>(&mut self, doc: &'a Document) -> (r: Option<(&'a str, &'a str)>)
        requires
            doc.wf(),
        ensures
            final(self).node == old(self).node,
            match target(old(self).node, doc@) {
                Some(i) => if old(self).index < doc@[i as int].attrs.len() {
                    r matches Some((n, v)) && (n@, v@) == doc@[i as int].attrs[old(
                        self,
                    ).index as int] && final(self).index == old(self).index + 1
                } else {
                    r is None && final(self).index == old(self).index
                },
                None => r is None && final(self).index == old(self).index,
            },
    {
        let i = match doc.node_index(self.node) {
            Some(i) => i,
            None => {
                return None;
            },
        };
        proof {
            doc.lemma_node(i as int);
        }
        if self.index < doc.nodes[i].attrs.len() {
            let (n, v) = doc.nodes[i].attrs[self.index];
            assert(doc.arena.holds(doc.nodes@[i as int].attrs@[self.index as int].0));
            assert(doc.arena.holds(doc.nodes@[i as int].attrs@[self.index as int].1));
            self.index = self.index + 1;
            Some((doc.arena.as_str(n), doc.arena.as_str(v)))
        } else {
            None
        }
    }
}

/// A node and all nodes below it, in document order.
pub struct DescendantOrSelf {
    nodes: Vec<usize>,
    index: usize,
}

impl DescendantOrSelf {
    /// The nodes still to come.
    pub closed spec fn remaining(&self) -> Seq<usize> {
        self.nodes@.skip(self.index as int)
    }

    pub closed spec fn wf(&self) -> bool {
        self.index <= self.nodes@.len()
    }

    /// Lists the subtree of the cursor's node in document order.
    pub fn new(cursor: Cursor, doc: &Document) -> (r: DescendantOrSelf)
        requires
            doc.wf(),
        ensures
            r.wf(),
            r.remaining() == (match target(cursor, doc@) {
                Some(i) => preorder(doc@, i as int),
                None => Seq::empty(),
            }),
    {
        let mut out: Vec<usize> = Vec::new();
        let i = match doc.node_index(cursor) {
            Some(i) => i,
            None => {
                return DescendantOrSelf { nodes: out, index: 0 };
            },
        };
        let ghost d = doc@;
        let mut stack: Vec<(usize, usize)> = Vec::new();
        out.push(i);
        stack.push((i, 0));
        proof {
            doc.lemma_node(i as int);
            assert(stack@.drop_last() =~= Seq::<(usize, usize)>::empty());
            assert(stack@.last() == (i, 0usize));
            assert(pending_nodes(d, Seq::<(usize, usize)>::empty()) == Seq::<usize>::empty());
            assert(stack_weight(d, Seq::<(usize, usize)>::empty()) == 0);
            assert(pending_nodes(d, stack@) =~= preorder_children(d, i as int, 0));
            assert(out@ + pending_nodes(d, stack@) =~= preorder(d, i as int));
            assert(stack_weight(d, stack@) == 1 + weight_children(d, i as int, 0));
        }
        while stack.len() > 0
            invariant
                doc.wf(),
                d == doc@,
                frames_ok(d, stack@),
                out@ + pending_nodes(d, stack@) == preorder(d, i as int),
            decreases stack_weight(d, stack@),
        {
            let top = stack.len() - 1;
            let (p, k) = stack[top];
            proof {
                doc.lemma_node(p as int);
            }
            let ghost s0 = stack@;
            if k < doc.nodes[p].children.len() {
                let c = doc.nodes[p].children[k];
                proof {
                    lemma_child_parent(d, p as int, k as int);
                    doc.lemma_node(c as int);
                }
                stack.set(top, (p, k + 1));
                let ghost s1 = stack@;
                proof {
                    assert(stack@.drop_last() =~= s0.drop_last());
                    assert(pending_nodes(d, s0) =~= preorder(d, c as int) + pending_nodes(d, s1));
                    assert(stack_weight(d, s0) == stack_weight(d, s1) + weight(d, c as int));
                }
                out.push(c);
                stack.push((c, 0));
                proof {
                    assert(stack@.drop_last() =~= s1);
                    assert(out@ + pending_nodes(d, stack@) =~= preorder(d, i as int));
                }
            } else {
                stack.pop();
                proof {
                    assert(s0.drop_last() =~= stack@);
                    assert(preorder_children(d, p as int, k as int) =~= Seq::empty());
                    assert(out@ + pending_nodes(d, stack@) =~= preorder(d, i as int));
                }
            }
        }
        assert(out@ =~= preorder(d, i as int));
        let r = DescendantOrSelf { nodes: out, index: 0 };
        assert(r.remaining() =~= out@);
        r
    }

    /// The next node, if any.
    pub fn next(&mut self) -> (r: Option<Cursor>)
        requires
            old(self).wf(),
        ensures
            final(self).wf(),
            old(self).remaining().len() == 0 ==> r is None && final(self).remaining() == old(
                self,
            ).remaining(),
            old(self).remaining().len() > 0 ==> r == Some(
                Cursor { node: Some(old(self).remaining()[0]) },
            ) && final(self).remaining() == old(self).remaining().drop_first(),
    {
        if self.index < self.nodes.len() {
            let n = self.nodes[self.index];
            self.index = self.index + 1;
            assert(final(self).remaining() =~= old(self).remaining().drop_first());
            Some(Cursor { node: Some(n) })
        } else {
            None
        }
    }
}

impl Cursor {
    /// The children of this node.
    pub fn children(self, doc: &Document) -> (r: Children)
        requires
            doc.wf(),
        ensures
            r.current == self.first_child_spec(doc@),
    {
        Children::new(self.first_child(doc))
    }

    pub open spec fn first_child_spec(self, d: Seq<NodeView>) -> Cursor {
        Cursor {
            node: match target(self, d) {
                Some(i) => if d[i as int].children.len() > 0 {
                    Some(d[i as int].children[0])
                } else {
                    None
                },
                None => None,
            },
        }
    }

    /// The attributes of this tag.
    pub fn attributes(self) -> (r: Attributes)
        ensures
            r.node == self,
            r.index == 0,
    {
        Attributes::new(self)
    }

    /// This node and all nodes below it, in document order.
    pub fn descendant_or_self(self, doc: &Document) -> (r: DescendantOrSelf)
        requires
            doc.wf(),
        ensures
            r.wf(),
            r.remaining() == (match target(self, doc@) {
                Some(i) => preorder(doc@, i as int),
                None => Seq::empty(),
            }),
    {
        DescendantOrSelf::new(self, doc)
    }

    /// The siblings after this node.
    pub fn following_sibling(self) -> (r: FollowingSibling)
        ensures
            r.current == self,
    {
        FollowingSibling::new(self)
    }

    /// The siblings before this node, nearest first.
    pub fn preceding_sibling(self) -> (r: PrecedingSibling)
        ensures
            r.current == self,
    {
        PrecedingSibling::new(self)
    }

    /// The parents of this node, nearest first.
    pub fn ancestor(self) -> (r: Ancestor)
        ensures
            r.current == self,
    {
        Ancestor::new(self)
    }
}

impl Document {
    /// The number of children of node `i`.
    pub(crate) fn child_count(&self, i: usize) -> (r: usize)
        requires
            self.wf(),
            i < self@.len(),
        ensures
            r == self@[i as int].children.len(),
    {
        proof {
            self.lemma_node(i as int);
        }
        self.nodes[i].children.len()
    }

    /// The child of node `i` at position `k`.
    pub(crate) fn child_at(&self, i: usize, k: usize) -> (r: usize)
        requires
            self.wf(),
            i < self@.len(),
            k < self@[i as int].children.len(),
        ensures
            r == self@[i as int].children[k as int],
            r < self@.len(),
    {
        proof {
            self.lemma_node(i as int);
            lemma_child_parent(self@, i as int, k as int);
        }
        self.nodes[i].children[k]
    }

    /// The parent of node `i` and the position of `i` among its children.
    pub(crate) fn sibling_position(&self, i: usize) -> (r: Option<(usize, usize)>)
        requires
            self.wf(),
            i < self@.len(),
        ensures
            match self@[i as int].parent {
                Some(p) => (r matches Some((q, k)) && q == p && k as int == pos_of(
                    self@[p as int].children,
                    i,
                )) && p < self@.len() && pos_of(self@[p as int].children, i)
                    < self@[p as int].children.len() && self@[p as int].children[pos_of(
                    self@[p as int].children,
                    i,
                )] == i,
                None => r is None,
            },
    {
        proof {
            self.lemma_node(i as int);
        }
        match self.nodes[i].parent {
            Some(p) => {
                proof {
                    self.lemma_node(p as int);
                    lemma_pos_of(self@[p as int].children, i);
                }
                let k = position(&self.nodes[p].children, i);
                Some((p, k))
            },
            None => None,
        }
    }
}

} // verus!
