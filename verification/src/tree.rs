use vstd::prelude::*;

use crate::entities::{escape_seq, law_escape_safe, law_unescape_escape, lemma_unescape_plain, unescape};

verus! {

/// One node of a document as the contracts see it: its parent, whether it
/// is a tag or character data, the tag name or the text, the children in
/// order and the attributes in order.
pub struct NodeView {
    pub parent: Option<usize>,
    pub is_tag: bool,
    pub text: Seq<char>,
    pub children: Seq<usize>,
    pub attrs: Seq<(Seq<char>, Seq<char>)>,
}

/// The position of `x` in `s`.
pub open spec fn pos_of(s: Seq<usize>, x: usize) -> int {
    choose|k: int| 0 <= k < s.len() && s[k] == x
}

/// The tree shape of a document: node 0 is the root tag; every child comes
/// after its parent, points back to it and is listed once; character data
/// has no children and no attributes; attribute names of a tag differ.
pub open spec fn tree_ok(d: Seq<NodeView>) -> bool {
    &&& 0 < d.len() <= usize::MAX
    &&& d[0].parent is None
    &&& d[0].is_tag
    &&& forall|i: int, k: int|
        #![trigger d[i].children[k]]
        0 <= i < d.len() && 0 <= k < d[i].children.len() ==> i < d[i].children[k] < d.len()
            && d[d[i].children[k] as int].parent == Some(i as usize)
    &&& forall|i: int|
        #![trigger d[i].parent]
        0 <= i < d.len() && d[i].parent is Some ==> {
            let p = d[i].parent->0;
            &&& p < i
            &&& d[p as int].children.contains(i as usize)
        }
    &&& forall|i: int, k1: int, k2: int|
        #![trigger d[i].children[k1], d[i].children[k2]]
        0 <= i < d.len() && 0 <= k1 < k2 < d[i].children.len() ==> d[i].children[k1]
            != d[i].children[k2]
    &&& forall|i: int|
        #![trigger d[i].is_tag]
        0 <= i < d.len() && !d[i].is_tag ==> d[i].children.len() == 0 && d[i].attrs.len() == 0
    &&& forall|i: int, k1: int, k2: int|
        #![trigger d[i].attrs[k1], d[i].attrs[k2]]
        0 <= i < d.len() && 0 <= k1 < k2 < d[i].attrs.len() ==> d[i].attrs[k1].0 != d[i].attrs[k2].0
}

/// The sibling after node `i`.
pub open spec fn next_of(d: Seq<NodeView>, i: usize) -> Option<usize> {
    match d[i as int].parent {
        None => None,
        Some(p) => {
            let s = d[p as int].children;
            let k = pos_of(s, i);
            if k + 1 < s.len() {
                Some(s[k + 1])
            } else {
                None
            }
        },
    }
}

/// The sibling before node `i`.
pub open spec fn previous_of(d: Seq<NodeView>, i: usize) -> Option<usize> {
    match d[i as int].parent {
        None => None,
        Some(p) => {
            let s = d[p as int].children;
            let k = pos_of(s, i);
            if k > 0 {
                Some(s[k - 1])
            } else {
                None
            }
        },
    }
}

/// The first tag among the children of `p` from position `k` on.
pub open spec fn tag_from(d: Seq<NodeView>, p: usize, k: int) -> Option<usize>
    decreases d[p as int].children.len() - k,
{
    let s = d[p as int].children;
    if k < 0 || k >= s.len() {
        None
    } else if d[s[k] as int].is_tag {
        Some(s[k])
    } else {
        tag_from(d, p, k + 1)
    }
}

/// The last tag among the children of `p` up to position `k`.
pub open spec fn tag_before(d: Seq<NodeView>, p: usize, k: int) -> Option<usize>
    decreases k + 1,
{
    let s = d[p as int].children;
    if k < 0 || k >= s.len() {
        None
    } else if d[s[k] as int].is_tag {
        Some(s[k])
    } else {
        tag_before(d, p, k - 1)
    }
}

/// The next sibling of `i` that is a tag.
pub open spec fn next_tag_of(d: Seq<NodeView>, i: usize) -> Option<usize> {
    match d[i as int].parent {
        None => None,
        Some(p) => tag_from(d, p, pos_of(d[p as int].children, i) + 1),
    }
}

/// The previous sibling of `i` that is a tag.
pub open spec fn previous_tag_of(d: Seq<NodeView>, i: usize) -> Option<usize> {
    match d[i as int].parent {
        None => None,
        Some(p) => tag_before(d, p, pos_of(d[p as int].children, i) - 1),
    }
}

/// The top of the tree that node `i` is in.
pub open spec fn root_of(d: Seq<NodeView>, i: usize) -> usize
    decreases i,
{
    match d[i as int].parent {
        None => i,
        Some(p) => if p < i {
            root_of(d, p)
        } else {
            i
        },
    }
}

/// The name of a node: the tag name, empty for character data.
pub open spec fn name_of(d: Seq<NodeView>, i: usize) -> Seq<char> {
    if d[i as int].is_tag {
        d[i as int].text
    } else {
        Seq::empty()
    }
}

/// The first child tag of `p` from position `k` on whose name is `name`;
/// character data is passed over.
pub open spec fn named_from(d: Seq<NodeView>, p: usize, k: int, name: Seq<char>) -> Option<usize>
    decreases d[p as int].children.len() - k,
{
    let s = d[p as int].children;
    if k < 0 || k >= s.len() {
        None
    } else if d[s[k] as int].is_tag && name_of(d, s[k]) == name {
        Some(s[k])
    } else {
        named_from(d, p, k + 1, name)
    }
}

/// Law of the next tag: from position `k` of the children of `p`, what is
/// found is the first child that is a tag, at or after `k`; nothing is
/// found only when no child from `k` on is a tag.
pub proof fn law_first_tag_from(d: Seq<NodeView>, p: usize, k: int)
    requires
        0 <= k,
    ensures
        ({
            let cs = d[p as int].children;
            &&& tag_from(d, p, k) matches Some(c) ==> exists|m: int|
                k <= m < cs.len() && cs[m] == c && d[c as int].is_tag && forall|j: int|
                    k <= j < m ==> !d[#[trigger] cs[j] as int].is_tag
            &&& tag_from(d, p, k) is None ==> forall|j: int|
                k <= j < cs.len() ==> !d[#[trigger] cs[j] as int].is_tag
        }),
    decreases d[p as int].children.len() - k,
{
    let cs = d[p as int].children;
    if k < cs.len() && !d[cs[k] as int].is_tag {
        law_first_tag_from(d, p, k + 1);
        if let Some(x) = tag_from(d, p, k + 1) {
            let m = choose|m: int|
                k + 1 <= m < cs.len() && cs[m] == x && d[x as int].is_tag && forall|j: int|
                    k + 1 <= j < m ==> !d[#[trigger] cs[j] as int].is_tag;
            assert forall|j: int| k <= j < m implies !d[#[trigger] cs[j] as int].is_tag by {
                if j > k {
                }
            }
        }
    }
}

/// Law of the previous tag: up to position `k` of the children of `p`,
/// what is found is the last child that is a tag, at or before `k`;
/// nothing is found only when no child up to `k` is a tag.
pub proof fn law_last_tag_before(d: Seq<NodeView>, p: usize, k: int)
    requires
        k < d[p as int].children.len(),
    ensures
        ({
            let cs = d[p as int].children;
            &&& tag_before(d, p, k) matches Some(c) ==> exists|m: int|
                0 <= m <= k && cs[m] == c && d[c as int].is_tag && forall|j: int|
                    m < j <= k ==> !d[#[trigger] cs[j] as int].is_tag
            &&& tag_before(d, p, k) is None ==> forall|j: int|
                0 <= j <= k ==> !d[#[trigger] cs[j] as int].is_tag
        }),
    decreases k + 1,
{
    let cs = d[p as int].children;
    if k >= 0 && !d[cs[k] as int].is_tag {
        law_last_tag_before(d, p, k - 1);
        if let Some(x) = tag_before(d, p, k - 1) {
            let m = choose|m: int|
                0 <= m <= k - 1 && cs[m] == x && d[x as int].is_tag && forall|j: int|
                    m < j <= k - 1 ==> !d[#[trigger] cs[j] as int].is_tag;
            assert forall|j: int| m < j <= k implies !d[#[trigger] cs[j] as int].is_tag by {
                if j < k {
                }
            }
        }
    }
}

/// A node is a tag named `name`.
pub open spec fn is_tag_named(d: Seq<NodeView>, c: usize, name: Seq<char>) -> bool {
    d[c as int].is_tag && d[c as int].text == name
}

proof fn lemma_named_from_first(d: Seq<NodeView>, p: usize, k: int, name: Seq<char>)
    requires
        0 <= k,
        forall|j: int| 0 <= j < d[p as int].children.len() ==> #[trigger] d[p as int].children[j] < d.len(),
    ensures
        ({
            let cs = d[p as int].children;
            &&& named_from(d, p, k, name) matches Some(c) ==> exists|m: int|
                k <= m < cs.len() && cs[m] == c && is_tag_named(d, c, name) && forall|j: int|
                    k <= j < m ==> !is_tag_named(d, #[trigger] cs[j], name)
            &&& named_from(d, p, k, name) is None ==> forall|j: int|
                k <= j < cs.len() ==> !is_tag_named(d, #[trigger] cs[j], name)
        }),
    decreases d[p as int].children.len() - k,
{
    let cs = d[p as int].children;
    if k < cs.len() {
        let c = cs[k];
        if d[c as int].is_tag && name_of(d, c) == name {
            assert(is_tag_named(d, c, name));
        } else {
            assert(!is_tag_named(d, c, name));
            lemma_named_from_first(d, p, k + 1, name);
            if let Some(x) = named_from(d, p, k + 1, name) {
                let m = choose|m: int|
                    k + 1 <= m < cs.len() && cs[m] == x && is_tag_named(d, x, name) && forall|j: int|
                        k + 1 <= j < m ==> !is_tag_named(d, #[trigger] cs[j], name);
                assert forall|j: int| k <= j < m implies !is_tag_named(d, #[trigger] cs[j], name) by {
                    if j > k {
                    }
                }
            }
        }
    }
}

/// Law of finding a child tag: what is found is a child tag with the name,
/// and no child tag before it has that name; nothing is found only when no
/// child is a tag with that name.
pub proof fn law_find_first_named(d: Seq<NodeView>, p: usize, name: Seq<char>)
    requires
        tree_ok(d),
        p < d.len(),
    ensures
        ({
            let cs = d[p as int].children;
            &&& named_from(d, p, 0, name) matches Some(c) ==> exists|m: int|
                0 <= m < cs.len() && cs[m] == c && is_tag_named(d, c, name) && forall|j: int|
                    0 <= j < m ==> !is_tag_named(d, #[trigger] cs[j], name)
            &&& named_from(d, p, 0, name) is None ==> forall|j: int|
                0 <= j < cs.len() ==> !is_tag_named(d, #[trigger] cs[j], name)
        }),
{
    assert forall|j: int| 0 <= j < d[p as int].children.len() implies #[trigger] d[p as int].children[j]
        < d.len() by {
        lemma_child_parent(d, p as int, j);
    }
    lemma_named_from_first(d, p, 0, name);
}

/// The position of the first attribute named `name` from position `k` on.
pub open spec fn attr_find(attrs: Seq<(Seq<char>, Seq<char>)>, name: Seq<char>, k: int) -> Option<
    int,
>
    decreases attrs.len() - k,
{
    if k < 0 || k >= attrs.len() {
        None
    } else if attrs[k].0 == name {
        Some(k)
    } else {
        attr_find(attrs, name, k + 1)
    }
}

/// The value of the attribute `name` among `attrs`.
pub open spec fn attr_lookup(attrs: Seq<(Seq<char>, Seq<char>)>, name: Seq<char>) -> Option<
    Seq<char>,
> {
    match attr_find(attrs, name, 0) {
        Some(k) => Some(attrs[k].1),
        None => None,
    }
}

/// The attributes after setting `name` to `value`: an existing attribute
/// takes the new value, or is dropped for `None`; a new one goes last.
pub open spec fn attrs_set(
    attrs: Seq<(Seq<char>, Seq<char>)>,
    name: Seq<char>,
    value: Option<Seq<char>>,
) -> Seq<(Seq<char>, Seq<char>)> {
    match attr_find(attrs, name, 0) {
        Some(k) => match value {
            Some(v) => attrs.update(k, (name, v)),
            None => attrs.remove(k),
        },
        None => match value {
            Some(v) => attrs.push((name, v)),
            None => attrs,
        },
    }
}

pub proof fn lemma_attr_find(attrs: Seq<(Seq<char>, Seq<char>)>, name: Seq<char>, k: int)
    requires
        0 <= k,
    ensures
        attr_find(attrs, name, k) matches Some(j) ==> k <= j < attrs.len() && attrs[j].0 == name
            && forall|m: int| k <= m < j ==> attrs[m].0 != name,
        attr_find(attrs, name, k) is None ==> forall|m: int| k <= m < attrs.len() ==> attrs[m].0
            != name,
    decreases attrs.len() - k,
{
    if k < attrs.len() && attrs[k].0 != name {
        lemma_attr_find(attrs, name, k + 1);
    }
}

/// The attribute names of a tag differ from each other.
pub open spec fn names_distinct(a: Seq<(Seq<char>, Seq<char>)>) -> bool {
    forall|k1: int, k2: int|
        #![trigger a[k1], a[k2]]
        0 <= k1 < k2 < a.len() ==> a[k1].0 != a[k2].0
}

/// The tree with node `n` put among the children of `p` at position `pos`.
pub open spec fn link(d: Seq<NodeView>, p: usize, pos: int, n: usize) -> Seq<NodeView> {
    let dp = d[p as int];
    let d1 = d.update(p as int, NodeView { children: dp.children.insert(pos, n), ..dp });
    d1.update(n as int, NodeView { parent: Some(p), ..d1[n as int] })
}

/// The tree with node `i` taken out of its parent's children.
pub open spec fn unlink(d: Seq<NodeView>, i: usize) -> Seq<NodeView> {
    let p = d[i as int].parent->0;
    let dp = d[p as int];
    let d1 = d.update(
        p as int,
        NodeView { children: dp.children.remove(pos_of(dp.children, i)), ..dp },
    );
    d1.update(i as int, NodeView { parent: None, ..d1[i as int] })
}

/// The tree with the attributes of node `i` replaced.
pub open spec fn with_attrs(d: Seq<NodeView>, i: usize, a: Seq<(Seq<char>, Seq<char>)>) -> Seq<
    NodeView,
> {
    d.update(i as int, NodeView { attrs: a, ..d[i as int] })
}

/// The tree with the text of node `i` replaced.
pub open spec fn with_text(d: Seq<NodeView>, i: usize, t: Seq<char>) -> Seq<NodeView> {
    d.update(i as int, NodeView { text: t, ..d[i as int] })
}

/// A fresh node: no parent, no children, no attributes.
pub open spec fn fresh(is_tag: bool, text: Seq<char>) -> NodeView {
    NodeView { parent: None, is_tag, text, children: Seq::empty(), attrs: Seq::empty() }
}

pub proof fn lemma_pos_of(s: Seq<usize>, x: usize)
    requires
        s.contains(x),
    ensures
        0 <= pos_of(s, x) < s.len(),
        s[pos_of(s, x)] == x,
{
}

/// A node in a child list has that list's owner as parent.
pub proof fn lemma_child_parent(d: Seq<NodeView>, i: int, k: int)
    requires
        tree_ok(d),
        0 <= i < d.len(),
        0 <= k < d[i].children.len(),
    ensures
        i < d[i].children[k] < d.len(),
        d[d[i].children[k] as int].parent == Some(i as usize),
{
}

/// A node without parent is in no child list.
pub proof fn lemma_detached(d: Seq<NodeView>, n: usize)
    requires
        tree_ok(d),
        n < d.len(),
        d[n as int].parent is None,
    ensures
        forall|i: int| 0 <= i < d.len() ==> !(#[trigger] d[i].children).contains(n),
{
    assert forall|i: int| 0 <= i < d.len() implies !(#[trigger] d[i].children).contains(n) by {
        if d[i].children.contains(n) {
            let k = choose|k: int| 0 <= k < d[i].children.len() && d[i].children[k] == n;
            lemma_child_parent(d, i, k);
        }
    }
}

pub proof fn lemma_push_fresh(d: Seq<NodeView>, is_tag: bool, text: Seq<char>)
    requires
        tree_ok(d),
        d.len() < usize::MAX,
    ensures
        tree_ok(d.push(fresh(is_tag, text))),
{
    let e = d.push(fresh(is_tag, text));
    assert forall|i: int, k: int|
        0 <= i < e.len() && 0 <= k < e[i].children.len() implies i < e[i].children[k] < e.len()
        && e[e[i].children[k] as int].parent == Some(i as usize) by {
        assert(i < d.len());
        assert(e[i] == d[i]);
        lemma_child_parent(d, i, k);
    }
    assert forall|i: int| 0 <= i < e.len() && (#[trigger] e[i].parent) is Some implies {
        let p = e[i].parent->0;
        &&& p < i
        &&& e[p as int].children.contains(i as usize)
    } by {
        assert(i < d.len());
        assert(e[i] == d[i]);
    }
    assert forall|i: int, k1: int, k2: int|
        0 <= i < e.len() && 0 <= k1 < k2 < e[i].children.len() implies #[trigger] e[i].children[k1]
        != #[trigger] e[i].children[k2] by {
        assert(e[i] == d[i]);
    }
    assert forall|i: int, k1: int, k2: int|
        0 <= i < e.len() && 0 <= k1 < k2 < e[i].attrs.len() implies #[trigger] e[i].attrs[k1].0
        != #[trigger] e[i].attrs[k2].0 by {
        assert(e[i] == d[i]);
    }
}

pub proof fn lemma_link(d: Seq<NodeView>, p: usize, pos: int, n: usize)
    requires
        tree_ok(d),
        p < n < d.len(),
        d[p as int].is_tag,
        d[n as int].parent is None,
        0 <= pos <= d[p as int].children.len(),
    ensures
        tree_ok(link(d, p, pos, n)),
        link(d, p, pos, n).len() == d.len(),
{
    let e = link(d, p, pos, n);
    let old_c = d[p as int].children;
    let new_c = old_c.insert(pos, n);
    lemma_detached(d, n);
    assert(!old_c.contains(n));
    assert(e[p as int].children == new_c);
    assert forall|i: int, k: int|
        0 <= i < e.len() && 0 <= k < e[i].children.len() implies i < e[i].children[k] < e.len()
        && e[e[i].children[k] as int].parent == Some(i as usize) by {
        if i == p {
            if k == pos {
                assert(new_c[k] == n);
            } else if k < pos {
                assert(new_c[k] == old_c[k]);
                lemma_child_parent(d, i, k);
                assert(old_c[k] != n);
            } else {
                assert(new_c[k] == old_c[k - 1]);
                lemma_child_parent(d, i, k - 1);
                assert(old_c[k - 1] != n);
            }
        } else {
            assert(e[i].children == d[i].children);
            lemma_child_parent(d, i, k);
            assert(d[i].children[k] != n) by {
                assert(!d[i].children.contains(n));
            }
        }
    }
    assert forall|i: int| 0 <= i < e.len() && (#[trigger] e[i].parent) is Some implies {
        let q = e[i].parent->0;
        &&& q < i
        &&& e[q as int].children.contains(i as usize)
    } by {
        if i == n {
            assert(new_c[pos] == n);
        } else {
            let q = d[i].parent->0;
            if q == p {
                let k = choose|k: int| 0 <= k < old_c.len() && old_c[k] == i as usize;
                if k < pos {
                    assert(new_c[k] == i as usize);
                } else {
                    assert(new_c[k + 1] == i as usize);
                }
            } else {
                assert(e[q as int].children == d[q as int].children);
            }
        }
    }
    assert forall|i: int, k1: int, k2: int|
        0 <= i < e.len() && 0 <= k1 < k2 < e[i].children.len() implies #[trigger] e[i].children[k1]
        != #[trigger] e[i].children[k2] by {
        if i == p {
            if k1 == pos {
                assert(new_c[k2] == old_c[k2 - 1]);
            } else if k2 == pos {
                assert(new_c[k1] == old_c[k1]);
            } else {
                let j1 = if k1 < pos { k1 } else { k1 - 1 };
                let j2 = if k2 < pos { k2 } else { k2 - 1 };
                assert(new_c[k1] == old_c[j1]);
                assert(new_c[k2] == old_c[j2]);
                assert(old_c[j1] != old_c[j2]);
            }
        } else {
            assert(e[i].children == d[i].children);
        }
    }
    assert forall|i: int| 0 <= i < e.len() && !(#[trigger] e[i].is_tag) implies e[i].children.len()
        == 0 && e[i].attrs.len() == 0 by {
        assert(e[i].is_tag == d[i].is_tag);
        if i != p {
            assert(e[i].children == d[i].children);
        }
    }
    assert forall|i: int, k1: int, k2: int|
        0 <= i < e.len() && 0 <= k1 < k2 < e[i].attrs.len() implies #[trigger] e[i].attrs[k1].0
        != #[trigger] e[i].attrs[k2].0 by {
        assert(e[i].attrs == d[i].attrs);
    }
}

pub proof fn lemma_unlink(d: Seq<NodeView>, i: usize)
    requires
        tree_ok(d),
        i < d.len(),
        d[i as int].parent is Some,
    ensures
        tree_ok(unlink(d, i)),
        unlink(d, i).len() == d.len(),
{
    let e = unlink(d, i);
    let p = d[i as int].parent->0;
    let old_c = d[p as int].children;
    let kk = pos_of(old_c, i);
    lemma_pos_of(old_c, i);
    let new_c = old_c.remove(kk);
    assert(p < i);
    assert(e[p as int].children == new_c);
    assert forall|j: int, k: int|
        0 <= j < e.len() && 0 <= k < e[j].children.len() implies j < e[j].children[k] < e.len()
        && e[e[j].children[k] as int].parent == Some(j as usize) by {
        if j == p {
            let m = if k < kk { k } else { k + 1 };
            assert(new_c[k] == old_c[m]);
            lemma_child_parent(d, j, m);
            assert(old_c[m] != i);
        } else {
            assert(e[j].children == d[j].children);
            lemma_child_parent(d, j, k);
            assert(d[j].children[k] != i);
        }
    }
    assert forall|j: int| 0 <= j < e.len() && (#[trigger] e[j].parent) is Some implies {
        let q = e[j].parent->0;
        &&& q < j
        &&& e[q as int].children.contains(j as usize)
    } by {
        let q = d[j].parent->0;
        assert(j != i);
        if q == p {
            let k = choose|k: int| 0 <= k < old_c.len() && old_c[k] == j as usize;
            assert(k != kk);
            if k < kk {
                assert(new_c[k] == j as usize);
            } else {
                assert(new_c[k - 1] == j as usize);
            }
        } else {
            assert(e[q as int].children == d[q as int].children);
        }
    }
    assert forall|j: int, k1: int, k2: int|
        0 <= j < e.len() && 0 <= k1 < k2 < e[j].children.len() implies #[trigger] e[j].children[k1]
        != #[trigger] e[j].children[k2] by {
        if j == p {
            let m1 = if k1 < kk { k1 } else { k1 + 1 };
            let m2 = if k2 < kk { k2 } else { k2 + 1 };
            assert(new_c[k1] == old_c[m1]);
            assert(new_c[k2] == old_c[m2]);
            assert(old_c[m1] != old_c[m2]);
        } else {
            assert(e[j].children == d[j].children);
        }
    }
    assert forall|j: int| 0 <= j < e.len() && !(#[trigger] e[j].is_tag) implies e[j].children.len()
        == 0 && e[j].attrs.len() == 0 by {
        assert(e[j].is_tag == d[j].is_tag);
        if j != p {
            assert(e[j].children == d[j].children);
        }
    }
    assert forall|j: int, k1: int, k2: int|
        0 <= j < e.len() && 0 <= k1 < k2 < e[j].attrs.len() implies #[trigger] e[j].attrs[k1].0
        != #[trigger] e[j].attrs[k2].0 by {
        assert(e[j].attrs == d[j].attrs);
    }
}

pub proof fn lemma_with_attrs(d: Seq<NodeView>, i: usize, a: Seq<(Seq<char>, Seq<char>)>)
    requires
        tree_ok(d),
        i < d.len(),
        d[i as int].is_tag,
        names_distinct(a),
    ensures
        tree_ok(with_attrs(d, i, a)),
{
    let e = with_attrs(d, i, a);
    assert forall|j: int, k: int|
        0 <= j < e.len() && 0 <= k < e[j].children.len() implies j < e[j].children[k] < e.len()
        && e[e[j].children[k] as int].parent == Some(j as usize) by {
        lemma_child_parent(d, j, k);
    }
    assert forall|j: int| 0 <= j < e.len() && (#[trigger] e[j].parent) is Some implies {
        let q = e[j].parent->0;
        &&& q < j
        &&& e[q as int].children.contains(j as usize)
    } by {
        assert(e[j].parent == d[j].parent);
    }
    assert forall|j: int, k1: int, k2: int|
        0 <= j < e.len() && 0 <= k1 < k2 < e[j].children.len() implies #[trigger] e[j].children[k1]
        != #[trigger] e[j].children[k2] by {
        assert(e[j].children == d[j].children);
    }
    assert forall|j: int| 0 <= j < e.len() && !(#[trigger] e[j].is_tag) implies e[j].children.len()
        == 0 && e[j].attrs.len() == 0 by {
        assert(e[j].is_tag == d[j].is_tag);
    }
    assert forall|j: int, k1: int, k2: int|
        0 <= j < e.len() && 0 <= k1 < k2 < e[j].attrs.len() implies #[trigger] e[j].attrs[k1].0
        != #[trigger] e[j].attrs[k2].0 by {
        if j != i {
            assert(e[j].attrs == d[j].attrs);
        }
    }
}

pub proof fn lemma_with_text(d: Seq<NodeView>, i: usize, t: Seq<char>)
    requires
        tree_ok(d),
        i < d.len(),
    ensures
        tree_ok(with_text(d, i, t)),
{
    let e = with_text(d, i, t);
    assert forall|j: int, k: int|
        0 <= j < e.len() && 0 <= k < e[j].children.len() implies j < e[j].children[k] < e.len()
        && e[e[j].children[k] as int].parent == Some(j as usize) by {
        lemma_child_parent(d, j, k);
    }
    assert forall|j: int| 0 <= j < e.len() && (#[trigger] e[j].parent) is Some implies {
        let q = e[j].parent->0;
        &&& q < j
        &&& e[q as int].children.contains(j as usize)
    } by {
        assert(e[j].parent == d[j].parent);
    }
    assert forall|j: int, k1: int, k2: int|
        0 <= j < e.len() && 0 <= k1 < k2 < e[j].children.len() implies #[trigger] e[j].children[k1]
        != #[trigger] e[j].children[k2] by {
        assert(e[j].children == d[j].children);
    }
    assert forall|j: int| 0 <= j < e.len() && !(#[trigger] e[j].is_tag) implies e[j].children.len()
        == 0 && e[j].attrs.len() == 0 by {
        assert(e[j].is_tag == d[j].is_tag);
    }
    assert forall|j: int, k1: int, k2: int|
        0 <= j < e.len() && 0 <= k1 < k2 < e[j].attrs.len() implies #[trigger] e[j].attrs[k1].0
        != #[trigger] e[j].attrs[k2].0 by {
        assert(e[j].attrs == d[j].attrs);
    }
}

/// The attributes of a tag as written in XML: a space, the name, `="`, the
/// escaped value and `"` for each.
pub open spec fn attrs_xml(a: Seq<(Seq<char>, Seq<char>)>) -> Seq<char>
    decreases a.len(),
{
    if a.len() == 0 {
        Seq::empty()
    } else {
        attrs_xml(a.drop_last()) + seq![' '] + a.last().0 + seq!['=', '"'] + escape_seq(a.last().1)
            + seq!['"']
    }
}

/// The attributes of a tag laid out as in XML but with the values as they
/// are, not escaped: what a reader of the XML text gets back.
pub open spec fn attrs_plain(a: Seq<(Seq<char>, Seq<char>)>) -> Seq<char>
    decreases a.len(),
{
    if a.len() == 0 {
        Seq::empty()
    } else {
        attrs_plain(a.drop_last()) + seq![' '] + a.last().0 + seq!['=', '"'] + a.last().1 + seq![
            '"',
        ]
    }
}

/// The number of times `c` occurs in `s`.
pub open spec fn count_char(s: Seq<char>, c: char) -> nat
    decreases s.len(),
{
    if s.len() == 0 {
        0
    } else {
        count_char(s.drop_last(), c) + if s.last() == c {
            1nat
        } else {
            0nat
        }
    }
}

/// An attribute name that XML text can hold as it is: no `&`, `<` or `"`.
pub open spec fn plain_name(n: Seq<char>) -> bool {
    forall|i: int| 0 <= i < n.len() ==> n[i] != '&' && n[i] != '<' && n[i] != '"'
}

proof fn lemma_count_concat(x: Seq<char>, y: Seq<char>, c: char)
    ensures
        count_char(x + y, c) == count_char(x, c) + count_char(y, c),
    decreases y.len(),
{
    if y.len() == 0 {
        assert(x + y =~= x);
    } else {
        lemma_count_concat(x, y.drop_last(), c);
        assert((x + y).drop_last() =~= x + y.drop_last());
    }
}

proof fn lemma_count_absent(x: Seq<char>, c: char)
    requires
        forall|i: int| 0 <= i < x.len() ==> x[i] != c,
    ensures
        count_char(x, c) == 0,
    decreases x.len(),
{
    if x.len() > 0 {
        lemma_count_absent(x.drop_last(), c);
    }
}

/// One written attribute: a space, the name, `="`, the escaped value, `"`.
pub open spec fn attr_piece(n: Seq<char>, v: Seq<char>) -> Seq<char> {
    seq![' '] + n + seq!['=', '"'] + escape_seq(v) + seq!['"']
}

proof fn lemma_attrs_xml_last(a: Seq<(Seq<char>, Seq<char>)>)
    requires
        a.len() > 0,
    ensures
        attrs_xml(a) == attrs_xml(a.drop_last()) + attr_piece(a.last().0, a.last().1),
{
    assert(attrs_xml(a) =~= attrs_xml(a.drop_last()) + attr_piece(a.last().0, a.last().1));
}

proof fn lemma_piece_read_back(n: Seq<char>, v: Seq<char>, t: Seq<char>)
    requires
        plain_name(n),
    ensures
        unescape(attr_piece(n, v) + t) == seq![' '] + n + seq!['=', '"'] + v + seq!['"']
            + unescape(t),
{
    let head = seq![' '] + n + seq!['=', '"'];
    let tail = seq!['"'];
    assert(forall|i: int| 0 <= i < head.len() ==> head[i] != '&');
    assert(attr_piece(n, v) + t =~= head + (escape_seq(v) + (tail + t)));
    lemma_unescape_plain(head, escape_seq(v) + (tail + t));
    law_unescape_escape(v, tail + t);
    lemma_unescape_plain(tail, t);
    assert(head + (v + (tail + unescape(t))) =~= seq![' '] + n + seq!['=', '"'] + v + seq!['"']
        + unescape(t));
}

proof fn lemma_attrs_unescape(a: Seq<(Seq<char>, Seq<char>)>, t: Seq<char>)
    requires
        forall|k: int| 0 <= k < a.len() ==> plain_name(#[trigger] a[k].0),
    ensures
        unescape(attrs_xml(a) + t) == attrs_plain(a) + unescape(t),
    decreases a.len(),
{
    if a.len() == 0 {
        assert(attrs_xml(a) + t =~= t);
        assert(attrs_plain(a) + unescape(t) =~= unescape(t));
    } else {
        let b = a.drop_last();
        let (n, v) = a.last();
        assert(plain_name(a[a.len() - 1].0));
        assert(forall|k: int| 0 <= k < b.len() ==> b[k] == a[k]);
        let piece = attr_piece(n, v);
        lemma_attrs_unescape(b, piece + t);
        lemma_attrs_xml_last(a);
        assert(attrs_xml(a) + t =~= attrs_xml(b) + (piece + t));
        lemma_piece_read_back(n, v, t);
        assert(attrs_plain(a) + unescape(t) =~= attrs_plain(b) + (seq![' '] + n + seq!['=', '"'] + v
            + seq!['"'] + unescape(t)));
    }
}

proof fn lemma_piece_shape(n: Seq<char>, v: Seq<char>)
    requires
        plain_name(n),
    ensures
        forall|i: int| 0 <= i < attr_piece(n, v).len() ==> attr_piece(n, v)[i] != '<',
        count_char(attr_piece(n, v), '"') == 2,
{
    let head = seq![' '] + n + seq!['=', '"'];
    let esc = escape_seq(v);
    let tail = seq!['"'];
    law_escape_safe(v);
    let x = attr_piece(n, v);
    assert(x =~= head + esc + tail);
    assert forall|i: int| 0 <= i < x.len() implies x[i] != '<' by {
        if i < head.len() {
            assert(x[i] == head[i]);
        } else if i < head.len() + esc.len() {
            assert(x[i] == esc[i - head.len()]);
        } else {
            assert(x[i] == tail[i - head.len() - esc.len()]);
        }
    }
    lemma_count_concat(head + esc, tail, '"');
    lemma_count_concat(head, esc, '"');
    lemma_count_concat(seq![' '] + n, seq!['=', '"'], '"');
    lemma_count_concat(seq![' '], n, '"');
    lemma_count_absent(n, '"');
    lemma_count_absent(esc, '"');
    assert(seq!['=', '"'].drop_last() =~= seq!['=']);
    assert(seq!['='].drop_last() =~= Seq::<char>::empty());
    assert(seq![' '].drop_last() =~= Seq::<char>::empty());
    assert(tail.drop_last() =~= Seq::<char>::empty());
    assert(count_char(Seq::<char>::empty(), '"') == 0);
    assert(count_char(seq![' '], '"') == 0);
    assert(count_char(seq!['='], '"') == 0);
    assert(count_char(seq!['=', '"'], '"') == 1);
    assert(count_char(tail, '"') == 1);
}

proof fn lemma_attrs_shape(a: Seq<(Seq<char>, Seq<char>)>)
    requires
        forall|k: int| 0 <= k < a.len() ==> plain_name(#[trigger] a[k].0),
    ensures
        forall|i: int| 0 <= i < attrs_xml(a).len() ==> attrs_xml(a)[i] != '<',
        count_char(attrs_xml(a), '"') == 2 * a.len(),
    decreases a.len(),
{
    if a.len() > 0 {
        let b = a.drop_last();
        let (n, v) = a.last();
        assert(plain_name(a[a.len() - 1].0));
        assert(forall|k: int| 0 <= k < b.len() ==> b[k] == a[k]);
        lemma_attrs_shape(b);
        lemma_piece_shape(n, v);
        lemma_attrs_xml_last(a);
        let x = attrs_xml(a);
        let piece = attr_piece(n, v);
        assert forall|i: int| 0 <= i < x.len() implies x[i] != '<' by {
            if i < attrs_xml(b).len() {
                assert(x[i] == attrs_xml(b)[i]);
            } else {
                assert(x[i] == piece[i - attrs_xml(b).len()]);
            }
        }
        lemma_count_concat(attrs_xml(b), piece, '"');
    }
}

/// Law of written attributes: with names that XML text holds as they are,
/// the attributes as written read back, through the five predefined
/// entities, as the names and values themselves; the text holds no `<`, and
/// exactly the two quotes around each value.
pub proof fn law_attributes_read_back(a: Seq<(Seq<char>, Seq<char>)>)
    requires
        forall|k: int| 0 <= k < a.len() ==> plain_name(#[trigger] a[k].0),
    ensures
        unescape(attrs_xml(a)) == attrs_plain(a),
        forall|i: int| 0 <= i < attrs_xml(a).len() ==> attrs_xml(a)[i] != '<',
        count_char(attrs_xml(a), '"') == 2 * a.len(),
{
    lemma_attrs_unescape(a, Seq::empty());
    lemma_attrs_shape(a);
    assert(attrs_xml(a) + Seq::<char>::empty() =~= attrs_xml(a));
    assert(attrs_plain(a) + unescape(Seq::<char>::empty()) =~= attrs_plain(a));
}

/// Law of written character data: the XML text of a character data node
/// reads back, through the five predefined entities, as its text, and holds
/// no `<` that could start markup.
pub proof fn law_text_read_back(d: Seq<NodeView>, i: int)
    requires
        0 <= i < d.len(),
        !d[i].is_tag,
    ensures
        unescape(xml_node(d, i)) == d[i].text,
        forall|j: int| 0 <= j < xml_node(d, i).len() ==> xml_node(d, i)[j] != '<',
{
    law_unescape_escape(d[i].text, Seq::empty());
    assert(escape_seq(d[i].text) + Seq::<char>::empty() =~= escape_seq(d[i].text));
    assert(d[i].text + unescape(Seq::<char>::empty()) =~= d[i].text);
    law_escape_safe(d[i].text);
}

/// The start of a tag: `<`, the name and the attributes.
pub open spec fn open_xml(v: NodeView) -> Seq<char> {
    seq!['<'] + v.text + attrs_xml(v.attrs)
}

/// An end tag.
pub open spec fn close_xml(v: NodeView) -> Seq<char> {
    seq!['<', '/'] + v.text + seq!['>']
}

/// A node written as XML: escaped text for character data, an empty
/// element tag for a tag without children, and otherwise the start tag,
/// the children and the end tag.
pub open spec fn xml_node(d: Seq<NodeView>, i: int) -> Seq<char>
    decreases d.len() - i, 1int, 0int,
{
    if i < 0 || i >= d.len() {
        Seq::empty()
    } else if !d[i].is_tag {
        escape_seq(d[i].text)
    } else if d[i].children.len() == 0 {
        open_xml(d[i]) + seq!['/', '>']
    } else {
        open_xml(d[i]) + seq!['>'] + xml_children(d, i, 0) + close_xml(d[i])
    }
}

/// The children of `p` from position `k` on, written as XML.
pub open spec fn xml_children(d: Seq<NodeView>, p: int, k: int) -> Seq<char>
    decreases d.len() - p, 0int, d[p].children.len() - k,
{
    if p < 0 || p >= d.len() || k < 0 || k >= d[p].children.len() {
        Seq::empty()
    } else {
        let c = d[p].children[k] as int;
        (if p < c < d.len() {
            xml_node(d, c)
        } else {
            Seq::empty()
        }) + xml_children(d, p, k + 1)
    }
}

/// Twice the number of nodes in the subtree of `i`.
pub open spec fn weight(d: Seq<NodeView>, i: int) -> nat
    decreases d.len() - i, 1int, 0int,
{
    if i < 0 || i >= d.len() {
        0
    } else {
        2 + weight_children(d, i, 0)
    }
}

pub open spec fn weight_children(d: Seq<NodeView>, p: int, k: int) -> nat
    decreases d.len() - p, 0int, d[p].children.len() - k,
{
    if p < 0 || p >= d.len() || k < 0 || k >= d[p].children.len() {
        0
    } else {
        let c = d[p].children[k] as int;
        (if p < c < d.len() {
            weight(d, c)
        } else {
            0
        }) + weight_children(d, p, k + 1)
    }
}

/// What is left to write of the open tags on a stack of (tag, next child
/// position) frames, innermost last.
pub open spec fn pending(d: Seq<NodeView>, stack: Seq<(usize, usize)>) -> Seq<char>
    decreases stack.len(),
{
    if stack.len() == 0 {
        Seq::empty()
    } else {
        let f = stack.last();
        xml_children(d, f.0 as int, f.1 as int) + close_xml(d[f.0 as int]) + pending(
            d,
            stack.drop_last(),
        )
    }
}

pub open spec fn stack_weight(d: Seq<NodeView>, stack: Seq<(usize, usize)>) -> nat
    decreases stack.len(),
{
    if stack.len() == 0 {
        0
    } else {
        let f = stack.last();
        1 + weight_children(d, f.0 as int, f.1 as int) + stack_weight(d, stack.drop_last())
    }
}

/// The nodes of the subtree of `i` in document order: the node, then the
/// subtrees of its children.
pub open spec fn preorder(d: Seq<NodeView>, i: int) -> Seq<usize>
    decreases d.len() - i, 1int, 0int,
{
    if i < 0 || i >= d.len() {
        Seq::empty()
    } else {
        seq![i as usize] + preorder_children(d, i, 0)
    }
}

pub open spec fn preorder_children(d: Seq<NodeView>, p: int, k: int) -> Seq<usize>
    decreases d.len() - p, 0int, d[p].children.len() - k,
{
    if p < 0 || p >= d.len() || k < 0 || k >= d[p].children.len() {
        Seq::empty()
    } else {
        let c = d[p].children[k] as int;
        (if p < c < d.len() {
            preorder(d, c)
        } else {
            Seq::empty()
        }) + preorder_children(d, p, k + 1)
    }
}

/// The nodes still to visit for a stack of (node, next child position)
/// frames, innermost last.
pub open spec fn pending_nodes(d: Seq<NodeView>, stack: Seq<(usize, usize)>) -> Seq<usize>
    decreases stack.len(),
{
    if stack.len() == 0 {
        Seq::empty()
    } else {
        let f = stack.last();
        preorder_children(d, f.0 as int, f.1 as int) + pending_nodes(d, stack.drop_last())
    }
}

/// The chain of parents of `i`, nearest first.
pub open spec fn ancestors(d: Seq<NodeView>, i: usize) -> Seq<usize>
    decreases i,
{
    match d[i as int].parent {
        Some(p) => if p < i {
            seq![p] + ancestors(d, p)
        } else {
            Seq::empty()
        },
        None => Seq::empty(),
    }
}


/// In a child list without repeats, the position of a member is the one
/// it stands at.
pub proof fn lemma_pos_of_unique(s: Seq<usize>, k: int)
    requires
        0 <= k < s.len(),
        forall|k1: int, k2: int| 0 <= k1 < k2 < s.len() ==> s[k1] != s[k2],
    ensures
        pos_of(s, s[k]) == k,
{
    assert(s.contains(s[k]));
    lemma_pos_of(s, s[k]);
    let j = pos_of(s, s[k]);
    if j < k {
        assert(s[j] != s[k]);
    } else if k < j {
        assert(s[k] != s[j]);
    }
}

/// Law of sibling navigation: the sibling after a node has that node as
/// the sibling before it, and the sibling before a node has it as the
/// sibling after.
pub proof fn law_siblings_inverse(d: Seq<NodeView>, i: usize)
    requires
        tree_ok(d),
        i < d.len(),
    ensures
        next_of(d, i) matches Some(j) ==> j < d.len() && previous_of(d, j) == Some(i),
        previous_of(d, i) matches Some(j) ==> j < d.len() && next_of(d, j) == Some(i),
{
    if let Some(p) = d[i as int].parent {
        let s = d[p as int].children;
        assert(d[i as int].parent is Some);
        lemma_pos_of(s, i);
        let k = pos_of(s, i);
        assert forall|k1: int, k2: int| 0 <= k1 < k2 < s.len() implies s[k1] != s[k2] by {
            assert(d[p as int].children[k1] != d[p as int].children[k2]);
        }
        if k + 1 < s.len() {
            lemma_child_parent(d, p as int, k + 1);
            lemma_pos_of_unique(s, k + 1);
        }
        if k > 0 {
            lemma_child_parent(d, p as int, k - 1);
            lemma_pos_of_unique(s, k - 1);
        }
    }
}

/// Law of child navigation: the first and the last child of a node have
/// that node as parent; the first child has no sibling before it and the
/// last none after it.
pub proof fn law_children_of(d: Seq<NodeView>, i: usize)
    requires
        tree_ok(d),
        i < d.len(),
        d[i as int].children.len() > 0,
    ensures
        d[d[i as int].children[0] as int].parent == Some(i),
        d[d[i as int].children.last() as int].parent == Some(i),
        previous_of(d, d[i as int].children[0]) is None,
        next_of(d, d[i as int].children.last()) is None,
{
    let s = d[i as int].children;
    lemma_child_parent(d, i as int, 0);
    lemma_child_parent(d, i as int, s.len() - 1);
    assert forall|k1: int, k2: int| 0 <= k1 < k2 < s.len() implies s[k1] != s[k2] by {
        assert(d[i as int].children[k1] != d[i as int].children[k2]);
    }
    lemma_pos_of_unique(s, 0);
    lemma_pos_of_unique(s, s.len() - 1);
}

/// The first attribute named `name` from `k` on is at `j` when `j` has
/// that name and none between `k` and `j` has.
proof fn lemma_attr_find_at(
    attrs: Seq<(Seq<char>, Seq<char>)>,
    name: Seq<char>,
    k: int,
    j: int,
)
    requires
        0 <= k <= j < attrs.len(),
        attrs[j].0 == name,
        forall|m: int| k <= m < j ==> attrs[m].0 != name,
    ensures
        attr_find(attrs, name, k) == Some(j),
    decreases j - k,
{
    if k < j {
        lemma_attr_find_at(attrs, name, k + 1, j);
    }
}

/// No attribute named `name` from `k` on: none is found.
proof fn lemma_attr_find_none(attrs: Seq<(Seq<char>, Seq<char>)>, name: Seq<char>, k: int)
    requires
        0 <= k,
        forall|m: int| k <= m < attrs.len() ==> attrs[m].0 != name,
    ensures
        attr_find(attrs, name, k) is None,
    decreases attrs.len() - k,
{
    if k < attrs.len() {
        lemma_attr_find_none(attrs, name, k + 1);
    }
}

/// Two attribute lists that name the same attributes `other` at the same
/// places with the same values answer a lookup of `other` alike, where
/// `b` may have one more entry, of another name, at the end.
proof fn lemma_lookup_same(
    a: Seq<(Seq<char>, Seq<char>)>,
    b: Seq<(Seq<char>, Seq<char>)>,
    other: Seq<char>,
)
    requires
        a.len() <= b.len(),
        forall|m: int| 0 <= m < a.len() && a[m].0 == other ==> b[m] == a[m],
        forall|m: int| 0 <= m < a.len() && a[m].0 != other ==> b[m].0 != other,
        forall|m: int| a.len() <= m < b.len() ==> b[m].0 != other,
    ensures
        attr_lookup(b, other) == attr_lookup(a, other),
{
    lemma_attr_find(a, other, 0);
    match attr_find(a, other, 0) {
        Some(j) => {
            lemma_attr_find_at(b, other, 0, j);
        },
        None => {
            lemma_attr_find_none(b, other, 0);
        },
    }
}

/// Law of attribute editing: after setting `name`, a lookup of `name`
/// gives the value set (nothing after a removal), a lookup of any other
/// name gives what it gave before, and the names stay distinct.
pub proof fn law_attribute_set_get(
    a: Seq<(Seq<char>, Seq<char>)>,
    name: Seq<char>,
    value: Option<Seq<char>>,
    other: Seq<char>,
)
    requires
        names_distinct(a),
    ensures
        attr_lookup(attrs_set(a, name, value), name) == value,
        other != name ==> attr_lookup(attrs_set(a, name, value), other) == attr_lookup(a, other),
        names_distinct(attrs_set(a, name, value)),
{
    let b = attrs_set(a, name, value);
    lemma_attr_find(a, name, 0);
    match attr_find(a, name, 0) {
        Some(k) => {
            match value {
                Some(v) => {
                    lemma_attr_find_at(b, name, 0, k);
                    if other != name {
                        lemma_lookup_same(a, b, other);
                    }
                    assert forall|k1: int, k2: int| 0 <= k1 < k2 < b.len() implies #[trigger] b[k1].0
                        != #[trigger] b[k2].0 by {
                        assert(b[k1].0 == a[k1].0);
                        assert(b[k2].0 == a[k2].0);
                        assert(a[k1].0 != a[k2].0);
                    }
                },
                None => {
                    assert forall|m: int| 0 <= m < b.len() implies b[m].0 != name by {
                        if m < k {
                            assert(b[m] == a[m]);
                        } else {
                            assert(b[m] == a[m + 1]);
                            assert(a[k].0 != a[m + 1].0);
                        }
                    }
                    lemma_attr_find_none(b, name, 0);
                    if other != name {
                        lemma_attr_find(a, other, 0);
                        match attr_find(a, other, 0) {
                            Some(j) => {
                                if j < k {
                                    lemma_attr_find_at(b, other, 0, j);
                                } else {
                                    assert(j != k);
                                    assert(b[j - 1] == a[j]);
                                    assert forall|m: int| 0 <= m < j - 1 implies b[m].0
                                        != other by {
                                        if m >= k {
                                            assert(b[m] == a[m + 1]);
                                        }
                                    }
                                    lemma_attr_find_at(b, other, 0, j - 1);
                                }
                            },
                            None => {
                                assert forall|m: int| 0 <= m < b.len() implies b[m].0
                                    != other by {
                                    if m >= k {
                                        assert(b[m] == a[m + 1]);
                                    }
                                }
                                lemma_attr_find_none(b, other, 0);
                            },
                        }
                    }
                    assert forall|k1: int, k2: int| 0 <= k1 < k2 < b.len() implies #[trigger] b[k1].0
                        != #[trigger] b[k2].0 by {
                        let m1 = if k1 < k { k1 } else { k1 + 1 };
                        let m2 = if k2 < k { k2 } else { k2 + 1 };
                        assert(b[k1] == a[m1]);
                        assert(b[k2] == a[m2]);
                        assert(a[m1].0 != a[m2].0);
                    }
                },
            }
        },
        None => {
            match value {
                Some(v) => {
                    lemma_attr_find_at(b, name, 0, a.len() as int);
                    if other != name {
                        lemma_lookup_same(a, b, other);
                    }
                    assert forall|k1: int, k2: int| 0 <= k1 < k2 < b.len() implies #[trigger] b[k1].0
                        != #[trigger] b[k2].0 by {
                        if k2 < a.len() {
                            assert(a[k1].0 != a[k2].0);
                        }
                    }
                },
                None => {},
            }
        },
    }
}

} // verus!
