use vstd::prelude::*;

use crate::document::{Cursor, DescendantOrSelf, Document, cursor_xml, target};
use crate::jid::{chars_of, string_of};
use crate::tree::{
    NodeView, lemma_child_parent, lemma_pos_of, lemma_pos_of_unique, name_of, pos_of, preorder, tree_ok,
};
use crate::utf8_text::str_eq;
use crate::entities::utf8_len;

verus! {

/// A malformed XPath expression.
#[derive(Clone, Copy, Debug, PartialEq, Eq)]
pub struct BadXPath;

/// The XPath axes.
#[derive(Clone, Copy, Debug, PartialEq, Eq, Structural)]
pub enum Axis {
    Child,
    Descendant,
    Attribute,
    SelfNode,
    DescendantOrSelf,
    FollowingSibling,
    Following,
    Namespace,
    Parent,
    Ancestor,
    PrecedingSibling,
    Preceding,
    AncestorOrSelf,
}

/// One step of a path: an axis and a name test (`*` matches any name).
pub struct StepView {
    pub axis: Axis,
    pub name: Seq<char>,
}

/// The states of the expression reader.
#[derive(Clone, Copy, PartialEq, Eq, Structural)]
pub enum ReadState {
    Start,
    Slash,
    AxisStart,
    Axis,
    AxisColumn,
    NodeTest,
}

/// The axis that a name stands for.
pub open spec fn axis_named(w: Seq<char>) -> Option<Axis> {
    if w == "self"@ {
        Some(Axis::SelfNode)
    } else if w == "parent"@ {
        Some(Axis::Parent)
    } else if w == "ancestor"@ {
        Some(Axis::Ancestor)
    } else if w == "descendant"@ {
        Some(Axis::Descendant)
    } else if w == "following"@ {
        Some(Axis::Following)
    } else if w == "preceding"@ {
        Some(Axis::Preceding)
    } else if w == "following-sibling"@ {
        Some(Axis::FollowingSibling)
    } else if w == "preceding-sibling"@ {
        Some(Axis::PrecedingSibling)
    } else if w == "attribute"@ {
        Some(Axis::Attribute)
    } else if w == "namespace"@ {
        Some(Axis::Namespace)
    } else if w == "child"@ {
        Some(Axis::Child)
    } else if w == "descendant-or-self"@ {
        Some(Axis::DescendantOrSelf)
    } else if w == "ancestor-or-self"@ {
        Some(Axis::AncestorOrSelf)
    } else {
        None
    }
}

/// Reading an expression from position `pos` on, in state `st`, with the
/// current step's name starting at `back`, its axis `axis`, and the steps
/// read so far.
pub open spec fn scan(
    s: Seq<char>,
    pos: int,
    st: ReadState,
    back: int,
    axis: Axis,
    steps: Seq<StepView>,
) -> Result<Seq<StepView>, BadXPath>
    decreases s.len() - pos,
{
    if pos < 0 || pos >= s.len() {
        match st {
            ReadState::AxisColumn => Err(BadXPath),
            ReadState::Axis | ReadState::NodeTest => Ok(
                steps.push(StepView { axis, name: s.subrange(back, s.len() as int) }),
            ),
            _ => Ok(steps),
        }
    } else {
        let c = s[pos];
        match st {
            ReadState::Start => if c == '/' {
                scan(s, pos + 1, ReadState::Slash, back, axis, steps)
            } else {
                scan(s, pos + 1, ReadState::Start, back, axis, steps)
            },
            ReadState::Slash => if c == '/' {
                scan(s, pos + 1, ReadState::AxisStart, back, Axis::DescendantOrSelf, steps)
            } else if c == '@' {
                scan(s, pos + 1, ReadState::Axis, pos + 1, Axis::Attribute, steps)
            } else {
                scan(s, pos + 1, ReadState::Axis, pos, Axis::Child, steps)
            },
            ReadState::AxisStart => if c == '@' {
                scan(s, pos + 1, ReadState::Axis, pos + 1, Axis::Attribute, steps)
            } else {
                scan(s, pos + 1, ReadState::Axis, pos, axis, steps)
            },
            ReadState::Axis => if c == ':' {
                match axis_named(s.subrange(back, pos)) {
                    None => Err(BadXPath),
                    Some(a) => scan(s, pos + 1, ReadState::AxisColumn, back, a, steps),
                }
            } else if c == '/' {
                scan(
                    s,
                    pos + 1,
                    ReadState::Slash,
                    back,
                    axis,
                    steps.push(StepView { axis, name: s.subrange(back, pos) }),
                )
            } else {
                scan(s, pos + 1, ReadState::Axis, back, axis, steps)
            },
            ReadState::AxisColumn => if c == ':' {
                scan(s, pos + 1, ReadState::NodeTest, pos + 1, axis, steps)
            } else {
                Err(BadXPath)
            },
            ReadState::NodeTest => if c == '/' {
                scan(
                    s,
                    pos + 1,
                    ReadState::Slash,
                    back,
                    axis,
                    steps.push(StepView { axis, name: s.subrange(back, pos) }),
                )
            } else {
                scan(s, pos + 1, ReadState::NodeTest, back, axis, steps)
            },
        }
    }
}

/// A path's first step along the child axis starts at the root itself.
pub open spec fn fix_steps(steps: Seq<StepView>) -> Seq<StepView> {
    if steps.len() > 0 && steps[0].axis == Axis::Child {
        steps.update(0, StepView { axis: Axis::SelfNode, name: steps[0].name })
    } else {
        steps
    }
}

/// The steps of an expression.
pub open spec fn parse_xpath(s: Seq<char>) -> Result<Seq<StepView>, BadXPath> {
    match scan(s, 0, ReadState::Start, 0, Axis::Child, Seq::empty()) {
        Ok(steps) => Ok(fix_steps(steps)),
        Err(e) => Err(e),
    }
}

/// A node passes the name test of a step.
pub open spec fn name_test(d: Seq<NodeView>, c: usize, name: Seq<char>) -> bool {
    name == seq!['*'] || name_of(d, c) == name
}

/// The nodes of `s` that pass the name test, in order.
pub open spec fn select(d: Seq<NodeView>, s: Seq<usize>, name: Seq<char>) -> Seq<usize>
    decreases s.len(),
{
    if s.len() == 0 {
        Seq::empty()
    } else {
        select(d, s.drop_last(), name) + if name_test(d, s.last(), name) {
            seq![s.last()]
        } else {
            Seq::empty()
        }
    }
}

/// The siblings after node `i`, in order.
pub open spec fn following_siblings(d: Seq<NodeView>, i: usize) -> Seq<usize> {
    match d[i as int].parent {
        Some(p) => d[p as int].children.skip(pos_of(d[p as int].children, i) + 1),
        None => Seq::empty(),
    }
}

/// The siblings before node `i`, nearest first.
pub open spec fn preceding_siblings(d: Seq<NodeView>, i: usize) -> Seq<usize> {
    match d[i as int].parent {
        Some(p) => d[p as int].children.take(pos_of(d[p as int].children, i)).reverse(),
        None => Seq::empty(),
    }
}

/// The nodes along an axis from node `i`; the axes without support give
/// none.
pub open spec fn axis_nodes(d: Seq<NodeView>, i: usize, axis: Axis) -> Seq<usize> {
    match axis {
        Axis::Child => d[i as int].children,
        Axis::DescendantOrSelf => preorder(d, i as int),
        Axis::FollowingSibling => following_siblings(d, i),
        Axis::PrecedingSibling => preceding_siblings(d, i),
        Axis::SelfNode => seq![i],
        _ => Seq::empty(),
    }
}

/// The name test keeps only nodes of the list, and only those it passes.
proof fn lemma_select_within(d: Seq<NodeView>, s: Seq<usize>, name: Seq<char>, n: usize)
    ensures
        select(d, s, name).contains(n) ==> s.contains(n) && name_test(d, n, name),
    decreases s.len(),
{
    if s.len() > 0 {
        lemma_select_within(d, s.drop_last(), name, n);
        let a = select(d, s.drop_last(), name);
        let b = if name_test(d, s.last(), name) {
            seq![s.last()]
        } else {
            Seq::<usize>::empty()
        };
        if (a + b).contains(n) {
            let j = choose|j: int| 0 <= j < (a + b).len() && (a + b)[j] == n;
            if j < a.len() {
                assert(a[j] == n);
                assert(a.contains(n));
                let m = choose|m: int| 0 <= m < s.drop_last().len() && s.drop_last()[m] == n;
                assert(s[m] == n);
            } else {
                assert(b[j - a.len()] == n);
                assert(s[s.len() - 1] == n);
            }
        }
    }
}

/// The name test keeps every node of the list that passes it.
proof fn lemma_select_keeps(d: Seq<NodeView>, s: Seq<usize>, name: Seq<char>, m: int)
    requires
        0 <= m < s.len(),
        name_test(d, s[m], name),
    ensures
        select(d, s, name).contains(s[m]),
    decreases s.len(),
{
    let a = select(d, s.drop_last(), name);
    if m == s.len() - 1 {
        assert((a + seq![s.last()])[a.len() as int] == s[m]);
    } else {
        assert(s.drop_last()[m] == s[m]);
        lemma_select_keeps(d, s.drop_last(), name, m);
        let j = choose|j: int| 0 <= j < a.len() && a[j] == s[m];
        let b = if name_test(d, s.last(), name) {
            seq![s.last()]
        } else {
            Seq::<usize>::empty()
        };
        assert((a + b)[j] == s[m]);
    }
}

/// Law of the following-sibling axis, the other way: every child of `i`'s
/// parent placed after `i` that passes the name test is selected.
pub proof fn law_following_sibling_complete(d: Seq<NodeView>, i: usize, name: Seq<char>, j: int)
    requires
        tree_ok(d),
        i < d.len(),
        d[i as int].parent is Some,
        pos_of(d[d[i as int].parent->0 as int].children, i) < j < d[d[i as int].parent->0 as int].children.len(),
        name_test(d, d[d[i as int].parent->0 as int].children[j], name),
    ensures
        select(d, axis_nodes(d, i, Axis::FollowingSibling), name).contains(
            d[d[i as int].parent->0 as int].children[j],
        ),
{
    let p = d[i as int].parent->0;
    let cs = d[p as int].children;
    assert(cs.contains(i));
    lemma_pos_of(cs, i);
    let k = pos_of(cs, i);
    let rest = cs.skip(k + 1);
    assert(rest[j - k - 1] == cs[j]);
    lemma_select_keeps(d, rest, name, j - k - 1);
}

/// Law of the preceding-sibling axis: every node it selects from node `i`
/// passes the name test and is a child of `i`'s parent placed before `i`;
/// `i` itself is never selected.
pub proof fn law_preceding_sibling_before(d: Seq<NodeView>, i: usize, name: Seq<char>, n: usize)
    requires
        tree_ok(d),
        i < d.len(),
        select(d, axis_nodes(d, i, Axis::PrecedingSibling), name).contains(n),
    ensures
        name_test(d, n, name),
        d[i as int].parent matches Some(p) && d[n as int].parent == Some(p) && pos_of(
            d[p as int].children,
            n,
        ) < pos_of(d[p as int].children, i),
        n != i,
{
    lemma_select_within(d, axis_nodes(d, i, Axis::PrecedingSibling), name, n);
    let p = d[i as int].parent->0;
    assert(d[i as int].parent is Some);
    let cs = d[p as int].children;
    assert(cs.contains(i));
    lemma_pos_of(cs, i);
    let k = pos_of(cs, i);
    let before = cs.take(k).reverse();
    assert(before.contains(n));
    let j = choose|j: int| 0 <= j < before.len() && before[j] == n;
    assert(before[j] == cs.take(k)[k - 1 - j]);
    assert(cs[k - 1 - j] == n);
    lemma_pos_of_unique(cs, k - 1 - j);
    lemma_child_parent(d, p as int, k - 1 - j);
}

/// Law of the following-sibling axis: every node it selects from node `i`
/// passes the name test and is a child of `i`'s parent placed after `i`;
/// `i` itself is never selected.
pub proof fn law_following_sibling_after(d: Seq<NodeView>, i: usize, name: Seq<char>, n: usize)
    requires
        tree_ok(d),
        i < d.len(),
        select(d, axis_nodes(d, i, Axis::FollowingSibling), name).contains(n),
    ensures
        name_test(d, n, name),
        d[i as int].parent matches Some(p) && d[n as int].parent == Some(p) && pos_of(
            d[p as int].children,
            n,
        ) > pos_of(d[p as int].children, i),
        n != i,
{
    lemma_select_within(d, axis_nodes(d, i, Axis::FollowingSibling), name, n);
    let p = d[i as int].parent->0;
    assert(d[i as int].parent is Some);
    let cs = d[p as int].children;
    assert(cs.contains(i));
    lemma_pos_of(cs, i);
    let k = pos_of(cs, i);
    let rest = cs.skip(k + 1);
    assert(rest.contains(n));
    let j = choose|j: int| 0 <= j < rest.len() && rest[j] == n;
    assert(cs[k + 1 + j] == n);
    lemma_pos_of_unique(cs, k + 1 + j);
    lemma_child_parent(d, p as int, k + 1 + j);
}

/// One step applied to each node of a context, results in order.
pub open spec fn step_over(d: Seq<NodeView>, ctx: Seq<usize>, step: StepView) -> Seq<usize>
    decreases ctx.len(),
{
    if ctx.len() == 0 {
        Seq::empty()
    } else {
        step_over(d, ctx.drop_last(), step) + select(d, axis_nodes(d, ctx.last(), step.axis), step.name)
    }
}

/// One step: an empty context stands for the root.
pub open spec fn run_step(d: Seq<NodeView>, ctx: Seq<usize>, step: StepView) -> Seq<usize> {
    if ctx.len() == 0 {
        select(d, axis_nodes(d, 0, step.axis), step.name)
    } else {
        step_over(d, ctx, step)
    }
}

/// The steps from `k` on, stopping at an empty result.
pub open spec fn apply_from(d: Seq<NodeView>, steps: Seq<StepView>, k: int, ctx: Seq<usize>) -> Seq<
    usize,
>
    decreases steps.len() - k,
{
    if k < 0 || k >= steps.len() {
        ctx
    } else {
        let next = run_step(d, ctx, steps[k]);
        if next.len() == 0 {
            next
        } else {
            apply_from(d, steps, k + 1, next)
        }
    }
}

/// One step of a compiled path.
pub struct AxisStep {
    pub axis: Axis,
    pub name: String,
}

pub open spec fn steps_view(v: Seq<AxisStep>) -> Seq<StepView> {
    Seq::new(v.len(), |k: int| StepView { axis: v[k].axis, name: v[k].name@ })
}

/// A value of a path's result.
pub enum XPathValue {
    Node(Cursor),
}

/// The result of a path: a sequence of values.
pub struct XPathSequence {
    pub items: Vec<XPathValue>,
}

/// The nodes of a result.
pub open spec fn items_view(v: Seq<XPathValue>) -> Seq<usize> {
    Seq::new(
        v.len(),
        |k: int|
            match v[k] {
                XPathValue::Node(c) => c.node->0,
            },
    )
}

/// Every value of a result stands on a node.
pub open spec fn items_ok(v: Seq<XPathValue>) -> bool {
    forall|k: int| 0 <= k < v.len() ==> (match #[trigger] v[k] {
        XPathValue::Node(c) => c.node is Some,
    })
}

/// A result written out: each node as XML on a line of its own.
pub open spec fn lines_xml(d: Seq<NodeView>, nodes: Seq<usize>) -> Seq<char>
    decreases nodes.len(),
{
    if nodes.len() == 0 {
        Seq::empty()
    } else {
        lines_xml(d, nodes.drop_last()) + cursor_xml(Cursor { node: Some(nodes.last()) }, d) + seq![
            '\n',
        ]
    }
}

impl XPathSequence {
    /// An empty sequence.
    pub fn new() -> (r: XPathSequence)
        ensures
            r.items@.len() == 0,
    {
        XPathSequence { items: Vec::new() }
    }

    /// The nodes written as XML, one per line.
    pub fn to_string(&self, doc: &Document) -> (r: String)
        requires
            doc.wf(),
            items_ok(self.items@),
            forall|k: int|
                0 <= k < self.items@.len() ==> utf8_len(
                    #[trigger] cursor_xml(Cursor { node: Some(items_view(self.items@)[k]) }, doc@),
                ) <= usize::MAX,
        ensures
            r@ == lines_xml(doc@, items_view(self.items@)),
    {
        let mut out = String::new();
        let mut k: usize = 0;
        let ghost all = items_view(self.items@);
        while k < self.items.len()
            invariant
                doc.wf(),
                items_ok(self.items@),
                all == items_view(self.items@),
                forall|j: int|
                    0 <= j < all.len() ==> utf8_len(
                        #[trigger] cursor_xml(Cursor { node: Some(all[j]) }, doc@),
                    ) <= usize::MAX,
                k <= self.items@.len(),
                out@ == lines_xml(doc@, all.take(k as int)),
            decreases self.items@.len() - k,
        {
            match &self.items[k] {
                XPathValue::Node(c) => {
                    assert(c.node == Some(all[k as int]));
                    assert(utf8_len(cursor_xml(Cursor { node: Some(all[k as int]) }, doc@)) <= usize::MAX);
                    let x = c.to_string(doc);
                    out.push_str(x.as_str());
                    out.push('\n');
                    proof {
                        assert(all.take(k + 1).drop_last() =~= all.take(k as int));
                        assert(c.node == Some(all[k as int]));
                        assert(out@ =~= lines_xml(doc@, all.take(k + 1)));
                    }
                },
            }
            k = k + 1;
        }
        assert(all.take(k as int) =~= all);
        out
    }
}

/// A compiled XPath expression. Paths of steps separated by `/` are read,
/// with `//` for descendants, `@` for attributes and `axis::name` steps;
/// the child, self, descendant-or-self and sibling axes are evaluated.
pub struct XPath {
    steps: Vec<AxisStep>,
}

impl View for XPath {
    type V = Seq<StepView>;

    closed spec fn view(&self) -> Seq<StepView> {
        steps_view(self.steps@)
    }
}

/// The axis a name stands for.
fn axis_by_name(w: &str) -> (r: Option<Axis>)
    ensures
        r == axis_named(w@),
{
    if str_eq(w, "self") {
        Some(Axis::SelfNode)
    } else if str_eq(w, "parent") {
        Some(Axis::Parent)
    } else if str_eq(w, "ancestor") {
        Some(Axis::Ancestor)
    } else if str_eq(w, "descendant") {
        Some(Axis::Descendant)
    } else if str_eq(w, "following") {
        Some(Axis::Following)
    } else if str_eq(w, "preceding") {
        Some(Axis::Preceding)
    } else if str_eq(w, "following-sibling") {
        Some(Axis::FollowingSibling)
    } else if str_eq(w, "preceding-sibling") {
        Some(Axis::PrecedingSibling)
    } else if str_eq(w, "attribute") {
        Some(Axis::Attribute)
    } else if str_eq(w, "namespace") {
        Some(Axis::Namespace)
    } else if str_eq(w, "child") {
        Some(Axis::Child)
    } else if str_eq(w, "descendant-or-self") {
        Some(Axis::DescendantOrSelf)
    } else if str_eq(w, "ancestor-or-self") {
        Some(Axis::AncestorOrSelf)
    } else {
        None
    }
}

impl XPath {
    fn push_step(steps: &mut Vec<AxisStep>, axis: Axis, v: &Vec<char>, back: usize, pos: usize)
        requires
            back <= pos <= v@.len(),
        ensures
            steps_view(final(steps)@) == steps_view(old(steps)@).push(
                StepView { axis, name: v@.subrange(back as int, pos as int) },
            ),
    {
        let name = string_of(v, back, pos);
        steps.push(AxisStep { axis, name });
        assert(steps_view(steps@) =~= steps_view(old(steps)@).push(
            StepView { axis, name: v@.subrange(back as int, pos as int) },
        ));
    }

    /// Compiles an expression.
    pub fn new(expression: &str) -> (r: Result<XPath, BadXPath>)
        ensures
            (match r {
                Ok(x) => Ok(x@),
                Err(e) => Err(e),
            }) == parse_xpath(expression@),
    {
        let v = chars_of(expression);
        let ghost s = expression@;
        let n = v.len();
        let mut pos: usize = 0;
        let mut back: usize = 0;
        let mut state = ReadState::Start;
        let mut axis = Axis::Child;
        let mut steps: Vec<AxisStep> = Vec::new();
        assert(steps_view(steps@) =~= Seq::<StepView>::empty());
        while pos < n
            invariant
                v@ == s,
                s == expression@,
                n == v@.len(),
                pos <= n,
                back <= pos,
                scan(s, pos as int, state, back as int, axis, steps_view(steps@)) == scan(
                    s,
                    0,
                    ReadState::Start,
                    0,
                    Axis::Child,
                    Seq::empty(),
                ),
            decreases n - pos,
        {
            let c = v[pos];
            match state {
                ReadState::Start => {
                    if c == '/' {
                        state = ReadState::Slash;
                    }
                },
                ReadState::Slash => {
                    if c == '/' {
                        axis = Axis::DescendantOrSelf;
                        state = ReadState::AxisStart;
                    } else if c == '@' {
                        back = pos + 1;
                        axis = Axis::Attribute;
                        state = ReadState::Axis;
                    } else {
                        back = pos;
                        axis = Axis::Child;
                        state = ReadState::Axis;
                    }
                },
                ReadState::AxisStart => {
                    if c == '@' {
                        back = pos + 1;
                        axis = Axis::Attribute;
                        state = ReadState::Axis;
                    } else {
                        back = pos;
                        state = ReadState::Axis;
                    }
                },
                ReadState::Axis => {
                    if c == ':' {
                        let w = string_of(&v, back, pos);
                        match axis_by_name(w.as_str()) {
                            Some(a) => {
                                axis = a;
                                state = ReadState::AxisColumn;
                            },
                            None => {
                                assert(w@ == s.subrange(back as int, pos as int));
                                assert(scan(s, pos as int, state, back as int, axis, steps_view(steps@))
                                    == Err::<Seq<StepView>, BadXPath>(BadXPath));
                                return Err(BadXPath);
                            },
                        }
                    } else if c == '/' {
                        Self::push_step(&mut steps, axis, &v, back, pos);
                        state = ReadState::Slash;
                    }
                },
                ReadState::AxisColumn => {
                    if c == ':' {
                        back = pos + 1;
                        state = ReadState::NodeTest;
                    } else {
                        assert(scan(s, pos as int, state, back as int, axis, steps_view(steps@))
                            == Err::<Seq<StepView>, BadXPath>(BadXPath));
                        return Err(BadXPath);
                    }
                },
                ReadState::NodeTest => {
                    if c == '/' {
                        Self::push_step(&mut steps, axis, &v, back, pos);
                        state = ReadState::Slash;
                    }
                },
            }
            pos = pos + 1;
        }
        match state {
            ReadState::AxisColumn => {
                return Err(BadXPath);
            },
            ReadState::Axis | ReadState::NodeTest => {
                Self::push_step(&mut steps, axis, &v, back, pos);
            },
            _ => {},
        }
        if steps.len() > 0 && steps[0].axis == Axis::Child {
            let ghost before = steps_view(steps@);
            let first = steps.remove(0);
            steps.insert(0, AxisStep { axis: Axis::SelfNode, name: first.name });
            assert(steps_view(steps@) =~= fix_steps(before));
        } else {
            assert(steps_view(steps@) =~= fix_steps(steps_view(steps@)));
        }
        Ok(XPath { steps })
    }
}

proof fn lemma_select_push(d: Seq<NodeView>, s: Seq<usize>, k: int, name: Seq<char>)
    requires
        0 <= k < s.len(),
    ensures
        select(d, s.take(k + 1), name) == select(d, s.take(k), name) + (if name_test(d, s[k], name) {
            seq![s[k]]
        } else {
            Seq::empty()
        }),
{
    assert(s.take(k + 1).drop_last() =~= s.take(k));
}

/// The view of a result grows by the node pushed.
proof fn lemma_items_push(v: Seq<XPathValue>, c: usize)
    ensures
        items_view(v.push(XPathValue::Node(Cursor { node: Some(c) }))) == items_view(v).push(c),
{
    assert(items_view(v.push(XPathValue::Node(Cursor { node: Some(c) }))) =~= items_view(v).push(c));
}

impl XPath {
    /// The name test of a step.
    fn test(doc: &Document, c: usize, name: &String) -> (r: bool)
        requires
            doc.wf(),
            c < doc@.len(),
        ensures
            r == name_test(doc@, c, name@),
    {
        proof {
            reveal_strlit("*");
            assert("*"@ =~= seq!['*']);
        }
        let cur = Cursor { node: Some(c) };
        str_eq(name.as_str(), "*") || str_eq(name.as_str(), cur.name(doc))
    }

    /// Adds the node `c` to `out` when it passes the name test.
    fn add_if(doc: &Document, c: usize, name: &String, out: &mut Vec<XPathValue>)
        requires
            doc.wf(),
            c < doc@.len(),
            items_ok(old(out)@),
        ensures
            items_ok(final(out)@),
            items_view(final(out)@) == items_view(old(out)@) + (if name_test(doc@, c, name@) {
                seq![c]
            } else {
                Seq::empty()
            }),
    {
        if Self::test(doc, c, name) {
            proof {
                lemma_items_push(out@, c);
            }
            out.push(XPathValue::Node(Cursor { node: Some(c) }));
            proof {
                assert forall|k: int| 0 <= k < out@.len() implies (match #[trigger] out@[k] {
                    XPathValue::Node(cc) => cc.node is Some,
                }) by {
                    if k < old(out)@.len() {
                        assert(out@[k] == old(out)@[k]);
                    }
                }
            }
        } else {
            assert(items_view(out@) =~= items_view(out@) + Seq::<usize>::empty());
        }
    }

    /// Applies one step to node `i`, adding the nodes it selects.
    fn run_step_for_item(doc: &Document, i: usize, out: &mut Vec<XPathValue>, step: &AxisStep)
        requires
            doc.wf(),
            i < doc@.len(),
            items_ok(old(out)@),
        ensures
            items_ok(final(out)@),
            items_view(final(out)@) == items_view(old(out)@) + select(
                doc@,
                axis_nodes(doc@, i, step.axis),
                step.name@,
            ),
    {
        let ghost d = doc@;
        let ghost start = items_view(out@);
        match step.axis {
            Axis::Child => {
                let n = doc.child_count(i);
                let ghost s = d[i as int].children;
                let mut k: usize = 0;
                assert(s.take(0) =~= Seq::<usize>::empty());
                while k < n
                    invariant
                        doc.wf(),
                        d == doc@,
                        i < d.len(),
                        s == d[i as int].children,
                        n == s.len(),
                        k <= n,
                        items_ok(out@),
                        items_view(out@) == start + select(d, s.take(k as int), step.name@),
                    decreases n - k,
                {
                    let c = doc.child_at(i, k);
                    Self::add_if(doc, c, &step.name, out);
                    proof {
                        lemma_select_push(d, s, k as int, step.name@);
                    }
                    k = k + 1;
                }
                assert(s.take(n as int) =~= s);
                assert(axis_nodes(d, i, step.axis) == s);
                assert(items_view(out@) == start + select(d, s, step.name@));
            },
            Axis::DescendantOrSelf => {
                let mut it = DescendantOrSelf::new(Cursor { node: Some(i) }, doc);
                let ghost s = preorder(d, i as int);
                proof {
                    doc.lemma_tree();
                    lemma_preorder_below(d, i as int);
                }
                let ghost mut k: int = 0;
                assert(s.take(0) =~= Seq::<usize>::empty());
                assert(s.skip(0) =~= s);
                loop
                    invariant
                        doc.wf(),
                        d == doc@,
                        it.wf(),
                        0 <= k <= s.len(),
                        it.remaining() == s.skip(k),
                        forall|j: int| 0 <= j < s.len() ==> s[j] < d.len(),
                        items_ok(out@),
                        items_view(out@) == start + select(d, s.take(k), step.name@),
                    ensures
                        items_ok(out@),
                        items_view(out@) == start + select(d, s, step.name@),
                    decreases s.len() - k,
                {
                    match it.next() {
                        Some(c) => {
                            let n = c.node.unwrap();
                            proof {
                                assert(n == s[k]);
                            }
                            Self::add_if(doc, n, &step.name, out);
                            proof {
                                lemma_select_push(d, s, k, step.name@);
                                assert(s.skip(k).drop_first() =~= s.skip(k + 1));
                                k = k + 1;
                            }
                        },
                        None => {
                            proof {
                                assert(s.skip(k).len() == 0);
                                assert(s.take(k) =~= s);
                            }
                            break;
                        },
                    }
                }
            },
            Axis::FollowingSibling => {
                match doc.sibling_position(i) {
                    Some((p, pos)) => {
                        let n = doc.child_count(p);
                        let ghost all = d[p as int].children;
                        let ghost s = all.skip(pos + 1);
                        assert(pos < n);
                        let mut k: usize = pos + 1;
                        assert(s.take(0) =~= Seq::<usize>::empty());
                        while k < n
                            invariant
                                doc.wf(),
                                d == doc@,
                                p < d.len(),
                                all == d[p as int].children,
                                n == all.len(),
                                pos < n,
                                s == all.skip(pos + 1),
                                pos + 1 <= k <= n,
                                items_ok(out@),
                                items_view(out@) == start + select(d, s.take(k - pos - 1), step.name@),
                            decreases n - k,
                        {
                            let c = doc.child_at(p, k);
                            Self::add_if(doc, c, &step.name, out);
                            proof {
                                assert(s[k - pos - 1] == c);
                                lemma_select_push(d, s, k - pos - 1, step.name@);
                            }
                            k = k + 1;
                        }
                        assert(s.take(k - pos - 1) =~= s);
                    },
                    None => {
                        assert(items_view(out@) =~= start + Seq::<usize>::empty());
                    },
                }
            },
            Axis::PrecedingSibling => {
                match doc.sibling_position(i) {
                    Some((p, pos)) => {
                        let ghost all = d[p as int].children;
                        let ghost s = all.take(pos as int).reverse();
                        let mut k: usize = pos;
                        assert(s.take(0) =~= Seq::<usize>::empty());
                        while k > 0
                            invariant
                                doc.wf(),
                                d == doc@,
                                p < d.len(),
                                all == d[p as int].children,
                                pos < all.len(),
                                s == all.take(pos as int).reverse(),
                                k <= pos,
                                items_ok(out@),
                                items_view(out@) == start + select(d, s.take(pos - k), step.name@),
                            decreases k,
                        {
                            let c = doc.child_at(p, k - 1);
                            Self::add_if(doc, c, &step.name, out);
                            proof {
                                assert(s[pos - k] == c);
                                lemma_select_push(d, s, pos - k, step.name@);
                            }
                            k = k - 1;
                        }
                        assert(s.take(pos as int) =~= s);
                    },
                    None => {
                        assert(items_view(out@) =~= start + Seq::<usize>::empty());
                    },
                }
            },
            Axis::SelfNode => {
                Self::add_if(doc, i, &step.name, out);
                proof {
                    let s = seq![i];
                    assert(s.drop_last() =~= Seq::<usize>::empty());
                    assert(s.last() == i);
                    assert(select(d, Seq::<usize>::empty(), step.name@) =~= Seq::<usize>::empty());
                    assert(select(d, s, step.name@) == select(d, s.drop_last(), step.name@) + (if name_test(
                        d,
                        s.last(),
                        step.name@,
                    ) {
                        seq![s.last()]
                    } else {
                        Seq::empty()
                    }));
                    assert(select(d, s, step.name@) =~= (if name_test(d, i, step.name@) {
                        seq![i]
                    } else {
                        Seq::empty()
                    }));
                }
            },
            _ => {
                assert(items_view(out@) =~= start + Seq::<usize>::empty());
            },
        }
    }

    /// Applies a step to a context.
    fn run_step(doc: &Document, context: &XPathSequence, step: &AxisStep) -> (r: XPathSequence)
        requires
            doc.wf(),
            items_ok(context.items@),
            forall|k: int| 0 <= k < context.items@.len() ==> #[trigger] items_view(context.items@)[k] < doc@.len(),
        ensures
            items_ok(r.items@),
            items_view(r.items@) == run_step(doc@, items_view(context.items@), StepView {
                axis: step.axis,
                name: step.name@,
            }),
    {
        let ghost d = doc@;
        let ghost sv = StepView { axis: step.axis, name: step.name@ };
        let mut out: Vec<XPathValue> = Vec::new();
        assert(items_view(out@) =~= Seq::<usize>::empty());
        proof {
            doc.lemma_tree();
        }
        if context.items.len() == 0 {
            Self::run_step_for_item(doc, 0, &mut out, step);
            assert(items_view(out@) =~= run_step(d, items_view(context.items@), sv));
        } else {
            let ghost ctx = items_view(context.items@);
            let mut k: usize = 0;
            assert(ctx.take(0) =~= Seq::<usize>::empty());
            while k < context.items.len()
                invariant
                    doc.wf(),
                    d == doc@,
                    items_ok(context.items@),
                    ctx == items_view(context.items@),
                    sv == (StepView { axis: step.axis, name: step.name@ }),
                    forall|j: int| 0 <= j < ctx.len() ==> #[trigger] ctx[j] < d.len(),
                    k <= ctx.len(),
                    items_ok(out@),
                    items_view(out@) == step_over(d, ctx.take(k as int), sv),
                decreases ctx.len() - k,
            {
                match &context.items[k] {
                    XPathValue::Node(c) => {
                        let i = c.node.unwrap();
                        assert(i == ctx[k as int]);
                        Self::run_step_for_item(doc, i, &mut out, step);
                        proof {
                            assert(ctx.take(k + 1).drop_last() =~= ctx.take(k as int));
                            assert(ctx.take(k + 1).last() == i);
                            assert(step_over(d, ctx.take(k + 1), sv) == step_over(d, ctx.take(k as int), sv)
                                + select(d, axis_nodes(d, i, sv.axis), sv.name));
                        }
                    },
                }
                k = k + 1;
            }
            assert(ctx.take(k as int) =~= ctx);
        }
        XPathSequence { items: out }
    }

    /// Evaluates the path on a document. Each step is applied to the
    /// nodes the previous one selected, starting from the root; evaluation
    /// stops at an empty result.
    pub fn apply(&self, doc: &Document) -> (r: Result<XPathSequence, BadXPath>)
        requires
            doc.wf(),
        ensures
            r matches Ok(s) && items_ok(s.items@) && items_view(s.items@) == apply_from(
                doc@,
                self@,
                0,
                Seq::empty(),
            ),
    {
        let mut context = XPathSequence::new();
        let ghost d = doc@;
        let ghost steps = self@;
        assert(items_view(context.items@) =~= Seq::<usize>::empty());
        let mut k: usize = 0;
        while k < self.steps.len()
            invariant
                doc.wf(),
                d == doc@,
                steps == self@,
                k <= self.steps@.len(),
                items_ok(context.items@),
                forall|j: int| 0 <= j < items_view(context.items@).len() ==> #[trigger] items_view(
                    context.items@,
                )[j] < d.len(),
                apply_from(d, steps, k as int, items_view(context.items@)) == apply_from(
                    d,
                    steps,
                    0,
                    Seq::empty(),
                ),
            decreases self.steps@.len() - k,
        {
            let next = Self::run_step(doc, &context, &self.steps[k]);
            proof {
                assert(steps[k as int] == StepView { axis: self.steps@[k as int].axis, name: self.steps@[k as int].name@ });
                doc.lemma_tree();
                lemma_run_step_nodes(d, items_view(context.items@), steps[k as int]);
            }
            context = next;
            if context.items.len() == 0 {
                return Ok(context);
            }
            k = k + 1;
        }
        Ok(context)
    }
}

/// All entries of a list are below `n`.
pub open spec fn all_below(s: Seq<usize>, n: nat) -> bool {
    forall|j: int| 0 <= j < s.len() ==> #[trigger] s[j] < n
}

proof fn lemma_select_below(d: Seq<NodeView>, s: Seq<usize>, name: Seq<char>, n: nat)
    requires
        all_below(s, n),
    ensures
        all_below(select(d, s, name), n),
    decreases s.len(),
{
    if s.len() > 0 {
        lemma_select_below(d, s.drop_last(), name, n);
        let a = select(d, s.drop_last(), name);
        let b = if name_test(d, s.last(), name) {
            seq![s.last()]
        } else {
            Seq::empty()
        };
        assert forall|j: int| 0 <= j < (a + b).len() implies #[trigger] (a + b)[j] < n by {
            if j < a.len() {
                assert((a + b)[j] == a[j]);
            } else {
                assert((a + b)[j] == s.last());
            }
        }
    }
}

proof fn lemma_preorder_below(d: Seq<NodeView>, i: int)
    requires
        crate::tree::tree_ok(d),
    ensures
        all_below(preorder(d, i), d.len()),
    decreases d.len() - i, 1int, 0int,
{
    if 0 <= i < d.len() {
        lemma_preorder_children_below(d, i, 0);
        let a = seq![i as usize];
        let b = crate::tree::preorder_children(d, i, 0);
        assert forall|j: int| 0 <= j < (a + b).len() implies #[trigger] (a + b)[j] < d.len() by {
            if j < 1 {
                assert((a + b)[j] == i);
            } else {
                assert((a + b)[j] == b[j - 1]);
            }
        }
    }
}

proof fn lemma_preorder_children_below(d: Seq<NodeView>, p: int, k: int)
    requires
        crate::tree::tree_ok(d),
    ensures
        all_below(crate::tree::preorder_children(d, p, k), d.len()),
    decreases d.len() - p, 0int, d[p].children.len() - k,
{
    if 0 <= p < d.len() && 0 <= k < d[p].children.len() {
        let c = d[p].children[k] as int;
        let a = if p < c < d.len() {
            preorder(d, c)
        } else {
            Seq::empty()
        };
        if p < c < d.len() {
            lemma_preorder_below(d, c);
        }
        lemma_preorder_children_below(d, p, k + 1);
        let b = crate::tree::preorder_children(d, p, k + 1);
        assert forall|j: int| 0 <= j < (a + b).len() implies #[trigger] (a + b)[j] < d.len() by {
            if j < a.len() {
                assert((a + b)[j] == a[j]);
            } else {
                assert((a + b)[j] == b[j - a.len()]);
            }
        }
    }
}

proof fn lemma_axis_below(d: Seq<NodeView>, i: usize, axis: Axis)
    requires
        crate::tree::tree_ok(d),
        i < d.len(),
    ensures
        all_below(axis_nodes(d, i, axis), d.len()),
{
    match axis {
        Axis::Child => {
            assert forall|j: int| 0 <= j < d[i as int].children.len() implies #[trigger] d[i as int].children[j] < d.len() by {
                lemma_child_parent(d, i as int, j);
            }
        },
        Axis::DescendantOrSelf => {
            lemma_preorder_below(d, i as int);
        },
        Axis::FollowingSibling => {
            if let Some(p) = d[i as int].parent {
                let all = d[p as int].children;
                let k = pos_of(all, i);
                lemma_pos_of(all, i);
                assert forall|j: int| 0 <= j < all.skip(k + 1).len() implies #[trigger] all.skip(k + 1)[j] < d.len() by {
                    lemma_child_parent(d, p as int, j + k + 1);
                }
            }
        },
        Axis::PrecedingSibling => {
            if let Some(p) = d[i as int].parent {
                let all = d[p as int].children;
                let k = pos_of(all, i);
                lemma_pos_of(all, i);
                let r = all.take(k).reverse();
                assert forall|j: int| 0 <= j < r.len() implies #[trigger] r[j] < d.len() by {
                    assert(r[j] == all[k - 1 - j]);
                    lemma_child_parent(d, p as int, k - 1 - j);
                }
            }
        },
        _ => {},
    }
}

proof fn lemma_step_over_below(d: Seq<NodeView>, ctx: Seq<usize>, step: StepView)
    requires
        crate::tree::tree_ok(d),
        all_below(ctx, d.len()),
    ensures
        all_below(step_over(d, ctx, step), d.len()),
    decreases ctx.len(),
{
    if ctx.len() > 0 {
        let t = ctx.drop_last();
        assert forall|j: int| 0 <= j < t.len() implies #[trigger] t[j] < d.len() by {
            assert(t[j] == ctx[j]);
        }
        lemma_step_over_below(d, t, step);
        lemma_axis_below(d, ctx.last(), step.axis);
        lemma_select_below(d, axis_nodes(d, ctx.last(), step.axis), step.name, d.len());
        let a = step_over(d, t, step);
        let b = select(d, axis_nodes(d, ctx.last(), step.axis), step.name);
        assert forall|j: int| 0 <= j < (a + b).len() implies #[trigger] (a + b)[j] < d.len() by {
            if j < a.len() {
                assert((a + b)[j] == a[j]);
            } else {
                assert((a + b)[j] == b[j - a.len()]);
            }
        }
    }
}

/// The nodes a step selects are nodes of the document.
proof fn lemma_run_step_nodes(d: Seq<NodeView>, ctx: Seq<usize>, step: StepView)
    requires
        crate::tree::tree_ok(d),
        forall|j: int| 0 <= j < ctx.len() ==> #[trigger] ctx[j] < d.len(),
    ensures
        forall|j: int| 0 <= j < run_step(d, ctx, step).len() ==> #[trigger] run_step(d, ctx, step)[j] < d.len(),
{
    if ctx.len() == 0 {
        lemma_axis_below(d, 0, step.axis);
        lemma_select_below(d, axis_nodes(d, 0, step.axis), step.name, d.len());
    } else {
        lemma_step_over_below(d, ctx, step);
    }
}
/// The nodes that a name test keeps pass it.
proof fn lemma_select_passes(d: Seq<NodeView>, s: Seq<usize>, name: Seq<char>)
    ensures
        forall|j: int|
            0 <= j < select(d, s, name).len() ==> name_test(d, #[trigger] select(d, s, name)[j], name),
    decreases s.len(),
{
    if s.len() > 0 {
        lemma_select_passes(d, s.drop_last(), name);
        let a = select(d, s.drop_last(), name);
        let b: Seq<usize> = if name_test(d, s.last(), name) {
            seq![s.last()]
        } else {
            Seq::empty()
        };
        assert forall|j: int| 0 <= j < (a + b).len() implies name_test(d, #[trigger] (a + b)[j], name) by {
            if j < a.len() {
                assert((a + b)[j] == a[j]);
            } else {
                assert((a + b)[j] == b[j - a.len()]);
            }
        }
    }
}

/// The nodes of a step pass the step's name test.
proof fn lemma_step_passes(d: Seq<NodeView>, ctx: Seq<usize>, step: StepView)
    ensures
        forall|j: int|
            0 <= j < run_step(d, ctx, step).len() ==> name_test(
                d,
                #[trigger] run_step(d, ctx, step)[j],
                step.name,
            ),
    decreases ctx.len(),
{
    if ctx.len() == 0 {
        lemma_select_passes(d, axis_nodes(d, 0, step.axis), step.name);
    } else {
        lemma_step_over_passes(d, ctx, step);
    }
}

proof fn lemma_step_over_passes(d: Seq<NodeView>, ctx: Seq<usize>, step: StepView)
    ensures
        forall|j: int|
            0 <= j < step_over(d, ctx, step).len() ==> name_test(
                d,
                #[trigger] step_over(d, ctx, step)[j],
                step.name,
            ),
    decreases ctx.len(),
{
    if ctx.len() > 0 {
        lemma_step_over_passes(d, ctx.drop_last(), step);
        let a = step_over(d, ctx.drop_last(), step);
        let b = select(d, axis_nodes(d, ctx.last(), step.axis), step.name);
        lemma_select_passes(d, axis_nodes(d, ctx.last(), step.axis), step.name);
        assert forall|j: int| 0 <= j < (a + b).len() implies name_test(d, #[trigger] (a + b)[j], step.name) by {
            if j < a.len() {
                assert((a + b)[j] == a[j]);
            } else {
                assert((a + b)[j] == b[j - a.len()]);
            }
        }
    }
}

/// Law of paths: every node that a path of at least one step selects
/// passes the name test of the path's last step.
pub proof fn law_path_last_name_test(d: Seq<NodeView>, steps: Seq<StepView>, k: int, ctx: Seq<usize>)
    requires
        0 <= k < steps.len(),
    ensures
        forall|j: int|
            0 <= j < apply_from(d, steps, k, ctx).len() ==> name_test(
                d,
                #[trigger] apply_from(d, steps, k, ctx)[j],
                steps.last().name,
            ),
    decreases steps.len() - k,
{
    let next = run_step(d, ctx, steps[k]);
    if next.len() > 0 {
        assert(apply_from(d, steps, k, ctx) == apply_from(d, steps, k + 1, next));
        if k + 1 < steps.len() {
            law_path_last_name_test(d, steps, k + 1, next);
        } else {
            lemma_step_passes(d, ctx, steps[k]);
            assert(steps[k] == steps.last());
            assert(apply_from(d, steps, k + 1, next) == next);
        }
    } else {
        assert(apply_from(d, steps, k, ctx) == next);
    }
}

} // verus!
