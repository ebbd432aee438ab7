use vstd::prelude::*;

use crate::entities::utf8_len;
use crate::error::ParseError;
use crate::parser::{SaxElement, SaxEvent};
use crate::utf8_text::str_eq;

verus! {

/// Error text for an attribute given twice in one tag.
pub const DUPLICATE_ATTRIBUTE_TEXT: &'static str = "duplicate attribute";

/// Error text for an end tag that does not close the open tag.
pub const END_TAG_MISMATCH_TEXT: &'static str = "end tag mismatch";

/// One more, stopping at `usize::MAX`.
pub open spec fn sat_inc(n: usize) -> usize {
    if n < usize::MAX {
        (n + 1) as usize
    } else {
        n
    }
}

/// A sum that stops at `usize::MAX`.
pub open spec fn sat_add(a: usize, b: nat) -> usize {
    if a + b <= usize::MAX {
        (a + b) as usize
    } else {
        usize::MAX
    }
}

/// The position of the entry for tag `name` in a list of tag counts.
pub open spec fn count_find(counts: Seq<(Seq<char>, usize)>, name: Seq<char>, k: int) -> Option<int>
    decreases counts.len() - k,
{
    if k < 0 || k >= counts.len() {
        None
    } else if counts[k].0 == name {
        Some(k)
    } else {
        count_find(counts, name, k + 1)
    }
}

/// The tag counts after one more tag `name`: its entry grows by one, or
/// a new entry with one comes last.
pub open spec fn bump(counts: Seq<(Seq<char>, usize)>, name: Seq<char>) -> Seq<(Seq<char>, usize)> {
    match count_find(counts, name, 0) {
        Some(k) => counts.update(k, (name, sat_inc(counts[k].1))),
        None => counts.push((name, 1)),
    }
}

/// The message for a repeated attribute.
pub open spec fn duplicate_message(name: Seq<char>) -> Seq<char> {
    "duplicate attribute: '"@ + name + "'"@
}

/// The message for an end tag that does not close the open tag.
pub open spec fn mismatch_message(expected: Seq<char>, got: Seq<char>) -> Seq<char> {
    "end tag mismatch: expected '"@ + expected + "', got '"@ + got + "'"@
}

/// The statistics of a well-formedness check over the elements of a SAX
/// parser, and the checks that the parser leaves to its user: attribute
/// names are not repeated within a tag, and each end tag closes the open
/// tag.
pub struct Handler {
    pub do_stats: bool,
    pub do_tag_count: bool,
    pub level: usize,
    pub max_depth: usize,
    pub nr_tags: usize,
    pub nr_empty_tags: usize,
    pub nr_cdata_size: usize,
    pub tag_stack: Vec<String>,
    pub tag_counts: Vec<(String, usize)>,
    pub attribute_names: Vec<String>,
    pub error: Option<String>,
}

pub open spec fn strings_view(v: Seq<String>) -> Seq<Seq<char>> {
    Seq::new(v.len(), |k: int| v[k]@)
}

pub open spec fn counts_view(v: Seq<(String, usize)>) -> Seq<(Seq<char>, usize)> {
    Seq::new(v.len(), |k: int| (v[k].0@, v[k].1))
}

pub open spec fn opt_string(s: Option<String>) -> Option<Seq<char>> {
    match s {
        Some(x) => Some(x@),
        None => None,
    }
}

/// A handler as plain values.
pub struct HandlerView {
    pub do_stats: bool,
    pub do_tag_count: bool,
    pub level: usize,
    pub max_depth: usize,
    pub nr_tags: usize,
    pub nr_empty_tags: usize,
    pub nr_cdata_size: usize,
    pub tag_stack: Seq<Seq<char>>,
    pub tag_counts: Seq<(Seq<char>, usize)>,
    pub attribute_names: Seq<Seq<char>>,
    pub error: Option<Seq<char>>,
}

impl View for Handler {
    type V = HandlerView;

    open spec fn view(&self) -> HandlerView {
        HandlerView {
            do_stats: self.do_stats,
            do_tag_count: self.do_tag_count,
            level: self.level,
            max_depth: self.max_depth,
            nr_tags: self.nr_tags,
            nr_empty_tags: self.nr_empty_tags,
            nr_cdata_size: self.nr_cdata_size,
            tag_stack: strings_view(self.tag_stack@),
            tag_counts: counts_view(self.tag_counts@),
            attribute_names: strings_view(self.attribute_names@),
            error: opt_string(self.error),
        }
    }
}

/// What one element does to a handler, and the outcome. An end tag is
/// only given while a tag is open.
pub open spec fn spec_process(h: HandlerView, e: SaxEvent) -> (HandlerView, Result<(), ParseError>) {
    match e {
        SaxEvent::StartTag(n) => {
            let level = sat_inc(h.level);
            (
                HandlerView {
                    nr_tags: sat_inc(h.nr_tags),
                    level,
                    max_depth: if h.max_depth < level {
                        level
                    } else {
                        h.max_depth
                    },
                    tag_counts: if h.do_tag_count {
                        bump(h.tag_counts, n)
                    } else {
                        h.tag_counts
                    },
                    tag_stack: h.tag_stack.push(n),
                    attribute_names: Seq::empty(),
                    ..h
                },
                Ok(()),
            )
        },
        SaxEvent::Attribute(n, _) => if h.attribute_names.contains(n) {
            (
                HandlerView { error: Some(duplicate_message(n)), ..h },
                Err(ParseError::BadXml(DUPLICATE_ATTRIBUTE_TEXT)),
            )
        } else {
            (HandlerView { attribute_names: h.attribute_names.push(n), ..h }, Ok(()))
        },
        SaxEvent::StartTagContent => (h, Ok(())),
        SaxEvent::StartTagEmpty => (
            HandlerView {
                nr_empty_tags: sat_inc(h.nr_empty_tags),
                tag_stack: if h.tag_stack.len() > 0 {
                    h.tag_stack.drop_last()
                } else {
                    h.tag_stack
                },
                ..h
            },
            Ok(()),
        ),
        SaxEvent::CData(s) => (
            HandlerView { nr_cdata_size: sat_add(h.nr_cdata_size, utf8_len(s)), ..h },
            Ok(()),
        ),
        SaxEvent::EndTag(n) => {
            let top = h.tag_stack.last();
            let h1 = HandlerView {
                level: (h.level - 1) as usize,
                tag_stack: h.tag_stack.drop_last(),
                ..h
            };
            if top != n {
                (
                    HandlerView { error: Some(mismatch_message(top, n)), ..h1 },
                    Err(ParseError::BadXml(END_TAG_MISMATCH_TEXT)),
                )
            } else {
                (h1, Ok(()))
            }
        },
    }
}

/// Law of duplicate attributes: they are checked per start tag. After a
/// start tag, whatever came before, its first attribute is taken, and a
/// second one is refused exactly when it repeats the first one's name.
pub proof fn law_attributes_checked_per_tag(
    h: HandlerView,
    n: Seq<char>,
    x: Seq<char>,
    v: Seq<char>,
    y: Seq<char>,
    w: Seq<char>,
)
    ensures
        ({
            let h1 = spec_process(h, SaxEvent::StartTag(n)).0;
            let (h2, r2) = spec_process(h1, SaxEvent::Attribute(x, v));
            let (h3, r3) = spec_process(h2, SaxEvent::Attribute(y, w));
            &&& r2 is Ok
            &&& (r3 is Err <==> x == y)
        }),
{
    let h1 = spec_process(h, SaxEvent::StartTag(n)).0;
    assert(!h1.attribute_names.contains(x));
    let h2 = spec_process(h1, SaxEvent::Attribute(x, v)).0;
    assert(h2.attribute_names =~= seq![x]);
    if h2.attribute_names.contains(y) {
        let k = choose|k: int| 0 <= k < h2.attribute_names.len() && h2.attribute_names[k] == y;
        assert(k == 0);
    }
    if x == y {
        assert(h2.attribute_names[0] == y);
    }
}

/// Copies a string.
fn copy_string(s: &str) -> (r: String)
    ensures
        r@ == s@,
{
    let mut r = String::new();
    r.push_str(s);
    r
}

impl Handler {
    /// A handler with all counts at zero.
    pub fn new(do_stats: bool, do_tag_count: bool) -> (r: Handler)
        ensures
            r@ == (HandlerView {
                do_stats,
                do_tag_count,
                level: 0,
                max_depth: 0,
                nr_tags: 0,
                nr_empty_tags: 0,
                nr_cdata_size: 0,
                tag_stack: Seq::empty(),
                tag_counts: Seq::empty(),
                attribute_names: Seq::empty(),
                error: None,
            }),
    {
        let r = Handler {
            do_stats,
            do_tag_count,
            level: 0,
            max_depth: 0,
            nr_tags: 0,
            nr_empty_tags: 0,
            nr_cdata_size: 0,
            tag_stack: Vec::new(),
            tag_counts: Vec::new(),
            attribute_names: Vec::new(),
            error: None,
        };
        assert(r@.tag_stack =~= Seq::<Seq<char>>::empty());
        assert(r@.tag_counts =~= Seq::<(Seq<char>, usize)>::empty());
        assert(r@.attribute_names =~= Seq::<Seq<char>>::empty());
        r
    }

    /// Counts one more tag `name`.
    fn count_tag(&mut self, name: &str)
        ensures
            final(self)@ == (HandlerView { tag_counts: bump(old(self)@.tag_counts, name@), ..old(self)@ }),
    {
        let ghost c0 = old(self)@.tag_counts;
        let mut k: usize = 0;
        while k < self.tag_counts.len()
            invariant
                k <= self.tag_counts@.len(),
                self@ == old(self)@,
                c0 == counts_view(self.tag_counts@),
                count_find(c0, name@, 0) == count_find(c0, name@, k as int),
            decreases self.tag_counts@.len() - k,
        {
            if str_eq(self.tag_counts[k].0.as_str(), name) {
                let n = self.tag_counts[k].1;
                let n1 = if n < usize::MAX {
                    n + 1
                } else {
                    n
                };
                let entry = (copy_string(name), n1);
                self.tag_counts.set(k, entry);
                proof {
                    assert(count_find(c0, name@, k as int) == Some(k as int));
                    assert(counts_view(self.tag_counts@) =~= c0.update(
                        k as int,
                        (name@, sat_inc(c0[k as int].1)),
                    ));
                }
                return ;
            }
            k = k + 1;
        }
        self.tag_counts.push((copy_string(name), 1));
        proof {
            assert(counts_view(self.tag_counts@) =~= c0.push((name@, 1)));
        }
    }

    /// The attribute `name` was given before in the current tag.
    fn seen_attribute(&self, name: &str) -> (r: bool)
        ensures
            r == self@.attribute_names.contains(name@),
    {
        let mut k: usize = 0;
        while k < self.attribute_names.len()
            invariant
                k <= self.attribute_names@.len(),
                forall|j: int| 0 <= j < k ==> self.attribute_names@[j]@ != name@,
            decreases self.attribute_names@.len() - k,
        {
            if str_eq(self.attribute_names[k].as_str(), name) {
                assert(self@.attribute_names[k as int] == name@);
                return true;
            }
            k = k + 1;
        }
        proof {
            if self@.attribute_names.contains(name@) {
                let j = choose|j: int|
                    0 <= j < self@.attribute_names.len() && self@.attribute_names[j] == name@;
                assert(self.attribute_names@[j]@ == name@);
            }
        }
        false
    }

    /// Takes one element of the SAX parser: counts it, and checks attribute
    /// names and end tags.
    pub fn process_element(&mut self, element: &SaxElement) -> (r: Result<(), ParseError>)
        requires
            element matches SaxElement::EndTag(_) ==> old(self).level > 0
                && old(self).tag_stack@.len() > 0,
        ensures
            (final(self)@, r) == spec_process(old(self)@, element@),
    {
        match element {
            SaxElement::StartTag(name) => {
                self.nr_tags = self.nr_tags.saturating_add(1);
                self.level = self.level.saturating_add(1);
                if self.max_depth < self.level {
                    self.max_depth = self.level;
                }
                if self.do_tag_count {
                    self.count_tag(name.as_str());
                }
                self.tag_stack.push(copy_string(name.as_str()));
                self.attribute_names = Vec::new();
                proof {
                    assert(self@.attribute_names =~= Seq::<Seq<char>>::empty());
                    assert(self@.tag_stack =~= old(self)@.tag_stack.push(name@));
                }
                Ok(())
            },
            SaxElement::Attribute(name, _value) => {
                if self.seen_attribute(name.as_str()) {
                    let mut msg = String::new();
                    msg.push_str("duplicate attribute: '");
                    msg.push_str(name.as_str());
                    msg.push_str("'");
                    proof {
                        reveal_strlit("duplicate attribute: '");
                        reveal_strlit("'");
                        assert(msg@ =~= duplicate_message(name@));
                    }
                    self.error = Some(msg);
                    return Err(ParseError::BadXml(DUPLICATE_ATTRIBUTE_TEXT));
                }
                self.attribute_names.push(copy_string(name.as_str()));
                proof {
                    assert(self@.attribute_names =~= old(self)@.attribute_names.push(name@));
                }
                Ok(())
            },
            SaxElement::StartTagContent => Ok(()),
            SaxElement::StartTagEmpty => {
                self.nr_empty_tags = self.nr_empty_tags.saturating_add(1);
                if self.tag_stack.len() > 0 {
                    let _top = self.tag_stack.pop();
                    proof {
                        assert(self@.tag_stack =~= old(self)@.tag_stack.drop_last());
                    }
                }
                Ok(())
            },
            SaxElement::CData(cdata) => {
                let n = cdata.as_str().as_bytes().len();
                self.nr_cdata_size = self.nr_cdata_size.saturating_add(n);
                Ok(())
            },
            SaxElement::EndTag(name) => {
                self.level = self.level - 1;
                let top = match self.tag_stack.pop() {
                    Some(t) => t,
                    None => String::new(),
                };
                proof {
                    assert(self@.tag_stack =~= old(self)@.tag_stack.drop_last());
                    assert(top@ == old(self)@.tag_stack.last());
                }
                if !str_eq(top.as_str(), name.as_str()) {
                    let mut msg = String::new();
                    msg.push_str("end tag mismatch: expected '");
                    msg.push_str(top.as_str());
                    msg.push_str("', got '");
                    msg.push_str(name.as_str());
                    msg.push_str("'");
                    proof {
                        reveal_strlit("end tag mismatch: expected '");
                        reveal_strlit("', got '");
                        reveal_strlit("'");
                        assert(msg@ =~= mismatch_message(top@, name@));
                    }
                    self.error = Some(msg);
                    return Err(ParseError::BadXml(END_TAG_MISMATCH_TEXT));
                }
                Ok(())
            },
        }
    }

    /// Sets the counts back to zero for the next document.
    pub fn clear(&mut self)
        ensures
            final(self)@ == (HandlerView {
                level: 0,
                max_depth: 0,
                nr_tags: 0,
                nr_empty_tags: 0,
                nr_cdata_size: 0,
                tag_stack: Seq::empty(),
                tag_counts: Seq::empty(),
                attribute_names: Seq::empty(),
                ..old(self)@
            }),
    {
        self.level = 0;
        self.max_depth = 0;
        self.nr_tags = 0;
        self.nr_empty_tags = 0;
        self.nr_cdata_size = 0;
        self.tag_stack = Vec::new();
        self.tag_counts = Vec::new();
        self.attribute_names = Vec::new();
        proof {
            assert(self@.tag_stack =~= Seq::<Seq<char>>::empty());
            assert(self@.tag_counts =~= Seq::<(Seq<char>, usize)>::empty());
            assert(self@.attribute_names =~= Seq::<Seq<char>>::empty());
        }
    }
}

} // verus!
