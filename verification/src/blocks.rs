use vstd::prelude::*;

use crate::doc_parser::{BuildView, spec_build, spec_feed};
use crate::document::{Cursor, child_edit_error, inserted, last_cdata, target};
use crate::error::ParseError;
use crate::stream::{STREAM_TAG, StreamOut, StreamState, next_level, spec_stream};
use crate::tree::{
    name_of, attr_find, fresh, lemma_attr_find, lemma_link, lemma_push_fresh, lemma_with_attrs,
    lemma_with_text, names_distinct, tree_ok, with_text,
};
use crate::location::{
    Location, advance_all, bytes_after_newline, count_newlines, lemma_advance_concat,
    lemma_advance_from_start,
};
use crate::parser::{
    SaxEvent, SaxModel, State, StepOut, end_name_read, end_tag_inside, initial_model,
    keeps_tag_open, lemma_next_progress, lemma_parse_depth, lemma_parse_order, opening, resume_ok,
    spec_finish, tag_balance, tag_part, tag_pending,
    lemma_parse_end_tag, lemma_parse_location,
    lemma_parse_pos, lemma_step_here, resumes, spec_flush, spec_next, spec_parse, spec_step,
};

verus! {

/// The elements that a loop over the element iterator gets from a block,
/// from position `parsed` on, until the block is used up or an error
/// comes: the parser state after, the elements in order, and the error.
pub open spec fn spec_elements(m: SaxModel, bytes: Seq<u8>, parsed: nat) -> (
    SaxModel,
    Seq<SaxEvent>,
    Option<ParseError>,
)
    decreases bytes.len() - parsed, (if resumes(m.state) {
        1int
    } else {
        0int
    }),
{
    if parsed > bytes.len() {
        (m, seq![], None)
    } else {
        let (m1, p1, r) = spec_next(m, bytes, parsed);
        match r {
            None => (m1, seq![], None),
            Some(Err(e)) => (m1, seq![], Some(e)),
            Some(Ok(e)) => {
                proof {
                    lemma_next_progress(m, bytes, parsed);
                }
                let (m2, es, err) = spec_elements(m1, bytes, p1);
                (m2, seq![e] + es, err)
            },
        }
    }
}

/// The parser state and the position in `bytes` after the first `k`
/// elements that the bytes from `parsed` on give.
pub open spec fn element_state(m: SaxModel, bytes: Seq<u8>, parsed: nat, k: nat) -> (SaxModel, nat)
    decreases k,
{
    if k == 0 {
        (m, parsed)
    } else {
        let (mk, pk) = element_state(m, bytes, parsed, (k - 1) as nat);
        let (m2, p2, _) = spec_next(mk, bytes, pk);
        (m2, p2)
    }
}

/// After the first `k` elements, the rest of the bytes give the rest of the
/// elements, the same final state and the same error.
pub proof fn lemma_element_state(m: SaxModel, bytes: Seq<u8>, parsed: nat, k: nat)
    requires
        k <= spec_elements(m, bytes, parsed).1.len(),
    ensures
        ({
            let (m1, es, err) = spec_elements(m, bytes, parsed);
            let (mk, pk) = element_state(m, bytes, parsed, k);
            spec_elements(mk, bytes, pk) == (m1, es.skip(k as int), err)
        }),
    decreases k,
{
    let (m1, es, err) = spec_elements(m, bytes, parsed);
    if k == 0 {
        assert(es.skip(0) == es);
    } else {
        let j = (k - 1) as nat;
        lemma_element_state(m, bytes, parsed, j);
        let (mj, pj) = element_state(m, bytes, parsed, j);
        assert(spec_elements(mj, bytes, pj).1.len() > 0);
        let (m2, p2, r) = spec_next(mj, bytes, pj);
        assert(r is Some && r->0 is Ok);
        lemma_next_progress(mj, bytes, pj);
        let rest = spec_elements(m2, bytes, p2);
        assert(spec_elements(mj, bytes, pj).1 == seq![r->0->Ok_0] + rest.1);
        assert(es.skip(j as int) == seq![r->0->Ok_0] + rest.1);
        assert(rest.1 == es.skip(k as int)) by {
            assert(es.skip(j as int).skip(1) == es.skip(k as int));
            assert((seq![r->0->Ok_0] + rest.1).skip(1) == rest.1);
        }
    }
}

/// Going through the elements of a block from position `parsed` moves the
/// location over the rest of the block, when no error comes.
pub proof fn lemma_elements_location(m: SaxModel, bytes: Seq<u8>, parsed: nat)
    requires
        parsed <= bytes.len(),
    ensures
        spec_elements(m, bytes, parsed).2 is None ==> spec_elements(m, bytes, parsed).0.location
            == advance_all(m.location, bytes.subrange(parsed as int, bytes.len() as int)),
    decreases bytes.len() - parsed, (if resumes(m.state) {
        1int
    } else {
        0int
    }),
{
    let (m1, p1, r) = spec_next(m, bytes, parsed);
    lemma_next_progress(m, bytes, parsed);
    if parsed >= bytes.len() {
        assert(bytes.subrange(parsed as int, bytes.len() as int) =~= Seq::<u8>::empty());
    } else {
        let rest = bytes.subrange(parsed as int, bytes.len() as int);
        lemma_parse_location(m, rest, 0);
        lemma_parse_pos(m, rest, 0);
        let (mp, rp) = spec_parse(m, rest, 0);
        if let Ok(Some((_, n))) = rp {
            assert(rest.subrange(0, n as int) =~= bytes.subrange(parsed as int, (parsed + n) as int));
            lemma_elements_location(m1, bytes, p1);
            assert(bytes.subrange(parsed as int, bytes.len() as int) =~= bytes.subrange(
                parsed as int,
                p1 as int,
            ) + bytes.subrange(p1 as int, bytes.len() as int));
            lemma_advance_concat(
                m.location,
                bytes.subrange(parsed as int, p1 as int),
                bytes.subrange(p1 as int, bytes.len() as int),
            );
        }
        if let Ok(None) = rp {
            assert(rest.subrange(0, rest.len() as int) =~= rest);
        }
    }
}

/// The bytes of a list of blocks, one after the other.
pub open spec fn joined(blocks: Seq<Seq<u8>>) -> Seq<u8>
    decreases blocks.len(),
{
    if blocks.len() == 0 {
        Seq::empty()
    } else {
        joined(blocks.drop_last()) + blocks.last()
    }
}

/// Feeding the blocks one after the other to a parser in state `m`, each
/// read through to its end: the state afterwards and the first error.
pub open spec fn feed_blocks(m: SaxModel, blocks: Seq<Seq<u8>>) -> (SaxModel, Option<ParseError>)
    decreases blocks.len(),
{
    if blocks.len() == 0 {
        (m, None)
    } else {
        let (m0, e0) = feed_blocks(m, blocks.drop_last());
        if e0 is Some {
            (m0, e0)
        } else {
            let (m1, _, e1) = spec_elements(m0, blocks.last(), 0);
            (m1, e1)
        }
    }
}

proof fn lemma_feed_blocks_location(m: SaxModel, blocks: Seq<Seq<u8>>)
    ensures
        feed_blocks(m, blocks).1 is None ==> feed_blocks(m, blocks).0.location == advance_all(
            m.location,
            joined(blocks),
        ),
    decreases blocks.len(),
{
    if blocks.len() > 0 {
        lemma_feed_blocks_location(m, blocks.drop_last());
        let (m0, e0) = feed_blocks(m, blocks.drop_last());
        let last = blocks.last();
        lemma_elements_location(m0, last, 0);
        assert(last.subrange(0, last.len() as int) =~= last);
        lemma_advance_concat(m.location, joined(blocks.drop_last()), last);
    }
}

/// Law of locations: however the input is cut into blocks, a parser that
/// starts fresh and meets no error stands at the byte count, the number of
/// newlines and the number of bytes after the last newline of all the
/// input (as long as its length fits in `usize`).
pub proof fn law_location_lines_columns(blocks: Seq<Seq<u8>>)
    requires
        feed_blocks(initial_model(), blocks).1 is None,
        joined(blocks).len() <= usize::MAX,
    ensures
        feed_blocks(initial_model(), blocks).0.location == (Location {
            bytes: joined(blocks).len() as usize,
            lines: count_newlines(joined(blocks)) as usize,
            column: bytes_after_newline(joined(blocks)) as usize,
        }),
{
    lemma_feed_blocks_location(initial_model(), blocks);
    lemma_advance_from_start(joined(blocks));
}

/// From a state where an end tag being read is inside an open tag, every
/// state between the elements of a block is such a state too.
proof fn lemma_states_end_tag(m: SaxModel, bytes: Seq<u8>, k: nat)
    requires
        end_tag_inside(m),
        k <= spec_elements(m, bytes, 0).1.len(),
    ensures
        end_tag_inside(element_state(m, bytes, 0, k).0),
    decreases k,
{
    if k > 0 {
        let j = (k - 1) as nat;
        lemma_states_end_tag(m, bytes, j);
        lemma_element_state(m, bytes, 0, j);
        let (mj, pj) = element_state(m, bytes, 0, j);
        assert(spec_elements(mj, bytes, pj).1.len() > 0);
        if pj < bytes.len() {
            lemma_parse_end_tag(mj, bytes.subrange(pj as int, bytes.len() as int), 0);
        }
    }
}

/// Law of end tags: from a fresh parser, an end tag is reported only while
/// a tag is open: the nesting depth right after it is positive.
pub proof fn law_end_tag_only_when_open(bytes: Seq<u8>, k: nat)
    requires
        k < spec_elements(initial_model(), bytes, 0).1.len(),
        spec_elements(initial_model(), bytes, 0).1[k as int] is EndTag,
    ensures
        element_state(initial_model(), bytes, 0, k + 1).0.depth > 0,
{
    let m = initial_model();
    let es = spec_elements(m, bytes, 0).1;
    lemma_states_end_tag(m, bytes, k);
    lemma_element_state(m, bytes, 0, k);
    let (mk, pk) = element_state(m, bytes, 0, k);
    let (m2, p2, r) = spec_next(mk, bytes, pk);
    assert(spec_elements(mk, bytes, pk).1.len() > 0);
    assert(r is Some && r->0 is Ok);
    assert(spec_elements(mk, bytes, pk).1[0] == r->0->Ok_0);
    assert(es.skip(k as int)[0] == es[k as int]);
    lemma_parse_end_tag(mk, bytes.subrange(pk as int, bytes.len() as int), 0);
    assert(element_state(m, bytes, 0, k + 1) == (m2, p2));
}

proof fn lemma_elements_order(m: SaxModel, bytes: Seq<u8>, parsed: nat)
    requires
        parsed <= bytes.len(),
        parsed < bytes.len() ==> resume_ok(m, bytes[parsed as int]),
        parsed == bytes.len() ==> !end_name_read(m),
    ensures
        ({
            let (m1, es, err) = spec_elements(m, bytes, parsed);
            &&& es.len() > 0 ==> tag_part(es[0]) == opening(m)
            &&& forall|i: int| 0 < i < es.len() ==> tag_part(#[trigger] es[i]) == keeps_tag_open(es[i - 1])
            &&& err is None ==> !end_name_read(m1) && opening(m1) == (if es.len() > 0 {
                keeps_tag_open(es.last())
            } else {
                opening(m)
            })
        }),
    decreases bytes.len() - parsed, (if resumes(m.state) {
        1int
    } else {
        0int
    }),
{
    let (m1, p1, r) = spec_next(m, bytes, parsed);
    lemma_next_progress(m, bytes, parsed);
    if parsed < bytes.len() {
        let rest = bytes.subrange(parsed as int, bytes.len() as int);
        assert(rest[0] == bytes[parsed as int]);
        lemma_parse_order(m, rest, 0);
        lemma_parse_pos(m, rest, 0);
        let (mp, rp) = spec_parse(m, rest, 0);
        if let Ok(Some((e, n))) = rp {
            if n < rest.len() {
                assert(rest[n as int] == bytes[(parsed + n) as int]);
            }
            lemma_elements_order(m1, bytes, p1);
            let (m2, es2, err2) = spec_elements(m1, bytes, p1);
            let es = seq![e] + es2;
            assert(spec_elements(m, bytes, parsed).1 == es);
            assert forall|i: int| 0 < i < es.len() implies tag_part(#[trigger] es[i]) == keeps_tag_open(
                es[i - 1],
            ) by {
                if i == 1 {
                    assert(es[1] == es2[0]);
                } else {
                    assert(es[i] == es2[i - 1] && es[i - 1] == es2[i - 2]);
                }
            }
            if es2.len() > 0 {
                assert(es.last() == es2.last());
            }
        }
    }
}

/// Law of start tags: a start tag is followed by its attributes and then by
/// exactly one end of the start tag (content follows, or the tag is empty),
/// and these parts come nowhere else. Stated for a block read from any
/// state between blocks; from a fresh parser no start tag is open.
pub proof fn law_start_tag_parts(m: SaxModel, bytes: Seq<u8>)
    requires
        !end_name_read(m),
    ensures
        ({
            let (m1, es, err) = spec_elements(m, bytes, 0);
            &&& es.len() > 0 ==> tag_part(es[0]) == opening(m)
            &&& forall|i: int|
                0 < i < es.len() ==> (tag_part(#[trigger] es[i]) <==> es[i - 1] is StartTag
                    || es[i - 1] is Attribute)
            &&& err is None ==> !end_name_read(m1) && opening(m1) == (if es.len() > 0 {
                keeps_tag_open(es.last())
            } else {
                opening(m)
            })
        }),
        !opening(initial_model()) && !end_name_read(initial_model()),
{
    lemma_elements_order(m, bytes, 0);
}

/// The number of tags that a list of elements opens, less those it closes.
pub open spec fn balance(es: Seq<SaxEvent>) -> int
    decreases es.len(),
{
    if es.len() == 0 {
        0
    } else {
        tag_balance(es[0]) + balance(es.drop_first())
    }
}

proof fn lemma_balance_concat(a: Seq<SaxEvent>, b: Seq<SaxEvent>)
    ensures
        balance(a + b) == balance(a) + balance(b),
    decreases a.len(),
{
    if a.len() == 0 {
        assert(a + b =~= b);
    } else {
        lemma_balance_concat(a.drop_first(), b);
        assert((a + b).drop_first() =~= a.drop_first() + b);
    }
}

proof fn lemma_elements_depth(m: SaxModel, bytes: Seq<u8>, parsed: nat)
    requires
        parsed <= bytes.len(),
        parsed < bytes.len() ==> resume_ok(m, bytes[parsed as int]),
        parsed == bytes.len() ==> !end_name_read(m),
    ensures
        ({
            let (m1, es, err) = spec_elements(m, bytes, parsed);
            err is None ==> m1.depth - tag_pending(m1) == m.depth - tag_pending(m) + balance(es)
        }),
    decreases bytes.len() - parsed, (if resumes(m.state) {
        1int
    } else {
        0int
    }),
{
    let (m1, p1, r) = spec_next(m, bytes, parsed);
    lemma_next_progress(m, bytes, parsed);
    if parsed < bytes.len() {
        let rest = bytes.subrange(parsed as int, bytes.len() as int);
        assert(rest[0] == bytes[parsed as int]);
        lemma_parse_depth(m, rest, 0);
        lemma_parse_order(m, rest, 0);
        lemma_parse_pos(m, rest, 0);
        let (mp, rp) = spec_parse(m, rest, 0);
        if let Ok(Some((e, n))) = rp {
            if n < rest.len() {
                assert(rest[n as int] == bytes[(parsed + n) as int]);
            }
            lemma_elements_depth(m1, bytes, p1);
            let es2 = spec_elements(m1, bytes, p1).1;
            assert((seq![e] + es2).drop_first() =~= es2);
        }
    }
}

/// The elements that the blocks give, one block after the other, up to the
/// first error.
pub open spec fn fed_elements(m: SaxModel, blocks: Seq<Seq<u8>>) -> Seq<SaxEvent>
    decreases blocks.len(),
{
    if blocks.len() == 0 {
        Seq::empty()
    } else {
        let (m0, e0) = feed_blocks(m, blocks.drop_last());
        if e0 is Some {
            fed_elements(m, blocks.drop_last())
        } else {
            fed_elements(m, blocks.drop_last()) + spec_elements(m0, blocks.last(), 0).1
        }
    }
}

proof fn lemma_feed_depth(blocks: Seq<Seq<u8>>)
    ensures
        ({
            let (m1, err) = feed_blocks(initial_model(), blocks);
            err is None ==> !end_name_read(m1) && m1.depth - tag_pending(m1) == balance(
                fed_elements(initial_model(), blocks),
            )
        }),
    decreases blocks.len(),
{
    if blocks.len() > 0 {
        lemma_feed_depth(blocks.drop_last());
        let (m0, e0) = feed_blocks(initial_model(), blocks.drop_last());
        if e0 is None {
            lemma_elements_depth(m0, blocks.last(), 0);
            lemma_elements_order(m0, blocks.last(), 0);
            lemma_balance_concat(
                fed_elements(initial_model(), blocks.drop_last()),
                spec_elements(m0, blocks.last(), 0).1,
            );
        }
    } else {
        assert(balance(Seq::<SaxEvent>::empty()) == 0);
    }
}

/// Law of open tags: however the input is cut into blocks, a fresh parser
/// that meets no error has as its depth the number of start tags reported
/// less the end tags and empty tags reported, plus one while a tag is being
/// read that counts before it is reported. So the end checks find no open
/// tag only where every reported start tag was closed.
pub proof fn law_depth_counts_tags(blocks: Seq<Seq<u8>>)
    requires
        feed_blocks(initial_model(), blocks).1 is None,
    ensures
        ({
            let m1 = feed_blocks(initial_model(), blocks).0;
            &&& m1.depth == balance(fed_elements(initial_model(), blocks)) + tag_pending(m1)
            &&& spec_finish(m1) is Ok ==> balance(fed_elements(initial_model(), blocks)) == 0
        }),
{
    lemma_feed_depth(blocks);
}

/// A text as character data cut into single characters.
pub open spec fn char_pieces(t: Seq<char>) -> Seq<SaxEvent>
    decreases t.len(),
{
    if t.len() == 0 {
        Seq::empty()
    } else {
        seq![SaxEvent::CData(seq![t[0]])] + char_pieces(t.drop_first())
    }
}

/// An element with its character data cut into single characters.
pub open spec fn event_pieces(e: SaxEvent) -> Seq<SaxEvent> {
    match e {
        SaxEvent::CData(t) => char_pieces(t),
        _ => seq![e],
    }
}

/// The elements with the character data cut into single characters; two
/// lists of elements have the same pieces when they differ only in how
/// their character data is cut.
pub open spec fn pieces(s: Seq<SaxEvent>) -> Seq<SaxEvent>
    decreases s.len(),
{
    if s.len() == 0 {
        Seq::empty()
    } else {
        event_pieces(s[0]) + pieces(s.drop_first())
    }
}

/// Two parser states that differ at most in their pending character data.
pub open spec fn same_but_cdata(a: SaxModel, b: SaxModel) -> bool {
    SaxModel { cdata: b.cdata, ..a } == b
}

/// One byte of input, as `spec_step` reads it; kept closed where only
/// the shape of a reading matters.
#[verifier::opaque]
pub open spec fn block_step(m: SaxModel, c: u8) -> (SaxModel, Result<StepOut, ParseError>) {
    spec_step(m, c)
}

/// Reading a block byte by byte from position `i` on; `emitted` tells
/// whether the byte before was consumed with an element, in which case
/// the end of the block reports nothing more.
pub open spec fn run_block(m: SaxModel, bytes: Seq<u8>, i: nat, emitted: bool) -> (
    SaxModel,
    Seq<SaxEvent>,
    Option<ParseError>,
)
    decreases bytes.len() - i, (if resumes(m.state) {
        1int
    } else {
        0int
    }),
{
    if i >= bytes.len() {
        if emitted {
            (m, seq![], None)
        } else {
            let (m1, f) = spec_flush(m);
            match f {
                Some(e) => (m1, seq![e], None),
                None => (m1, seq![], None),
            }
        }
    } else {
        let (m1, r) = block_step(m, bytes[i as int]);
        match r {
            Err(e) => (m1, seq![], Some(e)),
            Ok(StepOut::Skip) => run_block(m1, bytes, i + 1, false),
            Ok(StepOut::Emit(e)) => {
                let (m2, es, err) = run_block(m1, bytes, i + 1, true);
                (m2, seq![e] + es, err)
            },
            Ok(StepOut::EmitHere(e)) => {
                proof {
                    reveal(block_step);
                    lemma_step_here(m, bytes[i as int]);
                }
                let (m2, es, err) = run_block(m1, bytes, i, false);
                (m2, seq![e] + es, err)
            },
        }
    }
}

proof fn lemma_pieces_cons(e: SaxEvent, s: Seq<SaxEvent>)
    ensures
        pieces(seq![e] + s) == event_pieces(e) + pieces(s),
{
    let t = seq![e] + s;
    assert(t[0] == e);
    assert(t.drop_first() =~= s);
}

proof fn lemma_pieces_concat(a: Seq<SaxEvent>, b: Seq<SaxEvent>)
    ensures
        pieces(a + b) == pieces(a) + pieces(b),
    decreases a.len(),
{
    if a.len() == 0 {
        assert(a + b =~= b);
        assert(pieces(a) + pieces(b) =~= pieces(b));
    } else {
        lemma_pieces_concat(a.drop_first(), b);
        assert((a + b)[0] == a[0]);
        assert((a + b).drop_first() =~= a.drop_first() + b);
        assert(pieces(a + b) =~= event_pieces(a[0]) + (pieces(a.drop_first()) + pieces(b)));
    }
}

proof fn lemma_cdata_pieces(x: Seq<char>, c: Seq<char>)
    ensures
        char_pieces(x + c) == char_pieces(x) + char_pieces(c),
    decreases x.len(),
{
    if x.len() == 0 {
        assert(x + c =~= c);
        assert(char_pieces(x) + char_pieces(c) =~= char_pieces(c));
    } else {
        lemma_cdata_pieces(x.drop_first(), c);
        assert((x + c)[0] == x[0]);
        assert((x + c).drop_first() =~= x.drop_first() + c);
        assert(char_pieces(x + c) =~= seq![SaxEvent::CData(seq![x[0]])] + (char_pieces(x.drop_first())
            + char_pieces(c)));
    }
}

/// Parsing a block from position `p` on is parsing its rest from its
/// start, with positions counted from `p`.
proof fn lemma_parse_shift(m: SaxModel, b: Seq<u8>, p: nat, k: nat)
    requires
        p + k <= b.len(),
    ensures
        ({
            let (m1, r1) = spec_parse(m, b.subrange(p as int, b.len() as int), k);
            let (m2, r2) = spec_parse(m, b, p + k);
            &&& m1 == m2
            &&& match r2 {
                Ok(Some((e, n))) => r1 == Ok::<Option<(SaxEvent, nat)>, ParseError>(
                    Some((e, (n - p) as nat)),
                ),
                Ok(None) => r1 == Ok::<Option<(SaxEvent, nat)>, ParseError>(None),
                Err(e) => r1 == Err::<Option<(SaxEvent, nat)>, ParseError>(e),
            }
        }),
    decreases b.len() - p - k,
{
    let s = b.subrange(p as int, b.len() as int);
    if p + k < b.len() {
        assert(s[k as int] == b[(p + k) as int]);
        let (m1, r) = spec_step(m, b[(p + k) as int]);
        if r matches Ok(StepOut::Skip) {
            lemma_parse_shift(m1, b, p, k + 1);
        }
    }
}

/// At a position inside the block, whether the byte before was consumed
/// with an element makes no difference.
proof fn lemma_flag_inside(m: SaxModel, b: Seq<u8>, i: nat)
    requires
        i < b.len(),
    ensures
        run_block(m, b, i, true) == run_block(m, b, i, false),
{
}

/// The first element of `spec_parse` from position `i`, followed by the
/// rest of the block, is the byte by byte reading of the block.
proof fn lemma_parse_run(m: SaxModel, b: Seq<u8>, i: nat)
    requires
        i <= b.len(),
    ensures
        ({
            let (m1, r) = spec_parse(m, b, i);
            match r {
                Err(e) => run_block(m, b, i, false) == (m1, Seq::<SaxEvent>::empty(), Some(e)),
                Ok(None) => run_block(m, b, i, false) == (m1, Seq::<SaxEvent>::empty(), None::<ParseError>),
                Ok(Some((e, n))) => n <= b.len() && {
                    let rb = run_block(m1, b, n, true);
                    run_block(m, b, i, false) == (rb.0, seq![e] + rb.1, rb.2)
                },
            }
        }),
    decreases b.len() - i,
{
    reveal(block_step);
    if i < b.len() {
        let (m1, r) = spec_step(m, b[i as int]);
        match r {
            Ok(StepOut::Skip) => {
                lemma_parse_run(m1, b, i + 1);
            },
            Ok(StepOut::EmitHere(e)) => {
                lemma_flag_inside(m1, b, i);
            },
            _ => {},
        }
    } else {
        let (m1, f) = spec_flush(m);
        if f is Some {
            assert(m1.cdata.len() == 0);
            assert(spec_flush(m1).1 is None);
        }
    }
}

/// The loop over the element iterator reads the block byte by byte.
proof fn lemma_elements_run(m: SaxModel, b: Seq<u8>, p: nat)
    requires
        p <= b.len(),
    ensures
        spec_elements(m, b, p) == (if p < b.len() {
            run_block(m, b, p, false)
        } else {
            (m, Seq::<SaxEvent>::empty(), None::<ParseError>)
        }),
    decreases b.len() - p, (if resumes(m.state) {
        1int
    } else {
        0int
    }),
{
    if p < b.len() {
        lemma_parse_shift(m, b, p, 0);
        crate::parser::lemma_parse_pos(m, b, p);
        lemma_parse_run(m, b, p);
        lemma_next_progress(m, b, p);
        let (m1, p1, r) = spec_next(m, b, p);
        let (ma, ra) = spec_parse(m, b, p);
        assert(m1 == ma);
        match ra {
            Ok(Some((e, n))) => {
                assert(p1 == n);
                assert(r == Some(Ok::<SaxEvent, ParseError>(e)));
                lemma_elements_run(m1, b, p1);
                if p1 < b.len() {
                    lemma_flag_inside(m1, b, p1);
                }
                let (m2, es, err) = spec_elements(m1, b, p1);
                assert(spec_elements(m, b, p) == (m2, seq![e] + es, err));
            },
            Ok(None) => {
                assert(r is None);
            },
            Err(e) => {
                assert(r == Some(Err::<SaxEvent, ParseError>(e)));
            },
        }
    }
}

/// Reading the second part of two blocks put together is reading that
/// part alone.
proof fn lemma_run_concat(m: SaxModel, x: Seq<u8>, y: Seq<u8>, j: nat, emitted: bool)
    requires
        j <= y.len(),
    ensures
        run_block(m, x + y, x.len() + j, emitted) == run_block(m, y, j, emitted),
    decreases y.len() - j, (if resumes(m.state) {
        1int
    } else {
        0int
    }),
{
    if j < y.len() {
        assert((x + y)[x.len() + j as int] == y[j as int]);
        let (m1, r) = block_step(m, y[j as int]);
        match r {
            Ok(StepOut::Skip) => {
                lemma_run_concat(m1, x, y, j + 1, false);
            },
            Ok(StepOut::Emit(e)) => {
                lemma_run_concat(m1, x, y, j + 1, true);
            },
            Ok(StepOut::EmitHere(e)) => {
                assert(resumes(m.state) && !resumes(m1.state)) by {
                    reveal(block_step);
                    lemma_step_here(m, y[j as int]);
                }
                lemma_run_concat(m1, x, y, j, false);
            },
            Err(e) => {},
        }
    }
}

/// A parser state with character data `x` pending beyond what a second
/// state holds, otherwise equal to it, in a state that gathers character
/// data.
pub open spec fn pending_ahead(mc: SaxModel, ms: SaxModel, x: Seq<char>) -> bool {
    &&& x.len() > 0
    &&& mc.cdata == x + ms.cdata
    &&& ms == SaxModel { cdata: ms.cdata, ..mc }
    &&& (mc.state == State::CData || mc.state == State::CDataSectionBody)
}

/// Ending a block after an element or not makes no difference where the
/// end of the block has nothing to report.
proof fn lemma_flag_end(m: SaxModel, b: Seq<u8>, j: nat)
    requires
        j < b.len() || spec_flush(m).1 is None,
    ensures
        run_block(m, b, j, true) == run_block(m, b, j, false),
{
}

proof fn lemma_pieces_one(e: SaxEvent)
    ensures
        pieces(seq![e]) == event_pieces(e),
{
    lemma_pieces_cons(e, Seq::empty());
    assert(pieces(Seq::<SaxEvent>::empty()) == Seq::<SaxEvent>::empty());
    assert(event_pieces(e) + Seq::<SaxEvent>::empty() =~= event_pieces(e));
    assert(seq![e] + Seq::<SaxEvent>::empty() =~= seq![e]);
}

/// What `lemma_run_pending` states, for the rest of the block from `j`.
pub open spec fn pending_outcome(mc: SaxModel, ms: SaxModel, x: Seq<char>, y: Seq<u8>, j: nat) -> bool {
    let (mc1, ec, errc) = run_block(mc, y, j, false);
    let (ms1, es, errs) = run_block(ms, y, j, false);
    &&& errc == errs
    &&& errc is None ==> mc1 == ms1 && pieces(ec) == char_pieces(x) + pieces(es)
    &&& errc is Some ==> same_but_cdata(mc1, ms1)
}

/// The end of the block reports the pending data on both sides.
proof fn lemma_pending_end(mc: SaxModel, ms: SaxModel, x: Seq<char>, y: Seq<u8>, j: nat)
    requires
        pending_ahead(mc, ms, x),
        j >= y.len(),
    ensures
        pending_outcome(mc, ms, x, y, j),
{
    reveal(block_step);
    let cs = ms.cdata;
    lemma_cdata_pieces(x, cs);
    lemma_pieces_one(SaxEvent::CData(x + cs));
    if cs.len() > 0 {
        lemma_pieces_one(SaxEvent::CData(cs));
    } else {
        assert(cs =~= Seq::<char>::empty());
        assert(x + cs =~= x);
        assert(char_pieces(x) + Seq::<SaxEvent>::empty() =~= char_pieces(x));
    }
}

/// A byte that ends the pending data with an element (`<` in character
/// data, `]` in a CDATA section): both sides reach the same state.
#[verifier::rlimit(60)]
proof fn lemma_pending_emit(mc: SaxModel, ms: SaxModel, x: Seq<char>, y: Seq<u8>, j: nat)
    requires
        pending_ahead(mc, ms, x),
        j < y.len(),
        crate::parser::spec_decode(mc, y[j as int]).1 is Ok,
        (mc.state == State::CData && y[j as int] == 0x3c) || (mc.state == State::CDataSectionBody
            && y[j as int] == 0x5d),
    ensures
        pending_outcome(mc, ms, x, y, j),
{
    reveal(block_step);
    let c = y[j as int];
    let cs = ms.cdata;
    let (mc1, r1) = spec_step(mc, c);
    assert(r1 == Ok::<StepOut, ParseError>(StepOut::Emit(SaxEvent::CData(x + cs))));
    let (mr, er, errr) = run_block(mc1, y, j + 1, true);
    assert(run_block(mc, y, j, false) == (mr, seq![SaxEvent::CData(x + cs)] + er, errr));
    lemma_cdata_pieces(x, cs);
    lemma_pieces_cons(SaxEvent::CData(x + cs), er);
    if cs.len() > 0 {
        assert(spec_step(ms, c).0 == mc1);
        assert(run_block(ms, y, j, false) == (mr, seq![SaxEvent::CData(cs)] + er, errr));
        lemma_pieces_cons(SaxEvent::CData(cs), er);
        assert(char_pieces(x) + (char_pieces(cs) + pieces(er)) =~= char_pieces(x) + char_pieces(
            cs,
        ) + pieces(er));
    } else {
        assert(cs =~= Seq::<char>::empty());
        assert(spec_step(ms, c).0 == mc1);
        lemma_flag_end(mc1, y, j + 1);
        assert(run_block(ms, y, j, false) == run_block(mc1, y, j + 1, false));
        assert(x + cs =~= x);
    }
}

/// A reference after pending character data: both sides reach the
/// reference state after the `&`.
proof fn lemma_pending_amp(mc: SaxModel, ms: SaxModel, x: Seq<char>, y: Seq<u8>, j: nat)
    requires
        pending_ahead(mc, ms, x),
        j < y.len(),
        crate::parser::spec_decode(mc, y[j as int]).1 is Ok,
        mc.state == State::CData,
        y[j as int] == 0x26,
    ensures
        pending_outcome(mc, ms, x, y, j),
{
    reveal(block_step);
    let c = y[j as int];
    let cs = ms.cdata;
    let (mc1, r1) = spec_step(mc, c);
    assert(r1 == Ok::<StepOut, ParseError>(StepOut::EmitHere(SaxEvent::CData(x + cs))));
    assert(mc1.state == State::CDataContinue);
    assert(0x26u8 & 0xc0u8 == 0u8 && 0x26u8 & 0x80u8 == 0u8) by (bit_vector);
    assert(mc.uni_left == 0);
    assert(mc1.uni_left == 0);
    let mc2 = spec_step(mc1, c).0;
    assert(spec_step(mc1, c).1 == Ok::<StepOut, ParseError>(StepOut::Skip));
    assert(run_block(mc1, y, j, false) == run_block(mc2, y, j + 1, false));
    let (mr, er, errr) = run_block(mc2, y, j + 1, false);
    assert(run_block(mc, y, j, false) == (mr, seq![SaxEvent::CData(x + cs)] + er, errr));
    lemma_cdata_pieces(x, cs);
    lemma_pieces_cons(SaxEvent::CData(x + cs), er);
    if cs.len() > 0 {
        assert(spec_step(ms, c).0 == mc1);
        assert(run_block(ms, y, j, false) == (mr, seq![SaxEvent::CData(cs)] + er, errr));
        lemma_pieces_cons(SaxEvent::CData(cs), er);
        assert(char_pieces(x) + (char_pieces(cs) + pieces(er)) =~= char_pieces(x) + char_pieces(
            cs,
        ) + pieces(er));
    } else {
        assert(cs =~= Seq::<char>::empty());
        assert(spec_step(ms, c).0 == mc2);
        assert(run_block(ms, y, j, false) == run_block(mc2, y, j + 1, false));
        assert(x + cs =~= x);
    }
}

/// Any other byte adds to the pending data on both sides.
proof fn lemma_pending_append(mc: SaxModel, ms: SaxModel, x: Seq<char>, c: u8)
    requires
        pending_ahead(mc, ms, x),
        crate::parser::spec_decode(mc, c).1 is Ok,
        !(mc.state == State::CData && (c == 0x3c || c == 0x26)),
        !(mc.state == State::CDataSectionBody && c == 0x5d),
    ensures
        spec_step(mc, c).1 == Ok::<StepOut, ParseError>(StepOut::Skip),
        spec_step(ms, c).1 == Ok::<StepOut, ParseError>(StepOut::Skip),
        pending_ahead(spec_step(mc, c).0, spec_step(ms, c).0, x),
{
    reveal(block_step);
    let cs = ms.cdata;
    let ch = crate::parser::spec_decode(mc, c).1->Ok_0;
    assert(crate::parser::push_opt(x + cs, ch) =~= x + crate::parser::push_opt(cs, ch));
}

/// Reading a block from a state with pending character data `x`, and from
/// the same state after `x` was reported, gives the same error, and
/// without an error the same state and the same elements but for `x`.
proof fn lemma_run_pending(mc: SaxModel, ms: SaxModel, x: Seq<char>, y: Seq<u8>, j: nat)
    requires
        pending_ahead(mc, ms, x),
        j <= y.len(),
    ensures
        pending_outcome(mc, ms, x, y, j),
    decreases y.len() - j,
{
    reveal(block_step);
    if j >= y.len() {
        lemma_pending_end(mc, ms, x, y, j);
        return;
    }
    let c = y[j as int];
    let (mc0, dc) = crate::parser::spec_decode(mc, c);
    let (ms0, ds) = crate::parser::spec_decode(ms, c);
    assert(dc == ds);
    if dc is Err {
        assert(same_but_cdata(mc0, ms0));
        return;
    }
    if (mc.state == State::CData && c == 0x3c) || (mc.state == State::CDataSectionBody && c
        == 0x5d) {
        lemma_pending_emit(mc, ms, x, y, j);
    } else if mc.state == State::CData && c == 0x26 {
        lemma_pending_amp(mc, ms, x, y, j);
    } else {
        lemma_pending_append(mc, ms, x, c);
        lemma_run_pending(spec_step(mc, c).0, spec_step(ms, c).0, x, y, j + 1);
    }
}

/// What reading `x` and then `y` gives against reading them together,
/// from position `i` of `x` on.
pub open spec fn split_outcome(m: SaxModel, x: Seq<u8>, y: Seq<u8>, i: nat, emitted: bool) -> bool {
    let (mc, ec, errc) = run_block(m, x + y, i, emitted);
    let (m1, e1, err1) = run_block(m, x, i, emitted);
    let (m2, e2, err2) = run_block(m1, y, 0, false);
    &&& err1 is Some ==> mc == m1 && ec == e1 && errc == err1
    &&& err1 is None ==> {
        &&& errc == err2
        &&& err2 is None ==> mc == m2 && pieces(ec) == pieces(e1 + e2)
        &&& err2 is Some ==> same_but_cdata(mc, m2)
    }
}

/// At the end of the first block: the pending data, if reported there,
/// is what the reading of both blocks together reports later.
proof fn lemma_split_end(m: SaxModel, x: Seq<u8>, y: Seq<u8>, emitted: bool)
    requires
        y.len() > 0,
    ensures
        split_outcome(m, x, y, x.len(), emitted),
{
    lemma_run_concat(m, x, y, 0, emitted);
    assert(x.len() + 0 == x.len());
    lemma_flag_inside(m, y, 0);
    let (m1, f) = spec_flush(m);
    if !emitted && f is Some {
        let cx = m.cdata;
        assert(pending_ahead(m, m1, cx)) by {
            assert(cx + m1.cdata =~= cx);
        }
        lemma_run_pending(m, m1, cx, y, 0);
        let (m2, e2, err2) = run_block(m1, y, 0, false);
        lemma_pieces_cons(SaxEvent::CData(cx), e2);
    } else {
        let (m2, e2, err2) = run_block(m, y, 0, false);
        assert(Seq::<SaxEvent>::empty() + e2 =~= e2);
    }
}

/// Reading two blocks one after the other against reading them together.
proof fn lemma_split(m: SaxModel, x: Seq<u8>, y: Seq<u8>, i: nat, emitted: bool)
    requires
        i <= x.len(),
        y.len() > 0,
    ensures
        split_outcome(m, x, y, i, emitted),
    decreases x.len() - i, (if resumes(m.state) {
        1int
    } else {
        0int
    }),
{
    if i >= x.len() {
        lemma_split_end(m, x, y, emitted);
        return;
    }
    assert((x + y)[i as int] == x[i as int]);
    let (m1, r) = block_step(m, x[i as int]);
    match r {
        Ok(StepOut::Skip) => {
            lemma_split(m1, x, y, i + 1, false);
        },
        Ok(StepOut::Emit(e)) => {
            lemma_split(m1, x, y, i + 1, true);
            let (mc, ec, errc) = run_block(m1, x + y, i + 1, true);
            let (ma, ea, erra) = run_block(m1, x, i + 1, true);
            let (mb, eb, errb) = run_block(ma, y, 0, false);
            lemma_pieces_cons(e, ec);
            lemma_pieces_cons(e, ea + eb);
            assert(seq![e] + ea + eb =~= seq![e] + (ea + eb));
        },
        Ok(StepOut::EmitHere(e)) => {
            assert(resumes(m.state) && !resumes(m1.state)) by {
                reveal(block_step);
                lemma_step_here(m, x[i as int]);
            }
            lemma_split(m1, x, y, i, false);
            let (mc, ec, errc) = run_block(m1, x + y, i, false);
            let (ma, ea, erra) = run_block(m1, x, i, false);
            let (mb, eb, errb) = run_block(ma, y, 0, false);
            lemma_pieces_cons(e, ec);
            lemma_pieces_cons(e, ea + eb);
            assert(seq![e] + ea + eb =~= seq![e] + (ea + eb));
        },
        Err(e) => {},
    }
}

/// Law of blocks: a text given to the parser in two blocks is read as it
/// is read in one. Both ways end with the same error, or with none; without
/// an error they end in the same state with the same elements, up to how
/// the character data is cut into pieces; with an error they end at the
/// same location, in states that differ at most in the character data not
/// yet reported. An error in the first block is met the same way by both.
pub proof fn law_blocks(m: SaxModel, x: Seq<u8>, y: Seq<u8>)
    ensures
        ({
            let (mc, ec, errc) = spec_elements(m, x + y, 0);
            let (m1, e1, err1) = spec_elements(m, x, 0);
            let (m2, e2, err2) = spec_elements(m1, y, 0);
            &&& err1 is Some ==> mc == m1 && ec == e1 && errc == err1
            &&& err1 is None ==> {
                &&& errc == err2
                &&& err2 is None ==> mc == m2 && pieces(ec) == pieces(e1 + e2)
                &&& err2 is Some ==> same_but_cdata(mc, m2) && mc.location == m2.location
            }
        }),
{
    lemma_elements_run(m, x + y, 0);
    lemma_elements_run(m, x, 0);
    let (m1, e1, err1) = spec_elements(m, x, 0);
    lemma_elements_run(m1, y, 0);
    if x.len() == 0 {
        assert(x + y =~= y);
        let (m2, e2, err2) = spec_elements(m1, y, 0);
        assert(Seq::<SaxEvent>::empty() + e2 =~= e2);
    } else if y.len() == 0 {
        assert(x + y =~= x);
        assert(e1 + Seq::<SaxEvent>::empty() =~= e1);
    } else {
        lemma_split(m, x, y, 0, false);
    }
}

/// Law of character data in the builder: character data given in two
/// pieces builds what it builds given at once.
pub proof fn law_build_cdata_merge(b: BuildView, x: Seq<char>, y: Seq<char>)
    requires
        b.doc matches Some(d) ==> tree_ok(d),
        spec_build(b, SaxEvent::CData(x)).1 is Ok,
    ensures
        spec_build(spec_build(b, SaxEvent::CData(x)).0, SaxEvent::CData(y)) == spec_build(
            b,
            SaxEvent::CData(x + y),
        ),
{
    let d = b.doc->0;
    let i = b.node->0;
    let b1 = spec_build(b, SaxEvent::CData(x)).0;
    let d1 = b1.doc->0;
    assert(target(Cursor { node: b.node }, d) == Some(i));
    assert(d[i as int].is_tag);
    match last_cdata(d, i) {
        Some(l) => {
            crate::tree::lemma_child_parent(d, i as int, d[i as int].children.len() - 1);
            assert(d1 == with_text(d, l, d[l as int].text + x));
            assert(d1[i as int].children == d[i as int].children);
            assert(last_cdata(d1, i) == Some(l));
            assert(d1[l as int].text == d[l as int].text + x);
            assert(d[l as int].text + x + y =~= d[l as int].text + (x + y));
            assert(with_text(d1, l, d1[l as int].text + y) =~= with_text(d, l, d[l as int].text + (x
                + y)));
        },
        None => {
            let n = d.len() as usize;
            assert(d1 == inserted(d, i, false, x));
            assert(d1.len() == d.len() + 1);
            assert(d1[i as int].children =~= d[i as int].children.push(n));
            assert(d1[n as int].is_tag == false);
            assert(last_cdata(d1, i) == Some(n));
            assert(target(Cursor { node: b1.node }, d1) == Some(i));
            assert(with_text(d1, n, d1[n as int].text + y) =~= inserted(d, i, false, x + y));
        },
    }
}

/// The document of a builder, when it has one, is a tree.
pub open spec fn build_ok(b: BuildView) -> bool {
    b.doc matches Some(d) ==> tree_ok(d)
}

/// Adding an element to a builder keeps its document a tree.
proof fn lemma_build_ok(b: BuildView, e: SaxEvent)
    requires
        build_ok(b),
    ensures
        build_ok(spec_build(b, e).0),
{
    match b.doc {
        None => {
            if let SaxEvent::StartTag(n) = e {
                let d1 = seq![fresh(true, n)];
                assert(d1[0].children.len() == 0 && d1[0].attrs.len() == 0);
                assert(tree_ok(d1));
            }
        },
        Some(d) => {
            let c = Cursor { node: b.node };
            match e {
                SaxEvent::StartTag(n) => {
                    if child_edit_error(c, d) is None && d.len() < usize::MAX {
                        let i = b.node->0;
                        lemma_push_fresh(d, true, n);
                        lemma_link(d.push(fresh(true, n)), i, d[i as int].children.len() as int, d.len() as usize);
                    }
                },
                SaxEvent::Attribute(n, v) => {
                    if crate::document::attr_edit_error(c, d) is None {
                        let i = b.node->0;
                        let a = d[i as int].attrs;
                        if attr_find(a, n, 0) is None {
                            lemma_attr_find(a, n, 0);
                            let a1 = a.push((n, v));
                            assert forall|k1: int, k2: int| 0 <= k1 < k2 < a1.len() implies #[trigger] a1[k1].0
                                != #[trigger] a1[k2].0 by {
                                if k2 < a.len() {
                                    assert(d[i as int].attrs[k1].0 != d[i as int].attrs[k2].0);
                                }
                            }
                            assert(names_distinct(a1));
                            lemma_with_attrs(d, i, a1);
                        }
                    }
                },
                SaxEvent::CData(t) => {
                    if child_edit_error(c, d) is None {
                        let i = b.node->0;
                        match last_cdata(d, i) {
                            Some(l) => {
                                crate::tree::lemma_child_parent(d, i as int, d[i as int].children.len() - 1);
                                lemma_with_text(d, l, d[l as int].text + t);
                            },
                            None => {
                                if d.len() < usize::MAX {
                                    lemma_push_fresh(d, false, t);
                                    lemma_link(d.push(fresh(false, t)), i, d[i as int].children.len() as int, d.len() as usize);
                                }
                            },
                        }
                    }
                },
                _ => {},
            }
        },
    }
}

/// Feeding a block byte by byte from position `i` on to a parser and a
/// builder: each element goes to the builder, until the block is used up
/// or an error comes; `emitted` as for `run_block`.
pub open spec fn run_feed(m: SaxModel, b: BuildView, bytes: Seq<u8>, i: nat, emitted: bool) -> (
    SaxModel,
    BuildView,
    Result<(), ParseError>,
)
    decreases bytes.len() - i, (if resumes(m.state) {
        1int
    } else {
        0int
    }),
{
    if i >= bytes.len() {
        if emitted {
            (m, b, Ok(()))
        } else {
            let (m1, f) = spec_flush(m);
            match f {
                Some(e) => {
                    let (b1, r) = spec_build(b, e);
                    (m1, b1, r)
                },
                None => (m1, b, Ok(())),
            }
        }
    } else {
        let (m1, r) = block_step(m, bytes[i as int]);
        match r {
            Err(e) => (m1, b, Err(e)),
            Ok(StepOut::Skip) => run_feed(m1, b, bytes, i + 1, false),
            Ok(StepOut::Emit(e)) => {
                let (b1, br) = spec_build(b, e);
                if br is Err {
                    (m1, b1, br)
                } else {
                    run_feed(m1, b1, bytes, i + 1, true)
                }
            },
            Ok(StepOut::EmitHere(e)) => {
                proof {
                    reveal(block_step);
                    lemma_step_here(m, bytes[i as int]);
                }
                let (b1, br) = spec_build(b, e);
                if br is Err {
                    (m1, b1, br)
                } else {
                    run_feed(m1, b1, bytes, i, false)
                }
            },
        }
    }
}

proof fn lemma_feed_flag_inside(m: SaxModel, b: BuildView, bytes: Seq<u8>, i: nat)
    requires
        i < bytes.len() || spec_flush(m).1 is None,
    ensures
        run_feed(m, b, bytes, i, true) == run_feed(m, b, bytes, i, false),
{
}

/// The first element of `spec_parse` from position `i`, given to the
/// builder, followed by the rest of the block, is the byte by byte
/// feeding of the block.
proof fn lemma_parse_feed(m: SaxModel, b: BuildView, bytes: Seq<u8>, i: nat)
    requires
        i <= bytes.len(),
    ensures
        ({
            let (m1, r) = spec_parse(m, bytes, i);
            match r {
                Err(e) => run_feed(m, b, bytes, i, false) == (m1, b, Err::<(), ParseError>(e)),
                Ok(None) => run_feed(m, b, bytes, i, false) == (m1, b, Ok::<(), ParseError>(())),
                Ok(Some((e, n))) => n <= bytes.len() && {
                    let (b1, br) = spec_build(b, e);
                    run_feed(m, b, bytes, i, false) == if br is Err {
                        (m1, b1, br)
                    } else {
                        run_feed(m1, b1, bytes, n, true)
                    }
                },
            }
        }),
    decreases bytes.len() - i,
{
    reveal(block_step);
    if i < bytes.len() {
        let (m1, r) = spec_step(m, bytes[i as int]);
        match r {
            Ok(StepOut::Skip) => {
                lemma_parse_feed(m1, b, bytes, i + 1);
            },
            Ok(StepOut::EmitHere(e)) => {
                let (b1, br) = spec_build(b, e);
                lemma_feed_flag_inside(m1, b1, bytes, i);
            },
            _ => {},
        }
    } else {
        let (m1, f) = spec_flush(m);
        if let Some(e) = f {
            assert(m1.cdata.len() == 0);
            let (b1, br) = spec_build(b, e);
            lemma_feed_flag_inside(m1, b1, bytes, bytes.len());
        }
    }
}

/// Feeding a block through the element iterator is feeding it byte by
/// byte.
proof fn lemma_feed_run(m: SaxModel, b: BuildView, bytes: Seq<u8>, p: nat)
    requires
        p <= bytes.len(),
    ensures
        spec_feed(m, b, bytes, p) == (if p < bytes.len() {
            run_feed(m, b, bytes, p, false)
        } else {
            (m, b, Ok::<(), ParseError>(()))
        }),
    decreases bytes.len() - p, (if resumes(m.state) {
        1int
    } else {
        0int
    }),
{
    if p < bytes.len() {
        lemma_parse_shift(m, bytes, p, 0);
        crate::parser::lemma_parse_pos(m, bytes, p);
        lemma_parse_feed(m, b, bytes, p);
        lemma_next_progress(m, bytes, p);
        let (m1, p1, r) = spec_next(m, bytes, p);
        let (ma, ra) = spec_parse(m, bytes, p);
        assert(m1 == ma);
        match ra {
            Ok(Some((e, n))) => {
                assert(p1 == n);
                assert(r == Some(Ok::<SaxEvent, ParseError>(e)));
                let (b1, br) = spec_build(b, e);
                if br is Ok {
                    lemma_feed_run(m1, b1, bytes, p1);
                    if p1 < bytes.len() {
                        lemma_feed_flag_inside(m1, b1, bytes, p1);
                    }
                }
            },
            Ok(None) => {
                assert(r is None);
            },
            Err(e) => {
                assert(r == Some(Err::<SaxEvent, ParseError>(e)));
            },
        }
    }
}

/// Feeding the second part of two blocks put together is feeding that
/// part alone.
proof fn lemma_feed_concat(m: SaxModel, b: BuildView, x: Seq<u8>, y: Seq<u8>, j: nat, emitted: bool)
    requires
        j <= y.len(),
    ensures
        run_feed(m, b, x + y, x.len() + j, emitted) == run_feed(m, b, y, j, emitted),
    decreases y.len() - j, (if resumes(m.state) {
        1int
    } else {
        0int
    }),
{
    if j < y.len() {
        assert((x + y)[x.len() + j as int] == y[j as int]);
        let (m1, r) = block_step(m, y[j as int]);
        match r {
            Ok(StepOut::Skip) => {
                lemma_feed_concat(m1, b, x, y, j + 1, false);
            },
            Ok(StepOut::Emit(e)) => {
                let (b1, br) = spec_build(b, e);
                lemma_feed_concat(m1, b1, x, y, j + 1, true);
            },
            Ok(StepOut::EmitHere(e)) => {
                assert(resumes(m.state) && !resumes(m1.state)) by {
                    reveal(block_step);
                    lemma_step_here(m, y[j as int]);
                }
                let (b1, br) = spec_build(b, e);
                lemma_feed_concat(m1, b1, x, y, j, false);
            },
            Err(e) => {},
        }
    }
}

/// A parser with pending character data `x` and its builder, against the
/// parser after `x` was reported and the builder that took it.
pub open spec fn feed_ahead(mc: SaxModel, ms: SaxModel, bc: BuildView, bs: BuildView, x: Seq<char>) -> bool {
    &&& pending_ahead(mc, ms, x)
    &&& build_ok(bc)
    &&& spec_build(bc, SaxEvent::CData(x)) == (bs, Ok::<(), ParseError>(()))
}

/// Both feedings end with the same outcome, and when it is Ok in the same
/// state.
pub open spec fn feed_outcome(
    mc: SaxModel,
    ms: SaxModel,
    bc: BuildView,
    bs: BuildView,
    y: Seq<u8>,
    j: nat,
) -> bool {
    let (mc1, bc1, rc) = run_feed(mc, bc, y, j, false);
    let (ms1, bs1, rs) = run_feed(ms, bs, y, j, false);
    &&& rc == rs
    &&& rc is Ok ==> mc1 == ms1 && bc1 == bs1
}

proof fn lemma_feed_pending_end(mc: SaxModel, ms: SaxModel, bc: BuildView, bs: BuildView, x: Seq<char>, y: Seq<u8>, j: nat)
    requires
        feed_ahead(mc, ms, bc, bs, x),
        j >= y.len(),
    ensures
        feed_outcome(mc, ms, bc, bs, y, j),
{
    let cs = ms.cdata;
    law_build_cdata_merge(bc, x, cs);
    if cs.len() == 0 {
        assert(cs =~= Seq::<char>::empty());
        assert(x + cs =~= x);
    }
}

#[verifier::rlimit(60)]
proof fn lemma_feed_pending_emit(mc: SaxModel, ms: SaxModel, bc: BuildView, bs: BuildView, x: Seq<char>, y: Seq<u8>, j: nat)
    requires
        feed_ahead(mc, ms, bc, bs, x),
        j < y.len(),
        crate::parser::spec_decode(mc, y[j as int]).1 is Ok,
        (mc.state == State::CData && y[j as int] == 0x3c) || (mc.state == State::CDataSectionBody
            && y[j as int] == 0x5d),
    ensures
        feed_outcome(mc, ms, bc, bs, y, j),
{
    reveal(block_step);
    let c = y[j as int];
    let cs = ms.cdata;
    let (mc1, r1) = spec_step(mc, c);
    assert(r1 == Ok::<StepOut, ParseError>(StepOut::Emit(SaxEvent::CData(x + cs))));
    law_build_cdata_merge(bc, x, cs);
    if cs.len() > 0 {
        assert(spec_step(ms, c).0 == mc1);
    } else {
        assert(cs =~= Seq::<char>::empty());
        assert(x + cs =~= x);
        assert(spec_step(ms, c).0 == mc1);
        lemma_feed_flag_inside(mc1, bs, y, j + 1);
    }
}

#[verifier::rlimit(60)]
proof fn lemma_feed_pending_amp(mc: SaxModel, ms: SaxModel, bc: BuildView, bs: BuildView, x: Seq<char>, y: Seq<u8>, j: nat)
    requires
        feed_ahead(mc, ms, bc, bs, x),
        j < y.len(),
        crate::parser::spec_decode(mc, y[j as int]).1 is Ok,
        mc.state == State::CData,
        y[j as int] == 0x26,
    ensures
        feed_outcome(mc, ms, bc, bs, y, j),
{
    reveal(block_step);
    let c = y[j as int];
    let cs = ms.cdata;
    let (mc1, r1) = spec_step(mc, c);
    assert(r1 == Ok::<StepOut, ParseError>(StepOut::EmitHere(SaxEvent::CData(x + cs))));
    assert(0x26u8 & 0xc0u8 == 0u8 && 0x26u8 & 0x80u8 == 0u8) by (bit_vector);
    assert(mc.uni_left == 0);
    assert(mc1.uni_left == 0);
    let mc2 = spec_step(mc1, c).0;
    assert(spec_step(mc1, c).1 == Ok::<StepOut, ParseError>(StepOut::Skip));
    law_build_cdata_merge(bc, x, cs);
    if cs.len() > 0 {
        assert(spec_step(ms, c).0 == mc1);
    } else {
        assert(cs =~= Seq::<char>::empty());
        assert(x + cs =~= x);
        assert(spec_step(ms, c).0 == mc2);
        assert(run_feed(mc1, bs, y, j, false) == run_feed(mc2, bs, y, j + 1, false));
    }
}

/// Feeding a block to a parser with pending character data and its
/// builder, and to the parser and builder after that data was given, ends
/// the same way.
proof fn lemma_feed_pending(mc: SaxModel, ms: SaxModel, bc: BuildView, bs: BuildView, x: Seq<char>, y: Seq<u8>, j: nat)
    requires
        feed_ahead(mc, ms, bc, bs, x),
        j <= y.len(),
    ensures
        feed_outcome(mc, ms, bc, bs, y, j),
    decreases y.len() - j,
{
    if j >= y.len() {
        lemma_feed_pending_end(mc, ms, bc, bs, x, y, j);
        return;
    }
    let c = y[j as int];
    let (mc0, dc) = crate::parser::spec_decode(mc, c);
    let (ms0, ds) = crate::parser::spec_decode(ms, c);
    assert(dc == ds);
    if dc is Err {
        reveal(block_step);
        return;
    }
    if (mc.state == State::CData && c == 0x3c) || (mc.state == State::CDataSectionBody && c
        == 0x5d) {
        lemma_feed_pending_emit(mc, ms, bc, bs, x, y, j);
    } else if mc.state == State::CData && c == 0x26 {
        lemma_feed_pending_amp(mc, ms, bc, bs, x, y, j);
    } else {
        lemma_pending_append(mc, ms, x, c);
        assert(block_step(mc, c) == spec_step(mc, c) && block_step(ms, c) == spec_step(ms, c)) by {
            reveal(block_step);
        }
        lemma_feed_pending(spec_step(mc, c).0, spec_step(ms, c).0, bc, bs, x, y, j + 1);
    }
}

/// Whether the builder takes character data does not depend on the text.
proof fn lemma_cdata_refused(b: BuildView, x: Seq<char>, t: Seq<char>)
    requires
        spec_build(b, SaxEvent::CData(x)).1 is Err,
    ensures
        spec_build(b, SaxEvent::CData(t)).1 is Err,
{
}

/// Pending character data that the builder refuses makes the feeding
/// fail, whatever comes.
proof fn lemma_feed_refused(m: SaxModel, b: BuildView, y: Seq<u8>, j: nat)
    requires
        m.state == State::CData || m.state == State::CDataSectionBody,
        m.cdata.len() > 0,
        spec_build(b, SaxEvent::CData(m.cdata)).1 is Err,
        j <= y.len(),
    ensures
        run_feed(m, b, y, j, false).2 is Err,
    decreases y.len() - j,
{
    reveal(block_step);
    if j >= y.len() {
        return;
    }
    let c = y[j as int];
    let (m0, d) = crate::parser::spec_decode(m, c);
    if d is Err {
        return;
    }
    let (m1, r) = spec_step(m, c);
    match r {
        Ok(StepOut::Skip) => {
            let ch = d->Ok_0;
            assert(m1.cdata == crate::parser::push_opt(m.cdata, ch));
            lemma_cdata_refused(b, m.cdata, m1.cdata);
            lemma_feed_refused(m1, b, y, j + 1);
        },
        Ok(StepOut::Emit(e)) => {
            assert(e is CData);
            lemma_cdata_refused(b, m.cdata, e->CData_0);
        },
        Ok(StepOut::EmitHere(e)) => {
            assert(e is CData);
            lemma_cdata_refused(b, m.cdata, e->CData_0);
        },
        Err(e) => {},
    }
}

/// What feeding `x` and then `y` gives against feeding them together,
/// from position `i` of `x` on, when `x` is taken without error.
pub open spec fn feed_split_outcome(m: SaxModel, b: BuildView, x: Seq<u8>, y: Seq<u8>, i: nat, emitted: bool) -> bool {
    let (mc, bc, rc) = run_feed(m, b, x + y, i, emitted);
    let (m1, b1, r1) = run_feed(m, b, x, i, emitted);
    let (m2, b2, r2) = run_feed(m1, b1, y, 0, false);
    &&& r1 is Err ==> rc is Err
    &&& r1 is Ok ==> rc == r2 && (r2 is Ok ==> mc == m2 && bc == b2)
}

proof fn lemma_feed_split_end(m: SaxModel, b: BuildView, x: Seq<u8>, y: Seq<u8>, emitted: bool)
    requires
        y.len() > 0,
        build_ok(b),
    ensures
        feed_split_outcome(m, b, x, y, x.len(), emitted),
{
    lemma_feed_concat(m, b, x, y, 0, emitted);
    assert(x.len() + 0 == x.len());
    lemma_feed_flag_inside(m, b, y, 0);
    let (m1, f) = spec_flush(m);
    if !emitted && f is Some {
        let cx = m.cdata;
        let (b1, br) = spec_build(b, SaxEvent::CData(cx));
        if br is Ok {
            assert(pending_ahead(m, m1, cx)) by {
                assert(cx + m1.cdata =~= cx);
            }
            lemma_feed_pending(m, m1, b, b1, cx, y, 0);
        } else {
            lemma_feed_refused(m, b, y, 0);
        }
    }
}

/// Feeding two blocks one after the other against feeding them together.
proof fn lemma_feed_split(m: SaxModel, b: BuildView, x: Seq<u8>, y: Seq<u8>, i: nat, emitted: bool)
    requires
        i <= x.len(),
        y.len() > 0,
        build_ok(b),
    ensures
        feed_split_outcome(m, b, x, y, i, emitted),
    decreases x.len() - i, (if resumes(m.state) {
        1int
    } else {
        0int
    }),
{
    if i >= x.len() {
        lemma_feed_split_end(m, b, x, y, emitted);
        return;
    }
    assert((x + y)[i as int] == x[i as int]);
    let (m1, r) = block_step(m, x[i as int]);
    match r {
        Ok(StepOut::Skip) => {
            lemma_feed_split(m1, b, x, y, i + 1, false);
        },
        Ok(StepOut::Emit(e)) => {
            let (b1, br) = spec_build(b, e);
            lemma_build_ok(b, e);
            if br is Ok {
                lemma_feed_split(m1, b1, x, y, i + 1, true);
            }
        },
        Ok(StepOut::EmitHere(e)) => {
            assert(resumes(m.state) && !resumes(m1.state)) by {
                reveal(block_step);
                lemma_step_here(m, x[i as int]);
            }
            let (b1, br) = spec_build(b, e);
            lemma_build_ok(b, e);
            if br is Ok {
                lemma_feed_split(m1, b1, x, y, i, false);
            }
        },
        Err(e) => {},
    }
}

/// Law of blocks for documents: when a first block fails, feeding both
/// blocks together fails too; after a first block is taken without error,
/// feeding a second block ends as feeding both together does: with the
/// same outcome, and when it is Ok with the same parser state and the same
/// document. Character data cut by the end of a block is put back
/// together.
pub proof fn law_document_blocks(m: SaxModel, b: BuildView, x: Seq<u8>, y: Seq<u8>)
    requires
        build_ok(b),
    ensures
        ({
            let (m1, b1, r1) = spec_feed(m, b, x, 0);
            let (m2, b2, r2) = spec_feed(m1, b1, y, 0);
            let (mc, bc, rc) = spec_feed(m, b, x + y, 0);
            &&& r1 is Err ==> rc is Err
            &&& r1 is Ok ==> rc == r2 && (r2 is Ok ==> mc == m2 && bc == b2)
        }),
{
    lemma_feed_run(m, b, x + y, 0);
    lemma_feed_run(m, b, x, 0);
    let (m1, b1, r1) = spec_feed(m, b, x, 0);
    lemma_feed_run(m1, b1, y, 0);
    if x.len() == 0 {
        assert(x + y =~= y);
        assert(m1 == m && b1 == b);
        assert(spec_feed(m, b, x + y, 0) == spec_feed(m1, b1, y, 0));
    } else if y.len() == 0 {
        assert(x + y =~= x);
        assert(spec_feed(m1, b1, y, 0) == (m1, b1, Ok::<(), ParseError>(())));
        assert(spec_feed(m, b, x + y, 0) == spec_feed(m, b, x, 0));
        if let Ok(u) = r1 {
            let () = u;
            assert(r1 == Ok::<(), ParseError>(()));
        }
    } else {
        lemma_feed_split(m, b, x, y, 0, false);
        assert(feed_split_outcome(m, b, x, y, 0, false));
    }
}

/// One element of the XML parser given to a stream parser whose XML
/// parser is now in state `m1`: the new stream state and what is reported.
#[verifier::opaque]
pub open spec fn stream_event(s: StreamState, m1: SaxModel, e: SaxEvent) -> (
    StreamState,
    Result<Option<StreamOut>, ParseError>,
) {
    if e matches SaxEvent::EndTag(n) && s.level == 0 && n == STREAM_TAG@ {
        (StreamState { sax: m1, ..s }, Ok(Some(StreamOut::End)))
    } else {
        let level1 = next_level(s.level, e);
        let (b1, br) = spec_build(s.build, e);
        match br {
            Err(err) => (StreamState { sax: m1, build: b1, level: level1 }, Err(err)),
            Ok(_) => {
                let header = e is StartTagContent && level1 == 1 && (b1.doc matches Some(d)
                    && name_of(d, 0) == STREAM_TAG@);
                let closed = (e is EndTag || e is StartTagEmpty) && level1 == 0 && b1.doc is Some;
                if header {
                    (
                        StreamState { sax: m1, build: BuildView { doc: None, node: b1.node }, level: 0 },
                        Ok(Some(StreamOut::Element(b1.doc->0))),
                    )
                } else if closed {
                    (
                        StreamState {
                            sax: m1,
                            build: BuildView { doc: None, node: b1.node },
                            level: level1,
                        },
                        Ok(Some(StreamOut::Element(b1.doc->0))),
                    )
                } else {
                    (StreamState { sax: m1, build: b1, level: level1 }, Ok(None))
                }
            },
        }
    }
}

/// After an element, the stream parser's XML parser is in the given state.
pub proof fn lemma_stream_event_sax(s: StreamState, m1: SaxModel, e: SaxEvent)
    ensures
        stream_event(s, m1, e).0.sax == m1,
{
    reveal(stream_event);
}

/// An element does not depend on the state of the XML parser before it.
pub proof fn lemma_stream_event_same(s: StreamState, t: StreamState, m1: SaxModel, e: SaxEvent)
    requires
        s.build == t.build,
        s.level == t.level,
    ensures
        stream_event(s, m1, e) == stream_event(t, m1, e),
{
    reveal(stream_event);
}

pub open spec fn opt_out(o: Option<StreamOut>) -> Seq<StreamOut> {
    match o {
        Some(x) => seq![x],
        None => Seq::empty(),
    }
}

/// Feeding a block byte by byte from position `i` on to a stream parser:
/// the state after, the reports in order, and the error that stopped it;
/// `emitted` as for `run_block`.
pub open spec fn run_stream(s: StreamState, bytes: Seq<u8>, i: nat, emitted: bool) -> (
    StreamState,
    Seq<StreamOut>,
    Option<ParseError>,
)
    decreases bytes.len() - i, (if resumes(s.sax.state) {
        1int
    } else {
        0int
    }),
{
    if i >= bytes.len() {
        if emitted {
            (s, Seq::empty(), None)
        } else {
            let (m1, f) = spec_flush(s.sax);
            match f {
                Some(e) => {
                    let (s1, r) = stream_event(s, m1, e);
                    match r {
                        Err(err) => (s1, Seq::empty(), Some(err)),
                        Ok(o) => (s1, opt_out(o), None),
                    }
                },
                None => (StreamState { sax: m1, ..s }, Seq::empty(), None),
            }
        }
    } else {
        let (m1, r) = block_step(s.sax, bytes[i as int]);
        match r {
            Err(e) => (StreamState { sax: m1, ..s }, Seq::empty(), Some(e)),
            Ok(StepOut::Skip) => run_stream(StreamState { sax: m1, ..s }, bytes, i + 1, false),
            Ok(StepOut::Emit(e)) => {
                let (s1, r1) = stream_event(s, m1, e);
                match r1 {
                    Err(err) => (s1, Seq::empty(), Some(err)),
                    Ok(o) => {
                        let (s2, outs, err) = run_stream(s1, bytes, i + 1, true);
                        (s2, opt_out(o) + outs, err)
                    },
                }
            },
            Ok(StepOut::EmitHere(e)) => {
                proof {
                    reveal(block_step);
                    lemma_step_here(s.sax, bytes[i as int]);
                    lemma_stream_event_sax(s, m1, e);
                }
                let (s1, r1) = stream_event(s, m1, e);
                match r1 {
                    Err(err) => (s1, Seq::empty(), Some(err)),
                    Ok(o) => {
                        let (s2, outs, err) = run_stream(s1, bytes, i, false);
                        (s2, opt_out(o) + outs, err)
                    },
                }
            },
        }
    }
}

/// The stream state after one element and the rest of the block from `n`.
pub open spec fn after_event(s: StreamState, m1: SaxModel, e: SaxEvent, bytes: Seq<u8>, n: nat) -> (
    StreamState,
    Seq<StreamOut>,
    Option<ParseError>,
) {
    let (s1, r1) = stream_event(s, m1, e);
    match r1 {
        Err(err) => (s1, Seq::empty(), Some(err)),
        Ok(o) => {
            let rs = run_stream(s1, bytes, n, true);
            (rs.0, opt_out(o) + rs.1, rs.2)
        },
    }
}

proof fn lemma_stream_flag_inside(s: StreamState, b: Seq<u8>, i: nat)
    requires
        i < b.len() || spec_flush(s.sax).1 is None,
    ensures
        run_stream(s, b, i, true) == run_stream(s, b, i, false),
{
}

/// The first element of `spec_parse` from position `i`, and the rest of
/// the block, is the byte by byte feeding of a stream parser.
proof fn lemma_parse_stream(s: StreamState, b: Seq<u8>, i: nat)
    requires
        i <= b.len(),
    ensures
        ({
            let (m1, r) = spec_parse(s.sax, b, i);
            match r {
                Err(e) => run_stream(s, b, i, false) == (
                    StreamState { sax: m1, ..s },
                    Seq::<StreamOut>::empty(),
                    Some(e),
                ),
                Ok(None) => run_stream(s, b, i, false) == (
                    StreamState { sax: m1, ..s },
                    Seq::<StreamOut>::empty(),
                    None::<ParseError>,
                ),
                Ok(Some((e, n))) => n <= b.len() && run_stream(s, b, i, false) == after_event(
                    s,
                    m1,
                    e,
                    b,
                    n,
                ),
            }
        }),
    decreases b.len() - i,
{
    reveal(block_step);
    if i < b.len() {
        let (m1, r) = spec_step(s.sax, b[i as int]);
        match r {
            Ok(StepOut::Skip) => {
                lemma_parse_stream(StreamState { sax: m1, ..s }, b, i + 1);
                let (m2, r2) = spec_parse(m1, b, i + 1);
                if let Ok(Some((e, n))) = r2 {
                    lemma_stream_event_same(StreamState { sax: m1, ..s }, s, m2, e);
                }
            },
            Ok(StepOut::EmitHere(e)) => {
                let (s1, r1) = stream_event(s, m1, e);
                lemma_stream_flag_inside(s1, b, i);
            },
            Ok(StepOut::Emit(e)) => {
                let (s1, r1) = stream_event(s, m1, e);
            },
            Err(e) => {},
        }
    } else {
        let (m1, f) = spec_flush(s.sax);
        if let Some(e) = f {
            assert(m1.cdata.len() == 0);
            let (s1, r1) = stream_event(s, m1, e);
            lemma_stream_event_sax(s, m1, e);
            lemma_stream_flag_inside(s1, b, b.len());
            if let Ok(o) = r1 {
                assert(opt_out(o) + Seq::<StreamOut>::empty() =~= opt_out(o));
            }
        }
    }
}

/// One call of the stream parser from position `p` is the byte by byte
/// feeding up to its first report.
proof fn lemma_stream_run(s: StreamState, b: Seq<u8>, p: nat)
    requires
        p < b.len(),
    ensures
        ({
            let (s1, r) = spec_stream(s, b, p);
            match r {
                Err(e) => run_stream(s, b, p, false) == (s1, Seq::<StreamOut>::empty(), Some(e)),
                Ok(None) => run_stream(s, b, p, false) == (
                    s1,
                    Seq::<StreamOut>::empty(),
                    None::<ParseError>,
                ),
                Ok(Some((out, n))) => n <= b.len() && {
                    let rs = run_stream(s1, b, n, true);
                    run_stream(s, b, p, false) == (rs.0, seq![out] + rs.1, rs.2)
                },
            }
        }),
    decreases b.len() - p, (if resumes(s.sax.state) {
        1int
    } else {
        0int
    }),
{
    reveal(stream_event);
    lemma_parse_shift(s.sax, b, p, 0);
    crate::parser::lemma_parse_pos(s.sax, b, p);
    lemma_parse_stream(s, b, p);
    lemma_next_progress(s.sax, b, p);
    let (m1, p1, r) = spec_next(s.sax, b, p);
    let (ma, ra) = spec_parse(s.sax, b, p);
    assert(m1 == ma);
    match ra {
        Ok(Some((e, n))) => {
            assert(p1 == n);
            assert(r == Some(Ok::<SaxEvent, ParseError>(e)));
            let (s1, r1) = stream_event(s, m1, e);
            lemma_stream_event_sax(s, m1, e);
            match r1 {
                Ok(None) => {
                    assert(opt_out(None) + run_stream(s1, b, n, true).1 =~= run_stream(s1, b, n, true).1);
                    if n < b.len() {
                        lemma_stream_run(s1, b, n);
                        lemma_stream_flag_inside(s1, b, n);
                    }
                },
                Ok(Some(out)) => {},
                Err(err) => {},
            }
        },
        Ok(None) => {
            assert(r is None);
        },
        Err(e) => {
            assert(r == Some(Err::<SaxEvent, ParseError>(e)));
        },
    }
}

/// A report of the stream parser comes after reading on, or in place
/// after leaving a state that reads its byte again.
pub proof fn lemma_stream_progress(s: StreamState, b: Seq<u8>, p: nat)
    requires
        p <= b.len(),
    ensures
        spec_stream(s, b, p).1 matches Ok(Some((_, n))) ==> n > p || (n == p && resumes(s.sax.state)
            && !resumes(spec_stream(s, b, p).0.sax.state)),
        spec_stream(s, b, p).1 matches Ok(Some((_, n))) ==> n <= b.len(),
    decreases b.len() - p, (if resumes(s.sax.state) {
        1int
    } else {
        0int
    }),
{
    reveal(stream_event);
    if p < b.len() {
        lemma_next_progress(s.sax, b, p);
        let (m1, p1, r) = spec_next(s.sax, b, p);
        if let Some(Ok(e)) = r {
            let (s1, r1) = stream_event(s, m1, e);
            lemma_stream_event_sax(s, m1, e);
            if r1 == Ok::<Option<StreamOut>, ParseError>(None) {
                lemma_stream_progress(s1, b, p1);
            }
        }
    }
}

/// What a loop over the stream element iterator gets from a block, from
/// position `parsed` on: the state after, the reports in order, and the
/// error that stopped it.
pub open spec fn spec_stream_all(s: StreamState, bytes: Seq<u8>, parsed: nat) -> (
    StreamState,
    Seq<StreamOut>,
    Option<ParseError>,
)
    decreases bytes.len() - parsed, (if resumes(s.sax.state) {
        1int
    } else {
        0int
    }),
{
    if parsed >= bytes.len() {
        (s, Seq::empty(), None)
    } else {
        let rest = bytes.subrange(parsed as int, bytes.len() as int);
        let (s1, r) = spec_stream(s, rest, 0);
        match r {
            Ok(Some((out, n))) => {
                proof {
                    lemma_stream_progress(s, rest, 0);
                }
                let (s2, outs, err) = spec_stream_all(s1, bytes, parsed + n);
                (s2, seq![out] + outs, err)
            },
            Ok(None) => (s1, Seq::empty(), None),
            Err(e) => (s1, Seq::empty(), Some(e)),
        }
    }
}

/// Reading the second part of two blocks put together, for a stream
/// parser, is reading that part alone.
proof fn lemma_stream_concat(s: StreamState, x: Seq<u8>, y: Seq<u8>, j: nat, emitted: bool)
    requires
        j <= y.len(),
    ensures
        run_stream(s, x + y, x.len() + j, emitted) == run_stream(s, y, j, emitted),
    decreases y.len() - j, (if resumes(s.sax.state) {
        1int
    } else {
        0int
    }),
{
    if j < y.len() {
        assert((x + y)[x.len() + j as int] == y[j as int]);
        let (m1, r) = block_step(s.sax, y[j as int]);
        match r {
            Ok(StepOut::Skip) => {
                lemma_stream_concat(StreamState { sax: m1, ..s }, x, y, j + 1, false);
            },
            Ok(StepOut::Emit(e)) => {
                let (s1, r1) = stream_event(s, m1, e);
                lemma_stream_concat(s1, x, y, j + 1, true);
            },
            Ok(StepOut::EmitHere(e)) => {
                assert(resumes(s.sax.state) && !resumes(m1.state)) by {
                    reveal(block_step);
                    lemma_step_here(s.sax, y[j as int]);
                }
                let (s1, r1) = stream_event(s, m1, e);
                lemma_stream_event_sax(s, m1, e);
                lemma_stream_concat(s1, x, y, j, false);
            },
            Err(e) => {},
        }
    }
}

/// The loop over the stream element iterator reads the block byte by
/// byte.
proof fn lemma_stream_all_run(s: StreamState, b: Seq<u8>, p: nat)
    requires
        p <= b.len(),
    ensures
        spec_stream_all(s, b, p) == (if p < b.len() {
            run_stream(s, b, p, false)
        } else {
            (s, Seq::<StreamOut>::empty(), None::<ParseError>)
        }),
    decreases b.len() - p, (if resumes(s.sax.state) {
        1int
    } else {
        0int
    }),
{
    if p < b.len() {
        let rest = b.subrange(p as int, b.len() as int);
        let front = b.subrange(0, p as int);
        assert(b =~= front + rest);
        lemma_stream_concat(s, front, rest, 0, false);
        assert(front.len() + 0 == p);
        lemma_stream_run(s, rest, 0);
        lemma_stream_progress(s, rest, 0);
        let (s1, r) = spec_stream(s, rest, 0);
        if let Ok(Some((out, n))) = r {
            lemma_stream_all_run(s1, b, p + n);
            if n < rest.len() {
                lemma_stream_concat(s1, front, rest, n, false);
                lemma_stream_flag_inside(s1, rest, n);
            }
        }
    }
}

/// A stream parser with pending character data `x`, against the same
/// parser after `x` was given to its builder.
pub open spec fn stream_ahead(sc: StreamState, ss: StreamState, x: Seq<char>) -> bool {
    &&& pending_ahead(sc.sax, ss.sax, x)
    &&& build_ok(sc.build)
    &&& spec_build(sc.build, SaxEvent::CData(x)) == (ss.build, Ok::<(), ParseError>(()))
    &&& sc.level == ss.level
}

/// Both readings end with the same error or none, and without an error
/// in the same state with the same reports.
pub open spec fn stream_outcome(sc: StreamState, ss: StreamState, y: Seq<u8>, j: nat) -> bool {
    let (sc1, oc, ec) = run_stream(sc, y, j, false);
    let (ss1, os, es) = run_stream(ss, y, j, false);
    &&& ec == es
    &&& ec is None ==> sc1 == ss1 && oc == os
}

/// Character data given at once, or after its first part was given.
proof fn lemma_stream_cdata(sc: StreamState, ss: StreamState, x: Seq<char>, cs: Seq<char>, m1: SaxModel)
    requires
        build_ok(sc.build),
        spec_build(sc.build, SaxEvent::CData(x)) == (ss.build, Ok::<(), ParseError>(())),
        sc.level == ss.level,
    ensures
        stream_event(sc, m1, SaxEvent::CData(x + cs)) == stream_event(ss, m1, SaxEvent::CData(cs)),
        stream_event(sc, m1, SaxEvent::CData(x)) == (
            StreamState { sax: m1, ..ss },
            Ok::<Option<StreamOut>, ParseError>(None),
        ),
{
    reveal(stream_event);
    law_build_cdata_merge(sc.build, x, cs);
}

proof fn lemma_stream_pending_end(sc: StreamState, ss: StreamState, x: Seq<char>, y: Seq<u8>, j: nat)
    requires
        stream_ahead(sc, ss, x),
        j >= y.len(),
    ensures
        stream_outcome(sc, ss, y, j),
{
    let cs = ss.sax.cdata;
    let m1 = spec_flush(sc.sax).0;
    lemma_stream_cdata(sc, ss, x, cs, m1);
    if cs.len() == 0 {
        assert(cs =~= Seq::<char>::empty());
        assert(x + cs =~= x);
    } else {
        assert(spec_flush(ss.sax).0 == m1);
    }
}

#[verifier::rlimit(60)]
proof fn lemma_stream_pending_emit(sc: StreamState, ss: StreamState, x: Seq<char>, y: Seq<u8>, j: nat)
    requires
        stream_ahead(sc, ss, x),
        j < y.len(),
        crate::parser::spec_decode(sc.sax, y[j as int]).1 is Ok,
        (sc.sax.state == State::CData && y[j as int] == 0x3c) || (sc.sax.state
            == State::CDataSectionBody && y[j as int] == 0x5d),
    ensures
        stream_outcome(sc, ss, y, j),
{
    reveal(block_step);
    let c = y[j as int];
    let cs = ss.sax.cdata;
    let (m1, r1) = spec_step(sc.sax, c);
    assert(r1 == Ok::<StepOut, ParseError>(StepOut::Emit(SaxEvent::CData(x + cs))));
    lemma_stream_cdata(sc, ss, x, cs, m1);
    if cs.len() > 0 {
        assert(spec_step(ss.sax, c).0 == m1);
    } else {
        assert(cs =~= Seq::<char>::empty());
        assert(x + cs =~= x);
        assert(spec_step(ss.sax, c).0 == m1);
        lemma_stream_flag_inside(StreamState { sax: m1, ..ss }, y, j + 1);
        assert(opt_out(None) + run_stream(StreamState { sax: m1, ..ss }, y, j + 1, true).1
            =~= run_stream(StreamState { sax: m1, ..ss }, y, j + 1, true).1);
    }
}

proof fn lemma_stream_pending_amp(sc: StreamState, ss: StreamState, x: Seq<char>, y: Seq<u8>, j: nat)
    requires
        stream_ahead(sc, ss, x),
        j < y.len(),
        crate::parser::spec_decode(sc.sax, y[j as int]).1 is Ok,
        sc.sax.state == State::CData,
        y[j as int] == 0x26,
    ensures
        stream_outcome(sc, ss, y, j),
{
    reveal(block_step);
    let c = y[j as int];
    let cs = ss.sax.cdata;
    let (m1, r1) = spec_step(sc.sax, c);
    assert(r1 == Ok::<StepOut, ParseError>(StepOut::EmitHere(SaxEvent::CData(x + cs))));
    assert(0x26u8 & 0xc0u8 == 0u8 && 0x26u8 & 0x80u8 == 0u8) by (bit_vector);
    assert(sc.sax.uni_left == 0);
    assert(m1.uni_left == 0);
    let m2 = spec_step(m1, c).0;
    assert(spec_step(m1, c).1 == Ok::<StepOut, ParseError>(StepOut::Skip));
    lemma_stream_cdata(sc, ss, x, cs, m1);
    if cs.len() > 0 {
        assert(spec_step(ss.sax, c).0 == m1);
    } else {
        assert(cs =~= Seq::<char>::empty());
        assert(x + cs =~= x);
        assert(spec_step(ss.sax, c).0 == m2);
        let t1 = StreamState { sax: m1, ..ss };
        assert(run_stream(t1, y, j, false) == run_stream(StreamState { sax: m2, ..ss }, y, j + 1, false));
        assert(opt_out(None) + run_stream(t1, y, j, false).1 =~= run_stream(t1, y, j, false).1);
    }
}

/// Feeding a block to a stream parser with pending character data, and to
/// the same parser after that data went to its builder, ends the same way.
proof fn lemma_stream_pending(sc: StreamState, ss: StreamState, x: Seq<char>, y: Seq<u8>, j: nat)
    requires
        stream_ahead(sc, ss, x),
        j <= y.len(),
    ensures
        stream_outcome(sc, ss, y, j),
    decreases y.len() - j,
{
    if j >= y.len() {
        lemma_stream_pending_end(sc, ss, x, y, j);
        return;
    }
    let c = y[j as int];
    let (mc0, dc) = crate::parser::spec_decode(sc.sax, c);
    let (ms0, ds) = crate::parser::spec_decode(ss.sax, c);
    assert(dc == ds);
    if dc is Err {
        reveal(block_step);
        return;
    }
    if (sc.sax.state == State::CData && c == 0x3c) || (sc.sax.state == State::CDataSectionBody
        && c == 0x5d) {
        lemma_stream_pending_emit(sc, ss, x, y, j);
    } else if sc.sax.state == State::CData && c == 0x26 {
        lemma_stream_pending_amp(sc, ss, x, y, j);
    } else {
        lemma_pending_append(sc.sax, ss.sax, x, c);
        assert(block_step(sc.sax, c) == spec_step(sc.sax, c) && block_step(ss.sax, c) == spec_step(
            ss.sax,
            c,
        )) by {
            reveal(block_step);
        }
        lemma_stream_pending(
            StreamState { sax: spec_step(sc.sax, c).0, ..sc },
            StreamState { sax: spec_step(ss.sax, c).0, ..ss },
            x,
            y,
            j + 1,
        );
    }
}

/// A stream parser keeps the document of its builder a tree.
proof fn lemma_stream_event_ok(s: StreamState, m1: SaxModel, e: SaxEvent)
    requires
        build_ok(s.build),
    ensures
        build_ok(stream_event(s, m1, e).0.build),
{
    reveal(stream_event);
    lemma_build_ok(s.build, e);
}

/// Pending character data that the builder refuses makes the stream
/// parser fail, whatever comes.
proof fn lemma_stream_refused(s: StreamState, y: Seq<u8>, j: nat)
    requires
        s.sax.state == State::CData || s.sax.state == State::CDataSectionBody,
        s.sax.cdata.len() > 0,
        spec_build(s.build, SaxEvent::CData(s.sax.cdata)).1 is Err,
        j <= y.len(),
    ensures
        run_stream(s, y, j, false).2 is Some,
    decreases y.len() - j,
{
    reveal(block_step);
    reveal(stream_event);
    if j >= y.len() {
        return;
    }
    let c = y[j as int];
    let (m0, d) = crate::parser::spec_decode(s.sax, c);
    if d is Err {
        return;
    }
    let (m1, r) = spec_step(s.sax, c);
    match r {
        Ok(StepOut::Skip) => {
            let ch = d->Ok_0;
            assert(m1.cdata == crate::parser::push_opt(s.sax.cdata, ch));
            lemma_cdata_refused(s.build, s.sax.cdata, m1.cdata);
            lemma_stream_refused(StreamState { sax: m1, ..s }, y, j + 1);
        },
        Ok(StepOut::Emit(e)) => {
            assert(e is CData);
            lemma_cdata_refused(s.build, s.sax.cdata, e->CData_0);
        },
        Ok(StepOut::EmitHere(e)) => {
            assert(e is CData);
            lemma_cdata_refused(s.build, s.sax.cdata, e->CData_0);
        },
        Err(e) => {},
    }
}

/// What feeding `x` and then `y` to a stream parser gives against feeding
/// them together, from position `i` of `x` on.
pub open spec fn stream_split_outcome(s: StreamState, x: Seq<u8>, y: Seq<u8>, i: nat, emitted: bool) -> bool {
    let (sc, oc, ec) = run_stream(s, x + y, i, emitted);
    let (s1, o1, e1) = run_stream(s, x, i, emitted);
    let (s2, o2, e2) = run_stream(s1, y, 0, false);
    &&& e1 is Some ==> ec is Some
    &&& e1 is None ==> ec == e2 && (e2 is None ==> sc == s2 && oc == o1 + o2)
}

proof fn lemma_stream_split_end(s: StreamState, x: Seq<u8>, y: Seq<u8>, emitted: bool)
    requires
        y.len() > 0,
        build_ok(s.build),
    ensures
        stream_split_outcome(s, x, y, x.len(), emitted),
{
    lemma_stream_concat(s, x, y, 0, emitted);
    assert(x.len() + 0 == x.len());
    lemma_stream_flag_inside(s, y, 0);
    let (m1, f) = spec_flush(s.sax);
    if !emitted && f is Some {
        let cx = s.sax.cdata;
        let (b1, br) = spec_build(s.build, SaxEvent::CData(cx));
        if br is Ok {
            let s1 = StreamState { sax: m1, build: b1, level: s.level };
            assert(pending_ahead(s.sax, m1, cx)) by {
                assert(cx + m1.cdata =~= cx);
            }
            assert(stream_event(s, m1, SaxEvent::CData(cx)) == (s1, Ok::<Option<StreamOut>, ParseError>(None))) by {
                reveal(stream_event);
            }
            lemma_stream_pending(s, s1, cx, y, 0);
            let (s2, o2, e2) = run_stream(s1, y, 0, false);
            assert(opt_out(None) =~= Seq::<StreamOut>::empty());
            assert(Seq::<StreamOut>::empty() + o2 =~= o2);
        } else {
            assert(stream_event(s, m1, SaxEvent::CData(cx)).1 is Err) by {
                reveal(stream_event);
            }
            lemma_stream_refused(s, y, 0);
        }
    } else {
        let (s2, o2, e2) = run_stream(s, y, 0, false);
        assert(Seq::<StreamOut>::empty() + o2 =~= o2);
        if !emitted {
            assert(m1 == s.sax);
            assert(StreamState { sax: m1, ..s } == s);
        }
    }
}

/// Feeding two blocks one after the other to a stream parser against
/// feeding them together.
proof fn lemma_stream_split(s: StreamState, x: Seq<u8>, y: Seq<u8>, i: nat, emitted: bool)
    requires
        i <= x.len(),
        y.len() > 0,
        build_ok(s.build),
    ensures
        stream_split_outcome(s, x, y, i, emitted),
    decreases x.len() - i, (if resumes(s.sax.state) {
        1int
    } else {
        0int
    }),
{
    if i >= x.len() {
        lemma_stream_split_end(s, x, y, emitted);
        return;
    }
    assert((x + y)[i as int] == x[i as int]);
    let (m1, r) = block_step(s.sax, x[i as int]);
    match r {
        Ok(StepOut::Skip) => {
            lemma_stream_split(StreamState { sax: m1, ..s }, x, y, i + 1, false);
        },
        Ok(StepOut::Emit(e)) => {
            let (s1, r1) = stream_event(s, m1, e);
            lemma_stream_event_ok(s, m1, e);
            if let Ok(o) = r1 {
                lemma_stream_split(s1, x, y, i + 1, true);
                let (sc, oc, ec) = run_stream(s1, x + y, i + 1, true);
                let (sa, oa, ea) = run_stream(s1, x, i + 1, true);
                let (sb, ob, eb) = run_stream(sa, y, 0, false);
                assert(opt_out(o) + oa + ob =~= opt_out(o) + (oa + ob));
            }
        },
        Ok(StepOut::EmitHere(e)) => {
            assert(resumes(s.sax.state) && !resumes(m1.state)) by {
                reveal(block_step);
                lemma_step_here(s.sax, x[i as int]);
            }
            let (s1, r1) = stream_event(s, m1, e);
            lemma_stream_event_sax(s, m1, e);
            lemma_stream_event_ok(s, m1, e);
            if let Ok(o) = r1 {
                lemma_stream_split(s1, x, y, i, false);
                let (sc, oc, ec) = run_stream(s1, x + y, i, false);
                let (sa, oa, ea) = run_stream(s1, x, i, false);
                let (sb, ob, eb) = run_stream(sa, y, 0, false);
                assert(opt_out(o) + oa + ob =~= opt_out(o) + (oa + ob));
            }
        },
        Err(e) => {},
    }
}

/// Law of blocks for XMPP streams: when a first block fails, feeding both
/// blocks together fails too; after a first block is taken without error,
/// feeding a second block ends as feeding both together does: with the
/// same error or none, and without an error with the same parser state,
/// the top level elements of the first block followed by those of the
/// second being those of both together.
pub proof fn law_stream_blocks(s: StreamState, x: Seq<u8>, y: Seq<u8>)
    requires
        build_ok(s.build),
    ensures
        ({
            let (sc, oc, ec) = spec_stream_all(s, x + y, 0);
            let (s1, o1, e1) = spec_stream_all(s, x, 0);
            let (s2, o2, e2) = spec_stream_all(s1, y, 0);
            &&& e1 is Some ==> ec is Some
            &&& e1 is None ==> ec == e2 && (e2 is None ==> sc == s2 && oc == o1 + o2)
        }),
{
    lemma_stream_all_run(s, x + y, 0);
    lemma_stream_all_run(s, x, 0);
    let (s1, o1, e1) = spec_stream_all(s, x, 0);
    lemma_stream_all_run(s1, y, 0);
    if x.len() == 0 {
        assert(x + y =~= y);
        let (s2, o2, e2) = spec_stream_all(s1, y, 0);
        assert(Seq::<StreamOut>::empty() + o2 =~= o2);
    } else if y.len() == 0 {
        assert(x + y =~= x);
        assert(o1 + Seq::<StreamOut>::empty() =~= o1);
    } else {
        lemma_stream_split(s, x, y, 0, false);
    }
}

} // verus!
