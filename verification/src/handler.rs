use vstd::prelude::*;

use crate::blocks::{element_state, lemma_element_state, spec_elements};
use crate::error::ParseError;
use crate::location::Location;
use crate::parser::{
    SaxElement, SaxEvent, SaxModel, SaxParser, initial_model, lemma_next_progress, lemma_parse_pos, resumes,
    spec_finish, spec_next,
};

verus! {

/// The errors of parsing with a handler: running out of memory, a syntax
/// error, or the handler stopping the parse.
#[derive(Clone, Copy, Debug, PartialEq, Eq)]
pub enum SaxError {
    NoMemory,
    BadXml(&'static str),
    HandlerAbort,
}

pub open spec fn sax_error(e: ParseError) -> SaxError {
    match e {
        ParseError::NoMemory => SaxError::NoMemory,
        ParseError::BadXml(msg) => SaxError::BadXml(msg),
    }
}

impl SaxError {
    /// The error for a parser error.
    pub fn from_parse_error(e: ParseError) -> (r: SaxError)
        ensures
            r == sax_error(e),
    {
        match e {
            ParseError::NoMemory => SaxError::NoMemory,
            ParseError::BadXml(msg) => SaxError::BadXml(msg),
        }
    }
}

/// What a handler has been given, in order, each element with the answer
/// the handler gave to it.
pub type HandlerLog = Seq<(SaxEvent, Result<(), SaxError>)>;

/// Receives the elements that `Parser` reads, one at a time; an error
/// stops the parse and is passed on.
pub trait SaxHandler {
    /// The elements given to the handler so far, with its answers. An
    /// implementation that Verus checks defines it from the state it keeps;
    /// code that calls the handler through this trait knows of it only what
    /// `handle_element` states.
    open spec fn log(&self) -> HandlerLog {
        Seq::empty()
    }

    fn handle_element(&mut self, element: &SaxElement) -> (r: Result<(), SaxError>)
        ensures
            final(self).log() == old(self).log().push((element@, r)),
    ;
}

/// The handler refused the last element it was given.
pub open spec fn refused(given: HandlerLog) -> bool {
    given.len() > 0 && given.last().1 is Err
}

/// Handing the elements of the block `bytes` to a handler, from parser
/// state `m`: the handler's log went from `before` to `after` by getting
/// the elements of the block in order, all answered with `Ok` but perhaps
/// the last; then the parse stopped, with the parser in state `last`,
/// where the refused element left it, or at the end of the block.
pub open spec fn handed_over(
    m: SaxModel,
    bytes: Seq<u8>,
    before: HandlerLog,
    after: HandlerLog,
    last: SaxModel,
) -> bool {
    let (m1, es, err) = spec_elements(m, bytes, 0);
    let given = after.skip(before.len() as int);
    &&& before.len() <= after.len()
    &&& after.take(before.len() as int) == before
    &&& given.len() <= es.len()
    &&& forall|i: int| 0 <= i < given.len() ==> (#[trigger] given[i]).0 == es[i]
    &&& forall|i: int| 0 <= i < given.len() - 1 ==> (#[trigger] given[i]).1 is Ok
    &&& if refused(given) {
        last == element_state(m, bytes, 0, given.len()).0
    } else {
        given.len() == es.len() && last == m1
    }
}

/// The outcome of handing a block over: the handler's refusal, or else the
/// syntax error of the block, if any.
pub open spec fn handed_result(m: SaxModel, bytes: Seq<u8>, before: HandlerLog, after: HandlerLog) -> Result<
    (),
    SaxError,
> {
    let given = after.skip(before.len() as int);
    if refused(given) {
        given.last().1
    } else {
        match spec_elements(m, bytes, 0).2 {
            None => Ok(()),
            Some(pe) => Err(sax_error(pe)),
        }
    }
}

/// A SAX parser that hands each element to a handler.
pub struct Parser {
    sax: SaxParser,
}

impl Parser {
    pub closed spec fn wf(&self) -> bool {
        self.sax.wf()
    }

    /// The state of the parser automaton.
    pub closed spec fn model(&self) -> SaxModel {
        self.sax@
    }

    pub fn new() -> (r: Parser)
        ensures
            r.wf(),
            r.model() == initial_model(),
    {
        Parser { sax: SaxParser::new() }
    }

    /// Starts over for a new document.
    pub fn reset(&mut self)
        ensures
            final(self).wf(),
            final(self).model() == initial_model(),
    {
        self.sax.reset();
    }

    /// Reads a block of bytes and hands each element to the handler, in
    /// order, until the handler refuses one. Input can be given in several
    /// blocks. The result is the handler's refusal, or else the syntax error
    /// of the block, if any; the parser stays where the refused element left
    /// it, or goes to the state that the elements of the block lead to.
    pub fn parse_bytes<H: SaxHandler>(&mut self, handler: &mut H, bytes: &[u8]) -> (r: Result<
        (),
        SaxError,
    >)
        requires
            old(self).wf(),
        ensures
            final(self).wf(),
            handed_over(
                old(self).model(),
                bytes@,
                old(handler).log(),
                final(handler).log(),
                final(self).model(),
            ),
            r == handed_result(old(self).model(), bytes@, old(handler).log(), final(handler).log()),
    {
        let mut parsed: usize = 0;
        let ghost mut k: nat = 0;
        let ghost m0 = self.sax@;
        let ghost all = spec_elements(m0, bytes@, 0);
        let ghost log0 = handler.log();
        loop
            invariant
                self.wf(),
                parsed <= bytes@.len(),
                m0 == old(self).model(),
                log0 == old(handler).log(),
                all == spec_elements(m0, bytes@, 0),
                k <= all.1.len(),
                (self.sax@, parsed as nat) == element_state(m0, bytes@, 0, k),
                spec_elements(self.sax@, bytes@, parsed as nat) == (all.0, all.1.skip(k as int), all.2),
                handler.log().len() == log0.len() + k,
                handler.log().take(log0.len() as int) == log0,
                forall|i: int|
                    0 <= i < k ==> (#[trigger] handler.log().skip(log0.len() as int)[i]).0 == all.1[i]
                        && handler.log().skip(log0.len() as int)[i].1 is Ok,
            decreases bytes@.len() - parsed, (if resumes(self.sax@.state) {
                1int
            } else {
                0int
            }),
        {
            let ghost mk = self.sax@;
            let ghost p1 = parsed;
            let ghost logk = handler.log();
            if parsed >= bytes.len() {
                proof {
                    assert(handler.log().skip(log0.len() as int).len() == k);
                }
                return Ok(());
            }
            let rest = vstd::slice::slice_subrange(bytes, parsed, bytes.len());
            proof {
                lemma_parse_pos(mk, rest@, 0);
                lemma_next_progress(mk, bytes@, parsed as nat);
                assert(rest@ == bytes@.subrange(parsed as int, bytes@.len() as int));
            }
            match self.sax.parse_bytes(rest) {
                Ok(Some((element, n))) => {
                    parsed = parsed + n;
                    proof {
                        let (m2, p2, nx) = spec_next(mk, bytes@, p1 as nat);
                        assert(nx == Some(Ok::<SaxEvent, ParseError>(element@)));
                        assert(spec_elements(mk, bytes@, p1 as nat).1[0] == element@);
                        assert(all.1.skip(k as int).len() > 0);
                        assert(all.1.skip(k as int)[0] == all.1[k as int]);
                        k = k + 1;
                        lemma_element_state(m0, bytes@, 0, k);
                    }
                    let answer = handler.handle_element(&element);
                    proof {
                        let g = handler.log().skip(log0.len() as int);
                        let gk = logk.skip(log0.len() as int);
                        assert(handler.log() == logk.push((element@, answer)));
                        assert(handler.log().take(log0.len() as int) =~= log0);
                        assert(g =~= gk.push((element@, answer)));
                    }
                    match answer {
                        Ok(()) => {},
                        Err(e) => {
                            return Err(e);
                        },
                    }
                },
                Ok(None) => {
                    proof {
                        assert(handler.log().skip(log0.len() as int).len() == k);
                    }
                    return Ok(());
                },
                Err(e) => {
                    proof {
                        assert(handler.log().skip(log0.len() as int).len() == k);
                    }
                    return Err(SaxError::from_parse_error(e));
                },
            }
        }
    }

    /// Checks that the document is complete: it has a root tag, every tag
    /// is closed, and no comment or processing instruction is left open.
    pub fn parse_finish(&self) -> (r: Result<(), SaxError>)
        requires
            self.wf(),
        ensures
            r == (match spec_finish(self.model()) {
                Ok(_) => Ok::<(), SaxError>(()),
                Err(e) => Err(sax_error(e)),
            }),
    {
        match self.sax.parse_finish() {
            Ok(()) => Ok(()),
            Err(e) => Err(SaxError::from_parse_error(e)),
        }
    }

    /// Reads the last block of a document, handing its elements to the
    /// handler as `parse_bytes` does, and then checks that the document is
    /// complete.
    pub fn parse_bytes_finish<H: SaxHandler>(&mut self, handler: &mut H, bytes: &[u8]) -> (r:
        Result<(), SaxError>)
        requires
            old(self).wf(),
        ensures
            final(self).wf(),
            handed_over(
                old(self).model(),
                bytes@,
                old(handler).log(),
                final(handler).log(),
                final(self).model(),
            ),
            r == (match handed_result(old(self).model(), bytes@, old(handler).log(), final(handler).log()) {
                Ok(_) => match spec_finish(final(self).model()) {
                    Ok(_) => Ok::<(), SaxError>(()),
                    Err(e) => Err(sax_error(e)),
                },
                Err(e) => Err(e),
            }),
    {
        self.parse_bytes(handler, bytes)?;
        self.parse_finish()
    }

/// The location of the next byte to read.
    pub fn location(&self) -> (l: Location)
        ensures
            l == self.model().location,
    {
        self.sax.location()
    }

    /// The number of bytes read.
    pub fn nr_bytes(&self) -> (r: usize)
        ensures
            r == self.model().location.bytes,
    {
        self.sax.location().bytes
    }

    /// The number of line ends read.
    pub fn nr_lines(&self) -> (r: usize)
        ensures
            r == self.model().location.lines,
    {
        self.sax.location().lines
    }

    /// The number of bytes read since the last line end.
    pub fn nr_column(&self) -> (r: usize)
        ensures
            r == self.model().location.column,
    {
        self.sax.location().column
    }
}

} // verus!

