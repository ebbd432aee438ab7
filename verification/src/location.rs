use vstd::prelude::*;

verus! {

/// A position in the parser input byte stream: bytes read, newlines read,
/// and bytes read since the last newline. The counts stop at `usize::MAX`.
#[derive(Clone, Copy, Debug, PartialEq, Eq)]
pub struct Location {
    pub bytes: usize,
    pub lines: usize,
    pub column: usize,
}

pub open spec fn inc(n: usize) -> usize {
    if n < usize::MAX {
        (n + 1) as usize
    } else {
        n
    }
}

/// The location reached after reading one more byte `c` at location `l`.
pub open spec fn spec_advance(l: Location, c: u8) -> Location {
    Location {
        bytes: inc(l.bytes),
        lines: if c == 0x0a {
            inc(l.lines)
        } else {
            l.lines
        },
        column: if c == 0x0a {
            0
        } else {
            inc(l.column)
        },
    }
}

/// The location reached after reading the bytes `s` from location `l`.
pub open spec fn advance_all(l: Location, s: Seq<u8>) -> Location
    decreases s.len(),
{
    if s.len() == 0 {
        l
    } else {
        spec_advance(advance_all(l, s.drop_last()), s.last())
    }
}

/// The number of newlines in `s`.
pub open spec fn count_newlines(s: Seq<u8>) -> nat
    decreases s.len(),
{
    if s.len() == 0 {
        0
    } else {
        count_newlines(s.drop_last()) + if s.last() == 0x0a {
            1nat
        } else {
            0nat
        }
    }
}

/// The number of bytes of `s` after its last newline; all of them when it
/// has none.
pub open spec fn bytes_after_newline(s: Seq<u8>) -> nat
    decreases s.len(),
{
    if s.len() == 0 {
        0
    } else if s.last() == 0x0a {
        0
    } else {
        bytes_after_newline(s.drop_last()) + 1
    }
}

/// Reading `x` and then `y` is reading `x + y`.
pub proof fn lemma_advance_concat(l: Location, x: Seq<u8>, y: Seq<u8>)
    ensures
        advance_all(l, x + y) == advance_all(advance_all(l, x), y),
    decreases y.len(),
{
    if y.len() == 0 {
        assert(x + y =~= x);
    } else {
        lemma_advance_concat(l, x, y.drop_last());
        assert((x + y).drop_last() =~= x + y.drop_last());
        assert((x + y).last() == y.last());
    }
}

/// From the start, the location counts the bytes, the newlines and the
/// bytes after the last newline, as long as the input fits in `usize`.
pub proof fn lemma_advance_from_start(s: Seq<u8>)
    requires
        s.len() <= usize::MAX,
    ensures
        advance_all(Location { bytes: 0, lines: 0, column: 0 }, s) == (Location {
            bytes: s.len() as usize,
            lines: count_newlines(s) as usize,
            column: bytes_after_newline(s) as usize,
        }),
        count_newlines(s) <= s.len(),
        bytes_after_newline(s) <= s.len(),
    decreases s.len(),
{
    if s.len() > 0 {
        lemma_advance_from_start(s.drop_last());
    }
}

impl Location {
    /// The location before the first byte.
    pub fn new() -> (l: Location)
        ensures
            l == (Location { bytes: 0, lines: 0, column: 0 }),
    {
        Location { bytes: 0, lines: 0, column: 0 }
    }

    /// Moves past one byte; a newline starts a new line.
    pub fn advance(&mut self, c: u8)
        ensures
            *final(self) == spec_advance(*old(self), c),
    {
        self.bytes = self.bytes.saturating_add(1);
        if c == 0x0a {
            self.lines = self.lines.saturating_add(1);
            self.column = 0;
        } else {
            self.column = self.column.saturating_add(1);
        }
    }
}

} // verus!
