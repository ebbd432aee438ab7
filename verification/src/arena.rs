use vstd::prelude::*;
use vstd::string::StringSliceAdditionalSpecFns;
use vstd::utf8::{decode_utf8, encode_utf8, valid_utf8};

use crate::error::NoMemory;
use crate::utf8_text::{lemma_encode_concat, lemma_encode_roundtrip, str_from_utf8};

verus! {

/// Smallest first struct chunk, in machine words.
pub const MIN_STRUCT_WORDS: usize = 32;

/// Smallest first character data chunk, in bytes.
pub const MIN_CDATA_BYTES: usize = 256;

/// Bytes in a machine word.
pub const WORD_BYTES: usize = 8;

/// Bytes of the arena's own bookkeeping record.
pub const HEAD_BYTES: usize = 32;

/// Bytes of the bookkeeping record of each chunk.
pub const CHUNK_HEADER_BYTES: usize = 56;

/// Statistics about the memory usage of an arena: the number of blocks
/// taken from the system allocator, their total size, and how much of it
/// is in use.
#[derive(Copy, Clone, Debug, PartialEq, Eq)]
pub struct ArenaStats {
    pub chunks: u32,
    pub allocated_bytes: usize,
    pub used_bytes: usize,
}

/// A string stored in an arena: which chunk, where, and how many bytes.
#[derive(Copy, Clone, Debug, PartialEq, Eq)]
pub struct ArenaStr {
    pub chunk: usize,
    pub start: usize,
    pub len: usize,
}

/// Where a struct was placed: the chunk and the byte offset in it.
#[derive(Copy, Clone, Debug, PartialEq, Eq)]
pub struct ArenaSlot {
    pub chunk: usize,
    pub offset: usize,
}

/// One block of memory, filled from the start by a bump allocator.
pub struct Chunk {
    pub size: usize,
    pub used: usize,
    pub last: usize,
    pub alloc: usize,
    pub data: Vec<u8>,
}

/// The block sizes that the search for space expects: the first chunk's
/// size, doubled for each chunk passed, up to `usize::MAX`.
pub open spec fn expected_size(first: usize, n: nat) -> usize
    decreases n,
{
    if n == 0 {
        first
    } else {
        let e = expected_size(first, (n - 1) as nat);
        if e > usize::MAX / 2 {
            usize::MAX
        } else {
            (e * 2) as usize
        }
    }
}

/// Room for `size` more bytes at the end of a chunk.
pub open spec fn spec_has_space(c: Chunk, size: usize) -> bool {
    size <= c.size && c.used + size <= c.size
}

/// `n` rounded up to a multiple of `align`.
pub open spec fn round_up(n: nat, align: nat) -> nat {
    if align == 0 || n % align == 0 {
        n
    } else {
        (n + align - n % align) as nat
    }
}

pub proof fn lemma_round_up(n: nat, align: nat)
    ensures
        round_up(n, align) >= n,
        align > 0 ==> round_up(n, align) < n + align,
        align > 0 ==> round_up(n, align) % align == 0,
        round_up(n, 1) == n,
{
    assert(n % 1 == 0) by (nonlinear_arith);
    if align > 0 && n % align != 0 {
        assert(n % align < align) by (nonlinear_arith)
            requires
                align > 0,
        ;
        assert((n + align - n % align) % (align as int) == 0) by (nonlinear_arith)
            requires
                align > 0,
        ;
    }
}

/// Room for `size` more bytes after aligning the end of the used space.
pub open spec fn spec_has_aligned_space(c: Chunk, size: usize, align: usize) -> bool {
    size <= c.size && round_up(c.used as nat, align as nat) + size <= c.size
}

/// The arena cannot store a string of `n` bytes: no character data chunk
/// has room for it, and a new chunk for it would not fit in the address
/// space.
pub open spec fn fails_to_store(a: Arena, n: nat) -> bool {
    n > usize::MAX || spec_reserve_fails(a.cdata_chunks(), a.allocated() as usize, n as usize, 1)
}

/// A new arena, with one empty character data chunk of at most a quarter
/// of the address space, can store any string of at most a quarter of the
/// address space.
pub proof fn lemma_fresh_room(a: Arena, n: nat)
    requires
        a.cdata_chunks().len() == 1,
        a.cdata_chunks()[0].used == 0,
        a.cdata_chunks()[0].size <= usize::MAX / 4,
        a.allocated() <= a.cdata_chunks()[0].size + 1024,
        n <= usize::MAX / 4,
    ensures
        !fails_to_store(a, n),
{
    let s = a.cdata_chunks();
    let c = s[0].size;
    lemma_round_up(0, 1);
    if n <= c {
        assert(spec_has_aligned_space(s[0], n as usize, 1));
    } else {
        assert(expected_size(c, 0) == c);
        assert(expected_size(c, 1) == 2 * c);
        let data: usize = if 2 * c >= n { (2 * c) as usize } else { n as usize };
        lemma_round_up(data as nat, WORD_BYTES as nat);
        assert(a.allocated() + chunk_alloc(data as nat) <= usize::MAX);
    }
}

/// The free bytes at the end of the first character data chunk.
pub open spec fn first_room(a: Arena) -> int {
    a.cdata_chunks()[0].size - a.cdata_chunks()[0].used
}

/// The bytes held for the string `h`.
pub open spec fn region(chunks: Seq<Chunk>, h: ArenaStr) -> Seq<u8> {
    chunks[h.chunk as int].data@.subrange(h.start as int, h.start + h.len)
}

/// The string `h` names valid UTF-8 bytes stored in `chunks`.
pub open spec fn holds_in(chunks: Seq<Chunk>, h: ArenaStr) -> bool {
    &&& h.chunk < chunks.len()
    &&& h.start + h.len <= chunks[h.chunk as int].data@.len()
    &&& valid_utf8(region(chunks, h))
}

pub open spec fn sum_alloc(s: Seq<Chunk>) -> nat
    decreases s.len(),
{
    if s.len() == 0 {
        0
    } else {
        sum_alloc(s.drop_last()) + s.last().alloc as nat
    }
}

pub open spec fn sum_used(s: Seq<Chunk>) -> nat
    decreases s.len(),
{
    if s.len() == 0 {
        0
    } else {
        sum_used(s.drop_last()) + s.last().used as nat
    }
}

/// The allocation record of a chunk with `size` data bytes.
pub open spec fn chunk_alloc(size: nat) -> nat {
    CHUNK_HEADER_BYTES as nat + round_up(size, WORD_BYTES as nat)
}

pub open spec fn chunk_ok(c: Chunk, is_cdata: bool) -> bool {
    &&& c.used <= c.size
    &&& c.last <= c.used
    &&& c.size < c.alloc
    &&& (is_cdata ==> c.data@.len() == c.used)
    &&& (!is_cdata ==> c.data@.len() == 0)
}


pub proof fn lemma_sum_push(s: Seq<Chunk>, c: Chunk)
    ensures
        sum_alloc(s.push(c)) == sum_alloc(s) + c.alloc,
        sum_used(s.push(c)) == sum_used(s) + c.used,
{
    assert(s.push(c).drop_last() =~= s);
}

pub proof fn lemma_sum_update(s: Seq<Chunk>, i: int, c: Chunk)
    requires
        0 <= i < s.len(),
    ensures
        sum_alloc(s.update(i, c)) == sum_alloc(s) - s[i].alloc + c.alloc,
        sum_used(s.update(i, c)) == sum_used(s) - s[i].used + c.used,
    decreases s.len(),
{
    if i == s.len() - 1 {
        assert(s.update(i, c).drop_last() =~= s.drop_last());
    } else {
        lemma_sum_update(s.drop_last(), i, c);
        assert(s.update(i, c).drop_last() =~= s.drop_last().update(i, c));
    }
}

pub proof fn lemma_sum_first(s: Seq<Chunk>)
    requires
        s.len() > 0,
    ensures
        sum_alloc(s) >= s[0].alloc,
        sum_used(s) >= s[0].used,
    decreases s.len(),
{
    if s.len() > 1 {
        lemma_sum_first(s.drop_last());
    }
}

/// Spec of one allocation of `size` bytes aligned to `align` in a chunk
/// list: the chunk and offset it gets, and the list afterwards. The first
/// chunk with room is used; when none has room, a chunk of at least the
/// expected size is added at the end.
#[verifier::opaque]
pub open spec fn spec_reserve(s: Seq<Chunk>, size: usize, align: usize) -> (Seq<Chunk>, int, nat) {
    if exists|i: int| 0 <= i < s.len() && spec_has_aligned_space(s[i], size, align) {
        let i = choose|i: int|
            0 <= i < s.len() && spec_has_aligned_space(s[i], size, align) && forall|j: int|
                0 <= j < i ==> !spec_has_aligned_space(#[trigger] s[j], size, align);
        let off = round_up(s[i].used as nat, align as nat);
        (s.update(i, Chunk { used: (off + size) as usize, last: off as usize, ..s[i] }), i, off)
    } else {
        let e = expected_size(s[0].size, s.len());
        let data_size = if e >= size {
            e
        } else {
            size
        };
        let c = Chunk {
            size: data_size,
            used: size,
            last: 0,
            alloc: chunk_alloc(data_size as nat) as usize,
            data: s[0].data,
        };
        (s.push(c), s.len() as int, 0)
    }
}

/// Allocation fails when no chunk has room and the new chunk's record would
/// not fit in the address space.
pub open spec fn spec_reserve_fails(s: Seq<Chunk>, total: usize, size: usize, align: usize) -> bool {
    &&& !(exists|i: int| 0 <= i < s.len() && spec_has_aligned_space(s[i], size, align))
    &&& {
        let e = expected_size(s[0].size, s.len());
        let data_size = if e >= size {
            e
        } else {
            size
        };
        total + chunk_alloc(data_size as nat) > usize::MAX
    }
}

pub proof fn lemma_reserve_at(s: Seq<Chunk>, i: int, size: usize, align: usize)
    requires
        0 <= i < s.len(),
        spec_has_aligned_space(s[i], size, align),
        forall|j: int| 0 <= j < i ==> !spec_has_aligned_space(#[trigger] s[j], size, align),
    ensures
        ({
            let off = round_up(s[i].used as nat, align as nat);
            spec_reserve(s, size, align) == (
                s.update(i, Chunk { used: (off + size) as usize, last: off as usize, ..s[i] }),
                i,
                off,
            )
        }),
{
    reveal(spec_reserve);
    let k = choose|k: int|
        0 <= k < s.len() && spec_has_aligned_space(s[k], size, align) && forall|j: int|
            0 <= j < k ==> !spec_has_aligned_space(#[trigger] s[j], size, align);
    assert(k == i) by {
        if k < i {
            assert(!spec_has_aligned_space(s[k], size, align));
        } else if k > i {
            assert(!spec_has_aligned_space(s[i], size, align));
        }
    }
}

/// Of the chunks with room, one comes first.
proof fn lemma_first_fit(s: Seq<Chunk>, size: usize, align: usize, k: int) -> (i: int)
    requires
        0 <= k < s.len(),
        spec_has_aligned_space(s[k], size, align),
    ensures
        0 <= i <= k,
        spec_has_aligned_space(s[i], size, align),
        forall|j: int| 0 <= j < i ==> !spec_has_aligned_space(#[trigger] s[j], size, align),
    decreases k,
{
    if exists|j: int| 0 <= j < k && spec_has_aligned_space(s[j], size, align) {
        let j = choose|j: int| 0 <= j < k && spec_has_aligned_space(s[j], size, align);
        lemma_first_fit(s, size, align, j)
    } else {
        k
    }
}

/// Reserving room leaves the size of the first chunk alone, and fills at
/// most `size` more bytes of it.
pub proof fn lemma_reserve_first_size(s: Seq<Chunk>, size: usize, align: usize)
    requires
        s.len() > 0,
    ensures
        spec_reserve(s, size, align).0[0].size == s[0].size,
        align == 1 ==> spec_reserve(s, size, align).0[0].used <= s[0].used + size,
{
    if exists|k: int| 0 <= k < s.len() && spec_has_aligned_space(s[k], size, align) {
        let k = choose|k: int| 0 <= k < s.len() && spec_has_aligned_space(s[k], size, align);
        let i = lemma_first_fit(s, size, align, k);
        lemma_reserve_at(s, i, size, align);
        lemma_round_up(s[i].used as nat, align as nat);
    } else {
        reveal(spec_reserve);
    }
}

fn has_space(c: &Chunk, size: usize) -> (r: bool)
    requires
        c.used <= c.size,
    ensures
        r == spec_has_space(*c, size),
{
    size <= c.size && size <= c.size - c.used
}

/// `n` rounded up to a multiple of `align`, if that fits.
fn round_up_exec(n: usize, align: usize) -> (r: Option<usize>)
    ensures
        r matches Some(v) ==> v == round_up(n as nat, align as nat),
        r is None ==> round_up(n as nat, align as nat) > usize::MAX,
{
    if align == 0 {
        return Some(n);
    }
    let rem = n % align;
    if rem == 0 {
        Some(n)
    } else {
        let add = align - rem;
        if n > usize::MAX - add {
            None
        } else {
            Some(n + add)
        }
    }
}

fn has_aligned_space(c: &Chunk, size: usize, align: usize) -> (r: bool)
    requires
        c.used <= c.size,
    ensures
        r == spec_has_aligned_space(*c, size, align),
{
    if size > c.size {
        return false;
    }
    match round_up_exec(c.used, align) {
        Some(u) => u <= c.size && size <= c.size - u,
        None => false,
    }
}

/// Finds room for `size` bytes aligned to `align` in the chunk list, adding
/// a chunk when none has room. Fails when the new chunk would not fit in
/// the address space.
fn reserve(chunks: &mut Vec<Chunk>, total: &mut usize, size: usize, align: usize, is_cdata: bool) -> (r: Result<(usize, usize), NoMemory>)
    requires
        old(chunks)@.len() > 0,
        forall|i: int| 0 <= i < old(chunks)@.len() ==> chunk_ok(#[trigger] old(chunks)@[i], is_cdata),
    ensures
        r matches Ok((i, off)) ==> {
            let (s2, i2, off2) = spec_reserve(old(chunks)@, size, align);
            &&& i == i2 && off == off2
            &&& final(chunks)@.len() == s2.len()
            &&& forall|j: int| 0 <= j < s2.len() && j != i ==> final(chunks)@[j] == s2[j]
            &&& final(chunks)@[i as int].size == s2[i as int].size
            &&& final(chunks)@[i as int].used == s2[i as int].used
            &&& final(chunks)@[i as int].last == s2[i as int].last
            &&& final(chunks)@[i as int].alloc == s2[i as int].alloc
            &&& final(chunks)@[i as int].data@ == (if i < old(chunks)@.len() {
                old(chunks)@[i as int].data@
            } else {
                Seq::<u8>::empty()
            })
            &&& *final(total) == *old(total) + (if i < old(chunks)@.len() {
                0
            } else {
                s2[i as int].alloc as int
            })
        },
        r is Err ==> final(chunks)@ == old(chunks)@ && *final(total) == *old(total),
        r is Err <==> spec_reserve_fails(old(chunks)@, *old(total), size, align),
        r matches Ok((i, off)) ==> {
            &&& i <= old(chunks)@.len()
            &&& final(chunks)@.len() == old(chunks)@.len() + (if i == old(chunks)@.len() {
                1int
            } else {
                0
            })
            &&& forall|j: int|
                0 <= j < old(chunks)@.len() && j != i ==> final(chunks)@[j] == old(chunks)@[j]
            &&& final(chunks)@[i as int].used == off + size
            &&& final(chunks)@[i as int].last == off
            &&& off + size <= final(chunks)@[i as int].size
            &&& final(chunks)@[i as int].size < final(chunks)@[i as int].alloc
            &&& (i < old(chunks)@.len() ==> final(chunks)@[i as int].size == old(chunks)@[i as int].size
                && final(chunks)@[i as int].alloc == old(chunks)@[i as int].alloc && off >= old(
                chunks,
            )@[i as int].used && off == round_up(old(chunks)@[i as int].used as nat, align as nat))
            &&& (i == old(chunks)@.len() ==> off == 0)
        },
{
    reveal(spec_reserve);
    let n = chunks.len();
    let mut i: usize = 0;
    let mut expected = chunks[0].size;
    while i < n
        invariant
            n == chunks@.len(),
            chunks@ == old(chunks)@,
            *total == *old(total),
            i <= n,
            expected == expected_size(chunks@[0].size, i as nat),
            forall|j: int| 0 <= j < chunks@.len() ==> chunk_ok(#[trigger] chunks@[j], is_cdata),
            forall|j: int| 0 <= j < i ==> !spec_has_aligned_space(#[trigger] chunks@[j], size, align),
        decreases n - i,
    {
        if has_aligned_space(&chunks[i], size, align) {
            let off = round_up_exec(chunks[i].used, align).unwrap();
            proof {
                lemma_round_up(chunks@[i as int].used as nat, align as nat);
                lemma_reserve_at(old(chunks)@, i as int, size, align);
            }
            chunks[i].used = off + size;
            chunks[i].last = off;
            return Ok((i, off));
        }
        expected = if expected > usize::MAX / 2 {
            usize::MAX
        } else {
            expected * 2
        };
        i = i + 1;
    }
    let data_size = if expected >= size {
        expected
    } else {
        size
    };
    proof {
        let s = old(chunks)@;
        assert forall|k: int| 0 <= k < s.len() implies !spec_has_aligned_space(s[k], size, align) by {
            assert(!spec_has_aligned_space(chunks@[k], size, align));
        }
    }
    let rounded = match round_up_exec(data_size, WORD_BYTES) {
        Some(v) => v,
        None => {
            return Err(NoMemory);
        },
    };
    if rounded > usize::MAX - CHUNK_HEADER_BYTES {
        return Err(NoMemory);
    }
    let alloc = CHUNK_HEADER_BYTES + rounded;
    if *total > usize::MAX - alloc {
        return Err(NoMemory);
    }
    *total = *total + alloc;
    let c = Chunk { size: data_size, used: size, last: 0, alloc, data: Vec::new() };
    chunks.push(c);
    Ok((n, 0))
}


/// The string `h` is the last thing stored in its chunk, and `n` more bytes
/// fit right after it.
pub open spec fn spec_adjacent(chunks: Seq<Chunk>, h: ArenaStr, n: nat) -> bool {
    &&& h.start == chunks[h.chunk as int].last
    &&& h.start + h.len == chunks[h.chunk as int].used
    &&& n <= chunks[h.chunk as int].size
    &&& chunks[h.chunk as int].used + n <= chunks[h.chunk as int].size
}

pub proof fn lemma_sum_used_bound(s: Seq<Chunk>, is_cdata: bool)
    requires
        forall|i: int| 0 <= i < s.len() ==> chunk_ok(#[trigger] s[i], is_cdata),
    ensures
        sum_used(s) <= sum_alloc(s),
    decreases s.len(),
{
    if s.len() > 0 {
        let t = s.drop_last();
        assert forall|i: int| 0 <= i < t.len() implies chunk_ok(#[trigger] t[i], is_cdata) by {
            assert(t[i] == s[i]);
        }
        lemma_sum_used_bound(t, is_cdata);
        assert(chunk_ok(s[s.len() - 1], is_cdata));
    }
}

pub proof fn lemma_sum_used_take(s: Seq<Chunk>, k: int)
    requires
        0 <= k < s.len(),
    ensures
        sum_used(s.take(k + 1)) == sum_used(s.take(k)) + s[k].used,
{
    assert(s.take(k + 1).drop_last() =~= s.take(k));
}

/// A chunk emptied, keeping the size and allocation of `o`.
pub open spec fn is_cleared(c: Chunk, o: Chunk) -> bool {
    &&& c.size == o.size
    &&& c.alloc == o.alloc
    &&& c.used == 0
    &&& c.last == 0
    &&& c.data@.len() == 0
}

/// The used counts of a chunk list, all set back to zero.
pub open spec fn emptied(s: Seq<Chunk>, i: int) -> Chunk {
    Chunk { used: 0, last: 0, ..s[i] }
}

/// A memory arena for XML structures and character data.
///
/// Memory is taken in chunks, each filled by a bump allocator; structs and
/// character data go to separate chunk lists. When no chunk has room, a
/// chunk of double the expected size is added, so that the number of
/// chunks grows with the logarithm of the memory used. Strings are copied
/// in and named by `ArenaStr` handles.
pub struct Arena {
    structs: Vec<Chunk>,
    cdatas: Vec<Chunk>,
    head_alloc: usize,
    total_alloc: usize,
}

impl Arena {
    /// The arena's consistency: both chunk lists are non-empty, every chunk
    /// is consistent, and the allocation total is the sum of the records.
    pub closed spec fn wf(&self) -> bool {
        &&& self.structs@.len() > 0
        &&& self.cdatas@.len() > 0
        &&& forall|i: int| 0 <= i < self.structs@.len() ==> chunk_ok(#[trigger] self.structs@[i], false)
        &&& forall|i: int| 0 <= i < self.cdatas@.len() ==> chunk_ok(#[trigger] self.cdatas@[i], true)
        &&& self.total_alloc == self.head_alloc + (sum_alloc(self.structs@) - self.structs@[0].alloc)
            + (sum_alloc(self.cdatas@) - self.cdatas@[0].alloc)
        &&& self.head_alloc >= self.structs@[0].alloc + self.cdatas@[0].alloc
    }

    pub closed spec fn holds(&self, h: ArenaStr) -> bool {
        holds_in(self.cdatas@, h)
    }

    /// The characters of the string `h`.
    pub closed spec fn text(&self, h: ArenaStr) -> Seq<char> {
        decode_utf8(region(self.cdatas@, h))
    }

    /// A held string takes as many bytes as its text's UTF-8 encoding.
    pub proof fn lemma_text_len(&self, h: ArenaStr)
        requires
            self.holds(h),
        ensures
            encode_utf8(self.text(h)).len() == h.len,
    {
        crate::utf8_text::lemma_decode_roundtrip(region(self.cdatas@, h));
    }

    /// Number of blocks taken from the system.
    pub closed spec fn chunk_count(&self) -> nat {
        (self.structs@.len() + self.cdatas@.len() - 1) as nat
    }

    pub closed spec fn allocated(&self) -> nat {
        self.total_alloc as nat
    }

    pub closed spec fn used(&self) -> nat {
        sum_used(self.structs@) + sum_used(self.cdatas@)
    }

    /// The character data chunks: their sizes and fill levels.
    pub closed spec fn cdata_chunks(&self) -> Seq<Chunk> {
        self.cdatas@
    }

    pub closed spec fn struct_chunks(&self) -> Seq<Chunk> {
        self.structs@
    }

    fn initial_chunk(size: usize) -> (r: Option<Chunk>)
        ensures
            r matches Some(c) ==> c.size == size && c.used == 0 && c.last == 0 && c.alloc
                == chunk_alloc(size as nat) && c.data@.len() == 0,
            r is None ==> chunk_alloc(size as nat) > usize::MAX,
    {
        let rounded = match round_up_exec(size, WORD_BYTES) {
            Some(v) => v,
            None => {
                return None;
            },
        };
        if rounded > usize::MAX - CHUNK_HEADER_BYTES {
            return None;
        }
        Some(Chunk { size, used: 0, last: 0, alloc: CHUNK_HEADER_BYTES + rounded, data: Vec::new() })
    }

    /// Creates an arena whose first struct chunk holds `struct_words`
    /// machine words and whose first character data chunk holds
    /// `cdata_bytes` bytes, but not less than the defaults. Fails when these
    /// sizes do not fit in the address space.
    pub fn with_chunk_sizes(struct_words: usize, cdata_bytes: usize) -> (r: Result<Arena, NoMemory>)
        ensures
            r matches Ok(a) ==> {
                &&& a.wf()
                &&& a.chunk_count() == 1
                &&& a.used() == 0
                &&& a.allocated() > 0
                &&& a.struct_chunks().len() == 1
                &&& a.cdata_chunks().len() == 1
                &&& a.struct_chunks()[0].size == (if struct_words > MIN_STRUCT_WORDS {
                    struct_words
                } else {
                    MIN_STRUCT_WORDS
                }) * WORD_BYTES
                &&& a.cdata_chunks()[0].size == (if cdata_bytes > MIN_CDATA_BYTES {
                    cdata_bytes
                } else {
                    MIN_CDATA_BYTES
                })
                &&& a.cdata_chunks()[0].used == 0
                &&& a.allocated() == HEAD_BYTES + chunk_alloc(a.struct_chunks()[0].size as nat)
                    + chunk_alloc(a.cdata_chunks()[0].size as nat)
            },
            r is Err ==> (if struct_words > MIN_STRUCT_WORDS {
                struct_words
            } else {
                MIN_STRUCT_WORDS
            }) * WORD_BYTES + (if cdata_bytes > MIN_CDATA_BYTES {
                cdata_bytes
            } else {
                MIN_CDATA_BYTES
            }) > usize::MAX - HEAD_BYTES - 2 * CHUNK_HEADER_BYTES - 2 * WORD_BYTES,
    {
        let words = if struct_words > MIN_STRUCT_WORDS {
            struct_words
        } else {
            MIN_STRUCT_WORDS
        };
        let cdata = if cdata_bytes > MIN_CDATA_BYTES {
            cdata_bytes
        } else {
            MIN_CDATA_BYTES
        };
        let limit: usize = usize::MAX - HEAD_BYTES - 2 * CHUNK_HEADER_BYTES - 2 * WORD_BYTES;
        if words > limit / WORD_BYTES {
            proof {
                assert(words * WORD_BYTES > limit) by (nonlinear_arith)
                    requires
                        words > limit / 8,
                        WORD_BYTES == 8,
                ;
            }
            return Err(NoMemory);
        }
        let struct_bytes = words * WORD_BYTES;
        if cdata > limit - struct_bytes {
            return Err(NoMemory);
        }
        let sc = Self::initial_chunk(struct_bytes).unwrap();
        let cc = Self::initial_chunk(cdata).unwrap();
        let head_alloc = HEAD_BYTES + sc.alloc + cc.alloc;
        let mut structs = Vec::new();
        structs.push(sc);
        let mut cdatas = Vec::new();
        cdatas.push(cc);
        let a = Arena { structs, cdatas, head_alloc, total_alloc: head_alloc };
        proof {
            assert(a.structs@.drop_last() =~= Seq::<Chunk>::empty());
            assert(a.cdatas@.drop_last() =~= Seq::<Chunk>::empty());
            assert(sum_alloc(Seq::<Chunk>::empty()) == 0);
            assert(sum_used(Seq::<Chunk>::empty()) == 0);
            assert(sum_alloc(a.structs@) == sc.alloc);
            assert(sum_alloc(a.cdatas@) == cc.alloc);
            assert(sum_used(a.structs@) == 0);
            assert(sum_used(a.cdatas@) == 0);
            assert(a.wf());
        }
        Ok(a)
    }

    /// Creates an arena with the default chunk sizes.
    pub fn new() -> (r: Result<Arena, NoMemory>)
        ensures
            r matches Ok(a) ==> {
                &&& a.wf()
                &&& a.chunk_count() == 1
                &&& a.used() == 0
                &&& a.allocated() > 0
                &&& a.struct_chunks().len() == 1
                &&& a.cdata_chunks().len() == 1
                &&& a.struct_chunks()[0].size == MIN_STRUCT_WORDS * WORD_BYTES
                &&& a.cdata_chunks()[0].size == MIN_CDATA_BYTES
                &&& a.cdata_chunks()[0].used == 0
                &&& a.allocated() == HEAD_BYTES + chunk_alloc((MIN_STRUCT_WORDS * WORD_BYTES) as nat)
                    + chunk_alloc(MIN_CDATA_BYTES as nat)
            },
            r is Ok,
    {
        Self::with_chunk_sizes(0, 0)
    }

    /// Appends bytes to character data chunk `i`.
    fn append_bytes(&mut self, i: usize, bytes: &[u8])
        requires
            i < old(self).cdatas@.len(),
        ensures
            final(self).structs@ == old(self).structs@,
            final(self).head_alloc == old(self).head_alloc,
            final(self).total_alloc == old(self).total_alloc,
            final(self).cdatas@.len() == old(self).cdatas@.len(),
            forall|j: int|
                0 <= j < final(self).cdatas@.len() && j != i ==> final(self).cdatas@[j] == old(
                    self,
                ).cdatas@[j],
            final(self).cdatas@[i as int].data@ == old(self).cdatas@[i as int].data@ + bytes@,
            final(self).cdatas@[i as int].size == old(self).cdatas@[i as int].size,
            final(self).cdatas@[i as int].used == old(self).cdatas@[i as int].used,
            final(self).cdatas@[i as int].last == old(self).cdatas@[i as int].last,
            final(self).cdatas@[i as int].alloc == old(self).cdatas@[i as int].alloc,
    {
        let mut k: usize = 0;
        while k < bytes.len()
            invariant
                k <= bytes.len(),
                i < self.cdatas@.len(),
                self.structs@ == old(self).structs@,
                self.head_alloc == old(self).head_alloc,
                self.total_alloc == old(self).total_alloc,
                self.cdatas@.len() == old(self).cdatas@.len(),
                forall|j: int|
                    0 <= j < self.cdatas@.len() && j != i ==> self.cdatas@[j] == old(
                        self,
                    ).cdatas@[j],
                self.cdatas@[i as int].data@ == old(self).cdatas@[i as int].data@
                    + bytes@.subrange(0, k as int),
                self.cdatas@[i as int].size == old(self).cdatas@[i as int].size,
                self.cdatas@[i as int].used == old(self).cdatas@[i as int].used,
                self.cdatas@[i as int].last == old(self).cdatas@[i as int].last,
                self.cdatas@[i as int].alloc == old(self).cdatas@[i as int].alloc,
            decreases bytes.len() - k,
        {
            let b = bytes[k];
            self.cdatas[i].data.push(b);
            k = k + 1;
            assert(bytes@.subrange(0, k as int) =~= bytes@.subrange(0, k - 1).push(b));
        }
        assert(bytes@.subrange(0, bytes.len() as int) =~= bytes@);
    }

    /// Stores the bytes of `bytes` as new string data: room for them is found
    /// as by `spec_reserve`, and they are copied there.
    fn store(&mut self, bytes: &[u8]) -> (r: Result<ArenaStr, NoMemory>)
        requires
            old(self).wf(),
        ensures
            final(self).wf(),
            r matches Ok(h) ==> {
                let (s2, i2, off2) = spec_reserve(old(self).cdatas@, bytes.len(), 1);
                &&& h.chunk == i2 && h.start == off2 && h.len == bytes.len()
                &&& final(self).cdatas@.len() == s2.len()
                &&& h.start + h.len <= final(self).cdatas@[h.chunk as int].data@.len()
                &&& region(final(self).cdatas@, h) == bytes@
                &&& final(self).used() == old(self).used() + bytes.len()
                &&& final(self).struct_chunks() == old(self).struct_chunks()
                &&& forall|j: int| 0 <= j < s2.len() ==> #[trigger] final(self).cdatas@[j].size == s2[j].size
                        && final(self).cdatas@[j].used == s2[j].used
            },
            r is Err <==> spec_reserve_fails(old(self).cdatas@, old(self).total_alloc, bytes.len(), 1),
            r is Err ==> final(self).cdatas@ == old(self).cdatas@ && final(self).structs@ == old(
                self,
            ).structs@ && final(self).total_alloc == old(self).total_alloc,
            r matches Ok(h) ==> h.chunk < final(self).cdatas@.len(),
            forall|h: ArenaStr| old(self).holds(h) ==> final(self).holds(h) && region(
                final(self).cdatas@,
                h,
            ) == region(old(self).cdatas@, h),
            final(self).allocated() >= old(self).allocated(),
    {
        let ghost old_c = self.cdatas@;
        let ghost old_s = self.structs@;
        let len = bytes.len();
        let (i, off) = match reserve(&mut self.cdatas, &mut self.total_alloc, len, 1, true) {
            Ok(p) => p,
            Err(e) => {
                return Err(e);
            },
        };
        self.append_bytes(i, bytes);
        let h = ArenaStr { chunk: i, start: off, len };
        proof {
            let s2 = spec_reserve(old_c, len, 1).0;
            let c = self.cdatas@;
            if i < old_c.len() {
                lemma_round_up(old_c[i as int].used as nat, 1);
                assert(c =~= old_c.update(i as int, c[i as int]));
                lemma_sum_update(old_c, i as int, c[i as int]);
            } else {
                assert(c =~= old_c.push(c[i as int]));
                lemma_sum_push(old_c, c[i as int]);
            }
            assert forall|j: int| 0 <= j < c.len() implies chunk_ok(#[trigger] c[j], true) by {
                if j != i {
                    assert(c[j] == s2[j]);
                }
            }
            assert(region(c, h) =~= bytes@);
            assert forall|g: ArenaStr| old(self).holds(g) implies self.holds(g) && region(c, g)
                == region(old_c, g) by {
                if g.chunk == i {
                    assert(region(c, g) =~= region(old_c, g));
                } else {
                    assert(c[g.chunk as int] == old_c[g.chunk as int]);
                }
            }
            lemma_sum_first(c);
            lemma_sum_first(old_c);
        }
        Ok(h)
    }

    /// Copies the string `s` into the arena.
    pub fn push_str(&mut self, s: &str) -> (r: Result<ArenaStr, NoMemory>)
        requires
            old(self).wf(),
        ensures
            final(self).wf(),
            r matches Ok(h) ==> {
                &&& final(self).holds(h)
                &&& final(self).text(h) == s@
                &&& h.len == s.spec_bytes().len()
                &&& final(self).used() == old(self).used() + s.spec_bytes().len()
                &&& final(self).chunk_count() == old(self).chunk_count() + (spec_reserve(
                    old(self).cdata_chunks(),
                    s.spec_bytes().len() as usize,
                    1,
                ).0.len() - old(self).cdata_chunks().len())
            },
            r is Err <==> spec_reserve_fails(
                old(self).cdata_chunks(),
                old(self).allocated() as usize,
                s.spec_bytes().len() as usize,
                1,
            ),
            r is Err ==> final(self).cdata_chunks() == old(self).cdata_chunks()
                && final(self).struct_chunks() == old(self).struct_chunks() && final(self).allocated()
                == old(self).allocated(),
            forall|h: ArenaStr|
                old(self).holds(h) ==> final(self).holds(h) && final(self).text(h) == old(
                    self,
                ).text(h),
            final(self).cdata_chunks()[0].size == old(self).cdata_chunks()[0].size,
            r is Err ==> fails_to_store(*final(self), s.spec_bytes().len()),
            first_room(*final(self)) >= first_room(*old(self)) - s.spec_bytes().len(),
            first_room(*old(self)) >= s.spec_bytes().len() ==> r is Ok,
    {
        let bytes = s.as_bytes();
        let ghost old_c = self.cdatas@;
        let r = self.store(bytes);
        proof {
            lemma_encode_roundtrip(s@);
            lemma_round_up(old_c[0].used as nat, 1);
            if first_room(*old(self)) >= s.spec_bytes().len() {
                assert(spec_has_aligned_space(old_c[0], bytes@.len() as usize, 1));
            }
            if let Ok(h) = r {
                assert(self.text(h) == s@);
                lemma_reserve_first_size(old_c, bytes@.len() as usize, 1);
                let s2 = spec_reserve(old_c, bytes@.len() as usize, 1).0;
                assert(self.cdatas@[0].size == s2[0].size);
            }
        }
        r
    }

    /// Stores the concatenation of two strings that need not be in the
    /// arena: both are copied into new space.
    pub fn concat_strs(&mut self, a: &str, b: &str) -> (r: Result<ArenaStr, NoMemory>)
        requires
            old(self).wf(),
        ensures
            final(self).wf(),
            r matches Ok(h) ==> {
                &&& final(self).holds(h)
                &&& final(self).text(h) == a@ + b@
                &&& h.len == a.spec_bytes().len() + b.spec_bytes().len()
                &&& final(self).used() == old(self).used() + a.spec_bytes().len() + b.spec_bytes().len()
            },
            r is Err <==> fails_to_store(*old(self), a.spec_bytes().len() + b.spec_bytes().len()),
            r is Err ==> fails_to_store(*final(self), a.spec_bytes().len() + b.spec_bytes().len()),
            forall|h: ArenaStr|
                old(self).holds(h) ==> final(self).holds(h) && final(self).text(h) == old(
                    self,
                ).text(h),
    {
        let ab = a.as_bytes();
        let bb = b.as_bytes();
        if ab.len() > usize::MAX - bb.len() {
            return Err(NoMemory);
        }
        let mut buf: Vec<u8> = Vec::new();
        let mut i: usize = 0;
        while i < ab.len()
            invariant
                i <= ab@.len(),
                buf@ == ab@.subrange(0, i as int),
            decreases ab@.len() - i,
        {
            buf.push(ab[i]);
            i = i + 1;
            assert(buf@ =~= ab@.subrange(0, i as int));
        }
        let mut j: usize = 0;
        while j < bb.len()
            invariant
                j <= bb@.len(),
                buf@ == ab@ + bb@.subrange(0, j as int),
            decreases bb@.len() - j,
        {
            buf.push(bb[j]);
            j = j + 1;
            assert(buf@ =~= ab@ + bb@.subrange(0, j as int));
        }
        assert(buf@ =~= ab@ + bb@);
        let r = self.store(buf.as_slice());
        proof {
            lemma_encode_concat(a@, b@);
            lemma_encode_roundtrip(a@ + b@);
            if let Ok(h) = r {
                assert(region(self.cdatas@, h) == encode_utf8(a@ + b@));
            }
        }
        r
    }

    /// Concatenates the stored string `old_s` and `s` into a stored string.
    /// When `old_s` is the last thing in its chunk and there is room right
    /// after it, only `s` is copied there; otherwise both are copied into new
    /// space.
    pub fn concat_str(&mut self, old_s: ArenaStr, s: &str) -> (r: Result<ArenaStr, NoMemory>)
        requires
            old(self).wf(),
            old(self).holds(old_s),
        ensures
            final(self).wf(),
            r matches Ok(h) ==> {
                &&& final(self).holds(h)
                &&& final(self).text(h) == old(self).text(old_s) + s@
                &&& h.len == old_s.len + s.spec_bytes().len()
                &&& (spec_adjacent(old(self).cdata_chunks(), old_s, s.spec_bytes().len()) ==> {
                    &&& h.chunk == old_s.chunk && h.start == old_s.start
                    &&& final(self).used() == old(self).used() + s.spec_bytes().len()
                    &&& final(self).chunk_count() == old(self).chunk_count()
                })
                &&& (!spec_adjacent(old(self).cdata_chunks(), old_s, s.spec_bytes().len()) ==> {
                    &&& final(self).used() == old(self).used() + old_s.len + s.spec_bytes().len()
                    &&& final(self).chunk_count() == old(self).chunk_count() + (spec_reserve(
                        old(self).cdata_chunks(),
                        (old_s.len + s.spec_bytes().len()) as usize,
                        1,
                    ).0.len() - old(self).cdata_chunks().len())
                })
            },
            r is Err <==> !spec_adjacent(old(self).cdata_chunks(), old_s, s.spec_bytes().len()) && (
            old_s.len + s.spec_bytes().len() > usize::MAX || spec_reserve_fails(
                old(self).cdata_chunks(),
                old(self).allocated() as usize,
                (old_s.len + s.spec_bytes().len()) as usize,
                1,
            )),
            r is Err ==> fails_to_store(*final(self), (old_s.len + s.spec_bytes().len()) as nat),
            forall|h: ArenaStr|
                old(self).holds(h) ==> final(self).holds(h) && final(self).text(h) == old(
                    self,
                ).text(h),
    {
        let sb = s.as_bytes();
        let n = sb.len();
        let ci = old_s.chunk;
        let ghost old_c = self.cdatas@;
        let ghost old_region = region(old_c, old_s);
        proof {
            lemma_encode_roundtrip(s@);
            crate::utf8_text::lemma_decode_roundtrip(old_region);
            lemma_encode_concat(decode_utf8(old_region), s@);
            lemma_encode_roundtrip(decode_utf8(old_region) + s@);
        }
        let in_place = old_s.start == self.cdatas[ci].last && old_s.len <= self.cdatas[ci].used
            && old_s.start == self.cdatas[ci].used - old_s.len && has_space(&self.cdatas[ci], n);
        if in_place {
            let u = self.cdatas[ci].used;
            self.cdatas[ci].used = u + n;
            self.append_bytes(ci, sb);
            let h = ArenaStr { chunk: ci, start: old_s.start, len: old_s.len + n };
            proof {
                let c = self.cdatas@;
                let c1 = c[ci as int];
                assert(c =~= old_c.update(ci as int, c1));
                lemma_sum_update(old_c, ci as int, c1);
                lemma_sum_first(c);
                lemma_sum_first(old_c);
                assert forall|j: int| 0 <= j < c.len() implies chunk_ok(#[trigger] c[j], true) by {
                    if j != ci {
                        assert(c[j] == old_c[j]);
                    }
                }
                assert(region(c, h) =~= old_region + sb@);
                assert forall|g: ArenaStr| old(self).holds(g) implies self.holds(g) && region(c, g)
                    == region(old_c, g) by {
                    if g.chunk == ci {
                        assert(region(c, g) =~= region(old_c, g));
                    } else {
                        assert(c[g.chunk as int] == old_c[g.chunk as int]);
                    }
                }
            }
            return Ok(h);
        }
        if old_s.len > usize::MAX - n {
            return Err(NoMemory);
        }
        let mut buf: Vec<u8> = Vec::new();
        let mut k: usize = 0;
        assert(chunk_ok(old_c[ci as int], true));
        while k < old_s.len
            invariant
                k <= old_s.len,
                ci == old_s.chunk,
                old_s.start + old_s.len <= old_c[ci as int].used,
                self.cdatas@ == old_c,
                old_s.chunk < old_c.len(),
                old_s.start + old_s.len <= old_c[old_s.chunk as int].data@.len(),
                buf@ == old_region.subrange(0, k as int),
                old_region == region(old_c, old_s),
            decreases old_s.len - k,
        {
            let b = self.cdatas[ci].data[old_s.start + k];
            buf.push(b);
            k = k + 1;
            assert(buf@ =~= old_region.subrange(0, k as int));
        }
        let mut j: usize = 0;
        while j < n
            invariant
                j <= n,
                n == sb@.len(),
                buf@ == old_region + sb@.subrange(0, j as int),
                old_region.len() == old_s.len,
            decreases n - j,
        {
            buf.push(sb[j]);
            j = j + 1;
            assert(buf@ =~= old_region + sb@.subrange(0, j as int));
        }
        assert(buf@ =~= old_region + sb@);
        let r = self.store(buf.as_slice());
        proof {
            if let Ok(h) = r {
                assert(region(self.cdatas@, h) == old_region + sb@);
            }
        }
        r
    }

    /// Allocates `size` bytes aligned to `align` for a struct record.
    pub fn alloc_struct(&mut self, size: usize, align: usize) -> (r: Result<ArenaSlot, NoMemory>)
        requires
            old(self).wf(),
        ensures
            final(self).wf(),
            r matches Ok(slot) ==> {
                let (s2, i2, off2) = spec_reserve(old(self).struct_chunks(), size, align);
                &&& slot.chunk == i2 && slot.offset == off2
                &&& align > 0 ==> (slot.offset as int) % (align as int) == 0
                &&& final(self).chunk_count() == old(self).chunk_count() + (s2.len() - old(
                    self,
                ).struct_chunks().len())
                &&& final(self).used() == old(self).used() + (slot.offset + size) - (if i2 < old(
                    self,
                ).struct_chunks().len() {
                    old(self).struct_chunks()[i2].used as int
                } else {
                    0
                })
                &&& final(self).cdata_chunks() == old(self).cdata_chunks()
            },
            r is Err <==> spec_reserve_fails(
                old(self).struct_chunks(),
                old(self).allocated() as usize,
                size,
                align,
            ),
            forall|h: ArenaStr|
                old(self).holds(h) ==> final(self).holds(h) && final(self).text(h) == old(
                    self,
                ).text(h),
    {
        let ghost old_s = self.structs@;
        let (i, off) = match reserve(&mut self.structs, &mut self.total_alloc, size, align, false) {
            Ok(p) => p,
            Err(e) => {
                return Err(e);
            },
        };
        proof {
            reveal(spec_reserve);
            let s = self.structs@;
            if i < old_s.len() {
                assert(s =~= old_s.update(i as int, s[i as int]));
                lemma_sum_update(old_s, i as int, s[i as int]);
                lemma_round_up(old_s[i as int].used as nat, align as nat);
            } else {
                assert(s =~= old_s.push(s[i as int]));
                lemma_sum_push(old_s, s[i as int]);
            }
            assert forall|j: int| 0 <= j < s.len() implies chunk_ok(#[trigger] s[j], false) by {
                if j != i {
                    assert(s[j] == old_s[j]);
                }
            }
            lemma_sum_first(s);
            lemma_sum_first(old_s);
        }
        Ok(ArenaSlot { chunk: i, offset: off })
    }

    /// The string `h` as stored.
    pub fn as_str(&self, h: ArenaStr) -> (r: &str)
        requires
            self.wf(),
            self.holds(h),
        ensures
            r@ == self.text(h),
    {
        assert(chunk_ok(self.cdatas@[h.chunk as int], true));
        let data = self.cdatas[h.chunk].data.as_slice();
        let bytes = vstd::slice::slice_subrange(data, h.start, h.start + h.len);
        assert(bytes@ == region(self.cdatas@, h));
        match str_from_utf8(bytes) {
            Some(s) => {
                proof {
                    crate::utf8_text::lemma_decode_roundtrip(bytes@);
                    crate::utf8_text::lemma_str_chars(s, decode_utf8(bytes@));
                }
                s
            },
            None => {
                assert(false);
                ""
            },
        }
    }

    /// Memory usage statistics: blocks taken, bytes taken, bytes used.
    pub fn stats(&self) -> (r: ArenaStats)
        requires
            self.wf(),
        ensures
            r.chunks == (if self.chunk_count() > u32::MAX {
                u32::MAX as nat
            } else {
                self.chunk_count()
            }),
            r.allocated_bytes == self.allocated(),
            r.used_bytes == self.used(),
    {
        proof {
            lemma_sum_used_bound(self.structs@, false);
            lemma_sum_used_bound(self.cdatas@, true);
            lemma_sum_first(self.structs@);
            lemma_sum_first(self.cdatas@);
        }
        let extra = self.structs.len() - 1;
        let cn = self.cdatas.len();
        let chunks: u32 = if extra as u64 > 0xffff_ffff || cn as u64 > 0xffff_ffff || (extra as u64)
            + (cn as u64) > 0xffff_ffff {
            0xffff_ffff
        } else {
            ((extra as u64) + (cn as u64)) as u32
        };
        let mut used: usize = 0;
        let mut i: usize = 0;
        while i < self.structs.len()
            invariant
                self.wf(),
                i <= self.structs@.len(),
                used == sum_used(self.structs@.take(i as int)),
                sum_used(self.structs@) + sum_used(self.cdatas@) <= self.total_alloc,
            decreases self.structs@.len() - i,
        {
            proof {
                lemma_sum_used_take(self.structs@, i as int);
                lemma_sum_prefix(self.structs@, i as int + 1);
            }
            used = used + self.structs[i].used;
            i = i + 1;
        }
        assert(self.structs@.take(i as int) =~= self.structs@);
        let mut j: usize = 0;
        while j < self.cdatas.len()
            invariant
                self.wf(),
                j <= self.cdatas@.len(),
                used == sum_used(self.structs@) + sum_used(self.cdatas@.take(j as int)),
                sum_used(self.structs@) + sum_used(self.cdatas@) <= self.total_alloc,
            decreases self.cdatas@.len() - j,
        {
            proof {
                lemma_sum_used_take(self.cdatas@, j as int);
                lemma_sum_prefix(self.cdatas@, j as int + 1);
            }
            used = used + self.cdatas[j].used;
            j = j + 1;
        }
        assert(self.cdatas@.take(j as int) =~= self.cdatas@);
        ArenaStats { chunks, allocated_bytes: self.total_alloc, used_bytes: used }
    }

    /// Marks every chunk as empty, keeping the memory for reuse. Strings
    /// stored before are no longer held.
    pub fn into_empty_arena(self) -> (r: Arena)
        requires
            self.wf(),
        ensures
            r.wf(),
            r.used() == 0,
            r.chunk_count() == self.chunk_count(),
            r.allocated() == self.allocated(),
            r.cdata_chunks().len() == self.cdata_chunks().len(),
            r.struct_chunks().len() == self.struct_chunks().len(),
            forall|i: int|
                0 <= i < r.cdata_chunks().len() ==> #[trigger] r.cdata_chunks()[i].size
                    == self.cdata_chunks()[i].size,
            forall|i: int|
                0 <= i < r.struct_chunks().len() ==> #[trigger] r.struct_chunks()[i].size
                    == self.struct_chunks()[i].size,
    {
        let mut a = self;
        let ghost s0 = a.structs@;
        let ghost c0 = a.cdatas@;
        let mut i: usize = 0;
        while i < a.structs.len()
            invariant
                i <= a.structs@.len(),
                a.total_alloc == self.total_alloc,
                a.head_alloc == self.head_alloc,
                a.structs@.len() == s0.len(),
                a.cdatas@ == c0,
                forall|j: int| 0 <= j < i ==> #[trigger] a.structs@[j] == emptied(s0, j),
                forall|j: int| i <= j < s0.len() ==> #[trigger] a.structs@[j] == s0[j],
            decreases s0.len() - i,
        {
            a.structs[i].used = 0;
            a.structs[i].last = 0;
            i = i + 1;
        }
        let mut k: usize = 0;
        while k < a.cdatas.len()
            invariant
                k <= a.cdatas@.len(),
                a.total_alloc == self.total_alloc,
                a.head_alloc == self.head_alloc,
                a.cdatas@.len() == c0.len(),
                a.structs@.len() == s0.len(),
                forall|j: int| 0 <= j < s0.len() ==> #[trigger] a.structs@[j] == emptied(s0, j),
                forall|j: int| 0 <= j < k ==> is_cleared(#[trigger] a.cdatas@[j], c0[j]),
                forall|j: int| k <= j < c0.len() ==> #[trigger] a.cdatas@[j] == c0[j],
            decreases c0.len() - k,
        {
            let c = Chunk {
                size: a.cdatas[k].size,
                used: 0,
                last: 0,
                alloc: a.cdatas[k].alloc,
                data: Vec::new(),
            };
            let ghost prev = a.cdatas@;
            a.cdatas.set(k, c);
            assert(a.cdatas@[k as int].data@.len() == 0);
            assert(a.cdatas@[k as int].size == c0[k as int].size);
            assert(forall|j: int| 0 <= j < a.cdatas@.len() && j != k ==> a.cdatas@[j] == prev[j]);
            assert forall|j: int| 0 <= j < k + 1 implies is_cleared(#[trigger] a.cdatas@[j], c0[j]) by {
                if j < k {
                    assert(a.cdatas@[j] == prev[j]);
                }
            }
            k = k + 1;
        }
        proof {
            assert forall|j: int| 0 <= j < a.cdatas@.len() implies #[trigger] a.cdatas@[j].used == 0 by {
                assert(is_cleared(a.cdatas@[j], c0[j]));
            }
            assert forall|j: int| 0 <= j < a.cdatas@.len() implies #[trigger] a.cdatas@[j].alloc == c0[j].alloc by {
                assert(is_cleared(a.cdatas@[j], c0[j]));
            }
            assert forall|j: int| 0 <= j < a.structs@.len() implies #[trigger] a.structs@[j].used == 0 by {
                assert(a.structs@[j] == emptied(s0, j));
            }
            assert forall|j: int| 0 <= j < a.structs@.len() implies #[trigger] a.structs@[j].alloc == s0[j].alloc by {
                assert(a.structs@[j] == emptied(s0, j));
            }
            assert forall|j: int| 0 <= j < a.structs@.len() implies chunk_ok(#[trigger] a.structs@[j], false) by {
                assert(a.structs@[j] == emptied(s0, j));
                assert(chunk_ok(s0[j], false));
            }
            assert forall|j: int| 0 <= j < a.cdatas@.len() implies chunk_ok(#[trigger] a.cdatas@[j], true) by {
                assert(is_cleared(a.cdatas@[j], c0[j]));
                assert(chunk_ok(c0[j], true));
            }
            lemma_sum_zero_used(a.structs@);
            lemma_sum_zero_used(a.cdatas@);
            lemma_sum_same_alloc(a.structs@, s0);
            lemma_sum_same_alloc(a.cdatas@, c0);
        }
        a
    }
}

pub proof fn lemma_sum_prefix(s: Seq<Chunk>, k: int)
    requires
        0 <= k <= s.len(),
    ensures
        sum_used(s.take(k)) <= sum_used(s),
    decreases s.len() - k,
{
    if k < s.len() {
        lemma_sum_prefix(s, k + 1);
        lemma_sum_used_take(s, k);
    } else {
        assert(s.take(k) =~= s);
    }
}

pub proof fn lemma_sum_zero_used(s: Seq<Chunk>)
    requires
        forall|j: int| 0 <= j < s.len() ==> #[trigger] s[j].used == 0,
    ensures
        sum_used(s) == 0,
    decreases s.len(),
{
    if s.len() > 0 {
        lemma_sum_zero_used(s.drop_last());
    }
}

pub proof fn lemma_sum_same_alloc(s: Seq<Chunk>, t: Seq<Chunk>)
    requires
        s.len() == t.len(),
        forall|j: int| 0 <= j < s.len() ==> #[trigger] s[j].alloc == t[j].alloc,
    ensures
        sum_alloc(s) == sum_alloc(t),
    decreases s.len(),
{
    if s.len() > 0 {
        lemma_sum_same_alloc(s.drop_last(), t.drop_last());
    }
}

} // verus!
