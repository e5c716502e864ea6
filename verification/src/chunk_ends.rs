//! Per-chunk cumulative counters: one `u32` per chunk, stored as a
//! length-prefixed big-endian array. Two of these sit in the database, one
//! for byte offsets and one for line counts.

use vstd::prelude::*;
use crate::big_endian::{
    be32, be32_concat, be32_val, parse_u32s, read_u32_be, write_u32_be, lemma_parse_u32s_index,
    lemma_parse_u32s_len, lemma_be32_concat_parse, lemma_be32_concat_push, lemma_be32_val,
};
use crate::database::ReadError;

verus! {

/// The serialised form: the count, then each entry, all big-endian `u32`s.
pub open spec fn chunk_ends_bytes(ends: Seq<u32>) -> Seq<u8> {
    be32(ends.len() as u32) + be32_concat(ends)
}

/// Collects one `u32` per chunk.
pub struct ChunkEndsBuilder {
    ends: Vec<u32>,
}

impl ChunkEndsBuilder {
    /// The entries so far.
    pub closed spec fn ends_of(&self) -> Seq<u32> {
        self.ends@
    }

    pub fn new() -> (r: Self)
        ensures
            r.ends_of() == Seq::<u32>::empty(),
    {
        ChunkEndsBuilder { ends: Vec::new() }
    }

    pub fn add(&mut self, end: u32)
        ensures
            final(self).ends_of() == old(self).ends_of().push(end),
    {
        self.ends.push(end);
    }

    /// Appends the serialised array to `w`.
    pub fn write(&self, w: &mut Vec<u8>)
        requires
            self.ends_of().len() <= u32::MAX,
        ensures
            final(w)@ == old(w)@ + chunk_ends_bytes(self.ends_of()),
    {
        let ghost orig = w@;
        write_u32_be(w, self.ends.len() as u32);
        let mut k: usize = 0;
        while k < self.ends.len()
            invariant
                k <= self.ends@.len(),
                w@ == orig + be32(self.ends@.len() as u32) + be32_concat(self.ends@.take(
                    k as int,
                )),
            decreases self.ends@.len() - k,
        {
            write_u32_be(w, self.ends[k]);
            proof {
                lemma_be32_concat_push(self.ends@.take(k as int), self.ends@[k as int]);
                assert(self.ends@.take(k as int).push(self.ends@[k as int]) =~= self.ends@.take(
                    k as int + 1,
                ));
            }
            k = k + 1;
        }
        assert(self.ends@.take(self.ends@.len() as int) =~= self.ends@);
    }
}

/// A borrowed, parsed chunk-ends array.
pub struct ChunkEndsRef<'a> {
    ends: &'a [u8],
}

impl<'a> ChunkEndsRef<'a> {
    /// The entry bytes (the count prefix already stripped).
    pub closed spec fn ends_bytes(&self) -> Seq<u8> {
        self.ends@
    }

    /// The entries.
    pub open spec fn ends_of(&self) -> Seq<u32> {
        parse_u32s(self.ends_bytes())
    }

    pub open spec fn wf(&self) -> bool {
        self.ends_bytes().len() % 4 == 0
    }

    /// Parses a length-prefixed array from the front of `bytes`; returns the
    /// view and how many bytes it spans. Fails when `bytes` is too short for
    /// the count or for the entries it promises.
    pub fn from(bytes: &'a [u8]) -> (r: Result<(Self, usize), ReadError<'a>>)
        ensures
            match r {
                Ok((ends, consumed)) => {
                    &&& bytes@.len() >= 4
                    &&& consumed == 4 + 4 * be32_val(bytes@, 0)
                    &&& consumed <= bytes@.len()
                    &&& ends.wf()
                    &&& ends.ends_bytes() == bytes@.subrange(4, consumed as int)
                    &&& ends.ends_of().len() == be32_val(bytes@, 0)
                },
                Err(e) => {
                    &&& e == (ReadError::InvalidChunkEnds(bytes@.len() as usize))
                    &&& (bytes@.len() < 4 || bytes@.len() < 4 + 4 * be32_val(bytes@, 0))
                },
            },
    {
        if bytes.len() < 4 {
            return Err(ReadError::InvalidChunkEnds(bytes.len()));
        }
        let len = read_u32_be(bytes, 0);
        let end64: u64 = 4 + 4 * (len as u64);
        if (bytes.len() as u64) < end64 {
            return Err(ReadError::InvalidChunkEnds(bytes.len()));
        }
        let end = end64 as usize;
        let r = ChunkEndsRef { ends: slice_range(bytes, 4, end) };
        proof {
            lemma_parse_u32s_len(r.ends_bytes());
        }
        Ok((r, end))
    }

    /// The entry for chunk `chunk`.
    pub fn get(&self, chunk: u32) -> (r: u32)
        requires
            self.wf(),
            (chunk as int) < self.ends_of().len(),
        ensures
            r == self.ends_of()[chunk as int],
    {
        proof {
            lemma_parse_u32s_len(self.ends_bytes());
            lemma_parse_u32s_index(self.ends_bytes(), chunk as int);
            assert(4 * (self.ends_bytes().len() as int / 4) <= self.ends_bytes().len() as int)
                by (nonlinear_arith);
            assert(4 * (chunk as int) + 4 <= self.ends_bytes().len()) by (nonlinear_arith)
                requires
                    (chunk as int) < self.ends_bytes().len() as int / 4,
            ;
        }
        let n: usize = self.ends.len();
        assert(4 * (chunk as int) + 4 <= n);
        let start = (chunk as usize) * 4;
        read_u32_be(self.ends, start)
    }

    /// Number of entries.
    pub fn len(&self) -> (r: usize)
        ensures
            r == self.ends_of().len(),
    {
        proof {
            lemma_parse_u32s_len(self.ends_bytes());
        }
        self.ends.len() / 4
    }

    /// Number of bytes the entries occupy.
    pub fn size_of(&self) -> (r: usize)
        ensures
            r == self.ends_bytes().len(),
    {
        self.ends.len()
    }
}

/// Copies out the subslice `[from, to)`.
pub fn slice_range<'a>(bytes: &'a [u8], from: usize, to: usize) -> (r: &'a [u8])
    requires
        from <= to <= bytes@.len(),
    ensures
        r@ == bytes@.subrange(from as int, to as int),
{
    &bytes[from..to]
}

/// A serialised array parses back to its entries, and the parse consumes
/// exactly the serialised bytes.
pub proof fn lemma_chunk_ends_round_trip(ends: Seq<u32>, rest: Seq<u8>)
    requires
        ends.len() <= u32::MAX,
    ensures
        ({
            let s = chunk_ends_bytes(ends) + rest;
            &&& s.len() >= 4
            &&& be32_val(s, 0) == ends.len()
            &&& 4 + 4 * ends.len() <= s.len()
            &&& s.subrange(4, 4 + 4 * ends.len() as int) == be32_concat(ends)
            &&& parse_u32s(be32_concat(ends)) == ends
        }),
{
    let s = chunk_ends_bytes(ends) + rest;
    lemma_be32_concat_parse(ends);
    assert(s.subrange(0, 4) =~= be32(ends.len() as u32));
    lemma_be32_val(ends.len() as u32, s, 0);
    assert(s.subrange(4, 4 + 4 * ends.len() as int) =~= be32_concat(ends));
}

} // verus!
