//! A posting list: the ascending set of chunk ids that contain one trigram,
//! stored as delta-then-variable-byte encoded bytes.

use vstd::prelude::*;
use crate::codec::{DecodeError, Write as WriteSink};
use crate::int_always_ascending::{
    ascending_ids, ascending_valid, delta_encode, last_of, nondecreasing, unique_consecutive,
    lemma_unique_consecutive_ascending, lemma_ascending_round_trip,
};
use crate::int_variable::vint_stream;

verus! {

/// The bytes a finished chunk list holds for the ids `ids`.
pub open spec fn chunk_list_bytes(ids: Seq<u64>) -> Seq<u8> {
    vint_stream(delta_encode(ids))
}

/// A list of chunks which contain a trigram, in finished byte form.
#[derive(Debug, PartialEq, Eq)]
pub struct ChunkList {
    bytes: Vec<u8>,
}

impl ChunkList {
    /// The bytes of the list.
    pub closed spec fn bytes_of(&self) -> Seq<u8> {
        self.bytes@
    }

    /// A fresh builder for a list.
    pub fn builder() -> (r: ChunkListBuilder)
        ensures
            r.wf(),
            r.added() == Seq::<u64>::empty(),
    {
        ChunkListBuilder {
            w: crate::int_always_ascending::consume_dupes(crate::int_variable::write()),
        }
    }

    /// Appends the list's bytes to `w`.
    pub fn write(&self, w: &mut Vec<u8>)
        ensures
            final(w)@ == old(w)@ + self.bytes_of(),
    {
        let ghost orig = w@;
        let mut k: usize = 0;
        while k < self.bytes.len()
            invariant
                k <= self.bytes@.len(),
                w@ == orig + self.bytes@.take(k as int),
            decreases self.bytes@.len() - k,
        {
            w.push(self.bytes[k]);
            assert(w@ =~= orig + self.bytes@.take(k as int + 1));
            k = k + 1;
        }
        assert(self.bytes@.take(self.bytes@.len() as int) =~= self.bytes@);
    }

    /// Byte length of the list.
    pub fn len(&self) -> (r: usize)
        ensures
            r == self.bytes_of().len(),
    {
        self.bytes.len()
    }

    /// A borrowed view of the list.
    pub fn as_ref(&self) -> (r: ChunkListRef<'_>)
        ensures
            r.bytes_of() == self.bytes_of(),
    {
        ChunkListRef { bytes: self.bytes.as_slice() }
    }
}

/// Builds a chunk list. Ids must never descend; a repeat of the previous id
/// is dropped.
pub struct ChunkListBuilder {
    w: crate::int_always_ascending::ConsumeDupes<crate::int_variable::Write>,
}

impl ChunkListBuilder {
    /// Every id handed to `add`, duplicates included.
    pub closed spec fn added(&self) -> Seq<u64> {
        self.w.written()
    }

    /// The distinct ids of the list under construction.
    pub open spec fn ids(&self) -> Seq<u64> {
        unique_consecutive(self.added())
    }

    pub closed spec fn wf(&self) -> bool {
        self.w.wf()
    }

    /// Adds `i`: the id of one more chunk that holds the trigram.
    pub fn add(&mut self, i: u64)
        requires
            old(self).wf(),
            match last_of(old(self).added()) {
                None => true,
                Some(p) => i >= p,
            },
        ensures
            final(self).wf(),
            final(self).added() == old(self).added().push(i),
    {
        proof {
            crate::int_always_ascending::lemma_unique_consecutive_last(old(self).added());
        }
        self.w.write(i);
    }

    /// Finishes the list into its byte form.
    pub fn build(self) -> (r: ChunkList)
        requires
            self.wf(),
        ensures
            r.bytes_of() == chunk_list_bytes(self.ids()),
    {
        ChunkList { bytes: self.w.finish() }
    }
}

/// A chunk list borrowed from a byte buffer.
#[derive(Debug, PartialEq, Eq)]
pub struct ChunkListRef<'a> {
    bytes: &'a [u8],
}

impl<'a> ChunkListRef<'a> {
    /// The bytes of the list.
    pub closed spec fn bytes_of(&self) -> Seq<u8> {
        self.bytes@
    }

    /// Whether the bytes decode to completion without error or wrap-around.
    pub open spec fn valid(&self) -> bool {
        ascending_valid(self.bytes_of(), None)
    }

    /// The ids the list decodes to.
    pub open spec fn ids(&self) -> Seq<u64> {
        ascending_ids(self.bytes_of(), None)
    }

    /// Wraps a byte buffer as a chunk list.
    pub fn from(bytes: &'a [u8]) -> (r: Self)
        ensures
            r.bytes_of() == bytes@,
    {
        ChunkListRef { bytes }
    }

    /// A decoder over the ids of the list.
    pub fn into_iter(self) -> (r: crate::int_always_ascending::Iter<'a>)
        ensures
            r.wf(),
            r.remaining() == self.bytes_of(),
            r.prev_of() == None::<u64>,
    {
        crate::int_always_ascending::iter(crate::int_variable::iter(self.bytes))
    }

    /// Byte length of the list.
    pub fn byte_count(&self) -> (r: usize)
        ensures
            r == self.bytes_of().len(),
    {
        self.bytes.len()
    }
}

/// A built list holds exactly the distinct ids that were added, in order:
/// its bytes decode back to `unique_consecutive` of the added ids.
pub proof fn lemma_chunk_list_round_trip(added: Seq<u64>)
    requires
        nondecreasing(added),
    ensures
        ascending_valid(chunk_list_bytes(unique_consecutive(added)), None),
        ascending_ids(chunk_list_bytes(unique_consecutive(added)), None) == unique_consecutive(
            added,
        ),
{
    lemma_unique_consecutive_ascending(added);
    lemma_ascending_round_trip(unique_consecutive(added));
}

} // verus!
