//! An inventory: every chunk list of the database stored contiguously,
//! behind a table of cumulative end offsets for random access.

use vstd::prelude::*;
use crate::big_endian::{
    be32, be32_concat, be32_val, read_u32_be, write_u32_be, lemma_be32_concat_parse,
    lemma_parse_u32s_index, lemma_parse_u32s_len, lemma_be32_val,
};
use crate::chunk_list::{chunk_list_bytes, ChunkList, ChunkListBuilder, ChunkListRef};

verus! {

/// All the byte strings, back to back.
pub open spec fn concat_all(lists: Seq<Seq<u8>>) -> Seq<u8>
    decreases lists.len(),
{
    if lists.len() == 0 {
        Seq::empty()
    } else {
        lists[0] + concat_all(lists.skip(1))
    }
}

/// Total byte length of the first `k` byte strings.
pub open spec fn prefix_len(lists: Seq<Seq<u8>>, k: int) -> int
    decreases k,
{
    if k <= 0 {
        0
    } else {
        prefix_len(lists, k - 1) + lists[k - 1].len()
    }
}

/// The offset table: entry `i` is the cumulative end of list `i`.
pub open spec fn inventory_offsets(lists: Seq<Seq<u8>>) -> Seq<u32> {
    Seq::new(lists.len(), |i: int| prefix_len(lists, i + 1) as u32)
}

/// The serialised inventory: count, offset table, then the lists.
pub open spec fn inventory_bytes(lists: Seq<Seq<u8>>) -> Seq<u8> {
    be32(lists.len() as u32) + be32_concat(inventory_offsets(lists)) + concat_all(lists)
}

/// Prefix lengths start at zero and never descend.
pub proof fn lemma_prefix_len_nonneg(lists: Seq<Seq<u8>>, k: int)
    ensures
        prefix_len(lists, k) >= 0,
    decreases k,
{
    if k > 0 {
        lemma_prefix_len_nonneg(lists, k - 1);
    }
}

/// Prefix lengths never descend and never pass the total.
pub proof fn lemma_prefix_len_monotone(lists: Seq<Seq<u8>>, a: int, b: int)
    requires
        0 <= a <= b,
    ensures
        0 <= prefix_len(lists, a) <= prefix_len(lists, b),
    decreases b - a,
{
    lemma_prefix_len_nonneg(lists, a);
    if a < b {
        lemma_prefix_len_monotone(lists, a, b - 1);
        assert(prefix_len(lists, b) == prefix_len(lists, b - 1) + lists[b - 1].len());
    }
}

proof fn lemma_prefix_len_shift(lists: Seq<Seq<u8>>, k: int)
    requires
        1 <= k <= lists.len(),
        lists.len() > 0,
    ensures
        prefix_len(lists, k) == lists[0].len() + prefix_len(lists.skip(1), k - 1),
    decreases k,
{
    if k == 1 {
        assert(prefix_len(lists, 1) == prefix_len(lists, 0) + lists[0].len());
        assert(prefix_len(lists.skip(1), 0) == 0);
    } else {
        lemma_prefix_len_shift(lists, k - 1);
        assert(lists.skip(1)[k - 2] == lists[k - 1]);
        assert(prefix_len(lists, k) == prefix_len(lists, k - 1) + lists[k - 1].len());
        assert(prefix_len(lists.skip(1), k - 1) == prefix_len(lists.skip(1), k - 2) + lists.skip(
            1,
        )[k - 2].len());
    }
}

/// The concatenation is as long as the prefix lengths say, and list `i`
/// sits exactly between its neighbouring cumulative offsets.
pub proof fn lemma_concat_all_index(lists: Seq<Seq<u8>>, i: int)
    requires
        0 <= i < lists.len(),
    ensures
        concat_all(lists).len() == prefix_len(lists, lists.len() as int),
        concat_all(lists).subrange(prefix_len(lists, i), prefix_len(lists, i + 1)) == lists[i],
    decreases i,
{
    lemma_concat_all_len(lists);
    if i == 0 {
        assert(concat_all(lists).subrange(0, lists[0].len() as int) =~= lists[0]);
    } else {
        let tail = lists.skip(1);
        lemma_concat_all_index(tail, i - 1);
        lemma_concat_all_len(tail);
        lemma_prefix_len_shift(lists, i);
        lemma_prefix_len_shift(lists, i + 1);
        lemma_prefix_len_monotone(tail, 0, i - 1);
        lemma_prefix_len_monotone(tail, i, tail.len() as int);
        assert(tail[i - 1] == lists[i]);
        assert(concat_all(lists).subrange(prefix_len(lists, i), prefix_len(lists, i + 1))
            =~= concat_all(tail).subrange(prefix_len(tail, i - 1), prefix_len(tail, i)));
    }
}

/// The concatenation's length is the total of the list lengths.
pub proof fn lemma_concat_all_len(lists: Seq<Seq<u8>>)
    ensures
        concat_all(lists).len() == prefix_len(lists, lists.len() as int),
    decreases lists.len(),
{
    if lists.len() > 0 {
        lemma_concat_all_len(lists.skip(1));
        let n = lists.len() as int;
        assert(prefix_len(lists, n) == lists[0].len() + prefix_len(lists.skip(1), n - 1)) by {
            lemma_prefix_len_shift(lists, n);
        }
    }
}

proof fn lemma_concat_all_push(lists: Seq<Seq<u8>>, l: Seq<u8>)
    ensures
        concat_all(lists.push(l)) == concat_all(lists) + l,
    decreases lists.len(),
{
    let p = lists.push(l);
    if lists.len() == 0 {
        assert(p[0] == l);
        assert(p.skip(1) =~= Seq::<Seq<u8>>::empty());
        reveal_with_fuel(concat_all, 3);
        assert(concat_all(p) =~= concat_all(lists) + l);
    } else {
        assert(p[0] == lists[0]);
        assert(p.skip(1) =~= lists.skip(1).push(l));
        lemma_concat_all_push(lists.skip(1), l);
        assert(concat_all(p) == lists[0] + (concat_all(lists.skip(1)) + l));
        assert(lists[0] + (concat_all(lists.skip(1)) + l) =~= (lists[0] + concat_all(
            lists.skip(1),
        )) + l);
    }
}

/// Builds the inventory: a growing vector of chunk-list builders.
pub struct ChunkInventoryBuilder {
    builders: Vec<ChunkListBuilder>,
}

impl ChunkInventoryBuilder {
    /// The chunk-list builders, in inventory order.
    pub closed spec fn lists(&self) -> Seq<ChunkListBuilder> {
        self.builders@
    }

    pub open spec fn wf(&self) -> bool {
        forall|i: int| 0 <= i < self.lists().len() ==> (#[trigger] self.lists()[i]).wf()
    }

    /// The chunk-list builder at `index`, for adding more chunk ids.
    pub fn get(&mut self, index: usize) -> (r: &mut ChunkListBuilder)
        requires
            index < old(self).lists().len(),
        ensures
            *r == old(self).lists()[index as int],
            final(self).lists() == old(self).lists().update(index as int, *final(r)),
    {
        &mut self.builders[index]
    }

    /// Starts a new, empty chunk list and returns its inventory index.
    pub fn next(&mut self) -> (r: usize)
        ensures
            r == old(self).lists().len(),
            final(self).lists() == old(self).lists().push(final(self).lists()[r as int]),
            final(self).lists()[r as int].wf(),
            final(self).lists()[r as int].added() == Seq::<u64>::empty(),
    {
        let i = self.builders.len();
        self.builders.push(ChunkList::builder());
        i
    }

    /// Finishes every list into its byte form.
    pub fn build(self) -> (r: ChunkInventory)
        requires
            self.wf(),
        ensures
            r.lists_of().len() == self.lists().len(),
            forall|i: int|
                0 <= i < self.lists().len() ==> r.lists_of()[i] == chunk_list_bytes(
                    (#[trigger] self.lists()[i]).ids(),
                ),
    {
        let ghost lists0 = self.lists();
        let mut builders = self.builders;
        let ghost orig = builders@;
        let mut chunks: Vec<ChunkList> = Vec::new();
        assert(orig == lists0);
        assert(forall|i: int| 0 <= i < orig.len() ==> (#[trigger] orig[i]).wf());
        assert(builders@ =~= orig.skip(0));
        while builders.len() > 0
            invariant
                builders@ =~= orig.skip(chunks@.len() as int),
                chunks@.len() <= orig.len(),
                forall|i: int| 0 <= i < orig.len() ==> (#[trigger] orig[i]).wf(),
                forall|i: int|
                    0 <= i < chunks@.len() ==> (#[trigger] chunks@[i]).bytes_of()
                        == chunk_list_bytes(orig[i].ids()),
            decreases builders@.len(),
        {
            let b = builders.remove(0);
            assert(b == orig[chunks@.len() as int]);
            chunks.push(b.build());
            assert(builders@ =~= orig.skip(chunks@.len() as int));
        }
        ChunkInventory { chunks }
    }
}

/// The finished inventory: every chunk list in its byte form.
pub struct ChunkInventory {
    chunks: Vec<ChunkList>,
}

impl ChunkInventory {
    /// The byte strings of the lists, in order.
    pub closed spec fn lists_of(&self) -> Seq<Seq<u8>> {
        Seq::new(self.chunks@.len() as nat, |i: int| self.chunks@[i].bytes_of())
    }

    /// A fresh, empty inventory builder.
    pub fn builder() -> (r: ChunkInventoryBuilder)
        ensures
            r.wf(),
            r.lists().len() == 0,
    {
        ChunkInventoryBuilder { builders: Vec::new() }
    }

    /// Appends the serialised inventory to `w`.
    pub fn write(&self, w: &mut Vec<u8>)
        requires
            self.lists_of().len() <= u32::MAX,
            prefix_len(self.lists_of(), self.lists_of().len() as int) <= u32::MAX,
        ensures
            final(w)@ == old(w)@ + inventory_bytes(self.lists_of()),
    {
        let ghost lists = self.lists_of();
        let ghost orig = w@;
        let count = self.chunks.len();
        write_u32_be(w, count as u32);
        let mut end: u32 = 0;
        let mut k: usize = 0;
        while k < count
            invariant
                k <= count,
                count == self.chunks@.len(),
                lists == self.lists_of(),
                lists.len() <= u32::MAX,
                prefix_len(lists, lists.len() as int) <= u32::MAX,
                end == prefix_len(lists, k as int),
                w@ == orig + be32(count as u32) + be32_concat(
                    inventory_offsets(lists).take(k as int),
                ),
            decreases count - k,
        {
            proof {
                lemma_prefix_len_monotone(lists, k as int + 1, lists.len() as int);
                lemma_prefix_len_monotone(lists, 0, k as int + 1);
            }
            end = end + self.chunks[k].len() as u32;
            write_u32_be(w, end);
            proof {
                crate::big_endian::lemma_be32_concat_push(
                    inventory_offsets(lists).take(k as int),
                    end,
                );
                assert(inventory_offsets(lists).take(k as int).push(end)
                    =~= inventory_offsets(lists).take(k as int + 1));
                assert(w@ =~= orig + be32(count as u32) + be32_concat(
                    inventory_offsets(lists).take(k as int + 1),
                ));
            }
            k = k + 1;
        }
        assert(inventory_offsets(lists).take(count as int) =~= inventory_offsets(lists));
        let mut k: usize = 0;
        while k < count
            invariant
                k <= count,
                count == self.chunks@.len(),
                lists == self.lists_of(),
                w@ == orig + be32(count as u32) + be32_concat(inventory_offsets(lists))
                    + concat_all(lists.take(k as int)),
            decreases count - k,
        {
            self.chunks[k].write(w);
            proof {
                lemma_concat_all_push(lists.take(k as int), lists[k as int]);
                assert(lists.take(k as int).push(lists[k as int]) =~= lists.take(k as int + 1));
                assert(w@ =~= orig + be32(count as u32) + be32_concat(inventory_offsets(lists))
                    + concat_all(lists.take(k as int + 1)));
            }
            k = k + 1;
        }
        assert(lists.take(count as int) =~= lists);
        assert(w@ =~= orig + inventory_bytes(lists));
    }
}

/// What must hold of the front of `bytes` for the inventory parse to make
/// sense of it: a count of at least one, a full offset table, and a lists
/// region at least as long as the last offset.
pub open spec fn inventory_header_wf(bytes: Seq<u8>) -> bool {
    &&& bytes.len() >= 4
    &&& be32_val(bytes, 0) >= 1
    &&& 4 + 4 * be32_val(bytes, 0) <= bytes.len()
    &&& 4 + 4 * be32_val(bytes, 0) + be32_val(bytes, 4 + 4 * (be32_val(bytes, 0) - 1))
        <= bytes.len()
}

/// A borrowed, parsed inventory.
pub struct ChunkInventoryRef<'a> {
    offsets: &'a [u8],
    lists: &'a [u8],
}

impl<'a> ChunkInventoryRef<'a> {
    /// The offset-table bytes.
    pub closed spec fn offsets_bytes(&self) -> Seq<u8> {
        self.offsets@
    }

    /// The bytes of all the lists, back to back.
    pub closed spec fn lists_bytes(&self) -> Seq<u8> {
        self.lists@
    }

    /// Number of lists.
    pub open spec fn count(&self) -> int {
        self.offsets_bytes().len() as int / 4
    }

    /// Cumulative end offset of list `i`; the start of list 0 is 0.
    pub open spec fn offset_at(&self, i: int) -> int {
        if i < 0 {
            0
        } else {
            be32_val(self.offsets_bytes(), 4 * i)
        }
    }

    /// The bytes of list `i`.
    pub open spec fn list_at(&self, i: int) -> Seq<u8> {
        self.lists_bytes().subrange(self.offset_at(i - 1), self.offset_at(i))
    }

    pub open spec fn wf(&self) -> bool {
        &&& self.offsets_bytes().len() % 4 == 0
        &&& forall|i: int|
            0 <= i < self.count() - 1 ==> #[trigger] self.offset_at(i) <= self.offset_at(i + 1)
        &&& self.count() > 0 ==> self.offset_at(self.count() - 1) == self.lists_bytes().len()
        &&& self.count() == 0 ==> self.lists_bytes().len() == 0
    }

    /// Monotonicity of the offsets, stretched over any two indices.
    pub proof fn lemma_offsets_ordered(&self, a: int, b: int)
        requires
            self.wf(),
            0 <= a <= b < self.count(),
        ensures
            self.offset_at(a) <= self.offset_at(b),
        decreases b - a,
    {
        if a < b {
            self.lemma_offsets_ordered(a + 1, b);
            assert(self.offset_at(a) <= self.offset_at(a + 1));
        }
    }

    /// Every offset lies within the lists region.
    pub proof fn lemma_offset_in_range(&self, i: int)
        requires
            self.wf(),
            -1 <= i < self.count(),
        ensures
            0 <= self.offset_at(i) <= self.lists_bytes().len(),
    {
        if i >= 0 {
            crate::big_endian::lemma_be32_val_bounds(self.offsets_bytes(), 4 * i);
            self.lemma_offsets_ordered(i, self.count() - 1);
        }
    }

    /// Parses the inventory from the front of `bytes`; returns the view and
    /// how many bytes it spans.
    pub fn from(bytes: &'a [u8]) -> (r: (Self, usize))
        requires
            inventory_header_wf(bytes@),
        ensures
            ({
                let (inv, consumed) = r;
                let n = be32_val(bytes@, 0);
                let starts_end = 4 + 4 * n;
                let lists_end = starts_end + be32_val(bytes@, 4 + 4 * (n - 1));
                &&& inv.offsets_bytes() == bytes@.subrange(4, starts_end)
                &&& inv.lists_bytes() == bytes@.subrange(starts_end, lists_end)
                &&& inv.count() == n
                &&& consumed == lists_end
            }),
    {
        let blen: usize = bytes.len();
        let n = read_u32_be(bytes, 0) as usize;
        assert(4 + 4 * (n as int) <= blen);
        let starts_end: usize = 4 + 4 * n;
        let offsets = crate::chunk_ends::slice_range(bytes, 4, starts_end);
        assert(4 * ((n as int) - 1) + 4 <= offsets@.len());
        let last = read_u32_be(offsets, (n - 1) * 4);
        proof {
            assert(be32_val(offsets@, 4 * ((n as int) - 1)) == be32_val(
                bytes@,
                4 + 4 * ((n as int) - 1),
            ));
            assert(starts_end + (last as int) <= blen);
            lemma_parse_u32s_len(offsets@);
        }
        let lists_end = starts_end + last as usize;
        let lists = crate::chunk_ends::slice_range(bytes, starts_end, lists_end);
        (ChunkInventoryRef { offsets, lists }, lists_end)
    }

    /// Number of lists.
    pub fn len(&self) -> (r: usize)
        ensures
            r == self.count(),
    {
        self.offsets.len() / 4
    }

    /// Number of bytes the inventory occupies.
    pub fn size_of(&self) -> (r: usize)
        requires
            self.offsets_bytes().len() + self.lists_bytes().len() <= usize::MAX,
        ensures
            r == self.offsets_bytes().len() + self.lists_bytes().len(),
    {
        self.offsets.len() + self.lists.len()
    }

    /// The chunk list at `index`.
    pub fn get(&self, index: usize) -> (r: ChunkListRef<'a>)
        requires
            self.wf(),
            (index as int) < self.count(),
        ensures
            r.bytes_of() == self.list_at(index as int),
    {
        let olen: usize = self.offsets.len();
        proof {
            assert(4 * (olen as int / 4) <= olen as int) by (nonlinear_arith);
            assert(4 * (index as int) + 4 <= olen as int) by (nonlinear_arith)
                requires
                    (index as int) < olen as int / 4,
            ;
            self.lemma_offset_in_range(index as int - 1);
            self.lemma_offset_in_range(index as int);
            if index > 0 {
                self.lemma_offsets_ordered(index as int - 1, index as int);
            }
        }
        let start = if index == 0 {
            0
        } else {
            read_u32_be(self.offsets, (index - 1) * 4) as usize
        };
        let end = read_u32_be(self.offsets, index * 4) as usize;
        ChunkListRef::from(crate::chunk_ends::slice_range(self.lists, start, end))
    }
}

/// A serialised inventory parses back: the count, the per-list bytes and
/// the consumed length all match what was written.
pub proof fn lemma_inventory_round_trip(lists: Seq<Seq<u8>>, rest: Seq<u8>)
    requires
        1 <= lists.len() <= u32::MAX,
        prefix_len(lists, lists.len() as int) <= u32::MAX,
    ensures
        ({
            let s = inventory_bytes(lists) + rest;
            let n = be32_val(s, 0);
            let starts_end = 4 + 4 * n;
            let lists_end = starts_end + be32_val(s, 4 + 4 * (n - 1));
            &&& inventory_header_wf(s)
            &&& n == lists.len()
            &&& lists_end == inventory_bytes(lists).len()
            &&& s.subrange(4, starts_end) == be32_concat(inventory_offsets(lists))
            &&& s.subrange(starts_end, lists_end) == concat_all(lists)
        }),
{
    let s = inventory_bytes(lists) + rest;
    let offs = inventory_offsets(lists);
    let n = lists.len() as int;
    assert(s.subrange(0, 4) =~= be32(lists.len() as u32));
    lemma_be32_val(lists.len() as u32, s, 0);
    lemma_be32_concat_parse(offs);
    assert(s.subrange(4, 4 + 4 * n) =~= be32_concat(offs));
    lemma_concat_all_len(lists);
    let i = n - 1;
    lemma_prefix_len_monotone(lists, 0, i + 1);
    lemma_be32_concat_index(offs, i);
    assert(s.subrange(4 + 4 * i, 4 + 4 * i + 4) =~= be32_concat(offs).subrange(
        4 * i,
        4 * i + 4,
    ));
    lemma_be32_val(offs[i], s, 4 + 4 * i);
    assert(be32_val(s, 4 + 4 * (n - 1)) == prefix_len(lists, n));
    assert(s.subrange(4 + 4 * n, 4 + 4 * n + prefix_len(lists, n)) =~= concat_all(lists));
    lemma_prefix_len_monotone(lists, 0, n);
}

/// The `i`-th four-byte group of a concatenation of four-byte groups.
proof fn lemma_be32_concat_index(vs: Seq<u32>, i: int)
    requires
        0 <= i < vs.len(),
    ensures
        be32_concat(vs).len() == 4 * vs.len(),
        be32_concat(vs).subrange(4 * i, 4 * i + 4) == be32(vs[i]),
    decreases i,
{
    lemma_be32_concat_parse(vs);
    if i == 0 {
        assert(be32_concat(vs).subrange(0, 4) =~= be32(vs[0]));
    } else {
        lemma_be32_concat_index(vs.skip(1), i - 1);
        assert(be32_concat(vs).subrange(4 * i, 4 * i + 4) =~= be32_concat(vs.skip(1)).subrange(
            4 * (i - 1),
            4 * (i - 1) + 4,
        ));
    }
}

} // verus!
