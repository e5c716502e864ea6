//! The leaf layer of the trigram trie: a sorted byte-keyed table whose
//! values are inventory indices, serialised as all keys then all values.

use vstd::prelude::*;
use crate::big_endian::{
    be32_concat, be32_val, read_u32_be, write_u32_be, lemma_be32_concat_push,
    lemma_be32_concat_parse, lemma_be32_val,
};
use crate::chunk_inventory::ChunkInventoryBuilder;
use crate::chunk_list::ChunkListBuilder;
use crate::inner_layer::NextLayerBuilder;

verus! {

/// The keys below `k` whose slot is filled, ascending.
pub open spec fn present_keys_below<T>(slots: Seq<Option<T>>, k: int) -> Seq<u8>
    decreases k,
{
    if k <= 0 {
        Seq::empty()
    } else {
        let rest = present_keys_below(slots, k - 1);
        if slots[k - 1] is Some {
            rest.push((k - 1) as u8)
        } else {
            rest
        }
    }
}

/// The values of the filled slots below `k`, in key order.
pub open spec fn present_values_below<T>(slots: Seq<Option<T>>, k: int) -> Seq<T>
    decreases k,
{
    if k <= 0 {
        Seq::empty()
    } else {
        let rest = present_values_below(slots, k - 1);
        match slots[k - 1] {
            Some(v) => rest.push(v),
            None => rest,
        }
    }
}

/// How the filled slots, their keys and their values correspond.
pub proof fn lemma_present_below<T>(slots: Seq<Option<T>>, k: int)
    requires
        0 <= k <= slots.len(),
        k <= 256,
    ensures
        ({
            let keys = present_keys_below(slots, k);
            let vals = present_values_below(slots, k);
            &&& keys.len() == vals.len()
            &&& forall|i: int| 0 <= i < keys.len() ==> (#[trigger] keys[i]) < k
            &&& forall|i: int, j: int| 0 <= i < j < keys.len() ==> keys[i] < keys[j]
            &&& forall|i: int|
                0 <= i < keys.len() ==> slots[#[trigger] keys[i] as int] == Some(vals[i])
            &&& forall|c: int|
                0 <= c < k && slots[c] is Some ==> exists|i: int|
                    0 <= i < keys.len() && #[trigger] keys[i] == c
        }),
    decreases k,
{
    if k > 0 {
        lemma_present_below(slots, k - 1);
        let keys = present_keys_below(slots, k);
        let vals = present_values_below(slots, k);
        let keys0 = present_keys_below(slots, k - 1);
        if slots[k - 1] is Some {
            assert forall|c: int| 0 <= c < k && slots[c] is Some implies exists|i: int|
                0 <= i < keys.len() && #[trigger] keys[i] == c by {
                if c == k - 1 {
                    assert(keys[keys.len() - 1] == (k - 1) as u8);
                } else {
                    let i = choose|i: int| 0 <= i < keys0.len() && #[trigger] keys0[i] == c;
                    assert(keys[i] == c);
                }
            }
        } else {
            assert forall|c: int| 0 <= c < k && slots[c] is Some implies exists|i: int|
                0 <= i < keys.len() && #[trigger] keys[i] == c by {
                let i = choose|i: int| 0 <= i < keys0.len() && #[trigger] keys0[i] == c;
                assert(keys[i] == c);
            }
        }
    }
}

/// The serialised leaf layer: the sorted keys, then one `u32` per key.
pub open spec fn leaf_layer_bytes(keys: Seq<u8>, values: Seq<u32>) -> Seq<u8> {
    keys + be32_concat(values)
}

/// Builds one leaf layer: 256 slots, filled lazily with inventory indices.
pub struct LeafLayerBuilder {
    n: Vec<Option<usize>>,
}

impl LeafLayerBuilder {
    /// The 256 slots.
    pub closed spec fn slots(&self) -> Seq<Option<usize>> {
        self.n@
    }

    /// The values of the filled slots, narrowed to their stored width.
    pub open spec fn stored_values(&self) -> Seq<u32> {
        present_values_below(self.slots(), 256).map_values(|v: usize| v as u32)
    }

    pub open spec fn leaf_wf(&self) -> bool {
        &&& self.slots().len() == 256
        &&& forall|j: int|
            0 <= j < 256 && self.slots()[j] is Some ==> (#[trigger] self.slots()[j]).unwrap()
                <= u32::MAX
    }

    pub fn new() -> (r: LeafLayerBuilder)
        ensures
            r.leaf_wf(),
            forall|j: int| 0 <= j < 256 ==> (#[trigger] r.slots()[j]) is None,
    {
        LeafLayerBuilder { n: vec![None; 256] }
    }

    /// The chunk-list builder for key `c`, creating the inventory entry on
    /// first use.
    pub fn get<'b>(&mut self, inventory: &'b mut ChunkInventoryBuilder, c: u8) -> (r:
        &'b mut ChunkListBuilder)
        requires
            old(self).leaf_wf(),
            old(inventory).wf(),
            old(inventory).lists().len() < 0xffff_ffff,
            forall|j: int|
                0 <= j < 256 && old(self).slots()[j] is Some ==> (#[trigger] old(self).slots()[j]).unwrap() < old(inventory).lists().len(),
        ensures
            ({
                let idx: usize = match old(self).slots()[c as int] {
                    Some(i) => i,
                    None => old(inventory).lists().len() as usize,
                };
                &&& final(self).leaf_wf()
                &&& final(self).slots() == old(self).slots().update(c as int, Some(idx))
                &&& match old(self).slots()[c as int] {
                    Some(i) => *r == old(inventory).lists()[i as int] && final(inventory).lists() == old(inventory).lists().update(i as int, *final(r)),
                    None => (*r).wf() && (*r).added() == Seq::<u64>::empty() && final(inventory).lists() == old(inventory).lists().push(*final(r)),
                }
                &&& forall|j: int|
                    0 <= j < 256 && final(self).slots()[j] is Some ==> (#[trigger] final(self).slots()[j]).unwrap() < final(inventory).lists().len()
            }),
    {
        let idx: usize = match self.n[c as usize] {
            Some(i) => i,
            None => {
                let i = inventory.next();
                self.n[c as usize] = Some(i);
                i
            },
        };
        proof {
            if old(self).slots()[c as int] is Some {
                assert(final(self).slots() =~= old(self).slots().update(
                    c as int,
                    old(self).slots()[c as int],
                ));
            }
        }
        inventory.get(idx)
    }
}

impl NextLayerBuilder for LeafLayerBuilder {
    open spec fn wf(&self) -> bool {
        self.leaf_wf()
    }

    open spec fn is_blank(&self) -> bool {
        forall|j: int| 0 <= j < 256 ==> (#[trigger] self.slots()[j]) is None
    }

    open spec fn spec_bytes(&self) -> Seq<u8> {
        leaf_layer_bytes(present_keys_below(self.slots(), 256), self.stored_values())
    }

    fn new() -> (r: Self) {
        let r = LeafLayerBuilder::new();
        proof {
            lemma_present_below(r.slots(), 256);
        }
        r
    }

    fn written_len(&self) -> (r: usize) {
        proof {
            lemma_present_below(self.slots(), 256);
            lemma_present_count(self.slots(), 256);
            crate::big_endian::lemma_be32_concat_parse(self.stored_values());
        }
        let mut count: usize = 0;
        let mut k: usize = 0;
        while k < 256
            invariant
                k <= 256,
                self.slots().len() == 256,
                count == present_keys_below(self.slots(), k as int).len(),
                count <= k,
            decreases 256 - k,
        {
            proof {
                lemma_present_count(self.slots(), k as int + 1);
            }
            if self.n[k].is_some() {
                count = count + 1;
            }
            k = k + 1;
        }
        count * 5
    }

    fn write(&self, w: &mut Vec<u8>) {
        let ghost keys = present_keys_below(self.slots(), 256);
        let ghost vals = self.stored_values();
        proof {
            lemma_present_below(self.slots(), 256);
        }
        let ghost orig = w@;
        let mut k: usize = 0;
        while k < 256
            invariant
                k <= 256,
                self.slots().len() == 256,
                w@ == orig + present_keys_below(self.slots(), k as int),
            decreases 256 - k,
        {
            if self.n[k].is_some() {
                w.push(k as u8);
            }
            assert(w@ =~= orig + present_keys_below(self.slots(), k as int + 1));
            k = k + 1;
        }
        assert(present_keys_below(self.slots(), 256) == present_keys_below(
            self.slots(),
            256 as int,
        ));
        let mut k: usize = 0;
        while k < 256
            invariant
                k <= 256,
                self.leaf_wf(),
                w@ == orig + present_keys_below(self.slots(), 256) + be32_concat(
                    present_values_below(self.slots(), k as int).map_values(|v: usize| v as u32),
                ),
            decreases 256 - k,
        {
            match self.n[k] {
                Some(v) => {
                    write_u32_be(w, v as u32);
                    proof {
                        lemma_be32_concat_push(
                            present_values_below(self.slots(), k as int).map_values(
                                |v: usize| v as u32,
                            ),
                            v as u32,
                        );
                        assert(present_values_below(self.slots(), k as int).push(v).map_values(
                            |v: usize| v as u32,
                        ) =~= present_values_below(self.slots(), k as int).map_values(
                            |v: usize| v as u32,
                        ).push(v as u32));
                        assert(present_values_below(self.slots(), k as int + 1).map_values(
                            |v: usize| v as u32,
                        ) =~= present_values_below(self.slots(), k as int).map_values(
                            |v: usize| v as u32,
                        ).push(v as u32));
                        assert(w@ =~= orig + present_keys_below(self.slots(), 256) + be32_concat(
                            present_values_below(self.slots(), k as int + 1).map_values(
                                |v: usize| v as u32,
                            ),
                        ));
                    }
                },
                None => {
                    proof {
                        assert(present_values_below(self.slots(), k as int + 1)
                            =~= present_values_below(self.slots(), k as int));
                    }
                },
            }
            k = k + 1;
        }
        assert(present_values_below(self.slots(), 256).map_values(|v: usize| v as u32) =~= vals);
        assert(w@ =~= orig + self.spec_bytes());
    }
}

/// Number of filled slots below `k` is the length of the key list.
pub proof fn lemma_present_count<T>(slots: Seq<Option<T>>, k: int)
    ensures
        present_keys_below(slots, k).len() <= if k >= 0 { k } else { 0 },
    decreases k,
{
    if k > 0 {
        lemma_present_count(slots, k - 1);
    }
}

/// Finds `k` in a strictly ascending byte slice.
pub fn binary_search_u8(keys: &[u8], k: u8) -> (r: Option<usize>)
    requires
        forall|i: int, j: int| 0 <= i < j < keys@.len() ==> keys@[i] < keys@[j],
    ensures
        match r {
            Some(i) => (i as int) < keys@.len() && keys@[i as int] == k,
            None => forall|i: int| 0 <= i < keys@.len() ==> keys@[i] != k,
        },
{
    let mut lo: usize = 0;
    let mut hi: usize = keys.len();
    while lo < hi
        invariant
            lo <= hi <= keys@.len(),
            forall|i: int, j: int| 0 <= i < j < keys@.len() ==> keys@[i] < keys@[j],
            forall|i: int| 0 <= i < lo ==> keys@[i] < k,
            forall|i: int| hi <= i < keys@.len() ==> keys@[i] > k,
        decreases hi - lo,
    {
        let mid = lo + (hi - lo) / 2;
        let v = keys[mid];
        if v == k {
            return Some(mid);
        } else if v < k {
            assert(forall|i: int|
                0 <= i <= mid ==> #[trigger] keys@[i] <= keys@[mid as int]);
            lo = mid + 1;
        } else {
            assert(forall|i: int|
                mid <= i < keys@.len() ==> #[trigger] keys@[i] >= keys@[mid as int]);
            hi = mid;
        }
    }
    None
}

/// A borrowed, parsed leaf layer.
pub struct LeafLayerRef<'a> {
    keys: &'a [u8],
    values: &'a [u8],
}

impl<'a> LeafLayerRef<'a> {
    /// The sorted key bytes.
    pub closed spec fn keys_of(&self) -> Seq<u8> {
        self.keys@
    }

    /// The value bytes, four per key.
    pub closed spec fn values_bytes(&self) -> Seq<u8> {
        self.values@
    }

    /// The value stored for the `i`-th key.
    pub open spec fn value_at(&self, i: int) -> int {
        be32_val(self.values_bytes(), 4 * i)
    }

    pub open spec fn wf(&self) -> bool {
        &&& forall|i: int, j: int| 0 <= i < j < self.keys_of().len() ==> self.keys_of()[i]
            < self.keys_of()[j]
        &&& self.values_bytes().len() == 4 * self.keys_of().len()
    }

    /// Number of keys.
    pub fn len(&self) -> (r: usize)
        ensures
            r == self.keys_of().len(),
    {
        self.keys.len()
    }

    /// The inventory index stored under `k`, if the key is present.
    pub fn get(&self, k: u8) -> (r: Option<usize>)
        requires
            self.wf(),
        ensures
            match r {
                Some(v) => exists|i: int|
                    0 <= i < self.keys_of().len() && #[trigger] self.keys_of()[i] == k && v
                        == self.value_at(i),
                None => forall|i: int|
                    0 <= i < self.keys_of().len() ==> #[trigger] self.keys_of()[i] != k,
            },
    {
        match binary_search_u8(self.keys, k) {
            Some(i) => {
                let vlen: usize = self.values.len();
                assert(4 * (i as int) + 4 <= vlen);
                Some(read_u32_be(self.values, i * 4) as usize)
            },
            None => None,
        }
    }

    /// Every `(key, value)` pair, in key order.
    pub fn iter(&self) -> (r: Vec<(u8, usize)>)
        requires
            self.wf(),
        ensures
            r@.len() == self.keys_of().len(),
            forall|i: int|
                0 <= i < r@.len() ==> (#[trigger] r@[i]).0 == self.keys_of()[i] && r@[i].1
                    == self.value_at(i),
    {
        let mut out: Vec<(u8, usize)> = Vec::new();
        let mut i: usize = 0;
        while i < self.keys.len()
            invariant
                self.wf(),
                i <= self.keys_of().len(),
                out@.len() == i,
                forall|j: int|
                    0 <= j < i ==> (#[trigger] out@[j]).0 == self.keys_of()[j] && out@[j].1
                        == self.value_at(j),
            decreases self.keys_of().len() - i,
    {
            let vlen: usize = self.values.len();
            assert(4 * (i as int) + 4 <= vlen);
            out.push((self.keys[i], read_u32_be(self.values, i * 4) as usize));
            i = i + 1;
        }
        out
    }
}

/// The leaf parse: a perfectly sized slice splits into keys and values.
pub open spec fn leaf_parse_wf(bytes: Seq<u8>) -> bool {
    bytes.len() % 5 == 0
}

impl<'a> crate::inner_layer::NextLayerRef<'a> for LeafLayerRef<'a> {
    open spec fn parse_wf(bytes: Seq<u8>) -> bool {
        leaf_parse_wf(bytes)
    }

    open spec fn parsed_from(&self, bytes: Seq<u8>) -> bool {
        ({
            let n = bytes.len() as int / 5;
            self.keys_of() == bytes.subrange(0, n) && self.values_bytes() == bytes.subrange(
                n,
                bytes.len() as int,
            )
        })
    }

    fn from_bytes(bytes: &'a [u8]) -> (r: Self) {
        let n = bytes.len() / 5;
        proof {
            assert(5 * (bytes@.len() as int / 5) <= bytes@.len() as int) by (nonlinear_arith);
        }
        let keys = crate::chunk_ends::slice_range(bytes, 0, n);
        let values = crate::chunk_ends::slice_range(bytes, n, bytes.len());
        LeafLayerRef { keys, values }
    }
}

/// A serialised leaf layer parses back to its keys and values.
pub proof fn lemma_leaf_round_trip(keys: Seq<u8>, values: Seq<u32>)
    requires
        keys.len() == values.len(),
    ensures
        ({
            let s = leaf_layer_bytes(keys, values);
            &&& s.len() == 5 * keys.len()
            &&& leaf_parse_wf(s)
            &&& s.subrange(0, s.len() as int / 5) == keys
            &&& s.subrange(s.len() as int / 5, s.len() as int) == be32_concat(values)
            &&& forall|i: int|
                0 <= i < values.len() ==> be32_val(be32_concat(values), 4 * i) == values[i]
        }),
{
    let s = leaf_layer_bytes(keys, values);
    lemma_be32_concat_parse(values);
    assert(s.len() == 5 * keys.len());
    assert(s.len() as int % 5 == 0) by (nonlinear_arith)
        requires
            s.len() == 5 * keys.len(),
    ;
    assert(s.len() as int / 5 == keys.len()) by (nonlinear_arith)
        requires
            s.len() == 5 * keys.len(),
    ;
    assert(s.subrange(0, keys.len() as int) =~= keys);
    assert(s.subrange(keys.len() as int, s.len() as int) =~= be32_concat(values));
    assert forall|i: int| 0 <= i < values.len() implies be32_val(be32_concat(values), 4 * i)
        == values[i] by {
        lemma_be32_concat_index_pub(values, i);
        lemma_be32_val(values[i], be32_concat(values), 4 * i);
    }
}

/// The `i`-th four-byte group of a concatenation of four-byte groups.
pub proof fn lemma_be32_concat_index_pub(vs: Seq<u32>, i: int)
    requires
        0 <= i < vs.len(),
    ensures
        be32_concat(vs).len() == 4 * vs.len(),
        be32_concat(vs).subrange(4 * i, 4 * i + 4) == crate::big_endian::be32(vs[i]),
    decreases i,
{
    lemma_be32_concat_parse(vs);
    if i == 0 {
        assert(be32_concat(vs).subrange(0, 4) =~= crate::big_endian::be32(vs[0]));
    } else {
        lemma_be32_concat_index_pub(vs.skip(1), i - 1);
        assert(be32_concat(vs).subrange(4 * i, 4 * i + 4) =~= be32_concat(vs.skip(1)).subrange(
            4 * (i - 1),
            4 * (i - 1) + 4,
        ));
    }
}

} // verus!
