//! The two inner layers of the trigram trie. Each stores its present child
//! bytes behind a sorted key array and a cumulative-end table, so lookup is
//! one binary search per byte of the trigram.

use vstd::prelude::*;
use core::marker::PhantomData;
use crate::big_endian::{
    be32, be32_concat, be32_val, read_u32_be, write_u32_be, lemma_be32_concat_push,
    lemma_be32_concat_parse, lemma_be32_val,
};
use crate::chunk_inventory::{
    concat_all, inventory_offsets, prefix_len, lemma_concat_all_index, lemma_concat_all_len,
    lemma_prefix_len_monotone, lemma_prefix_len_nonneg,
};
use crate::leaf_layer::{
    binary_search_u8, lemma_present_below, present_keys_below, present_values_below,
    lemma_be32_concat_index_pub,
};

verus! {

/// A layer of the trie under construction.
pub trait NextLayerBuilder: Sized {
    /// Internal invariant.
    spec fn wf(&self) -> bool;

    /// Nothing has been added yet.
    spec fn is_blank(&self) -> bool;

    /// The bytes this layer serialises to.
    spec fn spec_bytes(&self) -> Seq<u8>;

    fn new() -> (r: Self)
        ensures
            r.wf(),
            r.is_blank(),
    ;

    fn written_len(&self) -> (r: usize)
        requires
            self.wf(),
            self.spec_bytes().len() <= u32::MAX,
        ensures
            r == self.spec_bytes().len(),
    ;

    fn write(&self, w: &mut Vec<u8>)
        requires
            self.wf(),
            self.spec_bytes().len() <= u32::MAX,
        ensures
            final(w)@ == old(w)@ + self.spec_bytes(),
    ;
}

impl<N: NextLayerBuilder> NextLayerBuilder for Box<N> {
    open spec fn wf(&self) -> bool {
        (**self).wf()
    }

    open spec fn is_blank(&self) -> bool {
        (**self).is_blank()
    }

    open spec fn spec_bytes(&self) -> Seq<u8> {
        (**self).spec_bytes()
    }

    fn new() -> (r: Self) {
        Box::new(N::new())
    }

    fn written_len(&self) -> (r: usize) {
        (**self).written_len()
    }

    fn write(&self, w: &mut Vec<u8>) {
        (**self).write(w)
    }
}

/// A parsed layer of the trie, borrowed from the database image.
pub trait NextLayerRef<'a>: Sized {
    /// What must hold of `bytes` for the parse not to run off the slice.
    spec fn parse_wf(bytes: Seq<u8>) -> bool;

    /// How the parsed fields relate to the bytes parsed.
    spec fn parsed_from(&self, bytes: Seq<u8>) -> bool;

    /// Read from a perfectly sized slice.
    fn from_bytes(bytes: &'a [u8]) -> (r: Self)
        requires
            Self::parse_wf(bytes@),
        ensures
            r.parsed_from(bytes@),
    ;
}

/// The serialised inner layer: child count, sorted key bytes, cumulative
/// child end offsets, then the child bytes back to back.
pub open spec fn inner_layer_bytes(keys: Seq<u8>, children: Seq<Seq<u8>>) -> Seq<u8> {
    be32(keys.len() as u32) + keys + be32_concat(inventory_offsets(children)) + concat_all(
        children,
    )
}

/// Its length, spelled out.
pub proof fn lemma_inner_spec_len(keys: Seq<u8>, children: Seq<Seq<u8>>)
    requires
        keys.len() == children.len(),
    ensures
        inner_layer_bytes(keys, children).len() == 4 + 5 * keys.len() + prefix_len(
            children,
            children.len() as int,
        ),
        prefix_len(children, children.len() as int) >= 0,
{
    lemma_be32_concat_parse(inventory_offsets(children));
    lemma_concat_all_len(children);
    lemma_prefix_len_nonneg(children, children.len() as int);
}

/// Keys of the filled slots, below `k`.
pub open spec fn builder_keys<N>(slots: Seq<Option<N>>) -> Seq<u8> {
    present_keys_below(slots, 256)
}

/// The children's byte forms, in key order.
pub open spec fn builder_children<N: NextLayerBuilder>(slots: Seq<Option<N>>) -> Seq<Seq<u8>> {
    present_values_below(slots, 256).map_values(|c: N| c.spec_bytes())
}

/// A prefix of the slots lists a prefix of the keys and values.
pub proof fn lemma_present_take<T>(slots: Seq<Option<T>>, a: int, b: int)
    requires
        0 <= a <= b,
    ensures
        ({
            let ka = present_keys_below(slots, a);
            let kb = present_keys_below(slots, b);
            let va = present_values_below(slots, a);
            let vb = present_values_below(slots, b);
            &&& ka.len() == va.len()
            &&& kb.len() == vb.len()
            &&& ka.len() <= kb.len()
            &&& ka == kb.take(ka.len() as int)
            &&& va == vb.take(va.len() as int)
        }),
    decreases b - a,
{
    if a == b {
        assert(present_keys_below(slots, a) =~= present_keys_below(slots, b).take(
            present_keys_below(slots, a).len() as int,
        ));
        assert(present_values_below(slots, a) =~= present_values_below(slots, b).take(
            present_values_below(slots, a).len() as int,
        ));
        lemma_present_len_eq(slots, a);
    } else {
        lemma_present_take(slots, a, b - 1);
        lemma_present_len_eq(slots, b);
        lemma_present_len_eq(slots, b - 1);
        lemma_present_len_eq(slots, a);
        assert(present_keys_below(slots, a) =~= present_keys_below(slots, b).take(
            present_keys_below(slots, a).len() as int,
        ));
        assert(present_values_below(slots, a) =~= present_values_below(slots, b).take(
            present_values_below(slots, a).len() as int,
        ));
    }
}

/// Keys and values of the filled slots pair up.
pub proof fn lemma_present_len_eq<T>(slots: Seq<Option<T>>, k: int)
    ensures
        present_keys_below(slots, k).len() == present_values_below(slots, k).len(),
    decreases k,
{
    if k > 0 {
        lemma_present_len_eq(slots, k - 1);
    }
}

/// An inner layer of the trie under construction: 256 lazily filled child
/// slots.
pub struct InnerLayerBuilder<N> {
    n: Vec<Option<N>>,
}

/// The outermost layer of a fresh three-layer trie.
pub fn three_layer_builder() -> (r: InnerLayerBuilder<
    Box<InnerLayerBuilder<Box<crate::leaf_layer::LeafLayerBuilder>>>,
>)
    ensures
        r.wf(),
        r.is_blank(),
{
    NextLayerBuilder::new()
}

/// The outermost layer of a three-layer trie, parsed from its bytes.
pub fn three_layer_ref_from_bytes<'a>(bytes: &'a [u8]) -> (r: InnerLayerRef<
    'a,
    InnerLayerRef<'a, crate::leaf_layer::LeafLayerRef<'a>>,
>)
    requires
        inner_parse_wf(bytes@),
    ensures
        r.parsed_from(bytes@),
{
    NextLayerRef::from_bytes(bytes)
}

impl<N: NextLayerBuilder> InnerLayerBuilder<N> {
    /// The 256 child slots.
    pub closed spec fn slots(&self) -> Seq<Option<N>> {
        self.n@
    }

    /// The child for byte `c`, created blank on first use.
    #[must_use]
    pub fn get(&mut self, c: u8) -> (r: &mut N)
        requires
            old(self).wf(),
        ensures
            match old(self).slots()[c as int] {
                Some(n) => *r == n,
                None => (*r).wf() && (*r).is_blank(),
            },
            final(self).slots() == old(self).slots().update(c as int, Some(*final(r))),
    {
        let fresh = N::new();
        self.n[c as usize].get_or_insert(fresh)
    }
}

impl<N: NextLayerBuilder> NextLayerBuilder for InnerLayerBuilder<N> {
    open spec fn wf(&self) -> bool {
        &&& self.slots().len() == 256
        &&& forall|j: int|
            0 <= j < 256 && self.slots()[j] is Some ==> (#[trigger] self.slots()[j]).unwrap().wf()
    }

    open spec fn is_blank(&self) -> bool {
        forall|j: int| 0 <= j < 256 ==> (#[trigger] self.slots()[j]) is None
    }

    open spec fn spec_bytes(&self) -> Seq<u8> {
        inner_layer_bytes(builder_keys(self.slots()), builder_children(self.slots()))
    }

    fn new() -> (r: Self) {
        let mut n: Vec<Option<N>> = Vec::new();
        let mut k: usize = 0;
        while k < 256
            invariant
                n@.len() == k <= 256,
                forall|j: int| 0 <= j < k ==> (#[trigger] n@[j]) is None,
            decreases 256 - k,
        {
            n.push(None);
            k = k + 1;
        }
        InnerLayerBuilder { n }
    }

    fn written_len(&self) -> (r: usize) {
        let ghost slots = self.slots();
        let ghost keys = builder_keys(slots);
        let ghost children = builder_children(slots);
        proof {
            lemma_present_below(slots, 256);
            lemma_present_len_eq(slots, 256);
            lemma_inner_spec_len(keys, children);
        }
        let mut len: usize = 4;
        let mut k: usize = 0;
        while k < 256
            invariant
                k <= 256,
                self.wf(),
                self.spec_bytes().len() <= u32::MAX,
                keys == builder_keys(self.slots()),
                children == builder_children(self.slots()),
                keys.len() == children.len(),
                self.spec_bytes().len() == 4 + 5 * keys.len() + prefix_len(
                    children,
                    children.len() as int,
                ),
                len == 4 + 5 * present_keys_below(self.slots(), k as int).len() + prefix_len(
                    children,
                    present_keys_below(self.slots(), k as int).len() as int,
                ),
            decreases 256 - k,
        {
            let ghost pidx = present_keys_below(self.slots(), k as int).len() as int;
            proof {
                lemma_present_take(self.slots(), k as int, k as int + 1);
                lemma_present_take(self.slots(), k as int + 1, 256);
                lemma_present_below(self.slots(), 256);
                lemma_prefix_len_monotone(children, 0, pidx);
            }
            if self.n[k].is_some() {
                proof {
                    assert(present_keys_below(self.slots(), k as int + 1)
                        == present_keys_below(self.slots(), k as int).push(k as u8));
                    lemma_present_len_eq(self.slots(), k as int);
                    assert(present_values_below(self.slots(), k as int + 1)
                        == present_values_below(self.slots(), k as int).push(
                        self.slots()[k as int].unwrap(),
                    ));
                    assert(present_values_below(self.slots(), k as int + 1)
                        == present_values_below(self.slots(), 256).take(pidx + 1));
                    assert(present_values_below(self.slots(), 256).take(pidx + 1)[pidx]
                        == present_values_below(self.slots(), 256)[pidx]);
                    assert(present_values_below(self.slots(), 256)[pidx] == self.slots()[k as int].unwrap());
                    assert(children[pidx] == self.slots()[k as int].unwrap().spec_bytes());
                    assert(prefix_len(children, pidx + 1) == prefix_len(children, pidx)
                        + children[pidx].len());
                    lemma_prefix_len_monotone(children, pidx + 1, children.len() as int);
                }
                let child = self.n[k].as_ref().unwrap();
                len = len + 5 + child.written_len();
            } else {
                proof {
                    assert(present_keys_below(self.slots(), k as int + 1)
                        == present_keys_below(self.slots(), k as int));
                }
            }
            k = k + 1;
        }
        proof {
            assert(present_keys_below(self.slots(), 256) == keys);
        }
        len
    }

    fn write(&self, w: &mut Vec<u8>) {
        let ghost slots = self.slots();
        let ghost keys = builder_keys(slots);
        let ghost children = builder_children(slots);
        let ghost offs = inventory_offsets(children);
        proof {
            lemma_present_below(slots, 256);
            lemma_present_len_eq(slots, 256);
            lemma_inner_spec_len(keys, children);
        }
        let ghost orig = w@;
        // Child count.
        let mut count: usize = 0;
        let mut k: usize = 0;
        while k < 256
            invariant
                k <= 256,
                self.wf(),
                count == present_keys_below(self.slots(), k as int).len(),
                count <= k,
            decreases 256 - k,
        {
            proof {
                crate::leaf_layer::lemma_present_count(self.slots(), k as int + 1);
            }
            if self.n[k].is_some() {
                count = count + 1;
            }
            k = k + 1;
        }
        write_u32_be(w, count as u32);
        // Sorted keys.
        let mut k: usize = 0;
        while k < 256
            invariant
                k <= 256,
                self.wf(),
                w@ == orig + be32(keys.len() as u32) + present_keys_below(
                    self.slots(),
                    k as int,
                ),
                keys == builder_keys(self.slots()),
            decreases 256 - k,
        {
            if self.n[k].is_some() {
                w.push(k as u8);
            }
            assert(w@ =~= orig + be32(keys.len() as u32) + present_keys_below(
                self.slots(),
                k as int + 1,
            ));
            k = k + 1;
        }
        // Cumulative child ends.
        let ghost base = orig + be32(keys.len() as u32) + keys;
        assert(w@ =~= base + be32_concat(offs.take(0)));
        let mut end: u32 = 0;
        let mut k: usize = 0;
        while k < 256
            invariant
                k <= 256,
                self.wf(),
                self.spec_bytes().len() <= u32::MAX,
                keys == builder_keys(self.slots()),
                children == builder_children(self.slots()),
                offs == inventory_offsets(children),
                keys.len() == children.len(),
                self.spec_bytes().len() == 4 + 5 * keys.len() + prefix_len(
                    children,
                    children.len() as int,
                ),
                end == prefix_len(children, present_keys_below(self.slots(), k as int).len() as int),
                w@ == base + be32_concat(offs.take(
                    present_keys_below(self.slots(), k as int).len() as int,
                )),
            decreases 256 - k,
        {
            let ghost pidx = present_keys_below(self.slots(), k as int).len() as int;
            proof {
                lemma_present_take(self.slots(), k as int, k as int + 1);
                lemma_present_take(self.slots(), k as int + 1, 256);
                lemma_present_below(self.slots(), 256);
                lemma_prefix_len_monotone(children, 0, pidx);
            }
            if self.n[k].is_some() {
                proof {
                    assert(present_keys_below(self.slots(), k as int + 1)
                        == present_keys_below(self.slots(), k as int).push(k as u8));
                    lemma_present_len_eq(self.slots(), k as int);
                    assert(present_values_below(self.slots(), k as int + 1)
                        == present_values_below(self.slots(), k as int).push(
                        self.slots()[k as int].unwrap(),
                    ));
                    assert(present_values_below(self.slots(), k as int + 1)
                        == present_values_below(self.slots(), 256).take(pidx + 1));
                    assert(present_values_below(self.slots(), 256).take(pidx + 1)[pidx]
                        == present_values_below(self.slots(), 256)[pidx]);
                    assert(present_values_below(self.slots(), 256)[pidx] == self.slots()[k as int].unwrap());
                    assert(children[pidx] == self.slots()[k as int].unwrap().spec_bytes());
                    assert(prefix_len(children, pidx + 1) == prefix_len(children, pidx)
                        + children[pidx].len());
                    lemma_prefix_len_monotone(children, pidx + 1, children.len() as int);
                }
                let child = self.n[k].as_ref().unwrap();
                end = end + child.written_len() as u32;
                write_u32_be(w, end);
                proof {
                    lemma_be32_concat_push(offs.take(pidx), end);
                    assert(offs[pidx] == end);
                    assert(offs.take(pidx).push(end) =~= offs.take(pidx + 1));
                }
            } else {
                proof {
                    assert(present_keys_below(self.slots(), k as int + 1)
                        == present_keys_below(self.slots(), k as int));
                }
            }
            k = k + 1;
        }
        proof {
            assert(present_keys_below(self.slots(), 256) == keys);
            lemma_present_len_eq(self.slots(), 256);
            assert(offs.take(keys.len() as int) =~= offs);
        }
        // The children themselves.
        let ghost base2 = base + be32_concat(offs);
        assert(w@ =~= base2 + concat_all(children.take(0)));
        let mut k: usize = 0;
        while k < 256
            invariant
                k <= 256,
                self.wf(),
                self.spec_bytes().len() <= u32::MAX,
                keys == builder_keys(self.slots()),
                children == builder_children(self.slots()),
                keys.len() == children.len(),
                self.spec_bytes().len() == 4 + 5 * keys.len() + prefix_len(
                    children,
                    children.len() as int,
                ),
                w@ == base2 + concat_all(children.take(
                    present_keys_below(self.slots(), k as int).len() as int,
                )),
            decreases 256 - k,
        {
            let ghost pidx = present_keys_below(self.slots(), k as int).len() as int;
            proof {
                lemma_present_take(self.slots(), k as int, k as int + 1);
                lemma_present_take(self.slots(), k as int + 1, 256);
                lemma_present_below(self.slots(), 256);
            }
            if self.n[k].is_some() {
                proof {
                    assert(present_keys_below(self.slots(), k as int + 1)
                        == present_keys_below(self.slots(), k as int).push(k as u8));
                    lemma_present_len_eq(self.slots(), k as int);
                    assert(present_values_below(self.slots(), k as int + 1)
                        == present_values_below(self.slots(), k as int).push(
                        self.slots()[k as int].unwrap(),
                    ));
                    assert(present_values_below(self.slots(), k as int + 1)
                        == present_values_below(self.slots(), 256).take(pidx + 1));
                    assert(present_values_below(self.slots(), 256).take(pidx + 1)[pidx]
                        == present_values_below(self.slots(), 256)[pidx]);
                    assert(present_values_below(self.slots(), 256)[pidx] == self.slots()[k as int].unwrap());
                    assert(children[pidx] == self.slots()[k as int].unwrap().spec_bytes());
                    lemma_prefix_len_monotone(children, 0, pidx);
                    assert(prefix_len(children, pidx + 1) == prefix_len(children, pidx)
                        + children[pidx].len());
                    lemma_prefix_len_monotone(children, pidx + 1, children.len() as int);
                }
                let child = self.n[k].as_ref().unwrap();
                child.write(w);
                proof {
                    lemma_concat_all_push_pub(children.take(pidx), children[pidx]);
                    assert(children.take(pidx).push(children[pidx]) =~= children.take(pidx + 1));
                }
            } else {
                proof {
                    assert(present_keys_below(self.slots(), k as int + 1)
                        == present_keys_below(self.slots(), k as int));
                }
            }
            k = k + 1;
        }
        proof {
            assert(present_keys_below(self.slots(), 256) == keys);
            assert(children.take(children.len() as int) =~= children);
            assert(w@ =~= orig + self.spec_bytes());
        }
    }
}

/// Appending one more byte string appends its bytes.
pub proof fn lemma_concat_all_push_pub(lists: Seq<Seq<u8>>, l: Seq<u8>)
    ensures
        concat_all(lists.push(l)) == concat_all(lists) + l,
    decreases lists.len(),
{
    let p = lists.push(l);
    if lists.len() == 0 {
        assert(p[0] == l);
        assert(p.skip(1) =~= Seq::<Seq<u8>>::empty());
        reveal_with_fuel(concat_all, 3);
        assert(concat_all(p) =~= concat_all(lists) + l);
    } else {
        assert(p[0] == lists[0]);
        assert(p.skip(1) =~= lists.skip(1).push(l));
        lemma_concat_all_push_pub(lists.skip(1), l);
        assert(concat_all(p) == lists[0] + (concat_all(lists.skip(1)) + l));
        assert(lists[0] + (concat_all(lists.skip(1)) + l) =~= (lists[0] + concat_all(
            lists.skip(1),
        )) + l);
    }
}

/// What must hold of the front of `bytes` for the inner-layer parse not to
/// run off the slice.
pub open spec fn inner_parse_wf(bytes: Seq<u8>) -> bool {
    &&& bytes.len() >= 4
    &&& 4 + 5 * be32_val(bytes, 0) <= bytes.len()
}

/// A borrowed, parsed inner layer.
pub struct InnerLayerRef<'a, N> {
    keys: &'a [u8],
    ends: &'a [u8],
    values: &'a [u8],
    phantom: PhantomData<N>,
}

impl<'a, N: NextLayerRef<'a>> InnerLayerRef<'a, N> {
    /// The sorted key bytes.
    pub closed spec fn keys_of(&self) -> Seq<u8> {
        self.keys@
    }

    /// The cumulative-end bytes, four per key.
    pub closed spec fn ends_bytes(&self) -> Seq<u8> {
        self.ends@
    }

    /// The children's bytes, back to back.
    pub closed spec fn values_bytes(&self) -> Seq<u8> {
        self.values@
    }

    /// Number of children.
    pub open spec fn count(&self) -> int {
        self.keys_of().len() as int
    }

    /// Cumulative end of child `i`; child 0 starts at 0.
    pub open spec fn offset_at(&self, i: int) -> int {
        if i < 0 {
            0
        } else {
            be32_val(self.ends_bytes(), 4 * i)
        }
    }

    /// The bytes of child `i`.
    pub open spec fn child_bytes(&self, i: int) -> Seq<u8> {
        self.values_bytes().subrange(self.offset_at(i - 1), self.offset_at(i))
    }

    pub open spec fn wf(&self) -> bool {
        &&& forall|i: int, j: int| 0 <= i < j < self.count() ==> self.keys_of()[i]
            < self.keys_of()[j]
        &&& self.ends_bytes().len() == 4 * self.count()
        &&& forall|i: int|
            0 <= i < self.count() - 1 ==> #[trigger] self.offset_at(i) <= self.offset_at(i + 1)
        &&& self.count() > 0 ==> self.offset_at(self.count() - 1) == self.values_bytes().len()
        &&& self.count() == 0 ==> self.values_bytes().len() == 0
        &&& forall|i: int| 0 <= i < self.count() ==> N::parse_wf(#[trigger] self.child_bytes(i))
    }

    /// Monotonicity of the offsets, stretched over any two indices.
    pub proof fn lemma_offsets_ordered(&self, a: int, b: int)
        requires
            self.wf(),
            0 <= a <= b < self.count(),
        ensures
            self.offset_at(a) <= self.offset_at(b),
        decreases b - a,
    {
        if a < b {
            self.lemma_offsets_ordered(a + 1, b);
            assert(self.offset_at(a) <= self.offset_at(a + 1));
        }
    }

    /// Every offset lies within the children's byte region.
    pub proof fn lemma_offset_in_range(&self, i: int)
        requires
            self.wf(),
            -1 <= i < self.count(),
        ensures
            0 <= self.offset_at(i) <= self.values_bytes().len(),
    {
        if i >= 0 {
            crate::big_endian::lemma_be32_val_bounds(self.ends_bytes(), 4 * i);
            self.lemma_offsets_ordered(i, self.count() - 1);
        }
    }

    /// Number of children.
    pub fn len(&self) -> (r: usize)
        ensures
            r == self.count(),
    {
        self.keys.len()
    }

    /// Number of bytes in this layer, count field aside.
    pub fn size_of(&self) -> (r: usize)
        requires
            self.keys_of().len() + self.ends_bytes().len() + self.values_bytes().len()
                <= usize::MAX,
        ensures
            r == self.keys_of().len() + self.ends_bytes().len() + self.values_bytes().len(),
    {
        self.keys.len() + self.ends.len() + self.values.len()
    }

    /// The child under key `k`, if present.
    pub fn get(&self, k: u8) -> (r: Option<N>)
        requires
            self.wf(),
        ensures
            match r {
                Some(child) => exists|i: int|
                    0 <= i < self.count() && #[trigger] self.keys_of()[i] == k
                        && child.parsed_from(self.child_bytes(i)),
                None => forall|i: int|
                    0 <= i < self.count() ==> #[trigger] self.keys_of()[i] != k,
            },
    {
        match binary_search_u8(self.keys, k) {
            Some(i) => Some(self.read_value(i)),
            None => None,
        }
    }

    /// Every `(key, child)` pair, in key order.
    pub fn iter(&self) -> (r: Vec<(u8, N)>)
        requires
            self.wf(),
        ensures
            r@.len() == self.count(),
            forall|i: int|
                0 <= i < r@.len() ==> (#[trigger] r@[i]).0 == self.keys_of()[i]
                    && r@[i].1.parsed_from(self.child_bytes(i)),
    {
        let mut out: Vec<(u8, N)> = Vec::new();
        let mut i: usize = 0;
        while i < self.keys.len()
            invariant
                self.wf(),
                i <= self.count(),
                out@.len() == i,
                forall|j: int|
                    0 <= j < i ==> (#[trigger] out@[j]).0 == self.keys_of()[j]
                        && out@[j].1.parsed_from(self.child_bytes(j)),
            decreases self.count() - i,
        {
            let child = self.read_value(i);
            out.push((self.keys[i], child));
            i = i + 1;
        }
        out
    }

    /// Parses child `i` from its slice of the child region.
    fn read_value(&self, i: usize) -> (r: N)
        requires
            self.wf(),
            (i as int) < self.count(),
        ensures
            r.parsed_from(self.child_bytes(i as int)),
    {
        let elen: usize = self.ends.len();
        proof {
            assert(4 * (i as int) + 4 <= elen);
            self.lemma_offset_in_range(i as int - 1);
            self.lemma_offset_in_range(i as int);
            if i > 0 {
                self.lemma_offsets_ordered(i as int - 1, i as int);
            }
        }
        let start = if i == 0 {
            0
        } else {
            read_u32_be(self.ends, (i - 1) * 4) as usize
        };
        let end = read_u32_be(self.ends, i * 4) as usize;
        proof {
            assert(start as int == self.offset_at(i as int - 1));
            assert(end as int == self.offset_at(i as int));
            assert(N::parse_wf(self.child_bytes(i as int)));
        }
        N::from_bytes(crate::chunk_ends::slice_range(self.values, start, end))
    }
}

impl<'a, N: NextLayerRef<'a>> NextLayerRef<'a> for InnerLayerRef<'a, N> {
    open spec fn parse_wf(bytes: Seq<u8>) -> bool {
        inner_parse_wf(bytes)
    }

    open spec fn parsed_from(&self, bytes: Seq<u8>) -> bool {
        ({
            let n = be32_val(bytes, 0);
            &&& self.keys_of() == bytes.subrange(4, 4 + n)
            &&& self.ends_bytes() == bytes.subrange(4 + n, 4 + 5 * n)
            &&& self.values_bytes() == bytes.subrange(4 + 5 * n, bytes.len() as int)
        })
    }

    fn from_bytes(bytes: &'a [u8]) -> (r: Self) {
        let blen: usize = bytes.len();
        let n = read_u32_be(bytes, 0) as usize;
        assert(4 + 5 * (n as int) <= blen);
        let keys = crate::chunk_ends::slice_range(bytes, 4, 4 + n);
        let ends = crate::chunk_ends::slice_range(bytes, 4 + n, 4 + 5 * n);
        let values = crate::chunk_ends::slice_range(bytes, 4 + 5 * n, blen);
        InnerLayerRef { keys, ends, values, phantom: PhantomData }
    }
}

/// Child count of a serialised inner layer.
pub open spec fn region_n(bytes: Seq<u8>) -> int {
    be32_val(bytes, 0)
}

/// Key bytes of a serialised inner layer.
pub open spec fn region_keys(bytes: Seq<u8>) -> Seq<u8> {
    bytes.subrange(4, 4 + region_n(bytes))
}

/// Cumulative end of child `i` of a serialised inner layer.
pub open spec fn region_off(bytes: Seq<u8>, i: int) -> int {
    if i < 0 {
        0
    } else {
        be32_val(bytes, 4 + region_n(bytes) + 4 * i)
    }
}

/// The bytes of child `i` of a serialised inner layer.
pub open spec fn region_child(bytes: Seq<u8>, i: int) -> Seq<u8> {
    bytes.subrange(
        4 + 5 * region_n(bytes) + region_off(bytes, i - 1),
        4 + 5 * region_n(bytes) + region_off(bytes, i),
    )
}

/// Strictly ascending bytes.
pub open spec fn sorted_bytes(keys: Seq<u8>) -> bool {
    forall|i: int, j: int| 0 <= i < j < keys.len() ==> keys[i] < keys[j]
}

/// A serialised inner layer whose own frame is sound: keys sorted, offsets
/// never descending, the last offset closing the child region exactly.
pub open spec fn inner_region_shallow_wf(bytes: Seq<u8>) -> bool {
    &&& inner_parse_wf(bytes)
    &&& sorted_bytes(region_keys(bytes))
    &&& forall|i: int|
        0 <= i < region_n(bytes) - 1 ==> #[trigger] region_off(bytes, i) <= region_off(
            bytes,
            i + 1,
        )
    &&& region_n(bytes) > 0 ==> region_off(bytes, region_n(bytes) - 1) == bytes.len() - (4 + 5
        * region_n(bytes))
    &&& region_n(bytes) == 0 ==> bytes.len() == 4
}

/// A parse of a sound region gives a well-formed layer whose fields match
/// the region's pieces.
pub proof fn lemma_region_ref_wf<'a, N: NextLayerRef<'a>>(r: InnerLayerRef<'a, N>, bytes: Seq<u8>)
    requires
        r.parsed_from(bytes),
        inner_region_shallow_wf(bytes),
        forall|i: int|
            0 <= i < region_n(bytes) ==> N::parse_wf(#[trigger] region_child(bytes, i)),
    ensures
        r.wf(),
        r.count() == region_n(bytes),
        r.keys_of() == region_keys(bytes),
        forall|i: int|
            0 <= i < region_n(bytes) ==> #[trigger] r.child_bytes(i) == region_child(bytes, i),
{
    let n = region_n(bytes);
    crate::big_endian::lemma_be32_val_bounds(bytes, 0);
    assert(r.count() == n);
    assert forall|i: int| 0 <= i < n implies (#[trigger] r.offset_at(i)) == region_off(
        bytes,
        i,
    ) by {
        assert(r.ends_bytes()[4 * i] == bytes[4 + n + 4 * i]);
        assert(r.ends_bytes()[4 * i + 1] == bytes[4 + n + 4 * i + 1]);
        assert(r.ends_bytes()[4 * i + 2] == bytes[4 + n + 4 * i + 2]);
        assert(r.ends_bytes()[4 * i + 3] == bytes[4 + n + 4 * i + 3]);
    }
    assert(r.values_bytes().len() == bytes.len() - (4 + 5 * n));
    assert forall|i: int| 0 <= i < n implies #[trigger] r.child_bytes(i) == region_child(
        bytes,
        i,
    ) by {
        if i > 0 {
            lemma_region_off_ordered(bytes, i - 1, i);
            lemma_region_off_ordered(bytes, i, n - 1);
        } else {
            lemma_region_off_ordered(bytes, i, n - 1);
        }
        crate::big_endian::lemma_be32_val_bounds(bytes, 4 + n + 4 * (i - 1));
        assert(r.child_bytes(i) =~= region_child(bytes, i));
    }
    assert(r.wf());
}

/// Monotonicity of a sound region's offsets, stretched over any two
/// indices.
pub proof fn lemma_region_off_ordered(bytes: Seq<u8>, a: int, b: int)
    requires
        inner_region_shallow_wf(bytes),
        0 <= a <= b < region_n(bytes),
    ensures
        0 <= region_off(bytes, a) <= region_off(bytes, b),
    decreases b - a,
{
    crate::big_endian::lemma_be32_val_bounds(bytes, 4 + region_n(bytes) + 4 * a);
    if a < b {
        lemma_region_off_ordered(bytes, a + 1, b);
        assert(region_off(bytes, a) <= region_off(bytes, a + 1));
    }
}

/// A serialised inner layer parses back: count, keys, offsets and child
/// slices all match what was written.
pub proof fn lemma_inner_round_trip(keys: Seq<u8>, children: Seq<Seq<u8>>, rest: Seq<u8>)
    requires
        keys.len() == children.len(),
        keys.len() <= u32::MAX,
        prefix_len(children, children.len() as int) <= u32::MAX,
    ensures
        ({
            let own = inner_layer_bytes(keys, children);
            let s = own + rest;
            let n = keys.len() as int;
            &&& be32_val(s, 0) == n
            &&& inner_parse_wf(s)
            &&& s.subrange(4, 4 + n) == keys
            &&& s.subrange(4 + n, 4 + 5 * n) == be32_concat(inventory_offsets(children))
            &&& s.subrange(4 + 5 * n, s.len() as int) == concat_all(children) + rest
            &&& own.len() == 4 + 5 * n + prefix_len(children, n)
            &&& crate::big_endian::parse_u32s(be32_concat(inventory_offsets(children)))
                == inventory_offsets(children)
            &&& forall|i: int|
                0 <= i < n ==> (concat_all(children) + rest).subrange(
                    prefix_len(children, i),
                    prefix_len(children, i + 1),
                ) == children[i]
        }),
{
    let own = inner_layer_bytes(keys, children);
    let s = own + rest;
    let n = keys.len() as int;
    let offs = inventory_offsets(children);
    lemma_inner_spec_len(keys, children);
    lemma_be32_concat_parse(offs);
    lemma_concat_all_len(children);
    assert(s.subrange(0, 4) =~= be32(keys.len() as u32));
    lemma_be32_val(keys.len() as u32, s, 0);
    assert(s.subrange(4, 4 + n) =~= keys);
    assert(s.subrange(4 + n, 4 + 5 * n) =~= be32_concat(offs));
    assert(s.subrange(4 + 5 * n, s.len() as int) =~= concat_all(children) + rest);
    assert forall|i: int| 0 <= i < n implies (concat_all(children) + rest).subrange(
        prefix_len(children, i),
        prefix_len(children, i + 1),
    ) == children[i] by {
        lemma_concat_all_index(children, i);
        lemma_prefix_len_monotone(children, 0, i);
        lemma_prefix_len_monotone(children, i + 1, n);
        assert((concat_all(children) + rest).subrange(
            prefix_len(children, i),
            prefix_len(children, i + 1),
        ) =~= concat_all(children).subrange(
            prefix_len(children, i),
            prefix_len(children, i + 1),
        ));
    }
}

} // verus!
