//! The database: magic, version, trigram trie, inventory of chunk lists,
//! and the two chunk-ends arrays, framed into one byte artifact.

use vstd::prelude::*;
use crate::big_endian::{be32, be32_val, parse_u32s, read_u32_be, write_u32_be};
use crate::chunk_ends::{chunk_ends_bytes, ChunkEndsBuilder, ChunkEndsRef};
use crate::chunk_inventory::{
    inventory_bytes, inventory_header_wf, ChunkInventoryBuilder, ChunkInventoryRef,
};
use crate::chunk_list::{chunk_list_bytes, ChunkListRef};
use crate::codec::DecodeError;
use crate::inner_layer::{
    inner_parse_wf, inner_region_shallow_wf, region_child, region_keys, region_n,
    sorted_bytes, three_layer_builder, three_layer_ref_from_bytes, InnerLayerBuilder,
    InnerLayerRef, NextLayerBuilder, NextLayerRef, lemma_region_ref_wf,
};
use crate::leaf_layer::{LeafLayerBuilder, LeafLayerRef, leaf_parse_wf};

verus! {

/// Why a database byte image was rejected.
#[derive(Debug, PartialEq, Eq)]
pub enum ReadError<'a> {
    /// The first four bytes are not the magic.
    BadMagic(&'a [u8]),
    /// The stream ends before a version could be read.
    NoVersion(&'a [u8]),
    /// The version field does not decode.
    VersionDecodeError(DecodeError),
    /// Expected the first version, found another.
    WrongVersion(u64, u64),
    /// Too few bytes for a chunk-ends array.
    InvalidChunkEnds(usize),
    /// A sub-region runs past the end of the image, or bytes trail it.
    Truncated(usize),
}

/// The four magic bytes that open a database image.
pub open spec fn magic_bytes() -> Seq<u8> {
    seq![0x67u8, 0x72u8, 0x6fu8, 0x70u8]
}

/// A whole database image for the given parts.
pub open spec fn database_bytes(
    map: Seq<u8>,
    lists: Seq<Seq<u8>>,
    offs: Seq<u32>,
    lcs: Seq<u32>,
) -> Seq<u8> {
    magic_bytes() + seq![0u8] + be32(map.len() as u32) + map + inventory_bytes(lists)
        + chunk_ends_bytes(offs) + chunk_ends_bytes(lcs)
}

/// A leaf region is sound: perfectly sized and its keys sorted.
pub open spec fn leaf_region_wf(bytes: Seq<u8>) -> bool {
    &&& leaf_parse_wf(bytes)
    &&& sorted_bytes(bytes.subrange(0, bytes.len() as int / 5))
}

/// A middle-layer region is sound, its children included.
pub open spec fn layer1_region_wf(bytes: Seq<u8>) -> bool {
    &&& inner_region_shallow_wf(bytes)
    &&& forall|i: int|
        0 <= i < region_n(bytes) ==> leaf_region_wf(#[trigger] region_child(bytes, i))
}

type Level0Builder = InnerLayerBuilder<Box<InnerLayerBuilder<Box<LeafLayerBuilder>>>>;

type Level0Ref<'a> = InnerLayerRef<'a, InnerLayerRef<'a, LeafLayerRef<'a>>>;

/// Accumulates trigrams and chunk boundaries, then serialises the database.
pub struct DatabaseBuilder {
    map: Level0Builder,
    inventory: ChunkInventoryBuilder,
    chunk_end_offsets: ChunkEndsBuilder,
    chunk_end_line_counts: ChunkEndsBuilder,
    last_chunk: Ghost<Option<u64>>,
}

impl DatabaseBuilder {
    /// The trie under construction.
    pub closed spec fn map_of(&self) -> Level0Builder {
        self.map
    }

    /// The inventory under construction.
    pub closed spec fn inventory_of(&self) -> ChunkInventoryBuilder {
        self.inventory
    }

    /// Cumulative byte offsets of the closed chunks.
    pub closed spec fn offsets_of(&self) -> Seq<u32> {
        self.chunk_end_offsets.ends_of()
    }

    /// Cumulative line counts of the closed chunks.
    pub closed spec fn lines_of(&self) -> Seq<u32> {
        self.chunk_end_line_counts.ends_of()
    }

    /// The largest chunk id seen, if any.
    pub closed spec fn last_chunk(&self) -> Option<u64> {
        self.last_chunk@
    }

    /// The inventory index the trie holds for a trigram.
    pub open spec fn leaf_index_at(&self, b0: int, b1: int, b2: int) -> Option<usize> {
        match self.map_of().slots()[b0] {
            Some(l1) => match (*l1).slots()[b1] {
                Some(leaf) => (*leaf).slots()[b2],
                None => None,
            },
            None => None,
        }
    }

    /// Every chunk id added so far for a trigram, duplicates included.
    pub open spec fn ids_for(&self, b0: int, b1: int, b2: int) -> Seq<u64> {
        match self.leaf_index_at(b0, b1, b2) {
            Some(i) => self.inventory_of().lists()[i as int].added(),
            None => Seq::empty(),
        }
    }

    pub open spec fn wf(&self) -> bool {
        &&& self.map_of().wf()
        &&& self.inventory_of().wf()
        &&& forall|b0: int, b1: int, b2: int|
            0 <= b0 < 256 && 0 <= b1 < 256 && 0 <= b2 < 256 ==> match #[trigger] self.leaf_index_at(
                b0,
                b1,
                b2,
            ) {
                Some(i) => (i as int) < self.inventory_of().lists().len(),
                None => true,
            }
        &&& forall|b0: int, b1: int, b2: int, c0: int, c1: int, c2: int|
            0 <= b0 < 256 && 0 <= b1 < 256 && 0 <= b2 < 256 && 0 <= c0 < 256 && 0 <= c1 < 256 && 0
                <= c2 < 256 && (b0, b1, b2) != (c0, c1, c2) && #[trigger] self.leaf_index_at(
                b0,
                b1,
                b2,
            ) is Some && #[trigger] self.leaf_index_at(c0, c1, c2) is Some
                ==> self.leaf_index_at(b0, b1, b2).unwrap() != self.leaf_index_at(
                c0,
                c1,
                c2,
            ).unwrap()
        &&& forall|i: int|
            0 <= i < self.inventory_of().lists().len()
                ==> match crate::int_always_ascending::last_of(
                (#[trigger] self.inventory_of().lists()[i]).added(),
            ) {
                Some(p) => self.last_chunk() is Some && p <= self.last_chunk().unwrap(),
                None => true,
            }
    }

    /// A fresh, empty database builder.
    pub fn new() -> (r: DatabaseBuilder)
        ensures
            r.wf(),
            r.last_chunk() is None,
            r.offsets_of() == Seq::<u32>::empty(),
            r.lines_of() == Seq::<u32>::empty(),
            r.inventory_of().lists().len() == 0,
            forall|b0: int, b1: int, b2: int|
                0 <= b0 < 256 && 0 <= b1 < 256 && 0 <= b2 < 256 ==> #[trigger] r.ids_for(
                    b0,
                    b1,
                    b2,
                ) == Seq::<u64>::empty(),
    {
        let r = DatabaseBuilder {
            map: three_layer_builder(),
            inventory: crate::chunk_inventory::ChunkInventory::builder(),
            chunk_end_offsets: ChunkEndsBuilder::new(),
            chunk_end_line_counts: ChunkEndsBuilder::new(),
            last_chunk: Ghost(None),
        };
        proof {
            assert(forall|b0: int, b1: int, b2: int|
                0 <= b0 < 256 && 0 <= b1 < 256 && 0 <= b2 < 256 ==> #[trigger] r.leaf_index_at(
                    b0,
                    b1,
                    b2,
                ) is None);
        }
        r
    }

    /// Notes that `chunk` holds the trigram. Chunk ids must never descend
    /// across calls; a repeat of the last id for the same trigram is
    /// dropped.
    pub fn add_trigram(&mut self, trigram: [u8; 3], chunk: u64)
        requires
            old(self).wf(),
            old(self).inventory_of().lists().len() < 0xffff_ffff,
            match old(self).last_chunk() {
                None => true,
                Some(p) => chunk >= p,
            },
        ensures
            final(self).wf(),
            final(self).ids_for(trigram[0] as int, trigram[1] as int, trigram[2] as int) == old(
                self,
            ).ids_for(trigram[0] as int, trigram[1] as int, trigram[2] as int).push(chunk),
            forall|b0: int, b1: int, b2: int|
                0 <= b0 < 256 && 0 <= b1 < 256 && 0 <= b2 < 256 && (b0, b1, b2) != (
                    trigram[0] as int,
                    trigram[1] as int,
                    trigram[2] as int,
                ) ==> #[trigger] final(self).ids_for(b0, b1, b2) == old(self).ids_for(b0, b1, b2),
            final(self).offsets_of() == old(self).offsets_of(),
            final(self).lines_of() == old(self).lines_of(),
            final(self).last_chunk() == Some(chunk),
            final(self).inventory_of().lists().len() == old(self).inventory_of().lists().len()
                + (if old(self).leaf_index_at(
                trigram[0] as int,
                trigram[1] as int,
                trigram[2] as int,
            ) is Some {
                0int
            } else {
                1int
            }),
    {
        let b0 = trigram[0];
        let b1 = trigram[1];
        let b2 = trigram[2];
        let l1 = self.map.get(b0);
        proof {
            if old(self).map_of().slots()[b0 as int] is Some {
            } else {
                assert((**l1).wf() && (**l1).is_blank());
            }
        }
        let leaf = (**l1).get(b1);
        proof {
            let pre = *old(self);
            match pre.map_of().slots()[b0 as int] {
                Some(n1) => {
                    assert(pre.map_of().slots()[b0 as int].unwrap().wf());
                    assert((*n1).wf());
                    match (*n1).slots()[b1 as int] {
                        Some(lf) => {
                            assert((*n1).slots()[b1 as int].unwrap().wf());
                            assert((*lf).leaf_wf());
                            assert((**leaf).leaf_wf());
                            assert forall|j: int|
                                0 <= j < 256 && (**leaf).slots()[j] is Some implies (
                            #[trigger] (**leaf).slots()[j]).unwrap()
                                < pre.inventory_of().lists().len() by {
                                assert(pre.leaf_index_at(b0 as int, b1 as int, j) == (
                                *lf).slots()[j]);
                                assert((**leaf).slots()[j] == (*lf).slots()[j]);
                            }
                        },
                        None => {},
                    }
                },
                None => {},
            }
        }
        let list = (**leaf).get(&mut self.inventory, b2);
        list.add(chunk);
        self.last_chunk = Ghost(Some(chunk));
        proof {
            let pre = *old(self);
            let post = *self;
            let t0 = b0 as int;
            let t1 = b1 as int;
            let t2 = b2 as int;
            assert(post.leaf_index_at(t0, t1, t2) is Some);
            let idx = post.leaf_index_at(t0, t1, t2).unwrap() as int;
            assert(post.ids_for(t0, t1, t2) == pre.ids_for(t0, t1, t2).push(chunk));
            assert forall|c0: int, c1: int, c2: int|
                0 <= c0 < 256 && 0 <= c1 < 256 && 0 <= c2 < 256 && (c0, c1, c2) != (
                    t0,
                    t1,
                    t2,
                ) implies #[trigger] post.leaf_index_at(c0, c1, c2) == pre.leaf_index_at(
                c0,
                c1,
                c2,
            ) by {}
            assert forall|c0: int, c1: int, c2: int|
                0 <= c0 < 256 && 0 <= c1 < 256 && 0 <= c2 < 256 && (c0, c1, c2) != (
                    t0,
                    t1,
                    t2,
                ) implies #[trigger] post.ids_for(c0, c1, c2) == pre.ids_for(c0, c1, c2) by {
                match pre.leaf_index_at(c0, c1, c2) {
                    Some(i) => {
                        assert((i as int) < pre.inventory_of().lists().len());
                        assert(i as int != idx);
                        assert(post.inventory_of().lists()[i as int]
                            == pre.inventory_of().lists()[i as int]);
                    },
                    None => {},
                }
            }
            assert(post.wf()) by {
                assert(post.map_of().wf());
                assert(post.inventory_of().wf());
                assert forall|c0: int, c1: int, c2: int|
                    0 <= c0 < 256 && 0 <= c1 < 256 && 0 <= c2 < 256 implies match
                    #[trigger] post.leaf_index_at(c0, c1, c2) {
                    Some(i) => (i as int) < post.inventory_of().lists().len(),
                    None => true,
                } by {
                    if (c0, c1, c2) != (t0, t1, t2) {
                        assert(post.leaf_index_at(c0, c1, c2) == pre.leaf_index_at(c0, c1, c2));
                    }
                }
                assert forall|c0: int, c1: int, c2: int, d0: int, d1: int, d2: int|
                    0 <= c0 < 256 && 0 <= c1 < 256 && 0 <= c2 < 256 && 0 <= d0 < 256 && 0 <= d1
                    < 256 && 0 <= d2 < 256 && (c0, c1, c2) != (d0, d1, d2)
                    && #[trigger] post.leaf_index_at(c0, c1, c2) is Some
                    && #[trigger] post.leaf_index_at(d0, d1, d2) is Some implies post.leaf_index_at(
                    c0,
                    c1,
                    c2,
                ).unwrap() != post.leaf_index_at(d0, d1, d2).unwrap() by {
                    if (c0, c1, c2) != (t0, t1, t2) && (d0, d1, d2) != (t0, t1, t2) {
                        assert(post.leaf_index_at(c0, c1, c2) == pre.leaf_index_at(c0, c1, c2));
                        assert(post.leaf_index_at(d0, d1, d2) == pre.leaf_index_at(d0, d1, d2));
                    } else if (c0, c1, c2) == (t0, t1, t2) {
                        assert(post.leaf_index_at(d0, d1, d2) == pre.leaf_index_at(d0, d1, d2));
                        if pre.leaf_index_at(t0, t1, t2) is None {
                            assert(post.leaf_index_at(t0, t1, t2).unwrap() as int
                                == pre.inventory_of().lists().len());
                        }
                    } else {
                        assert(post.leaf_index_at(c0, c1, c2) == pre.leaf_index_at(c0, c1, c2));
                        if pre.leaf_index_at(t0, t1, t2) is None {
                            assert(post.leaf_index_at(t0, t1, t2).unwrap() as int
                                == pre.inventory_of().lists().len());
                        }
                    }
                }
                assert forall|i: int|
                    0 <= i < post.inventory_of().lists().len() implies match
                    crate::int_always_ascending::last_of(
                    (#[trigger] post.inventory_of().lists()[i]).added(),
                ) {
                    Some(p) => post.last_chunk() is Some && p <= post.last_chunk().unwrap(),
                    None => true,
                } by {
                    if i == idx {
                    } else if i < pre.inventory_of().lists().len() {
                        assert(post.inventory_of().lists()[i] == pre.inventory_of().lists()[i]);
                    }
                }
            }
        }
    }

    /// Closes a chunk at the given cumulative byte offset and line count.
    pub fn add_chunk_end(&mut self, end_offset: u32, end_line_count: u32)
        requires
            old(self).wf(),
        ensures
            final(self).wf(),
            final(self).offsets_of() == old(self).offsets_of().push(end_offset),
            final(self).lines_of() == old(self).lines_of().push(end_line_count),
            final(self).map_of() == old(self).map_of(),
            final(self).inventory_of() == old(self).inventory_of(),
            final(self).last_chunk() == old(self).last_chunk(),
            forall|b0: int, b1: int, b2: int| #[trigger] final(self).ids_for(b0, b1, b2) == old(
                self,
            ).ids_for(b0, b1, b2),
    {
        self.chunk_end_offsets.add(end_offset);
        self.chunk_end_line_counts.add(end_line_count);
        proof {
            assert(forall|c0: int, c1: int, c2: int| #[trigger] final(self).leaf_index_at(
                c0,
                c1,
                c2,
            ) == old(self).leaf_index_at(c0, c1, c2));
        }
    }

    /// The finished byte forms of the inventory's lists.
    pub open spec fn built_lists(&self) -> Seq<Seq<u8>> {
        Seq::new(
            self.inventory_of().lists().len(),
            |i: int| chunk_list_bytes(self.inventory_of().lists()[i].ids()),
        )
    }

    /// Serialises the whole database, appending it to `w`.
    pub fn write(self, w: &mut Vec<u8>)
        requires
            self.wf(),
            self.map_of().spec_bytes().len() <= u32::MAX,
            self.inventory_of().lists().len() <= u32::MAX,
            crate::chunk_inventory::prefix_len(
                self.built_lists(),
                self.built_lists().len() as int,
            ) <= u32::MAX,
            self.offsets_of().len() <= u32::MAX,
            self.lines_of().len() <= u32::MAX,
        ensures
            final(w)@ == old(w)@ + database_bytes(
                self.map_of().spec_bytes(),
                self.built_lists(),
                self.offsets_of(),
                self.lines_of(),
            ),
    {
        let ghost orig = w@;
        w.push(0x67);
        w.push(0x72);
        w.push(0x6f);
        w.push(0x70);
        w.push(0);
        assert(w@ =~= orig + magic_bytes() + seq![0u8]);
        let map_len = self.map.written_len();
        write_u32_be(w, map_len as u32);
        self.map.write(w);
        let inv = self.inventory.build();
        proof {
            assert(inv.lists_of() =~= self.built_lists());
        }
        inv.write(w);
        self.chunk_end_offsets.write(w);
        self.chunk_end_line_counts.write(w);
        assert(w@ =~= orig + database_bytes(
            self.map_of().spec_bytes(),
            self.built_lists(),
            self.offsets_of(),
            self.lines_of(),
        ));
    }
}

/// Whether `k` occurs in `keys`.
pub open spec fn has_key(keys: Seq<u8>, k: u8) -> bool {
    exists|i: int| 0 <= i < keys.len() && keys[i] == k
}

/// The position of `k` in `keys`; meaningful when `has_key` holds and the
/// keys are sorted.
pub open spec fn key_index(keys: Seq<u8>, k: u8) -> int {
    choose|i: int| 0 <= i < keys.len() && keys[i] == k
}

/// In sorted keys, a witnessing position is the position.
pub proof fn lemma_key_index(keys: Seq<u8>, k: u8, i: int)
    requires
        sorted_bytes(keys),
        0 <= i < keys.len(),
        keys[i] == k,
    ensures
        has_key(keys, k),
        key_index(keys, k) == i,
{
    let j = key_index(keys, k);
    assert(0 <= j < keys.len() && keys[j] == k);
    if i < j {
        assert(keys[i] < keys[j]);
    } else if j < i {
        assert(keys[j] < keys[i]);
    }
}

/// Key bytes of a serialised leaf layer.
pub open spec fn leaf_keys(bytes: Seq<u8>) -> Seq<u8> {
    bytes.subrange(0, bytes.len() as int / 5)
}

/// Value bytes of a serialised leaf layer.
pub open spec fn leaf_vals(bytes: Seq<u8>) -> Seq<u8> {
    bytes.subrange(bytes.len() as int / 5, bytes.len() as int)
}

/// A leaf parsed from a sound region is well formed, with the region's
/// pieces as its fields.
pub proof fn lemma_leaf_ref_wf<'a>(r: LeafLayerRef<'a>, bytes: Seq<u8>)
    requires
        crate::inner_layer::NextLayerRef::parsed_from(&r, bytes),
        leaf_region_wf(bytes),
    ensures
        r.wf(),
        r.keys_of() == leaf_keys(bytes),
        r.values_bytes() == leaf_vals(bytes),
        r.keys_of().len() == bytes.len() as int / 5,
{
    assert(5 * (bytes.len() as int / 5) == bytes.len()) by (nonlinear_arith)
        requires
            bytes.len() as int % 5 == 0,
    ;
}

/// What the version field must decode to.
pub open spec fn version_ok(bytes: Seq<u8>) -> bool {
    &&& bytes.len() > 4
    &&& crate::int_variable::vint_ok(bytes.skip(4))
    &&& crate::int_variable::vint_value(bytes.skip(4)) % crate::int_variable::two_to_64() == 0
}

/// Shape of a chunk-ends array at the front of `s`.
pub open spec fn ce_ok(s: Seq<u8>) -> bool {
    s.len() >= 4 && 4 + 4 * be32_val(s, 0) <= s.len()
}

/// Bytes a chunk-ends array at the front of `s` spans.
pub open spec fn ce_size(s: Seq<u8>) -> int {
    4 + 4 * be32_val(s, 0)
}

/// Bytes an inventory at the front of `s` spans.
pub open spec fn inv_size(s: Seq<u8>) -> int {
    4 + 4 * be32_val(s, 0) + be32_val(s, 4 + 4 * (be32_val(s, 0) - 1))
}

/// The frame conditions of a whole database image: once magic and version
/// pass, the trie and inventory frames are sound and the image ends
/// exactly after the second chunk-ends array. `DatabaseRef::from` checks
/// all of this at run time; a written image satisfies it by construction.
pub open spec fn image_wf(bytes: Seq<u8>) -> bool {
    &&& bytes.len() >= 4
    &&& (bytes.subrange(0, 4) == magic_bytes() && version_ok(bytes)) ==> ({
        let ml = be32_val(bytes, 5);
        &&& bytes.len() >= 9
        &&& 9 + ml <= bytes.len()
        &&& inner_parse_wf(bytes.subrange(9, 9 + ml))
        &&& inventory_header_wf(bytes.skip(9 + ml))
        &&& ({
            let inv_end = 9 + ml + inv_size(bytes.skip(9 + ml));
            &&& inv_end <= bytes.len()
            &&& ({
                let s1 = bytes.skip(inv_end);
                ce_ok(s1) ==> ({
                    let s2 = bytes.skip(inv_end + ce_size(s1));
                    ce_ok(s2) ==> inv_end + ce_size(s1) + ce_size(s2) == bytes.len()
                })
            })
        })
    })
}

/// A read-only database, borrowed from one contiguous byte image.
pub struct DatabaseRef<'a> {
    map: Level0Ref<'a>,
    inventory: ChunkInventoryRef<'a>,
    chunk_end_offsets: ChunkEndsRef<'a>,
    chunk_end_line_counts: ChunkEndsRef<'a>,
}

impl<'a> DatabaseRef<'a> {
    /// The parsed trigram trie.
    pub closed spec fn map_of(&self) -> Level0Ref<'a> {
        self.map
    }

    /// The parsed inventory.
    pub closed spec fn inventory_of(&self) -> ChunkInventoryRef<'a> {
        self.inventory
    }

    /// The parsed chunk byte offsets.
    pub closed spec fn offsets_ref(&self) -> ChunkEndsRef<'a> {
        self.chunk_end_offsets
    }

    /// The parsed chunk line counts.
    pub closed spec fn lines_ref(&self) -> ChunkEndsRef<'a> {
        self.chunk_end_line_counts
    }

    /// The inventory index the trie holds for a trigram, by walking the
    /// three layers' bytes.
    pub open spec fn trigram_entry(&self, b0: u8, b1: u8, b2: u8) -> Option<int> {
        let m = self.map_of();
        if !has_key(m.keys_of(), b0) {
            None
        } else {
            let l1 = m.child_bytes(key_index(m.keys_of(), b0));
            if !has_key(region_keys(l1), b1) {
                None
            } else {
                let leafb = region_child(l1, key_index(region_keys(l1), b1));
                if !has_key(leaf_keys(leafb), b2) {
                    None
                } else {
                    Some(be32_val(leaf_vals(leafb), 4 * key_index(leaf_keys(leafb), b2)))
                }
            }
        }
    }

    pub open spec fn wf(&self) -> bool {
        &&& self.map_of().wf()
        &&& forall|i: int|
            0 <= i < self.map_of().count() ==> layer1_region_wf(
                #[trigger] self.map_of().child_bytes(i),
            )
        &&& self.inventory_of().wf()
        &&& self.offsets_ref().wf()
        &&& self.lines_ref().wf()
        &&& self.lines_ref().ends_of().len() == self.offsets_ref().ends_of().len()
        &&& forall|b0: u8, b1: u8, b2: u8|
            match #[trigger] self.trigram_entry(b0, b1, b2) {
                Some(v) => 0 <= v < self.inventory_of().count(),
                None => true,
            }
        &&& forall|i: int|
            0 <= i < self.inventory_of().count() ==> crate::int_always_ascending::ascending_valid(
                #[trigger] self.inventory_of().list_at(i),
                None::<u64>,
            )
    }

    /// Parses a database image. Every frame length is checked against the
    /// image; a region that runs past the end is reported as an error, as
    /// are wrong magic, a bad version and trailing bytes.
    pub fn from(bytes: &'a [u8]) -> (r: Result<Self, ReadError<'a>>)
        ensures
            ({
                let s = bytes@;
                if s.len() < 4 {
                    r is Err && r->Err_0 is Truncated
                } else if s.subrange(0, 4) != magic_bytes() {
                    r is Err && r->Err_0 is BadMagic && r->Err_0->BadMagic_0@ == s.subrange(0, 4)
                } else if s.len() == 4 {
                    r is Err && r->Err_0 is NoVersion
                } else if !crate::int_variable::vint_ok(s.skip(4)) {
                    r is Err && r->Err_0 is VersionDecodeError
                } else if crate::int_variable::vint_value(s.skip(4))
                    % crate::int_variable::two_to_64() != 0 {
                    r == Result::<Self, ReadError<'a>>::Err(
                        ReadError::WrongVersion(
                            0,
                            (crate::int_variable::vint_value(s.skip(4))
                                % crate::int_variable::two_to_64()) as u64,
                        ),
                    )
                } else if s.len() < 9 {
                    r is Err && r->Err_0 is Truncated
                } else {
                    ({
                        let ml = be32_val(s, 5);
                        if 9 + ml > s.len() {
                            r is Err && r->Err_0 is Truncated
                        } else if !inner_parse_wf(s.subrange(9, 9 + ml)) {
                            r is Err && r->Err_0 is Truncated
                        } else if !inventory_header_wf(s.skip(9 + ml)) {
                            r is Err && r->Err_0 is Truncated
                        } else {
                            ({
                                let invreg = s.skip(9 + ml);
                                let inv_end = 9 + ml + inv_size(invreg);
                                let s1 = s.skip(inv_end);
                                if !ce_ok(s1) {
                                    r is Err && r->Err_0 is InvalidChunkEnds
                                } else {
                                    ({
                                        let s2 = s.skip(inv_end + ce_size(s1));
                                        if !ce_ok(s2) {
                                            r is Err && r->Err_0 is InvalidChunkEnds
                                        } else if inv_end + ce_size(s1) + ce_size(s2)
                                            != s.len() {
                                            r is Err && r->Err_0 is Truncated
                                        } else {
                                            match r {
                                                Ok(db) => {
                                                    &&& db.map_of().parsed_from(
                                                        s.subrange(9, 9 + ml),
                                                    )
                                                    &&& db.inventory_of().offsets_bytes()
                                                        == invreg.subrange(
                                                        4,
                                                        4 + 4 * be32_val(invreg, 0),
                                                    )
                                                    &&& db.inventory_of().lists_bytes()
                                                        == invreg.subrange(
                                                        4 + 4 * be32_val(invreg, 0),
                                                        inv_size(invreg),
                                                    )
                                                    &&& db.inventory_of().count() == be32_val(
                                                        invreg,
                                                        0,
                                                    )
                                                    &&& db.offsets_ref().wf()
                                                    &&& db.offsets_ref().ends_bytes()
                                                        == s1.subrange(4, ce_size(s1))
                                                    &&& db.offsets_ref().ends_of().len()
                                                        == be32_val(s1, 0)
                                                    &&& db.lines_ref().wf()
                                                    &&& db.lines_ref().ends_bytes()
                                                        == s2.subrange(4, ce_size(s2))
                                                    &&& db.lines_ref().ends_of().len()
                                                        == be32_val(s2, 0)
                                                },
                                                Err(_) => false,
                                            }
                                        }
                                    })
                                }
                            })
                        }
                    })
                }
            }),
    {
        let blen: usize = bytes.len();
        if blen < 4 {
            return Err(ReadError::Truncated(blen));
        }
        if bytes[0] != 0x67 || bytes[1] != 0x72 || bytes[2] != 0x6f || bytes[3] != 0x70 {
            proof {
                assert(bytes@.subrange(0, 4)[0] == bytes@[0]);
                assert(bytes@.subrange(0, 4)[1] == bytes@[1]);
                assert(bytes@.subrange(0, 4)[2] == bytes@[2]);
                assert(bytes@.subrange(0, 4)[3] == bytes@[3]);
            }
            return Err(ReadError::BadMagic(crate::chunk_ends::slice_range(bytes, 0, 4)));
        }
        proof {
            assert(bytes@.subrange(0, 4) =~= magic_bytes());
        }
        let vslice = crate::chunk_ends::slice_range(bytes, 4, blen);
        proof {
            assert(vslice@ =~= bytes@.skip(4));
        }
        let mut vit = crate::int_variable::iter(vslice);
        proof {
            assert(vit.remaining() =~= bytes@.skip(4));
        }
        match vit.next() {
            None => {
                return Err(ReadError::NoVersion(vslice));
            },
            Some(Err(e)) => {
                return Err(ReadError::VersionDecodeError(e));
            },
            Some(Ok(version)) => {
                if version != 0 {
                    return Err(ReadError::WrongVersion(0, version));
                }
            },
        }
        proof {
            assert(version_ok(bytes@));
        }
        if blen < 9 {
            return Err(ReadError::Truncated(blen));
        }
        let ml = read_u32_be(bytes, 5) as usize;
        if 9 + ml as u64 > blen as u64 {
            return Err(ReadError::Truncated(blen));
        }
        let map_bytes = crate::chunk_ends::slice_range(bytes, 9, 9 + ml);
        proof {
            assert(map_bytes@ =~= bytes@.subrange(9, 9 + ml as int));
        }
        if map_bytes.len() < 4 {
            return Err(ReadError::Truncated(blen));
        }
        let map_n = read_u32_be(map_bytes, 0);
        if 4 + 5 * (map_n as u64) > map_bytes.len() as u64 {
            return Err(ReadError::Truncated(blen));
        }
        proof {
            assert(inner_parse_wf(map_bytes@));
        }
        let map = three_layer_ref_from_bytes(map_bytes);
        let rest = crate::chunk_ends::slice_range(bytes, 9 + ml, blen);
        proof {
            assert(rest@ =~= bytes@.skip(9 + ml as int));
        }
        if rest.len() < 4 {
            return Err(ReadError::Truncated(blen));
        }
        let inv_n = read_u32_be(rest, 0);
        if inv_n == 0 {
            return Err(ReadError::Truncated(blen));
        }
        if 4 + 4 * (inv_n as u64) > rest.len() as u64 {
            return Err(ReadError::Truncated(blen));
        }
        let last_off = read_u32_be(rest, 4 + 4 * ((inv_n as usize) - 1));
        if 4 + 4 * (inv_n as u64) + last_off as u64 > rest.len() as u64 {
            return Err(ReadError::Truncated(blen));
        }
        proof {
            assert(inventory_header_wf(rest@));
        }
        let (inventory, inv_used) = ChunkInventoryRef::from(rest);
        let s1 = crate::chunk_ends::slice_range(rest, inv_used, rest.len());
        proof {
            assert(s1@ =~= bytes@.skip(9 + ml as int + inv_used as int));
        }
        let (chunk_end_offsets, ce1_used) = match ChunkEndsRef::from(s1) {
            Ok(x) => x,
            Err(e) => {
                return Err(e);
            },
        };
        let s2 = crate::chunk_ends::slice_range(s1, ce1_used, s1.len());
        proof {
            assert(s2@ =~= bytes@.skip(9 + ml as int + inv_used as int + ce1_used as int));
            assert(s2@ =~= s1@.skip(ce1_used as int));
        }
        let (chunk_end_line_counts, ce2_used) = match ChunkEndsRef::from(s2) {
            Ok(x) => x,
            Err(e) => {
                return Err(e);
            },
        };
        if 9 + ml as u64 + inv_used as u64 + ce1_used as u64 + ce2_used as u64 != blen as u64 {
            return Err(ReadError::Truncated(blen));
        }
        proof {
            assert(s1@.subrange(4, ce_size(s1@)) =~= bytes@.skip(
                9 + ml as int + inv_used as int,
            ).subrange(4, ce_size(s1@)));
        }
        Ok(DatabaseRef { map, inventory, chunk_end_offsets, chunk_end_line_counts })
    }

    /// The chunk list for a trigram, or `None` when no chunk holds it.
    #[verifier::rlimit(100)]
    pub fn chunks_containing(&self, trigram: &[u8; 3]) -> (r: Option<ChunkListRef<'a>>)
        requires
            self.wf(),
        ensures
            match r {
                Some(cl) => self.trigram_entry(trigram[0], trigram[1], trigram[2]) is Some
                    && cl.bytes_of() == self.inventory_of().list_at(
                    self.trigram_entry(trigram[0], trigram[1], trigram[2]).unwrap(),
                ),
                None => self.trigram_entry(trigram[0], trigram[1], trigram[2]) is None,
            },
    {
        let b0 = trigram[0];
        let b1 = trigram[1];
        let b2 = trigram[2];
        let m = &self.map;
        let l1r = match m.get(b0) {
            Some(x) => x,
            None => {
                return None;
            },
        };
        let ghost i0 = choose|i: int|
            0 <= i < m.count() && m.keys_of()[i] == b0 && l1r.parsed_from(m.child_bytes(i));
        let ghost l1b = m.child_bytes(i0);
        proof {
            lemma_key_index(m.keys_of(), b0, i0);
            assert(layer1_region_wf(l1b));
            assert forall|i: int|
                0 <= i < region_n(l1b) implies crate::leaf_layer::leaf_parse_wf(
                #[trigger] region_child(l1b, i),
            ) by {
                assert(leaf_region_wf(region_child(l1b, i)));
            }
            lemma_region_ref_wf(l1r, l1b);
        }
        let leafr = match l1r.get(b1) {
            Some(x) => x,
            None => {
                return None;
            },
        };
        let ghost i1 = choose|i: int|
            0 <= i < l1r.count() && l1r.keys_of()[i] == b1 && crate::inner_layer::NextLayerRef::parsed_from(
                &leafr,
                l1r.child_bytes(i),
            );
        let ghost leafb = region_child(l1b, i1);
        proof {
            lemma_key_index(l1r.keys_of(), b1, i1);
            assert(l1r.child_bytes(i1) == leafb);
            assert(leaf_region_wf(leafb));
            lemma_leaf_ref_wf(leafr, leafb);
        }
        let idx = match leafr.get(b2) {
            Some(x) => x,
            None => {
                return None;
            },
        };
        let ghost i2 = choose|i: int|
            0 <= i < leafr.keys_of().len() && leafr.keys_of()[i] == b2 && idx == leafr.value_at(
                i,
            );
        proof {
            lemma_key_index(leafr.keys_of(), b2, i2);
            assert(self.trigram_entry(b0, b1, b2) == Some(idx as int));
        }
        Some(self.inventory.get(idx))
    }

    /// The chunk list at inventory position `id`.
    pub fn chunks_containing_by_ord(&self, id: usize) -> (r: ChunkListRef<'a>)
        requires
            self.wf(),
            (id as int) < self.inventory_of().count(),
        ensures
            r.bytes_of() == self.inventory_of().list_at(id as int),
    {
        self.inventory.get(id)
    }

    /// Cumulative byte offset at which `chunk` ends.
    pub fn chunk_end_offset(&self, chunk: u32) -> (r: u32)
        requires
            self.wf(),
            (chunk as int) < self.offsets_ref().ends_of().len(),
        ensures
            r == self.offsets_ref().ends_of()[chunk as int],
    {
        self.chunk_end_offsets.get(chunk)
    }

    /// Cumulative line count at which `chunk` ends.
    pub fn chunk_end_line_count(&self, chunk: u32) -> (r: u32)
        requires
            self.wf(),
            (chunk as int) < self.lines_ref().ends_of().len(),
        ensures
            r == self.lines_ref().ends_of()[chunk as int],
    {
        self.chunk_end_line_counts.get(chunk)
    }

    /// Number of chunks indexed.
    pub fn chunk_count(&self) -> (r: u32)
        requires
            self.wf(),
            self.offsets_ref().ends_of().len() <= u32::MAX,
        ensures
            r == self.offsets_ref().ends_of().len(),
    {
        self.chunk_end_offsets.len() as u32
    }

    /// Number of distinct trigrams indexed.
    pub fn trigram_count(&self) -> (r: usize)
        ensures
            r == self.inventory_of().count(),
    {
        self.inventory.len()
    }

    /// Number of bytes of the trigram trie.
    pub fn map_size(&self) -> (r: usize)
        requires
            self.map_of().keys_of().len() + self.map_of().ends_bytes().len()
                + self.map_of().values_bytes().len() <= usize::MAX,
        ensures
            r == self.map_of().keys_of().len() + self.map_of().ends_bytes().len()
                + self.map_of().values_bytes().len(),
    {
        self.map.size_of()
    }

    /// Number of bytes of the inventory.
    pub fn inventory_size(&self) -> (r: usize)
        requires
            self.inventory_of().offsets_bytes().len() + self.inventory_of().lists_bytes().len()
                <= usize::MAX,
        ensures
            r == self.inventory_of().offsets_bytes().len()
                + self.inventory_of().lists_bytes().len(),
    {
        self.inventory.size_of()
    }

    /// Number of bytes of the chunk end offsets.
    pub fn chunk_end_offsets_size(&self) -> (r: usize)
        ensures
            r == self.offsets_ref().ends_bytes().len(),
    {
        self.chunk_end_offsets.size_of()
    }

    /// Number of bytes of the chunk line counts.
    pub fn chunk_end_line_counts_size(&self) -> (r: usize)
        ensures
            r == self.lines_ref().ends_bytes().len(),
    {
        self.chunk_end_line_counts.size_of()
    }
}

/// A serialised database image is accepted by the reader: it carries the
/// magic and the first version, its trie and inventory frames are sound,
/// and the inventory, chunk-offset and line-count regions parse back to
/// exactly what was written.
#[verifier::rlimit(100)]
#[verifier::spinoff_prover]
pub proof fn lemma_database_image_wf(
    map: Seq<u8>,
    lists: Seq<Seq<u8>>,
    offs: Seq<u32>,
    lcs: Seq<u32>,
)
    requires
        inner_parse_wf(map),
        map.len() <= u32::MAX,
        1 <= lists.len() <= u32::MAX,
        crate::chunk_inventory::prefix_len(lists, lists.len() as int) <= u32::MAX,
        offs.len() <= u32::MAX,
        lcs.len() <= u32::MAX,
    ensures
        ({
            let s = database_bytes(map, lists, offs, lcs);
            let invreg = s.skip(9 + map.len() as int);
            let inv_end = 9 + map.len() as int + inv_size(invreg);
            let s1 = s.skip(inv_end);
            let s2 = s.skip(inv_end + ce_size(s1));
            &&& image_wf(s)
            &&& s.subrange(0, 4) == magic_bytes()
            &&& version_ok(s)
            &&& be32_val(s, 5) == map.len()
            &&& s.subrange(9, 9 + map.len() as int) == map
            &&& invreg == inventory_bytes(lists) + chunk_ends_bytes(offs) + chunk_ends_bytes(
                lcs,
            )
            &&& inv_size(invreg) == inventory_bytes(lists).len()
            &&& invreg.subrange(4, 4 + 4 * be32_val(invreg, 0)) == crate::big_endian::be32_concat(
                crate::chunk_inventory::inventory_offsets(lists),
            )
            &&& invreg.subrange(4 + 4 * be32_val(invreg, 0), inv_size(invreg))
                == crate::chunk_inventory::concat_all(lists)
            &&& be32_val(invreg, 0) == lists.len()
            &&& ce_ok(s1)
            &&& parse_u32s(s1.subrange(4, ce_size(s1))) == offs
            &&& ce_ok(s2)
            &&& parse_u32s(s2.subrange(4, ce_size(s2))) == lcs
            &&& inv_end + ce_size(s1) + ce_size(s2) == s.len()
        }),
{
    let s = database_bytes(map, lists, offs, lcs);
    let head = magic_bytes() + seq![0u8] + be32(map.len() as u32);
    let tail1 = chunk_ends_bytes(offs) + chunk_ends_bytes(lcs);
    assert(s.subrange(0, 4) =~= magic_bytes());
    assert(s[4] == 0);
    assert(version_ok(s)) by {
        assert(s.skip(4)[0] == 0);
        assert(crate::int_variable::vint_ok(s.skip(4)));
        assert(crate::int_variable::vint_value(s.skip(4)) == 0);
    }
    assert(s.subrange(5, 9) =~= be32(map.len() as u32));
    crate::big_endian::lemma_be32_val(map.len() as u32, s, 5);
    assert(s.subrange(9, 9 + map.len() as int) =~= map);
    let invreg = s.skip(9 + map.len() as int);
    assert(invreg =~= inventory_bytes(lists) + tail1);
    crate::chunk_inventory::lemma_inventory_round_trip(lists, tail1);
    crate::chunk_inventory::lemma_prefix_len_monotone(lists, 0, lists.len() as int);
    assert(inv_size(invreg) == inventory_bytes(lists).len());
    assert(crate::chunk_inventory::inventory_header_wf(invreg));
    let inv_end = 9 + map.len() as int + inv_size(invreg);
    let s1 = s.skip(inv_end as int);
    assert(s1 =~= tail1);
    crate::chunk_ends::lemma_chunk_ends_round_trip(offs, chunk_ends_bytes(lcs));
    assert(ce_ok(s1));
    assert(ce_size(s1) == chunk_ends_bytes(offs).len()) by {
        crate::big_endian::lemma_be32_concat_parse(offs);
    }
    assert(s1.subrange(4, ce_size(s1)) =~= crate::big_endian::be32_concat(offs));
    crate::big_endian::lemma_be32_concat_parse(offs);
    let s2 = s.skip(inv_end + ce_size(s1));
    assert(s2 =~= chunk_ends_bytes(lcs));
    crate::chunk_ends::lemma_chunk_ends_round_trip(lcs, Seq::empty());
    assert(chunk_ends_bytes(lcs) + Seq::<u8>::empty() =~= chunk_ends_bytes(lcs));
    assert(ce_ok(s2));
    assert(ce_size(s2) == chunk_ends_bytes(lcs).len()) by {
        crate::big_endian::lemma_be32_concat_parse(lcs);
    }
    assert(s2.subrange(4, ce_size(s2)) =~= crate::big_endian::be32_concat(lcs));
    crate::big_endian::lemma_be32_concat_parse(lcs);
    assert(inv_end + ce_size(s1) + ce_size(s2) == s.len());
}

} // verus!
