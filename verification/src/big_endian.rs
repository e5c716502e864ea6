//! Big-endian `u32` fields, used throughout the on-disk format.

use vstd::prelude::*;

verus! {

/// The four big-endian bytes of `v`.
pub open spec fn be32(v: u32) -> Seq<u8> {
    seq![
        (v / 0x100_0000) as u8,
        ((v / 0x1_0000) % 0x100) as u8,
        ((v / 0x100) % 0x100) as u8,
        (v % 0x100) as u8,
    ]
}

/// The value of the four big-endian bytes at `i`.
pub open spec fn be32_val(s: Seq<u8>, i: int) -> int {
    s[i] * 0x100_0000 + s[i + 1] * 0x1_0000 + s[i + 2] * 0x100 + s[i + 3]
}

/// The concatenated big-endian bytes of a sequence of values.
pub open spec fn be32_concat(vs: Seq<u32>) -> Seq<u8>
    decreases vs.len(),
{
    if vs.len() == 0 {
        Seq::empty()
    } else {
        be32(vs[0]) + be32_concat(vs.skip(1))
    }
}

/// Consecutive four-byte big-endian values read from the whole of `s`.
pub open spec fn parse_u32s(s: Seq<u8>) -> Seq<u32>
    decreases s.len(),
{
    if s.len() < 4 {
        Seq::empty()
    } else {
        seq![be32_val(s, 0) as u32] + parse_u32s(s.skip(4))
    }
}

/// Writing a value and reading it back give the value.
pub proof fn lemma_be32_val(v: u32, s: Seq<u8>, i: int)
    requires
        0 <= i,
        i + 4 <= s.len(),
        s.subrange(i, i + 4) == be32(v),
    ensures
        be32_val(s, i) == v,
{
    assert(s[i] == be32(v)[0] && s[i + 1] == be32(v)[1] && s[i + 2] == be32(v)[2] && s[i + 3]
        == be32(v)[3]) by {
        assert(s.subrange(i, i + 4)[0] == s[i]);
        assert(s.subrange(i, i + 4)[1] == s[i + 1]);
        assert(s.subrange(i, i + 4)[2] == s[i + 2]);
        assert(s.subrange(i, i + 4)[3] == s[i + 3]);
    }
    assert((v / 0x100_0000) * 0x100_0000 + ((v / 0x1_0000) % 0x100) * 0x1_0000 + ((v / 0x100)
        % 0x100) * 0x100 + (v % 0x100) == v) by (nonlinear_arith);
}

/// The `i`-th parsed value sits at byte offset `4 * i`.
pub proof fn lemma_parse_u32s_index(s: Seq<u8>, i: int)
    requires
        0 <= i,
        4 * i + 4 <= s.len(),
    ensures
        parse_u32s(s).len() == s.len() / 4,
        i < parse_u32s(s).len() ==> parse_u32s(s)[i] == be32_val(s, 4 * i) as u32,
    decreases s.len(),
{
    lemma_parse_u32s_len(s);
    if i == 0 {
    } else {
        assert(s.skip(4) =~= s.subrange(4, s.len() as int));
        lemma_parse_u32s_index(s.skip(4), i - 1);
        assert(parse_u32s(s)[i] == parse_u32s(s.skip(4))[i - 1]);
        assert(be32_val(s.skip(4), 4 * (i - 1)) == be32_val(s, 4 * i));
    }
}

/// Four bytes go to one value; a trailing fragment is dropped.
pub proof fn lemma_parse_u32s_len(s: Seq<u8>)
    ensures
        parse_u32s(s).len() == s.len() / 4,
    decreases s.len(),
{
    if s.len() < 4 {
    } else {
        lemma_parse_u32s_len(s.skip(4));
        assert(s.len() / 4 == 1 + (s.len() - 4) / 4) by (nonlinear_arith)
            requires s.len() >= 4;
    }
}

/// A four-byte big-endian value is non-negative and fits a `u32`.
pub proof fn lemma_be32_val_bounds(s: Seq<u8>, i: int)
    requires
        0 <= i,
        i + 4 <= s.len(),
    ensures
        0 <= be32_val(s, i) <= u32::MAX,
{
}

/// Appending one more value appends its four bytes.
pub proof fn lemma_be32_concat_push(vs: Seq<u32>, v: u32)
    ensures
        be32_concat(vs.push(v)) == be32_concat(vs) + be32(v),
    decreases vs.len(),
{
    let p = vs.push(v);
    if vs.len() == 0 {
        assert(p[0] == v);
        assert(p.skip(1) =~= Seq::<u32>::empty());
        reveal_with_fuel(be32_concat, 3);
        assert(be32_concat(p) =~= be32_concat(vs) + be32(v));
    } else {
        assert(p[0] == vs[0]);
        assert(p.skip(1) =~= vs.skip(1).push(v));
        lemma_be32_concat_push(vs.skip(1), v);
        assert(be32_concat(p) == be32(vs[0]) + (be32_concat(vs.skip(1)) + be32(v)));
        assert(be32(vs[0]) + (be32_concat(vs.skip(1)) + be32(v)) =~= (be32(vs[0]) + be32_concat(
            vs.skip(1),
        )) + be32(v));
    }
}

/// Appends the four big-endian bytes of `v`.
pub fn write_u32_be(w: &mut Vec<u8>, v: u32)
    ensures
        final(w)@ == old(w)@ + be32(v),
{
    let ghost orig = w@;
    w.push((v / 0x100_0000) as u8);
    w.push(((v / 0x1_0000) % 0x100) as u8);
    w.push(((v / 0x100) % 0x100) as u8);
    w.push((v % 0x100) as u8);
    assert(w@ =~= orig + be32(v));
}

/// Reads the four big-endian bytes at `pos` as one value.
pub fn read_u32_be(bytes: &[u8], pos: usize) -> (r: u32)
    requires
        pos + 4 <= bytes@.len(),
    ensures
        r == be32_val(bytes@, pos as int),
{
    let b0 = bytes[pos] as u32;
    let b1 = bytes[pos + 1] as u32;
    let b2 = bytes[pos + 2] as u32;
    let b3 = bytes[pos + 3] as u32;
    b0 * 0x100_0000 + b1 * 0x1_0000 + b2 * 0x100 + b3
}

/// Round trip of `be32_concat` and `parse_u32s`.
pub proof fn lemma_be32_concat_parse(vs: Seq<u32>)
    ensures
        be32_concat(vs).len() == 4 * vs.len(),
        parse_u32s(be32_concat(vs)) == vs,
    decreases vs.len(),
{
    if vs.len() > 0 {
        lemma_be32_concat_parse(vs.skip(1));
        let s = be32_concat(vs);
        assert(s.skip(4) =~= be32_concat(vs.skip(1)));
        assert(s.subrange(0, 4) =~= be32(vs[0]));
        lemma_be32_val(vs[0], s, 0);
        assert(parse_u32s(s) == seq![vs[0]] + vs.skip(1));
        assert(seq![vs[0]] + vs.skip(1) =~= vs);
    } else {
        assert(parse_u32s(be32_concat(vs)) =~= vs);
    }
}

} // verus!
