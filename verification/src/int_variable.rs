//! Variable-byte integer codec: a `u64` is stored least-significant seven
//! bits first, each byte carrying a continuation flag in its high bit. The
//! encoding of 128 is `0x80 0x01`; of 16384 is `0x80 0x80 0x01`.

use vstd::prelude::*;
use crate::codec::DecodeError;
use crate::codec::Write as WriteSink;

verus! {

/// One value past `u64::MAX`; decoding reduces accumulated group sums by it.
pub open spec fn two_to_64() -> int {
    0x1_0000_0000_0000_0000
}

/// `128^n`, the weight of the `n`-th seven-bit group.
pub open spec fn pow128(n: int) -> int
    decreases n,
{
    if n <= 0 {
        1
    } else {
        128 * pow128(n - 1)
    }
}

/// The bytes that encode a single value.
pub open spec fn vint_encode(v: u64) -> Seq<u8>
    decreases v,
{
    if v < 128 {
        seq![v as u8]
    } else {
        seq![(v % 128 + 128) as u8] + vint_encode(v / 128)
    }
}

/// The bytes that encode a sequence of values, back to back.
pub open spec fn vint_stream(vs: Seq<u64>) -> Seq<u8>
    decreases vs.len(),
{
    if vs.len() == 0 {
        Seq::empty()
    } else {
        vint_encode(vs[0]) + vint_stream(vs.skip(1))
    }
}

/// A decoder starting at `s` finds a terminating byte (high bit clear)
/// within its ten-byte budget.
pub open spec fn vint_ok(s: Seq<u8>) -> bool {
    exists|i: int| 0 <= i < s.len() && i < 10 && s[i] < 128
}

/// Number of bytes up to and including the first terminating byte.
pub open spec fn vint_size(s: Seq<u8>) -> int
    decreases s.len(),
{
    if s.len() == 0 {
        0
    } else if s[0] < 128 {
        1
    } else {
        1 + vint_size(s.skip(1))
    }
}

/// The unbounded integer held by the seven-bit groups up to the first
/// terminating byte.
pub open spec fn vint_value(s: Seq<u8>) -> int
    decreases s.len(),
{
    if s.len() == 0 {
        0
    } else if s[0] < 128 {
        s[0] as int
    } else {
        (s[0] - 128) + 128 * vint_value(s.skip(1))
    }
}

/// The error for a stream that ends in the middle of a value.
pub open spec fn partial_vint_error() -> DecodeError {
    DecodeError("read partial vint")
}

/// The error for a value whose continuation bytes run past 64 bits.
pub open spec fn overflow_vint_error() -> DecodeError {
    DecodeError("read vint more bigger than 64")
}

proof fn lemma_pow128_pos(n: int)
    ensures
        pow128(n) >= 1,
    decreases n,
{
    if n > 0 {
        lemma_pow128_pos(n - 1);
    }
}

proof fn lemma_pow128_mono(a: int, b: int)
    requires
        a <= b,
    ensures
        pow128(a) <= pow128(b),
    decreases b,
{
    if a < b && b > 0 {
        lemma_pow128_mono(a, b - 1);
        lemma_pow128_pos(b - 1);
    }
}

/// The encoding never runs past `n` bytes for a value below `128^n`.
proof fn lemma_vint_encode_len(v: u64, n: int)
    requires
        n >= 1,
        v < pow128(n),
    ensures
        1 <= vint_encode(v).len() <= n,
    decreases v,
{
    if v >= 128 {
        assert(v < 128 * pow128(n - 1));
        assert(v / 128 < pow128(n - 1)) by (nonlinear_arith)
            requires v < 128 * pow128(n - 1) && v >= 0;
        if n - 1 == 0 {
            lemma_pow128_pos(0);
        } else {
            lemma_vint_encode_len(v / 128, n - 1);
        }
    }
}

/// Every `u64` fits in ten seven-bit groups.
pub proof fn lemma_vint_encode_len10(v: u64)
    ensures
        1 <= vint_encode(v).len() <= 10,
{
    assert(pow128(10) > u64::MAX as int) by {
        reveal_with_fuel(pow128, 11);
    }
    lemma_vint_encode_len(v, 10);
}

/// The decoded value is never negative.
pub proof fn lemma_vint_value_nonneg(s: Seq<u8>)
    ensures
        vint_value(s) >= 0,
    decreases s.len(),
{
    if s.len() > 0 && s[0] >= 128 {
        lemma_vint_value_nonneg(s.skip(1));
    }
}

/// `vint_size` consumes at least one byte of a non-empty stream and never
/// more than the stream holds.
pub proof fn lemma_vint_size_bounds(s: Seq<u8>)
    ensures
        s.len() == 0 ==> vint_size(s) == 0,
        s.len() > 0 ==> 1 <= vint_size(s) <= s.len(),
    decreases s.len(),
{
    if s.len() > 0 && s[0] >= 128 {
        lemma_vint_size_bounds(s.skip(1));
    }
}

/// In a decodable stream, the byte at `vint_size - 1` is the terminator and
/// every byte before it carries the continuation bit.
pub proof fn lemma_vint_size_terminator(s: Seq<u8>)
    requires
        vint_ok(s),
    ensures
        1 <= vint_size(s) <= 10,
        s[vint_size(s) - 1] < 128,
        forall|i: int| 0 <= i < vint_size(s) - 1 ==> s[i] >= 128,
    decreases s.len(),
{
    if s[0] >= 128 {
        let i = choose|i: int| 0 <= i < s.len() && i < 10 && s[i] < 128;
        assert(s.skip(1)[i - 1] == s[i]);
        assert(vint_ok(s.skip(1)));
        lemma_vint_size_terminator(s.skip(1));
        assert(vint_size(s) == 1 + vint_size(s.skip(1)));
        assert(s[vint_size(s) - 1] == s.skip(1)[vint_size(s.skip(1)) - 1]);
        assert forall|j: int| 0 <= j < vint_size(s) - 1 implies s[j] >= 128 by {
            if j >= 1 {
                assert(s[j] == s.skip(1)[j - 1]);
            }
        }
    }
}

/// Decoding starts back up exactly where an encoded value ends: a stream
/// that begins with `vint_encode(v)` decodes to `v`, consuming its bytes.
pub proof fn lemma_vint_encode_decode(v: u64, rest: Seq<u8>)
    ensures
        ({
            let s = vint_encode(v) + rest;
            &&& vint_ok(s)
            &&& vint_size(s) == vint_encode(v).len()
            &&& vint_value(s) == v
            &&& s.skip(vint_encode(v).len() as int) == rest
        }),
    decreases v,
{
    let s = vint_encode(v) + rest;
    lemma_vint_encode_len10(v);
    if v < 128 {
        assert(s[0] == v as u8);
        assert(s.skip(1) =~= rest);
    } else {
        let b: u8 = (v % 128 + 128) as u8;
        assert(s[0] == b);
        assert(s.skip(1) =~= vint_encode(v / 128) + rest);
        lemma_vint_encode_decode(v / 128, rest);
        lemma_vint_encode_len10(v / 128);
        assert(s.skip(1).skip(vint_encode(v / 128).len() as int) =~= s.skip(
            vint_encode(v).len() as int,
        ));
        assert(vint_value(s) == (b - 128) + 128 * vint_value(s.skip(1)));
        assert((b - 128) + 128 * (v / 128) == v) by {
            vstd::arithmetic::div_mod::lemma_fundamental_div_mod(v as int, 128);
        }
        assert(exists|j: int| 0 <= j < s.len() && j < 10 && s[j] < 128) by {
            lemma_vint_size_terminator(s.skip(1));
            let j = vint_size(s.skip(1));
            assert(s[j] == s.skip(1)[j - 1]);
            assert(vint_size(s.skip(1)) == vint_encode(v / 128).len());
            assert(v / 128 < pow128(9)) by {
                assert(pow128(9) == 0x8000_0000_0000_0000) by {
                    reveal_with_fuel(pow128, 10);
                }
                assert(v / 128 < 0x8000_0000_0000_0000) by (nonlinear_arith);
            }
            lemma_vint_encode_len(v / 128, 9);
            assert(vint_encode(v / 128).len() <= 9);
            assert(0 <= j < s.len() && j < 10 && s[j] < 128);
        }
        assert(vint_size(s) == 1 + vint_size(s.skip(1)));
    }
}

/// The values a byte stream decodes to, one after the other, for as long
/// as whole values keep coming.
pub open spec fn vint_decode_stream(s: Seq<u8>) -> Seq<u64>
    decreases s.len() via vint_decode_stream_decreases
{
    if s.len() == 0 || !vint_ok(s) {
        Seq::empty()
    } else {
        seq![(vint_value(s) % two_to_64()) as u64] + vint_decode_stream(s.skip(vint_size(s)))
    }
}

#[via_fn]
proof fn vint_decode_stream_decreases(s: Seq<u8>) {
    lemma_vint_size_bounds(s);
}

/// A sequence of values round-trips: decoding its encoded stream gives the
/// sequence back.
pub proof fn lemma_vint_stream_round_trip(vs: Seq<u64>)
    ensures
        vint_decode_stream(vint_stream(vs)) == vs,
    decreases vs.len(),
{
    if vs.len() == 0 {
        assert(vint_decode_stream(vint_stream(vs)) =~= vs);
    } else {
        let rest = vint_stream(vs.skip(1));
        let s = vint_stream(vs);
        assert(s == vint_encode(vs[0]) + rest);
        lemma_vint_encode_decode(vs[0], rest);
        lemma_vint_value_nonneg(s);
        assert(vint_value(s) % two_to_64() == vs[0]);
        lemma_vint_stream_round_trip(vs.skip(1));
        assert(vint_decode_stream(s) == seq![vs[0]] + vs.skip(1));
        assert(seq![vs[0]] + vs.skip(1) =~= vs);
    }
}

/// A single value round-trips: decoding its encoding gives it back.
pub proof fn lemma_vint_round_trip(v: u64)
    ensures
        vint_ok(vint_encode(v)),
        vint_size(vint_encode(v)) == vint_encode(v).len(),
        vint_value(vint_encode(v)) == v,
{
    lemma_vint_encode_decode(v, Seq::empty());
    assert(vint_encode(v) + Seq::<u8>::empty() =~= vint_encode(v));
}

/// Encoder that appends the variable-byte form of each value to a buffer.
pub struct Write {
    w: Vec<u8>,
    values: Ghost<Seq<u64>>,
}

/// A fresh, empty encoder.
pub fn write() -> (r: Write)
    ensures
        r.wf(),
        r.written() == Seq::<u64>::empty(),
{
    Write { w: Vec::new(), values: Ghost(Seq::empty()) }
}

proof fn lemma_vint_stream_push(vs: Seq<u64>, v: u64)
    ensures
        vint_stream(vs.push(v)) == vint_stream(vs) + vint_encode(v),
    decreases vs.len(),
{
    let p = vs.push(v);
    if vs.len() == 0 {
        assert(p[0] == v);
        assert(p.skip(1) =~= Seq::<u64>::empty());
        assert(vint_stream(p) == vint_encode(v) + vint_stream(Seq::<u64>::empty()));
        assert(vint_encode(v) + Seq::<u8>::empty() =~= Seq::<u8>::empty() + vint_encode(v));
    } else {
        assert(p[0] == vs[0]);
        assert(p.skip(1) =~= vs.skip(1).push(v));
        lemma_vint_stream_push(vs.skip(1), v);
        assert(vint_stream(p) == vint_encode(vs[0]) + (vint_stream(vs.skip(1)) + vint_encode(
            v,
        )));
        assert(vint_encode(vs[0]) + (vint_stream(vs.skip(1)) + vint_encode(v)) =~= (vint_encode(
            vs[0],
        ) + vint_stream(vs.skip(1))) + vint_encode(v));
    }
}

impl Write {
    /// The bytes in the buffer.
    pub closed spec fn buf(&self) -> Seq<u8> {
        self.w@
    }

    /// The values encoded so far.
    pub closed spec fn vals(&self) -> Seq<u64> {
        self.values@
    }
}

impl crate::codec::Write for Write {
    type Finish = Vec<u8>;

    open spec fn wf(&self) -> bool {
        self.buf() == vint_stream(self.vals())
    }

    open spec fn written(&self) -> Seq<u64> {
        self.vals()
    }

    open spec fn write_ok(&self, i: u64) -> bool {
        true
    }

    open spec fn finish_post(&self, r: Vec<u8>) -> bool {
        r@ == vint_stream(self.vals())
    }

    fn write(&mut self, i: u64) {
        let ghost orig = self.w@;
        let ghost iv = i;
        let mut i = i;
        while i > 127
            invariant
                self.w@ + vint_encode(i) == orig + vint_encode(iv),
                self.values == old(self).values,
            decreases i,
        {
            let b: u8 = (i % 128 + 128) as u8;
            assert(vint_encode(i) == seq![b] + vint_encode(i / 128));
            self.w.push(b);
            assert((self.w@ + vint_encode(i / 128)) =~= orig + vint_encode(iv));
            i = i / 128;
        }
        assert(vint_encode(i) =~= seq![i as u8]);
        self.w.push(i as u8);
        assert(self.w@ =~= orig + vint_encode(iv));
        proof {
            lemma_vint_stream_push(self.values@, iv);
        }
        self.values = Ghost(self.values@.push(iv));
    }

    fn finish(self) -> (r: Vec<u8>) {
        self.w
    }
}

/// Decoder over a byte slice, yielding one value per call to `next`.
pub struct Iter<'a> {
    bytes: &'a [u8],
    pos: usize,
}

impl<'a> Iter<'a> {
    /// The whole underlying byte slice.
    pub closed spec fn all_bytes(&self) -> Seq<u8> {
        self.bytes@
    }

    /// How many bytes have been consumed.
    pub closed spec fn position(&self) -> int {
        self.pos as int
    }

    pub open spec fn wf(&self) -> bool {
        0 <= self.position() <= self.all_bytes().len()
    }

    /// The bytes not yet consumed.
    pub open spec fn remaining(&self) -> Seq<u8> {
        self.all_bytes().skip(self.position())
    }

    pub fn next(&mut self) -> (r: Option<Result<u64, DecodeError>>)
        requires
            old(self).wf(),
        ensures
            final(self).wf(),
            final(self).all_bytes() == old(self).all_bytes(),
            ({
                let s = old(self).remaining();
                if s.len() == 0 {
                    r is None && *final(self) == *old(self)
                } else if vint_ok(s) {
                    r == Some(Result::<u64, DecodeError>::Ok(
                        (vint_value(s) % two_to_64()) as u64,
                    )) && final(self).position() == old(self).position() + vint_size(s)
                } else if s.len() >= 10 {
                    r == Some(Result::<u64, DecodeError>::Err(overflow_vint_error()))
                        && final(self).position() == old(self).position() + 10
                } else {
                    r == Some(Result::<u64, DecodeError>::Err(partial_vint_error()))
                        && final(self).position() == old(self).position() + s.len()
                }
            }),
    {
        if self.pos == self.bytes.len() {
            return None;
        }
        let ghost s = self.remaining();
        match decode_vint(self.bytes, self.pos, 0) {
            Ok((v, n)) => {
                proof {
                    lemma_pow128_pos(vint_size(s));
                }
                self.pos = self.pos + n;
                Some(Ok((v % 0x1_0000_0000_0000_0000u128) as u64))
            },
            Err((e, n)) => {
                self.pos = self.pos + n;
                Some(Err(e))
            },
        }
    }
}

/// A fresh decoder over `bytes`.
pub fn iter<'a>(bytes: &'a [u8]) -> (r: Iter<'a>)
    ensures
        r.wf(),
        r.all_bytes() == bytes@,
        r.position() == 0,
{
    Iter { bytes, pos: 0 }
}

/// Reads one value at `pos`, with `depth` seven-bit groups already consumed
/// by the enclosing value. Returns the value and the bytes consumed, or the
/// error and the bytes consumed before it.
fn decode_vint(bytes: &[u8], pos: usize, depth: usize) -> (r: Result<
    (u128, usize),
    (DecodeError, usize),
>)
    requires
        pos <= bytes@.len(),
        depth <= 10,
    ensures
        ({
            let s = bytes@.skip(pos as int);
            let budget = 10 - depth;
            match r {
                Ok((v, n)) => {
                    &&& exists|i: int| 0 <= i < s.len() && i < budget && s[i] < 128
                    &&& n == vint_size(s)
                    &&& 1 <= n <= budget
                    &&& pos + n <= bytes@.len()
                    &&& v == vint_value(s)
                    &&& v < pow128(n as int)
                },
                Err((e, n)) => {
                    &&& forall|i: int| 0 <= i < s.len() && i < budget ==> s[i] >= 128
                    &&& if s.len() >= budget {
                        e == overflow_vint_error() && n == budget
                    } else {
                        e == partial_vint_error() && n == s.len()
                    }
                    &&& pos + n <= bytes@.len()
                },
            }
        }),
    decreases 10 - depth,
{
    let ghost s = bytes@.skip(pos as int);
    if depth == 10 {
        return Err((DecodeError("read vint more bigger than 64"), 0));
    }
    if pos == bytes.len() {
        return Err((DecodeError("read partial vint"), 0));
    }
    let b = bytes[pos];
    if b < 128 {
        assert(s[0] == b);
        assert(vint_size(s) == 1 && vint_value(s) == b as int);
        assert(b < pow128(1)) by {
            lemma_pow128_pos(0);
        }
        return Ok((b as u128, 1));
    }
    assert(s[0] == b && b >= 128);
    assert(s.skip(1) =~= bytes@.skip(pos as int + 1));
    let ghost t = bytes@.skip(pos as int + 1);
    match decode_vint(bytes, pos + 1, depth + 1) {
        Ok((v, n)) => {
            proof {
                lemma_pow128_mono(n as int, 9);
                lemma_pow128_pos(n as int);
                assert(pow128(9) == 0x8000_0000_0000_0000) by {
                    reveal_with_fuel(pow128, 10);
                }
                let i = choose|i: int| 0 <= i < t.len() && i < 10 - (depth + 1) && t[i] < 128;
                assert(s[i + 1] == t[i]);
                assert(0 <= i + 1 < s.len() && i + 1 < 10 - depth && s[i + 1] < 128);
            }
            assert(128 * v < 128 * pow128(n as int));
            let total: u128 = (b - 128) as u128 + 128 * v;
            assert(total == vint_value(s));
            assert(total < pow128(n as int + 1));
            assert(vint_size(s) == 1 + vint_size(t));
            Ok((total, n + 1))
        },
        Err((e, n)) => {
            proof {
                assert forall|i: int| 0 <= i < s.len() && i < 10 - depth implies s[i] >= 128 by {
                    if i >= 1 {
                        assert(s[i] == t[i - 1]);
                    }
                }
                assert(t.len() == s.len() - 1);
            }
            Err((e, n + 1))
        },
    }
}

} // verus!
