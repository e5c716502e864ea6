//! Ascending-delta codec over the variable-byte codec: the first value is
//! stored as is, every later value `v` as `v - prev - 1`, so a strictly
//! ascending sequence becomes a sequence of small deltas. A
//! duplicate-consuming variant silently drops a value equal to the previous
//! one.

use vstd::prelude::*;
use crate::codec::DecodeError;
use crate::codec::Write as WriteSink;
use crate::int_variable::{
    two_to_64, vint_ok, vint_size, vint_stream, vint_value, lemma_vint_size_bounds,
    lemma_vint_encode_decode,
};

verus! {

/// Every element is at most the next one.
pub open spec fn nondecreasing(xs: Seq<u64>) -> bool {
    forall|i: int, j: int| 0 <= i < j < xs.len() ==> xs[i] <= xs[j]
}

/// Every element is below the next one.
pub open spec fn strictly_ascending(xs: Seq<u64>) -> bool {
    forall|i: int, j: int| 0 <= i < j < xs.len() ==> xs[i] < xs[j]
}

/// The last element, if there is one.
pub open spec fn last_of(xs: Seq<u64>) -> Option<u64> {
    if xs.len() == 0 {
        None
    } else {
        Some(xs.last())
    }
}

/// The delta stored for `v` after `prev`.
pub open spec fn delta_of(prev: Option<u64>, v: u64) -> u64 {
    match prev {
        None => v,
        Some(p) => (v - p - 1) as u64,
    }
}

/// The deltas stored for `xs` when the value before `xs` was `prev`.
pub open spec fn delta_from(xs: Seq<u64>, prev: Option<u64>) -> Seq<u64>
    decreases xs.len(),
{
    if xs.len() == 0 {
        Seq::empty()
    } else {
        seq![delta_of(prev, xs[0])] + delta_from(xs.skip(1), Some(xs[0]))
    }
}

/// The deltas stored for a whole sequence.
pub open spec fn delta_encode(xs: Seq<u64>) -> Seq<u64> {
    delta_from(xs, None)
}

/// `xs` with runs of equal neighbours collapsed to one element.
pub open spec fn unique_consecutive(xs: Seq<u64>) -> Seq<u64>
    decreases xs.len(),
{
    if xs.len() == 0 {
        Seq::empty()
    } else if xs.len() >= 2 && xs.last() == xs[xs.len() - 2] {
        unique_consecutive(xs.drop_last())
    } else {
        unique_consecutive(xs.drop_last()).push(xs.last())
    }
}

/// The value decoded after `prev` from the raw delta `raw`.
pub open spec fn next_val(prev: Option<u64>, raw: int) -> int {
    match prev {
        None => raw,
        Some(p) => p + raw + 1,
    }
}

/// The byte stream decodes to completion without error or wrap-around.
pub open spec fn ascending_valid(s: Seq<u8>, prev: Option<u64>) -> bool
    decreases s.len() via ascending_valid_decreases
{
    if s.len() == 0 {
        true
    } else if !vint_ok(s) {
        false
    } else {
        let raw = vint_value(s);
        let cur = next_val(prev, raw);
        raw < two_to_64() && cur < two_to_64() && ascending_valid(
            s.skip(vint_size(s)),
            Some(cur as u64),
        )
    }
}

#[via_fn]
proof fn ascending_valid_decreases(s: Seq<u8>, prev: Option<u64>) {
    lemma_vint_size_bounds(s);
}

/// The values the ascending decoder yields from the byte stream, for as
/// long as values keep coming.
pub open spec fn ascending_ids(s: Seq<u8>, prev: Option<u64>) -> Seq<u64>
    decreases s.len() via ascending_ids_decreases
{
    if s.len() == 0 || !vint_ok(s) {
        Seq::empty()
    } else {
        let raw = vint_value(s) % two_to_64();
        let cur = (next_val(prev, raw) % two_to_64()) as u64;
        seq![cur] + ascending_ids(s.skip(vint_size(s)), Some(cur))
    }
}

#[via_fn]
proof fn ascending_ids_decreases(s: Seq<u8>, prev: Option<u64>) {
    lemma_vint_size_bounds(s);
}

/// Writer that encodes each value as its delta from the previous one.
/// Values must strictly ascend.
pub struct Write<W: crate::codec::Write> {
    prev: Option<u64>,
    w: W,
    history: Ghost<Seq<u64>>,
}

impl<W: crate::codec::Write> Write<W> {
    /// The values accepted so far.
    pub closed spec fn hist(&self) -> Seq<u64> {
        self.history@
    }

    /// The value most recently accepted.
    pub closed spec fn prev_of(&self) -> Option<u64> {
        self.prev
    }

    /// The sink the deltas go to.
    pub closed spec fn inner(&self) -> W {
        self.w
    }
}

/// Wraps a sink; deltas of the values written here go to it.
pub fn write<W: crate::codec::Write>(w: W) -> (r: Write<W>)
    requires
        w.wf(),
        w.written() == Seq::<u64>::empty(),
    ensures
        r.wf(),
        r.written() == Seq::<u64>::empty(),
        r.inner() == w,
{
    Write { prev: None, w, history: Ghost(Seq::empty()) }
}

proof fn lemma_delta_from_push(xs: Seq<u64>, prev: Option<u64>, v: u64)
    ensures
        delta_from(xs.push(v), prev) == delta_from(xs, prev).push(
            delta_of(if xs.len() == 0 { prev } else { Some(xs.last()) }, v),
        ),
    decreases xs.len(),
{
    let p = xs.push(v);
    if xs.len() == 0 {
        assert(p[0] == v);
        assert(p.skip(1) =~= Seq::<u64>::empty());
        reveal_with_fuel(delta_from, 3);
        assert(delta_from(p, prev) =~= seq![delta_of(prev, v)] + Seq::<u64>::empty());
        assert(seq![delta_of(prev, v)] + Seq::<u64>::empty() =~= Seq::<u64>::empty().push(
            delta_of(prev, v),
        ));
    } else {
        assert(p[0] == xs[0]);
        assert(p.skip(1) =~= xs.skip(1).push(v));
        lemma_delta_from_push(xs.skip(1), Some(xs[0]), v);
        let tail_last = if xs.skip(1).len() == 0 { Some(xs[0]) } else { Some(xs.skip(1).last()) };
        assert(xs.skip(1).len() == 0 ==> xs.last() == xs[0]);
        assert(xs.skip(1).len() > 0 ==> xs.skip(1).last() == xs.last());
        assert(tail_last == Some(xs.last()));
        assert(delta_from(p, prev) == seq![delta_of(prev, xs[0])] + delta_from(
            xs.skip(1),
            Some(xs[0]),
        ).push(delta_of(Some(xs.last()), v)));
        assert(seq![delta_of(prev, xs[0])] + delta_from(xs.skip(1), Some(xs[0])).push(
            delta_of(Some(xs.last()), v),
        ) =~= (seq![delta_of(prev, xs[0])] + delta_from(xs.skip(1), Some(xs[0]))).push(
            delta_of(Some(xs.last()), v),
        ));
    }
}

impl<W: crate::codec::Write> crate::codec::Write for Write<W> {
    type Finish = W::Finish;

    open spec fn wf(&self) -> bool {
        &&& self.inner().wf()
        &&& self.inner().written() == delta_from(self.hist(), None)
        &&& strictly_ascending(self.hist())
        &&& self.prev_of() == last_of(self.hist())
    }

    open spec fn written(&self) -> Seq<u64> {
        self.hist()
    }

    open spec fn write_ok(&self, i: u64) -> bool {
        &&& match self.prev_of() {
            None => true,
            Some(p) => i > p,
        }
        &&& self.inner().write_ok(delta_of(self.prev_of(), i))
    }

    open spec fn finish_post(&self, r: W::Finish) -> bool {
        self.inner().finish_post(r)
    }

    fn write(&mut self, i: u64) {
        match self.prev {
            None => {
                self.w.write(i);
            },
            Some(prev) => {
                self.w.write(i - prev - 1);
            },
        }
        self.prev = Some(i);
        proof {
            lemma_delta_from_push(self.history@, None, i);
            assert forall|a: int, b: int|
                0 <= a < b < self.history@.push(i).len() implies self.history@.push(i)[a]
                < self.history@.push(i)[b] by {
                if b < self.history@.len() {
                } else {
                    assert(self.history@.push(i)[b] == i);
                    if a < self.history@.len() - 1 {
                        assert(self.history@[a] < self.history@[self.history@.len() - 1]);
                    }
                }
            }
        }
        self.history = Ghost(self.history@.push(i));
    }

    fn finish(self) -> (r: W::Finish) {
        self.w.finish()
    }
}

/// Writer that forwards to the ascending writer, dropping a value equal to
/// the previous one. Values must never descend.
pub struct ConsumeDupes<W: crate::codec::Write> {
    w: Write<W>,
    history: Ghost<Seq<u64>>,
}

impl<W: crate::codec::Write> ConsumeDupes<W> {
    /// The values accepted so far, duplicates included.
    pub closed spec fn hist(&self) -> Seq<u64> {
        self.history@
    }

    /// The ascending writer underneath.
    pub closed spec fn inner(&self) -> Write<W> {
        self.w
    }
}

/// Wraps a sink; deltas of the distinct values written here go to it.
pub fn consume_dupes<W: crate::codec::Write>(w: W) -> (r: ConsumeDupes<W>)
    requires
        w.wf(),
        w.written() == Seq::<u64>::empty(),
    ensures
        r.wf(),
        r.written() == Seq::<u64>::empty(),
        r.inner().inner() == w,
{
    let w: Write<W> = write(w);
    ConsumeDupes { w, history: Ghost(Seq::empty()) }
}

/// Collapsing equal neighbours keeps the last element.
pub proof fn lemma_unique_consecutive_last(xs: Seq<u64>)
    ensures
        xs.len() == 0 ==> unique_consecutive(xs).len() == 0,
        xs.len() > 0 ==> unique_consecutive(xs).len() > 0 && unique_consecutive(xs).last()
            == xs.last(),
    decreases xs.len(),
{
    if xs.len() >= 2 && xs.last() == xs[xs.len() - 2] {
        lemma_unique_consecutive_last(xs.drop_last());
    }
}

/// Collapsing equal neighbours of a never-descending sequence leaves a
/// strictly ascending one.
pub proof fn lemma_unique_consecutive_ascending(xs: Seq<u64>)
    requires
        nondecreasing(xs),
    ensures
        strictly_ascending(unique_consecutive(xs)),
    decreases xs.len(),
{
    if xs.len() >= 1 {
        let h = xs.drop_last();
        assert(nondecreasing(h));
        lemma_unique_consecutive_ascending(h);
        lemma_unique_consecutive_last(h);
        if !(xs.len() >= 2 && xs.last() == xs[xs.len() - 2]) {
            let u = unique_consecutive(h);
            let p = u.push(xs.last());
            assert(xs.len() >= 2 ==> xs[xs.len() - 2] < xs.last());
            assert forall|a: int, b: int| 0 <= a < b < p.len() implies p[a] < p[b] by {
                if b == p.len() - 1 {
                    if u.len() > 0 {
                        assert(u.last() == h.last());
                        if a < u.len() - 1 {
                            assert(u[a] < u[u.len() - 1]);
                        }
                    }
                } else {
                    assert(u[a] < u[b]);
                }
            }
        }
    }
}

impl<W: crate::codec::Write> crate::codec::Write for ConsumeDupes<W> {
    type Finish = W::Finish;

    open spec fn wf(&self) -> bool {
        &&& self.inner().wf()
        &&& self.inner().written() == unique_consecutive(self.hist())
        &&& nondecreasing(self.hist())
    }

    open spec fn written(&self) -> Seq<u64> {
        self.hist()
    }

    open spec fn write_ok(&self, i: u64) -> bool {
        match last_of(self.hist()) {
            None => self.inner().write_ok(i),
            Some(p) => i >= p && (i == p || self.inner().write_ok(i)),
        }
    }

    open spec fn finish_post(&self, r: W::Finish) -> bool {
        self.inner().finish_post(r)
    }

    fn write(&mut self, i: u64) {
        proof {
            lemma_unique_consecutive_last(self.history@);
        }
        let skip = match self.w.prev {
            Some(p) => p == i,
            None => false,
        };
        if !skip {
            self.w.write(i);
        }
        proof {
            let h = self.history@;
            let p = h.push(i);
            assert(p.drop_last() =~= h);
            assert(p.last() == i);
            assert(nondecreasing(p)) by {
                assert forall|a: int, b: int| 0 <= a < b < p.len() implies p[a] <= p[b] by {
                    if b == p.len() - 1 && h.len() > 0 && a < h.len() - 1 {
                        assert(h[a] <= h[h.len() - 1]);
                    }
                }
            }
        }
        self.history = Ghost(self.history@.push(i));
    }

    fn finish(self) -> (r: W::Finish) {
        self.w.finish()
    }
}

/// Decoder that undoes the delta transform over a variable-byte decoder.
pub struct Iter<'a> {
    prev: Option<u64>,
    inner: crate::int_variable::Iter<'a>,
}

impl<'a> Iter<'a> {
    /// The value most recently produced.
    pub closed spec fn prev_of(&self) -> Option<u64> {
        self.prev
    }

    /// The bytes not yet consumed.
    pub open spec fn remaining(&self) -> Seq<u8> {
        self.decoder().remaining()
    }

    /// The variable-byte decoder underneath.
    pub closed spec fn decoder(&self) -> crate::int_variable::Iter<'a> {
        self.inner
    }

    pub open spec fn wf(&self) -> bool {
        self.decoder().wf()
    }

    pub fn next(&mut self) -> (r: Option<Result<u64, DecodeError>>)
        requires
            old(self).wf(),
        ensures
            final(self).wf(),
            ({
                let s = old(self).remaining();
                let p = old(self).prev_of();
                if s.len() == 0 {
                    r is None && *final(self) == *old(self)
                } else if vint_ok(s) {
                    ({
                        let raw = vint_value(s) % two_to_64();
                        let cur = (next_val(p, raw) % two_to_64()) as u64;
                        r == Some(Result::<u64, DecodeError>::Ok(cur)) && final(self).prev_of()
                            == Some(cur) && final(self).remaining() == s.skip(vint_size(s))
                    })
                } else {
                    (match r {
                        Some(q) => q is Err,
                        None => false,
                    }) && final(self).prev_of() == old(self).prev_of()
                }
            }),
    {
        let n = self.inner.next();
        match n {
            None => None,
            Some(Err(e)) => Some(Err(e)),
            Some(Ok(v)) => {
                proof {
                    let s = old(self).remaining();
                    lemma_vint_size_bounds(s);
                    assert(s.skip(vint_size(s)) =~= old(self).decoder().all_bytes().skip(
                        old(self).decoder().position() + vint_size(s),
                    ));
                }
                let cur: u64 = match self.prev {
                    None => v,
                    Some(p) => ((p as u128 + v as u128 + 1) % 0x1_0000_0000_0000_0000u128) as u64,
                };
                self.prev = Some(cur);
                Some(Ok(cur))
            },
        }
    }
}

/// A fresh ascending decoder over a variable-byte decoder.
pub fn iter<'a>(inner: crate::int_variable::Iter<'a>) -> (r: Iter<'a>)
    requires
        inner.wf(),
    ensures
        r.wf(),
        r.decoder() == inner,
        r.prev_of() == None::<u64>,
{
    Iter { prev: None, inner }
}

/// Delta-encoded bytes of a strictly ascending sequence decode back to it.
pub proof fn lemma_ascending_round_trip_from(xs: Seq<u64>, prev: Option<u64>)
    requires
        strictly_ascending(xs),
        match prev {
            Some(p) => xs.len() == 0 || p < xs[0],
            None => true,
        },
    ensures
        ascending_valid(vint_stream(delta_from(xs, prev)), prev),
        ascending_ids(vint_stream(delta_from(xs, prev)), prev) == xs,
    decreases xs.len(),
{
    if xs.len() == 0 {
        assert(ascending_ids(vint_stream(delta_from(xs, prev)), prev) =~= xs);
    } else {
        let d0 = delta_of(prev, xs[0]);
        let rest = vint_stream(delta_from(xs.skip(1), Some(xs[0])));
        let dl = delta_from(xs, prev);
        assert(dl[0] == d0);
        assert(dl.skip(1) =~= delta_from(xs.skip(1), Some(xs[0])));
        let s = vint_stream(dl);
        assert(s == crate::int_variable::vint_encode(d0) + rest);
        lemma_vint_encode_decode(d0, rest);
        assert(vint_value(s) == d0 && vint_value(s) < two_to_64());
        assert(s.skip(vint_size(s)) == rest);
        assert(next_val(prev, d0 as int) == xs[0]);
        assert(strictly_ascending(xs.skip(1))) by {
            assert(forall|a: int, b: int|
                0 <= a < b < xs.skip(1).len() ==> xs.skip(1)[a] == xs[a + 1] && xs.skip(1)[b]
                    == xs[b + 1]);
        }
        assert(xs.skip(1).len() == 0 || xs[0] < xs.skip(1)[0]);
        lemma_ascending_round_trip_from(xs.skip(1), Some(xs[0]));
        assert(vint_value(s) % two_to_64() == d0);
        assert(next_val(prev, d0 as int) % two_to_64() == xs[0]);
        assert(ascending_ids(s, prev) == seq![xs[0]] + xs.skip(1));
        assert(seq![xs[0]] + xs.skip(1) =~= xs);
    }
}

/// The delta round trip: a strictly ascending sequence, delta encoded then
/// variable-byte encoded, decodes to itself.
pub proof fn lemma_ascending_round_trip(xs: Seq<u64>)
    requires
        strictly_ascending(xs),
    ensures
        ascending_valid(vint_stream(delta_encode(xs)), None),
        ascending_ids(vint_stream(delta_encode(xs)), None) == xs,
{
    lemma_ascending_round_trip_from(xs, None);
}

/// The duplicate-consuming round trip: a never-descending sequence comes
/// back with its runs of equal neighbours collapsed.
pub proof fn lemma_dedup_round_trip(xs: Seq<u64>)
    requires
        nondecreasing(xs),
    ensures
        ascending_valid(vint_stream(delta_encode(unique_consecutive(xs))), None),
        ascending_ids(vint_stream(delta_encode(unique_consecutive(xs))), None)
            == unique_consecutive(xs),
{
    lemma_unique_consecutive_ascending(xs);
    lemma_ascending_round_trip(unique_consecutive(xs));
}

} // verus!
