//! Shared pieces of the integer codecs: the decode error and the sink trait
//! that the encoders write into.

use vstd::prelude::*;

verus! {

/// Error produced while decoding a variable-byte integer stream.
#[derive(Copy, Clone, Debug, PartialEq, Eq)]
pub struct DecodeError(pub &'static str);

/// A sink that accepts a stream of `u64` values.
///
/// `written()` is the sequence of values accepted so far; `write_ok` says
/// which next values a sink accepts (the ascending writer, for one, refuses a
/// value not above the previous); `wf` is the sink's internal invariant;
/// `finish_post` describes what `finish` hands back.
pub trait Write: Sized {
    /// The type `finish` produces.
    type Finish;

    /// Internal invariant of the sink.
    spec fn wf(&self) -> bool;

    /// Every value handed to `write` so far, in order.
    spec fn written(&self) -> Seq<u64>;

    /// Whether the sink accepts `i` as the next value.
    spec fn write_ok(&self, i: u64) -> bool;

    /// What holds of the value `finish` returns.
    spec fn finish_post(&self, r: Self::Finish) -> bool;

    fn write(&mut self, i: u64)
        requires
            old(self).wf(),
            old(self).write_ok(i),
        ensures
            final(self).wf(),
            final(self).written() == old(self).written().push(i),
    ;

    fn finish(self) -> (r: Self::Finish)
        requires
            self.wf(),
        ensures
            self.finish_post(r),
    ;
}

impl Write for Vec<u64> {
    type Finish = Vec<u64>;

    open spec fn wf(&self) -> bool {
        true
    }

    open spec fn written(&self) -> Seq<u64> {
        self@
    }

    open spec fn write_ok(&self, i: u64) -> bool {
        true
    }

    open spec fn finish_post(&self, r: Vec<u64>) -> bool {
        r@ == self@
    }

    fn write(&mut self, i: u64) {
        self.push(i);
    }

    fn finish(self) -> (r: Vec<u64>) {
        self
    }
}

} // verus!
