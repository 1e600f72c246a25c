use vstd::prelude::*;
use vstd::wrapping::i64_specs::{wrapping_add, wrapping_sub};

verus! {

/// The value that stands before index `i` of a stream: zero before the first.
pub open spec fn before(xs: Seq<i64>, i: int) -> i64 {
    if i == 0 {
        0
    } else {
        xs[i - 1]
    }
}

/// The delta stream of `xs`: each value minus the one before it (zero before
/// the first), in two's-complement arithmetic.
pub open spec fn deltas(xs: Seq<i64>) -> Seq<i64> {
    Seq::new(xs.len(), |i: int| wrapping_sub(xs[i], before(xs, i)))
}

/// The running sums of a delta stream, in two's-complement arithmetic.
pub open spec fn running_sums(ds: Seq<i64>) -> Seq<i64>
    decreases ds.len(),
{
    if ds.len() == 0 {
        Seq::empty()
    } else {
        let sums = running_sums(ds.drop_last());
        sums.push(wrapping_add(before(sums, sums.len() as int), ds.last()))
    }
}

/// Stateful delta encoder for one stream.
#[derive(Debug, Clone, Copy)]
pub struct DeltaEnc {
    pub prev: i64,
}

/// Stateful delta decoder for one stream.
#[derive(Debug, Clone, Copy)]
pub struct DeltaDec {
    pub prev: i64,
}

impl Default for DeltaEnc {
    fn default() -> (r: Self)
        ensures
            r.prev == 0,
    {
        DeltaEnc { prev: 0 }
    }
}

impl Default for DeltaDec {
    fn default() -> (r: Self)
        ensures
            r.prev == 0,
    {
        DeltaDec { prev: 0 }
    }
}

impl DeltaEnc {
    /// Emits `next` minus the previous value, and remembers `next`.
    pub fn encode(&mut self, next: i64) -> (d: i64)
        ensures
            d == wrapping_sub(next, old(self).prev),
            final(self).prev == next,
    {
        let d = next.wrapping_sub(self.prev);
        self.prev = next;
        d
    }
}

impl DeltaDec {
    /// Adds `delta` to the running value and yields it.
    pub fn decode(&mut self, delta: i64) -> (v: i64)
        ensures
            v == wrapping_add(old(self).prev, delta),
            final(self).prev == v,
    {
        self.prev = self.prev.wrapping_add(delta);
        self.prev
    }
}

/// Delta-encodes a whole stream.
pub fn encode_stream(xs: &[i64]) -> (r: Vec<i64>)
    ensures
        r@ == deltas(xs@),
{
    let mut enc = DeltaEnc::default();
    let mut r: Vec<i64> = Vec::new();
    let mut i: usize = 0;
    while i < xs.len()
        invariant
            0 <= i <= xs.len(),
            r@ == deltas(xs@).take(i as int),
            enc.prev == before(xs@, i as int),
        decreases xs.len() - i,
    {
        let d = enc.encode(xs[i]);
        r.push(d);
        i = i + 1;
        assert(r@ =~= deltas(xs@).take(i as int));
    }
    assert(deltas(xs@).take(xs@.len() as int) =~= deltas(xs@));
    r
}

/// Decodes a whole delta stream back into its values.
pub fn decode_stream(ds: &[i64]) -> (r: Vec<i64>)
    ensures
        r@ == running_sums(ds@),
{
    let mut dec = DeltaDec::default();
    let mut r: Vec<i64> = Vec::new();
    let mut i: usize = 0;
    while i < ds.len()
        invariant
            0 <= i <= ds.len(),
            r@ == running_sums(ds@.take(i as int)),
            r@.len() == i,
            dec.prev == before(r@, i as int),
        decreases ds.len() - i,
    {
        let v = dec.decode(ds[i]);
        r.push(v);
        i = i + 1;
        assert(ds@.take(i as int).drop_last() =~= ds@.take(i - 1));
    }
    assert(ds@.take(ds@.len() as int) =~= ds@);
    r
}

proof fn lemma_wrapping_inverse(a: i64, b: i64)
    ensures
        wrapping_add(a, wrapping_sub(b, a)) == b,
{
}

proof fn lemma_running_sums_len(ds: Seq<i64>)
    ensures
        running_sums(ds).len() == ds.len(),
    decreases ds.len(),
{
    if ds.len() > 0 {
        lemma_running_sums_len(ds.drop_last());
    }
}

/// Decoding the delta stream of any sequence gives the sequence back.
pub proof fn lemma_delta_round_trip(xs: Seq<i64>)
    ensures
        running_sums(deltas(xs)) == xs,
    decreases xs.len(),
{
    if xs.len() > 0 {
        let n = xs.len() - 1;
        assert(deltas(xs).drop_last() =~= deltas(xs.drop_last()));
        lemma_delta_round_trip(xs.drop_last());
        lemma_running_sums_len(xs.drop_last());
        lemma_wrapping_inverse(before(xs, n), xs[n]);
        assert(running_sums(deltas(xs)) =~= xs);
    }
}

} // verus!
