//! Fixed-size HID report buffers.
//!
//! A report is a buffer of `N` raw bytes whose first byte is reserved for the
//! HID report id (always zero here). All indexing is expressed in payload
//! positions: payload position `i` lives at raw position `i + 1`, and the
//! payload length is `N - 1`.

use vstd::prelude::*;

verus! {

#[derive(Clone, Copy, Debug)]
pub struct Report<const N: usize> {
    data: [u8; N],
}

impl<const N: usize> View for Report<N> {
    type V = Seq<u8>;

    /// The payload bytes: every raw byte after the leading report-id byte.
    closed spec fn view(&self) -> Seq<u8> {
        self.data@.skip(1)
    }
}

impl<const N: usize> Report<N> {
    /// All raw bytes, report id included.
    pub closed spec fn raw(&self) -> Seq<u8> {
        self.data@
    }

    /// The payload is the raw buffer with the leading report-id byte removed:
    /// payload position `i` is raw position `i + 1`.
    pub proof fn lemma_payload_is_raw_shifted(&self)
        requires
            N >= 1,
        ensures
            self.raw().len() == N,
            self@ =~= self.raw().skip(1),
            self@.len() == N - 1,
            forall|i: int| 0 <= i < self@.len() ==> self@[i] == self.raw()[i + 1],
    {
    }

    pub fn new() -> (r: Report<N>)
        requires
            N >= 1,
        ensures
            r.raw() == Seq::new(N as nat, |i: int| 0u8),
            r@ == Seq::new((N - 1) as nat, |i: int| 0u8),
    {
        let data: [u8; N] = [0; N];
        let r = Report { data };
        proof {
            assert(r.raw() =~= Seq::new(N as nat, |i: int| 0u8));
            assert(r@ =~= Seq::new((N - 1) as nat, |i: int| 0u8));
        }
        r
    }

    /// The raw byte array, ready for transmission.
    pub fn into_inner(self) -> (r: [u8; N])
        ensures
            r@ == self.raw(),
    {
        self.data
    }

    /// The payload length: one less than the raw size.
    pub fn len(&self) -> (l: usize)
        requires
            N >= 1,
        ensures
            l == N - 1,
            l == self@.len(),
    {
        N - 1
    }

    /// Payload byte `i`, stored at raw position `i + 1`.
    pub fn get(&self, i: usize) -> (b: u8)
        requires
            i + 1 < N,
        ensures
            b == self@[i as int],
            b == self.raw()[i + 1],
    {
        self.data[i + 1]
    }

    /// Writes payload byte `i`, stored at raw position `i + 1`.
    pub fn set(&mut self, i: usize, b: u8)
        requires
            i + 1 < N,
        ensures
            final(self)@ == old(self)@.update(i as int, b),
            final(self).raw() == old(self).raw().update(i + 1, b),
    {
        self.data[i + 1] = b;
        proof {
            assert(final(self)@ =~= old(self)@.update(i as int, b));
        }
    }

    /// Copies `src` into the payload starting at payload position `offset`.
    pub fn set_range(&mut self, offset: usize, src: &[u8])
        requires
            offset + src@.len() + 1 <= N,
        ensures
            final(self)@ =~= old(self)@.subrange(0, offset as int) + src@ + old(self)@.skip(
                offset + src@.len(),
            ),
            final(self).raw()[0] == old(self).raw()[0],
    {
        let mut k: usize = 0;
        while k < src.len()
            invariant
                k <= src@.len(),
                offset + src@.len() + 1 <= N,
                self@.len() == old(self)@.len(),
                self.raw()[0] == old(self).raw()[0],
                forall|j: int| 0 <= j < offset ==> self@[j] == old(self)@[j],
                forall|j: int| 0 <= j < k ==> self@[offset + j] == src@[j],
                forall|j: int|
                    offset + src@.len() <= j < self@.len() ==> self@[j] == old(self)@[j],
            decreases src@.len() - k,
        {
            let b = src[k];
            self.data[offset + k + 1] = b;
            k = k + 1;
        }
    }
}

} // verus!
