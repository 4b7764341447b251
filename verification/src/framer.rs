use vstd::prelude::*;

use crate::text::{byte_views, split_at_byte};

verus! {

/// The complete lines in `s`: everything up to each newline, the newline
/// itself kept in none of them.
pub open spec fn frame_lines(s: Seq<u8>) -> Seq<Seq<u8>> {
    split_at_byte(s, 10).drop_last()
}

/// The partial trailing data of `s`: what follows its last newline.
pub open spec fn frame_rest(s: Seq<u8>) -> Seq<u8> {
    split_at_byte(s, 10).last()
}

/// Turns an arbitrary byte stream into complete lines, deferring partial
/// trailing data to the next call.
pub struct LineFramer {
    /// Bytes received after the last newline seen so far.
    carry: Vec<u8>,
}

impl View for LineFramer {
    type V = Seq<u8>;

    closed spec fn view(&self) -> Seq<u8> {
        self.carry@
    }
}

impl LineFramer {
    /// A framer with nothing carried over.
    pub fn new() -> (r: LineFramer)
        ensures
            r@ == Seq::<u8>::empty(),
    {
        LineFramer { carry: Vec::new() }
    }

    /// How many bytes wait for their newline.
    pub fn pending_len(&self) -> (r: usize)
        ensures
            r == self@.len(),
    {
        self.carry.len()
    }

    /// Appends newly received bytes to the carry-over and hands back
    /// every complete line now available, oldest first, each without its
    /// newline; what follows the last newline stays carried over.
    pub fn push_bytes(&mut self, bytes: &[u8]) -> (r: Vec<Vec<u8>>)
        ensures
            byte_views(r@) == frame_lines(old(self)@ + bytes@),
            final(self)@ == frame_rest(old(self)@ + bytes@),
    {
        let ghost orig = self.carry@;
        let n: usize = bytes.len();
        let mut k: usize = 0;
        proof {
            assert(orig + bytes@.take(0) =~= orig);
        }
        while k < n
            invariant
                0 <= k <= n,
                n == bytes@.len(),
                self.carry@ == orig + bytes@.take(k as int),
            decreases n - k,
        {
            self.carry.push(bytes[k]);
            k = k + 1;
            proof {
                assert(orig + bytes@.take(k as int) =~= (orig + bytes@.take(k - 1)).push(
                    bytes@[k - 1],
                ));
            }
        }
        let ghost total = self.carry@;
        proof {
            assert(bytes@.take(n as int) =~= bytes@);
            assert(total == orig + bytes@);
        }
        let mut parts = split_bytes_vec(&self.carry, 10);
        let ghost all = parts@;
        let rest = parts.pop().unwrap();
        self.carry = rest;
        proof {
            assert(byte_views(all).last() == all.last()@);
            assert(byte_views(parts@) =~= byte_views(all).drop_last());
        }
        parts
    }
}

/// Splits the bytes of a vector at every occurrence of `sep`.
fn split_bytes_vec(v: &Vec<u8>, sep: u8) -> (r: Vec<Vec<u8>>)
    ensures
        byte_views(r@) == split_at_byte(v@, sep),
        r@.len() >= 1,
{
    crate::text::split_bytes(v.as_slice(), sep)
}

} // verus!
