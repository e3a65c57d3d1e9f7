//! Packs codes into bytes, most significant bit first.
use vstd::prelude::*;
use crate::util::bits::{
    bits_to_byte, bits_value, byte_digits, bytes_bits, code_digits, is_bit_seq, lemma_binary_digits_bits,
    lemma_byte_digits_value, lemma_bytes_bits, lemma_fixed_digits_of_value, push_binary_digits,
    push_byte_digits,
};

verus! {

/// Collects the digits of codes and emits a byte whenever eight are pending.
pub struct Writer {
    /// The bytes emitted so far.
    out: Vec<u8>,
    /// The digits not yet emitted (always fewer than eight).
    buffer: Vec<u8>,
}

impl Writer {
    /// The writer keeps fewer than eight pending binary digits.
    pub open spec fn wf(&self) -> bool {
        &&& self.pending().len() < 8
        &&& is_bit_seq(self.pending())
    }

    /// The bytes emitted so far.
    pub closed spec fn emitted(&self) -> Seq<u8> {
        self.out@
    }

    /// The digits waiting for a full byte.
    pub closed spec fn pending(&self) -> Seq<u8> {
        self.buffer@
    }

    /// Every digit handed to the writer so far, in order.
    pub open spec fn written(&self) -> Seq<u8> {
        bytes_bits(self.emitted()) + self.pending()
    }

    /// An empty writer.
    pub fn new() -> (w: Writer)
        ensures
            w.wf(),
            w.emitted() == Seq::<u8>::empty(),
            w.pending() == Seq::<u8>::empty(),
    {
        Writer { out: Vec::new(), buffer: Vec::new() }
    }

    /// Appends the digits of `code`: all eight of them when `raw`, else its
    /// numeral without leading zeros. A byte is emitted once eight digits are
    /// pending.
    pub fn write(&mut self, code: u8, raw: bool)
        requires
            old(self).wf(),
        ensures
            final(self).wf(),
            final(self).written() =~= old(self).written() + code_digits(code, raw),
            final(self).emitted().len() >= old(self).emitted().len(),
            final(self).emitted().subrange(0, old(self).emitted().len() as int) =~= old(self).emitted(),
    {
        let mut digits: Vec<u8> = Vec::new();
        if raw {
            push_byte_digits(code, &mut digits);
            proof {
                lemma_byte_digits_value(code);
            }
        } else {
            push_binary_digits(code, &mut digits);
            proof {
                lemma_binary_digits_bits(code as nat);
            }
        }
        assert(digits@ =~= code_digits(code, raw));
        let ghost old_buffer = self.buffer@;
        let extra = fill_buffer(&mut self.buffer, &digits);
        assert(self.buffer@ + extra@ =~= old_buffer + code_digits(code, raw));
        if self.buffer.len() == 8 {
            let byte = bits_to_byte(&self.buffer);
            proof {
                lemma_fixed_digits_of_value(self.buffer@);
                lemma_bytes_bits(self.out@);
                let ghost pushed = self.out@.push(byte);
                assert(pushed.drop_last() =~= self.out@);
                assert(byte_digits(byte) =~= self.buffer@);
                assert(bytes_bits(pushed) =~= bytes_bits(self.out@) + self.buffer@);
                let ghost x = bytes_bits(self.out@);
                assert((x + self.buffer@) + extra@ =~= x + (self.buffer@ + extra@));
                assert(x + (old_buffer + code_digits(code, raw)) =~= (x + old_buffer) + code_digits(code, raw));
                assert(bytes_bits(pushed) + extra@ =~= bytes_bits(self.out@) + old_buffer + code_digits(code, raw));
            }
            self.out.push(byte);
            self.buffer = extra;
        } else {
            assert(extra@ =~= Seq::<u8>::empty());
            assert(self.buffer@ =~= old_buffer + code_digits(code, raw));
        }
    }

    /// Emits the pending digits, if any, as one more byte holding their value
    /// (so they land in its low bits). The pending digits are kept.
    pub fn flush(&mut self)
        requires
            old(self).wf(),
        ensures
            final(self).wf(),
            final(self).pending() == old(self).pending(),
            final(self).emitted() =~= if old(self).pending().len() == 0 {
                old(self).emitted()
            } else {
                old(self).emitted().push(bits_value(old(self).pending()) as u8)
            },
    {
        if self.buffer.len() > 0 {
            let byte = bits_to_byte(&self.buffer);
            self.out.push(byte);
        }
    }

    /// The bytes emitted so far.
    pub fn output(&self) -> (bytes: &Vec<u8>)
        ensures
            bytes@ == self.emitted(),
    {
        &self.out
    }
}

/// Moves `digits` into `buffer` until it holds eight of them; the rest is
/// returned.
fn fill_buffer(buffer: &mut Vec<u8>, digits: &Vec<u8>) -> (extra: Vec<u8>)
    requires
        old(buffer).len() < 8,
        digits.len() <= 8,
        is_bit_seq(old(buffer)@),
        is_bit_seq(digits@),
    ensures
        final(buffer)@ + extra@ =~= old(buffer)@ + digits@,
        final(buffer)@.len() <= 8,
        extra@.len() > 0 ==> final(buffer)@.len() == 8,
        extra@.len() < 8,
        is_bit_seq(final(buffer)@),
        is_bit_seq(extra@),
{
    let ghost start = buffer@;
    let mut extra: Vec<u8> = Vec::new();
    let mut i: usize = 0;
    while i < digits.len()
        invariant
            i <= digits.len() <= 8,
            is_bit_seq(digits@),
            start.len() < 8,
            is_bit_seq(start),
            buffer@ + extra@ =~= start + digits@.take(i as int),
            buffer@.len() <= 8,
            extra@.len() > 0 ==> buffer@.len() == 8,
            extra@.len() <= i,
            buffer@.len() >= start.len(),
            extra@.len() + buffer@.len() == start.len() + i,
            is_bit_seq(buffer@),
            is_bit_seq(extra@),
        decreases digits.len() - i,
    {
        let d = digits[i];
        let ghost before = buffer@ + extra@;
        proof {
            assert(digits@.take(i + 1) =~= digits@.take(i as int).push(d));
        }
        if buffer.len() < 8 {
            proof {
                assert(extra@ =~= Seq::<u8>::empty());
            }
            buffer.push(d);
            proof {
                assert(buffer@ + extra@ =~= before.push(d));
            }
        } else {
            extra.push(d);
            proof {
                assert(buffer@ + extra@ =~= before.push(d));
            }
        }
        i = i + 1;
    }
    proof {
        assert(digits@.take(i as int) =~= digits@);
    }
    extra
}

} // verus!
