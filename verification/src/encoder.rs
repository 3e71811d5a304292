//! The encoder: from a number to its bytes.

use vstd::prelude::*;
use crate::format::{encoding, is_frame, max_len, value_of, CONTINUATION, PAYLOAD};
use crate::laws::{lemma_encoding_is_frame, lemma_encoding_len, lemma_value_of_encoding};
use crate::uint::UInt;

verus! {

/// Appends the encoding of `value` to `out`.
///
/// What `out` held stays in front, untouched, so that numbers written one
/// after another lie back to back.
pub fn encode_into<T: UInt>(value: T, out: &mut Vec<u8>)
    ensures
        final(out)@ == old(out)@ + encoding(value.value()),
{
    let ghost before = out@;
    let mut v = value;
    loop
        invariant_except_break
            before + encoding(value.value()) == out@ + encoding(v.value()),
        ensures
            out@ == before + encoding(value.value()),
        decreases v.value(),
    {
        let low = v.low_byte();
        let group = low & PAYLOAD;
        let rest = v.shr7();
        assert(group == low % 128 && group < 128) by (bit_vector)
            requires
                group == low & PAYLOAD,
        ;
        let ghost written = out@;
        if rest.is_zero() {
            out.push(group);
            assert(out@ =~= written + encoding(v.value()));
            break ;
        }
        out.push(group | CONTINUATION);
        assert(group | CONTINUATION == 128 + group) by (bit_vector)
            requires
                group < 128,
        ;
        assert(out@ + encoding((v.value() / 128 - 1) as nat) =~= written + encoding(v.value()));
        v = rest.minus_one();
    }
}

/// The encoding of `value`.
///
/// The bytes are one whole frame: the last has the high bit clear, every
/// byte before it has the high bit set. They add up to `value`, and there
/// are at most `ceil(bits / 7)` of them.
pub fn encode<T: UInt>(value: T) -> (out: Vec<u8>)
    ensures
        out@ == encoding(value.value()),
        is_frame(out@),
        value_of(out@) == value.value(),
        0 < out@.len() <= max_len(T::bits() as nat),
{
    let mut out: Vec<u8> = Vec::new();
    encode_into(value, &mut out);
    proof {
        let v = value.value();
        lemma_encoding_is_frame(v);
        lemma_value_of_encoding(v);
        T::lemma_bits_positive();
        value.lemma_value_in_range();
        lemma_encoding_len(v, T::bits() as nat);
    }
    out
}

} // verus!
