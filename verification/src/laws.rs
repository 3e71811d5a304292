//! What holds of the format as a whole: every number has one encoding, and
//! the encoding gives the number back.

use vstd::prelude::*;
use vstd::arithmetic::power2::{
    lemma2_to64, lemma_pow2_adds, lemma_pow2_pos, lemma_pow2_strictly_increases, pow2,
};
use crate::decoder::{decoding, DecodeError};
use crate::format::{
    continues, encoding, head, is_frame, lemma_head_of_frame, lemma_run, max_len, run, value_of,
};
use crate::uint::UInt;

verus! {

/// The encoding of a number is one whole frame: its last byte has the high
/// bit clear, and every byte before the last has it set.
pub proof fn lemma_encoding_is_frame(v: nat)
    ensures
        is_frame(encoding(v)),
    decreases v,
{
    if v >= 128 {
        let rest = encoding((v / 128 - 1) as nat);
        let first = (128 + v % 128) as u8;
        lemma_encoding_is_frame((v / 128 - 1) as nat);
        let all = seq![first] + rest;
        assert(all.last() == rest.last());
        assert forall|i: int| 0 <= i < all.len() - 1 implies continues(#[trigger] all[i]) by {
            if i > 0 {
                assert(all[i] == rest[i - 1]);
            }
        }
    }
}

/// The bytes of an encoding add up to the number that was encoded.
pub proof fn lemma_value_of_encoding(v: nat)
    ensures
        value_of(encoding(v)) == v,
    decreases v,
{
    if v < 128 {
        let one = seq![v as u8];
        assert(value_of(one) == one[0] as nat + 128 * value_of(one.drop_first()));
    } else {
        let rest = encoding((v / 128 - 1) as nat);
        let first = (128 + v % 128) as u8;
        lemma_value_of_encoding((v / 128 - 1) as nat);
        assert((seq![first] + rest).drop_first() =~= rest);
    }
}

/// A whole frame is the encoding of the number that its bytes add up to.
pub proof fn lemma_frame_is_encoding(frame: Seq<u8>)
    requires
        is_frame(frame),
    ensures
        encoding(value_of(frame)) == frame,
    decreases frame.len(),
{
    let rest = frame.drop_first();
    if frame.len() == 1 {
        assert(value_of(rest) == 0);
        assert(frame =~= seq![frame[0]]);
    } else {
        assert(rest.last() == frame.last());
        assert forall|i: int| 0 <= i < rest.len() - 1 implies continues(#[trigger] rest[i]) by {
            assert(rest[i] == frame[i + 1]);
        }
        lemma_frame_is_encoding(rest);
        let v = value_of(frame);
        assert(v / 128 - 1 == value_of(rest));
        assert(128 + v % 128 == frame[0]);
        assert(frame =~= seq![frame[0]] + rest);
    }
}

/// Two whole frames that add up to the same number are the same bytes: no
/// number has a second encoding.
pub proof fn lemma_frames_are_canonical(a: Seq<u8>, b: Seq<u8>)
    requires
        is_frame(a),
        is_frame(b),
        value_of(a) == value_of(b),
    ensures
        a == b,
{
    lemma_frame_is_encoding(a);
    lemma_frame_is_encoding(b);
}

/// Two numbers with the same encoding are the same number.
pub proof fn lemma_encoding_is_injective(v: nat, w: nat)
    requires
        encoding(v) == encoding(w),
    ensures
        v == w,
{
    lemma_value_of_encoding(v);
    lemma_value_of_encoding(w);
}

/// Two values of an unsigned integer type with the same encoding are the
/// same value.
pub proof fn lemma_encoding_tells_values_apart<T: UInt>(a: T, b: T)
    requires
        encoding(a.value()) == encoding(b.value()),
    ensures
        a == b,
{
    lemma_encoding_is_injective(a.value(), b.value());
    a.lemma_value_is_injective(b);
}

/// A number below `128^groups` takes `groups` bytes at most.
pub proof fn lemma_encoding_len_by_groups(v: nat, groups: nat)
    requires
        groups > 0,
        v < pow2(7 * groups),
    ensures
        encoding(v).len() <= groups,
    decreases groups,
{
    lemma2_to64();
    if v >= 128 {
        lemma_pow2_adds(7 * (groups - 1) as nat, 7);
        lemma_encoding_len_by_groups((v / 128 - 1) as nat, (groups - 1) as nat);
    }
}

/// A number of `bits` bits takes `ceil(bits / 7)` bytes at most, as it would
/// without the one that the writer holds back.
pub proof fn lemma_encoding_len(v: nat, bits: nat)
    requires
        bits > 0,
        v < pow2(bits),
    ensures
        0 < encoding(v).len() <= max_len(bits),
{
    let groups = max_len(bits);
    if bits < 7 * groups {
        lemma_pow2_strictly_increases(bits, 7 * groups);
    }
    lemma_encoding_len_by_groups(v, groups);
}

/// The least number whose encoding takes `len` bytes.
pub open spec fn least_of_len(len: nat) -> nat
    decreases len,
{
    if len <= 1 {
        0
    } else {
        128 * (least_of_len((len - 1) as nat) + 1)
    }
}

/// A number from `least_of_len(len)` on takes `len` bytes at least.
pub proof fn lemma_encoding_len_from(v: nat, len: nat)
    requires
        v >= least_of_len(len),
    ensures
        encoding(v).len() >= len,
    decreases len,
{
    if len > 1 {
        lemma_encoding_len_from((v / 128 - 1) as nat, (len - 1) as nat);
    }
}

/// A number below `least_of_len(len + 1)` takes `len` bytes at most.
pub proof fn lemma_encoding_len_below(v: nat, len: nat)
    requires
        len > 0,
        v < least_of_len(len + 1),
    ensures
        encoding(v).len() <= len,
    decreases len,
{
    assert(least_of_len(1) == 0);
    if v >= 128 {
        lemma_encoding_len_below((v / 128 - 1) as nat, (len - 1) as nat);
    }
}

/// The numbers whose encoding takes `len` bytes are those from
/// `least_of_len(len)` up to the least number of one byte more.
pub proof fn lemma_encoding_len_is(v: nat, len: nat)
    requires
        len > 0,
    ensures
        encoding(v).len() == len <==> least_of_len(len) <= v < least_of_len(len + 1),
{
    if v >= least_of_len(len) {
        lemma_encoding_len_from(v, len);
    } else {
        lemma_encoding_len_below(v, (len - 1) as nat);
    }
    if v < least_of_len(len + 1) {
        lemma_encoding_len_below(v, len);
    } else {
        lemma_encoding_len_from(v, len + 1);
    }
}

/// The least number of `len` bytes lies below `2 * 128^(len - 1)`: the one
/// held back at each byte brings the ranges of the lengths closer together,
/// but never by a whole bit.
proof fn lemma_least_of_len_bound(len: nat)
    requires
        len > 0,
    ensures
        least_of_len(len) + 2 <= 2 * pow2(7 * (len - 1) as nat),
    decreases len,
{
    lemma2_to64();
    if len > 1 {
        lemma_least_of_len_bound((len - 1) as nat);
        lemma_pow2_adds(7 * (len - 2) as nat, 7);
    }
}

/// The largest number of `bits` bits takes all of `ceil(bits / 7)` bytes:
/// the bound on the length is reached in every width.
pub proof fn lemma_longest_encoding(bits: nat)
    requires
        bits > 0,
    ensures
        encoding((pow2(bits) - 1) as nat).len() == max_len(bits),
{
    let len = max_len(bits);
    let largest = (pow2(bits) - 1) as nat;
    lemma_pow2_pos(bits);
    lemma_encoding_len(largest, bits);
    lemma_least_of_len_bound(len);
    lemma_pow2_adds(7 * (len - 1) as nat, 1);
    lemma2_to64();
    if 7 * (len - 1) + 1 < bits {
        lemma_pow2_strictly_increases((7 * (len - 1) + 1) as nat, bits);
    }
    lemma_encoding_len_from(largest, len);
}

/// Reading what was written gives the number back, and takes exactly the
/// bytes of its encoding, whatever lies behind them.
pub proof fn lemma_round_trip_with_rest(v: nat, rest: Seq<u8>, bits: nat)
    requires
        v < pow2(bits),
    ensures
        decoding(encoding(v) + rest, bits) == Ok::<(nat, nat), DecodeError>(
            (v, encoding(v).len()),
        ),
{
    lemma_encoding_is_frame(v);
    lemma_value_of_encoding(v);
    lemma_head_of_frame(encoding(v), rest);
}

/// Reading the encoding of a number of `bits` bits gives the number back
/// and takes every byte.
pub proof fn lemma_round_trip(v: nat, bits: nat)
    requires
        v < pow2(bits),
    ensures
        decoding(encoding(v), bits) == Ok::<(nat, nat), DecodeError>((v, encoding(v).len())),
{
    lemma_round_trip_with_rest(v, Seq::empty(), bits);
    assert(encoding(v) + Seq::<u8>::empty() =~= encoding(v));
}

/// Every value of an unsigned integer type comes back from its encoding.
pub proof fn lemma_round_trip_of<T: UInt>(value: T)
    ensures
        decoding(encoding(value.value()), T::bits() as nat) == Ok::<(nat, nat), DecodeError>(
            (value.value(), encoding(value.value()).len()),
        ),
{
    value.lemma_value_in_range();
    lemma_round_trip(value.value(), T::bits() as nat);
}

/// The bytes that a read takes are the encoding of the number that it
/// gives.
pub proof fn lemma_decoded_is_encoding(bytes: Seq<u8>, bits: nat, v: nat, used: nat)
    requires
        decoding(bytes, bits) == Ok::<(nat, nat), DecodeError>((v, used)),
    ensures
        0 < used <= bytes.len(),
        v < pow2(bits),
        bytes.take(used as int) == encoding(v),
{
    lemma_run(bytes);
    let taken = head(bytes);
    assert(is_frame(taken));
    lemma_frame_is_encoding(taken);
}

/// A number of `bits` bits is read from the whole of a byte sequence if and
/// only if the sequence is the encoding of that number: the number has this
/// one byte sequence and no other.
pub proof fn lemma_canonical(bytes: Seq<u8>, bits: nat, v: nat)
    ensures
        decoding(bytes, bits) == Ok::<(nat, nat), DecodeError>((v, bytes.len())) <==> v < pow2(
            bits,
        ) && bytes == encoding(v),
{
    if decoding(bytes, bits) == Ok::<(nat, nat), DecodeError>((v, bytes.len())) {
        lemma_decoded_is_encoding(bytes, bits, v, bytes.len());
        assert(bytes.take(bytes.len() as int) =~= bytes);
    }
    if v < pow2(bits) && bytes == encoding(v) {
        lemma_round_trip(v, bits);
    }
}

/// Two byte sequences from the whole of which the same number is read are
/// the same sequence.
pub proof fn lemma_decoding_is_injective(a: Seq<u8>, b: Seq<u8>, bits: nat, v: nat)
    requires
        decoding(a, bits) == Ok::<(nat, nat), DecodeError>((v, a.len())),
        decoding(b, bits) == Ok::<(nat, nat), DecodeError>((v, b.len())),
    ensures
        a == b,
{
    lemma_canonical(a, bits, v);
    lemma_canonical(b, bits, v);
}

} // verus!
