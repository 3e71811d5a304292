//! The wire format as mathematics: which bytes stand for which number.
//!
//! A number is written as a run of bytes with the high bit set, closed by one
//! byte with the high bit clear. The byte at index `i` weighs `128^i`, and it
//! weighs in whole, high bit and all: the high bit of a byte sits exactly one
//! place below the next byte, so it carries the one that the writer held back
//! from the rest when it announced that more bytes follow.

use vstd::prelude::*;
use vstd::arithmetic::power2::{lemma2_to64, lemma_pow2_adds, pow2};

verus! {

/// The high bit of a byte: set when more bytes follow, clear on the last one.
pub const CONTINUATION: u8 = 0x80;

/// The low seven bits of a byte, which carry the payload.
pub const PAYLOAD: u8 = 0x7f;

/// Whether `b` announces that more bytes follow.
pub open spec fn continues(b: u8) -> bool {
    b >= CONTINUATION
}

/// The byte sequence that stands for `v`.
///
/// The low seven bits of `v` make the first byte. If nothing is left above
/// them, the byte goes out as it is and closes the sequence. Otherwise its
/// high bit is set, and the sequence goes on with the encoding of what is
/// left above the seven bits, less one: a byte that announces more has told
/// already that the rest is not nothing, so the rest is counted from one.
pub open spec fn encoding(v: nat) -> Seq<u8>
    decreases v,
{
    if v < 128 {
        seq![v as u8]
    } else {
        seq![(128 + v % 128) as u8] + encoding((v / 128 - 1) as nat)
    }
}

/// How many bytes the longest encoding of a number of `bits` bits takes: one
/// for every seven bits, the last of them perhaps not full.
pub open spec fn max_len(bits: nat) -> nat {
    (bits + 6) / 7
}

/// The number that `bytes` add up to: the sum of `bytes[i] * 128^i`.
pub open spec fn value_of(bytes: Seq<u8>) -> nat
    decreases bytes.len(),
{
    if bytes.len() == 0 {
        0
    } else {
        bytes[0] as nat + 128 * value_of(bytes.drop_first())
    }
}

/// Whether `bytes` is one whole encoding: not empty, closed by a byte with
/// the high bit clear, and with the high bit set on every byte before it.
pub open spec fn is_frame(bytes: Seq<u8>) -> bool {
    &&& bytes.len() > 0
    &&& !continues(bytes.last())
    &&& forall|i: int| 0 <= i < bytes.len() - 1 ==> continues(#[trigger] bytes[i])
}

/// How many bytes at the front of `bytes` have the high bit set.
pub open spec fn run(bytes: Seq<u8>) -> nat
    decreases bytes.len(),
{
    if bytes.len() > 0 && continues(bytes[0]) {
        1 + run(bytes.drop_first())
    } else {
        0
    }
}

/// What a reader takes from the front of `bytes`: the leading run and the
/// byte that closes it, or all of `bytes` where nothing closes the run.
pub open spec fn head(bytes: Seq<u8>) -> Seq<u8> {
    if run(bytes) < bytes.len() {
        bytes.take((run(bytes) + 1) as int)
    } else {
        bytes
    }
}

/// The leading run lies within `bytes`, holds only bytes with the high bit
/// set, and stops at the first byte with the high bit clear.
pub proof fn lemma_run(bytes: Seq<u8>)
    ensures
        run(bytes) <= bytes.len(),
        forall|i: int| 0 <= i < run(bytes) ==> continues(#[trigger] bytes[i]),
        run(bytes) < bytes.len() ==> !continues(bytes[run(bytes) as int]),
    decreases bytes.len(),
{
    if bytes.len() > 0 && continues(bytes[0]) {
        let rest = bytes.drop_first();
        lemma_run(rest);
        assert forall|i: int| 0 <= i < run(bytes) implies continues(#[trigger] bytes[i]) by {
            if i > 0 {
                assert(bytes[i] == rest[i - 1]);
            }
        }
    }
}

/// A count `n` of leading bytes with the high bit set, which the end of
/// `bytes` or a byte with the high bit clear follows, is the leading run.
pub proof fn lemma_run_is(bytes: Seq<u8>, n: nat)
    requires
        n <= bytes.len(),
        forall|i: int| 0 <= i < n ==> continues(#[trigger] bytes[i]),
        n < bytes.len() ==> !continues(bytes[n as int]),
    ensures
        run(bytes) == n,
    decreases n,
{
    if n > 0 {
        let rest = bytes.drop_first();
        assert forall|i: int| 0 <= i < n - 1 implies continues(#[trigger] rest[i]) by {
            assert(rest[i] == bytes[i + 1]);
        }
        lemma_run_is(rest, (n - 1) as nat);
    }
}

/// One more byte at the end adds that byte at the weight of its index.
pub proof fn lemma_value_of_push(bytes: Seq<u8>, b: u8)
    ensures
        value_of(bytes.push(b)) == value_of(bytes) + b * pow2(7 * bytes.len()),
    decreases bytes.len(),
{
    lemma2_to64();
    if bytes.len() == 0 {
        assert(bytes.push(b).drop_first() =~= Seq::<u8>::empty());
        assert(value_of(bytes.push(b)) == b as nat + 128 * value_of(Seq::<u8>::empty()));
    } else {
        let rest = bytes.drop_first();
        assert(bytes.push(b).drop_first() =~= rest.push(b));
        lemma_value_of_push(rest, b);
        lemma_pow2_adds(7 * rest.len(), 7);
        assert(128 * (b * pow2(7 * rest.len())) == b * pow2(7 * bytes.len())) by (nonlinear_arith)
            requires
                pow2(7 * bytes.len()) == pow2(7 * rest.len()) * 128,
        ;
    }
}

/// A prefix never adds up to more than the whole.
pub proof fn lemma_value_of_prefix(bytes: Seq<u8>, n: nat)
    requires
        n <= bytes.len(),
    ensures
        value_of(bytes.take(n as int)) <= value_of(bytes),
    decreases n,
{
    if n > 0 {
        let rest = bytes.drop_first();
        assert(bytes.take(n as int).drop_first() =~= rest.take(n - 1));
        lemma_value_of_prefix(rest, (n - 1) as nat);
    }
}

/// A whole encoding with anything behind it is what a reader takes from the
/// front: the format needs no length and no separator.
pub proof fn lemma_head_of_frame(frame: Seq<u8>, rest: Seq<u8>)
    requires
        is_frame(frame),
    ensures
        run(frame + rest) == frame.len() - 1,
        head(frame + rest) == frame,
{
    let all = frame + rest;
    let n = (frame.len() - 1) as nat;
    assert forall|i: int| 0 <= i < n implies continues(#[trigger] all[i]) by {
        assert(all[i] == frame[i]);
    }
    lemma_run_is(all, n);
    assert(all.take((n + 1) as int) =~= frame);
}

} // verus!
