//! The decoder: from bytes back to the number, one byte at a time or from a
//! slice.

use vstd::prelude::*;
use vstd::arithmetic::power2::{
    lemma2_to64, lemma_pow2_adds, lemma_pow2_pos, lemma_pow2_strictly_increases, pow2,
};
use crate::format::{
    continues, head, is_frame, lemma_run, lemma_run_is, lemma_value_of_prefix,
    lemma_value_of_push, run, value_of, CONTINUATION,
};
use crate::uint::UInt;

verus! {

/// Why a byte sequence gave no number.
#[derive(Clone, Copy, Debug, PartialEq, Eq)]
pub enum DecodeError {
    /// The bytes ended before one with the high bit clear came.
    TruncatedInput,
    /// The bytes stand for a number that is too large for the type asked
    /// for.
    Overflow,
}

/// What reading a number of `bits` bits from the front of `bytes` gives: the
/// number and how many bytes it took, or why there is none.
///
/// The reader takes the leading run of bytes with the high bit set and the
/// byte that closes it. It gives up on a number that is too large as soon as
/// the bytes taken say so, without waiting for the byte that closes the run;
/// so a run that is too large already is an overflow, closed or not.
pub open spec fn decoding(bytes: Seq<u8>, bits: nat) -> Result<(nat, nat), DecodeError> {
    let taken = head(bytes);
    if value_of(taken) >= pow2(bits) {
        Err(DecodeError::Overflow)
    } else if run(bytes) >= bytes.len() {
        Err(DecodeError::TruncatedInput)
    } else {
        Ok((value_of(taken), taken.len()))
    }
}

/// A number in the course of being read.
///
/// Its view is the bytes taken so far. Each of them had the high bit set, or
/// the decoder would not have gone on to the next.
pub struct Decoder<T: UInt> {
    acc: T,
    shift: u32,
    taken: Ghost<Seq<u8>>,
}

/// What one more byte does to a number in the course of being read.
pub enum Step<T: UInt> {
    /// The byte had the high bit set: the number is not complete.
    More(Decoder<T>),
    /// The byte had the high bit clear: this is the number.
    Done(T),
    /// With the byte the number became too large for the type.
    Overflow,
}

impl<T: UInt> View for Decoder<T> {
    type V = Seq<u8>;

    closed spec fn view(&self) -> Seq<u8> {
        self.taken@
    }
}

impl<T: UInt> Decoder<T> {
    #[verifier::type_invariant]
    spec fn well_formed(self) -> bool {
        &&& self.acc.value() == value_of(self.taken@)
        &&& self.shift == 7 * self.taken@.len()
    }

    /// A decoder that has taken no byte yet.
    pub fn new() -> (decoder: Self)
        ensures
            decoder@ == Seq::<u8>::empty(),
    {
        Decoder { acc: T::zero(), shift: 0, taken: Ghost(Seq::empty()) }
    }

    /// Takes one more byte.
    ///
    /// The byte is added in whole at the weight of its place. Where the sum
    /// is too large for the type the number is given up, whatever the byte's
    /// high bit says. Otherwise a byte with the high bit clear completes the
    /// number, and one with the high bit set leaves the decoder waiting for
    /// the next.
    pub fn push(self, byte: u8) -> (step: Step<T>)
        ensures
            match step {
                Step::More(next) => {
                    &&& continues(byte)
                    &&& next@ == self@.push(byte)
                    &&& value_of(next@) < pow2(T::bits() as nat)
                },
                Step::Done(value) => {
                    &&& !continues(byte)
                    &&& value.value() == value_of(self@.push(byte))
                    &&& value_of(self@.push(byte)) < pow2(T::bits() as nat)
                },
                Step::Overflow => value_of(self@.push(byte)) >= pow2(T::bits() as nat),
            },
    {
        proof {
            use_type_invariant(&self);
            lemma_value_of_push(self.taken@, byte);
        }
        match self.acc.add_shifted(byte, self.shift) {
            None => Step::Overflow,
            Some(sum) => {
                proof {
                    sum.lemma_value_in_range();
                }
                if byte < CONTINUATION {
                    Step::Done(sum)
                } else {
                    proof {
                        let shift = self.shift as nat;
                        lemma2_to64();
                        lemma_pow2_adds(shift, 7);
                        assert(byte * pow2(shift) >= 128 * pow2(shift)) by (nonlinear_arith)
                            requires
                                byte >= 128,
                        ;
                        if shift + 7 > T::bits() {
                            lemma_pow2_strictly_increases(T::bits() as nat, shift + 7);
                        }
                        assert(shift + 7 < T::bits());
                    }
                    Step::More(
                        Decoder {
                            acc: sum,
                            shift: self.shift + 7,
                            taken: Ghost(self.taken@.push(byte)),
                        },
                    )
                }
            },
        }
    }
}

/// The outcome of a read as numbers, to hold against `decoding`.
pub open spec fn as_numbers<T: UInt>(r: Result<(T, usize), DecodeError>) -> Result<
    (nat, nat),
    DecodeError,
> {
    match r {
        Ok((value, used)) => Ok((value.value(), used as nat)),
        Err(e) => Err(e),
    }
}

/// Reads one number from the front of `bytes`: the number and how many bytes
/// it took.
///
/// Bytes behind the one that closes the number are not looked at, so the
/// next number can be read from `bytes` past the count returned.
pub fn decode<T: UInt>(bytes: &[u8]) -> (r: Result<(T, usize), DecodeError>)
    ensures
        as_numbers(r) == decoding(bytes@, T::bits() as nat),
        r matches Ok((value, used)) ==> {
            &&& 0 < used <= bytes@.len()
            &&& is_frame(bytes@.take(used as int))
            &&& value.value() == value_of(bytes@.take(used as int))
        },
{
    let mut decoder = Decoder::<T>::new();
    let mut i: usize = 0;
    proof {
        lemma_pow2_pos(T::bits() as nat);
    }
    while i < bytes.len()
        invariant
            i <= bytes@.len(),
            decoder@ == bytes@.take(i as int),
            forall|j: int| 0 <= j < i ==> continues(#[trigger] bytes@[j]),
            value_of(decoder@) < pow2(T::bits() as nat),
        decreases bytes@.len() - i,
    {
        let byte = bytes[i];
        proof {
            assert(bytes@.take(i as int).push(byte) =~= bytes@.take(i + 1));
        }
        match decoder.push(byte) {
            Step::More(next) => {
                decoder = next;
                i += 1;
            },
            Step::Done(value) => {
                proof {
                    lemma_run_is(bytes@, i as nat);
                }
                return Ok((value, i + 1));
            },
            Step::Overflow => {
                proof {
                    if continues(byte) {
                        lemma_run(bytes@);
                        assert(run(bytes@) > i);
                        let taken = head(bytes@);
                        assert(taken.take(i + 1) =~= bytes@.take(i + 1));
                        lemma_value_of_prefix(taken, (i + 1) as nat);
                    } else {
                        lemma_run_is(bytes@, i as nat);
                    }
                }
                return Err(DecodeError::Overflow);
            },
        }
    }
    proof {
        lemma_run_is(bytes@, i as nat);
        assert(bytes@.take(i as int) =~= bytes@);
    }
    Err(DecodeError::TruncatedInput)
}

} // verus!
