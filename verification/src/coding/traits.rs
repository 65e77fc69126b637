//! What every code family provides, and what follows from it.

use crate::stream::{BitRead, BitWrite};
use vstd::prelude::*;

verus! {

/// Why an encode or a decode did not give a value.
#[derive(Clone, Copy, Debug, PartialEq, Eq, Structural)]
pub enum CodeError {
    /// The value to encode is outside the family's domain.
    OutOfRange,
    /// The bits read cannot begin any codeword of the family.
    Malformed,
}

/// The model of a code family: the codeword of each value in its domain.
pub type Codes = Map<u64, Seq<bool>>;

/// Whether `codes` is a family of self-delimiting codes for strictly
/// positive integers: zero has no codeword, no codeword is empty, and no
/// codeword is a prefix of the codeword of another value.
pub open spec fn is_prefix_code(codes: Codes) -> bool {
    &&& !codes.dom().contains(0)
    &&& forall|value: u64| #[trigger] codes.dom().contains(value) ==> codes[value].len() > 0
    &&& forall|a: u64, b: u64|
        #![trigger codes[a], codes[b]]
        codes.dom().contains(a) && codes.dom().contains(b) && codes[a].is_prefix_of(codes[b])
            ==> a == b
}

/// Whether `bits` begin with the codeword of `value`.
pub open spec fn starts_with_code(codes: Codes, bits: Seq<bool>, value: u64) -> bool {
    codes.dom().contains(value) && codes[value].is_prefix_of(bits)
}

/// The value whose codeword `bits` begin with, and the bits after that
/// codeword; `None` when `bits` begin with no codeword.
pub open spec fn decode_of(codes: Codes, bits: Seq<bool>) -> Option<(u64, Seq<bool>)> {
    if exists|value: u64| starts_with_code(codes, bits, value) {
        let value = choose|value: u64| starts_with_code(codes, bits, value);
        Some((value, bits.skip(codes[value].len() as int)))
    } else {
        None
    }
}

/// Whether `bits` end before some codeword that they begin is complete.
pub open spec fn is_cut_short(codes: Codes, bits: Seq<bool>) -> bool {
    exists|value: u64|
        #![trigger codes[value]]
        codes.dom().contains(value) && bits.is_prefix_of(codes[value]) && bits.len()
            < codes[value].len()
}

/// A family of self-delimiting codes for strictly positive integers.
///
/// Codewords written back to back can be told apart without separators,
/// because the family is a prefix code. Zero is in no family's domain: a
/// caller that needs to store zero stores each value plus one.
pub trait UniversalCode {
    /// The family's codewords.
    spec fn codes() -> Codes;

    /// The family is a prefix code.
    proof fn lemma_prefix_code()
        ensures
            is_prefix_code(Self::codes()),
    ;

    /// Writes the codeword of `value` to `sink`, or writes nothing and
    /// fails when `value` is outside the domain.
    fn encode<W: BitWrite>(sink: &mut W, value: u64) -> (r: Result<(), CodeError>)
        ensures
            r is Ok <==> Self::codes().dom().contains(value),
            match r {
                Ok(_) => final(sink).written() == old(sink).written() + Self::codes()[value],
                Err(e) => e == CodeError::OutOfRange && final(sink).written() == old(
                    sink,
                ).written(),
            },
    ;

    /// Reads one codeword from the front of `source`.
    ///
    /// Gives the value and leaves the cursor just past its codeword; or
    /// `Ok(None)` when the source ends before a codeword is complete; or
    /// `Malformed` when the unread bits cannot begin any codeword.
    fn decode<R: BitRead>(source: &mut R) -> (r: Result<Option<u64>, CodeError>)
        ensures
            match r {
                Ok(Some(value)) => decode_of(Self::codes(), old(source).unread()) == Some(
                    (value, final(source).unread()),
                ),
                Ok(None) => {
                    &&& decode_of(Self::codes(), old(source).unread()) is None
                    &&& is_cut_short(Self::codes(), old(source).unread())
                },
                Err(e) => {
                    &&& e == CodeError::Malformed
                    &&& decode_of(Self::codes(), old(source).unread()) is None
                    &&& !is_cut_short(Self::codes(), old(source).unread())
                },
            },
            final(source).unread().is_suffix_of(old(source).unread()),
    ;
}

/// Only one value's codeword can begin a given bit sequence.
pub proof fn lemma_decode_unique(codes: Codes, bits: Seq<bool>, a: u64, b: u64)
    requires
        is_prefix_code(codes),
        starts_with_code(codes, bits, a),
        starts_with_code(codes, bits, b),
    ensures
        a == b,
{
    if codes[a].len() <= codes[b].len() {
        assert(codes[a].is_prefix_of(codes[b]));
    } else {
        assert(codes[b].is_prefix_of(codes[a]));
    }
}

/// Decoding undoes encoding: bits that begin with the codeword of `value`
/// decode to `value`, and what is left is exactly what followed the
/// codeword.
pub proof fn lemma_round_trip(codes: Codes, value: u64, rest: Seq<bool>)
    requires
        is_prefix_code(codes),
        codes.dom().contains(value),
    ensures
        decode_of(codes, codes[value] + rest) == Some((value, rest)),
{
    let bits = codes[value] + rest;
    assert(starts_with_code(codes, bits, value));
    let found = choose|found: u64| starts_with_code(codes, bits, found);
    lemma_decode_unique(codes, bits, value, found);
    assert(bits.skip(codes[value].len() as int) == rest);
}

} // verus!
