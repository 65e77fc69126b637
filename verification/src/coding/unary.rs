//! The unary code.

use crate::coding::traits::{
    decode_of, is_cut_short, lemma_round_trip, starts_with_code, CodeError, Codes, UniversalCode,
};
use crate::stream::{BitRead, BitWrite};
use vstd::prelude::*;

verus! {

/// The unary code: `n` is written as `n` zeros followed by a one.
pub struct Unary;

/// A run of `n` zeros.
pub open spec fn zeros(n: nat) -> Seq<bool> {
    Seq::new(n, |i: int| false)
}

/// The unary codeword of `value`.
pub open spec fn unary_codeword(value: u64) -> Seq<bool> {
    zeros(value as nat).push(true)
}

impl UniversalCode for Unary {
    /// Every strictly positive value has a codeword.
    open spec fn codes() -> Codes {
        Map::new(|value: u64| value > 0, |value: u64| unary_codeword(value))
    }

    proof fn lemma_prefix_code() {
        let codes = Self::codes();
        assert forall|a: u64, b: u64|
            #![trigger codes[a], codes[b]]
            codes.dom().contains(a) && codes.dom().contains(b) && codes[a].is_prefix_of(
                codes[b],
            ) implies a == b by {
            if a < b {
                assert(codes[a][a as int] != codes[b][a as int]);
            }
        }
    }

    fn encode<W: BitWrite>(sink: &mut W, value: u64) -> (r: Result<(), CodeError>) {
        if value == 0 {
            return Err(CodeError::OutOfRange);
        }
        let ghost before = sink.written();
        let mut written: u64 = 0;
        while written < value
            invariant
                written <= value,
                sink.written() == before + zeros(written as nat),
            decreases value - written,
        {
            sink.write_bit(false);
            written = written + 1;
            assert(sink.written() == before + zeros(written as nat));
        }
        sink.write_bit(true);
        assert(sink.written() == before + unary_codeword(value));
        Ok(())
    }

    fn decode<R: BitRead>(source: &mut R) -> (r: Result<Option<u64>, CodeError>) {
        let ghost codes = Self::codes();
        let ghost bits = source.unread();
        let mut result: u64 = 0;
        loop
            invariant
                codes == Self::codes(),
                bits == old(source).unread(),
                bits == zeros(result as nat) + source.unread(),
            decreases source.unread().len(),
        {
            let ghost unread = source.unread();
            let bit = source.read_bit();
            proof {
                assert(source.unread() == bits.skip(bits.len() - source.unread().len()));
            }
            match bit {
                None => {
                    proof {
                        assert(bits == zeros(result as nat));
                        lemma_zeros_begin_no_code(bits, result as nat);
                        let longer: u64 = if result == 0 {
                            1
                        } else {
                            result
                        };
                        assert(bits.is_prefix_of(codes[longer]));
                    }
                    return Ok(None);
                },
                Some(true) => {
                    proof {
                        assert(unread == seq![true] + source.unread());
                        assert(bits == unary_codeword(result) + source.unread());
                    }
                    if result == 0 {
                        proof {
                            lemma_one_begins_no_code(bits);
                        }
                        return Err(CodeError::Malformed);
                    }
                    proof {
                        Self::lemma_prefix_code();
                        lemma_round_trip(codes, result, source.unread());
                    }
                    return Ok(Some(result));
                },
                Some(false) => {
                    proof {
                        assert(unread == seq![false] + source.unread());
                        assert(bits == zeros(result as nat + 1) + source.unread());
                    }
                    if result == u64::MAX {
                        proof {
                            lemma_zeros_begin_no_code(bits, result as nat + 1);
                        }
                        return Err(CodeError::Malformed);
                    }
                    result = result + 1;
                },
            }
        }
    }
}

/// A prefix agrees with the whole at each of its positions.
proof fn lemma_prefix_index(part: Seq<bool>, whole: Seq<bool>, i: int)
    requires
        part.is_prefix_of(whole),
        0 <= i < part.len(),
    ensures
        part[i] == whole[i],
{
    assert(part[i] == whole.subrange(0, part.len() as int)[i]);
}

/// Bits that begin with `n` zeros neither begin with, nor are the beginning
/// of, the codeword of a value below `n`. So a run of zeros alone decodes
/// to nothing, and a run too long for any value is no part of a codeword.
proof fn lemma_zeros_begin_no_code(bits: Seq<bool>, n: nat)
    requires
        zeros(n).is_prefix_of(bits),
    ensures
        forall|value: u64|
            0 < value < n ==> !(#[trigger] unary_codeword(value)).is_prefix_of(bits)
                && !bits.is_prefix_of(unary_codeword(value)),
        bits == zeros(n) ==> decode_of(Unary::codes(), bits) is None,
        n > u64::MAX ==> decode_of(Unary::codes(), bits) is None && !is_cut_short(
            Unary::codes(),
            bits,
        ),
{
    let codes = Unary::codes();
    assert forall|value: u64| 0 < value < n implies !(#[trigger] unary_codeword(
        value,
    )).is_prefix_of(bits) && !bits.is_prefix_of(unary_codeword(value)) by {
        let code = unary_codeword(value);
        lemma_prefix_index(zeros(n), bits, value as int);
        assert(code[value as int]);
        if code.is_prefix_of(bits) {
            lemma_prefix_index(code, bits, value as int);
        }
        if bits.is_prefix_of(code) {
            lemma_prefix_index(bits, code, value as int);
        }
    }
    assert forall|value: u64| bits == zeros(n) implies !starts_with_code(codes, bits, value) by {
        if value > 0 && value >= n {
            assert(unary_codeword(value).len() > bits.len());
        }
    }
    assert forall|value: u64| n > u64::MAX implies !starts_with_code(codes, bits, value) by {}
}

/// Bits that begin with a one neither begin with a codeword nor are the
/// beginning of one.
proof fn lemma_one_begins_no_code(bits: Seq<bool>)
    requires
        bits.len() > 0,
        bits[0],
    ensures
        decode_of(Unary::codes(), bits) is None,
        !is_cut_short(Unary::codes(), bits),
{
    let codes = Unary::codes();
    assert forall|value: u64| value > 0 implies !(#[trigger] unary_codeword(value)).is_prefix_of(
        bits,
    ) && !bits.is_prefix_of(unary_codeword(value)) by {
        let code = unary_codeword(value);
        assert(!code[0]);
        if code.is_prefix_of(bits) {
            lemma_prefix_index(code, bits, 0);
        }
        if bits.is_prefix_of(code) {
            lemma_prefix_index(bits, code, 0);
        }
    }
}

} // verus!
