//! The round-trip law of code families, for single values and for streams.

use crate::coding::traits::{decode_of, is_prefix_code, lemma_round_trip, Codes, UniversalCode};
use std::collections::VecDeque;
use vstd::prelude::*;

verus! {

/// Whether every one of `values` has a codeword.
pub open spec fn all_in_domain(codes: Codes, values: Seq<u64>) -> bool {
    forall|i: int| 0 <= i < values.len() ==> codes.dom().contains(#[trigger] values[i])
}

/// The codewords of `values` written back to back, first value first.
pub open spec fn encoding(codes: Codes, values: Seq<u64>) -> Seq<bool>
    decreases values.len(),
{
    if values.len() == 0 {
        Seq::empty()
    } else {
        codes[values[0]] + encoding(codes, values.skip(1))
    }
}

/// What decoding `n` times from the front of `bits` gives: the values in
/// the order read and the bits left over, or `None` when one of the `n`
/// decodes finds no codeword.
pub open spec fn decode_times(codes: Codes, bits: Seq<bool>, n: nat) -> Option<
    (Seq<u64>, Seq<bool>),
>
    decreases n,
{
    if n == 0 {
        Some((Seq::empty(), bits))
    } else {
        match decode_of(codes, bits) {
            None => None,
            Some((value, rest)) => match decode_times(codes, rest, (n - 1) as nat) {
                None => None,
                Some((values, left)) => Some((seq![value] + values, left)),
            },
        }
    }
}

/// Whether `value` plus one, the bias that lets zero be coded, is a value
/// of the domain.
pub open spec fn codable(codes: Codes, value: u64) -> bool {
    value < u64::MAX && codes.dom().contains((value + 1) as u64)
}

/// Each of `values` plus one.
pub open spec fn biased(values: Seq<u64>) -> Seq<u64> {
    Seq::new(values.len(), |i: int| (values[i] + 1) as u64)
}

/// Writing one more value appends its codeword.
pub proof fn lemma_encoding_push(codes: Codes, values: Seq<u64>, value: u64)
    ensures
        encoding(codes, values.push(value)) == encoding(codes, values) + codes[value],
    decreases values.len(),
{
    let longer = values.push(value);
    if values.len() == 0 {
        assert(longer.skip(1) == Seq::<u64>::empty());
        assert(encoding(codes, longer.skip(1)) == Seq::<bool>::empty());
        assert(encoding(codes, longer) == codes[value] + Seq::<bool>::empty());
    } else {
        assert(longer.skip(1) == values.skip(1).push(value));
        lemma_encoding_push(codes, values.skip(1), value);
        assert(encoding(codes, longer) == codes[values[0]] + (encoding(codes, values.skip(1))
            + codes[value]));
    }
}

/// The round-trip law for streams: values of the domain written back to
/// back, whatever follows them, are read back by as many decodes, in the
/// same order, and what is left is exactly what followed them. With
/// nothing after them the stream is exhausted.
pub proof fn lemma_stream_round_trip(codes: Codes, values: Seq<u64>, rest: Seq<bool>)
    requires
        is_prefix_code(codes),
        all_in_domain(codes, values),
    ensures
        decode_times(codes, encoding(codes, values) + rest, values.len()) == Some((values, rest)),
    decreases values.len(),
{
    if values.len() == 0 {
        assert(encoding(codes, values) + rest == rest);
    } else {
        let tail = values.skip(1);
        let after = encoding(codes, tail) + rest;
        assert(all_in_domain(codes, tail)) by {
            assert forall|i: int| 0 <= i < tail.len() implies codes.dom().contains(
                #[trigger] tail[i],
            ) by {
                assert(tail[i] == values[i + 1]);
            }
        }
        assert(encoding(codes, values) + rest == codes[values[0]] + after);
        lemma_round_trip(codes, values[0], after);
        lemma_stream_round_trip(codes, tail, rest);
        assert(seq![values[0]] + tail == values);
    }
}

/// Encodes every value of `vec`, each plus one, into one stream, decodes
/// the stream until it gives no more values, and tells whether the values
/// read back, each less one, are those of `vec`.
///
/// They are whenever every value plus one is in the family's domain. With a
/// value that is not, nothing is decoded and the answer is `false`.
pub fn code_decode<Code: UniversalCode>(vec: Vec<u64>) -> (ok: bool)
    ensures
        ok <==> forall|i: int| 0 <= i < vec@.len() ==> codable(Code::codes(), #[trigger] vec@[i]),
{
    let ghost codes = Code::codes();
    let ghost coded = biased(vec@);
    proof {
        Code::lemma_prefix_code();
    }
    let mut dv = VecDeque::<bool>::new();
    let mut next: usize = 0;
    while next < vec.len()
        invariant
            codes == Code::codes(),
            coded == biased(vec@),
            next <= vec@.len(),
            forall|i: int| 0 <= i < next ==> codable(codes, #[trigger] vec@[i]),
            dv@ == encoding(codes, coded.take(next as int)),
        decreases vec@.len() - next,
    {
        let value: u64 = vec[next];
        if value == u64::MAX {
            return false;
        }
        match Code::encode(&mut dv, value + 1) {
            Ok(_) => {},
            Err(_) => {
                return false;
            },
        }
        proof {
            lemma_encoding_push(codes, coded.take(next as int), coded[next as int]);
            assert(coded.take(next as int).push(coded[next as int]) == coded.take(next + 1));
        }
        next = next + 1;
    }
    assert(coded.take(next as int) == coded);

    let mut vec2 = Vec::<u64>::new();
    loop
        invariant_except_break
            vec2@ == vec@.take(vec2@.len() as int),
            dv@ == encoding(codes, coded.skip(vec2@.len() as int)),
        invariant
            codes == Code::codes(),
            coded == biased(vec@),
            is_prefix_code(codes),
            forall|i: int| 0 <= i < vec@.len() ==> codable(codes, #[trigger] vec@[i]),
            vec2@.len() <= vec@.len(),
        ensures
            vec2@ == vec@,
        decreases vec@.len() - vec2@.len(),
    {
        let ghost done = vec2@.len() as int;
        let ghost left = coded.skip(done);
        proof {
            if done < vec@.len() {
                assert(codable(codes, vec@[done]));
                assert(left[0] == coded[done]);
                assert(left.skip(1) == coded.skip(done + 1));
                lemma_round_trip(codes, coded[done], encoding(codes, coded.skip(done + 1)));
            } else {
                assert(dv@.len() == 0);
            }
        }
        match Code::decode(&mut dv) {
            Ok(Some(value)) => {
                vec2.push(value - 1);
                assert(vec2@ == vec@.take(done + 1));
            },
            _ => {
                assert(vec2@ == vec@);
                break ;
            },
        }
    }

    vec2 == vec
}

} // verus!
