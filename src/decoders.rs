//! Readers for the primitive wire encodings: varints and fixed-width values.
use crate::varint::{
    lemma_accumulate, lemma_terminator_bounds, lemma_terminator_skips, lemma_varint_value_push,
    varint_at, varint_value,
};
use vstd::arithmetic::power2::{lemma2_to64, pow2};
use vstd::prelude::*;

verus! {

/// Decodes the varint that starts at `offset` in `bytes`, returning its value
/// and the offset just past it; None when it is truncated or longer than ten
/// bytes.
pub fn decode_varint(bytes: &[u8], offset: usize) -> (r: Option<(u64, usize)>)
    ensures
        match varint_at(bytes@, offset as int) {
            Some((v, e)) => r == Some((v, e as usize)),
            None => r is None,
        },
{
    if offset >= bytes.len() {
        return None;
    }
    let ghost b = bytes@;
    let mut result: u64 = 0;
    let mut shift: u64 = 0;
    let mut i: usize = offset;
    proof {
        lemma2_to64();
    }
    while i < bytes.len()
        invariant
            b == bytes@,
            offset <= i <= b.len(),
            offset < b.len(),
            shift == 7 * (i - offset),
            i - offset < 10,
            forall|j: int| offset <= j < i ==> b[j] >= 128,
            result as nat == varint_value(b.subrange(offset as int, i as int)),
            result < pow2(7 * (i - offset) as nat),
        decreases b.len() - i,
    {
        let byte = bytes[i];
        let ghost k = (i - offset) as nat;
        let ghost sub = b.subrange(offset as int, i as int);
        proof {
            lemma_accumulate(result, byte, k);
            lemma_varint_value_push(sub, byte);
            assert(b.subrange(offset as int, i + 1) =~= sub.push(byte));
        }
        result = result | (((byte & 0x7F) as u64) << shift);
        if byte & 0x80 == 0 {
            proof {
                assert(byte < 128) by (bit_vector)
                    requires
                        byte & 0x80 == 0,
                ;
                lemma_terminator_skips(b, offset as int, i as int);
            }
            return Some((result, i + 1));
        }
        proof {
            assert(byte >= 128) by (bit_vector)
                requires
                    byte & 0x80 != 0,
            ;
        }
        shift += 7;
        if shift >= 64 {
            proof {
                lemma_terminator_skips(b, offset as int, i + 1);
                lemma_terminator_bounds(b, i + 1);
            }
            return None;
        }
        i += 1;
    }
    proof {
        lemma_terminator_skips(b, offset as int, i as int);
    }
    None
}

/// Checks that a 32-bit fixed-width value fits at `offset`, returning the
/// offset just past it.
pub fn decode_float(encoded_message: &[u8], offset: usize) -> (r: Option<usize>)
    ensures
        r == (if offset + 4 <= encoded_message@.len() {
            Some((offset + 4) as usize)
        } else {
            None::<usize>
        }),
{
    if offset <= encoded_message.len() && encoded_message.len() - offset >= 4 {
        Some(offset + 4)
    } else {
        None
    }
}

/// Checks that a 64-bit fixed-width value fits at `offset`, returning the
/// offset just past it.
pub fn decode_double(encoded_message: &[u8], offset: usize) -> (r: Option<usize>)
    ensures
        r == (if offset + 8 <= encoded_message@.len() {
            Some((offset + 8) as usize)
        } else {
            None::<usize>
        }),
{
    if offset <= encoded_message.len() && encoded_message.len() - offset >= 8 {
        Some(offset + 8)
    } else {
        None
    }
}

} // verus!
