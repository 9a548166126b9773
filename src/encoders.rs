//! Writers for the varint encoding.
use crate::varint::{lemma_encoding_len_step, varint_encoding};
use vstd::prelude::*;

verus! {

/// Encodes `value` as a minimal varint: seven bits per byte, least significant
/// group first, with the continuation bit set on every byte but the last.
pub fn encode_varint(value: u64) -> (r: Vec<u8>)
    ensures
        r@ == varint_encoding(value as nat),
{
    let mut buffer: Vec<u8> = Vec::new();
    let mut rest: u64 = value;
    while rest >= 128
        invariant
            buffer@ + varint_encoding(rest as nat) == varint_encoding(value as nat),
        decreases rest,
    {
        let byte: u8 = ((rest & 0x7F) | 0x80) as u8;
        proof {
            assert(byte == (rest % 128 + 128) as u8) by (bit_vector)
                requires
                    byte == ((rest & 0x7F) | 0x80) as u8,
            ;
            assert(varint_encoding(rest as nat) == seq![byte] + varint_encoding(
                (rest / 128) as nat,
            ));
            assert(buffer@.push(byte) + varint_encoding((rest / 128) as nat) =~= buffer@ + (seq![
                byte,
            ] + varint_encoding((rest / 128) as nat)));
        }
        buffer.push(byte);
        proof {
            assert(rest >> 7 == rest / 128) by (bit_vector);
        }
        rest = rest >> 7;
    }
    proof {
        assert(varint_encoding(rest as nat) == seq![rest as u8]);
        assert(buffer@.push(rest as u8) =~= buffer@ + seq![rest as u8]);
    }
    buffer.push(rest as u8);
    buffer
}

/// The number of bytes in the varint encoding of `value`.
pub fn get_varint_length(value: u32) -> (r: usize)
    ensures
        r == varint_encoding(value as nat).len(),
{
    let ghost v = value as nat;
    proof {
        lemma_encoding_len_step(v);
        lemma_encoding_len_step(v / 128);
        lemma_encoding_len_step(v / 128 / 128);
        lemma_encoding_len_step(v / 128 / 128 / 128);
        lemma_encoding_len_step(v / 128 / 128 / 128 / 128);
    }
    if value <= 0x7f {
        1
    } else if value <= 0x3fff {
        2
    } else if value <= 0x1fffff {
        3
    } else if value <= 0xfffffff {
        4
    } else {
        5
    }
}

} // verus!
