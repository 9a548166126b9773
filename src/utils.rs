//! The field-frame navigator: tags, value ranges and skipping, per wire type.
use crate::decoders::{decode_double, decode_float, decode_varint};
use crate::varint::varint_at;
use crate::wire::{tag_field_number, tag_wire_type, value_span};
use vstd::prelude::*;

verus! {

/// Decodes the tag at `offset`: the field number, the wire type, and the
/// offset where the value begins.
pub fn read_tag(encoded_message: &[u8], offset: usize) -> (r: Option<(u64, u64, usize)>)
    ensures
        match varint_at(encoded_message@, offset as int) {
            Some((tag, p)) => r == Some((tag_field_number(tag), tag_wire_type(tag), p as usize)),
            None => r is None,
        },
{
    match decode_varint(encoded_message, offset) {
        Some((tag, value_offset)) => {
            proof {
                assert(tag >> 3 == tag / 8) by (bit_vector);
                assert(tag & 0x07 == tag % 8) by (bit_vector);
            }
            Some((tag >> 3, tag & 0x07, value_offset))
        },
        None => None,
    }
}

/// The end of the varint value that begins at `offset`.
pub fn handle_varint(encoded_message: &[u8], offset: usize) -> (r: Option<usize>)
    ensures
        match value_span(encoded_message@, 0, offset as int) {
            Some((_, e)) => r == Some(e as usize),
            None => r is None,
        },
{
    match decode_varint(encoded_message, offset) {
        Some((_, new_offset)) => Some(new_offset),
        None => None,
    }
}

/// The range of the length-delimited value whose length prefix begins at
/// `offset`; None when the prefix is malformed or the value runs past the end.
pub fn handle_length_delimited(encoded_message: &[u8], offset: usize) -> (r: Option<(usize, usize)>)
    ensures
        match value_span(encoded_message@, 2, offset as int) {
            Some((s, e)) => r == Some((s as usize, e as usize)),
            None => r is None,
        },
{
    match decode_varint(encoded_message, offset) {
        Some((length, start)) => {
            if length > (encoded_message.len() - start) as u64 {
                None
            } else {
                Some((start, start + length as usize))
            }
        },
        None => None,
    }
}

/// The range of the value of wire type `wire_type` that begins at `offset`.
pub fn locate_value(encoded_message: &[u8], offset: usize, wire_type: u64) -> (r: Option<
    (usize, usize),
>)
    ensures
        match value_span(encoded_message@, wire_type, offset as int) {
            Some((s, e)) => r == Some((s as usize, e as usize)),
            None => r is None,
        },
{
    match wire_type {
        0 => match handle_varint(encoded_message, offset) {
            Some(end) => Some((offset, end)),
            None => None,
        },
        1 => match decode_double(encoded_message, offset) {
            Some(end) => Some((offset, end)),
            None => None,
        },
        2 => handle_length_delimited(encoded_message, offset),
        5 => match decode_float(encoded_message, offset) {
            Some(end) => Some((offset, end)),
            None => None,
        },
        _ => None,
    }
}

/// The end of the frame whose value, of wire type `wire_type`, begins at
/// `offset`: the offset of the next frame.
pub fn skip_field(encoded_message: &[u8], wire_type: u64, offset: usize) -> (r: Option<usize>)
    ensures
        match value_span(encoded_message@, wire_type, offset as int) {
            Some((_, e)) => r == Some(e as usize),
            None => r is None,
        },
{
    match wire_type {
        0 => handle_varint(encoded_message, offset),
        1 => decode_double(encoded_message, offset),
        2 => match handle_length_delimited(encoded_message, offset) {
            Some((_, end)) => Some(end),
            None => None,
        },
        5 => decode_float(encoded_message, offset),
        _ => None,
    }
}

} // verus!
