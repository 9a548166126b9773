//! Schema-less reading and rewriting of Protocol Buffers wire data.
//!
//! Fields of an encoded message are found by number, without decoding the
//! message into typed structures, and a field's frame can be spliced out and
//! replaced while every other byte stays as it was.
pub mod compact;
pub mod decoders;
pub mod encoders;
pub mod laws;
mod utils;
pub mod varint;
pub mod wire;

pub use compact::{extract_field, extract_multiple_fields, extract_multiple_fields_lazy};
pub use decoders::decode_varint;
pub use encoders::encode_varint;

use crate::utils::{locate_value, read_tag, skip_field};
use crate::varint::varint_encoding;
use crate::wire::{collect_fields, field_value, fields_with, find_field, replaced};
use vstd::prelude::*;

verus! {

/// The field numbers and value bytes of a list of extracted fields.
pub open spec fn pairs_view(v: Seq<(u64, &[u8])>) -> Seq<(u64, Seq<u8>)> {
    Seq::new(v.len(), |i: int| (v[i].0, v[i].1@))
}

/// Extracts the value of the first field with number `tag_number` from an
/// encoded message. The value is borrowed from the message. None when no such
/// field comes before the end of the message or before a malformed frame.
pub fn extract_field_by_tag<'a>(encoded_message: &'a [u8], tag_number: u64) -> (r: Option<
    &'a [u8],
>)
    ensures
        match field_value(encoded_message@, tag_number) {
            Some(v) => r is Some && r->0@ == v,
            None => r is None,
        },
{
    let ghost b = encoded_message@;
    let mut offset: usize = 0;
    while offset < encoded_message.len()
        invariant
            b == encoded_message@,
            offset <= b.len(),
            find_field(b, 0, tag_number) == find_field(b, offset as int, tag_number),
        decreases b.len() - offset,
    {
        let (field_number, wire_type, value_offset) = match read_tag(encoded_message, offset) {
            Some(t) => t,
            None => return None,
        };
        if field_number == tag_number {
            return match locate_value(encoded_message, value_offset, wire_type) {
                Some((start, end)) => Some(&encoded_message[start..end]),
                None => None,
            };
        } else {
            offset = match skip_field(encoded_message, wire_type, value_offset) {
                Some(next) => next,
                None => return None,
            };
        }
    }
    None
}

/// Whether `tag_numbers` holds `field_number`.
fn contains_tag(tag_numbers: &[u64], field_number: u64) -> (r: bool)
    ensures
        r == tag_numbers@.contains(field_number),
{
    let mut i: usize = 0;
    while i < tag_numbers.len()
        invariant
            i <= tag_numbers@.len(),
            forall|j: int| 0 <= j < i ==> tag_numbers@[j] != field_number,
        decreases tag_numbers@.len() - i,
    {
        if tag_numbers[i] == field_number {
            return true;
        }
        i += 1;
    }
    false
}

/// Extracts, in one pass and in the order met, every field whose number is in
/// `tag_numbers`, paired with its number; repeated fields give one entry each.
/// The values are borrowed from the message. The scan stops at the first
/// malformed frame and returns what it found before it.
pub fn extract_multiple_fields_by_tag<'a>(encoded_message: &'a [u8], tag_numbers: &[u64]) -> (r:
    Vec<(u64, &'a [u8])>)
    ensures
        pairs_view(r@) == fields_with(encoded_message@, tag_numbers@),
{
    let ghost b = encoded_message@;
    let ghost targets = tag_numbers@;
    let mut fields: Vec<(u64, &'a [u8])> = Vec::new();
    let mut offset: usize = 0;
    while offset < encoded_message.len()
        invariant
            b == encoded_message@,
            targets == tag_numbers@,
            offset <= b.len(),
            pairs_view(fields@) + collect_fields(b, offset as int, targets) == collect_fields(
                b,
                0,
                targets,
            ),
        decreases b.len() - offset,
    {
        let (field_number, wire_type, value_offset) = match read_tag(encoded_message, offset) {
            Some(t) => t,
            None => {
                proof {
                    assert(pairs_view(fields@) + Seq::empty() =~= pairs_view(fields@));
                }
                return fields;
            },
        };
        if contains_tag(tag_numbers, field_number) {
            match locate_value(encoded_message, value_offset, wire_type) {
                Some((start, end)) => {
                    let value = &encoded_message[start..end];
                    let ghost before = fields@;
                    fields.push((field_number, value));
                    proof {
                        let x = seq![(field_number, b.subrange(start as int, end as int))];
                        assert(pairs_view(fields@) =~= pairs_view(before) + x);
                        assert(pairs_view(before) + x + collect_fields(b, end as int, targets)
                            =~= pairs_view(before) + (x + collect_fields(
                            b,
                            end as int,
                            targets,
                        )));
                    }
                    offset = end;
                },
                None => {
                    proof {
                        assert(pairs_view(fields@) + Seq::empty() =~= pairs_view(fields@));
                    }
                    return fields;
                },
            }
        } else {
            offset = match skip_field(encoded_message, wire_type, value_offset) {
                Some(next) => next,
                None => {
                    proof {
                        assert(pairs_view(fields@) + Seq::empty() =~= pairs_view(fields@));
                    }
                    return fields;
                },
            };
        }
    }
    proof {
        assert(pairs_view(fields@) + Seq::empty() =~= pairs_view(fields@));
    }
    fields
}

/// Appends `src[from..to]` to `dst`.
fn push_range(dst: &mut Vec<u8>, src: &[u8], from: usize, to: usize)
    requires
        from <= to <= src@.len(),
    ensures
        final(dst)@ == old(dst)@ + src@.subrange(from as int, to as int),
{
    let mut i: usize = from;
    while i < to
        invariant
            from <= i <= to <= src@.len(),
            dst@ == old(dst)@ + src@.subrange(from as int, i as int),
        decreases to - i,
    {
        dst.push(src[i]);
        proof {
            assert(src@.subrange(from as int, i + 1) =~= src@.subrange(from as int, i as int).push(
                src@[i as int],
            ));
            assert(dst@ =~= old(dst)@ + src@.subrange(from as int, i + 1));
        }
        i += 1;
    }
}

/// Replaces the first frame of field number `tag_number` (tag through value)
/// with `replace_with`, which the caller supplies as a complete frame, and
/// returns that frame's old value. Every byte outside the replaced frame is
/// kept in place and order. When no such frame is found before the end of the
/// message or before a malformed frame, returns None and leaves the message
/// as it was.
pub fn replace_field_with(encoded_message: &mut Vec<u8>, tag_number: u64, replace_with: &[u8]) -> (r:
    Option<Vec<u8>>)
    ensures
        match replaced(old(encoded_message)@, tag_number, replace_with@) {
            Some((message, old_value)) => {
                &&& r is Some
                &&& r->0@ == old_value
                &&& final(encoded_message)@ == message
            },
            None => r is None && final(encoded_message)@ == old(encoded_message)@,
        },
{
    let ghost b = encoded_message@;
    let mut offset: usize = 0;
    while offset < encoded_message.len()
        invariant
            b == encoded_message@,
            b == old(encoded_message)@,
            offset <= b.len(),
            find_field(b, 0, tag_number) == find_field(b, offset as int, tag_number),
        decreases b.len() - offset,
    {
        let frame_start = offset;
        let (field_number, wire_type, value_offset) = match read_tag(
            encoded_message.as_slice(),
            offset,
        ) {
            Some(t) => t,
            None => return None,
        };
        if field_number == tag_number {
            let (start, end) = match locate_value(
                encoded_message.as_slice(),
                value_offset,
                wire_type,
            ) {
                Some(range) => range,
                None => return None,
            };
            let mut old_value: Vec<u8> = Vec::new();
            push_range(&mut old_value, encoded_message.as_slice(), start, end);
            let mut message: Vec<u8> = Vec::new();
            push_range(&mut message, encoded_message.as_slice(), 0, frame_start);
            push_range(&mut message, replace_with, 0, replace_with.len());
            push_range(&mut message, encoded_message.as_slice(), end, encoded_message.len());
            proof {
                assert(replace_with@.subrange(0, replace_with@.len() as int) =~= replace_with@);
            }
            *encoded_message = message;
            return Some(old_value);
        } else {
            offset = match skip_field(encoded_message.as_slice(), wire_type, value_offset) {
                Some(next) => next,
                None => return None,
            };
        }
    }
    None
}

/// The header of a field frame: the varint of `(tag_number << 3) | variant`,
/// followed, for the length-delimited wire type (2), by the varint of
/// `value_len`.
pub open spec fn header_bytes(tag_number: u64, variant: u64, value_len: nat) -> Seq<u8> {
    varint_encoding(((tag_number << 3u64) | variant) as nat) + if variant == 2 {
        varint_encoding(value_len)
    } else {
        Seq::empty()
    }
}

/// Builds the header that frames `encoded_message` as the value of field
/// `tag_number` with wire type `variant`; for the length-delimited wire type
/// the header ends with the value's length. The value itself is not copied.
pub fn create_header(tag_number: u64, variant: u64, encoded_message: &[u8]) -> (r: Vec<u8>)
    ensures
        r@ == header_bytes(tag_number, variant, encoded_message@.len()),
{
    let tag: u64 = (tag_number << 3u64) | variant;
    let mut header = encode_varint(tag);
    if variant == 2 {
        let mut length = encode_varint(encoded_message.len() as u64);
        header.append(&mut length);
    } else {
        proof {
            assert(header@ + Seq::empty() =~= header@);
        }
    }
    header
}

/// The wire types a field frame can have.
#[derive(Debug, PartialEq, Eq)]
pub enum Variant {
    Varint,
    SixtyFourBit,
    LengthDelimited,
    ThirtyTwoBit,
}

impl Variant {
    /// The wire type's number as it stands in the low three bits of a tag.
    pub open spec fn wire_value(self) -> u64 {
        match self {
            Variant::Varint => 0,
            Variant::SixtyFourBit => 1,
            Variant::LengthDelimited => 2,
            Variant::ThirtyTwoBit => 5,
        }
    }
}

impl From<Variant> for u64 {
    fn from(variant: Variant) -> (r: u64)
        ensures
            r == variant.wire_value(),
    {
        match variant {
            Variant::Varint => 0,
            Variant::SixtyFourBit => 1,
            Variant::LengthDelimited => 2,
            Variant::ThirtyTwoBit => 5,
        }
    }
}

impl vstd::std_specs::convert::FromSpecImpl<Variant> for u64 {
    open spec fn obeys_from_spec() -> bool {
        true
    }

    open spec fn from_spec(v: Variant) -> u64 {
        v.wire_value()
    }
}

} // verus!
