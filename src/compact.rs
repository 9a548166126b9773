//! Extraction keyed by `u32` field numbers.
use crate::wire::{field_value, fields_with, lemma_collected_in_targets};
use crate::{extract_field_by_tag, extract_multiple_fields_by_tag};
use vstd::prelude::*;

verus! {

/// The `u64` field numbers that a list of `u32` field numbers names.
pub open spec fn widen(tags: Seq<u32>) -> Seq<u64> {
    Seq::new(tags.len(), |i: int| tags[i] as u64)
}

/// The field numbers, widened, and value bytes of a list of extracted fields.
pub open spec fn narrow_pairs_view(v: Seq<(u32, &[u8])>) -> Seq<(u64, Seq<u8>)> {
    Seq::new(v.len(), |i: int| (v[i].0 as u64, v[i].1@))
}

/// Extracts the value of the first field with number `field_number`, as
/// `extract_field_by_tag` does.
pub fn extract_field(encoded_message: &[u8], field_number: u32) -> (r: Option<&[u8]>)
    ensures
        match field_value(encoded_message@, field_number as u64) {
            Some(v) => r is Some && r->0@ == v,
            None => r is None,
        },
{
    extract_field_by_tag(encoded_message, field_number as u64)
}

/// Extracts every field whose number is in `field_numbers`, in the order met,
/// as `extract_multiple_fields_by_tag` does.
pub fn extract_multiple_fields<'a>(encoded_message: &'a [u8], field_numbers: &[u32]) -> (r: Vec<
    (u32, &'a [u8]),
>)
    ensures
        narrow_pairs_view(r@) == fields_with(encoded_message@, widen(field_numbers@)),
{
    let mut tags: Vec<u64> = Vec::new();
    let mut i: usize = 0;
    while i < field_numbers.len()
        invariant
            i <= field_numbers@.len(),
            tags@ == widen(field_numbers@.subrange(0, i as int)),
        decreases field_numbers@.len() - i,
    {
        tags.push(field_numbers[i] as u64);
        i += 1;
        proof {
            assert(tags@ =~= widen(field_numbers@.subrange(0, i as int)));
        }
    }
    proof {
        assert(field_numbers@.subrange(0, i as int) =~= field_numbers@);
    }
    let found = extract_multiple_fields_by_tag(encoded_message, tags.as_slice());
    let ghost expected = fields_with(encoded_message@, widen(field_numbers@));
    proof {
        lemma_collected_in_targets(encoded_message@, 0, tags@);
        assert(found@.len() == expected.len());
        assert forall|k: int| 0 <= k < found@.len() implies (#[trigger] found@[k]).0 <= u32::MAX by {
            assert(expected[k].0 == found@[k].0);
            assert(tags@.contains(expected[k].0));
        }
    }
    let mut result: Vec<(u32, &'a [u8])> = Vec::new();
    let mut j: usize = 0;
    while j < found.len()
        invariant
            j <= found@.len(),
            found@.len() == expected.len(),
            forall|k: int| 0 <= k < found@.len() ==> (#[trigger] found@[k]).0 <= u32::MAX,
            forall|k: int|
                0 <= k < found@.len() ==> #[trigger] expected[k] == (found@[k].0, found@[k].1@),
            narrow_pairs_view(result@) =~= expected.subrange(0, j as int),
        decreases found@.len() - j,
    {
        let (field_number, value) = found[j];
        let ghost before = result@;
        proof {
            assert(found@[j as int].0 <= u32::MAX);
            assert((field_number as u32) as u64 == field_number);
        }
        result.push((field_number as u32, value));
        j += 1;
        proof {
            assert(narrow_pairs_view(before).len() == before.len());
            assert(result@[j - 1] == (field_number as u32, value));
            assert(narrow_pairs_view(result@) =~= expected.subrange(0, j as int));
        }
    }
    proof {
        assert(expected.subrange(0, j as int) =~= expected);
    }
    result
}

/// The same as `extract_multiple_fields`.
pub fn extract_multiple_fields_lazy<'a>(encoded_message: &'a [u8], field_numbers: &[u32]) -> (r: Vec<
    (u32, &'a [u8]),
>)
    ensures
        narrow_pairs_view(r@) == fields_with(encoded_message@, widen(field_numbers@)),
{
    extract_multiple_fields(encoded_message, field_numbers)
}

} // verus!
