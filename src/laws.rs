//! Laws that relate the extraction and replacement operations.
use crate::wire::{
    collect_fields, field_value, fields_with, find_field, frame_at, lemma_collect_tail,
    lemma_find_bounds, lemma_find_tail, lemma_frame_bounds, lemma_frame_window, replaced,
    same_window, value_of,
};
use vstd::prelude::*;

verus! {

/// `frame` is exactly one well-formed field frame with field number `f`.
pub open spec fn is_single_frame(frame: Seq<u8>, f: u64) -> bool {
    match frame_at(frame, 0) {
        Some((g, _, e)) => g == f && e == frame.len(),
        None => false,
    }
}

/// The value bytes of the frame that begins `frame`.
pub open spec fn frame_value(frame: Seq<u8>) -> Seq<u8> {
    match frame_at(frame, 0) {
        Some((_, s, e)) => frame.subrange(s, e),
        None => Seq::empty(),
    }
}

/// Scanning frames from `o`, the field numbers met, in order, up to the end of
/// `b` or the first malformed frame.
pub open spec fn numbers_met(b: Seq<u8>, o: int) -> Seq<u64>
    decreases b.len() - o,
{
    if 0 <= o < b.len() {
        match frame_at(b, o) {
            Some((g, _, e)) => seq![g] + numbers_met(b, e),
            None => Seq::empty(),
        }
    } else {
        Seq::empty()
    }
}

/// Scanning from `o` lands exactly on the end of `b`: every frame on the way is
/// well-formed.
pub open spec fn frames_reach_end(b: Seq<u8>, o: int) -> bool
    decreases b.len() - o,
{
    if o == b.len() {
        true
    } else if 0 <= o < b.len() {
        match frame_at(b, o) {
            Some((_, _, e)) => frames_reach_end(b, e),
            None => false,
        }
    } else {
        false
    }
}

/// Replacing the frame that a scan from `o` finds for `t` by a single frame of
/// field `t`: the same scan of the new message finds the new frame, at the same
/// start, and a scan for any other field finds the same value as before.
proof fn lemma_replace_scan(b: Seq<u8>, t: u64, replacement: Seq<u8>, o: int)
    requires
        find_field(b, o, t) is Some,
        is_single_frame(replacement, t),
    ensures
        ({
            let (st, s, e) = find_field(b, o, t).unwrap();
            let nb = b.subrange(0, st) + replacement + b.subrange(e, b.len() as int);
            let rf = frame_at(replacement, 0).unwrap();
            &&& find_field(nb, o, t) == Some((st, st + rf.1, st + replacement.len()))
            &&& forall|f: u64|
                f != t ==> value_of(nb, #[trigger] find_field(nb, o, f)) == value_of(
                    b,
                    find_field(b, o, f),
                )
        }),
    decreases b.len() - o,
{
    let (st, s, e) = find_field(b, o, t).unwrap();
    let prefix = b.subrange(0, st);
    let suffix = b.subrange(e, b.len() as int);
    let nb = prefix + replacement + suffix;
    let rf = frame_at(replacement, 0).unwrap();
    let rl = replacement.len() as int;
    lemma_find_bounds(b, o, t);
    lemma_frame_bounds(replacement, 0);
    assert(same_window(replacement, 0, nb, st, rl)) by {
        assert forall|i: int| 0 <= i < rl implies #[trigger] replacement[i] == nb[i - 0 + st] by {
            assert(nb[i + st] == replacement[i]);
        }
    }
    lemma_frame_window(replacement, 0, nb, st, rl, t, rf.1, rl);
    if o == st {
        assert(frame_at(b, st) == Some((t, s, e)));
        assert(find_field(nb, o, t) == Some((st, st + rf.1, st + rl)));
        assert(same_window(b, e, nb, st + rl, b.len() - e)) by {
            assert forall|i: int| e <= i < e + (b.len() - e) implies #[trigger] b[i] == nb[i - e + (
            st + rl)] by {
                assert(nb[i - e + st + rl] == suffix[i - e]);
            }
        }
        assert forall|f: u64| f != t implies value_of(nb, #[trigger] find_field(nb, o, f))
            == value_of(b, find_field(b, o, f)) by {
            lemma_find_tail(b, e, nb, st + rl, f);
        }
    } else {
        let (g, s1, e1) = frame_at(b, o).unwrap();
        lemma_frame_bounds(b, o);
        lemma_find_bounds(b, e1, t);
        assert(same_window(b, o, nb, o, st - o)) by {
            assert forall|i: int| o <= i < o + (st - o) implies #[trigger] b[i] == nb[i - o + o] by {
                assert(nb[i] == prefix[i]);
            }
        }
        lemma_frame_window(b, o, nb, o, st - o, g, s1, e1);
        lemma_replace_scan(b, t, replacement, e1);
        assert forall|f: u64| f != t implies value_of(nb, #[trigger] find_field(nb, o, f))
            == value_of(b, find_field(b, o, f)) by {
            if g == f {
                assert(nb.subrange(s1, e1) =~= b.subrange(s1, e1));
            } else {
                assert(find_field(nb, o, f) == find_field(nb, e1, f));
            }
        }
    }
}

/// Replacing the first frame of field `t` by a single well-formed frame of
/// field `t` changes nothing but that frame: extracting `t` from the result
/// gives the new frame's value, and extracting any other field gives what it
/// gave before.
pub proof fn lemma_replacement_preserves_other_fields(b: Seq<u8>, t: u64, replacement: Seq<u8>)
    requires
        replaced(b, t, replacement) is Some,
        is_single_frame(replacement, t),
    ensures
        field_value(replaced(b, t, replacement).unwrap().0, t) == Some(frame_value(replacement)),
        forall|f: u64|
            f != t ==> field_value(replaced(b, t, replacement).unwrap().0, f) == #[trigger] field_value(
                b,
                f,
            ),
{
    lemma_replace_scan(b, t, replacement, 0);
    lemma_find_bounds(b, 0, t);
    let (st, s, e) = find_field(b, 0, t).unwrap();
    let nb = replaced(b, t, replacement).unwrap().0;
    assert(nb == b.subrange(0, st) + replacement + b.subrange(e, b.len() as int));
    let rf = frame_at(replacement, 0).unwrap();
    lemma_frame_bounds(replacement, 0);
    assert(nb.subrange(st + rf.1, st + replacement.len()) =~= replacement.subrange(
        rf.1,
        replacement.len() as int,
    ));
}

/// Replacing the first frame of field `t` by a single frame of field `t`, and
/// then replacing that by the original frame, gives back the original message
/// byte for byte; the second replacement hands back the value that the first
/// one put in.
pub proof fn lemma_replacement_restores(b: Seq<u8>, t: u64, replacement: Seq<u8>)
    requires
        replaced(b, t, replacement) is Some,
        is_single_frame(replacement, t),
    ensures
        ({
            let (st, _, e) = find_field(b, 0, t).unwrap();
            let nb = replaced(b, t, replacement).unwrap().0;
            replaced(nb, t, b.subrange(st, e)) == Some((b, frame_value(replacement)))
        }),
{
    lemma_replace_scan(b, t, replacement, 0);
    lemma_find_bounds(b, 0, t);
    let (st, s, e) = find_field(b, 0, t).unwrap();
    let nb = replaced(b, t, replacement).unwrap().0;
    let rf = frame_at(replacement, 0).unwrap();
    let rl = replacement.len() as int;
    lemma_frame_bounds(replacement, 0);
    assert(nb.subrange(0, st) =~= b.subrange(0, st));
    assert(nb.subrange(st + rl, nb.len() as int) =~= b.subrange(e, b.len() as int));
    assert(nb.subrange(0, st) + b.subrange(st, e) + nb.subrange(st + rl, nb.len() as int) =~= b);
    assert(nb.subrange(st + rf.1, st + rl) =~= replacement.subrange(rf.1, rl));
}

/// Collecting fields from `a + c`, where scanning `a` lands on its end, gives
/// the fields of `a` followed by the fields of `c`.
pub proof fn lemma_fields_of_concatenation(a: Seq<u8>, c: Seq<u8>, targets: Seq<u64>, o: int)
    requires
        frames_reach_end(a, o),
    ensures
        collect_fields(a + c, o, targets) == collect_fields(a, o, targets) + collect_fields(
            c,
            0,
            targets,
        ),
    decreases a.len() - o,
{
    let b = a + c;
    if o == a.len() {
        assert(same_window(a + c, o, c, 0, c.len() as int)) by {
            assert forall|i: int| o <= i < o + c.len() implies #[trigger] b[i] == c[i - o + 0] by {}
        }
        lemma_collect_tail(b, o, c, 0, targets);
        assert(collect_fields(a, o, targets) + collect_fields(c, 0, targets) =~= collect_fields(
            c,
            0,
            targets,
        ));
    } else {
        let (g, s, e) = frame_at(a, o).unwrap();
        lemma_frame_bounds(a, o);
        assert(same_window(a, o, b, o, a.len() - o)) by {
            assert forall|i: int| o <= i < o + (a.len() - o) implies #[trigger] a[i] == b[i - o
                + o] by {}
        }
        lemma_frame_window(a, o, b, o, a.len() - o, g, s, e);
        lemma_fields_of_concatenation(a, c, targets, e);
        assert(b.subrange(s, e) =~= a.subrange(s, e));
        if targets.contains(g) {
            let x = seq![(g, a.subrange(s, e))];
            assert(x + (collect_fields(a, e, targets) + collect_fields(c, 0, targets)) =~= (x
                + collect_fields(a, e, targets)) + collect_fields(c, 0, targets));
        }
    }
}

/// For a message made of a frame of field `f1` followed by a frame of field
/// `f2`, extracting a set that holds both gives the two values in that order,
/// each with its own field number.
pub proof fn lemma_fields_in_encounter_order(
    first: Seq<u8>,
    f1: u64,
    second: Seq<u8>,
    f2: u64,
    targets: Seq<u64>,
)
    requires
        is_single_frame(first, f1),
        is_single_frame(second, f2),
        targets.contains(f1),
        targets.contains(f2),
    ensures
        fields_with(first + second, targets) == seq![
            (f1, frame_value(first)),
            (f2, frame_value(second)),
        ],
{
    let e1 = frame_at(first, 0).unwrap().2;
    let e2 = frame_at(second, 0).unwrap().2;
    lemma_frame_bounds(first, 0);
    lemma_frame_bounds(second, 0);
    assert(frames_reach_end(first, e1));
    assert(frames_reach_end(first, 0));
    lemma_fields_of_concatenation(first, second, targets, 0);
    assert(collect_fields(first, e1, targets) == Seq::<(u64, Seq<u8>)>::empty());
    assert(collect_fields(second, e2, targets) == Seq::<(u64, Seq<u8>)>::empty());
    assert(collect_fields(first, 0, targets) =~= seq![(f1, frame_value(first))]);
    assert(collect_fields(second, 0, targets) =~= seq![(f2, frame_value(second))]);
}

/// A field number that no frame met by the scan carries is not found, by
/// either form of extraction.
pub proof fn lemma_absent_field_not_found(b: Seq<u8>, f: u64)
    requires
        !numbers_met(b, 0).contains(f),
    ensures
        field_value(b, f) is None,
        fields_with(b, seq![f]) == Seq::<(u64, Seq<u8>)>::empty(),
{
    lemma_absent_from(b, f, 0);
}

/// Nothing is found in an empty message.
pub proof fn lemma_empty_message_has_no_fields(f: u64, targets: Seq<u64>)
    ensures
        field_value(Seq::empty(), f) is None,
        fields_with(Seq::empty(), targets) == Seq::<(u64, Seq<u8>)>::empty(),
{
}

proof fn lemma_absent_from(b: Seq<u8>, f: u64, o: int)
    requires
        !numbers_met(b, o).contains(f),
    ensures
        find_field(b, o, f) is None,
        collect_fields(b, o, seq![f]) == Seq::<(u64, Seq<u8>)>::empty(),
    decreases b.len() - o,
{
    if 0 <= o < b.len() {
        lemma_frame_bounds(b, o);
        if let Some((g, s, e)) = frame_at(b, o) {
            assert(numbers_met(b, o)[0] == g);
            assert(g != f);
            assert(!seq![f].contains(g)) by {
                if seq![f].contains(g) {
                    let k = choose|k: int| 0 <= k < 1 && seq![f][k] == g;
                    assert(seq![f][k] == f);
                }
            }
            assert forall|k: int| 0 <= k < numbers_met(b, e).len() implies numbers_met(b, e)[k]
                != f by {
                assert(numbers_met(b, o)[k + 1] == numbers_met(b, e)[k]);
            }
            lemma_absent_from(b, f, e);
        }
    }
}

} // verus!
