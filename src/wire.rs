//! Mathematical model of an encoded message as a run of field frames.
use crate::varint::{lemma_terminator_bounds, lemma_terminator_skips, terminator_from, varint_at};
use vstd::prelude::*;

verus! {

/// The field number packed into a tag.
pub open spec fn tag_field_number(tag: u64) -> u64 {
    tag / 8
}

/// The wire type packed into a tag.
pub open spec fn tag_wire_type(tag: u64) -> u64 {
    tag % 8
}

/// The byte range `(value_start, value_end)` of a value of wire type `wt`
/// whose encoding begins at `o`; the frame ends where the value ends. None
/// when the value runs past the end of `b` or the wire type is not one of
/// varint (0), 64-bit (1), length-delimited (2) or 32-bit (5).
pub open spec fn value_span(b: Seq<u8>, wt: u64, o: int) -> Option<(int, int)> {
    if wt == 0 {
        match varint_at(b, o) {
            Some((_, e)) => Some((o, e)),
            None => None,
        }
    } else if wt == 1 {
        if 0 <= o && o + 8 <= b.len() {
            Some((o, o + 8))
        } else {
            None
        }
    } else if wt == 2 {
        match varint_at(b, o) {
            Some((l, s)) => if s + l <= b.len() {
                Some((s, s + l))
            } else {
                None
            },
            None => None,
        }
    } else if wt == 5 {
        if 0 <= o && o + 4 <= b.len() {
            Some((o, o + 4))
        } else {
            None
        }
    } else {
        None
    }
}

/// The field frame that starts at `o`: its field number and the range of its
/// value, whose end is the end of the frame. None when the frame is malformed.
pub open spec fn frame_at(b: Seq<u8>, o: int) -> Option<(u64, int, int)> {
    match varint_at(b, o) {
        Some((tag, p)) => match value_span(b, tag_wire_type(tag), p) {
            Some((s, e)) => Some((tag_field_number(tag), s, e)),
            None => None,
        },
        None => None,
    }
}

/// Scanning frames from `o`: the first frame with field number `f`, as its
/// start and the range of its value. None when the end of `b` comes first or
/// a malformed frame is met on the way.
pub open spec fn find_field(b: Seq<u8>, o: int, f: u64) -> Option<(int, int, int)>
    decreases b.len() - o,
{
    if 0 <= o < b.len() {
        match frame_at(b, o) {
            Some((g, s, e)) => if g == f {
                Some((o, s, e))
            } else {
                find_field(b, e, f)
            },
            None => None,
        }
    } else {
        None
    }
}

/// The value bytes of a frame found in `b`, as `find_field` reports it.
pub open spec fn value_of(b: Seq<u8>, found: Option<(int, int, int)>) -> Option<Seq<u8>> {
    match found {
        Some((_, s, e)) => Some(b.subrange(s, e)),
        None => None,
    }
}

/// The value of the first frame with field number `f` in the message `b`.
pub open spec fn field_value(b: Seq<u8>, f: u64) -> Option<Seq<u8>> {
    value_of(b, find_field(b, 0, f))
}

/// Scanning frames from `o`: each frame whose field number is in `targets`,
/// as its field number and value, in the order met. The scan stops at the end
/// of `b` or at the first malformed frame.
pub open spec fn collect_fields(b: Seq<u8>, o: int, targets: Seq<u64>) -> Seq<(u64, Seq<u8>)>
    decreases b.len() - o,
{
    if 0 <= o < b.len() {
        match frame_at(b, o) {
            Some((g, s, e)) => if targets.contains(g) {
                seq![(g, b.subrange(s, e))] + collect_fields(b, e, targets)
            } else {
                collect_fields(b, e, targets)
            },
            None => Seq::empty(),
        }
    } else {
        Seq::empty()
    }
}

/// The fields of the message `b` whose numbers are in `targets`, in order.
pub open spec fn fields_with(b: Seq<u8>, targets: Seq<u64>) -> Seq<(u64, Seq<u8>)> {
    collect_fields(b, 0, targets)
}

/// The message `b` with its first frame of field number `f` replaced by
/// `replacement`, and that frame's old value. None when no such frame is
/// found.
pub open spec fn replaced(b: Seq<u8>, f: u64, replacement: Seq<u8>) -> Option<(Seq<u8>, Seq<u8>)> {
    match find_field(b, 0, f) {
        Some((st, s, e)) => Some(
            (b.subrange(0, st) + replacement + b.subrange(e, b.len() as int), b.subrange(s, e)),
        ),
        None => None,
    }
}

/// A well-formed frame lies within the buffer, after its start.
pub proof fn lemma_frame_bounds(b: Seq<u8>, o: int)
    ensures
        match frame_at(b, o) {
            Some((_, s, e)) => 0 <= o < s <= e <= b.len(),
            None => true,
        },
{
}

/// Every field that `collect_fields` reports has a number in `targets`.
pub proof fn lemma_collected_in_targets(b: Seq<u8>, o: int, targets: Seq<u64>)
    ensures
        forall|i: int|
            0 <= i < collect_fields(b, o, targets).len() ==> targets.contains(
                #[trigger] collect_fields(b, o, targets)[i].0,
            ),
    decreases b.len() - o,
{
    if 0 <= o < b.len() {
        if let Some((g, s, e)) = frame_at(b, o) {
            lemma_frame_bounds(b, o);
            lemma_collected_in_targets(b, e, targets);
            if targets.contains(g) {
                let c = collect_fields(b, o, targets);
                let rest = collect_fields(b, e, targets);
                assert forall|i: int| 0 <= i < c.len() implies targets.contains(#[trigger] c[i].0) by {
                    if i > 0 {
                        assert(c[i] == rest[i - 1]);
                    }
                }
            }
        }
    }
}

/// The `n` bytes of `b1` from `o1` are the `n` bytes of `b2` from `o2`.
pub open spec fn same_window(b1: Seq<u8>, o1: int, b2: Seq<u8>, o2: int, n: int) -> bool {
    &&& 0 <= n
    &&& 0 <= o1 && o1 + n <= b1.len()
    &&& 0 <= o2 && o2 + n <= b2.len()
    &&& forall|i: int| o1 <= i < o1 + n ==> #[trigger] b1[i] == b2[i - o1 + o2]
}

pub proof fn lemma_same_window_symmetric(b1: Seq<u8>, o1: int, b2: Seq<u8>, o2: int, n: int)
    requires
        same_window(b1, o1, b2, o2, n),
    ensures
        same_window(b2, o2, b1, o1, n),
{
    assert forall|i: int| o2 <= i < o2 + n implies #[trigger] b2[i] == b1[i - o2 + o1] by {
        assert(b1[i - o2 + o1] == b2[i - o2 + o1 - o1 + o2]);
    }
}

/// A varint that ends within a window ends at the same place in any copy of
/// that window.
pub proof fn lemma_varint_window(
    b1: Seq<u8>,
    o1: int,
    b2: Seq<u8>,
    o2: int,
    n: int,
    v: u64,
    e: int,
)
    requires
        same_window(b1, o1, b2, o2, n),
        varint_at(b1, o1) == Some((v, e)),
        e <= o1 + n,
    ensures
        varint_at(b2, o2) == Some((v, e - o1 + o2)),
{
    lemma_terminator_bounds(b1, o1);
    let t1 = terminator_from(b1, o1);
    let t2 = t1 - o1 + o2;
    assert forall|j: int| o2 <= j < t2 implies b2[j] >= 128 by {
        assert(b1[j - o2 + o1] == b2[j]);
    }
    lemma_terminator_skips(b2, o2, t2);
    assert(b1[t1] == b2[t2]);
    assert(terminator_from(b2, t2) == t2);
    assert(b1.subrange(o1, t1 + 1) =~= b2.subrange(o2, t2 + 1));
}

/// A frame that ends within a window is the same frame, moved, in any copy of
/// that window.
pub proof fn lemma_frame_window(
    b1: Seq<u8>,
    o1: int,
    b2: Seq<u8>,
    o2: int,
    n: int,
    f: u64,
    s: int,
    e: int,
)
    requires
        same_window(b1, o1, b2, o2, n),
        frame_at(b1, o1) == Some((f, s, e)),
        e <= o1 + n,
    ensures
        frame_at(b2, o2) == Some((f, s - o1 + o2, e - o1 + o2)),
{
    let d = o2 - o1;
    let tp = varint_at(b1, o1)->0;
    let tag = tp.0;
    let p = tp.1;
    let wt = tag_wire_type(tag);
    lemma_varint_window(b1, o1, b2, o2, n, tag, p);
    if wt == 0 || wt == 2 {
        let lv = varint_at(b1, p)->0;
        lemma_varint_window(b1, p, b2, p + d, o1 + n - p, lv.0, lv.1);
    }
}

/// Where a scan finds a frame: after where it started, within the buffer.
pub proof fn lemma_find_bounds(b: Seq<u8>, o: int, f: u64)
    ensures
        match find_field(b, o, f) {
            Some((st, s, e)) => {
                &&& 0 <= o <= st
                &&& frame_at(b, st) == Some((f, s, e))
                &&& st < s <= e <= b.len()
            },
            None => true,
        },
    decreases b.len() - o,
{
    if 0 <= o < b.len() {
        lemma_frame_bounds(b, o);
        if let Some((g, s, e)) = frame_at(b, o) {
            if g != f {
                lemma_find_bounds(b, e, f);
            }
        }
    }
}

/// Two buffers with the same bytes from `o1` and `o2` to their ends: scanning
/// them from there finds the same value.
pub proof fn lemma_find_tail(b1: Seq<u8>, o1: int, b2: Seq<u8>, o2: int, f: u64)
    requires
        b1.len() - o1 == b2.len() - o2,
        same_window(b1, o1, b2, o2, b1.len() - o1),
    ensures
        value_of(b1, find_field(b1, o1, f)) == value_of(b2, find_field(b2, o2, f)),
    decreases b1.len() - o1,
{
    let n = b1.len() - o1;
    let d = o2 - o1;
    if o1 < b1.len() {
        lemma_frame_bounds(b1, o1);
        match frame_at(b1, o1) {
            Some((g, s, e)) => {
                lemma_frame_window(b1, o1, b2, o2, n, g, s, e);
                if g == f {
                    assert(b1.subrange(s, e) =~= b2.subrange(s + d, e + d));
                } else {
                    lemma_find_tail(b1, e, b2, e + d, f);
                }
            },
            None => {
                lemma_frame_bounds(b2, o2);
                if let Some((g2, s2, e2)) = frame_at(b2, o2) {
                    lemma_same_window_symmetric(b1, o1, b2, o2, n);
                    lemma_frame_window(b2, o2, b1, o1, n, g2, s2, e2);
                }
            },
        }
    }
}

/// Two buffers with the same bytes from `o1` and `o2` to their ends: scanning
/// them from there collects the same fields.
pub proof fn lemma_collect_tail(b1: Seq<u8>, o1: int, b2: Seq<u8>, o2: int, targets: Seq<u64>)
    requires
        b1.len() - o1 == b2.len() - o2,
        same_window(b1, o1, b2, o2, b1.len() - o1),
    ensures
        collect_fields(b1, o1, targets) == collect_fields(b2, o2, targets),
    decreases b1.len() - o1,
{
    let n = b1.len() - o1;
    let d = o2 - o1;
    if o1 < b1.len() {
        lemma_frame_bounds(b1, o1);
        match frame_at(b1, o1) {
            Some((g, s, e)) => {
                lemma_frame_window(b1, o1, b2, o2, n, g, s, e);
                assert(b1.subrange(s, e) =~= b2.subrange(s + d, e + d));
                lemma_collect_tail(b1, e, b2, e + d, targets);
            },
            None => {
                lemma_frame_bounds(b2, o2);
                if let Some((g2, s2, e2)) = frame_at(b2, o2) {
                    lemma_same_window_symmetric(b1, o1, b2, o2, n);
                    lemma_frame_window(b2, o2, b1, o1, n, g2, s2, e2);
                }
            },
        }
    }
}

} // verus!
