//! Mathematical model of base-128 varints, and the facts about it that the
//! codec and the scanners rely on.
use vstd::arithmetic::power2::{
    lemma2_to64, lemma2_to64_rest, lemma_pow2_adds, lemma_pow2_pos, pow2,
};
use vstd::arithmetic::div_mod::lemma_small_mod;
use vstd::bits::{lemma_u64_pow2_no_overflow, lemma_u64_shl_is_mul};
use vstd::prelude::*;

verus! {

/// 2^64, the modulus of `u64` arithmetic.
pub open spec fn u64_modulus() -> int {
    pow2(64) as int
}

/// The number carried by the payload bits of `s`, first byte least significant:
/// the sum of `(s[j] % 128) * 128^j`.
pub open spec fn varint_value(s: Seq<u8>) -> nat
    decreases s.len(),
{
    if s.len() == 0 {
        0
    } else {
        (s[0] % 128) as nat + 128 * varint_value(s.drop_first())
    }
}

/// The index of the first byte at or after `o` whose high bit is clear, or the
/// length of `b` when there is none.
pub open spec fn terminator_from(b: Seq<u8>, o: int) -> int
    decreases b.len() - o,
{
    if o < 0 || o >= b.len() {
        b.len() as int
    } else if b[o] < 128 {
        o
    } else {
        terminator_from(b, o + 1)
    }
}

/// The varint that starts at `o` in `b`: its value and the offset just past its
/// last byte. None when no byte with a clear high bit ends it within `b`, or
/// when it would run past ten bytes (a shift of 64 bits or more). Payload bits
/// beyond the 64th are dropped, as a `u64` shift drops them.
pub open spec fn varint_at(b: Seq<u8>, o: int) -> Option<(u64, int)> {
    let t = terminator_from(b, o);
    if 0 <= o <= t < b.len() && t - o < 10 {
        Some(((varint_value(b.subrange(o, t + 1)) as int % u64_modulus()) as u64, t + 1))
    } else {
        None
    }
}

/// The minimal varint encoding of `v`: seven payload bits per byte, least
/// significant group first, the high bit set on every byte but the last.
pub open spec fn varint_encoding(v: nat) -> Seq<u8>
    decreases v,
{
    if v < 128 {
        seq![v as u8]
    } else {
        seq![(v % 128 + 128) as u8] + varint_encoding(v / 128)
    }
}

/// Whether `s` has the shape of one varint: non-empty, the high bit set on
/// every byte but the last, and clear on the last.
pub open spec fn is_varint_shaped(s: Seq<u8>) -> bool {
    &&& s.len() > 0
    &&& s[s.len() - 1] < 128
    &&& forall|j: int| 0 <= j < s.len() - 1 ==> s[j] >= 128
}

pub proof fn lemma_terminator_skips(b: Seq<u8>, o: int, i: int)
    requires
        0 <= o <= i <= b.len(),
        forall|j: int| o <= j < i ==> b[j] >= 128,
    ensures
        terminator_from(b, o) == terminator_from(b, i),
    decreases i - o,
{
    if o < i {
        lemma_terminator_skips(b, o + 1, i);
    }
}

pub proof fn lemma_terminator_bounds(b: Seq<u8>, o: int)
    requires
        0 <= o <= b.len(),
    ensures
        o <= terminator_from(b, o) <= b.len(),
        terminator_from(b, o) < b.len() ==> b[terminator_from(b, o)] < 128,
        forall|j: int| o <= j < terminator_from(b, o) ==> b[j] >= 128,
    decreases b.len() - o,
{
    if o < b.len() && b[o] >= 128 {
        lemma_terminator_bounds(b, o + 1);
    }
}

pub proof fn lemma_varint_value_push(s: Seq<u8>, x: u8)
    ensures
        varint_value(s.push(x)) == varint_value(s) + (x % 128) as nat * pow2(7 * s.len()),
    decreases s.len(),
{
    lemma2_to64();
    if s.len() == 0 {
        assert(s.push(x).drop_first() =~= Seq::<u8>::empty());
        assert(varint_value(Seq::<u8>::empty()) == 0);
        assert(varint_value(s.push(x)) == (x % 128) as nat);
    } else {
        assert(s.push(x).drop_first() =~= s.drop_first().push(x));
        assert(s.push(x)[0] == s[0]);
        lemma_varint_value_push(s.drop_first(), x);
        let n = (7 * (s.len() - 1)) as nat;
        lemma_pow2_adds(7, n);
        assert(7 + n == 7 * s.len());
        let t = (x % 128) as nat;
        let p = pow2(n);
        assert(128 * (varint_value(s.drop_first()) + t * p) == 128 * varint_value(s.drop_first())
            + t * (128 * p)) by (nonlinear_arith);
        assert(varint_value(s.push(x)) == (s[0] % 128) as nat + 128 * varint_value(
            s.drop_first().push(x),
        ));
        assert(varint_value(s) == (s[0] % 128) as nat + 128 * varint_value(s.drop_first()));
        assert(pow2(7 * s.len()) == 128 * p);
    }
}

pub proof fn lemma_varint_value_bound(s: Seq<u8>)
    ensures
        varint_value(s) < pow2(7 * s.len()),
    decreases s.len(),
{
    lemma2_to64();
    if s.len() > 0 {
        lemma_varint_value_bound(s.drop_first());
        let n = (7 * (s.len() - 1)) as nat;
        lemma_pow2_adds(7, n);
        assert(7 + n == 7 * s.len());
        let r = varint_value(s.drop_first());
        let p = pow2(7 * (s.len() - 1) as nat);
        assert((s[0] % 128) as nat + 128 * r < 128 * p) by (nonlinear_arith)
            requires
                r < p,
                (s[0] % 128) < 128,
        ;
    }
}

/// One step of accumulating a varint into a `u64`: OR-ing the payload of byte
/// `x` in at bit `7 * k` adds it at that weight, modulo 2^64.
pub proof fn lemma_accumulate(r: u64, x: u8, k: nat)
    requires
        k < 10,
        r < pow2(7 * k),
    ensures
        (r | (((x & 0x7F) as u64) << ((7 * k) as u64))) as nat == (r + (x % 128) as nat * pow2(
            7 * k,
        )) as int % u64_modulus(),
        k < 9 ==> (r | (((x & 0x7F) as u64) << ((7 * k) as u64))) as nat == r + (x % 128) as nat
            * pow2(7 * k),
        r + (x % 128) as nat * pow2(7 * k) < pow2(7 * (k + 1)),
{
    lemma2_to64();
    lemma2_to64_rest();
    let s: u64 = (7 * k) as u64;
    let y: u64 = (x & 0x7F) as u64;
    assert(y == x % 128) by (bit_vector)
        requires
            y == (x & 0x7F) as u64,
    ;
    lemma_u64_pow2_no_overflow(s as nat);
    lemma_u64_shl_is_mul(1, s);
    assert(r < (1u64 << s));
    assert((r | (y << s)) == r + (y << s)) by (bit_vector)
        requires
            r < (1u64 << s),
            s < 64,
            y < 128,
    ;
    let p = pow2(7 * k);
    lemma_pow2_adds(7 * k, 7);
    assert(7 * k + 7 == 7 * (k + 1));
    assert(r + y * p < 128 * p) by (nonlinear_arith)
        requires
            r < p,
            y < 128,
    ;
    if k < 9 {
        assert(p <= 0x100000000000000);
        assert(y * p <= 127 * 0x100000000000000) by (nonlinear_arith)
            requires
                y < 128,
                p <= 0x100000000000000,
        ;
        lemma_u64_shl_is_mul(y, s);
        assert(r + y * p < 0x8000000000000000);
        lemma_small_mod((r + y * p) as nat, pow2(64));
    } else {
        assert(s == 63);
        let z: u64 = y % 2;
        assert(y << s == z << s) by (bit_vector)
            requires
                s == 63,
                z == y % 2,
        ;
        lemma_u64_shl_is_mul(z, s);
        assert(p == 0x8000000000000000);
        assert((r + y * 0x8000000000000000) % 0x10000000000000000 == r + (y % 2)
            * 0x8000000000000000) by (nonlinear_arith)
            requires
                r < 0x8000000000000000,
                y < 128,
        ;
    }
}

pub proof fn lemma_encoding_len_step(v: nat)
    ensures
        varint_encoding(v).len() == if v < 128 {
            1
        } else {
            1 + varint_encoding(v / 128).len()
        },
{
}

/// The encoding of `v` has the shape of one varint and carries `v`.
pub proof fn lemma_encoding_shape(v: nat)
    ensures
        is_varint_shaped(varint_encoding(v)),
        varint_value(varint_encoding(v)) == v,
    decreases v,
{
    if v >= 128 {
        lemma_encoding_shape(v / 128);
        let e = varint_encoding(v);
        let t = varint_encoding(v / 128);
        assert(e.drop_first() =~= t);
        assert(e[0] % 128 == v % 128);
        assert(v == v % 128 + 128 * (v / 128));
        assert forall|j: int| 0 <= j < e.len() - 1 implies e[j] >= 128 by {
            if j > 0 {
                assert(e[j] == t[j - 1]);
            }
        }
    } else {
        assert(varint_encoding(v).drop_first() =~= Seq::<u8>::empty());
        assert(varint_value(Seq::<u8>::empty()) == 0);
    }
}

/// A value below `2^(7k)` takes at most `k` bytes.
pub proof fn lemma_encoding_len_bound(v: nat, k: nat)
    requires
        k >= 1,
        v < pow2(7 * k),
    ensures
        varint_encoding(v).len() <= k,
    decreases v,
{
    if v >= 128 {
        lemma2_to64();
        if k == 1 {
            assert(false);
        }
        let n = (7 * (k - 1)) as nat;
        lemma_pow2_adds(7, n);
        assert(7 + n == 7 * k);
        lemma_pow2_pos(n);
        assert(v / 128 < pow2(n)) by (nonlinear_arith)
            requires
                v < 128 * pow2(n),
        ;
        lemma_encoding_len_bound(v / 128, (k - 1) as nat);
    }
}

/// The varint encoding of a `u64` is at most ten bytes long.
pub proof fn lemma_encoding_len_u64(v: u64)
    ensures
        1 <= varint_encoding(v as nat).len() <= 10,
{
    lemma2_to64();
    lemma_pow2_adds(64, 6);
    lemma_pow2_pos(64);
    lemma_encoding_len_bound(v as nat, 10);
    lemma_encoding_shape(v as nat);
}

/// The varint encoding of a `u64`, wherever it stands in a buffer, decodes to
/// that value and ends where the encoding ends.
pub proof fn lemma_varint_at_encoding(pre: Seq<u8>, v: u64, post: Seq<u8>)
    ensures
        varint_at(pre + varint_encoding(v as nat) + post, pre.len() as int) == Some(
            (v, (pre.len() + varint_encoding(v as nat).len()) as int),
        ),
{
    let e = varint_encoding(v as nat);
    let b = pre + e + post;
    let o = pre.len() as int;
    lemma_encoding_shape(v as nat);
    lemma_encoding_len_u64(v);
    let last = o + e.len() - 1;
    assert forall|j: int| o <= j < last implies b[j] >= 128 by {
        assert(b[j] == e[j - o]);
    }
    assert(b[last] == e[e.len() - 1]);
    lemma_terminator_skips(b, o, last);
    assert(b.subrange(o, last + 1) =~= e);
    lemma2_to64();
    lemma_small_mod(v as nat, pow2(64));
}

/// Decoding the varint encoding of any `u64` gives back the value, and the
/// offset just past the whole encoding.
pub proof fn lemma_varint_round_trip(v: u64)
    ensures
        varint_at(varint_encoding(v as nat), 0) == Some((v, varint_encoding(v as nat).len() as int)),
{
    let e = varint_encoding(v as nat);
    lemma_varint_at_encoding(Seq::empty(), v, Seq::empty());
    assert(Seq::<u8>::empty() + e + Seq::<u8>::empty() =~= e);
}

/// The varint encoding of `v` is minimal: it has the shape of one varint and
/// carries `v`, and no byte string of that shape that carries `v` is shorter.
pub proof fn lemma_varint_minimal(v: nat, s: Seq<u8>)
    requires
        is_varint_shaped(s),
        varint_value(s) == v,
    ensures
        is_varint_shaped(varint_encoding(v)),
        varint_value(varint_encoding(v)) == v,
        varint_encoding(v).len() <= s.len(),
    decreases s.len(),
{
    lemma_encoding_shape(v);
    if v >= 128 {
        if s.len() == 1 {
            assert(s.drop_first() =~= Seq::<u8>::empty());
            assert(varint_value(Seq::<u8>::empty()) == 0);
            assert(s[0] < 128);
            assert(false);
        }
        let t = s.drop_first();
        assert(is_varint_shaped(t)) by {
            assert forall|j: int| 0 <= j < t.len() - 1 implies t[j] >= 128 by {
                assert(t[j] == s[j + 1]);
            }
            assert(t[t.len() - 1] == s[s.len() - 1]);
        }
        assert(varint_value(t) == v / 128);
        lemma_varint_minimal(v / 128, t);
    }
}

} // verus!
