//! Protocol-buffer style primitives: base-128 varints and field keys.

use vstd::prelude::*;

verus! {

/// The canonical base-128 encoding of `v`: seven bits per byte, least
/// significant group first, high bit set on every byte but the last.
pub open spec fn varint(v: nat) -> Seq<u8>
    decreases v,
{
    if v < 128 {
        seq![v as u8]
    } else {
        seq![((v % 128) + 128) as u8] + varint(v / 128)
    }
}

/// `pat` occurs in `buf` starting at `pos`.
pub open spec fn occurs_at(buf: Seq<u8>, pos: int, pat: Seq<u8>) -> bool {
    0 <= pos && pos + pat.len() <= buf.len() && buf.subrange(pos, pos + pat.len()) == pat
}

pub proof fn lemma_varint_shape(v: nat)
    ensures
        varint(v).len() >= 1,
        varint(v).last() < 128,
        forall|i: int| 0 <= i < varint(v).len() - 1 ==> varint(v)[i] >= 128,
        varint(v).len() > 1 ==> varint(v).last() != 0,
        v < 128 <==> varint(v).len() == 1,
    decreases v,
{
    if v >= 128 {
        lemma_varint_shape(v / 128);
        let t = varint(v / 128);
        assert(varint(v) == seq![((v % 128) + 128) as u8] + t);
        assert forall|i: int| 0 <= i < varint(v).len() - 1 implies varint(v)[i] >= 128 by {
            if i > 0 {
                assert(varint(v)[i] == t[i - 1]);
            }
        }
        if t.len() == 1 {
            assert(v / 128 >= 1);
        }
    }
}

pub proof fn lemma_varint_len_bound(v: nat)
    requires
        v < 0x1_0000_0000_0000_0000,
    ensures
        varint(v).len() <= 10,
{
    reveal_with_fuel(pow128, 11);
    assert(pow128(10) == 0x40_0000_0000_0000_0000);
    lemma_varint_len_pow(v, 0x1_0000_0000_0000_0000, 10);
}

proof fn lemma_varint_len_pow(v: nat, bound: nat, k: nat)
    requires
        v < bound,
        bound <= pow128(k),
        k >= 1,
    ensures
        varint(v).len() <= k,
    decreases k,
{
    if v >= 128 {
        assert(pow128(k) == 128 * pow128((k - 1) as nat));
        if k == 1 {
            assert(pow128(0) == 1);
        }
        assert(v / 128 < pow128((k - 1) as nat)) by (nonlinear_arith)
            requires v < bound, bound <= 128 * pow128((k - 1) as nat);
        lemma_varint_len_pow(v / 128, pow128((k - 1) as nat), (k - 1) as nat);
        assert(varint(v) == seq![((v % 128) + 128) as u8] + varint(v / 128));
    } else {
        assert(varint(v) == seq![v as u8]);
        assert(pow128(k) == 128 * pow128((k - 1) as nat));
        lemma_pow128_pos((k - 1) as nat);
    }
}

spec fn pow128(k: nat) -> nat
    decreases k,
{
    if k == 0 { 1 } else { 128 * pow128((k - 1) as nat) }
}

proof fn lemma_pow128_pos(k: nat)
    ensures pow128(k) >= 1,
    decreases k,
{
    if k > 0 {
        lemma_pow128_pos((k - 1) as nat);
    }
}

/// The number that a base-128 byte string stands for: seven bits per
/// byte, least significant group first.
pub open spec fn varint_value(s: Seq<u8>) -> nat
    decreases s.len(),
{
    if s.len() <= 1 {
        if s.len() == 1 { s[0] as nat } else { 0 }
    } else {
        ((s[0] as int - 128) + 128 * varint_value(s.drop_first())) as nat
    }
}

/// A byte string has the shape of a varint: every byte but the last has its
/// high bit set, and the last one does not.
pub open spec fn varint_shaped(s: Seq<u8>) -> bool {
    &&& s.len() >= 1
    &&& s.last() < 128
    &&& forall|i: int| 0 <= i < s.len() - 1 ==> s[i] >= 128
}

pub proof fn lemma_varint_value(v: nat)
    ensures
        varint_value(varint(v)) == v,
    decreases v,
{
    if v >= 128 {
        lemma_varint_value(v / 128);
        assert(varint(v).drop_first() == varint(v / 128));
        lemma_varint_shape(v / 128);
    }
}

/// Dropping leading bytes of a varint-shaped string never raises its value.
pub proof fn lemma_varint_suffix_value(s: Seq<u8>, k: int)
    requires
        varint_shaped(s),
        0 <= k < s.len(),
    ensures
        varint_shaped(s.subrange(k, s.len() as int)),
        varint_value(s.subrange(k, s.len() as int)) <= varint_value(s),
    decreases k,
{
    if k > 0 {
        let t = s.drop_first();
        assert(t.last() == s.last());
        assert forall|i: int| 0 <= i < t.len() - 1 implies t[i] >= 128 by {
            assert(t[i] == s[i + 1]);
        }
        lemma_varint_suffix_value(t, k - 1);
        assert(t.subrange(k - 1, t.len() as int) =~= s.subrange(k, s.len() as int));
        assert(s[0] >= 128);
    } else {
        assert(s.subrange(0, s.len() as int) =~= s);
    }
}

/// Distinct values have distinct encodings.
pub proof fn lemma_varint_injective(a: nat, b: nat)
    requires
        varint(a) == varint(b),
    ensures
        a == b,
{
    lemma_varint_value(a);
    lemma_varint_value(b);
}

/// No encoding is a proper prefix of another one.
pub proof fn lemma_varint_prefix_free(a: nat, b: nat, buf: Seq<u8>, pos: int)
    requires
        occurs_at(buf, pos, varint(a)),
        occurs_at(buf, pos, varint(b)),
    ensures
        a == b,
{
    lemma_varint_shape(a);
    lemma_varint_shape(b);
    let la = varint(a).len() as int;
    let lb = varint(b).len() as int;
    if la < lb {
        assert(buf[pos + la - 1] == varint(a)[la - 1]);
        assert(buf[pos + la - 1] == varint(b)[la - 1]);
    } else if lb < la {
        assert(buf[pos + lb - 1] == varint(a)[lb - 1]);
        assert(buf[pos + lb - 1] == varint(b)[lb - 1]);
    } else {
        assert(varint(a) =~= buf.subrange(pos, pos + la));
        lemma_varint_injective(a, b);
    }
}

/// The `u64` whose canonical varint starts at `pos` in `b`, with the
/// position just past it; `None` when no `u64` is encoded there.
pub open spec fn varint_at(b: Seq<u8>, pos: int) -> Option<(u64, int)> {
    if exists|v: u64| occurs_at(b, pos, #[trigger] varint(v as nat)) {
        let v = choose|v: u64| occurs_at(b, pos, #[trigger] varint(v as nat));
        Some((v, pos + varint(v as nat).len()))
    } else {
        None
    }
}

/// Where the encoding of `v` starts at `pos`, `varint_at` reads back `v`.
pub proof fn lemma_varint_at(b: Seq<u8>, pos: int, v: u64)
    requires
        occurs_at(b, pos, varint(v as nat)),
    ensures
        varint_at(b, pos) == Some((v, pos + varint(v as nat).len())),
        pos < pos + varint(v as nat).len() <= b.len(),
{
    lemma_varint_shape(v as nat);
    let w = choose|w: u64| occurs_at(b, pos, #[trigger] varint(w as nat));
    lemma_varint_prefix_free(v as nat, w as nat, b, pos);
}

/// What `varint_at` reads occurs where it says, and ends past `pos`.
pub proof fn lemma_varint_at_some(b: Seq<u8>, pos: int)
    requires
        varint_at(b, pos) is Some,
    ensures
        occurs_at(b, pos, varint(varint_at(b, pos).unwrap().0 as nat)),
        varint_at(b, pos).unwrap().1 == pos + varint(varint_at(b, pos).unwrap().0 as nat).len(),
        pos < varint_at(b, pos).unwrap().1 <= b.len(),
{
    let v = choose|v: u64| occurs_at(b, pos, #[trigger] varint(v as nat));
    lemma_varint_at(b, pos, v);
}

/// Appends the varint encoding of `v` to `out`.
pub fn encode_varint(v: u64, out: &mut Vec<u8>)
    ensures
        final(out)@ == old(out)@ + varint(v as nat),
{
    let mut x: u64 = v;
    while x >= 128
        invariant
            out@ + varint(x as nat) == old(out)@ + varint(v as nat),
        decreases x,
    {
        let b: u8 = (x % 128 + 128) as u8;
        proof {
            assert(varint(x as nat) == seq![b] + varint((x / 128) as nat));
            assert(out@.push(b) + varint((x / 128) as nat) =~= out@ + varint(x as nat));
        }
        out.push(b);
        x = x / 128;
    }
    proof {
        assert(varint(x as nat) == seq![x as u8]);
        assert(out@.push(x as u8) =~= out@ + varint(x as nat));
    }
    out.push(x as u8);
}

/// Decodes the canonical varint of a `u64` that starts at `pos`.
///
/// Returns the value and the position just past it, or `None` when no
/// `u64` has its canonical encoding there.
pub fn decode_varint(buf: &[u8], pos: usize) -> (r: Option<(u64, usize)>)
    ensures
        varint_at(buf@, pos as int) == match r {
            Some((v, p)) => Some((v, p as int)),
            None => None,
        },
        match r {
            Some((v, p)) => pos < p <= buf@.len() && p == pos + varint(v as nat).len()
                && occurs_at(buf@, pos as int, varint(v as nat)),
            None => forall|v: u64| !occurs_at(buf@, pos as int, #[trigger] varint(v as nat)),
        },
{
    let n = buf.len();
    if pos >= n {
        proof {
            assert forall|v: u64| !occurs_at(buf@, pos as int, #[trigger] varint(v as nat)) by {
                lemma_varint_shape(v as nat);
            }
        }
        return None;
    }
    // Find the terminating byte.
    let mut e: usize = pos;
    while e < n && buf[e] >= 128 && e - pos < 10
        invariant
            pos <= e <= n,
            n == buf@.len(),
            e - pos <= 10,
            forall|i: int| pos <= i < e ==> buf@[i] >= 128,
        decreases n - e,
    {
        e = e + 1;
    }
    if e >= n || buf[e] >= 128 || (e > pos && buf[e] == 0) {
        proof {
            assert forall|v: u64| !occurs_at(buf@, pos as int, #[trigger] varint(v as nat)) by {
                lemma_varint_shape(v as nat);
                lemma_varint_len_bound(v as nat);
                let s = varint(v as nat);
                if occurs_at(buf@, pos as int, s) {
                    let last = pos + s.len() - 1;
                    assert(buf@[last] == s[s.len() - 1]);
                    if last < e {
                        assert(buf@[last] >= 128);
                    } else if last > e {
                        assert(buf@[e as int] == s[e - pos]);
                        if e - pos == 10 {
                        }
                    } else {
                        assert(buf@[e as int] == s[e - pos]);
                    }
                }
            }
        }
        return None;
    }
    // Rebuild the value from the last byte backwards.
    let ghost whole = buf@.subrange(pos as int, e + 1);
    proof {
        assert(varint_shaped(whole)) by {
            assert forall|i: int| 0 <= i < whole.len() - 1 implies whole[i] >= 128 by {
                assert(whole[i] == buf@[pos + i]);
            }
        }
    }
    let mut v: u64 = buf[e] as u64;
    let mut j: usize = e;
    proof {
        assert(varint(v as nat) =~= buf@.subrange(j as int, e + 1));
    }
    while j > pos
        invariant
            pos <= j <= e < n,
            n == buf@.len(),
            whole == buf@.subrange(pos as int, e + 1),
            varint_shaped(whole),
            forall|i: int| pos <= i < e ==> buf@[i] >= 128,
            buf@[e as int] < 128,
            e > pos ==> buf@[e as int] != 0,
            buf@.subrange(j as int, e + 1) == varint(v as nat),
            j == e ==> v == buf@[e as int],
        decreases j,
    {
        let x: u64 = (buf[j - 1] - 128) as u64;
        if v > (u64::MAX - x) / 128 {
            proof {
                assert forall|w: u64| !occurs_at(buf@, pos as int, #[trigger] varint(w as nat)) by {
                    if occurs_at(buf@, pos as int, varint(w as nat)) {
                        lemma_occurs_ends_at(buf@, pos as int, e as int, w as nat);
                        lemma_varint_value(w as nat);
                        let k = (j - 1 - pos) as int;
                        lemma_varint_suffix_value(whole, k);
                        let suf = whole.subrange(k, whole.len() as int);
                        assert(suf =~= buf@.subrange(j - 1, e + 1));
                        assert(suf.drop_first() =~= buf@.subrange(j as int, e + 1));
                        lemma_varint_value(v as nat);
                        assert(varint_value(suf) == x + 128 * v);
                    }
                }
            }
            return None;
        }
        let nv: u64 = v * 128 + x;
        proof {
            assert(v >= 1) by {
                if j == e {
                    assert(e > pos);
                } else {
                    lemma_varint_shape(v as nat);
                    assert(buf@.subrange(j as int, e + 1).len() > 1);
                }
            }
            assert(nv >= 128);
            assert(nv % 128 == x) by (nonlinear_arith) requires nv == v * 128 + x, x < 128;
            assert(nv / 128 == v) by (nonlinear_arith) requires nv == v * 128 + x, x < 128;
            assert(varint(nv as nat) == seq![((nv % 128) + 128) as u8] + varint((nv / 128) as nat));
            assert(buf@.subrange(j - 1, e + 1) =~= seq![buf@[j - 1]] + buf@.subrange(j as int, e + 1));
        }
        v = nv;
        j = j - 1;
    }
    proof {
        lemma_varint_shape(v as nat);
        assert(buf@.subrange(j as int, e + 1) =~= buf@.subrange(pos as int, pos + varint(v as nat).len()));
        lemma_varint_at(buf@, pos as int, v);
    }
    Some((v, e + 1))
}

/// If the encoding of `w` occurs at `pos`, and `e` is the first byte at or
/// after `pos` without its high bit, the encoding ends exactly at `e`.
proof fn lemma_occurs_ends_at(buf: Seq<u8>, pos: int, e: int, w: nat)
    requires
        occurs_at(buf, pos, varint(w)),
        pos <= e < buf.len(),
        buf[e] < 128,
        forall|i: int| pos <= i < e ==> buf[i] >= 128,
    ensures
        pos + varint(w).len() == e + 1,
        buf.subrange(pos, e + 1) == varint(w),
{
    lemma_varint_shape(w);
    let s = varint(w);
    let last = pos + s.len() - 1;
    assert(buf[last] == s[s.len() - 1]);
    if last > e {
        assert(buf[e] == s[e - pos]);
    }
}

// ---------------------------------------------------------------------------
// Bytes and fixed-width integers
// ---------------------------------------------------------------------------

/// Appends `src` to `out`.
pub fn push_bytes(out: &mut Vec<u8>, src: &[u8])
    ensures
        final(out)@ == old(out)@ + src@,
{
    let mut i: usize = 0;
    while i < src.len()
        invariant
            i <= src@.len(),
            out@ == old(out)@ + src@.subrange(0, i as int),
        decreases src@.len() - i,
    {
        proof {
            assert(src@.subrange(0, i + 1) =~= src@.subrange(0, i as int).push(src@[i as int]));
        }
        out.push(src[i]);
        i = i + 1;
    }
    proof {
        assert(src@.subrange(0, i as int) =~= src@);
    }
}

/// The eight bytes of `v`, least significant first.
pub open spec fn u64_le(v: u64) -> Seq<u8> {
    seq![
        v as u8,
        (v >> 8u64) as u8,
        (v >> 16u64) as u8,
        (v >> 24u64) as u8,
        (v >> 32u64) as u8,
        (v >> 40u64) as u8,
        (v >> 48u64) as u8,
        (v >> 56u64) as u8,
    ]
}

/// The four bytes of `v`, least significant first.
pub open spec fn u32_le(v: u32) -> Seq<u8> {
    seq![v as u8, (v >> 8u32) as u8, (v >> 16u32) as u8, (v >> 24u32) as u8]
}

/// The eight bytes of `v`, most significant first.
pub open spec fn u64_be(v: u64) -> Seq<u8> {
    seq![
        (v >> 56u64) as u8,
        (v >> 48u64) as u8,
        (v >> 40u64) as u8,
        (v >> 32u64) as u8,
        (v >> 24u64) as u8,
        (v >> 16u64) as u8,
        (v >> 8u64) as u8,
        v as u8,
    ]
}

/// Appends the little-endian bytes of `v` to `out`.
pub fn push_u64_le(out: &mut Vec<u8>, v: u64)
    ensures
        final(out)@ == old(out)@ + u64_le(v),
{
    out.push(v as u8);
    out.push((v >> 8u64) as u8);
    out.push((v >> 16u64) as u8);
    out.push((v >> 24u64) as u8);
    out.push((v >> 32u64) as u8);
    out.push((v >> 40u64) as u8);
    out.push((v >> 48u64) as u8);
    out.push((v >> 56u64) as u8);
    proof {
        assert(out@ =~= old(out)@ + u64_le(v));
    }
}

/// Appends the little-endian bytes of `v` to `out`.
pub fn push_u32_le(out: &mut Vec<u8>, v: u32)
    ensures
        final(out)@ == old(out)@ + u32_le(v),
{
    out.push(v as u8);
    out.push((v >> 8u32) as u8);
    out.push((v >> 16u32) as u8);
    out.push((v >> 24u32) as u8);
    proof {
        assert(out@ =~= old(out)@ + u32_le(v));
    }
}

/// Appends the big-endian bytes of `v` to `out`.
pub fn push_u64_be(out: &mut Vec<u8>, v: u64)
    ensures
        final(out)@ == old(out)@ + u64_be(v),
{
    out.push((v >> 56u64) as u8);
    out.push((v >> 48u64) as u8);
    out.push((v >> 40u64) as u8);
    out.push((v >> 32u64) as u8);
    out.push((v >> 24u64) as u8);
    out.push((v >> 16u64) as u8);
    out.push((v >> 8u64) as u8);
    out.push(v as u8);
    proof {
        assert(out@ =~= old(out)@ + u64_be(v));
    }
}

proof fn lemma_u64_bytes(
    r: u64,
    b0: u8,
    b1: u8,
    b2: u8,
    b3: u8,
    b4: u8,
    b5: u8,
    b6: u8,
    b7: u8,
)
    by (bit_vector)
    requires
        r == (b0 as u64) | ((b1 as u64) << 8u64) | ((b2 as u64) << 16u64) | ((b3 as u64) << 24u64)
            | ((b4 as u64) << 32u64) | ((b5 as u64) << 40u64) | ((b6 as u64) << 48u64) | ((
        b7 as u64) << 56u64),
    ensures
        r as u8 == b0,
        (r >> 8u64) as u8 == b1,
        (r >> 16u64) as u8 == b2,
        (r >> 24u64) as u8 == b3,
        (r >> 32u64) as u8 == b4,
        (r >> 40u64) as u8 == b5,
        (r >> 48u64) as u8 == b6,
        (r >> 56u64) as u8 == b7,
{
}

proof fn lemma_u32_bytes(r: u32, b0: u8, b1: u8, b2: u8, b3: u8)
    by (bit_vector)
    requires
        r == (b0 as u32) | ((b1 as u32) << 8u32) | ((b2 as u32) << 16u32) | ((b3 as u32) << 24u32),
    ensures
        r as u8 == b0,
        (r >> 8u32) as u8 == b1,
        (r >> 16u32) as u8 == b2,
        (r >> 24u32) as u8 == b3,
{
}

/// `u64_le` tells numbers apart.
pub proof fn lemma_u64_le_injective(a: u64, b: u64)
    ensures
        u64_le(a) == u64_le(b) ==> a == b,
{
    if u64_le(a) == u64_le(b) {
        assert(u64_le(a)[0] == u64_le(b)[0] && u64_le(a)[1] == u64_le(b)[1] && u64_le(a)[2] == u64_le(
            b,
        )[2] && u64_le(a)[3] == u64_le(b)[3]);
        assert(u64_le(a)[4] == u64_le(b)[4] && u64_le(a)[5] == u64_le(b)[5] && u64_le(a)[6] == u64_le(
            b,
        )[6] && u64_le(a)[7] == u64_le(b)[7]);
        lemma_u64_bytes_injective(a, b);
    }
}

proof fn lemma_u64_bytes_injective(a: u64, b: u64)
    by (bit_vector)
    requires
        a as u8 == b as u8,
        (a >> 8u64) as u8 == (b >> 8u64) as u8,
        (a >> 16u64) as u8 == (b >> 16u64) as u8,
        (a >> 24u64) as u8 == (b >> 24u64) as u8,
        (a >> 32u64) as u8 == (b >> 32u64) as u8,
        (a >> 40u64) as u8 == (b >> 40u64) as u8,
        (a >> 48u64) as u8 == (b >> 48u64) as u8,
        (a >> 56u64) as u8 == (b >> 56u64) as u8,
    ensures
        a == b,
{
}

/// The number whose little-endian bytes are `b[pos..pos + 8]`.
pub fn read_u64_le(b: &[u8], pos: usize) -> (r: u64)
    requires
        pos + 8 <= b@.len(),
    ensures
        u64_le(r) == b@.subrange(pos as int, pos + 8),
{
    let r: u64 = (b[pos] as u64) | ((b[pos + 1] as u64) << 8u64) | ((b[pos + 2] as u64) << 16u64)
        | ((b[pos + 3] as u64) << 24u64) | ((b[pos + 4] as u64) << 32u64) | ((b[pos + 5] as u64)
        << 40u64) | ((b[pos + 6] as u64) << 48u64) | ((b[pos + 7] as u64) << 56u64);
    proof {
        lemma_u64_bytes(
            r,
            b[pos as int],
            b[pos + 1],
            b[pos + 2],
            b[pos + 3],
            b[pos + 4],
            b[pos + 5],
            b[pos + 6],
            b[pos + 7],
        );
        assert(u64_le(r) =~= b@.subrange(pos as int, pos + 8));
    }
    r
}

/// The number whose little-endian bytes are `b[pos..pos + 4]`.
pub fn read_u32_le(b: &[u8], pos: usize) -> (r: u32)
    requires
        pos + 4 <= b@.len(),
    ensures
        u32_le(r) == b@.subrange(pos as int, pos + 4),
{
    let r: u32 = (b[pos] as u32) | ((b[pos + 1] as u32) << 8u32) | ((b[pos + 2] as u32) << 16u32)
        | ((b[pos + 3] as u32) << 24u32);
    proof {
        lemma_u32_bytes(r, b[pos as int], b[pos + 1], b[pos + 2], b[pos + 3]);
        assert(u32_le(r) =~= b@.subrange(pos as int, pos + 4));
    }
    r
}

/// The number whose big-endian bytes are `b[pos..pos + 8]`.
pub fn read_u64_be(b: &[u8], pos: usize) -> (r: u64)
    requires
        pos + 8 <= b@.len(),
    ensures
        u64_be(r) == b@.subrange(pos as int, pos + 8),
{
    let _n = b.len();
    let r: u64 = (b[pos + 7] as u64) | ((b[pos + 6] as u64) << 8u64) | ((b[pos + 5] as u64) << 16u64)
        | ((b[pos + 4] as u64) << 24u64) | ((b[pos + 3] as u64) << 32u64) | ((b[pos + 2] as u64)
        << 40u64) | ((b[pos + 1] as u64) << 48u64) | ((b[pos] as u64) << 56u64);
    proof {
        lemma_u64_bytes(
            r,
            b[pos + 7],
            b[pos + 6],
            b[pos + 5],
            b[pos + 4],
            b[pos + 3],
            b[pos + 2],
            b[pos + 1],
            b[pos as int],
        );
        assert(u64_be(r) =~= b@.subrange(pos as int, pos + 8));
    }
    r
}

} // verus!
