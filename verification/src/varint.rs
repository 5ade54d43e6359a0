use vstd::prelude::*;
use vstd::arithmetic::power2::{pow2, lemma_pow2_adds, lemma_pow2_pos, lemma2_to64, lemma2_to64_rest, lemma_pow2_strictly_increases};
use vstd::arithmetic::div_mod::{lemma_truncate_middle, lemma_add_mod_noop, lemma_small_mod, lemma_mod_bound, lemma_mul_mod_noop_left};
use vstd::arithmetic::mul::{lemma_mul_inequality, lemma_mul_is_commutative};
use vstd::bits::{lemma_u64_shl_is_mul, lemma_u64_low_bits_mask_is_mod, lemma_u64_pow2_no_overflow, low_bits_mask};

verus! {

/// 2^64, the modulus of `u64` arithmetic.
pub open spec fn two64() -> nat {
    0x1_0000_0000_0000_0000
}

/// A left shift of a `u64` keeps the low 64 bits of the product with 2^s.
pub proof fn lemma_shl_truncates(x: u64, s: u64)
    requires
        s < 64,
    ensures
        (x << s) as int == (x as int * pow2(s as nat)) % (two64() as int),
{
    lemma2_to64();
    lemma2_to64_rest();
    if s == 0 {
        assert(x << 0u64 == x) by (bit_vector);
        assert(x as int * pow2(0) == x as int);
        lemma_small_mod(x as nat, two64());
    } else {
        let k: u64 = (64 - s) as u64;
        lemma_u64_pow2_no_overflow(k as nat);
        lemma_u64_shl_is_mul(1u64, k);
        let mask: u64 = !(0xffff_ffff_ffff_ffffu64 << k);
        assert(mask + 1 == (1u64 << k)) by (bit_vector)
            requires
                0 < k < 64,
                mask == !(0xffff_ffff_ffff_ffffu64 << k),
        ;
        assert(x << s == ((x & mask) << s)) by (bit_vector)
            requires
                0 < s < 64,
                k + s == 64,
                mask == !(0xffff_ffff_ffff_ffffu64 << k),
        ;
        assert(low_bits_mask(k as nat) == pow2(k as nat) - 1);
        assert(mask == low_bits_mask(k as nat) as u64);
        lemma_u64_low_bits_mask_is_mod(x, k as nat);
        let m: u64 = x & mask;
        assert(m == x % (pow2(k as nat) as u64));
        lemma_pow2_pos(s as nat);
        lemma_pow2_pos(k as nat);
        lemma_pow2_adds(k as nat, s as nat);
        assert(pow2(k as nat) * pow2(s as nat) == pow2(64));
        assert(m < pow2(k as nat));
        lemma_mul_inequality(m as int, pow2(k as nat) - 1, pow2(s as nat) as int);
        let pk = pow2(k as nat) as int;
        let ps = pow2(s as nat) as int;
        assert((pk - 1) * ps == pk * ps - ps) by (nonlinear_arith);
        lemma_u64_shl_is_mul(m, s);
        lemma_truncate_middle(x as int, pow2(s as nat) as int, pow2(k as nat) as int);
        lemma_mul_is_commutative(x as int, pow2(s as nat) as int);
        lemma_mul_is_commutative(m as int, pow2(s as nat) as int);
        lemma_mul_is_commutative(pk, ps);
        assert(pow2(64) == two64());
        assert(m as int == (x as int) % pk);
        assert(ps * (x as int % pk) == (ps * x as int) % (ps * pk));
        assert((m << s) as int == m as int * ps);
        assert((x << s) as int == (x as int * ps) % (two64() as int));
    }
}

/// Or-ing a shifted value above a smaller one adds them (modulo 2^64).
pub proof fn lemma_or_shifted(a: u64, x: u64, s: u64)
    requires
        s < 64,
        a < pow2(s as nat),
    ensures
        (a | (x << s)) as int == (a as int + x as int * pow2(s as nat)) % (two64() as int),
{
    lemma_u64_pow2_no_overflow(s as nat);
    lemma_u64_shl_is_mul(1u64, s);
    assert(a < (1u64 << s));
    assert((a | (x << s)) == a + (x << s)) by (bit_vector)
        requires
            s < 64,
            a < (1u64 << s),
    ;
    lemma_shl_truncates(x, s);
    let p = x as int * pow2(s as nat);
    let m = two64() as int;
    lemma_add_mod_noop(a as int, p, m);
    lemma_small_mod(a as nat, two64());
    lemma_mod_bound(p, m);
    lemma_small_mod((a as int + p % m) as nat, two64());
}


/// Where a base-128 group that starts at `p` ends: the index just past the
/// first byte at or after `p` whose high bit is clear, if there is one.
pub open spec fn group_end(c: Seq<u8>, p: int) -> Option<int>
    decreases c.len() - p,
{
    if p < 0 || p >= c.len() {
        None
    } else if c[p] < 128 {
        Some(p + 1)
    } else {
        group_end(c, p + 1)
    }
}

/// The value of a group read least significant first: the low 7 bits of
/// byte `i` count 2^(7i).
pub open spec fn le_base128(d: Seq<u8>) -> nat
    decreases d.len(),
{
    if d.len() == 0 {
        0
    } else {
        le_base128(d.drop_last()) + ((d.last() % 128) as nat) * pow2((7 * (d.len() - 1)) as nat)
    }
}

/// The value of a group read most significant first: each byte adds its low
/// 7 bits below those already read.
pub open spec fn be_base128(d: Seq<u8>) -> nat
    decreases d.len(),
{
    if d.len() == 0 {
        0
    } else {
        be_base128(d.drop_last()) * 128 + (d.last() % 128) as nat
    }
}

/// The size field at `pos` of a delta, and the position after it: a
/// least-significant-first group of at most ten bytes, kept modulo 2^64.
/// `None` where the group runs off the end of the delta or needs an
/// eleventh byte, whose shift would leave the 64 bits.
pub open spec fn delta_size_at(c: Seq<u8>, pos: int) -> Option<(u64, int)> {
    match group_end(c, pos) {
        Some(e) => if e - pos <= 10 {
            Some(((le_base128(c.subrange(pos, e)) % two64()) as u64, e))
        } else {
            None
        },
        None => None,
    }
}

/// The base offset of an offset delta at `pos`, and the position after it:
/// a most-significant-first group of any length, kept modulo 2^64.
/// `None` where the group runs off the end.
pub open spec fn ofs_offset_at(c: Seq<u8>, pos: int) -> Option<(u64, int)> {
    match group_end(c, pos) {
        Some(e) => Some(((be_base128(c.subrange(pos, e)) % two64()) as u64, e)),
        None => None,
    }
}

/// Bytes whose high bit is set do not end a group.
pub proof fn lemma_group_end_skip(c: Seq<u8>, p: int, q: int)
    requires
        0 <= p <= q <= c.len(),
        forall|i: int| p <= i < q ==> c[i] >= 128,
    ensures
        group_end(c, p) == group_end(c, q),
    decreases q - p,
{
    if p < q {
        lemma_group_end_skip(c, p + 1, q);
    }
}

/// Where a group ends: past its first byte, inside the input, on a byte
/// with a clear high bit, every byte before it having its high bit set.
pub proof fn lemma_group_end_range(c: Seq<u8>, p: int)
    ensures
        group_end(c, p) matches Some(e) ==> {
            &&& 0 <= p < e <= c.len()
            &&& c[e - 1] < 128
            &&& forall|i: int| p <= i < e - 1 ==> c[i] >= 128
        },
    decreases c.len() - p,
{
    if 0 <= p < c.len() && c[p] >= 128 {
        lemma_group_end_range(c, p + 1);
    }
}

/// A group of `n` bytes read least significant first stays below 2^(7n).
pub proof fn lemma_le_base128_bound(d: Seq<u8>)
    ensures
        le_base128(d) < pow2((7 * d.len()) as nat),
    decreases d.len(),
{
    if d.len() == 0 {
        lemma2_to64();
    } else {
        let n = d.len();
        lemma_le_base128_bound(d.drop_last());
        let w = pow2((7 * (n - 1)) as nat) as int;
        lemma_pow2_adds((7 * (n - 1)) as nat, 7);
        lemma2_to64();
        assert(pow2((7 * n) as nat) == w * 128);
        let x = (d.last() % 128) as int;
        assert(x * w <= 127 * w) by (nonlinear_arith)
            requires
                0 <= x <= 127,
                0 <= w,
        ;
    }
}

/// Adding one more byte to a group read least significant first.
pub proof fn lemma_le_base128_push(c: Seq<u8>, p: int, q: int)
    requires
        0 <= p <= q < c.len(),
    ensures
        le_base128(c.subrange(p, q + 1)) == le_base128(c.subrange(p, q)) + ((c[q] % 128) as nat)
            * pow2((7 * (q - p)) as nat),
{
    let d = c.subrange(p, q + 1);
    assert(d.drop_last() =~= c.subrange(p, q));
    assert(d.last() == c[q]);
}

/// Adding one more byte to a group read most significant first.
pub proof fn lemma_be_base128_push(c: Seq<u8>, p: int, q: int)
    requires
        0 <= p <= q < c.len(),
    ensures
        be_base128(c.subrange(p, q + 1)) == be_base128(c.subrange(p, q)) * 128 + (c[q] % 128) as nat,
{
    let d = c.subrange(p, q + 1);
    assert(d.drop_last() =~= c.subrange(p, q));
    assert(d.last() == c[q]);
}

/// Reads the size field that starts at `pos` in a delta, or `None` where
/// the group there runs off the end or is longer than ten bytes.
pub fn read_delta_size(delta: &[u8], pos: usize) -> (r: Option<(u64, usize)>)
    ensures
        delta_size_at(delta@, pos as int) == match r {
            Some((v, n)) => Some((v, n as int)),
            None => None::<(u64, int)>,
        },
{
    let ghost c = delta@;
    let mut size: u64 = 0;
    let mut i: usize = 0;
    if pos >= delta.len() {
        return None;
    }
    loop
        invariant
            c == delta@,
            c.len() == delta.len(),
            pos + i <= c.len(),
            i <= 10,
            forall|j: int| pos <= j < pos + i ==> c[j] >= 128,
            i <= 9 ==> size as nat == le_base128(c.subrange(pos as int, pos + i)),
        decreases 10 - i,
    {
        if i >= 10 || pos + i >= delta.len() {
            proof {
                lemma_group_end_skip(c, pos as int, pos + i);
                lemma_group_end_range(c, pos as int);
            }
            return None;
        }
        let byte = delta[pos + i];
        let digit: u64 = (byte & 0x7f) as u64;
        let shift: u64 = (7 * i) as u64;
        proof {
            assert(byte & 0x7f == byte % 128) by (bit_vector);
            lemma_le_base128_bound(c.subrange(pos as int, pos + i));
            lemma_pow2_strictly_increases((7 * i) as nat, 64);
            lemma_or_shifted(size, digit, shift);
            lemma_le_base128_push(c, pos as int, pos + i);
        }
        size = size | (digit << shift);
        assert(size as nat == le_base128(c.subrange(pos as int, pos + i + 1)) % two64());
        if (byte >> 7) & 1 == 0 {
            proof {
                assert((byte >> 7) & 1 == 0 ==> byte < 128) by (bit_vector);
                lemma_group_end_skip(c, pos as int, pos + i);
            }
            return Some((size, pos + i + 1));
        }
        proof {
            assert((byte >> 7) & 1 != 0 ==> byte >= 128) by (bit_vector);
            if i + 1 <= 9 {
                lemma_le_base128_bound(c.subrange(pos as int, pos + i + 1));
                lemma_pow2_strictly_increases((7 * (i + 1)) as nat, 64);
                lemma2_to64();
                lemma_small_mod(le_base128(c.subrange(pos as int, pos + i + 1)), two64());
            }
        }
        i = i + 1;
    }
}

/// Reads the size field that starts at `pos` in a delta: the number the
/// least-significant-first base-128 group there encodes, and the position
/// just past the group.
pub fn get_ref_delta_size(delta: &[u8], pos: usize) -> (r: (u64, usize))
    requires
        delta_size_at(delta@, pos as int) is Some,
    ensures
        delta_size_at(delta@, pos as int) == Some((r.0, r.1 as int)),
{
    match read_delta_size(delta, pos) {
        Some(r) => r,
        None => {
            proof {
                assert(false);
            }
            (0, 0)
        },
    }
}

/// Reads the base offset of an offset delta at `pos`: the number the
/// most-significant-first base-128 group there encodes, modulo 2^64, and
/// the position just past the group; `None` where the group runs off the
/// end.
pub fn read_ofs_offset(content: &[u8], pos: usize) -> (r: Option<(u64, usize)>)
    ensures
        ofs_offset_at(content@, pos as int) == match r {
            Some((v, n)) => Some((v, n as int)),
            None => None::<(u64, int)>,
        },
{
    let ghost c = content@;
    let mut offset: u64 = 0;
    let mut i: usize = 0;
    if pos >= content.len() {
        return None;
    }
    loop
        invariant
            c == content@,
            c.len() == content.len(),
            pos + i < c.len(),
            forall|j: int| pos <= j < pos + i ==> c[j] >= 128,
            offset as nat == be_base128(c.subrange(pos as int, pos + i)) % two64(),
        decreases c.len() - pos - i,
    {
        let byte = content[pos + i];
        let digit: u64 = (byte & 0x7f) as u64;
        proof {
            assert(byte & 0x7f == byte % 128) by (bit_vector);
            lemma_shift7_or(offset, digit);
            lemma_be_base128_push(c, pos as int, pos + i);
            lemma_mul_mod_noop_left(be_base128(c.subrange(pos as int, pos + i)) as int, 128, two64() as int);
            lemma_add_mod_noop(be_base128(c.subrange(pos as int, pos + i)) as int * 128, digit as int, two64() as int);
            lemma_add_mod_noop((offset as int) * 128, digit as int, two64() as int);
            lemma_small_mod(digit as nat, two64());
        }
        offset = (offset << 7u64) | digit;
        if (byte >> 7) & 1 == 0 {
            proof {
                assert((byte >> 7) & 1 == 0 ==> byte < 128) by (bit_vector);
                lemma_group_end_skip(c, pos as int, pos + i);
            }
            return Some((offset, pos + i + 1));
        }
        proof {
            assert((byte >> 7) & 1 != 0 ==> byte >= 128) by (bit_vector);
        }
        if pos + i + 1 >= content.len() {
            proof {
                lemma_group_end_skip(c, pos as int, pos + i + 1);
            }
            return None;
        }
        i = i + 1;
    }
}

/// Shifting by seven and or-ing in a 7-bit digit is multiplying by 128 and
/// adding it, modulo 2^64.
pub proof fn lemma_shift7_or(o: u64, x: u64)
    requires
        x < 128,
    ensures
        ((o << 7u64) | x) as int == (o as int * 128 + x as int) % (two64() as int),
{
    assert(((o << 7u64) | x) == (o << 7u64) + x) by (bit_vector)
        requires
            x < 128,
    ;
    lemma_shl_truncates(o, 7);
    lemma2_to64();
    let m = two64() as int;
    let p = o as int * 128;
    lemma_add_mod_noop(p, x as int, m);
    lemma_small_mod(x as nat, two64());
    lemma_mod_bound(p, m);
    lemma_small_mod((p % m + x) as nat, two64());
}

/// The least-significant-first base-128 encoding of `x`: seven bits per
/// byte, the lowest group first, the high bit set on every byte but the
/// last.
pub open spec fn le_base128_encode(x: nat) -> Seq<u8>
    decreases x,
{
    if x < 128 {
        seq![x as u8]
    } else {
        seq![(x % 128 + 128) as u8] + le_base128_encode(x / 128)
    }
}

/// A byte in front of a group read least significant first adds its seven
/// bits below the others.
proof fn lemma_le_base128_prepend(b: u8, t: Seq<u8>)
    ensures
        le_base128(seq![b] + t) == (b % 128) as nat + 128 * le_base128(t),
    decreases t.len(),
{
    let s = seq![b] + t;
    if t.len() == 0 {
        assert(s =~= seq![b]);
        assert(s.drop_last() =~= Seq::<u8>::empty());
        assert(s.last() == b);
        assert(pow2(0) == 1) by {
            lemma2_to64();
        }
        assert(le_base128(s) == le_base128(s.drop_last()) + ((b % 128) as nat) * pow2(0));
    } else {
        let n = t.len();
        assert(s.drop_last() =~= seq![b] + t.drop_last());
        assert(s.last() == t.last());
        lemma_le_base128_prepend(b, t.drop_last());
        let w = pow2((7 * (n - 1)) as nat) as int;
        lemma_pow2_adds((7 * (n - 1)) as nat, 7);
        lemma2_to64();
        assert(pow2((7 * n) as nat) == 128 * w);
        let d = (t.last() % 128) as int;
        assert(d * (128 * w) == 128 * (d * w)) by (nonlinear_arith);
        assert(le_base128(s) == le_base128(seq![b] + t.drop_last()) + d * pow2((7 * n) as nat));
        assert(le_base128(t) == le_base128(t.drop_last()) + d * w);
    }
}

/// The encoding ends on its only byte with a clear high bit, reads back as
/// `x`, and takes at most `k` bytes where `x` is below 2^(7k).
proof fn lemma_le_base128_encode(x: nat, k: nat)
    requires
        k >= 1,
        x < pow2(7 * k),
    ensures
        le_base128_encode(x).len() >= 1,
        le_base128_encode(x).len() <= k,
        le_base128_encode(x).last() < 128,
        forall|i: int| 0 <= i < le_base128_encode(x).len() - 1 ==> le_base128_encode(x)[i] >= 128,
        le_base128(le_base128_encode(x)) == x,
    decreases x,
{
    let e = le_base128_encode(x);
    lemma2_to64();
    if x < 128 {
        lemma_le_base128_prepend(x as u8, Seq::empty());
        assert(seq![x as u8] + Seq::<u8>::empty() =~= e);
    } else {
        lemma_pow2_adds((7 * (k - 1)) as nat, 7);
        if k == 1 {
            assert(false);
        }
        assert(x / 128 < pow2((7 * (k - 1)) as nat));
        lemma_le_base128_encode(x / 128, (k - 1) as nat);
        let t = le_base128_encode(x / 128);
        let b = (x % 128 + 128) as u8;
        lemma_le_base128_prepend(b, t);
        assert(forall|i: int| 1 <= i < e.len() ==> e[i] == t[i - 1]);
    }
}

/// Law: the size field of a delta reads back any `u64` from its encoding,
/// whatever follows it, and stops right after the encoding, which takes at
/// most ten bytes.
pub proof fn lemma_delta_size_round_trip(x: u64, rest: Seq<u8>)
    ensures
        le_base128_encode(x as nat).len() <= 10,
        delta_size_at(le_base128_encode(x as nat) + rest, 0)
            == Some((x, le_base128_encode(x as nat).len() as int)),
{
    let e = le_base128_encode(x as nat);
    let c = e + rest;
    lemma2_to64();
    lemma2_to64_rest();
    lemma_pow2_strictly_increases(64, 70);
    lemma_le_base128_encode(x as nat, 10);
    let n = e.len() as int;
    lemma_group_end_skip(c, 0, n - 1);
    assert(c[n - 1] < 128);
    assert(group_end(c, n - 1) == Some(n));
    assert(c.subrange(0, n) =~= e);
    lemma_small_mod(x as nat, two64());
}

} // verus!
