//! The Mumble variable-length integer: big-endian, one to nine bytes, with the
//! length signalled by the leading bits of the first byte.

use vstd::prelude::*;
use vstd::arithmetic::div_mod::{lemma_fundamental_div_mod, lemma_mod_pos_bound};

verus! {

/// `256^k`.
pub open spec fn pow256(k: nat) -> nat
    decreases k,
{
    if k == 0 {
        1
    } else {
        256 * pow256((k - 1) as nat)
    }
}

/// The `k` low bytes of `v`, most significant first.
pub open spec fn be_bytes(v: nat, k: nat) -> Seq<u8>
    decreases k,
{
    if k == 0 {
        Seq::empty()
    } else {
        be_bytes(v / 256, (k - 1) as nat).push((v % 256) as u8)
    }
}

/// The number that a big-endian byte string denotes.
pub open spec fn be_value(s: Seq<u8>) -> nat
    decreases s.len(),
{
    if s.len() == 0 {
        0
    } else {
        be_value(s.drop_last()) * 256 + s.last() as nat
    }
}

/// The encoding of a non-negative value below `2^64`.
pub open spec fn unsigned_bytes(v: nat) -> Seq<u8> {
    if v < 0x80 {
        seq![v as u8]
    } else if v < 0x4000 {
        seq![(0x80 + v / 0x100) as u8] + be_bytes(v % 0x100, 1)
    } else if v < 0x20_0000 {
        seq![(0xC0 + v / 0x1_0000) as u8] + be_bytes(v % 0x1_0000, 2)
    } else if v < 0x1000_0000 {
        seq![(0xE0 + v / 0x100_0000) as u8] + be_bytes(v % 0x100_0000, 3)
    } else if v < 0x1_0000_0000 {
        seq![0xF0u8] + be_bytes(v, 4)
    } else {
        seq![0xF4u8] + be_bytes(v, 8)
    }
}

/// The encoding of a signed 64-bit value. Negative values are written as the
/// bitwise complement `-v - 1`: inline when it is below four, else after a
/// `0xF8` marker.
pub open spec fn varint_bytes(v: int) -> Seq<u8> {
    if v >= 0 {
        unsigned_bytes(v as nat)
    } else if -v - 1 < 4 {
        seq![(0xFC + (-v - 1)) as u8]
    } else {
        seq![0xF8u8] + unsigned_bytes((-v - 1) as nat)
    }
}

/// A 64-bit pattern read as two's complement.
pub open spec fn as_signed(x: nat) -> int {
    if x < 0x8000_0000_0000_0000 {
        x as int
    } else {
        x - 0x1_0000_0000_0000_0000
    }
}

/// Reads one of the non-negative forms (leading byte below `0xF8`) from the
/// start of `s`: the 64-bit pattern and the number of bytes it took.
pub open spec fn parse_unsigned(s: Seq<u8>) -> Option<(nat, nat)> {
    if s.len() == 0 {
        None
    } else {
        let b = s[0] as nat;
        if b < 0x80 {
            Some((b, 1nat))
        } else if b < 0xC0 {
            if s.len() < 2 { None } else { Some((((b - 0x80) as nat) * 0x100 + be_value(s.subrange(1, 2)), 2nat)) }
        } else if b < 0xE0 {
            if s.len() < 3 { None } else { Some((((b - 0xC0) as nat) * 0x1_0000 + be_value(s.subrange(1, 3)), 3nat)) }
        } else if b < 0xF0 {
            if s.len() < 4 { None } else { Some((((b - 0xE0) as nat) * 0x100_0000 + be_value(s.subrange(1, 4)), 4nat)) }
        } else if b < 0xF4 {
            if s.len() < 5 { None } else { Some((be_value(s.subrange(1, 5)), 5nat)) }
        } else if b < 0xF8 {
            if s.len() < 9 { None } else { Some((be_value(s.subrange(1, 9)), 9nat)) }
        } else {
            None
        }
    }
}

/// Reads one varint from the start of `s`: its value and the number of bytes
/// it took, or `None` where `s` does not start with a whole varint.
#[verifier::opaque]
pub open spec fn parse_varint(s: Seq<u8>) -> Option<(int, nat)> {
    if s.len() == 0 {
        None
    } else if s[0] < 0xF8 {
        match parse_unsigned(s) {
            Some((x, n)) => Some((as_signed(x), n)),
            None => None,
        }
    } else if s[0] < 0xFC {
        match parse_unsigned(s.drop_first()) {
            Some((x, n)) => Some((-as_signed(x) - 1, n + 1)),
            None => None,
        }
    } else {
        Some((-((s[0] - 0xFC) as int) - 1, 1nat))
    }
}

pub(crate) proof fn lemma_pow256_values()
    ensures
        pow256(1) == 0x100,
        pow256(2) == 0x1_0000,
        pow256(3) == 0x100_0000,
        pow256(4) == 0x1_0000_0000,
        pow256(7) == 0x100_0000_0000_0000,
        pow256(8) == 0x1_0000_0000_0000_0000,
{
    assert(pow256(0) == 1);
    assert(pow256(1) == 0x100);
    assert(pow256(2) == 0x1_0000);
    assert(pow256(3) == 0x100_0000);
    assert(pow256(4) == 0x1_0000_0000);
    assert(pow256(5) == 0x100_0000_0000);
    assert(pow256(6) == 0x1_0000_0000_0000);
    assert(pow256(7) == 0x100_0000_0000_0000);
    assert(pow256(8) == 0x1_0000_0000_0000_0000);
}

proof fn lemma_pow256_mono(a: nat, b: nat)
    requires
        a <= b,
    ensures
        pow256(a) <= pow256(b),
    decreases b,
{
    if a < b {
        lemma_pow256_mono(a, (b - 1) as nat);
    }
}

/// Splits `v` at divisor `d`: quotient below `hi`, remainder below `d`.
proof fn lemma_split(v: nat, d: nat, hi: nat)
    requires
        d > 0,
        v < hi * d,
    ensures
        v / d < hi,
        v % d < d,
        (v / d) * d + v % d == v,
{
    lemma_fundamental_div_mod(v as int, d as int);
    lemma_mod_pos_bound(v as int, d as int);
    let q = v / d;
    let r = v % d;
    assert(q < hi) by (nonlinear_arith)
        requires
            v == d * q + r,
            0 <= r,
            v < hi * d,
            d > 0,
    ;
    assert(q * d == d * q) by (nonlinear_arith);
}

proof fn lemma_be_len(v: nat, k: nat)
    ensures
        be_bytes(v, k).len() == k,
    decreases k,
{
    if k > 0 {
        lemma_be_len(v / 256, (k - 1) as nat);
    }
}

pub(crate) proof fn lemma_be_value_bound(s: Seq<u8>)
    ensures
        be_value(s) < pow256(s.len()),
    decreases s.len(),
{
    if s.len() > 0 {
        lemma_be_value_bound(s.drop_last());
        let p = pow256((s.len() - 1) as nat);
        let a = be_value(s.drop_last());
        assert(a * 256 + s.last() < 256 * p) by (nonlinear_arith)
            requires
                a < p,
                s.last() < 256,
        ;
    }
}

/// Big-endian bytes read back give the value they were written from.
pub(crate) proof fn lemma_be_round_trip(v: nat, k: nat)
    requires
        v < pow256(k),
    ensures
        be_value(be_bytes(v, k)) == v,
        be_bytes(v, k).len() == k,
    decreases k,
{
    lemma_be_len(v, k);
    if k > 0 {
        lemma_split(v, 256, pow256((k - 1) as nat));
        lemma_be_round_trip(v / 256, (k - 1) as nat);
        let s = be_bytes(v, k);
        assert(s.drop_last() == be_bytes(v / 256, (k - 1) as nat));
    } else {
        assert(v == 0);
    }
}

proof fn lemma_unsigned_round_trip(v: nat, rest: Seq<u8>)
    requires
        v < 0x1_0000_0000_0000_0000,
    ensures
        parse_unsigned(unsigned_bytes(v) + rest) == Some((v, unsigned_bytes(v).len())),
        unsigned_bytes(v)[0] < 0xF8,
        1 <= unsigned_bytes(v).len() <= 9,
{
    lemma_pow256_values();
    let e = unsigned_bytes(v);
    let s = e + rest;
    if v < 0x80 {
    } else if v < 0x4000 {
        lemma_split(v, 0x100, 0x40);
        lemma_be_round_trip(v % 0x100, 1);
        assert(s.subrange(1, 2) == be_bytes(v % 0x100, 1));
    } else if v < 0x20_0000 {
        lemma_split(v, 0x1_0000, 0x20);
        lemma_be_round_trip(v % 0x1_0000, 2);
        assert(s.subrange(1, 3) == be_bytes(v % 0x1_0000, 2));
    } else if v < 0x1000_0000 {
        lemma_split(v, 0x100_0000, 0x10);
        lemma_be_round_trip(v % 0x100_0000, 3);
        assert(s.subrange(1, 4) == be_bytes(v % 0x100_0000, 3));
    } else if v < 0x1_0000_0000 {
        lemma_be_round_trip(v, 4);
        assert(s.subrange(1, 5) == be_bytes(v, 4));
    } else {
        lemma_be_round_trip(v, 8);
        assert(s.subrange(1, 9) == be_bytes(v, 8));
    }
}

/// Decoding what was encoded gives the value back, and consumes exactly the
/// encoding, whatever follows it.
pub proof fn lemma_varint_round_trip(v: i64, rest: Seq<u8>)
    ensures
        parse_varint(varint_bytes(v as int) + rest) == Some((v as int, varint_bytes(v as int).len())),
{
    reveal(varint_bytes);
    reveal(parse_varint);
    let e = varint_bytes(v as int);
    let s = e + rest;
    if v >= 0 {
        lemma_unsigned_round_trip(v as nat, rest);
    } else if -v - 1 < 4 {
    } else {
        let w = (-(v as int) - 1) as nat;
        lemma_unsigned_round_trip(w, rest);
        assert(s.drop_first() == unsigned_bytes(w) + rest);
    }
}

/// Appends the `k` low bytes of `v`, most significant first.
pub(crate) fn put_be(out: &mut Vec<u8>, v: u64, k: usize)
    requires
        k <= 8,
    ensures
        final(out)@ == old(out)@ + be_bytes(v as nat, k as nat),
    decreases k,
{
    if k > 0 {
        put_be(out, v / 256, k - 1);
        out.push((v % 256) as u8);
        proof {
            assert(be_bytes(v as nat, k as nat) == be_bytes((v / 256) as nat, (k - 1) as nat).push((v % 256) as u8));
        }
    } else {
        assert(old(out)@ + be_bytes(v as nat, 0) == old(out)@);
    }
}

fn put_unsigned(out: &mut Vec<u8>, v: u64)
    ensures
        final(out)@ == old(out)@ + unsigned_bytes(v as nat),
{
    let ghost pre = out@;
    if v < 0x80 {
        out.push(v as u8);
    } else if v < 0x4000 {
        out.push((0x80 + v / 0x100) as u8);
        put_be(out, v % 0x100, 1);
    } else if v < 0x20_0000 {
        out.push((0xC0 + v / 0x1_0000) as u8);
        put_be(out, v % 0x1_0000, 2);
    } else if v < 0x1000_0000 {
        out.push((0xE0 + v / 0x100_0000) as u8);
        put_be(out, v % 0x100_0000, 3);
    } else if v < 0x1_0000_0000 {
        out.push(0xF0);
        put_be(out, v, 4);
    } else {
        out.push(0xF4);
        put_be(out, v, 8);
    }
    assert(out@ == pre + unsigned_bytes(v as nat));
}

/// Appends the varint encoding of `value` to `out`.
pub fn encode_varint(value: i64, out: &mut Vec<u8>)
    ensures
        final(out)@ == old(out)@ + varint_bytes(value as int),
{
    let ghost pre = out@;
    if value >= 0 {
        put_unsigned(out, value as u64);
    } else {
        let w = (-(value + 1)) as u64;
        if w < 4 {
            out.push((0xFC + w) as u8);
        } else {
            out.push(0xF8);
            put_unsigned(out, w);
        }
    }
    reveal(varint_bytes);
    assert(out@ == pre + varint_bytes(value as int));
}

/// The varint encoding of `value`.
pub fn varint_to_bytes(value: i64) -> (r: Vec<u8>)
    ensures
        r@ == varint_bytes(value as int),
{
    let mut out: Vec<u8> = Vec::new();
    encode_varint(value, &mut out);
    assert(out@ == Seq::<u8>::empty() + varint_bytes(value as int));
    out
}

/// Reads `k` bytes at `start` as a big-endian number.
pub(crate) fn read_be(buf: &[u8], start: usize, k: usize) -> (r: u64)
    requires
        k <= 8,
        start + k <= buf@.len(),
    ensures
        r as nat == be_value(buf@.subrange(start as int, start + k)),
{
    let n = buf.len();
    let mut acc: u64 = 0;
    let mut i: usize = 0;
    while i < k
        invariant
            i <= k <= 8,
            n == buf@.len(),
            start + k <= buf@.len(),
            acc as nat == be_value(buf@.subrange(start as int, start + i)),
        decreases k - i,
    {
        proof {
            lemma_be_value_bound(buf@.subrange(start as int, start + i));
            lemma_pow256_mono(i as nat, 7);
            lemma_pow256_values();
            let s = buf@.subrange(start as int, start + i + 1);
            assert(s.drop_last() == buf@.subrange(start as int, start + i));
        }
        acc = acc * 256 + buf[start + i] as u64;
        i = i + 1;
    }
    acc
}

fn to_signed(x: u64) -> (r: i64)
    ensures
        r as int == as_signed(x as nat),
{
    if x < 0x8000_0000_0000_0000 {
        x as i64
    } else {
        let d = (0xFFFF_FFFF_FFFF_FFFFu64 - x) as i64;
        -d - 1
    }
}

fn read_unsigned(buf: &[u8], pos: usize) -> (r: Option<(u64, usize)>)
    requires
        pos <= buf@.len(),
    ensures
        match parse_unsigned(buf@.subrange(pos as int, buf@.len() as int)) {
            Some((x, n)) => r == Some((x as u64, n as usize)) && x < 0x1_0000_0000_0000_0000,
            None => r is None,
        },
{
    let ghost s = buf@.subrange(pos as int, buf@.len() as int);
    let avail = buf.len() - pos;
    if avail == 0 {
        return None;
    }
    let b = buf[pos] as u64;
    proof {
        lemma_pow256_values();
    }
    if b < 0x80 {
        Some((b, 1))
    } else if b < 0xC0 {
        if avail < 2 {
            return None;
        }
        let lo = read_be(buf, pos + 1, 1);
        assert(s.subrange(1, 2) == buf@.subrange(pos + 1, pos + 2));
        proof { lemma_be_value_bound(s.subrange(1, 2)); }
        Some(((b - 0x80) * 0x100 + lo, 2))
    } else if b < 0xE0 {
        if avail < 3 {
            return None;
        }
        let lo = read_be(buf, pos + 1, 2);
        assert(s.subrange(1, 3) == buf@.subrange(pos + 1, pos + 3));
        proof { lemma_be_value_bound(s.subrange(1, 3)); }
        Some(((b - 0xC0) * 0x1_0000 + lo, 3))
    } else if b < 0xF0 {
        if avail < 4 {
            return None;
        }
        let lo = read_be(buf, pos + 1, 3);
        assert(s.subrange(1, 4) == buf@.subrange(pos + 1, pos + 4));
        proof { lemma_be_value_bound(s.subrange(1, 4)); }
        Some(((b - 0xE0) * 0x100_0000 + lo, 4))
    } else if b < 0xF4 {
        if avail < 5 {
            return None;
        }
        let x = read_be(buf, pos + 1, 4);
        assert(s.subrange(1, 5) == buf@.subrange(pos + 1, pos + 5));
        Some((x, 5))
    } else if b < 0xF8 {
        if avail < 9 {
            return None;
        }
        let x = read_be(buf, pos + 1, 8);
        assert(s.subrange(1, 9) == buf@.subrange(pos + 1, pos + 9));
        Some((x, 9))
    } else {
        None
    }
}

/// Reads one varint at `pos`: its value and the position just after it, or
/// `None` where the bytes from `pos` on do not start with a whole varint.
pub fn decode_varint(buf: &[u8], pos: usize) -> (r: Option<(i64, usize)>)
    requires
        pos <= buf@.len(),
    ensures
        match parse_varint(buf@.subrange(pos as int, buf@.len() as int)) {
            Some((v, n)) => r == Some((v as i64, (pos + n) as usize)) && i64::MIN <= v <= i64::MAX
                && pos + n <= buf@.len(),
            None => r is None,
        },
{
    let ghost s = buf@.subrange(pos as int, buf@.len() as int);
    reveal(parse_varint);
    if pos >= buf.len() {
        return None;
    }
    let b = buf[pos];
    if b < 0xF8 {
        match read_unsigned(buf, pos) {
            Some((x, n)) => Some((to_signed(x), pos + n)),
            None => None,
        }
    } else if b < 0xFC {
        assert(s.drop_first() == buf@.subrange(pos + 1, buf@.len() as int));
        match read_unsigned(buf, pos + 1) {
            Some((x, n)) => {
                let v = to_signed(x);
                let c = if v < 0 { -(v + 1) } else { -v - 1 };
                Some((c, pos + 1 + n))
            },
            None => None,
        }
    } else {
        let w = (b - 0xFC) as i64;
        Some((-w - 1, pos + 1))
    }
}

} // verus!
