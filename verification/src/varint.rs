use vstd::prelude::*;

use crate::error::ProtobufError;

verus! {

/// `128` raised to the power `k`.
pub open spec fn pow128(k: nat) -> nat
    decreases k,
{
    if k == 0 {
        1
    } else {
        128 * pow128((k - 1) as nat)
    }
}

/// 2^64: the modulus of `u64` arithmetic.
pub open spec fn u64_modulus() -> int {
    0x1_0000_0000_0000_0000
}

/// The base-128 little-endian encoding of `v`: seven bits per byte, low
/// groups first, the high bit set on every byte but the last.
pub open spec fn varint_bytes(v: nat) -> Seq<u8>
    decreases v,
{
    if v < 128 {
        seq![v as u8]
    } else {
        seq![(v % 128 + 128) as u8] + varint_bytes(v / 128)
    }
}

/// The number that the low seven bits of the bytes of `s` spell out,
/// first byte lowest.
pub open spec fn varint_value(s: Seq<u8>) -> nat
    decreases s.len(),
{
    if s.len() == 0 {
        0
    } else {
        (s[0] % 128) as nat + 128 * varint_value(s.drop_first())
    }
}

/// Where the varint that starts at the front of `s` ends, scanning from
/// index `i`: one past the first byte without its high bit, provided that
/// byte lies within the first ten.
pub open spec fn varint_end(s: Seq<u8>, i: nat) -> Result<nat, ProtobufError>
    decreases s.len() - i,
{
    if i >= s.len() {
        Err(ProtobufError::TruncatedVarint)
    } else if i >= 10 {
        Err(ProtobufError::VarintTooLong)
    } else if s[i as int] < 128 {
        Ok(i + 1)
    } else {
        varint_end(s, i + 1)
    }
}

/// The varint at the front of `s`: its value reduced modulo 2^64, and the
/// number of bytes it takes.
pub open spec fn spec_decode_varint(s: Seq<u8>) -> Result<(u64, nat), ProtobufError> {
    match varint_end(s, 0) {
        Ok(n) => Ok(((varint_value(s.take(n as int)) as int % u64_modulus()) as u64, n)),
        Err(e) => Err(e),
    }
}

/// Appending a byte adds its seven low bits at the next power of 128.
proof fn lemma_varint_value_push(s: Seq<u8>, b: u8)
    ensures
        varint_value(s.push(b)) == varint_value(s) + (b % 128) as nat * pow128(s.len()),
    decreases s.len(),
{
    if s.len() == 0 {
        assert(s.push(b).drop_first() =~= Seq::<u8>::empty());
        assert(varint_value(Seq::<u8>::empty()) == 0);
        assert(s.push(b)[0] == b);
        assert(pow128(0) == 1);
    } else {
        assert(s.push(b).drop_first() =~= s.drop_first().push(b));
        lemma_varint_value_push(s.drop_first(), b);
        let x = (b % 128) as nat;
        let p = pow128((s.len() - 1) as nat);
        assert(s.push(b)[0] == s[0]);
        assert(pow128(s.len()) == 128 * p);
        assert(128 * (varint_value(s.drop_first()) + x * p) == 128 * varint_value(s.drop_first())
            + x * (128 * p)) by (nonlinear_arith);
    }
}

proof fn lemma_pow128_shift(i: u64)
    requires
        i <= 9,
    ensures
        (1u64 << (7 * i)) as nat == pow128(i as nat),
    decreases i,
{
    if i == 0 {
        assert(1u64 << 0u64 == 1u64) by (bit_vector);
    } else {
        lemma_pow128_shift((i - 1) as u64);
        let s: u64 = (7 * (i - 1)) as u64;
        let t: u64 = (7 * i) as u64;
        assert(s <= 56 && t == s + 7 ==> (1u64 << t) as int == (1u64 << s) as int * 128)
            by (bit_vector);
    }
}

/// One step of the decoding loop: or-ing the next seven bits in at bit
/// `7 * i` adds them, modulo 2^64.
proof fn lemma_accumulate(v: u64, c: u8, i: u64)
    requires
        i <= 9,
        (v as nat) < pow128(i as nat),
    ensures
        (v | (((c & 0x7f) as u64) << (7 * i))) as int == (v + (c % 128) as nat * pow128(i as nat))
            % u64_modulus(),
{
    lemma_pow128_shift(i);
    let s: u64 = (7 * i) as u64;
    assert(s <= 63 && v < (1u64 << s) ==> (v | (((c & 0x7f) as u64) << s)) as int == (v as int
        + (c % 128) as int * (1u64 << s) as int) % 0x1_0000_0000_0000_0000) by (bit_vector);
}

/// Appends the varint encoding of `v` to `buf`.
pub fn append_varint(buf: &mut Vec<u8>, value: u64)
    ensures
        final(buf)@ == old(buf)@ + varint_bytes(value as nat),
{
    let mut v = value;
    while v >= 0x80
        invariant
            buf@ + varint_bytes(v as nat) == old(buf)@ + varint_bytes(value as nat),
        decreases v,
    {
        let ghost before = buf@;
        assert(((v as u8) | 0x80u8) == ((v % 128) + 128) as u8) by (bit_vector);
        assert(v >> 7u64 == v / 128) by (bit_vector);
        buf.push((v as u8) | 0x80);
        assert(buf@ + varint_bytes((v / 128) as nat) =~= before + varint_bytes(v as nat));
        v >>= 7;
    }
    assert(v < 128 ==> v as u8 == v) by (bit_vector);
    buf.push(v as u8);
    assert(buf@ =~= old(buf)@ + varint_bytes(value as nat));
}

proof fn lemma_pow128_bounds(i: nat)
    requires
        i <= 9,
    ensures
        pow128(i) <= pow128(9),
        pow128(9) == 0x8000_0000_0000_0000,
    decreases 9 - i,
{
    reveal_with_fuel(pow128, 10);
    assert(pow128(9) == 0x8000_0000_0000_0000);
    if i < 9 {
        lemma_pow128_bounds(i + 1);
    }
}

/// Reads the varint at the front of `data`: its value (modulo 2^64, as
/// the shifts wrap) and its length in bytes.
pub fn decode_varint(data: &[u8]) -> (r: Result<(u64, usize), ProtobufError>)
    ensures
        match r {
            Ok((v, n)) => spec_decode_varint(data@) == Ok::<(u64, nat), ProtobufError>(
                (v, n as nat),
            ),
            Err(e) => spec_decode_varint(data@) == Err::<(u64, nat), ProtobufError>(e),
        },
{
    let mut v: u64 = 0;
    let mut i: usize = 0;
    assert(data@.take(0) =~= Seq::<u8>::empty());
    while i < data.len()
        invariant
            i <= data.len(),
            i <= 10,
            varint_end(data@, 0) == varint_end(data@, i as nat),
            varint_value(data@.take(i as int)) < pow128(i as nat),
            i <= 9 ==> v as nat == varint_value(data@.take(i as int)),
        decreases data.len() - i,
    {
        if i >= 10 {
            return Err(ProtobufError::VarintTooLong);
        }
        let c = data[i];
        let ghost prefix = data@.take(i as int);
        proof {
            lemma_pow128_bounds(i as nat);
            lemma_accumulate(v, c, i as u64);
            lemma_varint_value_push(prefix, c);
            assert(data@.take(i + 1) =~= prefix.push(c));
            let x = (c % 128) as nat;
            let p = pow128(i as nat);
            assert(varint_value(prefix) + x * p < 128 * p) by (nonlinear_arith)
                requires
                    varint_value(prefix) < p,
                    x < 128,
            ;
        }
        v = v | (((c & 0x7f) as u64) << ((7 * i) as u64));
        if c < 0x80 {
            return Ok((v, i + 1));
        }
        proof {
            if i + 1 <= 9 {
                lemma_pow128_bounds((i + 1) as nat);
            }
        }
        i += 1;
    }
    Err(ProtobufError::TruncatedVarint)
}

/// The shape of an encoding: every byte but the last carries the
/// continuation bit; a value below 128^k takes at most k bytes.
pub proof fn lemma_varint_bytes_shape(v: nat, k: nat)
    requires
        1 <= k,
        v < pow128(k),
    ensures
        1 <= varint_bytes(v).len() <= k,
        varint_bytes(v).last() < 128,
        forall|j: int| 0 <= j < varint_bytes(v).len() - 1 ==> varint_bytes(v)[j] >= 128,
        varint_value(varint_bytes(v)) == v,
    decreases v,
{
    let e = varint_bytes(v);
    if v < 128 {
        assert(e.drop_first() =~= Seq::<u8>::empty());
        assert(varint_value(Seq::<u8>::empty()) == 0);
    } else {
        let k1 = (k - 1) as nat;
        assert(pow128(k) == 128 * pow128(k1));
        assert(v / 128 < pow128(k1)) by (nonlinear_arith)
            requires
                v < 128 * pow128(k1),
        ;
        if k1 == 0 {
            assert(pow128(0) == 1);
        }
        lemma_varint_bytes_shape(v / 128, k1);
        let t = varint_bytes(v / 128);
        let b = (v % 128 + 128) as u8;
        assert(e == seq![b] + t);
        assert(e.drop_first() =~= t);
        assert(b % 128 == v % 128);
        assert forall|j: int| 0 <= j < e.len() - 1 implies e[j] >= 128 by {
            if j > 0 {
                assert(e[j] == t[j - 1]);
            }
        }
    }
}

proof fn lemma_varint_end_at(s: Seq<u8>, i: nat, k: nat)
    requires
        i <= k < s.len(),
        k < 10,
        s[k as int] < 128,
        forall|j: int| i <= j < k ==> s[j] >= 128,
    ensures
        varint_end(s, i) == Ok::<nat, ProtobufError>(k + 1),
    decreases k - i,
{
    if i < k {
        lemma_varint_end_at(s, i + 1, k);
    }
}

/// Reading back an encoding, whatever follows it, gives the value and the
/// encoding's length.
pub proof fn lemma_varint_roundtrip(v: u64, rest: Seq<u8>)
    ensures
        spec_decode_varint(varint_bytes(v as nat) + rest) == Ok::<(u64, nat), ProtobufError>(
            (v, varint_bytes(v as nat).len()),
        ),
{
    let e = varint_bytes(v as nat);
    let s = e + rest;
    reveal_with_fuel(pow128, 11);
    assert(pow128(10) == 0x40_0000_0000_0000_0000);
    lemma_varint_bytes_shape(v as nat, 10);
    lemma_varint_end_at(s, 0, (e.len() - 1) as nat);
    assert(s.take(e.len() as int) =~= e);
}

proof fn lemma_varint_end_prefix(s: Seq<u8>, t: Seq<u8>, i: nat)
    requires
        varint_end(s, i) is Ok,
    ensures
        varint_end(s + t, i) == varint_end(s, i),
    decreases s.len() - i,
{
    if i < s.len() && i < 10 && s[i as int] >= 128 {
        lemma_varint_end_prefix(s, t, i + 1);
    }
}

proof fn lemma_varint_end_le(s: Seq<u8>, i: nat)
    ensures
        varint_end(s, i) matches Ok(n) ==> n <= s.len(),
    decreases s.len() - i,
{
    if i < s.len() && i < 10 && s[i as int] >= 128 {
        lemma_varint_end_le(s, i + 1);
    }
}

/// A varint is read the same whatever follows it.
pub proof fn lemma_decode_varint_prefix(s: Seq<u8>, t: Seq<u8>)
    requires
        spec_decode_varint(s) is Ok,
    ensures
        spec_decode_varint(s + t) == spec_decode_varint(s),
{
    lemma_varint_end_prefix(s, t, 0);
    lemma_varint_end_le(s, 0);
    let n = varint_end(s, 0)->Ok_0;
    assert((s + t).take(n as int) =~= s.take(n as int));
}

} // verus!
