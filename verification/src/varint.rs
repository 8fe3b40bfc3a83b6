use vstd::prelude::*;
use vstd::arithmetic::div_mod::lemma_fundamental_div_mod;
use vstd::arithmetic::div_mod::lemma_multiply_divide_lt;
use vstd::arithmetic::mul::lemma_mul_inequality;
verus! {

/// `128^k`, the number of values that fit in `k` varint bytes.
pub open spec fn pow128(k: nat) -> nat
    decreases k,
{
    if k == 0 {
        1
    } else {
        128 * pow128((k - 1) as nat)
    }
}

/// The record format stores lengths and the location-descriptor triple as
/// variable-length unsigned integers: seven value bits per byte, least
/// significant group first, the high bit of a byte marking continuation.
/// A 32-bit length takes one to five bytes; a 64-bit value at most ten.
pub open spec fn spec_varint(n: nat) -> Seq<u8>
    decreases n,
{
    if n < 128 {
        seq![n as u8]
    } else {
        seq![((n % 128) + 128) as u8] + spec_varint(n / 128)
    }
}

/// Decoding one varint from the front of `s`: the value and the number of
/// bytes consumed, or `None` if no terminating byte appears within `fuel`
/// bytes. The value is unbounded here; executable decoding rejects values
/// that overflow 64 bits.
pub open spec fn spec_decode_varint(s: Seq<u8>, fuel: nat) -> Option<(nat, nat)>
    decreases fuel,
{
    if fuel == 0 || s.len() == 0 {
        None
    } else if s[0] < 128 {
        Some((s[0] as nat, 1))
    } else {
        match spec_decode_varint(s.skip(1), (fuel - 1) as nat) {
            None => None,
            Some((v, l)) => Some((((s[0] - 128) + 128 * v) as nat, (l + 1) as nat)),
        }
    }
}

/// A value below `128^k` encodes in at most `k` bytes.
pub proof fn lemma_varint_len(n: nat, k: nat)
    requires
        1 <= k,
        n < pow128(k),
    ensures
        1 <= spec_varint(n).len() <= k,
    decreases k,
{
    if n < 128 {
    } else {
        assert(pow128(k) == 128 * pow128((k - 1) as nat));
        lemma_multiply_divide_lt(n as int, 128, pow128((k - 1) as nat) as int);
        lemma_varint_len(n / 128, (k - 1) as nat);
    }
}

/// A 64-bit value encodes in at most ten bytes.
pub proof fn lemma_varint_len_u64(n: nat)
    requires
        n <= u64::MAX,
    ensures
        1 <= spec_varint(n).len() <= 10,
{
    assert(pow128(10) > u64::MAX) by {
        reveal_with_fuel(pow128, 11);
    }
    lemma_varint_len(n, 10);
}

/// A 32-bit value encodes in at most five bytes.
pub proof fn lemma_varint_len_u32(n: nat)
    requires
        n <= u32::MAX,
    ensures
        1 <= spec_varint(n).len() <= 5,
{
    assert(pow128(5) > u32::MAX) by {
        reveal_with_fuel(pow128, 6);
    }
    lemma_varint_len(n, 5);
}

/// A successful decode consumes between one byte and `min(fuel, s.len())`.
pub proof fn lemma_decode_varint_len(s: Seq<u8>, fuel: nat)
    ensures
        spec_decode_varint(s, fuel) matches Some(vl) ==> 1 <= vl.1 <= s.len() && vl.1 <= fuel,
    decreases fuel,
{
    if fuel == 0 || s.len() == 0 {
    } else if s[0] < 128 {
    } else {
        lemma_decode_varint_len(s.skip(1), (fuel - 1) as nat);
    }
}

/// Round trip: decoding a sequence that starts with the encoding of `n`
/// yields exactly `n` and consumes exactly the encoding.
pub proof fn lemma_varint_round_trip(n: nat, rest: Seq<u8>, fuel: nat)
    requires
        spec_varint(n).len() <= fuel,
    ensures
        spec_decode_varint(spec_varint(n) + rest, fuel) == Some((n, spec_varint(n).len())),
    decreases n,
{
    let s = spec_varint(n) + rest;
    if n < 128 {
        assert(s[0] == n as u8);
    } else {
        assert(s[0] == ((n % 128) + 128) as u8);
        assert(s[0] >= 128);
        assert(s.skip(1) =~= spec_varint(n / 128) + rest);
        lemma_varint_round_trip(n / 128, rest, (fuel - 1) as nat);
        lemma_fundamental_div_mod(n as int, 128);
        assert((s[0] - 128) + 128 * (n / 128) == n);
    }
}

/// Appends the varint encoding of `n` to `buf`.
pub fn encode_varint(n: u64, buf: &mut Vec<u8>)
    ensures
        final (buf)@ == old(buf)@ + spec_varint(n as nat),
{
    let ghost orig = buf@;
    let mut x: u64 = n;
    while x >= 128
        invariant
            orig + spec_varint(n as nat) == buf@ + spec_varint(x as nat),
        decreases x,
    {
        let byte: u8 = ((x % 128) + 128) as u8;
        proof {
            assert(spec_varint(x as nat) == seq![byte] + spec_varint((x / 128) as nat));
            assert(buf@ + spec_varint(x as nat) =~= (buf@ + seq![byte]) + spec_varint(
                (x / 128) as nat,
            ));
        }
        buf.push(byte);
        x = x / 128;
    }
    let byte: u8 = x as u8;
    proof {
        assert(spec_varint(x as nat) == seq![byte]);
        assert(buf@ + spec_varint(x as nat) =~= (buf@ + seq![byte]));
    }
    buf.push(byte);
}

/// The number of bytes the varint encoding of `n` takes.
pub fn varint_len(n: u64) -> (r: usize)
    ensures
        r == spec_varint(n as nat).len(),
{
    proof {
        lemma_varint_len_u64(n as nat);
    }
    let mut x: u64 = n;
    let mut l: usize = 1;
    while x >= 128
        invariant
            spec_varint(n as nat).len() == (l - 1) + spec_varint(x as nat).len(),
            1 <= l <= 10,
            spec_varint(x as nat).len() <= 11 - l,
        decreases x,
    {
        x = x / 128;
        l = l + 1;
    }
    l
}

fn decode_varint_rec(buf: &Vec<u8>, pos: usize, fuel: u8) -> (r: Option<(u64, usize)>)
    requires
        pos <= buf.len(),
    ensures
        ({
            let s = buf@.skip(pos as int);
            match r {
                Some(vl) => spec_decode_varint(s, fuel as nat) == Some(
                    (vl.0 as nat, vl.1 as nat),
                ) && 1 <= vl.1 && pos + vl.1 <= buf.len() && vl.1 <= fuel,
                None => spec_decode_varint(s, fuel as nat) is None || (spec_decode_varint(
                    s,
                    fuel as nat,
                ) matches Some(vl) && vl.0 > u64::MAX),
            }
        }),
    decreases fuel,
{
    let ghost s = buf@.skip(pos as int);
    if fuel == 0 || pos == buf.len() {
        return None;
    }
    let b = buf[pos];
    assert(s[0] == b);
    if b < 128 {
        return Some((b as u64, 1));
    }
    let r2 = decode_varint_rec(buf, pos + 1, fuel - 1);
    proof {
        assert(buf@.skip(pos as int).skip(1) =~= buf@.skip(pos as int + 1));
    }
    match r2 {
        None => None,
        Some((v, l)) => {
            let low = (b - 128) as u64;
            let ghost d = (u64::MAX - low) as int;
            proof {
                lemma_fundamental_div_mod(d, 128);
            }
            if v > (u64::MAX - low) / 128 {
                proof {
                    lemma_mul_inequality(d / 128 + 1, v as int, 128);
                    assert((d / 128 + 1) * 128 == (d / 128) * 128 + 128);
                    assert(128 * (v as int) > d);
                }
                None
            } else {
                proof {
                    lemma_mul_inequality(v as int, d / 128, 128);
                    assert((v as int) * 128 <= (d / 128) * 128);
                    assert(128 * (v as int) <= d);
                }
                Some((low + 128 * v, l + 1))
            }
        },
    }
}

/// Decodes one varint from `buf` starting at `pos`: the value and the number
/// of bytes consumed, or `None` when no valid varint of at most ten bytes
/// (and at most 64 value bits) starts there.
pub fn decode_varint_at(buf: &Vec<u8>, pos: usize) -> (r: Option<(u64, usize)>)
    requires
        pos <= buf.len(),
    ensures
        ({
            let s = buf@.skip(pos as int);
            match r {
                Some(vl) => spec_decode_varint(s, 10) == Some((vl.0 as nat, vl.1 as nat)) && 1
                    <= vl.1 && pos + vl.1 <= buf.len() && vl.1 <= 10,
                None => spec_decode_varint(s, 10) is None || (spec_decode_varint(s, 10) matches Some(
                    vl,
                ) && vl.0 > u64::MAX),
            }
        }),
{
    decode_varint_rec(buf, pos, 10)
}

} // verus!
