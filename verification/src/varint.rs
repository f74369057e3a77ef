use vstd::arithmetic::div_mod::{
    lemma_add_mod_noop, lemma_div_is_strictly_smaller, lemma_fundamental_div_mod,
    lemma_mul_mod_noop_right,
};
use vstd::prelude::*;

use crate::kinds::CodecError;

verus! {

/// Little-endian base-128 continuation encoding of an unsigned 64-bit integer:
/// seven value bits per byte, least significant group first, the high bit of a
/// byte marking that more bytes follow.
pub open spec fn spec_varint(x: u64) -> Seq<u8>
    decreases x,
    via spec_varint_decreases
{
    if x < 0x80 {
        seq![x as u8]
    } else {
        seq![(x % 0x80 + 0x80) as u8] + spec_varint((x / 0x80) as u64)
    }
}

#[via_fn]
proof fn spec_varint_decreases(x: u64) {
    if x >= 0x80 {
        lemma_div_is_strictly_smaller(x as int, 0x80);
    }
}

/// What scanning bytes as a varint yields: the mathematical value and the
/// count of bytes consumed, or the way the scan failed.
pub enum VarintParse {
    /// Value (before truncation to 64 bits) and bytes consumed.
    Val(int, nat),
    /// The input ended before a terminating byte.
    Short,
    /// No terminating byte within the ten bytes a 64-bit value may occupy.
    Over,
}

/// Scans a varint at the front of `data`, allowing at most `groups` bytes.
pub open spec fn spec_parse_varint(data: Seq<u8>, groups: nat) -> VarintParse
    decreases data.len(),
{
    if groups == 0 {
        VarintParse::Over
    } else if data.len() == 0 {
        VarintParse::Short
    } else {
        let b = data[0];
        let low = (b & 0x7f) as int;
        if b & 0x80 == 0 {
            VarintParse::Val(low, 1)
        } else {
            match spec_parse_varint(data.skip(1), (groups - 1) as nat) {
                VarintParse::Val(v, n) => VarintParse::Val(low + 0x80 * v, n + 1),
                o => o,
            }
        }
    }
}

/// A varint encoding takes between one and ten bytes.
pub proof fn lemma_varint_len(x: u64)
    ensures
        1 <= spec_varint(x).len() <= 10,
    decreases x,
{
    if x >= 0x80 {
        lemma_div_is_strictly_smaller(x as int, 0x80);
        lemma_varint_len((x / 0x80) as u64);
        lemma_pow128_10_large();
        lemma_varint_len_tight(x, 10);
    }
}

/// If `x` is below 128^k then its encoding takes at most `k` bytes.
proof fn lemma_varint_len_tight(x: u64, k: nat)
    requires
        1 <= k,
        x < pow128(k),
    ensures
        spec_varint(x).len() <= k,
    decreases x,
{
    if x >= 0x80 {
        lemma_div_is_strictly_smaller(x as int, 0x80);
        assert(pow128(k) == 0x80 * pow128((k - 1) as nat));
        assert(x / 0x80 < pow128((k - 1) as nat)) by {
            lemma_fundamental_div_mod(x as int, 0x80);
        }
        lemma_varint_len_tight((x / 0x80) as u64, (k - 1) as nat);
    }
}

/// 128 to the power `k`, used to bound varint lengths.
pub open spec fn pow128(k: nat) -> int
    decreases k,
{
    if k == 0 {
        1
    } else {
        0x80 * pow128((k - 1) as nat)
    }
}

/// Ten base-128 groups cover every 64-bit value.
proof fn lemma_pow128_10_large()
    ensures
        pow128(10) > u64::MAX,
{
    assert(pow128(0) == 1);
    assert(pow128(1) == 0x80);
    assert(pow128(2) == 0x4000);
    assert(pow128(3) == 0x20_0000);
    assert(pow128(4) == 0x1000_0000);
    assert(pow128(5) == 0x8_0000_0000);
    assert(pow128(6) == 0x400_0000_0000);
    assert(pow128(7) == 0x2_0000_0000_0000);
    assert(pow128(8) == 0x100_0000_0000_0000);
    assert(pow128(9) == 0x8000_0000_0000_0000);
    assert(pow128(10) == 0x40_0000_0000_0000_0000);
}

/// Appends the varint encoding of `value` to `out`; returns the number of bytes written.
pub fn write_varint(out: &mut Vec<u8>, value: u64) -> (n: usize)
    requires
        old(out)@.len() + 10 <= usize::MAX,
    ensures
        final(out)@ == old(out)@ + spec_varint(value),
        n == spec_varint(value).len(),
        1 <= n <= 10,
{
    proof {
        lemma_varint_len(value);
    }
    let mut v: u64 = value;
    let mut n: usize = 0;
    while v >= 0x80
        invariant
            old(out)@ + spec_varint(value) == out@ + spec_varint(v),
            n == spec_varint(value).len() - spec_varint(v).len(),
            out@.len() == old(out)@.len() + n,
            spec_varint(value).len() <= 10,
        decreases v,
    {
        proof {
            assert(((v & 0x7f) | 0x80) == v % 0x80 + 0x80 && (v >> 7) == v / 0x80 && v / 0x80 < v)
                by (bit_vector)
                requires
                    v >= 0x80,
            ;
        }
        out.push(((v & 0x7f) | 0x80) as u8);
        v = v >> 7;
        n = n + 1;
        proof {
            assert(old(out)@ + spec_varint(value) =~= out@ + spec_varint(v));
        }
    }
    out.push(v as u8);
    proof {
        assert(spec_varint(v) =~= seq![v as u8]);
        assert(out@ =~= old(out)@ + spec_varint(value));
    }
    n + 1
}

/// A successful scan consumes between one byte and the whole input.
pub proof fn lemma_parse_varint_len(data: Seq<u8>, groups: nat)
    ensures
        match spec_parse_varint(data, groups) {
            VarintParse::Val(v, n) => 1 <= n <= data.len() && v >= 0,
            _ => true,
        },
    decreases data.len(),
{
    if groups > 0 && data.len() > 0 {
        lemma_parse_varint_len(data.skip(1), (groups - 1) as nat);
    }
}

fn read_varint_rec(data: &[u8], offset: usize, groups: u8) -> (r: Result<
    (u64, usize),
    CodecError,
>)
    requires
        offset <= data@.len(),
    ensures
        match spec_parse_varint(data@.skip(offset as int), groups as nat) {
            VarintParse::Val(v, n) => r == Ok::<(u64, usize), CodecError>(
                (((v % 0x1_0000_0000_0000_0000) as u64), (offset + n) as usize),
            ),
            VarintParse::Short => r == Err::<(u64, usize), CodecError>(CodecError::Truncated),
            VarintParse::Over => r == Err::<(u64, usize), CodecError>(CodecError::VarintTooLong),
        },
    decreases groups,
{
    proof {
        lemma_parse_varint_len(data@.skip(offset as int), groups as nat);
    }
    if groups == 0 {
        return Err(CodecError::VarintTooLong);
    }
    if offset >= data.len() {
        return Err(CodecError::Truncated);
    }
    let b = data[offset];
    let low = b & 0x7f;
    if b & 0x80 == 0 {
        proof {
            assert((b & 0x7f) < 0x80) by (bit_vector);
        }
        return Ok((low as u64, offset + 1));
    }
    proof {
        assert(data@.skip(offset as int).skip(1) =~= data@.skip(offset as int + 1));
    }
    match read_varint_rec(data, offset + 1, groups - 1) {
        Ok((rest, end)) => {
            let v = (low as u64) | (rest << 7);
            proof {
                assert((((b & 0x7f) as u64) | (rest << 7)) == ((((b & 0x7f) as u64) + 0x80
                    * rest) % 0x1_0000_0000_0000_0000) as u64) by (bit_vector);
                let lowi = (b & 0x7f) as int;
                let vr = match spec_parse_varint(
                    data@.skip(offset as int + 1),
                    (groups - 1) as nat,
                ) {
                    VarintParse::Val(vv, _) => vv,
                    _ => 0,
                };
                lemma_parse_varint_len(data@.skip(offset as int + 1), (groups - 1) as nat);
                let m = 0x1_0000_0000_0000_0000int;
                assert((lowi + 0x80 * vr) % m == (lowi + 0x80 * (vr % m)) % m) by {
                    lemma_add_mod_noop(lowi, 0x80 * vr, m);
                    lemma_mul_mod_noop_right(0x80, vr, m);
                    lemma_add_mod_noop(lowi, 0x80 * (vr % m), m);
                    assert((0x80 * vr) % m == (0x80 * (vr % m)) % m);
                }
                assert(rest as int == vr % m);
                assert(v as int == (lowi + 0x80 * vr) % m);
            }
            Ok((v, end))
        },
        Err(e) => Err(e),
    }
}

/// Reads a varint from `data` starting at `offset`. On success returns the
/// decoded value (truncated to 64 bits, as ten full groups can carry one bit
/// more than a u64 holds) and the offset just past it. Fails with Truncated
/// when the input ends first and with VarintTooLong when no terminating byte
/// appears within ten bytes.
pub fn read_varint(data: &[u8], offset: usize) -> (r: Result<(u64, usize), CodecError>)
    requires
        offset <= data@.len(),
    ensures
        match spec_parse_varint(data@.skip(offset as int), 10) {
            VarintParse::Val(v, n) => r == Ok::<(u64, usize), CodecError>(
                (((v % 0x1_0000_0000_0000_0000) as u64), (offset + n) as usize),
            ),
            VarintParse::Short => r == Err::<(u64, usize), CodecError>(CodecError::Truncated),
            VarintParse::Over => r == Err::<(u64, usize), CodecError>(CodecError::VarintTooLong),
        },
{
    read_varint_rec(data, offset, 10)
}

/// Reading a written varint yields the value back, whatever follows it.
pub proof fn lemma_varint_round_trip(x: u64, suffix: Seq<u8>)
    ensures
        spec_parse_varint(spec_varint(x) + suffix, 10) == VarintParse::Val(
            x as int,
            spec_varint(x).len() as nat,
        ),
{
    lemma_varint_len(x);
    lemma_varint_round_trip_rec(x, suffix, 10);
}

proof fn lemma_varint_round_trip_rec(x: u64, suffix: Seq<u8>, groups: nat)
    requires
        groups >= spec_varint(x).len(),
    ensures
        spec_parse_varint(spec_varint(x) + suffix, groups) == VarintParse::Val(
            x as int,
            spec_varint(x).len() as nat,
        ),
    decreases x,
{
    let enc = spec_varint(x);
    let b = enc[0];
    if x < 0x80 {
        assert(b == x as u8);
        assert(b < 0x80 ==> (b & 0x80 == 0 && (b & 0x7f) == b)) by (bit_vector);
        assert((enc + suffix)[0] == b);
    } else {
        lemma_div_is_strictly_smaller(x as int, 0x80);
        let rest = (x / 0x80) as u64;
        assert(b == (x % 0x80 + 0x80) as u8);
        assert(b >= 0x80 ==> (b & 0x80 != 0 && (b & 0x7f) + 0x80 == b)) by (bit_vector);
        assert((enc + suffix)[0] == b);
        lemma_varint_len(rest);
        lemma_varint_round_trip_rec(rest, suffix, (groups - 1) as nat);
        assert((enc + suffix).skip(1) =~= spec_varint(rest) + suffix);
        lemma_fundamental_div_mod(x as int, 0x80);
    }
}

} // verus!
