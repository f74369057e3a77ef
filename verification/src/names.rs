use vstd::arithmetic::div_mod::{lemma_div_is_strictly_smaller, lemma_fundamental_div_mod};
use vstd::prelude::*;

use crate::kinds::TableType;

verus! {

/// The ASCII decimal digits of `n`, most significant first.
pub open spec fn spec_dec(n: u64) -> Seq<u8>
    decreases n,
    via spec_dec_decreases
{
    if n < 10 {
        seq![(48 + n) as u8]
    } else {
        spec_dec((n / 10) as u64) + seq![(48 + n % 10) as u8]
    }
}

#[via_fn]
proof fn spec_dec_decreases(n: u64) {
    if n >= 10 {
        lemma_div_is_strictly_smaller(n as int, 10);
    }
}

/// Every decimal digit byte is an ASCII digit.
pub proof fn lemma_dec_digits(n: u64)
    ensures
        spec_dec(n).len() >= 1,
        forall|i: int| 0 <= i < spec_dec(n).len() ==> 48 <= #[trigger] spec_dec(n)[i] <= 57,
    decreases n,
{
    if n >= 10 {
        lemma_div_is_strictly_smaller(n as int, 10);
        lemma_dec_digits((n / 10) as u64);
    }
}

/// Appends the decimal digits of `n` to `out`.
pub fn push_dec(out: &mut Vec<u8>, n: u64)
    requires
        old(out)@.len() + 20 <= usize::MAX,
    ensures
        final(out)@ == old(out)@ + spec_dec(n),
        spec_dec(n).len() <= 20,
    decreases n,
{
    proof {
        lemma_dec_len(n);
    }
    if n < 10 {
        out.push((48 + n) as u8);
        proof {
            assert(out@ =~= old(out)@ + spec_dec(n));
        }
    } else {
        proof {
            lemma_div_is_strictly_smaller(n as int, 10);
        }
        push_dec(out, n / 10);
        out.push((48 + (n % 10)) as u8);
        proof {
            assert(out@ =~= old(out)@ + spec_dec(n));
        }
    }
}

/// The digits of a 64-bit value fit in twenty bytes.
pub proof fn lemma_dec_len(n: u64)
    ensures
        1 <= spec_dec(n).len() <= 20,
    decreases n,
{
    if n >= 10 {
        lemma_div_is_strictly_smaller(n as int, 10);
        lemma_pow10_20_large();
        lemma_dec_len_tight(n, 20);
    }
}

/// If `n` is below 10^k then its digits take at most `k` bytes.
proof fn lemma_dec_len_tight(n: u64, k: nat)
    requires
        1 <= k,
        n < pow10(k),
    ensures
        spec_dec(n).len() <= k,
    decreases n,
{
    if n >= 10 {
        lemma_div_is_strictly_smaller(n as int, 10);
        assert(pow10(k) == 10 * pow10((k - 1) as nat));
        assert(n / 10 < pow10((k - 1) as nat)) by {
            lemma_fundamental_div_mod(n as int, 10);
        }
        lemma_dec_len_tight((n / 10) as u64, (k - 1) as nat);
    }
}

/// Ten to the power `k`.
pub open spec fn pow10(k: nat) -> int
    decreases k,
{
    if k == 0 {
        1
    } else {
        10 * pow10((k - 1) as nat)
    }
}

/// Twenty decimal digits cover every 64-bit value.
proof fn lemma_pow10_20_large()
    ensures
        pow10(20) > u64::MAX,
{
    assert(pow10(0) == 1);
    assert(pow10(1) == 10);
    assert(pow10(2) == 100);
    assert(pow10(3) == 1000);
    assert(pow10(4) == 10000);
    assert(pow10(5) == 100000);
    assert(pow10(6) == 1000000);
    assert(pow10(7) == 10000000);
    assert(pow10(8) == 100000000);
    assert(pow10(9) == 1000000000);
    assert(pow10(10) == 10000000000);
    assert(pow10(11) == 100000000000);
    assert(pow10(12) == 1000000000000);
    assert(pow10(13) == 10000000000000);
    assert(pow10(14) == 100000000000000);
    assert(pow10(15) == 1000000000000000);
    assert(pow10(16) == 10000000000000000);
    assert(pow10(17) == 100000000000000000);
    assert(pow10(18) == 1000000000000000000);
    assert(pow10(19) == 10000000000000000000);
    assert(pow10(20) == 100000000000000000000);
}

/// The numeric value of ASCII digit bytes, most significant first.
pub open spec fn dec_value(s: Seq<u8>) -> int
    decreases s.len(),
{
    if s.len() == 0 {
        0
    } else {
        dec_value(s.drop_last()) * 10 + (s.last() - 48)
    }
}

/// Whether every byte is an ASCII digit.
pub open spec fn all_digits(s: Seq<u8>) -> bool {
    forall|i: int| 0 <= i < s.len() ==> 48 <= #[trigger] s[i] <= 57
}

/// What parsing ASCII digit bytes as a decimal number yields: the value when
/// the bytes are one or more digits whose value fits in 64 bits, nothing
/// otherwise.
pub open spec fn spec_parse_dec(s: Seq<u8>) -> Option<u64> {
    if s.len() >= 1 && all_digits(s) && dec_value(s) <= u64::MAX {
        Some(dec_value(s) as u64)
    } else {
        None
    }
}

/// A longer digit string never has a smaller value.
proof fn lemma_dec_value_monotone(s: Seq<u8>, i: int)
    requires
        0 <= i <= s.len(),
        all_digits(s),
    ensures
        dec_value(s.subrange(0, i)) <= dec_value(s),
        dec_value(s) >= 0,
    decreases s.len() - i,
{
    if i == s.len() {
        assert(s.subrange(0, i) =~= s);
        lemma_dec_value_nonneg(s);
    } else {
        lemma_dec_value_monotone(s, i + 1);
        let p = s.subrange(0, i + 1);
        assert(p.drop_last() =~= s.subrange(0, i));
        lemma_dec_value_nonneg(s.subrange(0, i));
        assert(dec_value(p) == dec_value(s.subrange(0, i)) * 10 + (p.last() - 48));
    }
}

/// Digit strings have nonnegative values.
proof fn lemma_dec_value_nonneg(s: Seq<u8>)
    requires
        all_digits(s),
    ensures
        dec_value(s) >= 0,
    decreases s.len(),
{
    if s.len() > 0 {
        assert(all_digits(s.drop_last())) by {
            assert(forall|i: int| 0 <= i < s.len() - 1 ==> s.drop_last()[i] == s[i]);
        }
        lemma_dec_value_nonneg(s.drop_last());
    }
}

/// Parses ASCII digit bytes as a decimal number: one or more digits whose
/// value fits in 64 bits, or nothing.
pub fn parse_dec(s: &[u8]) -> (r: Option<u64>)
    ensures
        r == spec_parse_dec(s@),
{
    let n = s.len();
    if n == 0 {
        return None;
    }
    let mut acc: u64 = 0;
    let mut i: usize = 0;
    while i < n
        invariant
            i <= n,
            n == s@.len(),
            all_digits(s@.subrange(0, i as int)),
            acc == dec_value(s@.subrange(0, i as int)),
        decreases n - i,
    {
        let ghost pre = s@.subrange(0, i as int);
        let b = s[i];
        if b < 48 || b > 57 {
            proof {
                assert(!all_digits(s@));
            }
            return None;
        }
        let d = (b - 48) as u64;
        if acc > (u64::MAX - d) / 10 {
            proof {
                let p = s@.subrange(0, i as int + 1);
                assert(p.drop_last() =~= pre);
                assert(all_digits(p));
                assert(dec_value(p) == acc * 10 + d);
                assert(dec_value(p) > u64::MAX) by {
                    lemma_fundamental_div_mod(u64::MAX - d, 10);
                }
                if all_digits(s@) && dec_value(s@) <= u64::MAX {
                    lemma_dec_value_monotone(s@, i as int + 1);
                }
            }
            return None;
        }
        proof {
            lemma_fundamental_div_mod(u64::MAX - d, 10);
            let p = s@.subrange(0, i as int + 1);
            assert(p.drop_last() =~= pre);
            assert(all_digits(p));
        }
        acc = acc * 10 + d;
        i = i + 1;
    }
    proof {
        assert(s@.subrange(0, n as int) =~= s@);
    }
    Some(acc)
}

/// Reading written digits yields the value back.
pub proof fn lemma_dec_round_trip(n: u64)
    ensures
        spec_parse_dec(spec_dec(n)) == Some(n),
    decreases n,
{
    lemma_dec_digits(n);
    lemma_dec_value_of_dec(n);
}

/// The value of the digits of `n` is `n`.
proof fn lemma_dec_value_of_dec(n: u64)
    ensures
        dec_value(spec_dec(n)) == n,
    decreases n,
{
    if n < 10 {
        assert(spec_dec(n) == seq![(48 + n) as u8]);
        assert(spec_dec(n).drop_last() =~= Seq::<u8>::empty());
        assert(spec_dec(n).last() == (48 + n) as u8);
        assert(dec_value(spec_dec(n)) == dec_value(Seq::<u8>::empty()) * 10 + ((48 + n) as u8
            - 48));
    } else {
        lemma_div_is_strictly_smaller(n as int, 10);
        lemma_dec_value_of_dec((n / 10) as u64);
        assert(spec_dec(n) == spec_dec((n / 10) as u64) + seq![(48 + n % 10) as u8]);
        assert(spec_dec(n).drop_last() =~= spec_dec((n / 10) as u64));
        assert(spec_dec(n).last() == (48 + n % 10) as u8);
        assert(dec_value(spec_dec(n)) == dec_value(spec_dec((n / 10) as u64)) * 10 + ((48 + n
            % 10) as u8 - 48));
        lemma_fundamental_div_mod(n as int, 10);
    }
}

/// The on-disk name prefix of a table.
pub open spec fn spec_table_prefix(t: TableType) -> Seq<u8> {
    match t {
        TableType::History => seq![104u8, 105u8, 115u8, 116u8, 111u8, 114u8, 121u8],
        TableType::Cookies => seq![99u8, 111u8, 111u8, 107u8, 105u8, 101u8, 115u8],
        TableType::Cache => seq![99u8, 97u8, 99u8, 104u8, 101u8],
        TableType::LocalStore => seq![
            108u8,
            111u8,
            99u8,
            97u8,
            108u8,
            115u8,
            116u8,
            111u8,
            114u8,
            101u8,
        ],
        TableType::Settings => seq![115u8, 101u8, 116u8, 116u8, 105u8, 110u8, 103u8, 115u8],
    }
}

/// The table's name prefix as bytes.
pub fn table_prefix(t: TableType) -> (r: Vec<u8>)
    ensures
        r@ == spec_table_prefix(t),
{
    let mut v: Vec<u8> = Vec::new();
    match t {
        TableType::History => {
            v.push(104);
            v.push(105);
            v.push(115);
            v.push(116);
            v.push(111);
            v.push(114);
            v.push(121);
        },
        TableType::Cookies => {
            v.push(99);
            v.push(111);
            v.push(111);
            v.push(107);
            v.push(105);
            v.push(101);
            v.push(115);
        },
        TableType::Cache => {
            v.push(99);
            v.push(97);
            v.push(99);
            v.push(104);
            v.push(101);
        },
        TableType::LocalStore => {
            v.push(108);
            v.push(111);
            v.push(99);
            v.push(97);
            v.push(108);
            v.push(115);
            v.push(116);
            v.push(111);
            v.push(114);
            v.push(101);
        },
        TableType::Settings => {
            v.push(115);
            v.push(101);
            v.push(116);
            v.push(116);
            v.push(105);
            v.push(110);
            v.push(103);
            v.push(115);
        },
    }
    proof {
        assert(v@ =~= spec_table_prefix(t));
    }
    v
}

/// The dot-s-s-t suffix every sorted file carries.
pub open spec fn spec_sst_suffix() -> Seq<u8> {
    seq![46u8, 115u8, 115u8, 116u8]
}

/// The file name of a sorted file: table prefix, level, creation time and
/// record count separated by underscores, with the sorted-file suffix.
pub open spec fn spec_sst_file_name(t: TableType, level: u8, timestamp: u64, count: u64) -> Seq<
    u8,
> {
    spec_table_prefix(t) + seq![95u8] + spec_dec(level as u64) + seq![95u8] + spec_dec(timestamp)
        + seq![95u8] + spec_dec(count) + spec_sst_suffix()
}

/// Builds the file name of a sorted file as bytes.
pub fn sst_file_name(t: TableType, level: u8, timestamp: u64, count: u64) -> (r: Vec<u8>)
    ensures
        r@ == spec_sst_file_name(t, level, timestamp, count),
{
    let mut v = table_prefix(t);
    v.push(95);
    push_dec(&mut v, level as u64);
    v.push(95);
    push_dec(&mut v, timestamp);
    v.push(95);
    push_dec(&mut v, count);
    v.push(46);
    v.push(115);
    v.push(115);
    v.push(116);
    proof {
        assert(v@ =~= spec_sst_file_name(t, level, timestamp, count));
    }
    v
}

/// The underscore-separated segments of a byte string.
pub open spec fn spec_split_underscore(s: Seq<u8>) -> Seq<Seq<u8>>
    decreases s.len(),
{
    if s.len() == 0 {
        seq![Seq::<u8>::empty()]
    } else if s[0] == 95 {
        seq![Seq::<u8>::empty()] + spec_split_underscore(s.skip(1))
    } else {
        let rest = spec_split_underscore(s.skip(1));
        seq![seq![s[0]] + rest[0]] + rest.skip(1)
    }
}

/// Splitting always yields at least one segment.
pub proof fn lemma_split_len(s: Seq<u8>)
    ensures
        spec_split_underscore(s).len() >= 1,
    decreases s.len(),
{
    if s.len() > 0 {
        lemma_split_len(s.skip(1));
    }
}

/// Splits a byte string at underscores.
pub fn split_underscore(s: &[u8]) -> (r: Vec<Vec<u8>>)
    ensures
        r@.map_values(|v: Vec<u8>| v@) == spec_split_underscore(s@),
{
    let n = s.len();
    let mut parts: Vec<Vec<u8>> = Vec::new();
    let mut cur: Vec<u8> = Vec::new();
    proof {
        assert(s@.skip(0) =~= s@);
        lemma_split_len(s@);
        let rest = spec_split_underscore(s@);
        assert(cur@ + rest[0] =~= rest[0]);
        assert(parts@.map_values(|v: Vec<u8>| v@) + (seq![cur@ + rest[0]] + rest.skip(1)) =~= rest);
    }
    let mut i: usize = 0;
    while i < n
        invariant
            i <= n,
            n == s@.len(),
            spec_split_underscore(s@) == parts@.map_values(|v: Vec<u8>| v@) + ({
                let rest = spec_split_underscore(s@.skip(i as int));
                seq![cur@ + rest[0]] + rest.skip(1)
            }),
        decreases n - i,
    {
        proof {
            lemma_split_len(s@.skip(i as int));
            lemma_split_len(s@.skip(i as int + 1));
            assert(s@.skip(i as int).skip(1) =~= s@.skip(i as int + 1));
        }
        let b = s[i];
        if b == 95 {
            parts.push(cur);
            cur = Vec::new();
            proof {
                let rest = spec_split_underscore(s@.skip(i as int + 1));
                assert(spec_split_underscore(s@) =~= parts@.map_values(|v: Vec<u8>| v@) + (
                seq![cur@ + rest[0]] + rest.skip(1)));
            }
        } else {
            let ghost cur0 = cur@;
            cur.push(b);
            proof {
                let rest = spec_split_underscore(s@.skip(i as int + 1));
                let whole = spec_split_underscore(s@.skip(i as int));
                assert(whole[0] == seq![s@[i as int]] + rest[0]);
                assert(whole.skip(1) =~= rest.skip(1));
                assert(cur@ + rest[0] =~= cur0 + whole[0]) by {
                    assert(cur@ =~= cur0 + seq![s@[i as int]]);
                }
                assert(spec_split_underscore(s@) =~= parts@.map_values(|v: Vec<u8>| v@) + (
                seq![cur@ + rest[0]] + rest.skip(1)));
            }
        }
        i = i + 1;
    }
    parts.push(cur);
    proof {
        assert(s@.skip(n as int) =~= Seq::<u8>::empty());
        assert(spec_split_underscore(s@) =~= parts@.map_values(|v: Vec<u8>| v@));
    }
    parts
}

/// Whether a byte string is free of underscores.
pub open spec fn no_underscore(s: Seq<u8>) -> bool {
    forall|i: int| 0 <= i < s.len() ==> s[i] != 95
}

/// A string without underscores splits into itself alone.
pub proof fn lemma_split_whole(s: Seq<u8>)
    requires
        no_underscore(s),
    ensures
        spec_split_underscore(s) == seq![s],
    decreases s.len(),
{
    if s.len() == 0 {
        assert(spec_split_underscore(s) =~~= seq![s]);
    } else {
        assert(no_underscore(s.skip(1)));
        lemma_split_whole(s.skip(1));
        let rest = spec_split_underscore(s.skip(1));
        assert(rest[0] == s.skip(1));
        assert(seq![s[0]] + rest[0] =~= s);
        assert(rest.skip(1) =~= Seq::<Seq<u8>>::empty());
        assert(spec_split_underscore(s) =~~= seq![s]);
    }
}

/// An underscore after an underscore-free head starts a new segment.
pub proof fn lemma_split_prepend(x: Seq<u8>, y: Seq<u8>)
    requires
        no_underscore(x),
    ensures
        spec_split_underscore(x + seq![95u8] + y) == seq![x] + spec_split_underscore(y),
    decreases x.len(),
{
    let w = x + seq![95u8] + y;
    if x.len() == 0 {
        assert(w[0] == 95);
        assert(w.skip(1) =~= y);
        assert(spec_split_underscore(w) =~~= seq![x] + spec_split_underscore(y)) by {
            assert(Seq::<u8>::empty() =~= x);
        }
    } else {
        assert(w[0] == x[0]);
        assert(w[0] != 95);
        assert(no_underscore(x.skip(1)));
        lemma_split_prepend(x.skip(1), y);
        assert(w.skip(1) =~= x.skip(1) + seq![95u8] + y);
        let rest = spec_split_underscore(w.skip(1));
        assert(rest == seq![x.skip(1)] + spec_split_underscore(y));
        assert(rest[0] == x.skip(1));
        assert(seq![w[0]] + rest[0] =~= x);
        assert(rest.skip(1) =~~= spec_split_underscore(y));
        assert(spec_split_underscore(w) =~~= seq![x] + spec_split_underscore(y));
    }
}

/// What the engine reads out of a sorted file's name: the level and the
/// creation time, when the name carries this table's prefix, the sorted-file
/// suffix, and a level below ten; the time falls back to zero where its
/// segment is not a number.
pub open spec fn spec_parse_sst_name(name: Seq<u8>, t: TableType) -> Option<(u8, u64)> {
    let prefix = spec_table_prefix(t);
    let suffix = spec_sst_suffix();
    if name.len() < prefix.len() || name.subrange(0, prefix.len() as int) != prefix {
        None
    } else if name.len() < 4 || name.subrange(name.len() - 4, name.len() as int) != suffix {
        None
    } else {
        let parts = spec_split_underscore(name);
        if parts.len() < 2 {
            None
        } else {
            match spec_parse_dec(parts[1]) {
                Some(level) => if level < 10 {
                    let ts = if parts.len() >= 3 {
                        match spec_parse_dec(parts[2]) {
                            Some(v) => v,
                            None => 0u64,
                        }
                    } else {
                        0u64
                    };
                    Some((level as u8, ts))
                } else {
                    None
                },
                None => None,
            }
        }
    }
}

/// Reads the level and creation time out of a sorted file's name.
pub fn parse_sst_file_name(name: &[u8], t: TableType) -> (r: Option<(u8, u64)>)
    ensures
        r == spec_parse_sst_name(name@, t),
{
    let prefix = table_prefix(t);
    let nlen = name.len();
    if nlen < prefix.len() {
        return None;
    }
    let head = vstd::slice::slice_subrange(name, 0, prefix.len());
    if !crate::wire::bytes_eq(head, prefix.as_slice()) {
        return None;
    }
    if nlen < 4 {
        return None;
    }
    let tail = vstd::slice::slice_subrange(name, nlen - 4, nlen);
    let mut suffix: Vec<u8> = Vec::new();
    suffix.push(46);
    suffix.push(115);
    suffix.push(115);
    suffix.push(116);
    proof {
        assert(suffix@ =~= spec_sst_suffix());
    }
    if !crate::wire::bytes_eq(tail, suffix.as_slice()) {
        return None;
    }
    let parts = split_underscore(name);
    if parts.len() < 2 {
        proof {
            assert(parts@.map_values(|v: Vec<u8>| v@).len() == parts@.len());
        }
        return None;
    }
    proof {
        assert(parts@.map_values(|v: Vec<u8>| v@)[1] == parts@[1]@);
    }
    let level = match parse_dec(parts[1].as_slice()) {
        Some(v) => v,
        None => {
            return None;
        },
    };
    if level >= 10 {
        return None;
    }
    let ts: u64 = if parts.len() >= 3 {
        proof {
            assert(parts@.map_values(|v: Vec<u8>| v@)[2] == parts@[2]@);
        }
        match parse_dec(parts[2].as_slice()) {
            Some(v) => v,
            None => 0,
        }
    } else {
        0
    };
    Some((level as u8, ts))
}

/// Reading a written file name yields the level and the creation time back.
pub proof fn lemma_sst_name_round_trip(t: TableType, level: u8, timestamp: u64, count: u64)
    requires
        level < 10,
    ensures
        spec_parse_sst_name(spec_sst_file_name(t, level, timestamp, count), t) == Some(
            (level, timestamp),
        ),
{
    let name = spec_sst_file_name(t, level, timestamp, count);
    let prefix = spec_table_prefix(t);
    lemma_dec_digits(level as u64);
    lemma_dec_digits(timestamp);
    lemma_dec_digits(count);
    lemma_dec_len(level as u64);
    lemma_dec_len(timestamp);
    lemma_dec_len(count);
    assert(name.subrange(0, prefix.len() as int) =~= prefix);
    assert(name.subrange(name.len() - 4, name.len() as int) =~= spec_sst_suffix());
    let z = spec_dec(count) + spec_sst_suffix();
    assert(no_underscore(z));
    lemma_split_whole(z);
    let y2 = spec_dec(timestamp) + seq![95u8] + z;
    assert(no_underscore(spec_dec(timestamp)));
    lemma_split_prepend(spec_dec(timestamp), z);
    let y1 = spec_dec(level as u64) + seq![95u8] + y2;
    assert(no_underscore(spec_dec(level as u64)));
    lemma_split_prepend(spec_dec(level as u64), y2);
    assert(no_underscore(prefix));
    lemma_split_prepend(prefix, y1);
    assert(name =~= prefix + seq![95u8] + y1);
    assert(y2 =~= spec_dec(timestamp) + seq![95u8] + z);
    let parts = spec_split_underscore(name);
    assert(parts =~~= seq![prefix] + (seq![spec_dec(level as u64)] + (seq![spec_dec(timestamp)]
        + seq![z])));
    assert(parts[1] == spec_dec(level as u64));
    assert(parts[2] == spec_dec(timestamp));
    lemma_dec_round_trip(level as u64);
    lemma_dec_round_trip(timestamp);
    assert(parts.len() == 4);
}

} // verus!
