use vstd::prelude::*;

verus! {

/// The base-128 varint encoding of `v`: seven bits per byte, least significant
/// group first, with the high bit set on every byte but the last.
pub open spec fn varint_bytes(v: nat) -> Seq<u8>
    decreases v,
{
    if v < 128 {
        seq![v as u8]
    } else {
        seq![(v % 128 + 128) as u8] + varint_bytes(v / 128)
    }
}

/// Number of bytes in the varint encoding of `v`.
pub open spec fn varint_len(v: nat) -> nat
    decreases v,
{
    if v < 128 {
        1
    } else {
        1 + varint_len(v / 128)
    }
}

/// Outcome of reading a varint from the front of a byte sequence.
pub enum VarintRead {
    /// The value and the number of bytes it took.
    Value(nat, nat),
    /// The bytes end before the last byte of the varint.
    Truncated,
    /// The varint runs past ten bytes or past 64 bits.
    Malformed,
}

/// Reads a varint of at most `k` bytes, without a bound on its value.
pub open spec fn read_varint_within(s: Seq<u8>, k: nat) -> VarintRead
    decreases k,
{
    if s.len() == 0 {
        VarintRead::Truncated
    } else if s[0] < 128 {
        VarintRead::Value(s[0] as nat, 1)
    } else if k <= 1 {
        VarintRead::Malformed
    } else {
        match read_varint_within(s.drop_first(), (k - 1) as nat) {
            VarintRead::Value(v, n) => VarintRead::Value((s[0] - 128) as nat + 128 * v, n + 1),
            other => other,
        }
    }
}

/// Reads a 64-bit varint from the front of `s`.
pub open spec fn read_varint(s: Seq<u8>) -> VarintRead {
    match read_varint_within(s, 10) {
        VarintRead::Value(v, n) => if v > u64::MAX {
            VarintRead::Malformed
        } else {
            VarintRead::Value(v, n)
        },
        other => other,
    }
}

/// `128` to the power `k`.
pub open spec fn pow128(k: nat) -> nat
    decreases k,
{
    if k == 0 {
        1
    } else {
        128 * pow128((k - 1) as nat)
    }
}

pub proof fn lemma_varint_bytes_len(v: nat)
    ensures
        varint_bytes(v).len() == varint_len(v),
        varint_len(v) >= 1,
    decreases v,
{
    if v >= 128 {
        lemma_varint_bytes_len(v / 128);
    }
}

proof fn lemma_varint_len_below(v: nat, k: nat)
    requires
        v < pow128(k),
        k >= 1,
    ensures
        varint_len(v) <= k,
    decreases k,
{
    if v >= 128 {
        reveal_with_fuel(pow128, 2);
        let p = pow128((k - 1) as nat);
        assert(v / 128 < p) by (nonlinear_arith)
            requires
                v < 128 * p,
        ;
        lemma_varint_len_below(v / 128, (k - 1) as nat);
    }
}

/// A 64-bit value takes at most ten bytes.
pub proof fn lemma_varint_len_u64(v: nat)
    requires
        v <= u64::MAX,
    ensures
        1 <= varint_len(v) <= 10,
{
    reveal_with_fuel(pow128, 11);
    assert(pow128(10) == 0x400000000000000000nat);
    lemma_varint_len_below(v, 10);
    lemma_varint_bytes_len(v);
}

proof fn lemma_read_within_encoding(v: nat, rest: Seq<u8>, k: nat)
    requires
        varint_len(v) <= k,
    ensures
        read_varint_within(varint_bytes(v) + rest, k) == VarintRead::Value(v, varint_len(v)),
    decreases v,
{
    let s = varint_bytes(v) + rest;
    if v >= 128 {
        lemma_read_within_encoding(v / 128, rest, (k - 1) as nat);
        assert(s.drop_first() =~= varint_bytes(v / 128) + rest);
    }
}

/// Reading the encoding of a 64-bit value gives the value back, whatever follows.
pub proof fn lemma_read_varint_bytes(v: nat, rest: Seq<u8>)
    requires
        v <= u64::MAX,
    ensures
        read_varint(varint_bytes(v) + rest) == VarintRead::Value(v, varint_len(v)),
{
    lemma_varint_len_u64(v);
    lemma_read_within_encoding(v, rest, 10);
}

/// Relies on protobuf::rt::compute_raw_varint64_size: the number of bytes in the
/// varint encoding of `v`.
#[verifier::external_body]
pub(crate) fn varint_size(v: u64) -> (r: u64)
    ensures
        r as nat == varint_len(v as nat),
{
    protobuf::rt::compute_raw_varint64_size(v)
}

/// Appends the varint encoding of `v` to `out`.
pub fn push_varint(out: &mut Vec<u8>, v: u64)
    ensures
        final(out)@ == old(out)@ + varint_bytes(v as nat),
{
    let mut x: u64 = v;
    while x >= 128
        invariant
            old(out)@ + varint_bytes(v as nat) == out@ + varint_bytes(x as nat),
        decreases x,
    {
        let ghost before = out@;
        out.push((x % 128 + 128) as u8);
        assert(varint_bytes(x as nat) == seq![(x % 128 + 128) as u8] + varint_bytes(
            (x / 128) as nat,
        ));
        assert(before + varint_bytes(x as nat) =~= out@ + varint_bytes((x / 128) as nat));
        x = x / 128;
    }
    out.push(x as u8);
    assert(old(out)@ + varint_bytes(v as nat) =~= out@);
}

fn read_varint_at(buf: &[u8], pos: usize, k: u64) -> (r: Result<(u128, usize), bool>)
    requires
        pos <= buf@.len(),
        1 <= k <= 10,
    ensures
        match read_varint_within(buf@.skip(pos as int), k as nat) {
            VarintRead::Value(v, n) => r == Ok::<(u128, usize), bool>((v as u128, n as usize))
                && 1 <= n <= k && v < pow128(n),
            VarintRead::Truncated => r == Err::<(u128, usize), bool>(true),
            VarintRead::Malformed => r == Err::<(u128, usize), bool>(false),
        },
    decreases k,
{
    let ghost s = buf@.skip(pos as int);
    if pos == buf.len() {
        return Err(true);
    }
    let b = buf[pos];
    if b < 128 {
        assert(pow128(1) == 128) by {
            reveal_with_fuel(pow128, 2);
        }
        return Ok((b as u128, 1));
    }
    if k <= 1 {
        return Err(false);
    }
    assert(s.drop_first() =~= buf@.skip(pos + 1));
    assert(s[0] == b);
    match read_varint_at(buf, pos + 1, k - 1) {
        Ok((v, n)) => {
            let ghost p = pow128(n as nat);
            assert(p <= pow128(9)) by {
                lemma_pow128_mono(n as nat, 9);
            }
            assert(pow128(9) == 0x8000000000000000nat) by {
                reveal_with_fuel(pow128, 10);
            }
            assert(pow128((n + 1) as nat) == 128 * p);
            assert((b - 128) + 128 * v < 128 * p) by (nonlinear_arith)
                requires
                    v < p,
                    b - 128 < 128,
            ;
            let val: u128 = (b - 128) as u128 + 128 * v;
            Ok((val, n + 1))
        },
        Err(e) => Err(e),
    }
}

proof fn lemma_pow128_mono(a: nat, b: nat)
    requires
        a <= b,
    ensures
        pow128(a) <= pow128(b),
    decreases b,
{
    if a < b {
        lemma_pow128_mono(a, (b - 1) as nat);
    }
}

/// A varint read from `s` lies within `s` and takes at most ten bytes.
pub proof fn lemma_read_varint_fits(s: Seq<u8>)
    ensures
        read_varint(s) matches VarintRead::Value(v, n) ==> 1 <= n <= s.len() && n <= 10,
{
    lemma_read_within_fits(s, 10);
}

proof fn lemma_read_within_fits(s: Seq<u8>, k: nat)
    requires
        k >= 1,
    ensures
        read_varint_within(s, k) matches VarintRead::Value(v, n) ==> 1 <= n
            <= s.len() && n <= k,
    decreases k,
{
    if s.len() > 0 && s[0] >= 128 && k > 1 {
        lemma_read_within_fits(s.drop_first(), (k - 1) as nat);
    }
}

/// Reads a varint at `pos`: its value and its length in bytes, or whether the
/// bytes end first (`Err(true)`) or the varint is malformed (`Err(false)`).
pub fn decode_varint(buf: &[u8], pos: usize) -> (r: Result<(u64, usize), bool>)
    requires
        pos <= buf@.len(),
    ensures
        match read_varint(buf@.skip(pos as int)) {
            VarintRead::Value(v, n) => r == Ok::<(u64, usize), bool>((v as u64, n as usize)) && 1
                <= n <= 10 && pos + n <= buf@.len(),
            VarintRead::Truncated => r == Err::<(u64, usize), bool>(true),
            VarintRead::Malformed => r == Err::<(u64, usize), bool>(false),
        },
{
    proof {
        lemma_read_varint_fits(buf@.skip(pos as int));
    }
    let r = read_varint_at(buf, pos, 10);
    match r {
        Ok((v, n)) => {
            proof {
                lemma_pow128_mono(n as nat, 10);
                reveal_with_fuel(pow128, 11);
                assert(pow128(10) == 0x400000000000000000nat);
            }
            if v > u64::MAX as u128 {
                Err(false)
            } else {
                Ok((v as u64, n))
            }
        },
        Err(e) => Err(e),
    }
}

/// A varint read from `s` reads the same when more bytes follow.
pub proof fn lemma_read_varint_extend(s: Seq<u8>, t: Seq<u8>)
    ensures
        read_varint(s) matches VarintRead::Value(v, n) ==> read_varint(s + t) == read_varint(s),
{
    lemma_read_within_extend(s, t, 10);
}

proof fn lemma_read_within_extend(s: Seq<u8>, t: Seq<u8>, k: nat)
    ensures
        read_varint_within(s, k) matches VarintRead::Value(v, n) ==> read_varint_within(s + t, k)
            == read_varint_within(s, k),
    decreases k,
{
    if s.len() > 0 && s[0] >= 128 && k > 1 {
        lemma_read_within_extend(s.drop_first(), t, (k - 1) as nat);
        assert((s + t).drop_first() =~= s.drop_first() + t);
    }
}

/// Cutting the bytes inside a varint leaves it truncated; cutting after it
/// leaves it as it was.
pub proof fn lemma_read_varint_cut(s: Seq<u8>, j: int)
    requires
        read_varint(s) is Value,
        0 <= j <= s.len(),
    ensures
        j < read_varint(s)->0_1 ==> read_varint(s.take(j)) == VarintRead::Truncated,
        j >= read_varint(s)->0_1 ==> read_varint(s.take(j)) == read_varint(s),
{
    lemma_read_within_cut(s, j, 10);
}

proof fn lemma_read_within_cut(s: Seq<u8>, j: int, k: nat)
    requires
        read_varint_within(s, k) is Value,
        0 <= j <= s.len(),
    ensures
        j < read_varint_within(s, k)->0_1 ==> read_varint_within(s.take(j), k)
            == VarintRead::Truncated,
        j >= read_varint_within(s, k)->0_1 ==> read_varint_within(s.take(j), k)
            == read_varint_within(s, k),
    decreases k,
{
    if j > 0 && s[0] >= 128 && k > 1 {
        lemma_read_within_cut(s.drop_first(), j - 1, (k - 1) as nat);
        assert(s.take(j).drop_first() =~= s.drop_first().take(j - 1));
    }
}

} // verus!
