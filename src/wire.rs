use vstd::prelude::*;
use vstd::utf8::{decode_utf8, encode_utf8, valid_utf8};

use crate::varint::{
    decode_varint, lemma_read_varint_cut, lemma_read_varint_extend, lemma_read_varint_fits, lemma_read_varint_bytes, lemma_varint_bytes_len, lemma_varint_len_u64,
    push_varint, read_varint, varint_bytes, varint_len, varint_size, VarintRead,
};

verus! {

/// Why a byte sequence could not be decoded.
#[derive(Debug, PartialEq, Eq)]
pub enum DecodeError {
    /// The bytes end inside a field.
    TruncatedInput,
    /// A varint runs past ten bytes or past 64 bits.
    MalformedVarint,
    /// A tag has field number zero, does not fit 32 bits, or has wire type 6
    /// or 7; or an end-group tag closes no open group, or another one.
    InvalidTag,
    /// A string field does not hold UTF-8.
    InvalidUtf8,
    /// An embedded message in field `field` could not be decoded.
    NestedDecodeFailure { field: u32, cause: Box<DecodeError> },
}

/// One field read from the front of a byte sequence: its tag, its payload, and
/// how many bytes it took in all.
pub struct FieldSpec {
    pub tag: nat,
    pub payload: Seq<u8>,
    pub len: nat,
}

/// The wire type of a tag: its three low bits.
pub open spec fn wire_type(tag: nat) -> nat {
    tag % 8
}

/// Reads the payload that follows a tag of wire type `wt`; `Ok` holds the payload
/// and the number of bytes it took, its length prefix included.
pub open spec fn read_payload(s: Seq<u8>, wt: nat) -> Result<(Seq<u8>, nat), DecodeError> {
    if wt == 0 {
        match read_varint(s) {
            VarintRead::Value(_, m) => Ok((s.take(m as int), m)),
            VarintRead::Truncated => Err(DecodeError::TruncatedInput),
            VarintRead::Malformed => Err(DecodeError::MalformedVarint),
        }
    } else if wt == 1 || wt == 5 {
        let w: nat = if wt == 1 {
            8
        } else {
            4
        };
        if s.len() < w {
            Err(DecodeError::TruncatedInput)
        } else {
            Ok((s.take(w as int), w))
        }
    } else if wt == 2 {
        match read_varint(s) {
            VarintRead::Value(l, m) => if m + l > s.len() {
                Err(DecodeError::TruncatedInput)
            } else {
                Ok((s.subrange(m as int, (m + l) as int), m + l))
            },
            VarintRead::Truncated => Err(DecodeError::TruncatedInput),
            VarintRead::Malformed => Err(DecodeError::MalformedVarint),
        }
    } else {
        Err(DecodeError::InvalidTag)
    }
}

/// `r` with `k` more bytes counted.
pub open spec fn after(k: nat, r: Result<nat, DecodeError>) -> Result<nat, DecodeError> {
    match r {
        Ok(x) => Ok(k + x),
        Err(e) => Err(e),
    }
}

/// Number of bytes of `s` up to and including the end-group tag that closes the
/// outermost of the groups `open` (field numbers, innermost last); fields inside
/// may be groups themselves.
#[verifier::opaque]
pub open spec fn group_len(s: Seq<u8>, open: Seq<u32>) -> Result<nat, DecodeError>
    decreases s.len(),
{
    match read_varint(s) {
        VarintRead::Value(tag, n) => if tag > u32::MAX || tag < 8 {
            Err(DecodeError::InvalidTag)
        } else if n == 0 || n > s.len() {
            Err(DecodeError::TruncatedInput)
        } else if wire_type(tag) == 4 {
            if open.len() == 0 || tag / 8 != open.last() as nat {
                Err(DecodeError::InvalidTag)
            } else if open.len() == 1 {
                Ok(n)
            } else {
                after(n, group_len(s.skip(n as int), open.drop_last()))
            }
        } else if wire_type(tag) == 3 {
            after(n, group_len(s.skip(n as int), open.push((tag / 8) as u32)))
        } else {
            match read_payload(s.skip(n as int), wire_type(tag)) {
                Ok((_, m)) => if n + m > s.len() {
                    Err(DecodeError::TruncatedInput)
                } else {
                    after(n + m, group_len(s.skip((n + m) as int), open))
                },
                Err(e) => Err(e),
            }
        },
        VarintRead::Truncated => Err(DecodeError::TruncatedInput),
        VarintRead::Malformed => Err(DecodeError::MalformedVarint),
    }
}

/// Reads one field (tag, then payload) from the front of `s`. A group's
/// payload runs through its end-group tag.
pub open spec fn parse_field(s: Seq<u8>) -> Result<FieldSpec, DecodeError> {
    match read_varint(s) {
        VarintRead::Value(tag, n) => if tag > u32::MAX || tag < 8 {
            Err(DecodeError::InvalidTag)
        } else if wire_type(tag) == 3 {
            match group_len(s.skip(n as int), seq![(tag / 8) as u32]) {
                Ok(m) => Ok(FieldSpec { tag, payload: s.skip(n as int).take(m as int), len: n + m }),
                Err(e) => Err(e),
            }
        } else {
            match read_payload(s.skip(n as int), wire_type(tag)) {
                Ok((payload, m)) => Ok(FieldSpec { tag, payload, len: n + m }),
                Err(e) => Err(e),
            }
        },
        VarintRead::Truncated => Err(DecodeError::TruncatedInput),
        VarintRead::Malformed => Err(DecodeError::MalformedVarint),
    }
}

/// A length-delimited field: tag, byte count, bytes.
pub open spec fn delimited(tag: nat, payload: Seq<u8>) -> Seq<u8> {
    varint_bytes(tag) + varint_bytes(payload.len()) + payload
}

/// A string field as written: nothing for the empty string, else its UTF-8
/// bytes, delimited.
pub open spec fn string_field(tag: nat, s: Seq<char>) -> Seq<u8> {
    if s.len() == 0 {
        Seq::empty()
    } else {
        delimited(tag, encode_utf8(s))
    }
}

/// Where a field read by [`read_field`] lies in the buffer.
pub struct FieldAt {
    pub tag: u32,
    pub start: usize,
    pub end: usize,
    pub next: usize,
}

/// Reads the payload of wire type `wt` that starts at `p`: where its bytes lie,
/// the last of them ending the field.
fn read_payload_at(buf: &[u8], p: usize, wt: u64) -> (r: Result<(usize, usize), DecodeError>)
    requires
        p <= buf@.len(),
    ensures
        match read_payload(buf@.skip(p as int), wt as nat) {
            Ok((payload, m)) => r matches Ok((start, end)) && p <= start <= end && end == p + m
                && end <= buf@.len() && buf@.subrange(start as int, end as int) == payload,
            Err(e) => r == Err::<(usize, usize), DecodeError>(e),
        },
{
    let ghost rest = buf@.skip(p as int);
    let len = buf.len();
    if wt == 0 {
        match decode_varint(buf, p) {
            Ok((_, m)) => {
                assert(buf@.subrange(p as int, (p + m) as int) =~= rest.take(m as int));
                Ok((p, p + m))
            },
            Err(true) => Err(DecodeError::TruncatedInput),
            Err(false) => Err(DecodeError::MalformedVarint),
        }
    } else if wt == 1 || wt == 5 {
        let w: usize = if wt == 1 {
            8
        } else {
            4
        };
        if buf.len() - p < w {
            Err(DecodeError::TruncatedInput)
        } else {
            assert(buf@.subrange(p as int, (p + w) as int) =~= rest.take(w as int));
            Ok((p, p + w))
        }
    } else if wt == 2 {
        match decode_varint(buf, p) {
            Ok((l, m)) => {
                let q = p + m;
                if l > (buf.len() - q) as u64 {
                    Err(DecodeError::TruncatedInput)
                } else {
                    let e = q + l as usize;
                    assert(buf@.subrange(q as int, e as int) =~= rest.subrange(
                        m as int,
                        (m + l) as int,
                    ));
                    Ok((q, e))
                }
            },
            Err(true) => Err(DecodeError::TruncatedInput),
            Err(false) => Err(DecodeError::MalformedVarint),
        }
    } else {
        Err(DecodeError::InvalidTag)
    }
}

/// Skips the body of a group of field `field` that starts at `p`, through its
/// end-group tag; returns where the group ends.
fn skip_group(buf: &[u8], p: usize, field: u32) -> (r: Result<usize, DecodeError>)
    requires
        p <= buf@.len(),
    ensures
        match group_len(buf@.skip(p as int), seq![field]) {
            Ok(m) => r == Ok::<usize, DecodeError>((p + m) as usize) && p + m <= buf@.len(),
            Err(e) => r == Err::<usize, DecodeError>(e),
        },
{
    let len = buf.len();
    let mut open: Vec<u32> = Vec::new();
    open.push(field);
    assert(open@ =~= seq![field]);
    let mut q = p;
    loop
        invariant
            p <= q <= len == buf@.len(),
            open@.len() >= 1,
            group_len(buf@.skip(p as int), seq![field]) == after(
                (q - p) as nat,
                group_len(buf@.skip(q as int), open@),
            ),
        decreases len - q,
    {
        proof {
            reveal(group_len);
        }
        let ghost s = buf@.skip(q as int);
        let (tag, n) = match decode_varint(buf, q) {
            Ok((tag, n)) => (tag, n),
            Err(true) => return Err(DecodeError::TruncatedInput),
            Err(false) => return Err(DecodeError::MalformedVarint),
        };
        assert(read_varint(s) matches VarintRead::Value(t, k) && t == tag && k == n);
        if tag > u32::MAX as u64 || tag < 8 {
            return Err(DecodeError::InvalidTag);
        }
        let fno = (tag / 8) as u32;
        let wt = tag % 8;
        assert(s.skip(n as int) =~= buf@.skip((q + n) as int));
        if wt == 4 {
            let top = open[open.len() - 1];
            if top != fno {
                return Err(DecodeError::InvalidTag);
            }
            if open.len() == 1 {
                return Ok(q + n);
            }
            let ghost before = open@;
            open.pop();
            assert(open@ =~= before.drop_last());
            q = q + n;
        } else if wt == 3 {
            open.push(fno);
            q = q + n;
        } else {
            let (_, end) = match read_payload_at(buf, q + n, wt) {
                Ok(x) => x,
                Err(e) => return Err(e),
            };
            assert(s.skip((end - q) as int) =~= buf@.skip(end as int));
            q = end;
        }
    }
}

/// Reads the field that starts at `pos`.
pub fn read_field(buf: &[u8], pos: usize) -> (r: Result<FieldAt, DecodeError>)
    requires
        pos <= buf@.len(),
    ensures
        match parse_field(buf@.skip(pos as int)) {
            Ok(f) => r matches Ok(a) && a.tag as nat == f.tag && pos < a.next && a.start <= a.end
                <= a.next <= buf@.len() && buf@.subrange(a.start as int, a.end as int) == f.payload
                && a.next - pos == f.len,
            Err(e) => r == Err::<FieldAt, DecodeError>(e),
        },
{
    let ghost s = buf@.skip(pos as int);
    let first = decode_varint(buf, pos);
    let (tag, n) = match first {
        Ok((tag, n)) => (tag, n),
        Err(true) => return Err(DecodeError::TruncatedInput),
        Err(false) => return Err(DecodeError::MalformedVarint),
    };
    assert(read_varint(s) matches VarintRead::Value(t, k) && t == tag && k == n);
    if tag > u32::MAX as u64 || tag < 8 {
        return Err(DecodeError::InvalidTag);
    }
    let len = buf.len();
    let p = pos + n;
    let ghost rest = s.skip(n as int);
    assert(rest =~= buf@.skip(p as int));
    let wt = tag % 8;
    if wt == 3 {
        let end = match skip_group(buf, p, (tag / 8) as u32) {
            Ok(e) => e,
            Err(e) => return Err(e),
        };
        assert(buf@.subrange(p as int, end as int) =~= rest.take((end - p) as int));
        Ok(FieldAt { tag: tag as u32, start: p, end, next: end })
    } else {
        match read_payload_at(buf, p, wt) {
            Ok((start, end)) => Ok(FieldAt { tag: tag as u32, start, end, next: end }),
            Err(e) => Err(e),
        }
    }
}

/// Relies on String::from_utf8: it succeeds exactly when the bytes are valid
/// UTF-8, and the string then holds the characters that they encode.
#[verifier::external_body]
fn string_from_utf8(bytes: Vec<u8>) -> (r: Option<String>)
    ensures
        r.is_some() <==> valid_utf8(bytes@),
        r matches Some(s) ==> s@ == decode_utf8(bytes@),
{
    String::from_utf8(bytes).ok()
}

/// Appends `src` to `out`.
pub fn push_bytes(out: &mut Vec<u8>, src: &[u8])
    ensures
        final(out)@ == old(out)@ + src@,
{
    let mut i: usize = 0;
    while i < src.len()
        invariant
            i <= src@.len(),
            out@ == old(out)@ + src@.take(i as int),
        decreases src@.len() - i,
    {
        out.push(src[i]);
        i = i + 1;
        assert(out@ =~= old(out)@ + src@.take(i as int));
    }
    assert(src@.take(i as int) =~= src@);
}

/// The string held by `buf[start..end]`, or `InvalidUtf8`.
pub fn read_string(buf: &[u8], start: usize, end: usize) -> (r: Result<String, DecodeError>)
    requires
        start <= end <= buf@.len(),
    ensures
        ({
            let b = buf@.subrange(start as int, end as int);
            &&& r matches Ok(s) ==> valid_utf8(b) && s@ == decode_utf8(b)
            &&& r matches Err(e) ==> !valid_utf8(b) && e == DecodeError::InvalidUtf8
        }),
        r.is_ok() <==> valid_utf8(buf@.subrange(start as int, end as int)),
{
    let mut bytes: Vec<u8> = Vec::new();
    push_bytes(&mut bytes, &buf[start..end]);
    match string_from_utf8(bytes) {
        Some(s) => Ok(s),
        None => Err(DecodeError::InvalidUtf8),
    }
}

/// Appends `s` as a string field under `tag`, or nothing when `s` is empty.
pub fn write_string_field(out: &mut Vec<u8>, tag: u64, s: &String)
    ensures
        final(out)@ == old(out)@ + string_field(tag as nat, s@),
{
    if s.as_str().is_empty() {
        assert(old(out)@ =~= old(out)@ + string_field(tag as nat, s@));
        return;
    }
    let bytes = s.as_str().as_bytes();
    push_varint(out, tag);
    push_varint(out, bytes.len() as u64);
    push_bytes(out, bytes);
    assert(out@ =~= old(out)@ + string_field(tag as nat, s@));
}

/// Size of a string field under a one-byte tag, as [`write_string_field`] writes it.
pub fn string_field_size(s: &String) -> (r: u64)
    requires
        string_field(10, s@).len() <= u64::MAX,
    ensures
        r as nat == string_field(10, s@).len(),
        r as nat == string_field(18, s@).len(),
{
    if s.as_str().is_empty() {
        return 0;
    }
    let n = s.as_str().as_bytes().len();
    proof {
        lemma_varint_len_u64(n as nat);
        lemma_varint_bytes_len(n as nat);
        lemma_varint_bytes_len(10);
        lemma_varint_bytes_len(18);
        reveal_with_fuel(varint_len, 2);
    }
    let k = varint_size(n as u64);
    1 + k + n as u64
}

/// A length-delimited field is read back whole, whatever follows it.
pub proof fn lemma_parse_delimited(tag: nat, payload: Seq<u8>, rest: Seq<u8>)
    requires
        8 <= tag <= u32::MAX,
        wire_type(tag) == 2,
        payload.len() <= u64::MAX,
    ensures
        parse_field(delimited(tag, payload) + rest) == Ok::<FieldSpec, DecodeError>(
            FieldSpec { tag, payload, len: delimited(tag, payload).len() },
        ),
        delimited(tag, payload).len() > 0,
{
    let s = delimited(tag, payload) + rest;
    let lt = varint_bytes(tag);
    let ll = varint_bytes(payload.len());
    lemma_varint_bytes_len(tag);
    lemma_varint_bytes_len(payload.len());
    assert(s =~= lt + (ll + payload + rest));
    lemma_read_varint_bytes(tag, ll + payload + rest);
    let after = s.skip(lt.len() as int);
    assert(after =~= ll + (payload + rest));
    lemma_read_varint_bytes(payload.len(), payload + rest);
    assert(after.subrange(ll.len() as int, (ll.len() + payload.len()) as int) =~= payload);
}

proof fn lemma_read_payload_extend(r: Seq<u8>, b: Seq<u8>, wt: nat)
    requires
        read_payload(r, wt) is Ok,
    ensures
        read_payload(r + b, wt) == read_payload(r, wt),
        read_payload(r, wt)->Ok_0.1 <= r.len(),
{
    lemma_read_varint_fits(r);
    lemma_read_varint_extend(r, b);
    if wt == 0 {
        assert((r + b).take(read_varint(r)->1 as int) =~= r.take(read_varint(r)->1 as int));
    } else if wt == 1 || wt == 5 {
        if r.len() >= 8 {
            assert((r + b).take(8) =~= r.take(8));
        }
        if r.len() >= 4 {
            assert((r + b).take(4) =~= r.take(4));
        }
    } else if wt == 2 {
        if let VarintRead::Value(l, m) = read_varint(r) {
            assert((r + b).subrange(m as int, (m + l) as int) =~= r.subrange(
                m as int,
                (m + l) as int,
            ));
        }
    }
}

proof fn lemma_group_len_extend(s: Seq<u8>, b: Seq<u8>, open: Seq<u32>)
    requires
        group_len(s, open) is Ok,
    ensures
        group_len(s + b, open) == group_len(s, open),
        0 < group_len(s, open)->Ok_0 <= s.len(),
    decreases s.len(),
{
    reveal(group_len);
    lemma_read_varint_fits(s);
    lemma_read_varint_extend(s, b);
    let tag = read_varint(s)->0_0;
    let n = read_varint(s)->0_1;
    assert((s + b).skip(n as int) =~= s.skip(n as int) + b);
    if wire_type(tag) == 4 {
        if open.len() > 1 {
            lemma_group_len_extend(s.skip(n as int), b, open.drop_last());
        }
    } else if wire_type(tag) == 3 {
        lemma_group_len_extend(s.skip(n as int), b, open.push((tag / 8) as u32));
    } else {
        lemma_read_payload_extend(s.skip(n as int), b, wire_type(tag));
        let m = read_payload(s.skip(n as int), wire_type(tag))->Ok_0.1;
        assert((s + b).skip((n + m) as int) =~= s.skip((n + m) as int) + b);
        lemma_group_len_extend(s.skip((n + m) as int), b, open);
    }
}

/// A field read from `a` reads the same when more bytes follow, and lies
/// within `a`.
pub proof fn lemma_parse_field_extends(a: Seq<u8>, b: Seq<u8>)
    requires
        parse_field(a) is Ok,
    ensures
        parse_field(a + b) == parse_field(a),
        0 < parse_field(a)->Ok_0.len <= a.len(),
{
    lemma_read_varint_fits(a);
    lemma_read_varint_extend(a, b);
    let tag = read_varint(a)->0_0;
    let n = read_varint(a)->0_1;
    let r = a.skip(n as int);
    assert((a + b).skip(n as int) =~= r + b);
    if wire_type(tag) == 3 {
        let open = seq![(tag / 8) as u32];
        lemma_group_len_extend(r, b, open);
        let m = group_len(r, open)->Ok_0;
        assert((r + b).take(m as int) =~= r.take(m as int));
    } else {
        lemma_read_payload_extend(r, b, wire_type(tag));
    }
}

/// Whether `k` bytes into `s` fall between two whole fields (or at the start).
pub open spec fn field_boundary(s: Seq<u8>, k: int) -> bool
    decreases s.len(),
{
    if k == 0 {
        true
    } else {
        match parse_field(s) {
            Ok(f) => 0 < f.len <= s.len() && k >= f.len && field_boundary(
                s.skip(f.len as int),
                k - f.len,
            ),
            Err(_) => false,
        }
    }
}

proof fn lemma_read_payload_cut(r: Seq<u8>, j: int, wt: nat)
    requires
        read_payload(r, wt) is Ok,
        0 <= j <= r.len(),
    ensures
        j < read_payload(r, wt)->Ok_0.1 ==> read_payload(r.take(j), wt) == Err::<
            (Seq<u8>, nat),
            DecodeError,
        >(DecodeError::TruncatedInput),
        j >= read_payload(r, wt)->Ok_0.1 ==> read_payload(r.take(j), wt) == read_payload(r, wt),
{
    let rt = r.take(j);
    if wt == 0 || wt == 2 {
        lemma_read_varint_cut(r, j);
        lemma_read_varint_fits(r);
        if wt == 0 {
            let m = read_varint(r)->0_1;
            if j >= m {
                assert(rt.take(m as int) =~= r.take(m as int));
            }
        } else {
            let l = read_varint(r)->0_0;
            let m = read_varint(r)->0_1;
            if j >= m + l {
                assert(rt.subrange(m as int, (m + l) as int) =~= r.subrange(
                    m as int,
                    (m + l) as int,
                ));
            }
        }
    } else if wt == 1 || wt == 5 {
        let w: int = if wt == 1 {
            8
        } else {
            4
        };
        if j >= w {
            assert(rt.take(w) =~= r.take(w));
        }
    }
}

proof fn lemma_group_len_cut(s: Seq<u8>, j: int, open: Seq<u32>)
    requires
        group_len(s, open) is Ok,
        0 <= j <= s.len(),
    ensures
        j < group_len(s, open)->Ok_0 ==> group_len(s.take(j), open) == Err::<nat, DecodeError>(
            DecodeError::TruncatedInput,
        ),
        j >= group_len(s, open)->Ok_0 ==> group_len(s.take(j), open) == group_len(s, open),
    decreases s.len(),
{
    reveal(group_len);
    let t = s.take(j);
    lemma_read_varint_cut(s, j);
    lemma_read_varint_fits(s);
    let tag = read_varint(s)->0_0;
    let n = read_varint(s)->0_1;
    if j >= n {
        assert(t.skip(n as int) =~= s.skip(n as int).take(j - n));
        if wire_type(tag) == 4 {
            if open.len() > 1 {
                lemma_group_len_cut(s.skip(n as int), j - n, open.drop_last());
            }
        } else if wire_type(tag) == 3 {
            lemma_group_len_cut(s.skip(n as int), j - n, open.push((tag / 8) as u32));
        } else {
            lemma_read_payload_cut(s.skip(n as int), j - n, wire_type(tag));
            lemma_read_payload_extend(s.skip(n as int), Seq::empty(), wire_type(tag));
            let m = read_payload(s.skip(n as int), wire_type(tag))->Ok_0.1;
            if j >= n + m {
                assert(t.skip((n + m) as int) =~= s.skip((n + m) as int).take(j - n - m));
                lemma_group_len_cut(s.skip((n + m) as int), j - n - m, open);
            }
        }
    }
}

/// Cutting the bytes inside a field leaves it truncated; cutting after it
/// leaves it as it was.
pub proof fn lemma_parse_field_cut(s: Seq<u8>, j: int)
    requires
        parse_field(s) is Ok,
        0 < j <= s.len(),
    ensures
        j < parse_field(s)->Ok_0.len ==> parse_field(s.take(j)) == Err::<FieldSpec, DecodeError>(
            DecodeError::TruncatedInput,
        ),
        j >= parse_field(s)->Ok_0.len ==> parse_field(s.take(j)) == parse_field(s),
{
    let t = s.take(j);
    lemma_read_varint_cut(s, j);
    lemma_read_varint_fits(s);
    let tag = read_varint(s)->0_0;
    let n = read_varint(s)->0_1;
    if j >= n {
        let r = s.skip(n as int);
        let rt = t.skip(n as int);
        assert(rt =~= r.take(j - n));
        if wire_type(tag) == 3 {
            let open = seq![(tag / 8) as u32];
            lemma_group_len_cut(r, j - n, open);
            let m = group_len(r, open)->Ok_0;
            if j - n >= m {
                assert(rt.take(m as int) =~= r.take(m as int));
            }
        } else {
            lemma_read_payload_cut(r, j - n, wire_type(tag));
        }
    }
}

} // verus!
