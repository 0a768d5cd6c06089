use vstd::prelude::*;
use vstd::utf8::{decode_utf8, encode_utf8, valid_utf8};

use crate::coin::{
    coin_bytes, lemma_coin_round_trip, lemma_only_unknown_concat, only_unknown,
    parse_coin, valid_coin, Coin, CoinView,
};
use crate::varint::{lemma_varint_bytes_len, push_varint, varint_len, varint_size};
use crate::wire::{
    delimited, field_boundary, lemma_parse_field_cut, lemma_parse_delimited, lemma_parse_field_extends, parse_field, push_bytes,
    read_field, read_string, string_field, string_field_size, write_string_field, DecodeError,
    FieldSpec,
};

verus! {

/// The type URL under which a [`MsgSend`] travels in an [`Any`] envelope.
pub open spec fn msg_send_type_url() -> Seq<char> {
    "/cosmos.bank.v1beta1.MsgSend"@
}

/// A transfer of the listed coins from one account to another.
#[derive(Clone, Debug)]
pub struct MsgSend {
    pub from_address: String,
    pub to_address: String,
    pub amount: Vec<Coin>,
    /// Fields of other numbers met while decoding, kept byte for byte.
    pub unknown_fields: Vec<u8>,
}

/// What a [`MsgSend`] holds.
pub struct MsgSendView {
    pub from_address: Seq<char>,
    pub to_address: Seq<char>,
    pub amount: Seq<CoinView>,
    pub unknown: Seq<u8>,
}

impl View for MsgSend {
    type V = MsgSendView;

    open spec fn view(&self) -> MsgSendView {
        MsgSendView {
            from_address: self.from_address@,
            to_address: self.to_address@,
            amount: self.amount@.map_values(|c: Coin| c@),
            unknown: self.unknown_fields@,
        }
    }
}

/// A message of a type named by `type_url`, encoded in `value`.
#[derive(Clone, Debug)]
pub struct Any {
    pub type_url: String,
    pub value: Vec<u8>,
}

/// The message with every field at its default.
pub open spec fn empty_msg_send() -> MsgSendView {
    MsgSendView {
        from_address: Seq::empty(),
        to_address: Seq::empty(),
        amount: Seq::empty(),
        unknown: Seq::empty(),
    }
}

/// The coins as written: each one delimited under field 3, in order.
pub open spec fn coins_bytes(cs: Seq<CoinView>) -> Seq<u8>
    decreases cs.len(),
{
    if cs.len() == 0 {
        Seq::empty()
    } else {
        delimited(26, coin_bytes(cs[0])) + coins_bytes(cs.drop_first())
    }
}

/// The encoding of a message: the two addresses as fields 1 and 2 (left out
/// when empty), each coin as field 3, then the kept bytes.
pub open spec fn msg_send_bytes(m: MsgSendView) -> Seq<u8> {
    string_field(10, m.from_address) + string_field(18, m.to_address) + coins_bytes(m.amount)
        + m.unknown
}

/// A message that can be written and read back: each string's bytes and each
/// coin's encoding can be counted in 64 bits, each coin is valid, and the kept
/// bytes are whole fields of other numbers.
pub open spec fn valid_msg_send(m: MsgSendView) -> bool {
    &&& encode_utf8(m.from_address).len() <= u64::MAX
    &&& encode_utf8(m.to_address).len() <= u64::MAX
    &&& forall|i: int|
        0 <= i < m.amount.len() ==> valid_coin(#[trigger] m.amount[i]) && coin_bytes(
            m.amount[i],
        ).len() <= u64::MAX
    &&& only_unknown(m.unknown, 3)
}

/// The message after one more field has been read; `raw` is the whole field.
pub open spec fn msg_send_apply(acc: MsgSendView, f: FieldSpec, raw: Seq<u8>) -> Result<
    MsgSendView,
    DecodeError,
> {
    if f.tag == 10 || f.tag == 18 {
        if !valid_utf8(f.payload) {
            Err(DecodeError::InvalidUtf8)
        } else if f.tag == 10 {
            Ok(MsgSendView { from_address: decode_utf8(f.payload), ..acc })
        } else {
            Ok(MsgSendView { to_address: decode_utf8(f.payload), ..acc })
        }
    } else if f.tag == 26 {
        match parse_coin(f.payload) {
            Ok(c) => Ok(MsgSendView { amount: acc.amount.push(c), ..acc }),
            Err(e) => Err(DecodeError::NestedDecodeFailure { field: 3, cause: Box::new(e) }),
        }
    } else {
        Ok(MsgSendView { unknown: acc.unknown + raw, ..acc })
    }
}

/// Reads the fields of `s` in order into `acc`.
pub open spec fn parse_msg_send_fields(s: Seq<u8>, acc: MsgSendView) -> Result<
    MsgSendView,
    DecodeError,
>
    decreases s.len(),
{
    if s.len() == 0 {
        Ok(acc)
    } else {
        match parse_field(s) {
            Ok(f) => if 0 < f.len <= s.len() {
                match msg_send_apply(acc, f, s.take(f.len as int)) {
                    Ok(next) => parse_msg_send_fields(s.skip(f.len as int), next),
                    Err(e) => Err(e),
                }
            } else {
                Err(DecodeError::TruncatedInput)
            },
            Err(e) => Err(e),
        }
    }
}

/// The message that `s` decodes to.
pub open spec fn parse_msg_send(s: Seq<u8>) -> Result<MsgSendView, DecodeError> {
    parse_msg_send_fields(s, empty_msg_send())
}

/// Writing one more coin adds its delimited encoding at the end.
pub proof fn lemma_coins_bytes_push(cs: Seq<CoinView>, c: CoinView)
    ensures
        coins_bytes(cs.push(c)) == coins_bytes(cs) + delimited(26, coin_bytes(c)),
    decreases cs.len(),
{
    if cs.len() == 0 {
        assert(cs.push(c).drop_first() =~= Seq::<CoinView>::empty());
        assert(cs.push(c)[0] == c);
        assert(coins_bytes(cs.push(c).drop_first()) == Seq::<u8>::empty());
        assert(coins_bytes(cs.push(c)) =~= coins_bytes(cs) + delimited(26, coin_bytes(c)));
    } else {
        lemma_coins_bytes_push(cs.drop_first(), c);
        assert(cs.push(c).drop_first() =~= cs.drop_first().push(c));
        assert(coins_bytes(cs.push(c)) =~= coins_bytes(cs) + delimited(26, coin_bytes(c)));
    }
}

proof fn lemma_coins_prefix_len(cs: Seq<CoinView>, i: int)
    requires
        0 <= i <= cs.len(),
    ensures
        coins_bytes(cs.take(i)).len() <= coins_bytes(cs).len(),
    decreases cs.len() - i,
{
    if i == cs.len() {
        assert(cs.take(i) =~= cs);
    } else {
        lemma_coins_prefix_len(cs, i + 1);
        lemma_coins_bytes_push(cs.take(i), cs[i]);
        assert(cs.take(i + 1) =~= cs.take(i).push(cs[i]));
    }
}

impl MsgSend {
    /// A message with empty addresses and no coins.
    pub fn new() -> (r: MsgSend)
        ensures
            r@ == empty_msg_send(),
    {
        let r = MsgSend {
            from_address: String::new(),
            to_address: String::new(),
            amount: Vec::new(),
            unknown_fields: Vec::new(),
        };
        assert(r@.amount =~= Seq::<CoinView>::empty());
        r
    }

    /// Always true: no field of the message is required.
    pub fn is_initialized(&self) -> (r: bool)
        ensures
            r,
    {
        true
    }

    /// The bytes kept from fields of other numbers.
    pub fn unknown_fields(&self) -> (r: &Vec<u8>)
        ensures
            r@ == self@.unknown,
    {
        &self.unknown_fields
    }

    /// Resets every field to its default.
    pub fn clear(&mut self)
        ensures
            final(self)@ == empty_msg_send(),
    {
        self.from_address = String::new();
        self.to_address = String::new();
        self.amount = Vec::new();
        self.unknown_fields = Vec::new();
        assert(self@.amount =~= Seq::<CoinView>::empty());
    }

    /// Number of bytes that [`MsgSend::write_to_bytes`] produces.
    pub fn compute_size(&self) -> (r: u64)
        requires
            msg_send_bytes(self@).len() <= u64::MAX,
        ensures
            r as nat == msg_send_bytes(self@).len(),
    {
        let ghost m = self@;
        let ghost head = string_field(10, m.from_address) + string_field(18, m.to_address);
        let mut size: u64 = string_field_size(&self.from_address);
        size = size + string_field_size(&self.to_address);
        let mut i: usize = 0;
        assert(m.amount.take(0) =~= Seq::<CoinView>::empty());
        while i < self.amount.len()
            invariant
                i <= self.amount@.len() == m.amount.len(),
                m == self@,
                msg_send_bytes(m).len() <= u64::MAX,
                head == string_field(10, m.from_address) + string_field(18, m.to_address),
                size as nat == head.len() + coins_bytes(m.amount.take(i as int)).len(),
            decreases self.amount@.len() - i,
        {
            let ghost c = m.amount[i as int];
            proof {
                lemma_coins_bytes_push(m.amount.take(i as int), c);
                assert(m.amount.take(i + 1) =~= m.amount.take(i as int).push(c));
                lemma_coins_prefix_len(m.amount, i + 1);
                lemma_varint_bytes_len(26);
                lemma_varint_bytes_len(coin_bytes(c).len());
                reveal_with_fuel(varint_len, 2);
                assert(msg_send_bytes(m).len() == head.len() + coins_bytes(m.amount).len()
                    + m.unknown.len());
                assert(coins_bytes(m.amount.take(i + 1)).len() == coins_bytes(
                    m.amount.take(i as int),
                ).len() + 1 + varint_len(coin_bytes(c).len()) + coin_bytes(c).len());
            }
            let inner = self.amount[i].compute_size();
            let k = varint_size(inner);
            size = size + 1 + k + inner;
            i = i + 1;
        }
        assert(m.amount.take(i as int) =~= m.amount);
        size + self.unknown_fields.len() as u64
    }

    /// Appends the encoding of this message to `out`.
    pub fn write_to(&self, out: &mut Vec<u8>)
        ensures
            final(out)@ == old(out)@ + msg_send_bytes(self@),
    {
        let ghost m = self@;
        write_string_field(out, 10, &self.from_address);
        write_string_field(out, 18, &self.to_address);
        let ghost head = old(out)@ + string_field(10, m.from_address) + string_field(
            18,
            m.to_address,
        );
        let mut i: usize = 0;
        assert(m.amount.take(0) =~= Seq::<CoinView>::empty());
        assert(out@ =~= head + coins_bytes(m.amount.take(0)));
        while i < self.amount.len()
            invariant
                i <= self.amount@.len() == m.amount.len(),
                m == self@,
                out@ == head + coins_bytes(m.amount.take(i as int)),
            decreases self.amount@.len() - i,
        {
            let ghost c = m.amount[i as int];
            let mut inner: Vec<u8> = Vec::new();
            self.amount[i].write_to(&mut inner);
            assert(inner@ =~= coin_bytes(c));
            push_varint(out, 26);
            push_varint(out, inner.len() as u64);
            push_bytes(out, inner.as_slice());
            proof {
                lemma_coins_bytes_push(m.amount.take(i as int), c);
                assert(m.amount.take(i + 1) =~= m.amount.take(i as int).push(c));
            }
            assert(out@ =~= head + coins_bytes(m.amount.take(i + 1)));
            i = i + 1;
        }
        assert(m.amount.take(i as int) =~= m.amount);
        push_bytes(out, self.unknown_fields.as_slice());
        assert(out@ =~= old(out)@ + msg_send_bytes(m));
    }

    /// The encoding of this message.
    pub fn write_to_bytes(&self) -> (r: Vec<u8>)
        ensures
            r@ == msg_send_bytes(self@),
    {
        let mut out: Vec<u8> = Vec::new();
        self.write_to(&mut out);
        assert(out@ =~= msg_send_bytes(self@));
        out
    }

    /// This message encoded and tagged with its type URL.
    pub fn to_any(&self) -> (r: Any)
        ensures
            r.type_url@ == msg_send_type_url(),
            r.value@ == msg_send_bytes(self@),
    {
        Any { type_url: "/cosmos.bank.v1beta1.MsgSend".to_owned(), value: self.write_to_bytes() }
    }

    /// Decodes a message; on failure no message is returned.
    pub fn parse_from_bytes(buf: &[u8]) -> (r: Result<MsgSend, DecodeError>)
        ensures
            match parse_msg_send(buf@) {
                Ok(v) => r matches Ok(m) && m@ == v,
                Err(e) => r == Err::<MsgSend, DecodeError>(e),
            },
    {
        let mut m = MsgSend::new();
        let len = buf.len();
        let mut pos: usize = 0;
        assert(buf@.skip(0) =~= buf@);
        while pos < len
            invariant
                pos <= len == buf@.len(),
                parse_msg_send(buf@) == parse_msg_send_fields(buf@.skip(pos as int), m@),
            decreases len - pos,
        {
            let ghost s = buf@.skip(pos as int);
            let ghost before = m@;
            let f = match read_field(buf, pos) {
                Ok(f) => f,
                Err(e) => return Err(e),
            };
            let ghost fs = parse_field(s)->Ok_0;
            assert(s.take(fs.len as int) =~= buf@.subrange(pos as int, f.next as int));
            assert(s.skip(fs.len as int) =~= buf@.skip(f.next as int));
            if f.tag == 10 || f.tag == 18 {
                let text = match read_string(buf, f.start, f.end) {
                    Ok(t) => t,
                    Err(e) => return Err(e),
                };
                if f.tag == 10 {
                    m.from_address = text;
                } else {
                    m.to_address = text;
                }
                assert(m@.amount =~= before.amount);
            } else if f.tag == 26 {
                match Coin::parse_from_bytes(&buf[f.start..f.end]) {
                    Ok(c) => {
                        m.amount.push(c);
                        assert(m@.amount =~= before.amount.push(c@));
                    },
                    Err(e) => {
                        return Err(DecodeError::NestedDecodeFailure { field: 3, cause: Box::new(e) });
                    },
                }
            } else {
                push_bytes(&mut m.unknown_fields, &buf[pos..f.next]);
                assert(m@.amount =~= before.amount);
            }
            pos = f.next;
        }
        assert(buf@.skip(pos as int) =~= Seq::<u8>::empty());
        Ok(m)
    }
}

#[verifier::rlimit(80)]
proof fn lemma_unknown_msg_send_fields(u: Seq<u8>, acc: MsgSendView)
    requires
        only_unknown(u, 3),
    ensures
        parse_msg_send_fields(u, acc) == Ok::<MsgSendView, DecodeError>(
            MsgSendView { unknown: acc.unknown + u, ..acc },
        ),
    decreases u.len(),
{
    if u.len() == 0 {
        assert(acc.unknown + u =~= acc.unknown);
    } else {
        let f = parse_field(u)->Ok_0;
        let next = MsgSendView { unknown: acc.unknown + u.take(f.len as int), ..acc };
        lemma_unknown_msg_send_fields(u.skip(f.len as int), next);
        assert(next.unknown + u.skip(f.len as int) =~= acc.unknown + u);
    }
}

proof fn lemma_msg_send_string_step(tag: nat, text: Seq<char>, rest: Seq<u8>, acc: MsgSendView)
    requires
        tag == 10 || tag == 18,
        encode_utf8(text).len() <= u64::MAX,
    ensures
        parse_msg_send_fields(string_field(tag, text) + rest, acc) == parse_msg_send_fields(
            rest,
            if text.len() == 0 {
                acc
            } else if tag == 10 {
                MsgSendView { from_address: text, ..acc }
            } else {
                MsgSendView { to_address: text, ..acc }
            },
        ),
{
    let s = string_field(tag, text) + rest;
    if text.len() == 0 {
        assert(s =~= rest);
    } else {
        let p = encode_utf8(text);
        lemma_parse_delimited(tag, p, rest);
        vstd::utf8::encode_utf8_valid_utf8(text);
        vstd::utf8::encode_utf8_decode_utf8(text);
        let d = delimited(tag, p);
        assert(s.skip(d.len() as int) =~= rest);
    }
}

#[verifier::rlimit(80)]
proof fn lemma_coins_fields(cs: Seq<CoinView>, rest: Seq<u8>, acc: MsgSendView)
    requires
        forall|i: int|
            0 <= i < cs.len() ==> valid_coin(#[trigger] cs[i]) && coin_bytes(cs[i]).len()
                <= u64::MAX,
    ensures
        parse_msg_send_fields(coins_bytes(cs) + rest, acc) == parse_msg_send_fields(
            rest,
            MsgSendView { amount: acc.amount + cs, ..acc },
        ),
    decreases cs.len(),
{
    if cs.len() == 0 {
        assert(coins_bytes(cs) + rest =~= rest);
        assert(acc.amount + cs =~= acc.amount);
    } else {
        let c = cs[0];
        let tail = coins_bytes(cs.drop_first()) + rest;
        let d = delimited(26, coin_bytes(c));
        assert(coins_bytes(cs) + rest =~= d + tail);
        lemma_parse_delimited(26, coin_bytes(c), tail);
        lemma_coin_round_trip(c);
        assert((d + tail).skip(d.len() as int) =~= tail);
        let next = MsgSendView { amount: acc.amount.push(c), ..acc };
        assert forall|i: int| 0 <= i < cs.drop_first().len() implies valid_coin(
            #[trigger] cs.drop_first()[i],
        ) && coin_bytes(cs.drop_first()[i]).len() <= u64::MAX by {
            assert(cs.drop_first()[i] == cs[i + 1]);
        }
        lemma_coins_fields(cs.drop_first(), rest, next);
        assert(next.amount + cs.drop_first() =~= acc.amount + cs);
    }
}

/// Decoding the encoding of a valid message gives the message back, coins and
/// all.
pub proof fn lemma_msg_send_round_trip(m: MsgSendView)
    requires
        valid_msg_send(m),
    ensures
        parse_msg_send(msg_send_bytes(m)) == Ok::<MsgSendView, DecodeError>(m),
{
    let e = empty_msg_send();
    let after_to = coins_bytes(m.amount) + m.unknown;
    let after_from = string_field(18, m.to_address) + after_to;
    assert(msg_send_bytes(m) =~= string_field(10, m.from_address) + after_from);
    lemma_msg_send_string_step(10, m.from_address, after_from, e);
    assert(m.from_address.len() == 0 ==> m.from_address =~= Seq::<char>::empty());
    let acc1 = MsgSendView { from_address: m.from_address, ..e };
    lemma_msg_send_string_step(18, m.to_address, after_to, acc1);
    assert(m.to_address.len() == 0 ==> m.to_address =~= Seq::<char>::empty());
    let acc2 = MsgSendView { to_address: m.to_address, ..acc1 };
    lemma_coins_fields(m.amount, m.unknown, acc2);
    assert(acc2.amount + m.amount =~= m.amount);
    let acc3 = MsgSendView { amount: m.amount, ..acc2 };
    lemma_unknown_msg_send_fields(m.unknown, acc3);
    assert(acc3.unknown + m.unknown =~= m.unknown);
}

/// Fields of other numbers appended to a valid message's encoding are kept
/// through a decode, and written again, byte for byte, after the known fields.
pub proof fn lemma_msg_send_keeps_unknown(m: MsgSendView, extra: Seq<u8>)
    requires
        valid_msg_send(m),
        only_unknown(extra, 3),
    ensures
        parse_msg_send(msg_send_bytes(m) + extra) == Ok::<MsgSendView, DecodeError>(
            (MsgSendView { unknown: m.unknown + extra, ..m }),
        ),
        msg_send_bytes((MsgSendView { unknown: m.unknown + extra, ..m })) == msg_send_bytes(m)
            + extra,
{
    lemma_only_unknown_concat(m.unknown, extra, 3);
    let d = MsgSendView { unknown: m.unknown + extra, ..m };
    lemma_msg_send_round_trip(d);
    assert(msg_send_bytes(m) + extra =~= msg_send_bytes(d));
}

proof fn lemma_msg_send_fields_cut(s: Seq<u8>, k: int, acc: MsgSendView)
    requires
        parse_msg_send_fields(s, acc) is Ok,
        0 < k < s.len(),
        !field_boundary(s, k),
    ensures
        parse_msg_send_fields(s.take(k), acc) == Err::<MsgSendView, DecodeError>(
            DecodeError::TruncatedInput,
        ),
    decreases s.len(),
{
    let f = parse_field(s)->Ok_0;
    lemma_parse_field_cut(s, k);
    let t = s.take(k);
    if k >= f.len {
        assert(t.take(f.len as int) =~= s.take(f.len as int));
        let next = msg_send_apply(acc, f, s.take(f.len as int))->Ok_0;
        let rest = s.skip(f.len as int);
        assert(t.skip(f.len as int) =~= rest.take(k - f.len));
        if k > f.len {
            lemma_msg_send_fields_cut(rest, k - f.len, next);
        }
    }
}

/// Decoding a non-empty prefix of a valid message's encoding that ends inside
/// one of its fields fails as truncated input; no partial message comes back.
pub proof fn lemma_msg_send_prefix_truncated(m: MsgSendView, k: int)
    requires
        valid_msg_send(m),
        0 < k < msg_send_bytes(m).len(),
        !field_boundary(msg_send_bytes(m), k),
    ensures
        parse_msg_send(msg_send_bytes(m).take(k)) == Err::<MsgSendView, DecodeError>(
            DecodeError::TruncatedInput,
        ),
{
    lemma_msg_send_round_trip(m);
    lemma_msg_send_fields_cut(msg_send_bytes(m), k, empty_msg_send());
}

#[verifier::rlimit(80)]
proof fn lemma_unknown_grows(s: Seq<u8>, acc: MsgSendView)
    requires
        parse_msg_send_fields(s, acc) is Ok,
    ensures
        parse_msg_send_fields(s, acc)->Ok_0.unknown.len() >= acc.unknown.len(),
    decreases s.len(),
{
    if s.len() > 0 {
        let f = parse_field(s)->Ok_0;
        let next = msg_send_apply(acc, f, s.take(f.len as int))->Ok_0;
        lemma_unknown_grows(s.skip(f.len as int), next);
    }
}

#[verifier::rlimit(80)]
proof fn lemma_known_fields_any_unknown(s: Seq<u8>, acc: MsgSendView, kept: Seq<u8>)
    requires
        parse_msg_send_fields(s, acc) is Ok,
        parse_msg_send_fields(s, acc)->Ok_0.unknown == acc.unknown,
    ensures
        parse_msg_send_fields(s, MsgSendView { unknown: kept, ..acc }) == Ok::<
            MsgSendView,
            DecodeError,
        >(MsgSendView { unknown: kept, ..parse_msg_send_fields(s, acc)->Ok_0 }),
    decreases s.len(),
{
    if s.len() > 0 {
        let f = parse_field(s)->Ok_0;
        let raw = s.take(f.len as int);
        let next = msg_send_apply(acc, f, raw)->Ok_0;
        lemma_unknown_grows(s.skip(f.len as int), next);
        if !(f.tag == 10 || f.tag == 18 || f.tag == 26) {
            assert(next.unknown.len() > acc.unknown.len());
        }
        lemma_known_fields_any_unknown(s.skip(f.len as int), next, kept);
    }
}

#[verifier::rlimit(80)]
proof fn lemma_unknown_prefix(u: Seq<u8>, rest: Seq<u8>, acc: MsgSendView)
    requires
        only_unknown(u, 3),
    ensures
        parse_msg_send_fields(u + rest, acc) == parse_msg_send_fields(
            rest,
            MsgSendView { unknown: acc.unknown + u, ..acc },
        ),
    decreases u.len(),
{
    if u.len() == 0 {
        assert(u + rest =~= rest);
        assert(acc.unknown + u =~= acc.unknown);
    } else {
        let f = parse_field(u)->Ok_0;
        lemma_parse_field_extends(u, rest);
        assert((u + rest).take(f.len as int) =~= u.take(f.len as int));
        assert((u + rest).skip(f.len as int) =~= u.skip(f.len as int) + rest);
        let next = MsgSendView { unknown: acc.unknown + u.take(f.len as int), ..acc };
        lemma_unknown_prefix(u.skip(f.len as int), rest, next);
        assert(next.unknown + u.skip(f.len as int) =~= acc.unknown + u);
    }
}

#[verifier::rlimit(80)]
proof fn lemma_insert_unknown(s: Seq<u8>, k: int, u: Seq<u8>, acc: MsgSendView)
    requires
        parse_msg_send_fields(s, acc) is Ok,
        parse_msg_send_fields(s, acc)->Ok_0.unknown == acc.unknown,
        field_boundary(s, k),
        0 <= k <= s.len(),
        only_unknown(u, 3),
    ensures
        parse_msg_send_fields(s.take(k) + u + s.skip(k), acc) == Ok::<MsgSendView, DecodeError>(
            MsgSendView { unknown: acc.unknown + u, ..parse_msg_send_fields(s, acc)->Ok_0 },
        ),
    decreases s.len(),
{
    if k == 0 {
        assert(s.take(k) + u + s.skip(k) =~= u + s);
        lemma_unknown_prefix(u, s, acc);
        lemma_known_fields_any_unknown(s, acc, acc.unknown + u);
    } else {
        let f = parse_field(s)->Ok_0;
        let head = s.take(f.len as int);
        let s2 = s.skip(f.len as int);
        let k2 = k - f.len;
        let tail = s2.take(k2) + u + s2.skip(k2);
        assert(s.take(k) + u + s.skip(k) =~= head + tail);
        lemma_parse_field_cut(s, f.len as int);
        lemma_parse_field_extends(head, tail);
        assert((head + tail).take(f.len as int) =~= head);
        assert((head + tail).skip(f.len as int) =~= tail);
        let next = msg_send_apply(acc, f, head)->Ok_0;
        lemma_unknown_grows(s2, next);
        if !(f.tag == 10 || f.tag == 18 || f.tag == 26) {
            assert(next.unknown.len() > acc.unknown.len());
        }
        lemma_insert_unknown(s2, k2, u, next);
    }
}

/// A run of unknown fields inserted between any two top-level fields of a
/// valid message that keeps no unknown bytes is kept through a decode, and
/// written again, byte for byte, after the known fields.
pub proof fn lemma_msg_send_keeps_inserted_unknown(m: MsgSendView, u: Seq<u8>, k: int)
    requires
        valid_msg_send(m),
        m.unknown.len() == 0,
        only_unknown(u, 3),
        0 <= k <= msg_send_bytes(m).len(),
        field_boundary(msg_send_bytes(m), k),
    ensures
        parse_msg_send(msg_send_bytes(m).take(k) + u + msg_send_bytes(m).skip(k)) == Ok::<
            MsgSendView,
            DecodeError,
        >((MsgSendView { unknown: u, ..m })),
        msg_send_bytes((MsgSendView { unknown: u, ..m })) == msg_send_bytes(m) + u,
{
    lemma_msg_send_round_trip(m);
    assert(m.unknown =~= Seq::<u8>::empty());
    lemma_insert_unknown(msg_send_bytes(m), k, u, empty_msg_send());
    assert(Seq::<u8>::empty() + u =~= u);
    assert(msg_send_bytes((MsgSendView { unknown: u, ..m })) =~= msg_send_bytes(m) + u);
}

} // verus!
