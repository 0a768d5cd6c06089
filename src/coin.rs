use vstd::prelude::*;
use vstd::utf8::{decode_utf8, encode_utf8, valid_utf8};

use crate::wire::{
    delimited, lemma_parse_delimited, lemma_parse_field_extends, parse_field, push_bytes, read_field, read_string, string_field, string_field_size,
    write_string_field, DecodeError, FieldSpec,
};

verus! {

/// An amount of one denomination; the amount is a decimal string.
#[derive(Clone, Debug)]
pub struct Coin {
    pub denom: String,
    pub amount: String,
    /// Fields of other numbers met while decoding, kept byte for byte.
    pub unknown_fields: Vec<u8>,
}

/// What a [`Coin`] holds.
pub struct CoinView {
    pub denom: Seq<char>,
    pub amount: Seq<char>,
    pub unknown: Seq<u8>,
}

impl View for Coin {
    type V = CoinView;

    open spec fn view(&self) -> CoinView {
        CoinView { denom: self.denom@, amount: self.amount@, unknown: self.unknown_fields@ }
    }
}

/// The coin with every field at its default.
pub open spec fn empty_coin() -> CoinView {
    CoinView { denom: Seq::empty(), amount: Seq::empty(), unknown: Seq::empty() }
}

/// Whether `tag` is that of a string or message field numbered 1 to `fields`.
pub open spec fn is_known_tag(tag: nat, fields: nat) -> bool {
    tag % 8 == 2 && 1 <= tag / 8 <= fields
}

/// `u` is a sequence of whole fields, none of them with a tag among the first
/// `fields` field numbers.
pub open spec fn only_unknown(u: Seq<u8>, fields: nat) -> bool
    decreases u.len(),
{
    if u.len() == 0 {
        true
    } else {
        match parse_field(u) {
            Ok(f) => 0 < f.len <= u.len() && !is_known_tag(f.tag, fields) && only_unknown(
                u.skip(f.len as int),
                fields,
            ),
            Err(_) => false,
        }
    }
}

/// A coin that can be written and read back: each string's bytes can be
/// counted in 64 bits, and the kept bytes are whole fields of other numbers.
pub open spec fn valid_coin(c: CoinView) -> bool {
    &&& encode_utf8(c.denom).len() <= u64::MAX
    &&& encode_utf8(c.amount).len() <= u64::MAX
    &&& only_unknown(c.unknown, 2)
}

/// The encoding of a coin: `denom` as field 1, `amount` as field 2, each left
/// out when empty, then the kept bytes.
pub open spec fn coin_bytes(c: CoinView) -> Seq<u8> {
    string_field(10, c.denom) + string_field(18, c.amount) + c.unknown
}

/// The coin after one more field has been read; `raw` is the whole field.
pub open spec fn coin_apply(acc: CoinView, f: FieldSpec, raw: Seq<u8>) -> Result<
    CoinView,
    DecodeError,
> {
    if f.tag == 10 || f.tag == 18 {
        if !valid_utf8(f.payload) {
            Err(DecodeError::InvalidUtf8)
        } else if f.tag == 10 {
            Ok(CoinView { denom: decode_utf8(f.payload), amount: acc.amount, unknown: acc.unknown })
        } else {
            Ok(CoinView { denom: acc.denom, amount: decode_utf8(f.payload), unknown: acc.unknown })
        }
    } else {
        Ok(CoinView { denom: acc.denom, amount: acc.amount, unknown: acc.unknown + raw })
    }
}

/// Reads the fields of `s` in order into `acc`.
pub open spec fn parse_coin_fields(s: Seq<u8>, acc: CoinView) -> Result<CoinView, DecodeError>
    decreases s.len(),
{
    if s.len() == 0 {
        Ok(acc)
    } else {
        match parse_field(s) {
            Ok(f) => if 0 < f.len <= s.len() {
                match coin_apply(acc, f, s.take(f.len as int)) {
                    Ok(next) => parse_coin_fields(s.skip(f.len as int), next),
                    Err(e) => Err(e),
                }
            } else {
                Err(DecodeError::TruncatedInput)
            },
            Err(e) => Err(e),
        }
    }
}

/// The coin that `s` decodes to.
pub open spec fn parse_coin(s: Seq<u8>) -> Result<CoinView, DecodeError> {
    parse_coin_fields(s, empty_coin())
}

impl Coin {
    /// A coin with empty denomination and amount.
    pub fn new() -> (r: Coin)
        ensures
            r@ == empty_coin(),
    {
        Coin { denom: String::new(), amount: String::new(), unknown_fields: Vec::new() }
    }

    /// Always true: no field of a coin is required.
    pub fn is_initialized(&self) -> (r: bool)
        ensures
            r,
    {
        true
    }

    /// The bytes kept from fields of other numbers.
    pub fn unknown_fields(&self) -> (r: &Vec<u8>)
        ensures
            r@ == self@.unknown,
    {
        &self.unknown_fields
    }

    /// Resets every field to its default.
    pub fn clear(&mut self)
        ensures
            final(self)@ == empty_coin(),
    {
        self.denom = String::new();
        self.amount = String::new();
        self.unknown_fields = Vec::new();
    }

    /// Number of bytes that [`Coin::write_to_bytes`] produces.
    pub fn compute_size(&self) -> (r: u64)
        requires
            coin_bytes(self@).len() <= u64::MAX,
        ensures
            r as nat == coin_bytes(self@).len(),
    {
        let a = string_field_size(&self.denom);
        let b = string_field_size(&self.amount);
        a + b + self.unknown_fields.len() as u64
    }

    /// Appends the encoding of this coin to `out`.
    pub fn write_to(&self, out: &mut Vec<u8>)
        ensures
            final(out)@ == old(out)@ + coin_bytes(self@),
    {
        write_string_field(out, 10, &self.denom);
        write_string_field(out, 18, &self.amount);
        push_bytes(out, self.unknown_fields.as_slice());
        assert(out@ =~= old(out)@ + coin_bytes(self@));
    }

    /// The encoding of this coin.
    pub fn write_to_bytes(&self) -> (r: Vec<u8>)
        ensures
            r@ == coin_bytes(self@),
    {
        let mut out: Vec<u8> = Vec::new();
        self.write_to(&mut out);
        assert(out@ =~= coin_bytes(self@));
        out
    }

    /// Decodes a coin; on failure no coin is returned.
    pub fn parse_from_bytes(buf: &[u8]) -> (r: Result<Coin, DecodeError>)
        ensures
            match parse_coin(buf@) {
                Ok(v) => r matches Ok(c) && c@ == v,
                Err(e) => r == Err::<Coin, DecodeError>(e),
            },
    {
        let mut c = Coin::new();
        let len = buf.len();
        let mut pos: usize = 0;
        assert(buf@.skip(0) =~= buf@);
        while pos < len
            invariant
                pos <= len == buf@.len(),
                parse_coin(buf@) == parse_coin_fields(buf@.skip(pos as int), c@),
            decreases len - pos,
        {
            let ghost s = buf@.skip(pos as int);
            let f = match read_field(buf, pos) {
                Ok(f) => f,
                Err(e) => return Err(e),
            };
            let ghost fs = parse_field(s)->Ok_0;
            assert(s.take(fs.len as int) =~= buf@.subrange(pos as int, f.next as int));
            assert(s.skip(fs.len as int) =~= buf@.skip(f.next as int));
            if f.tag == 10 || f.tag == 18 {
                let text = match read_string(buf, f.start, f.end) {
                    Ok(t) => t,
                    Err(e) => return Err(e),
                };
                if f.tag == 10 {
                    c.denom = text;
                } else {
                    c.amount = text;
                }
            } else {
                push_bytes(&mut c.unknown_fields, &buf[pos..f.next]);
            }
            pos = f.next;
        }
        assert(buf@.skip(pos as int) =~= Seq::<u8>::empty());
        Ok(c)
    }
}

proof fn lemma_unknown_coin_fields(u: Seq<u8>, acc: CoinView)
    requires
        only_unknown(u, 2),
    ensures
        parse_coin_fields(u, acc) == Ok::<CoinView, DecodeError>(
            CoinView { denom: acc.denom, amount: acc.amount, unknown: acc.unknown + u },
        ),
    decreases u.len(),
{
    if u.len() == 0 {
        assert(acc.unknown + u =~= acc.unknown);
    } else {
        let f = parse_field(u)->Ok_0;
        let next = CoinView {
            denom: acc.denom,
            amount: acc.amount,
            unknown: acc.unknown + u.take(f.len as int),
        };
        lemma_unknown_coin_fields(u.skip(f.len as int), next);
        assert(next.unknown + u.skip(f.len as int) =~= acc.unknown + u);
    }
}

proof fn lemma_coin_string_step(tag: nat, text: Seq<char>, rest: Seq<u8>, acc: CoinView)
    requires
        tag == 10 || tag == 18,
        encode_utf8(text).len() <= u64::MAX,
    ensures
        parse_coin_fields(string_field(tag, text) + rest, acc) == parse_coin_fields(
            rest,
            if text.len() == 0 {
                acc
            } else if tag == 10 {
                CoinView { denom: text, amount: acc.amount, unknown: acc.unknown }
            } else {
                CoinView { denom: acc.denom, amount: text, unknown: acc.unknown }
            },
        ),
{
    let s = string_field(tag, text) + rest;
    if text.len() == 0 {
        assert(s =~= rest);
    } else {
        let p = encode_utf8(text);
        lemma_parse_delimited(tag, p, rest);
        vstd::utf8::encode_utf8_valid_utf8(text);
        vstd::utf8::encode_utf8_decode_utf8(text);
        let d = delimited(tag, p);
        assert(s.skip(d.len() as int) =~= rest);
    }
}

/// Decoding the encoding of a valid coin gives the coin back.
pub proof fn lemma_coin_round_trip(c: CoinView)
    requires
        valid_coin(c),
    ensures
        parse_coin(coin_bytes(c)) == Ok::<CoinView, DecodeError>(c),
{
    let a = string_field(18, c.amount) + c.unknown;
    assert(coin_bytes(c) =~= string_field(10, c.denom) + a);
    lemma_coin_string_step(10, c.denom, a, empty_coin());
    let acc1 = CoinView { denom: c.denom, amount: Seq::empty(), unknown: Seq::empty() };
    assert(c.denom.len() == 0 ==> c.denom =~= Seq::<char>::empty());
    lemma_coin_string_step(18, c.amount, c.unknown, acc1);
    assert(c.amount.len() == 0 ==> c.amount =~= Seq::<char>::empty());
    let acc2 = CoinView { denom: c.denom, amount: c.amount, unknown: Seq::empty() };
    lemma_unknown_coin_fields(c.unknown, acc2);
    assert(Seq::<u8>::empty() + c.unknown =~= c.unknown);
}

/// A coin whose fields are all empty encodes to no bytes, and no bytes decode
/// to that coin.
pub proof fn lemma_coin_default_omission()
    ensures
        coin_bytes(empty_coin()) == Seq::<u8>::empty(),
        parse_coin(Seq::empty()) == Ok::<CoinView, DecodeError>(empty_coin()),
{
    assert(coin_bytes(empty_coin()) =~= Seq::<u8>::empty());
}

/// Fields of other numbers appended to a valid coin's encoding are kept through
/// a decode, and written again, byte for byte, after the known fields.
pub proof fn lemma_coin_keeps_unknown(c: CoinView, extra: Seq<u8>)
    requires
        valid_coin(c),
        only_unknown(extra, 2),
    ensures
        parse_coin(coin_bytes(c) + extra) matches Ok(d) && d.denom == c.denom && d.amount
            == c.amount && d.unknown == c.unknown + extra && coin_bytes(d) == coin_bytes(c)
            + extra,
{
    lemma_only_unknown_concat(c.unknown, extra, 2);
    let d = CoinView { denom: c.denom, amount: c.amount, unknown: c.unknown + extra };
    lemma_coin_round_trip(d);
    assert(coin_bytes(c) + extra =~= coin_bytes(d));
}

/// Two runs of whole unknown fields make one.
pub proof fn lemma_only_unknown_concat(a: Seq<u8>, b: Seq<u8>, fields: nat)
    requires
        only_unknown(a, fields),
        only_unknown(b, fields),
    ensures
        only_unknown(a + b, fields),
    decreases a.len(),
{
    if a.len() == 0 {
        assert(a + b =~= b);
    } else {
        let f = parse_field(a)->Ok_0;
        lemma_parse_field_extends(a, b);
        lemma_only_unknown_concat(a.skip(f.len as int), b, fields);
        assert((a + b).skip(f.len as int) =~= a.skip(f.len as int) + b);
    }
}

} // verus!
