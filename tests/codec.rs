use bank_send::{Coin, DecodeError, MsgSend};

fn coin(denom: &str, amount: &str) -> Coin {
    let mut c = Coin::new();
    c.denom = denom.to_string();
    c.amount = amount.to_string();
    c
}

fn msg(from: &str, to: &str, coins: Vec<Coin>) -> MsgSend {
    let mut m = MsgSend::new();
    m.from_address = from.to_string();
    m.to_address = to.to_string();
    m.amount = coins;
    m
}

fn same_coin(a: &Coin, b: &Coin) -> bool {
    a.denom == b.denom && a.amount == b.amount && a.unknown_fields == b.unknown_fields
}

fn same_msg(a: &MsgSend, b: &MsgSend) -> bool {
    a.from_address == b.from_address
        && a.to_address == b.to_address
        && a.unknown_fields == b.unknown_fields
        && a.amount.len() == b.amount.len()
        && a.amount.iter().zip(b.amount.iter()).all(|(x, y)| same_coin(x, y))
}

#[test]
fn coin_encodes_to_fixed_bytes() {
    let bytes = coin("atom", "100").write_to_bytes();
    assert_eq!(
        bytes,
        vec![0x0A, 0x04, b'a', b't', b'o', b'm', 0x12, 0x03, b'1', b'0', b'0']
    );
}

#[test]
fn coin_round_trip() {
    for (d, a) in [("atom", "100"), ("", "5"), ("uosmo", ""), ("", ""), ("é", "12345678901234567890")] {
        let c = coin(d, a);
        let back = Coin::parse_from_bytes(&c.write_to_bytes()).unwrap();
        assert!(same_coin(&c, &back));
    }
}

#[test]
fn msg_send_round_trip() {
    let cases = vec![
        msg("a", "b", vec![]),
        msg("cosmos1from", "cosmos1to", vec![coin("atom", "100")]),
        msg("x", "", vec![coin("atom", "1"), coin("", ""), coin("uosmo", "42")]),
        msg("", "", vec![]),
    ];
    for m in cases {
        let back = MsgSend::parse_from_bytes(&m.write_to_bytes()).unwrap();
        assert!(same_msg(&m, &back));
    }
}

#[test]
fn size_matches_encoding() {
    let long = "d".repeat(200);
    let c = coin(&long, "7");
    assert_eq!(c.compute_size(), 1 + 2 + 200 + 3);
    assert_eq!(c.compute_size() as usize, c.write_to_bytes().len());
    let m = msg("from", &long, vec![c, coin("atom", "100"), coin("", "")]);
    assert_eq!(m.compute_size() as usize, m.write_to_bytes().len());
    assert_eq!(msg("", "", vec![]).compute_size(), 0);
}

#[test]
fn empty_coin_is_zero_bytes() {
    assert!(coin("", "").write_to_bytes().is_empty());
    assert_eq!(coin("", "").compute_size(), 0);
    let c = Coin::parse_from_bytes(&[]).unwrap();
    assert_eq!(c.denom, "");
    assert_eq!(c.amount, "");
    assert!(c.unknown_fields.is_empty());
}

#[test]
fn empty_coin_is_written_in_msg_send() {
    let m = msg("", "", vec![coin("", "")]);
    assert_eq!(m.write_to_bytes(), vec![0x1A, 0x00]);
}

#[test]
fn unknown_fields_are_kept() {
    let mut bytes = coin("atom", "100").write_to_bytes();
    let extra = vec![0x28, 0x07, 0x3A, 0x02, b'h', b'i', 0x45, 1, 2, 3, 4];
    bytes.extend_from_slice(&extra);
    let c = Coin::parse_from_bytes(&bytes).unwrap();
    assert_eq!(c.denom, "atom");
    assert_eq!(c.amount, "100");
    assert_eq!(c.unknown_fields, extra);
    assert_eq!(c.write_to_bytes(), bytes);
    assert_eq!(c.compute_size() as usize, bytes.len());
}

#[test]
fn unknown_fields_are_kept_in_msg_send() {
    let m = msg("a", "b", vec![coin("atom", "100")]);
    let mut bytes = m.write_to_bytes();
    let extra = vec![0x21, 1, 2, 3, 4, 5, 6, 7, 8];
    bytes.extend_from_slice(&extra);
    let back = MsgSend::parse_from_bytes(&bytes).unwrap();
    assert_eq!(back.unknown_fields, extra);
    assert_eq!(back.write_to_bytes(), bytes);
}

#[test]
fn unknown_field_between_known_ones_moves_after_them() {
    let bytes = vec![0x0A, 0x01, b'a', 0x28, 0x01, 0x12, 0x01, b'b'];
    let c = Coin::parse_from_bytes(&bytes).unwrap();
    assert_eq!(c.denom, "a");
    assert_eq!(c.amount, "b");
    assert_eq!(c.write_to_bytes(), vec![0x0A, 0x01, b'a', 0x12, 0x01, b'b', 0x28, 0x01]);
}

#[test]
fn later_string_field_wins() {
    let bytes = vec![0x0A, 0x01, b'a', 0x0A, 0x01, b'z'];
    assert_eq!(Coin::parse_from_bytes(&bytes).unwrap().denom, "z");
}

#[test]
fn prefix_inside_a_field_is_rejected() {
    let m = msg("from", "", vec![]);
    let bytes = m.write_to_bytes();
    for k in 1..bytes.len() {
        let r = MsgSend::parse_from_bytes(&bytes[..k]);
        assert!(matches!(r, Err(DecodeError::TruncatedInput) | Err(DecodeError::MalformedVarint)));
    }
}

#[test]
fn prefixes_of_msg_send_fail_or_end_at_a_field() {
    let m = msg("cosmos1from", "cosmos1to", vec![coin("atom", "100"), coin("uosmo", "7")]);
    let bytes = m.write_to_bytes();
    let boundaries = [0usize, 13, 24, 37, bytes.len()];
    for k in 1..bytes.len() {
        let r = MsgSend::parse_from_bytes(&bytes[..k]);
        if boundaries.contains(&k) {
            assert!(r.is_ok());
        } else {
            assert!(matches!(r, Err(DecodeError::TruncatedInput) | Err(DecodeError::MalformedVarint)));
        }
    }
}

#[test]
fn long_length_prefix_is_truncated() {
    let bytes = vec![0x0A, 0x80, 0x01, b'a'];
    assert_eq!(Coin::parse_from_bytes(&bytes).err(), Some(DecodeError::TruncatedInput));
}

#[test]
fn overlong_varint_is_malformed() {
    let bytes = vec![0xFF; 11];
    assert_eq!(Coin::parse_from_bytes(&bytes).err(), Some(DecodeError::MalformedVarint));
    let mut tenth = vec![0x0A];
    tenth.extend_from_slice(&[0xFF, 0xFF, 0xFF, 0xFF, 0xFF, 0xFF, 0xFF, 0xFF, 0xFF, 0x02]);
    assert_eq!(Coin::parse_from_bytes(&tenth).err(), Some(DecodeError::MalformedVarint));
}

#[test]
fn bad_tags_are_rejected() {
    assert_eq!(Coin::parse_from_bytes(&[0x00, 0x01]).err(), Some(DecodeError::InvalidTag));
    assert_eq!(Coin::parse_from_bytes(&[0x0B]).err(), Some(DecodeError::TruncatedInput));
    assert_eq!(Coin::parse_from_bytes(&[0x0C]).err(), Some(DecodeError::InvalidTag));
    assert_eq!(Coin::parse_from_bytes(&[0x0F, 0x00]).err(), Some(DecodeError::InvalidTag));
    assert_eq!(Coin::parse_from_bytes(&[0x0E, 0x00]).err(), Some(DecodeError::InvalidTag));
}

#[test]
fn invalid_utf8_is_rejected() {
    assert_eq!(
        Coin::parse_from_bytes(&[0x0A, 0x02, 0xC3, 0x28]).err(),
        Some(DecodeError::InvalidUtf8)
    );
}

#[test]
fn non_ascii_string_is_read() {
    let c = Coin::parse_from_bytes(&[0x0A, 0x02, 0xC3, 0xA9]).unwrap();
    assert_eq!(c.denom, "é");
}

#[test]
fn nested_failure_names_the_field() {
    let bytes = vec![0x1A, 0x02, 0x0A, 0x05];
    assert_eq!(
        MsgSend::parse_from_bytes(&bytes).err(),
        Some(DecodeError::NestedDecodeFailure {
            field: 3,
            cause: Box::new(DecodeError::TruncatedInput)
        })
    );
}

#[test]
fn envelope_wraps_msg_send() {
    let m = msg("a", "b", vec![]);
    let any = m.to_any();
    assert_eq!(any.type_url, "/cosmos.bank.v1beta1.MsgSend");
    assert_eq!(any.value, vec![0x0A, 0x01, b'a', 0x12, 0x01, b'b']);
    let back = MsgSend::parse_from_bytes(&any.value).unwrap();
    assert!(same_msg(&m, &back));
}

#[test]
fn clear_resets_fields() {
    let mut m = msg("a", "b", vec![coin("atom", "1")]);
    m.unknown_fields = vec![0x28, 0x01];
    assert!(m.is_initialized());
    m.clear();
    assert!(m.write_to_bytes().is_empty());
    let mut c = coin("atom", "1");
    c.clear();
    assert!(c.write_to_bytes().is_empty());
    assert!(c.unknown_fields().is_empty());
}

#[test]
fn closed_group_is_kept_as_unknown() {
    let c = Coin::parse_from_bytes(&[0x0B, 0x0C]).unwrap();
    assert_eq!(c.denom, "");
    assert_eq!(c.unknown_fields, vec![0x0B, 0x0C]);
    assert_eq!(c.write_to_bytes(), vec![0x0B, 0x0C]);
}

#[test]
fn nested_group_with_fields_is_kept() {
    let group = vec![0x2B, 0x08, 0x01, 0x33, 0x0A, 0x01, b'x', 0x34, 0x2C];
    let mut bytes = coin("atom", "100").write_to_bytes();
    bytes.extend_from_slice(&group);
    let c = Coin::parse_from_bytes(&bytes).unwrap();
    assert_eq!(c.denom, "atom");
    assert_eq!(c.amount, "100");
    assert_eq!(c.unknown_fields, group);
    assert_eq!(c.write_to_bytes(), bytes);
    let m = MsgSend::parse_from_bytes(&group).unwrap();
    assert_eq!(m.unknown_fields, group);
    assert!(m.amount.is_empty());
}

#[test]
fn group_errors() {
    assert_eq!(Coin::parse_from_bytes(&[0x0B, 0x14]).err(), Some(DecodeError::InvalidTag));
    assert_eq!(Coin::parse_from_bytes(&[0x0B, 0x08]).err(), Some(DecodeError::TruncatedInput));
    assert_eq!(Coin::parse_from_bytes(&[0x0B, 0x13, 0x0C]).err(), Some(DecodeError::InvalidTag));
    assert_eq!(Coin::parse_from_bytes(&[0x0B, 0x0F, 0x0C]).err(), Some(DecodeError::InvalidTag));
}

#[test]
fn unknown_field_inserted_between_fields_is_kept() {
    let m = msg("a", "b", vec![coin("atom", "100")]);
    let bytes = m.write_to_bytes();
    let u = vec![0x28, 0x05];
    for k in [0usize, 3, 6, bytes.len()] {
        let mut input = bytes[..k].to_vec();
        input.extend_from_slice(&u);
        input.extend_from_slice(&bytes[k..]);
        let back = MsgSend::parse_from_bytes(&input).unwrap();
        let mut expected = bytes.clone();
        expected.extend_from_slice(&u);
        assert_eq!(back.write_to_bytes(), expected);
        assert_eq!(back.compute_size() as usize, expected.len());
    }
}

#[test]
fn records_clone() {
    let m = msg("a", "b", vec![coin("atom", "100")]);
    let c = m.clone();
    assert!(same_msg(&m, &c));
    assert!(format!("{:?}", c.amount[0]).contains("atom"));
}
