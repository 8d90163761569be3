use ledger_samples::hex::to_hex;
use ledger_samples::ids::{AccountId, AssetDefinitionId, AssetId, DomainId, Name, TriggerId};
use ledger_samples::model::{DataFilter, EventFilter, Instruction, Repeats, TimeSchedule, Trigger};
use ledger_samples::samples::{
    create_some_event_based_trigger_isi, create_some_time_based_trigger_isi,
};
use ledger_samples::wire::{decode_compact, encode_compact, DecodeError};

fn compact(v: u64) -> Vec<u8> {
    let mut out = Vec::new();
    encode_compact(v, &mut out);
    out
}

fn asset() -> AssetId {
    AssetId::new(
        AssetDefinitionId::parse("rose#wonderland").unwrap(),
        AccountId::parse("alice@wonderland").unwrap(),
    )
}

fn time_trigger() -> Trigger {
    create_some_time_based_trigger_isi(TriggerId::parse("mint_rose").unwrap(), asset())
}

fn event_trigger() -> Trigger {
    create_some_event_based_trigger_isi(TriggerId::parse("mint_rose").unwrap(), asset())
}

#[test]
fn compact_forms() {
    assert_eq!(compact(0), vec![0x00]);
    assert_eq!(compact(1), vec![0x04]);
    assert_eq!(compact(63), vec![0xfc]);
    assert_eq!(compact(64), vec![0x01, 0x01]);
    assert_eq!(compact(16383), vec![0xfd, 0xff]);
    assert_eq!(compact(16384), vec![0x02, 0x00, 0x01, 0x00]);
    assert_eq!(compact(0x3fff_ffff), vec![0xfe, 0xff, 0xff, 0xff]);
    assert_eq!(
        compact(0x4000_0000),
        vec![0x03, 0x00, 0x00, 0x00, 0x40, 0x00, 0x00, 0x00, 0x00]
    );
    assert_eq!(
        compact(u64::MAX),
        vec![0x03, 0xff, 0xff, 0xff, 0xff, 0xff, 0xff, 0xff, 0xff]
    );
}

#[test]
fn compact_round_trips() {
    for v in [0u64, 1, 63, 64, 100, 16383, 16384, 1 << 29, (1 << 30) - 1, 1 << 30, u64::MAX] {
        let bytes = compact(v);
        assert_eq!(decode_compact(&bytes, 0), Ok((v, bytes.len())));
    }
}

#[test]
fn compact_rejects_longer_forms() {
    assert_eq!(decode_compact(&[0x01, 0x00], 0), Err(DecodeError::InvalidValue));
    assert_eq!(
        decode_compact(&[0x02, 0x00, 0x00, 0x00], 0),
        Err(DecodeError::InvalidValue)
    );
    assert_eq!(
        decode_compact(&[0x07, 0, 0, 0, 0x40, 0, 0, 0, 0], 0),
        Err(DecodeError::InvalidValue)
    );
    assert_eq!(decode_compact(&[0x01], 0), Err(DecodeError::UnexpectedEof));
    assert_eq!(decode_compact(&[], 0), Err(DecodeError::UnexpectedEof));
}

#[test]
fn asset_definition_encoding_is_stable() {
    let id = AssetDefinitionId::parse("rose#wonderland").unwrap();
    let first = id.encode();
    let second = id.encode();
    assert_eq!(first, second);
    let mut expected = vec![4 << 2];
    expected.extend_from_slice(b"rose");
    expected.push(10 << 2);
    expected.extend_from_slice(b"wonderland");
    assert_eq!(first, expected);
    let hex = to_hex(&first);
    let groups: Vec<&str> = hex.split(' ').collect();
    assert_eq!(groups.len(), first.len());
    assert!(groups.iter().all(|g| g.len() == 2));
    assert_eq!(hex, hex.to_lowercase());
    assert!(hex.starts_with("10 72 6f 73 65 28"));
}

#[test]
fn hex_form() {
    assert_eq!(to_hex(&[0x00, 0xab, 0x10, 0xff]), "00 ab 10 ff");
    assert_eq!(to_hex(&[]), "");
    assert_eq!(to_hex(&[0x07]), "07");
}

#[test]
fn identifiers_round_trip() {
    let a = AccountId::parse("alice@wonderland").unwrap();
    let back = AccountId::decode(&a.encode()).unwrap();
    assert_eq!(back.to_text(), a.to_text());
    let d = DomainId::parse("Hey").unwrap();
    assert_eq!(DomainId::decode(&d.encode()).unwrap().to_text(), b"Hey".to_vec());
    let x = asset();
    assert_eq!(AssetId::decode(&x.encode()).unwrap().encode(), x.encode());
}

#[test]
fn triggers_round_trip() {
    for t in [time_trigger(), event_trigger()] {
        let bytes = t.encode();
        let back = Trigger::decode(&bytes).unwrap();
        assert_eq!(back.encode(), bytes);
        assert_eq!(back.id.to_text(), b"mint_rose".to_vec());
        assert_eq!(back.action.executable.instructions.len(), 1);
        assert_eq!(back.action.repeats, Repeats::Indefinitely);
    }
}

#[test]
fn time_trigger_schedule() {
    let t = time_trigger();
    match t.action.filter {
        EventFilter::Time(s) => {
            assert_eq!(
                s,
                TimeSchedule {
                    start_ms: 4_141_203_402_341_234_000,
                    period_ms: Some(3000)
                }
            );
        }
        _ => panic!("expected a time filter"),
    }
    assert!(matches!(
        event_trigger().action.filter,
        EventFilter::Data(DataFilter::AssetDefinitionCreated)
    ));
}

#[test]
fn every_proper_prefix_is_cut_short() {
    for t in [time_trigger(), event_trigger()] {
        let bytes = t.encode();
        for n in 0..bytes.len() {
            assert!(matches!(
                Trigger::decode(&bytes[..n]),
                Err(DecodeError::UnexpectedEof)
            ));
        }
    }
}

#[test]
fn trailing_bytes_are_reported() {
    let mut bytes = time_trigger().encode();
    bytes.push(0);
    assert!(matches!(
        Trigger::decode(&bytes),
        Err(DecodeError::TrailingBytes)
    ));
}

#[test]
fn unknown_tags_are_reported() {
    let mint = Instruction::Mint { object: asset(), quantity: 1 };
    let mut bytes = mint.encode();
    assert_eq!(bytes[0], 0);
    for tag in [2u8, 7, 255] {
        bytes[0] = tag;
        assert!(matches!(
            Instruction::decode(&bytes),
            Err(DecodeError::UnknownVariant)
        ));
    }
    assert!(matches!(
        EventFilter::decode(&[2]),
        Err(DecodeError::UnknownVariant)
    ));
    assert!(matches!(
        Repeats::decode_from(&[3], 0),
        Err(DecodeError::UnknownVariant)
    ));
}

#[test]
fn burn_and_repeat_counts_round_trip() {
    let burn = Instruction::Burn { object: asset(), quantity: 70_000 };
    let bytes = burn.encode();
    assert_eq!(bytes[0], 1);
    assert_eq!(Instruction::decode(&bytes).unwrap().encode(), bytes);
    let mut out = Vec::new();
    Repeats::Exactly(5).encode_to(&mut out);
    assert_eq!(out, vec![1, 5 << 2]);
    assert_eq!(Repeats::decode_from(&out, 0), Ok((Repeats::Exactly(5), 2)));
}

#[test]
fn invalid_names_are_not_decoded() {
    let bad = [3 << 2, b'a', b' ', b'b'];
    assert!(matches!(
        DomainId::decode(&bad),
        Err(DecodeError::InvalidValue)
    ));
    assert!(matches!(DomainId::decode(&[0]), Err(DecodeError::InvalidValue)));
    assert!(Name::parse(b"ok").is_ok());
}
