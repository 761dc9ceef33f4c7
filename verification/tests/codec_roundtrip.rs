use xcm_core::account::AccountId;
use xcm_core::asset::{Asset, AssetFilter, AssetId, Fungibility};
use xcm_core::codec::{decode_call, decode_message, encode_call, encode_message, CodecError};
use xcm_core::location::{Junction, Location, NetworkId};
use xcm_core::message::{Call, CallPayload, Instruction, Message, OriginKind};
use xcm_core::weight::{Weight, WeightLimit};

fn alice() -> AccountId {
    AccountId::new([0u8; 32])
}

fn sample_location() -> Location {
    let mut interior = Vec::new();
    interior.push(Junction::Parachain(42));
    interior.push(Junction::AccountId32 {
        network: Some(NetworkId::Kusama),
        id: [7u8; 32],
    });
    interior.push(Junction::PalletInstance(10));
    interior.push(Junction::GeneralIndex(123_456_789_012_345_678_901u128));
    Location {
        parents: 1,
        interior,
    }
}

fn sample_message() -> Message {
    let nested = vec![Instruction::DepositAsset {
        assets: AssetFilter::WildAll,
        beneficiary: Location::from_junction(Junction::AccountId32 {
            network: None,
            id: [3u8; 32],
        }),
    }];
    Message::new(vec![
        Instruction::WithdrawAsset(vec![
            Asset::fungible(AssetId::Concrete(sample_location()), 77),
            Asset {
                id: AssetId::Abstract(9),
                fun: Fungibility::NonFungible(4),
            },
        ]),
        Instruction::ReserveAssetDeposited(vec![Asset::fungible(
            AssetId::Concrete(Location::parent()),
            100_000,
        )]),
        Instruction::TransferAsset {
            assets: vec![Asset::fungible(AssetId::Concrete(Location::here()), 5)],
            beneficiary: sample_location(),
        },
        Instruction::DepositAsset {
            assets: AssetFilter::Definite(vec![Asset::fungible(AssetId::Abstract(1), 2)]),
            beneficiary: Location::here(),
        },
        Instruction::InitiateReserveWithdraw {
            assets: AssetFilter::WildAllOf {
                id: AssetId::Concrete(Location::parent()),
            },
            reserve: Location::parent(),
            xcm: nested,
        },
        Instruction::Transact {
            origin_kind: OriginKind::Native,
            require_weight_at_most: Weight::from_parts(10, 20),
            call: CallPayload::Parsed(Call::StoreValue {
                acc: alice(),
                num: 50,
            }),
        },
        Instruction::Transact {
            origin_kind: OriginKind::SovereignAccount,
            require_weight_at_most: Weight::from_parts(1, 1),
            call: CallPayload::Raw(vec![0xFF, 0x00, 0x12]),
        },
        Instruction::BuyExecution {
            fees: Asset::fungible(AssetId::Concrete(Location::parent()), 30),
            weight_limit: WeightLimit::Limited(Weight::from_parts(9, 9)),
        },
        Instruction::DescendOrigin(Junction::Parachain(7)),
        Instruction::Noop,
    ])
}

#[test]
fn decode_then_reencode_is_byte_identical() {
    let bytes = encode_message(&sample_message());
    let decoded = decode_message(&bytes).expect("a freshly encoded message decodes");
    let reencoded = encode_message(&decoded);
    assert_eq!(reencoded, bytes);
}

#[test]
fn unknown_version_is_distinguished_from_malformed() {
    let mut bytes = encode_message(&sample_message());
    bytes[0] = 9;
    assert!(matches!(decode_message(&bytes), Err(CodecError::BadVersion)));

    let empty: Vec<u8> = Vec::new();
    assert!(matches!(decode_message(&empty), Err(CodecError::Malformed)));
}

#[test]
fn truncated_and_trailing_bytes_are_malformed() {
    let bytes = encode_message(&sample_message());
    let truncated: Vec<u8> = bytes[..bytes.len() - 1].to_vec();
    assert!(matches!(decode_message(&truncated), Err(CodecError::Malformed)));

    let mut trailing = bytes.clone();
    trailing.push(0);
    assert!(matches!(decode_message(&trailing), Err(CodecError::Malformed)));
}

#[test]
fn call_round_trips_through_bytes() {
    let call = Call::AssetMint {
        id: AssetId::Concrete(sample_location()),
        beneficiary: alice(),
        amount: 123_456,
    };
    let bytes = encode_call(&call);
    let decoded = decode_call(&bytes).expect("a freshly encoded call decodes");
    assert_eq!(encode_call(&decoded), bytes);
    assert!(decode_call(&vec![0xAB, 0xCD]).is_none());
}

#[test]
fn wire_transact_payload_survives_the_round_trip() {
    // A valid call travels as bytes and comes back parsed; junk bytes
    // come back raw — either way the wire form is restored exactly.
    let good = encode_call(&Call::StoreValue {
        acc: alice(),
        num: 1,
    });
    let msg = Message::new(vec![Instruction::Transact {
        origin_kind: OriginKind::SovereignAccount,
        require_weight_at_most: Weight::from_parts(1, 1),
        call: CallPayload::Raw(good),
    }]);
    let bytes = encode_message(&msg);
    let decoded = decode_message(&bytes).expect("decodes");
    match &decoded.instructions[0] {
        Instruction::Transact { call: CallPayload::Parsed(_), .. } => {}
        _ => panic!("a valid payload parses on decode"),
    }
    assert_eq!(encode_message(&decoded), bytes);
}
