use xcm_core::account::{child_account_id, parent_account_id, AccountId};
use xcm_core::asset::{Asset, AssetFilter, AssetId};
use xcm_core::chain::{Barrier, Chain, ChainId, Event, ExecError, Outcome};
use xcm_core::location::{Junction, Location, NetworkId};
use xcm_core::message::{Call, CallPayload, Instruction, Message, OriginKind};
use xcm_core::network::{para_asset_id, para_ext, relay_ext, Network, INITIAL_BALANCE};
use xcm_core::weight::Weight;

fn alice() -> AccountId {
    AccountId::new([0u8; 32])
}

fn bob() -> AccountId {
    AccountId::new([1u8; 32])
}

fn mrisho() -> AccountId {
    AccountId::new([2u8; 32])
}

fn vane() -> AccountId {
    AccountId::new([5u8; 32])
}

fn limit() -> Weight {
    Weight::from_parts(1_000_000, 1_000_000)
}

fn account_junction(a: &AccountId) -> Junction {
    Junction::AccountId32 { network: None, id: a.bytes }
}

fn account_location(a: &AccountId) -> Location {
    Location::from_junction(account_junction(a))
}

fn native_asset(amount: u128) -> Asset {
    Asset::fungible(AssetId::Concrete(Location::here()), amount)
}

/// The derivative class the parachain tracks the relay's native asset
/// with: anchored one hop up.
fn vdot_asset_id() -> AssetId {
    AssetId::Concrete(Location::parent())
}

/// Genesis for the native reserve-transfer scenario: the relay funds the
/// sender and the destination's sovereign account, the parachain carries
/// the derivative class and a local asset class with prior balance.
fn reserve_scenario_net() -> Network {
    let mut relay = Chain::new(ChainId::Relay, NetworkId::Kusama, true, Barrier::AllowAll);
    relay.genesis_balance(&alice(), INITIAL_BALANCE);
    relay.genesis_balance(&child_account_id(1), INITIAL_BALANCE);
    let mut para = Chain::new(ChainId::Para(1), NetworkId::Kusama, false, Barrier::AllowAll);
    para.genesis_balance(&alice(), INITIAL_BALANCE);
    para.genesis_balance(&parent_account_id(), INITIAL_BALANCE);
    para.genesis_asset(para_asset_id(), &child_account_id(1));
    assert!(para.genesis_asset_balance(&para_asset_id(), &vane(), 100_000));
    para.genesis_asset(vdot_asset_id(), &child_account_id(1));
    Network::new(relay, vec![para])
}

fn transact(call: Call) -> Instruction {
    Instruction::Transact {
        origin_kind: OriginKind::SovereignAccount,
        require_weight_at_most: Weight::from_parts(1_000_000_000, 1024 * 1024),
        call: CallPayload::Parsed(call),
    }
}

#[test]
fn vane_remote_soln1_native_token_works() {
    let mut net = reserve_scenario_net();
    let amount = 100_000u128;
    let asset_amount = 1000u128;

    // Relay: reserve transfer of the native token to the parachain.
    net.process_inbound(ChainId::Relay, limit());
    let sent = net.relay.reserve_transfer_assets(
        &alice(),
        Location::child_parachain(1),
        account_location(&alice()),
        native_asset(amount),
        0,
    );
    assert!(sent.is_ok());
    // The tokens sit in the destination's sovereign account on the relay.
    assert_eq!(
        net.relay.free_balance(&child_account_id(1)),
        INITIAL_BALANCE + amount
    );
    net.flush_outbound(ChainId::Relay);

    // Destination: the queued mint lands and the derivative is credited.
    net.process_inbound(ChainId::Para(1), limit());
    assert_eq!(net.paras[0].asset_balance(&vdot_asset_id(), &alice()), amount);
    // Conservation: the derivative's issuance equals what the relay locked.
    assert_eq!(net.paras[0].total_issuance(&vdot_asset_id()), amount);

    // Local custom asset transfer on the parachain.
    let asset1 = para_asset_id();
    assert!(net.paras[0].dispatch_call(
        &vane(),
        &Call::AssetTransferKeepAlive { id: para_asset_id(), target: mrisho(), amount: 1000 }
    ));
    assert_eq!(net.paras[0].asset_balance(&asset1, &vane()), 100_000 - 1000);
    assert_eq!(net.paras[0].asset_balance(&asset1, &mrisho()), 1000);

    // The same transfer through a locally executed message.
    let msg = Message::new(vec![transact(Call::AssetTransferKeepAlive {
        id: para_asset_id(),
        target: bob(),
        amount: asset_amount,
    })]);
    let outcome = net.paras[0].execute(
        &vane(),
        &msg,
        Weight::from_parts(1_000_000_005, 1025 * 1024),
    );
    assert!(matches!(outcome, Outcome::Complete(_)));
    assert_eq!(
        net.paras[0].asset_balance(&asset1, &vane()),
        100_000 - asset_amount * 2
    );
    assert_eq!(net.paras[0].asset_balance(&asset1, &bob()), 1000);
    net.flush_outbound(ChainId::Para(1));
}

#[test]
fn vane_remote_soln1_custom_asset_derivitive_works() {
    let mut para = para_ext(1);
    let sovereign = child_account_id(1);
    let asset1 = para_asset_id();

    assert!(para.dispatch_call(
        &sovereign,
        &Call::AssetMint { id: para_asset_id(), beneficiary: mrisho(), amount: 1000 }
    ));
    assert_eq!(para.asset_balance(&asset1, &mrisho()), 1000);
    assert_eq!(para.total_supply(&asset1) + para.total_issuance(&asset1), 2000);

    // Minting through a locally executed message.
    let msg = Message::new(vec![transact(Call::AssetMint {
        id: para_asset_id(),
        beneficiary: bob(),
        amount: 1000,
    })]);
    let outcome = para.execute(
        &sovereign,
        &msg,
        Weight::from_parts(1_000_000_005, 1025 * 1024),
    );
    assert!(matches!(outcome, Outcome::Complete(_)));
    assert_eq!(para.asset_balance(&asset1, &bob()), 1000);
    assert_eq!(para.total_supply(&asset1) + para.total_issuance(&asset1), 4000);
}

#[test]
fn vane_remote_soln1_custom_asset_derivitive_xcm_works() {
    let mut net = Network::new(relay_ext(), vec![para_ext(1)]);

    net.process_inbound(ChainId::Relay, limit());
    let msg = Message::new(vec![transact(Call::StoreValue { acc: alice(), num: 50 })]);
    net.relay.send(&alice(), Location::child_parachain(1), msg);
    net.flush_outbound(ChainId::Relay);

    net.process_inbound(ChainId::Para(1), limit());
    assert_eq!(net.paras[0].get_test_stored(&alice()), 50);
}

#[test]
fn vane_remote_soln1_custom_asset_derivitive_manual_xcm_works() {
    let mut net = Network::new(relay_ext(), vec![para_ext(1)]);
    let asset1 = para_asset_id();
    let sovereign = child_account_id(1);

    net.process_inbound(ChainId::Relay, limit());
    // 1. Fund the parachain's sovereign account on the relay.
    assert!(net.relay.dispatch_call(
        &alice(),
        &Call::BalanceTransferKeepAlive { dest: child_account_id(1), value: 1000 }
    ));
    // 2. A remote signed transact storing a value.
    let msg = Message::new(vec![transact(Call::StoreValue { acc: alice(), num: 1000 })]);
    net.relay.send(&alice(), Location::child_parachain(1), msg);
    assert_eq!(net.relay.free_balance(&child_account_id(1)), 1000);
    net.flush_outbound(ChainId::Relay);

    net.process_inbound(ChainId::Para(1), limit());
    assert_eq!(net.paras[0].get_test_stored(&alice()), 1000);

    // Mint the equivalent derivative units.
    let mint = Message::new(vec![transact(Call::AssetMint {
        id: para_asset_id(),
        beneficiary: alice(),
        amount: 1000,
    })]);
    let outcome = net.paras[0].execute(
        &sovereign,
        &mint,
        Weight::from_parts(1_000_000_005, 1025 * 1024),
    );
    assert!(matches!(outcome, Outcome::Complete(_)));
    assert_eq!(net.paras[0].asset_balance(&asset1, &alice()), 1000);

    // Return path: burn locally, then transfer the locked tokens on the
    // relay to the final beneficiary.
    assert!(net.paras[0].dispatch_call(
        &sovereign,
        &Call::AssetBurn { id: para_asset_id(), who: alice(), amount: 1000 }
    ));
    assert_eq!(net.paras[0].asset_balance(&asset1, &alice()), 0);

    let return_message = Message::new(vec![Instruction::TransferAsset {
        assets: vec![native_asset(1000)],
        beneficiary: account_location(&bob()),
    }]);
    net.paras[0].send_xcm(Location::parent(), return_message);
    net.flush_outbound(ChainId::Para(1));

    net.process_inbound(ChainId::Relay, limit());
    assert_eq!(net.relay.free_balance(&bob()), 1000 + 100_000);
}

#[test]
fn vane_remote_soln1_custom_asset_derivitive_manual_xcm_pallet_works() {
    let mut net = Network::new(relay_ext(), vec![para_ext(1)]);

    net.process_inbound(ChainId::Relay, limit());
    assert!(net.relay.dispatch_call(
        &alice(),
        &Call::BalanceTransferKeepAlive { dest: child_account_id(1), value: 1000 }
    ));

    let msg = Message::new(vec![
        Instruction::DescendOrigin(account_junction(&alice())),
        transact(Call::VaneTransfer {
            payee: bob(),
            amount: 1000,
            asset_id: para_asset_id(),
        }),
    ]);
    net.relay.send(&alice(), Location::child_parachain(1), msg);
    net.flush_outbound(ChainId::Relay);

    net.process_inbound(ChainId::Para(1), limit());
}

#[test]
fn vane_remote_soln2_works() {}

#[test]
fn round_isolation_holds_across_flush() {
    let mut net = Network::new(relay_ext(), vec![para_ext(1)]);

    net.process_inbound(ChainId::Relay, limit());
    let msg = Message::new(vec![transact(Call::StoreValue { acc: alice(), num: 7 })]);
    net.relay.send(&alice(), Location::child_parachain(1), msg);

    // Unflushed: the message is absent from the destination's round.
    net.process_inbound(ChainId::Para(1), limit());
    assert_eq!(net.paras[0].get_test_stored(&alice()), 0);

    // After the flush it is present at the start of the next round.
    net.flush_outbound(ChainId::Relay);
    net.process_inbound(ChainId::Para(1), limit());
    assert_eq!(net.paras[0].get_test_stored(&alice()), 7);
}

#[test]
fn local_transfer_keeps_total_issuance() {
    let mut net = reserve_scenario_net();
    let asset1 = para_asset_id();
    let before = net.paras[0].total_issuance(&asset1);
    assert_eq!(before, 100_000);
    assert!(net.paras[0].dispatch_call(
        &vane(),
        &Call::AssetTransferKeepAlive { id: para_asset_id(), target: mrisho(), amount: 1000 }
    ));
    assert_eq!(net.paras[0].asset_balance(&asset1, &vane()), 99_000);
    assert_eq!(net.paras[0].asset_balance(&asset1, &mrisho()), 1000);
    assert_eq!(net.paras[0].total_issuance(&asset1), before);
}

#[test]
fn malformed_transact_call_records_dispatch_failure() {
    let mut net = Network::new(relay_ext(), vec![para_ext(1)]);

    net.process_inbound(ChainId::Relay, limit());
    let msg = Message::new(vec![Instruction::Transact {
        origin_kind: OriginKind::SovereignAccount,
        require_weight_at_most: Weight::from_parts(1_000_000_000, 1024 * 1024),
        call: CallPayload::Raw(vec![0xDE, 0xAD, 0xBE, 0xEF]),
    }]);
    net.relay.send(&alice(), Location::child_parachain(1), msg);
    net.flush_outbound(ChainId::Relay);

    net.process_inbound(ChainId::Para(1), limit());
    assert!(net.paras[0].events.contains(&Event::DispatchFailed));
    assert_eq!(net.paras[0].get_test_stored(&alice()), 0);
}

#[test]
fn successful_transact_records_dispatch_success() {
    let mut net = Network::new(relay_ext(), vec![para_ext(1)]);

    net.process_inbound(ChainId::Relay, limit());
    let msg = Message::new(vec![transact(Call::StoreValue { acc: alice(), num: 9 })]);
    net.relay.send(&alice(), Location::child_parachain(1), msg);
    net.flush_outbound(ChainId::Relay);

    net.process_inbound(ChainId::Para(1), limit());
    assert!(net.paras[0].events.contains(&Event::DispatchSucceeded));
    assert!(net.paras[0]
        .events
        .iter()
        .any(|e| matches!(e, Event::Executed(Outcome::Complete(_)))));
}

#[test]
fn untrusted_reserve_deposit_fails_bad_origin() {
    let mut para = para_ext(1);
    // Claiming a reserve deposit of an asset the signer is no reserve
    // for is rejected before any holding credit.
    let msg = Message::new(vec![Instruction::ReserveAssetDeposited(vec![Asset::fungible(
        vdot_asset_id(),
        5,
    )])]);
    let outcome = para.execute(&alice(), &msg, limit());
    assert!(matches!(
        outcome,
        Outcome::Incomplete(_, ExecError::BadOrigin)
    ));
}

#[test]
fn deposit_filters_select_assets() {
    // A definite deposit of exactly what was withdrawn succeeds.
    let mut relay = relay_ext();
    let msg = Message::new(vec![
        Instruction::WithdrawAsset(vec![native_asset(500)]),
        Instruction::DepositAsset {
            assets: AssetFilter::Definite(vec![native_asset(500)]),
            beneficiary: account_location(&bob()),
        },
    ]);
    let outcome = relay.execute(&alice(), &msg, limit());
    assert!(matches!(outcome, Outcome::Complete(_)));
    assert_eq!(relay.free_balance(&alice()), 100_000 - 500);
    assert_eq!(relay.free_balance(&bob()), 100_000 + 500);
}

#[test]
fn initiate_reserve_withdraw_burns_and_queues() {
    let mut para = para_ext(1);
    para.genesis_asset(vdot_asset_id(), &child_account_id(1));
    assert!(para.genesis_asset_balance(&vdot_asset_id(), &alice(), 500));
    assert_eq!(para.total_issuance(&vdot_asset_id()), 500);

    // Withdraw part of the derivative and hand it back to the reserve,
    // attaching the program the reserve should run after its withdrawal.
    let msg = Message::new(vec![
        Instruction::WithdrawAsset(vec![Asset::fungible(vdot_asset_id(), 200)]),
        Instruction::InitiateReserveWithdraw {
            assets: AssetFilter::WildAll,
            reserve: Location::parent(),
            xcm: vec![Instruction::DepositAsset {
                assets: AssetFilter::WildAll,
                beneficiary: account_location(&bob()),
            }],
        },
    ]);
    let outcome = para.execute(&alice(), &msg, limit());
    assert!(matches!(outcome, Outcome::Complete(_)));
    // The derivative was burned out of issuance and a message waits for
    // the reserve.
    assert_eq!(para.asset_balance(&vdot_asset_id(), &alice()), 300);
    assert_eq!(para.total_issuance(&vdot_asset_id()), 300);
    assert_eq!(para.outbound.len(), 1);
}

#[test]
fn horizontal_channel_delivers_between_siblings() {
    let mut net = Network::new(relay_ext(), vec![para_ext(1), para_ext(2)]);

    // Parachain 1 writes to its sibling, parachain 2.
    net.process_inbound(ChainId::Para(1), limit());
    let dest = Location::parent_then(Junction::Parachain(2));
    let msg = Message::new(vec![transact(Call::StoreValue { acc: alice(), num: 21 })]);
    net.paras[0].send(&alice(), dest, msg);
    net.flush_outbound(ChainId::Para(1));

    net.process_inbound(ChainId::Para(2), limit());
    assert_eq!(net.paras[1].get_test_stored(&alice()), 21);
    assert_eq!(net.paras[0].get_test_stored(&alice()), 0);
}
