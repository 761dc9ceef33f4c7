use xcm_core::account::{
    child_account_account_id, child_account_id, parent_account_account_id, parent_account_id,
    AccountId,
};
use xcm_core::asset::{Asset, AssetFilter, AssetId};
use xcm_core::chain::{Barrier, Chain, ChainId, ExecError, Outcome};
use xcm_core::location::{resolve, Junction, Location, NetworkId};
use xcm_core::message::{Instruction, Message};
use xcm_core::network::relay_ext;
use xcm_core::weight::Weight;

fn alice() -> AccountId {
    AccountId::new([0u8; 32])
}

fn bob() -> AccountId {
    AccountId::new([1u8; 32])
}

fn limit() -> Weight {
    Weight::from_parts(1_000_000, 1_000_000)
}

fn native_asset(amount: u128) -> Asset {
    Asset::fungible(AssetId::Concrete(Location::here()), amount)
}

fn account_location(a: &AccountId) -> Location {
    Location::from_junction(Junction::AccountId32 { network: None, id: a.bytes })
}

#[test]
fn deny_all_barrier_rejects_without_side_effects() {
    let mut relay = Chain::new(ChainId::Relay, NetworkId::Kusama, true, Barrier::DenyAll);
    relay.genesis_balance(&alice(), 1000);
    let msg = Message::new(vec![Instruction::WithdrawAsset(vec![native_asset(100)])]);
    let outcome = relay.execute(&alice(), &msg, limit());
    assert_eq!(outcome, Outcome::Error(ExecError::BarrierRejected));
    assert_eq!(relay.free_balance(&alice()), 1000);
}

#[test]
fn paid_barrier_admits_only_paying_programs() {
    let mut relay = Chain::new(ChainId::Relay, NetworkId::Kusama, true, Barrier::RequirePaid);
    relay.genesis_balance(&alice(), 1000);
    let unpaid = Message::new(vec![Instruction::Noop]);
    assert_eq!(
        relay.execute(&alice(), &unpaid, limit()),
        Outcome::Error(ExecError::BarrierRejected)
    );
    let paid = Message::new(vec![
        Instruction::WithdrawAsset(vec![native_asset(10)]),
        Instruction::BuyExecution {
            fees: native_asset(10),
            weight_limit: xcm_core::weight::WeightLimit::Unlimited,
        },
    ]);
    assert!(matches!(relay.execute(&alice(), &paid, limit()), Outcome::Complete(_)));
}

#[test]
fn weight_budget_stops_the_remainder() {
    let mut relay = relay_ext();
    // Two instructions, a budget for one: the first commits, the second
    // never runs.
    let msg = Message::new(vec![
        Instruction::WithdrawAsset(vec![native_asset(100)]),
        Instruction::DepositAsset {
            assets: AssetFilter::WildAll,
            beneficiary: account_location(&bob()),
        },
    ]);
    let outcome = relay.execute(&alice(), &msg, Weight::from_parts(1, 1));
    assert_eq!(
        outcome,
        Outcome::Incomplete(Weight::from_parts(1, 1), ExecError::WeightExceeded)
    );
    assert_eq!(relay.free_balance(&alice()), 100_000 - 100);
    assert_eq!(relay.free_balance(&bob()), 100_000);
}

#[test]
fn withdrawing_more_than_the_balance_fails() {
    let mut relay = relay_ext();
    let msg = Message::new(vec![Instruction::WithdrawAsset(vec![native_asset(100_001)])]);
    let outcome = relay.execute(&alice(), &msg, limit());
    assert!(matches!(
        outcome,
        Outcome::Incomplete(_, ExecError::NotWithdrawable)
    ));
    assert_eq!(relay.free_balance(&alice()), 100_000);
}

#[test]
fn depositing_more_than_withheld_fails_not_depositable() {
    let mut relay = relay_ext();
    // Withdraw 500 but ask the deposit for 600: the holding never goes
    // negative; the deposit fails and the holding keeps its 500.
    let msg = Message::new(vec![
        Instruction::WithdrawAsset(vec![native_asset(500)]),
        Instruction::DepositAsset {
            assets: AssetFilter::Definite(vec![native_asset(600)]),
            beneficiary: account_location(&bob()),
        },
    ]);
    let outcome = relay.execute(&alice(), &msg, limit());
    assert!(matches!(
        outcome,
        Outcome::Incomplete(_, ExecError::NotDepositable)
    ));
    assert_eq!(relay.free_balance(&alice()), 100_000 - 500);
    assert_eq!(relay.free_balance(&bob()), 100_000);
}

#[test]
fn descend_origin_past_the_depth_limit_overflows() {
    let mut relay = relay_ext();
    let mut instructions = Vec::new();
    // The signed origin starts one junction deep; seven more fit, the
    // eighth descent exceeds the eight-junction interior.
    for _ in 0..8 {
        instructions.push(Instruction::DescendOrigin(Junction::PalletInstance(1)));
    }
    let msg = Message::new(instructions);
    let outcome = relay.execute(&alice(), &msg, limit());
    assert!(matches!(
        outcome,
        Outcome::Incomplete(_, ExecError::LocationOverflow)
    ));
}

#[test]
fn buying_execution_consumes_held_fees() {
    let mut relay = relay_ext();
    let msg = Message::new(vec![
        Instruction::WithdrawAsset(vec![native_asset(40)]),
        Instruction::BuyExecution {
            fees: native_asset(30),
            weight_limit: xcm_core::weight::WeightLimit::Unlimited,
        },
        Instruction::DepositAsset {
            assets: AssetFilter::WildAll,
            beneficiary: account_location(&bob()),
        },
    ]);
    let outcome = relay.execute(&alice(), &msg, limit());
    assert!(matches!(outcome, Outcome::Complete(_)));
    // Ten units remain after fees and reach the beneficiary.
    assert_eq!(relay.free_balance(&bob()), 100_000 + 10);
    assert_eq!(relay.free_balance(&alice()), 100_000 - 40);
}

#[test]
fn buying_more_fees_than_held_fails() {
    let mut relay = relay_ext();
    let msg = Message::new(vec![
        Instruction::WithdrawAsset(vec![native_asset(10)]),
        Instruction::BuyExecution {
            fees: native_asset(30),
            weight_limit: xcm_core::weight::WeightLimit::Unlimited,
        },
    ]);
    let outcome = relay.execute(&alice(), &msg, limit());
    assert!(matches!(
        outcome,
        Outcome::Incomplete(_, ExecError::NotWithdrawable)
    ));
}

#[test]
fn sovereign_accounts_are_deterministic_and_distinct() {
    assert_eq!(parent_account_id(), parent_account_id());
    assert_eq!(child_account_id(1), child_account_id(1));
    assert_ne!(child_account_id(1), child_account_id(2));
    assert_ne!(parent_account_id(), child_account_id(1));
    assert_eq!(
        child_account_account_id(1, alice()),
        child_account_account_id(1, alice())
    );
    assert_ne!(
        child_account_account_id(1, alice()),
        child_account_account_id(1, bob())
    );
    assert_eq!(
        parent_account_account_id(alice()),
        parent_account_account_id(alice())
    );
}

#[test]
fn resolve_ascends_and_appends() {
    let origin = Location {
        parents: 0,
        interior: vec![Junction::Parachain(1), Junction::PalletInstance(2)],
    };
    let relative = Location {
        parents: 1,
        interior: vec![Junction::GeneralIndex(9)],
    };
    let resolved = resolve(&origin, &relative).expect("within depth");
    assert_eq!(resolved.parents, 0);
    assert_eq!(resolved.interior.len(), 2);
    assert!(matches!(resolved.interior[0], Junction::Parachain(1)));
    assert!(matches!(resolved.interior[1], Junction::GeneralIndex(9)));

    let too_deep = Location { parents: 3, interior: Vec::new() };
    assert!(resolve(&origin, &too_deep).is_err());
}
