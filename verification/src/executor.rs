//! The instruction executor: one instance per executed message. It
//! consumes a decoded instruction sequence in order against a fixed entry
//! origin, a fresh holding register, and a weight budget. Each
//! instruction is charged before its effect; a failed instruction stops
//! the rest but never rolls back what earlier instructions committed. The
//! whole semantics is a function over chain models; the executable
//! interpreter is proved equal to it.

use vstd::prelude::*;
use crate::account::{derive_account, derive_account_spec, AccountId};
use crate::asset::{Asset, AssetFilter, AssetId, AssetIdModel, AssetModel, Fungibility};
use crate::chain::{
    dispatch_spec,
    Barrier,
    Chain,
    ChainModel,
    Event,
    ExecError,
    Outcome,
};
use crate::codec::{
    asset_id_encodable,
    enc_instr,
    enc_instrs_items,
    enc_message,
    instr_encodable,
    instrs_encodable,
    MESSAGE_VERSION,
};
use crate::holding::{
    hold0,
    hold_add_spec,
    hold_inv,
    take_definite_spec,
    wild_kept,
    wild_selected,
    Holding,
};
use crate::kv::kv_put;
use crate::location::{LocModel, Location, Junction, MAX_JUNCTIONS};
use crate::message::{
    instr_model,
    instrs_model,
    CallPayload,
    CallPayloadModel,
    InstrModel,
    Instruction,
    Message,
    OriginKind,
};
use crate::transactor::{deposit_one_spec, transactor_deposit, transactor_withdraw, withdraw_one_spec};
use crate::weight::{Weight, WeightLimit};

verus! {

/// The cost charged for each instruction, before its effect.
pub open spec fn unit_weight() -> Weight {
    Weight { ref_time: 1, proof_size: 1 }
}

/// Whether the admission barrier lets a program run at all.
pub open spec fn barrier_allows(b: Barrier, instrs: Seq<InstrModel>) -> bool {
    match b {
        Barrier::AllowAll => true,
        Barrier::DenyAll => false,
        Barrier::RequirePaid => exists|k: int|
            0 <= k < instrs.len() && (#[trigger] instrs[k]) is BuyExecution,
    }
}

/// Fungible assets as holding entries.
pub open spec fn entries_of_assets(s: Seq<AssetModel>) -> Seq<(AssetIdModel, u128)> {
    s.map_values(
        |a: AssetModel|
            (
                a.id,
                match a.fun {
                    Fungibility::Fungible(x) => x,
                    Fungibility::NonFungible(_) => 0,
                },
            ),
    )
}

/// Holding entries as fungible assets.
pub open spec fn assets_of_entries(s: Seq<(AssetIdModel, u128)>) -> Seq<AssetModel> {
    s.map_values(|e: (AssetIdModel, u128)| AssetModel { id: e.0, fun: Fungibility::Fungible(e.1) })
}

/// Withdrawing a list of assets from `who` into the holding, in order:
/// stops at the first non-fungible or short asset, keeping what earlier
/// assets already moved.
pub open spec fn withdraw_assets_spec(
    c: ChainModel,
    h: Seq<(AssetIdModel, u128)>,
    who: AccountId,
    assets: Seq<AssetModel>,
) -> (ChainModel, Seq<(AssetIdModel, u128)>, Option<ExecError>)
    decreases assets.len(),
{
    if assets.len() == 0 {
        (c, h, None)
    } else {
        match assets.first().fun {
            Fungibility::Fungible(amount) => match withdraw_one_spec(
                c,
                assets.first().id,
                amount,
                who,
            ) {
                Some(c2) => withdraw_assets_spec(
                    c2,
                    hold_add_spec(h, assets.first().id, amount),
                    who,
                    assets.drop_first(),
                ),
                None => (c, h, Some(ExecError::NotWithdrawable)),
            },
            Fungibility::NonFungible(_) => (c, h, Some(ExecError::NotWithdrawable)),
        }
    }
}

/// Crediting the holding because a reserve locked the assets: each asset
/// must be fungible and anchored exactly at the sending origin, the one
/// location trusted as its reserve.
pub open spec fn reserve_deposit_spec(
    h: Seq<(AssetIdModel, u128)>,
    origin: LocModel,
    assets: Seq<AssetModel>,
) -> (Seq<(AssetIdModel, u128)>, Option<ExecError>)
    decreases assets.len(),
{
    if assets.len() == 0 {
        (h, None)
    } else {
        match assets.first().fun {
            Fungibility::Fungible(amount) => {
                if assets.first().id == AssetIdModel::Concrete(origin) {
                    reserve_deposit_spec(
                        hold_add_spec(h, assets.first().id, amount),
                        origin,
                        assets.drop_first(),
                    )
                } else {
                    (h, Some(ExecError::BadOrigin))
                }
            },
            Fungibility::NonFungible(_) => (h, Some(ExecError::BadOrigin)),
        }
    }
}

/// Moving a list of assets from `from` to `to` directly, one asset at a
/// time, each atomically: a failing asset leaves earlier ones moved.
pub open spec fn transfer_assets_spec(
    c: ChainModel,
    from: AccountId,
    to: AccountId,
    assets: Seq<AssetModel>,
) -> (ChainModel, Option<ExecError>)
    decreases assets.len(),
{
    if assets.len() == 0 {
        (c, None)
    } else {
        match assets.first().fun {
            Fungibility::Fungible(amount) => match withdraw_one_spec(
                c,
                assets.first().id,
                amount,
                from,
            ) {
                None => (c, Some(ExecError::NotWithdrawable)),
                Some(c2) => match deposit_one_spec(c2, assets.first().id, amount, to) {
                    None => (c, Some(ExecError::NotDepositable)),
                    Some(c3) => transfer_assets_spec(c3, from, to, assets.drop_first()),
                },
            },
            Fungibility::NonFungible(_) => (c, Some(ExecError::NotWithdrawable)),
        }
    }
}

/// Depositing drained holding entries to `who`, in order: a failing
/// entry stops the rest; entries a failed deposit leaves are discarded,
/// as this core has no asset trap.
pub open spec fn deposit_entries_spec(
    c: ChainModel,
    entries: Seq<(AssetIdModel, u128)>,
    who: AccountId,
) -> (ChainModel, Option<ExecError>)
    decreases entries.len(),
{
    if entries.len() == 0 {
        (c, None)
    } else {
        match deposit_one_spec(c, entries.first().0, entries.first().1, who) {
            None => (c, Some(ExecError::NotDepositable)),
            Some(c2) => deposit_entries_spec(c2, entries.drop_first(), who),
        }
    }
}

/// The account value whose view is `s`; for a 32-byte string there is
/// exactly one.
pub open spec fn account_of_bytes(s: Seq<u8>) -> AccountId {
    choose|a: AccountId| a@ == s
}

/// Every account is the account of its own bytes.
pub proof fn lemma_account_of_bytes(a: AccountId)
    ensures
        account_of_bytes(a@) == a,
{
    assert(a@ == a@);
    let c = account_of_bytes(a@);
    assert(c@ == a@);
    vstd::array::axiom_array_ext_equal(c.bytes, a.bytes);
    assert(c.bytes =~= a.bytes);
}

/// The account a location derives to, as a value.
pub open spec fn account_of_location(l: LocModel, net: crate::location::NetworkId) -> AccountId {
    account_of_bytes(derive_account_spec(l, net))
}

/// The signed account `Transact` dispatches as, per origin kind: the
/// origin's derived sovereign account, or — natively — the 32-byte
/// account the origin itself denotes, when it denotes one.
pub open spec fn transact_signer_spec(
    origin: LocModel,
    kind: OriginKind,
    net: crate::location::NetworkId,
) -> Option<AccountId> {
    match kind {
        OriginKind::SovereignAccount => Some(account_of_location(origin, net)),
        OriginKind::Native => {
            if origin.parents == 0 && origin.interior.len() == 1 && origin.interior[0]
                is AccountId32 && (origin.interior[0]->AccountId32_network is None
                || origin.interior[0]->AccountId32_network == Option::Some(net)) {
                Some(AccountId { bytes: origin.interior[0]->AccountId32_id })
            } else {
                None
            }
        },
    }
}

/// Sending the reserve the program that withdraws the taken assets there,
/// followed by the attached instructions.
pub open spec fn irw_send_spec(
    c: ChainModel,
    reserve: LocModel,
    sel: Seq<(AssetIdModel, u128)>,
    xcm: Seq<InstrModel>,
) -> ChainModel {
    let prog = seq![InstrModel::WithdrawAsset(assets_of_entries(sel))] + xcm;
    ChainModel { outbound: c.outbound.push((reserve, enc_message(prog))), ..c }
}

/// What one instruction does to the chain, the origin, and the holding;
/// the fourth component names the error that stopped it, if one did.
pub open spec fn step_instr_spec(
    c: ChainModel,
    origin: LocModel,
    h: Seq<(AssetIdModel, u128)>,
    i: InstrModel,
) -> (ChainModel, LocModel, Seq<(AssetIdModel, u128)>, Option<ExecError>) {
    match i {
        InstrModel::WithdrawAsset(assets) => {
            let who = account_of_location(origin, c.network);
            let (c2, h2, e) = withdraw_assets_spec(c, h, who, assets);
            (c2, origin, h2, e)
        },
        InstrModel::ReserveAssetDeposited(assets) => {
            let (h2, e) = reserve_deposit_spec(h, origin, assets);
            (c, origin, h2, e)
        },
        InstrModel::TransferAsset { assets, beneficiary } => {
            let from = account_of_location(origin, c.network);
            let to = account_of_location(beneficiary, c.network);
            let (c2, e) = transfer_assets_spec(c, from, to, assets);
            (c2, origin, h, e)
        },
        InstrModel::DepositAsset { assets: filter, beneficiary } => {
            let to = account_of_location(beneficiary, c.network);
            match filter {
                crate::asset::FilterModel::Definite(list) => match take_definite_spec(h, list) {
                    None => (c, origin, h, Some(ExecError::NotDepositable)),
                    Some(h2) => {
                        let (c2, e) = deposit_entries_spec(c, entries_of_assets(list), to);
                        (c2, origin, h2, e)
                    },
                },
                _ => {
                    let (c2, e) = deposit_entries_spec(c, wild_selected(h, filter), to);
                    (c2, origin, wild_kept(h, filter), e)
                },
            }
        },
        InstrModel::InitiateReserveWithdraw { assets: filter, reserve, xcm } => {
            if xcm.len() + 1 >= 0x100000000 {
                (c, origin, h, Some(ExecError::LocationOverflow))
            } else {
                match filter {
                    crate::asset::FilterModel::Definite(list) => {
                        if list.len() >= 0x100000000 {
                            (c, origin, h, Some(ExecError::LocationOverflow))
                        } else {
                            match take_definite_spec(h, list) {
                                None => (c, origin, h, Some(ExecError::NotWithdrawable)),
                                Some(h2) => (
                                    irw_send_spec(c, reserve, entries_of_assets(list), xcm),
                                    origin,
                                    h2,
                                    None,
                                ),
                            }
                        }
                    },
                    _ => {
                        if h.len() >= 0x100000000 {
                            (c, origin, h, Some(ExecError::LocationOverflow))
                        } else {
                            (
                                irw_send_spec(c, reserve, wild_selected(h, filter), xcm),
                                origin,
                                wild_kept(h, filter),
                                None,
                            )
                        }
                    },
                }
            }
        },
        InstrModel::Transact { origin_kind, require_weight_at_most, call } => {
            match transact_signer_spec(origin, origin_kind, c.network) {
                None => (c, origin, h, Some(ExecError::BadOrigin)),
                Some(signer) => match call {
                    CallPayloadModel::Parsed(cm) => {
                        let (c2, ok) = dispatch_spec(c, signer, cm);
                        let ev = if ok {
                            Event::DispatchSucceeded
                        } else {
                            Event::DispatchFailed
                        };
                        (ChainModel { events: c2.events.push(ev), ..c2 }, origin, h, None)
                    },
                    CallPayloadModel::Raw(_) => (
                        ChainModel { events: c.events.push(Event::DispatchFailed), ..c },
                        origin,
                        h,
                        None,
                    ),
                },
            }
        },
        InstrModel::BuyExecution { fees, weight_limit } => {
            match fees.fun {
                Fungibility::Fungible(amount) => {
                    if hold0(h, fees.id) >= amount {
                        (
                            c,
                            origin,
                            kv_put(h, fees.id, (hold0(h, fees.id) - amount) as u128),
                            None,
                        )
                    } else {
                        (c, origin, h, Some(ExecError::NotWithdrawable))
                    }
                },
                Fungibility::NonFungible(_) => (c, origin, h, Some(ExecError::NotWithdrawable)),
            }
        },
        InstrModel::DescendOrigin(j) => {
            if origin.interior.len() < MAX_JUNCTIONS {
                (
                    c,
                    LocModel { parents: origin.parents, interior: origin.interior.push(j) },
                    h,
                    None,
                )
            } else {
                (c, origin, h, Some(ExecError::LocationOverflow))
            }
        },
        InstrModel::Noop => (c, origin, h, None),
    }
}

/// Running a program: charge one unit of weight before each instruction,
/// stop with `Incomplete` at the first failure or when the budget cannot
/// cover the next instruction, and report `Complete` with the weight used
/// otherwise. The second component is the effective origin at the end.
pub open spec fn run_instrs_spec(
    c: ChainModel,
    origin: LocModel,
    h: Seq<(AssetIdModel, u128)>,
    used: Weight,
    instrs: Seq<InstrModel>,
    limit: Weight,
) -> (ChainModel, LocModel, Outcome)
    decreases instrs.len(),
{
    if instrs.len() == 0 {
        (c, origin, Outcome::Complete(used))
    } else {
        match used.spec_add(unit_weight()) {
            None => (c, origin, Outcome::Incomplete(used, ExecError::WeightExceeded)),
            Some(u) => {
                if !u.spec_fits(limit) {
                    (c, origin, Outcome::Incomplete(used, ExecError::WeightExceeded))
                } else {
                    let (c2, o2, h2, e) = step_instr_spec(c, origin, h, instrs.first());
                    match e {
                        Some(err) => (c2, o2, Outcome::Incomplete(u, err)),
                        None => run_instrs_spec(c2, o2, h2, u, instrs.drop_first(), limit),
                    }
                }
            },
        }
    }
}

/// What executing a whole message does: the barrier is consulted once,
/// over the full program, before any effect; a rejection is an `Error`
/// outcome with the chain untouched. Assets a completed or stopped
/// program leaves in the holding are discarded: this core has no asset
/// trap.
pub open spec fn exec_message_spec(
    c: ChainModel,
    origin: LocModel,
    instrs: Seq<InstrModel>,
    limit: Weight,
) -> (ChainModel, Outcome) {
    if !barrier_allows(c.barrier, instrs) {
        (c, Outcome::Error(ExecError::BarrierRejected))
    } else {
        let (c2, o2, outcome) = run_instrs_spec(
            c,
            origin,
            Seq::empty(),
            Weight::spec_zero(),
            instrs,
            limit,
        );
        (c2, outcome)
    }
}

/// Execution never touches a chain's identity, configuration, or — the
/// heart of round isolation — its inbound queue.
pub open spec fn frame_ok(a: ChainModel, b: ChainModel) -> bool {
    &&& a.id == b.id
    &&& a.network == b.network
    &&& a.has_native == b.has_native
    &&& a.barrier == b.barrier
    &&& a.inbound == b.inbound
}

proof fn lemma_withdraw_one_frame(c: ChainModel, id: AssetIdModel, amount: u128, who: AccountId)
    ensures
        match withdraw_one_spec(c, id, amount, who) {
            Some(c2) => frame_ok(c2, c),
            None => true,
        },
{
}

proof fn lemma_deposit_one_frame(c: ChainModel, id: AssetIdModel, amount: u128, who: AccountId)
    ensures
        match deposit_one_spec(c, id, amount, who) {
            Some(c2) => frame_ok(c2, c),
            None => true,
        },
{
}

proof fn lemma_dispatch_frame(c: ChainModel, signer: AccountId, call: crate::message::CallModel)
    ensures
        frame_ok(dispatch_spec(c, signer, call).0, c),
{
}

proof fn lemma_withdraw_assets_frame(
    c: ChainModel,
    h: Seq<(AssetIdModel, u128)>,
    who: AccountId,
    assets: Seq<AssetModel>,
)
    ensures
        frame_ok(withdraw_assets_spec(c, h, who, assets).0, c),
    decreases assets.len(),
{
    if assets.len() > 0 {
        match assets.first().fun {
            Fungibility::Fungible(amount) => {
                lemma_withdraw_one_frame(c, assets.first().id, amount, who);
                match withdraw_one_spec(c, assets.first().id, amount, who) {
                    Some(c2) => {
                        lemma_withdraw_assets_frame(
                            c2,
                            hold_add_spec(h, assets.first().id, amount),
                            who,
                            assets.drop_first(),
                        );
                    },
                    None => {},
                }
            },
            Fungibility::NonFungible(_) => {},
        }
    }
}

proof fn lemma_transfer_assets_frame(
    c: ChainModel,
    from: AccountId,
    to: AccountId,
    assets: Seq<AssetModel>,
)
    ensures
        frame_ok(transfer_assets_spec(c, from, to, assets).0, c),
    decreases assets.len(),
{
    if assets.len() > 0 {
        match assets.first().fun {
            Fungibility::Fungible(amount) => {
                lemma_withdraw_one_frame(c, assets.first().id, amount, from);
                match withdraw_one_spec(c, assets.first().id, amount, from) {
                    Some(c2) => {
                        lemma_deposit_one_frame(c2, assets.first().id, amount, to);
                        match deposit_one_spec(c2, assets.first().id, amount, to) {
                            Some(c3) => {
                                lemma_transfer_assets_frame(c3, from, to, assets.drop_first());
                            },
                            None => {},
                        }
                    },
                    None => {},
                }
            },
            Fungibility::NonFungible(_) => {},
        }
    }
}

proof fn lemma_deposit_entries_frame(
    c: ChainModel,
    entries: Seq<(AssetIdModel, u128)>,
    who: AccountId,
)
    ensures
        frame_ok(deposit_entries_spec(c, entries, who).0, c),
    decreases entries.len(),
{
    if entries.len() > 0 {
        lemma_deposit_one_frame(c, entries.first().0, entries.first().1, who);
        match deposit_one_spec(c, entries.first().0, entries.first().1, who) {
            Some(c2) => {
                lemma_deposit_entries_frame(c2, entries.drop_first(), who);
            },
            None => {},
        }
    }
}

proof fn lemma_step_frame(
    c: ChainModel,
    origin: LocModel,
    h: Seq<(AssetIdModel, u128)>,
    i: InstrModel,
)
    ensures
        frame_ok(step_instr_spec(c, origin, h, i).0, c),
{
    match i {
        InstrModel::WithdrawAsset(assets) => {
            lemma_withdraw_assets_frame(c, h, account_of_location(origin, c.network), assets);
        },
        InstrModel::ReserveAssetDeposited(_) => {},
        InstrModel::TransferAsset { assets, beneficiary } => {
            lemma_transfer_assets_frame(
                c,
                account_of_location(origin, c.network),
                account_of_location(beneficiary, c.network),
                assets,
            );
        },
        InstrModel::DepositAsset { assets, beneficiary } => {
            let to = account_of_location(beneficiary, c.network);
            match assets {
                crate::asset::FilterModel::Definite(list) => {
                    lemma_deposit_entries_frame(c, entries_of_assets(list), to);
                },
                _ => {
                    lemma_deposit_entries_frame(c, wild_selected(h, assets), to);
                },
            }
        },
        InstrModel::InitiateReserveWithdraw { .. } => {},
        InstrModel::Transact { origin_kind, require_weight_at_most, call } => {
            match transact_signer_spec(origin, origin_kind, c.network) {
                Some(signer) => match call {
                    CallPayloadModel::Parsed(cm) => {
                        lemma_dispatch_frame(c, signer, cm);
                    },
                    CallPayloadModel::Raw(_) => {},
                },
                None => {},
            }
        },
        InstrModel::BuyExecution { .. } => {},
        InstrModel::DescendOrigin(_) => {},
        InstrModel::Noop => {},
    }
}

proof fn lemma_run_frame(
    c: ChainModel,
    origin: LocModel,
    h: Seq<(AssetIdModel, u128)>,
    used: Weight,
    instrs: Seq<InstrModel>,
    limit: Weight,
)
    ensures
        frame_ok(run_instrs_spec(c, origin, h, used, instrs, limit).0, c),
    decreases instrs.len(),
{
    if instrs.len() > 0 {
        match used.spec_add(unit_weight()) {
            None => {},
            Some(u) => {
                if u.spec_fits(limit) {
                    lemma_step_frame(c, origin, h, instrs.first());
                    let (c2, o2, h2, e) = step_instr_spec(c, origin, h, instrs.first());
                    match e {
                        Some(_) => {},
                        None => {
                            lemma_run_frame(c2, o2, h2, u, instrs.drop_first(), limit);
                        },
                    }
                }
            },
        }
    }
}

/// Round isolation, at the executor: running a message changes ledgers,
/// events, and the outbound queue, but never the inbound queue. A
/// message enqueued during a round's execution therefore sits in the
/// sender's outbound queue until the driver flushes it, and is absent
/// from everything the destination processed this round.
pub proof fn lemma_round_isolation(
    c: ChainModel,
    origin: LocModel,
    instrs: Seq<InstrModel>,
    limit: Weight,
)
    ensures
        exec_message_spec(c, origin, instrs, limit).0.inbound == c.inbound,
        frame_ok(exec_message_spec(c, origin, instrs, limit).0, c),
{
    if barrier_allows(c.barrier, instrs) {
        lemma_run_frame(c, origin, Seq::empty(), Weight::spec_zero(), instrs, limit);
    }
}

fn chain_push_event(c: &mut Chain, e: Event)
    requires
        old(c)@.inv(),
    ensures
        final(c)@.inv(),
        final(c)@ == (ChainModel { events: old(c)@.events.push(e), ..old(c)@ }),
{
    c.events.push(e);
}

fn chain_push_outbound(c: &mut Chain, dest: Location, bytes: Vec<u8>)
    requires
        old(c)@.inv(),
    ensures
        final(c)@.inv(),
        final(c)@ == (ChainModel {
            outbound: old(c)@.outbound.push((dest@, bytes@)),
            ..old(c)@
        }),
{
    let ghost pre = c@.outbound;
    let ghost dm = dest@;
    let ghost bm = bytes@;
    c.outbound.push((dest, bytes));
    proof {
        assert(c@.outbound =~= pre.push((dm, bm)));
    }
}

#[verifier::loop_isolation(false)]
fn barrier_check(b: Barrier, v: &Vec<Instruction>) -> (r: bool)
    ensures
        r == barrier_allows(b, instrs_model(v@)),
{
    match b {
        Barrier::AllowAll => true,
        Barrier::DenyAll => false,
        Barrier::RequirePaid => {
            let ghost m = instrs_model(v@);
            proof {
                crate::message::lemma_instrs_model_len(v@);
            }
            let n = v.len();
            let mut k: usize = 0;
            while k < n
                invariant
                    k <= n,
                    n == v@.len(),
                    m == instrs_model(v@),
                    m.len() == n,
                    forall|t: int| 0 <= t < k ==> !((#[trigger] m[t]) is BuyExecution),
                decreases n - k,
            {
                proof {
                    crate::message::lemma_instrs_model_index(v@, k as int);
                }
                if matches!(&v[k], Instruction::BuyExecution { .. }) {
                    return true;
                }
                k += 1;
            }
            false
        },
    }
}

/// Builds and queues the program `InitiateReserveWithdraw` sends to the
/// reserve: a withdrawal of the taken assets followed by the attached
/// instructions.
#[verifier::loop_isolation(false)]
fn irw_send_exec(
    chain: &mut Chain,
    reserve: &Location,
    sel: Vec<(AssetId, u128)>,
    xcm: &Vec<Instruction>,
)
    requires
        old(chain)@.inv(),
        crate::holding::hold_view(sel@).len() < 0x100000000,
        xcm@.len() + 1 < 0x100000000,
        instrs_encodable(instrs_model(xcm@)),
        forall|i: int|
            0 <= i < crate::holding::hold_view(sel@).len() ==> asset_id_encodable(
                (#[trigger] crate::holding::hold_view(sel@)[i]).0,
            ),
    ensures
        final(chain)@.inv(),
        final(chain)@ == irw_send_spec(
            old(chain)@,
            reserve@,
            crate::holding::hold_view(sel@),
            instrs_model(xcm@),
        ),
{
    let ghost selm = crate::holding::hold_view(sel@);
    let ghost xm = instrs_model(xcm@);
    proof {
        crate::message::lemma_instrs_model_len(xcm@);
    }
    let mut assets_vec: Vec<Asset> = Vec::new();
    let ns = sel.len();
    let mut i: usize = 0;
    while i < ns
        invariant
            i <= ns,
            ns == sel@.len(),
            selm == crate::holding::hold_view(sel@),
            crate::asset::assets_model(assets_vec@) == assets_of_entries(
                selm.subrange(0, i as int),
            ),
        decreases ns - i,
    {
        let ghost pre = crate::asset::assets_model(assets_vec@);
        assets_vec.push(
            Asset {
                id: crate::chain::clone_asset_id(&sel[i].0),
                fun: Fungibility::Fungible(sel[i].1),
            },
        );
        proof {
            assert(crate::asset::assets_model(assets_vec@) =~= pre.push(
                AssetModel { id: selm[i as int].0, fun: Fungibility::Fungible(selm[i as int].1) },
            ));
            assert(crate::asset::assets_model(assets_vec@) =~= assets_of_entries(
                selm.subrange(0, i + 1 as int),
            ));
        }
        i += 1;
    }
    proof {
        assert(selm.subrange(0, ns as int) =~= selm);
    }
    let w_instr = Instruction::WithdrawAsset(assets_vec);
    let ghost wm = instr_model(w_instr);
    proof {
        assert(wm == InstrModel::WithdrawAsset(assets_of_entries(selm)));
        assert(assets_of_entries(selm).len() == selm.len());
        assert forall|t: int| 0 <= t < assets_of_entries(selm).len() implies crate::codec::asset_encodable(
            #[trigger] assets_of_entries(selm)[t],
        ) by {
            assert(assets_of_entries(selm)[t].id == selm[t].0);
        }
        assert(instr_encodable(wm));
    }
    let ghost prog = seq![wm] + xm;
    let count = (xcm.len() + 1) as u32;
    let mut out: Vec<u8> = Vec::new();
    out.push(MESSAGE_VERSION);
    crate::bytes::write_u32(&mut out, count);
    let ghost head = seq![MESSAGE_VERSION] + crate::bytes::le_bytes(count as nat, 4);
    proof {
        assert(out@ =~= head);
    }
    crate::codec::write_instr(&mut out, &w_instr);
    proof {
        assert((seq![wm]).drop_last() =~= Seq::<InstrModel>::empty());
        assert(enc_instrs_items(Seq::<InstrModel>::empty()) =~= Seq::<u8>::empty());
        assert(enc_instrs_items(seq![wm]) =~= enc_instr(wm));
        assert(prog.subrange(0, 1) =~= seq![wm]);
        assert(out@ =~= head + enc_instrs_items(prog.subrange(0, 1)));
    }
    let nx = xcm.len();
    let mut k: usize = 0;
    while k < nx
        invariant
            k <= nx,
            nx == xcm@.len(),
            xm == instrs_model(xcm@),
            xm.len() == nx,
            instrs_encodable(xm),
            prog == seq![wm] + xm,
            out@ == head + enc_instrs_items(prog.subrange(0, 1 + k as int)),
        decreases nx - k,
    {
        proof {
            crate::message::lemma_instrs_model_index(xcm@, k as int);
            assert(instr_encodable(xm[k as int]));
        }
        crate::codec::write_instr(&mut out, &xcm[k]);
        proof {
            let pre = prog.subrange(0, 1 + k as int);
            let post = prog.subrange(0, 1 + k + 1 as int);
            assert(post.drop_last() =~= pre);
            assert(post.last() == xm[k as int]);
            assert(out@ =~= head + enc_instrs_items(post));
        }
        k += 1;
    }
    proof {
        assert(prog.subrange(0, 1 + nx as int) =~= prog);
        assert(prog.len() == 1 + nx);
        assert(out@ =~= enc_message(prog));
    }
    chain_push_outbound(chain, crate::chain::clone_location(reserve), out);
}

/// One instruction against the chain, the current origin, and the
/// holding. The result names the error that stopped it, if one did, and
/// the narrowed origin, if the instruction narrowed it.
#[verifier::rlimit(100)]
#[verifier::loop_isolation(false)]
fn step_instr_exec(
    chain: &mut Chain,
    origin: &Location,
    holding: &mut Holding,
    instr: &Instruction,
) -> (r: (Option<ExecError>, Option<Location>))
    requires
        old(chain)@.inv(),
        origin@.wf(),
        hold_inv(old(holding)@),
        instr_encodable(instr_model(*instr)),
    ensures
        final(chain)@.inv(),
        hold_inv(final(holding)@),
        ({
            let (c2, o2, h2, e) = step_instr_spec(
                old(chain)@,
                origin@,
                old(holding)@,
                instr_model(*instr),
            );
            &&& final(chain)@ == c2
            &&& final(holding)@ == h2
            &&& r.0 == e
            &&& match r.1 {
                Some(l) => l@ == o2 && l@.wf(),
                None => o2 == origin@,
            }
        }),
{
    let ghost c0 = chain@;
    let ghost h0 = holding@;
    match instr {
        Instruction::WithdrawAsset(v) => {
            let who = derive_account(origin, chain.network);
            proof {
                lemma_account_of_bytes(who);
            }
            let ghost am = crate::asset::assets_model(v@);
            proof {
                assert(am.skip(0) =~= am);
            }
            let n = v.len();
            let mut k: usize = 0;
            while k < n
                invariant
                    k <= n,
                    n == v@.len(),
                    am == crate::asset::assets_model(v@),
                    crate::codec::assets_encodable(am),
                    chain@.inv(),
                    hold_inv(holding@),
                    who == account_of_location(origin@, c0.network),
                    withdraw_assets_spec(c0, h0, who, am) == withdraw_assets_spec(
                        chain@,
                        holding@,
                        who,
                        am.skip(k as int),
                    ),
                decreases n - k,
            {
                proof {
                    assert(am.skip(k as int).first() == am[k as int]);
                    assert(am[k as int] == v@[k as int]@);
                    assert(am.skip(k as int).drop_first() =~= am.skip(k + 1 as int));
                }
                match &v[k].fun {
                    Fungibility::Fungible(amount) => {
                        let ok = transactor_withdraw(chain, &v[k].id, *amount, &who);
                        if !ok {
                            return (Some(ExecError::NotWithdrawable), None);
                        }
                        holding.add(&v[k].id, *amount);
                    },
                    Fungibility::NonFungible(_) => {
                        return (Some(ExecError::NotWithdrawable), None);
                    },
                }
                k += 1;
            }
            proof {
                assert(am.skip(n as int) =~= Seq::<AssetModel>::empty());
            }
            return (None, None);
        },
        Instruction::ReserveAssetDeposited(v) => {
            let ghost am = crate::asset::assets_model(v@);
            proof {
                assert(am.skip(0) =~= am);
            }
            let n = v.len();
            let mut k: usize = 0;
            while k < n
                invariant
                    k <= n,
                    n == v@.len(),
                    am == crate::asset::assets_model(v@),
                    crate::codec::assets_encodable(am),
                    chain@ == c0,
                    hold_inv(holding@),
                    reserve_deposit_spec(h0, origin@, am) == reserve_deposit_spec(
                        holding@,
                        origin@,
                        am.skip(k as int),
                    ),
                decreases n - k,
            {
                proof {
                    assert(am.skip(k as int).first() == am[k as int]);
                    assert(am[k as int] == v@[k as int]@);
                    assert(am.skip(k as int).drop_first() =~= am.skip(k + 1 as int));
                }
                match &v[k].fun {
                    Fungibility::Fungible(amount) => {
                        let trusted = match &v[k].id {
                            AssetId::Concrete(l) => crate::location::location_eq(l, origin),
                            AssetId::Abstract(_) => false,
                        };
                        if !trusted {
                            return (Some(ExecError::BadOrigin), None);
                        }
                        holding.add(&v[k].id, *amount);
                    },
                    Fungibility::NonFungible(_) => {
                        return (Some(ExecError::BadOrigin), None);
                    },
                }
                k += 1;
            }
            proof {
                assert(am.skip(n as int) =~= Seq::<AssetModel>::empty());
            }
            return (None, None);
        },
        Instruction::TransferAsset { assets, beneficiary } => {
            let from = derive_account(origin, chain.network);
            let to = derive_account(beneficiary, chain.network);
            proof {
                lemma_account_of_bytes(from);
                lemma_account_of_bytes(to);
            }
            let ghost am = crate::asset::assets_model(assets@);
            proof {
                assert(am.skip(0) =~= am);
            }
            let n = assets.len();
            let mut k: usize = 0;
            while k < n
                invariant
                    k <= n,
                    n == assets@.len(),
                    am == crate::asset::assets_model(assets@),
                    chain@.inv(),
                    holding@ == h0,
                    from == account_of_location(origin@, c0.network),
                    to == account_of_location(beneficiary@, c0.network),
                    transfer_assets_spec(c0, from, to, am) == transfer_assets_spec(
                        chain@,
                        from,
                        to,
                        am.skip(k as int),
                    ),
                decreases n - k,
            {
                proof {
                    assert(am.skip(k as int).first() == am[k as int]);
                    assert(am[k as int] == assets@[k as int]@);
                    assert(am.skip(k as int).drop_first() =~= am.skip(k + 1 as int));
                }
                match &assets[k].fun {
                    Fungibility::Fungible(amount) => {
                        match crate::transactor::transfer_check(
                            chain,
                            &assets[k].id,
                            *amount,
                            &from,
                            &to,
                        ) {
                            Some(e) => {
                                return (Some(e), None);
                            },
                            None => {},
                        }
                        let okw = transactor_withdraw(chain, &assets[k].id, *amount, &from);
                        proof {
                            assert(okw);
                        }
                        let okd = transactor_deposit(chain, &assets[k].id, *amount, &to);
                        proof {
                            assert(okd);
                        }
                    },
                    Fungibility::NonFungible(_) => {
                        return (Some(ExecError::NotWithdrawable), None);
                    },
                }
                k += 1;
            }
            proof {
                assert(am.skip(n as int) =~= Seq::<AssetModel>::empty());
            }
            return (None, None);
        },
        Instruction::DepositAsset { assets: filter, beneficiary } => {
            let to = derive_account(beneficiary, chain.network);
            proof {
                lemma_account_of_bytes(to);
            }
            match filter {
                AssetFilter::Definite(list) => {
                    let ghost am = crate::asset::assets_model(list@);
                    proof {
                        assert forall|i: int| 0 <= i < list@.len() implies asset_id_encodable(
                            (#[trigger] list@[i]).id@,
                        ) by {
                            assert(crate::asset::assets_model(list@)[i] == list@[i]@);
                        }
                    }
                    let ok = holding.try_take_definite(list);
                    if !ok {
                        return (Some(ExecError::NotDepositable), None);
                    }
                    let ghost entries = entries_of_assets(am);
                    proof {
                        assert(entries.skip(0) =~= entries);
                    }
                    let n = list.len();
                    let mut k: usize = 0;
                    while k < n
                        invariant
                            k <= n,
                            n == list@.len(),
                            am == crate::asset::assets_model(list@),
                            entries == entries_of_assets(am),
                            chain@.inv(),
                            hold_inv(holding@),
                            holding@ == take_definite_spec(h0, am)->Some_0,
                            take_definite_spec(h0, am) is Some,
                            to == account_of_location(beneficiary@, c0.network),
                            deposit_entries_spec(c0, entries, to) == deposit_entries_spec(
                                chain@,
                                entries.skip(k as int),
                                to,
                            ),
                        decreases n - k,
                    {
                        proof {
                            assert(entries.skip(k as int).first() == entries[k as int]);
                            assert(am[k as int] == list@[k as int]@);
                            assert(entries.skip(k as int).drop_first() =~= entries.skip(
                                k + 1 as int,
                            ));
                        }
                        let amt = match &list[k].fun {
                            Fungibility::Fungible(a) => *a,
                            Fungibility::NonFungible(_) => 0,
                        };
                        let ok2 = transactor_deposit(chain, &list[k].id, amt, &to);
                        if !ok2 {
                            return (Some(ExecError::NotDepositable), None);
                        }
                        k += 1;
                    }
                    proof {
                        assert(entries.skip(n as int) =~= Seq::<(AssetIdModel, u128)>::empty());
                    }
                    return (None, None);
                },
                _ => {
                    let sel = holding.take_wild(filter);
                    let ghost selm = wild_selected(h0, filter@);
                    proof {
                        assert(selm.skip(0) =~= selm);
                    }
                    let n = sel.len();
                    proof {
                        assert(crate::holding::hold_view(sel@).len() == sel@.len());
                    }
                    let mut k: usize = 0;
                    while k < n
                        invariant
                            k <= n,
                            n == sel@.len(),
                            selm == crate::holding::hold_view(sel@),
                            chain@.inv(),
                            hold_inv(holding@),
                            holding@ == wild_kept(h0, filter@),
                            to == account_of_location(beneficiary@, c0.network),
                            deposit_entries_spec(c0, selm, to) == deposit_entries_spec(
                                chain@,
                                selm.skip(k as int),
                                to,
                            ),
                        decreases n - k,
                    {
                        proof {
                            assert(selm.skip(k as int).first() == selm[k as int]);
                            assert(selm[k as int] == (sel@[k as int].0@, sel@[k as int].1));
                            assert(selm.skip(k as int).drop_first() =~= selm.skip(k + 1 as int));
                        }
                        let ok2 = transactor_deposit(chain, &sel[k].0, sel[k].1, &to);
                        if !ok2 {
                            return (Some(ExecError::NotDepositable), None);
                        }
                        k += 1;
                    }
                    proof {
                        assert(selm.skip(n as int) =~= Seq::<(AssetIdModel, u128)>::empty());
                    }
                    return (None, None);
                },
            }
        },
        Instruction::InitiateReserveWithdraw { assets: filter, reserve, xcm } => {
            proof {
                crate::message::lemma_instrs_model_len(xcm@);
            }
            if xcm.len() as u64 + 1 >= 0x100000000u64 {
                return (Some(ExecError::LocationOverflow), None);
            }
            match filter {
                AssetFilter::Definite(list) => {
                    if list.len() as u64 >= 0x100000000u64 {
                        return (Some(ExecError::LocationOverflow), None);
                    }
                    let ghost am = crate::asset::assets_model(list@);
                    proof {
                        assert forall|i: int| 0 <= i < list@.len() implies asset_id_encodable(
                            (#[trigger] list@[i]).id@,
                        ) by {
                            assert(crate::asset::assets_model(list@)[i] == list@[i]@);
                        }
                    }
                    let ok = holding.try_take_definite(list);
                    if !ok {
                        return (Some(ExecError::NotWithdrawable), None);
                    }
                    let mut sel: Vec<(AssetId, u128)> = Vec::new();
                    let n = list.len();
                    let mut k: usize = 0;
                    while k < n
                        invariant
                            k <= n,
                            n == list@.len(),
                            am == crate::asset::assets_model(list@),
                            crate::codec::assets_encodable(am),
                            crate::holding::hold_view(sel@) == entries_of_assets(am).subrange(
                                0,
                                k as int,
                            ),
                        decreases n - k,
                    {
                        let amt = match &list[k].fun {
                            Fungibility::Fungible(a) => *a,
                            Fungibility::NonFungible(_) => 0,
                        };
                        let ghost pre = crate::holding::hold_view(sel@);
                        sel.push((crate::chain::clone_asset_id(&list[k].id), amt));
                        proof {
                            assert(am[k as int] == list@[k as int]@);
                            assert(crate::holding::hold_view(sel@) =~= pre.push(
                                entries_of_assets(am)[k as int],
                            ));
                            assert(crate::holding::hold_view(sel@) =~= entries_of_assets(
                                am,
                            ).subrange(0, k + 1 as int));
                        }
                        k += 1;
                    }
                    proof {
                        assert(entries_of_assets(am).subrange(0, n as int) =~= entries_of_assets(
                            am,
                        ));
                        assert forall|t: int|
                            0 <= t < crate::holding::hold_view(sel@).len() implies asset_id_encodable(
                            (#[trigger] crate::holding::hold_view(sel@)[t]).0,
                        ) by {
                            assert(crate::holding::hold_view(sel@)[t].0 == am[t].id);
                        }
                    }
                    irw_send_exec(chain, reserve, sel, xcm);
                    return (None, None);
                },
                _ => {
                    if holding.entries.len() as u64 >= 0x100000000u64 {
                        proof {
                            assert(holding@.len() == holding.entries@.len());
                        }
                        return (Some(ExecError::LocationOverflow), None);
                    }
                    proof {
                        assert(holding@.len() == holding.entries@.len());
                    }
                    let sel = holding.take_wild(filter);
                    proof {
                        crate::holding::lemma_wild_split_len(h0, filter@);
                    }
                    irw_send_exec(chain, reserve, sel, xcm);
                    return (None, None);
                },
            }
        },
        Instruction::Transact { origin_kind, require_weight_at_most, call } => {
            let signer_opt: Option<AccountId> = match origin_kind {
                OriginKind::SovereignAccount => {
                    let a = derive_account(origin, chain.network);
                    proof {
                        lemma_account_of_bytes(a);
                    }
                    Some(a)
                },
                OriginKind::Native => {
                    if origin.parents == 0 && origin.interior.len() == 1 {
                        match &origin.interior[0] {
                            Junction::AccountId32 { network, id } => {
                                let net_ok = match network {
                                    Option::None => true,
                                    Option::Some(n) => *n == chain.network,
                                };
                                if net_ok {
                                    Some(AccountId { bytes: *id })
                                } else {
                                    None
                                }
                            },
                            _ => None,
                        }
                    } else {
                        None
                    }
                },
            };
            let signer = match signer_opt {
                Some(s) => s,
                None => {
                    return (Some(ExecError::BadOrigin), None);
                },
            };
            match call {
                CallPayload::Parsed(c) => {
                    let ok = chain.dispatch_call(&signer, c);
                    chain_push_event(
                        chain,
                        if ok {
                            Event::DispatchSucceeded
                        } else {
                            Event::DispatchFailed
                        },
                    );
                    return (None, None);
                },
                CallPayload::Raw(_) => {
                    chain_push_event(chain, Event::DispatchFailed);
                    return (None, None);
                },
            }
        },
        Instruction::BuyExecution { fees, weight_limit } => {
            match &fees.fun {
                Fungibility::Fungible(amount) => {
                    let cur = holding.amount_of(&fees.id);
                    if cur < *amount {
                        return (Some(ExecError::NotWithdrawable), None);
                    }
                    holding.sub(&fees.id, *amount);
                    return (None, None);
                },
                Fungibility::NonFungible(_) => (Some(ExecError::NotWithdrawable), None),
            }
        },
        Instruction::DescendOrigin(j) => {
            if origin.interior.len() < MAX_JUNCTIONS {
                match origin.descend(*j) {
                    Ok(l) => (None, Some(l)),
                    Err(_) => {
                        proof {
                            assert(false);
                        }
                        (Some(ExecError::LocationOverflow), None)
                    },
                }
            } else {
                (Some(ExecError::LocationOverflow), None)
            }
        },
        Instruction::Noop => (None, None),
    }
}

/// Executes one decoded message against the chain: the admission barrier
/// first, then the instructions in order under the per-instruction weight
/// charge. Effects of instructions that ran are never rolled back.
#[verifier::loop_isolation(false)]
pub fn execute_message(chain: &mut Chain, origin: &Location, msg: &Message, limit: Weight) -> (r:
    Outcome)
    requires
        old(chain)@.inv(),
        origin@.wf(),
        instrs_encodable(msg@),
    ensures
        final(chain)@.inv(),
        ({
            let (cm, o) = exec_message_spec(old(chain)@, origin@, msg@, limit);
            final(chain)@ == cm && r == o
        }),
{
    let ghost c0 = chain@;
    let ghost m = msg@;
    if !barrier_check(chain.barrier, &msg.instructions) {
        return Outcome::Error(ExecError::BarrierRejected);
    }
    let mut cur_origin = crate::chain::clone_location(origin);
    let mut holding = Holding::new();
    let mut used = Weight::zero();
    proof {
        crate::message::lemma_instrs_model_len(msg.instructions@);
        assert(m.skip(0) =~= m);
    }
    let n = msg.instructions.len();
    let mut k: usize = 0;
    while k < n
        invariant
            k <= n,
            n == msg.instructions@.len(),
            m == msg@,
            m.len() == n,
            instrs_encodable(m),
            chain@.inv(),
            hold_inv(holding@),
            cur_origin@.wf(),
            run_instrs_spec(c0, origin@, Seq::empty(), Weight::spec_zero(), m, limit)
                == run_instrs_spec(chain@, cur_origin@, holding@, used, m.skip(k as int), limit),
        decreases n - k,
    {
        proof {
            assert(m.skip(k as int).first() == m[k as int]);
            crate::message::lemma_instrs_model_index(msg.instructions@, k as int);
            assert(m.skip(k as int).drop_first() =~= m.skip(k + 1 as int));
        }
        let charged = match used.checked_add(&Weight::from_parts(1, 1)) {
            Some(u) => u,
            None => {
                return Outcome::Incomplete(used, ExecError::WeightExceeded);
            },
        };
        if !charged.fits(&limit) {
            return Outcome::Incomplete(used, ExecError::WeightExceeded);
        }
        used = charged;
        let (e, new_origin) = step_instr_exec(
            chain,
            &cur_origin,
            &mut holding,
            &msg.instructions[k],
        );
        match new_origin {
            Some(l) => {
                cur_origin = l;
            },
            None => {},
        }
        match e {
            Some(err) => {
                return Outcome::Incomplete(used, err);
            },
            None => {},
        }
        k += 1;
    }
    proof {
        assert(m.skip(n as int) =~= Seq::<InstrModel>::empty());
    }
    Outcome::Complete(used)
}

} // verus!
