//! The instruction set of cross-chain messages: a message is a versioned,
//! ordered sequence of typed instructions, opaque on the wire until
//! decoded. Each instruction carries only the data its own semantics
//! needs. Local runtime calls, dispatched by `Transact`, form a closed
//! sum type of their own.

use vstd::prelude::*;
use crate::account::AccountId;
use crate::asset::{assets_model, Asset, AssetFilter, AssetId, AssetIdModel, AssetModel, FilterModel};
use crate::location::{Junction, LocModel, Location};
use crate::weight::{Weight, WeightLimit};

verus! {

/// How `Transact` computes its dispatch origin from the message origin.
#[derive(Clone, Copy, PartialEq, Eq, Structural, Debug)]
pub enum OriginKind {
    /// Dispatch as the origin's derived sovereign account.
    SovereignAccount,
    /// Dispatch as a transparent signed origin: the origin location must
    /// itself denote a local 32-byte account.
    Native,
}

/// A call into the local runtime, as carried by `Transact`.
#[derive(Clone, Debug)]
pub enum Call {
    /// Move native balance from the signer to `dest`.
    BalanceTransferKeepAlive { dest: AccountId, value: u128 },
    /// Move units of a ledger asset from the signer to `target`.
    AssetTransferKeepAlive { id: AssetId, target: AccountId, amount: u128 },
    /// Create units of a ledger asset for `beneficiary`; the signer must
    /// be the asset's issuer.
    AssetMint { id: AssetId, beneficiary: AccountId, amount: u128 },
    /// Destroy units of a ledger asset held by `who`; the signer must be
    /// the asset's issuer.
    AssetBurn { id: AssetId, who: AccountId, amount: u128 },
    /// Record `num` under `acc` in the chain's plain key-value store.
    StoreValue { acc: AccountId, num: u64 },
    /// Move units of a ledger asset from the signer to `payee`.
    VaneTransfer { payee: AccountId, amount: u128, asset_id: AssetId },
}

/// Mathematical model of a `Call`. Accounts are plain fixed-width values
/// and stand in the model as themselves.
pub enum CallModel {
    BalanceTransferKeepAlive { dest: AccountId, value: u128 },
    AssetTransferKeepAlive { id: AssetIdModel, target: AccountId, amount: u128 },
    AssetMint { id: AssetIdModel, beneficiary: AccountId, amount: u128 },
    AssetBurn { id: AssetIdModel, who: AccountId, amount: u128 },
    StoreValue { acc: AccountId, num: u64 },
    VaneTransfer { payee: AccountId, amount: u128, asset_id: AssetIdModel },
}

impl View for Call {
    type V = CallModel;

    open spec fn view(&self) -> CallModel {
        match self {
            Call::BalanceTransferKeepAlive { dest, value } => CallModel::BalanceTransferKeepAlive {
                dest: *dest,
                value: *value,
            },
            Call::AssetTransferKeepAlive { id, target, amount } => CallModel::AssetTransferKeepAlive {
                id: id@,
                target: *target,
                amount: *amount,
            },
            Call::AssetMint { id, beneficiary, amount } => CallModel::AssetMint {
                id: id@,
                beneficiary: *beneficiary,
                amount: *amount,
            },
            Call::AssetBurn { id, who, amount } => CallModel::AssetBurn {
                id: id@,
                who: *who,
                amount: *amount,
            },
            Call::StoreValue { acc, num } => CallModel::StoreValue { acc: *acc, num: *num },
            Call::VaneTransfer { payee, amount, asset_id } => CallModel::VaneTransfer {
                payee: *payee,
                amount: *amount,
                asset_id: asset_id@,
            },
        }
    }
}

/// What a `Transact` instruction carries: on the wire always a
/// length-prefixed byte string; in memory, the call it parses to, or the
/// raw bytes where they parse to no call. Dispatching raw bytes fails.
#[derive(Debug)]
pub enum CallPayload {
    Parsed(Call),
    Raw(Vec<u8>),
}

/// Mathematical model of a `CallPayload`.
pub enum CallPayloadModel {
    Parsed(CallModel),
    Raw(Seq<u8>),
}

impl View for CallPayload {
    type V = CallPayloadModel;

    open spec fn view(&self) -> CallPayloadModel {
        match self {
            CallPayload::Parsed(c) => CallPayloadModel::Parsed(c@),
            CallPayload::Raw(b) => CallPayloadModel::Raw(b@),
        }
    }
}

/// One step of a message program.
#[derive(Debug)]
pub enum Instruction {
    /// Debit the listed assets from the origin's account and add them to
    /// the holding register.
    WithdrawAsset(Vec<Asset>),
    /// Add the listed assets to the holding register because the sending
    /// reserve chain has locked them on its side.
    ReserveAssetDeposited(Vec<Asset>),
    /// Debit the listed assets from the origin's account and credit the
    /// beneficiary directly, without touching the holding register.
    TransferAsset { assets: Vec<Asset>, beneficiary: Location },
    /// Remove the assets the filter selects from the holding register and
    /// credit the beneficiary's derived account.
    DepositAsset { assets: AssetFilter, beneficiary: Location },
    /// Remove the assets the filter selects from the holding register and
    /// send the reserve chain a program that withdraws them there,
    /// followed by the attached instructions.
    InitiateReserveWithdraw { assets: AssetFilter, reserve: Location, xcm: Vec<Instruction> },
    /// Dispatch a local runtime call under an origin computed per
    /// `origin_kind`.
    Transact { origin_kind: OriginKind, require_weight_at_most: Weight, call: CallPayload },
    /// Move the stated fees from the holding register into the paid-weight
    /// pool.
    BuyExecution { fees: Asset, weight_limit: WeightLimit },
    /// Narrow the origin by one junction.
    DescendOrigin(Junction),
    /// Do nothing.
    Noop,
}

/// Mathematical model of an `Instruction`.
pub enum InstrModel {
    WithdrawAsset(Seq<AssetModel>),
    ReserveAssetDeposited(Seq<AssetModel>),
    TransferAsset { assets: Seq<AssetModel>, beneficiary: LocModel },
    DepositAsset { assets: FilterModel, beneficiary: LocModel },
    InitiateReserveWithdraw { assets: FilterModel, reserve: LocModel, xcm: Seq<InstrModel> },
    Transact { origin_kind: OriginKind, require_weight_at_most: Weight, call: CallPayloadModel },
    BuyExecution { fees: AssetModel, weight_limit: WeightLimit },
    DescendOrigin(Junction),
    Noop,
}

/// Model of one instruction.
pub open spec fn instr_model(i: Instruction) -> InstrModel
    decreases i,
{
    match i {
        Instruction::WithdrawAsset(v) => InstrModel::WithdrawAsset(assets_model(v@)),
        Instruction::ReserveAssetDeposited(v) => InstrModel::ReserveAssetDeposited(
            assets_model(v@),
        ),
        Instruction::TransferAsset { assets, beneficiary } => InstrModel::TransferAsset {
            assets: assets_model(assets@),
            beneficiary: beneficiary@,
        },
        Instruction::DepositAsset { assets, beneficiary } => InstrModel::DepositAsset {
            assets: assets@,
            beneficiary: beneficiary@,
        },
        Instruction::InitiateReserveWithdraw { assets, reserve, xcm } => InstrModel::InitiateReserveWithdraw {
            assets: assets@,
            reserve: reserve@,
            xcm: instrs_model(xcm@),
        },
        Instruction::Transact { origin_kind, require_weight_at_most, call } => InstrModel::Transact {
            origin_kind,
            require_weight_at_most,
            call: call@,
        },
        Instruction::BuyExecution { fees, weight_limit } => InstrModel::BuyExecution {
            fees: fees@,
            weight_limit,
        },
        Instruction::DescendOrigin(j) => InstrModel::DescendOrigin(j),
        Instruction::Noop => InstrModel::Noop,
    }
}

/// Model of a sequence of instructions.
pub open spec fn instrs_model(s: Seq<Instruction>) -> Seq<InstrModel>
    decreases s,
{
    if s.len() == 0 {
        Seq::empty()
    } else {
        seq![instr_model(s.first())] + instrs_model(s.drop_first())
    }
}

pub proof fn lemma_instrs_model_len(s: Seq<Instruction>)
    ensures
        instrs_model(s).len() == s.len(),
    decreases s,
{
    if s.len() > 0 {
        lemma_instrs_model_len(s.drop_first());
    }
}

pub proof fn lemma_instrs_model_index(s: Seq<Instruction>, i: int)
    requires
        0 <= i < s.len(),
    ensures
        instrs_model(s).len() == s.len(),
        instrs_model(s)[i] == instr_model(s[i]),
    decreases s,
{
    lemma_instrs_model_len(s);
    if i > 0 {
        lemma_instrs_model_index(s.drop_first(), i - 1);
    }
}

pub proof fn lemma_instrs_model_push(s: Seq<Instruction>, i: Instruction)
    ensures
        instrs_model(s.push(i)) == instrs_model(s).push(instr_model(i)),
{
    lemma_instrs_model_len(s);
    lemma_instrs_model_len(s.push(i));
    assert forall|k: int| 0 <= k < s.len() + 1 implies instrs_model(s.push(i))[k] == instrs_model(
        s,
    ).push(instr_model(i))[k] by {
        lemma_instrs_model_index(s.push(i), k);
        if k < s.len() {
            lemma_instrs_model_index(s, k);
        }
    }
    assert(instrs_model(s.push(i)) =~= instrs_model(s).push(instr_model(i)));
}

/// An ordered program of instructions; on the wire it travels versioned
/// and encoded.
#[derive(Debug)]
pub struct Message {
    pub instructions: Vec<Instruction>,
}

impl View for Message {
    type V = Seq<InstrModel>;

    open spec fn view(&self) -> Seq<InstrModel> {
        instrs_model(self.instructions@)
    }
}

impl Message {
    pub fn new(instructions: Vec<Instruction>) -> (r: Message)
        ensures
            r@ == instrs_model(instructions@),
    {
        Message { instructions }
    }
}

} // verus!
