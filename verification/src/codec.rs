//! Wire format of messages and local calls: a versioned, self-describing
//! encoding. Every value is written in a single canonical form — fixed
//! little-endian integers, one-byte variant tags, and 32-bit counts — and
//! the decoders are proved sound and complete against it: whatever
//! decodes re-encodes byte-identically, and every well-formed value's
//! encoding decodes back to exactly that value.

use vstd::prelude::*;
use crate::account::AccountId;
use crate::asset::{Asset, AssetFilter, AssetId, AssetIdModel, AssetModel, FilterModel, Fungibility};
use crate::bytes::{le_bytes, lemma_le_bytes_len, lemma_slice_split, read_u128, read_u32, read_u64, slice_is, write_u128, write_u32, write_u64};
use crate::location::{Junction, LocModel, Location, NetworkId, MAX_JUNCTIONS};
use crate::message::{
    instr_model,
    instrs_model,
    Call,
    CallModel,
    CallPayload,
    CallPayloadModel,
    InstrModel,
    Instruction,
    Message,
    OriginKind,
};
use crate::weight::{Weight, WeightLimit};

verus! {

/// The one message version this chain speaks.
pub const MESSAGE_VERSION: u8 = 3;

pub open spec fn enc_u32(v: u32) -> Seq<u8> {
    le_bytes(v as nat, 4)
}

pub open spec fn enc_u64(v: u64) -> Seq<u8> {
    le_bytes(v as nat, 8)
}

pub open spec fn enc_u128(v: u128) -> Seq<u8> {
    le_bytes(v as nat, 16)
}

pub open spec fn enc_network(n: Option<NetworkId>) -> Seq<u8> {
    match n {
        Option::None => seq![0u8],
        Option::Some(NetworkId::Polkadot) => seq![1u8],
        Option::Some(NetworkId::Kusama) => seq![2u8],
    }
}

pub open spec fn enc_junction(j: Junction) -> Seq<u8> {
    match j {
        Junction::Parachain(id) => seq![0u8] + enc_u32(id),
        Junction::AccountId32 { network, id } => seq![1u8] + enc_network(network) + id@,
        Junction::PalletInstance(i) => seq![2u8, i],
        Junction::GeneralIndex(n) => seq![3u8] + enc_u128(n),
    }
}

pub open spec fn enc_junctions(s: Seq<Junction>) -> Seq<u8>
    decreases s.len(),
{
    if s.len() == 0 {
        Seq::empty()
    } else {
        enc_junctions(s.drop_last()) + enc_junction(s.last())
    }
}

pub open spec fn loc_encodable(l: LocModel) -> bool {
    0 <= l.parents < 256 && l.interior.len() <= MAX_JUNCTIONS
}

pub open spec fn enc_location(l: LocModel) -> Seq<u8> {
    seq![l.parents as u8, l.interior.len() as u8] + enc_junctions(l.interior)
}

pub open spec fn asset_id_encodable(a: AssetIdModel) -> bool {
    match a {
        AssetIdModel::Concrete(l) => loc_encodable(l),
        AssetIdModel::Abstract(_) => true,
    }
}

pub open spec fn enc_asset_id(a: AssetIdModel) -> Seq<u8> {
    match a {
        AssetIdModel::Concrete(l) => seq![0u8] + enc_location(l),
        AssetIdModel::Abstract(n) => seq![1u8] + enc_u64(n),
    }
}

pub open spec fn enc_fungibility(f: Fungibility) -> Seq<u8> {
    match f {
        Fungibility::Fungible(amount) => seq![0u8] + enc_u128(amount),
        Fungibility::NonFungible(instance) => seq![1u8] + enc_u64(instance),
    }
}

pub open spec fn asset_encodable(a: AssetModel) -> bool {
    asset_id_encodable(a.id)
}

pub open spec fn enc_asset(a: AssetModel) -> Seq<u8> {
    enc_asset_id(a.id) + enc_fungibility(a.fun)
}

pub open spec fn assets_encodable(s: Seq<AssetModel>) -> bool {
    s.len() < 0x100000000 && (forall|k: int| 0 <= k < s.len() ==> asset_encodable(#[trigger] s[k]))
}

pub open spec fn enc_assets_items(s: Seq<AssetModel>) -> Seq<u8>
    decreases s.len(),
{
    if s.len() == 0 {
        Seq::empty()
    } else {
        enc_assets_items(s.drop_last()) + enc_asset(s.last())
    }
}

pub open spec fn enc_assets(s: Seq<AssetModel>) -> Seq<u8> {
    le_bytes(s.len(), 4) + enc_assets_items(s)
}

pub open spec fn filter_encodable(f: FilterModel) -> bool {
    match f {
        FilterModel::Definite(s) => assets_encodable(s),
        FilterModel::WildAll => true,
        FilterModel::WildAllOf { id } => asset_id_encodable(id),
    }
}

pub open spec fn enc_filter(f: FilterModel) -> Seq<u8> {
    match f {
        FilterModel::Definite(s) => seq![0u8] + enc_assets(s),
        FilterModel::WildAll => seq![1u8],
        FilterModel::WildAllOf { id } => seq![2u8] + enc_asset_id(id),
    }
}

pub open spec fn enc_weight(w: Weight) -> Seq<u8> {
    enc_u64(w.ref_time) + enc_u64(w.proof_size)
}

pub open spec fn enc_weight_limit(w: WeightLimit) -> Seq<u8> {
    match w {
        WeightLimit::Unlimited => seq![0u8],
        WeightLimit::Limited(lim) => seq![1u8] + enc_weight(lim),
    }
}

pub open spec fn enc_origin_kind(k: OriginKind) -> Seq<u8> {
    match k {
        OriginKind::SovereignAccount => seq![0u8],
        OriginKind::Native => seq![1u8],
    }
}

pub open spec fn call_encodable(c: CallModel) -> bool {
    match c {
        CallModel::BalanceTransferKeepAlive { dest, value } => true,
        CallModel::AssetTransferKeepAlive { id, target, amount } => asset_id_encodable(id),
        CallModel::AssetMint { id, beneficiary, amount } => asset_id_encodable(id),
        CallModel::AssetBurn { id, who, amount } => asset_id_encodable(id),
        CallModel::StoreValue { acc, num } => true,
        CallModel::VaneTransfer { payee, amount, asset_id } => asset_id_encodable(asset_id),
    }
}

pub open spec fn enc_call(c: CallModel) -> Seq<u8> {
    match c {
        CallModel::BalanceTransferKeepAlive { dest, value } => seq![0u8] + dest@ + enc_u128(value),
        CallModel::AssetTransferKeepAlive { id, target, amount } => seq![1u8] + enc_asset_id(id)
            + target@ + enc_u128(amount),
        CallModel::AssetMint { id, beneficiary, amount } => seq![2u8] + enc_asset_id(id)
            + beneficiary@ + enc_u128(amount),
        CallModel::AssetBurn { id, who, amount } => seq![3u8] + enc_asset_id(id) + who@
            + enc_u128(amount),
        CallModel::StoreValue { acc, num } => seq![4u8] + acc@ + enc_u64(num),
        CallModel::VaneTransfer { payee, amount, asset_id } => seq![5u8] + enc_asset_id(asset_id)
            + payee@ + enc_u128(amount),
    }
}

/// The byte string a `Transact` payload stands for on the wire.
pub open spec fn enc_payload_bytes(p: CallPayloadModel) -> Seq<u8> {
    match p {
        CallPayloadModel::Parsed(c) => enc_call(c),
        CallPayloadModel::Raw(b) => b,
    }
}

/// A payload is encodable when it is canonical on the wire: a parsed
/// call, or raw bytes that are no call's encoding — so one byte string
/// never stands for two payloads.
pub open spec fn payload_encodable(p: CallPayloadModel) -> bool {
    match p {
        CallPayloadModel::Parsed(c) => call_encodable(c) && enc_call(c).len() < 0x100000000,
        CallPayloadModel::Raw(b) => b.len() < 0x100000000 && !(exists|c: CallModel|
            call_encodable(c) && #[trigger] enc_call(c) == b),
    }
}

pub open spec fn instr_encodable(i: InstrModel) -> bool
    decreases i,
{
    match i {
        InstrModel::WithdrawAsset(s) => assets_encodable(s),
        InstrModel::ReserveAssetDeposited(s) => assets_encodable(s),
        InstrModel::TransferAsset { assets, beneficiary } => assets_encodable(assets)
            && loc_encodable(beneficiary),
        InstrModel::DepositAsset { assets, beneficiary } => filter_encodable(assets)
            && loc_encodable(beneficiary),
        InstrModel::InitiateReserveWithdraw { assets, reserve, xcm } => filter_encodable(assets)
            && loc_encodable(reserve) && xcm.len() < 0x100000000 && instrs_encodable(xcm),
        InstrModel::Transact { origin_kind, require_weight_at_most, call } => payload_encodable(
            call,
        ),
        InstrModel::BuyExecution { fees, weight_limit } => asset_encodable(fees),
        InstrModel::DescendOrigin(_) => true,
        InstrModel::Noop => true,
    }
}

pub open spec fn instrs_encodable(s: Seq<InstrModel>) -> bool
    decreases s,
{
    forall|k: int| 0 <= k < s.len() ==> instr_encodable(#[trigger] s[k])
}

pub open spec fn enc_instr(i: InstrModel) -> Seq<u8>
    decreases i,
{
    match i {
        InstrModel::WithdrawAsset(s) => seq![0u8] + enc_assets(s),
        InstrModel::ReserveAssetDeposited(s) => seq![1u8] + enc_assets(s),
        InstrModel::TransferAsset { assets, beneficiary } => seq![2u8] + enc_assets(assets)
            + enc_location(beneficiary),
        InstrModel::DepositAsset { assets, beneficiary } => seq![3u8] + enc_filter(assets)
            + enc_location(beneficiary),
        InstrModel::InitiateReserveWithdraw { assets, reserve, xcm } => seq![4u8] + enc_filter(
            assets,
        ) + enc_location(reserve) + le_bytes(xcm.len(), 4) + enc_instrs_items(xcm),
        InstrModel::Transact { origin_kind, require_weight_at_most, call } => seq![5u8]
            + enc_origin_kind(origin_kind) + enc_weight(require_weight_at_most) + le_bytes(
            enc_payload_bytes(call).len(),
            4,
        ) + enc_payload_bytes(call),
        InstrModel::BuyExecution { fees, weight_limit } => seq![6u8] + enc_asset(fees)
            + enc_weight_limit(weight_limit),
        InstrModel::DescendOrigin(j) => seq![7u8] + enc_junction(j),
        InstrModel::Noop => seq![8u8],
    }
}

pub open spec fn enc_instrs_items(s: Seq<InstrModel>) -> Seq<u8>
    decreases s,
{
    if s.len() == 0 {
        Seq::empty()
    } else {
        enc_instrs_items(s.drop_last()) + enc_instr(s.last())
    }
}

pub open spec fn msg_encodable(s: Seq<InstrModel>) -> bool {
    s.len() < 0x100000000 && instrs_encodable(s)
}

/// The whole wire form of a message: a version byte, an instruction
/// count, and the instructions in order.
pub open spec fn enc_message(s: Seq<InstrModel>) -> Seq<u8> {
    seq![MESSAGE_VERSION] + le_bytes(s.len(), 4) + enc_instrs_items(s)
}

/// A junction sequence's encoding starts with its first junction's.
proof fn lemma_enc_junctions_front(s: Seq<Junction>)
    requires
        s.len() > 0,
    ensures
        enc_junctions(s) == enc_junction(s.first()) + enc_junctions(s.drop_first()),
    decreases s.len(),
{
    if s.len() == 1 {
        assert(s.drop_last() =~= Seq::<Junction>::empty());
        assert(s.drop_first() =~= Seq::<Junction>::empty());
        assert(enc_junctions(s) =~= enc_junction(s.first()) + enc_junctions(s.drop_first()));
    } else {
        lemma_enc_junctions_front(s.drop_last());
        assert(s.drop_last().first() == s.first());
        assert(s.drop_last().drop_first() =~= s.drop_first().drop_last());
        assert(s.drop_first().last() == s.last());
        assert(enc_junctions(s) =~= enc_junction(s.first()) + enc_junctions(s.drop_first()));
    }
}

/// An asset list's item encoding starts with its first asset's.
proof fn lemma_enc_assets_items_front(s: Seq<AssetModel>)
    requires
        s.len() > 0,
    ensures
        enc_assets_items(s) == enc_asset(s.first()) + enc_assets_items(s.drop_first()),
    decreases s.len(),
{
    if s.len() == 1 {
        assert(s.drop_last() =~= Seq::<AssetModel>::empty());
        assert(s.drop_first() =~= Seq::<AssetModel>::empty());
        assert(enc_assets_items(s) =~= enc_asset(s.first()) + enc_assets_items(s.drop_first()));
    } else {
        lemma_enc_assets_items_front(s.drop_last());
        assert(s.drop_last().first() == s.first());
        assert(s.drop_last().drop_first() =~= s.drop_first().drop_last());
        assert(s.drop_first().last() == s.last());
        assert(enc_assets_items(s) =~= enc_asset(s.first()) + enc_assets_items(s.drop_first()));
    }
}

/// An instruction list's item encoding starts with its first one's.
proof fn lemma_enc_instrs_items_front(s: Seq<InstrModel>)
    requires
        s.len() > 0,
    ensures
        enc_instrs_items(s) == enc_instr(s.first()) + enc_instrs_items(s.drop_first()),
    decreases s.len(),
{
    if s.len() == 1 {
        assert(s.drop_last() =~= Seq::<InstrModel>::empty());
        assert(s.drop_first() =~= Seq::<InstrModel>::empty());
        assert(enc_instrs_items(s) =~= enc_instr(s.first()) + enc_instrs_items(s.drop_first()));
    } else {
        lemma_enc_instrs_items_front(s.drop_last());
        assert(s.drop_last().first() == s.first());
        assert(s.drop_last().drop_first() =~= s.drop_first().drop_last());
        assert(s.drop_first().last() == s.last());
        assert(enc_instrs_items(s) =~= enc_instr(s.first()) + enc_instrs_items(s.drop_first()));
    }
}

fn write_bytes32(out: &mut Vec<u8>, b: &[u8; 32])
    ensures
        final(out)@ == old(out)@ + b@,
{
    let ghost start = out@;
    let mut k: usize = 0;
    while k < 32
        invariant
            k <= 32,
            out@.len() == start.len() + k,
            out@.subrange(0, start.len() as int) == start,
            out@.skip(start.len() as int) == b@.subrange(0, k as int),
        decreases 32 - k,
    {
        let ghost prev = out@;
        out.push(b[k]);
        proof {
            assert(out@.subrange(0, start.len() as int) =~= prev.subrange(
                0,
                start.len() as int,
            ));
            assert(out@.skip(start.len() as int) =~= b@.subrange(0, k + 1 as int));
        }
        k += 1;
    }
    proof {
        assert(b@.subrange(0, 32) =~= b@);
        assert(out@ =~= start + b@);
    }
}

fn write_account(out: &mut Vec<u8>, a: &AccountId)
    ensures
        final(out)@ == old(out)@ + a@,
{
    write_bytes32(out, &a.bytes)
}

fn write_network(out: &mut Vec<u8>, n: &Option<NetworkId>)
    ensures
        final(out)@ == old(out)@ + enc_network(*n),
{
    match n {
        Option::None => out.push(0u8),
        Option::Some(NetworkId::Polkadot) => out.push(1u8),
        Option::Some(NetworkId::Kusama) => out.push(2u8),
    }
    proof {
        assert(out@ =~= old(out)@ + enc_network(*n));
    }
}

fn write_junction(out: &mut Vec<u8>, j: &Junction)
    ensures
        final(out)@ == old(out)@ + enc_junction(*j),
{
    match j {
        Junction::Parachain(id) => {
            out.push(0u8);
            write_u32(out, *id);
        },
        Junction::AccountId32 { network, id } => {
            out.push(1u8);
            write_network(out, network);
            write_bytes32(out, id);
        },
        Junction::PalletInstance(i) => {
            out.push(2u8);
            out.push(*i);
        },
        Junction::GeneralIndex(n) => {
            out.push(3u8);
            write_u128(out, *n);
        },
    }
    proof {
        assert(out@ =~= old(out)@ + enc_junction(*j));
    }
}

fn write_location(out: &mut Vec<u8>, l: &Location)
    requires
        l@.wf(),
    ensures
        final(out)@ == old(out)@ + enc_location(l@),
{
    out.push(l.parents);
    out.push(l.interior.len() as u8);
    let n = l.interior.len();
    let ghost mid = out@;
    let mut k: usize = 0;
    while k < n
        invariant
            k <= n,
            n == l.interior.len(),
            out@ == mid + enc_junctions(l.interior@.subrange(0, k as int)),
        decreases n - k,
    {
        proof {
            assert(enc_junctions(l.interior@.subrange(0, 0)) =~= Seq::<u8>::empty());
        }
        write_junction(out, &l.interior[k]);
        proof {
            let pre = l.interior@.subrange(0, k as int);
            let post = l.interior@.subrange(0, k + 1 as int);
            assert(post.drop_last() =~= pre);
            assert(post.last() == l.interior@[k as int]);
            assert(out@ =~= mid + enc_junctions(post));
        }
        k += 1;
    }
    proof {
        assert(enc_junctions(l.interior@.subrange(0, 0)) =~= Seq::<u8>::empty());
        assert(mid =~= mid + Seq::<u8>::empty());
        assert(l.interior@.subrange(0, n as int) =~= l.interior@);
        assert(out@ =~= old(out)@ + enc_location(l@));
    }
}

fn write_asset_id(out: &mut Vec<u8>, a: &AssetId)
    requires
        asset_id_encodable(a@),
    ensures
        final(out)@ == old(out)@ + enc_asset_id(a@),
{
    match a {
        AssetId::Concrete(l) => {
            out.push(0u8);
            write_location(out, l);
        },
        AssetId::Abstract(n) => {
            out.push(1u8);
            write_u64(out, *n);
        },
    }
    proof {
        assert(out@ =~= old(out)@ + enc_asset_id(a@));
    }
}

fn write_fungibility(out: &mut Vec<u8>, f: &Fungibility)
    ensures
        final(out)@ == old(out)@ + enc_fungibility(*f),
{
    match f {
        Fungibility::Fungible(amount) => {
            out.push(0u8);
            write_u128(out, *amount);
        },
        Fungibility::NonFungible(instance) => {
            out.push(1u8);
            write_u64(out, *instance);
        },
    }
    proof {
        assert(out@ =~= old(out)@ + enc_fungibility(*f));
    }
}

fn write_asset(out: &mut Vec<u8>, a: &Asset)
    requires
        asset_encodable(a@),
    ensures
        final(out)@ == old(out)@ + enc_asset(a@),
{
    write_asset_id(out, &a.id);
    write_fungibility(out, &a.fun);
    proof {
        assert(out@ =~= old(out)@ + enc_asset(a@));
    }
}

fn write_assets(out: &mut Vec<u8>, v: &Vec<Asset>)
    requires
        assets_encodable(crate::asset::assets_model(v@)),
    ensures
        final(out)@ == old(out)@ + enc_assets(crate::asset::assets_model(v@)),
{
    let ghost model = crate::asset::assets_model(v@);
    write_u32(out, v.len() as u32);
    let ghost mid = out@;
    let n = v.len();
    let mut k: usize = 0;
    while k < n
        invariant
            k <= n,
            n == v.len(),
            model == crate::asset::assets_model(v@),
            assets_encodable(model),
            out@ == mid + enc_assets_items(model.subrange(0, k as int)),
        decreases n - k,
    {
        proof {
            assert(enc_assets_items(model.subrange(0, 0)) =~= Seq::<u8>::empty());
            assert(model[k as int] == v@[k as int]@);
        }
        write_asset(out, &v[k]);
        proof {
            let pre = model.subrange(0, k as int);
            let post = model.subrange(0, k + 1 as int);
            assert(post.drop_last() =~= pre);
            assert(post.last() == model[k as int]);
            assert(out@ =~= mid + enc_assets_items(post));
        }
        k += 1;
    }
    proof {
        assert(enc_assets_items(model.subrange(0, 0)) =~= Seq::<u8>::empty());
        assert(mid =~= mid + Seq::<u8>::empty());
        assert(model.subrange(0, n as int) =~= model);
        assert(out@ =~= old(out)@ + enc_assets(model));
    }
}

fn write_filter(out: &mut Vec<u8>, f: &AssetFilter)
    requires
        filter_encodable(f@),
    ensures
        final(out)@ == old(out)@ + enc_filter(f@),
{
    match f {
        AssetFilter::Definite(v) => {
            out.push(0u8);
            write_assets(out, v);
        },
        AssetFilter::WildAll => {
            out.push(1u8);
        },
        AssetFilter::WildAllOf { id } => {
            out.push(2u8);
            write_asset_id(out, id);
        },
    }
    proof {
        assert(out@ =~= old(out)@ + enc_filter(f@));
    }
}

fn write_weight(out: &mut Vec<u8>, w: &Weight)
    ensures
        final(out)@ == old(out)@ + enc_weight(*w),
{
    write_u64(out, w.ref_time);
    write_u64(out, w.proof_size);
    proof {
        assert(out@ =~= old(out)@ + enc_weight(*w));
    }
}

fn write_weight_limit(out: &mut Vec<u8>, w: &WeightLimit)
    ensures
        final(out)@ == old(out)@ + enc_weight_limit(*w),
{
    match w {
        WeightLimit::Unlimited => out.push(0u8),
        WeightLimit::Limited(lim) => {
            out.push(1u8);
            write_weight(out, lim);
        },
    }
    proof {
        assert(out@ =~= old(out)@ + enc_weight_limit(*w));
    }
}

fn write_origin_kind(out: &mut Vec<u8>, k: &OriginKind)
    ensures
        final(out)@ == old(out)@ + enc_origin_kind(*k),
{
    match k {
        OriginKind::SovereignAccount => out.push(0u8),
        OriginKind::Native => out.push(1u8),
    }
    proof {
        assert(out@ =~= old(out)@ + enc_origin_kind(*k));
    }
}

fn write_raw_bytes(out: &mut Vec<u8>, v: &Vec<u8>)
    ensures
        final(out)@ == old(out)@ + v@,
{
    let ghost start = out@;
    let n = v.len();
    let mut k: usize = 0;
    while k < n
        invariant
            k <= n,
            n == v.len(),
            out@ == start + v@.subrange(0, k as int),
        decreases n - k,
    {
        proof {
            assert(start + v@.subrange(0, 0) =~= start);
        }
        out.push(v[k]);
        proof {
            assert(out@ =~= start + v@.subrange(0, k + 1 as int));
        }
        k += 1;
    }
    proof {
        assert(start + v@.subrange(0, 0) =~= start);
        assert(v@.subrange(0, n as int) =~= v@);
    }
}

fn write_call(out: &mut Vec<u8>, c: &Call)
    requires
        call_encodable(c@),
    ensures
        final(out)@ == old(out)@ + enc_call(c@),
{
    match c {
        Call::BalanceTransferKeepAlive { dest, value } => {
            out.push(0u8);
            write_account(out, dest);
            write_u128(out, *value);
        },
        Call::AssetTransferKeepAlive { id, target, amount } => {
            out.push(1u8);
            write_asset_id(out, id);
            write_account(out, target);
            write_u128(out, *amount);
        },
        Call::AssetMint { id, beneficiary, amount } => {
            out.push(2u8);
            write_asset_id(out, id);
            write_account(out, beneficiary);
            write_u128(out, *amount);
        },
        Call::AssetBurn { id, who, amount } => {
            out.push(3u8);
            write_asset_id(out, id);
            write_account(out, who);
            write_u128(out, *amount);
        },
        Call::StoreValue { acc, num } => {
            out.push(4u8);
            write_account(out, acc);
            write_u64(out, *num);
        },
        Call::VaneTransfer { payee, amount, asset_id } => {
            out.push(5u8);
            write_asset_id(out, asset_id);
            write_account(out, payee);
            write_u128(out, *amount);
        },
    }
    proof {
        assert(out@ =~= old(out)@ + enc_call(c@));
    }
}

/// Encodes a local call for carrying inside a `Transact` instruction.
pub fn encode_call(c: &Call) -> (r: Vec<u8>)
    requires
        call_encodable(c@),
    ensures
        r@ == enc_call(c@),
{
    let mut out: Vec<u8> = Vec::new();
    write_call(&mut out, c);
    proof {
        assert(out@ =~= enc_call(c@));
    }
    out
}

pub(crate) fn write_instr(out: &mut Vec<u8>, i: &Instruction)
    requires
        instr_encodable(instr_model(*i)),
    ensures
        final(out)@ == old(out)@ + enc_instr(instr_model(*i)),
    decreases *i, 0int,
{
    match i {
        Instruction::WithdrawAsset(v) => {
            out.push(0u8);
            write_assets(out, v);
        },
        Instruction::ReserveAssetDeposited(v) => {
            out.push(1u8);
            write_assets(out, v);
        },
        Instruction::TransferAsset { assets, beneficiary } => {
            out.push(2u8);
            write_assets(out, assets);
            write_location(out, beneficiary);
        },
        Instruction::DepositAsset { assets, beneficiary } => {
            out.push(3u8);
            write_filter(out, assets);
            write_location(out, beneficiary);
        },
        Instruction::InitiateReserveWithdraw { assets, reserve, xcm } => {
            out.push(4u8);
            write_filter(out, assets);
            write_location(out, reserve);
            proof {
                crate::message::lemma_instrs_model_len(xcm@);
            }
            write_instrs(out, xcm);
        },
        Instruction::Transact { origin_kind, require_weight_at_most, call } => {
            out.push(5u8);
            write_origin_kind(out, origin_kind);
            write_weight(out, require_weight_at_most);
            match call {
                CallPayload::Parsed(c) => {
                    let v = encode_call(c);
                    write_u32(out, v.len() as u32);
                    write_raw_bytes(out, &v);
                },
                CallPayload::Raw(b) => {
                    write_u32(out, b.len() as u32);
                    write_raw_bytes(out, b);
                },
            }
        },
        Instruction::BuyExecution { fees, weight_limit } => {
            out.push(6u8);
            write_asset(out, fees);
            write_weight_limit(out, weight_limit);
        },
        Instruction::DescendOrigin(j) => {
            out.push(7u8);
            write_junction(out, j);
        },
        Instruction::Noop => {
            out.push(8u8);
        },
    }
    proof {
        assert(out@ =~= old(out)@ + enc_instr(instr_model(*i)));
    }
}

fn write_instrs(out: &mut Vec<u8>, v: &Vec<Instruction>)
    requires
        instrs_encodable(instrs_model(v@)),
        v@.len() < 0x100000000,
    ensures
        final(out)@ == old(out)@ + le_bytes(v@.len(), 4) + enc_instrs_items(instrs_model(v@)),
    decreases v@, 1int,
{
    let ghost model = instrs_model(v@);
    proof {
        crate::message::lemma_instrs_model_len(v@);
    }
    write_u32(out, v.len() as u32);
    let ghost mid = out@;
    let n = v.len();
    let mut k: usize = 0;
    while k < n
        invariant
            k <= n,
            n == v.len(),
            model == instrs_model(v@),
            instrs_encodable(model),
            model.len() == n,
            out@ == mid + enc_instrs_items(model.subrange(0, k as int)),
        decreases n - k,
    {
        proof {
            assert(enc_instrs_items(model.subrange(0, 0)) =~= Seq::<u8>::empty());
            crate::message::lemma_instrs_model_index(v@, k as int);
        }
        write_instr(out, &v[k]);
        proof {
            let pre = model.subrange(0, k as int);
            let post = model.subrange(0, k + 1 as int);
            assert(post.drop_last() =~= pre);
            assert(post.last() == model[k as int]);
            assert(out@ =~= mid + enc_instrs_items(post));
        }
        k += 1;
    }
    proof {
        assert(enc_instrs_items(model.subrange(0, 0)) =~= Seq::<u8>::empty());
        assert(mid =~= mid + Seq::<u8>::empty());
        assert(model.subrange(0, n as int) =~= model);
        assert(out@ =~= old(out)@ + le_bytes(v@.len(), 4) + enc_instrs_items(model));
    }
}

/// Why a byte string is not a message: an unknown version is told apart
/// from malformed data, so receivers can react to each differently.
#[derive(Clone, Copy, PartialEq, Eq, Structural, Debug)]
pub enum CodecError {
    BadVersion,
    Malformed,
}

fn read_byte(bytes: &Vec<u8>, i: usize) -> (r: Option<(u8, usize)>)
    ensures
        match r {
            Some((b, j)) => j == i + 1 && i + 1 <= bytes@.len() && b == bytes@[i as int],
            None => i + 1 > bytes@.len(),
        },
{
    if i < bytes.len() {
        Some((bytes[i], i + 1))
    } else {
        None
    }
}

fn read_bytes32(bytes: &Vec<u8>, i: usize) -> (r: Option<([u8; 32], usize)>)
    ensures
        match r {
            Some((b, j)) => j == i + 32 && i + 32 <= bytes@.len() && b@ == bytes@.subrange(
                i as int,
                j as int,
            ),
            None => i + 32 > bytes@.len(),
        },
        forall|w: Seq<u8>, j2: int|
            w.len() == 32 && #[trigger] slice_is(bytes@, i as int, j2, w) ==> r is Some
                && r->Some_0.0@ == w && r->Some_0.1 == j2,
{
    if bytes.len() < 32 || i > bytes.len() - 32 {
        proof {
            assert forall|w: Seq<u8>, j2: int|
                w.len() == 32 implies ! #[trigger] slice_is(bytes@, i as int, j2, w) by {
                if slice_is(bytes@, i as int, j2, w) {
                    assert(j2 == i + 32);
                }
            }
        }
        return None;
    }
    let mut b = [0u8; 32];
    let mut k: usize = 0;
    while k < 32
        invariant
            k <= 32,
            i + 32 <= bytes@.len(),
            i + 32 <= bytes.len(),
            b@.len() == 32,
            forall|t: int| 0 <= t < k ==> b@[t] == bytes@[i + t],
        decreases 32 - k,
    {
        b[k] = bytes[i + k];
        k += 1;
    }
    proof {
        assert(b@ =~= bytes@.subrange(i as int, i + 32 as int));
        assert forall|w: Seq<u8>, j2: int|
            w.len() == 32 && #[trigger] slice_is(bytes@, i as int, j2, w) implies b@ == w && j2
            == i + 32 by {
            assert(j2 == i + 32);
        }
    }
    Some((b, i + 32))
}

fn read_account(bytes: &Vec<u8>, i: usize) -> (r: Option<(AccountId, usize)>)
    ensures
        match r {
            Some((a, j)) => j == i + 32 && i + 32 <= bytes@.len() && a@ == bytes@.subrange(
                i as int,
                j as int,
            ),
            None => i + 32 > bytes@.len(),
        },
        forall|w: AccountId, j2: int|
            #[trigger] slice_is(bytes@, i as int, j2, w@) ==> r is Some && r->Some_0.0 == w
                && r->Some_0.1 == j2,
{
    let r = match read_bytes32(bytes, i) {
        Some((b, j)) => Some((AccountId { bytes: b }, j)),
        None => None,
    };
    proof {
        assert forall|w: AccountId, j2: int|
            #[trigger] slice_is(bytes@, i as int, j2, w@) implies r is Some && r->Some_0.0 == w
                && r->Some_0.1 == j2 by {
            assert(w@.len() == 32);
            assert(slice_is(bytes@, i as int, j2, w@));
            let got = r->Some_0.0;
            assert(got@ == w@);
            vstd::array::axiom_array_ext_equal(got.bytes, w.bytes);
            assert(got.bytes =~= w.bytes);
        }
    }
    r
}

fn read_network(bytes: &Vec<u8>, i: usize) -> (r: Option<(Option<NetworkId>, usize)>)
    ensures
        match r {
            Some((n, j)) => i < j <= bytes@.len() && enc_network(n) == bytes@.subrange(
                i as int,
                j as int,
            ),
            None => true,
        },
        forall|w: Option<NetworkId>, j2: int|
            #[trigger] slice_is(bytes@, i as int, j2, enc_network(w)) ==> r is Some
                && r->Some_0.0 == w && r->Some_0.1 == j2,
{
    let (tag, j) = match read_byte(bytes, i) {
        Some(x) => x,
        None => {
            proof {
                assert forall|w: Option<NetworkId>, j2: int|
                    ! #[trigger] slice_is(bytes@, i as int, j2, enc_network(w)) by {
                    assert(enc_network(w).len() == 1);
                    if slice_is(bytes@, i as int, j2, enc_network(w)) {
                        assert(j2 == i + 1);
                    }
                }
            }
            return None;
        },
    };
    let n = match tag {
        0u8 => None,
        1u8 => Some(NetworkId::Polkadot),
        2u8 => Some(NetworkId::Kusama),
        _ => {
            proof {
                assert forall|w: Option<NetworkId>, j2: int|
                    ! #[trigger] slice_is(bytes@, i as int, j2, enc_network(w)) by {
                    if slice_is(bytes@, i as int, j2, enc_network(w)) {
                        assert(enc_network(w).len() == 1);
                        assert(enc_network(w)[0] == bytes@[i as int]);
                    }
                }
            }
            return None;
        },
    };
    proof {
        assert(enc_network(n) =~= bytes@.subrange(i as int, j as int));
        assert forall|w: Option<NetworkId>, j2: int|
            #[trigger] slice_is(bytes@, i as int, j2, enc_network(w)) implies n == w && j2
            == j by {
            assert(enc_network(w).len() == 1);
            assert(enc_network(w)[0] == bytes@[i as int]);
        }
    }
    Some((n, j))
}

/// Splits a hypothetical junction encoding at `i` into its tag and
/// payload slices.
proof fn lemma_junction_parse(bytes: Seq<u8>, i: int, j2: int, w: Junction)
    requires
        slice_is(bytes, i, j2, enc_junction(w)),
    ensures
        enc_junction(w)[0] == bytes[i],
        i < j2,
        w is Parachain ==> slice_is(bytes, i + 1, j2, le_bytes(w->Parachain_0 as nat, 4)),
        w is AccountId32 ==> slice_is(bytes, i + 1, i + 2, enc_network(w->AccountId32_network))
            && slice_is(bytes, i + 2, j2, w->AccountId32_id@),
        w is PalletInstance ==> j2 == i + 2 && bytes[i + 1] == w->PalletInstance_0,
        w is GeneralIndex ==> slice_is(bytes, i + 1, j2, le_bytes(w->GeneralIndex_0 as nat, 16)),
{
    match w {
        Junction::Parachain(id) => {
            lemma_slice_split(bytes, i, j2, seq![0u8], le_bytes(id as nat, 4));
            assert(bytes.subrange(i, i + 1)[0] == bytes[i]);
        },
        Junction::AccountId32 { network, id } => {
            assert(enc_junction(w) == (seq![1u8] + enc_network(network)) + id@);
            lemma_slice_split(bytes, i, j2, seq![1u8] + enc_network(network), id@);
            assert(enc_network(network).len() == 1);
            lemma_slice_split(
                bytes,
                i,
                i + 1 + enc_network(network).len(),
                seq![1u8],
                enc_network(network),
            );
            assert(bytes.subrange(i, i + 1)[0] == bytes[i]);
        },
        Junction::PalletInstance(p) => {
            assert(bytes.subrange(i, j2) == seq![2u8, p]);
            assert(bytes.subrange(i, j2).len() == 2);
            assert(j2 == i + 2);
            assert(bytes.subrange(i, j2)[0] == bytes[i]);
            assert(bytes.subrange(i, j2)[1] == bytes[i + 1]);
        },
        Junction::GeneralIndex(n) => {
            lemma_slice_split(bytes, i, j2, seq![3u8], le_bytes(n as nat, 16));
            assert(bytes.subrange(i, i + 1)[0] == bytes[i]);
        },
    }
}

fn read_junction(bytes: &Vec<u8>, i: usize) -> (r: Option<(Junction, usize)>)
    ensures
        match r {
            Some((jn, j)) => i < j <= bytes@.len() && enc_junction(jn) == bytes@.subrange(
                i as int,
                j as int,
            ),
            None => true,
        },
        forall|w: Junction, j2: int|
            #[trigger] slice_is(bytes@, i as int, j2, enc_junction(w)) ==> r is Some
                && r->Some_0.0 == w && r->Some_0.1 == j2,
{
    let (tag, j0) = match read_byte(bytes, i) {
        Some(x) => x,
        None => {
            proof {
                assert forall|w: Junction, j2: int|
                    ! #[trigger] slice_is(bytes@, i as int, j2, enc_junction(w)) by {
                    if slice_is(bytes@, i as int, j2, enc_junction(w)) {
                        lemma_junction_parse(bytes@, i as int, j2, w);
                    }
                }
            }
            return None;
        },
    };
    match tag {
        0u8 => {
            let (id, j) = match read_u32(bytes, j0) {
                Some(x) => x,
                None => {
            proof {
                assert forall|w: Junction, j2: int|
                    ! #[trigger] slice_is(bytes@, i as int, j2, enc_junction(w)) by {
                    if slice_is(bytes@, i as int, j2, enc_junction(w)) {
                        lemma_junction_parse(bytes@, i as int, j2, w);
                    }
                }
            }
                    return None;
                },
            };
            let jn = Junction::Parachain(id);
            proof {
                assert(enc_junction(jn) =~= bytes@.subrange(i as int, j as int));
                assert forall|w: Junction, j2: int|
                    #[trigger] slice_is(bytes@, i as int, j2, enc_junction(w)) implies jn == w
                    && j2 == j by {
                    lemma_junction_parse(bytes@, i as int, j2, w);
                }
            }
            Some((jn, j))
        },
        1u8 => {
            let (network, j1) = match read_network(bytes, j0) {
                Some(x) => x,
                None => {
            proof {
                assert forall|w: Junction, j2: int|
                    ! #[trigger] slice_is(bytes@, i as int, j2, enc_junction(w)) by {
                    if slice_is(bytes@, i as int, j2, enc_junction(w)) {
                        lemma_junction_parse(bytes@, i as int, j2, w);
                    }
                }
            }
                    return None;
                },
            };
            let (id, j) = match read_bytes32(bytes, j1) {
                Some(x) => x,
                None => {
            proof {
                assert forall|w: Junction, j2: int|
                    ! #[trigger] slice_is(bytes@, i as int, j2, enc_junction(w)) by {
                    if slice_is(bytes@, i as int, j2, enc_junction(w)) {
                        lemma_junction_parse(bytes@, i as int, j2, w);
                    }
                }
            }
                    return None;
                },
            };
            let jn = Junction::AccountId32 { network, id };
            proof {
                assert(enc_junction(jn) =~= bytes@.subrange(i as int, j as int));
                assert forall|w: Junction, j2: int|
                    #[trigger] slice_is(bytes@, i as int, j2, enc_junction(w)) implies jn == w
                    && j2 == j by {
                    lemma_junction_parse(bytes@, i as int, j2, w);
                    assert(w is AccountId32);
                    assert(network == w->AccountId32_network);
                    assert(id@ == w->AccountId32_id@);
                    vstd::array::axiom_array_ext_equal(id, w->AccountId32_id);
                    assert(id =~= w->AccountId32_id);
                }
            }
            Some((jn, j))
        },
        2u8 => {
            let (idx, j) = match read_byte(bytes, j0) {
                Some(x) => x,
                None => {
            proof {
                assert forall|w: Junction, j2: int|
                    ! #[trigger] slice_is(bytes@, i as int, j2, enc_junction(w)) by {
                    if slice_is(bytes@, i as int, j2, enc_junction(w)) {
                        lemma_junction_parse(bytes@, i as int, j2, w);
                    }
                }
            }
                    return None;
                },
            };
            let jn = Junction::PalletInstance(idx);
            proof {
                assert(enc_junction(jn) =~= bytes@.subrange(i as int, j as int));
                assert forall|w: Junction, j2: int|
                    #[trigger] slice_is(bytes@, i as int, j2, enc_junction(w)) implies jn == w
                    && j2 == j by {
                    lemma_junction_parse(bytes@, i as int, j2, w);
                }
            }
            Some((jn, j))
        },
        3u8 => {
            let (n, j) = match read_u128(bytes, j0) {
                Some(x) => x,
                None => {
            proof {
                assert forall|w: Junction, j2: int|
                    ! #[trigger] slice_is(bytes@, i as int, j2, enc_junction(w)) by {
                    if slice_is(bytes@, i as int, j2, enc_junction(w)) {
                        lemma_junction_parse(bytes@, i as int, j2, w);
                    }
                }
            }
                    return None;
                },
            };
            let jn = Junction::GeneralIndex(n);
            proof {
                assert(enc_junction(jn) =~= bytes@.subrange(i as int, j as int));
                assert forall|w: Junction, j2: int|
                    #[trigger] slice_is(bytes@, i as int, j2, enc_junction(w)) implies jn == w
                    && j2 == j by {
                    lemma_junction_parse(bytes@, i as int, j2, w);
                }
            }
            Some((jn, j))
        },
        _ => {
            proof {
                assert forall|w: Junction, j2: int|
                    ! #[trigger] slice_is(bytes@, i as int, j2, enc_junction(w)) by {
                    if slice_is(bytes@, i as int, j2, enc_junction(w)) {
                        lemma_junction_parse(bytes@, i as int, j2, w);
                    }
                }
            }
            None
        },
    }
}

/// Splits a hypothetical location encoding at `i` into its header bytes
/// and interior slice.
proof fn lemma_location_parse(bytes: Seq<u8>, i: int, j2: int, w: LocModel)
    requires
        loc_encodable(w),
        slice_is(bytes, i, j2, enc_location(w)),
    ensures
        i + 2 <= j2,
        bytes[i] == w.parents as u8,
        bytes[i + 1] == w.interior.len() as u8,
        slice_is(bytes, i + 2, j2, enc_junctions(w.interior)),
{
    lemma_slice_split(
        bytes,
        i,
        j2,
        seq![w.parents as u8, w.interior.len() as u8],
        enc_junctions(w.interior),
    );
    assert(bytes.subrange(i, i + 2)[0] == bytes[i]);
    assert(bytes.subrange(i, i + 2)[1] == bytes[i + 1]);
}

#[verifier::loop_isolation(false)]
fn read_location(bytes: &Vec<u8>, i: usize) -> (r: Option<(Location, usize)>)
    ensures
        match r {
            Some((l, j)) => i < j <= bytes@.len() && l@.wf() && enc_location(l@)
                == bytes@.subrange(i as int, j as int),
            None => true,
        },
        forall|w: LocModel, j2: int|
            loc_encodable(w) && #[trigger] slice_is(bytes@, i as int, j2, enc_location(w))
                ==> r is Some && r->Some_0.0@ == w && r->Some_0.1 == j2,
{
    let (parents, j0) = match read_byte(bytes, i) {
        Some(x) => x,
        None => {
            proof {
                assert forall|w: LocModel, j2: int|
                    loc_encodable(w) implies ! #[trigger] slice_is(
                    bytes@,
                    i as int,
                    j2,
                    enc_location(w),
                ) by {
                    if slice_is(bytes@, i as int, j2, enc_location(w)) {
                        lemma_location_parse(bytes@, i as int, j2, w);
                    }
                }
            }
            return None;
        },
    };
    let (count, j1) = match read_byte(bytes, j0) {
        Some(x) => x,
        None => {
            proof {
                assert forall|w: LocModel, j2: int|
                    loc_encodable(w) implies ! #[trigger] slice_is(
                    bytes@,
                    i as int,
                    j2,
                    enc_location(w),
                ) by {
                    if slice_is(bytes@, i as int, j2, enc_location(w)) {
                        lemma_location_parse(bytes@, i as int, j2, w);
                    }
                }
            }
            return None;
        },
    };
    if count as usize > MAX_JUNCTIONS {
        proof {
            assert forall|w: LocModel, j2: int|
                loc_encodable(w) implies ! #[trigger] slice_is(
                bytes@,
                i as int,
                j2,
                enc_location(w),
            ) by {
                if slice_is(bytes@, i as int, j2, enc_location(w)) {
                    lemma_location_parse(bytes@, i as int, j2, w);
                    assert(w.interior.len() as u8 == count);
                }
            }
        }
        return None;
    }
    let mut interior: Vec<Junction> = Vec::new();
    let mut cur = j1;
    let mut k: usize = 0;
    proof {
        assert forall|w: LocModel, j2: int|
            loc_encodable(w) && #[trigger] slice_is(bytes@, i as int, j2, enc_location(w))
                implies w.parents == parents as int && w.interior.len() == count as int
                && w.interior.subrange(0, 0) == interior@ && slice_is(
                bytes@,
                cur as int,
                j2,
                enc_junctions(w.interior.skip(0)),
            ) by {
            lemma_location_parse(bytes@, i as int, j2, w);
            assert(w.parents as u8 == parents);
            assert(w.interior.len() as u8 == count);
            assert(w.interior.subrange(0, 0) =~= interior@);
            assert(w.interior.skip(0) =~= w.interior);
        }
    }
    while k < count as usize
        invariant
            k <= count as usize,
            i < j1 <= cur <= bytes@.len(),
            interior@.len() == k,
            enc_junctions(interior@) == bytes@.subrange(j1 as int, cur as int),
            forall|w: LocModel, j2: int|
                loc_encodable(w) && #[trigger] slice_is(bytes@, i as int, j2, enc_location(w))
                    ==> w.parents == parents as int && w.interior.len() == count as int
                    && w.interior.subrange(0, k as int) == interior@ && slice_is(
                    bytes@,
                    cur as int,
                    j2,
                    enc_junctions(w.interior.skip(k as int)),
                ),
        decreases count as usize - k,
    {
        proof {
            assert forall|w: LocModel, j2: int|
                loc_encodable(w) && #[trigger] slice_is(bytes@, i as int, j2, enc_location(w))
                    implies slice_is(
                bytes@,
                cur as int,
                cur + enc_junction(w.interior[k as int]).len(),
                enc_junction(w.interior[k as int]),
            ) by {
                let rest = w.interior.skip(k as int);
                assert(rest.len() > 0);
                lemma_enc_junctions_front(rest);
                lemma_slice_split(
                    bytes@,
                    cur as int,
                    j2,
                    enc_junction(rest.first()),
                    enc_junctions(rest.drop_first()),
                );
                assert(rest.first() == w.interior[k as int]);
            }
        }
        let (jn, nxt) = match read_junction(bytes, cur) {
            Some(x) => x,
            None => {
                proof {
                    assert forall|w: LocModel, j2: int|
                        loc_encodable(w) implies ! #[trigger] slice_is(
                        bytes@,
                        i as int,
                        j2,
                        enc_location(w),
                    ) by {
                        if slice_is(bytes@, i as int, j2, enc_location(w)) {
                            assert(slice_is(
                                bytes@,
                                cur as int,
                                cur + enc_junction(w.interior[k as int]).len(),
                                enc_junction(w.interior[k as int]),
                            ));
                        }
                    }
                }
                return None;
            },
        };
        proof {
            assert(interior@.push(jn).drop_last() =~= interior@);
            assert(enc_junctions(interior@.push(jn)) =~= bytes@.subrange(j1 as int, nxt as int));
            assert forall|w: LocModel, j2: int|
                loc_encodable(w) && #[trigger] slice_is(bytes@, i as int, j2, enc_location(w))
                    implies w.interior.subrange(0, k + 1 as int) == interior@.push(jn) && slice_is(
                bytes@,
                nxt as int,
                j2,
                enc_junctions(w.interior.skip(k + 1 as int)),
            ) by {
                let rest = w.interior.skip(k as int);
                lemma_enc_junctions_front(rest);
                lemma_slice_split(
                    bytes@,
                    cur as int,
                    j2,
                    enc_junction(rest.first()),
                    enc_junctions(rest.drop_first()),
                );
                assert(rest.first() == w.interior[k as int]);
                assert(jn == w.interior[k as int]);
                assert(w.interior.subrange(0, k + 1 as int) =~= w.interior.subrange(
                    0,
                    k as int,
                ).push(w.interior[k as int]));
                assert(rest.drop_first() =~= w.interior.skip(k + 1 as int));
            }
        }
        interior.push(jn);
        cur = nxt;
        k += 1;
    }
    let l = Location { parents, interior };
    proof {
        assert(enc_junctions(Seq::<Junction>::empty()) =~= Seq::<u8>::empty());
        assert(enc_location(l@) =~= bytes@.subrange(i as int, cur as int));
        assert forall|w: LocModel, j2: int|
            loc_encodable(w) && #[trigger] slice_is(bytes@, i as int, j2, enc_location(w))
                implies l@ == w && j2 == cur by {
            assert(w.interior.subrange(0, k as int) =~= w.interior);
            assert(w.interior == interior@);
            assert(w.interior.skip(k as int) =~= Seq::<Junction>::empty());
            assert(enc_junctions(w.interior.skip(k as int)) =~= Seq::<u8>::empty());
            assert(j2 == cur);
            assert(l@ == w);
        }
    }
    Some((l, cur))
}

/// Splits a hypothetical asset-id encoding at `i`.
proof fn lemma_asset_id_parse(bytes: Seq<u8>, i: int, j2: int, w: AssetIdModel)
    requires
        asset_id_encodable(w),
        slice_is(bytes, i, j2, enc_asset_id(w)),
    ensures
        enc_asset_id(w)[0] == bytes[i],
        i < j2,
        w is Concrete ==> slice_is(bytes, i + 1, j2, enc_location(w->Concrete_0)),
        w is Abstract ==> slice_is(bytes, i + 1, j2, le_bytes(w->Abstract_0 as nat, 8)),
{
    match w {
        AssetIdModel::Concrete(l) => {
            lemma_slice_split(bytes, i, j2, seq![0u8], enc_location(l));
            assert(bytes.subrange(i, i + 1)[0] == bytes[i]);
        },
        AssetIdModel::Abstract(n) => {
            lemma_slice_split(bytes, i, j2, seq![1u8], le_bytes(n as nat, 8));
            assert(bytes.subrange(i, i + 1)[0] == bytes[i]);
        },
    }
}

fn read_asset_id(bytes: &Vec<u8>, i: usize) -> (r: Option<(AssetId, usize)>)
    ensures
        match r {
            Some((a, j)) => i < j <= bytes@.len() && asset_id_encodable(a@) && enc_asset_id(a@)
                == bytes@.subrange(i as int, j as int),
            None => true,
        },
        forall|w: AssetIdModel, j2: int|
            asset_id_encodable(w) && #[trigger] slice_is(bytes@, i as int, j2, enc_asset_id(w))
                ==> r is Some && r->Some_0.0@ == w && r->Some_0.1 == j2,
{
    let (tag, j0) = match read_byte(bytes, i) {
        Some(x) => x,
        None => {
            proof {
                assert forall|w: AssetIdModel, j2: int|
                    asset_id_encodable(w) implies ! #[trigger] slice_is(
                    bytes@,
                    i as int,
                    j2,
                    enc_asset_id(w),
                ) by {
                    if slice_is(bytes@, i as int, j2, enc_asset_id(w)) {
                        lemma_asset_id_parse(bytes@, i as int, j2, w);
                    }
                }
            }
            return None;
        },
    };
    match tag {
        0u8 => {
            let (l, j) = match read_location(bytes, j0) {
                Some(x) => x,
                None => {
                    proof {
                        assert forall|w: AssetIdModel, j2: int|
                            asset_id_encodable(w) implies ! #[trigger] slice_is(
                            bytes@,
                            i as int,
                            j2,
                            enc_asset_id(w),
                        ) by {
                            if slice_is(bytes@, i as int, j2, enc_asset_id(w)) {
                                lemma_asset_id_parse(bytes@, i as int, j2, w);
                            }
                        }
                    }
                    return None;
                },
            };
            let a = AssetId::Concrete(l);
            proof {
                assert(enc_asset_id(a@) =~= bytes@.subrange(i as int, j as int));
                assert forall|w: AssetIdModel, j2: int|
                    asset_id_encodable(w) && #[trigger] slice_is(
                    bytes@,
                    i as int,
                    j2,
                    enc_asset_id(w),
                ) implies a@ == w && j2 == j by {
                    lemma_asset_id_parse(bytes@, i as int, j2, w);
                }
            }
            Some((a, j))
        },
        1u8 => {
            let (n, j) = match read_u64(bytes, j0) {
                Some(x) => x,
                None => {
                    proof {
                        assert forall|w: AssetIdModel, j2: int|
                            asset_id_encodable(w) implies ! #[trigger] slice_is(
                            bytes@,
                            i as int,
                            j2,
                            enc_asset_id(w),
                        ) by {
                            if slice_is(bytes@, i as int, j2, enc_asset_id(w)) {
                                lemma_asset_id_parse(bytes@, i as int, j2, w);
                            }
                        }
                    }
                    return None;
                },
            };
            let a = AssetId::Abstract(n);
            proof {
                assert(enc_asset_id(a@) =~= bytes@.subrange(i as int, j as int));
                assert forall|w: AssetIdModel, j2: int|
                    asset_id_encodable(w) && #[trigger] slice_is(
                    bytes@,
                    i as int,
                    j2,
                    enc_asset_id(w),
                ) implies a@ == w && j2 == j by {
                    lemma_asset_id_parse(bytes@, i as int, j2, w);
                }
            }
            Some((a, j))
        },
        _ => {
            proof {
                assert forall|w: AssetIdModel, j2: int|
                    asset_id_encodable(w) implies ! #[trigger] slice_is(
                    bytes@,
                    i as int,
                    j2,
                    enc_asset_id(w),
                ) by {
                    if slice_is(bytes@, i as int, j2, enc_asset_id(w)) {
                        lemma_asset_id_parse(bytes@, i as int, j2, w);
                    }
                }
            }
            None
        },
    }
}

/// Splits a hypothetical fungibility encoding at `i` into its tag and
/// payload slices.
proof fn lemma_fungibility_parse(bytes: Seq<u8>, i: int, j2: int, w: Fungibility)
    requires
        slice_is(bytes, i, j2, enc_fungibility(w)),
    ensures
        enc_fungibility(w)[0] == bytes[i],
        i < j2,
        w is Fungible ==> slice_is(bytes, i + 1, j2, le_bytes(w->Fungible_0 as nat, 16)),
        w is NonFungible ==> slice_is(bytes, i + 1, j2, le_bytes(w->NonFungible_0 as nat, 8)),
{
    match w {
        Fungibility::Fungible(x) => {
            lemma_slice_split(bytes, i, j2, seq![0u8], le_bytes(x as nat, 16));
            assert(bytes.subrange(i, i + 1)[0] == bytes[i]);
        },
        Fungibility::NonFungible(x) => {
            lemma_slice_split(bytes, i, j2, seq![1u8], le_bytes(x as nat, 8));
            assert(bytes.subrange(i, i + 1)[0] == bytes[i]);
        },
    }
}

fn read_fungibility(bytes: &Vec<u8>, i: usize) -> (r: Option<(Fungibility, usize)>)
    ensures
        match r {
            Some((f, j)) => i < j <= bytes@.len() && enc_fungibility(f) == bytes@.subrange(
                i as int,
                j as int,
            ),
            None => true,
        },
        forall|w: Fungibility, j2: int|
            #[trigger] slice_is(bytes@, i as int, j2, enc_fungibility(w)) ==> r is Some
                && r->Some_0.0 == w && r->Some_0.1 == j2,
{
    let (tag, j0) = match read_byte(bytes, i) {
        Some(x) => x,
        None => {
            proof {
                assert forall|w: Fungibility, j2: int|
                    ! #[trigger] slice_is(bytes@, i as int, j2, enc_fungibility(w)) by {
                    if slice_is(bytes@, i as int, j2, enc_fungibility(w)) {
                        lemma_fungibility_parse(bytes@, i as int, j2, w);
                    }
                }
            }
            return None;
        },
    };
    match tag {
        0u8 => {
            let (amount, j) = match read_u128(bytes, j0) {
                Some(x) => x,
                None => {
                    proof {
                        assert forall|w: Fungibility, j2: int|
                            ! #[trigger] slice_is(bytes@, i as int, j2, enc_fungibility(w)) by {
                            if slice_is(bytes@, i as int, j2, enc_fungibility(w)) {
                                lemma_fungibility_parse(bytes@, i as int, j2, w);
                            }
                        }
                    }
                    return None;
                },
            };
            let f = Fungibility::Fungible(amount);
            proof {
                assert(enc_fungibility(f) =~= bytes@.subrange(i as int, j as int));
                assert forall|w: Fungibility, j2: int|
                    #[trigger] slice_is(bytes@, i as int, j2, enc_fungibility(w)) implies f == w
                    && j2 == j by {
                    lemma_fungibility_parse(bytes@, i as int, j2, w);
                }
            }
            Some((f, j))
        },
        1u8 => {
            let (instance, j) = match read_u64(bytes, j0) {
                Some(x) => x,
                None => {
                    proof {
                        assert forall|w: Fungibility, j2: int|
                            ! #[trigger] slice_is(bytes@, i as int, j2, enc_fungibility(w)) by {
                            if slice_is(bytes@, i as int, j2, enc_fungibility(w)) {
                                lemma_fungibility_parse(bytes@, i as int, j2, w);
                            }
                        }
                    }
                    return None;
                },
            };
            let f = Fungibility::NonFungible(instance);
            proof {
                assert(enc_fungibility(f) =~= bytes@.subrange(i as int, j as int));
                assert forall|w: Fungibility, j2: int|
                    #[trigger] slice_is(bytes@, i as int, j2, enc_fungibility(w)) implies f == w
                    && j2 == j by {
                    lemma_fungibility_parse(bytes@, i as int, j2, w);
                }
            }
            Some((f, j))
        },
        _ => {
            proof {
                assert forall|w: Fungibility, j2: int|
                    ! #[trigger] slice_is(bytes@, i as int, j2, enc_fungibility(w)) by {
                    if slice_is(bytes@, i as int, j2, enc_fungibility(w)) {
                        lemma_fungibility_parse(bytes@, i as int, j2, w);
                    }
                }
            }
            None
        },
    }
}

/// Splits a hypothetical asset encoding at `i` into identity and value.
proof fn lemma_asset_parse(bytes: Seq<u8>, i: int, j2: int, w: AssetModel)
    requires
        asset_encodable(w),
        slice_is(bytes, i, j2, enc_asset(w)),
    ensures
        slice_is(bytes, i, i + enc_asset_id(w.id).len(), enc_asset_id(w.id)),
        slice_is(bytes, i + enc_asset_id(w.id).len(), j2, enc_fungibility(w.fun)),
{
    lemma_slice_split(bytes, i, j2, enc_asset_id(w.id), enc_fungibility(w.fun));
}

fn read_asset(bytes: &Vec<u8>, i: usize) -> (r: Option<(Asset, usize)>)
    ensures
        match r {
            Some((a, j)) => i < j <= bytes@.len() && asset_encodable(a@) && enc_asset(a@)
                == bytes@.subrange(i as int, j as int),
            None => true,
        },
        forall|w: AssetModel, j2: int|
            asset_encodable(w) && #[trigger] slice_is(bytes@, i as int, j2, enc_asset(w)) ==> r
                is Some && r->Some_0.0@ == w && r->Some_0.1 == j2,
{
    let (id, j0) = match read_asset_id(bytes, i) {
        Some(x) => x,
        None => {
            proof {
                assert forall|w: AssetModel, j2: int|
                    asset_encodable(w) implies ! #[trigger] slice_is(
                    bytes@,
                    i as int,
                    j2,
                    enc_asset(w),
                ) by {
                    if slice_is(bytes@, i as int, j2, enc_asset(w)) {
                        lemma_asset_parse(bytes@, i as int, j2, w);
                    }
                }
            }
            return None;
        },
    };
    let (fun, j) = match read_fungibility(bytes, j0) {
        Some(x) => x,
        None => {
            proof {
                assert forall|w: AssetModel, j2: int|
                    asset_encodable(w) implies ! #[trigger] slice_is(
                    bytes@,
                    i as int,
                    j2,
                    enc_asset(w),
                ) by {
                    if slice_is(bytes@, i as int, j2, enc_asset(w)) {
                        lemma_asset_parse(bytes@, i as int, j2, w);
                    }
                }
            }
            return None;
        },
    };
    let a = Asset { id, fun };
    proof {
        assert(enc_asset(a@) =~= bytes@.subrange(i as int, j as int));
        assert forall|w: AssetModel, j2: int|
            asset_encodable(w) && #[trigger] slice_is(bytes@, i as int, j2, enc_asset(w)) implies a@
            == w && j2 == j by {
            lemma_asset_parse(bytes@, i as int, j2, w);
        }
    }
    Some((a, j))
}

/// Splits a hypothetical asset-list encoding at `i` into its count and
/// items, pinning the count.
proof fn lemma_assets_parse(bytes: Seq<u8>, i: int, j2: int, w: Seq<AssetModel>)
    requires
        assets_encodable(w),
        slice_is(bytes, i, j2, enc_assets(w)),
    ensures
        slice_is(bytes, i, i + 4, le_bytes((w.len() as u32) as nat, 4)),
        slice_is(bytes, i + 4, j2, enc_assets_items(w)),
{
    lemma_le_bytes_len(w.len(), 4);
    lemma_slice_split(bytes, i, j2, le_bytes(w.len(), 4), enc_assets_items(w));
}

#[verifier::loop_isolation(false)]
fn read_assets(bytes: &Vec<u8>, i: usize) -> (r: Option<(Vec<Asset>, usize)>)
    ensures
        match r {
            Some((v, j)) => i < j <= bytes@.len() && assets_encodable(
                crate::asset::assets_model(v@),
            ) && enc_assets(crate::asset::assets_model(v@)) == bytes@.subrange(i as int, j as int),
            None => true,
        },
        forall|w: Seq<AssetModel>, j2: int|
            assets_encodable(w) && #[trigger] slice_is(bytes@, i as int, j2, enc_assets(w)) ==> r
                is Some && crate::asset::assets_model(r->Some_0.0@) == w && r->Some_0.1 == j2,
{
    let (count, j0) = match read_u32(bytes, i) {
        Some(x) => x,
        None => {
            proof {
                assert forall|w: Seq<AssetModel>, j2: int|
                    assets_encodable(w) implies ! #[trigger] slice_is(
                    bytes@,
                    i as int,
                    j2,
                    enc_assets(w),
                ) by {
                    if slice_is(bytes@, i as int, j2, enc_assets(w)) {
                        lemma_assets_parse(bytes@, i as int, j2, w);
                    }
                }
            }
            return None;
        },
    };
    let mut v: Vec<Asset> = Vec::new();
    let mut cur = j0;
    let mut k: usize = 0;
    proof {
        assert forall|w: Seq<AssetModel>, j2: int|
            assets_encodable(w) && #[trigger] slice_is(bytes@, i as int, j2, enc_assets(w))
                implies w.len() == count as int && w.subrange(0, 0) == crate::asset::assets_model(
            v@,
        ) && slice_is(bytes@, cur as int, j2, enc_assets_items(w.skip(0))) by {
            lemma_assets_parse(bytes@, i as int, j2, w);
            assert(count == w.len() as u32);
            assert(w.subrange(0, 0) =~= crate::asset::assets_model(v@));
            assert(w.skip(0) =~= w);
        }
    }
    while k < count as usize
        invariant
            k <= count as usize,
            i < j0 <= cur <= bytes@.len(),
            v@.len() == k,
            assets_encodable(crate::asset::assets_model(v@)),
            enc_assets_items(crate::asset::assets_model(v@)) == bytes@.subrange(
                j0 as int,
                cur as int,
            ),
            forall|w: Seq<AssetModel>, j2: int|
                assets_encodable(w) && #[trigger] slice_is(bytes@, i as int, j2, enc_assets(w))
                    ==> w.len() == count as int && w.subrange(0, k as int)
                    == crate::asset::assets_model(v@) && slice_is(
                    bytes@,
                    cur as int,
                    j2,
                    enc_assets_items(w.skip(k as int)),
                ),
        decreases count as usize - k,
    {
        proof {
            assert forall|w: Seq<AssetModel>, j2: int|
                assets_encodable(w) && #[trigger] slice_is(bytes@, i as int, j2, enc_assets(w))
                    implies slice_is(
                bytes@,
                cur as int,
                cur + enc_asset(w[k as int]).len(),
                enc_asset(w[k as int]),
            ) && asset_encodable(w[k as int]) by {
                let rest = w.skip(k as int);
                assert(rest.len() > 0);
                lemma_enc_assets_items_front(rest);
                lemma_slice_split(
                    bytes@,
                    cur as int,
                    j2,
                    enc_asset(rest.first()),
                    enc_assets_items(rest.drop_first()),
                );
                assert(rest.first() == w[k as int]);
            }
        }
        let (a, nxt) = match read_asset(bytes, cur) {
            Some(x) => x,
            None => {
                proof {
                    assert forall|w: Seq<AssetModel>, j2: int|
                        assets_encodable(w) implies ! #[trigger] slice_is(
                        bytes@,
                        i as int,
                        j2,
                        enc_assets(w),
                    ) by {
                        if slice_is(bytes@, i as int, j2, enc_assets(w)) {
                            assert(slice_is(
                                bytes@,
                                cur as int,
                                cur + enc_asset(w[k as int]).len(),
                                enc_asset(w[k as int]),
                            ));
                        }
                    }
                }
                return None;
            },
        };
        let ghost pre = crate::asset::assets_model(v@);
        proof {
            assert forall|w: Seq<AssetModel>, j2: int|
                assets_encodable(w) && #[trigger] slice_is(bytes@, i as int, j2, enc_assets(w))
                    implies w.subrange(0, k + 1 as int) == pre.push(a@) && slice_is(
                bytes@,
                nxt as int,
                j2,
                enc_assets_items(w.skip(k + 1 as int)),
            ) by {
                let rest = w.skip(k as int);
                lemma_enc_assets_items_front(rest);
                lemma_slice_split(
                    bytes@,
                    cur as int,
                    j2,
                    enc_asset(rest.first()),
                    enc_assets_items(rest.drop_first()),
                );
                assert(rest.first() == w[k as int]);
                assert(a@ == w[k as int]);
                assert(w.subrange(0, k + 1 as int) =~= w.subrange(0, k as int).push(
                    w[k as int],
                ));
                assert(rest.drop_first() =~= w.skip(k + 1 as int));
            }
        }
        v.push(a);
        cur = nxt;
        k += 1;
        proof {
            let post = crate::asset::assets_model(v@);
            assert(post =~= pre.push(a@));
            assert(post.drop_last() =~= pre);
            assert(enc_assets_items(post) =~= bytes@.subrange(j0 as int, cur as int));
        }
    }
    proof {
        let model = crate::asset::assets_model(v@);
        assert(model.len() == count as nat);
        assert(enc_assets(model) =~= bytes@.subrange(i as int, cur as int));
        assert forall|w: Seq<AssetModel>, j2: int|
            assets_encodable(w) && #[trigger] slice_is(bytes@, i as int, j2, enc_assets(w))
                implies model == w && j2 == cur by {
            assert(w.subrange(0, k as int) =~= w);
            assert(w.skip(k as int) =~= Seq::<AssetModel>::empty());
            assert(enc_assets_items(w.skip(k as int)) =~= Seq::<u8>::empty());
        }
    }
    Some((v, cur))
}

/// Splits a hypothetical filter encoding at `i`.
proof fn lemma_filter_parse(bytes: Seq<u8>, i: int, j2: int, w: FilterModel)
    requires
        filter_encodable(w),
        slice_is(bytes, i, j2, enc_filter(w)),
    ensures
        enc_filter(w)[0] == bytes[i],
        i < j2,
        w is Definite ==> slice_is(bytes, i + 1, j2, enc_assets(w->Definite_0)),
        w is WildAll ==> j2 == i + 1,
        w is WildAllOf ==> slice_is(bytes, i + 1, j2, enc_asset_id(w->WildAllOf_id)),
{
    match w {
        FilterModel::Definite(list) => {
            lemma_slice_split(bytes, i, j2, seq![0u8], enc_assets(list));
            assert(bytes.subrange(i, i + 1)[0] == bytes[i]);
        },
        FilterModel::WildAll => {
            assert(enc_filter(w) == seq![1u8]);
            assert(bytes.subrange(i, j2) == seq![1u8]);
            assert(bytes.subrange(i, j2).len() == 1);
            assert(j2 == i + 1);
            assert(bytes.subrange(i, j2)[0] == bytes[i]);
        },
        FilterModel::WildAllOf { id } => {
            lemma_slice_split(bytes, i, j2, seq![2u8], enc_asset_id(id));
            assert(bytes.subrange(i, i + 1)[0] == bytes[i]);
        },
    }
}

fn read_filter(bytes: &Vec<u8>, i: usize) -> (r: Option<(AssetFilter, usize)>)
    ensures
        match r {
            Some((f, j)) => i < j <= bytes@.len() && filter_encodable(f@) && enc_filter(f@)
                == bytes@.subrange(i as int, j as int),
            None => true,
        },
        forall|w: FilterModel, j2: int|
            filter_encodable(w) && #[trigger] slice_is(bytes@, i as int, j2, enc_filter(w)) ==> r
                is Some && r->Some_0.0@ == w && r->Some_0.1 == j2,
{
    let (tag, j0) = match read_byte(bytes, i) {
        Some(x) => x,
        None => {
            proof {
                assert forall|w: FilterModel, j2: int|
                    filter_encodable(w) implies ! #[trigger] slice_is(
                    bytes@,
                    i as int,
                    j2,
                    enc_filter(w),
                ) by {
                    if slice_is(bytes@, i as int, j2, enc_filter(w)) {
                        lemma_filter_parse(bytes@, i as int, j2, w);
                    }
                }
            }
            return None;
        },
    };
    match tag {
        0u8 => {
            let (v, j) = match read_assets(bytes, j0) {
                Some(x) => x,
                None => {
                    proof {
                        assert forall|w: FilterModel, j2: int|
                            filter_encodable(w) implies ! #[trigger] slice_is(
                            bytes@,
                            i as int,
                            j2,
                            enc_filter(w),
                        ) by {
                            if slice_is(bytes@, i as int, j2, enc_filter(w)) {
                                lemma_filter_parse(bytes@, i as int, j2, w);
                            }
                        }
                    }
                    return None;
                },
            };
            let f = AssetFilter::Definite(v);
            proof {
                assert(enc_filter(f@) =~= bytes@.subrange(i as int, j as int));
                assert forall|w: FilterModel, j2: int|
                    filter_encodable(w) && #[trigger] slice_is(bytes@, i as int, j2, enc_filter(w))
                    implies f@ == w && j2 == j by {
                    lemma_filter_parse(bytes@, i as int, j2, w);
                }
            }
            Some((f, j))
        },
        1u8 => {
            let f = AssetFilter::WildAll;
            proof {
                assert(enc_filter(f@) =~= bytes@.subrange(i as int, j0 as int));
                assert forall|w: FilterModel, j2: int|
                    filter_encodable(w) && #[trigger] slice_is(bytes@, i as int, j2, enc_filter(w))
                    implies f@ == w && j2 == j0 by {
                    lemma_filter_parse(bytes@, i as int, j2, w);
                }
            }
            Some((f, j0))
        },
        2u8 => {
            let (id, j) = match read_asset_id(bytes, j0) {
                Some(x) => x,
                None => {
                    proof {
                        assert forall|w: FilterModel, j2: int|
                            filter_encodable(w) implies ! #[trigger] slice_is(
                            bytes@,
                            i as int,
                            j2,
                            enc_filter(w),
                        ) by {
                            if slice_is(bytes@, i as int, j2, enc_filter(w)) {
                                lemma_filter_parse(bytes@, i as int, j2, w);
                            }
                        }
                    }
                    return None;
                },
            };
            let f = AssetFilter::WildAllOf { id };
            proof {
                assert(enc_filter(f@) =~= bytes@.subrange(i as int, j as int));
                assert forall|w: FilterModel, j2: int|
                    filter_encodable(w) && #[trigger] slice_is(bytes@, i as int, j2, enc_filter(w))
                    implies f@ == w && j2 == j by {
                    lemma_filter_parse(bytes@, i as int, j2, w);
                }
            }
            Some((f, j))
        },
        _ => {
            proof {
                assert forall|w: FilterModel, j2: int|
                    filter_encodable(w) implies ! #[trigger] slice_is(
                    bytes@,
                    i as int,
                    j2,
                    enc_filter(w),
                ) by {
                    if slice_is(bytes@, i as int, j2, enc_filter(w)) {
                        lemma_filter_parse(bytes@, i as int, j2, w);
                    }
                }
            }
            None
        },
    }
}

/// Splits a hypothetical weight encoding at `i` into its two components.
proof fn lemma_weight_parse(bytes: Seq<u8>, i: int, j2: int, w: Weight)
    requires
        slice_is(bytes, i, j2, enc_weight(w)),
    ensures
        slice_is(bytes, i, i + 8, le_bytes(w.ref_time as nat, 8)),
        slice_is(bytes, i + 8, j2, le_bytes(w.proof_size as nat, 8)),
        j2 == i + 16,
{
    lemma_le_bytes_len(w.ref_time as nat, 8);
    lemma_le_bytes_len(w.proof_size as nat, 8);
    lemma_slice_split(
        bytes,
        i,
        j2,
        le_bytes(w.ref_time as nat, 8),
        le_bytes(w.proof_size as nat, 8),
    );
}

fn read_weight(bytes: &Vec<u8>, i: usize) -> (r: Option<(Weight, usize)>)
    ensures
        match r {
            Some((w, j)) => i < j <= bytes@.len() && enc_weight(w) == bytes@.subrange(
                i as int,
                j as int,
            ),
            None => true,
        },
        forall|w: Weight, j2: int|
            #[trigger] slice_is(bytes@, i as int, j2, enc_weight(w)) ==> r is Some
                && r->Some_0.0 == w && r->Some_0.1 == j2,
{
    let (ref_time, j0) = match read_u64(bytes, i) {
        Some(x) => x,
        None => {
            proof {
                assert forall|w: Weight, j2: int|
                    ! #[trigger] slice_is(bytes@, i as int, j2, enc_weight(w)) by {
                    if slice_is(bytes@, i as int, j2, enc_weight(w)) {
                        lemma_weight_parse(bytes@, i as int, j2, w);
                    }
                }
            }
            return None;
        },
    };
    let (proof_size, j) = match read_u64(bytes, j0) {
        Some(x) => x,
        None => {
            proof {
                assert forall|w: Weight, j2: int|
                    ! #[trigger] slice_is(bytes@, i as int, j2, enc_weight(w)) by {
                    if slice_is(bytes@, i as int, j2, enc_weight(w)) {
                        lemma_weight_parse(bytes@, i as int, j2, w);
                    }
                }
            }
            return None;
        },
    };
    let w = Weight { ref_time, proof_size };
    proof {
        assert(enc_weight(w) =~= bytes@.subrange(i as int, j as int));
        assert forall|wx: Weight, j2: int|
            #[trigger] slice_is(bytes@, i as int, j2, enc_weight(wx)) implies w == wx && j2
            == j by {
            lemma_weight_parse(bytes@, i as int, j2, wx);
        }
    }
    Some((w, j))
}

/// Splits a hypothetical weight-limit encoding at `i`.
proof fn lemma_weight_limit_parse(bytes: Seq<u8>, i: int, j2: int, w: WeightLimit)
    requires
        slice_is(bytes, i, j2, enc_weight_limit(w)),
    ensures
        enc_weight_limit(w)[0] == bytes[i],
        i < j2,
        w is Unlimited ==> j2 == i + 1,
        w is Limited ==> slice_is(bytes, i + 1, j2, enc_weight(w->Limited_0)),
{
    match w {
        WeightLimit::Unlimited => {
            assert(enc_weight_limit(w) == seq![0u8]);
            assert(bytes.subrange(i, j2) == seq![0u8]);
            assert(bytes.subrange(i, j2).len() == 1);
            assert(j2 == i + 1);
            assert(bytes.subrange(i, j2)[0] == bytes[i]);
        },
        WeightLimit::Limited(lim) => {
            lemma_slice_split(bytes, i, j2, seq![1u8], enc_weight(lim));
            assert(bytes.subrange(i, i + 1)[0] == bytes[i]);
        },
    }
}

fn read_weight_limit(bytes: &Vec<u8>, i: usize) -> (r: Option<(WeightLimit, usize)>)
    ensures
        match r {
            Some((w, j)) => i < j <= bytes@.len() && enc_weight_limit(w) == bytes@.subrange(
                i as int,
                j as int,
            ),
            None => true,
        },
        forall|w: WeightLimit, j2: int|
            #[trigger] slice_is(bytes@, i as int, j2, enc_weight_limit(w)) ==> r is Some
                && r->Some_0.0 == w && r->Some_0.1 == j2,
{
    let (tag, j0) = match read_byte(bytes, i) {
        Some(x) => x,
        None => {
            proof {
                assert forall|w: WeightLimit, j2: int|
                    ! #[trigger] slice_is(bytes@, i as int, j2, enc_weight_limit(w)) by {
                    if slice_is(bytes@, i as int, j2, enc_weight_limit(w)) {
                        lemma_weight_limit_parse(bytes@, i as int, j2, w);
                    }
                }
            }
            return None;
        },
    };
    match tag {
        0u8 => {
            let w = WeightLimit::Unlimited;
            proof {
                assert(enc_weight_limit(w) =~= bytes@.subrange(i as int, j0 as int));
                assert forall|wx: WeightLimit, j2: int|
                    #[trigger] slice_is(bytes@, i as int, j2, enc_weight_limit(wx)) implies w
                    == wx && j2 == j0 by {
                    lemma_weight_limit_parse(bytes@, i as int, j2, wx);
                }
            }
            Some((w, j0))
        },
        1u8 => {
            let (lim, j) = match read_weight(bytes, j0) {
                Some(x) => x,
                None => {
                    proof {
                        assert forall|w: WeightLimit, j2: int|
                            ! #[trigger] slice_is(bytes@, i as int, j2, enc_weight_limit(w)) by {
                            if slice_is(bytes@, i as int, j2, enc_weight_limit(w)) {
                                lemma_weight_limit_parse(bytes@, i as int, j2, w);
                            }
                        }
                    }
                    return None;
                },
            };
            let w = WeightLimit::Limited(lim);
            proof {
                assert(enc_weight_limit(w) =~= bytes@.subrange(i as int, j as int));
                assert forall|wx: WeightLimit, j2: int|
                    #[trigger] slice_is(bytes@, i as int, j2, enc_weight_limit(wx)) implies w
                    == wx && j2 == j by {
                    lemma_weight_limit_parse(bytes@, i as int, j2, wx);
                }
            }
            Some((w, j))
        },
        _ => {
            proof {
                assert forall|w: WeightLimit, j2: int|
                    ! #[trigger] slice_is(bytes@, i as int, j2, enc_weight_limit(w)) by {
                    if slice_is(bytes@, i as int, j2, enc_weight_limit(w)) {
                        lemma_weight_limit_parse(bytes@, i as int, j2, w);
                    }
                }
            }
            None
        },
    }
}

fn read_origin_kind(bytes: &Vec<u8>, i: usize) -> (r: Option<(OriginKind, usize)>)
    ensures
        match r {
            Some((k, j)) => i < j <= bytes@.len() && enc_origin_kind(k) == bytes@.subrange(
                i as int,
                j as int,
            ),
            None => true,
        },
        forall|w: OriginKind, j2: int|
            #[trigger] slice_is(bytes@, i as int, j2, enc_origin_kind(w)) ==> r is Some
                && r->Some_0.0 == w && r->Some_0.1 == j2,
{
    let (tag, j) = match read_byte(bytes, i) {
        Some(x) => x,
        None => {
            proof {
                assert forall|w: OriginKind, j2: int|
                    ! #[trigger] slice_is(bytes@, i as int, j2, enc_origin_kind(w)) by {
                    assert(enc_origin_kind(w).len() == 1);
                    if slice_is(bytes@, i as int, j2, enc_origin_kind(w)) {
                        assert(j2 == i + 1);
                    }
                }
            }
            return None;
        },
    };
    let k = match tag {
        0u8 => OriginKind::SovereignAccount,
        1u8 => OriginKind::Native,
        _ => {
            proof {
                assert forall|w: OriginKind, j2: int|
                    ! #[trigger] slice_is(bytes@, i as int, j2, enc_origin_kind(w)) by {
                    if slice_is(bytes@, i as int, j2, enc_origin_kind(w)) {
                        assert(enc_origin_kind(w).len() == 1);
                        assert(enc_origin_kind(w)[0] == bytes@[i as int]);
                    }
                }
            }
            return None;
        },
    };
    proof {
        assert(enc_origin_kind(k) =~= bytes@.subrange(i as int, j as int));
        assert forall|w: OriginKind, j2: int|
            #[trigger] slice_is(bytes@, i as int, j2, enc_origin_kind(w)) implies k == w && j2
            == j by {
            assert(enc_origin_kind(w).len() == 1);
            assert(enc_origin_kind(w)[0] == bytes@[i as int]);
        }
    }
    Some((k, j))
}

fn read_raw_bytes(bytes: &Vec<u8>, i: usize, n: u32) -> (r: Option<(Vec<u8>, usize)>)
    ensures
        match r {
            Some((v, j)) => {
                &&& j == i + n
                &&& i + n <= bytes@.len()
                &&& v@ == bytes@.subrange(i as int, j as int)
            },
            None => i + n > bytes@.len(),
        },
        forall|w: Seq<u8>, j2: int|
            w.len() == n && #[trigger] slice_is(bytes@, i as int, j2, w) ==> r is Some
                && r->Some_0.0@ == w && r->Some_0.1 == j2,
{
    if bytes.len() < n as usize || i > bytes.len() - n as usize {
        proof {
            assert forall|w: Seq<u8>, j2: int|
                w.len() == n implies ! #[trigger] slice_is(bytes@, i as int, j2, w) by {
                if slice_is(bytes@, i as int, j2, w) {
                    assert(j2 == i + n);
                }
            }
        }
        return None;
    }
    let mut v: Vec<u8> = Vec::new();
    let mut k: usize = 0;
    while k < n as usize
        invariant
            k <= n as usize,
            i + n <= bytes@.len(),
            i + n <= bytes.len(),
            v@ == bytes@.subrange(i as int, i + k as int),
        decreases n as usize - k,
    {
        proof {
            assert(bytes@.subrange(i as int, i as int) =~= Seq::<u8>::empty());
        }
        v.push(bytes[i + k]);
        proof {
            assert(v@ =~= bytes@.subrange(i as int, i + k + 1 as int));
        }
        k += 1;
    }
    proof {
        assert(bytes@.subrange(i as int, i as int) =~= Seq::<u8>::empty());
        assert forall|w: Seq<u8>, j2: int|
            w.len() == n && #[trigger] slice_is(bytes@, i as int, j2, w) implies v@ == w && j2
            == i + n by {
            assert(j2 == i + n);
        }
    }
    Some((v, i + n as usize))
}

/// Splits a hypothetical call encoding at `i` into its tag and field
/// slices.
proof fn lemma_call_parse(bytes: Seq<u8>, i: int, j2: int, w: CallModel)
    requires
        call_encodable(w),
        slice_is(bytes, i, j2, enc_call(w)),
    ensures
        enc_call(w)[0] == bytes[i],
        i < j2,
        w is BalanceTransferKeepAlive ==> slice_is(
            bytes,
            i + 1,
            i + 33,
            w->BalanceTransferKeepAlive_dest@,
        ) && slice_is(bytes, i + 33, j2, le_bytes(w->BalanceTransferKeepAlive_value as nat, 16)),
        w is AssetTransferKeepAlive ==> ({
            let la = enc_asset_id(w->AssetTransferKeepAlive_id).len() as int;
            &&& slice_is(bytes, i + 1, i + 1 + la, enc_asset_id(w->AssetTransferKeepAlive_id))
            &&& slice_is(bytes, i + 1 + la, i + 33 + la, w->AssetTransferKeepAlive_target@)
            &&& slice_is(
                bytes,
                i + 33 + la,
                j2,
                le_bytes(w->AssetTransferKeepAlive_amount as nat, 16),
            )
        }),
        w is AssetMint ==> ({
            let la = enc_asset_id(w->AssetMint_id).len() as int;
            &&& slice_is(bytes, i + 1, i + 1 + la, enc_asset_id(w->AssetMint_id))
            &&& slice_is(bytes, i + 1 + la, i + 33 + la, w->AssetMint_beneficiary@)
            &&& slice_is(bytes, i + 33 + la, j2, le_bytes(w->AssetMint_amount as nat, 16))
        }),
        w is AssetBurn ==> ({
            let la = enc_asset_id(w->AssetBurn_id).len() as int;
            &&& slice_is(bytes, i + 1, i + 1 + la, enc_asset_id(w->AssetBurn_id))
            &&& slice_is(bytes, i + 1 + la, i + 33 + la, w->AssetBurn_who@)
            &&& slice_is(bytes, i + 33 + la, j2, le_bytes(w->AssetBurn_amount as nat, 16))
        }),
        w is StoreValue ==> slice_is(bytes, i + 1, i + 33, w->StoreValue_acc@) && slice_is(
            bytes,
            i + 33,
            j2,
            le_bytes(w->StoreValue_num as nat, 8),
        ),
        w is VaneTransfer ==> ({
            let la = enc_asset_id(w->VaneTransfer_asset_id).len() as int;
            &&& slice_is(bytes, i + 1, i + 1 + la, enc_asset_id(w->VaneTransfer_asset_id))
            &&& slice_is(bytes, i + 1 + la, i + 33 + la, w->VaneTransfer_payee@)
            &&& slice_is(bytes, i + 33 + la, j2, le_bytes(w->VaneTransfer_amount as nat, 16))
        }),
{
    match w {
        CallModel::BalanceTransferKeepAlive { dest, value } => {
            assert(enc_call(w) == (seq![0u8] + dest@) + enc_u128(value));
            lemma_slice_split(bytes, i, j2, seq![0u8] + dest@, enc_u128(value));
            lemma_le_bytes_len(value as nat, 16);
            lemma_slice_split(bytes, i, i + 33, seq![0u8], dest@);
            assert(bytes.subrange(i, i + 1)[0] == bytes[i]);
        },
        CallModel::AssetTransferKeepAlive { id, target, amount } => {
            let la = enc_asset_id(id).len() as int;
            assert(enc_call(w) == ((seq![1u8] + enc_asset_id(id)) + target@) + enc_u128(amount));
            lemma_slice_split(
                bytes,
                i,
                j2,
                (seq![1u8] + enc_asset_id(id)) + target@,
                enc_u128(amount),
            );
            lemma_le_bytes_len(amount as nat, 16);
            lemma_slice_split(bytes, i, i + 33 + la, seq![1u8] + enc_asset_id(id), target@);
            lemma_slice_split(bytes, i, i + 1 + la, seq![1u8], enc_asset_id(id));
            assert(bytes.subrange(i, i + 1)[0] == bytes[i]);
        },
        CallModel::AssetMint { id, beneficiary, amount } => {
            let la = enc_asset_id(id).len() as int;
            assert(enc_call(w) == ((seq![2u8] + enc_asset_id(id)) + beneficiary@) + enc_u128(
                amount,
            ));
            lemma_slice_split(
                bytes,
                i,
                j2,
                (seq![2u8] + enc_asset_id(id)) + beneficiary@,
                enc_u128(amount),
            );
            lemma_le_bytes_len(amount as nat, 16);
            lemma_slice_split(bytes, i, i + 33 + la, seq![2u8] + enc_asset_id(id), beneficiary@);
            lemma_slice_split(bytes, i, i + 1 + la, seq![2u8], enc_asset_id(id));
            assert(bytes.subrange(i, i + 1)[0] == bytes[i]);
        },
        CallModel::AssetBurn { id, who, amount } => {
            let la = enc_asset_id(id).len() as int;
            assert(enc_call(w) == ((seq![3u8] + enc_asset_id(id)) + who@) + enc_u128(amount));
            lemma_slice_split(
                bytes,
                i,
                j2,
                (seq![3u8] + enc_asset_id(id)) + who@,
                enc_u128(amount),
            );
            lemma_le_bytes_len(amount as nat, 16);
            lemma_slice_split(bytes, i, i + 33 + la, seq![3u8] + enc_asset_id(id), who@);
            lemma_slice_split(bytes, i, i + 1 + la, seq![3u8], enc_asset_id(id));
            assert(bytes.subrange(i, i + 1)[0] == bytes[i]);
        },
        CallModel::StoreValue { acc, num } => {
            assert(enc_call(w) == (seq![4u8] + acc@) + enc_u64(num));
            lemma_slice_split(bytes, i, j2, seq![4u8] + acc@, enc_u64(num));
            lemma_le_bytes_len(num as nat, 8);
            lemma_slice_split(bytes, i, i + 33, seq![4u8], acc@);
            assert(bytes.subrange(i, i + 1)[0] == bytes[i]);
        },
        CallModel::VaneTransfer { payee, amount, asset_id } => {
            let la = enc_asset_id(asset_id).len() as int;
            assert(enc_call(w) == ((seq![5u8] + enc_asset_id(asset_id)) + payee@) + enc_u128(
                amount,
            ));
            lemma_slice_split(
                bytes,
                i,
                j2,
                (seq![5u8] + enc_asset_id(asset_id)) + payee@,
                enc_u128(amount),
            );
            lemma_le_bytes_len(amount as nat, 16);
            lemma_slice_split(bytes, i, i + 33 + la, seq![5u8] + enc_asset_id(asset_id), payee@);
            lemma_slice_split(bytes, i, i + 1 + la, seq![5u8], enc_asset_id(asset_id));
            assert(bytes.subrange(i, i + 1)[0] == bytes[i]);
        },
    }
}

fn read_call(bytes: &Vec<u8>, i: usize) -> (r: Option<(Call, usize)>)
    ensures
        match r {
            Some((c, j)) => i < j <= bytes@.len() && call_encodable(c@) && enc_call(c@)
                == bytes@.subrange(i as int, j as int),
            None => true,
        },
        forall|w: CallModel, j2: int|
            call_encodable(w) && #[trigger] slice_is(bytes@, i as int, j2, enc_call(w)) ==> r
                is Some && r->Some_0.0@ == w && r->Some_0.1 == j2,
{
    let (tag, j0) = match read_byte(bytes, i) {
        Some(x) => x,
        None => {
            proof {
                assert forall|w: CallModel, j2: int|
                    call_encodable(w) implies ! #[trigger] slice_is(
                    bytes@,
                    i as int,
                    j2,
                    enc_call(w),
                ) by {
                    if slice_is(bytes@, i as int, j2, enc_call(w)) {
                        lemma_call_parse(bytes@, i as int, j2, w);
                    }
                }
            }
            return None;
        },
    };
    match tag {
        0u8 => {
            let (dest, j1) = match read_account(bytes, j0) {
                Some(x) => x,
                None => {
                    proof {
                assert forall|w: CallModel, j2: int|
                    call_encodable(w) implies ! #[trigger] slice_is(
                    bytes@,
                    i as int,
                    j2,
                    enc_call(w),
                ) by {
                    if slice_is(bytes@, i as int, j2, enc_call(w)) {
                        lemma_call_parse(bytes@, i as int, j2, w);
                    }
                }
            }
            return None;
                },
            };
            let (value, j) = match read_u128(bytes, j1) {
                Some(x) => x,
                None => {
                    proof {
                assert forall|w: CallModel, j2: int|
                    call_encodable(w) implies ! #[trigger] slice_is(
                    bytes@,
                    i as int,
                    j2,
                    enc_call(w),
                ) by {
                    if slice_is(bytes@, i as int, j2, enc_call(w)) {
                        lemma_call_parse(bytes@, i as int, j2, w);
                    }
                }
            }
            return None;
                },
            };
            let c = Call::BalanceTransferKeepAlive { dest, value };
            proof {
                assert(enc_call(c@) =~= bytes@.subrange(i as int, j as int));
                assert forall|w: CallModel, j2: int|
                    call_encodable(w) && #[trigger] slice_is(bytes@, i as int, j2, enc_call(w))
                    implies c@ == w && j2 == j by {
                    lemma_call_parse(bytes@, i as int, j2, w);
                }
            }
            Some((c, j))
        },
        1u8 => {
            let (id, j1) = match read_asset_id(bytes, j0) {
                Some(x) => x,
                None => {
                    proof {
                assert forall|w: CallModel, j2: int|
                    call_encodable(w) implies ! #[trigger] slice_is(
                    bytes@,
                    i as int,
                    j2,
                    enc_call(w),
                ) by {
                    if slice_is(bytes@, i as int, j2, enc_call(w)) {
                        lemma_call_parse(bytes@, i as int, j2, w);
                    }
                }
            }
            return None;
                },
            };
            let (target, j2) = match read_account(bytes, j1) {
                Some(x) => x,
                None => {
                    proof {
                assert forall|w: CallModel, j2: int|
                    call_encodable(w) implies ! #[trigger] slice_is(
                    bytes@,
                    i as int,
                    j2,
                    enc_call(w),
                ) by {
                    if slice_is(bytes@, i as int, j2, enc_call(w)) {
                        lemma_call_parse(bytes@, i as int, j2, w);
                    }
                }
            }
            return None;
                },
            };
            let (amount, j) = match read_u128(bytes, j2) {
                Some(x) => x,
                None => {
                    proof {
                assert forall|w: CallModel, j2: int|
                    call_encodable(w) implies ! #[trigger] slice_is(
                    bytes@,
                    i as int,
                    j2,
                    enc_call(w),
                ) by {
                    if slice_is(bytes@, i as int, j2, enc_call(w)) {
                        lemma_call_parse(bytes@, i as int, j2, w);
                    }
                }
            }
            return None;
                },
            };
            let c = Call::AssetTransferKeepAlive { id, target, amount };
            proof {
                assert(enc_call(c@) =~= bytes@.subrange(i as int, j as int));
                assert forall|w: CallModel, j2: int|
                    call_encodable(w) && #[trigger] slice_is(bytes@, i as int, j2, enc_call(w))
                    implies c@ == w && j2 == j by {
                    lemma_call_parse(bytes@, i as int, j2, w);
                }
            }
            Some((c, j))
        },
        2u8 => {
            let (id, j1) = match read_asset_id(bytes, j0) {
                Some(x) => x,
                None => {
                    proof {
                assert forall|w: CallModel, j2: int|
                    call_encodable(w) implies ! #[trigger] slice_is(
                    bytes@,
                    i as int,
                    j2,
                    enc_call(w),
                ) by {
                    if slice_is(bytes@, i as int, j2, enc_call(w)) {
                        lemma_call_parse(bytes@, i as int, j2, w);
                    }
                }
            }
            return None;
                },
            };
            let (beneficiary, j2) = match read_account(bytes, j1) {
                Some(x) => x,
                None => {
                    proof {
                assert forall|w: CallModel, j2: int|
                    call_encodable(w) implies ! #[trigger] slice_is(
                    bytes@,
                    i as int,
                    j2,
                    enc_call(w),
                ) by {
                    if slice_is(bytes@, i as int, j2, enc_call(w)) {
                        lemma_call_parse(bytes@, i as int, j2, w);
                    }
                }
            }
            return None;
                },
            };
            let (amount, j) = match read_u128(bytes, j2) {
                Some(x) => x,
                None => {
                    proof {
                assert forall|w: CallModel, j2: int|
                    call_encodable(w) implies ! #[trigger] slice_is(
                    bytes@,
                    i as int,
                    j2,
                    enc_call(w),
                ) by {
                    if slice_is(bytes@, i as int, j2, enc_call(w)) {
                        lemma_call_parse(bytes@, i as int, j2, w);
                    }
                }
            }
            return None;
                },
            };
            let c = Call::AssetMint { id, beneficiary, amount };
            proof {
                assert(enc_call(c@) =~= bytes@.subrange(i as int, j as int));
                assert forall|w: CallModel, j2: int|
                    call_encodable(w) && #[trigger] slice_is(bytes@, i as int, j2, enc_call(w))
                    implies c@ == w && j2 == j by {
                    lemma_call_parse(bytes@, i as int, j2, w);
                }
            }
            Some((c, j))
        },
        3u8 => {
            let (id, j1) = match read_asset_id(bytes, j0) {
                Some(x) => x,
                None => {
                    proof {
                assert forall|w: CallModel, j2: int|
                    call_encodable(w) implies ! #[trigger] slice_is(
                    bytes@,
                    i as int,
                    j2,
                    enc_call(w),
                ) by {
                    if slice_is(bytes@, i as int, j2, enc_call(w)) {
                        lemma_call_parse(bytes@, i as int, j2, w);
                    }
                }
            }
            return None;
                },
            };
            let (who, j2) = match read_account(bytes, j1) {
                Some(x) => x,
                None => {
                    proof {
                assert forall|w: CallModel, j2: int|
                    call_encodable(w) implies ! #[trigger] slice_is(
                    bytes@,
                    i as int,
                    j2,
                    enc_call(w),
                ) by {
                    if slice_is(bytes@, i as int, j2, enc_call(w)) {
                        lemma_call_parse(bytes@, i as int, j2, w);
                    }
                }
            }
            return None;
                },
            };
            let (amount, j) = match read_u128(bytes, j2) {
                Some(x) => x,
                None => {
                    proof {
                assert forall|w: CallModel, j2: int|
                    call_encodable(w) implies ! #[trigger] slice_is(
                    bytes@,
                    i as int,
                    j2,
                    enc_call(w),
                ) by {
                    if slice_is(bytes@, i as int, j2, enc_call(w)) {
                        lemma_call_parse(bytes@, i as int, j2, w);
                    }
                }
            }
            return None;
                },
            };
            let c = Call::AssetBurn { id, who, amount };
            proof {
                assert(enc_call(c@) =~= bytes@.subrange(i as int, j as int));
                assert forall|w: CallModel, j2: int|
                    call_encodable(w) && #[trigger] slice_is(bytes@, i as int, j2, enc_call(w))
                    implies c@ == w && j2 == j by {
                    lemma_call_parse(bytes@, i as int, j2, w);
                }
            }
            Some((c, j))
        },
        4u8 => {
            let (acc, j1) = match read_account(bytes, j0) {
                Some(x) => x,
                None => {
                    proof {
                assert forall|w: CallModel, j2: int|
                    call_encodable(w) implies ! #[trigger] slice_is(
                    bytes@,
                    i as int,
                    j2,
                    enc_call(w),
                ) by {
                    if slice_is(bytes@, i as int, j2, enc_call(w)) {
                        lemma_call_parse(bytes@, i as int, j2, w);
                    }
                }
            }
            return None;
                },
            };
            let (num, j) = match read_u64(bytes, j1) {
                Some(x) => x,
                None => {
                    proof {
                assert forall|w: CallModel, j2: int|
                    call_encodable(w) implies ! #[trigger] slice_is(
                    bytes@,
                    i as int,
                    j2,
                    enc_call(w),
                ) by {
                    if slice_is(bytes@, i as int, j2, enc_call(w)) {
                        lemma_call_parse(bytes@, i as int, j2, w);
                    }
                }
            }
            return None;
                },
            };
            let c = Call::StoreValue { acc, num };
            proof {
                assert(enc_call(c@) =~= bytes@.subrange(i as int, j as int));
                assert forall|w: CallModel, j2: int|
                    call_encodable(w) && #[trigger] slice_is(bytes@, i as int, j2, enc_call(w))
                    implies c@ == w && j2 == j by {
                    lemma_call_parse(bytes@, i as int, j2, w);
                }
            }
            Some((c, j))
        },
        5u8 => {
            let (asset_id, j1) = match read_asset_id(bytes, j0) {
                Some(x) => x,
                None => {
                    proof {
                assert forall|w: CallModel, j2: int|
                    call_encodable(w) implies ! #[trigger] slice_is(
                    bytes@,
                    i as int,
                    j2,
                    enc_call(w),
                ) by {
                    if slice_is(bytes@, i as int, j2, enc_call(w)) {
                        lemma_call_parse(bytes@, i as int, j2, w);
                    }
                }
            }
            return None;
                },
            };
            let (payee, j2) = match read_account(bytes, j1) {
                Some(x) => x,
                None => {
                    proof {
                assert forall|w: CallModel, j2: int|
                    call_encodable(w) implies ! #[trigger] slice_is(
                    bytes@,
                    i as int,
                    j2,
                    enc_call(w),
                ) by {
                    if slice_is(bytes@, i as int, j2, enc_call(w)) {
                        lemma_call_parse(bytes@, i as int, j2, w);
                    }
                }
            }
            return None;
                },
            };
            let (amount, j) = match read_u128(bytes, j2) {
                Some(x) => x,
                None => {
                    proof {
                assert forall|w: CallModel, j2: int|
                    call_encodable(w) implies ! #[trigger] slice_is(
                    bytes@,
                    i as int,
                    j2,
                    enc_call(w),
                ) by {
                    if slice_is(bytes@, i as int, j2, enc_call(w)) {
                        lemma_call_parse(bytes@, i as int, j2, w);
                    }
                }
            }
            return None;
                },
            };
            let c = Call::VaneTransfer { payee, amount, asset_id };
            proof {
                assert(enc_call(c@) =~= bytes@.subrange(i as int, j as int));
                assert forall|w: CallModel, j2: int|
                    call_encodable(w) && #[trigger] slice_is(bytes@, i as int, j2, enc_call(w))
                    implies c@ == w && j2 == j by {
                    lemma_call_parse(bytes@, i as int, j2, w);
                }
            }
            Some((c, j))
        },
        _ => {
            proof {
                assert forall|w: CallModel, j2: int|
                    call_encodable(w) implies ! #[trigger] slice_is(
                    bytes@,
                    i as int,
                    j2,
                    enc_call(w),
                ) by {
                    if slice_is(bytes@, i as int, j2, enc_call(w)) {
                        lemma_call_parse(bytes@, i as int, j2, w);
                    }
                }
            }
            None
        },
    }
}

/// Decodes a whole byte string as one local call; the string must be
/// consumed exactly.
pub fn decode_call(bytes: &Vec<u8>) -> (r: Option<Call>)
    ensures
        match r {
            Some(c) => call_encodable(c@) && enc_call(c@) == bytes@,
            None => true,
        },
        forall|w: CallModel|
            call_encodable(w) && #[trigger] enc_call(w) == bytes@ ==> r is Some && r->Some_0@
                == w,
{
    let r = match read_call(bytes, 0) {
        Some((c, j)) => {
            if j == bytes.len() {
                proof {
                    assert(bytes@.subrange(0, bytes@.len() as int) =~= bytes@);
                }
                Some(c)
            } else {
                None
            }
        },
        None => None,
    };
    proof {
        assert forall|w: CallModel| call_encodable(w) && #[trigger] enc_call(w) == bytes@ implies r
            is Some && r->Some_0@ == w by {
            assert(bytes@.subrange(0, bytes@.len() as int) =~= bytes@);
            assert(slice_is(bytes@, 0, bytes@.len() as int, enc_call(w)));
        }
    }
    r
}

/// Splits a hypothetical instruction encoding at `i` into its tag and
/// field slices.
proof fn lemma_instr_parse(bytes: Seq<u8>, i: int, j2: int, w: InstrModel)
    requires
        instr_encodable(w),
        slice_is(bytes, i, j2, enc_instr(w)),
    ensures
        enc_instr(w)[0] == bytes[i],
        i < j2,
        w is WithdrawAsset ==> slice_is(bytes, i + 1, j2, enc_assets(w->WithdrawAsset_0)),
        w is ReserveAssetDeposited ==> slice_is(
            bytes,
            i + 1,
            j2,
            enc_assets(w->ReserveAssetDeposited_0),
        ),
        w is TransferAsset ==> ({
            let la = enc_assets(w->TransferAsset_assets).len() as int;
            &&& slice_is(bytes, i + 1, i + 1 + la, enc_assets(w->TransferAsset_assets))
            &&& slice_is(bytes, i + 1 + la, j2, enc_location(w->TransferAsset_beneficiary))
        }),
        w is DepositAsset ==> ({
            let lf = enc_filter(w->DepositAsset_assets).len() as int;
            &&& slice_is(bytes, i + 1, i + 1 + lf, enc_filter(w->DepositAsset_assets))
            &&& slice_is(bytes, i + 1 + lf, j2, enc_location(w->DepositAsset_beneficiary))
        }),
        w is InitiateReserveWithdraw ==> ({
            let lf = enc_filter(w->InitiateReserveWithdraw_assets).len() as int;
            let lr = enc_location(w->InitiateReserveWithdraw_reserve).len() as int;
            &&& slice_is(bytes, i + 1, i + 1 + lf, enc_filter(w->InitiateReserveWithdraw_assets))
            &&& slice_is(
                bytes,
                i + 1 + lf,
                i + 1 + lf + lr,
                enc_location(w->InitiateReserveWithdraw_reserve),
            )
            &&& slice_is(
                bytes,
                i + 1 + lf + lr,
                i + 5 + lf + lr,
                le_bytes((w->InitiateReserveWithdraw_xcm.len() as u32) as nat, 4),
            )
            &&& slice_is(
                bytes,
                i + 5 + lf + lr,
                j2,
                enc_instrs_items(w->InitiateReserveWithdraw_xcm),
            )
        }),
        w is Transact ==> ({
            let lp = enc_payload_bytes(w->Transact_call).len() as int;
            &&& slice_is(bytes, i + 1, i + 2, enc_origin_kind(w->Transact_origin_kind))
            &&& slice_is(bytes, i + 2, i + 18, enc_weight(w->Transact_require_weight_at_most))
            &&& slice_is(
                bytes,
                i + 18,
                i + 22,
                le_bytes((enc_payload_bytes(w->Transact_call).len() as u32) as nat, 4),
            )
            &&& slice_is(bytes, i + 22, j2, enc_payload_bytes(w->Transact_call))
        }),
        w is BuyExecution ==> ({
            let la = enc_asset(w->BuyExecution_fees).len() as int;
            &&& slice_is(bytes, i + 1, i + 1 + la, enc_asset(w->BuyExecution_fees))
            &&& slice_is(bytes, i + 1 + la, j2, enc_weight_limit(w->BuyExecution_weight_limit))
        }),
        w is DescendOrigin ==> slice_is(bytes, i + 1, j2, enc_junction(w->DescendOrigin_0)),
        w is Noop ==> j2 == i + 1,
{
    match w {
        InstrModel::WithdrawAsset(a) => {
            lemma_slice_split(bytes, i, j2, seq![0u8], enc_assets(a));
            assert(bytes.subrange(i, i + 1)[0] == bytes[i]);
        },
        InstrModel::ReserveAssetDeposited(a) => {
            lemma_slice_split(bytes, i, j2, seq![1u8], enc_assets(a));
            assert(bytes.subrange(i, i + 1)[0] == bytes[i]);
        },
        InstrModel::TransferAsset { assets, beneficiary } => {
            let la = enc_assets(assets).len() as int;
            assert(enc_instr(w) == (seq![2u8] + enc_assets(assets)) + enc_location(beneficiary));
            lemma_slice_split(
                bytes,
                i,
                j2,
                seq![2u8] + enc_assets(assets),
                enc_location(beneficiary),
            );
            lemma_slice_split(bytes, i, i + 1 + la, seq![2u8], enc_assets(assets));
            assert(bytes.subrange(i, i + 1)[0] == bytes[i]);
        },
        InstrModel::DepositAsset { assets, beneficiary } => {
            let lf = enc_filter(assets).len() as int;
            assert(enc_instr(w) == (seq![3u8] + enc_filter(assets)) + enc_location(beneficiary));
            lemma_slice_split(
                bytes,
                i,
                j2,
                seq![3u8] + enc_filter(assets),
                enc_location(beneficiary),
            );
            lemma_slice_split(bytes, i, i + 1 + lf, seq![3u8], enc_filter(assets));
            assert(bytes.subrange(i, i + 1)[0] == bytes[i]);
        },
        InstrModel::InitiateReserveWithdraw { assets, reserve, xcm } => {
            let lf = enc_filter(assets).len() as int;
            let lr = enc_location(reserve).len() as int;
            lemma_le_bytes_len(xcm.len(), 4);
            assert(enc_instr(w) == (((seq![4u8] + enc_filter(assets)) + enc_location(reserve))
                + le_bytes(xcm.len(), 4)) + enc_instrs_items(xcm));
            lemma_slice_split(
                bytes,
                i,
                j2,
                ((seq![4u8] + enc_filter(assets)) + enc_location(reserve)) + le_bytes(
                    xcm.len(),
                    4,
                ),
                enc_instrs_items(xcm),
            );
            lemma_slice_split(
                bytes,
                i,
                i + 5 + lf + lr,
                (seq![4u8] + enc_filter(assets)) + enc_location(reserve),
                le_bytes(xcm.len(), 4),
            );
            lemma_slice_split(
                bytes,
                i,
                i + 1 + lf + lr,
                seq![4u8] + enc_filter(assets),
                enc_location(reserve),
            );
            lemma_slice_split(bytes, i, i + 1 + lf, seq![4u8], enc_filter(assets));
            assert(bytes.subrange(i, i + 1)[0] == bytes[i]);
        },
        InstrModel::Transact { origin_kind, require_weight_at_most, call } => {
            let lp = enc_payload_bytes(call).len() as int;
            assert(enc_origin_kind(origin_kind).len() == 1);
            lemma_le_bytes_len(require_weight_at_most.ref_time as nat, 8);
            lemma_le_bytes_len(require_weight_at_most.proof_size as nat, 8);
            lemma_le_bytes_len(enc_payload_bytes(call).len(), 4);
            assert(enc_instr(w) == (((seq![5u8] + enc_origin_kind(origin_kind)) + enc_weight(
                require_weight_at_most,
            )) + le_bytes(enc_payload_bytes(call).len(), 4)) + enc_payload_bytes(call));
            lemma_slice_split(
                bytes,
                i,
                j2,
                ((seq![5u8] + enc_origin_kind(origin_kind)) + enc_weight(require_weight_at_most))
                    + le_bytes(enc_payload_bytes(call).len(), 4),
                enc_payload_bytes(call),
            );
            lemma_slice_split(
                bytes,
                i,
                i + 22,
                (seq![5u8] + enc_origin_kind(origin_kind)) + enc_weight(require_weight_at_most),
                le_bytes(enc_payload_bytes(call).len(), 4),
            );
            lemma_slice_split(
                bytes,
                i,
                i + 18,
                seq![5u8] + enc_origin_kind(origin_kind),
                enc_weight(require_weight_at_most),
            );
            lemma_slice_split(bytes, i, i + 2, seq![5u8], enc_origin_kind(origin_kind));
            assert(bytes.subrange(i, i + 1)[0] == bytes[i]);
        },
        InstrModel::BuyExecution { fees, weight_limit } => {
            let la = enc_asset(fees).len() as int;
            assert(enc_instr(w) == (seq![6u8] + enc_asset(fees)) + enc_weight_limit(weight_limit));
            lemma_slice_split(
                bytes,
                i,
                j2,
                seq![6u8] + enc_asset(fees),
                enc_weight_limit(weight_limit),
            );
            lemma_slice_split(bytes, i, i + 1 + la, seq![6u8], enc_asset(fees));
            assert(bytes.subrange(i, i + 1)[0] == bytes[i]);
        },
        InstrModel::DescendOrigin(jn) => {
            lemma_slice_split(bytes, i, j2, seq![7u8], enc_junction(jn));
            assert(bytes.subrange(i, i + 1)[0] == bytes[i]);
        },
        InstrModel::Noop => {
            assert(enc_instr(w) == seq![8u8]);
            assert(bytes.subrange(i, j2) == seq![8u8]);
            assert(bytes.subrange(i, j2).len() == 1);
            assert(j2 == i + 1);
            assert(bytes.subrange(i, j2)[0] == bytes[i]);
        },
    }
}

/// The `WithdrawAsset` arm of instruction decoding.
fn read_withdraw_arm(bytes: &Vec<u8>, i: usize, j0: usize) -> (r: Option<(Instruction, usize)>)
    requires
        j0 == i + 1,
        j0 <= bytes@.len(),
        bytes@[i as int] == 0u8,
    ensures
        match r {
            Some((instr, j)) => i < j <= bytes@.len() && instr_encodable(instr_model(instr))
                && enc_instr(instr_model(instr)) == bytes@.subrange(i as int, j as int),
            None => true,
        },
        forall|w: InstrModel, j2: int|
            instr_encodable(w) && #[trigger] slice_is(bytes@, i as int, j2, enc_instr(w)) ==> r
                is Some && instr_model(r->Some_0.0) == w && r->Some_0.1 == j2,
{
    let (v, j) = match read_assets(bytes, j0) {
        Some(x) => x,
        None => {
            proof {
        assert forall|w: InstrModel, j2: int|
            instr_encodable(w) implies ! #[trigger] slice_is(
            bytes@,
            i as int,
            j2,
            enc_instr(w),
        ) by {
            if slice_is(bytes@, i as int, j2, enc_instr(w)) {
                lemma_instr_parse(bytes@, i as int, j2, w);
            }
        }
    }
    return None;
        },
    };
    let instr = Instruction::WithdrawAsset(v);
    proof {
        assert(enc_instr(instr_model(instr)) =~= bytes@.subrange(i as int, j as int));
        assert forall|w: InstrModel, j2: int|
            instr_encodable(w) && #[trigger] slice_is(bytes@, i as int, j2, enc_instr(w))
            implies instr_model(instr) == w && j2 == j by {
            lemma_instr_parse(bytes@, i as int, j2, w);
        }
    }
    Some((instr, j))
}

/// The `ReserveAssetDeposited` arm of instruction decoding.
fn read_reserve_deposited_arm(bytes: &Vec<u8>, i: usize, j0: usize) -> (r: Option<(Instruction, usize)>)
    requires
        j0 == i + 1,
        j0 <= bytes@.len(),
        bytes@[i as int] == 1u8,
    ensures
        match r {
            Some((instr, j)) => i < j <= bytes@.len() && instr_encodable(instr_model(instr))
                && enc_instr(instr_model(instr)) == bytes@.subrange(i as int, j as int),
            None => true,
        },
        forall|w: InstrModel, j2: int|
            instr_encodable(w) && #[trigger] slice_is(bytes@, i as int, j2, enc_instr(w)) ==> r
                is Some && instr_model(r->Some_0.0) == w && r->Some_0.1 == j2,
{
    let (v, j) = match read_assets(bytes, j0) {
        Some(x) => x,
        None => {
            proof {
        assert forall|w: InstrModel, j2: int|
            instr_encodable(w) implies ! #[trigger] slice_is(
            bytes@,
            i as int,
            j2,
            enc_instr(w),
        ) by {
            if slice_is(bytes@, i as int, j2, enc_instr(w)) {
                lemma_instr_parse(bytes@, i as int, j2, w);
            }
        }
    }
    return None;
        },
    };
    let instr = Instruction::ReserveAssetDeposited(v);
    proof {
        assert(enc_instr(instr_model(instr)) =~= bytes@.subrange(i as int, j as int));
        assert forall|w: InstrModel, j2: int|
            instr_encodable(w) && #[trigger] slice_is(bytes@, i as int, j2, enc_instr(w))
            implies instr_model(instr) == w && j2 == j by {
            lemma_instr_parse(bytes@, i as int, j2, w);
        }
    }
    Some((instr, j))
}

/// The `TransferAsset` arm of instruction decoding.
fn read_transfer_arm(bytes: &Vec<u8>, i: usize, j0: usize) -> (r: Option<(Instruction, usize)>)
    requires
        j0 == i + 1,
        j0 <= bytes@.len(),
        bytes@[i as int] == 2u8,
    ensures
        match r {
            Some((instr, j)) => i < j <= bytes@.len() && instr_encodable(instr_model(instr))
                && enc_instr(instr_model(instr)) == bytes@.subrange(i as int, j as int),
            None => true,
        },
        forall|w: InstrModel, j2: int|
            instr_encodable(w) && #[trigger] slice_is(bytes@, i as int, j2, enc_instr(w)) ==> r
                is Some && instr_model(r->Some_0.0) == w && r->Some_0.1 == j2,
{
    let (assets, j1) = match read_assets(bytes, j0) {
        Some(x) => x,
        None => {
            proof {
        assert forall|w: InstrModel, j2: int|
            instr_encodable(w) implies ! #[trigger] slice_is(
            bytes@,
            i as int,
            j2,
            enc_instr(w),
        ) by {
            if slice_is(bytes@, i as int, j2, enc_instr(w)) {
                lemma_instr_parse(bytes@, i as int, j2, w);
            }
        }
    }
    return None;
        },
    };
    let (beneficiary, j) = match read_location(bytes, j1) {
        Some(x) => x,
        None => {
            proof {
        assert forall|w: InstrModel, j2: int|
            instr_encodable(w) implies ! #[trigger] slice_is(
            bytes@,
            i as int,
            j2,
            enc_instr(w),
        ) by {
            if slice_is(bytes@, i as int, j2, enc_instr(w)) {
                lemma_instr_parse(bytes@, i as int, j2, w);
            }
        }
    }
    return None;
        },
    };
    let instr = Instruction::TransferAsset { assets, beneficiary };
    proof {
        assert(enc_instr(instr_model(instr)) =~= bytes@.subrange(i as int, j as int));
        assert forall|w: InstrModel, j2: int|
            instr_encodable(w) && #[trigger] slice_is(bytes@, i as int, j2, enc_instr(w))
            implies instr_model(instr) == w && j2 == j by {
            lemma_instr_parse(bytes@, i as int, j2, w);
        }
    }
    Some((instr, j))
}

/// The `DepositAsset` arm of instruction decoding.
fn read_deposit_arm(bytes: &Vec<u8>, i: usize, j0: usize) -> (r: Option<(Instruction, usize)>)
    requires
        j0 == i + 1,
        j0 <= bytes@.len(),
        bytes@[i as int] == 3u8,
    ensures
        match r {
            Some((instr, j)) => i < j <= bytes@.len() && instr_encodable(instr_model(instr))
                && enc_instr(instr_model(instr)) == bytes@.subrange(i as int, j as int),
            None => true,
        },
        forall|w: InstrModel, j2: int|
            instr_encodable(w) && #[trigger] slice_is(bytes@, i as int, j2, enc_instr(w)) ==> r
                is Some && instr_model(r->Some_0.0) == w && r->Some_0.1 == j2,
{
    let (assets, j1) = match read_filter(bytes, j0) {
        Some(x) => x,
        None => {
            proof {
        assert forall|w: InstrModel, j2: int|
            instr_encodable(w) implies ! #[trigger] slice_is(
            bytes@,
            i as int,
            j2,
            enc_instr(w),
        ) by {
            if slice_is(bytes@, i as int, j2, enc_instr(w)) {
                lemma_instr_parse(bytes@, i as int, j2, w);
            }
        }
    }
    return None;
        },
    };
    let (beneficiary, j) = match read_location(bytes, j1) {
        Some(x) => x,
        None => {
            proof {
        assert forall|w: InstrModel, j2: int|
            instr_encodable(w) implies ! #[trigger] slice_is(
            bytes@,
            i as int,
            j2,
            enc_instr(w),
        ) by {
            if slice_is(bytes@, i as int, j2, enc_instr(w)) {
                lemma_instr_parse(bytes@, i as int, j2, w);
            }
        }
    }
    return None;
        },
    };
    let instr = Instruction::DepositAsset { assets, beneficiary };
    proof {
        assert(enc_instr(instr_model(instr)) =~= bytes@.subrange(i as int, j as int));
        assert forall|w: InstrModel, j2: int|
            instr_encodable(w) && #[trigger] slice_is(bytes@, i as int, j2, enc_instr(w))
            implies instr_model(instr) == w && j2 == j by {
            lemma_instr_parse(bytes@, i as int, j2, w);
        }
    }
    Some((instr, j))
}

/// The `Transact` arm of instruction decoding.
fn read_transact_arm(bytes: &Vec<u8>, i: usize, j0: usize) -> (r: Option<(Instruction, usize)>)
    requires
        j0 == i + 1,
        j0 <= bytes@.len(),
        bytes@[i as int] == 5u8,
    ensures
        match r {
            Some((instr, j)) => i < j <= bytes@.len() && instr_encodable(instr_model(instr))
                && enc_instr(instr_model(instr)) == bytes@.subrange(i as int, j as int),
            None => true,
        },
        forall|w: InstrModel, j2: int|
            instr_encodable(w) && #[trigger] slice_is(bytes@, i as int, j2, enc_instr(w)) ==> r
                is Some && instr_model(r->Some_0.0) == w && r->Some_0.1 == j2,
{
    let (origin_kind, j1) = match read_origin_kind(bytes, j0) {
        Some(x) => x,
        None => {
            proof {
        assert forall|w: InstrModel, j2: int|
            instr_encodable(w) implies ! #[trigger] slice_is(
            bytes@,
            i as int,
            j2,
            enc_instr(w),
        ) by {
            if slice_is(bytes@, i as int, j2, enc_instr(w)) {
                lemma_instr_parse(bytes@, i as int, j2, w);
            }
        }
    }
    return None;
        },
    };
    let (require_weight_at_most, j2) = match read_weight(bytes, j1) {
        Some(x) => x,
        None => {
            proof {
        assert forall|w: InstrModel, j2: int|
            instr_encodable(w) implies ! #[trigger] slice_is(
            bytes@,
            i as int,
            j2,
            enc_instr(w),
        ) by {
            if slice_is(bytes@, i as int, j2, enc_instr(w)) {
                lemma_instr_parse(bytes@, i as int, j2, w);
            }
        }
    }
    return None;
        },
    };
    let (count, j3) = match read_u32(bytes, j2) {
        Some(x) => x,
        None => {
            proof {
        assert forall|w: InstrModel, j2: int|
            instr_encodable(w) implies ! #[trigger] slice_is(
            bytes@,
            i as int,
            j2,
            enc_instr(w),
        ) by {
            if slice_is(bytes@, i as int, j2, enc_instr(w)) {
                lemma_instr_parse(bytes@, i as int, j2, w);
            }
        }
    }
    return None;
        },
    };
    let (raw, j) = match read_raw_bytes(bytes, j3, count) {
        Some(x) => x,
        None => {
            proof {
        assert forall|w: InstrModel, j2: int|
            instr_encodable(w) implies ! #[trigger] slice_is(
            bytes@,
            i as int,
            j2,
            enc_instr(w),
        ) by {
            if slice_is(bytes@, i as int, j2, enc_instr(w)) {
                lemma_instr_parse(bytes@, i as int, j2, w);
            }
        }
    }
    return None;
        },
    };
    let call = match decode_call(&raw) {
        Some(c) => CallPayload::Parsed(c),
        None => CallPayload::Raw(raw),
    };
    proof {
        assert forall|w: InstrModel, j2: int|
            instr_encodable(w) && #[trigger] slice_is(bytes@, i as int, j2, enc_instr(w))
            implies call@ == w->Transact_call by {
            lemma_instr_parse(bytes@, i as int, j2, w);
            assert(raw@ == enc_payload_bytes(w->Transact_call));
            match w->Transact_call {
                CallPayloadModel::Parsed(c) => {
                    assert(enc_call(c) == raw@);
                },
                CallPayloadModel::Raw(b) => {
                    if call@ is Parsed {
                        let got = call@->Parsed_0;
                        assert(call_encodable(got) && enc_call(got) == b);
                    }
                },
            }
        }
    }
    let instr = Instruction::Transact { origin_kind, require_weight_at_most, call };
    proof {
        assert(enc_instr(instr_model(instr)) =~= bytes@.subrange(i as int, j as int));
        assert forall|w: InstrModel, j2: int|
            instr_encodable(w) && #[trigger] slice_is(bytes@, i as int, j2, enc_instr(w))
            implies instr_model(instr) == w && j2 == j by {
            lemma_instr_parse(bytes@, i as int, j2, w);
        }
    }
    Some((instr, j))
}

/// The `BuyExecution` arm of instruction decoding.
fn read_buy_arm(bytes: &Vec<u8>, i: usize, j0: usize) -> (r: Option<(Instruction, usize)>)
    requires
        j0 == i + 1,
        j0 <= bytes@.len(),
        bytes@[i as int] == 6u8,
    ensures
        match r {
            Some((instr, j)) => i < j <= bytes@.len() && instr_encodable(instr_model(instr))
                && enc_instr(instr_model(instr)) == bytes@.subrange(i as int, j as int),
            None => true,
        },
        forall|w: InstrModel, j2: int|
            instr_encodable(w) && #[trigger] slice_is(bytes@, i as int, j2, enc_instr(w)) ==> r
                is Some && instr_model(r->Some_0.0) == w && r->Some_0.1 == j2,
{
    let (fees, j1) = match read_asset(bytes, j0) {
        Some(x) => x,
        None => {
            proof {
        assert forall|w: InstrModel, j2: int|
            instr_encodable(w) implies ! #[trigger] slice_is(
            bytes@,
            i as int,
            j2,
            enc_instr(w),
        ) by {
            if slice_is(bytes@, i as int, j2, enc_instr(w)) {
                lemma_instr_parse(bytes@, i as int, j2, w);
            }
        }
    }
    return None;
        },
    };
    let (weight_limit, j) = match read_weight_limit(bytes, j1) {
        Some(x) => x,
        None => {
            proof {
        assert forall|w: InstrModel, j2: int|
            instr_encodable(w) implies ! #[trigger] slice_is(
            bytes@,
            i as int,
            j2,
            enc_instr(w),
        ) by {
            if slice_is(bytes@, i as int, j2, enc_instr(w)) {
                lemma_instr_parse(bytes@, i as int, j2, w);
            }
        }
    }
    return None;
        },
    };
    let instr = Instruction::BuyExecution { fees, weight_limit };
    proof {
        assert(enc_instr(instr_model(instr)) =~= bytes@.subrange(i as int, j as int));
        assert forall|w: InstrModel, j2: int|
            instr_encodable(w) && #[trigger] slice_is(bytes@, i as int, j2, enc_instr(w))
            implies instr_model(instr) == w && j2 == j by {
            lemma_instr_parse(bytes@, i as int, j2, w);
        }
    }
    Some((instr, j))
}

/// The `DescendOrigin` arm of instruction decoding.
fn read_descend_arm(bytes: &Vec<u8>, i: usize, j0: usize) -> (r: Option<(Instruction, usize)>)
    requires
        j0 == i + 1,
        j0 <= bytes@.len(),
        bytes@[i as int] == 7u8,
    ensures
        match r {
            Some((instr, j)) => i < j <= bytes@.len() && instr_encodable(instr_model(instr))
                && enc_instr(instr_model(instr)) == bytes@.subrange(i as int, j as int),
            None => true,
        },
        forall|w: InstrModel, j2: int|
            instr_encodable(w) && #[trigger] slice_is(bytes@, i as int, j2, enc_instr(w)) ==> r
                is Some && instr_model(r->Some_0.0) == w && r->Some_0.1 == j2,
{
    let (jn, j) = match read_junction(bytes, j0) {
        Some(x) => x,
        None => {
            proof {
        assert forall|w: InstrModel, j2: int|
            instr_encodable(w) implies ! #[trigger] slice_is(
            bytes@,
            i as int,
            j2,
            enc_instr(w),
        ) by {
            if slice_is(bytes@, i as int, j2, enc_instr(w)) {
                lemma_instr_parse(bytes@, i as int, j2, w);
            }
        }
    }
    return None;
        },
    };
    let instr = Instruction::DescendOrigin(jn);
    proof {
        assert(enc_instr(instr_model(instr)) =~= bytes@.subrange(i as int, j as int));
        assert forall|w: InstrModel, j2: int|
            instr_encodable(w) && #[trigger] slice_is(bytes@, i as int, j2, enc_instr(w))
            implies instr_model(instr) == w && j2 == j by {
            lemma_instr_parse(bytes@, i as int, j2, w);
        }
    }
    Some((instr, j))
}

/// The terminal no-op arm of instruction decoding.
fn read_noop_arm(bytes: &Vec<u8>, i: usize, j0: usize) -> (r: Option<(Instruction, usize)>)
    requires
        j0 == i + 1,
        j0 <= bytes@.len(),
        bytes@[i as int] == 8u8,
    ensures
        match r {
            Some((instr, j)) => i < j <= bytes@.len() && instr_encodable(instr_model(instr))
                && enc_instr(instr_model(instr)) == bytes@.subrange(i as int, j as int),
            None => true,
        },
        forall|w: InstrModel, j2: int|
            instr_encodable(w) && #[trigger] slice_is(bytes@, i as int, j2, enc_instr(w)) ==> r
                is Some && instr_model(r->Some_0.0) == w && r->Some_0.1 == j2,
{
    let instr = Instruction::Noop;
    proof {
        assert(enc_instr(instr_model(instr)) =~= bytes@.subrange(i as int, j0 as int));
        assert forall|w: InstrModel, j2: int|
            instr_encodable(w) && #[trigger] slice_is(bytes@, i as int, j2, enc_instr(w))
            implies instr_model(instr) == w && j2 == j0 by {
            lemma_instr_parse(bytes@, i as int, j2, w);
        }
    }
    Some((instr, j0))
}

#[verifier::rlimit(100)]
fn read_instr(bytes: &Vec<u8>, i: usize) -> (r: Option<(Instruction, usize)>)
    requires
        i <= bytes@.len(),
    ensures
        match r {
            Some((instr, j)) => i < j <= bytes@.len() && instr_encodable(instr_model(instr))
                && enc_instr(instr_model(instr)) == bytes@.subrange(i as int, j as int),
            None => true,
        },
        forall|w: InstrModel, j2: int|
            instr_encodable(w) && #[trigger] slice_is(bytes@, i as int, j2, enc_instr(w)) ==> r
                is Some && instr_model(r->Some_0.0) == w && r->Some_0.1 == j2,
    decreases bytes@.len() - i, 0int,
{
    let (tag, j0) = match read_byte(bytes, i) {
        Some(x) => x,
        None => {
            proof {
                assert forall|w: InstrModel, j2: int|
                    instr_encodable(w) implies ! #[trigger] slice_is(
                    bytes@,
                    i as int,
                    j2,
                    enc_instr(w),
                ) by {
                    if slice_is(bytes@, i as int, j2, enc_instr(w)) {
                        lemma_instr_parse(bytes@, i as int, j2, w);
                    }
                }
            }
            return None;
        },
    };
    match tag {
        0u8 => read_withdraw_arm(bytes, i, j0),
        1u8 => read_reserve_deposited_arm(bytes, i, j0),
        2u8 => read_transfer_arm(bytes, i, j0),
        3u8 => read_deposit_arm(bytes, i, j0),
        4u8 => {
            let (assets, j1) = match read_filter(bytes, j0) {
                Some(x) => x,
                None => {
                    proof {
                assert forall|w: InstrModel, j2: int|
                    instr_encodable(w) implies ! #[trigger] slice_is(
                    bytes@,
                    i as int,
                    j2,
                    enc_instr(w),
                ) by {
                    if slice_is(bytes@, i as int, j2, enc_instr(w)) {
                        lemma_instr_parse(bytes@, i as int, j2, w);
                    }
                }
            }
            return None;
                },
            };
            let (reserve, j2) = match read_location(bytes, j1) {
                Some(x) => x,
                None => {
                    proof {
                assert forall|w: InstrModel, j2: int|
                    instr_encodable(w) implies ! #[trigger] slice_is(
                    bytes@,
                    i as int,
                    j2,
                    enc_instr(w),
                ) by {
                    if slice_is(bytes@, i as int, j2, enc_instr(w)) {
                        lemma_instr_parse(bytes@, i as int, j2, w);
                    }
                }
            }
            return None;
                },
            };
            let (count, j3) = match read_u32(bytes, j2) {
                Some(x) => x,
                None => {
                    proof {
                assert forall|w: InstrModel, j2: int|
                    instr_encodable(w) implies ! #[trigger] slice_is(
                    bytes@,
                    i as int,
                    j2,
                    enc_instr(w),
                ) by {
                    if slice_is(bytes@, i as int, j2, enc_instr(w)) {
                        lemma_instr_parse(bytes@, i as int, j2, w);
                    }
                }
            }
            return None;
                },
            };
            let (xcm, j) = match read_instrs(bytes, j3, count) {
                Some(x) => x,
                None => {
                    proof {
                        assert forall|w: InstrModel, j2: int|
                            instr_encodable(w) implies ! #[trigger] slice_is(
                            bytes@,
                            i as int,
                            j2,
                            enc_instr(w),
                        ) by {
                            if slice_is(bytes@, i as int, j2, enc_instr(w)) {
                                lemma_instr_parse(bytes@, i as int, j2, w);
                                let wx = w->InitiateReserveWithdraw_xcm;
                                assert(count == wx.len() as u32);
                                assert(wx.len() < 0x100000000);
                                assert(wx.len() == count as int);
                                assert(slice_is(
                                    bytes@,
                                    j3 as int,
                                    j2,
                                    enc_instrs_items(wx),
                                ));
                            }
                        }
                    }
                    return None;
                },
            };
            let instr = Instruction::InitiateReserveWithdraw { assets, reserve, xcm };
            proof {
                crate::message::lemma_instrs_model_len(xcm@);
                assert(enc_instr(instr_model(instr)) =~= bytes@.subrange(i as int, j as int));
                assert forall|w: InstrModel, j2: int|
                    instr_encodable(w) && #[trigger] slice_is(bytes@, i as int, j2, enc_instr(w))
                    implies instr_model(instr) == w && j2 == j by {
                    lemma_instr_parse(bytes@, i as int, j2, w);
                    let wx = w->InitiateReserveWithdraw_xcm;
                    assert(assets@ == w->InitiateReserveWithdraw_assets);
                    assert(reserve@ == w->InitiateReserveWithdraw_reserve);
                    assert(count == wx.len() as u32);
                    assert(wx.len() < 0x100000000);
                    assert(wx.len() == count as int);
                    assert(slice_is(bytes@, j3 as int, j2, enc_instrs_items(wx)));
                    assert(instrs_model(xcm@) == wx && j == j2);
                }
            }
            Some((instr, j))
        },
        5u8 => read_transact_arm(bytes, i, j0),
        6u8 => read_buy_arm(bytes, i, j0),
        7u8 => read_descend_arm(bytes, i, j0),
        8u8 => read_noop_arm(bytes, i, j0),
        _ => {
            proof {
                assert forall|w: InstrModel, j2: int|
                    instr_encodable(w) implies ! #[trigger] slice_is(
                    bytes@,
                    i as int,
                    j2,
                    enc_instr(w),
                ) by {
                    if slice_is(bytes@, i as int, j2, enc_instr(w)) {
                        lemma_instr_parse(bytes@, i as int, j2, w);
                    }
                }
            }
            None
        },
    }
}

#[verifier::loop_isolation(false)]
fn read_instrs(bytes: &Vec<u8>, i: usize, n: u32) -> (r: Option<(Vec<Instruction>, usize)>)
    requires
        i <= bytes@.len(),
    ensures
        match r {
            Some((v, j)) => {
                &&& i <= j <= bytes@.len()
                &&& v@.len() == n
                &&& instrs_encodable(instrs_model(v@))
                &&& enc_instrs_items(instrs_model(v@)) == bytes@.subrange(i as int, j as int)
            },
            None => true,
        },
        forall|ws: Seq<InstrModel>, j2: int|
            ws.len() == n && instrs_encodable(ws) && #[trigger] slice_is(
                bytes@,
                i as int,
                j2,
                enc_instrs_items(ws),
            ) ==> r is Some && instrs_model(r->Some_0.0@) == ws && r->Some_0.1 == j2,
    decreases bytes@.len() - i, 1int,
{
    let mut v: Vec<Instruction> = Vec::new();
    let mut cur = i;
    let mut k: usize = 0;
    proof {
        assert forall|ws: Seq<InstrModel>, j2: int|
            ws.len() == n && instrs_encodable(ws) && #[trigger] slice_is(
                bytes@,
                i as int,
                j2,
                enc_instrs_items(ws),
            ) implies ws.subrange(0, 0) == instrs_model(v@) && slice_is(
            bytes@,
            cur as int,
            j2,
            enc_instrs_items(ws.skip(0)),
        ) by {
            assert(ws.subrange(0, 0) =~= instrs_model(v@));
            assert(ws.skip(0) =~= ws);
        }
    }
    while k < n as usize
        invariant
            k <= n as usize,
            i <= cur <= bytes@.len(),
            v@.len() == k,
            instrs_encodable(instrs_model(v@)),
            enc_instrs_items(instrs_model(v@)) == bytes@.subrange(i as int, cur as int),
            forall|ws: Seq<InstrModel>, j2: int|
                ws.len() == n && instrs_encodable(ws) && #[trigger] slice_is(
                    bytes@,
                    i as int,
                    j2,
                    enc_instrs_items(ws),
                ) ==> ws.subrange(0, k as int) == instrs_model(v@) && slice_is(
                    bytes@,
                    cur as int,
                    j2,
                    enc_instrs_items(ws.skip(k as int)),
                ),
        decreases n as usize - k,
    {
        proof {
            assert forall|ws: Seq<InstrModel>, j2: int|
                ws.len() == n && instrs_encodable(ws) && #[trigger] slice_is(
                    bytes@,
                    i as int,
                    j2,
                    enc_instrs_items(ws),
                ) implies slice_is(
                bytes@,
                cur as int,
                cur + enc_instr(ws[k as int]).len(),
                enc_instr(ws[k as int]),
            ) && instr_encodable(ws[k as int]) by {
                let rest = ws.skip(k as int);
                assert(rest.len() > 0);
                lemma_enc_instrs_items_front(rest);
                lemma_slice_split(
                    bytes@,
                    cur as int,
                    j2,
                    enc_instr(rest.first()),
                    enc_instrs_items(rest.drop_first()),
                );
                assert(rest.first() == ws[k as int]);
            }
        }
        let (instr, nxt) = match read_instr(bytes, cur) {
            Some(x) => x,
            None => {
                proof {
                    assert forall|ws: Seq<InstrModel>, j2: int|
                        ws.len() == n && instrs_encodable(ws) implies ! #[trigger] slice_is(
                        bytes@,
                        i as int,
                        j2,
                        enc_instrs_items(ws),
                    ) by {
                        if slice_is(bytes@, i as int, j2, enc_instrs_items(ws)) {
                            assert(slice_is(
                                bytes@,
                                cur as int,
                                cur + enc_instr(ws[k as int]).len(),
                                enc_instr(ws[k as int]),
                            ));
                        }
                    }
                }
                return None;
            },
        };
        let ghost pre = instrs_model(v@);
        let ghost im = instr_model(instr);
        proof {
            crate::message::lemma_instrs_model_push(v@, instr);
            crate::message::lemma_instrs_model_len(v@);
            assert forall|ws: Seq<InstrModel>, j2: int|
                ws.len() == n && instrs_encodable(ws) && #[trigger] slice_is(
                    bytes@,
                    i as int,
                    j2,
                    enc_instrs_items(ws),
                ) implies ws.subrange(0, k + 1 as int) == pre.push(im) && slice_is(
                bytes@,
                nxt as int,
                j2,
                enc_instrs_items(ws.skip(k + 1 as int)),
            ) by {
                let rest = ws.skip(k as int);
                lemma_enc_instrs_items_front(rest);
                lemma_slice_split(
                    bytes@,
                    cur as int,
                    j2,
                    enc_instr(rest.first()),
                    enc_instrs_items(rest.drop_first()),
                );
                assert(rest.first() == ws[k as int]);
                assert(im == ws[k as int]);
                assert(ws.subrange(0, k + 1 as int) =~= ws.subrange(0, k as int).push(
                    ws[k as int],
                ));
                assert(rest.drop_first() =~= ws.skip(k + 1 as int));
            }
        }
        v.push(instr);
        cur = nxt;
        k += 1;
        proof {
            let post = instrs_model(v@);
            assert(post == pre.push(im));
            assert(post.drop_last() =~= pre);
            assert(post.last() == im);
            assert(enc_instrs_items(post) =~= bytes@.subrange(i as int, cur as int));
            assert forall|t: int| 0 <= t < post.len() implies instr_encodable(
                #[trigger] post[t],
            ) by {
                if t < pre.len() {
                    assert(pre[t] == post[t]);
                }
            }
        }
    }
    proof {
        assert(enc_instrs_items(instrs_model(v@)) == bytes@.subrange(i as int, cur as int));
        crate::message::lemma_instrs_model_len(v@);
        assert forall|ws: Seq<InstrModel>, j2: int|
            ws.len() == n && instrs_encodable(ws) && #[trigger] slice_is(
                bytes@,
                i as int,
                j2,
                enc_instrs_items(ws),
            ) implies instrs_model(v@) == ws && j2 == cur by {
            assert(ws.subrange(0, k as int) =~= ws);
            assert(ws.skip(k as int) =~= Seq::<InstrModel>::empty());
            assert(enc_instrs_items(ws.skip(k as int)) =~= Seq::<u8>::empty());
        }
    }
    Some((v, cur))
}

/// Decodes a versioned wire message. An unknown version is reported as
/// `BadVersion`, exactly when the first byte is not `MESSAGE_VERSION`;
/// any other failure — truncation, an unknown tag, an oversized interior,
/// trailing bytes — is `Malformed`. On success, re-encoding the result
/// yields the input bytes unchanged; and whenever the input is the
/// encoding of some well-formed message, decoding succeeds and returns
/// exactly that message.
/// Splits a whole buffer holding a message encoding into its version
/// byte, count, and instruction items.
proof fn lemma_message_parse(bytes: Seq<u8>, m: Seq<InstrModel>)
    requires
        msg_encodable(m),
        enc_message(m) == bytes,
    ensures
        bytes.len() >= 5,
        bytes[0] == MESSAGE_VERSION,
        slice_is(bytes, 1, 5, le_bytes((m.len() as u32) as nat, 4)),
        slice_is(bytes, 5, bytes.len() as int, enc_instrs_items(m)),
{
    lemma_le_bytes_len(m.len(), 4);
    assert(bytes.subrange(0, bytes.len() as int) =~= bytes);
    assert(slice_is(bytes, 0, bytes.len() as int, (seq![MESSAGE_VERSION] + le_bytes(
        m.len(),
        4,
    )) + enc_instrs_items(m)));
    lemma_slice_split(
        bytes,
        0,
        bytes.len() as int,
        seq![MESSAGE_VERSION] + le_bytes(m.len(), 4),
        enc_instrs_items(m),
    );
    lemma_slice_split(bytes, 0, 5, seq![MESSAGE_VERSION], le_bytes(m.len(), 4));
    assert(bytes.subrange(0, 1)[0] == bytes[0]);
}

pub fn decode_message(bytes: &Vec<u8>) -> (r: Result<Message, CodecError>)
    ensures
        match r {
            Ok(m) => msg_encodable(m@) && enc_message(m@) == bytes@,
            Err(e) => e == CodecError::BadVersion <==> (bytes@.len() >= 1 && bytes@[0]
                != MESSAGE_VERSION),
        },
        forall|m: Seq<InstrModel>|
            msg_encodable(m) && #[trigger] enc_message(m) == bytes@ ==> r is Ok && r->Ok_0@ == m,
{
    if bytes.len() == 0 {
        proof {
            assert forall|m: Seq<InstrModel>|
                msg_encodable(m) implies ! (#[trigger] enc_message(m) == bytes@) by {
                if enc_message(m) == bytes@ {
                    lemma_message_parse(bytes@, m);
                }
            }
        }
        return Err(CodecError::Malformed);
    }
    if bytes[0] != MESSAGE_VERSION {
        proof {
            assert forall|m: Seq<InstrModel>|
                msg_encodable(m) implies ! (#[trigger] enc_message(m) == bytes@) by {
                if enc_message(m) == bytes@ {
                    lemma_message_parse(bytes@, m);
                }
            }
        }
        return Err(CodecError::BadVersion);
    }
    let (count, j0) = match read_u32(bytes, 1) {
        Some(x) => x,
        None => {
            proof {
                assert forall|m: Seq<InstrModel>|
                    msg_encodable(m) implies ! (#[trigger] enc_message(m) == bytes@) by {
                    if enc_message(m) == bytes@ {
                        lemma_message_parse(bytes@, m);
                    }
                }
            }
            return Err(CodecError::Malformed);
        },
    };
    let (v, j) = match read_instrs(bytes, j0, count) {
        Some(x) => x,
        None => {
            proof {
                assert forall|m: Seq<InstrModel>|
                    msg_encodable(m) implies ! (#[trigger] enc_message(m) == bytes@) by {
                    if enc_message(m) == bytes@ {
                        lemma_message_parse(bytes@, m);
                        assert(count == m.len() as u32);
                        assert(m.len() == count as int);
                        assert(slice_is(bytes@, j0 as int, bytes@.len() as int, enc_instrs_items(
                            m,
                        )));
                    }
                }
            }
            return Err(CodecError::Malformed);
        },
    };
    if j != bytes.len() {
        proof {
            assert forall|m: Seq<InstrModel>|
                msg_encodable(m) implies ! (#[trigger] enc_message(m) == bytes@) by {
                if enc_message(m) == bytes@ {
                    lemma_message_parse(bytes@, m);
                    assert(count == m.len() as u32);
                    assert(m.len() == count as int);
                    assert(slice_is(bytes@, j0 as int, bytes@.len() as int, enc_instrs_items(
                        m,
                    )));
                }
            }
        }
        return Err(CodecError::Malformed);
    }
    let m = Message { instructions: v };
    proof {
        crate::message::lemma_instrs_model_len(v@);
        assert(enc_message(m@) =~= bytes@);
        assert forall|w: Seq<InstrModel>|
            msg_encodable(w) && #[trigger] enc_message(w) == bytes@ implies m@ == w by {
            lemma_message_parse(bytes@, w);
            assert(count == w.len() as u32);
            assert(w.len() == count as int);
            assert(slice_is(bytes@, j0 as int, bytes@.len() as int, enc_instrs_items(w)));
        }
    }
    Ok(m)
}

/// Encodes a message into its versioned wire form.
pub fn encode_message(m: &Message) -> (r: Vec<u8>)
    requires
        msg_encodable(m@),
    ensures
        r@ == enc_message(m@),
{
    let mut out: Vec<u8> = Vec::new();
    out.push(MESSAGE_VERSION);
    proof {
        crate::message::lemma_instrs_model_len(m.instructions@);
    }
    write_instrs(&mut out, &m.instructions);
    proof {
        assert(out@ =~= enc_message(m@));
    }
    out
}

} // verus!
