//! The protocol's standing laws, proved once over the executor's
//! semantics: the origin only ever narrows, the holding register never
//! goes negative, and a reserve transfer locks on one side exactly what
//! it mints on the other.

use vstd::prelude::*;
use crate::account::AccountId;
use crate::asset::{AssetIdModel, AssetModel, FilterModel, Fungibility};
use crate::chain::{bal0, class_bal, class_issuance, class_of, Barrier, ChainModel, ExecError, Outcome};
use crate::executor::{
    account_of_location,
    exec_message_spec,
    run_instrs_spec,
    step_instr_spec,
    unit_weight,
};
use crate::holding::{hold0, take_definite_spec};
use crate::kv::{kv_put, lemma_kv_get_put};
use crate::location::{
    lemma_descends_antisym,
    lemma_descends_refl,
    lemma_descends_trans,
    LocModel,
    MAX_JUNCTIONS,
};
use crate::message::InstrModel;
use crate::network::{mint_program, reanchor_up, reserve_transfer_spec};
use crate::transactor::{deposit_one_spec, is_foreign, is_native, withdraw_one_spec};
use crate::weight::Weight;

verus! {

/// One instruction can only keep or narrow the origin.
proof fn lemma_step_origin(
    c: ChainModel,
    origin: LocModel,
    h: Seq<(AssetIdModel, u128)>,
    i: InstrModel,
)
    ensures
        step_instr_spec(c, origin, h, i).1.descends_from(origin),
{
    lemma_descends_refl(origin);
    match i {
        InstrModel::DescendOrigin(j) => {
            if origin.interior.len() < MAX_JUNCTIONS {
                let o2 = step_instr_spec(c, origin, h, i).1;
                assert(o2.interior.subrange(0, origin.interior.len() as int) =~= origin.interior);
            }
        },
        _ => {},
    }
}

/// Origin narrowing only: whatever instructions run, the effective
/// origin at the end descends from the entry origin — so it is never a
/// strict ancestor of it.
pub proof fn lemma_origin_narrowing(
    c: ChainModel,
    origin: LocModel,
    h: Seq<(AssetIdModel, u128)>,
    used: Weight,
    instrs: Seq<InstrModel>,
    limit: Weight,
)
    ensures
        run_instrs_spec(c, origin, h, used, instrs, limit).1.descends_from(origin),
        !run_instrs_spec(c, origin, h, used, instrs, limit).1.is_ancestor_of(origin),
    decreases instrs.len(),
{
    lemma_descends_refl(origin);
    let fin = run_instrs_spec(c, origin, h, used, instrs, limit).1;
    if instrs.len() > 0 {
        match used.spec_add(unit_weight()) {
            None => {},
            Some(u) => {
                if u.spec_fits(limit) {
                    let (c2, o2, h2, e) = step_instr_spec(c, origin, h, instrs.first());
                    lemma_step_origin(c, origin, h, instrs.first());
                    match e {
                        Some(_) => {},
                        None => {
                            lemma_origin_narrowing(c2, o2, h2, u, instrs.drop_first(), limit);
                            lemma_descends_trans(
                                run_instrs_spec(c2, o2, h2, u, instrs.drop_first(), limit).1,
                                o2,
                                origin,
                            );
                        },
                    }
                }
            },
        }
    }
    if fin.is_ancestor_of(origin) {
        lemma_descends_antisym(fin, origin);
    }
}

/// No negative holding: quantities in the holding are unsigned by
/// construction, and a definite deposit asking for more of an asset than
/// the holding carries fails with `NotDepositable`, touching neither the
/// chain nor the holding.
pub proof fn lemma_no_negative_holding(
    c: ChainModel,
    origin: LocModel,
    h: Seq<(AssetIdModel, u128)>,
    id: AssetIdModel,
    amount: u128,
    beneficiary: LocModel,
)
    requires
        amount > hold0(h, id),
    ensures
        step_instr_spec(
            c,
            origin,
            h,
            InstrModel::DepositAsset {
                assets: FilterModel::Definite(
                    seq![AssetModel { id, fun: Fungibility::Fungible(amount) }],
                ),
                beneficiary,
            },
        ) == (c, origin, h, Some(ExecError::NotDepositable)),
{
    let list = seq![AssetModel { id, fun: Fungibility::Fungible(amount) }];
    assert(list.first() == AssetModel { id, fun: Fungibility::Fungible(amount) });
    assert(take_definite_spec(h, list) is None);
}

/// Conservation, reserve side: a completed outbound reserve transfer of
/// `amount` units raises the destination's sovereign account — the lock
/// — by exactly `amount`, and queues the destination exactly one
/// message: the program that mints the derivative for the beneficiary.
pub proof fn lemma_reserve_transfer_locks(
    c: ChainModel,
    signer: AccountId,
    dest: LocModel,
    beneficiary: LocModel,
    l: LocModel,
    amount: u128,
)
    requires
        ({
            let asset = AssetModel {
                id: AssetIdModel::Concrete(l),
                fun: Fungibility::Fungible(amount),
            };
            &&& reserve_transfer_spec(c, signer, dest, beneficiary, asset).1 is Ok
            &&& is_native(c, AssetIdModel::Concrete(l))
            &&& signer != account_of_location(dest, c.network)
        }),
    ensures
        ({
            let asset = AssetModel {
                id: AssetIdModel::Concrete(l),
                fun: Fungibility::Fungible(amount),
            };
            let sov = account_of_location(dest, c.network);
            let (c2, r) = reserve_transfer_spec(c, signer, dest, beneficiary, asset);
            &&& bal0(c2.balances, sov) == bal0(c.balances, sov) + amount
            &&& bal0(c2.balances, signer) == bal0(c.balances, signer) - amount
            &&& c2.outbound == c.outbound.push(
                (
                    dest,
                    crate::codec::enc_message(
                        mint_program(
                            AssetModel {
                                id: AssetIdModel::Concrete(reanchor_up(l)->Some_0),
                                fun: Fungibility::Fungible(amount),
                            },
                            beneficiary,
                        ),
                    ),
                ),
            )
            &&& c2.assets == c.assets
        }),
{
    let asset = AssetModel { id: AssetIdModel::Concrete(l), fun: Fungibility::Fungible(amount) };
    let id = AssetIdModel::Concrete(l);
    let sov = account_of_location(dest, c.network);
    let am = seq![asset];
    assert(am.first() == asset);
    assert(am.drop_first() =~= Seq::<AssetModel>::empty());
    let w = withdraw_one_spec(c, id, amount, signer);
    assert(w is Some);
    let c1 = w->Some_0;
    let bsg = bal0(c.balances, signer);
    lemma_kv_get_put(c.balances, signer, (bsg - amount) as u128, sov);
    lemma_kv_get_put(c.balances, signer, (bsg - amount) as u128, signer);
    let d = deposit_one_spec(c1, id, amount, sov);
    assert(d is Some);
    let c2 = d->Some_0;
    assert(crate::executor::transfer_assets_spec(c2, signer, sov, am.drop_first()) == (
        c2,
        None::<ExecError>,
    ));
    assert(crate::executor::transfer_assets_spec(c, signer, sov, am) == (c2, None::<ExecError>));
    lemma_kv_get_put(c1.balances, sov, (bal0(c1.balances, sov) + amount) as u128, sov);
    lemma_kv_get_put(c1.balances, sov, (bal0(c1.balances, sov) + amount) as u128, signer);
}

/// Conservation, return side: the destination burns its derivative —
/// `asset_burn_spec` takes exactly the burned amount out of issuance —
/// and the reserve, on delivery of the transfer program, moves the same
/// amount out of the sending parachain's sovereign lock to the final
/// beneficiary.
pub proof fn lemma_unlock_on_delivery(
    r: ChainModel,
    p: u32,
    beneficiary: LocModel,
    amount: u128,
    limit: Weight,
)
    requires
        ({
            let origin = LocModel {
                parents: 0,
                interior: seq![crate::location::Junction::Parachain(p)],
            };
            let here = AssetIdModel::Concrete(LocModel { parents: 0, interior: Seq::empty() });
            let sov = account_of_location(origin, r.network);
            let ben = account_of_location(beneficiary, r.network);
            &&& r.barrier == Barrier::AllowAll
            &&& is_native(r, here)
            &&& bal0(r.balances, sov) >= amount
            &&& sov != ben
            &&& bal0(r.balances, ben) + amount <= u128::MAX
            &&& unit_weight().spec_fits(limit)
        }),
    ensures
        ({
            let origin = LocModel {
                parents: 0,
                interior: seq![crate::location::Junction::Parachain(p)],
            };
            let here = AssetIdModel::Concrete(LocModel { parents: 0, interior: Seq::empty() });
            let sov = account_of_location(origin, r.network);
            let ben = account_of_location(beneficiary, r.network);
            let prog = seq![
                InstrModel::TransferAsset {
                    assets: seq![AssetModel { id: here, fun: Fungibility::Fungible(amount) }],
                    beneficiary,
                },
            ];
            let (r2, o) = exec_message_spec(r, origin, prog, limit);
            &&& o == Outcome::Complete(unit_weight())
            &&& bal0(r2.balances, sov) == bal0(r.balances, sov) - amount
            &&& bal0(r2.balances, ben) == bal0(r.balances, ben) + amount
            &&& r2.assets == r.assets
        }),
{
    let origin = LocModel { parents: 0, interior: seq![crate::location::Junction::Parachain(p)] };
    let here = AssetIdModel::Concrete(LocModel { parents: 0, interior: Seq::empty() });
    let sov = account_of_location(origin, r.network);
    let ben = account_of_location(beneficiary, r.network);
    let asset = AssetModel { id: here, fun: Fungibility::Fungible(amount) };
    let am = seq![asset];
    let prog = seq![InstrModel::TransferAsset { assets: am, beneficiary }];
    let h0 = Seq::<(AssetIdModel, u128)>::empty();
    let u1 = unit_weight();
    assert(Weight::spec_zero().spec_add(unit_weight()) == Some(u1));
    assert(am.first() == asset);
    assert(am.drop_first() =~= Seq::<AssetModel>::empty());
    let w = withdraw_one_spec(r, here, amount, sov);
    assert(w is Some);
    let c1 = w->Some_0;
    let bs = bal0(r.balances, sov);
    lemma_kv_get_put(r.balances, sov, (bs - amount) as u128, ben);
    lemma_kv_get_put(r.balances, sov, (bs - amount) as u128, sov);
    let d = deposit_one_spec(c1, here, amount, ben);
    assert(d is Some);
    let c2 = d->Some_0;
    lemma_kv_get_put(c1.balances, ben, (bal0(c1.balances, ben) + amount) as u128, ben);
    lemma_kv_get_put(c1.balances, ben, (bal0(c1.balances, ben) + amount) as u128, sov);
    assert(crate::executor::transfer_assets_spec(c2, sov, ben, am.drop_first()) == (c2, None::<
        ExecError,
    >));
    assert(crate::executor::transfer_assets_spec(r, sov, ben, am) == (c2, None::<ExecError>));
    let (cs, os, hs, es) = step_instr_spec(r, origin, h0, prog.first());
    assert(cs == c2 && os == origin && hs == h0 && es is None);
    assert(run_instrs_spec(c2, origin, h0, u1, prog.drop_first(), limit) == (
        c2,
        origin,
        Outcome::Complete(u1),
    ));
    assert(run_instrs_spec(r, origin, h0, Weight::spec_zero(), prog, limit) == (
        c2,
        origin,
        Outcome::Complete(u1),
    ));
    assert(exec_message_spec(r, origin, prog, limit) == (c2, Outcome::Complete(u1)));
}

/// Conservation, destination side: delivering the mint program for a
/// foreign-anchored asset with a backing class raises the derivative's
/// total issuance and the beneficiary's balance by exactly the locked
/// amount, and the execution completes.
pub proof fn lemma_mint_on_delivery(
    d: ChainModel,
    origin: LocModel,
    beneficiary: LocModel,
    amount: u128,
    limit: Weight,
)
    requires
        d.barrier == Barrier::AllowAll,
        !is_native(d, AssetIdModel::Concrete(origin)),
        is_foreign(AssetIdModel::Concrete(origin)),
        class_of(d.assets, AssetIdModel::Concrete(origin)) is Some,
        class_issuance(d.assets, AssetIdModel::Concrete(origin)) + amount <= u128::MAX,
        class_bal(
            d.assets,
            AssetIdModel::Concrete(origin),
            account_of_location(beneficiary, d.network),
        ) + amount <= u128::MAX,
        (Weight { ref_time: 2, proof_size: 2 }).spec_fits(limit),
    ensures
        ({
            let id = AssetIdModel::Concrete(origin);
            let asset = AssetModel { id, fun: Fungibility::Fungible(amount) };
            let ben = account_of_location(beneficiary, d.network);
            let (d2, o) = exec_message_spec(d, origin, mint_program(asset, beneficiary), limit);
            &&& o == Outcome::Complete(Weight { ref_time: 2, proof_size: 2 })
            &&& class_issuance(d2.assets, id) == class_issuance(d.assets, id) + amount
            &&& class_bal(d2.assets, id, ben) == class_bal(d.assets, id, ben) + amount
            &&& forall|other: AssetIdModel|
                other != id ==> #[trigger] class_issuance(d2.assets, other) == class_issuance(
                    d.assets,
                    other,
                )
            &&& d2.balances == d.balances
        }),
{
    let id = AssetIdModel::Concrete(origin);
    let asset = AssetModel { id, fun: Fungibility::Fungible(amount) };
    let ben = account_of_location(beneficiary, d.network);
    let prog = mint_program(asset, beneficiary);
    let cls = class_of(d.assets, id)->Some_0;
    assert(prog.len() == 2);
    assert(prog.first() == InstrModel::ReserveAssetDeposited(seq![asset]));
    let h0 = Seq::<(AssetIdModel, u128)>::empty();
    let u1 = Weight { ref_time: 1, proof_size: 1 };
    let u2 = Weight { ref_time: 2, proof_size: 2 };
    assert(Weight::spec_zero().spec_add(unit_weight()) == Some(u1));
    assert(u1.spec_fits(limit));
    // first instruction: credit the holding
    let am = seq![asset];
    assert(am.first() == asset);
    assert(am.drop_first() =~= Seq::<AssetModel>::empty());
    let h1 = crate::holding::hold_add_spec(h0, id, amount);
    assert(hold0(h0, id) == 0);
    lemma_kv_get_put(h0, id, amount, id);
    let (c1, o1, hh1, e1) = step_instr_spec(d, origin, h0, prog.first());
    assert(crate::executor::reserve_deposit_spec(h1, origin, am.drop_first()) == (h1, None::<
        ExecError,
    >));
    assert(crate::executor::reserve_deposit_spec(h0, origin, am) == (h1, None::<ExecError>));
    assert(c1 == d && o1 == origin && hh1 == h1 && e1 is None);
    // second instruction: deposit everything to the beneficiary
    assert(u1.spec_add(unit_weight()) == Some(u2));
    assert(u2.spec_fits(limit));
    let rest = prog.drop_first();
    assert(rest.first() == InstrModel::DepositAsset {
        assets: FilterModel::WildAll,
        beneficiary,
    });
    assert(rest.drop_first() =~= Seq::<InstrModel>::empty());
    let sel = crate::holding::wild_selected(h1, FilterModel::WildAll);
    assert(h1 =~= seq![(id, amount)]);
    assert(h1.drop_last() =~= Seq::<(AssetIdModel, u128)>::empty());
    assert(crate::holding::wild_selected(
        Seq::<(AssetIdModel, u128)>::empty(),
        FilterModel::WildAll,
    ) =~= Seq::<(AssetIdModel, u128)>::empty());
    assert(crate::holding::wild_kept(
        Seq::<(AssetIdModel, u128)>::empty(),
        FilterModel::WildAll,
    ) =~= Seq::<(AssetIdModel, u128)>::empty());
    assert(sel =~= seq![(id, amount)]);
    assert(sel.first() == (id, amount));
    assert(sel.drop_first() =~= Seq::<(AssetIdModel, u128)>::empty());
    let dep = deposit_one_spec(d, id, amount, ben);
    assert(dep is Some);
    let d2 = dep->Some_0;
    assert(crate::executor::deposit_entries_spec(d2, sel.drop_first(), ben) == (d2, None::<
        ExecError,
    >));
    assert(crate::executor::deposit_entries_spec(d, sel, ben) == (d2, None::<ExecError>));
    let kept = crate::holding::wild_kept(h1, FilterModel::WildAll);
    let (cs2, os2, hs2, es2) = step_instr_spec(d, origin, h1, rest.first());
    assert(cs2 == d2 && os2 == origin && hs2 == kept && es2 is None);
    assert(run_instrs_spec(d2, origin, kept, u2, rest.drop_first(), limit) == (
        d2,
        origin,
        Outcome::Complete(u2),
    ));
    assert(run_instrs_spec(d, origin, h1, u1, rest, limit) == (
        d2,
        origin,
        Outcome::Complete(u2),
    ));
    assert(run_instrs_spec(d, origin, h0, Weight::spec_zero(), prog, limit) == (
        d2,
        origin,
        Outcome::Complete(u2),
    ));
    assert(exec_message_spec(d, origin, prog, limit) == (d2, Outcome::Complete(u2)));
    lemma_kv_get_put(
        d.assets,
        id,
        crate::chain::AssetClassData {
            issuer: cls.issuer,
            issuance: (cls.issuance + amount) as u128,
            balances: kv_put(cls.balances, ben, (bal0(cls.balances, ben) + amount) as u128),
        },
        id,
    );
    lemma_kv_get_put(cls.balances, ben, (bal0(cls.balances, ben) + amount) as u128, ben);
    assert forall|other: AssetIdModel| other != id implies #[trigger] class_issuance(
        d2.assets,
        other,
    ) == class_issuance(d.assets, other) by {
        lemma_kv_get_put(
            d.assets,
            id,
            crate::chain::AssetClassData {
                issuer: cls.issuer,
                issuance: (cls.issuance + amount) as u128,
                balances: kv_put(cls.balances, ben, (bal0(cls.balances, ben) + amount) as u128),
            },
            other,
        );
    }
}

} // verus!
