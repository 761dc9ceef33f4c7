//! The asset transactor: the one strategy the executor uses to debit or
//! credit a matched fungible asset against a chain's ledgers. An ordered
//! predicate chain picks the backend: the native balance ledger backs the
//! asset anchored at the chain itself; every other asset belongs to the
//! multi-asset ledger. There, an asset anchored on another chain — a
//! foreign-reserve-backed derivative — is minted on deposit and burned on
//! withdrawal, while a locally-anchored asset only moves custodied
//! balance, leaving its issuance unchanged.

use vstd::prelude::*;
use crate::account::AccountId;
use crate::asset::{AssetId, AssetIdModel};
use crate::chain::{
    bal0,
    class_model,
    class_of,
    AssetClass,
    AssetClassData,
    Chain,
    ChainModel,
};
use crate::kv::kv_put;
use crate::location::LocModel;

verus! {

/// Whether the native balance ledger backs this asset: the chain has one
/// and the asset is anchored at the chain itself.
pub open spec fn is_native(c: ChainModel, id: AssetIdModel) -> bool {
    c.has_native && id == AssetIdModel::Concrete(LocModel { parents: 0, interior: Seq::empty() })
}

/// Whether the asset's identifier anchors it on another chain: such an
/// asset is a reserve-backed derivative here.
pub open spec fn is_foreign(id: AssetIdModel) -> bool {
    match id {
        AssetIdModel::Concrete(l) => l.parents >= 1,
        AssetIdModel::Abstract(_) => false,
    }
}

/// What withdrawing `amount` units of `id` from `who` does, or `None`
/// when the balance is short or no ledger backs the asset. A foreign
/// derivative is burned out of issuance; a local asset keeps issuance.
pub open spec fn withdraw_one_spec(
    c: ChainModel,
    id: AssetIdModel,
    amount: u128,
    who: AccountId,
) -> Option<ChainModel> {
    if is_native(c, id) {
        let bf = bal0(c.balances, who);
        if bf < amount {
            None
        } else {
            Some(ChainModel { balances: kv_put(c.balances, who, (bf - amount) as u128), ..c })
        }
    } else {
        match class_of(c.assets, id) {
            None => None,
            Some(d) => {
                let bw = bal0(d.balances, who);
                if bw < amount {
                    None
                } else if is_foreign(id) {
                    if d.issuance < amount {
                        None
                    } else {
                        let data = AssetClassData {
                            issuer: d.issuer,
                            issuance: (d.issuance - amount) as u128,
                            balances: kv_put(d.balances, who, (bw - amount) as u128),
                        };
                        Some(ChainModel { assets: kv_put(c.assets, id, data), ..c })
                    }
                } else {
                    let data = AssetClassData {
                        issuer: d.issuer,
                        issuance: d.issuance,
                        balances: kv_put(d.balances, who, (bw - amount) as u128),
                    };
                    Some(ChainModel { assets: kv_put(c.assets, id, data), ..c })
                }
            },
        }
    }
}

/// What depositing `amount` units of `id` to `who` does, or `None` when
/// no ledger backs the asset or a balance would overflow. A foreign
/// derivative is minted into issuance; a local asset keeps issuance.
pub open spec fn deposit_one_spec(
    c: ChainModel,
    id: AssetIdModel,
    amount: u128,
    who: AccountId,
) -> Option<ChainModel> {
    if is_native(c, id) {
        let bf = bal0(c.balances, who);
        if bf + amount > u128::MAX {
            None
        } else {
            Some(ChainModel { balances: kv_put(c.balances, who, (bf + amount) as u128), ..c })
        }
    } else {
        match class_of(c.assets, id) {
            None => None,
            Some(d) => {
                let bw = bal0(d.balances, who);
                if bw + amount > u128::MAX {
                    None
                } else if is_foreign(id) {
                    if d.issuance + amount > u128::MAX {
                        None
                    } else {
                        let data = AssetClassData {
                            issuer: d.issuer,
                            issuance: (d.issuance + amount) as u128,
                            balances: kv_put(d.balances, who, (bw + amount) as u128),
                        };
                        Some(ChainModel { assets: kv_put(c.assets, id, data), ..c })
                    }
                } else {
                    let data = AssetClassData {
                        issuer: d.issuer,
                        issuance: d.issuance,
                        balances: kv_put(d.balances, who, (bw + amount) as u128),
                    };
                    Some(ChainModel { assets: kv_put(c.assets, id, data), ..c })
                }
            },
        }
    }
}

fn asset_id_is_native(c: &Chain, id: &AssetId) -> (r: bool)
    ensures
        r == is_native(c@, id@),
{
    if !c.has_native {
        return false;
    }
    match id {
        AssetId::Concrete(l) => {
            let r = l.parents == 0 && l.interior.len() == 0;
            proof {
                if r {
                    assert(l@.interior =~= Seq::<crate::location::Junction>::empty());
                    assert(l@ == LocModel { parents: 0, interior: Seq::empty() });
                }
            }
            r
        },
        AssetId::Abstract(_) => false,
    }
}

fn asset_id_is_foreign(id: &AssetId) -> (r: bool)
    ensures
        r == is_foreign(id@),
{
    match id {
        AssetId::Concrete(l) => l.parents >= 1,
        AssetId::Abstract(_) => false,
    }
}

/// Tells, without touching the chain, whether withdrawing from `from`
/// and then depositing to `to` would both succeed, and which error the
/// failing half would raise.
pub fn transfer_check(
    c: &Chain,
    id: &AssetId,
    amount: u128,
    from: &AccountId,
    to: &AccountId,
) -> (r: Option<crate::chain::ExecError>)
    requires
        c@.inv(),
    ensures
        match withdraw_one_spec(c@, id@, amount, *from) {
            None => r == Some(crate::chain::ExecError::NotWithdrawable),
            Some(c2) => match deposit_one_spec(c2, id@, amount, *to) {
                None => r == Some(crate::chain::ExecError::NotDepositable),
                Some(_) => r is None,
            },
        },
{
    if asset_id_is_native(c, id) {
        let bf = c.free_balance(from);
        if bf < amount {
            return Some(crate::chain::ExecError::NotWithdrawable);
        }
        proof {
            crate::kv::lemma_kv_get_put(c@.balances, *from, (bf - amount) as u128, *to);
        }
        let bt_mid = if crate::account::account_eq(to, from) {
            bf - amount
        } else {
            c.free_balance(to)
        };
        if bt_mid > u128::MAX - amount {
            return Some(crate::chain::ExecError::NotDepositable);
        }
        None
    } else {
        let foreign = asset_id_is_foreign(id);
        let (bw, iss) = match crate::chain::class_read(c, id, from) {
            Some(x) => x,
            None => {
                return Some(crate::chain::ExecError::NotWithdrawable);
            },
        };
        if bw < amount {
            return Some(crate::chain::ExecError::NotWithdrawable);
        }
        if foreign && iss < amount {
            return Some(crate::chain::ExecError::NotWithdrawable);
        }
        let ghost d = class_of(c@.assets, id@)->Some_0;
        let ghost b1 = kv_put(d.balances, *from, (bw - amount) as u128);
        let ghost iss1: u128 = if foreign {
            (iss - amount) as u128
        } else {
            iss
        };
        let ghost d1 = AssetClassData { issuer: d.issuer, issuance: iss1, balances: b1 };
        let ghost c2 = ChainModel { assets: kv_put(c@.assets, id@, d1), ..c@ };
        proof {
            crate::kv::lemma_kv_get_put(c@.assets, id@, d1, id@);
            crate::kv::lemma_kv_get_put(d.balances, *from, (bw - amount) as u128, *to);
            assert(withdraw_one_spec(c@, id@, amount, *from) == Some(c2));
            assert(class_of(c2.assets, id@) == Some(d1));
        }
        let bt_mid = if crate::account::account_eq(to, from) {
            bw - amount
        } else {
            match crate::chain::class_read(c, id, to) {
                Some(x) => x.0,
                None => 0,
            }
        };
        if bt_mid > u128::MAX - amount {
            return Some(crate::chain::ExecError::NotDepositable);
        }
        if foreign {
            let new_iss = if foreign {
                iss - amount
            } else {
                iss
            };
            if new_iss > u128::MAX - amount {
                return Some(crate::chain::ExecError::NotDepositable);
            }
        }
        None
    }
}

/// Withdraws through the backend the predicate chain picks. `false`
/// leaves the chain unchanged.
pub fn transactor_withdraw(c: &mut Chain, id: &AssetId, amount: u128, who: &AccountId) -> (r:
    bool)
    requires
        old(c)@.inv(),
    ensures
        final(c)@.inv(),
        match withdraw_one_spec(old(c)@, id@, amount, *who) {
            Some(m) => r == true && final(c)@ == m,
            None => r == false && final(c)@ == old(c)@,
        },
{
    if asset_id_is_native(c, id) {
        let bf = c.free_balance(who);
        if bf < amount {
            return false;
        }
        crate::chain::chain_bal_put(c, who, bf - amount);
        true
    } else {
        let foreign = asset_id_is_foreign(id);
        crate::chain::class_withdraw(c, id, amount, who, foreign)
    }
}

/// Deposits through the backend the predicate chain picks. `false`
/// leaves the chain unchanged.
pub fn transactor_deposit(c: &mut Chain, id: &AssetId, amount: u128, who: &AccountId) -> (r: bool)
    requires
        old(c)@.inv(),
    ensures
        final(c)@.inv(),
        match deposit_one_spec(old(c)@, id@, amount, *who) {
            Some(m) => r == true && final(c)@ == m,
            None => r == false && final(c)@ == old(c)@,
        },
{
    if asset_id_is_native(c, id) {
        let bf = c.free_balance(who);
        if bf > u128::MAX - amount {
            return false;
        }
        crate::chain::chain_bal_put(c, who, bf + amount);
        true
    } else {
        let foreign = asset_id_is_foreign(id);
        crate::chain::class_deposit(c, id, amount, who, foreign)
    }
}

} // verus!
