//! One chain's durable state: a native balance ledger, a multi-asset
//! ledger of id-indexed classes, a plain key-value store, an event log,
//! and the inbound and outbound message queues. All ledgers are
//! association sequences with unique keys; lookups read zero for absent
//! accounts.

use vstd::prelude::*;
use crate::account::AccountId;
use crate::asset::{AssetId, AssetIdModel};
use crate::kv::{
    keys_unique,
    kv_contains,
    kv_get,
    kv_put,
    lemma_kv_get_absent,
    lemma_kv_get_present,
    lemma_kv_get_put,
    lemma_kv_get_some_contains,
    lemma_kv_put_unique,
};
use crate::location::{LocModel, Location, NetworkId};
use crate::message::{Call, CallModel};
use crate::weight::Weight;

verus! {

/// Which chain of the simulated network this is.
#[derive(Clone, Copy, PartialEq, Eq, Structural, Debug)]
pub enum ChainId {
    Relay,
    Para(u32),
}

/// Why an instruction could not take effect. Each of these ends the
/// remaining sequence of one message without undoing earlier
/// instructions.
#[derive(Clone, Copy, PartialEq, Eq, Structural, Debug)]
pub enum ExecError {
    /// A withdrawal asked for more than the ledger or the holding held.
    NotWithdrawable,
    /// A deposit had nothing to deposit, or the ledger refused the
    /// credit.
    NotDepositable,
    /// The origin did not authorise the instruction: a reserve deposit
    /// from a sender that is no reserve for the asset, or a `Transact`
    /// origin that converts to no local account.
    BadOrigin,
    /// The weight budget could not cover the next instruction.
    WeightExceeded,
    /// A dispatched call failed; recorded in events, never an outcome.
    DispatchFailed,
    /// A location could not be formed or routed.
    LocationOverflow,
    /// No local account stands for a location. The deriver here is
    /// total — its hash fallback accepts every location — so nothing
    /// raises this; it completes the failure taxonomy for configurations
    /// whose conversion list has no fallback.
    AccountDerivationFailed,
    /// The admission barrier rejected the whole message.
    BarrierRejected,
}

/// The result of executing one message.
#[derive(Clone, Copy, PartialEq, Eq, Structural, Debug)]
pub enum Outcome {
    /// Every instruction took effect.
    Complete(Weight),
    /// Execution stopped at some instruction; earlier effects stand.
    Incomplete(Weight, ExecError),
    /// The message was rejected before any effect.
    Error(ExecError),
}

/// An entry of a chain's event log.
#[derive(Clone, Copy, PartialEq, Eq, Structural, Debug)]
pub enum Event {
    /// A received message was executed, with this outcome.
    Executed(Outcome),
    /// Received bytes did not decode.
    BadFormat,
    /// Received bytes spoke an unknown message version.
    BadVersion,
    /// A `Transact` call dispatched successfully.
    DispatchSucceeded,
    /// A `Transact` call failed or its bytes parsed to no call.
    DispatchFailed,
}

/// Admission control, consulted once per message before execution.
#[derive(Clone, Copy, PartialEq, Eq, Structural, Debug)]
pub enum Barrier {
    /// Execute anything, paid or not.
    AllowAll,
    /// Execute only programs that buy their execution.
    RequirePaid,
    /// Execute nothing.
    DenyAll,
}

/// One class of the multi-asset ledger.
#[derive(Debug)]
pub struct AssetClass {
    pub id: AssetId,
    pub issuer: AccountId,
    pub issuance: u128,
    pub balances: Vec<(AccountId, u128)>,
}

/// Mathematical model of a class, keyed separately by its id.
pub struct AssetClassData {
    pub issuer: AccountId,
    pub issuance: u128,
    pub balances: Seq<(AccountId, u128)>,
}

pub open spec fn class_model(c: AssetClass) -> (AssetIdModel, AssetClassData) {
    (c.id@, AssetClassData { issuer: c.issuer, issuance: c.issuance, balances: c.balances@ })
}

/// One chain of the network.
#[derive(Debug)]
pub struct Chain {
    pub id: ChainId,
    pub network: NetworkId,
    /// Whether a native balance ledger backs the asset anchored at the
    /// chain itself.
    pub has_native: bool,
    pub barrier: Barrier,
    pub balances: Vec<(AccountId, u128)>,
    pub assets: Vec<AssetClass>,
    pub storage: Vec<(AccountId, u64)>,
    pub events: Vec<Event>,
    pub inbound: Vec<(ChainId, Vec<u8>)>,
    pub outbound: Vec<(Location, Vec<u8>)>,
}

/// Mathematical model of a chain.
pub struct ChainModel {
    pub id: ChainId,
    pub network: NetworkId,
    pub has_native: bool,
    pub barrier: Barrier,
    pub balances: Seq<(AccountId, u128)>,
    pub assets: Seq<(AssetIdModel, AssetClassData)>,
    pub storage: Seq<(AccountId, u64)>,
    pub events: Seq<Event>,
    pub inbound: Seq<(ChainId, Seq<u8>)>,
    pub outbound: Seq<(LocModel, Seq<u8>)>,
}

impl View for Chain {
    type V = ChainModel;

    open spec fn view(&self) -> ChainModel {
        ChainModel {
            id: self.id,
            network: self.network,
            has_native: self.has_native,
            barrier: self.barrier,
            balances: self.balances@,
            assets: self.assets@.map_values(|c: AssetClass| class_model(c)),
            storage: self.storage@,
            events: self.events@,
            inbound: self.inbound@.map_values(|p: (ChainId, Vec<u8>)| (p.0, p.1@)),
            outbound: self.outbound@.map_values(|p: (Location, Vec<u8>)| (p.0@, p.1@)),
        }
    }
}

impl ChainModel {
    /// Every ledger keys each account or asset at most once.
    pub open spec fn inv(self) -> bool {
        &&& keys_unique(self.balances)
        &&& keys_unique(self.assets)
        &&& keys_unique(self.storage)
        &&& forall|i: int|
            0 <= i < self.assets.len() ==> keys_unique((#[trigger] self.assets[i]).1.balances)
    }
}

/// Native balance of an account; absent accounts hold zero.
pub open spec fn bal0(s: Seq<(AccountId, u128)>, a: AccountId) -> u128 {
    match kv_get(s, a) {
        Some(v) => v,
        None => 0,
    }
}

/// Stored value of an account; absent accounts store zero.
pub open spec fn stored0(s: Seq<(AccountId, u64)>, a: AccountId) -> u64 {
    match kv_get(s, a) {
        Some(v) => v,
        None => 0,
    }
}

pub open spec fn class_of(s: Seq<(AssetIdModel, AssetClassData)>, id: AssetIdModel) -> Option<
    AssetClassData,
> {
    kv_get(s, id)
}

/// Ledger balance of an account in an asset class; zero if either is
/// absent.
pub open spec fn class_bal(
    s: Seq<(AssetIdModel, AssetClassData)>,
    id: AssetIdModel,
    a: AccountId,
) -> u128 {
    match class_of(s, id) {
        Some(d) => bal0(d.balances, a),
        None => 0,
    }
}

/// Total issued units of an asset class; zero if absent.
pub open spec fn class_issuance(s: Seq<(AssetIdModel, AssetClassData)>, id: AssetIdModel) -> u128 {
    match class_of(s, id) {
        Some(d) => d.issuance,
        None => 0,
    }
}

fn bal_get(v: &Vec<(AccountId, u128)>, a: &AccountId) -> (r: u128)
    requires
        keys_unique(v@),
    ensures
        r == bal0(v@, *a),
{
    let n = v.len();
    let mut i: usize = 0;
    while i < n
        invariant
            i <= n,
            n == v.len(),
            keys_unique(v@),
            forall|k: int| 0 <= k < i ==> (#[trigger] v@[k]).0 != *a,
        decreases n - i,
    {
        if crate::account::account_eq(&v[i].0, a) {
            proof {
                lemma_kv_get_present(v@, i as int);
            }
            return v[i].1;
        }
        i += 1;
    }
    proof {
        lemma_kv_get_absent(v@, *a);
    }
    0
}

fn bal_put(v: &mut Vec<(AccountId, u128)>, a: &AccountId, x: u128)
    requires
        keys_unique(old(v)@),
    ensures
        final(v)@ == kv_put(old(v)@, *a, x),
        keys_unique(final(v)@),
{
    proof {
        lemma_kv_put_unique(v@, *a, x);
    }
    let n = v.len();
    let mut i: usize = 0;
    while i < n
        invariant
            i <= n,
            n == v.len(),
            v@ == old(v)@,
            keys_unique(v@),
            forall|k: int| 0 <= k < i ==> (#[trigger] v@[k]).0 != *a,
        decreases n - i,
    {
        if crate::account::account_eq(&v[i].0, a) {
            let ghost pre = v@;
            let ghost idx = i as int;
            v[i] = (*a, x);
            proof {
                assert(kv_contains(pre, *a)) by {
                    assert(pre[idx].0 == *a);
                }
                let f = |e: (AccountId, u128)|
                    if e.0 == *a {
                        (*a, x)
                    } else {
                        e
                    };
                assert forall|k: int| 0 <= k < v@.len() implies v@[k] == pre.map_values(f)[k] by {
                    if k != idx {
                        assert(pre[k].0 != *a);
                    }
                }
                assert(v@ =~= pre.map_values(f));
            }
            return ;
        }
        i += 1;
    }
    let ghost pre = v@;
    v.push((*a, x));
    proof {
        assert(!kv_contains(pre, *a));
    }
}

fn stored_get(v: &Vec<(AccountId, u64)>, a: &AccountId) -> (r: u64)
    requires
        keys_unique(v@),
    ensures
        r == stored0(v@, *a),
{
    let n = v.len();
    let mut i: usize = 0;
    while i < n
        invariant
            i <= n,
            n == v.len(),
            keys_unique(v@),
            forall|k: int| 0 <= k < i ==> (#[trigger] v@[k]).0 != *a,
        decreases n - i,
    {
        if crate::account::account_eq(&v[i].0, a) {
            proof {
                lemma_kv_get_present(v@, i as int);
            }
            return v[i].1;
        }
        i += 1;
    }
    proof {
        lemma_kv_get_absent(v@, *a);
    }
    0
}

fn stored_put(v: &mut Vec<(AccountId, u64)>, a: &AccountId, x: u64)
    requires
        keys_unique(old(v)@),
    ensures
        final(v)@ == kv_put(old(v)@, *a, x),
        keys_unique(final(v)@),
{
    proof {
        lemma_kv_put_unique(v@, *a, x);
    }
    let n = v.len();
    let mut i: usize = 0;
    while i < n
        invariant
            i <= n,
            n == v.len(),
            v@ == old(v)@,
            keys_unique(v@),
            forall|k: int| 0 <= k < i ==> (#[trigger] v@[k]).0 != *a,
        decreases n - i,
    {
        if crate::account::account_eq(&v[i].0, a) {
            let ghost pre = v@;
            let ghost idx = i as int;
            v[i] = (*a, x);
            proof {
                assert(kv_contains(pre, *a)) by {
                    assert(pre[idx].0 == *a);
                }
                let f = |e: (AccountId, u64)|
                    if e.0 == *a {
                        (*a, x)
                    } else {
                        e
                    };
                assert forall|k: int| 0 <= k < v@.len() implies v@[k] == pre.map_values(f)[k] by {
                    if k != idx {
                        assert(pre[k].0 != *a);
                    }
                }
                assert(v@ =~= pre.map_values(f));
            }
            return ;
        }
        i += 1;
    }
    let ghost pre = v@;
    v.push((*a, x));
    proof {
        assert(!kv_contains(pre, *a));
    }
}

pub fn clone_location(l: &Location) -> (r: Location)
    ensures
        r@ == l@,
{
    let mut interior: Vec<crate::location::Junction> = Vec::new();
    let n = l.interior.len();
    let mut i: usize = 0;
    while i < n
        invariant
            i <= n,
            n == l.interior.len(),
            interior@ == l.interior@.subrange(0, i as int),
        decreases n - i,
    {
        interior.push(l.interior[i]);
        proof {
            assert(interior@ =~= l.interior@.subrange(0, i + 1 as int));
        }
        i += 1;
    }
    proof {
        assert(l.interior@.subrange(0, n as int) =~= l.interior@);
    }
    Location { parents: l.parents, interior }
}

pub fn clone_asset_id(a: &AssetId) -> (r: AssetId)
    ensures
        r@ == a@,
{
    match a {
        AssetId::Concrete(l) => AssetId::Concrete(clone_location(l)),
        AssetId::Abstract(n) => AssetId::Abstract(*n),
    }
}

/// Index of the class holding `id`, if any.
fn class_find(v: &Vec<AssetClass>, id: &AssetId) -> (r: Option<usize>)
    requires
        keys_unique(v@.map_values(|c: AssetClass| class_model(c))),
    ensures
        ({
            let m = v@.map_values(|c: AssetClass| class_model(c));
            match r {
                Some(i) => i < v@.len() && v@[i as int].id@ == id@ && kv_get(m, id@) == Some(
                    class_model(v@[i as int]).1,
                ),
                None => kv_get(m, id@) is None,
            }
        }),
{
    let ghost m = v@.map_values(|c: AssetClass| class_model(c));
    let n = v.len();
    let mut i: usize = 0;
    while i < n
        invariant
            i <= n,
            n == v.len(),
            m == v@.map_values(|c: AssetClass| class_model(c)),
            keys_unique(m),
            forall|k: int| 0 <= k < i ==> (#[trigger] m[k]).0 != id@,
        decreases n - i,
    {
        if crate::asset::asset_id_eq(&v[i].id, id) {
            proof {
                assert(m[i as int].0 == id@);
                lemma_kv_get_present(m, i as int);
            }
            return Some(i);
        }
        proof {
            assert(m[i as int].0 == v@[i as int].id@);
        }
        i += 1;
    }
    proof {
        lemma_kv_get_absent(m, id@);
    }
    None
}

/// Replaces the class at `i` with one keyed by the same id.
fn class_update(
    v: &mut Vec<AssetClass>,
    i: usize,
    issuer: AccountId,
    issuance: u128,
    balances: Vec<(AccountId, u128)>,
)
    requires
        keys_unique(old(v)@.map_values(|c: AssetClass| class_model(c))),
        i < old(v)@.len(),
        keys_unique(balances@),
    ensures
        ({
            let m = old(v)@.map_values(|c: AssetClass| class_model(c));
            let id = old(v)@[i as int].id@;
            let data = AssetClassData { issuer, issuance, balances: balances@ };
            &&& final(v)@.map_values(|c: AssetClass| class_model(c)) == kv_put(m, id, data)
            &&& keys_unique(final(v)@.map_values(|c: AssetClass| class_model(c)))
        }),
{
    let ghost pre = v@;
    let ghost m = v@.map_values(|c: AssetClass| class_model(c));
    let ghost id = v@[i as int].id@;
    let ghost data = AssetClassData { issuer, issuance, balances: balances@ };
    let new_id = clone_asset_id(&v[i].id);
    v[i] = AssetClass { id: new_id, issuer, issuance, balances };
    proof {
        lemma_kv_put_unique(m, id, data);
        assert(kv_contains(m, id)) by {
            assert(m[i as int].0 == id);
        }
        let f = |e: (AssetIdModel, AssetClassData)|
            if e.0 == id {
                (id, data)
            } else {
                e
            };
        let post = v@.map_values(|c: AssetClass| class_model(c));
        assert forall|k: int| 0 <= k < post.len() implies post[k] == m.map_values(f)[k] by {
            if k != i as int {
                assert(m[k].0 != id);
                assert(v@[k] == pre[k]);
            }
        }
        assert(post =~= m.map_values(f));
    }
}

impl Chain {
    /// A fresh chain with empty ledgers and queues.
    pub fn new(id: ChainId, network: NetworkId, has_native: bool, barrier: Barrier) -> (r: Chain)
        ensures
            r@.inv(),
            r@.id == id,
            r@.network == network,
            r@.has_native == has_native,
            r@.barrier == barrier,
            r@.balances.len() == 0,
            r@.assets.len() == 0,
            r@.storage.len() == 0,
            r@.events.len() == 0,
            r@.inbound.len() == 0,
            r@.outbound.len() == 0,
    {
        let c = Chain {
            id,
            network,
            has_native,
            barrier,
            balances: Vec::new(),
            assets: Vec::new(),
            storage: Vec::new(),
            events: Vec::new(),
            inbound: Vec::new(),
            outbound: Vec::new(),
        };
        proof {
            assert(c@.assets =~= Seq::<(AssetIdModel, AssetClassData)>::empty());
            assert(c@.inbound =~= Seq::<(ChainId, Seq<u8>)>::empty());
            assert(c@.outbound =~= Seq::<(LocModel, Seq<u8>)>::empty());
        }
        c
    }

    /// Native balance of `who`.
    pub fn free_balance(&self, who: &AccountId) -> (r: u128)
        requires
            self@.inv(),
        ensures
            r == bal0(self@.balances, *who),
    {
        bal_get(&self.balances, who)
    }

    /// Ledger balance of `who` in the class of `id`.
    pub fn asset_balance(&self, id: &AssetId, who: &AccountId) -> (r: u128)
        requires
            self@.inv(),
        ensures
            r == class_bal(self@.assets, id@, *who),
    {
        match class_find(&self.assets, id) {
            Some(i) => {
                proof {
                    let m = self.assets@.map_values(|c: AssetClass| class_model(c));
                    assert(m[i as int] == class_model(self.assets@[i as int]));
                }
                bal_get(&self.assets[i].balances, who)
            },
            None => 0,
        }
    }

    /// Units of the class of `id` in existence.
    pub fn total_issuance(&self, id: &AssetId) -> (r: u128)
        requires
            self@.inv(),
        ensures
            r == class_issuance(self@.assets, id@),
    {
        match class_find(&self.assets, id) {
            Some(i) => self.assets[i].issuance,
            None => 0,
        }
    }

    /// The same quantity as `total_issuance`, under the multi-asset
    /// ledger's other customary name.
    pub fn total_supply(&self, id: &AssetId) -> (r: u128)
        requires
            self@.inv(),
        ensures
            r == class_issuance(self@.assets, id@),
    {
        self.total_issuance(id)
    }

    /// The value stored under `acc`, zero when none was stored.
    pub fn get_test_stored(&self, acc: &AccountId) -> (r: u64)
        requires
            self@.inv(),
        ensures
            r == stored0(self@.storage, *acc),
    {
        stored_get(&self.storage, acc)
    }

    /// Genesis: set `who`'s native balance outright.
    pub fn genesis_balance(&mut self, who: &AccountId, amount: u128)
        requires
            old(self)@.inv(),
        ensures
            final(self)@ == (ChainModel {
                balances: kv_put(old(self)@.balances, *who, amount),
                ..old(self)@
            }),
            final(self)@.inv(),
    {
        bal_put(&mut self.balances, who, amount);
    }

    /// Genesis: create an empty asset class with its issuer. A class
    /// already keyed by `id` is replaced.
    pub fn genesis_asset(&mut self, id: AssetId, issuer: &AccountId)
        requires
            old(self)@.inv(),
        ensures
            final(self)@ == (ChainModel {
                assets: kv_put(
                    old(self)@.assets,
                    id@,
                    AssetClassData { issuer: *issuer, issuance: 0, balances: Seq::empty() },
                ),
                ..old(self)@
            }),
            final(self)@.inv(),
    {
        let ghost m = self.assets@.map_values(|c: AssetClass| class_model(c));
        let ghost data = AssetClassData { issuer: *issuer, issuance: 0, balances: Seq::empty() };
        proof {
            lemma_class_put_inv(m, id@, data);
        }
        match class_find(&self.assets, &id) {
            Some(i) => {
                class_update(&mut self.assets, i, *issuer, 0, Vec::new());
                proof {
                    assert(data.balances =~= Seq::<(AccountId, u128)>::empty());
                }
            },
            None => {
                let ghost pre = self.assets@;
                self.assets.push(
                    AssetClass { id, issuer: *issuer, issuance: 0, balances: Vec::new() },
                );
                proof {
                    let post = self.assets@.map_values(|c: AssetClass| class_model(c));
                    lemma_kv_get_some_contains(m, id@);
                    assert(!kv_contains(m, id@));
                    assert(post =~= m.push((id@, data)));
                    assert forall|t: int| 0 <= t < post.len() implies keys_unique(
                        (#[trigger] post[t]).1.balances,
                    ) by {
                        if t < pre.len() {
                            assert(post[t] == m[t]);
                        }
                    }
                }
            },
        }
    }

    /// Genesis: endow `who` with `amount` units of the class of `id`,
    /// counting them into its issuance. `false` when the class does not
    /// exist or the issuance would overflow; nothing changes then.
    pub fn genesis_asset_balance(&mut self, id: &AssetId, who: &AccountId, amount: u128) -> (r:
        bool)
        requires
            old(self)@.inv(),
        ensures
            final(self)@.inv(),
            ({
                match class_of(old(self)@.assets, id@) {
                    Some(d) => {
                        if d.issuance + amount <= u128::MAX && bal0(d.balances, *who) + amount
                            <= u128::MAX {
                            r == true && final(self)@ == (ChainModel {
                                assets: kv_put(
                                    old(self)@.assets,
                                    id@,
                                    AssetClassData {
                                        issuer: d.issuer,
                                        issuance: (d.issuance + amount) as u128,
                                        balances: kv_put(
                                            d.balances,
                                            *who,
                                            (bal0(d.balances, *who) + amount) as u128,
                                        ),
                                    },
                                ),
                                ..old(self)@
                            })
                        } else {
                            r == false && final(self)@ == old(self)@
                        }
                    },
                    None => r == false && final(self)@ == old(self)@,
                }
            }),
    {
        let ghost m0 = self.assets@.map_values(|c: AssetClass| class_model(c));
        let i = match class_find(&self.assets, id) {
            Some(i) => i,
            None => {
                return false;
            },
        };
        proof {
            assert(m0[i as int] == class_model(self.assets@[i as int]));
        }
        let new_issuance = match self.assets[i].issuance.checked_add(amount) {
            Some(x) => x,
            None => {
                return false;
            },
        };
        let old_bal = bal_get(&self.assets[i].balances, who);
        let new_bal = match old_bal.checked_add(amount) {
            Some(x) => x,
            None => {
                return false;
            },
        };
        let issuer = self.assets[i].issuer;
        let mut balances = clone_balances(&self.assets[i].balances);
        bal_put(&mut balances, who, new_bal);
        let ghost data = AssetClassData { issuer, issuance: new_issuance, balances: balances@ };
        proof {
            lemma_class_put_inv(m0, id@, data);
        }
        class_update(&mut self.assets, i, issuer, new_issuance, balances);
        true
    }

    /// Re-keys the chain as the parachain with the given id.
    pub fn set_para_id(&mut self, para_id: u32)
        requires
            old(self)@.inv(),
        ensures
            final(self)@.inv(),
            final(self)@ == (ChainModel { id: ChainId::Para(para_id), ..old(self)@ }),
    {
        self.id = ChainId::Para(para_id);
    }

    /// Moves native balance from `from` to `to`, atomically: on a short
    /// balance or an overflowing credit nothing changes.
    pub fn native_transfer(&mut self, from: &AccountId, to: &AccountId, value: u128) -> (r: bool)
        requires
            old(self)@.inv(),
        ensures
            final(self)@.inv(),
            (final(self)@, r) == native_transfer_spec(old(self)@, *from, *to, value),
    {
        let bf = bal_get(&self.balances, from);
        if bf < value {
            return false;
        }
        let bt_pre = bal_get(&self.balances, to);
        let bt_mid = if crate::account::account_eq(to, from) {
            bf - value
        } else {
            bt_pre
        };
        proof {
            lemma_kv_get_put(self.balances@, *from, (bf - value) as u128, *to);
        }
        if bt_mid > u128::MAX - value {
            return false;
        }
        bal_put(&mut self.balances, from, bf - value);
        bal_put(&mut self.balances, to, bt_mid + value);
        true
    }

    /// Moves units of the class of `id` from `from` to `to`, atomically;
    /// the class's issuance is unchanged.
    pub fn asset_transfer(&mut self, id: &AssetId, from: &AccountId, to: &AccountId, amount: u128)
        -> (r: bool)
        requires
            old(self)@.inv(),
        ensures
            final(self)@.inv(),
            (final(self)@, r) == asset_transfer_spec(old(self)@, id@, *from, *to, amount),
    {
        let ghost m0 = self.assets@.map_values(|c: AssetClass| class_model(c));
        let i = match class_find(&self.assets, id) {
            Some(i) => i,
            None => {
                return false;
            },
        };
        proof {
            assert(m0[i as int] == class_model(self.assets@[i as int]));
        }
        let bf = bal_get(&self.assets[i].balances, from);
        if bf < amount {
            return false;
        }
        let bt_pre = bal_get(&self.assets[i].balances, to);
        let bt_mid = if crate::account::account_eq(to, from) {
            bf - amount
        } else {
            bt_pre
        };
        proof {
            lemma_kv_get_put(
                self.assets@[i as int].balances@,
                *from,
                (bf - amount) as u128,
                *to,
            );
        }
        if bt_mid > u128::MAX - amount {
            return false;
        }
        let issuer = self.assets[i].issuer;
        let issuance = self.assets[i].issuance;
        let mut balances = clone_balances(&self.assets[i].balances);
        bal_put(&mut balances, from, bf - amount);
        bal_put(&mut balances, to, bt_mid + amount);
        let ghost data = AssetClassData { issuer, issuance, balances: balances@ };
        proof {
            lemma_class_put_inv(m0, id@, data);
        }
        class_update(&mut self.assets, i, issuer, issuance, balances);
        true
    }

    /// Creates `amount` units of the class of `id` for `to`; only the
    /// class's issuer may mint, and issuance grows by the same amount.
    pub fn asset_mint(&mut self, signer: &AccountId, id: &AssetId, to: &AccountId, amount: u128)
        -> (r: bool)
        requires
            old(self)@.inv(),
        ensures
            final(self)@.inv(),
            (final(self)@, r) == asset_mint_spec(old(self)@, *signer, id@, *to, amount),
    {
        let ghost m0 = self.assets@.map_values(|c: AssetClass| class_model(c));
        let i = match class_find(&self.assets, id) {
            Some(i) => i,
            None => {
                return false;
            },
        };
        proof {
            assert(m0[i as int] == class_model(self.assets@[i as int]));
        }
        if !crate::account::account_eq(signer, &self.assets[i].issuer) {
            return false;
        }
        let new_issuance = match self.assets[i].issuance.checked_add(amount) {
            Some(x) => x,
            None => {
                return false;
            },
        };
        let bt = bal_get(&self.assets[i].balances, to);
        let new_bal = match bt.checked_add(amount) {
            Some(x) => x,
            None => {
                return false;
            },
        };
        let issuer = self.assets[i].issuer;
        let mut balances = clone_balances(&self.assets[i].balances);
        bal_put(&mut balances, to, new_bal);
        let ghost data = AssetClassData { issuer, issuance: new_issuance, balances: balances@ };
        proof {
            lemma_class_put_inv(m0, id@, data);
        }
        class_update(&mut self.assets, i, issuer, new_issuance, balances);
        true
    }

    /// Destroys `amount` units of the class of `id` held by `who`; only
    /// the class's issuer may burn, and issuance shrinks by the same
    /// amount.
    pub fn asset_burn(&mut self, signer: &AccountId, id: &AssetId, who: &AccountId, amount: u128)
        -> (r: bool)
        requires
            old(self)@.inv(),
        ensures
            final(self)@.inv(),
            (final(self)@, r) == asset_burn_spec(old(self)@, *signer, id@, *who, amount),
    {
        let ghost m0 = self.assets@.map_values(|c: AssetClass| class_model(c));
        let i = match class_find(&self.assets, id) {
            Some(i) => i,
            None => {
                return false;
            },
        };
        proof {
            assert(m0[i as int] == class_model(self.assets@[i as int]));
        }
        if !crate::account::account_eq(signer, &self.assets[i].issuer) {
            return false;
        }
        let bw = bal_get(&self.assets[i].balances, who);
        if bw < amount {
            return false;
        }
        if self.assets[i].issuance < amount {
            return false;
        }
        let issuer = self.assets[i].issuer;
        let new_issuance = self.assets[i].issuance - amount;
        let mut balances = clone_balances(&self.assets[i].balances);
        bal_put(&mut balances, who, bw - amount);
        let ghost data = AssetClassData { issuer, issuance: new_issuance, balances: balances@ };
        proof {
            lemma_class_put_inv(m0, id@, data);
        }
        class_update(&mut self.assets, i, issuer, new_issuance, balances);
        true
    }

    /// Dispatches a decoded call under `signer`'s authority, as the
    /// local runtime would. `true` means the call took effect; on
    /// `false` the chain is unchanged.
    pub fn dispatch_call(&mut self, signer: &AccountId, call: &Call) -> (r: bool)
        requires
            old(self)@.inv(),
        ensures
            final(self)@.inv(),
            (final(self)@, r) == dispatch_spec(old(self)@, *signer, call@),
    {
        match call {
            Call::BalanceTransferKeepAlive { dest, value } => self.native_transfer(
                signer,
                dest,
                *value,
            ),
            Call::AssetTransferKeepAlive { id, target, amount } => self.asset_transfer(
                id,
                signer,
                target,
                *amount,
            ),
            Call::AssetMint { id, beneficiary, amount } => self.asset_mint(
                signer,
                id,
                beneficiary,
                *amount,
            ),
            Call::AssetBurn { id, who, amount } => self.asset_burn(signer, id, who, *amount),
            Call::StoreValue { acc, num } => {
                stored_put(&mut self.storage, acc, *num);
                true
            },
            Call::VaneTransfer { payee, amount, asset_id } => self.asset_transfer(
                asset_id,
                signer,
                payee,
                *amount,
            ),
        }
    }
}

/// What a native transfer does: debit `from`, credit `to`, atomically.
/// `false` — and no change — when `from`'s balance is short or `to`'s
/// would overflow.
pub open spec fn native_transfer_spec(
    c: ChainModel,
    from: AccountId,
    to: AccountId,
    value: u128,
) -> (ChainModel, bool) {
    let bf = bal0(c.balances, from);
    if bf < value {
        (c, false)
    } else {
        let b1 = kv_put(c.balances, from, (bf - value) as u128);
        let bt = bal0(b1, to);
        if bt + value > u128::MAX {
            (c, false)
        } else {
            (ChainModel { balances: kv_put(b1, to, (bt + value) as u128), ..c }, true)
        }
    }
}

/// What a ledger-asset transfer does: move units between two accounts of
/// one class, leaving its issuance unchanged.
pub open spec fn asset_transfer_spec(
    c: ChainModel,
    id: AssetIdModel,
    from: AccountId,
    to: AccountId,
    amount: u128,
) -> (ChainModel, bool) {
    match class_of(c.assets, id) {
        None => (c, false),
        Some(d) => {
            let bf = bal0(d.balances, from);
            if bf < amount {
                (c, false)
            } else {
                let b1 = kv_put(d.balances, from, (bf - amount) as u128);
                let bt = bal0(b1, to);
                if bt + amount > u128::MAX {
                    (c, false)
                } else {
                    let data = AssetClassData {
                        issuer: d.issuer,
                        issuance: d.issuance,
                        balances: kv_put(b1, to, (bt + amount) as u128),
                    };
                    (ChainModel { assets: kv_put(c.assets, id, data), ..c }, true)
                }
            }
        },
    }
}

/// What a mint does: create units for `to` and count them into the
/// class's issuance; only the class's issuer may mint.
pub open spec fn asset_mint_spec(
    c: ChainModel,
    signer: AccountId,
    id: AssetIdModel,
    to: AccountId,
    amount: u128,
) -> (ChainModel, bool) {
    match class_of(c.assets, id) {
        None => (c, false),
        Some(d) => {
            if signer != d.issuer || d.issuance + amount > u128::MAX || bal0(d.balances, to)
                + amount > u128::MAX {
                (c, false)
            } else {
                let data = AssetClassData {
                    issuer: d.issuer,
                    issuance: (d.issuance + amount) as u128,
                    balances: kv_put(
                        d.balances,
                        to,
                        (bal0(d.balances, to) + amount) as u128,
                    ),
                };
                (ChainModel { assets: kv_put(c.assets, id, data), ..c }, true)
            }
        },
    }
}

/// What a burn does: destroy units held by `who` and take them out of
/// the class's issuance; only the class's issuer may burn.
pub open spec fn asset_burn_spec(
    c: ChainModel,
    signer: AccountId,
    id: AssetIdModel,
    who: AccountId,
    amount: u128,
) -> (ChainModel, bool) {
    match class_of(c.assets, id) {
        None => (c, false),
        Some(d) => {
            if signer != d.issuer || bal0(d.balances, who) < amount || d.issuance < amount {
                (c, false)
            } else {
                let data = AssetClassData {
                    issuer: d.issuer,
                    issuance: (d.issuance - amount) as u128,
                    balances: kv_put(
                        d.balances,
                        who,
                        (bal0(d.balances, who) - amount) as u128,
                    ),
                };
                (ChainModel { assets: kv_put(c.assets, id, data), ..c }, true)
            }
        },
    }
}

/// What dispatching a local call under a signed origin does.
pub open spec fn dispatch_spec(c: ChainModel, signer: AccountId, call: CallModel) -> (
    ChainModel,
    bool,
) {
    match call {
        CallModel::BalanceTransferKeepAlive { dest, value } => native_transfer_spec(
            c,
            signer,
            dest,
            value,
        ),
        CallModel::AssetTransferKeepAlive { id, target, amount } => asset_transfer_spec(
            c,
            id,
            signer,
            target,
            amount,
        ),
        CallModel::AssetMint { id, beneficiary, amount } => asset_mint_spec(
            c,
            signer,
            id,
            beneficiary,
            amount,
        ),
        CallModel::AssetBurn { id, who, amount } => asset_burn_spec(c, signer, id, who, amount),
        CallModel::StoreValue { acc, num } => (
            ChainModel { storage: kv_put(c.storage, acc, num), ..c },
            true,
        ),
        CallModel::VaneTransfer { payee, amount, asset_id } => asset_transfer_spec(
            c,
            asset_id,
            signer,
            payee,
            amount,
        ),
    }
}

/// Reads an account's balance and the issuance of one asset class, or
/// `None` when the class does not exist.
pub fn class_read(c: &Chain, id: &AssetId, who: &AccountId) -> (r: Option<(u128, u128)>)
    requires
        c@.inv(),
    ensures
        match class_of(c@.assets, id@) {
            Some(d) => r == Some((bal0(d.balances, *who), d.issuance)),
            None => r is None,
        },
{
    match class_find(&c.assets, id) {
        Some(i) => {
            proof {
                let m = c.assets@.map_values(|x: AssetClass| class_model(x));
                assert(m[i as int] == class_model(c.assets@[i as int]));
            }
            Some((bal_get(&c.assets[i].balances, who), c.assets[i].issuance))
        },
        None => None,
    }
}

/// Writes `who`'s native balance outright.
pub fn chain_bal_put(c: &mut Chain, who: &AccountId, x: u128)
    requires
        old(c)@.inv(),
    ensures
        final(c)@.inv(),
        final(c)@ == (ChainModel { balances: kv_put(old(c)@.balances, *who, x), ..old(c)@ }),
{
    bal_put(&mut c.balances, who, x);
}

/// Debits `amount` units of the class of `id` from `who`; a foreign
/// asset is burned out of the class's issuance too. `false` — and no
/// change — when the class is missing, the balance is short, or a burn
/// would exceed issuance.
pub fn class_withdraw(c: &mut Chain, id: &AssetId, amount: u128, who: &AccountId, foreign: bool)
    -> (r: bool)
    requires
        old(c)@.inv(),
    ensures
        final(c)@.inv(),
        match class_of(old(c)@.assets, id@) {
            None => r == false && final(c)@ == old(c)@,
            Some(d) => {
                let bw = bal0(d.balances, *who);
                if bw < amount || (foreign && d.issuance < amount) {
                    r == false && final(c)@ == old(c)@
                } else {
                    r == true && final(c)@ == (ChainModel {
                        assets: kv_put(
                            old(c)@.assets,
                            id@,
                            AssetClassData {
                                issuer: d.issuer,
                                issuance: if foreign {
                                    (d.issuance - amount) as u128
                                } else {
                                    d.issuance
                                },
                                balances: kv_put(d.balances, *who, (bw - amount) as u128),
                            },
                        ),
                        ..old(c)@
                    })
                }
            },
        },
{
    let ghost m0 = c.assets@.map_values(|x: AssetClass| class_model(x));
    let i = match class_find(&c.assets, id) {
        Some(i) => i,
        None => {
            return false;
        },
    };
    proof {
        assert(m0[i as int] == class_model(c.assets@[i as int]));
    }
    let bw = bal_get(&c.assets[i].balances, who);
    if bw < amount {
        return false;
    }
    if foreign && c.assets[i].issuance < amount {
        return false;
    }
    let issuer = c.assets[i].issuer;
    let new_issuance = if foreign {
        c.assets[i].issuance - amount
    } else {
        c.assets[i].issuance
    };
    let mut balances = clone_balances(&c.assets[i].balances);
    bal_put(&mut balances, who, bw - amount);
    let ghost data = AssetClassData { issuer, issuance: new_issuance, balances: balances@ };
    proof {
        lemma_class_put_inv(m0, id@, data);
    }
    class_update(&mut c.assets, i, issuer, new_issuance, balances);
    true
}

/// Credits `amount` units of the class of `id` to `who`; a foreign asset
/// is minted into the class's issuance too. `false` — and no change —
/// when the class is missing or a balance or issuance would overflow.
pub fn class_deposit(c: &mut Chain, id: &AssetId, amount: u128, who: &AccountId, foreign: bool)
    -> (r: bool)
    requires
        old(c)@.inv(),
    ensures
        final(c)@.inv(),
        match class_of(old(c)@.assets, id@) {
            None => r == false && final(c)@ == old(c)@,
            Some(d) => {
                let bw = bal0(d.balances, *who);
                if bw + amount > u128::MAX || (foreign && d.issuance + amount > u128::MAX) {
                    r == false && final(c)@ == old(c)@
                } else {
                    r == true && final(c)@ == (ChainModel {
                        assets: kv_put(
                            old(c)@.assets,
                            id@,
                            AssetClassData {
                                issuer: d.issuer,
                                issuance: if foreign {
                                    (d.issuance + amount) as u128
                                } else {
                                    d.issuance
                                },
                                balances: kv_put(d.balances, *who, (bw + amount) as u128),
                            },
                        ),
                        ..old(c)@
                    })
                }
            },
        },
{
    let ghost m0 = c.assets@.map_values(|x: AssetClass| class_model(x));
    let i = match class_find(&c.assets, id) {
        Some(i) => i,
        None => {
            return false;
        },
    };
    proof {
        assert(m0[i as int] == class_model(c.assets@[i as int]));
    }
    let bw = bal_get(&c.assets[i].balances, who);
    if bw > u128::MAX - amount {
        return false;
    }
    if foreign && c.assets[i].issuance > u128::MAX - amount {
        return false;
    }
    let issuer = c.assets[i].issuer;
    let new_issuance = if foreign {
        c.assets[i].issuance + amount
    } else {
        c.assets[i].issuance
    };
    let mut balances = clone_balances(&c.assets[i].balances);
    bal_put(&mut balances, who, bw + amount);
    let ghost data = AssetClassData { issuer, issuance: new_issuance, balances: balances@ };
    proof {
        lemma_class_put_inv(m0, id@, data);
    }
    class_update(&mut c.assets, i, issuer, new_issuance, balances);
    true
}

/// A copy of a balance vector.
fn clone_balances(v: &Vec<(AccountId, u128)>) -> (r: Vec<(AccountId, u128)>)
    ensures
        r@ == v@,
{
    let mut out: Vec<(AccountId, u128)> = Vec::new();
    let n = v.len();
    let mut i: usize = 0;
    while i < n
        invariant
            i <= n,
            n == v.len(),
            out@ == v@.subrange(0, i as int),
        decreases n - i,
    {
        out.push(v[i]);
        proof {
            assert(out@ =~= v@.subrange(0, i + 1 as int));
        }
        i += 1;
    }
    proof {
        assert(v@.subrange(0, n as int) =~= v@);
    }
    out
}

/// Replacing or appending a class keeps every ledger invariant, provided
/// the new class's balances have unique keys.
pub proof fn lemma_class_put_inv(
    m: Seq<(AssetIdModel, AssetClassData)>,
    id: AssetIdModel,
    data: AssetClassData,
)
    requires
        keys_unique(m),
        forall|t: int| 0 <= t < m.len() ==> keys_unique((#[trigger] m[t]).1.balances),
        keys_unique(data.balances),
    ensures
        keys_unique(kv_put(m, id, data)),
        forall|t: int|
            0 <= t < kv_put(m, id, data).len() ==> keys_unique(
                (#[trigger] kv_put(m, id, data)[t]).1.balances,
            ),
{
    lemma_kv_put_unique(m, id, data);
    let p = kv_put(m, id, data);
    assert forall|t: int| 0 <= t < p.len() implies keys_unique((#[trigger] p[t]).1.balances) by {
        if kv_contains(m, id) {
            assert(p[t] == if m[t].0 == id {
                (id, data)
            } else {
                m[t]
            });
        } else {
            if t < m.len() {
                assert(p[t] == m[t]);
            } else {
                assert(p[t] == (id, data));
            }
        }
    }
}

} // verus!
