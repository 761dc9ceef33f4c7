//! The holding register: the transient multiset of fungible assets one
//! message execution accumulates and drains. Amounts are unsigned and
//! every removal is checked first, so no asset's quantity ever goes
//! negative; taking a definite list of assets is all-or-nothing.

use vstd::prelude::*;
use crate::asset::{Asset, AssetFilter, AssetId, AssetIdModel, FilterModel, Fungibility};
use crate::chain::clone_asset_id;
use crate::codec::asset_id_encodable;
use crate::kv::{
    keys_unique,
    kv_contains,
    kv_get,
    kv_put,
    lemma_kv_get_absent,
    lemma_kv_get_present,
    lemma_kv_put_unique,
};

verus! {

/// Quantity of `id` a holding has; zero when absent.
pub open spec fn hold0(h: Seq<(AssetIdModel, u128)>, id: AssetIdModel) -> u128 {
    match kv_get(h, id) {
        Some(v) => v,
        None => 0,
    }
}

/// Every id keyed once, and every id fit to travel in a message.
pub open spec fn hold_inv(h: Seq<(AssetIdModel, u128)>) -> bool {
    &&& keys_unique(h)
    &&& forall|i: int| 0 <= i < h.len() ==> asset_id_encodable((#[trigger] h[i]).0)
}

/// The model of raw holding entries.
pub open spec fn hold_view(s: Seq<(AssetId, u128)>) -> Seq<(AssetIdModel, u128)> {
    s.map_values(|p: (AssetId, u128)| (p.0@, p.1))
}

/// Adding saturates at the largest representable amount.
pub open spec fn hold_add_spec(h: Seq<(AssetIdModel, u128)>, id: AssetIdModel, x: u128) -> Seq<
    (AssetIdModel, u128),
> {
    let cur = hold0(h, id);
    let v = if cur + x > u128::MAX {
        u128::MAX
    } else {
        (cur + x) as u128
    };
    kv_put(h, id, v)
}

/// Taking a definite list of assets, in order, or nothing: `None` exactly
/// when some listed asset is non-fungible or not fully held at its turn.
pub open spec fn take_definite_spec(
    h: Seq<(AssetIdModel, u128)>,
    assets: Seq<crate::asset::AssetModel>,
) -> Option<Seq<(AssetIdModel, u128)>>
    decreases assets.len(),
{
    if assets.len() == 0 {
        Some(h)
    } else {
        match assets.first().fun {
            Fungibility::Fungible(amount) => {
                let cur = hold0(h, assets.first().id);
                if cur < amount {
                    None
                } else {
                    take_definite_spec(
                        kv_put(h, assets.first().id, (cur - amount) as u128),
                        assets.drop_first(),
                    )
                }
            },
            Fungibility::NonFungible(_) => None,
        }
    }
}

/// The entries a wildcard filter selects, in holding order.
pub open spec fn wild_selected(h: Seq<(AssetIdModel, u128)>, f: FilterModel) -> Seq<
    (AssetIdModel, u128),
>
    decreases h.len(),
{
    if h.len() == 0 {
        Seq::empty()
    } else {
        wild_selected(h.drop_last(), f) + if f.wild_admits(h.last().0) {
            seq![h.last()]
        } else {
            Seq::empty()
        }
    }
}

/// The entries a wildcard filter leaves behind, in holding order.
pub open spec fn wild_kept(h: Seq<(AssetIdModel, u128)>, f: FilterModel) -> Seq<
    (AssetIdModel, u128),
>
    decreases h.len(),
{
    if h.len() == 0 {
        Seq::empty()
    } else {
        wild_kept(h.drop_last(), f) + if f.wild_admits(h.last().0) {
            Seq::empty()
        } else {
            seq![h.last()]
        }
    }
}

/// Both parts of a wildcard split take their entries from the holding:
/// same keys at most once, same encodable ids.
pub proof fn lemma_wild_split_entries(h: Seq<(AssetIdModel, u128)>, f: FilterModel)
    ensures
        forall|i: int|
            0 <= i < wild_selected(h, f).len() ==> exists|j: int|
                0 <= j < h.len() && h[j] == #[trigger] wild_selected(h, f)[i],
        forall|i: int|
            0 <= i < wild_kept(h, f).len() ==> exists|j: int|
                0 <= j < h.len() && h[j] == #[trigger] wild_kept(h, f)[i],
    decreases h.len(),
{
    if h.len() > 0 {
        lemma_wild_split_entries(h.drop_last(), f);
        let s = wild_selected(h, f);
        assert forall|i: int| 0 <= i < s.len() implies exists|j: int|
            0 <= j < h.len() && h[j] == #[trigger] s[i] by {
            if i < wild_selected(h.drop_last(), f).len() {
                assert(s[i] == wild_selected(h.drop_last(), f)[i]);
                let j = choose|j: int|
                    0 <= j < h.drop_last().len() && h.drop_last()[j] == wild_selected(
                        h.drop_last(),
                        f,
                    )[i];
                assert(h[j] == s[i]);
            } else {
                assert(s[i] == h.last());
                assert(h[h.len() - 1] == s[i]);
            }
        }
        let k = wild_kept(h, f);
        assert forall|i: int| 0 <= i < k.len() implies exists|j: int|
            0 <= j < h.len() && h[j] == #[trigger] k[i] by {
            if i < wild_kept(h.drop_last(), f).len() {
                assert(k[i] == wild_kept(h.drop_last(), f)[i]);
                let j = choose|j: int|
                    0 <= j < h.drop_last().len() && h.drop_last()[j] == wild_kept(
                        h.drop_last(),
                        f,
                    )[i];
                assert(h[j] == k[i]);
            } else {
                assert(k[i] == h.last());
                assert(h[h.len() - 1] == k[i]);
            }
        }
    }
}

/// Neither part of a wildcard split is longer than the holding.
pub proof fn lemma_wild_split_len(h: Seq<(AssetIdModel, u128)>, f: FilterModel)
    ensures
        wild_selected(h, f).len() <= h.len(),
        wild_kept(h, f).len() <= h.len(),
    decreases h.len(),
{
    if h.len() > 0 {
        lemma_wild_split_len(h.drop_last(), f);
    }
}

/// What a wildcard leaves keeps the holding's invariant.
pub proof fn lemma_wild_kept_inv(h: Seq<(AssetIdModel, u128)>, f: FilterModel)
    requires
        hold_inv(h),
    ensures
        hold_inv(wild_kept(h, f)),
    decreases h.len(),
{
    if h.len() > 0 {
        assert(keys_unique(h.drop_last())) by {
            assert(forall|i: int|
                0 <= i < h.drop_last().len() ==> h.drop_last()[i] == (#[trigger] h[i]));
        }
        lemma_wild_kept_inv(h.drop_last(), f);
        let k = wild_kept(h, f);
        let kd = wild_kept(h.drop_last(), f);
        lemma_wild_split_entries(h.drop_last(), f);
        if !f.wild_admits(h.last().0) {
            assert forall|i: int, j: int| 0 <= i < j < k.len() implies (#[trigger] k[i]).0 != (
            #[trigger] k[j]).0 by {
                if j < kd.len() {
                    assert(k[i] == kd[i] && k[j] == kd[j]);
                } else {
                    assert(k[j] == h.last());
                    assert(k[i] == kd[i]);
                    let t = choose|t: int|
                        0 <= t < h.drop_last().len() && h.drop_last()[t] == kd[i];
                    assert(h[t] == kd[i]);
                    assert(h[t].0 != h[h.len() - 1].0);
                }
            }
            assert forall|i: int| 0 <= i < k.len() implies asset_id_encodable(
                (#[trigger] k[i]).0,
            ) by {
                if i < kd.len() {
                    assert(k[i] == kd[i]);
                } else {
                    assert(k[i] == h.last());
                    assert(h[h.len() - 1] == h.last());
                }
            }
        } else {
            assert(k =~= kd);
        }
    }
}

/// The transient per-message register of fungible assets.
#[derive(Debug)]
pub struct Holding {
    pub entries: Vec<(AssetId, u128)>,
}

impl View for Holding {
    type V = Seq<(AssetIdModel, u128)>;

    open spec fn view(&self) -> Seq<(AssetIdModel, u128)> {
        hold_view(self.entries@)
    }
}

fn entries_get(v: &Vec<(AssetId, u128)>, id: &AssetId) -> (r: u128)
    requires
        keys_unique(hold_view(v@)),
    ensures
        r == hold0(hold_view(v@), id@),
{
    let ghost m = hold_view(v@);
    let n = v.len();
    let mut i: usize = 0;
    while i < n
        invariant
            i <= n,
            n == v.len(),
            m == hold_view(v@),
            keys_unique(m),
            forall|k: int| 0 <= k < i ==> (#[trigger] m[k]).0 != id@,
        decreases n - i,
    {
        if crate::asset::asset_id_eq(&v[i].0, id) {
            proof {
                assert(m[i as int].0 == id@);
                lemma_kv_get_present(m, i as int);
            }
            return v[i].1;
        }
        proof {
            assert(m[i as int].0 == v@[i as int].0@);
        }
        i += 1;
    }
    proof {
        lemma_kv_get_absent(m, id@);
    }
    0
}

fn entries_put(v: &mut Vec<(AssetId, u128)>, id: &AssetId, x: u128)
    requires
        keys_unique(hold_view(old(v)@)),
    ensures
        hold_view(final(v)@) == kv_put(
            hold_view(old(v)@),
            id@,
            x,
        ),
        keys_unique(hold_view(final(v)@)),
        forall|i: int|
            0 <= i < kv_put(hold_view(old(v)@), id@, x).len()
                ==> (#[trigger] kv_put(
                hold_view(old(v)@),
                id@,
                x,
            )[i]).0 == id@ || kv_contains(
                hold_view(old(v)@),
                kv_put(hold_view(old(v)@), id@, x)[i].0,
            ),
{
    let ghost m = hold_view(v@);
    proof {
        lemma_kv_put_unique(m, id@, x);
    }
    let n = v.len();
    let mut i: usize = 0;
    while i < n
        invariant
            i <= n,
            n == v.len(),
            v@ == old(v)@,
            m == hold_view(v@),
            keys_unique(m),
            forall|k: int| 0 <= k < i ==> (#[trigger] m[k]).0 != id@,
        decreases n - i,
    {
        if crate::asset::asset_id_eq(&v[i].0, id) {
            let ghost pre = v@;
            let ghost idx = i as int;
            let nid = clone_asset_id(id);
            v[i] = (nid, x);
            proof {
                assert(kv_contains(m, id@)) by {
                    assert(m[idx].0 == id@);
                }
                let f = |e: (AssetIdModel, u128)|
                    if e.0 == id@ {
                        (id@, x)
                    } else {
                        e
                    };
                let post = hold_view(v@);
                assert forall|k: int| 0 <= k < post.len() implies post[k] == m.map_values(
                    f,
                )[k] by {
                    if k != idx {
                        assert(v@[k] == pre[k]);
                        assert(m[idx].0 == id@);
                        assert(m[k].0 != id@);
                    }
                }
                assert(post =~= m.map_values(f));
                assert forall|t: int| 0 <= t < post.len() implies (#[trigger] post[t]).0 == id@
                    || kv_contains(m, post[t].0) by {
                    if post[t].0 != id@ {
                        assert(post[t] == m[t]);
                        assert(0 <= t < m.len() && m[t].0 == post[t].0);
                    }
                }
            }
            return ;
        }
        proof {
            assert(m[i as int].0 == v@[i as int].0@);
        }
        i += 1;
    }
    let ghost pre = v@;
    let nid = clone_asset_id(id);
    v.push((nid, x));
    proof {
        assert(!kv_contains(m, id@));
        let post = hold_view(v@);
        assert(post =~= m.push((id@, x)));
        assert forall|t: int| 0 <= t < post.len() implies (#[trigger] post[t]).0 == id@
            || kv_contains(m, post[t].0) by {
            if t < pre.len() {
                assert(post[t] == m[t]);
                assert(0 <= t < m.len() && m[t].0 == post[t].0);
            }
        }
    }
}

impl Holding {
    /// A fresh, empty register.
    pub fn new() -> (r: Holding)
        ensures
            r@ == Seq::<(AssetIdModel, u128)>::empty(),
            hold_inv(r@),
    {
        let h = Holding { entries: Vec::new() };
        proof {
            assert(h@ =~= Seq::<(AssetIdModel, u128)>::empty());
        }
        h
    }

    /// Quantity of `id` held.
    pub fn amount_of(&self, id: &AssetId) -> (r: u128)
        requires
            hold_inv(self@),
        ensures
            r == hold0(self@, id@),
    {
        entries_get(&self.entries, id)
    }

    /// Adds `x` units of `id`, saturating at the largest amount.
    pub fn add(&mut self, id: &AssetId, x: u128)
        requires
            hold_inv(old(self)@),
            asset_id_encodable(id@),
        ensures
            final(self)@ == hold_add_spec(old(self)@, id@, x),
            hold_inv(final(self)@),
    {
        let cur = entries_get(&self.entries, id);
        let v = if cur > u128::MAX - x {
            u128::MAX
        } else {
            cur + x
        };
        let ghost m = self@;
        entries_put(&mut self.entries, id, v);
        proof {
            assert forall|i: int| 0 <= i < self@.len() implies asset_id_encodable(
                (#[trigger] self@[i]).0,
            ) by {
                if self@[i].0 != id@ {
                    assert(kv_contains(m, self@[i].0));
                    let j = choose|j: int| 0 <= j < m.len() && (#[trigger] m[j]).0 == self@[i].0;
                }
            }
        }
    }

    /// Removes `x` units of `id`; the caller has checked they are held.
    pub fn sub(&mut self, id: &AssetId, x: u128)
        requires
            hold_inv(old(self)@),
            asset_id_encodable(id@),
            x <= hold0(old(self)@, id@),
        ensures
            final(self)@ == kv_put(old(self)@, id@, (hold0(old(self)@, id@) - x) as u128),
            hold_inv(final(self)@),
    {
        let cur = entries_get(&self.entries, id);
        let ghost m = self@;
        entries_put(&mut self.entries, id, cur - x);
        proof {
            assert forall|i: int| 0 <= i < self@.len() implies asset_id_encodable(
                (#[trigger] self@[i]).0,
            ) by {
                if self@[i].0 != id@ {
                    assert(kv_contains(m, self@[i].0));
                    let j = choose|j: int| 0 <= j < m.len() && (#[trigger] m[j]).0 == self@[i].0;
                }
            }
        }
    }

    /// Takes the listed assets out, all of them or none: `false` exactly
    /// when some listed asset is non-fungible or not fully held at its
    /// turn, and then nothing changes.
    pub fn try_take_definite(&mut self, assets: &Vec<Asset>) -> (r: bool)
        requires
            hold_inv(old(self)@),
            forall|i: int|
                0 <= i < assets@.len() ==> asset_id_encodable((#[trigger] assets@[i]).id@),
        ensures
            hold_inv(final(self)@),
            match take_definite_spec(old(self)@, crate::asset::assets_model(assets@)) {
                Some(h) => r == true && final(self)@ == h,
                None => r == false && final(self)@ == old(self)@,
            },
    {
        let ghost am = crate::asset::assets_model(assets@);
        let mut tmp = Holding { entries: clone_entries(&self.entries) };
        proof {
            assert(am.skip(0) =~= am);
        }
        let n = assets.len();
        let mut k: usize = 0;
        while k < n
            invariant
                k <= n,
                n == assets@.len(),
                self@ == old(self)@,
                hold_inv(old(self)@),
                am == crate::asset::assets_model(assets@),
                forall|i: int| 0 <= i < n ==> asset_id_encodable((#[trigger] assets@[i]).id@),
                hold_inv(tmp@),
                take_definite_spec(old(self)@, am) == take_definite_spec(
                    tmp@,
                    am.skip(k as int),
                ),
            decreases n - k,
        {
            proof {
                assert(am.skip(k as int).first() == am[k as int]);
                assert(am[k as int] == assets@[k as int]@);
                assert(am.skip(k as int).drop_first() =~= am.skip(k + 1 as int));
            }
            match &assets[k].fun {
                Fungibility::Fungible(amount) => {
                    let cur = tmp.amount_of(&assets[k].id);
                    if cur < *amount {
                        return false;
                    }
                    tmp.sub(&assets[k].id, *amount);
                },
                Fungibility::NonFungible(_) => {
                    return false;
                },
            }
            k += 1;
        }
        proof {
            assert(am.skip(n as int) =~= Seq::<crate::asset::AssetModel>::empty());
        }
        self.entries = tmp.entries;
        true
    }

    /// Splits the holding by a wildcard filter: returns what it selects
    /// and keeps the rest.
    pub fn take_wild(&mut self, filter: &AssetFilter) -> (r: Vec<(AssetId, u128)>)
        requires
            hold_inv(old(self)@),
        ensures
            hold_inv(final(self)@),
            hold_view(r@) == wild_selected(
                old(self)@,
                filter@,
            ),
            final(self)@ == wild_kept(old(self)@, filter@),
            forall|i: int|
                0 <= i < wild_selected(old(self)@, filter@).len() ==> asset_id_encodable(
                    (#[trigger] wild_selected(old(self)@, filter@)[i]).0,
                ),
    {
        let ghost m = self@;
        let mut sel: Vec<(AssetId, u128)> = Vec::new();
        let mut kept: Vec<(AssetId, u128)> = Vec::new();
        let n = self.entries.len();
        let mut i: usize = 0;
        while i < n
            invariant
                i <= n,
                n == self.entries@.len(),
                m == self@,
                hold_view(sel@) == wild_selected(
                    m.subrange(0, i as int),
                    filter@,
                ),
                hold_view(kept@) == wild_kept(
                    m.subrange(0, i as int),
                    filter@,
                ),
            decreases n - i,
        {
            proof {
                assert(m.subrange(0, i + 1 as int).drop_last() =~= m.subrange(0, i as int));
                assert(m.subrange(0, i + 1 as int).last() == m[i as int]);
                assert(m[i as int] == (self.entries@[i as int].0@, self.entries@[i as int].1));
            }
            let admits = filter_admits_wild(filter, &self.entries[i].0);
            let entry = (clone_asset_id(&self.entries[i].0), self.entries[i].1);
            if admits {
                let ghost pre = hold_view(sel@);
                sel.push(entry);
                proof {
                    assert(hold_view(sel@) =~= pre.push(
                        m[i as int],
                    ));
                    assert(pre.push(m[i as int]) =~= wild_selected(
                        m.subrange(0, i + 1 as int),
                        filter@,
                    ));
                    assert(hold_view(kept@) =~= wild_kept(
                        m.subrange(0, i + 1 as int),
                        filter@,
                    ));
                }
            } else {
                let ghost pre = hold_view(kept@);
                kept.push(entry);
                proof {
                    assert(hold_view(kept@) =~= pre.push(
                        m[i as int],
                    ));
                    assert(pre.push(m[i as int]) =~= wild_kept(
                        m.subrange(0, i + 1 as int),
                        filter@,
                    ));
                    assert(hold_view(sel@) =~= wild_selected(
                        m.subrange(0, i + 1 as int),
                        filter@,
                    ));
                }
            }
            i += 1;
        }
        proof {
            assert(m.subrange(0, n as int) =~= m);
            lemma_wild_kept_inv(m, filter@);
            lemma_wild_split_entries(m, filter@);
            let sm = hold_view(sel@);
            assert forall|t: int| 0 <= t < sm.len() implies asset_id_encodable(
                (#[trigger] sm[t]).0,
            ) by {
                let j = choose|j: int| 0 <= j < m.len() && m[j] == sm[t];
            }
        }
        self.entries = kept;
        sel
    }
}

/// A copy of a holding's entries.
fn clone_entries(v: &Vec<(AssetId, u128)>) -> (r: Vec<(AssetId, u128)>)
    ensures
        hold_view(r@) == hold_view(v@),
{
    let mut out: Vec<(AssetId, u128)> = Vec::new();
    let n = v.len();
    let mut i: usize = 0;
    while i < n
        invariant
            i <= n,
            n == v.len(),
            hold_view(out@) == hold_view(v@.subrange(
                0,
                i as int,
            )),
        decreases n - i,
    {
        let entry = (clone_asset_id(&v[i].0), v[i].1);
        let ghost pre = hold_view(out@);
        out.push(entry);
        proof {
            assert(hold_view(out@) =~= pre.push(
                (v@[i as int].0@, v@[i as int].1),
            ));
            assert(pre.push((v@[i as int].0@, v@[i as int].1)) =~= hold_view(v@.subrange(
                0,
                i + 1 as int,
            )));
        }
        i += 1;
    }
    proof {
        assert(v@.subrange(0, n as int) =~= v@);
    }
    out
}

/// Whether a wildcard filter admits this asset identity; a definite
/// filter admits none this way.
pub fn filter_admits_wild(f: &AssetFilter, id: &AssetId) -> (r: bool)
    ensures
        r == f@.wild_admits(id@),
{
    match f {
        AssetFilter::Definite(_) => false,
        AssetFilter::WildAll => true,
        AssetFilter::WildAllOf { id: want } => crate::asset::asset_id_eq(want, id),
    }
}

} // verus!
