//! Asset identities and values: an asset pairs an identifier (a concrete
//! location anchor or an abstract numeric id) with a fungible amount or a
//! non-fungible instance marker. Filters select assets out of a holding.

use vstd::prelude::*;
use crate::location::{LocModel, Location, location_eq};

verus! {

/// Identity of an asset class.
#[derive(Clone, Debug)]
pub enum AssetId {
    /// A fungible asset anchored at a location.
    Concrete(Location),
    /// An abstract numeric id understood by a local multi-asset ledger.
    Abstract(u64),
}

/// Mathematical model of an `AssetId`.
pub enum AssetIdModel {
    Concrete(LocModel),
    Abstract(u64),
}

impl View for AssetId {
    type V = AssetIdModel;

    open spec fn view(&self) -> AssetIdModel {
        match self {
            AssetId::Concrete(l) => AssetIdModel::Concrete(l@),
            AssetId::Abstract(n) => AssetIdModel::Abstract(*n),
        }
    }
}

impl AssetIdModel {
    pub open spec fn wf(self) -> bool {
        match self {
            AssetIdModel::Concrete(l) => l.wf(),
            AssetIdModel::Abstract(_) => true,
        }
    }
}

pub fn asset_id_eq(a: &AssetId, b: &AssetId) -> (r: bool)
    ensures
        r == (a@ == b@),
{
    match (a, b) {
        (AssetId::Concrete(la), AssetId::Concrete(lb)) => location_eq(la, lb),
        (AssetId::Abstract(na), AssetId::Abstract(nb)) => na == nb,
        _ => false,
    }
}

/// Value attached to an asset identity.
#[derive(Clone, Copy, PartialEq, Eq, Structural, Debug)]
pub enum Fungibility {
    /// A quantity of interchangeable units.
    Fungible(u128),
    /// A single instance, by marker.
    NonFungible(u64),
}

/// An asset: an identity together with a fungible amount or an instance.
#[derive(Clone, Debug)]
pub struct Asset {
    pub id: AssetId,
    pub fun: Fungibility,
}

/// Mathematical model of an `Asset`.
pub struct AssetModel {
    pub id: AssetIdModel,
    pub fun: Fungibility,
}

impl View for Asset {
    type V = AssetModel;

    open spec fn view(&self) -> AssetModel {
        AssetModel { id: self.id@, fun: self.fun }
    }
}

impl AssetModel {
    pub open spec fn wf(self) -> bool {
        self.id.wf()
    }
}

impl Asset {
    pub fn fungible(id: AssetId, amount: u128) -> (r: Asset)
        ensures
            r@ == (AssetModel { id: id@, fun: Fungibility::Fungible(amount) }),
    {
        Asset { id, fun: Fungibility::Fungible(amount) }
    }
}

/// Model of a sequence of assets.
pub open spec fn assets_model(v: Seq<Asset>) -> Seq<AssetModel> {
    v.map_values(|a: Asset| a@)
}

pub open spec fn assets_wf(s: Seq<AssetModel>) -> bool {
    forall|i: int| 0 <= i < s.len() ==> (#[trigger] s[i]).wf()
}

/// Selects assets out of a holding: a definite list names exact assets and
/// amounts; wildcards take everything, or everything of one identity.
#[derive(Clone, Debug)]
pub enum AssetFilter {
    Definite(Vec<Asset>),
    WildAll,
    WildAllOf { id: AssetId },
}

/// Mathematical model of an `AssetFilter`.
pub enum FilterModel {
    Definite(Seq<AssetModel>),
    WildAll,
    WildAllOf { id: AssetIdModel },
}

impl View for AssetFilter {
    type V = FilterModel;

    open spec fn view(&self) -> FilterModel {
        match self {
            AssetFilter::Definite(v) => FilterModel::Definite(assets_model(v@)),
            AssetFilter::WildAll => FilterModel::WildAll,
            AssetFilter::WildAllOf { id } => FilterModel::WildAllOf { id: id@ },
        }
    }
}

impl FilterModel {
    pub open spec fn wf(self) -> bool {
        match self {
            FilterModel::Definite(s) => assets_wf(s),
            FilterModel::WildAll => true,
            FilterModel::WildAllOf { id } => id.wf(),
        }
    }

    /// Whether a wildcard admits the given asset identity. Definite filters
    /// are not matched by identity but taken literally.
    pub open spec fn wild_admits(self, id: AssetIdModel) -> bool {
        match self {
            FilterModel::Definite(_) => false,
            FilterModel::WildAll => true,
            FilterModel::WildAllOf { id: want } => want == id,
        }
    }
}

} // verus!
