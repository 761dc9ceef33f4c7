//! Addressing scheme for consensus systems: a `Location` is a rooted path
//! made of an ascent count (`parents`) and an ordered interior of up to
//! eight `Junction` path segments. Locations are immutable values compared
//! structurally; transformations build new values.

use vstd::prelude::*;

verus! {

/// Most junctions an interior path may hold.
pub const MAX_JUNCTIONS: usize = 8;

/// Identity of a relay network, qualifying 32-byte account junctions.
#[derive(Clone, Copy, PartialEq, Eq, Structural, Debug)]
pub enum NetworkId {
    Polkadot,
    Kusama,
}

/// One path segment of a `Location`.
#[derive(Clone, Copy, Debug)]
pub enum Junction {
    /// A sibling or child parachain, by numeric id.
    Parachain(u32),
    /// An account within the enclosing consensus system.
    AccountId32 { network: Option<NetworkId>, id: [u8; 32] },
    /// A pallet within the enclosing runtime, by instance index.
    PalletInstance(u8),
    /// A nondescript ordinal index.
    GeneralIndex(u128),
}

/// Hierarchical address: ascend `parents` levels, then follow `interior`.
/// `parents == 0` with an empty interior denotes the local system itself.
#[derive(Clone, Debug)]
pub struct Location {
    pub parents: u8,
    pub interior: Vec<Junction>,
}

/// Mathematical model of a `Location`.
pub struct LocModel {
    pub parents: int,
    pub interior: Seq<Junction>,
}

impl View for Location {
    type V = LocModel;

    open spec fn view(&self) -> LocModel {
        LocModel { parents: self.parents as int, interior: self.interior@ }
    }
}

impl LocModel {
    /// The local system itself.
    pub open spec fn is_here(self) -> bool {
        self.parents == 0 && self.interior.len() == 0
    }

    /// An interior path never exceeds `MAX_JUNCTIONS` segments.
    pub open spec fn wf(self) -> bool {
        self.interior.len() <= MAX_JUNCTIONS
    }

    /// `self` equals `base` or lies strictly below it: same ascent count,
    /// and `base`'s interior is a prefix of `self`'s.
    pub open spec fn descends_from(self, base: LocModel) -> bool {
        &&& self.parents == base.parents
        &&& self.interior.len() >= base.interior.len()
        &&& self.interior.subrange(0, base.interior.len() as int) == base.interior
    }

    /// Strict ancestor: `other` descends from `self` and they differ.
    pub open spec fn is_ancestor_of(self, other: LocModel) -> bool {
        other.descends_from(self) && self != other
    }
}

/// Errors of location arithmetic.
#[derive(Clone, Copy, PartialEq, Eq, Structural, Debug)]
pub enum LocationError {
    /// Resolution ascended past the available depth, or the combined
    /// interior would exceed `MAX_JUNCTIONS`.
    LocationOverflow,
}

pub fn network_eq(a: &Option<NetworkId>, b: &Option<NetworkId>) -> (r: bool)
    ensures
        r == (a == b),
{
    match (a, b) {
        (Option::None, Option::None) => true,
        (Option::Some(NetworkId::Polkadot), Option::Some(NetworkId::Polkadot)) => true,
        (Option::Some(NetworkId::Kusama), Option::Some(NetworkId::Kusama)) => true,
        _ => false,
    }
}

pub fn bytes32_eq(a: &[u8; 32], b: &[u8; 32]) -> (r: bool)
    ensures
        r == (a@ == b@),
{
    let mut i: usize = 0;
    while i < 32
        invariant
            i <= 32,
            forall|k: int| 0 <= k < i ==> a@[k] == b@[k],
        decreases 32 - i,
    {
        if a[i] != b[i] {
            return false;
        }
        i += 1;
    }
    proof {
        assert(a@ =~= b@);
    }
    true
}

pub fn junction_eq(a: &Junction, b: &Junction) -> (r: bool)
    ensures
        r == (a == b),
{
    match (a, b) {
        (Junction::Parachain(x), Junction::Parachain(y)) => x == y,
        (
            Junction::AccountId32 { network: na, id: ia },
            Junction::AccountId32 { network: nb, id: ib },
        ) => {
            let same = network_eq(na, nb) && bytes32_eq(ia, ib);
            proof {
                vstd::array::axiom_array_ext_equal(*ia, *ib);
            }
            same
        },
        (Junction::PalletInstance(x), Junction::PalletInstance(y)) => x == y,
        (Junction::GeneralIndex(x), Junction::GeneralIndex(y)) => x == y,
        _ => false,
    }
}

pub fn location_eq(a: &Location, b: &Location) -> (r: bool)
    ensures
        r == (a@ == b@),
{
    if a.parents != b.parents {
        return false;
    }
    if a.interior.len() != b.interior.len() {
        proof {
            assert(a@.interior.len() != b@.interior.len());
        }
        return false;
    }
    let n = a.interior.len();
    let mut i: usize = 0;
    while i < n
        invariant
            i <= n,
            n == a.interior.len(),
            n == b.interior.len(),
            forall|k: int| 0 <= k < i ==> a.interior@[k] == b.interior@[k],
        decreases n - i,
    {
        if !junction_eq(&a.interior[i], &b.interior[i]) {
            return false;
        }
        i += 1;
    }
    proof {
        assert(a@.interior =~= b@.interior);
    }
    true
}

impl Location {
    /// The local system itself: no ascent, empty interior.
    pub fn here() -> (r: Location)
        ensures
            r@.is_here(),
            r@.wf(),
    {
        Location { parents: 0, interior: Vec::new() }
    }

    /// The immediate parent system.
    pub fn parent() -> (r: Location)
        ensures
            r@.parents == 1,
            r@.interior.len() == 0,
            r@.wf(),
    {
        Location { parents: 1, interior: Vec::new() }
    }

    /// A child or sibling parachain one level below the local system.
    pub fn child_parachain(id: u32) -> (r: Location)
        ensures
            r@.parents == 0,
            r@.interior == seq![Junction::Parachain(id)],
            r@.wf(),
    {
        let mut v: Vec<Junction> = Vec::new();
        v.push(Junction::Parachain(id));
        Location { parents: 0, interior: v }
    }

    /// One ascent followed by a single junction.
    pub fn parent_then(j: Junction) -> (r: Location)
        ensures
            r@.parents == 1,
            r@.interior == seq![j],
            r@.wf(),
    {
        let mut v: Vec<Junction> = Vec::new();
        v.push(j);
        Location { parents: 1, interior: v }
    }

    /// No ascent, a single junction.
    pub fn from_junction(j: Junction) -> (r: Location)
        ensures
            r@.parents == 0,
            r@.interior == seq![j],
            r@.wf(),
    {
        let mut v: Vec<Junction> = Vec::new();
        v.push(j);
        Location { parents: 0, interior: v }
    }

    /// Narrows the location by one junction. Fails with `LocationOverflow`
    /// exactly when the interior already holds `MAX_JUNCTIONS` segments.
    pub fn descend(&self, j: Junction) -> (r: Result<Location, LocationError>)
        requires
            self@.wf(),
        ensures
            match r {
                Ok(l) => {
                    &&& self@.interior.len() < MAX_JUNCTIONS
                    &&& l@.parents == self@.parents
                    &&& l@.interior == self@.interior.push(j)
                    &&& l@.wf()
                    &&& l@.descends_from(self@)
                },
                Err(e) => e == LocationError::LocationOverflow && self@.interior.len()
                    == MAX_JUNCTIONS,
            },
    {
        if self.interior.len() >= MAX_JUNCTIONS {
            return Err(LocationError::LocationOverflow);
        }
        let mut interior = self.interior.clone();
        interior.push(j);
        let l = Location { parents: self.parents, interior };
        proof {
            assert(l@.interior.subrange(0, self@.interior.len() as int) =~= self@.interior);
        }
        Ok(l)
    }
}

/// What `resolve` yields, as a function of the two inputs.
pub open spec fn resolve_spec(origin: LocModel, relative: LocModel) -> Result<
    LocModel,
    LocationError,
> {
    if relative.parents > origin.interior.len() {
        Err(LocationError::LocationOverflow)
    } else {
        let kept = origin.interior.subrange(
            0,
            origin.interior.len() - relative.parents,
        );
        let combined = kept + relative.interior;
        if combined.len() > MAX_JUNCTIONS {
            Err(LocationError::LocationOverflow)
        } else {
            Ok(LocModel { parents: origin.parents, interior: combined })
        }
    }
}

/// Interprets `relative` against `origin`: ascends `relative.parents`
/// levels by dropping trailing junctions of `origin`, then appends
/// `relative`'s interior. Fails with `LocationOverflow` exactly when the
/// ascent exceeds `origin`'s own depth or the combined interior would
/// exceed `MAX_JUNCTIONS`.
pub fn resolve(origin: &Location, relative: &Location) -> (r: Result<Location, LocationError>)
    requires
        origin@.wf(),
        relative@.wf(),
    ensures
        match r {
            Ok(l) => resolve_spec(origin@, relative@) == Ok::<LocModel, LocationError>(l@)
                && l@.wf(),
            Err(e) => resolve_spec(origin@, relative@) == Err::<LocModel, LocationError>(e),
        },
{
    let asc = relative.parents as usize;
    if asc > origin.interior.len() {
        return Err(LocationError::LocationOverflow);
    }
    let keep = origin.interior.len() - asc;
    let mut interior: Vec<Junction> = Vec::new();
    let mut i: usize = 0;
    while i < keep
        invariant
            i <= keep,
            keep <= origin.interior.len(),
            interior@ == origin.interior@.subrange(0, i as int),
        decreases keep - i,
    {
        interior.push(origin.interior[i]);
        proof {
            assert(interior@ =~= origin.interior@.subrange(0, i + 1 as int));
        }
        i += 1;
    }
    let mut k: usize = 0;
    let ghost kept = origin.interior@.subrange(0, keep as int);
    while k < relative.interior.len()
        invariant
            k <= relative.interior.len(),
            interior@ == kept + relative.interior@.subrange(0, k as int),
        decreases relative.interior.len() - k,
    {
        interior.push(relative.interior[k]);
        proof {
            assert(interior@ =~= kept + relative.interior@.subrange(0, k + 1 as int));
        }
        k += 1;
    }
    proof {
        assert(relative.interior@.subrange(0, relative.interior@.len() as int) =~= relative
            .interior@);
    }
    if interior.len() > MAX_JUNCTIONS {
        return Err(LocationError::LocationOverflow);
    }
    Ok(Location { parents: origin.parents, interior })
}

/// Every location descends from itself.
pub proof fn lemma_descends_refl(l: LocModel)
    ensures
        l.descends_from(l),
{
    assert(l.interior.subrange(0, l.interior.len() as int) =~= l.interior);
}

/// Descent is transitive.
pub proof fn lemma_descends_trans(a: LocModel, b: LocModel, c: LocModel)
    requires
        a.descends_from(b),
        b.descends_from(c),
    ensures
        a.descends_from(c),
{
    assert(a.interior.subrange(0, c.interior.len() as int) =~= c.interior) by {
        assert(forall|k: int|
            0 <= k < b.interior.len() ==> a.interior[k] == #[trigger] b.interior[k]) by {
            assert(forall|k: int|
                0 <= k < b.interior.len() ==> a.interior.subrange(0, b.interior.len() as int)[k]
                    == a.interior[k]);
        }
        assert(forall|k: int|
            0 <= k < c.interior.len() ==> b.interior[k] == #[trigger] c.interior[k]) by {
            assert(forall|k: int|
                0 <= k < c.interior.len() ==> b.interior.subrange(0, c.interior.len() as int)[k]
                    == b.interior[k]);
        }
    }
}

/// Mutual descent is equality: two locations each descending from the
/// other are the same location.
pub proof fn lemma_descends_antisym(a: LocModel, b: LocModel)
    requires
        a.descends_from(b),
        b.descends_from(a),
    ensures
        a == b,
{
    assert(a.interior =~= b.interior) by {
        assert(a.interior.len() == b.interior.len());
        assert(forall|k: int|
            0 <= k < b.interior.len() ==> a.interior.subrange(0, b.interior.len() as int)[k]
                == a.interior[k]);
    }
}

/// Descending never yields an ancestor of the starting location: the new
/// location descends from the old one, and the old one is either equal to
/// or an ancestor of the new one, never the reverse.
pub proof fn lemma_descend_narrows(base: LocModel, j: Junction)
    requires
        base.wf(),
    ensures
        (LocModel { parents: base.parents, interior: base.interior.push(j) }).descends_from(base),
        !(LocModel { parents: base.parents, interior: base.interior.push(j) }).is_ancestor_of(
            base,
        ),
{
    let ext = LocModel { parents: base.parents, interior: base.interior.push(j) };
    assert(ext.interior.subrange(0, base.interior.len() as int) =~= base.interior);
    assert(ext.interior.len() != base.interior.len());
}

} // verus!
