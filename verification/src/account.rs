//! Local account identifiers and the sovereign-account deriver: a pure
//! function from a location to a deterministic 32-byte account. An ordered
//! list of conversion strategies is tried first-match: the parent and
//! parachain locations resolve to stable well-known accounts, a local
//! 32-byte account junction aliases to itself, and any other location
//! falls back to a deterministic hash of its structure.

use vstd::prelude::*;
use crate::bytes::le_bytes;
use crate::location::{bytes32_eq, Junction, LocModel, Location, NetworkId};

verus! {

/// Opaque fixed-width local account identifier.
#[derive(Clone, Copy, PartialEq, Eq, Debug)]
pub struct AccountId {
    pub bytes: [u8; 32],
}

impl View for AccountId {
    type V = Seq<u8>;

    open spec fn view(&self) -> Seq<u8> {
        self.bytes@
    }
}

impl AccountId {
    pub fn new(bytes: [u8; 32]) -> (r: AccountId)
        ensures
            r@ == bytes@,
    {
        AccountId { bytes }
    }
}

pub fn account_eq(a: &AccountId, b: &AccountId) -> (r: bool)
    ensures
        r == (a@ == b@),
        r == (a == b),
{
    let same = bytes32_eq(&a.bytes, &b.bytes);
    proof {
        vstd::array::axiom_array_ext_equal(a.bytes, b.bytes);
    }
    same
}

/// Builds an account out of exactly 32 bytes.
pub fn account_from_vec(v: &Vec<u8>) -> (r: AccountId)
    requires
        v@.len() == 32,
    ensures
        r@ == v@,
{
    let mut bytes = [0u8; 32];
    let mut i: usize = 0;
    while i < 32
        invariant
            i <= 32,
            v@.len() == 32,
            bytes@.len() == 32,
            forall|k: int| 0 <= k < i ==> bytes@[k] == v@[k],
        decreases 32 - i,
    {
        bytes[i] = v[i];
        i += 1;
    }
    proof {
        assert(bytes@ =~= v@);
    }
    AccountId { bytes }
}

/// Modulus of the fallback hash accumulator.
pub const HASH_MOD: u128 = 0x1000000000000000000000000000000;

/// One absorption step of the fallback hash.
pub open spec fn absorb(h: nat, x: nat) -> nat {
    (h * 131 + x + 1) % (HASH_MOD as nat)
}

pub open spec fn absorb_bytes(h: nat, s: Seq<u8>) -> nat
    decreases s.len(),
{
    if s.len() == 0 {
        h
    } else {
        absorb_bytes(absorb(h, s[0] as nat), s.drop_first())
    }
}

pub open spec fn hash_junction(h: nat, j: Junction) -> nat {
    match j {
        Junction::Parachain(id) => absorb(absorb(h, 0), id as nat),
        Junction::AccountId32 { network, id } => {
            let tag: nat = match network {
                Option::None => 0,
                Option::Some(NetworkId::Polkadot) => 1,
                Option::Some(NetworkId::Kusama) => 2,
            };
            absorb_bytes(absorb(absorb(h, 1), tag), id@)
        },
        Junction::PalletInstance(i) => absorb(absorb(h, 2), i as nat),
        Junction::GeneralIndex(n) => absorb(
            absorb(absorb(h, 3), n as nat % 0x10000000000000000),
            n as nat / 0x10000000000000000,
        ),
    }
}

pub open spec fn hash_junctions(h: nat, s: Seq<Junction>) -> nat
    decreases s.len(),
{
    if s.len() == 0 {
        h
    } else {
        hash_junctions(hash_junction(h, s[0]), s.drop_first())
    }
}

/// The fallback hash of a whole location.
pub open spec fn location_hash(l: LocModel) -> nat {
    hash_junctions(absorb(absorb(0, l.parents as nat), l.interior.len()), l.interior)
}

pub open spec fn zero_pad(n: nat) -> Seq<u8> {
    Seq::new(n, |i: int| 0u8)
}

/// The well-known account standing for the parent system.
pub open spec fn parent_preset_bytes() -> Seq<u8> {
    seq![80u8, 97u8, 114u8, 101u8, 110u8, 116u8] + zero_pad(26)
}

/// Prefix of a child parachain's sovereign account.
pub open spec fn child_para_prefix() -> Seq<u8> {
    seq![112u8, 97u8, 114u8, 97u8]
}

/// Prefix of a sibling parachain's sovereign account.
pub open spec fn sibling_para_prefix() -> Seq<u8> {
    seq![115u8, 105u8, 98u8, 108u8]
}

/// The well-known sovereign account of a parachain, by prefix and id.
pub open spec fn para_sovereign_bytes(prefix: Seq<u8>, id: u32) -> Seq<u8> {
    prefix + le_bytes(id as nat, 4) + zero_pad(24)
}

/// The fallback account of a location: a tag byte, the hash, zero padding.
pub open spec fn fallback_account_bytes(l: LocModel) -> Seq<u8> {
    seq![254u8] + le_bytes(location_hash(l), 16) + zero_pad(15)
}

/// The ordered first-match conversion policy, as a function of the
/// location and the local chain's network identity.
pub open spec fn derive_account_spec(l: LocModel, local_network: NetworkId) -> Seq<u8> {
    if l.parents == 1 && l.interior.len() == 0 {
        parent_preset_bytes()
    } else if l.parents == 0 && l.interior.len() == 1 && l.interior[0] is Parachain {
        para_sovereign_bytes(child_para_prefix(), l.interior[0]->Parachain_0)
    } else if l.parents == 1 && l.interior.len() == 1 && l.interior[0] is Parachain {
        para_sovereign_bytes(sibling_para_prefix(), l.interior[0]->Parachain_0)
    } else if l.parents == 0 && l.interior.len() == 1 && l.interior[0] is AccountId32 && (
    l.interior[0]->AccountId32_network is None || l.interior[0]->AccountId32_network
        == Option::Some(local_network)) {
        l.interior[0]->AccountId32_id@
    } else {
        fallback_account_bytes(l)
    }
}

fn absorb_exec(h: u128, x: u64) -> (r: u128)
    requires
        h < HASH_MOD,
    ensures
        r as nat == absorb(h as nat, x as nat),
        r < HASH_MOD,
{
    (h * 131 + x as u128 + 1) % HASH_MOD
}

fn absorb_bytes32_exec(h: u128, id: &[u8; 32]) -> (r: u128)
    requires
        h < HASH_MOD,
    ensures
        r as nat == absorb_bytes(h as nat, id@),
        r < HASH_MOD,
{
    let mut acc = h;
    let ghost base = acc as nat;
    proof {
        assert(id@.skip(0) =~= id@);
    }
    let mut k: usize = 0;
    while k < 32
        invariant
            k <= 32,
            acc < HASH_MOD,
            absorb_bytes(base, id@) == absorb_bytes(acc as nat, id@.skip(k as int)),
        decreases 32 - k,
    {
        proof {
            assert(id@.skip(k as int).drop_first() =~= id@.skip(k + 1 as int));
            assert(id@.skip(k as int)[0] == id@[k as int]);
        }
        acc = absorb_exec(acc, id[k] as u64);
        k += 1;
    }
    proof {
        assert(id@.skip(32) =~= Seq::<u8>::empty());
    }
    acc
}

#[verifier::rlimit(50)]
fn hash_junction_exec(h: u128, j: &Junction) -> (r: u128)
    requires
        h < HASH_MOD,
    ensures
        r as nat == hash_junction(h as nat, *j),
        r < HASH_MOD,
{
    match j {
        Junction::Parachain(id) => absorb_exec(absorb_exec(h, 0), *id as u64),
        Junction::AccountId32 { network, id } => {
            let tag: u64 = match network {
                Option::None => 0,
                Option::Some(NetworkId::Polkadot) => 1,
                Option::Some(NetworkId::Kusama) => 2,
            };
            absorb_bytes32_exec(absorb_exec(absorb_exec(h, 1), tag), id)
        },
        Junction::PalletInstance(i) => absorb_exec(absorb_exec(h, 2), *i as u64),
        Junction::GeneralIndex(n) => {
            let lo = (*n % 0x10000000000000000) as u64;
            let hi = (*n / 0x10000000000000000) as u64;
            absorb_exec(absorb_exec(absorb_exec(h, 3), lo), hi)
        },
    }
}

fn location_hash_exec(l: &Location) -> (r: u128)
    ensures
        r as nat == location_hash(l@),
        r < HASH_MOD,
{
    let mut h = absorb_exec(absorb_exec(0, l.parents as u64), l.interior.len() as u64);
    let ghost base = h as nat;
    proof {
        assert(l.interior@.skip(0) =~= l.interior@);
    }
    let mut k: usize = 0;
    let n = l.interior.len();
    while k < n
        invariant
            k <= n,
            n == l.interior.len(),
            h < HASH_MOD,
            hash_junctions(base, l.interior@) == hash_junctions(
                h as nat,
                l.interior@.skip(k as int),
            ),
        decreases n - k,
    {
        proof {
            assert(l.interior@.skip(k as int).drop_first() =~= l.interior@.skip(k + 1 as int));
            assert(l.interior@.skip(k as int)[0] == l.interior@[k as int]);
        }
        h = hash_junction_exec(h, &l.interior[k]);
        k += 1;
    }
    proof {
        assert(l.interior@.skip(n as int) =~= Seq::<Junction>::empty());
    }
    h
}

fn push_zeros(out: &mut Vec<u8>, n: usize)
    ensures
        final(out)@ == old(out)@ + zero_pad(n as nat),
{
    let ghost start = out@;
    let mut k: usize = 0;
    while k < n
        invariant
            k <= n,
            out@.len() == start.len() + k,
            out@.subrange(0, start.len() as int) == start,
            forall|t: int| start.len() <= t < out@.len() ==> out@[t] == 0u8,
        decreases n - k,
    {
        let ghost prev = out@;
        out.push(0u8);
        proof {
            assert(out@.subrange(0, start.len() as int) =~= prev.subrange(
                0,
                start.len() as int,
            ));
        }
        k += 1;
    }
    proof {
        assert(out@ =~= start + zero_pad(n as nat));
    }
}

/// Derives the local account standing for `loc`, by the ordered
/// first-match policy of `derive_account_spec`. Total: every location has
/// a deterministic account.
pub fn derive_account(loc: &Location, local_network: NetworkId) -> (r: AccountId)
    ensures
        r@ == derive_account_spec(loc@, local_network),
{
    if loc.parents == 1 && loc.interior.len() == 0 {
        let mut v: Vec<u8> = Vec::new();
        v.push(80u8);
        v.push(97u8);
        v.push(114u8);
        v.push(101u8);
        v.push(110u8);
        v.push(116u8);
        push_zeros(&mut v, 26);
        proof {
            assert(v@ =~= parent_preset_bytes());
        }
        return account_from_vec(&v);
    }
    if loc.interior.len() == 1 {
        match loc.interior[0] {
            Junction::Parachain(id) => {
                if loc.parents <= 1 {
                    let mut v: Vec<u8> = Vec::new();
                    if loc.parents == 0 {
                        v.push(112u8);
                        v.push(97u8);
                        v.push(114u8);
                        v.push(97u8);
                        proof {
                            assert(v@ =~= child_para_prefix());
                        }
                    } else {
                        v.push(115u8);
                        v.push(105u8);
                        v.push(98u8);
                        v.push(108u8);
                        proof {
                            assert(v@ =~= sibling_para_prefix());
                        }
                    }
                    crate::bytes::write_u32(&mut v, id);
                    push_zeros(&mut v, 24);
                    proof {
                        crate::bytes::lemma_le_bytes_len(id as nat, 4);
                    }
                    return account_from_vec(&v);
                }
            },
            Junction::AccountId32 { network, id } => {
                if loc.parents == 0 {
                    let aliases = match network {
                        Option::None => true,
                        Option::Some(n) => n == local_network,
                    };
                    if aliases {
                        return AccountId { bytes: id };
                    }
                }
            },
            _ => {},
        }
    }
    let h = location_hash_exec(loc);
    let mut v: Vec<u8> = Vec::new();
    v.push(254u8);
    crate::bytes::write_u128(&mut v, h);
    push_zeros(&mut v, 15);
    proof {
        crate::bytes::lemma_le_bytes_len(h as nat, 16);
        assert(v@ =~= fallback_account_bytes(loc@));
    }
    account_from_vec(&v)
}

/// The account the parent system resolves to locally.
pub fn parent_account_id() -> (r: AccountId)
    ensures
        r@ == parent_preset_bytes(),
{
    derive_account(&Location::parent(), NetworkId::Kusama)
}

/// The sovereign account of a child parachain, as the parent derives it.
pub fn child_account_id(para: u32) -> (r: AccountId)
    ensures
        r@ == para_sovereign_bytes(child_para_prefix(), para),
{
    derive_account(&Location::child_parachain(para), NetworkId::Kusama)
}

/// The account a child parachain's inner account resolves to on the
/// parent: no alias applies, so the deterministic fallback hash.
pub fn child_account_account_id(para: u32, who: AccountId) -> (r: AccountId)
    ensures
        ({
            let l = LocModel {
                parents: 0,
                interior: seq![
                    Junction::Parachain(para),
                    Junction::AccountId32 { network: Option::None, id: who.bytes },
                ],
            };
            r@ == fallback_account_bytes(l)
        }),
{
    let mut interior: Vec<Junction> = Vec::new();
    interior.push(Junction::Parachain(para));
    interior.push(Junction::AccountId32 { network: None, id: who.bytes });
    let loc = Location { parents: 0, interior };
    proof {
        assert(loc@.interior =~= seq![
            Junction::Parachain(para),
            Junction::AccountId32 { network: Option::None, id: who.bytes },
        ]);
    }
    derive_account(&loc, NetworkId::Kusama)
}

/// The account the parent's inner account resolves to on a child chain:
/// no alias applies, so the deterministic fallback hash.
pub fn parent_account_account_id(who: AccountId) -> (r: AccountId)
    ensures
        ({
            let l = LocModel {
                parents: 1,
                interior: seq![
                    Junction::AccountId32 { network: Option::None, id: who.bytes },
                ],
            };
            r@ == fallback_account_bytes(l)
        }),
{
    let mut interior: Vec<Junction> = Vec::new();
    interior.push(Junction::AccountId32 { network: None, id: who.bytes });
    let loc = Location { parents: 1, interior };
    proof {
        assert(loc@.interior =~= seq![
            Junction::AccountId32 { network: Option::None, id: who.bytes },
        ]);
    }
    derive_account(&loc, NetworkId::Kusama)
}

} // verus!
