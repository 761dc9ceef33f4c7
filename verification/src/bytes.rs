//! Little-endian fixed-width integer serialisation, with the two
//! round-trip laws the message codec rests on: a value below the width's
//! bound decodes back from its bytes, and any byte string re-encodes from
//! the value it denotes.

use vstd::prelude::*;

verus! {

/// 256 to the power `n`.
pub open spec fn pow256(n: nat) -> nat
    decreases n,
{
    if n == 0 {
        1
    } else {
        256 * pow256((n - 1) as nat)
    }
}

/// The `n` little-endian base-256 digits of `v`.
pub open spec fn le_bytes(v: nat, n: nat) -> Seq<u8>
    decreases n,
{
    if n == 0 {
        Seq::empty()
    } else {
        seq![(v % 256) as u8] + le_bytes(v / 256, (n - 1) as nat)
    }
}

/// The value a little-endian byte string denotes.
pub open spec fn from_le(s: Seq<u8>) -> nat
    decreases s.len(),
{
    if s.len() == 0 {
        0
    } else {
        s[0] as nat + 256 * from_le(s.drop_first())
    }
}

pub proof fn lemma_le_bytes_len(v: nat, n: nat)
    ensures
        le_bytes(v, n).len() == n,
    decreases n,
{
    if n > 0 {
        lemma_le_bytes_len(v / 256, (n - 1) as nat);
    }
}

pub proof fn lemma_from_le_bound(s: Seq<u8>)
    ensures
        from_le(s) < pow256(s.len()),
    decreases s.len(),
{
    if s.len() > 0 {
        lemma_from_le_bound(s.drop_first());
        assert(from_le(s) == s[0] + 256 * from_le(s.drop_first()));
        assert(s[0] < 256);
        let r = from_le(s.drop_first());
        let p = pow256(s.drop_first().len());
        assert(256 * r <= 256 * (p - 1)) by (nonlinear_arith)
            requires
                r <= p - 1,
        ;
    }
}

/// Decoding the bytes of a value in range gives the value back.
pub proof fn lemma_from_le_of_le_bytes(v: nat, n: nat)
    requires
        v < pow256(n),
    ensures
        from_le(le_bytes(v, n)) == v,
    decreases n,
{
    if n == 0 {
    } else {
        let rest = v / 256;
        let p = pow256((n - 1) as nat);
        assert(rest < p) by (nonlinear_arith)
            requires
                v < 256 * p,
                rest == v / 256,
        ;
        lemma_from_le_of_le_bytes(rest, (n - 1) as nat);
        lemma_le_bytes_len(rest, (n - 1) as nat);
        let s = le_bytes(v, n);
        assert(s.drop_first() =~= le_bytes(rest, (n - 1) as nat));
        assert(v % 256 + 256 * (v / 256) == v) by (nonlinear_arith);
    }
}

/// Re-encoding the value a byte string denotes gives the string back.
pub proof fn lemma_le_bytes_of_from_le(s: Seq<u8>)
    ensures
        le_bytes(from_le(s), s.len()) == s,
    decreases s.len(),
{
    if s.len() == 0 {
        assert(le_bytes(from_le(s), s.len()) =~= s);
    } else {
        let r = from_le(s.drop_first());
        let v = from_le(s);
        assert(v == s[0] + 256 * r);
        let b0 = s[0] as nat;
        assert(v % 256 == b0 && v / 256 == r) by (nonlinear_arith)
            requires
                v == b0 + 256 * r,
                0 <= b0 < 256,
                r >= 0,
        ;
        lemma_le_bytes_of_from_le(s.drop_first());
        assert(le_bytes(v, s.len()) =~= s);
    }
}

/// The bytes from `i` to `j` are exactly `s`.
pub open spec fn slice_is(bytes: Seq<u8>, i: int, j: int, s: Seq<u8>) -> bool {
    0 <= i <= j <= bytes.len() && bytes.subrange(i, j) == s
}

/// An exact slice splits at any concatenation boundary of its content.
pub proof fn lemma_slice_split(bytes: Seq<u8>, i: int, j: int, a: Seq<u8>, b: Seq<u8>)
    requires
        slice_is(bytes, i, j, a + b),
    ensures
        j == i + a.len() + b.len(),
        slice_is(bytes, i, i + a.len(), a),
        slice_is(bytes, i + a.len(), j, b),
{
    assert(bytes.subrange(i, j).len() == a.len() + b.len());
    assert(bytes.subrange(i, i + a.len() as int) =~= a) by {
        assert(forall|k: int|
            0 <= k < a.len() ==> bytes.subrange(i, j)[k] == (a + b)[k] && #[trigger] (a + b)[k]
                == a[k]);
    }
    assert(bytes.subrange(i + a.len(), j) =~= b) by {
        assert forall|k: int| 0 <= k < b.len() implies bytes.subrange(i + a.len(), j)[k]
            == b[k] by {
            assert(bytes.subrange(i + a.len(), j)[k] == bytes[i + a.len() + k]);
            assert(bytes.subrange(i, j)[a.len() + k] == bytes[i + a.len() + k]);
            assert((a + b)[a.len() + k] == b[k]);
        }
    }
}

/// Appends the four little-endian bytes of `v`.
pub fn write_u32(out: &mut Vec<u8>, v: u32)
    ensures
        final(out)@ == old(out)@ + le_bytes(v as nat, 4),
{
    let ghost start = out@;
    let mut x = v;
    let mut i: usize = 0;
    while i < 4
        invariant
            i <= 4,
            le_bytes(v as nat, 4) == out@.skip(start.len() as int) + le_bytes(
                x as nat,
                (4 - i) as nat,
            ),
            out@.len() == start.len() + i,
            out@.subrange(0, start.len() as int) == start,
        decreases 4 - i,
    {
        let ghost prev = out@;
        let b: u8 = (x % 256) as u8;
        out.push(b);
        proof {
            assert(out@.skip(start.len() as int) =~= prev.skip(start.len() as int) + seq![b]);
            assert(le_bytes(x as nat, (4 - i) as nat) == seq![b] + le_bytes(
                (x / 256) as nat,
                (4 - i - 1) as nat,
            ));
            assert(prev.skip(start.len() as int) + le_bytes(x as nat, (4 - i) as nat)
                =~= out@.skip(start.len() as int) + le_bytes((x / 256) as nat, (4 - i - 1) as nat));
            assert(out@.subrange(0, start.len() as int) =~= start);
        }
        x = x / 256;
        i += 1;
    }
    proof {
        assert(le_bytes(x as nat, 0) =~= Seq::<u8>::empty());
        assert(out@.skip(start.len() as int) + Seq::<u8>::empty() =~= out@.skip(
            start.len() as int,
        ));
        assert(out@ =~= start + out@.skip(start.len() as int));
    }
}

/// Appends the eight little-endian bytes of `v`.
pub fn write_u64(out: &mut Vec<u8>, v: u64)
    ensures
        final(out)@ == old(out)@ + le_bytes(v as nat, 8),
{
    let ghost start = out@;
    let mut x = v;
    let mut i: usize = 0;
    while i < 8
        invariant
            i <= 8,
            le_bytes(v as nat, 8) == out@.skip(start.len() as int) + le_bytes(
                x as nat,
                (8 - i) as nat,
            ),
            out@.len() == start.len() + i,
            out@.subrange(0, start.len() as int) == start,
        decreases 8 - i,
    {
        let ghost prev = out@;
        let b: u8 = (x % 256) as u8;
        out.push(b);
        proof {
            assert(out@.skip(start.len() as int) =~= prev.skip(start.len() as int) + seq![b]);
            assert(le_bytes(x as nat, (8 - i) as nat) == seq![b] + le_bytes(
                (x / 256) as nat,
                (8 - i - 1) as nat,
            ));
            assert(prev.skip(start.len() as int) + le_bytes(x as nat, (8 - i) as nat)
                =~= out@.skip(start.len() as int) + le_bytes((x / 256) as nat, (8 - i - 1) as nat));
            assert(out@.subrange(0, start.len() as int) =~= start);
        }
        x = x / 256;
        i += 1;
    }
    proof {
        assert(le_bytes(x as nat, 0) =~= Seq::<u8>::empty());
        assert(out@.skip(start.len() as int) + Seq::<u8>::empty() =~= out@.skip(
            start.len() as int,
        ));
        assert(out@ =~= start + out@.skip(start.len() as int));
    }
}

/// Reads eight little-endian bytes at `i` as a `u64`. `None` exactly when
/// fewer than eight bytes remain.
pub fn read_u64(bytes: &Vec<u8>, i: usize) -> (r: Option<(u64, usize)>)
    ensures
        match r {
            Some((v, j)) => {
                &&& i + 8 <= bytes@.len()
                &&& j == i + 8
                &&& le_bytes(v as nat, 8) == bytes@.subrange(i as int, j as int)
            },
            None => i + 8 > bytes@.len(),
        },
        forall|w: u64, j2: int|
            #[trigger] slice_is(bytes@, i as int, j2, le_bytes(w as nat, 8)) ==> r is Some
                && r->Some_0.0 == w && r->Some_0.1 == j2,
{
    if bytes.len() < 8 || i > bytes.len() - 8 {
        proof {
            assert forall|w: u64, j2: int|
                ! #[trigger] slice_is(bytes@, i as int, j2, le_bytes(w as nat, 8)) by {
                lemma_le_bytes_len(w as nat, 8);
                if slice_is(bytes@, i as int, j2, le_bytes(w as nat, 8)) {
                    assert(j2 == i + 8);
                }
            }
        }
        return None;
    }
    let ghost chunk = bytes@.subrange(i as int, i + 8 as int);
    let mut v: u64 = 0;
    let mut k: usize = 8;
    while k > 0
        invariant
            k <= 8,
            i + 8 <= bytes.len(),
            i + 8 <= bytes@.len(),
            chunk == bytes@.subrange(i as int, i + 8 as int),
            v as nat == from_le(chunk.skip(k as int)),
            v < pow256((8 - k) as nat),
        decreases k,
    {
        proof {
            assert(chunk.skip(k - 1 as int).drop_first() =~= chunk.skip(k as int));
            assert(from_le(chunk.skip(k - 1 as int)) == chunk[k - 1] + 256 * from_le(
                chunk.skip(k as int),
            ));
            reveal_with_fuel(pow256, 9);
            let va = v as nat;
            let ca = chunk[k - 1] as nat;
            let plo = pow256((8 - k) as nat);
            let phi = pow256((8 - (k - 1)) as nat);
            assert(va * 256 + ca < phi) by (nonlinear_arith)
                requires
                    va < plo,
                    ca < 256,
                    phi == 256 * plo,
            ;
            assert(phi <= pow256(8)) by {
                lemma_pow256_increases((8 - (k - 1)) as nat, 8);
            }
        }
        v = v * 256 + (bytes[i + k - 1] as u64);
        k -= 1;
    }
    proof {
        assert(chunk.skip(0) =~= chunk);
        lemma_le_bytes_of_from_le(chunk);
        assert forall|w: u64, j2: int|
            #[trigger] slice_is(bytes@, i as int, j2, le_bytes(w as nat, 8)) implies v == w && j2
            == i + 8 by {
            lemma_le_bytes_len(w as nat, 8);
            assert(j2 == i + 8);
            assert(bytes@.subrange(i as int, j2) == chunk);
            reveal_with_fuel(pow256, 9);
            lemma_from_le_of_le_bytes(w as nat, 8);
        }
    }
    Some((v, i + 8))
}

/// Appends the sixteen little-endian bytes of `v`.
pub fn write_u128(out: &mut Vec<u8>, v: u128)
    ensures
        final(out)@ == old(out)@ + le_bytes(v as nat, 16),
{
    let ghost start = out@;
    let mut x = v;
    let mut i: usize = 0;
    while i < 16
        invariant
            i <= 16,
            le_bytes(v as nat, 16) == out@.skip(start.len() as int) + le_bytes(
                x as nat,
                (16 - i) as nat,
            ),
            out@.len() == start.len() + i,
            out@.subrange(0, start.len() as int) == start,
        decreases 16 - i,
    {
        let ghost prev = out@;
        let b: u8 = (x % 256) as u8;
        out.push(b);
        proof {
            assert(out@.skip(start.len() as int) =~= prev.skip(start.len() as int) + seq![b]);
            assert(le_bytes(x as nat, (16 - i) as nat) == seq![b] + le_bytes(
                (x / 256) as nat,
                (16 - i - 1) as nat,
            ));
            assert(prev.skip(start.len() as int) + le_bytes(x as nat, (16 - i) as nat)
                =~= out@.skip(start.len() as int) + le_bytes(
                (x / 256) as nat,
                (16 - i - 1) as nat,
            ));
            assert(out@.subrange(0, start.len() as int) =~= start);
        }
        x = x / 256;
        i += 1;
    }
    proof {
        assert(le_bytes(x as nat, 0) =~= Seq::<u8>::empty());
        assert(out@.skip(start.len() as int) + Seq::<u8>::empty() =~= out@.skip(
            start.len() as int,
        ));
        assert(out@ =~= start + out@.skip(start.len() as int));
    }
}

/// Reads four little-endian bytes at `i` as a `u32`. `None` exactly when
/// fewer than four bytes remain.
pub fn read_u32(bytes: &Vec<u8>, i: usize) -> (r: Option<(u32, usize)>)
    ensures
        match r {
            Some((v, j)) => {
                &&& i + 4 <= bytes@.len()
                &&& j == i + 4
                &&& le_bytes(v as nat, 4) == bytes@.subrange(i as int, j as int)
            },
            None => i + 4 > bytes@.len(),
        },
        forall|w: u32, j2: int|
            #[trigger] slice_is(bytes@, i as int, j2, le_bytes(w as nat, 4)) ==> r is Some
                && r->Some_0.0 == w && r->Some_0.1 == j2,
{
    if bytes.len() < 4 || i > bytes.len() - 4 {
        proof {
            assert forall|w: u32, j2: int|
                ! #[trigger] slice_is(bytes@, i as int, j2, le_bytes(w as nat, 4)) by {
                lemma_le_bytes_len(w as nat, 4);
                if slice_is(bytes@, i as int, j2, le_bytes(w as nat, 4)) {
                    assert(j2 == i + 4);
                }
            }
        }
        return None;
    }
    let ghost chunk = bytes@.subrange(i as int, i + 4 as int);
    let mut v: u32 = 0;
    let mut k: usize = 4;
    while k > 0
        invariant
            k <= 4,
            i + 4 <= bytes.len(),
            i + 4 <= bytes@.len(),
            chunk == bytes@.subrange(i as int, i + 4 as int),
            v as nat == from_le(chunk.skip(k as int)),
            v < pow256((4 - k) as nat),
        decreases k,
    {
        proof {
            assert(chunk.skip(k - 1 as int).drop_first() =~= chunk.skip(k as int));
            assert(from_le(chunk.skip(k - 1 as int)) == chunk[k - 1] + 256 * from_le(
                chunk.skip(k as int),
            ));
            reveal_with_fuel(pow256, 5);
            assert(pow256(1) == 256 && pow256(2) == 65536 && pow256(3) == 16777216 && pow256(4)
                == 4294967296);
            let va = v as nat;
            let ca = chunk[k - 1] as nat;
            let plo = pow256((4 - k) as nat);
            let phi = pow256((4 - (k - 1)) as nat);
            assert(va * 256 + ca < phi) by (nonlinear_arith)
                requires
                    va < plo,
                    ca < 256,
                    phi == 256 * plo,
            ;
        }
        v = v * 256 + (bytes[i + k - 1] as u32);
        k -= 1;
    }
    proof {
        assert(chunk.skip(0) =~= chunk);
        lemma_le_bytes_of_from_le(chunk);
        assert forall|w: u32, j2: int|
            #[trigger] slice_is(bytes@, i as int, j2, le_bytes(w as nat, 4)) implies v == w && j2
            == i + 4 by {
            lemma_le_bytes_len(w as nat, 4);
            assert(j2 == i + 4);
            assert(bytes@.subrange(i as int, j2) == chunk);
            reveal_with_fuel(pow256, 5);
            lemma_from_le_of_le_bytes(w as nat, 4);
        }
    }
    Some((v, i + 4))
}

/// Reads sixteen little-endian bytes at `i` as a `u128`. `None` exactly
/// when fewer than sixteen bytes remain.
pub fn read_u128(bytes: &Vec<u8>, i: usize) -> (r: Option<(u128, usize)>)
    ensures
        match r {
            Some((v, j)) => {
                &&& i + 16 <= bytes@.len()
                &&& j == i + 16
                &&& le_bytes(v as nat, 16) == bytes@.subrange(i as int, j as int)
            },
            None => i + 16 > bytes@.len(),
        },
        forall|w: u128, j2: int|
            #[trigger] slice_is(bytes@, i as int, j2, le_bytes(w as nat, 16)) ==> r is Some
                && r->Some_0.0 == w && r->Some_0.1 == j2,
{
    if bytes.len() < 16 || i > bytes.len() - 16 {
        proof {
            assert forall|w: u128, j2: int|
                ! #[trigger] slice_is(bytes@, i as int, j2, le_bytes(w as nat, 16)) by {
                lemma_le_bytes_len(w as nat, 16);
                if slice_is(bytes@, i as int, j2, le_bytes(w as nat, 16)) {
                    assert(j2 == i + 16);
                }
            }
        }
        return None;
    }
    let ghost chunk = bytes@.subrange(i as int, i + 16 as int);
    let mut v: u128 = 0;
    let mut k: usize = 16;
    while k > 0
        invariant
            k <= 16,
            i + 16 <= bytes.len(),
            i + 16 <= bytes@.len(),
            chunk == bytes@.subrange(i as int, i + 16 as int),
            v as nat == from_le(chunk.skip(k as int)),
            v < pow256((16 - k) as nat),
        decreases k,
    {
        proof {
            assert(chunk.skip(k - 1 as int).drop_first() =~= chunk.skip(k as int));
            assert(from_le(chunk.skip(k - 1 as int)) == chunk[k - 1] + 256 * from_le(
                chunk.skip(k as int),
            ));
            lemma_pow256_u128();
            let va = v as nat;
            let ca = chunk[k - 1] as nat;
            let plo = pow256((16 - k) as nat);
            let phi = pow256((16 - (k - 1)) as nat);
            assert(va * 256 + ca < phi) by (nonlinear_arith)
                requires
                    va < plo,
                    ca < 256,
                    phi == 256 * plo,
            ;
            assert(phi <= pow256(16)) by {
                lemma_pow256_increases((16 - (k - 1)) as nat, 16);
            }
        }
        v = v * 256 + (bytes[i + k - 1] as u128);
        k -= 1;
    }
    proof {
        assert(chunk.skip(0) =~= chunk);
        lemma_le_bytes_of_from_le(chunk);
        assert forall|w: u128, j2: int|
            #[trigger] slice_is(bytes@, i as int, j2, le_bytes(w as nat, 16)) implies v == w && j2
            == i + 16 by {
            lemma_le_bytes_len(w as nat, 16);
            assert(j2 == i + 16);
            assert(bytes@.subrange(i as int, j2) == chunk);
            lemma_pow256_u128();
            lemma_from_le_of_le_bytes(w as nat, 16);
        }
    }
    Some((v, i + 16))
}

/// `pow256(16)` is one past the largest `u128`.
pub proof fn lemma_pow256_u128()
    ensures
        pow256(16) == 0x100000000000000000000000000000000,
{
    reveal_with_fuel(pow256, 17);
}

pub proof fn lemma_pow256_increases(a: nat, b: nat)
    requires
        a <= b,
    ensures
        pow256(a) <= pow256(b),
    decreases b,
{
    if a < b {
        lemma_pow256_increases(a, (b - 1) as nat);
        lemma_pow256_pos((b - 1) as nat);
        let p = pow256((b - 1) as nat);
        assert(pow256(b) == 256 * p);
        assert(256 * p >= p) by (nonlinear_arith)
            requires
                p >= 1,
        ;
    }
}

pub proof fn lemma_pow256_pos(n: nat)
    ensures
        pow256(n) >= 1,
    decreases n,
{
    if n > 0 {
        lemma_pow256_pos((n - 1) as nat);
    }
}

} // verus!
