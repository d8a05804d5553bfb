//! Looking a key up in the server's ring, which the `consistent_hasher`
//! crate keeps, and writing the answer as the server sends it.

use vstd::prelude::*;
use consistent_hasher::LDB;
use consistent_hasher::ldb::LdbError;

use crate::decimal::{decimal, decimal_string};
use crate::ip::{address_text, u128_to_ip};

verus! {

#[verifier::external_type_specification]
#[verifier::external_body]
pub struct ExLdb(LDB);

#[verifier::external_type_specification]
#[verifier::external_body]
pub struct ExLdbError(LdbError);

/// The ring's virtual nodes: each position on the ring mapped to the
/// identifier of the node that stands there. The positions are those in
/// `LDB`'s `hash_tree`; `hash_nodes_map` gives the node of each (it may keep
/// entries for positions no longer in the tree, which are not positions).
pub uninterp spec fn ldb_positions(ring: LDB) -> Map<u128, u128>;

/// The position that `ring`'s hasher gives the bytes of `key`: a fresh hasher
/// from the ring's hasher builder, written the key's bytes, finished and
/// taken modulo the ring's hash space. The builder is part of the ring (it
/// can be replaced with `LDB::set_hasher`), so the position is named here as
/// a function of the ring and the key rather than spelled out.
pub uninterp spec fn ldb_position(ring: LDB, key: Seq<char>) -> u128;

/// Whether `p` is the position that owns `h` on a ring whose virtual nodes
/// stand at `positions`: the first position at or after `h`, or, where no
/// position is as far as `h`, the lowest one (the ring wraps round).
pub open spec fn owns_position(positions: Set<u128>, h: u128, p: u128) -> bool {
    &&& positions.contains(p)
    &&& if exists|q: u128| positions.contains(q) && q >= h {
        p >= h && forall|q: u128| positions.contains(q) && q >= h ==> p <= q
    } else {
        forall|q: u128| positions.contains(q) ==> p <= q
    }
}

/// The position that owns `h` (see [`owns_position`]).
pub open spec fn owning_position(positions: Set<u128>, h: u128) -> u128 {
    choose|p: u128| owns_position(positions, h, p)
}

/// The node that owns position `h` on a ring with the given virtual nodes.
pub open spec fn owner_at(positions: Map<u128, u128>, h: u128) -> u128 {
    positions[owning_position(positions.dom(), h)]
}

/// `LDB::key`: hashes the bytes of `key` with the ring's hasher into a
/// position `h` and answers the node of the virtual node that owns `h` (the
/// first one at or after `h`, wrapping round to the lowest: the crate's
/// `CircularBTreeMap::val_in_node`), with `h`; `NoInstances` when the ring has
/// no virtual node. The method takes the ring mutably but changes nothing in
/// it, and the ring holds finitely many positions.
#[verifier::external_body]
fn ldb_key(ring: &mut LDB, key: &str) -> (r: Result<(u128, u128), LdbError>)
    ensures
        *final(ring) == *old(ring),
        ldb_positions(*old(ring)).dom().finite(),
        r is Err <==> ldb_positions(*old(ring)).dom().is_empty(),
        r matches Ok(found) ==> found.1 == ldb_position(*old(ring), key@) && exists|p: u128|
            owns_position(ldb_positions(*old(ring)).dom(), found.1, p) && found.0 == ldb_positions(
                *old(ring),
            )[p],
{
    ring.key(key)
}

/// A position owns `h` on a ring in at most one way.
proof fn lemma_owner_unique(positions: Set<u128>, h: u128, p: u128, q: u128)
    requires
        owns_position(positions, h, p),
        owns_position(positions, h, q),
    ensures
        p == q,
{
}

/// A finite nonempty set of positions has a least element.
proof fn lemma_least_position(s: Set<u128>) -> (m: u128)
    requires
        s.finite(),
        !s.is_empty(),
    ensures
        s.contains(m),
        forall|q: u128| s.contains(q) ==> m <= q,
    decreases s.len(),
{
    let x = s.choose();
    assert(s.contains(x)) by {
        if !s.contains(x) {
            assert(s =~= Set::<u128>::empty());
        }
    }
    let rest = s.remove(x);
    if rest.is_empty() {
        assert forall|q: u128| s.contains(q) implies x <= q by {
            if q != x {
                assert(rest.contains(q));
            }
        }
        x
    } else {
        assert(rest.len() < s.len()) by {
            vstd::set::axiom_set_remove_len(s, x);
        }
        let m = lemma_least_position(rest);
        if m < x {
            m
        } else {
            x
        }
    }
}

/// On a ring with at least one virtual node, every position has exactly
/// one owner: the one that [`owning_position`] names.
pub proof fn law_every_position_has_owner(positions: Set<u128>, h: u128)
    requires
        positions.finite(),
        !positions.is_empty(),
    ensures
        owns_position(positions, h, owning_position(positions, h)),
        forall|p: u128| owns_position(positions, h, p) ==> p == owning_position(positions, h),
{
    let p = if exists|q: u128| positions.contains(q) && q >= h {
        let later = positions.filter(|q: u128| q >= h);
        let q0 = choose|q: u128| positions.contains(q) && q >= h;
        assert(later.contains(q0));
        assert(!later.is_empty()) by {
            if later.is_empty() {
                assert(!Set::<u128>::empty().contains(q0));
            }
        }
        assert(later.finite()) by {
            vstd::set::axiom_set_intersect_finite(positions, Set::new(|q: u128| q >= h));
        }
        let m = lemma_least_position(later);
        assert forall|q: u128| positions.contains(q) && q >= h implies m <= q by {
            assert(later.contains(q));
        }
        m
    } else {
        lemma_least_position(positions)
    };
    assert(owns_position(positions, h, p));
    assert forall|q: u128| owns_position(positions, h, q) implies q == owning_position(positions, h) by {
        lemma_owner_unique(positions, h, q, owning_position(positions, h));
    }
}

/// The answer to a lookup, as the server sends it: the address of the node
/// and the key's position as decimal text. A node identifier below 1000 has
/// no address (see [`u128_to_ip`]).
pub fn node_reply(found: (u128, u128)) -> (r: (String, String))
    requires
        found.0 >= 1000,
    ensures
        r.0@ == address_text(found.0 as nat),
        r.1@ == decimal(found.1 as nat),
{
    (u128_to_ip(found.0), decimal_string(found.1))
}

/// The reply to the ring's answer to a lookup: for a node identifier of at
/// least 1000, its address and the position as decimal text; `None` for an
/// error (no virtual node on the ring) or an identifier with no address.
pub fn reply_for_answer(answer: Result<(u128, u128), LdbError>) -> (r: Option<(String, String)>)
    ensures
        match answer {
            Ok(found) => if found.0 >= 1000 {
                r matches Some(reply) && reply.0@ == address_text(found.0 as nat) && reply.1@ == decimal(
                    found.1 as nat,
                )
            } else {
                r is None
            },
            Err(_) => r is None,
        },
{
    match answer {
        Ok(found) => {
            if found.0 >= 1000 {
                Some(node_reply(found))
            } else {
                None
            }
        },
        Err(_) => None,
    }
}

/// Looks `key` up in `ring` and writes the answer: the address of the node
/// that owns the key's position and the position as decimal text; `None`
/// when the ring has no virtual node, or the owner's identifier is below 1000
/// and has no address. The ring is left as it was.
pub fn locate(ring: &mut LDB, key: &str) -> (r: Option<(String, String)>)
    ensures
        *final(ring) == *old(ring),
        ({
            let positions = ldb_positions(*old(ring));
            let h = ldb_position(*old(ring), key@);
            if positions.dom().is_empty() || owner_at(positions, h) < 1000 {
                r is None
            } else {
                r matches Some(reply) && reply.0@ == address_text(owner_at(positions, h) as nat)
                    && reply.1@ == decimal(h as nat)
            }
        }),
{
    let answer = ldb_key(ring, key);
    proof {
        let positions = ldb_positions(*old(ring));
        if let Ok(found) = answer {
            let p = choose|p: u128|
                owns_position(positions.dom(), found.1, p) && found.0 == positions[p];
            law_every_position_has_owner(positions.dom(), found.1);
            assert(found.0 == owner_at(positions, found.1));
        }
    }
    reply_for_answer(answer)
}

} // verus!
