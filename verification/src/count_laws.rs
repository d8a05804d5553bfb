//! The ring as a whole: what it holds when every member has the same number
//! of virtual nodes, and how changing that number moves between such rings.

use vstd::prelude::*;

use crate::consistent_hashing::{
    RingView, as_i32, join_all, join_vnodes, keys_increasing, leave_all, leave_vnodes, lemma_ring_remove_sorted,
    ring_map, ring_remove, vnode_hash,
};
use crate::ring_laws::{
    is_any_vnode_key, is_vnode_key, lemma_join_all_map, lemma_leave_all_map, lemma_leave_map, lemma_ring_map_at,
    lemma_ring_map_remove,
};

verus! {

/// The ring that `nodes` make when each has the virtual nodes `0..count`:
/// the position of every such virtual node, mapped to its node.
pub open spec fn full_ring(nodes: Seq<Seq<char>>, count: nat) -> Map<u64, Seq<char>> {
    Map::new(
        |k: u64| is_any_vnode_key(nodes, k, 0, count),
        |k: u64| choose|o: Seq<char>| nodes.contains(o) && is_vnode_key(o, k, 0, count),
    )
}

/// No two of the virtual nodes `0..count` of `nodes` share a position (so
/// no node is listed twice either).
pub open spec fn vnode_positions_distinct(nodes: Seq<Seq<char>>, count: nat) -> bool {
    forall|x: int, y: int, i: nat, j: nat|
        0 <= x < nodes.len() && 0 <= y < nodes.len() && i < count && j < count && #[trigger] vnode_hash(nodes[x], i)
            == #[trigger] vnode_hash(nodes[y], j) ==> x == y && i == j
}

/// With distinct positions, a position belongs to at most one node.
proof fn lemma_owner_unique(nodes: Seq<Seq<char>>, count: nat, k: u64, a: Seq<char>, b: Seq<char>)
    requires
        vnode_positions_distinct(nodes, count),
        nodes.contains(a),
        is_vnode_key(a, k, 0, count),
        nodes.contains(b),
        is_vnode_key(b, k, 0, count),
    ensures
        a == b,
{
    let x = choose|x: int| 0 <= x < nodes.len() && nodes[x] == a;
    let y = choose|y: int| 0 <= y < nodes.len() && nodes[y] == b;
    let i = choose|i: nat| 0 <= i < count && #[trigger] vnode_hash(a, i) == k;
    let j = choose|j: nat| 0 <= j < count && #[trigger] vnode_hash(b, j) == k;
    assert(vnode_hash(nodes[x], i) == vnode_hash(nodes[y], j));
}

/// The node that [`full_ring`] maps `k` to, when some node's virtual node
/// below `count` stands at `k`.
proof fn lemma_full_ring_at(nodes: Seq<Seq<char>>, count: nat, k: u64, o: Seq<char>)
    requires
        vnode_positions_distinct(nodes, count),
        nodes.contains(o),
        is_vnode_key(o, k, 0, count),
    ensures
        full_ring(nodes, count).contains_key(k),
        full_ring(nodes, count)[k] == o,
{
    let x = choose|x: int| 0 <= x < nodes.len() && nodes[x] == o;
    assert(is_vnode_key(nodes[x], k, 0, count));
    let c = choose|c: Seq<char>| nodes.contains(c) && is_vnode_key(c, k, 0, count);
    lemma_owner_unique(nodes, count, k, o, c);
}

/// The node that a position of [`full_ring`] maps to is a member with a
/// virtual node below `count` there.
proof fn lemma_full_ring_owner(nodes: Seq<Seq<char>>, count: nat, k: u64)
    requires
        full_ring(nodes, count).contains_key(k),
    ensures
        nodes.contains(full_ring(nodes, count)[k]),
        is_vnode_key(full_ring(nodes, count)[k], k, 0, count),
{
    let x = choose|x: int| 0 <= x < nodes.len() && is_vnode_key(#[trigger] nodes[x], k, 0, count);
    assert(nodes.contains(nodes[x]) && is_vnode_key(nodes[x], k, 0, count));
}

/// A position of a virtual node below `c` is one below `b` or one in `b..c`.
proof fn lemma_vnode_key_split(node: Seq<char>, k: u64, a: nat, b: nat, c: nat)
    requires
        a <= b <= c,
    ensures
        is_vnode_key(node, k, a, c) <==> is_vnode_key(node, k, a, b) || is_vnode_key(node, k, b, c),
{
    if is_vnode_key(node, k, a, c) {
        let i = choose|i: nat| a <= i < c && #[trigger] vnode_hash(node, i) == k;
        assert(vnode_hash(node, i) == k);
    }
    if is_vnode_key(node, k, a, b) {
        let i = choose|i: nat| a <= i < b && #[trigger] vnode_hash(node, i) == k;
        assert(vnode_hash(node, i) == k);
    }
    if is_vnode_key(node, k, b, c) {
        let i = choose|i: nat| b <= i < c && #[trigger] vnode_hash(node, i) == k;
        assert(vnode_hash(node, i) == k);
    }
}

/// A position of some node's virtual node below `c` is one below `b` or one
/// in `b..c`.
proof fn lemma_any_key_split(nodes: Seq<Seq<char>>, k: u64, b: nat, c: nat)
    requires
        b <= c,
    ensures
        is_any_vnode_key(nodes, k, 0, c) <==> is_any_vnode_key(nodes, k, 0, b) || is_any_vnode_key(nodes, k, b, c),
{
    if is_any_vnode_key(nodes, k, 0, c) {
        let x = choose|x: int| 0 <= x < nodes.len() && is_vnode_key(#[trigger] nodes[x], k, 0, c);
        lemma_vnode_key_split(nodes[x], k, 0, b, c);
    }
    if is_any_vnode_key(nodes, k, 0, b) {
        let x = choose|x: int| 0 <= x < nodes.len() && is_vnode_key(#[trigger] nodes[x], k, 0, b);
        lemma_vnode_key_split(nodes[x], k, 0, b, c);
    }
    if is_any_vnode_key(nodes, k, b, c) {
        let x = choose|x: int| 0 <= x < nodes.len() && is_vnode_key(#[trigger] nodes[x], k, b, c);
        lemma_vnode_key_split(nodes[x], k, 0, b, c);
    }
}

/// With distinct positions, no position is both that of a virtual node below
/// `b` and that of one in `b..c`.
proof fn lemma_low_not_high(nodes: Seq<Seq<char>>, k: u64, b: nat, c: nat)
    requires
        b <= c,
        vnode_positions_distinct(nodes, c),
        is_any_vnode_key(nodes, k, 0, b),
    ensures
        !is_any_vnode_key(nodes, k, b, c),
{
    if is_any_vnode_key(nodes, k, b, c) {
        let x = choose|x: int| 0 <= x < nodes.len() && is_vnode_key(#[trigger] nodes[x], k, 0, b);
        let y = choose|y: int| 0 <= y < nodes.len() && is_vnode_key(#[trigger] nodes[y], k, b, c);
        let i = choose|i: nat| 0 <= i < b && #[trigger] vnode_hash(nodes[x], i) == k;
        let j = choose|j: nat| b <= j < c && #[trigger] vnode_hash(nodes[y], j) == k;
        assert(vnode_hash(nodes[x], i) == vnode_hash(nodes[y], j));
    }
}

/// Taking virtual nodes of `node` off a ring never meets an empty ring while
/// the ring holds a position that is none of theirs.
proof fn lemma_leave_vnodes_never_empty(s: Seq<(u64, Seq<char>)>, node: Seq<char>, j: nat, hi: nat, k: u64)
    requires
        keys_increasing(s),
        ring_map(s).contains_key(k),
        !is_vnode_key(node, k, j, hi),
    ensures
        leave_vnodes(s, node, j, hi).2,
    decreases hi - j,
{
    if j < hi {
        assert(!is_vnode_key(node, k, j + 1, hi)) by {
            if is_vnode_key(node, k, j + 1, hi) {
                let i = choose|i: nat| j + 1 <= i < hi && #[trigger] vnode_hash(node, i) == k;
                assert(vnode_hash(node, i) == k);
            }
        }
        lemma_leave_vnodes_never_empty(s, node, j + 1, hi, k);
        lemma_leave_map(s, node, j + 1, hi);
        let prior = leave_vnodes(s, node, j + 1, hi).0;
        assert(ring_map(prior).contains_key(k));
    }
}

/// Taking virtual nodes of each of `nodes` off a ring never meets an empty
/// ring while the ring holds a position that is none of theirs.
proof fn lemma_leave_all_never_empty(s: Seq<(u64, Seq<char>)>, nodes: Seq<Seq<char>>, lo: nat, hi: nat, k: u64)
    requires
        keys_increasing(s),
        ring_map(s).contains_key(k),
        !is_any_vnode_key(nodes, k, lo, hi),
    ensures
        leave_all(s, nodes, lo, hi).2,
    decreases nodes.len(),
{
    if nodes.len() > 0 {
        let init = nodes.drop_last();
        assert(!is_any_vnode_key(init, k, lo, hi)) by {
            if is_any_vnode_key(init, k, lo, hi) {
                let x = choose|x: int| 0 <= x < init.len() && is_vnode_key(#[trigger] init[x], k, lo, hi);
                assert(nodes[x] == init[x]);
            }
        }
        assert(!is_vnode_key(nodes.last(), k, lo, hi)) by {
            assert(nodes[nodes.len() - 1] == nodes.last());
        }
        lemma_leave_all_never_empty(s, init, lo, hi, k);
        lemma_leave_all_map(s, init, lo, hi);
        lemma_leave_vnodes_never_empty(leave_all(s, init, lo, hi).0, nodes.last(), lo, hi, k);
    }
}

/// Two sorted rings with the same positions and owners are the same ring.
pub proof fn lemma_sorted_ring_unique(s: Seq<(u64, Seq<char>)>, t: Seq<(u64, Seq<char>)>)
    requires
        keys_increasing(s),
        keys_increasing(t),
        ring_map(s) == ring_map(t),
    ensures
        s == t,
    decreases s.len(),
{
    if s.len() == 0 {
        if t.len() > 0 {
            lemma_ring_map_at(t, 0);
        }
        assert(s =~= t);
    } else {
        lemma_ring_map_at(s, 0);
        assert(t.len() > 0);
        lemma_ring_map_at(t, 0);
        let j = choose|j: int| 0 <= j < t.len() && #[trigger] t[j].0 == s[0].0;
        let i = choose|i: int| 0 <= i < s.len() && #[trigger] s[i].0 == t[0].0;
        if j > 0 {
            assert(t[0].0 < t[j].0);
        }
        if i > 0 {
            assert(s[0].0 < s[i].0);
        }
        let h = s[0].0;
        assert(ring_remove(s, h) == s.remove(0));
        assert(ring_remove(t, h) == t.remove(0));
        lemma_ring_remove_sorted(s, h);
        lemma_ring_remove_sorted(t, h);
        lemma_ring_map_remove(s, h);
        lemma_ring_map_remove(t, h);
        lemma_sorted_ring_unique(s.remove(0), t.remove(0));
        assert forall|k: int| 0 <= k < s.len() implies s[k] == t[k] by {
            if k > 0 {
                assert(s[k] == s.remove(0)[k - 1]);
                assert(t[k] == t.remove(0)[k - 1]);
            }
        }
        assert(s =~= t);
    }
}

/// Raising every member's virtual nodes from `from` to `to` takes the full
/// ring of `from` virtual nodes each to the full ring of `to` each, when no
/// two virtual nodes below `to` share a position.
pub proof fn law_grow_gives_full_ring(ring: Seq<(u64, Seq<char>)>, nodes: Seq<Seq<char>>, from: nat, to: nat)
    requires
        keys_increasing(ring),
        ring_map(ring) == full_ring(nodes, from),
        from <= to,
        vnode_positions_distinct(nodes, to),
    ensures
        keys_increasing(join_all(ring, nodes, from, to).0),
        ring_map(join_all(ring, nodes, from, to).0) == full_ring(nodes, to),
{
    lemma_join_all_map(ring, nodes, from, to);
    let r = join_all(ring, nodes, from, to).0;
    assert forall|k: u64| #[trigger] ring_map(r).contains_key(k) <==> full_ring(nodes, to).contains_key(k) by {
        lemma_any_key_split(nodes, k, from, to);
    }
    assert forall|k: u64| #[trigger] ring_map(r).contains_key(k) implies ring_map(r)[k] == full_ring(nodes, to)[k] by {
        let o = ring_map(r)[k];
        if exists|x: int| 0 <= x < nodes.len() && nodes[x] == o && is_vnode_key(o, k, from, to) {
            let x = choose|x: int| 0 <= x < nodes.len() && nodes[x] == o && is_vnode_key(o, k, from, to);
            lemma_vnode_key_split(o, k, 0, from, to);
            lemma_full_ring_at(nodes, to, k, o);
        } else {
            lemma_full_ring_owner(nodes, from, k);
            lemma_vnode_key_split(o, k, 0, from, to);
            lemma_full_ring_at(nodes, to, k, o);
        }
    }
    assert(ring_map(r) =~= full_ring(nodes, to));
}

/// Lowering every member's virtual nodes from `hi` to `lo` takes the full
/// ring of `hi` virtual nodes each to the full ring of `lo` each, when no two
/// virtual nodes below `hi` share a position; and with at least one virtual
/// node left each, no step meets an empty ring.
pub proof fn law_shrink_gives_full_ring(ring: Seq<(u64, Seq<char>)>, nodes: Seq<Seq<char>>, lo: nat, hi: nat)
    requires
        keys_increasing(ring),
        ring_map(ring) == full_ring(nodes, hi),
        lo <= hi,
        vnode_positions_distinct(nodes, hi),
    ensures
        keys_increasing(leave_all(ring, nodes, lo, hi).0),
        ring_map(leave_all(ring, nodes, lo, hi).0) == full_ring(nodes, lo),
        lo > 0 ==> leave_all(ring, nodes, lo, hi).2,
{
    lemma_leave_all_map(ring, nodes, lo, hi);
    let r = leave_all(ring, nodes, lo, hi).0;
    assert forall|k: u64| #[trigger] ring_map(r).contains_key(k) <==> full_ring(nodes, lo).contains_key(k) by {
        lemma_any_key_split(nodes, k, lo, hi);
        if is_any_vnode_key(nodes, k, 0, lo) {
            lemma_low_not_high(nodes, k, lo, hi);
        }
    }
    assert forall|k: u64| #[trigger] ring_map(r).contains_key(k) implies ring_map(r)[k] == full_ring(nodes, lo)[k] by {
        lemma_full_ring_owner(nodes, lo, k);
        let o = full_ring(nodes, lo)[k];
        lemma_vnode_key_split(o, k, 0, lo, hi);
        lemma_full_ring_at(nodes, hi, k, o);
    }
    assert(ring_map(r) =~= full_ring(nodes, lo));
    if lo > 0 && nodes.len() > 0 {
        let k = vnode_hash(nodes[0], 0);
        assert(is_vnode_key(nodes[0], k, 0, lo));
        assert(is_any_vnode_key(nodes, k, 0, lo));
        lemma_any_key_split(nodes, k, lo, hi);
        lemma_low_not_high(nodes, k, lo, hi);
        lemma_leave_all_never_empty(ring, nodes, lo, hi, k);
    }
}

/// Raising the number of virtual nodes and lowering it back gives the ring
/// that was there before, and the lowering never meets an empty ring, when
/// the ring was full and no two virtual nodes share a position.
pub proof fn law_grow_then_shrink_restores(ring: Seq<(u64, Seq<char>)>, nodes: Seq<Seq<char>>, c1: nat, c2: nat)
    requires
        keys_increasing(ring),
        ring_map(ring) == full_ring(nodes, c1),
        0 < c1 <= c2,
        vnode_positions_distinct(nodes, c2),
    ensures
        leave_all(join_all(ring, nodes, c1, c2).0, nodes, c1, c2).2,
        leave_all(join_all(ring, nodes, c1, c2).0, nodes, c1, c2).0 == ring,
{
    let grown = join_all(ring, nodes, c1, c2).0;
    law_grow_gives_full_ring(ring, nodes, c1, c2);
    law_shrink_gives_full_ring(grown, nodes, c1, c2);
    lemma_sorted_ring_unique(leave_all(grown, nodes, c1, c2).0, ring);
}

/// Lowering the number of virtual nodes and raising it back gives the ring
/// that was there before, and the lowering never meets an empty ring, when
/// the ring was full and no two virtual nodes share a position.
pub proof fn law_shrink_then_grow_restores(ring: Seq<(u64, Seq<char>)>, nodes: Seq<Seq<char>>, c1: nat, c2: nat)
    requires
        keys_increasing(ring),
        ring_map(ring) == full_ring(nodes, c1),
        0 < c2 <= c1,
        vnode_positions_distinct(nodes, c1),
    ensures
        leave_all(ring, nodes, c2, c1).2,
        join_all(leave_all(ring, nodes, c2, c1).0, nodes, c2, c1).0 == ring,
{
    let shrunk = leave_all(ring, nodes, c2, c1).0;
    law_shrink_gives_full_ring(ring, nodes, c2, c1);
    law_grow_gives_full_ring(shrunk, nodes, c2, c1);
    lemma_sorted_ring_unique(join_all(shrunk, nodes, c2, c1).0, ring);
}

/// Changing the number of virtual nodes of a full ring, as
/// [`ConsistentHashing::set_virtual_nodes_count`](crate::consistent_hashing::ConsistentHashing::set_virtual_nodes_count)
/// does for two counts that fit an `i32`, gives the full ring of the new count;
/// and a lowering never meets an empty ring, so the call is within its domain.
pub proof fn law_count_change_gives_full_ring(v: RingView, count: u32)
    requires
        keys_increasing(v.ring),
        ring_map(v.ring) == full_ring(v.nodes, v.virtual_nodes_count as nat),
        0 < count <= i32::MAX,
        v.virtual_nodes_count <= i32::MAX,
        vnode_positions_distinct(v.nodes, count as nat),
        vnode_positions_distinct(v.nodes, v.virtual_nodes_count as nat),
    ensures
        as_i32(count) > as_i32(v.virtual_nodes_count) ==> ring_map(
            join_all(v.ring, v.nodes, v.virtual_nodes_count as nat, count as nat).0,
        ) == full_ring(v.nodes, count as nat),
        as_i32(count) <= as_i32(v.virtual_nodes_count) ==> leave_all(
            v.ring,
            v.nodes,
            count as nat,
            v.virtual_nodes_count as nat,
        ).2 && ring_map(leave_all(v.ring, v.nodes, count as nat, v.virtual_nodes_count as nat).0) == full_ring(
            v.nodes,
            count as nat,
        ),
{
    let c = v.virtual_nodes_count as nat;
    if count > v.virtual_nodes_count {
        law_grow_gives_full_ring(v.ring, v.nodes, c, count as nat);
    } else {
        law_shrink_gives_full_ring(v.ring, v.nodes, count as nat, c);
    }
}

/// The rings that adding each of `nodes` in turn to ring `v` gives, as
/// [`ConsistentHashing::add_node`](crate::consistent_hashing::ConsistentHashing::add_node)
/// changes the ring when the node is new and the count not zero.
pub open spec fn add_each(v: RingView, nodes: Seq<Seq<char>>) -> RingView
    decreases nodes.len(),
{
    if nodes.len() == 0 {
        v
    } else {
        let prior = add_each(v, nodes.drop_last());
        RingView {
            ring: join_vnodes(prior.ring, nodes.last(), 0, prior.virtual_nodes_count as nat).0,
            nodes: prior.nodes.push(nodes.last()),
            virtual_nodes_count: prior.virtual_nodes_count,
        }
    }
}

/// Building a ring from a list of distinct nodes gives what an empty ring
/// gives after adding each node in turn: each node is new when it is added,
/// and the ring is the one
/// [`ConsistentHashing::new_with_nodes`](crate::consistent_hashing::ConsistentHashing::new_with_nodes)
/// promises.
pub proof fn law_new_with_nodes_adds_each(virtual_nodes_count: u32, nodes: Seq<Seq<char>>)
    requires
        nodes.no_duplicates(),
    ensures
        forall|k: int|
            0 <= k < nodes.len() ==> !(#[trigger] add_each(
                RingView { ring: seq![], nodes: seq![], virtual_nodes_count },
                nodes.take(k),
            )).nodes.contains(nodes[k]),
        add_each(RingView { ring: seq![], nodes: seq![], virtual_nodes_count }, nodes) == (RingView {
            ring: join_all(seq![], nodes, 0, virtual_nodes_count as nat).0,
            nodes,
            virtual_nodes_count,
        }),
    decreases nodes.len(),
{
    let empty = RingView { ring: seq![], nodes: seq![], virtual_nodes_count };
    if nodes.len() > 0 {
        let init = nodes.drop_last();
        assert(init.no_duplicates());
        law_new_with_nodes_adds_each(virtual_nodes_count, init);
        assert forall|k: int| 0 <= k < nodes.len() implies !(#[trigger] add_each(empty, nodes.take(k))).nodes.contains(
            nodes[k],
        ) by {
            if k < nodes.len() - 1 {
                assert(nodes.take(k) =~= init.take(k));
                assert(init[k] == nodes[k]);
            } else {
                assert(nodes.take(k) =~= init);
                if init.contains(nodes[k]) {
                    let j = choose|j: int| 0 <= j < init.len() && init[j] == nodes[k];
                    assert(nodes[j] == nodes[k]);
                }
            }
        }
        assert(init.push(nodes.last()) =~= nodes);
    } else {
        assert(nodes =~= seq![]);
    }
}

} // verus!
