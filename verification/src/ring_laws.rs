//! What every change of the ring keeps, and what changes undo each other.

use vstd::prelude::*;

use crate::consistent_hashing::{
    RingView, arrival, depart_vnodes, has_other_owner, join_all, join_vnodes, keys_increasing, leave_all,
    leave_vnodes, lemma_lower_bound_sorted, lemma_lower_bound_split, lemma_ring_insert_sorted,
    lemma_ring_remove_sorted, lower_bound, owner_index, prev_index, ring_insert, ring_map, ring_remove, strip_vnodes,
    vnode_hash,
};
use crate::transaction::range_holds;

verus! {

/// Whether `k` is the position of one of the virtual nodes `from..to` of `node`.
pub open spec fn is_vnode_key(node: Seq<char>, k: u64, from: nat, to: nat) -> bool {
    exists|i: nat| from <= i < to && #[trigger] vnode_hash(node, i) == k
}

/// Every position on the ring belongs to a member node, and is the position
/// of one of that node's virtual nodes.
pub open spec fn owned_by_members(v: RingView) -> bool {
    let m = ring_map(v.ring);
    forall|k: u64|
        #[trigger] m.contains_key(k) ==> v.nodes.contains(m[k]) && is_vnode_key(
            m[k],
            k,
            0,
            v.virtual_nodes_count as nat,
        )
}

/// On a sorted ring, the map holds each entry.
pub proof fn lemma_ring_map_at(s: Seq<(u64, Seq<char>)>, i: int)
    requires
        keys_increasing(s),
        0 <= i < s.len(),
    ensures
        ring_map(s).contains_key(s[i].0),
        ring_map(s)[s[i].0] == s[i].1,
{
    let k = s[i].0;
    assert(exists|j: int| 0 <= j < s.len() && #[trigger] s[j].0 == k);
    let j = choose|j: int| 0 <= j < s.len() && #[trigger] s[j].0 == k;
    if j < i {
        assert(s[j].0 < s[i].0);
    } else if j > i {
        assert(s[i].0 < s[j].0);
    }
}

/// Placing `n` at `h` on a sorted ring maps `h` to `n` and leaves the rest.
pub proof fn lemma_ring_map_insert(s: Seq<(u64, Seq<char>)>, h: u64, n: Seq<char>)
    requires
        keys_increasing(s),
    ensures
        ring_map(ring_insert(s, h, n)) == ring_map(s).insert(h, n),
{
    lemma_lower_bound_sorted(s, h);
    lemma_ring_insert_sorted(s, h, n);
    let p = lower_bound(s, h);
    let t = ring_insert(s, h, n);
    let replaced = p < s.len() && s[p].0 == h;
    assert forall|k: u64| #[trigger] ring_map(t).contains_key(k) <==> ring_map(s).insert(h, n).contains_key(k) by {
        if k == h {
            lemma_ring_map_at(t, p);
        } else {
            if ring_map(s).contains_key(k) {
                let i = choose|i: int| 0 <= i < s.len() && #[trigger] s[i].0 == k;
                let j = if replaced || i < p { i } else { i + 1 };
                assert(t[j].0 == k);
            }
            if ring_map(t).contains_key(k) {
                let j = choose|j: int| 0 <= j < t.len() && #[trigger] t[j].0 == k;
                let i = if replaced || j < p { j } else { j - 1 };
                assert(s[i].0 == k);
            }
        }
    }
    assert forall|k: u64| #[trigger] ring_map(t).contains_key(k) implies ring_map(t)[k] == ring_map(s).insert(h, n)[k] by {
        if k == h {
            lemma_ring_map_at(t, p);
        } else {
            let j = choose|j: int| 0 <= j < t.len() && #[trigger] t[j].0 == k;
            let i = if replaced || j < p { j } else { j - 1 };
            assert(s[i] == t[j]);
            lemma_ring_map_at(t, j);
            lemma_ring_map_at(s, i);
        }
    }
    assert(ring_map(t) =~= ring_map(s).insert(h, n));
}

/// Taking `h` off a sorted ring takes it out of the map and leaves the rest.
pub proof fn lemma_ring_map_remove(s: Seq<(u64, Seq<char>)>, h: u64)
    requires
        keys_increasing(s),
    ensures
        ring_map(ring_remove(s, h)) == ring_map(s).remove(h),
{
    lemma_lower_bound_sorted(s, h);
    lemma_ring_remove_sorted(s, h);
    let p = lower_bound(s, h);
    let t = ring_remove(s, h);
    let found = p < s.len() && s[p].0 == h;
    assert forall|k: u64| #[trigger] ring_map(t).contains_key(k) <==> ring_map(s).remove(h).contains_key(k) by {
        if ring_map(t).contains_key(k) {
            let j = choose|j: int| 0 <= j < t.len() && #[trigger] t[j].0 == k;
            let i = if !found || j < p { j } else { j + 1 };
            assert(s[i].0 == k);
            if k == h {
                if found {
                    if i < p {
                        assert(s[i].0 < h);
                    } else {
                        assert(s[p].0 < s[i].0);
                    }
                } else {
                    if i < p {
                        assert(s[i].0 < h);
                    } else {
                        assert(s[i].0 >= h);
                        if i > p {
                            assert(s[p].0 < s[i].0);
                        }
                    }
                }
            }
        }
        if ring_map(s).remove(h).contains_key(k) {
            let i = choose|i: int| 0 <= i < s.len() && #[trigger] s[i].0 == k;
            if found {
                assert(i != p);
                let j = if i < p { i } else { i - 1 };
                assert(t[j].0 == k);
            } else {
                assert(t[i].0 == k);
            }
        }
    }
    assert forall|k: u64| #[trigger] ring_map(t).contains_key(k) implies ring_map(t)[k] == ring_map(s).remove(h)[k] by {
        let j = choose|j: int| 0 <= j < t.len() && #[trigger] t[j].0 == k;
        let i = if !found || j < p { j } else { j + 1 };
        assert(s[i] == t[j]);
        lemma_ring_map_at(t, j);
        lemma_ring_map_at(s, i);
    }
    assert(ring_map(t) =~= ring_map(s).remove(h));
}

/// Placing the virtual nodes `from..to` of `node` maps each of their
/// positions to `node` and leaves the other positions as they were.
pub proof fn lemma_join_map(s: Seq<(u64, Seq<char>)>, node: Seq<char>, from: nat, to: nat)
    requires
        keys_increasing(s),
    ensures
        keys_increasing(join_vnodes(s, node, from, to).0),
        forall|k: u64|
            #[trigger] ring_map(join_vnodes(s, node, from, to).0).contains_key(k) <==> ring_map(s).contains_key(k)
                || is_vnode_key(node, k, from, to),
        forall|k: u64|
            #[trigger] ring_map(join_vnodes(s, node, from, to).0).contains_key(k) ==> ring_map(
                join_vnodes(s, node, from, to).0,
            )[k] == (if is_vnode_key(node, k, from, to) { node } else { ring_map(s)[k] }),
    decreases to,
{
    if to > from {
        let prior = join_vnodes(s, node, from, (to - 1) as nat);
        let h = vnode_hash(node, (to - 1) as nat);
        lemma_join_map(s, node, from, (to - 1) as nat);
        lemma_ring_insert_sorted(prior.0, h, node);
        lemma_ring_map_insert(prior.0, h, node);
        let r = join_vnodes(s, node, from, to).0;
        assert forall|k: u64| is_vnode_key(node, k, from, to) <==> (is_vnode_key(node, k, from, (to - 1) as nat) || k == h) by {
            if is_vnode_key(node, k, from, to) {
                let i = choose|i: nat| from <= i < to && #[trigger] vnode_hash(node, i) == k;
                if i < to - 1 {
                    assert(vnode_hash(node, i) == k);
                }
            }
            if k == h {
                assert(vnode_hash(node, (to - 1) as nat) == k);
            }
            if is_vnode_key(node, k, from, (to - 1) as nat) {
                let i = choose|i: nat| from <= i < to - 1 && #[trigger] vnode_hash(node, i) == k;
                assert(vnode_hash(node, i) == k);
            }
        }
    } else {
        assert forall|k: u64| !is_vnode_key(node, k, from, to) by {}
    }
}

/// Taking off the virtual nodes `0..n` of `node` removes their positions
/// and leaves the other positions as they were.
pub proof fn lemma_strip_map(s: Seq<(u64, Seq<char>)>, node: Seq<char>, n: nat)
    requires
        keys_increasing(s),
    ensures
        keys_increasing(strip_vnodes(s, node, n)),
        forall|k: u64|
            #[trigger] ring_map(strip_vnodes(s, node, n)).contains_key(k) <==> ring_map(s).contains_key(k)
                && !is_vnode_key(node, k, 0, n),
        forall|k: u64|
            #[trigger] ring_map(strip_vnodes(s, node, n)).contains_key(k) ==> ring_map(strip_vnodes(s, node, n))[k]
                == ring_map(s)[k],
    decreases n,
{
    if n > 0 {
        let prior = strip_vnodes(s, node, (n - 1) as nat);
        let h = vnode_hash(node, (n - 1) as nat);
        lemma_strip_map(s, node, (n - 1) as nat);
        lemma_ring_remove_sorted(prior, h);
        lemma_ring_map_remove(prior, h);
        assert forall|k: u64| is_vnode_key(node, k, 0, n) <==> (is_vnode_key(node, k, 0, (n - 1) as nat) || k == h) by {
            if is_vnode_key(node, k, 0, n) {
                let i = choose|i: nat| 0 <= i < n && #[trigger] vnode_hash(node, i) == k;
                if i < n - 1 {
                    assert(vnode_hash(node, i) == k);
                }
            }
            if k == h {
                assert(vnode_hash(node, (n - 1) as nat) == k);
            }
            if is_vnode_key(node, k, 0, (n - 1) as nat) {
                let i = choose|i: nat| 0 <= i < n - 1 && #[trigger] vnode_hash(node, i) == k;
                assert(vnode_hash(node, i) == k);
            }
        }
    } else {
        assert forall|k: u64| !is_vnode_key(node, k, 0, n) by {}
    }
}

/// Taking off the virtual nodes `j..hi` of `node` removes their positions
/// and leaves the other positions as they were.
pub proof fn lemma_leave_map(s: Seq<(u64, Seq<char>)>, node: Seq<char>, j: nat, hi: nat)
    requires
        keys_increasing(s),
    ensures
        keys_increasing(leave_vnodes(s, node, j, hi).0),
        forall|k: u64|
            #[trigger] ring_map(leave_vnodes(s, node, j, hi).0).contains_key(k) <==> ring_map(s).contains_key(k)
                && !is_vnode_key(node, k, j, hi),
        forall|k: u64|
            #[trigger] ring_map(leave_vnodes(s, node, j, hi).0).contains_key(k) ==> ring_map(
                leave_vnodes(s, node, j, hi).0,
            )[k] == ring_map(s)[k],
    decreases hi - j,
{
    if j < hi {
        let prior = leave_vnodes(s, node, j + 1, hi);
        let h = vnode_hash(node, j);
        lemma_leave_map(s, node, j + 1, hi);
        lemma_ring_remove_sorted(prior.0, h);
        lemma_ring_map_remove(prior.0, h);
        assert forall|k: u64| is_vnode_key(node, k, j, hi) <==> (is_vnode_key(node, k, j + 1, hi) || k == h) by {
            if is_vnode_key(node, k, j, hi) {
                let i = choose|i: nat| j <= i < hi && #[trigger] vnode_hash(node, i) == k;
                if i > j {
                    assert(vnode_hash(node, i) == k);
                }
            }
            if k == h {
                assert(vnode_hash(node, j) == k);
            }
            if is_vnode_key(node, k, j + 1, hi) {
                let i = choose|i: nat| j + 1 <= i < hi && #[trigger] vnode_hash(node, i) == k;
                assert(vnode_hash(node, i) == k);
            }
        }
    } else {
        assert forall|k: u64| !is_vnode_key(node, k, j, hi) by {}
    }
}

/// Whether `k` is the position of one of the virtual nodes `from..to` of
/// some node of `nodes`.
pub open spec fn is_any_vnode_key(nodes: Seq<Seq<char>>, k: u64, from: nat, to: nat) -> bool {
    exists|x: int| 0 <= x < nodes.len() && is_vnode_key(#[trigger] nodes[x], k, from, to)
}

/// Placing the virtual nodes `from..to` of each of `nodes` maps each of their
/// positions to one of the nodes it belongs to, and leaves the other
/// positions as they were.
pub proof fn lemma_join_all_map(s: Seq<(u64, Seq<char>)>, nodes: Seq<Seq<char>>, from: nat, to: nat)
    requires
        keys_increasing(s),
    ensures
        keys_increasing(join_all(s, nodes, from, to).0),
        forall|k: u64|
            #[trigger] ring_map(join_all(s, nodes, from, to).0).contains_key(k) <==> ring_map(s).contains_key(k)
                || is_any_vnode_key(nodes, k, from, to),
        forall|k: u64|
            #[trigger] ring_map(join_all(s, nodes, from, to).0).contains_key(k) ==> {
                let o = ring_map(join_all(s, nodes, from, to).0)[k];
                ||| (exists|x: int| 0 <= x < nodes.len() && nodes[x] == o && is_vnode_key(o, k, from, to))
                ||| (!is_any_vnode_key(nodes, k, from, to) && o == ring_map(s)[k])
            },
    decreases nodes.len(),
{
    if nodes.len() > 0 {
        let init = nodes.drop_last();
        let last = nodes.last();
        let prior = join_all(s, init, from, to);
        lemma_join_all_map(s, init, from, to);
        lemma_join_map(prior.0, last, from, to);
        let r = join_all(s, nodes, from, to).0;
        assert forall|k: u64| is_any_vnode_key(nodes, k, from, to) <==> (is_any_vnode_key(init, k, from, to)
            || is_vnode_key(last, k, from, to)) by {
            if is_any_vnode_key(nodes, k, from, to) {
                let x = choose|x: int| 0 <= x < nodes.len() && is_vnode_key(#[trigger] nodes[x], k, from, to);
                if x < nodes.len() - 1 {
                    assert(init[x] == nodes[x]);
                }
            }
            if is_any_vnode_key(init, k, from, to) {
                let x = choose|x: int| 0 <= x < init.len() && is_vnode_key(#[trigger] init[x], k, from, to);
                assert(nodes[x] == init[x]);
            }
            if is_vnode_key(last, k, from, to) {
                assert(nodes[nodes.len() - 1] == last);
            }
        }
        assert forall|k: u64| #[trigger] ring_map(r).contains_key(k) implies {
            let o = ring_map(r)[k];
            ||| (exists|x: int| 0 <= x < nodes.len() && nodes[x] == o && is_vnode_key(o, k, from, to))
            ||| (!is_any_vnode_key(nodes, k, from, to) && o == ring_map(s)[k])
        } by {
            let o = ring_map(r)[k];
            if is_vnode_key(last, k, from, to) {
                assert(nodes[nodes.len() - 1] == last);
            } else {
                assert(ring_map(prior.0).contains_key(k));
                if is_any_vnode_key(init, k, from, to) {
                    let x = choose|x: int| 0 <= x < init.len() && init[x] == o && is_vnode_key(o, k, from, to);
                    assert(nodes[x] == init[x]);
                }
            }
        }
    } else {
        assert forall|k: u64| !is_any_vnode_key(nodes, k, from, to) by {}
    }
}

/// Taking off the virtual nodes `lo..hi` of each of `nodes` removes their
/// positions and leaves the other positions as they were.
pub proof fn lemma_leave_all_map(s: Seq<(u64, Seq<char>)>, nodes: Seq<Seq<char>>, lo: nat, hi: nat)
    requires
        keys_increasing(s),
    ensures
        keys_increasing(leave_all(s, nodes, lo, hi).0),
        forall|k: u64|
            #[trigger] ring_map(leave_all(s, nodes, lo, hi).0).contains_key(k) <==> ring_map(s).contains_key(k)
                && !is_any_vnode_key(nodes, k, lo, hi),
        forall|k: u64|
            #[trigger] ring_map(leave_all(s, nodes, lo, hi).0).contains_key(k) ==> ring_map(
                leave_all(s, nodes, lo, hi).0,
            )[k] == ring_map(s)[k],
    decreases nodes.len(),
{
    if nodes.len() > 0 {
        let init = nodes.drop_last();
        let last = nodes.last();
        let prior = leave_all(s, init, lo, hi);
        lemma_leave_all_map(s, init, lo, hi);
        lemma_leave_map(prior.0, last, lo, hi);
        assert forall|k: u64| is_any_vnode_key(nodes, k, lo, hi) <==> (is_any_vnode_key(init, k, lo, hi)
            || is_vnode_key(last, k, lo, hi)) by {
            if is_any_vnode_key(nodes, k, lo, hi) {
                let x = choose|x: int| 0 <= x < nodes.len() && is_vnode_key(#[trigger] nodes[x], k, lo, hi);
                if x < nodes.len() - 1 {
                    assert(init[x] == nodes[x]);
                }
            }
            if is_any_vnode_key(init, k, lo, hi) {
                let x = choose|x: int| 0 <= x < init.len() && is_vnode_key(#[trigger] init[x], k, lo, hi);
                assert(nodes[x] == init[x]);
            }
            if is_vnode_key(last, k, lo, hi) {
                assert(nodes[nodes.len() - 1] == last);
            }
        }
    } else {
        assert forall|k: u64| !is_any_vnode_key(nodes, k, lo, hi) by {}
    }
}

// ---------------------------------------------------------------------------
// Laws

/// An empty ring has no positions to account for.
pub proof fn law_empty_ring_owned(virtual_nodes_count: u32)
    ensures
        owned_by_members(RingView { ring: seq![], nodes: seq![], virtual_nodes_count }),
{
    let v = RingView { ring: seq![], nodes: seq![], virtual_nodes_count };
    assert forall|k: u64| !#[trigger] ring_map(v.ring).contains_key(k) by {}
}

/// Adding a node keeps every position owned by a member, at one of that
/// member's virtual nodes.
pub proof fn law_add_node_keeps_owners(v: RingView, node: Seq<char>)
    requires
        keys_increasing(v.ring),
        owned_by_members(v),
        !v.nodes.contains(node),
    ensures
        owned_by_members(RingView {
            ring: join_vnodes(v.ring, node, 0, v.virtual_nodes_count as nat).0,
            nodes: v.nodes.push(node),
            virtual_nodes_count: v.virtual_nodes_count,
        }),
{
    let n = v.virtual_nodes_count as nat;
    let w = RingView { ring: join_vnodes(v.ring, node, 0, n).0, nodes: v.nodes.push(node), virtual_nodes_count: v.virtual_nodes_count };
    lemma_join_map(v.ring, node, 0, n);
    assert forall|k: u64| #[trigger] ring_map(w.ring).contains_key(k) implies w.nodes.contains(ring_map(w.ring)[k])
        && is_vnode_key(ring_map(w.ring)[k], k, 0, n) by {
        if is_vnode_key(node, k, 0, n) {
            assert(w.nodes[v.nodes.len() as int] == node);
        } else {
            let o = ring_map(v.ring)[k];
            assert(v.nodes.contains(o));
            let x = choose|x: int| 0 <= x < v.nodes.len() && v.nodes[x] == o;
            assert(w.nodes[x] == o);
        }
    }
}

/// Removing member `v.nodes[i]` keeps every position owned by a member, and
/// leaves no position owned by the removed node.
pub proof fn law_remove_node_keeps_owners(v: RingView, i: int)
    requires
        keys_increasing(v.ring),
        owned_by_members(v),
        0 <= i < v.nodes.len(),
    ensures
        owned_by_members(RingView {
            ring: strip_vnodes(v.ring, v.nodes[i], v.virtual_nodes_count as nat),
            nodes: v.nodes.remove(i),
            virtual_nodes_count: v.virtual_nodes_count,
        }),
        forall|j: int|
            0 <= j < strip_vnodes(v.ring, v.nodes[i], v.virtual_nodes_count as nat).len() ==> #[trigger] strip_vnodes(
                v.ring,
                v.nodes[i],
                v.virtual_nodes_count as nat,
            )[j].1 != v.nodes[i],
{
    let n = v.virtual_nodes_count as nat;
    let node = v.nodes[i];
    let t = strip_vnodes(v.ring, node, n);
    let w = RingView { ring: t, nodes: v.nodes.remove(i), virtual_nodes_count: v.virtual_nodes_count };
    lemma_strip_map(v.ring, node, n);
    assert forall|k: u64| #[trigger] ring_map(t).contains_key(k) implies w.nodes.contains(ring_map(t)[k])
        && is_vnode_key(ring_map(t)[k], k, 0, n) && ring_map(t)[k] != node by {
        let o = ring_map(v.ring)[k];
        assert(v.nodes.contains(o));
        let x = choose|x: int| 0 <= x < v.nodes.len() && v.nodes[x] == o;
        if x == i {
            assert(is_vnode_key(node, k, 0, n));
        } else if x < i {
            assert(w.nodes[x] == o);
        } else {
            assert(w.nodes[x - 1] == o);
        }
    }
    assert forall|j: int| 0 <= j < t.len() implies #[trigger] t[j].1 != node by {
        lemma_ring_map_at(t, j);
    }
}

/// Raising the number of virtual nodes keeps every position owned by a
/// member, at one of that member's virtual nodes below the new count.
pub proof fn law_grow_keeps_owners(v: RingView, count: u32)
    requires
        keys_increasing(v.ring),
        owned_by_members(v),
        v.virtual_nodes_count <= count,
    ensures
        owned_by_members(RingView {
            ring: join_all(v.ring, v.nodes, v.virtual_nodes_count as nat, count as nat).0,
            nodes: v.nodes,
            virtual_nodes_count: count,
        }),
{
    let lo = v.virtual_nodes_count as nat;
    let r = join_all(v.ring, v.nodes, lo, count as nat).0;
    lemma_join_all_map(v.ring, v.nodes, lo, count as nat);
    assert forall|k: u64| #[trigger] ring_map(r).contains_key(k) implies v.nodes.contains(ring_map(r)[k])
        && is_vnode_key(ring_map(r)[k], k, 0, count as nat) by {
        let o = ring_map(r)[k];
        if exists|x: int| 0 <= x < v.nodes.len() && v.nodes[x] == o && is_vnode_key(o, k, lo, count as nat) {
            let x = choose|x: int| 0 <= x < v.nodes.len() && v.nodes[x] == o && is_vnode_key(o, k, lo, count as nat);
            let i = choose|i: nat| lo <= i < count && #[trigger] vnode_hash(o, i) == k;
            assert(vnode_hash(o, i) == k);
        } else {
            assert(ring_map(v.ring).contains_key(k));
            let i = choose|i: nat| 0 <= i < lo && #[trigger] vnode_hash(o, i) == k;
            assert(vnode_hash(o, i) == k);
        }
    }
}

/// Lowering the number of virtual nodes (or a count that the `i32`
/// comparison reads as lower while taking nothing off) keeps every position
/// owned by a member, at one of that member's virtual nodes below the new
/// count.
pub proof fn law_shrink_keeps_owners(v: RingView, count: u32)
    requires
        keys_increasing(v.ring),
        owned_by_members(v),
    ensures
        owned_by_members(RingView {
            ring: leave_all(v.ring, v.nodes, count as nat, v.virtual_nodes_count as nat).0,
            nodes: v.nodes,
            virtual_nodes_count: count,
        }),
{
    let hi = v.virtual_nodes_count as nat;
    let r = leave_all(v.ring, v.nodes, count as nat, hi).0;
    lemma_leave_all_map(v.ring, v.nodes, count as nat, hi);
    assert forall|k: u64| #[trigger] ring_map(r).contains_key(k) implies v.nodes.contains(ring_map(r)[k])
        && is_vnode_key(ring_map(r)[k], k, 0, count as nat) by {
        let o = ring_map(v.ring)[k];
        let i = choose|i: nat| 0 <= i < hi && #[trigger] vnode_hash(o, i) == k;
        if i >= count {
            let x = choose|x: int| 0 <= x < v.nodes.len() && v.nodes[x] == o;
            assert(vnode_hash(o, i) == k);
            assert(is_vnode_key(v.nodes[x], k, count as nat, hi));
        }
        assert(vnode_hash(o, i) == k);
    }
}

/// Adding a node and removing it again leaves the ring as it was, when none
/// of the node's virtual-node positions was already on the ring; and the
/// removal is possible then, as another node still owns an entry.
pub proof fn law_add_then_remove(v: RingView, node: Seq<char>)
    requires
        keys_increasing(v.ring),
        owned_by_members(v),
        !v.nodes.contains(node),
        forall|i: nat| i < v.virtual_nodes_count ==> !ring_map(v.ring).contains_key(#[trigger] vnode_hash(node, i)),
    ensures
        ring_map(
            strip_vnodes(
                join_vnodes(v.ring, node, 0, v.virtual_nodes_count as nat).0,
                node,
                v.virtual_nodes_count as nat,
            ),
        ) == ring_map(v.ring),
        v.nodes.push(node).remove(v.nodes.len() as int) == v.nodes,
        v.ring.len() > 0 ==> has_other_owner(join_vnodes(v.ring, node, 0, v.virtual_nodes_count as nat).0, node),
{
    let n = v.virtual_nodes_count as nat;
    let added = join_vnodes(v.ring, node, 0, n).0;
    lemma_join_map(v.ring, node, 0, n);
    lemma_strip_map(added, node, n);
    let back = strip_vnodes(added, node, n);
    assert forall|k: u64| ring_map(v.ring).contains_key(k) implies !is_vnode_key(node, k, 0, n) by {
        if is_vnode_key(node, k, 0, n) {
            let i = choose|i: nat| 0 <= i < n && #[trigger] vnode_hash(node, i) == k;
            assert(!ring_map(v.ring).contains_key(vnode_hash(node, i)));
        }
    }
    assert(ring_map(back) =~= ring_map(v.ring));
    assert(v.nodes.push(node).remove(v.nodes.len() as int) =~= v.nodes);
    if v.ring.len() > 0 {
        lemma_ring_map_at(v.ring, 0);
        let k = v.ring[0].0;
        let o = v.ring[0].1;
        assert(v.nodes.contains(o));
        assert(o != node);
        assert(ring_map(added).contains_key(k));
        assert(ring_map(added)[k] == o);
        let j = choose|j: int| 0 <= j < added.len() && #[trigger] added[j].0 == k;
        lemma_ring_map_at(added, j);
        assert(added[j].1 != node);
    }
}

/// Every owner found on a ring whose positions are owned by members is a
/// member.
pub proof fn law_lookup_finds_member(v: RingView, h: u64)
    requires
        keys_increasing(v.ring),
        owned_by_members(v),
        v.ring.len() > 0,
    ensures
        v.nodes.contains(v.ring[owner_index(v.ring, h)].1),
{
    crate::consistent_hashing::lemma_lower_bound(v.ring, h);
    lemma_ring_map_at(v.ring, owner_index(v.ring, h));
}

/// A key belongs to the first entry at or after its hash; when no entry is at
/// or after it, to the first entry of the ring.
pub proof fn law_lookup_is_successor(s: Seq<(u64, Seq<char>)>, h: u64)
    requires
        keys_increasing(s),
        s.len() > 0,
    ensures
        0 <= owner_index(s, h) < s.len(),
        (exists|i: int| 0 <= i < s.len() && s[i].0 >= h) ==> {
            &&& s[owner_index(s, h)].0 >= h
            &&& forall|i: int| 0 <= i < s.len() && #[trigger] s[i].0 >= h ==> s[owner_index(s, h)].0 <= s[i].0
        },
        (forall|i: int| 0 <= i < s.len() ==> #[trigger] s[i].0 < h) ==> forall|i: int|
            0 <= i < s.len() ==> s[owner_index(s, h)].0 <= #[trigger] s[i].0,
{
    lemma_lower_bound_sorted(s, h);
    let p = lower_bound(s, h);
    if exists|i: int| 0 <= i < s.len() && s[i].0 >= h {
        let i = choose|i: int| 0 <= i < s.len() && s[i].0 >= h;
        assert(p < s.len());
        assert forall|j: int| 0 <= j < s.len() && #[trigger] s[j].0 >= h implies s[p].0 <= s[j].0 by {
            if j > p {
                assert(s[p].0 < s[j].0);
            }
        }
    } else {
        assert(p == s.len());
        assert forall|j: int| 0 <= j < s.len() implies s[0].0 <= #[trigger] s[j].0 by {
            if j > 0 {
                assert(s[0].0 < s[j].0);
            }
        }
    }
}

/// The range that a new virtual node at `h` takes over, from the entry
/// before it up to `h`, is exactly the set of hashes that the new entry
/// owns, on a ring of at least two entries.
pub proof fn law_arrival_range_is_owned_range(s: Seq<(u64, Seq<char>)>, h: u64, node: Seq<char>, x: u64)
    requires
        keys_increasing(s),
        ring_insert(s, h, node).len() >= 2,
    ensures
        ({
            let t = ring_insert(s, h, node);
            let range = crate::transaction::transaction_view(t[prev_index(t, h)].1, node, t[prev_index(t, h)].0, h);
            owner_index(t, x) == lower_bound(t, h) <==> range_holds(range, x)
        }),
{
    let t = ring_insert(s, h, node);
    lemma_ring_insert_sorted(s, h, node);
    let q = lower_bound(t, h);
    lemma_lower_bound_sorted(t, h);
    lemma_lower_bound_sorted(t, x);
    assert(t[q].0 == h);
    let len = t.len() as int;
    let px = lower_bound(t, x);
    if q > 0 {
        let p = t[q - 1].0;
        assert(p < h);
        if px == q {
            assert(t[q - 1].0 < x);
        }
        if p < x && x <= h {
            assert forall|i: int| 0 <= i < q implies t[i].0 < x by {
                if i < q - 1 {
                    assert(t[i].0 < t[q - 1].0);
                }
            }
            assert forall|i: int| q <= i < len implies t[i].0 >= x by {
                if i > q {
                    assert(t[q].0 < t[i].0);
                }
            }
            lemma_lower_bound_split(t, x, q);
        }
    } else {
        let p = t[len - 1].0;
        assert(t[0].0 < t[len - 1].0);
        if x <= h {
            assert forall|i: int| 0 <= i < len implies t[i].0 >= x by {
                if i > 0 {
                    assert(t[0].0 < t[i].0);
                }
            }
            lemma_lower_bound_split(t, x, 0);
        } else if x > p {
            assert forall|i: int| 0 <= i < len implies t[i].0 < x by {
                if i < len - 1 {
                    assert(t[i].0 < t[len - 1].0);
                }
            }
            lemma_lower_bound_split(t, x, len);
        } else {
            if px == 0 {
                assert(t[0].0 >= x);
            }
            if px == len {
                assert(t[len - 1].0 < x);
            }
        }
    }
}

/// Every transaction of a node's arrival hands a range to that node from
/// another node.
pub proof fn law_arrivals_go_to_new_node(s: Seq<(u64, Seq<char>)>, node: Seq<char>, from: nat, to: nat)
    ensures
        forall|j: int|
            0 <= j < join_vnodes(s, node, from, to).1.len() ==> (#[trigger] join_vnodes(s, node, from, to).1[j]).destination
                == node && join_vnodes(s, node, from, to).1[j].source != node,
    decreases to,
{
    if to > from {
        law_arrivals_go_to_new_node(s, node, from, (to - 1) as nat);
        let prior = join_vnodes(s, node, from, (to - 1) as nat);
        let h = vnode_hash(node, (to - 1) as nat);
        let placed = ring_insert(prior.0, h, node);
        let all = join_vnodes(s, node, from, to).1;
        assert(all == prior.1 + arrival(placed, node, h));
        assert forall|j: int| 0 <= j < all.len() implies (#[trigger] all[j]).destination == node && all[j].source != node by {
            if j < prior.1.len() {
                assert(all[j] == prior.1[j]);
            } else {
                assert(all[j] == arrival(placed, node, h)[j - prior.1.len()]);
            }
        }
    }
}

/// Every transaction of a node's departure hands a range away from that node.
pub proof fn law_departures_leave_node(s: Seq<(u64, Seq<char>)>, node: Seq<char>, n: nat)
    ensures
        forall|j: int|
            0 <= j < depart_vnodes(s, node, n).1.len() ==> (#[trigger] depart_vnodes(s, node, n).1[j]).source == node,
    decreases n,
{
    if n > 0 {
        law_departures_leave_node(s, node, (n - 1) as nat);
        let prior = depart_vnodes(s, node, (n - 1) as nat);
        let all = depart_vnodes(s, node, n).1;
        assert forall|j: int| 0 <= j < all.len() implies (#[trigger] all[j]).source == node by {
            if j < prior.1.len() {
                assert(all[j] == prior.1[j]);
            }
        }
    }
}

// ---------------------------------------------------------------------------
// Minimal disruption

/// The owner of hash `x` on ring `s`.
pub open spec fn owner_of(s: Seq<(u64, Seq<char>)>, x: u64) -> Seq<char> {
    s[owner_index(s, x)].1
}

/// Placing a new position on a sorted ring counts it among the positions
/// below `x` exactly when it is below `x`.
proof fn lemma_lower_bound_after_insert(s: Seq<(u64, Seq<char>)>, h: u64, n: Seq<char>, x: u64)
    requires
        keys_increasing(s),
        !(lower_bound(s, h) < s.len() && s[lower_bound(s, h)].0 == h),
    ensures
        lower_bound(ring_insert(s, h, n), x) == lower_bound(s, x) + (if h < x { 1int } else { 0int }),
{
    lemma_lower_bound_sorted(s, h);
    lemma_lower_bound_sorted(s, x);
    lemma_ring_insert_sorted(s, h, n);
    let p = lower_bound(s, h);
    let q = lower_bound(s, x);
    let t = ring_insert(s, h, n);
    let e = q + (if h < x { 1int } else { 0int });
    if h < x {
        assert(p <= q) by {
            if p > q {
                assert(s[q].0 >= x);
                assert(s[q].0 < h);
            }
        }
    } else {
        assert(q <= p) by {
            if q > p {
                assert(s[p].0 < x);
                assert(s[p].0 >= h);
            }
        }
    }
    assert forall|i: int| 0 <= i < e implies t[i].0 < x by {
        if i < p {
            assert(t[i] == s[i]);
        } else if i == p {
        } else {
            assert(t[i] == s[i - 1]);
        }
    }
    assert forall|i: int| e <= i < t.len() implies t[i].0 >= x by {
        if i < p {
            assert(t[i] == s[i]);
        } else if i == p {
        } else {
            assert(t[i] == s[i - 1]);
        }
    }
    lemma_lower_bound_split(t, x, e);
}

/// Placing `n` at `h` gives each hash either to `n` or to its old owner.
proof fn lemma_insert_keeps_other_owners(s: Seq<(u64, Seq<char>)>, h: u64, n: Seq<char>, x: u64)
    requires
        keys_increasing(s),
        s.len() > 0,
    ensures
        owner_of(ring_insert(s, h, n), x) == n || owner_of(ring_insert(s, h, n), x) == owner_of(s, x),
{
    lemma_lower_bound_sorted(s, h);
    lemma_lower_bound_sorted(s, x);
    lemma_ring_insert_sorted(s, h, n);
    let p = lower_bound(s, h);
    let t = ring_insert(s, h, n);
    lemma_lower_bound_sorted(t, x);
    if p < s.len() && s[p].0 == h {
        assert forall|i: int| 0 <= i < t.len() implies t[i].0 == s[i].0 by {}
        assert(lower_bound(t, x) == lower_bound(s, x)) by {
            lemma_lower_bound_split(t, x, lower_bound(s, x));
        }
    } else {
        lemma_lower_bound_after_insert(s, h, n, x);
        let q = lower_bound(s, x);
        if h < x {
            assert(p <= q) by {
                if p > q {
                    assert(s[q].0 >= x);
                    assert(s[q].0 < h);
                }
            }
        } else {
            assert(q <= p) by {
                if q > p {
                    assert(s[p].0 < x);
                    assert(s[p].0 >= h);
                }
            }
        }
    }
}

/// Adding a node moves keys only to it: after its virtual nodes are placed,
/// every hash belongs either to the new node or to the node that held it
/// before.
pub proof fn law_add_moves_keys_only_to_new_node(s: Seq<(u64, Seq<char>)>, node: Seq<char>, n: nat, x: u64)
    requires
        keys_increasing(s),
        s.len() > 0,
    ensures
        owner_of(join_vnodes(s, node, 0, n).0, x) == node || owner_of(join_vnodes(s, node, 0, n).0, x)
            == owner_of(s, x),
    decreases n,
{
    if n > 0 {
        law_add_moves_keys_only_to_new_node(s, node, (n - 1) as nat, x);
        let prior = join_vnodes(s, node, 0, (n - 1) as nat).0;
        lemma_join_map(s, node, 0, (n - 1) as nat);
        assert(prior.len() > 0) by {
            lemma_ring_map_at(s, 0);
            assert(ring_map(prior).contains_key(s[0].0));
        }
        lemma_insert_keeps_other_owners(prior, vnode_hash(node, (n - 1) as nat), node, x);
    }
}

/// Every entry of ring `s` at a position of one of the virtual nodes `0..n`
/// of `node` is owned by `node`.
pub open spec fn vnode_positions_owned(s: Seq<(u64, Seq<char>)>, node: Seq<char>, n: nat) -> bool {
    forall|i: int| 0 <= i < s.len() && is_vnode_key(node, #[trigger] s[i].0, 0, n) ==> s[i].1 == node
}

/// Taking off a position owned by `node` leaves every hash that `node` did
/// not hold with its owner.
proof fn lemma_remove_keeps_other_owners(s: Seq<(u64, Seq<char>)>, h: u64, node: Seq<char>, x: u64)
    requires
        keys_increasing(s),
        s.len() > 0,
        forall|i: int| 0 <= i < s.len() && #[trigger] s[i].0 == h ==> s[i].1 == node,
        owner_of(s, x) != node,
    ensures
        ring_remove(s, h).len() > 0,
        owner_of(ring_remove(s, h), x) == owner_of(s, x),
{
    lemma_lower_bound_sorted(s, h);
    lemma_lower_bound_sorted(s, x);
    lemma_ring_remove_sorted(s, h);
    let p = lower_bound(s, h);
    let q = lower_bound(s, x);
    let t = ring_remove(s, h);
    if p < s.len() && s[p].0 == h {
        assert(s[p].1 == node);
        let oi = owner_index(s, x);
        assert(oi != p);
        if t.len() == 0 {
            assert(s.len() == 1);
            assert(oi == 0);
        }
        let e = q - (if h < x { 1int } else { 0int });
        if h < x {
            assert(p < q) by {
                if p >= q {
                    if q < s.len() {
                        assert(s[q].0 >= x);
                        if p > q {
                            assert(s[q].0 < s[p].0);
                        }
                    }
                }
            }
        } else {
            assert(q <= p) by {
                if q > p {
                    assert(s[p].0 < x);
                }
            }
        }
        assert forall|i: int| 0 <= i < e implies t[i].0 < x by {
            if i < p {
                assert(t[i] == s[i]);
            } else {
                assert(t[i] == s[i + 1]);
            }
        }
        assert forall|i: int| e <= i < t.len() implies t[i].0 >= x by {
            if i < p {
                assert(t[i] == s[i]);
            } else {
                assert(t[i] == s[i + 1]);
            }
        }
        lemma_lower_bound_split(t, x, e);
    }
}

proof fn lemma_strip_keeps_other_owners(s: Seq<(u64, Seq<char>)>, node: Seq<char>, m: nat, n: nat, x: u64)
    requires
        keys_increasing(s),
        s.len() > 0,
        m <= n,
        vnode_positions_owned(s, node, n),
        owner_of(s, x) != node,
    ensures
        strip_vnodes(s, node, m).len() > 0,
        owner_of(strip_vnodes(s, node, m), x) == owner_of(s, x),
        vnode_positions_owned(strip_vnodes(s, node, m), node, n),
    decreases m,
{
    if m > 0 {
        lemma_strip_keeps_other_owners(s, node, (m - 1) as nat, n, x);
        let prior = strip_vnodes(s, node, (m - 1) as nat);
        let h = vnode_hash(node, (m - 1) as nat);
        assert forall|i: int| 0 <= i < prior.len() && #[trigger] prior[i].0 == h implies prior[i].1 == node by {
            assert(vnode_hash(node, (m - 1) as nat) == prior[i].0);
            assert(is_vnode_key(node, prior[i].0, 0, n));
        }
        lemma_strip_map(s, node, (m - 1) as nat);
        lemma_remove_keeps_other_owners(prior, h, node, x);
        let t = strip_vnodes(s, node, m);
        lemma_lower_bound_sorted(prior, h);
        assert forall|i: int| 0 <= i < t.len() && is_vnode_key(node, #[trigger] t[i].0, 0, n) implies t[i].1 == node by {
            let p = lower_bound(prior, h);
            let j = if p < prior.len() && prior[p].0 == h && i >= p { i + 1 } else { i };
            assert(t[i] == prior[j]);
        }
    }
}

/// Removing a node moves only its keys: every hash that another node held
/// keeps its owner, when every entry at one of the removed node's virtual-node
/// positions is the removed node's own.
pub proof fn law_remove_moves_only_its_keys(s: Seq<(u64, Seq<char>)>, node: Seq<char>, n: nat, x: u64)
    requires
        keys_increasing(s),
        s.len() > 0,
        vnode_positions_owned(s, node, n),
        owner_of(s, x) != node,
    ensures
        strip_vnodes(s, node, n).len() > 0,
        owner_of(strip_vnodes(s, node, n), x) == owner_of(s, x),
{
    lemma_strip_keeps_other_owners(s, node, n, n, x);
}

} // verus!
