//! The consistent-hashing ring.
//!
//! Each node owns a number of virtual nodes, `node-0`, `node-1`, ...; the hash
//! of a virtual node's name is its position on the ring. A key belongs to the
//! node that owns the first position at or after the key's hash, wrapping
//! round to the lowest position. When the ring changes, the ranges of
//! positions that change hands are reported as [`Transaction`]s.
//!
//! The ring is kept as a vector of `(position, owner)` entries sorted by
//! position, with no position twice.

use vstd::prelude::*;
use vstd::utf8::encode_utf8;
use vstd::std_specs::hash::DefaultHasherAdditionalSpecFns;
use std::collections::HashSet;
use std::hash::{DefaultHasher, Hasher};

use crate::decimal::{decimal, push_decimal};
use crate::transaction::{Transaction, TransactionView, transaction_view, transaction_views};

verus! {

// ---------------------------------------------------------------------------
// Hashing and virtual-node names

/// The hash of a text: what `Hash for str` feeds a `DefaultHasher` (the
/// UTF-8 bytes of the text, then the byte 0xff), finished.
pub open spec fn key_hash(text: Seq<char>) -> u64 {
    DefaultHasher::spec_finish(seq![encode_utf8(text), seq![0xffu8]])
}

/// The name of the `i`-th virtual node of `node`: `node-i`.
pub open spec fn vnode_name(node: Seq<char>, i: nat) -> Seq<char> {
    node + seq!['-'] + decimal(i)
}

/// The ring position of the `i`-th virtual node of `node`.
pub open spec fn vnode_hash(node: Seq<char>, i: nat) -> u64 {
    key_hash(vnode_name(node, i))
}

pub(crate) fn hash_text(text: &str) -> (h: u64)
    ensures
        h == key_hash(text@),
{
    let mut hasher = DefaultHasher::new();
    hasher.write(text.as_bytes());
    let tail: [u8; 1] = [0xffu8];
    let tail_bytes = tail.as_slice();
    assert(tail_bytes@ =~= seq![0xffu8]);
    hasher.write(tail_bytes);
    let h = hasher.finish();
    assert(hasher@ =~= seq![encode_utf8(text@), seq![0xffu8]]);
    h
}

/// The name `node-i`.
pub(crate) fn vnode_text(node: &str, i: u128) -> (s: String)
    ensures
        s@ == vnode_name(node@, i as nat),
{
    let mut s = node.to_owned();
    proof {
        reveal_strlit("-");
    }
    s.append("-");
    push_decimal(&mut s, i);
    assert(s@ =~= vnode_name(node@, i as nat));
    s
}

// ---------------------------------------------------------------------------
// The ring as a sorted sequence of entries

/// Positions strictly increase along the ring.
pub open spec fn keys_increasing(s: Seq<(u64, Seq<char>)>) -> bool {
    forall|i: int, j: int| 0 <= i < j < s.len() ==> #[trigger] s[i].0 < #[trigger] s[j].0
}

/// The number of leading entries whose position is below `h`: on a sorted
/// ring, the index of the first entry at or after `h`.
pub open spec fn lower_bound(s: Seq<(u64, Seq<char>)>, h: u64) -> int
    decreases s.len(),
{
    if s.len() == 0 {
        0
    } else if s[0].0 >= h {
        0
    } else {
        1 + lower_bound(s.drop_first(), h)
    }
}

/// The index before `i`, going round: the last one before the first.
pub open spec fn pred_index(len: int, i: int) -> int {
    if i > 0 { i - 1 } else { len - 1 }
}

/// The index after `i`, going round: the first one after the last.
pub open spec fn succ_index(len: int, i: int) -> int {
    if i + 1 < len { i + 1 } else { 0 }
}

/// The entry before hash `h`: the last entry below `h`, or the last entry
/// of the ring when none is below `h`.
pub open spec fn prev_index(s: Seq<(u64, Seq<char>)>, h: u64) -> int {
    pred_index(s.len() as int, lower_bound(s, h))
}

/// The entry after hash `h`: the second entry at or after `h`, or the first
/// entry of the ring when fewer than two are at or after `h`.
pub open spec fn next_index(s: Seq<(u64, Seq<char>)>, h: u64) -> int {
    succ_index(s.len() as int, lower_bound(s, h))
}

/// The entry that owns hash `h`: the first entry at or after `h`, or the
/// first entry of the ring when none is at or after `h`.
pub open spec fn owner_index(s: Seq<(u64, Seq<char>)>, h: u64) -> int {
    if lower_bound(s, h) < s.len() { lower_bound(s, h) } else { 0 }
}

/// The ring with `h` owned by `n`: a new entry in its place, or the owner of an
/// existing entry at `h` replaced.
pub open spec fn ring_insert(s: Seq<(u64, Seq<char>)>, h: u64, n: Seq<char>) -> Seq<(u64, Seq<char>)> {
    let p = lower_bound(s, h);
    if p < s.len() && s[p].0 == h {
        s.update(p, (h, n))
    } else {
        s.insert(p, (h, n))
    }
}

/// The ring without an entry at `h`.
pub open spec fn ring_remove(s: Seq<(u64, Seq<char>)>, h: u64) -> Seq<(u64, Seq<char>)> {
    let p = lower_bound(s, h);
    if p < s.len() && s[p].0 == h {
        s.remove(p)
    } else {
        s
    }
}

/// The ring seen as a map from positions to owners.
pub open spec fn ring_map(s: Seq<(u64, Seq<char>)>) -> Map<u64, Seq<char>> {
    Map::new(
        |k: u64| exists|i: int| 0 <= i < s.len() && #[trigger] s[i].0 == k,
        |k: u64| s[choose|i: int| 0 <= i < s.len() && #[trigger] s[i].0 == k].1,
    )
}

/// Entries before the lower bound are below `h`; the entry at it, if any, is not.
pub proof fn lemma_lower_bound(s: Seq<(u64, Seq<char>)>, h: u64)
    ensures
        0 <= lower_bound(s, h) <= s.len(),
        forall|i: int| 0 <= i < lower_bound(s, h) ==> s[i].0 < h,
        lower_bound(s, h) < s.len() ==> s[lower_bound(s, h)].0 >= h,
    decreases s.len(),
{
    if s.len() > 0 && s[0].0 < h {
        lemma_lower_bound(s.drop_first(), h);
        assert forall|i: int| 0 <= i < lower_bound(s, h) implies s[i].0 < h by {
            if i > 0 {
                assert(s[i] == s.drop_first()[i - 1]);
            }
        }
    }
}

/// On a sorted ring, the lower bound is the one index that splits the
/// entries below `h` from the others.
pub proof fn lemma_lower_bound_split(s: Seq<(u64, Seq<char>)>, h: u64, p: int)
    requires
        keys_increasing(s),
        0 <= p <= s.len(),
        forall|i: int| 0 <= i < p ==> s[i].0 < h,
        forall|i: int| p <= i < s.len() ==> s[i].0 >= h,
    ensures
        lower_bound(s, h) == p,
{
    lemma_lower_bound(s, h);
    let q = lower_bound(s, h);
    if q < p {
        assert(s[q].0 < h);
    } else if q > p {
        assert(s[p].0 >= h);
        assert(s[p].0 < h);
    }
}

/// On a sorted ring, every entry from the lower bound on is at or after `h`.
pub proof fn lemma_lower_bound_sorted(s: Seq<(u64, Seq<char>)>, h: u64)
    requires
        keys_increasing(s),
    ensures
        0 <= lower_bound(s, h) <= s.len(),
        forall|i: int| 0 <= i < lower_bound(s, h) ==> s[i].0 < h,
        forall|i: int| lower_bound(s, h) <= i < s.len() ==> s[i].0 >= h,
{
    lemma_lower_bound(s, h);
    let q = lower_bound(s, h);
    assert forall|i: int| q <= i < s.len() implies s[i].0 >= h by {
        if i > q {
            assert(s[q].0 < s[i].0);
        }
    }
}

/// On a sorted ring, the lower bound of an entry's own position is its index.
pub proof fn lemma_lower_bound_at(s: Seq<(u64, Seq<char>)>, i: int)
    requires
        keys_increasing(s),
        0 <= i < s.len(),
    ensures
        lower_bound(s, s[i].0) == i,
{
    assert forall|j: int| 0 <= j < i implies s[j].0 < s[i].0 by {}
    assert forall|j: int| i <= j < s.len() implies s[j].0 >= s[i].0 by {
        if j > i {
            assert(s[i].0 < s[j].0);
        }
    }
    lemma_lower_bound_split(s, s[i].0, i);
}

/// Inserting keeps the ring sorted.
pub proof fn lemma_ring_insert_sorted(s: Seq<(u64, Seq<char>)>, h: u64, n: Seq<char>)
    requires
        keys_increasing(s),
    ensures
        keys_increasing(ring_insert(s, h, n)),
        0 <= lower_bound(s, h) < ring_insert(s, h, n).len(),
        ring_insert(s, h, n)[lower_bound(s, h)] == (h, n),
        lower_bound(ring_insert(s, h, n), h) == lower_bound(s, h),
{
    lemma_lower_bound_sorted(s, h);
    let p = lower_bound(s, h);
    let t = ring_insert(s, h, n);
    if p < s.len() && s[p].0 == h {
        assert forall|i: int, j: int| 0 <= i < j < t.len() implies #[trigger] t[i].0 < #[trigger] t[j].0 by {
            assert(s[i].0 < s[j].0);
        }
    } else {
        assert forall|i: int, j: int| 0 <= i < j < t.len() implies #[trigger] t[i].0 < #[trigger] t[j].0 by {
            if j < p {
                assert(s[i].0 < s[j].0);
            } else if i > p {
                assert(s[i - 1].0 < s[j - 1].0);
            } else if i == p {
                assert(s[j - 1].0 >= h);
                assert(s[j - 1].0 != h || j - 1 == p);
                if j - 1 > p {
                    assert(s[p].0 < s[j - 1].0);
                }
            } else {
                assert(s[i].0 < h);
            }
        }
    }
    lemma_lower_bound_sorted(t, h);
    lemma_lower_bound_at(t, p);
}

/// Removing keeps the ring sorted.
pub proof fn lemma_ring_remove_sorted(s: Seq<(u64, Seq<char>)>, h: u64)
    requires
        keys_increasing(s),
    ensures
        keys_increasing(ring_remove(s, h)),
{
    lemma_lower_bound(s, h);
    let p = lower_bound(s, h);
    let t = ring_remove(s, h);
    if p < s.len() && s[p].0 == h {
        assert forall|i: int, j: int| 0 <= i < j < t.len() implies #[trigger] t[i].0 < #[trigger] t[j].0 by {
            if j < p {
                assert(s[i].0 < s[j].0);
            } else if i >= p {
                assert(s[i + 1].0 < s[j + 1].0);
            } else {
                assert(s[i].0 < s[j + 1].0);
            }
        }
    }
}


// ---------------------------------------------------------------------------
// What changes of the ring do

/// The transaction, if any, that placing `node` at position `h` of ring `s`
/// (the ring after the placement) gives: the range from the entry before `h`
/// up to `h` moves to `node` from the owner of the entry after `h`, unless
/// that owner is `node` itself.
pub open spec fn arrival(s: Seq<(u64, Seq<char>)>, node: Seq<char>, h: u64) -> Seq<TransactionView> {
    let next = s[next_index(s, h)];
    if next.1 != node {
        seq![transaction_view(next.1, node, s[prev_index(s, h)].0, h)]
    } else {
        seq![]
    }
}

/// Placing the virtual nodes `from..to` of `node` on ring `s`, in order: the
/// ring that results and the transactions of the placements.
pub open spec fn join_vnodes(s: Seq<(u64, Seq<char>)>, node: Seq<char>, from: nat, to: nat) -> (
    Seq<(u64, Seq<char>)>,
    Seq<TransactionView>,
)
    decreases to,
{
    if to <= from {
        (s, seq![])
    } else {
        let prior = join_vnodes(s, node, from, (to - 1) as nat);
        let h = vnode_hash(node, (to - 1) as nat);
        let placed = ring_insert(prior.0, h, node);
        (placed, prior.1 + arrival(placed, node, h))
    }
}

/// Placing the virtual nodes `from..to` of each of `nodes`, node by node.
pub open spec fn join_all(s: Seq<(u64, Seq<char>)>, nodes: Seq<Seq<char>>, from: nat, to: nat) -> (
    Seq<(u64, Seq<char>)>,
    Seq<TransactionView>,
)
    decreases nodes.len(),
{
    if nodes.len() == 0 {
        (s, seq![])
    } else {
        let prior = join_all(s, nodes.drop_last(), from, to);
        let last = join_vnodes(prior.0, nodes.last(), from, to);
        (last.0, prior.1 + last.1)
    }
}

/// Going backwards round ring `s` from index `i`, for at most `fuel` steps,
/// while the owner is `node`: the index where the walk stops, and the
/// positions of `node`'s entries it passed.
pub open spec fn walk_back(s: Seq<(u64, Seq<char>)>, node: Seq<char>, i: int, fuel: nat) -> (int, Set<u64>)
    decreases fuel,
{
    if fuel == 0 || s[i].1 != node {
        (i, Set::empty())
    } else {
        let rest = walk_back(s, node, pred_index(s.len() as int, i), (fuel - 1) as nat);
        (rest.0, rest.1.insert(s[i].0))
    }
}

/// The transaction that the departure of `node`'s virtual node at position
/// `h` gives, with the positions of `node`'s entries passed on the way. The
/// range starts at the nearest entry before `h` of another node; it goes to
/// the owner of the entry after `h`, or of the one after that when the entry
/// after `h` is `node`'s own; it ends at the entry before that owner's entry.
pub open spec fn departure(s: Seq<(u64, Seq<char>)>, node: Seq<char>, h: u64) -> (Set<u64>, TransactionView) {
    let len = s.len() as int;
    let back = walk_back(s, node, prev_index(s, h), s.len());
    let b = next_index(s, h);
    let forward = if s[b].1 == node { succ_index(len, b) } else { b };
    let passed = if s[b].1 == node { back.1.insert(s[b].0) } else { back.1 };
    (passed, transaction_view(node, s[forward].1, s[back.0].0, s[pred_index(len, forward)].0))
}

/// The departures of the virtual nodes `0..n` of `node` from ring `s`, in
/// order; a virtual node whose position was already seen (its own or one
/// passed by an earlier departure) gives no transaction.
pub open spec fn depart_vnodes(s: Seq<(u64, Seq<char>)>, node: Seq<char>, n: nat) -> (Set<u64>, Seq<TransactionView>)
    decreases n,
{
    if n == 0 {
        (Set::empty(), seq![])
    } else {
        let prior = depart_vnodes(s, node, (n - 1) as nat);
        let h = vnode_hash(node, (n - 1) as nat);
        if prior.0.contains(h) {
            prior
        } else {
            let d = departure(s, node, h);
            (prior.0.insert(h).union(d.0), prior.1.push(d.1))
        }
    }
}

/// Ring `s` without the positions of the virtual nodes `0..n` of `node`.
pub open spec fn strip_vnodes(s: Seq<(u64, Seq<char>)>, node: Seq<char>, n: nat) -> Seq<(u64, Seq<char>)>
    decreases n,
{
    if n == 0 {
        s
    } else {
        ring_remove(strip_vnodes(s, node, (n - 1) as nat), vnode_hash(node, (n - 1) as nat))
    }
}

/// The index `k` steps before index `a` of a ring of length `len`.
pub open spec fn steps_back(a: int, k: int, len: int) -> int {
    if k <= a { a - k } else { a - k + len }
}

/// Whether some entry of ring `s` is owned by another node than `node`.
pub open spec fn has_other_owner(s: Seq<(u64, Seq<char>)>, node: Seq<char>) -> bool {
    exists|i: int| 0 <= i < s.len() && #[trigger] s[i].1 != node
}

/// A count of virtual nodes read as an `i32`, as counts are compared when
/// the number of virtual nodes changes.
pub open spec fn as_i32(x: u32) -> int {
    if x <= 0x7fff_ffff { x as int } else { x as int - 0x1_0000_0000 }
}

/// Taking `node`'s virtual node at position `h` off ring `s`: the ring without
/// `h`, and the transaction, if any, that hands the range from the entry
/// before `h` up to `h` from `node` to the owner of the entry after `h`.
pub open spec fn leave_step(s: Seq<(u64, Seq<char>)>, node: Seq<char>, h: u64) -> (
    Seq<(u64, Seq<char>)>,
    Seq<TransactionView>,
) {
    let next = s[next_index(s, h)];
    (
        ring_remove(s, h),
        if next.1 != node {
            seq![transaction_view(node, next.1, s[prev_index(s, h)].0, h)]
        } else {
            seq![]
        },
    )
}

/// Taking the virtual nodes `hi - 1` down to `j` of `node` off ring `s`:
/// the ring, the transactions, and whether the ring had an entry at each step.
pub open spec fn leave_vnodes(s: Seq<(u64, Seq<char>)>, node: Seq<char>, j: nat, hi: nat) -> (
    Seq<(u64, Seq<char>)>,
    Seq<TransactionView>,
    bool,
)
    decreases hi - j,
{
    if j >= hi {
        (s, seq![], true)
    } else {
        let prior = leave_vnodes(s, node, j + 1, hi);
        let step = leave_step(prior.0, node, vnode_hash(node, j));
        (step.0, prior.1 + step.1, prior.2 && prior.0.len() > 0)
    }
}

/// Taking the virtual nodes `hi - 1` down to `lo` of each of `nodes` off the
/// ring, node by node.
pub open spec fn leave_all(s: Seq<(u64, Seq<char>)>, nodes: Seq<Seq<char>>, lo: nat, hi: nat) -> (
    Seq<(u64, Seq<char>)>,
    Seq<TransactionView>,
    bool,
)
    decreases nodes.len(),
{
    if nodes.len() == 0 {
        (s, seq![], true)
    } else {
        let prior = leave_all(s, nodes.drop_last(), lo, hi);
        let last = leave_vnodes(prior.0, nodes.last(), lo, hi);
        (last.0, prior.1 + last.1, prior.2 && last.2)
    }
}

/// A run of steps that never meets an empty ring has no such step in any
/// prefix of its nodes.
pub proof fn lemma_leave_all_prefix(s: Seq<(u64, Seq<char>)>, nodes: Seq<Seq<char>>, lo: nat, hi: nat, k: int)
    requires
        0 <= k <= nodes.len(),
        leave_all(s, nodes, lo, hi).2,
    ensures
        leave_all(s, nodes.take(k), lo, hi).2,
    decreases nodes.len(),
{
    if k == nodes.len() {
        assert(nodes.take(k) =~= nodes);
    } else {
        assert(nodes.drop_last().take(k) =~= nodes.take(k));
        lemma_leave_all_prefix(s, nodes.drop_last(), lo, hi, k);
    }
}

/// A run of steps that never meets an empty ring has no such step in any
/// of its earlier parts.
pub proof fn lemma_leave_vnodes_suffix(s: Seq<(u64, Seq<char>)>, node: Seq<char>, j: nat, hi: nat, j2: nat)
    requires
        j <= j2,
        leave_vnodes(s, node, j, hi).2,
    ensures
        leave_vnodes(s, node, j2, hi).2,
    decreases j2 - j,
{
    if j < j2 && j < hi {
        lemma_leave_vnodes_suffix(s, node, j + 1, hi, j2);
    }
}

// ---------------------------------------------------------------------------
// The ring type

/// Why a change of the ring was refused.
#[derive(Debug)]
pub enum ConsistentHashingError {
    NodeAlreadyExists(String),
    NodeDoesNotExist(String),
    RingIsEmpty(String),
    ZeroVirtualNodes(String),
    UnchangedVirtualNodeCount(String),
}

/// What a [`ConsistentHashing`] holds, as plain values.
#[verifier::ext_equal]
pub struct RingView {
    /// The `(position, owner)` entries, by position.
    pub ring: Seq<(u64, Seq<char>)>,
    /// The member nodes, in the order they joined.
    pub nodes: Seq<Seq<char>>,
    pub virtual_nodes_count: u32,
}

/// A consistent-hashing ring of nodes, each with `virtual_nodes_count`
/// virtual nodes on it.
pub struct ConsistentHashing {
    ring: Vec<(u64, String)>,
    nodes: Vec<String>,
    virtual_nodes_count: u32,
}

/// The entries of a ring vector, with each owner as its text.
pub open spec fn ring_view(v: Seq<(u64, String)>) -> Seq<(u64, Seq<char>)> {
    v.map_values(|e: (u64, String)| (e.0, e.1@))
}

/// The texts of a vector of strings.
pub open spec fn texts(v: Seq<String>) -> Seq<Seq<char>> {
    v.map_values(|n: String| n@)
}

impl View for ConsistentHashing {
    type V = RingView;

    closed spec fn view(&self) -> RingView {
        RingView {
            ring: ring_view(self.ring@),
            nodes: texts(self.nodes@),
            virtual_nodes_count: self.virtual_nodes_count,
        }
    }
}

fn ring_lower_bound(ring: &Vec<(u64, String)>, h: u64) -> (p: usize)
    requires
        keys_increasing(ring_view(ring@)),
    ensures
        p == lower_bound(ring_view(ring@), h),
{
    let ghost s = ring_view(ring@);
    let mut lo: usize = 0;
    let mut hi: usize = ring.len();
    while lo < hi
        invariant
            s == ring_view(ring@),
            keys_increasing(s),
            0 <= lo <= hi <= s.len(),
            forall|i: int| 0 <= i < lo ==> s[i].0 < h,
            forall|i: int| hi <= i < s.len() ==> s[i].0 >= h,
        decreases hi - lo,
    {
        let mid = lo + (hi - lo) / 2;
        if ring[mid].0 < h {
            assert forall|i: int| 0 <= i < mid + 1 implies s[i].0 < h by {
                if i < mid {
                    assert(s[i].0 < s[mid as int].0);
                }
            }
            lo = mid + 1;
        } else {
            assert forall|i: int| mid <= i < s.len() implies s[i].0 >= h by {
                if i > mid {
                    assert(s[mid as int].0 < s[i].0);
                }
            }
            hi = mid;
        }
    }
    proof {
        lemma_lower_bound_split(s, h, lo as int);
    }
    lo
}

fn contains_text(v: &Vec<String>, x: &String) -> (r: Option<usize>)
    ensures
        match r {
            Some(i) => i < v.len() && v@[i as int]@ == x@ && texts(v@).contains(x@),
            None => !texts(v@).contains(x@),
        },
{
    let mut i: usize = 0;
    while i < v.len()
        invariant
            0 <= i <= v.len(),
            forall|j: int| 0 <= j < i ==> v@[j]@ != x@,
        decreases v.len() - i,
    {
        if v[i] == *x {
            assert(texts(v@)[i as int] == x@);
            return Some(i);
        }
        i = i + 1;
    }
    proof {
        if texts(v@).contains(x@) {
            let j = choose|j: int| 0 <= j < texts(v@).len() && texts(v@)[j] == x@;
            assert(v@[j]@ == x@);
        }
    }
    None
}

impl ConsistentHashing {
    /// The ring's invariant: positions strictly increase, no node is a member
    /// twice, and a ring with members has at least one virtual node each.
    pub open spec fn wf(&self) -> bool {
        &&& keys_increasing(self@.ring)
        &&& self@.nodes.no_duplicates()
        &&& (self@.nodes.len() > 0 ==> self@.virtual_nodes_count > 0)
    }

    /// An empty ring whose nodes will each have `virtual_nodes_count` virtual nodes.
    pub fn new(virtual_nodes_count: u32) -> (r: Self)
        ensures
            r.wf(),
            r@ == (RingView { ring: seq![], nodes: seq![], virtual_nodes_count }),
    {
        let r = ConsistentHashing { ring: Vec::new(), nodes: Vec::new(), virtual_nodes_count };
        assert(r@.ring =~= seq![]);
        assert(r@.nodes =~= seq![]);
        r
    }

    /// A ring with `nodes` added in order. A node listed twice, or nodes
    /// with no virtual nodes each, cannot all be added: such lists are
    /// outside this constructor's domain.
    pub fn new_with_nodes(virtual_nodes_count: u32, nodes: Vec<String>) -> (r: Self)
        requires
            texts(nodes@).no_duplicates(),
            nodes.len() > 0 ==> virtual_nodes_count > 0,
        ensures
            r.wf(),
            r@ == (RingView {
                ring: join_all(seq![], texts(nodes@), 0, virtual_nodes_count as nat).0,
                nodes: texts(nodes@),
                virtual_nodes_count,
            }),
    {
        let mut consistent_hashing = ConsistentHashing::new(virtual_nodes_count);
        let ghost all = texts(nodes@);
        let mut k: usize = 0;
        while k < nodes.len()
            invariant
                consistent_hashing.wf(),
                all == texts(nodes@),
                all.no_duplicates(),
                nodes.len() > 0 ==> virtual_nodes_count > 0,
                0 <= k <= nodes.len(),
                consistent_hashing@ == (RingView {
                    ring: join_all(seq![], all.take(k as int), 0, virtual_nodes_count as nat).0,
                    nodes: all.take(k as int),
                    virtual_nodes_count,
                }),
            decreases nodes.len() - k,
        {
            proof {
                assert(all.take(k + 1).drop_last() =~= all.take(k as int));
                assert(all.take(k + 1) =~= all.take(k as int).push(all[k as int]));
                if all.take(k as int).contains(all[k as int]) {
                    let j = choose|j: int| 0 <= j < k && all.take(k as int)[j] == all[k as int];
                    assert(all[j] == all[k as int]);
                }
            }
            let added = consistent_hashing.add_node(nodes[k].as_str());
            assert(added is Ok);
            k = k + 1;
        }
        proof {
            assert(all.take(nodes.len() as int) =~= all);
        }
        consistent_hashing
    }

    /// The member nodes, in the order they joined.
    pub fn nodes(&self) -> (r: &Vec<String>)
        ensures
            texts(r@) == self@.nodes,
    {
        &self.nodes
    }

    /// The number of virtual nodes of each node.
    pub fn virtual_nodes_count(&self) -> (r: u32)
        ensures
            r == self@.virtual_nodes_count,
    {
        self.virtual_nodes_count
    }

    /// The name of the `i`-th virtual node of `node`: `node-i`.
    pub fn get_virtual_node_form(&self, node: &str, i: u32) -> (s: String)
        ensures
            s@ == vnode_name(node@, i as nat),
    {
        vnode_text(node, i as u128)
    }

    /// The ring's entries, `(position, owner)`, by position.
    pub fn get_current_state(&self) -> (r: Vec<(u64, String)>)
        ensures
            ring_view(r@) == self@.ring,
    {
        let mut r: Vec<(u64, String)> = Vec::with_capacity(self.ring.len());
        let mut i: usize = 0;
        while i < self.ring.len()
            invariant
                0 <= i <= self.ring.len(),
                ring_view(r@) =~= ring_view(self.ring@).take(i as int),
            decreases self.ring.len() - i,
        {
            let e = &self.ring[i];
            assert(*e == self.ring@[i as int]);
            let owner = e.1.clone();
            let ghost before = r@;
            r.push((e.0, owner));
            assert(ring_view(r@) =~= ring_view(before).push((e.0, e.1@)));
            assert(ring_view(r@) =~= ring_view(self.ring@).take(i + 1));
            i = i + 1;
        }
        assert(ring_view(self.ring@).take(i as int) =~= ring_view(self.ring@));
        r
    }

    /// The position of `item` on the ring: the hash of its text.
    pub fn hash(&self, item: &str) -> (h: u64)
        ensures
            h == key_hash(item@),
    {
        hash_text(item)
    }

    /// The entry before position `hash`: the last entry below it, or the last
    /// entry of the ring when none is below it; `None` on an empty ring.
    pub fn get_previous_node_by_hash(&self, hash: u64) -> (r: Option<(&u64, &String)>)
        requires
            self.wf(),
        ensures
            match r {
                None => self@.ring.len() == 0,
                Some((k, v)) => self@.ring.len() > 0 && (*k, v@) == self@.ring[prev_index(self@.ring, hash)],
            },
    {
        let len = self.ring.len();
        if len == 0 {
            return None;
        }
        let p = ring_lower_bound(&self.ring, hash);
        proof {
            lemma_lower_bound(self@.ring, hash);
        }
        let i = if p > 0 { p - 1 } else { len - 1 };
        let e = &self.ring[i];
        Some((&e.0, &e.1))
    }

    /// The entry after position `hash`: the second entry at or after it, or
    /// the first entry of the ring when fewer than two are at or after it;
    /// `None` on an empty ring.
    pub fn get_next_node_by_hash(&self, hash: u64) -> (r: Option<(&u64, &String)>)
        requires
            self.wf(),
        ensures
            match r {
                None => self@.ring.len() == 0,
                Some((k, v)) => self@.ring.len() > 0 && (*k, v@) == self@.ring[next_index(self@.ring, hash)],
            },
    {
        let len = self.ring.len();
        if len == 0 {
            return None;
        }
        let p = ring_lower_bound(&self.ring, hash);
        proof {
            lemma_lower_bound(self@.ring, hash);
        }
        let i = if p < len - 1 { p + 1 } else { 0 };
        let e = &self.ring[i];
        Some((&e.0, &e.1))
    }

    /// The entry before the position of `node`'s text.
    pub fn get_previous_node(&self, node: &str) -> (r: Option<(&u64, &String)>)
        requires
            self.wf(),
        ensures
            match r {
                None => self@.ring.len() == 0,
                Some((k, v)) => self@.ring.len() > 0
                    && (*k, v@) == self@.ring[prev_index(self@.ring, key_hash(node@))],
            },
    {
        let hashed_value = self.hash(node);
        self.get_previous_node_by_hash(hashed_value)
    }

    /// The entry after the position of `node`'s text.
    pub fn get_next_node(&self, node: &str) -> (r: Option<(&u64, &String)>)
        requires
            self.wf(),
        ensures
            match r {
                None => self@.ring.len() == 0,
                Some((k, v)) => self@.ring.len() > 0
                    && (*k, v@) == self@.ring[next_index(self@.ring, key_hash(node@))],
            },
    {
        let hashed_value = self.hash(node);
        self.get_next_node_by_hash(hashed_value)
    }

    /// The node that owns `key`, with the key's position: the owner of the
    /// first entry at or after the key's hash, going round past the top of
    /// the ring; `(None, None)` on an empty ring.
    pub fn get_node(&self, key: &str) -> (r: (Option<&String>, Option<u64>))
        requires
            self.wf(),
        ensures
            self@.ring.len() == 0 ==> r.0 is None && r.1 is None,
            self@.ring.len() > 0 ==> r.1 == Some(key_hash(key@)) && (r.0 matches Some(n)
                && n@ == self@.ring[owner_index(self@.ring, key_hash(key@))].1),
    {
        if self.ring.len() == 0 {
            return (None, None);
        }
        let hash = self.hash(key);
        let p = ring_lower_bound(&self.ring, hash);
        proof {
            lemma_lower_bound(self@.ring, hash);
        }
        let i = if p < self.ring.len() { p } else { 0 };
        (Some(&self.ring[i].1), Some(hash))
    }
    fn ring_put(&mut self, h: u64, owner: String)
        requires
            keys_increasing(old(self)@.ring),
        ensures
            final(self)@ == (RingView { ring: ring_insert(old(self)@.ring, h, owner@), ..old(self)@ }),
            keys_increasing(final(self)@.ring),
            final(self)@.ring.len() > 0,
    {
        let p = ring_lower_bound(&self.ring, h);
        proof {
            lemma_lower_bound(self@.ring, h);
            lemma_ring_insert_sorted(self@.ring, h, owner@);
        }
        let ghost owner_text = owner@;
        if p < self.ring.len() && self.ring[p].0 == h {
            self.ring.set(p, (h, owner));
        } else {
            self.ring.insert(p, (h, owner));
        }
        assert(self@.ring =~= ring_insert(old(self)@.ring, h, owner_text));
        assert(self@.nodes =~= old(self)@.nodes);
    }

    /// Places `node` at position `h` and records the transaction it gives.
    fn join_one(&mut self, node: &String, h: u64, txs: &mut Vec<Transaction>)
        requires
            old(self).wf(),
        ensures
            final(self).wf(),
            final(self)@ == (RingView { ring: ring_insert(old(self)@.ring, h, node@), ..old(self)@ }),
            transaction_views(final(txs)@) == transaction_views(old(txs)@) + arrival(
                ring_insert(old(self)@.ring, h, node@),
                node@,
                h,
            ),
    {
        self.ring_put(h, node.clone());
        let ghost placed = self@.ring;
        let ghost before = txs@;
        let next = self.get_next_node_by_hash(h).unwrap();
        if !(*next.1 == *node) {
            let prev = self.get_previous_node_by_hash(h).unwrap();
            let t = Transaction::new(next.1.clone(), node.clone(), *prev.0, h);
            txs.push(t);
            assert(transaction_views(txs@) =~= transaction_views(before) + arrival(placed, node@, h));
        } else {
            assert(transaction_views(txs@) =~= transaction_views(before) + arrival(placed, node@, h));
        }
    }

    /// Adds `node` with its virtual nodes `node-0`, `node-1`, ... and returns
    /// the transactions that hand it its ranges, in the order of its virtual
    /// nodes.
    pub fn add_node(&mut self, node: &str) -> (r: Result<Vec<Transaction>, ConsistentHashingError>)
        requires
            old(self).wf(),
        ensures
            final(self).wf(),
            old(self)@.nodes.contains(node@) ==> final(self)@ == old(self)@ && (r matches Err(
                ConsistentHashingError::NodeAlreadyExists(m),
            ) && m@ == "This node already exist"@),
            !old(self)@.nodes.contains(node@) && old(self)@.virtual_nodes_count == 0 ==> final(self)@
                == old(self)@ && (r matches Err(ConsistentHashingError::ZeroVirtualNodes(m)) && m@
                == "Cannot add node with zero virtual nodes"@),
            !old(self)@.nodes.contains(node@) && old(self)@.virtual_nodes_count > 0 ==> {
                let joined = join_vnodes(
                    old(self)@.ring,
                    node@,
                    0,
                    old(self)@.virtual_nodes_count as nat,
                );
                &&& final(self)@ == (RingView {
                    ring: joined.0,
                    nodes: old(self)@.nodes.push(node@),
                    virtual_nodes_count: old(self)@.virtual_nodes_count,
                })
                &&& r matches Ok(txs) && transaction_views(txs@) == joined.1
            },
    {
        let node_string = node.to_owned();
        if contains_text(&self.nodes, &node_string).is_some() {
            return Err(ConsistentHashingError::NodeAlreadyExists("This node already exist".to_owned()));
        }
        if self.virtual_nodes_count == 0 {
            return Err(
                ConsistentHashingError::ZeroVirtualNodes(
                    "Cannot add node with zero virtual nodes".to_owned(),
                ),
            );
        }
        let ghost old_ring = self@.ring;
        let ghost old_nodes = self@.nodes;
        self.nodes.push(node_string.clone());
        assert(self@.nodes =~= old_nodes.push(node@));
        assert(self@.nodes.no_duplicates()) by {
            assert forall|a: int, b: int| 0 <= a < b < self@.nodes.len() implies self@.nodes[a] != self@.nodes[b] by {
                if b == old_nodes.len() {
                    assert(old_nodes.contains(old_nodes[a]));
                }
            }
        }
        let count = self.virtual_nodes_count;
        let mut transactions: Vec<Transaction> = Vec::with_capacity(count as usize);
        assert(transaction_views(transactions@) =~= seq![]);
        let mut i: u32 = 0;
        while i < count
            invariant
                self.wf(),
                count == self@.virtual_nodes_count,
                self@.nodes == old_nodes.push(node@),
                node_string@ == node@,
                0 <= i <= count,
                (self@.ring, transaction_views(transactions@)) == join_vnodes(old_ring, node@, 0, i as nat),
            decreases count - i,
        {
            let v_node = self.get_virtual_node_form(node, i);
            let hash = self.hash(v_node.as_str());
            self.join_one(&node_string, hash, &mut transactions);
            i = i + 1;
        }
        Ok(transactions)
    }
    fn ring_delete(&mut self, h: u64)
        requires
            keys_increasing(old(self)@.ring),
        ensures
            final(self)@ == (RingView { ring: ring_remove(old(self)@.ring, h), ..old(self)@ }),
            keys_increasing(final(self)@.ring),
    {
        let p = ring_lower_bound(&self.ring, h);
        proof {
            lemma_lower_bound(self@.ring, h);
            lemma_ring_remove_sorted(self@.ring, h);
        }
        if p < self.ring.len() && self.ring[p].0 == h {
            self.ring.remove(p);
        }
        assert(self@.ring =~= ring_remove(old(self)@.ring, h));
        assert(self@.nodes =~= old(self)@.nodes);
    }

    /// The transaction of the departure of `node`'s virtual node `v_node`,
    /// at position `h`; the positions passed are added to `seen`.
    fn depart_one(&self, node: &String, v_node: &str, h: u64, seen: &mut HashSet<u64>) -> (t: Transaction)
        requires
            self.wf(),
            has_other_owner(self@.ring, node@),
            h == key_hash(v_node@),
        ensures
            final(seen)@ == old(seen)@.union(departure(self@.ring, node@, h).0),
            t@ == departure(self@.ring, node@, h).1,
    {
        let ghost s = self@.ring;
        let ghost len = s.len() as int;
        let ghost a0 = prev_index(s, h);
        let ghost start = seen@;
        proof {
            lemma_lower_bound(s, h);
        }
        let mut prev = self.get_previous_node(v_node).unwrap();
        let mut next = self.get_next_node(v_node).unwrap();
        let ghost mut a: int = a0;
        let ghost mut t: int = 0;
        let ghost mut passed: Set<u64> = Set::empty();
        assert(walk_back(s, node@, a0, len as nat) == (
            walk_back(s, node@, a, (len - t) as nat).0,
            walk_back(s, node@, a, (len - t) as nat).1.union(passed),
        )) by {
            assert(walk_back(s, node@, a0, len as nat).1.union(Set::empty()) =~= walk_back(s, node@, a0, len as nat).1);
        }
        while *prev.1 == *node
            invariant
                self.wf(),
                s == self@.ring,
                len == s.len(),
                len > 0,
                has_other_owner(s, node@),
                0 <= a0 < len,
                0 <= a < len,
                0 <= t < len,
                a == steps_back(a0, t, len),
                (*prev.0, prev.1@) == s[a],
                forall|k: int| 0 <= k < t ==> s[#[trigger] steps_back(a0, k, len)].1 == node@,
                walk_back(s, node@, a0, len as nat) == (
                    walk_back(s, node@, a, (len - t) as nat).0,
                    walk_back(s, node@, a, (len - t) as nat).1.union(passed),
                ),
                seen@ == start.union(passed),
            decreases len - t,
        {
            proof {
                if t + 1 == len {
                    let j = choose|j: int| 0 <= j < s.len() && #[trigger] s[j].1 != node@;
                    let k = if j <= a0 { a0 - j } else { a0 - j + len };
                    assert(steps_back(a0, k, len) == j);
                    if k < t {
                        assert(s[steps_back(a0, k, len)].1 == node@);
                    }
                    assert(false);
                }
                lemma_lower_bound_at(s, a);
                let rest = walk_back(s, node@, pred_index(len, a), (len - t - 1) as nat);
                assert(walk_back(s, node@, a, (len - t) as nat) == (rest.0, rest.1.insert(s[a].0)));
                assert(rest.1.insert(s[a].0).union(passed) =~= rest.1.union(passed.insert(s[a].0)));
            }
            let new_hash = *prev.0;
            seen.insert(new_hash);
            prev = self.get_previous_node_by_hash(new_hash).unwrap();
            proof {
                assert(seen@ =~= start.union(passed.insert(new_hash)));
                passed = passed.insert(new_hash);
                a = pred_index(len, a);
                t = t + 1;
            }
        }
        proof {
            assert(walk_back(s, node@, a, (len - t) as nat) == (a, Set::<u64>::empty()));
            assert(Set::<u64>::empty().union(passed) =~= passed);
        }
        let ghost b = next_index(s, h);
        if *next.1 == *node {
            let new_hash = *next.0;
            seen.insert(new_hash);
            proof {
                lemma_lower_bound_at(s, b);
                assert(seen@ =~= start.union(passed.insert(new_hash)));
            }
            next = self.get_next_node_by_hash(new_hash).unwrap();
        }
        let ghost forward = if s[b].1 == node@ { succ_index(len, b) } else { b };
        proof {
            lemma_lower_bound(s, h);
            lemma_lower_bound_at(s, forward);
        }
        let new_hash = *next.0;
        let final_virtual_node = self.get_previous_node_by_hash(new_hash).unwrap();
        Transaction::new(node.clone(), next.1.clone(), *prev.0, *final_virtual_node.0)
    }

    /// Removes `node` and its virtual nodes, and returns the transactions
    /// that hand its ranges to the nodes that take them over. A ring whose
    /// every entry is `node`'s cannot lose it: the walk back to another
    /// node's entry would never end.
    pub fn remove_node(&mut self, node: &str) -> (r: Result<Vec<Transaction>, ConsistentHashingError>)
        requires
            old(self).wf(),
            old(self)@.nodes.contains(node@) ==> has_other_owner(old(self)@.ring, node@),
        ensures
            final(self).wf(),
            !old(self)@.nodes.contains(node@) ==> final(self)@ == old(self)@ && (r matches Err(
                ConsistentHashingError::NodeDoesNotExist(m),
            ) && m@ == "This node doesn't exist"@),
            old(self)@.nodes.contains(node@) ==> {
                let count = old(self)@.virtual_nodes_count as nat;
                &&& final(self)@.ring == strip_vnodes(old(self)@.ring, node@, count)
                &&& exists|i: int|
                    0 <= i < old(self)@.nodes.len() && old(self)@.nodes[i] == node@
                        && final(self)@.nodes == old(self)@.nodes.remove(i)
                &&& final(self)@.virtual_nodes_count == old(self)@.virtual_nodes_count
                &&& r matches Ok(txs) && transaction_views(txs@) == depart_vnodes(old(self)@.ring, node@, count).1
            },
    {
        let node_string = node.to_owned();
        let pos = match contains_text(&self.nodes, &node_string) {
            None => {
                return Err(ConsistentHashingError::NodeDoesNotExist("This node doesn't exist".to_owned()));
            },
            Some(p) => p,
        };
        let ghost s = self@.ring;
        let ghost old_nodes = self@.nodes;
        let count = self.virtual_nodes_count;
        let mut seen: HashSet<u64> = HashSet::with_capacity(count as usize);
        let mut hashes: Vec<u64> = Vec::with_capacity(count as usize);
        let mut transactions: Vec<Transaction> = Vec::new();
        self.nodes.remove(pos);
        assert(self@.nodes =~= old_nodes.remove(pos as int));
        assert(self@.nodes.no_duplicates()) by {
            assert forall|x: int, y: int| 0 <= x < y < self@.nodes.len() implies self@.nodes[x] != self@.nodes[y] by {
                let xo = if x < pos { x } else { x + 1 };
                let yo = if y < pos { y } else { y + 1 };
                assert(old_nodes[xo] != old_nodes[yo]);
            }
        }
        assert(seen@ =~= Set::<u64>::empty());
        assert(transaction_views(transactions@) =~= seq![]);
        let mut i: u32 = 0;
        while i < count
            invariant
                self.wf(),
                self@.ring == s,
                self@.nodes == old_nodes.remove(pos as int),
                self@.virtual_nodes_count == count,
                has_other_owner(s, node@),
                node_string@ == node@,
                0 <= i <= count,
                hashes@ =~= Seq::new(i as nat, |k: int| vnode_hash(node@, k as nat)),
                (seen@, transaction_views(transactions@)) == depart_vnodes(s, node@, i as nat),
            decreases count - i,
        {
            let v_node = self.get_virtual_node_form(node, i);
            let hash = self.hash(v_node.as_str());
            hashes.push(hash);
            let ghost prior = depart_vnodes(s, node@, i as nat);
            if seen.insert(hash) {
                let ghost before = transactions@;
                let t = self.depart_one(&node_string, v_node.as_str(), hash, &mut seen);
                transactions.push(t);
                assert(transaction_views(transactions@) =~= transaction_views(before).push(t@));
            }
            i = i + 1;
        }
        let mut j: usize = 0;
        while j < hashes.len()
            invariant
                keys_increasing(self@.ring),
                self@.nodes == old_nodes.remove(pos as int),
                self@.virtual_nodes_count == count,
                hashes@ =~= Seq::new(count as nat, |k: int| vnode_hash(node@, k as nat)),
                0 <= j <= hashes.len(),
                self@.ring == strip_vnodes(s, node@, j as nat),
            decreases hashes.len() - j,
        {
            self.ring_delete(hashes[j]);
            j = j + 1;
        }
        Ok(transactions)
    }
    /// Takes `node`'s virtual node at position `h` off the ring and records
    /// the transaction it gives.
    fn leave_one(&mut self, node: &String, h: u64, txs: &mut Vec<Transaction>)
        requires
            old(self).wf(),
            old(self)@.ring.len() > 0,
        ensures
            final(self).wf(),
            final(self)@ == (RingView { ring: leave_step(old(self)@.ring, node@, h).0, ..old(self)@ }),
            transaction_views(final(txs)@) == transaction_views(old(txs)@) + leave_step(old(self)@.ring, node@, h).1,
    {
        let ghost before = txs@;
        let ghost s = self@.ring;
        let prev = self.get_previous_node_by_hash(h).unwrap();
        let next = self.get_next_node_by_hash(h).unwrap();
        if !(*next.1 == *node) {
            let t = Transaction::new(node.clone(), next.1.clone(), *prev.0, h);
            txs.push(t);
        }
        assert(transaction_views(txs@) =~= transaction_views(before) + leave_step(s, node@, h).1);
        self.ring_delete(h);
    }

    /// Changes the number of virtual nodes of every node to `count` and
    /// returns the transactions that the virtual nodes placed or taken off
    /// give, node by node in the order the nodes joined. The counts are
    /// compared as `i32`s; a difference that overflows an `i32`, or a
    /// shrinking that meets an empty ring, is outside this function's domain.
    pub fn set_virtual_nodes_count(&mut self, count: u32) -> (r: Result<Vec<Transaction>, ConsistentHashingError>)
        requires
            old(self).wf(),
            count != 0 && count != old(self)@.virtual_nodes_count ==> i32::MIN <= as_i32(count) - as_i32(
                old(self)@.virtual_nodes_count,
            ) <= i32::MAX,
            count != 0 && count != old(self)@.virtual_nodes_count && as_i32(count) <= as_i32(
                old(self)@.virtual_nodes_count,
            ) ==> leave_all(
                old(self)@.ring,
                old(self)@.nodes,
                count as nat,
                old(self)@.virtual_nodes_count as nat,
            ).2,
        ensures
            final(self).wf(),
            count == 0 ==> final(self)@ == old(self)@ && (r matches Err(ConsistentHashingError::ZeroVirtualNodes(m))
                && m@ == "Cannot set virtual nodes count to 0"@),
            count != 0 && count == old(self)@.virtual_nodes_count ==> final(self)@ == old(self)@ && (r matches Err(
                ConsistentHashingError::UnchangedVirtualNodeCount(m),
            ) && m@ == "New virtual nodes count is same as current"@),
            count != 0 && count != old(self)@.virtual_nodes_count && as_i32(count) > as_i32(
                old(self)@.virtual_nodes_count,
            ) ==> {
                let grown = join_all(
                    old(self)@.ring,
                    old(self)@.nodes,
                    old(self)@.virtual_nodes_count as nat,
                    count as nat,
                );
                &&& final(self)@ == (RingView { ring: grown.0, nodes: old(self)@.nodes, virtual_nodes_count: count })
                &&& r matches Ok(txs) && transaction_views(txs@) == grown.1
            },
            count != 0 && count != old(self)@.virtual_nodes_count && as_i32(count) <= as_i32(
                old(self)@.virtual_nodes_count,
            ) ==> {
                let shrunk = leave_all(
                    old(self)@.ring,
                    old(self)@.nodes,
                    count as nat,
                    old(self)@.virtual_nodes_count as nat,
                );
                &&& final(self)@ == (RingView { ring: shrunk.0, nodes: old(self)@.nodes, virtual_nodes_count: count })
                &&& r matches Ok(txs) && transaction_views(txs@) == shrunk.1
            },
    {
        if count == 0 {
            return Err(ConsistentHashingError::ZeroVirtualNodes("Cannot set virtual nodes count to 0".to_owned()));
        }
        let current = self.virtual_nodes_count;
        if count == current {
            return Err(
                ConsistentHashingError::UnchangedVirtualNodeCount(
                    "New virtual nodes count is same as current".to_owned(),
                ),
            );
        }
        let ghost s0 = self@.ring;
        let ghost nodes = self@.nodes;
        let mut transactions: Vec<Transaction> = Vec::new();
        assert(transaction_views(transactions@) =~= seq![]);
        let grow = if (count > 0x7fff_ffff) == (current > 0x7fff_ffff) {
            count > current
        } else {
            current > 0x7fff_ffff
        };
        assert(grow == (as_i32(count) > as_i32(current)));
        let n = self.nodes.len();
        let mut k: usize = 0;
        if grow {
            while k < n
                invariant
                    self.wf(),
                    self@.nodes == nodes,
                    self@.virtual_nodes_count == current,
                    n == nodes.len(),
                    0 <= k <= n,
                    (self@.ring, transaction_views(transactions@)) == join_all(
                        s0,
                        nodes.take(k as int),
                        current as nat,
                        count as nat,
                    ),
                decreases n - k,
            {
                let node = self.nodes[k].clone();
                let ghost sk = self@.ring;
                let ghost tk = transaction_views(transactions@);
                let mut i: u32 = current;
                while i < count
                    invariant
                        self.wf(),
                        self@.nodes == nodes,
                        self@.virtual_nodes_count == current,
                        node@ == nodes[k as int],
                        current <= i,
                        i <= count || i == current,
                        (self@.ring, transaction_views(transactions@)) == (
                            join_vnodes(sk, node@, current as nat, i as nat).0,
                            tk + join_vnodes(sk, node@, current as nat, i as nat).1,
                        ),
                    decreases count - i,
                {
                    let v_node = self.get_virtual_node_form(node.as_str(), i);
                    let hash = self.hash(v_node.as_str());
                    let ghost before = transaction_views(transactions@);
                    self.join_one(&node, hash, &mut transactions);
                    assert(tk + join_vnodes(sk, node@, current as nat, (i + 1) as nat).1 =~= before + arrival(
                        self@.ring,
                        node@,
                        hash,
                    ));
                    i = i + 1;
                }
                proof {
                    assert(nodes.take(k + 1).drop_last() =~= nodes.take(k as int));
                    assert(join_vnodes(sk, node@, current as nat, i as nat) == join_vnodes(
                        sk,
                        node@,
                        current as nat,
                        count as nat,
                    ));
                }
                k = k + 1;
            }
        } else {
            while k < n
                invariant
                    self.wf(),
                    self@.nodes == nodes,
                    self@.virtual_nodes_count == current,
                    n == nodes.len(),
                    0 <= k <= n,
                    leave_all(s0, nodes, count as nat, current as nat).2,
                    (self@.ring, transaction_views(transactions@)) == (
                        leave_all(s0, nodes.take(k as int), count as nat, current as nat).0,
                        leave_all(s0, nodes.take(k as int), count as nat, current as nat).1,
                    ),
                decreases n - k,
            {
                let node = self.nodes[k].clone();
                let ghost sk = self@.ring;
                let ghost tk = transaction_views(transactions@);
                proof {
                    lemma_leave_all_prefix(s0, nodes, count as nat, current as nat, k + 1);
                    assert(nodes.take(k + 1).drop_last() =~= nodes.take(k as int));
                }
                let mut i: u32 = current;
                while i > count
                    invariant
                        self.wf(),
                        self@.nodes == nodes,
                        self@.virtual_nodes_count == current,
                        node@ == nodes[k as int],
                        i <= current,
                        count < current ==> count <= i,
                        count >= current ==> i == current,
                        leave_vnodes(sk, node@, count as nat, current as nat).2,
                        (self@.ring, transaction_views(transactions@)) == (
                            leave_vnodes(sk, node@, i as nat, current as nat).0,
                            tk + leave_vnodes(sk, node@, i as nat, current as nat).1,
                        ),
                    decreases i,
                {
                    i = i - 1;
                    proof {
                        lemma_leave_vnodes_suffix(sk, node@, count as nat, current as nat, i as nat);
                    }
                    let v_node = self.get_virtual_node_form(node.as_str(), i);
                    let hash = self.hash(v_node.as_str());
                    let ghost before = transaction_views(transactions@);
                    let ghost ring_before = self@.ring;
                    self.leave_one(&node, hash, &mut transactions);
                    assert(tk + leave_vnodes(sk, node@, i as nat, current as nat).1 =~= before + leave_step(
                        ring_before,
                        node@,
                        hash,
                    ).1);
                }
                proof {
                    assert(leave_vnodes(sk, node@, i as nat, current as nat).0 == leave_vnodes(
                        sk,
                        node@,
                        count as nat,
                        current as nat,
                    ).0);
                    assert(leave_vnodes(sk, node@, i as nat, current as nat).1 == leave_vnodes(
                        sk,
                        node@,
                        count as nat,
                        current as nat,
                    ).1);
                }
                k = k + 1;
            }
        }
        proof {
            assert(nodes.take(n as int) =~= nodes);
        }
        self.virtual_nodes_count = count;
        Ok(transactions)
    }
}

} // verus!
