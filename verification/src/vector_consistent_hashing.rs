//! A consistent-hashing ring kept as one sorted vector, to which nodes are
//! only added.

use vstd::prelude::*;

use crate::consistent_hashing::{hash_text, key_hash, lower_bound, vnode_hash, vnode_text};
use crate::transaction::{Transaction, TransactionView, transaction_view, transaction_views};

verus! {

/// Positions never decrease along the vector.
pub open spec fn keys_nondecreasing(s: Seq<(u64, Seq<char>)>) -> bool {
    forall|i: int, j: int| 0 <= i <= j < s.len() ==> #[trigger] s[i].0 <= #[trigger] s[j].0
}

/// On a vector sorted by position, the lower bound splits the entries below
/// `h` from the others.
pub proof fn lemma_lower_bound_nondecreasing(s: Seq<(u64, Seq<char>)>, h: u64)
    requires
        keys_nondecreasing(s),
    ensures
        0 <= lower_bound(s, h) <= s.len(),
        forall|i: int| 0 <= i < lower_bound(s, h) ==> s[i].0 < h,
        forall|i: int| lower_bound(s, h) <= i < s.len() ==> s[i].0 >= h,
{
    crate::consistent_hashing::lemma_lower_bound(s, h);
    let q = lower_bound(s, h);
    assert forall|i: int| q <= i < s.len() implies s[i].0 >= h by {
        assert(s[q].0 <= s[i].0);
    }
}

/// The position at which `h` goes in the sorted vector `s`: before the
/// first entry at or after `h`.
pub open spec fn sorted_insert(s: Seq<(u64, Seq<char>)>, h: u64, n: Seq<char>) -> Seq<(u64, Seq<char>)> {
    s.insert(lower_bound(s, h), (h, n))
}

/// Placing the virtual nodes `0..n` of `node`, in order: each goes in before
/// the first entry at or after its position, and gives a transaction from
/// its position up to the position of the entry after it (or of the first
/// entry, going round), handed to `node` from that entry's owner.
pub open spec fn vector_join(s: Seq<(u64, Seq<char>)>, node: Seq<char>, n: nat) -> (Seq<(u64, Seq<char>)>, Seq<TransactionView>)
    decreases n,
{
    if n == 0 {
        (s, seq![])
    } else {
        let prior = vector_join(s, node, (n - 1) as nat);
        let h = vnode_hash(node, (n - 1) as nat);
        let p = lower_bound(prior.0, h);
        let t = sorted_insert(prior.0, h, node);
        let next = if p + 1 < t.len() { t[p + 1] } else { t[0] };
        (t, prior.1.push(transaction_view(next.1, node, h, next.0)))
    }
}

/// Placing virtual nodes keeps the vector sorted, and gives one transaction
/// per virtual node.
proof fn lemma_vector_join_sorted(s: Seq<(u64, Seq<char>)>, node: Seq<char>, n: nat)
    requires
        keys_nondecreasing(s),
    ensures
        keys_nondecreasing(vector_join(s, node, n).0),
        vector_join(s, node, n).0.len() == s.len() + n,
        vector_join(s, node, n).1.len() == n,
    decreases n,
{
    if n > 0 {
        lemma_vector_join_sorted(s, node, (n - 1) as nat);
        let prior = vector_join(s, node, (n - 1) as nat);
        let h = vnode_hash(node, (n - 1) as nat);
        lemma_lower_bound_nondecreasing(prior.0, h);
        lemma_sorted_insert(prior.0, h, node);
    }
}

/// Placing more virtual nodes keeps the transactions of the earlier ones.
proof fn lemma_vector_join_prefix(s: Seq<(u64, Seq<char>)>, node: Seq<char>, n: nat, k: nat)
    requires
        k < n,
    ensures
        vector_join(s, node, n).1[k as int] == vector_join(s, node, k + 1).1[k as int],
    decreases n,
{
    if n > k + 1 {
        lemma_vector_join_prefix(s, node, (n - 1) as nat, k);
        lemma_vector_join_len(s, node, (n - 1) as nat);
    }
}

proof fn lemma_vector_join_len(s: Seq<(u64, Seq<char>)>, node: Seq<char>, n: nat)
    ensures
        vector_join(s, node, n).1.len() == n,
    decreases n,
{
    if n > 0 {
        lemma_vector_join_len(s, node, (n - 1) as nat);
    }
}

/// The transaction of each new virtual node `k` of `node`: the ring before
/// it, with `(position, node)` put in at an index `p` before which every
/// entry is lower and from which every entry is at least as high, gives the
/// ring after it; the transaction hands the range from the new position up
/// to the entry just after it (index `p + 1`, or the first entry when `p` is
/// the last index) to `node`, from that entry's owner.
pub proof fn law_vector_add_transaction(s: Seq<(u64, Seq<char>)>, node: Seq<char>, n: nat, k: nat)
    requires
        keys_nondecreasing(s),
        k < n,
    ensures
        vector_join(s, node, n).1.len() == n,
        ({
            let before = vector_join(s, node, k).0;
            let after = vector_join(s, node, k + 1).0;
            let h = vnode_hash(node, k);
            let tx = vector_join(s, node, n).1[k as int];
            exists|p: int|
                0 <= p <= before.len() && after == before.insert(p, (h, node)) && (forall|i: int|
                    0 <= i < p ==> before[i].0 < h) && (forall|i: int| p <= i < before.len() ==> before[i].0 >= h)
                    && {
                    let next = if p + 1 < after.len() { after[p + 1] } else { after[0] };
                    tx == transaction_view(next.1, node, h, next.0)
                }
        }),
{
    lemma_vector_join_sorted(s, node, n);
    lemma_vector_join_sorted(s, node, k);
    lemma_vector_join_prefix(s, node, n, k);
    let before = vector_join(s, node, k).0;
    let h = vnode_hash(node, k);
    let p = lower_bound(before, h);
    lemma_lower_bound_nondecreasing(before, h);
    let after = vector_join(s, node, k + 1).0;
    assert(after.len() == before.len() + 1);
}

/// Adding one virtual node to a ring that has entries hands it its range
/// from an entry that was already on the ring: the source and upper bound of
/// the transaction are the owner and position of one of the ring's entries
/// (on a ring that held only node `a`, the source is `a`).
pub proof fn law_vector_first_transaction_from_ring(s: Seq<(u64, Seq<char>)>, node: Seq<char>, n: nat)
    requires
        keys_nondecreasing(s),
        s.len() > 0,
        n > 0,
    ensures
        exists|j: int|
            0 <= j < s.len() && s[j].1 == #[trigger] vector_join(s, node, n).1[0].source && s[j].0 == vector_join(
                s,
                node,
                n,
            ).1[0].max,
{
    law_vector_add_transaction(s, node, n, 0);
    let after = vector_join(s, node, 1).0;
    let h = vnode_hash(node, 0);
    assert(vector_join(s, node, 0).0 == s);
    let p = choose|p: int|
        0 <= p <= s.len() && after == s.insert(p, (h, node)) && (forall|i: int| 0 <= i < p ==> s[i].0 < h) && (
        forall|i: int| p <= i < s.len() ==> s[i].0 >= h) && {
            let next = if p + 1 < after.len() { after[p + 1] } else { after[0] };
            vector_join(s, node, n).1[0] == transaction_view(next.1, node, h, next.0)
        };
    if p + 1 < after.len() {
        assert(after[p + 1] == s[p]);
    } else {
        assert(after[0] == s[0]);
    }
}

fn sorted_position(v: &Vec<(u64, String)>, h: u64) -> (p: usize)
    ensures
        p <= v.len(),
        keys_nondecreasing(crate::consistent_hashing::ring_view(v@)) ==> p == lower_bound(
            crate::consistent_hashing::ring_view(v@),
            h,
        ),
{
    let ghost s = crate::consistent_hashing::ring_view(v@);
    let mut lo: usize = 0;
    let mut hi: usize = v.len();
    while lo < hi
        invariant
            s == crate::consistent_hashing::ring_view(v@),
            0 <= lo <= hi <= s.len(),
            keys_nondecreasing(s) ==> forall|i: int| 0 <= i < lo ==> s[i].0 < h,
            keys_nondecreasing(s) ==> forall|i: int| hi <= i < s.len() ==> s[i].0 >= h,
        decreases hi - lo,
    {
        let mid = lo + (hi - lo) / 2;
        if v[mid].0 < h {
            assert(keys_nondecreasing(s) ==> forall|i: int| 0 <= i < mid + 1 ==> s[i].0 < h) by {
                if keys_nondecreasing(s) {
                    assert forall|i: int| 0 <= i < mid + 1 implies s[i].0 < h by {
                        assert(s[i].0 <= s[mid as int].0);
                    }
                }
            }
            lo = mid + 1;
        } else {
            assert(keys_nondecreasing(s) ==> forall|i: int| mid <= i < s.len() ==> s[i].0 >= h) by {
                if keys_nondecreasing(s) {
                    assert forall|i: int| mid <= i < s.len() implies s[i].0 >= h by {
                        assert(s[mid as int].0 <= s[i].0);
                    }
                }
            }
            hi = mid;
        }
    }
    proof {
        if keys_nondecreasing(s) {
            lemma_lower_bound_nondecreasing(s, h);
            let q = lower_bound(s, h);
            if q < lo {
                assert(s[q].0 < h);
            } else if q > lo {
                assert(s[lo as int].0 >= h);
            }
        }
    }
    lo
}

/// Inserting keeps the vector sorted by position.
proof fn lemma_sorted_insert(s: Seq<(u64, Seq<char>)>, h: u64, n: Seq<char>)
    requires
        keys_nondecreasing(s),
    ensures
        keys_nondecreasing(sorted_insert(s, h, n)),
{
    lemma_lower_bound_nondecreasing(s, h);
    let p = lower_bound(s, h);
    let t = sorted_insert(s, h, n);
    assert forall|i: int, j: int| 0 <= i <= j < t.len() implies #[trigger] t[i].0 <= #[trigger] t[j].0 by {
        if j < p {
            assert(s[i].0 <= s[j].0);
        } else if i > p {
            assert(s[i - 1].0 <= s[j - 1].0);
        } else if i == p {
            if j > p {
                assert(s[j - 1].0 >= h);
            }
        } else {
            if j == p {
                assert(s[i].0 < h);
            } else {
                assert(s[i].0 <= s[j - 1].0);
            }
        }
    }
}

/// Inserts `value` before the first entry at or after its position, when
/// `vec` is sorted by position; somewhere in `vec` otherwise.
fn _insert_sorted(vec: &mut Vec<(u64, String)>, value: (u64, String))
    ensures
        exists|p: int|
            0 <= p <= old(vec).len() && final(vec)@ == old(vec)@.insert(p, value) && (keys_nondecreasing(
                crate::consistent_hashing::ring_view(old(vec)@),
            ) ==> p == lower_bound(crate::consistent_hashing::ring_view(old(vec)@), value.0)),
{
    let pos = sorted_position(vec, value.0);
    vec.insert(pos, value);
}

/// What a [`VectorConsistentHashing`] holds, as plain values.
#[verifier::ext_equal]
pub struct VectorRingView {
    pub ring: Seq<(u64, Seq<char>)>,
    pub virtual_nodes_count: usize,
}

/// A ring kept as one vector sorted by position.
pub struct VectorConsistentHashing {
    ring: Vec<(u64, String)>,
    virtual_nodes_count: usize,
}

impl View for VectorConsistentHashing {
    type V = VectorRingView;

    closed spec fn view(&self) -> VectorRingView {
        VectorRingView {
            ring: crate::consistent_hashing::ring_view(self.ring@),
            virtual_nodes_count: self.virtual_nodes_count,
        }
    }
}

impl VectorConsistentHashing {
    /// The ring's invariant: positions never decrease along it.
    pub open spec fn wf(&self) -> bool {
        keys_nondecreasing(self@.ring)
    }

    /// An empty ring whose nodes will each have `virtual_nodes_count` virtual nodes.
    pub fn new(virtual_nodes_count: usize) -> (r: Self)
        ensures
            r.wf(),
            r@ == (VectorRingView { ring: seq![], virtual_nodes_count }),
    {
        let r = VectorConsistentHashing { ring: Vec::new(), virtual_nodes_count };
        assert(r@.ring =~= seq![]);
        r
    }

    /// The position of `item` on the ring: the hash of its text.
    pub fn hash(&self, item: &str) -> (h: u64)
        ensures
            h == key_hash(item@),
    {
        hash_text(item)
    }

    /// The ring's entries, `(position, owner)`, by position.
    pub fn entries(&self) -> (r: &Vec<(u64, String)>)
        ensures
            crate::consistent_hashing::ring_view(r@) == self@.ring,
    {
        &self.ring
    }

    /// Places the virtual nodes `node-0`, `node-1`, ... of `node` and
    /// returns one transaction per virtual node.
    pub fn add_node(&mut self, node: &str) -> (r: Vec<Transaction>)
        requires
            old(self).wf(),
        ensures
            final(self).wf(),
            final(self)@ == (VectorRingView {
                ring: vector_join(old(self)@.ring, node@, old(self)@.virtual_nodes_count as nat).0,
                ..old(self)@
            }),
            transaction_views(r@) == vector_join(old(self)@.ring, node@, old(self)@.virtual_nodes_count as nat).1,
    {
        let mut transactions: Vec<Transaction> = Vec::new();
        let ghost s0 = self@.ring;
        assert(transaction_views(transactions@) =~= seq![]);
        let count = self.virtual_nodes_count;
        let mut i: usize = 0;
        while i < count
            invariant
                self.wf(),
                count == self@.virtual_nodes_count,
                0 <= i <= count,
                (self@.ring, transaction_views(transactions@)) == vector_join(s0, node@, i as nat),
            decreases count - i,
        {
            let name = vnode_text(node, i as u128);
            let hash = hash_text(name.as_str());
            let ghost before = self@.ring;
            let ghost tx_before = transaction_views(transactions@);
            let p = sorted_position(&self.ring, hash);
            proof {
                lemma_lower_bound_nondecreasing(before, hash);
                lemma_sorted_insert(before, hash, node@);
            }
            self.ring.insert(p, (hash, node.to_owned()));
            assert(self@.ring =~= sorted_insert(before, hash, node@));
            let len = self.ring.len();
            let next = if p + 1 < len { &self.ring[p + 1] } else { &self.ring[0] };
            let t = Transaction::new(next.1.clone(), node.to_owned(), hash, next.0);
            transactions.push(t);
            assert(transaction_views(transactions@) =~= tx_before.push(t@));
            i = i + 1;
        }
        transactions
    }
}

} // verus!
