//! The server hands the transactions of a change of the ring out by route:
//! one batch for each pair of source and destination node.

use vstd::prelude::*;

use crate::server_transaction::{ServerTransactionView, Transaction};

verus! {

/// The route of a transaction: its source and destination nodes.
pub open spec fn route_of(t: ServerTransactionView) -> (u128, u128) {
    (t.source, t.destination)
}

/// The index of the batch for route `key`, or the number of batches when
/// there is none.
pub open spec fn route_index(groups: Seq<((u128, u128), Seq<ServerTransactionView>)>, key: (u128, u128)) -> int
    decreases groups.len(),
{
    if groups.len() == 0 {
        0
    } else if groups[0].0 == key {
        0
    } else {
        1 + route_index(groups.drop_first(), key)
    }
}

/// The transactions in batches by route: batches in the order their routes
/// first appear, each holding its transactions in their order.
pub open spec fn group_routes(txs: Seq<ServerTransactionView>) -> Seq<((u128, u128), Seq<ServerTransactionView>)>
    decreases txs.len(),
{
    if txs.len() == 0 {
        seq![]
    } else {
        let prior = group_routes(txs.drop_last());
        let t = txs.last();
        let j = route_index(prior, route_of(t));
        if j < prior.len() {
            prior.update(j, (prior[j].0, prior[j].1.push(t)))
        } else {
            prior.push((route_of(t), seq![t]))
        }
    }
}

/// The views of batches of transactions.
pub open spec fn batch_views(groups: Seq<((u128, u128), Vec<Transaction>)>) -> Seq<((u128, u128), Seq<ServerTransactionView>)> {
    groups.map_values(|g: ((u128, u128), Vec<Transaction>)| (g.0, g.1@.map_values(|t: Transaction| t@)))
}

proof fn lemma_route_index(groups: Seq<((u128, u128), Seq<ServerTransactionView>)>, key: (u128, u128))
    ensures
        0 <= route_index(groups, key) <= groups.len(),
        route_index(groups, key) < groups.len() ==> groups[route_index(groups, key)].0 == key,
        forall|i: int| 0 <= i < route_index(groups, key) ==> groups[i].0 != key,
    decreases groups.len(),
{
    if groups.len() > 0 && groups[0].0 != key {
        lemma_route_index(groups.drop_first(), key);
        assert forall|i: int| 0 <= i < route_index(groups, key) implies groups[i].0 != key by {
            if i > 0 {
                assert(groups[i] == groups.drop_first()[i - 1]);
            }
        }
    }
}

/// Whether a transaction goes by route `r`.
pub open spec fn on_route(r: (u128, u128)) -> spec_fn(ServerTransactionView) -> bool {
    |t: ServerTransactionView| route_of(t) == r
}

/// The number of transactions in all the batches together.
pub open spec fn batched_count(groups: Seq<((u128, u128), Seq<ServerTransactionView>)>) -> nat
    decreases groups.len(),
{
    if groups.len() == 0 {
        0
    } else {
        batched_count(groups.drop_last()) + groups.last().1.len()
    }
}

/// Growing one batch by one transaction adds one to the count.
proof fn lemma_batched_count_update(
    groups: Seq<((u128, u128), Seq<ServerTransactionView>)>,
    j: int,
    t: ServerTransactionView,
)
    requires
        0 <= j < groups.len(),
    ensures
        batched_count(groups.update(j, (groups[j].0, groups[j].1.push(t)))) == batched_count(groups) + 1,
    decreases groups.len(),
{
    let g = groups.update(j, (groups[j].0, groups[j].1.push(t)));
    if j == groups.len() - 1 {
        assert(g.drop_last() =~= groups.drop_last());
    } else {
        lemma_batched_count_update(groups.drop_last(), j, t);
        assert(g.drop_last() =~= groups.drop_last().update(j, (groups[j].0, groups[j].1.push(t))));
    }
}

/// A sequence none of whose elements passes `pred` keeps nothing.
proof fn lemma_filter_none(s: Seq<ServerTransactionView>, pred: spec_fn(ServerTransactionView) -> bool)
    requires
        forall|i: int| 0 <= i < s.len() ==> !pred(#[trigger] s[i]),
    ensures
        s.filter(pred) == Seq::<ServerTransactionView>::empty(),
    decreases s.len(),
{
    if s.len() > 0 {
        let init = s.drop_last();
        assert forall|i: int| 0 <= i < init.len() implies !pred(#[trigger] init[i]) by {
            assert(init[i] == s[i]);
        }
        lemma_filter_none(init, pred);
        init.lemma_filter_push(s.last(), pred);
        assert(init.push(s.last()) =~= s);
    } else {
        reveal(Seq::filter);
    }
}

/// Grouping by route loses and repeats nothing: the batches have distinct
/// routes; the batch of each route holds exactly the transactions of that
/// route, in their order; every transaction's route has a batch; and the
/// batches hold as many transactions as there are.
pub proof fn law_batches_split_by_route(txs: Seq<ServerTransactionView>)
    ensures
        forall|i: int, j: int|
            0 <= i < j < group_routes(txs).len() ==> #[trigger] group_routes(txs)[i].0 != #[trigger] group_routes(
                txs,
            )[j].0,
        forall|i: int|
            0 <= i < group_routes(txs).len() ==> #[trigger] group_routes(txs)[i].1 == txs.filter(
                on_route(group_routes(txs)[i].0),
            ) && group_routes(txs)[i].1.len() > 0,
        forall|k: int|
            0 <= k < txs.len() ==> exists|i: int|
                0 <= i < group_routes(txs).len() && #[trigger] group_routes(txs)[i].0 == route_of(#[trigger] txs[k]),
        batched_count(group_routes(txs)) == txs.len(),
    decreases txs.len(),
{
    let g = group_routes(txs);
    if txs.len() == 0 {
        assert(g.len() == 0);
    } else {
        let init = txs.drop_last();
        let t = txs.last();
        let prior = group_routes(init);
        law_batches_split_by_route(init);
        let key = route_of(t);
        let j = route_index(prior, key);
        lemma_route_index(prior, key);
        assert(init.push(t) =~= txs);
        assert forall|r: (u128, u128)| #[trigger] txs.filter(on_route(r)) == if key == r {
            init.filter(on_route(r)).push(t)
        } else {
            init.filter(on_route(r))
        } by {
            init.lemma_filter_push(t, on_route(r));
        }
        if j < prior.len() {
            lemma_batched_count_update(prior, j, t);
            assert forall|i: int| 0 <= i < g.len() implies #[trigger] g[i].1 == txs.filter(on_route(g[i].0)) && g[i].1.len()
                > 0 by {
                if i != j {
                    assert(g[i] == prior[i]);
                    assert(prior[i].0 != prior[j].0);
                }
            }
            assert forall|k: int| 0 <= k < txs.len() implies exists|i: int|
                0 <= i < g.len() && #[trigger] g[i].0 == route_of(#[trigger] txs[k]) by {
                if k < init.len() {
                    assert(txs[k] == init[k]);
                    let i = choose|i: int| 0 <= i < prior.len() && #[trigger] prior[i].0 == route_of(init[k]);
                    assert(g[i].0 == prior[i].0);
                } else {
                    assert(g[j].0 == route_of(txs[k]));
                }
            }
        } else {
            assert(g =~= prior.push((key, seq![t])));
            assert(g.drop_last() =~= prior);
            assert forall|m: int| 0 <= m < init.len() implies !on_route(key)(#[trigger] init[m]) by {
                if route_of(init[m]) == key {
                    let i = choose|i: int| 0 <= i < prior.len() && #[trigger] prior[i].0 == route_of(init[m]);
                }
            }
            lemma_filter_none(init, on_route(key));
            assert(txs.filter(on_route(key)) =~= seq![t]);
            assert forall|i: int| 0 <= i < g.len() implies #[trigger] g[i].1 == txs.filter(on_route(g[i].0)) && g[i].1.len()
                > 0 by {
                if i < prior.len() {
                    assert(g[i] == prior[i]);
                }
            }
            assert forall|k: int| 0 <= k < txs.len() implies exists|i: int|
                0 <= i < g.len() && #[trigger] g[i].0 == route_of(#[trigger] txs[k]) by {
                if k < init.len() {
                    assert(txs[k] == init[k]);
                    let i = choose|i: int| 0 <= i < prior.len() && #[trigger] prior[i].0 == route_of(init[k]);
                    assert(g[i].0 == prior[i].0);
                } else {
                    assert(g[prior.len() as int].0 == route_of(txs[k]));
                }
            }
        }
    }
}

/// The transactions of a change, in batches by route.
pub fn group_by_route(transactions: &Vec<Transaction>) -> (r: Vec<((u128, u128), Vec<Transaction>)>)
    ensures
        batch_views(r@) == group_routes(transactions@.map_values(|t: Transaction| t@)),
{
    let ghost all = transactions@.map_values(|t: Transaction| t@);
    let mut groups: Vec<((u128, u128), Vec<Transaction>)> = Vec::new();
    assert(batch_views(groups@) =~= group_routes(all.take(0)));
    let mut i: usize = 0;
    while i < transactions.len()
        invariant
            all == transactions@.map_values(|t: Transaction| t@),
            0 <= i <= transactions.len(),
            batch_views(groups@) =~= group_routes(all.take(i as int)),
        decreases transactions.len() - i,
    {
        let t = transactions[i];
        let key = t.route();
        let ghost prior = batch_views(groups@);
        proof {
            assert(all.take(i + 1).drop_last() =~= all.take(i as int));
            assert(all.take(i + 1).last() == t@);
            lemma_route_index(prior, key);
        }
        let mut j: usize = 0;
        while j < groups.len() && !(groups[j].0 .0 == key.0 && groups[j].0 .1 == key.1)
            invariant
                prior == batch_views(groups@),
                0 <= j <= groups.len(),
                forall|m: int| 0 <= m < j ==> prior[m].0 != key,
            decreases groups.len() - j,
        {
            j = j + 1;
        }
        proof {
            if j < route_index(prior, key) {
                assert(prior[j as int].0 == key);
            }
            if j > route_index(prior, key) {
                assert(prior[route_index(prior, key)].0 != key);
            }
        }
        if j < groups.len() {
            let ghost before = groups@;
            let (k, mut batch) = groups.remove(j);
            assert((k, batch) == before[j as int]);
            let ghost old_batch = batch@;
            batch.push(t);
            assert(batch@.map_values(|x: Transaction| x@) =~= old_batch.map_values(|x: Transaction| x@).push(t@));
            groups.insert(j, (k, batch));
            assert(groups@ =~= before.update(j as int, (k, batch)));
            assert(batch_views(groups@) =~= prior.update(j as int, (prior[j as int].0, prior[j as int].1.push(t@))));
        } else {
            let mut batch: Vec<Transaction> = Vec::new();
            batch.push(t);
            assert(batch@.map_values(|x: Transaction| x@) =~= seq![t@]);
            let ghost before = groups@;
            groups.push((key, batch));
            assert(groups@ =~= before.push((key, batch)));
            assert(batch_views(groups@) =~= prior.push((key, seq![t@])));
        }
        i = i + 1;
    }
    assert(all.take(transactions.len() as int) =~= all);
    groups
}

} // verus!
