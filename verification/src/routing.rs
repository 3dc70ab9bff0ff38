//! Route computation: a weighted edge list derived from link geometry, a
//! shortest-path search per source, and a verified audit of each search
//! result.  The audit — a distance certificate plus an explicit path walk —
//! is what the optimality contract rests on: a routing table is only
//! installed, in one pass after every pair has been solved, when every
//! recorded first hop provably lies on a path of globally minimal weight.
//! The search itself carries enough invariants to be provably complete: on a
//! topology where every pair is connected and the weights are in range, the
//! computation is guaranteed to succeed.

use vstd::prelude::*;
use crate::ether::Cable;
use crate::geom::euclid;
use crate::network::Network;
use crate::node::{route_lookup, Node, NodeInterfaceId};
use crate::{NetError, NodeId};

verus! {

/// The directed weighted edges a single cable contributes: one edge each way
/// between its endpoint owners, weighted by the truncated Euclidean distance
/// between the owners' current positions.
pub open spec fn cable_edges(c: Cable, nodes: Seq<Node>) -> Seq<(NodeId, NodeId, u64)> {
    match c.sides {
        None => Seq::empty(),
        Some((a, b)) => {
            let w = euclid(
                nodes[b.owner_node as int].position,
                nodes[a.owner_node as int].position,
            ) as u64;
            seq![(a.owner_node, b.owner_node, w), (b.owner_node, a.owner_node, w)]
        }
    }
}

/// The full edge list of a network: every cable's contribution, in arena
/// order.
pub open spec fn edges_model(ethers: Seq<Cable>, nodes: Seq<Node>) -> Seq<(NodeId, NodeId, u64)>
    decreases ethers.len(),
{
    if ethers.len() == 0 {
        Seq::empty()
    } else {
        edges_model(ethers.drop_last(), nodes) + cable_edges(ethers.last(), nodes)
    }
}

/// `ks` names a chain of edge indices leading from `s` to `d`.
pub open spec fn epath_ok(edges: Seq<(NodeId, NodeId, u64)>, s: int, d: int, ks: Seq<int>) -> bool
    decreases ks.len(),
{
    if ks.len() == 0 {
        s == d
    } else {
        &&& 0 <= ks[0] < edges.len()
        &&& edges[ks[0]].0 as int == s
        &&& epath_ok(edges, edges[ks[0]].1 as int, d, ks.drop_first())
    }
}

/// The total weight of a chain of edges.
pub open spec fn epath_weight(edges: Seq<(NodeId, NodeId, u64)>, ks: Seq<int>) -> int
    decreases ks.len(),
{
    if ks.len() == 0 {
        0
    } else if 0 <= ks[0] < edges.len() {
        edges[ks[0]].2 + epath_weight(edges, ks.drop_first())
    } else {
        0
    }
}

/// The largest edge weight on the list.
pub open spec fn wmax(edges: Seq<(NodeId, NodeId, u64)>) -> int
    decreases edges.len(),
{
    if edges.len() == 0 {
        0
    } else if edges.last().2 as int > wmax(edges.drop_last()) {
        edges.last().2 as int
    } else {
        wmax(edges.drop_last())
    }
}

/// Every edge weight is at most the maximum, which is itself non-negative.
pub proof fn lemma_wmax_bound(edges: Seq<(NodeId, NodeId, u64)>)
    ensures
        0 <= wmax(edges),
        forall|k: int| 0 <= k < edges.len() ==> ((#[trigger] edges[k]).2 as int) <= wmax(edges),
    decreases edges.len(),
{
    if edges.len() > 0 {
        lemma_wmax_bound(edges.drop_last());
        assert forall|k: int| 0 <= k < edges.len()
            implies ((#[trigger] edges[k]).2 as int) <= wmax(edges) by {
            if k < edges.len() - 1 {
                assert(edges.drop_last()[k] == edges[k]);
            }
        }
    }
}

/// No distance the search can form overflows: even a walk through every node
/// at the heaviest weight stays within `u64`.
pub open spec fn weights_ok(edges: Seq<(NodeId, NodeId, u64)>, n: int) -> bool {
    n * wmax(edges) <= u64::MAX
}

/// How many entries of a settled-flags sequence are still false.
pub open spec fn count_unsettled(s: Seq<bool>) -> int
    decreases s.len(),
{
    if s.len() == 0 {
        0
    } else {
        count_unsettled(s.drop_last()) + if s.last() { 0int } else { 1int }
    }
}

/// The count is bounded by the length.
pub proof fn lemma_count_le_len(s: Seq<bool>)
    ensures
        0 <= count_unsettled(s) <= s.len(),
    decreases s.len(),
{
    if s.len() > 0 {
        lemma_count_le_len(s.drop_last());
    }
}

/// Settling an unsettled entry lowers the count by exactly one.
pub proof fn lemma_count_update(s: Seq<bool>, i: int)
    requires
        0 <= i < s.len(),
        !s[i],
    ensures
        count_unsettled(s.update(i, true)) == count_unsettled(s) - 1,
    decreases s.len(),
{
    let t = s.update(i, true);
    if i == s.len() - 1 {
        assert(t.drop_last() =~= s.drop_last());
    } else {
        assert(t.drop_last() =~= s.drop_last().update(i, true));
        assert(t.last() == s.last());
        lemma_count_update(s.drop_last(), i);
    }
}

/// A zero count means every entry is settled.
pub proof fn lemma_count_zero(s: Seq<bool>)
    requires
        count_unsettled(s) == 0,
    ensures
        forall|i: int| 0 <= i < s.len() ==> s[i],
    decreases s.len(),
{
    if s.len() > 0 {
        lemma_count_le_len(s.drop_last());
        lemma_count_zero(s.drop_last());
        assert forall|i: int| 0 <= i < s.len() implies s[i] by {
            if i < s.len() - 1 {
                assert(s.drop_last()[i]);
            }
        }
    }
}

/// Reached-ness is closed along any chain of edges: if every edge carries a
/// reached source to a reached target, a path from a reached node ends at a
/// reached node.
pub proof fn lemma_reach_some(
    edges: Seq<(NodeId, NodeId, u64)>,
    dist: Seq<Option<u64>>,
    u: int,
    x: int,
    ks: Seq<int>,
)
    requires
        forall|k: int| 0 <= k < edges.len()
            ==> ((#[trigger] edges[k]).0 as int) < dist.len()
                && (edges[k].1 as int) < dist.len(),
        forall|k: int| 0 <= k < edges.len()
            ==> (dist[(#[trigger] edges[k]).0 as int] is Some
                ==> dist[edges[k].1 as int] is Some),
        0 <= u < dist.len(),
        dist[u] is Some,
        epath_ok(edges, u, x, ks),
    ensures
        0 <= x < dist.len(),
        dist[x] is Some,
    decreases ks.len(),
{
    if ks.len() > 0 {
        let k = ks[0];
        lemma_reach_some(edges, dist, edges[k].1 as int, x, ks.drop_first());
    }
}

/// Some chain of edges joins `s` to `d`.
pub open spec fn pair_connected(edges: Seq<(NodeId, NodeId, u64)>, s: int, d: int) -> bool {
    exists|ks: Seq<int>| #[trigger] epath_ok(edges, s, d, ks)
}

/// A distance certificate for a single source: the source's distance is zero
/// and no edge can improve on any recorded distance.  From these two facts
/// alone every recorded distance is a lower bound on every path's weight.
pub open spec fn cert_ok(edges: Seq<(NodeId, NodeId, u64)>, n: int, source: int, dist: Seq<u64>) -> bool {
    &&& dist.len() == n
    &&& 0 <= source < n
    &&& dist[source] == 0
    &&& forall|k: int| 0 <= k < edges.len() ==> ({
        let e = #[trigger] edges[k];
        &&& (e.0 as int) < n
        &&& (e.1 as int) < n
        &&& dist[e.1 as int] <= dist[e.0 as int] + e.2
    })
}

/// Under a valid certificate, no path from a node can undercut the recorded
/// distance of its endpoint: the certificate's local inequalities compose
/// along any chain of edges.
pub proof fn lemma_cert_lower_bound(
    edges: Seq<(NodeId, NodeId, u64)>,
    n: int,
    source: int,
    dist: Seq<u64>,
    u: int,
    x: int,
    ks: Seq<int>,
)
    requires
        cert_ok(edges, n, source, dist),
        0 <= u < n,
        epath_ok(edges, u, x, ks),
    ensures
        0 <= x < n,
        dist[x] <= dist[u] + epath_weight(edges, ks),
    decreases ks.len(),
{
    if ks.len() == 0 {
    } else {
        let k = ks[0];
        let m = edges[k].1 as int;
        lemma_cert_lower_bound(edges, n, source, dist, m, x, ks.drop_first());
    }
}

/// What a routing entry promises: the recorded first hop for `(s, d)` is the
/// first step of some path from `s` to `d`, of at most `n` hops, whose total
/// weight no path can undercut.  A node routes to itself via its own id.
pub open spec fn hop_good(edges: Seq<(NodeId, NodeId, u64)>, n: int, s: int, d: int, h: NodeId) -> bool {
    if s == d {
        h as int == s
    } else {
        exists|ks: Seq<int>| {
            &&& #[trigger] epath_ok(edges, s, d, ks)
            &&& 0 < ks.len() <= n
            &&& edges[ks[0]].1 == h
            &&& forall|ks2: Seq<int>| #[trigger] epath_ok(edges, s, d, ks2)
                ==> epath_weight(edges, ks) <= epath_weight(edges, ks2)
        }
    }
}

/// Settling the popped minimum frontier entry preserves every invariant of
/// the search but the relaxedness of the new node's own outgoing edges,
/// which the relaxation pass restores next.
#[verifier::rlimit(100)]
#[verifier::spinoff_prover]
proof fn lemma_settle_all(
    edges: Seq<(NodeId, NodeId, u64)>,
    n: int,
    source: NodeId,
    pre_f: Seq<(NodeId, NodeId, u64)>,
    post_f: Seq<(NodeId, NodeId, u64)>,
    min_i: int,
    pre_s: Seq<bool>,
    s2: Seq<bool>,
    pre_d: Seq<Option<u64>>,
    d2: Seq<Option<u64>>,
    pre_p: Seq<Option<NodeId>>,
    p2: Seq<Option<NodeId>>,
    ranks0: Seq<int>,
    ranks: Seq<int>,
    v: NodeId,
    prev: NodeId,
    dv: u64,
    steps0: int,
)
    requires
        (source as int) < n,
        0 < steps0 <= n,
        0 <= min_i < pre_f.len(),
        pre_s.len() == n,
        pre_d.len() == n,
        pre_p.len() == n,
        ranks0.len() == n,
        forall|k: int| 0 <= k < edges.len()
            ==> ((#[trigger] edges[k]).0 as int) < n && (edges[k].1 as int) < n,
        pre_f[min_i] == (v, prev, dv),
        forall|k: int| 0 <= k < pre_f.len() ==> dv <= (#[trigger] pre_f[k]).2,
        post_f == pre_f.remove(min_i),
        s2 == pre_s.update(v as int, true),
        d2 == pre_d.update(v as int, Some(dv)),
        p2 == pre_p.update(v as int, Some(prev)),
        ranks == ranks0.update(v as int, n - steps0),
        count_unsettled(pre_s) == steps0,
        forall|t: int| 0 <= t < n
            ==> ((#[trigger] pre_s[t]) <==> pre_d[t] is Some)
                && (pre_s[t] <==> pre_p[t] is Some),
        forall|f: int| 0 <= f < pre_f.len()
            ==> ((#[trigger] pre_f[f]).0 as int) < n && !pre_s[pre_f[f].0 as int],
        forall|f1: int, f2: int| 0 <= f1 < f2 < pre_f.len()
            ==> (#[trigger] pre_f[f1]).0 != (#[trigger] pre_f[f2]).0,
        !pre_s[source as int] ==> pre_f.len() == 1 && pre_f[0] == (source, source, 0u64)
            && count_unsettled(pre_s) == n,
        pre_s[source as int] ==> pre_d[source as int] == Some(0u64)
            && ranks0[source as int] == 0,
        forall|t: int| 0 <= t < n && (#[trigger] pre_s[t])
            ==> 0 <= ranks0[t] < n - steps0,
        forall|t: int| 0 <= t < n && t != source as int && (#[trigger] pre_s[t])
            ==> (pre_p[t].unwrap() as int) < n
                && pre_s[pre_p[t].unwrap() as int]
                && ranks0[pre_p[t].unwrap() as int] < ranks0[t]
                && (exists|q: int| 0 <= q < edges.len()
                    && (#[trigger] edges[q]).0 == pre_p[t].unwrap()
                    && (edges[q].1 as int) == t
                    && pre_d[pre_p[t].unwrap() as int].unwrap() + edges[q].2
                        == pre_d[t].unwrap()),
        forall|f: int| 0 <= f < pre_f.len() ==> ({
            let e = #[trigger] pre_f[f];
            ||| (e.0 == source && e.2 == 0)
            ||| ((e.1 as int) < n && pre_s[e.1 as int]
                && (exists|q: int| 0 <= q < edges.len()
                    && (#[trigger] edges[q]).0 == e.1
                    && edges[q].1 == e.0
                    && pre_d[e.1 as int].unwrap() + edges[q].2 == e.2))
        }),
        forall|q: int| 0 <= q < edges.len()
            && pre_s[(#[trigger] edges[q]).0 as int] ==> ({
            let t = edges[q].1 as int;
            ||| (pre_s[t] && pre_d[t].unwrap()
                <= pre_d[edges[q].0 as int].unwrap() + edges[q].2)
            ||| (exists|f: int| 0 <= f < pre_f.len()
                && ((#[trigger] pre_f[f]).0 as int) == t
                && pre_f[f].2 <= pre_d[edges[q].0 as int].unwrap() + edges[q].2)
        }),
        forall|t: int, f: int|
            #![trigger pre_s[t], pre_f[f]]
            0 <= t < n && pre_s[t] && 0 <= f < pre_f.len()
            ==> pre_d[t].unwrap() <= pre_f[f].2,
        forall|t: int| 0 <= t < n && (#[trigger] pre_s[t])
            ==> (pre_d[t].unwrap() as int) <= ranks0[t] * wmax(edges),
        forall|f: int| 0 <= f < pre_f.len()
            ==> ((#[trigger] pre_f[f]).2 as int) <= (n - steps0) * wmax(edges),
    ensures
        (v as int) < n,
        !pre_s[v as int],
        s2[v as int],
        d2[v as int] == Some(dv),
        ranks[v as int] == n - steps0,
        (dv as int) <= (n - steps0) * wmax(edges),
        count_unsettled(s2) == steps0 - 1,
        forall|t: int| 0 <= t < n
            ==> ((#[trigger] s2[t]) <==> d2[t] is Some) && (s2[t] <==> p2[t] is Some),
        s2[source as int],
        d2[source as int] == Some(0u64),
        ranks[source as int] == 0,
        forall|f: int| 0 <= f < post_f.len()
            ==> ((#[trigger] post_f[f]).0 as int) < n && !s2[post_f[f].0 as int],
        forall|f1: int, f2: int| 0 <= f1 < f2 < post_f.len()
            ==> (#[trigger] post_f[f1]).0 != (#[trigger] post_f[f2]).0,
        forall|f: int| 0 <= f < post_f.len() ==> ({
            let e = #[trigger] post_f[f];
            ||| (e.0 == source && e.2 == 0)
            ||| ((e.1 as int) < n && s2[e.1 as int]
                && (exists|q: int| 0 <= q < edges.len()
                    && (#[trigger] edges[q]).0 == e.1
                    && edges[q].1 == e.0
                    && d2[e.1 as int].unwrap() + edges[q].2 == e.2))
        }),
        forall|f: int| 0 <= f < post_f.len()
            ==> ((#[trigger] post_f[f]).2 as int) <= (n - steps0 + 1) * wmax(edges),
        forall|t: int| 0 <= t < n && (#[trigger] s2[t]) ==> d2[t].unwrap() <= dv,
        forall|t: int, f: int|
            #![trigger s2[t], post_f[f]]
            0 <= t < n && s2[t] && 0 <= f < post_f.len()
            ==> d2[t].unwrap() <= post_f[f].2,
        forall|t: int| 0 <= t < n && (#[trigger] s2[t])
            ==> 0 <= ranks[t] < n - steps0 + 1,
        forall|t: int| 0 <= t < n && (#[trigger] s2[t])
            ==> (d2[t].unwrap() as int) <= ranks[t] * wmax(edges),
        forall|t: int| 0 <= t < n && t != source as int && (#[trigger] s2[t])
            ==> (p2[t].unwrap() as int) < n
                && s2[p2[t].unwrap() as int]
                && ranks[p2[t].unwrap() as int] < ranks[t]
                && (exists|q: int| 0 <= q < edges.len()
                    && (#[trigger] edges[q]).0 == p2[t].unwrap()
                    && (edges[q].1 as int) == t
                    && d2[p2[t].unwrap() as int].unwrap() + edges[q].2
                        == d2[t].unwrap()),
        forall|q: int| 0 <= q < edges.len()
            && s2[(#[trigger] edges[q]).0 as int] && edges[q].0 != v ==> ({
            let t = edges[q].1 as int;
            ||| (s2[t] && d2[t].unwrap()
                <= d2[edges[q].0 as int].unwrap() + edges[q].2)
            ||| (exists|f: int| 0 <= f < post_f.len()
                && ((#[trigger] post_f[f]).0 as int) == t
                && post_f[f].2 <= d2[edges[q].0 as int].unwrap() + edges[q].2)
        }),
{
    lemma_settle_core(edges, n, source, pre_f, post_f, min_i, pre_s, s2, pre_d, d2,
        pre_p, p2, ranks0, ranks, v, prev, dv, steps0);
    lemma_settle_frontier(edges, n, source, pre_f, post_f, min_i, pre_s, s2,
        pre_d, d2, v, dv, steps0);
    lemma_settle_order(n, pre_f, post_f, min_i, pre_s, s2, pre_d, d2, v, dv);
    lemma_settle_justified(edges, n, source, pre_f, post_f, min_i, pre_s, s2,
        pre_d, d2, pre_p, p2, ranks0, ranks, v, prev, dv, steps0);
    lemma_settle_relaxed(edges, n, source, pre_f, post_f, min_i, pre_s, s2,
        pre_d, d2, pre_p, p2, ranks0, ranks, v, prev, dv, steps0);
}

/// Settling the popped minimum frontier entry: the settled count drops by
/// one, the tables stay coherent, and the new distance is weight-bounded.
#[verifier::rlimit(100)]
#[verifier::spinoff_prover]
proof fn lemma_settle_core(
    edges: Seq<(NodeId, NodeId, u64)>,
    n: int,
    source: NodeId,
    pre_f: Seq<(NodeId, NodeId, u64)>,
    post_f: Seq<(NodeId, NodeId, u64)>,
    min_i: int,
    pre_s: Seq<bool>,
    s2: Seq<bool>,
    pre_d: Seq<Option<u64>>,
    d2: Seq<Option<u64>>,
    pre_p: Seq<Option<NodeId>>,
    p2: Seq<Option<NodeId>>,
    ranks0: Seq<int>,
    ranks: Seq<int>,
    v: NodeId,
    prev: NodeId,
    dv: u64,
    steps0: int,
)
    requires
        (source as int) < n,
        0 < steps0 <= n,
        0 <= min_i < pre_f.len(),
        pre_s.len() == n,
        pre_d.len() == n,
        pre_p.len() == n,
        ranks0.len() == n,
        forall|k: int| 0 <= k < edges.len()
            ==> ((#[trigger] edges[k]).0 as int) < n && (edges[k].1 as int) < n,
        pre_f[min_i] == (v, prev, dv),
        forall|k: int| 0 <= k < pre_f.len() ==> dv <= (#[trigger] pre_f[k]).2,
        post_f == pre_f.remove(min_i),
        s2 == pre_s.update(v as int, true),
        d2 == pre_d.update(v as int, Some(dv)),
        p2 == pre_p.update(v as int, Some(prev)),
        ranks == ranks0.update(v as int, n - steps0),
        count_unsettled(pre_s) == steps0,
        forall|t: int| 0 <= t < n
            ==> ((#[trigger] pre_s[t]) <==> pre_d[t] is Some)
                && (pre_s[t] <==> pre_p[t] is Some),
        forall|f: int| 0 <= f < pre_f.len()
            ==> ((#[trigger] pre_f[f]).0 as int) < n && !pre_s[pre_f[f].0 as int],
        forall|f1: int, f2: int| 0 <= f1 < f2 < pre_f.len()
            ==> (#[trigger] pre_f[f1]).0 != (#[trigger] pre_f[f2]).0,
        !pre_s[source as int] ==> pre_f.len() == 1 && pre_f[0] == (source, source, 0u64)
            && count_unsettled(pre_s) == n,
        pre_s[source as int] ==> pre_d[source as int] == Some(0u64)
            && ranks0[source as int] == 0,
        forall|t: int| 0 <= t < n && (#[trigger] pre_s[t])
            ==> 0 <= ranks0[t] < n - steps0,
        forall|t: int| 0 <= t < n && t != source as int && (#[trigger] pre_s[t])
            ==> (pre_p[t].unwrap() as int) < n
                && pre_s[pre_p[t].unwrap() as int]
                && ranks0[pre_p[t].unwrap() as int] < ranks0[t]
                && (exists|q: int| 0 <= q < edges.len()
                    && (#[trigger] edges[q]).0 == pre_p[t].unwrap()
                    && (edges[q].1 as int) == t
                    && pre_d[pre_p[t].unwrap() as int].unwrap() + edges[q].2
                        == pre_d[t].unwrap()),
        forall|f: int| 0 <= f < pre_f.len() ==> ({
            let e = #[trigger] pre_f[f];
            ||| (e.0 == source && e.2 == 0)
            ||| ((e.1 as int) < n && pre_s[e.1 as int]
                && (exists|q: int| 0 <= q < edges.len()
                    && (#[trigger] edges[q]).0 == e.1
                    && edges[q].1 == e.0
                    && pre_d[e.1 as int].unwrap() + edges[q].2 == e.2))
        }),
        forall|q: int| 0 <= q < edges.len()
            && pre_s[(#[trigger] edges[q]).0 as int] ==> ({
            let t = edges[q].1 as int;
            ||| (pre_s[t] && pre_d[t].unwrap()
                <= pre_d[edges[q].0 as int].unwrap() + edges[q].2)
            ||| (exists|f: int| 0 <= f < pre_f.len()
                && ((#[trigger] pre_f[f]).0 as int) == t
                && pre_f[f].2 <= pre_d[edges[q].0 as int].unwrap() + edges[q].2)
        }),
        forall|t: int, f: int|
            #![trigger pre_s[t], pre_f[f]]
            0 <= t < n && pre_s[t] && 0 <= f < pre_f.len()
            ==> pre_d[t].unwrap() <= pre_f[f].2,
        forall|t: int| 0 <= t < n && (#[trigger] pre_s[t])
            ==> (pre_d[t].unwrap() as int) <= ranks0[t] * wmax(edges),
        forall|f: int| 0 <= f < pre_f.len()
            ==> ((#[trigger] pre_f[f]).2 as int) <= (n - steps0) * wmax(edges),
    ensures
        (v as int) < n,
        !pre_s[v as int],
        s2[v as int],
        d2[v as int] == Some(dv),
        ranks[v as int] == n - steps0,
        (dv as int) <= (n - steps0) * wmax(edges),
        count_unsettled(s2) == steps0 - 1,
        forall|t: int| 0 <= t < n
            ==> ((#[trigger] s2[t]) <==> d2[t] is Some) && (s2[t] <==> p2[t] is Some),
        s2[source as int],
        d2[source as int] == Some(0u64),
        ranks[source as int] == 0,
{
    lemma_wmax_bound(edges);
    lemma_count_update(pre_s, v as int);
    let iter = n - steps0;
    if !pre_s[source as int] {
        assert(pre_f.len() == 1 && min_i == 0);
        assert(v == source);
    }
    assert((dv as int) <= iter * wmax(edges)) by {
        if v == source {
            assert(dv == 0);
            assert(iter * wmax(edges) >= 0) by (nonlinear_arith)
                requires iter >= 0, 0 <= wmax(edges);
        } else {
            assert(pre_s[source as int]);
            let e = pre_f[min_i];
            let p = e.1 as int;
            assert(ranks0[p] < iter);
            assert((pre_d[p].unwrap() as int) <= ranks0[p] * wmax(edges));
            let q = choose|q: int| 0 <= q < edges.len()
                && (#[trigger] edges[q]).0 == e.1
                && edges[q].1 == e.0
                && pre_d[p].unwrap() + edges[q].2 == e.2;
            assert((edges[q].2 as int) <= wmax(edges));
            assert(ranks0[p] * wmax(edges) + wmax(edges) <= iter * wmax(edges))
                by (nonlinear_arith)
                requires ranks0[p] + 1 <= iter, 0 <= wmax(edges);
        }
    }
}

/// Settling the popped minimum frontier entry: the remaining frontier keeps
/// every per-entry property.
#[verifier::rlimit(100)]
#[verifier::spinoff_prover]
proof fn lemma_settle_frontier(
    edges: Seq<(NodeId, NodeId, u64)>,
    n: int,
    source: NodeId,
    pre_f: Seq<(NodeId, NodeId, u64)>,
    post_f: Seq<(NodeId, NodeId, u64)>,
    min_i: int,
    pre_s: Seq<bool>,
    s2: Seq<bool>,
    pre_d: Seq<Option<u64>>,
    d2: Seq<Option<u64>>,
    v: NodeId,
    dv: u64,
    steps0: int,
)
    requires
        (source as int) < n,
        0 < steps0 <= n,
        0 <= min_i < pre_f.len(),
        pre_s.len() == n,
        pre_d.len() == n,
        forall|k: int| 0 <= k < edges.len()
            ==> ((#[trigger] edges[k]).0 as int) < n && (edges[k].1 as int) < n,
        pre_f[min_i].0 == v && pre_f[min_i].2 == dv,
        post_f == pre_f.remove(min_i),
        s2 == pre_s.update(v as int, true),
        d2 == pre_d.update(v as int, Some(dv)),
        forall|f: int| 0 <= f < pre_f.len()
            ==> ((#[trigger] pre_f[f]).0 as int) < n && !pre_s[pre_f[f].0 as int],
        forall|f1: int, f2: int| 0 <= f1 < f2 < pre_f.len()
            ==> (#[trigger] pre_f[f1]).0 != (#[trigger] pre_f[f2]).0,
        forall|f: int| 0 <= f < pre_f.len() ==> ({
            let e = #[trigger] pre_f[f];
            ||| (e.0 == source && e.2 == 0)
            ||| ((e.1 as int) < n && pre_s[e.1 as int]
                && (exists|q: int| 0 <= q < edges.len()
                    && (#[trigger] edges[q]).0 == e.1
                    && edges[q].1 == e.0
                    && pre_d[e.1 as int].unwrap() + edges[q].2 == e.2))
        }),
        forall|f: int| 0 <= f < pre_f.len()
            ==> ((#[trigger] pre_f[f]).2 as int) <= (n - steps0) * wmax(edges),
    ensures
        forall|f: int| 0 <= f < post_f.len()
            ==> ((#[trigger] post_f[f]).0 as int) < n && !s2[post_f[f].0 as int],
        forall|f1: int, f2: int| 0 <= f1 < f2 < post_f.len()
            ==> (#[trigger] post_f[f1]).0 != (#[trigger] post_f[f2]).0,
        forall|f: int| 0 <= f < post_f.len() ==> ({
            let e = #[trigger] post_f[f];
            ||| (e.0 == source && e.2 == 0)
            ||| ((e.1 as int) < n && s2[e.1 as int]
                && (exists|q: int| 0 <= q < edges.len()
                    && (#[trigger] edges[q]).0 == e.1
                    && edges[q].1 == e.0
                    && d2[e.1 as int].unwrap() + edges[q].2 == e.2))
        }),
        forall|f: int| 0 <= f < post_f.len()
            ==> ((#[trigger] post_f[f]).2 as int) <= (n - steps0 + 1) * wmax(edges),
{
    lemma_wmax_bound(edges);
    assert forall|f1: int, f2: int| 0 <= f1 < f2 < post_f.len()
        implies (#[trigger] post_f[f1]).0 != (#[trigger] post_f[f2]).0 by {
        let m1 = if f1 < min_i { f1 } else { f1 + 1 };
        let m2 = if f2 < min_i { f2 } else { f2 + 1 };
        assert(post_f[f1] == pre_f[m1]);
        assert(post_f[f2] == pre_f[m2]);
    }
    assert forall|f: int| 0 <= f < post_f.len() implies ({
        let e = #[trigger] post_f[f];
        &&& (e.0 as int) < n
        &&& !s2[e.0 as int]
        &&& ((e.0 == source && e.2 == 0)
            || ((e.1 as int) < n && s2[e.1 as int]
                && (exists|q: int| 0 <= q < edges.len()
                    && (#[trigger] edges[q]).0 == e.1
                    && edges[q].1 == e.0
                    && d2[e.1 as int].unwrap() + edges[q].2 == e.2)))
        &&& (e.2 as int) <= (n - steps0 + 1) * wmax(edges)
    }) by {
        let m = if f < min_i { f } else { f + 1 };
        assert(post_f[f] == pre_f[m]);
        assert(pre_f[m].0 != v);
        if !(pre_f[m].0 == source && pre_f[m].2 == 0) {
            assert(pre_s[pre_f[m].1 as int]);
            assert((pre_f[m].1 as int) != v as int);
            assert(d2[pre_f[m].1 as int] == pre_d[pre_f[m].1 as int]);
        }
        assert((n - steps0) * wmax(edges) <= (n - steps0 + 1) * wmax(edges))
            by (nonlinear_arith)
            requires 0 <= wmax(edges);
    }
}

/// Settling the popped minimum frontier entry: every settled distance stays
/// at most the new one, and at most every remaining frontier distance.
#[verifier::rlimit(100)]
#[verifier::spinoff_prover]
proof fn lemma_settle_order(
    n: int,
    pre_f: Seq<(NodeId, NodeId, u64)>,
    post_f: Seq<(NodeId, NodeId, u64)>,
    min_i: int,
    pre_s: Seq<bool>,
    s2: Seq<bool>,
    pre_d: Seq<Option<u64>>,
    d2: Seq<Option<u64>>,
    v: NodeId,
    dv: u64,
)
    requires
        0 <= min_i < pre_f.len(),
        pre_s.len() == n,
        pre_d.len() == n,
        (v as int) < n,
        pre_f[min_i].0 == v && pre_f[min_i].2 == dv,
        forall|k: int| 0 <= k < pre_f.len() ==> dv <= (#[trigger] pre_f[k]).2,
        post_f == pre_f.remove(min_i),
        s2 == pre_s.update(v as int, true),
        d2 == pre_d.update(v as int, Some(dv)),
        forall|t: int, f: int|
            #![trigger pre_s[t], pre_f[f]]
            0 <= t < n && pre_s[t] && 0 <= f < pre_f.len()
            ==> pre_d[t].unwrap() <= pre_f[f].2,
    ensures
        forall|t: int| 0 <= t < n && (#[trigger] s2[t]) ==> d2[t].unwrap() <= dv,
        forall|t: int, f: int|
            #![trigger s2[t], post_f[f]]
            0 <= t < n && s2[t] && 0 <= f < post_f.len()
            ==> d2[t].unwrap() <= post_f[f].2,
{
    assert forall|t: int| 0 <= t < n && (#[trigger] s2[t])
        implies d2[t].unwrap() <= dv by {
        if t != v as int {
            assert(pre_s[t]);
            assert(d2[t] == pre_d[t]);
            assert(pre_d[t].unwrap() <= pre_f[min_i].2);
        }
    }
    assert forall|t: int, f: int|
        #![trigger s2[t], post_f[f]]
        0 <= t < n && s2[t] && 0 <= f < post_f.len()
        implies d2[t].unwrap() <= post_f[f].2 by {
        let m = if f < min_i { f } else { f + 1 };
        assert(post_f[f] == pre_f[m]);
        if t == v as int {
            assert(dv <= pre_f[m].2);
        } else {
            assert(pre_s[t]);
            assert(d2[t] == pre_d[t]);
            assert(pre_d[t].unwrap() <= pre_f[m].2);
        }
    }
}

/// Settling the popped minimum frontier entry: every settled node keeps a
/// rank-decreasing predecessor edge that accounts for its distance, the new
/// node included, and the weight bounds follow the ranks.
#[verifier::rlimit(100)]
#[verifier::spinoff_prover]
proof fn lemma_settle_justified(
    edges: Seq<(NodeId, NodeId, u64)>,
    n: int,
    source: NodeId,
    pre_f: Seq<(NodeId, NodeId, u64)>,
    post_f: Seq<(NodeId, NodeId, u64)>,
    min_i: int,
    pre_s: Seq<bool>,
    s2: Seq<bool>,
    pre_d: Seq<Option<u64>>,
    d2: Seq<Option<u64>>,
    pre_p: Seq<Option<NodeId>>,
    p2: Seq<Option<NodeId>>,
    ranks0: Seq<int>,
    ranks: Seq<int>,
    v: NodeId,
    prev: NodeId,
    dv: u64,
    steps0: int,
)
    requires
        (source as int) < n,
        0 < steps0 <= n,
        0 <= min_i < pre_f.len(),
        pre_s.len() == n,
        pre_d.len() == n,
        pre_p.len() == n,
        ranks0.len() == n,
        forall|k: int| 0 <= k < edges.len()
            ==> ((#[trigger] edges[k]).0 as int) < n && (edges[k].1 as int) < n,
        pre_f[min_i] == (v, prev, dv),
        forall|k: int| 0 <= k < pre_f.len() ==> dv <= (#[trigger] pre_f[k]).2,
        post_f == pre_f.remove(min_i),
        s2 == pre_s.update(v as int, true),
        d2 == pre_d.update(v as int, Some(dv)),
        p2 == pre_p.update(v as int, Some(prev)),
        ranks == ranks0.update(v as int, n - steps0),
        count_unsettled(pre_s) == steps0,
        forall|t: int| 0 <= t < n
            ==> ((#[trigger] pre_s[t]) <==> pre_d[t] is Some)
                && (pre_s[t] <==> pre_p[t] is Some),
        forall|f: int| 0 <= f < pre_f.len()
            ==> ((#[trigger] pre_f[f]).0 as int) < n && !pre_s[pre_f[f].0 as int],
        forall|f1: int, f2: int| 0 <= f1 < f2 < pre_f.len()
            ==> (#[trigger] pre_f[f1]).0 != (#[trigger] pre_f[f2]).0,
        !pre_s[source as int] ==> pre_f.len() == 1 && pre_f[0] == (source, source, 0u64)
            && count_unsettled(pre_s) == n,
        pre_s[source as int] ==> pre_d[source as int] == Some(0u64)
            && ranks0[source as int] == 0,
        forall|t: int| 0 <= t < n && (#[trigger] pre_s[t])
            ==> 0 <= ranks0[t] < n - steps0,
        forall|t: int| 0 <= t < n && t != source as int && (#[trigger] pre_s[t])
            ==> (pre_p[t].unwrap() as int) < n
                && pre_s[pre_p[t].unwrap() as int]
                && ranks0[pre_p[t].unwrap() as int] < ranks0[t]
                && (exists|q: int| 0 <= q < edges.len()
                    && (#[trigger] edges[q]).0 == pre_p[t].unwrap()
                    && (edges[q].1 as int) == t
                    && pre_d[pre_p[t].unwrap() as int].unwrap() + edges[q].2
                        == pre_d[t].unwrap()),
        forall|f: int| 0 <= f < pre_f.len() ==> ({
            let e = #[trigger] pre_f[f];
            ||| (e.0 == source && e.2 == 0)
            ||| ((e.1 as int) < n && pre_s[e.1 as int]
                && (exists|q: int| 0 <= q < edges.len()
                    && (#[trigger] edges[q]).0 == e.1
                    && edges[q].1 == e.0
                    && pre_d[e.1 as int].unwrap() + edges[q].2 == e.2))
        }),
        forall|q: int| 0 <= q < edges.len()
            && pre_s[(#[trigger] edges[q]).0 as int] ==> ({
            let t = edges[q].1 as int;
            ||| (pre_s[t] && pre_d[t].unwrap()
                <= pre_d[edges[q].0 as int].unwrap() + edges[q].2)
            ||| (exists|f: int| 0 <= f < pre_f.len()
                && ((#[trigger] pre_f[f]).0 as int) == t
                && pre_f[f].2 <= pre_d[edges[q].0 as int].unwrap() + edges[q].2)
        }),
        forall|t: int, f: int|
            #![trigger pre_s[t], pre_f[f]]
            0 <= t < n && pre_s[t] && 0 <= f < pre_f.len()
            ==> pre_d[t].unwrap() <= pre_f[f].2,
        forall|t: int| 0 <= t < n && (#[trigger] pre_s[t])
            ==> (pre_d[t].unwrap() as int) <= ranks0[t] * wmax(edges),
        forall|f: int| 0 <= f < pre_f.len()
            ==> ((#[trigger] pre_f[f]).2 as int) <= (n - steps0) * wmax(edges),
    ensures
        forall|t: int| 0 <= t < n && (#[trigger] s2[t])
            ==> 0 <= ranks[t] < n - steps0 + 1,
        forall|t: int| 0 <= t < n && (#[trigger] s2[t])
            ==> (d2[t].unwrap() as int) <= ranks[t] * wmax(edges),
        forall|t: int| 0 <= t < n && t != source as int && (#[trigger] s2[t])
            ==> (p2[t].unwrap() as int) < n
                && s2[p2[t].unwrap() as int]
                && ranks[p2[t].unwrap() as int] < ranks[t]
                && (exists|q: int| 0 <= q < edges.len()
                    && (#[trigger] edges[q]).0 == p2[t].unwrap()
                    && (edges[q].1 as int) == t
                    && d2[p2[t].unwrap() as int].unwrap() + edges[q].2
                        == d2[t].unwrap()),
{
    lemma_wmax_bound(edges);
    lemma_settle_core(edges, n, source, pre_f, post_f, min_i, pre_s, s2, pre_d, d2,
        pre_p, p2, ranks0, ranks, v, prev, dv, steps0);
    let iter = n - steps0;
    assert forall|t: int| 0 <= t < n && (#[trigger] s2[t])
        implies 0 <= ranks[t] < n - steps0 + 1
            && (d2[t].unwrap() as int) <= ranks[t] * wmax(edges) by {
        if t != v as int {
            assert(pre_s[t]);
            assert(ranks[t] == ranks0[t]);
            assert(d2[t] == pre_d[t]);
        }
    }
    assert forall|t: int| 0 <= t < n && t != source as int && (#[trigger] s2[t])
        implies (p2[t].unwrap() as int) < n
            && s2[p2[t].unwrap() as int]
            && ranks[p2[t].unwrap() as int] < ranks[t]
            && (exists|q: int| 0 <= q < edges.len()
                && (#[trigger] edges[q]).0 == p2[t].unwrap()
                && (edges[q].1 as int) == t
                && d2[p2[t].unwrap() as int].unwrap() + edges[q].2
                    == d2[t].unwrap()) by {
        if t == v as int {
            let e = pre_f[min_i];
            assert(pre_s[source as int]);
            assert((e.1 as int) < n && pre_s[e.1 as int]);
            assert((prev as int) != v as int);
            assert(s2[prev as int]);
            assert(ranks[prev as int] == ranks0[prev as int]);
            assert(ranks0[prev as int] < iter);
            let q = choose|q: int| 0 <= q < edges.len()
                && (#[trigger] edges[q]).0 == e.1
                && edges[q].1 == e.0
                && pre_d[e.1 as int].unwrap() + edges[q].2 == e.2;
            assert(d2[prev as int] == pre_d[prev as int]);
            assert(edges[q].0 == prev && (edges[q].1 as int) == t
                && d2[prev as int].unwrap() + edges[q].2 == d2[t].unwrap());
        } else {
            assert(pre_s[t]);
            let p = pre_p[t].unwrap() as int;
            assert(pre_s[p]);
            assert(p != v as int);
            assert(d2[t] == pre_d[t] && d2[p] == pre_d[p]);
            assert(ranks[t] == ranks0[t] && ranks[p] == ranks0[p]);
            assert(p2[t] == pre_p[t]);
            let q = choose|q: int| 0 <= q < edges.len()
                && (#[trigger] edges[q]).0 == pre_p[t].unwrap()
                && (edges[q].1 as int) == t
                && pre_d[pre_p[t].unwrap() as int].unwrap() + edges[q].2
                    == pre_d[t].unwrap();
            assert(edges[q].0 == p2[t].unwrap() && (edges[q].1 as int) == t
                && d2[p2[t].unwrap() as int].unwrap() + edges[q].2
                    == d2[t].unwrap());
        }
    }
}

/// Settling the popped minimum frontier entry: every edge out of every other
/// settled node stays relaxed against the remaining frontier.
#[verifier::rlimit(100)]
#[verifier::spinoff_prover]
proof fn lemma_settle_relaxed(
    edges: Seq<(NodeId, NodeId, u64)>,
    n: int,
    source: NodeId,
    pre_f: Seq<(NodeId, NodeId, u64)>,
    post_f: Seq<(NodeId, NodeId, u64)>,
    min_i: int,
    pre_s: Seq<bool>,
    s2: Seq<bool>,
    pre_d: Seq<Option<u64>>,
    d2: Seq<Option<u64>>,
    pre_p: Seq<Option<NodeId>>,
    p2: Seq<Option<NodeId>>,
    ranks0: Seq<int>,
    ranks: Seq<int>,
    v: NodeId,
    prev: NodeId,
    dv: u64,
    steps0: int,
)
    requires
        (source as int) < n,
        0 < steps0 <= n,
        0 <= min_i < pre_f.len(),
        pre_s.len() == n,
        pre_d.len() == n,
        pre_p.len() == n,
        ranks0.len() == n,
        forall|k: int| 0 <= k < edges.len()
            ==> ((#[trigger] edges[k]).0 as int) < n && (edges[k].1 as int) < n,
        pre_f[min_i] == (v, prev, dv),
        forall|k: int| 0 <= k < pre_f.len() ==> dv <= (#[trigger] pre_f[k]).2,
        post_f == pre_f.remove(min_i),
        s2 == pre_s.update(v as int, true),
        d2 == pre_d.update(v as int, Some(dv)),
        p2 == pre_p.update(v as int, Some(prev)),
        ranks == ranks0.update(v as int, n - steps0),
        count_unsettled(pre_s) == steps0,
        forall|t: int| 0 <= t < n
            ==> ((#[trigger] pre_s[t]) <==> pre_d[t] is Some)
                && (pre_s[t] <==> pre_p[t] is Some),
        forall|f: int| 0 <= f < pre_f.len()
            ==> ((#[trigger] pre_f[f]).0 as int) < n && !pre_s[pre_f[f].0 as int],
        forall|f1: int, f2: int| 0 <= f1 < f2 < pre_f.len()
            ==> (#[trigger] pre_f[f1]).0 != (#[trigger] pre_f[f2]).0,
        !pre_s[source as int] ==> pre_f.len() == 1 && pre_f[0] == (source, source, 0u64)
            && count_unsettled(pre_s) == n,
        pre_s[source as int] ==> pre_d[source as int] == Some(0u64)
            && ranks0[source as int] == 0,
        forall|t: int| 0 <= t < n && (#[trigger] pre_s[t])
            ==> 0 <= ranks0[t] < n - steps0,
        forall|t: int| 0 <= t < n && t != source as int && (#[trigger] pre_s[t])
            ==> (pre_p[t].unwrap() as int) < n
                && pre_s[pre_p[t].unwrap() as int]
                && ranks0[pre_p[t].unwrap() as int] < ranks0[t]
                && (exists|q: int| 0 <= q < edges.len()
                    && (#[trigger] edges[q]).0 == pre_p[t].unwrap()
                    && (edges[q].1 as int) == t
                    && pre_d[pre_p[t].unwrap() as int].unwrap() + edges[q].2
                        == pre_d[t].unwrap()),
        forall|f: int| 0 <= f < pre_f.len() ==> ({
            let e = #[trigger] pre_f[f];
            ||| (e.0 == source && e.2 == 0)
            ||| ((e.1 as int) < n && pre_s[e.1 as int]
                && (exists|q: int| 0 <= q < edges.len()
                    && (#[trigger] edges[q]).0 == e.1
                    && edges[q].1 == e.0
                    && pre_d[e.1 as int].unwrap() + edges[q].2 == e.2))
        }),
        forall|q: int| 0 <= q < edges.len()
            && pre_s[(#[trigger] edges[q]).0 as int] ==> ({
            let t = edges[q].1 as int;
            ||| (pre_s[t] && pre_d[t].unwrap()
                <= pre_d[edges[q].0 as int].unwrap() + edges[q].2)
            ||| (exists|f: int| 0 <= f < pre_f.len()
                && ((#[trigger] pre_f[f]).0 as int) == t
                && pre_f[f].2 <= pre_d[edges[q].0 as int].unwrap() + edges[q].2)
        }),
        forall|t: int, f: int|
            #![trigger pre_s[t], pre_f[f]]
            0 <= t < n && pre_s[t] && 0 <= f < pre_f.len()
            ==> pre_d[t].unwrap() <= pre_f[f].2,
        forall|t: int| 0 <= t < n && (#[trigger] pre_s[t])
            ==> (pre_d[t].unwrap() as int) <= ranks0[t] * wmax(edges),
        forall|f: int| 0 <= f < pre_f.len()
            ==> ((#[trigger] pre_f[f]).2 as int) <= (n - steps0) * wmax(edges),
    ensures
        forall|q: int| 0 <= q < edges.len()
            && s2[(#[trigger] edges[q]).0 as int] && edges[q].0 != v ==> ({
            let t = edges[q].1 as int;
            ||| (s2[t] && d2[t].unwrap()
                <= d2[edges[q].0 as int].unwrap() + edges[q].2)
            ||| (exists|f: int| 0 <= f < post_f.len()
                && ((#[trigger] post_f[f]).0 as int) == t
                && post_f[f].2 <= d2[edges[q].0 as int].unwrap() + edges[q].2)
        }),
{
    assert forall|q: int| 0 <= q < edges.len()
        && s2[(#[trigger] edges[q]).0 as int] && edges[q].0 != v implies ({
        let t = edges[q].1 as int;
        ||| (s2[t] && d2[t].unwrap() <= d2[edges[q].0 as int].unwrap() + edges[q].2)
        ||| (exists|f: int| 0 <= f < post_f.len()
            && ((#[trigger] post_f[f]).0 as int) == t
            && post_f[f].2 <= d2[edges[q].0 as int].unwrap() + edges[q].2)
    }) by {
        let u = edges[q].0 as int;
        let t = edges[q].1 as int;
        assert(pre_s[u]);
        assert(d2[u] == pre_d[u]);
        if pre_s[t] {
            assert(d2[t] == pre_d[t]);
        } else {
            let f = choose|f: int| 0 <= f < pre_f.len()
                && ((#[trigger] pre_f[f]).0 as int) == t
                && pre_f[f].2 <= pre_d[u].unwrap() + edges[q].2;
            if t == v as int {
                assert(pre_f[min_i].0 == v);
                assert(f == min_i);
                assert(pre_f[f].2 == dv);
            } else {
                let f2 = if f < min_i { f } else { f - 1 };
                assert(post_f[f2] == pre_f[f]);
            }
        }
    }
}

/// Relax every edge leaving the just-settled node `v`: each unsettled target
/// gets a frontier entry at most `v`'s distance plus the edge weight, under
/// strict less-than so an equal-weight rival keeps its earlier predecessor.
/// Restores every frontier property the search relies on.
#[verifier::rlimit(100)]
#[verifier::spinoff_prover]
fn relax_from(
    n: usize,
    edges: &Vec<(NodeId, NodeId, u64)>,
    source: NodeId,
    v: NodeId,
    dv: u64,
    frontier: &mut Vec<(NodeId, NodeId, u64)>,
    settled: &Vec<bool>,
    dist: &Vec<Option<u64>>,
    Ghost(iter): Ghost<int>,
    Ghost(steps): Ghost<int>,
) -> (r: Result<(), NetError>)
    requires
        v < n,
        source < n,
        0 <= steps < n,
        iter == n - steps - 1,
        dist@.len() == n,
        settled@.len() == n,
        forall|q: int| 0 <= q < edges@.len()
            ==> (#[trigger] edges@[q]).0 < n && edges@[q].1 < n,
        settled@[v as int],
        dist@[v as int] == Some(dv),
        (dv as int) <= iter * wmax(edges@),
        forall|t: int| 0 <= t < n ==> ((#[trigger] settled@[t]) <==> dist@[t] is Some),
        forall|f: int| 0 <= f < old(frontier)@.len()
            ==> (#[trigger] old(frontier)@[f]).0 < n
                && !settled@[old(frontier)@[f].0 as int],
        forall|f1: int, f2: int| 0 <= f1 < f2 < old(frontier)@.len()
            ==> (#[trigger] old(frontier)@[f1]).0 != (#[trigger] old(frontier)@[f2]).0,
        forall|f: int| 0 <= f < old(frontier)@.len() ==> ({
            let e = #[trigger] old(frontier)@[f];
            ||| (e.0 == source && e.2 == 0)
            ||| (e.1 < n && settled@[e.1 as int]
                && (exists|q: int| 0 <= q < edges@.len()
                    && (#[trigger] edges@[q]).0 == e.1
                    && edges@[q].1 == e.0
                    && dist@[e.1 as int].unwrap() + edges@[q].2 == e.2))
        }),
        forall|q: int| 0 <= q < edges@.len()
            && settled@[(#[trigger] edges@[q]).0 as int]
            && edges@[q].0 != v ==> ({
            let t = edges@[q].1 as int;
            ||| (settled@[t] && dist@[t].unwrap()
                <= dist@[edges@[q].0 as int].unwrap() + edges@[q].2)
            ||| (exists|f: int| 0 <= f < old(frontier)@.len()
                && ((#[trigger] old(frontier)@[f]).0 as int) == t
                && old(frontier)@[f].2
                    <= dist@[edges@[q].0 as int].unwrap() + edges@[q].2)
        }),
        forall|t: int| 0 <= t < n && (#[trigger] settled@[t])
            ==> dist@[t].unwrap() <= dv,
        forall|t: int, f: int|
            #![trigger settled@[t], old(frontier)@[f]]
            0 <= t < n && settled@[t] && 0 <= f < old(frontier)@.len()
            ==> dist@[t].unwrap() <= old(frontier)@[f].2,
        forall|f: int| 0 <= f < old(frontier)@.len()
            ==> ((#[trigger] old(frontier)@[f]).2 as int) <= (n - steps) * wmax(edges@),
    ensures
        r is Err ==> r == Err::<(), NetError>(NetError::WeightOverflow),
        weights_ok(edges@, n as int) ==> r is Ok,
        r is Ok ==> ({
            &&& (forall|f: int| 0 <= f < final(frontier)@.len()
                ==> (#[trigger] final(frontier)@[f]).0 < n
                    && !settled@[final(frontier)@[f].0 as int])
            &&& (forall|f1: int, f2: int| 0 <= f1 < f2 < final(frontier)@.len()
                ==> (#[trigger] final(frontier)@[f1]).0
                    != (#[trigger] final(frontier)@[f2]).0)
            &&& (forall|f: int| 0 <= f < final(frontier)@.len() ==> ({
                let e = #[trigger] final(frontier)@[f];
                ||| (e.0 == source && e.2 == 0)
                ||| (e.1 < n && settled@[e.1 as int]
                    && (exists|q: int| 0 <= q < edges@.len()
                        && (#[trigger] edges@[q]).0 == e.1
                        && edges@[q].1 == e.0
                        && dist@[e.1 as int].unwrap() + edges@[q].2 == e.2))
            }))
            &&& (forall|q: int| 0 <= q < edges@.len()
                && settled@[(#[trigger] edges@[q]).0 as int] ==> ({
                let t = edges@[q].1 as int;
                ||| (settled@[t] && dist@[t].unwrap()
                    <= dist@[edges@[q].0 as int].unwrap() + edges@[q].2)
                ||| (exists|f: int| 0 <= f < final(frontier)@.len()
                    && ((#[trigger] final(frontier)@[f]).0 as int) == t
                    && final(frontier)@[f].2
                        <= dist@[edges@[q].0 as int].unwrap() + edges@[q].2)
            }))
            &&& (forall|t: int, f: int|
                #![trigger settled@[t], final(frontier)@[f]]
                0 <= t < n && settled@[t] && 0 <= f < final(frontier)@.len()
                ==> dist@[t].unwrap() <= final(frontier)@[f].2)
            &&& (forall|f: int| 0 <= f < final(frontier)@.len()
                ==> ((#[trigger] final(frontier)@[f]).2 as int)
                    <= (n - steps) * wmax(edges@))
        }),
{
    proof {
        lemma_wmax_bound(edges@);
    }
    let mut k: usize = 0;
    while k < edges.len()
        invariant
            v < n,
            source < n,
            k <= edges@.len(),
            0 <= steps < n,
            iter == n - steps - 1,
            (dv as int) <= iter * wmax(edges@),
            dist@.len() == n,
            settled@.len() == n,
            forall|q: int| 0 <= q < edges@.len()
                ==> (#[trigger] edges@[q]).0 < n && edges@[q].1 < n,
            0 <= wmax(edges@),
            forall|q: int| 0 <= q < edges@.len()
                ==> ((#[trigger] edges@[q]).2 as int) <= wmax(edges@),
            settled@[v as int],
            dist@[v as int] == Some(dv),
            forall|t: int| 0 <= t < n ==> ((#[trigger] settled@[t]) <==> dist@[t] is Some),
            forall|f: int| 0 <= f < frontier@.len()
                ==> (#[trigger] frontier@[f]).0 < n
                    && !settled@[frontier@[f].0 as int],
            forall|f1: int, f2: int| 0 <= f1 < f2 < frontier@.len()
                ==> (#[trigger] frontier@[f1]).0 != (#[trigger] frontier@[f2]).0,
            forall|f: int| 0 <= f < frontier@.len() ==> ({
                let e = #[trigger] frontier@[f];
                ||| (e.0 == source && e.2 == 0)
                ||| (e.1 < n && settled@[e.1 as int]
                    && (exists|q: int| 0 <= q < edges@.len()
                        && (#[trigger] edges@[q]).0 == e.1
                        && edges@[q].1 == e.0
                        && dist@[e.1 as int].unwrap() + edges@[q].2 == e.2))
            }),
            forall|q: int| 0 <= q < edges@.len()
                && settled@[(#[trigger] edges@[q]).0 as int]
                && (edges@[q].0 != v || q < k) ==> ({
                let t = edges@[q].1 as int;
                ||| (settled@[t] && dist@[t].unwrap()
                    <= dist@[edges@[q].0 as int].unwrap() + edges@[q].2)
                ||| (exists|f: int| 0 <= f < frontier@.len()
                    && ((#[trigger] frontier@[f]).0 as int) == t
                    && frontier@[f].2
                        <= dist@[edges@[q].0 as int].unwrap() + edges@[q].2)
            }),
            forall|t: int| 0 <= t < n && (#[trigger] settled@[t])
                ==> dist@[t].unwrap() <= dv,
            forall|t: int, f: int|
                #![trigger settled@[t], frontier@[f]]
                0 <= t < n && settled@[t] && 0 <= f < frontier@.len()
                ==> dist@[t].unwrap() <= frontier@[f].2,
            forall|f: int| 0 <= f < frontier@.len()
                ==> ((#[trigger] frontier@[f]).2 as int) <= (n - steps) * wmax(edges@),
        decreases edges@.len() - k,
    {
        let (from, to, w) = edges[k];
        if from == v {
            let nd128: u128 = (dv as u128) + (w as u128);
            if nd128 > u64::MAX as u128 {
                proof {
                    if weights_ok(edges@, n as int) {
                        assert(iter * wmax(edges@) + wmax(edges@)
                            <= (iter + 1) * wmax(edges@)) by (nonlinear_arith);
                        assert((iter + 1) * wmax(edges@)
                            <= (n as int) * wmax(edges@)) by (nonlinear_arith)
                            requires iter + 1 <= n as int, 0 <= wmax(edges@);
                        assert(false);
                    }
                }
                return Err(NetError::WeightOverflow);
            }
            let nd: u64 = nd128 as u64;
            proof {
                assert((nd as int) <= (iter + 1) * wmax(edges@)) by (nonlinear_arith)
                    requires
                        (dv as int) <= iter * wmax(edges@),
                        (w as int) <= wmax(edges@),
                        nd as int == dv as int + w as int,
                        0 <= wmax(edges@);
            }
            if !settled[to] {
                let ghost pre_f = frontier@;
                match find_frontier(&frontier, to) {
                    Some(fi) => {
                        if nd < frontier[fi].2 {
                            frontier[fi] = (to, v, nd);
                            proof {
                                assert forall|f1: int, f2: int|
                                    0 <= f1 < f2 < frontier@.len()
                                    implies (#[trigger] frontier@[f1]).0
                                        != (#[trigger] frontier@[f2]).0 by {
                                    assert(frontier@[f1].0 == pre_f[f1].0);
                                    assert(frontier@[f2].0 == pre_f[f2].0);
                                }
                                assert(frontier@[fi as int] == (to, v, nd));
                            }
                        } else {
                            proof {
                                assert(frontier@[fi as int].2 <= nd);
                            }
                        }
                    }
                    None => {
                        frontier.push((to, v, nd));
                        proof {
                            assert(frontier@[frontier@.len() - 1] == (to, v, nd));
                            assert(forall|f: int| 0 <= f < pre_f.len()
                                ==> frontier@[f] == pre_f[f]);
                        }
                    }
                }
                proof {
                    assert forall|q2: int| 0 <= q2 < edges@.len()
                        && settled@[(#[trigger] edges@[q2]).0 as int]
                        && (edges@[q2].0 != v || q2 < k + 1) implies ({
                        let t2 = edges@[q2].1 as int;
                        ||| (settled@[t2] && dist@[t2].unwrap()
                            <= dist@[edges@[q2].0 as int].unwrap() + edges@[q2].2)
                        ||| (exists|f: int| 0 <= f < frontier@.len()
                            && ((#[trigger] frontier@[f]).0 as int) == t2
                            && frontier@[f].2
                                <= dist@[edges@[q2].0 as int].unwrap() + edges@[q2].2)
                    }) by {
                        let u2 = edges@[q2].0 as int;
                        let t2 = edges@[q2].1 as int;
                        if q2 == k as int && edges@[q2].0 == v {
                            if !settled@[t2] {
                                let f = choose|f: int| 0 <= f < frontier@.len()
                                    && ((#[trigger] frontier@[f]).0 as int) == t2;
                                assert(frontier@[f].2 <= nd);
                            }
                        } else {
                            if !settled@[t2] && !(settled@[t2] && dist@[t2].unwrap()
                                <= dist@[u2].unwrap() + edges@[q2].2) {
                                if exists|f: int| 0 <= f < pre_f.len()
                                    && ((#[trigger] pre_f[f]).0 as int) == t2
                                    && pre_f[f].2
                                        <= dist@[u2].unwrap() + edges@[q2].2 {
                                    let f = choose|f: int| 0 <= f < pre_f.len()
                                        && ((#[trigger] pre_f[f]).0 as int) == t2
                                        && pre_f[f].2
                                            <= dist@[u2].unwrap() + edges@[q2].2;
                                    assert(frontier@[f].0 == pre_f[f].0);
                                    assert(frontier@[f].2 <= pre_f[f].2);
                                }
                            }
                        }
                    }
                }
            } else {
                proof {
                    assert(dist@[to as int].unwrap() <= dv);
                }
            }
        }
        k += 1;
    }
    Ok(())
}

/// The index of a node's entry on the frontier, if it has one.
fn find_frontier(frontier: &Vec<(NodeId, NodeId, u64)>, node: NodeId) -> (r: Option<usize>)
    ensures
        r matches Some(i) ==> i < frontier@.len() && frontier@[i as int].0 == node,
        r is None ==> forall|k: int| 0 <= k < frontier@.len()
            ==> (#[trigger] frontier@[k]).0 != node,
{
    let m = frontier.len();
    let mut i: usize = 0;
    while i < m
        invariant
            i <= m,
            m == frontier@.len(),
            forall|k: int| 0 <= k < i ==> (#[trigger] frontier@[k]).0 != node,
        decreases m - i,
    {
        if frontier[i].0 == node {
            return Some(i);
        }
        i += 1;
    }
    None
}

/// Pop the earliest minimum-distance frontier entry and settle it: record
/// its distance, predecessor and settle rank.  Re-establishes every search
/// invariant but the relaxedness of the settled node's own outgoing edges.
#[verifier::rlimit(100)]
#[verifier::spinoff_prover]
fn settle_min(
    n: usize,
    edges: &Vec<(NodeId, NodeId, u64)>,
    source: NodeId,
    frontier: &mut Vec<(NodeId, NodeId, u64)>,
    dist: &mut Vec<Option<u64>>,
    pred: &mut Vec<Option<NodeId>>,
    settled: &mut Vec<bool>,
    Ghost(ranks0): Ghost<Seq<int>>,
    Ghost(steps0): Ghost<int>,
) -> (out: (NodeId, u64, Ghost<Seq<int>>))
    requires
        source < n,
        0 < steps0 <= n,
        old(frontier)@.len() > 0,
        old(dist)@.len() == n,
        old(pred)@.len() == n,
        old(settled)@.len() == n,
        ranks0.len() == n,
        forall|k: int| 0 <= k < edges@.len()
            ==> (#[trigger] edges@[k]).0 < n && edges@[k].1 < n,
        count_unsettled(old(settled)@) == steps0,
        forall|t: int| 0 <= t < n
            ==> ((#[trigger] old(settled)@[t]) <==> old(dist)@[t] is Some)
                && (old(settled)@[t] <==> old(pred)@[t] is Some),
        forall|f: int| 0 <= f < old(frontier)@.len()
            ==> (#[trigger] old(frontier)@[f]).0 < n
                && !old(settled)@[old(frontier)@[f].0 as int],
        forall|f1: int, f2: int| 0 <= f1 < f2 < old(frontier)@.len()
            ==> (#[trigger] old(frontier)@[f1]).0 != (#[trigger] old(frontier)@[f2]).0,
        !old(settled)@[source as int] ==> old(frontier)@.len() == 1
            && old(frontier)@[0] == (source, source, 0u64)
            && count_unsettled(old(settled)@) == n,
        old(settled)@[source as int] ==> old(dist)@[source as int] == Some(0u64)
            && ranks0[source as int] == 0,
        forall|t: int| 0 <= t < n && (#[trigger] old(settled)@[t])
            ==> 0 <= ranks0[t] < n - steps0,
        forall|t: int| 0 <= t < n && t != source as int && (#[trigger] old(settled)@[t])
            ==> (old(pred)@[t].unwrap() as int) < n
                && old(settled)@[old(pred)@[t].unwrap() as int]
                && ranks0[old(pred)@[t].unwrap() as int] < ranks0[t]
                && (exists|q: int| 0 <= q < edges@.len()
                    && (#[trigger] edges@[q]).0 == old(pred)@[t].unwrap()
                    && (edges@[q].1 as int) == t
                    && old(dist)@[old(pred)@[t].unwrap() as int].unwrap() + edges@[q].2
                        == old(dist)@[t].unwrap()),
        forall|f: int| 0 <= f < old(frontier)@.len() ==> ({
            let e = #[trigger] old(frontier)@[f];
            ||| (e.0 == source && e.2 == 0)
            ||| ((e.1 as int) < n && old(settled)@[e.1 as int]
                && (exists|q: int| 0 <= q < edges@.len()
                    && (#[trigger] edges@[q]).0 == e.1
                    && edges@[q].1 == e.0
                    && old(dist)@[e.1 as int].unwrap() + edges@[q].2 == e.2))
        }),
        forall|q: int| 0 <= q < edges@.len()
            && old(settled)@[(#[trigger] edges@[q]).0 as int] ==> ({
            let t = edges@[q].1 as int;
            ||| (old(settled)@[t] && old(dist)@[t].unwrap()
                <= old(dist)@[edges@[q].0 as int].unwrap() + edges@[q].2)
            ||| (exists|f: int| 0 <= f < old(frontier)@.len()
                && ((#[trigger] old(frontier)@[f]).0 as int) == t
                && old(frontier)@[f].2
                    <= old(dist)@[edges@[q].0 as int].unwrap() + edges@[q].2)
        }),
        forall|t: int, f: int|
            #![trigger old(settled)@[t], old(frontier)@[f]]
            0 <= t < n && old(settled)@[t] && 0 <= f < old(frontier)@.len()
            ==> old(dist)@[t].unwrap() <= old(frontier)@[f].2,
        forall|t: int| 0 <= t < n && (#[trigger] old(settled)@[t])
            ==> (old(dist)@[t].unwrap() as int) <= ranks0[t] * wmax(edges@),
        forall|f: int| 0 <= f < old(frontier)@.len()
            ==> ((#[trigger] old(frontier)@[f]).2 as int)
                <= (n - steps0) * wmax(edges@),
    ensures
        ({
            let (v, dv, ranks_g) = out;
            let ranks = ranks_g@;
            &&& ranks.len() == n
            &&& final(dist)@.len() == n
            &&& final(pred)@.len() == n
            &&& final(settled)@.len() == n
            &&& (v as int) < n
            &&& final(settled)@[v as int]
            &&& final(dist)@[v as int] == Some(dv)
            &&& ranks[v as int] == n - steps0
            &&& (dv as int) <= (n - steps0) * wmax(edges@)
            &&& count_unsettled(final(settled)@) == steps0 - 1
            &&& (forall|t: int| 0 <= t < n
                ==> ((#[trigger] final(settled)@[t]) <==> final(dist)@[t] is Some)
                    && (final(settled)@[t] <==> final(pred)@[t] is Some))
            &&& final(settled)@[source as int]
            &&& final(dist)@[source as int] == Some(0u64)
            &&& ranks[source as int] == 0
            &&& (forall|f: int| 0 <= f < final(frontier)@.len()
                ==> (#[trigger] final(frontier)@[f]).0 < n
                    && !final(settled)@[final(frontier)@[f].0 as int])
            &&& (forall|f1: int, f2: int| 0 <= f1 < f2 < final(frontier)@.len()
                ==> (#[trigger] final(frontier)@[f1]).0
                    != (#[trigger] final(frontier)@[f2]).0)
            &&& (forall|f: int| 0 <= f < final(frontier)@.len() ==> ({
                let e = #[trigger] final(frontier)@[f];
                ||| (e.0 == source && e.2 == 0)
                ||| ((e.1 as int) < n && final(settled)@[e.1 as int]
                    && (exists|q: int| 0 <= q < edges@.len()
                        && (#[trigger] edges@[q]).0 == e.1
                        && edges@[q].1 == e.0
                        && final(dist)@[e.1 as int].unwrap() + edges@[q].2 == e.2))
            }))
            &&& (forall|f: int| 0 <= f < final(frontier)@.len()
                ==> ((#[trigger] final(frontier)@[f]).2 as int)
                    <= (n - steps0 + 1) * wmax(edges@))
            &&& (forall|t: int| 0 <= t < n && (#[trigger] final(settled)@[t])
                ==> final(dist)@[t].unwrap() <= dv)
            &&& (forall|t: int, f: int|
                #![trigger final(settled)@[t], final(frontier)@[f]]
                0 <= t < n && final(settled)@[t] && 0 <= f < final(frontier)@.len()
                ==> final(dist)@[t].unwrap() <= final(frontier)@[f].2)
            &&& (forall|t: int| 0 <= t < n && (#[trigger] final(settled)@[t])
                ==> 0 <= ranks[t] < n - steps0 + 1)
            &&& (forall|t: int| 0 <= t < n && (#[trigger] final(settled)@[t])
                ==> (final(dist)@[t].unwrap() as int) <= ranks[t] * wmax(edges@))
            &&& (forall|t: int| 0 <= t < n && t != source as int
                && (#[trigger] final(settled)@[t])
                ==> (final(pred)@[t].unwrap() as int) < n
                    && final(settled)@[final(pred)@[t].unwrap() as int]
                    && ranks[final(pred)@[t].unwrap() as int] < ranks[t]
                    && (exists|q: int| 0 <= q < edges@.len()
                        && (#[trigger] edges@[q]).0 == final(pred)@[t].unwrap()
                        && (edges@[q].1 as int) == t
                        && final(dist)@[final(pred)@[t].unwrap() as int].unwrap()
                            + edges@[q].2 == final(dist)@[t].unwrap()))
            &&& (forall|q: int| 0 <= q < edges@.len()
                && final(settled)@[(#[trigger] edges@[q]).0 as int]
                && edges@[q].0 != v ==> ({
                let t = edges@[q].1 as int;
                ||| (final(settled)@[t] && final(dist)@[t].unwrap()
                    <= final(dist)@[edges@[q].0 as int].unwrap() + edges@[q].2)
                ||| (exists|f: int| 0 <= f < final(frontier)@.len()
                    && ((#[trigger] final(frontier)@[f]).0 as int) == t
                    && final(frontier)@[f].2
                        <= final(dist)@[edges@[q].0 as int].unwrap() + edges@[q].2)
            }))
        }),
{
    let mut min_i: usize = 0;
    let mut j: usize = 1;
    while j < frontier.len()
        invariant
            frontier@ == old(frontier)@,
            frontier@.len() > 0,
            min_i < frontier@.len(),
            j <= frontier@.len(),
            forall|k: int| 0 <= k < j
                ==> frontier@[min_i as int].2 <= (#[trigger] frontier@[k]).2,
        decreases frontier@.len() - j,
    {
        if frontier[j].2 < frontier[min_i].2 {
            min_i = j;
        }
        j += 1;
    }
    let ghost pre_f = frontier@;
    let (v, prev, dv) = frontier.remove(min_i);
    proof {
        assert(!settled@[v as int]);
    }
    settled[v] = true;
    dist[v] = Some(dv);
    pred[v] = Some(prev);
    let ghost mut ranks: Seq<int> = Seq::empty();
    proof {
        ranks = ranks0.update(v as int, n - steps0);
        lemma_settle_all(edges@, n as int, source, pre_f, frontier@, min_i as int,
            old(settled)@, settled@, old(dist)@, dist@, old(pred)@, pred@,
            ranks0, ranks, v, prev, dv, steps0);
    }
    (v, dv, Ghost(ranks))
}

/// One full step of the search: settle the minimum frontier entry and relax
/// its outgoing edges, re-establishing every search invariant with one more
/// node settled.
#[verifier::rlimit(100)]
#[verifier::spinoff_prover]
fn search_step(
    n: usize,
    edges: &Vec<(NodeId, NodeId, u64)>,
    source: NodeId,
    frontier: &mut Vec<(NodeId, NodeId, u64)>,
    dist: &mut Vec<Option<u64>>,
    pred: &mut Vec<Option<NodeId>>,
    settled: &mut Vec<bool>,
    Ghost(ranks0): Ghost<Seq<int>>,
    Ghost(steps0): Ghost<int>,
) -> (r: Result<Ghost<Seq<int>>, NetError>)
    requires
        source < n,
        0 < steps0 <= n,
        old(frontier)@.len() > 0,
        old(dist)@.len() == n,
        old(pred)@.len() == n,
        old(settled)@.len() == n,
        ranks0.len() == n,
        forall|k: int| 0 <= k < edges@.len()
            ==> (#[trigger] edges@[k]).0 < n && edges@[k].1 < n,
        count_unsettled(old(settled)@) == steps0,
        forall|t: int| 0 <= t < n
            ==> ((#[trigger] old(settled)@[t]) <==> old(dist)@[t] is Some)
                && (old(settled)@[t] <==> old(pred)@[t] is Some),
        forall|f: int| 0 <= f < old(frontier)@.len()
            ==> (#[trigger] old(frontier)@[f]).0 < n
                && !old(settled)@[old(frontier)@[f].0 as int],
        forall|f1: int, f2: int| 0 <= f1 < f2 < old(frontier)@.len()
            ==> (#[trigger] old(frontier)@[f1]).0 != (#[trigger] old(frontier)@[f2]).0,
        !old(settled)@[source as int] ==> old(frontier)@.len() == 1
            && old(frontier)@[0] == (source, source, 0u64)
            && count_unsettled(old(settled)@) == n,
        old(settled)@[source as int] ==> old(dist)@[source as int] == Some(0u64)
            && ranks0[source as int] == 0,
        forall|t: int| 0 <= t < n && (#[trigger] old(settled)@[t])
            ==> 0 <= ranks0[t] < n - steps0,
        forall|t: int| 0 <= t < n && t != source as int && (#[trigger] old(settled)@[t])
            ==> (old(pred)@[t].unwrap() as int) < n
                && old(settled)@[old(pred)@[t].unwrap() as int]
                && ranks0[old(pred)@[t].unwrap() as int] < ranks0[t]
                && (exists|q: int| 0 <= q < edges@.len()
                    && (#[trigger] edges@[q]).0 == old(pred)@[t].unwrap()
                    && (edges@[q].1 as int) == t
                    && old(dist)@[old(pred)@[t].unwrap() as int].unwrap() + edges@[q].2
                        == old(dist)@[t].unwrap()),
        forall|f: int| 0 <= f < old(frontier)@.len() ==> ({
            let e = #[trigger] old(frontier)@[f];
            ||| (e.0 == source && e.2 == 0)
            ||| ((e.1 as int) < n && old(settled)@[e.1 as int]
                && (exists|q: int| 0 <= q < edges@.len()
                    && (#[trigger] edges@[q]).0 == e.1
                    && edges@[q].1 == e.0
                    && old(dist)@[e.1 as int].unwrap() + edges@[q].2 == e.2))
        }),
        forall|q: int| 0 <= q < edges@.len()
            && old(settled)@[(#[trigger] edges@[q]).0 as int] ==> ({
            let t = edges@[q].1 as int;
            ||| (old(settled)@[t] && old(dist)@[t].unwrap()
                <= old(dist)@[edges@[q].0 as int].unwrap() + edges@[q].2)
            ||| (exists|f: int| 0 <= f < old(frontier)@.len()
                && ((#[trigger] old(frontier)@[f]).0 as int) == t
                && old(frontier)@[f].2
                    <= old(dist)@[edges@[q].0 as int].unwrap() + edges@[q].2)
        }),
        forall|t: int, f: int|
            #![trigger old(settled)@[t], old(frontier)@[f]]
            0 <= t < n && old(settled)@[t] && 0 <= f < old(frontier)@.len()
            ==> old(dist)@[t].unwrap() <= old(frontier)@[f].2,
        forall|t: int| 0 <= t < n && (#[trigger] old(settled)@[t])
            ==> (old(dist)@[t].unwrap() as int) <= ranks0[t] * wmax(edges@),
        forall|f: int| 0 <= f < old(frontier)@.len()
            ==> ((#[trigger] old(frontier)@[f]).2 as int)
                <= (n - steps0) * wmax(edges@),
    ensures
        r is Err ==> r == Err::<Ghost<Seq<int>>, NetError>(NetError::WeightOverflow),
        weights_ok(edges@, n as int) ==> r is Ok,
        r matches Ok(ranks_g) ==> ({
            let ranks = ranks_g@;
            let steps = steps0 - 1;
            &&& ranks.len() == n
            &&& final(dist)@.len() == n
            &&& final(pred)@.len() == n
            &&& final(settled)@.len() == n
            &&& count_unsettled(final(settled)@) == steps
            &&& (forall|t: int| 0 <= t < n
                ==> ((#[trigger] final(settled)@[t]) <==> final(dist)@[t] is Some)
                    && (final(settled)@[t] <==> final(pred)@[t] is Some))
            &&& (forall|f: int| 0 <= f < final(frontier)@.len()
                ==> (#[trigger] final(frontier)@[f]).0 < n
                    && !final(settled)@[final(frontier)@[f].0 as int])
            &&& (forall|f1: int, f2: int| 0 <= f1 < f2 < final(frontier)@.len()
                ==> (#[trigger] final(frontier)@[f1]).0
                    != (#[trigger] final(frontier)@[f2]).0)
            &&& final(settled)@[source as int]
            &&& final(dist)@[source as int] == Some(0u64)
            &&& ranks[source as int] == 0
            &&& (forall|t: int| 0 <= t < n && (#[trigger] final(settled)@[t])
                ==> 0 <= ranks[t] < n - steps)
            &&& (forall|t: int| 0 <= t < n && t != source as int
                && (#[trigger] final(settled)@[t])
                ==> (final(pred)@[t].unwrap() as int) < n
                    && final(settled)@[final(pred)@[t].unwrap() as int]
                    && ranks[final(pred)@[t].unwrap() as int] < ranks[t]
                    && (exists|q: int| 0 <= q < edges@.len()
                        && (#[trigger] edges@[q]).0 == final(pred)@[t].unwrap()
                        && (edges@[q].1 as int) == t
                        && final(dist)@[final(pred)@[t].unwrap() as int].unwrap()
                            + edges@[q].2 == final(dist)@[t].unwrap()))
            &&& (forall|f: int| 0 <= f < final(frontier)@.len() ==> ({
                let e = #[trigger] final(frontier)@[f];
                ||| (e.0 == source && e.2 == 0)
                ||| ((e.1 as int) < n && final(settled)@[e.1 as int]
                    && (exists|q: int| 0 <= q < edges@.len()
                        && (#[trigger] edges@[q]).0 == e.1
                        && edges@[q].1 == e.0
                        && final(dist)@[e.1 as int].unwrap() + edges@[q].2 == e.2))
            }))
            &&& (forall|q: int| 0 <= q < edges@.len()
                && final(settled)@[(#[trigger] edges@[q]).0 as int] ==> ({
                let t = edges@[q].1 as int;
                ||| (final(settled)@[t] && final(dist)@[t].unwrap()
                    <= final(dist)@[edges@[q].0 as int].unwrap() + edges@[q].2)
                ||| (exists|f: int| 0 <= f < final(frontier)@.len()
                    && ((#[trigger] final(frontier)@[f]).0 as int) == t
                    && final(frontier)@[f].2
                        <= final(dist)@[edges@[q].0 as int].unwrap() + edges@[q].2)
            }))
            &&& (forall|t: int, f: int|
                #![trigger final(settled)@[t], final(frontier)@[f]]
                0 <= t < n && final(settled)@[t] && 0 <= f < final(frontier)@.len()
                ==> final(dist)@[t].unwrap() <= final(frontier)@[f].2)
            &&& (forall|t: int| 0 <= t < n && (#[trigger] final(settled)@[t])
                ==> (final(dist)@[t].unwrap() as int) <= ranks[t] * wmax(edges@))
            &&& (forall|f: int| 0 <= f < final(frontier)@.len()
                ==> ((#[trigger] final(frontier)@[f]).2 as int)
                    <= (n - steps) * wmax(edges@))
        }),
{
    let sm = settle_min(n, edges, source, frontier, dist, pred, settled,
        Ghost(ranks0), Ghost(steps0));
    let (v, dv, nr) = sm;
    let r1 = relax_from(n, edges, source, v, dv, frontier, settled, dist,
        Ghost(n as int - steps0), Ghost(steps0 - 1));
    match r1 {
        Err(e) => {
            proof {
                if weights_ok(edges@, n as int) {
                    assert(false);
                }
            }
            Err(e)
        }
        Ok(()) => Ok(nr),
    }
}

/// One run of the frontier search: tentative distances, predecessors, and a
/// ghost settle order for every node reachable from `source`.  Each step
/// settles the frontier entry with the smallest distance (earliest entry on
/// ties) and relaxes its outgoing edges under strict less-than, so an
/// equal-weight rival keeps the earlier predecessor.  The returned tables
/// carry, for every reached node, a real predecessor edge that exactly
/// accounts for its distance under a strictly earlier settle rank, and
/// relaxedness of every outgoing edge — and the search is complete: with
/// in-range weights it succeeds, having settled every reachable node.
#[verifier::rlimit(100)]
#[verifier::spinoff_prover]
fn dijkstra(n: usize, edges: &Vec<(NodeId, NodeId, u64)>, source: NodeId) -> (r: Result<
    (Vec<Option<u64>>, Vec<Option<NodeId>>, Ghost<Seq<int>>),
    NetError,
>)
    requires
        source < n,
        forall|k: int| 0 <= k < edges@.len()
            ==> (#[trigger] edges@[k]).0 < n && edges@[k].1 < n,
    ensures
        r matches Ok(dp) ==> dp.0@.len() == n && dp.1@.len() == n && dp.2@.len() == n,
        r matches Ok(dp) ==> dp.0@[source as int] == Some(0u64) && dp.2@[source as int] == 0,
        r matches Ok(dp) ==> (forall|v: int| 0 <= v < n
            ==> ((#[trigger] dp.0@[v]) is Some <==> dp.1@[v] is Some)),
        r matches Ok(dp) ==> (forall|k: int| 0 <= k < edges@.len()
            ==> (dp.0@[(#[trigger] edges@[k]).0 as int] is Some
                ==> dp.0@[edges@[k].1 as int] is Some
                    && dp.0@[edges@[k].1 as int].unwrap()
                        <= dp.0@[edges@[k].0 as int].unwrap() + edges@[k].2)),
        r matches Ok(dp) ==> (forall|v: int| 0 <= v < n && (#[trigger] dp.0@[v]) is Some
            ==> 0 <= dp.2@[v] < n),
        r matches Ok(dp) ==> (forall|v: int| 0 <= v < n && v != source as int
            && (#[trigger] dp.0@[v]) is Some
            ==> dp.1@[v].unwrap() < n
                && dp.0@[dp.1@[v].unwrap() as int] is Some
                && dp.2@[dp.1@[v].unwrap() as int] < dp.2@[v]
                && (exists|k: int| 0 <= k < edges@.len()
                    && (#[trigger] edges@[k]).0 == dp.1@[v].unwrap()
                    && (edges@[k].1 as int) == v
                    && dp.0@[dp.1@[v].unwrap() as int].unwrap() + edges@[k].2
                        == dp.0@[v].unwrap())),
        r is Err ==> r == Err::<(Vec<Option<u64>>, Vec<Option<NodeId>>, Ghost<Seq<int>>), NetError>(
            NetError::WeightOverflow,
        ),
        weights_ok(edges@, n as int) ==> r is Ok,
{
    let mut dist: Vec<Option<u64>> = Vec::new();
    let mut pred: Vec<Option<NodeId>> = Vec::new();
    let mut settled: Vec<bool> = Vec::new();
    let ghost mut ranks: Seq<int> = Seq::empty();
    let mut fill: usize = 0;
    while fill < n
        invariant
            fill <= n,
            dist@.len() == fill,
            pred@.len() == fill,
            settled@.len() == fill,
            ranks.len() == fill,
            count_unsettled(settled@) == fill,
            forall|v: int| 0 <= v < fill ==> !(#[trigger] settled@[v]),
            forall|v: int| 0 <= v < fill ==> (#[trigger] dist@[v]) is None,
            forall|v: int| 0 <= v < fill ==> (#[trigger] pred@[v]) is None,
        decreases n - fill,
    {
        proof {
            assert(settled@.push(false).drop_last() =~= settled@);
        }
        dist.push(None);
        pred.push(None);
        settled.push(false);
        proof {
            ranks = ranks.push(0);
        }
        fill += 1;
    }
    // frontier entries: (node, predecessor, tentative distance)
    let mut frontier: Vec<(NodeId, NodeId, u64)> = Vec::new();
    frontier.push((source, source, 0));
    let mut steps: usize = n;
    proof {
        lemma_wmax_bound(edges@);
    }
    while frontier.len() > 0 && steps > 0
        invariant
            source < n,
            steps <= n,
            dist@.len() == n,
            pred@.len() == n,
            settled@.len() == n,
            ranks.len() == n,
            forall|k: int| 0 <= k < edges@.len()
                ==> (#[trigger] edges@[k]).0 < n && edges@[k].1 < n,
            0 <= wmax(edges@),
            count_unsettled(settled@) == steps,
            forall|v: int| 0 <= v < n
                ==> ((#[trigger] settled@[v]) <==> dist@[v] is Some)
                    && (settled@[v] <==> pred@[v] is Some),
            forall|f: int| 0 <= f < frontier@.len()
                ==> (#[trigger] frontier@[f]).0 < n && !settled@[frontier@[f].0 as int],
            forall|f1: int, f2: int| 0 <= f1 < f2 < frontier@.len()
                ==> (#[trigger] frontier@[f1]).0 != (#[trigger] frontier@[f2]).0,
            !settled@[source as int] ==> frontier@.len() == 1
                && frontier@[0] == (source, source, 0u64)
                && count_unsettled(settled@) == n,
            settled@[source as int] ==> dist@[source as int] == Some(0u64)
                && ranks[source as int] == 0,
            forall|v: int| 0 <= v < n && (#[trigger] settled@[v])
                ==> 0 <= ranks[v] < n - steps,
            forall|v: int| 0 <= v < n && v != source as int && (#[trigger] settled@[v])
                ==> (pred@[v].unwrap() as int) < n
                    && settled@[pred@[v].unwrap() as int]
                    && ranks[pred@[v].unwrap() as int] < ranks[v]
                    && (exists|k: int| 0 <= k < edges@.len()
                        && (#[trigger] edges@[k]).0 == pred@[v].unwrap()
                        && (edges@[k].1 as int) == v
                        && dist@[pred@[v].unwrap() as int].unwrap() + edges@[k].2
                            == dist@[v].unwrap()),
            forall|f: int| 0 <= f < frontier@.len() ==> ({
                let e = #[trigger] frontier@[f];
                ||| (e.0 == source && e.2 == 0)
                ||| ((e.1 as int) < n && settled@[e.1 as int]
                    && (exists|k: int| 0 <= k < edges@.len()
                        && (#[trigger] edges@[k]).0 == e.1
                        && edges@[k].1 == e.0
                        && dist@[e.1 as int].unwrap() + edges@[k].2 == e.2))
            }),
            forall|k: int| 0 <= k < edges@.len()
                && settled@[(#[trigger] edges@[k]).0 as int] ==> ({
                let t = edges@[k].1 as int;
                ||| (settled@[t] && dist@[t].unwrap()
                    <= dist@[edges@[k].0 as int].unwrap() + edges@[k].2)
                ||| (exists|f: int| 0 <= f < frontier@.len()
                    && ((#[trigger] frontier@[f]).0 as int) == t
                    && frontier@[f].2 <= dist@[edges@[k].0 as int].unwrap() + edges@[k].2)
            }),
            forall|t: int, f: int|
                #![trigger settled@[t], frontier@[f]]
                0 <= t < n && settled@[t] && 0 <= f < frontier@.len()
                ==> dist@[t].unwrap() <= frontier@[f].2,
            forall|v: int| 0 <= v < n && (#[trigger] settled@[v])
                ==> (dist@[v].unwrap() as int) <= ranks[v] * wmax(edges@),
            forall|f: int| 0 <= f < frontier@.len()
                ==> ((#[trigger] frontier@[f]).2 as int) <= (n - steps) * wmax(edges@),
        decreases steps,
    {
        let ghost steps0 = steps as int;
        steps -= 1;
        let r1 = search_step(n, edges, source, &mut frontier, &mut dist, &mut pred,
            &mut settled, Ghost(ranks), Ghost(steps0));
        match r1 {
            Err(e) => {
                proof {
                    if weights_ok(edges@, n as int) {
                        assert(false);
                    }
                }
                return Err(e);
            }
            Ok(nr) => {
                proof {
                    ranks = nr@;
                }
            }
        }
    }
    proof {
        if frontier@.len() > 0 {
            lemma_count_zero(settled@);
            assert(!settled@[frontier@[0].0 as int]);
            assert(false);
        }
        assert(settled@[source as int]);
        assert forall|k: int| 0 <= k < edges@.len()
            && (#[trigger] dist@[edges@[k].0 as int]) is Some
            implies dist@[edges@[k].1 as int] is Some
                && dist@[edges@[k].1 as int].unwrap()
                    <= dist@[edges@[k].0 as int].unwrap() + edges@[k].2 by {
            assert(settled@[edges@[k].0 as int]);
        }
        assert forall|v2: int| 0 <= v2 < n && (#[trigger] dist@[v2]) is Some
            implies 0 <= ranks[v2] < n by {
            assert(settled@[v2]);
        }
        assert forall|v2: int| 0 <= v2 < n && v2 != source as int
            && (#[trigger] dist@[v2]) is Some
            implies pred@[v2].unwrap() < n
                && dist@[pred@[v2].unwrap() as int] is Some
                && ranks[pred@[v2].unwrap() as int] < ranks[v2]
                && (exists|k: int| 0 <= k < edges@.len()
                    && (#[trigger] edges@[k]).0 == pred@[v2].unwrap()
                    && (edges@[k].1 as int) == v2
                    && dist@[pred@[v2].unwrap() as int].unwrap() + edges@[k].2
                        == dist@[v2].unwrap()) by {
            assert(settled@[v2]);
            assert(settled@[pred@[v2].unwrap() as int]);
        }
    }
    Ok((dist, pred, Ghost(ranks)))
}

/// Strip the options off a distance table, failing with `Unreachable` when
/// any node was never reached.
fn finish_dist(dist: Vec<Option<u64>>) -> (r: Result<Vec<u64>, NetError>)
    ensures
        r matches Ok(v) ==> v@.len() == dist@.len()
            && (forall|i: int| 0 <= i < dist@.len() ==> dist@[i] == Some(v@[i])),
        r is Err ==> r == Err::<Vec<u64>, NetError>(NetError::Unreachable)
            && (exists|i: int| 0 <= i < dist@.len() && (#[trigger] dist@[i]) is None),
{
    let mut out: Vec<u64> = Vec::new();
    let mut i: usize = 0;
    let n = dist.len();
    while i < n
        invariant
            i <= n,
            n == dist@.len(),
            out@.len() == i,
            forall|j: int| 0 <= j < i ==> dist@[j] == Some(out@[j]),
        decreases n - i,
    {
        match dist[i] {
            None => {
                return Err(NetError::Unreachable);
            }
            Some(x) => {
                out.push(x);
            }
        }
        i += 1;
    }
    Ok(out)
}

/// Audit a distance table against the edge list: true exactly when it is a
/// valid certificate for `source`.
fn check_cert(n: usize, edges: &Vec<(NodeId, NodeId, u64)>, source: NodeId, dist: &Vec<u64>) -> (r: bool)
    ensures
        r == cert_ok(edges@, n as int, source as int, dist@),
{
    if dist.len() != n {
        return false;
    }
    if source >= n {
        return false;
    }
    if dist[source] != 0 {
        return false;
    }
    let m = edges.len();
    let mut k: usize = 0;
    while k < m
        invariant
            k <= m,
            m == edges@.len(),
            n == dist@.len(),
            source < n,
            dist@[source as int] == 0,
            forall|q: int| 0 <= q < k ==> ({
                let e = #[trigger] edges@[q];
                &&& (e.0 as int) < n as int
                &&& (e.1 as int) < n as int
                &&& dist@[e.1 as int] <= dist@[e.0 as int] + e.2
            }),
        decreases m - k,
    {
        let (u, v, w) = edges[k];
        if u >= n || v >= n {
            return false;
        }
        if (dist[v] as u128) > (dist[u] as u128) + (w as u128) {
            return false;
        }
        k += 1;
    }
    true
}

/// Find an edge from `p` to `cur` that exactly accounts for `cur`'s recorded
/// distance: the witness that the predecessor chain's step is real.
fn find_step_edge(edges: &Vec<(NodeId, NodeId, u64)>, p: NodeId, cur: NodeId, dist: &Vec<u64>) -> (r:
    Option<usize>)
    requires
        p < dist@.len(),
        cur < dist@.len(),
    ensures
        r matches Some(k) ==> k < edges@.len()
            && edges@[k as int].0 == p
            && edges@[k as int].1 == cur
            && dist@[p as int] + edges@[k as int].2 == dist@[cur as int],
        r is None ==> forall|k: int| 0 <= k < edges@.len()
            ==> !((#[trigger] edges@[k]).0 == p && edges@[k].1 == cur
                && dist@[p as int] + edges@[k].2 == dist@[cur as int]),
{
    let m = edges.len();
    let mut k: usize = 0;
    while k < m
        invariant
            k <= m,
            m == edges@.len(),
            p < dist@.len(),
            cur < dist@.len(),
            forall|q: int| 0 <= q < k
                ==> !((#[trigger] edges@[q]).0 == p && edges@[q].1 == cur
                    && dist@[p as int] + edges@[q].2 == dist@[cur as int]),
        decreases m - k,
    {
        let (u, v, w) = edges[k];
        if u == p && v == cur {
            if (dist[p] as u128) + (w as u128) == (dist[cur] as u128) {
                return Some(k);
            }
        }
        k += 1;
    }
    None
}

/// Walk the predecessor chain from `d` back to `source`, recovering a
/// concrete path whose weight equals `d`\u2019s recorded distance.  The settle
/// ranks make the chain provably acyclic, so the walk always succeeds and
/// the returned first hop starts a path of at most `n` hops.
fn extract_hop(
    n: usize,
    edges: &Vec<(NodeId, NodeId, u64)>,
    source: NodeId,
    d: NodeId,
    dist: &Vec<u64>,
    pred: &Vec<Option<NodeId>>,
    Ghost(ranks): Ghost<Seq<int>>,
) -> (h: NodeId)
    requires
        source < n,
        d < n,
        dist@.len() == n,
        pred@.len() == n,
        ranks.len() == n,
        dist@[source as int] == 0,
        forall|v: int| 0 <= v < n ==> 0 <= (#[trigger] ranks[v]) < n,
        ranks[source as int] == 0,
        forall|v: int| 0 <= v < n && v != source as int
            ==> (#[trigger] pred@[v]) is Some
                && (pred@[v].unwrap() as int) < n
                && ranks[pred@[v].unwrap() as int] < ranks[v]
                && (exists|k: int| 0 <= k < edges@.len()
                    && ((#[trigger] edges@[k]).0 as int) == pred@[v].unwrap() as int
                    && (edges@[k].1 as int) == v
                    && dist@[pred@[v].unwrap() as int] + edges@[k].2 == dist@[v]),
    ensures
        h < n,
        source == d ==> h == source,
        source != d ==> exists|ks: Seq<int>| {
            &&& #[trigger] epath_ok(edges@, source as int, d as int, ks)
            &&& 0 < ks.len() <= n
            &&& edges@[ks[0]].1 == h
            &&& epath_weight(edges@, ks) == dist@[d as int]
        },
{
    if source == d {
        return source;
    }
    let mut cur: NodeId = d;
    let mut hop: NodeId = d;
    let ghost mut ks: Seq<int> = Seq::empty();
    let mut fuel: usize = n;
    while cur != source
        invariant
            cur < n,
            hop < n,
            source < n,
            d < n,
            fuel <= n,
            dist@.len() == n,
            pred@.len() == n,
            ranks.len() == n,
            dist@[source as int] == 0,
            forall|v: int| 0 <= v < n ==> 0 <= (#[trigger] ranks[v]) < n,
            ranks[source as int] == 0,
            forall|v: int| 0 <= v < n && v != source as int
                ==> (#[trigger] pred@[v]) is Some
                    && (pred@[v].unwrap() as int) < n
                    && ranks[pred@[v].unwrap() as int] < ranks[v]
                    && (exists|k: int| 0 <= k < edges@.len()
                        && ((#[trigger] edges@[k]).0 as int) == pred@[v].unwrap() as int
                        && (edges@[k].1 as int) == v
                        && dist@[pred@[v].unwrap() as int] + edges@[k].2 == dist@[v]),
            ranks[cur as int] <= fuel,
            ks.len() + fuel == n,
            epath_ok(edges@, cur as int, d as int, ks),
            epath_weight(edges@, ks) == dist@[d as int] - dist@[cur as int],
            ks.len() > 0 ==> 0 <= ks[0] < edges@.len() && edges@[ks[0]].0 == cur
                && edges@[ks[0]].1 == hop,
            ks.len() == 0 ==> cur == d,
        decreases fuel,
    {
        proof {
            assert(pred@[cur as int] is Some);
            assert(ranks[pred@[cur as int].unwrap() as int] < ranks[cur as int]);
            assert(ranks[cur as int] >= 1);
        }
        let p = match pred[cur] {
            Some(p) => p,
            None => {
                proof {
                    assert(false);
                }
                cur
            }
        };
        let k = match find_step_edge(edges, p, cur, dist) {
            Some(k) => k,
            None => {
                proof {
                    assert(false);
                }
                0
            }
        };
        proof {
            let ks2 = seq![k as int] + ks;
            assert(ks2.drop_first() =~= ks);
            assert(ks2[0] == k as int);
            assert(epath_ok(edges@, p as int, d as int, ks2));
            assert(epath_weight(edges@, ks2)
                == edges@[k as int].2 + epath_weight(edges@, ks));
            ks = ks2;
        }
        hop = cur;
        cur = p;
        fuel -= 1;
    }
    proof {
        assert(ks.len() > 0);
    }
    hop
}

impl Network {
    /// Build the directed weighted edge list the routing graph is searched
    /// over: each connected cable contributes one edge each way, weighted by
    /// the truncated Euclidean distance between its endpoint owners' current
    /// positions.
    fn build_edges(&self) -> (v: Vec<(NodeId, NodeId, u64)>)
        requires
            self.wf(),
        ensures
            v@ == edges_model(self.ethers@, self.nodes@),
            forall|k: int| 0 <= k < v@.len()
                ==> (#[trigger] v@[k]).0 < self.nodes@.len()
                    && v@[k].1 < self.nodes@.len(),
    {
        let n = self.nodes.len();
        let ne = self.ethers.len();
        let mut edges: Vec<(NodeId, NodeId, u64)> = Vec::new();
        let mut e: usize = 0;
        proof {
            assert(self.ethers@.take(0) =~= Seq::<Cable>::empty());
        }
        while e < ne
            invariant
                e <= ne,
                ne == self.ethers@.len(),
                n == self.nodes@.len(),
                self.wf(),
                edges@ == edges_model(self.ethers@.take(e as int), self.nodes@),
                forall|k: int| 0 <= k < edges@.len()
                    ==> (#[trigger] edges@[k]).0 < n && edges@[k].1 < n,
            decreases ne - e,
        {
            proof {
                assert(self.ethers@.take(e as int + 1).drop_last()
                    =~= self.ethers@.take(e as int));
                assert(self.ethers@.take(e as int + 1).last() == self.ethers@[e as int]);
            }
            let sides = self.ethers[e].get_interfaces();
            match sides {
                None => {
                    proof {
                        assert(edges@ + cable_edges(self.ethers@[e as int], self.nodes@)
                            =~= edges@);
                    }
                }
                Some((a, b)) => {
                    let (na, _ia) = a.get_to_owner();
                    let (nb, _ib) = b.get_to_owner();
                    proof {
                        assert(na < n && nb < n);
                    }
                    let w = crate::geom::distance_between((
                        self.nodes[nb].get_position(),
                        self.nodes[na].get_position(),
                    ));
                    let ghost before = edges@;
                    edges.push((na, nb, w));
                    edges.push((nb, na, w));
                    proof {
                        assert(edges@ =~= before
                            + cable_edges(self.ethers@[e as int], self.nodes@));
                    }
                }
            }
            e += 1;
        }
        proof {
            assert(self.ethers@.take(ne as int) =~= self.ethers@);
        }
        edges
    }

    /// Every ordered pair of nodes is joined by some chain of link edges.
    pub open spec fn all_pairs_connected(self) -> bool {
        forall|s: int, d: int| 0 <= s < self.nodes@.len() && 0 <= d < self.nodes@.len()
            ==> #[trigger] pair_connected(edges_model(self.ethers@, self.nodes@), s, d)
    }

    /// Record one next hop on one node's routing table.
    fn set_route(&mut self, s: NodeId, d: NodeId, h: NodeId)
        requires
            old(self).wf(),
            s < old(self).nodes@.len(),
        ensures
            final(self).wf(),
            final(self).ethers@ == old(self).ethers@,
            final(self).transmissions@ == old(self).transmissions@,
            final(self).incoming@ == old(self).incoming@,
            final(self).outgoing@ == old(self).outgoing@,
            final(self).nodes@.len() == old(self).nodes@.len(),
            forall|i: int| 0 <= i < old(self).nodes@.len() && i != s
                ==> final(self).nodes@[i] == old(self).nodes@[i],
            final(self).nodes@[s as int].id == old(self).nodes@[s as int].id,
            final(self).nodes@[s as int].kind == old(self).nodes@[s as int].kind,
            final(self).nodes@[s as int].position == old(self).nodes@[s as int].position,
            final(self).nodes@[s as int].interfaces@ == old(self).nodes@[s as int].interfaces@,
            route_lookup(final(self).nodes@[s as int].known_routes@, d)
                == Some(NodeInterfaceId { node: s, peer: h }),
            forall|d2: NodeId| d2 != d
                ==> route_lookup(final(self).nodes@[s as int].known_routes@, d2)
                    == route_lookup(old(self).nodes@[s as int].known_routes@, d2),
    {
        proof {
            assert(old(self).nodes@[s as int].id == s);
        }
        self.nodes[s].set_known_route(d, h);
    }

    /// Compute the full all-pairs routing table: for every ordered pair of
    /// nodes, search for a shortest path under the link-geometry weights,
    /// audit the result, and record the path's first hop as the source's
    /// route toward the destination.  All pairs are solved before any route
    /// is installed, so a failure — an unreachable pair, or a weight out of
    /// range — leaves every routing table untouched.  On a topology where
    /// every pair is connected and the weights are in range the computation
    /// is guaranteed to succeed, and on success every recorded first hop
    /// starts a path of globally minimal weight.
    pub fn calculate_routes(&mut self) -> (r: Result<(), NetError>)
        requires
            old(self).wf(),
        ensures
            final(self).wf(),
            final(self).ethers@ == old(self).ethers@,
            final(self).transmissions@ == old(self).transmissions@,
            final(self).incoming@ == old(self).incoming@,
            final(self).outgoing@ == old(self).outgoing@,
            final(self).nodes@.len() == old(self).nodes@.len(),
            forall|i: int| 0 <= i < old(self).nodes@.len()
                ==> (#[trigger] final(self).nodes@[i]).id == old(self).nodes@[i].id
                    && final(self).nodes@[i].kind == old(self).nodes@[i].kind
                    && final(self).nodes@[i].position == old(self).nodes@[i].position
                    && final(self).nodes@[i].interfaces@ == old(self).nodes@[i].interfaces@,
            r is Err ==> final(self).nodes@ == old(self).nodes@
                && (r == Err::<(), NetError>(NetError::Unreachable)
                    || r == Err::<(), NetError>(NetError::WeightOverflow)
                    || r == Err::<(), NetError>(NetError::BadRoute)),
            r is Ok ==> forall|s: NodeId, d: NodeId|
                s < old(self).nodes@.len() && d < old(self).nodes@.len()
                ==> ({
                    let e = #[trigger] route_lookup(
                        final(self).nodes@[s as int].known_routes@, d);
                    &&& e is Some
                    &&& e.unwrap().node == s
                    &&& hop_good(
                        edges_model(old(self).ethers@, old(self).nodes@),
                        old(self).nodes@.len() as int,
                        s as int,
                        d as int,
                        e.unwrap().peer,
                    )
                }),
            old(self).all_pairs_connected() && weights_ok(
                edges_model(old(self).ethers@, old(self).nodes@),
                old(self).nodes@.len() as int,
            ) ==> r is Ok,
            r == Err::<(), NetError>(NetError::Unreachable)
                ==> !old(self).all_pairs_connected(),
    {
        let edges = self.build_edges();
        let ghost em = edges@;
        let ghost wired = old(self).all_pairs_connected() && weights_ok(
            em, old(self).nodes@.len() as int);
        let n = self.nodes.len();
        let mut routes: Vec<(NodeId, NodeId, NodeId)> = Vec::new();
        let mut s: usize = 0;
        while s < n
            invariant
                s <= n,
                n == self.nodes@.len(),
                *self == *old(self),
                self.wf(),
                edges@ == em,
                em == edges_model(old(self).ethers@, old(self).nodes@),
                wired == (old(self).all_pairs_connected() && weights_ok(em, n as int)),
                forall|k: int| 0 <= k < edges@.len()
                    ==> (#[trigger] edges@[k]).0 < n && edges@[k].1 < n,
                routes@.len() == s * n,
                forall|s2: int, d2: int| 0 <= s2 < n && 0 <= d2 < n && s2 * n + d2
                    < routes@.len()
                    ==> ({
                        let e = #[trigger] routes@[s2 * n + d2];
                        &&& (e.0 as int) == s2
                        &&& (e.1 as int) == d2
                        &&& hop_good(em, n as int, s2, d2, e.2)
                    }),
            decreases n - s,
        {
            let dp = match dijkstra(n, &edges, s) {
                Ok(dp) => dp,
                Err(e) => {
                    proof {
                        if wired {
                            assert(false);
                        }
                    }
                    return Err(e);
                }
            };
            let (dist_o, pred, ranks) = dp;
            let ghost dov = dist_o@;
            let dist = match finish_dist(dist_o) {
                Ok(v) => v,
                Err(e) => {
                    proof {
                        if old(self).all_pairs_connected() {
                            let i = choose|i: int| 0 <= i < dov.len()
                                && (#[trigger] dov[i]) is None;
                            assert(pair_connected(em, s as int, i));
                            let ks = choose|ks: Seq<int>| #[trigger] epath_ok(
                                em, s as int, i, ks);
                            lemma_reach_some(edges@, dov, s as int, i, ks);
                            assert(false);
                        }
                    }
                    return Err(e);
                }
            };
            proof {
                assert(dov[s as int] == Some(dist@[s as int]));
                assert(dist@[s as int] == 0);
                assert forall|v: int| 0 <= v < n
                    implies 0 <= (#[trigger] ranks@[v]) < n by {
                    assert(dov[v] is Some);
                }
                assert forall|v: int| 0 <= v < n && v != s as int
                    implies (#[trigger] pred@[v]) is Some
                        && (pred@[v].unwrap() as int) < n
                        && ranks@[pred@[v].unwrap() as int] < ranks@[v]
                        && (exists|k: int| 0 <= k < edges@.len()
                            && ((#[trigger] edges@[k]).0 as int)
                                == pred@[v].unwrap() as int
                            && (edges@[k].1 as int) == v
                            && dist@[pred@[v].unwrap() as int] + edges@[k].2
                                == dist@[v]) by {
                    assert(dov[v] is Some);
                    let p = pred@[v].unwrap() as int;
                    let k = choose|k: int| 0 <= k < edges@.len()
                        && (#[trigger] edges@[k]).0 == pred@[v].unwrap()
                        && (edges@[k].1 as int) == v
                        && dov[p].unwrap() + edges@[k].2 == dov[v].unwrap();
                    assert(dov[p] == Some(dist@[p]));
                    assert(dov[v] == Some(dist@[v]));
                    assert(((#[trigger] edges@[k]).0 as int) == p
                        && (edges@[k].1 as int) == v
                        && dist@[p] + edges@[k].2 == dist@[v]);
                }
            }
            if !check_cert(n, &edges, s, &dist) {
                proof {
                    if wired {
                        assert(cert_ok(edges@, n as int, s as int, dist@));
                        assert(false);
                    }
                }
                return Err(NetError::BadRoute);
            }
            let mut d: usize = 0;
            while d < n
                invariant
                    d <= n,
                    s < n,
                    n == self.nodes@.len(),
                    *self == *old(self),
                    self.wf(),
                    edges@ == em,
                    cert_ok(edges@, n as int, s as int, dist@),
                    dist@.len() == n,
                    pred@.len() == n,
                    ranks@.len() == n,
                    dist@[s as int] == 0,
                    forall|v: int| 0 <= v < n ==> 0 <= (#[trigger] ranks@[v]) < n,
                    ranks@[s as int] == 0,
                    forall|v: int| 0 <= v < n && v != s as int
                        ==> (#[trigger] pred@[v]) is Some
                            && (pred@[v].unwrap() as int) < n
                            && ranks@[pred@[v].unwrap() as int] < ranks@[v]
                            && (exists|k: int| 0 <= k < edges@.len()
                                && ((#[trigger] edges@[k]).0 as int)
                                    == pred@[v].unwrap() as int
                                && (edges@[k].1 as int) == v
                                && dist@[pred@[v].unwrap() as int] + edges@[k].2
                                    == dist@[v]),
                    forall|k: int| 0 <= k < edges@.len()
                        ==> (#[trigger] edges@[k]).0 < n && edges@[k].1 < n,
                    routes@.len() == s * n + d,
                    forall|s2: int, d2: int| 0 <= s2 < n && 0 <= d2 < n && s2 * n + d2
                        < routes@.len()
                        ==> ({
                            let e = #[trigger] routes@[s2 * n + d2];
                            &&& (e.0 as int) == s2
                            &&& (e.1 as int) == d2
                            &&& hop_good(em, n as int, s2, d2, e.2)
                        }),
                decreases n - d,
            {
                let h = extract_hop(n, &edges, s, d, &dist, &pred, ranks);
                proof {
                    if s != d {
                        let ks = choose|ks: Seq<int>| {
                            &&& #[trigger] epath_ok(edges@, s as int, d as int, ks)
                            &&& 0 < ks.len() <= n
                            &&& edges@[ks[0]].1 == h
                            &&& epath_weight(edges@, ks) == dist@[d as int]
                        };
                        assert forall|ks2: Seq<int>| #[trigger] epath_ok(
                            edges@, s as int, d as int, ks2)
                            implies epath_weight(edges@, ks)
                                <= epath_weight(edges@, ks2) by {
                            lemma_cert_lower_bound(
                                edges@, n as int, s as int, dist@, s as int, d as int, ks2);
                        }
                        assert(hop_good(em, n as int, s as int, d as int, h));
                    } else {
                        assert(hop_good(em, n as int, s as int, d as int, h));
                    }
                }
                let ghost pre_routes = routes@;
                routes.push((s, d, h));
                proof {
                    assert forall|sa: int, da: int| 0 <= sa < n && 0 <= da < n
                        && sa * n + da < routes@.len() implies ({
                        let e = #[trigger] routes@[sa * n + da];
                        &&& (e.0 as int) == sa
                        &&& (e.1 as int) == da
                        &&& hop_good(em, n as int, sa, da, e.2)
                    }) by {
                        if sa == s as int && da == d as int {
                            assert(routes@[sa * n + da] == (s, d, h));
                        } else {
                            assert(sa * n + da != (s as int) * (n as int) + d as int)
                                by (nonlinear_arith)
                                requires
                                    0 <= sa < n as int,
                                    0 <= da < n as int,
                                    0 <= (s as int) && (s as int) < (n as int),
                                    0 <= (d as int) && (d as int) < (n as int),
                                    !(sa == s as int && da == d as int);
                            assert(sa * n + da < pre_routes.len());
                            assert(routes@[sa * n + da] == pre_routes[sa * n + da]);
                        }
                    }
                }
                d += 1;
            }
            proof {
                assert((s as int) * (n as int) + (n as int)
                    == ((s as int) + 1) * (n as int)) by (nonlinear_arith);
            }
            s += 1;
        }
        // all pairs solved; only now is anything installed
        proof {
            assert(routes@.len() == (n as int) * (n as int));
            assert forall|sa: int, da: int| 0 <= sa < n && 0 <= da < n implies ({
                let e = #[trigger] routes@[sa * n + da];
                &&& (e.0 as int) == sa
                &&& (e.1 as int) == da
                &&& hop_good(em, n as int, sa, da, e.2)
            }) by {
                assert(sa * n + da < (n as int) * (n as int)) by (nonlinear_arith)
                    requires 0 <= sa < n as int, 0 <= da < n as int;
            }
        }
        let mut s2: usize = 0;
        let mut idx: usize = 0;
        while s2 < n
            invariant
                s2 <= n,
                idx == s2 * n,
                n == self.nodes@.len(),
                self.wf(),
                self.ethers@ == old(self).ethers@,
                self.transmissions@ == old(self).transmissions@,
                self.incoming@ == old(self).incoming@,
                self.outgoing@ == old(self).outgoing@,
                self.nodes@.len() == old(self).nodes@.len(),
                forall|i: int| 0 <= i < old(self).nodes@.len()
                    ==> (#[trigger] self.nodes@[i]).id == old(self).nodes@[i].id
                        && self.nodes@[i].kind == old(self).nodes@[i].kind
                        && self.nodes@[i].position == old(self).nodes@[i].position
                        && self.nodes@[i].interfaces@ == old(self).nodes@[i].interfaces@,
                routes@.len() == n * n,
                forall|sa: int, da: int| 0 <= sa < n && 0 <= da < n
                    ==> ({
                        let e = #[trigger] routes@[sa * n + da];
                        &&& (e.0 as int) == sa
                        &&& (e.1 as int) == da
                        &&& hop_good(em, n as int, sa, da, e.2)
                    }),
                forall|sa: NodeId, da: NodeId| sa < s2 && da < n
                    ==> ({
                        let e = #[trigger] route_lookup(
                            self.nodes@[sa as int].known_routes@, da);
                        &&& e is Some
                        &&& e.unwrap().node == sa
                        &&& hop_good(em, n as int, sa as int, da as int, e.unwrap().peer)
                    }),
            decreases n - s2,
        {
            let mut d2: usize = 0;
            while d2 < n
                invariant
                    d2 <= n,
                    s2 < n,
                    idx == s2 * n + d2,
                    n == self.nodes@.len(),
                    self.wf(),
                    self.ethers@ == old(self).ethers@,
                    self.transmissions@ == old(self).transmissions@,
                    self.incoming@ == old(self).incoming@,
                    self.outgoing@ == old(self).outgoing@,
                    self.nodes@.len() == old(self).nodes@.len(),
                    forall|i: int| 0 <= i < old(self).nodes@.len()
                        ==> (#[trigger] self.nodes@[i]).id == old(self).nodes@[i].id
                            && self.nodes@[i].kind == old(self).nodes@[i].kind
                            && self.nodes@[i].position == old(self).nodes@[i].position
                            && self.nodes@[i].interfaces@
                                == old(self).nodes@[i].interfaces@,
                    routes@.len() == n * n,
                    forall|sa: int, da: int| 0 <= sa < n && 0 <= da < n
                        ==> ({
                            let e = #[trigger] routes@[sa * n + da];
                            &&& (e.0 as int) == sa
                            &&& (e.1 as int) == da
                            &&& hop_good(em, n as int, sa, da, e.2)
                        }),
                    forall|sa: NodeId, da: NodeId| sa < s2 && da < n
                        ==> ({
                            let e = #[trigger] route_lookup(
                                self.nodes@[sa as int].known_routes@, da);
                            &&& e is Some
                            &&& e.unwrap().node == sa
                            &&& hop_good(em, n as int, sa as int, da as int, e.unwrap().peer)
                        }),
                    forall|da: NodeId| da < d2
                        ==> ({
                            let e = #[trigger] route_lookup(
                                self.nodes@[s2 as int].known_routes@, da);
                            &&& e is Some
                            &&& e.unwrap().node == s2
                            &&& hop_good(em, n as int, s2 as int, da as int, e.unwrap().peer)
                        }),
                decreases n - d2,
            {
                proof {
                    assert((s2 as int) * (n as int) + (d2 as int)
                        < (n as int) * (n as int)) by (nonlinear_arith)
                        requires (s2 as int) < n as int, (d2 as int) < n as int,
                            0 <= s2 as int, 0 <= d2 as int;
                    assert(routes@.len() == (n as int) * (n as int));
                    assert(idx < routes@.len());
                }
                let (_rs, _rd, h) = routes[idx];
                proof {
                    assert(routes@[(s2 as int) * (n as int) + (d2 as int)].2 == h);
                }
                let ghost pre = self.nodes@;
                self.set_route(s2, d2, h);
                proof {
                    assert forall|sa: NodeId, da: NodeId| sa < s2 && da < n implies ({
                        let e = #[trigger] route_lookup(
                            self.nodes@[sa as int].known_routes@, da);
                        &&& e is Some
                        &&& e.unwrap().node == sa
                        &&& hop_good(em, n as int, sa as int, da as int, e.unwrap().peer)
                    }) by {
                        assert(self.nodes@[sa as int] == pre[sa as int]);
                        assert(({
                            let e = route_lookup(pre[sa as int].known_routes@, da);
                            &&& e is Some
                            &&& e.unwrap().node == sa
                            &&& hop_good(em, n as int, sa as int, da as int, e.unwrap().peer)
                        }));
                    }
                    assert forall|da: NodeId| da < d2 + 1 implies ({
                        let e = #[trigger] route_lookup(
                            self.nodes@[s2 as int].known_routes@, da);
                        &&& e is Some
                        &&& e.unwrap().node == s2
                        &&& hop_good(em, n as int, s2 as int, da as int, e.unwrap().peer)
                    }) by {
                        if da == d2 {
                            assert(route_lookup(self.nodes@[s2 as int].known_routes@, d2)
                                == Some(NodeInterfaceId { node: s2, peer: h }));
                        } else {
                            assert(route_lookup(self.nodes@[s2 as int].known_routes@, da)
                                == route_lookup(pre[s2 as int].known_routes@, da));
                            assert(({
                                let e = route_lookup(pre[s2 as int].known_routes@, da);
                                &&& e is Some
                                &&& e.unwrap().node == s2
                                &&& hop_good(em, n as int, s2 as int, da as int,
                                    e.unwrap().peer)
                            }));
                        }
                    }
                }
                proof {
                    assert(idx < routes.len());
                }
                idx += 1;
                d2 += 1;
            }
            proof {
                assert((s2 as int) * (n as int) + (n as int)
                    == ((s2 as int) + 1) * (n as int)) by (nonlinear_arith);
                assert forall|sa: NodeId, da: NodeId| sa < s2 + 1 && da < n implies ({
                    let e = #[trigger] route_lookup(
                        self.nodes@[sa as int].known_routes@, da);
                    &&& e is Some
                    &&& e.unwrap().node == sa
                    &&& hop_good(em, n as int, sa as int, da as int, e.unwrap().peer)
                }) by {
                    if sa == s2 {
                        assert(da < d2);
                    }
                }
            }
            s2 += 1;
        }
        Ok(())
    }
}

} // verus!
