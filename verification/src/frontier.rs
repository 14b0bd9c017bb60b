//! Propagation of labels through a network, best label first.
//!
//! Every node of the network carries a label, a finite number once the node has
//! been reached. A queue holds the nodes whose labels are still to be passed
//! on. Passing on a label offers each neighbor a new label, which it takes if
//! it is open for one or if the new one improves on the one it has.

use crate::heap::{Entry, MaxHeap};
use crate::scalar::Single;
use vstd::multiset::Multiset;
use vstd::prelude::*;

verus! {

/// The rules by which labels move through a network.
pub struct Rules {
    /// Number of nodes.
    pub size: nat,
    /// Number of connections out of a node.
    pub degree: spec_fn(int) -> nat,
    /// Whether larger labels are better.
    pub rises: bool,
    /// Key under which a label is queued.
    pub key_of: spec_fn(Single) -> i128,
    /// Whether an entry queued under a key is out of date for a node that now
    /// has a label.
    pub stale: spec_fn(Single, i128) -> bool,
    /// What passing on the label queued under a key offers over one connection
    /// of a node: the neighbor and its new label.
    pub offer: spec_fn(int, int, i128) -> Option<(int, Single)>,
    /// Whether a node with a label that is not finite is open for a finite one.
    pub open: spec_fn(Single) -> bool,
    /// Whether the first label is enough of an improvement on the second.
    pub improves: spec_fn(Single, Single) -> bool,
}

/// A network that labels can be passed on in.
pub trait Network {
    spec fn rules(&self) -> Rules;

    /// Whether the description of the network is sound.
    spec fn valid(&self) -> bool;

    /// Offers go to nodes of the network.
    proof fn offer_in_range(&self, u: int, k: int, key: i128)
        requires
            self.valid(),
            0 <= u < self.rules().size,
            0 <= k < (self.rules().degree)(u),
        ensures
            (self.rules().offer)(u, k, key) matches Some(p) ==> 0 <= p.0 < self.rules().size,
    ;

    fn degree(&self, u: usize) -> (r: usize)
        requires
            self.valid(),
            u < self.rules().size,
        ensures
            r == (self.rules().degree)(u as int),
    ;

    fn rises(&self) -> (r: bool)
        ensures
            r == self.rules().rises,
    ;

    fn key_of(&self, label: Single) -> (r: i128)
        requires
            self.valid(),
        ensures
            r == (self.rules().key_of)(label),
    ;

    fn is_stale(&self, label: Single, key: i128) -> (r: bool)
        requires
            self.valid(),
        ensures
            r == (self.rules().stale)(label, key),
    ;

    fn offer(&self, u: usize, k: usize, key: i128) -> (r: Option<(usize, Single)>)
        requires
            self.valid(),
            u < self.rules().size,
            k < (self.rules().degree)(u as int),
        ensures
            (self.rules().offer)(u as int, k as int, key) == match r {
                Some(p) => Some((p.0 as int, p.1)),
                None => None,
            },
    ;

    fn is_open(&self, label: Single) -> (r: bool)
        requires
            self.valid(),
        ensures
            r == (self.rules().open)(label),
    ;

    fn improves(&self, new: Single, prev: Single) -> (r: bool)
        requires
            self.valid(),
        ensures
            r == (self.rules().improves)(new, prev),
    ;
}

/// Whether an offer, if there is one, goes to a node of the network.
pub open spec fn offer_in_range(net: Rules, u: int, k: int, key: i128) -> bool {
    (net.offer)(u, k, key) matches Some(p) ==> 0 <= p.0 < net.size
}

/// Whether offers go to nodes of the network.
pub open spec fn offers_in_range(net: Rules) -> bool {
    forall|u: int, k: int, key: i128|
        0 <= u < net.size && 0 <= k < (net.degree)(u) ==> #[trigger] offer_in_range(net, u, k, key)
}

/// Whether `a` is strictly better than `b`.
pub open spec fn better(rises: bool, a: Single, b: Single) -> bool {
    if rises {
        b.rank() < a.rank()
    } else {
        a.rank() < b.rank()
    }
}

/// Whether the label `a` takes the place of the label `prev`.
pub open spec fn wins(net: Rules, a: Single, prev: Single) -> bool {
    if prev.finite() {
        (net.improves)(a, prev) && better(net.rises, a, prev)
    } else {
        (net.open)(prev)
    }
}

/// One step of a route: `to` is what passing on the label of `from` offers over
/// some connection.
pub open spec fn step(net: Rules, from: (int, Single), to: (int, Single)) -> bool {
    &&& to.1.finite()
    &&& exists|k: int|
        0 <= k < (net.degree)(from.0) && #[trigger] (net.offer)(from.0, k, (net.key_of)(from.1)) == Some(
            to,
        )
}

/// A route through the network, from a source, with the label at each node.
pub open spec fn route(
    net: Rules,
    sources: Set<(int, Single)>,
    path: Seq<(int, Single)>,
) -> bool {
    &&& path.len() > 0
    &&& sources.contains(path[0])
    &&& forall|i: int|
        0 <= i < path.len() - 1 ==> step(net, #[trigger] path[i], path[i + 1])
}

/// Whether some route leads to node `u` with this label.
pub open spec fn earned(
    net: Rules,
    sources: Set<(int, Single)>,
    u: int,
    label: Single,
) -> bool {
    exists|path: Seq<(int, Single)>| #[trigger]
        route(net, sources, path) && path.last() == (u, label)
}

/// Whether the label `l` of a node withstands the offer `a`: the node once had
/// a label, no better than `l`, that `a` did not replace.
pub open spec fn withstands(net: Rules, l: Single, a: Single) -> bool {
    exists|x: Single|
        (x == l || x.finite() && l.finite() && better(net.rises, l, x)) && !#[trigger] wins(
            net,
            a,
            x,
        )
}

/// Whether the offer over connection `k` of node `u` changes nothing.
pub open spec fn offer_settled(net: Rules, labels: Seq<Single>, u: int, k: int) -> bool {
    match (net.offer)(u, k, (net.key_of)(labels[u])) {
        Some(p) => p.1.finite() ==> withstands(net, labels[p.0], p.1),
        None => true,
    }
}

/// Whether the label of node `u` has been passed on to every neighbor.
pub open spec fn settled(net: Rules, labels: Seq<Single>, u: int) -> bool {
    (net.stale)(labels[u], (net.key_of)(labels[u])) || forall|k: int|
        0 <= k < (net.degree)(u) ==> #[trigger] offer_settled(net, labels, u, k)
}

/// No label got worse, and nodes without one, or not open for one, are as they
/// were.
pub open spec fn no_worse(net: Rules, before: Seq<Single>, after: Seq<Single>) -> bool {
    &&& before.len() == after.len()
    &&& forall|v: int|
        0 <= v < before.len() && before[v].finite() ==> (#[trigger] after[v]).finite() && (after[v]
            == before[v] || better(net.rises, after[v], before[v]))
    &&& forall|v: int|
        0 <= v < before.len() && !(#[trigger] after[v]).finite() ==> after[v] == before[v]
    &&& forall|v: int|
        0 <= v < before.len() && !before[v].finite() && !(net.open)(before[v])
            ==> #[trigger] after[v] == before[v]
}

/// Whether `x` may be passed on from node `u`: the node starts with it, or it is
/// no better than the label that the node has.
pub open spec fn current(
    net: Rules,
    sources: Set<(int, Single)>,
    labels: Seq<Single>,
    u: int,
    x: Single,
) -> bool {
    sources.contains((u, x)) || x.finite() && labels[u].finite() && (x == labels[u] || better(
        net.rises,
        labels[u],
        x,
    ))
}

/// Whether the label of node `v` is the one that it had at the start, or is what
/// a neighbor offers from a label no better than the one that the neighbor has.
pub open spec fn attained(
    net: Rules,
    sources: Set<(int, Single)>,
    start: Seq<Single>,
    labels: Seq<Single>,
    v: int,
) -> bool {
    labels[v] == start[v] || exists|u: int, k: int, x: Single|
        0 <= u < net.size && 0 <= k < (net.degree)(u) && #[trigger] (net.offer)(
            u,
            k,
            (net.key_of)(x),
        ) == Some((v, labels[v])) && current(net, sources, labels, u, x)
}

/// Where a propagation stands: the labels, the queue, and the nodes that have
/// got a label, in the order in which they got it.
#[verifier::ext_equal]
pub struct Standing {
    pub labels: Seq<Single>,
    pub queue: Multiset<Entry<usize>>,
    pub reached: Seq<int>,
}

/// What offering node `v` the label `a` comes to.
pub open spec fn after_offer(net: Rules, s: Standing, v: int, a: Single) -> Standing {
    if a.finite() && wins(net, a, s.labels[v]) {
        Standing {
            labels: s.labels.update(v, a),
            queue: s.queue.insert(Entry { key: (net.key_of)(a), item: v as usize }),
            reached: if s.labels[v].finite() {
                s.reached
            } else {
                s.reached.push(v)
            },
        }
    } else {
        s
    }
}

/// What passing on the label queued under `key` over the first `k` connections
/// of node `u` comes to.
pub open spec fn after_offers(net: Rules, s: Standing, u: int, key: i128, k: int) -> Standing
    decreases k,
{
    if k <= 0 {
        s
    } else {
        let before = after_offers(net, s, u, key, k - 1);
        match (net.offer)(u, k - 1, key) {
            Some((v, a)) => after_offer(net, before, v, a),
            None => before,
        }
    }
}

/// What taking the entry `e` off the queue comes to: its label is passed on,
/// unless it is out of date.
pub open spec fn after_entry(net: Rules, s: Standing, e: Entry<usize>) -> Standing {
    let taken = Standing { queue: s.queue.remove(e), ..s };
    let u = e.item as int;
    if (net.stale)(s.labels[u], e.key) {
        taken
    } else {
        after_offers(net, taken, u, e.key, (net.degree)(u) as int)
    }
}

/// Whether an entry with the largest key was taken off the queue.
pub open spec fn advances(net: Rules, s: Standing, t: Standing) -> bool {
    exists|e: Entry<usize>| #[trigger]
        s.queue.contains(e) && (forall|x: Entry<usize>| #[trigger]
            s.queue.contains(x) ==> x.key <= e.key) && t == after_entry(net, s, e)
}

/// Whether this is a propagation from beginning to end: entry by entry, the
/// largest key first, until the queue is empty. Entries with equal keys may come
/// in any order.
pub open spec fn is_run(net: Rules, run: Seq<Standing>) -> bool {
    &&& run.len() > 0
    &&& run[0].reached.len() == 0
    &&& forall|i: int| 0 <= i < run.len() - 1 ==> advances(net, #[trigger] run[i], run[i + 1])
    &&& run.last().queue.len() == 0
}

/// Whether a propagation that has not ended yet stands as `s`.
spec fn is_run_so_far(net: Rules, run: Seq<Standing>, s: Standing) -> bool {
    &&& run.len() > 0
    &&& run[0].reached.len() == 0
    &&& forall|i: int| 0 <= i < run.len() - 1 ==> advances(net, #[trigger] run[i], run[i + 1])
    &&& run.last() == s
}

proof fn lemma_run_on(net: Rules, run: Seq<Standing>, s: Standing, t: Standing)
    requires
        is_run_so_far(net, run, s),
        advances(net, s, t),
    ensures
        is_run_so_far(net, run.push(t), t),
{
    let longer = run.push(t);
    assert forall|i: int| 0 <= i < longer.len() - 1 implies advances(
        net,
        #[trigger] longer[i],
        longer[i + 1],
    ) by {
        assert(longer[i] == run[i]);
        if i < run.len() - 1 {
            assert(longer[i + 1] == run[i + 1]);
        }
    }
}

/// What a list of nodes holds.
pub open spec fn nodes(list: Seq<usize>) -> Seq<int> {
    list.map_values(|u: usize| u as int)
}

/// Whether the list holds each node once that had no label at the start and has
/// one now.
pub open spec fn are_reached(start: Seq<Single>, labels: Seq<Single>, reached: Seq<int>) -> bool {
    &&& reached.no_duplicates()
    &&& forall|i: int| 0 <= i < reached.len() ==> 0 <= #[trigger] reached[i] < labels.len()
    &&& forall|v: int|
        0 <= v < labels.len() ==> (reached.contains(v) <==> (#[trigger] labels[v]).finite()
            && !start[v].finite())
}

/// How far a label is from the best conceivable one.
spec fn distance_left(rises: bool, l: Single) -> int {
    if !l.finite() {
        0xff00_0000
    } else if rises {
        0x7f80_0000 - l.rank()
    } else {
        0x7f80_0000 + l.rank()
    }
}

spec fn total_left(rises: bool, s: Seq<Single>) -> int
    decreases s.len(),
{
    if s.len() == 0 {
        0
    } else {
        total_left(rises, s.drop_last()) + distance_left(rises, s.last())
    }
}

proof fn lemma_total_nonneg(rises: bool, s: Seq<Single>)
    ensures
        total_left(rises, s) >= 0,
    decreases s.len(),
{
    if s.len() > 0 {
        lemma_total_nonneg(rises, s.drop_last());
    }
}

proof fn lemma_total_update(rises: bool, s: Seq<Single>, i: int, a: Single)
    requires
        0 <= i < s.len(),
    ensures
        total_left(rises, s.update(i, a)) == total_left(rises, s) - distance_left(rises, s[i])
            + distance_left(rises, a),
    decreases s.len(),
{
    if i == s.len() - 1 {
        assert(s.update(i, a).drop_last() =~= s.drop_last());
    } else {
        assert(s.update(i, a).drop_last() =~= s.drop_last().update(i, a));
        lemma_total_update(rises, s.drop_last(), i, a);
    }
}

/// A label that withstood an offer goes on to do so when it gets better.
proof fn lemma_withstands_kept(net: Rules, l: Single, l2: Single, a: Single)
    requires
        withstands(net, l, a),
        l2.finite(),
        wins(net, l2, l),
    ensures
        withstands(net, l2, a),
{
    let x = choose|x: Single|
        (x == l || x.finite() && l.finite() && better(net.rises, l, x)) && !#[trigger] wins(
            net,
            a,
            x,
        );
    assert(x.finite() && better(net.rises, l2, x));
}

/// A step on from an earned label earns the next one.
proof fn lemma_earn(
    net: Rules,
    sources: Set<(int, Single)>,
    from: (int, Single),
    to: (int, Single),
)
    requires
        earned(net, sources, from.0, from.1),
        step(net, from, to),
    ensures
        earned(net, sources, to.0, to.1),
{
    let path = choose|path: Seq<(int, Single)>| #[trigger]
        route(net, sources, path) && path.last() == (from.0, from.1);
    let longer = path.push(to);
    assert forall|i: int| 0 <= i < longer.len() - 1 implies step(
        net,
        #[trigger] longer[i],
        longer[i + 1],
    ) by {
        if i < path.len() - 1 {
            assert(longer[i] == path[i]);
        } else {
            assert(longer[i] == from);
        }
    }
    assert(route(net, sources, longer));
}

/// Whether the entries of a queue stand for labels that nodes start with.
pub open spec fn queue_seeded(
    net: Rules,
    sources: Set<(int, Single)>,
    queue: Multiset<Entry<usize>>,
) -> bool {
    forall|e: Entry<usize>| #[trigger]
        queue.contains(e) ==> e.item < net.size && exists|x: Single|
            #[trigger] sources.contains((e.item as int, x)) && (net.key_of)(x) == e.key
}

/// Whether an entry of a queue stands for an earned label that may be passed on.
spec fn entry_current(
    net: Rules,
    sources: Set<(int, Single)>,
    labels: Seq<Single>,
    e: Entry<usize>,
) -> bool {
    e.item < net.size && exists|x: Single|
        #[trigger] earned(net, sources, e.item as int, x) && (net.key_of)(x) == e.key && current(
            net,
            sources,
            labels,
            e.item as int,
            x,
        )
}

spec fn queue_current(
    net: Rules,
    sources: Set<(int, Single)>,
    labels: Seq<Single>,
    queue: Multiset<Entry<usize>>,
) -> bool {
    forall|e: Entry<usize>| #[trigger]
        queue.contains(e) ==> entry_current(net, sources, labels, e)
}

/// What a node starts with is earned.
proof fn lemma_source_earned(net: Rules, sources: Set<(int, Single)>, u: int, x: Single)
    requires
        sources.contains((u, x)),
    ensures
        earned(net, sources, u, x),
{
    let path = seq![(u, x)];
    assert(route(net, sources, path));
    assert(path.last() == (u, x));
}

/// What was attained and current stays so as labels get better.
proof fn lemma_attained_kept(
    net: Rules,
    sources: Set<(int, Single)>,
    start: Seq<Single>,
    labels1: Seq<Single>,
    labels2: Seq<Single>,
    queue: Multiset<Entry<usize>>,
)
    requires
        labels1.len() == net.size,
        no_worse(net, labels1, labels2),
        queue_current(net, sources, labels1, queue),
    ensures
        queue_current(net, sources, labels2, queue),
        forall|v: int|
            0 <= v < net.size && labels2[v] == labels1[v] && attained(
                net,
                sources,
                start,
                labels1,
                v,
            ) ==> #[trigger] attained(net, sources, start, labels2, v),
{
    assert forall|e: Entry<usize>| #[trigger] queue.contains(e) implies entry_current(
        net,
        sources,
        labels2,
        e,
    ) by {
        assert(entry_current(net, sources, labels1, e));
        let x = choose|x: Single|
            #[trigger] earned(net, sources, e.item as int, x) && (net.key_of)(x) == e.key
                && current(net, sources, labels1, e.item as int, x);
        lemma_current_kept(net, sources, labels1, labels2, e.item as int, x);
    }
    assert forall|v: int|
        0 <= v < net.size && labels2[v] == labels1[v] && attained(
            net,
            sources,
            start,
            labels1,
            v,
        ) implies #[trigger] attained(net, sources, start, labels2, v) by {
        if labels1[v] != start[v] {
            let (u, k, x) = choose|u: int, k: int, x: Single|
                0 <= u < net.size && 0 <= k < (net.degree)(u) && #[trigger] (net.offer)(
                    u,
                    k,
                    (net.key_of)(x),
                ) == Some((v, labels1[v])) && current(net, sources, labels1, u, x);
            lemma_current_kept(net, sources, labels1, labels2, u, x);
        }
    }
}

proof fn lemma_current_kept(
    net: Rules,
    sources: Set<(int, Single)>,
    labels1: Seq<Single>,
    labels2: Seq<Single>,
    u: int,
    x: Single,
)
    requires
        0 <= u < labels1.len(),
        no_worse(net, labels1, labels2),
        current(net, sources, labels1, u, x),
    ensures
        current(net, sources, labels2, u, x),
{
    if !sources.contains((u, x)) {
        assert(labels2[u].finite());
    }
}

/// Whether node `u`, if it has a label, is queued under it.
pub open spec fn queued(
    net: Rules,
    labels: Seq<Single>,
    queue: Multiset<Entry<usize>>,
    u: int,
) -> bool {
    labels[u].finite() && queue.contains(
        Entry { key: (net.key_of)(labels[u]), item: u as usize },
    )
}

/// Taking a label keeps what was queued and settled at the other nodes.
proof fn lemma_after_update(
    net: Rules,
    labels1: Seq<Single>,
    labels2: Seq<Single>,
    queue1: Multiset<Entry<usize>>,
    queue2: Multiset<Entry<usize>>,
    v: usize,
    a: Single,
)
    requires
        offers_in_range(net),
        labels1.len() == net.size,
        0 <= v < labels1.len(),
        labels2 == labels1.update(v as int, a),
        a.finite(),
        wins(net, a, labels1[v as int]),
        queue2 == queue1.insert(Entry { key: (net.key_of)(a), item: v }),
    ensures
        no_worse(net, labels1, labels2),
        queue2.contains(Entry { key: (net.key_of)(a), item: v }),
        forall|e: Entry<usize>| #[trigger]
            queue2.contains(e) ==> e == (Entry { key: (net.key_of)(a), item: v }) || queue1.contains(
                e,
            ),
        forall|w: int|
            0 <= w < labels1.len() && w != v && queued(net, labels1, queue1, w) ==> #[trigger]
            queued(net, labels2, queue2, w),
        forall|w: int, j: int|
            0 <= w < labels1.len() && w != v && 0 <= j < (net.degree)(w) && offer_settled(
                net,
                labels1,
                w,
                j,
            ) ==> #[trigger] offer_settled(net, labels2, w, j),
        forall|w: int|
            0 <= w < labels1.len() && w != v && settled(net, labels1, w) ==> #[trigger] settled(
                net,
                labels2,
                w,
            ),
{
    broadcast use vstd::multiset::group_multiset_axioms;

    assert forall|w: int, j: int|
        0 <= w < labels1.len() && w != v && 0 <= j < (net.degree)(w) && offer_settled(
            net,
            labels1,
            w,
            j,
        ) implies #[trigger] offer_settled(net, labels2, w, j) by {
        assert(labels2[w] == labels1[w]);
        assert(offer_in_range(net, w, j, (net.key_of)(labels2[w])));
        if let Some(p) = (net.offer)(w, j, (net.key_of)(labels2[w])) {
            if p.1.finite() {
                if p.0 == v {
                    lemma_withstands_kept(net, labels1[v as int], a, p.1);
                } else {
                    assert(labels2[p.0] == labels1[p.0]);
                }
            }
        }
    }
    assert forall|w: int|
        0 <= w < labels1.len() && w != v && settled(net, labels1, w) implies #[trigger] settled(
        net,
        labels2,
        w,
    ) by {
        assert(labels2[w] == labels1[w]);
        if !(net.stale)(labels1[w], (net.key_of)(labels1[w])) {
            assert forall|k: int| 0 <= k < (net.degree)(w) implies #[trigger] offer_settled(
                net,
                labels2,
                w,
                k,
            ) by {
                assert(offer_settled(net, labels1, w, k));
            }
        }
    }
}

/// A node that gets its first label is reached after the others.
proof fn lemma_reached_on(
    net: Rules,
    start: Seq<Single>,
    labels: Seq<Single>,
    reached: Seq<int>,
    v: int,
    a: Single,
)
    requires
        start.len() == labels.len(),
        no_worse(net, start, labels),
        are_reached(start, labels, reached),
        0 <= v < labels.len(),
        !labels[v].finite(),
        a.finite(),
    ensures
        are_reached(start, labels.update(v, a), reached.push(v)),
{
    let after = labels.update(v, a);
    let more = reached.push(v);
    assert(!reached.contains(v));
    assert(!start[v].finite());
    assert forall|w: int| 0 <= w < after.len() implies (more.contains(w) <==> (
    #[trigger] after[w]).finite() && !start[w].finite()) by {
        if w == v {
            assert(more[reached.len() as int] == v);
        } else {
            assert(after[w] == labels[w]);
            if reached.contains(w) {
                let i = choose|i: int| 0 <= i < reached.len() && reached[i] == w;
                assert(more[i] == w);
            }
            if more.contains(w) {
                let i = choose|i: int| 0 <= i < more.len() && more[i] == w;
                assert(reached[i] == w);
            }
        }
    }
}

/// A better label changes nothing in what was reached.
proof fn lemma_still_reached(
    start: Seq<Single>,
    labels: Seq<Single>,
    reached: Seq<int>,
    v: int,
    a: Single,
)
    requires
        are_reached(start, labels, reached),
        0 <= v < labels.len(),
        labels[v].finite(),
        a.finite(),
    ensures
        are_reached(start, labels.update(v, a), reached),
{
    let after = labels.update(v, a);
    assert forall|w: int| 0 <= w < after.len() implies (reached.contains(w) <==> (
    #[trigger] after[w]).finite() && !start[w].finite()) by {
        assert(labels[w].finite() == after[w].finite());
    }
}

/// A label withstands the offer that it came from.
proof fn lemma_taken_withstands(net: Rules, a: Single)
    requires
        a.finite(),
    ensures
        withstands(net, a, a),
{
    assert(!wins(net, a, a));
}

/// Passes labels on until the queue is empty.
///
/// `sources` are the nodes with the labels that the propagation starts from.
/// Afterwards every label is earned by a route from a source, comes from a label
/// no better than the one that a neighbor has, and has been passed on to all
/// neighbors. Returns the nodes that got a label, in the order in which they did.
pub fn propagate<N: Network>(
    net: &N,
    labels: &mut Vec<Single>,
    queue: &mut MaxHeap<usize>,
    Ghost(sources): Ghost<Set<(int, Single)>>,
) -> (reached: Vec<usize>)
    requires
        net.valid(),
        net.rules().size <= usize::MAX,
        old(labels)@.len() == net.rules().size,
        old(queue).wf(),
        queue_seeded(net.rules(), sources, old(queue)@),
        forall|u: int|
            0 <= u < net.rules().size && (#[trigger] old(labels)@[u]).finite() ==> earned(
                net.rules(),
                sources,
                u,
                old(labels)@[u],
            ) && queued(net.rules(), old(labels)@, old(queue)@, u),
    ensures
        final(labels)@.len() == net.rules().size,
        no_worse(net.rules(), old(labels)@, final(labels)@),
        forall|u: int|
            0 <= u < net.rules().size && (#[trigger] final(labels)@[u]).finite() ==> earned(
                net.rules(),
                sources,
                u,
                final(labels)@[u],
            ) && settled(net.rules(), final(labels)@, u) && attained(
                net.rules(),
                sources,
                old(labels)@,
                final(labels)@,
                u,
            ),
        are_reached(old(labels)@, final(labels)@, nodes(reached@)),
        exists|run: Seq<Standing>| #[trigger]
            is_run(net.rules(), run) && run[0].labels == old(labels)@ && run[0].queue == old(
                queue,
            )@ && run.last().labels == final(labels)@ && run.last().reached == nodes(reached@),
{
    let ghost start = labels@;
    let mut reached: Vec<usize> = Vec::new();
    let ghost first = Standing { labels: labels@, queue: queue@, reached: nodes(reached@) };
    let ghost mut run: Seq<Standing> = seq![first];
    assert(nodes(reached@) =~= Seq::<int>::empty());
    proof {
        assert forall|u: int, k: int, key: i128|
            0 <= u < net.rules().size && 0 <= k < (net.rules().degree)(u) implies #[trigger]
        offer_in_range(net.rules(), u, k, key) by {
            net.offer_in_range(u, k, key);
        }
        assert forall|e: Entry<usize>| #[trigger] queue@.contains(e) implies entry_current(
            net.rules(),
            sources,
            labels@,
            e,
        ) by {
            let x = choose|x: Single|
                #[trigger] sources.contains((e.item as int, x)) && (net.rules().key_of)(x)
                    == e.key;
            lemma_source_earned(net.rules(), sources, e.item as int, x);
        }
    }
    loop
        invariant
            net.valid(),
            offers_in_range(net.rules()),
            net.rules().size <= usize::MAX,
            labels@.len() == net.rules().size,
            start == old(labels)@,
            queue.wf(),
            queue_current(net.rules(), sources, labels@, queue@),
            no_worse(net.rules(), start, labels@),
            first.labels == start,
            first.queue == old(queue)@,
            run[0] == first,
            is_run_so_far(
                net.rules(),
                run,
                Standing { labels: labels@, queue: queue@, reached: nodes(reached@) },
            ),
            are_reached(start, labels@, nodes(reached@)),
            forall|u: int|
                0 <= u < net.rules().size && (#[trigger] labels@[u]).finite() ==> earned(
                    net.rules(),
                    sources,
                    u,
                    labels@[u],
                ) && attained(
                    net.rules(),
                    sources,
                    start,
                    labels@,
                    u,
                ) && (queued(net.rules(), labels@, queue@, u) || settled(net.rules(), labels@, u)),
        ensures
            labels@.len() == net.rules().size,
            no_worse(net.rules(), start, labels@),
            queue@.len() == 0,
            run[0] == first,
            is_run_so_far(
                net.rules(),
                run,
                Standing { labels: labels@, queue: queue@, reached: nodes(reached@) },
            ),
            are_reached(start, labels@, nodes(reached@)),
            forall|u: int|
                0 <= u < net.rules().size && (#[trigger] labels@[u]).finite() ==> earned(
                    net.rules(),
                    sources,
                    u,
                    labels@[u],
                ) && settled(net.rules(), labels@, u) && attained(
                    net.rules(),
                    sources,
                    start,
                    labels@,
                    u,
                ),
        decreases total_left(net.rules().rises, labels@), queue@.len(),
    {
        let ghost queue0 = queue@;
        let ghost labels0 = labels@;
        broadcast use vstd::multiset::group_multiset_axioms;

        proof {
            lemma_total_nonneg(net.rules().rises, labels@);
        }
        let top = match queue.pop() {
            Some(e) => e,
            None => {
                assert(queue0.len() == 0);
                assert forall|u: int|
                    0 <= u < net.rules().size && (#[trigger] labels@[u]).finite() implies settled(
                    net.rules(),
                    labels@,
                    u,
                ) by {
                    if queued(net.rules(), labels@, queue0, u) {
                        let e = Entry { key: (net.rules().key_of)(labels@[u]), item: u as usize };
                        assert(queue0.count(e) > 0);
                    }
                }
                break;
            },
        };
        let u: usize = top.item;
        let key: i128 = top.key;
        let ghost s0 = Standing { labels: labels0, queue: queue0, reached: nodes(reached@) };
        let ghost taken_off = Standing { queue: queue@, ..s0 };
        assert(queue0.contains(top));
        assert forall|e: Entry<usize>| #[trigger] queue@.contains(e) implies queue0.contains(e) by {}
        assert forall|e: Entry<usize>| #[trigger] queue0.contains(e) && e != top implies queue@.contains(e) by {}
        if net.is_stale(labels[u], key) {
            assert forall|v: int| 0 <= v < net.rules().size && (#[trigger] labels@[v]).finite() implies (
            queued(net.rules(), labels@, queue@, v) || settled(net.rules(), labels@, v)) by {
                if queued(net.rules(), labels@, queue0, v) {
                    let e = Entry { key: (net.rules().key_of)(labels@[v]), item: v as usize };
                    if e == top {
                        assert(settled(net.rules(), labels@, v));
                    }
                }
            }
            proof {
                assert(after_entry(net.rules(), s0, top) == taken_off);
                lemma_run_on(net.rules(), run, s0, taken_off);
                run = run.push(taken_off);
            }
            continue;
        }
        assert(entry_current(net.rules(), sources, labels@, top));
        let ghost source_label = choose|x: Single|
            #[trigger] earned(net.rules(), sources, u as int, x) && (net.rules().key_of)(x) == key
                && current(net.rules(), sources, labels@, u as int, x);
        let degree: usize = net.degree(u);
        let mut k: usize = 0;
        let rises: bool = net.rises();
        while k < degree
            invariant
                net.valid(),
                offers_in_range(net.rules()),
                net.rules().size <= usize::MAX,
                rises == net.rules().rises,
                labels@.len() == net.rules().size,
                labels0.len() == net.rules().size,
                u < net.rules().size,
                degree == (net.rules().degree)(u as int),
                k <= degree,
                queue.wf(),
                queue_current(net.rules(), sources, labels@, queue@),
                no_worse(net.rules(), labels0, labels@),
                no_worse(net.rules(), start, labels@),
                earned(net.rules(), sources, u as int, source_label),
                current(net.rules(), sources, labels@, u as int, source_label),
                are_reached(start, labels@, nodes(reached@)),
                start.len() == net.rules().size,
                after_offers(net.rules(), taken_off, u as int, key, k as int) == (Standing {
                    labels: labels@,
                    queue: queue@,
                    reached: nodes(reached@),
                }),
                (net.rules().key_of)(source_label) == key,
                total_left(net.rules().rises, labels@) <= total_left(net.rules().rises, labels0),
                total_left(net.rules().rises, labels@) == total_left(net.rules().rises, labels0)
                    ==> queue@.len() < queue0.len(),
                forall|v: int|
                    0 <= v < net.rules().size && (#[trigger] labels@[v]).finite() ==> earned(
                        net.rules(),
                        sources,
                        v,
                        labels@[v],
                    ) && attained(net.rules(), sources, start, labels@, v),
                // Nodes other than the one at work are queued or settled.
                forall|v: int|
                    0 <= v < net.rules().size && (#[trigger] labels@[v]).finite() && !(v == u
                        && (net.rules().key_of)(labels@[v]) == key) ==> queued(net.rules(), labels@, queue@, v)
                        || settled(net.rules(), labels@, v),
                // The node at work has served its first `k` connections.
                labels@[u as int].finite() && (net.rules().key_of)(labels@[u as int]) == key ==> queued(
                    net.rules(),
                    labels@,
                    queue@,
                    u as int,
                ) || settled(net.rules(), labels@, u as int) || forall|j: int|
                    0 <= j < k ==> #[trigger] offer_settled(net.rules(), labels@, u as int, j),
            decreases degree - k,
        {
            let ghost labels1 = labels@;
            let ghost queue1 = queue@;
            let ghost reached1 = reached@;
            assert(offer_in_range(net.rules(), u as int, k as int, key));
            if let Some((v, a)) = net.offer(u, k, key) {
                if a.is_finite() {
                    let prev = labels[v];
                    let ahead: bool = if rises {
                        prev.lt(&a)
                    } else {
                        a.lt(&prev)
                    };
                    let taken: bool = if prev.is_finite() {
                        net.improves(a, prev) && ahead
                    } else {
                        net.is_open(prev)
                    };
                    if taken {
                        assert(wins(net.rules(), a, prev));
                        if !prev.is_finite() {
                            reached.push(v);
                        }
                        labels[v] = a;
                        queue.push(net.key_of(a), v);
                        proof {
                            lemma_total_update(net.rules().rises, labels1, v as int, a);
                            if !prev.finite() {
                                assert(nodes(reached@) =~= nodes(reached1).push(v as int));
                                lemma_reached_on(net.rules(), start, labels1, nodes(reached1), v as int, a);
                            } else {
                                lemma_still_reached(start, labels1, nodes(reached1), v as int, a);
                            }
                            assert((net.rules().offer)(u as int, k as int, (net.rules().key_of)(source_label))
                                == Some((v as int, a)));
                            lemma_earn(net.rules(), sources, (u as int, source_label), (v as int, a));
                            lemma_after_update(net.rules(), labels1, labels@, queue1, queue@, v, a);
                            lemma_attained_kept(
                                net.rules(),
                                sources,
                                start,
                                labels1,
                                labels@,
                                queue1,
                            );
                            lemma_current_kept(
                                net.rules(),
                                sources,
                                labels1,
                                labels@,
                                u as int,
                                source_label,
                            );
                            assert(attained(net.rules(), sources, start, labels@, v as int));
                            let e = Entry { key: (net.rules().key_of)(a), item: v };
                            assert(queue@.contains(e));
                            assert forall|e2: Entry<usize>| #[trigger]
                                queue@.contains(e2) implies e2 == e || queue1.contains(e2) by {}
                            assert(earned(net.rules(), sources, e.item as int, a) && current(
                                net.rules(),
                                sources,
                                labels@,
                                e.item as int,
                                a,
                            ));
                            assert(entry_current(net.rules(), sources, labels@, e));
                            assert(queued(net.rules(), labels@, queue@, v as int));
                            assert forall|w: int|
                                0 <= w < net.rules().size && (#[trigger] labels@[w]).finite() && !(w == u
                                    && (net.rules().key_of)(labels@[w]) == key) implies queued(
                                net.rules(),
                                labels@,
                                queue@,
                                w,
                            ) || settled(net.rules(), labels@, w) by {
                                if w != v {
                                    assert(labels@[w] == labels1[w]);
                                }
                            }
                            if labels@[u as int].finite() && (net.rules().key_of)(labels@[u as int]) == key
                                && u != v {
                                assert(labels@[u as int] == labels1[u as int]);
                                if forall|j: int|
                                    0 <= j < k ==> #[trigger] offer_settled(
                                        net.rules(),
                                        labels1,
                                        u as int,
                                        j,
                                    ) {
                                    assert forall|j: int| 0 <= j < k + 1 implies #[trigger]
                                    offer_settled(net.rules(), labels@, u as int, j) by {
                                        if j < k {
                                            assert(offer_settled(net.rules(), labels1, u as int, j));
                                        } else {
                                            lemma_taken_withstands(net.rules(), a);
                                        }
                                    }
                                }
                            }
                        }
                    } else {
                        proof {
                            assert(!wins(net.rules(), a, prev));
                            assert(withstands(net.rules(), labels@[v as int], a));
                        }
                    }
                }
            }
            proof {
                if labels@ == labels1 {
                    if labels@[u as int].finite() && (net.rules().key_of)(labels@[u as int]) == key {
                        assert(offer_settled(net.rules(), labels@, u as int, k as int));
                    }
                }
            }
            k = k + 1;
        }
        proof {
            lemma_total_nonneg(net.rules().rises, labels@);
            let now = Standing { labels: labels@, queue: queue@, reached: nodes(reached@) };
            assert(after_entry(net.rules(), s0, top) == now);
            lemma_run_on(net.rules(), run, s0, now);
            run = run.push(now);
        }
    }
    assert(is_run(net.rules(), run));
    reached
}

} // verus!
