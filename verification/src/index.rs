use crate::checkpoint::{
    checkpoint_bytes, load_step, node_fits, node_storable, nodes_bytes, parse_checkpoint,
    parse_nodes, put_node, read_node, storable, CheckpointError,
};
use crate::codec::{get_u32, put_u32};
use crate::keys::{enumerates, key_list};
use crate::vector::{distance_less, distance_rank, kernel_value, kernel_wf, less, rank, Metric};
use std::collections::HashMap;
use rand::Rng;
use std::collections::HashSet;
use vstd::prelude::*;

verus! {

broadcast use vstd::std_specs::hash::group_hash_axioms;

/// Highest level that a node is ever given, so that its layer count fits the
/// one-byte field of the checkpoint.
pub const MAX_LEVEL: usize = 254;

/// A vertex of the graph: an embedding and, per layer, the ids of its
/// neighbours, in the order in which they were linked.
#[derive(Debug, Clone)]
pub struct Node {
    pub id: u128,
    pub vector: Vec<u32>,
    pub connections: Vec<Vec<u128>>,
}

/// Mathematical value of a [`Node`].
pub struct NodeView {
    pub id: u128,
    pub vector: Seq<u32>,
    pub connections: Seq<Seq<u128>>,
}

/// The contents of adjacency layers.
pub open spec fn layers_view(layers: Seq<Vec<u128>>) -> Seq<Seq<u128>> {
    Seq::new(layers.len(), |i: int| layers[i]@)
}

/// The values of the nodes of an arena.
pub open spec fn arena_view(nodes: Map<u128, Node>) -> Map<u128, NodeView> {
    Map::new(|id: u128| nodes.contains_key(id), |id: u128| nodes[id]@)
}

impl View for Node {
    type V = NodeView;

    open spec fn view(&self) -> NodeView {
        NodeView { id: self.id, vector: self.vector@, connections: layers_view(self.connections@) }
    }
}

/// Mathematical value of an index: the arena of live nodes, the node from
/// which searches start, and that node's level when it was chosen.
pub struct GraphView {
    pub nodes: Map<u128, NodeView>,
    pub entry_point: Option<u128>,
    pub max_layer: nat,
}

/// Distance from a query to every live node.
pub open spec fn score_map<F: Fn(&Vec<u32>, &Vec<u32>) -> u32>(
    g: GraphView,
    f: F,
    q: Seq<u32>,
) -> Map<u128, u32> {
    Map::new(|id: u128| g.nodes.contains_key(id), |id: u128| kernel_value(f, q, g.nodes[id].vector))
}

/// Neighbours of `id` on layer `lc`; none if the node is gone or has no such
/// layer.
pub open spec fn neighbours(g: GraphView, id: u128, lc: nat) -> Seq<u128> {
    if g.nodes.contains_key(id) && lc < g.nodes[id].connections.len() {
        g.nodes[id].connections[lc as int]
    } else {
        Seq::empty()
    }
}

/// One pass over a neighbour list: the running best `(node, distance)` after
/// each live neighbour strictly nearer than the best so far has replaced it.
/// Ids of removed nodes are passed over.
pub open spec fn sweep(
    g: GraphView,
    s: Map<u128, u32>,
    nbrs: Seq<u128>,
    cur: u128,
    best: u32,
) -> (u128, u32)
    decreases nbrs.len(),
{
    if nbrs.len() == 0 {
        (cur, best)
    } else {
        let before = sweep(g, s, nbrs.drop_last(), cur, best);
        let n = nbrs.last();
        if g.nodes.contains_key(n) && less(s[n], before.1) {
            (n, s[n])
        } else {
            before
        }
    }
}

/// Greedy walk on one layer: sweep the neighbours of the current node, hop
/// to the best of them if it is nearer, and repeat until no hop is made.
pub open spec fn greedy(g: GraphView, s: Map<u128, u32>, lc: nat, cur: u128, best: u32) -> u128
    decreases rank(best),
{
    let after = sweep(g, s, neighbours(g, cur, lc), cur, best);
    if less(after.1, best) {
        greedy(g, s, lc, after.0, after.1)
    } else {
        cur
    }
}

/// Where a walk on layer `lc` that starts at `cur` ends; a node that is gone
/// or has no such layer is left where it is.
pub open spec fn walk_layer(g: GraphView, s: Map<u128, u32>, lc: nat, cur: u128) -> u128 {
    if g.nodes.contains_key(cur) && lc < g.nodes[cur].connections.len() {
        greedy(g, s, lc, cur, s[cur])
    } else {
        cur
    }
}

/// Zoom of a search: walks layers `lc`, `lc - 1`, .. 1 in turn, skipping a
/// layer that the current node does not have.
pub open spec fn zoom_search(g: GraphView, s: Map<u128, u32>, lc: nat, cur: u128) -> u128
    decreases lc,
{
    if lc == 0 {
        cur
    } else {
        zoom_search(g, s, (lc - 1) as nat, walk_layer(g, s, lc, cur))
    }
}

/// Zoom of an insertion: walks layers `lc`, `lc - 1`, .. `floor + 1` in
/// turn, and stops for good at a node that is gone or lacks the layer.
pub open spec fn zoom_insert(
    g: GraphView,
    s: Map<u128, u32>,
    lc: nat,
    floor: nat,
    cur: u128,
) -> u128
    decreases lc,
{
    if lc <= floor {
        cur
    } else if !(g.nodes.contains_key(cur) && lc < g.nodes[cur].connections.len()) {
        cur
    } else {
        zoom_insert(g, s, (lc - 1) as nat, floor, greedy(g, s, lc, cur, s[cur]))
    }
}

/// An edge of the base layer between two live nodes.
pub open spec fn base_edge(g: GraphView, a: u128, b: u128) -> bool {
    g.nodes.contains_key(a) && g.nodes.contains_key(b) && neighbours(g, a, 0).contains(b)
}

/// Whether a base-layer edge leads from entry `i` of `p` to the next.
pub open spec fn hop(g: GraphView, p: Seq<u128>, i: int) -> bool {
    base_edge(g, p[i], p[i + 1])
}

/// A walk along base-layer edges through live nodes.
pub open spec fn is_path(g: GraphView, p: Seq<u128>) -> bool {
    &&& p.len() > 0
    &&& g.nodes.contains_key(p[0])
    &&& forall|i: int| 0 <= i < p.len() - 1 ==> #[trigger] hop(g, p, i)
}

/// Whether `to` can be reached from `from` on the base layer without passing
/// through a removed node.
pub open spec fn reachable(g: GraphView, from: u128, to: u128) -> bool {
    exists|p: Seq<u128>| is_path(g, p) && #[trigger] p.first() == from && p.last() == to
}

/// Whether `id` is the node of one of the entries of `found`.
pub open spec fn listed(found: Seq<(u128, u32)>, id: u128) -> bool {
    exists|i: int| 0 <= i < found.len() && (#[trigger] found[i]).0 == id
}

/// Whether no node has two entries in `found`.
pub open spec fn distinct_ids(found: Seq<(u128, u32)>) -> bool {
    forall|i: int, j: int|
        0 <= i < j < found.len() ==> (#[trigger] found[i]).0 != (#[trigger] found[j]).0
}

/// Whether `all` lists, each exactly once and with its distance, the nodes
/// reachable from `start`.
pub open spec fn lists_reachable(
    all: Seq<(u128, u32)>,
    g: GraphView,
    s: Map<u128, u32>,
    start: u128,
) -> bool {
    &&& forall|i: int|
        0 <= i < all.len() ==> reachable(g, start, (#[trigger] all[i]).0) && all[i].1 == s[all[i].0]
    &&& distinct_ids(all)
    &&& forall|id: u128| reachable(g, start, id) ==> #[trigger] listed(all, id)
}

/// Whether distances never fall along `all`.
pub open spec fn ascending(all: Seq<(u128, u32)>) -> bool {
    forall|i: int, j: int|
        0 <= i <= j < all.len() ==> rank((#[trigger] all[i]).1) <= rank((#[trigger] all[j]).1)
}

/// The node at which the base-layer expansion of a search starts: none if
/// the index has no entry point or the entry point was removed.
pub open spec fn search_origin(g: GraphView, s: Map<u128, u32>) -> Option<u128> {
    match g.entry_point {
        None => None,
        Some(e) => if g.nodes.contains_key(e) {
            Some(zoom_search(g, s, g.max_layer, e))
        } else {
            None
        },
    }
}

/// Whether `r` holds the first `k` entries of `all`, and `all` lists what is
/// reachable from `start`, nearest first.
pub open spec fn is_ranked_prefix(
    r: Seq<(u128, u32)>,
    all: Seq<(u128, u32)>,
    g: GraphView,
    s: Map<u128, u32>,
    start: u128,
    k: nat,
) -> bool {
    &&& lists_reachable(all, g, s, start)
    &&& ascending(all)
    &&& r == all.take(if k <= all.len() { k as int } else { all.len() as int })
}

/// What a search for `k` neighbours may return: nothing without an origin;
/// else the first `k` entries of a listing, nearest first, of everything
/// reachable from the origin. Nodes at equal distance may come in any order.
pub open spec fn is_search_result(
    r: Seq<(u128, u32)>,
    g: GraphView,
    s: Map<u128, u32>,
    k: nat,
) -> bool {
    &&& search_origin(g, s) is None ==> r.len() == 0
    &&& search_origin(g, s) is Some ==> exists|all: Seq<(u128, u32)>|
        is_ranked_prefix(r, all, g, s, search_origin(g, s)->0, k)
}

// ---------------------------------------------------------------------
// Facts about walks
// ---------------------------------------------------------------------
/// A sweep ends on the node it started from or on a live one, and never
/// farther than it started.
pub proof fn lemma_sweep(g: GraphView, s: Map<u128, u32>, nbrs: Seq<u128>, cur: u128, best: u32)
    ensures
        ({
            let r = sweep(g, s, nbrs, cur, best);
            &&& (r == (cur, best) || (g.nodes.contains_key(r.0) && less(r.1, best) && r.1 == s[r.0]))
        }),
    decreases nbrs.len(),
{
    if nbrs.len() > 0 {
        lemma_sweep(g, s, nbrs.drop_last(), cur, best);
    }
}

/// A greedy walk that starts on a live node ends on a live node.
pub proof fn lemma_greedy_live(g: GraphView, s: Map<u128, u32>, lc: nat, cur: u128, best: u32)
    requires
        g.nodes.contains_key(cur),
    ensures
        g.nodes.contains_key(greedy(g, s, lc, cur, best)),
    decreases rank(best),
{
    let after = sweep(g, s, neighbours(g, cur, lc), cur, best);
    lemma_sweep(g, s, neighbours(g, cur, lc), cur, best);
    if less(after.1, best) {
        lemma_greedy_live(g, s, lc, after.0, after.1);
    }
}

/// The zoom of a search that starts on a live node ends on a live node.
pub proof fn lemma_zoom_search_live(g: GraphView, s: Map<u128, u32>, lc: nat, cur: u128)
    requires
        g.nodes.contains_key(cur),
    ensures
        g.nodes.contains_key(zoom_search(g, s, lc, cur)),
    decreases lc,
{
    if lc > 0 {
        if g.nodes.contains_key(cur) && lc < g.nodes[cur].connections.len() {
            lemma_greedy_live(g, s, lc, cur, s[cur]);
        }
        lemma_zoom_search_live(g, s, (lc - 1) as nat, walk_layer(g, s, lc, cur));
    }
}

/// A search result has at most `k` entries.
pub proof fn lemma_search_result_bounded(r: Seq<(u128, u32)>, g: GraphView, s: Map<u128, u32>, k: nat)
    requires
        is_search_result(r, g, s, k),
    ensures
        r.len() <= k,
{
    if search_origin(g, s) is Some {
        let all = choose|all: Seq<(u128, u32)>|
            is_ranked_prefix(r, all, g, s, search_origin(g, s)->0, k);
        assert(is_ranked_prefix(r, all, g, s, search_origin(g, s)->0, k));
    }
}

/// Tolerance of removals: whatever was removed from the graph, a search
/// finds nothing if the entry point is gone, and else, asked for at least
/// one neighbour, finds at least one; and it only ever returns live nodes,
/// each once, nearest first.
pub proof fn law_search_tolerates_removals(
    r: Seq<(u128, u32)>,
    g: GraphView,
    s: Map<u128, u32>,
    k: nat,
)
    requires
        is_search_result(r, g, s, k),
    ensures
        g.entry_point is None ==> r.len() == 0,
        g.entry_point is Some && !g.nodes.contains_key(g.entry_point->0) ==> r.len() == 0,
        g.entry_point is Some && g.nodes.contains_key(g.entry_point->0) && k > 0 ==> r.len() > 0,
        forall|i: int| 0 <= i < r.len() ==> g.nodes.contains_key((#[trigger] r[i]).0),
        distinct_ids(r),
        ascending(r),
{
    if search_origin(g, s) is Some {
        let start = search_origin(g, s)->0;
        let all = choose|all: Seq<(u128, u32)>| is_ranked_prefix(r, all, g, s, start, k);
        assert(is_ranked_prefix(r, all, g, s, start, k));
        lemma_zoom_search_live(g, s, g.max_layer, g.entry_point->0);
        lemma_reach_self(g, start);
        assert(listed(all, start));
        assert forall|i: int| 0 <= i < r.len() implies g.nodes.contains_key((#[trigger] r[i]).0) by {
            assert(r[i] == all[i]);
            lemma_reachable_live(g, start, all[i].0);
        }
        assert forall|i: int, j: int| 0 <= i < j < r.len() implies (#[trigger] r[i]).0 != (
        #[trigger] r[j]).0 by {
            assert(r[i] == all[i] && r[j] == all[j]);
        }
        assert forall|i: int, j: int| 0 <= i <= j < r.len() implies rank((#[trigger] r[i]).1) <= rank(
            (#[trigger] r[j]).1,
        ) by {
            assert(r[i] == all[i] && r[j] == all[j]);
        }
    }
}

/// What is reachable from a live node is live.
pub proof fn lemma_reachable_live(g: GraphView, from: u128, to: u128)
    requires
        reachable(g, from, to),
    ensures
        g.nodes.contains_key(to),
{
    let p = choose|p: Seq<u128>| is_path(g, p) && #[trigger] p.first() == from && p.last() == to;
    if p.len() > 1 {
        assert(hop(g, p, p.len() - 2));
    }
}

// ---------------------------------------------------------------------
// Facts about the base-layer expansion
// ---------------------------------------------------------------------
/// Whether every live base-layer neighbour of `u` has an entry in `found`.
pub open spec fn settled(g: GraphView, found: Seq<(u128, u32)>, u: u128) -> bool {
    forall|v: u128| #[trigger] base_edge(g, u, v) ==> listed(found, v)
}

/// State of an expansion: `found` holds the live nodes met so far, `stack`
/// those whose neighbours are still to be looked at, `visited` every id met,
/// and `busy` the node whose neighbours are being looked at.
pub open spec fn frontier_inv(
    g: GraphView,
    s: Map<u128, u32>,
    start: u128,
    found: Seq<(u128, u32)>,
    stack: Seq<u128>,
    visited: Set<u128>,
    busy: Option<u128>,
) -> bool {
    &&& found.len() >= 1
    &&& found[0].0 == start
    &&& forall|i: int|
        0 <= i < found.len() ==> {
            &&& g.nodes.contains_key((#[trigger] found[i]).0)
            &&& reachable(g, start, found[i].0)
            &&& found[i].1 == s[found[i].0]
            &&& visited.contains(found[i].0)
        }
    &&& distinct_ids(found)
    &&& forall|id: u128|
        visited.contains(id) && g.nodes.contains_key(id) ==> #[trigger] listed(found, id)
    &&& forall|i: int| 0 <= i < stack.len() ==> listed(found, #[trigger] stack[i])
    &&& forall|i: int|
        0 <= i < found.len() ==> stack.contains((#[trigger] found[i]).0) || busy == Some(found[i].0)
            || settled(g, found, found[i].0)
    &&& found.len() <= g.nodes.dom().len()
}

/// A live node reaches itself.
pub proof fn lemma_reach_self(g: GraphView, a: u128)
    requires
        g.nodes.contains_key(a),
    ensures
        reachable(g, a, a),
{
    let p = seq![a];
    assert(is_path(g, p));
    assert(p.first() == a && p.last() == a);
}

/// What reaches `u` reaches the live base-layer neighbours of `u`.
pub proof fn lemma_reach_step(g: GraphView, a: u128, u: u128, v: u128)
    requires
        reachable(g, a, u),
        base_edge(g, u, v),
    ensures
        reachable(g, a, v),
{
    let p = choose|p: Seq<u128>| is_path(g, p) && #[trigger] p.first() == a && p.last() == u;
    let q = p.push(v);
    assert forall|i: int| 0 <= i < q.len() - 1 implies #[trigger] hop(g, q, i) by {
        if i < p.len() - 1 {
            assert(q[i] == p[i]);
            assert(q[i + 1] == p[i + 1]);
            assert(hop(g, p, i));
        } else {
            assert(q[i] == u);
            assert(q[i + 1] == v);
        }
    }
    assert(q[0] == p[0]);
    assert(is_path(g, q));
    assert(q.first() == a && q.last() == v);
}

/// More distinct live nodes than the arena holds cannot be listed.
proof fn lemma_room(found: Seq<(u128, u32)>, dom: Set<u128>, v: u128)
    requires
        dom.finite(),
        distinct_ids(found),
        forall|i: int| 0 <= i < found.len() ==> dom.contains((#[trigger] found[i]).0),
        dom.contains(v),
        !listed(found, v),
    ensures
        found.len() + 1 <= dom.len(),
{
    let ids = Seq::new(found.len(), |i: int| found[i].0);
    assert forall|i: int, j: int| 0 <= i < ids.len() && 0 <= j < ids.len() && i != j implies ids[i]
        != ids[j] by {
        if i < j {
            assert(found[i].0 != found[j].0);
        } else {
            assert(found[j].0 != found[i].0);
        }
    }
    assert(ids.no_duplicates());
    ids.unique_seq_to_set();
    let t = ids.to_set().insert(v);
    assert(!ids.to_set().contains(v)) by {
        if ids.to_set().contains(v) {
            let i = choose|i: int| 0 <= i < ids.len() && ids[i] == v;
            assert(found[i].0 == v);
        }
    }
    assert(t.subset_of(dom)) by {
        assert forall|x: u128| t.contains(x) implies dom.contains(x) by {
            if x != v {
                let i = choose|i: int| 0 <= i < ids.len() && ids[i] == x;
                assert(found[i].0 == x);
            }
        }
    }
    vstd::set_lib::lemma_len_subset(t, dom);
}

proof fn lemma_frontier_init(g: GraphView, s: Map<u128, u32>, start: u128, d0: u32)
    requires
        g.nodes.dom().finite(),
        g.nodes.contains_key(start),
        d0 == s[start],
    ensures
        frontier_inv(
            g,
            s,
            start,
            seq![(start, d0)],
            seq![start],
            Set::<u128>::empty().insert(start),
            None,
        ),
{
    let found = seq![(start, d0)];
    let stack = seq![start];
    lemma_reach_self(g, start);
    lemma_room(Seq::<(u128, u32)>::empty(), g.nodes.dom(), start);
    assert(found[0].0 == start);
    assert(listed(found, start));
    assert(stack[0] == start);
    assert(stack.contains(start));
}

proof fn lemma_frontier_pop(
    g: GraphView,
    s: Map<u128, u32>,
    start: u128,
    found: Seq<(u128, u32)>,
    stack: Seq<u128>,
    visited: Set<u128>,
)
    requires
        frontier_inv(g, s, start, found, stack, visited, None),
        stack.len() > 0,
    ensures
        frontier_inv(g, s, start, found, stack.drop_last(), visited, Some(stack.last())),
        listed(found, stack.last()),
{
    let rest = stack.drop_last();
    let u = stack.last();
    assert forall|i: int| 0 <= i < rest.len() implies listed(found, #[trigger] rest[i]) by {
        assert(rest[i] == stack[i]);
    }
    assert forall|i: int| 0 <= i < found.len() implies rest.contains((#[trigger] found[i]).0)
        || Some(u) == Some(found[i].0) || settled(g, found, found[i].0) by {
        if stack.contains(found[i].0) {
            let k = choose|k: int| 0 <= k < stack.len() && stack[k] == found[i].0;
            if k < rest.len() {
                assert(rest[k] == found[i].0);
            }
        }
    }
    assert(stack[stack.len() - 1] == u);
}

proof fn lemma_frontier_skip(
    g: GraphView,
    s: Map<u128, u32>,
    start: u128,
    found: Seq<(u128, u32)>,
    stack: Seq<u128>,
    visited: Set<u128>,
    busy: Option<u128>,
    v: u128,
)
    requires
        frontier_inv(g, s, start, found, stack, visited, busy),
        !g.nodes.contains_key(v),
    ensures
        frontier_inv(g, s, start, found, stack, visited.insert(v), busy),
{
}

proof fn lemma_frontier_push(
    g: GraphView,
    s: Map<u128, u32>,
    start: u128,
    found: Seq<(u128, u32)>,
    stack: Seq<u128>,
    visited: Set<u128>,
    u: u128,
    v: u128,
    dv: u32,
)
    requires
        g.nodes.dom().finite(),
        frontier_inv(g, s, start, found, stack, visited, Some(u)),
        listed(found, u),
        base_edge(g, u, v),
        !visited.contains(v),
        dv == s[v],
    ensures
        frontier_inv(
            g,
            s,
            start,
            found.push((v, dv)),
            stack.push(v),
            visited.insert(v),
            Some(u),
        ),
        listed(found.push((v, dv)), u),
        forall|id: u128| listed(found, id) ==> listed(found.push((v, dv)), id),
        listed(found.push((v, dv)), v),
{
    let found2 = found.push((v, dv));
    let stack2 = stack.push(v);
    let visited2 = visited.insert(v);
    assert forall|id: u128| listed(found, id) implies listed(found2, id) by {
        let k = choose|k: int| 0 <= k < found.len() && (#[trigger] found[k]).0 == id;
        assert(found2[k].0 == id);
    }
    assert(found2[found.len() as int].0 == v);
    assert(listed(found2, v));
    let ku = choose|k: int| 0 <= k < found.len() && (#[trigger] found[k]).0 == u;
    lemma_reach_step(g, start, u, v);
    assert(!listed(found, v)) by {
        if listed(found, v) {
            let k = choose|k: int| 0 <= k < found.len() && (#[trigger] found[k]).0 == v;
            assert(visited.contains(found[k].0));
        }
    }
    lemma_room(found, g.nodes.dom(), v);
    assert forall|i: int| 0 <= i < found2.len() implies {
        &&& g.nodes.contains_key((#[trigger] found2[i]).0)
        &&& reachable(g, start, found2[i].0)
        &&& found2[i].1 == s[found2[i].0]
        &&& visited2.contains(found2[i].0)
    } by {
        if i < found.len() {
            assert(found2[i] == found[i]);
        }
    }
    assert(distinct_ids(found2)) by {
        assert forall|i: int, j: int| 0 <= i < j < found2.len() implies (#[trigger] found2[i]).0 != (
        #[trigger] found2[j]).0 by {
            if j < found.len() {
                assert(found2[i] == found[i] && found2[j] == found[j]);
            } else {
                assert(found2[i] == found[i]);
            }
        }
    }
    assert forall|id: u128|
        visited2.contains(id) && g.nodes.contains_key(id) implies #[trigger] listed(found2, id) by {
        if id != v {
            assert(visited.contains(id));
            assert(listed(found, id));
        }
    }
    assert forall|i: int| 0 <= i < stack2.len() implies listed(found2, #[trigger] stack2[i]) by {
        if i < stack.len() {
            assert(stack2[i] == stack[i]);
        }
    }
    assert forall|i: int| 0 <= i < found2.len() implies stack2.contains((#[trigger] found2[i]).0)
        || Some(u) == Some(found2[i].0) || settled(g, found2, found2[i].0) by {
        if i < found.len() {
            assert(found2[i] == found[i]);
            if stack.contains(found[i].0) {
                let k = choose|k: int| 0 <= k < stack.len() && stack[k] == found[i].0;
                assert(stack2[k] == found[i].0);
            } else if Some(u) != Some(found[i].0) {
                assert(settled(g, found, found[i].0));
                assert forall|w: u128| #[trigger] base_edge(g, found[i].0, w) implies listed(
                    found2,
                    w,
                ) by {
                    assert(listed(found, w));
                }
            }
        } else {
            assert(stack2[stack.len() as int] == v);
        }
    }
    assert(found2[0] == found[0]);
}

proof fn lemma_frontier_done(
    g: GraphView,
    s: Map<u128, u32>,
    start: u128,
    found: Seq<(u128, u32)>,
    stack: Seq<u128>,
    visited: Set<u128>,
    u: u128,
)
    requires
        frontier_inv(g, s, start, found, stack, visited, Some(u)),
        settled(g, found, u),
    ensures
        frontier_inv(g, s, start, found, stack, visited, None),
{
}

proof fn lemma_path_listed(g: GraphView, found: Seq<(u128, u32)>, p: Seq<u128>, i: int)
    requires
        is_path(g, p),
        listed(found, p[0]),
        forall|k: int| 0 <= k < found.len() ==> settled(g, found, (#[trigger] found[k]).0),
        0 <= i < p.len(),
    ensures
        listed(found, p[i]),
    decreases i,
{
    if i > 0 {
        lemma_path_listed(g, found, p, i - 1);
        let k = choose|k: int| 0 <= k < found.len() && (#[trigger] found[k]).0 == p[i - 1];
        assert(settled(g, found, found[k].0));
        assert(hop(g, p, i - 1));
        assert(base_edge(g, p[i - 1], p[i]));
    }
}

proof fn lemma_frontier_complete(
    g: GraphView,
    s: Map<u128, u32>,
    start: u128,
    found: Seq<(u128, u32)>,
    visited: Set<u128>,
)
    requires
        frontier_inv(g, s, start, found, Seq::<u128>::empty(), visited, None),
    ensures
        lists_reachable(found, g, s, start),
{
    let none = Seq::<u128>::empty();
    assert forall|k: int| 0 <= k < found.len() implies settled(g, found, (#[trigger] found[k]).0) by {
        assert(!none.contains(found[k].0));
    }
    assert(listed(found, start));
    assert forall|id: u128| reachable(g, start, id) implies #[trigger] listed(found, id) by {
        let p = choose|p: Seq<u128>| is_path(g, p) && #[trigger] p.first() == start && p.last() == id;
        lemma_path_listed(g, found, p, p.len() - 1);
    }
}

/// Whether `x` is one of the first `n` entries of `found`.
pub open spec fn among(found: Seq<(u128, u32)>, n: int, x: (u128, u32)) -> bool {
    exists|a: int| 0 <= a < n && a < found.len() && #[trigger] found[a] == x
}

/// Whether index `p` occurs in `idx`.
pub open spec fn named(idx: Seq<int>, p: int) -> bool {
    exists|t: int| 0 <= t < idx.len() && #[trigger] idx[t] == p
}

/// Whether `x` is one of the first `n` entries of `idx`.
pub open spec fn drawn(idx: Seq<int>, n: int, x: int) -> bool {
    exists|p: int| 0 <= p < n && p < idx.len() && #[trigger] idx[p] == x
}

/// Whether `out` arranges the entries `lo..hi` of `v`: entry `t` of `out` is
/// entry `idx[t]` of `v`, and `idx` names every index of the range once.
pub open spec fn arranges(
    out: Seq<(u128, u32)>,
    v: Seq<(u128, u32)>,
    lo: int,
    hi: int,
    idx: Seq<int>,
) -> bool {
    &&& out.len() == hi - lo
    &&& idx.len() == out.len()
    &&& forall|t: int| 0 <= t < idx.len() ==> lo <= #[trigger] idx[t] < hi && out[t] == v[idx[t]]
    &&& forall|t: int, u: int| 0 <= t < u < idx.len() ==> #[trigger] idx[t] != #[trigger] idx[u]
    &&& forall|p: int| lo <= p < hi ==> #[trigger] named(idx, p)
}

/// Whether no entry of `out` is farther than entry `i` of `a`, if there is
/// one.
pub open spec fn none_beyond(out: Seq<(u128, u32)>, a: Seq<(u128, u32)>, i: int) -> bool {
    0 <= i < a.len() ==> forall|t: int| 0 <= t < out.len() ==> rank((#[trigger] out[t]).1) <= rank(a[i].1)
}

/// Merges two runs that are ordered by distance into one. Of two entries at
/// equal distance the one of the first run comes first.
fn merge_runs(
    a: &Vec<(u128, u32)>,
    b: &Vec<(u128, u32)>,
    Ghost(v): Ghost<Seq<(u128, u32)>>,
    Ghost(lo): Ghost<int>,
    Ghost(mid): Ghost<int>,
    Ghost(hi): Ghost<int>,
    Ghost(ia): Ghost<Seq<int>>,
    Ghost(ib): Ghost<Seq<int>>,
) -> (r: (Vec<(u128, u32)>, Ghost<Seq<int>>))
    requires
        lo <= mid <= hi,
        ascending(a@),
        ascending(b@),
        arranges(a@, v, lo, mid, ia),
        arranges(b@, v, mid, hi, ib),
    ensures
        ascending(r.0@),
        arranges(r.0@, v, lo, hi, r.1@),
{
    let mut out: Vec<(u128, u32)> = Vec::new();
    let ghost mut idx: Seq<int> = Seq::empty();
    let mut i: usize = 0;
    let mut j: usize = 0;
    while i < a.len() || j < b.len()
        invariant
            lo <= mid <= hi,
            ascending(a@),
            ascending(b@),
            arranges(a@, v, lo, mid, ia),
            arranges(b@, v, mid, hi, ib),
            i <= a@.len(),
            j <= b@.len(),
            out@.len() == i + j,
            idx.len() == i + j,
            ascending(out@),
            none_beyond(out@, a@, i as int),
            none_beyond(out@, b@, j as int),
            forall|t: int| 0 <= t < idx.len() ==> lo <= #[trigger] idx[t] < hi && out@[t] == v[idx[t]],
            forall|t: int|
                0 <= t < idx.len() ==> drawn(ia, i as int, #[trigger] idx[t]) || drawn(
                    ib,
                    j as int,
                    idx[t],
                ),
            forall|t: int, u: int| 0 <= t < u < idx.len() ==> #[trigger] idx[t] != #[trigger] idx[u],
            forall|p: int| 0 <= p < i ==> named(idx, #[trigger] ia[p]),
            forall|q: int| 0 <= q < j ==> named(idx, #[trigger] ib[q]),
        decreases (a@.len() - i) + (b@.len() - j),
    {
        let from_first: bool = if i < a.len() {
            if j < b.len() {
                distance_rank(a[i].1) <= distance_rank(b[j].1)
            } else {
                true
            }
        } else {
            false
        };
        let ghost out0 = out@;
        let ghost idx0 = idx;
        if from_first {
            let x: (u128, u32) = a[i];
            out.push(x);
            proof {
                let fresh = ia[i as int];
                idx = idx.push(fresh);
                assert(lo <= fresh < mid && x == v[fresh]);
                assert forall|t: int| 0 <= t < idx0.len() implies idx0[t] != fresh by {
                    if drawn(ia, i as int, idx0[t]) {
                        let p = choose|p: int| 0 <= p < i && p < ia.len() && #[trigger] ia[p] == idx0[t];
                        assert(ia[p] != ia[i as int]);
                    } else {
                        let q = choose|q: int| 0 <= q < j && q < ib.len() && #[trigger] ib[q] == idx0[t];
                        assert(mid <= ib[q]);
                    }
                }
                assert forall|t: int| 0 <= t < idx.len() implies drawn(ia, i + 1, #[trigger] idx[t])
                    || drawn(ib, j as int, idx[t]) by {
                    if t < idx0.len() {
                        assert(idx[t] == idx0[t]);
                        if drawn(ia, i as int, idx0[t]) {
                            let p = choose|p: int|
                                0 <= p < i && p < ia.len() && #[trigger] ia[p] == idx0[t];
                            assert(ia[p] == idx[t]);
                        }
                    } else {
                        assert(ia[i as int] == idx[t]);
                    }
                }
                assert forall|p: int| 0 <= p < i + 1 implies named(idx, #[trigger] ia[p]) by {
                    if p < i {
                        let t = choose|t: int| 0 <= t < idx0.len() && #[trigger] idx0[t] == ia[p];
                        assert(idx[t] == ia[p]);
                    } else {
                        assert(idx[idx0.len() as int] == ia[p]);
                    }
                }
                assert forall|q: int| 0 <= q < j implies named(idx, #[trigger] ib[q]) by {
                    let t = choose|t: int| 0 <= t < idx0.len() && #[trigger] idx0[t] == ib[q];
                    assert(idx[t] == ib[q]);
                }
                assert forall|t: int, u: int| 0 <= t <= u < out@.len() implies rank(
                    (#[trigger] out@[t]).1,
                ) <= rank((#[trigger] out@[u]).1) by {
                    if u < out0.len() {
                        assert(out@[t] == out0[t] && out@[u] == out0[u]);
                    } else if t < out0.len() {
                        assert(out@[t] == out0[t]);
                        assert(rank(out0[t].1) <= rank(a@[i as int].1));
                    }
                }
                assert(none_beyond(out@, a@, i + 1)) by {
                    if i + 1 < a@.len() {
                        assert(rank(a@[i as int].1) <= rank(a@[i + 1].1));
                        assert forall|t: int| 0 <= t < out@.len() implies rank((#[trigger] out@[t]).1)
                            <= rank(a@[i + 1].1) by {
                            if t < out0.len() {
                                assert(out@[t] == out0[t]);
                                assert(rank(out0[t].1) <= rank(a@[i as int].1));
                            }
                        }
                    }
                }
                assert(none_beyond(out@, b@, j as int)) by {
                    if j < b@.len() {
                        assert forall|t: int| 0 <= t < out@.len() implies rank((#[trigger] out@[t]).1)
                            <= rank(b@[j as int].1) by {
                            if t < out0.len() {
                                assert(out@[t] == out0[t]);
                                assert(rank(out0[t].1) <= rank(b@[j as int].1));
                            }
                        }
                    }
                }
            }
            i += 1;
        } else {
            let x: (u128, u32) = b[j];
            out.push(x);
            proof {
                let fresh = ib[j as int];
                idx = idx.push(fresh);
                assert(mid <= fresh < hi && x == v[fresh]);
                assert forall|t: int| 0 <= t < idx0.len() implies idx0[t] != fresh by {
                    if drawn(ib, j as int, idx0[t]) {
                        let q = choose|q: int| 0 <= q < j && q < ib.len() && #[trigger] ib[q] == idx0[t];
                        assert(ib[q] != ib[j as int]);
                    } else {
                        let p = choose|p: int| 0 <= p < i && p < ia.len() && #[trigger] ia[p] == idx0[t];
                        assert(ia[p] < mid);
                    }
                }
                assert forall|t: int| 0 <= t < idx.len() implies drawn(ia, i as int, #[trigger] idx[t])
                    || drawn(ib, j + 1, idx[t]) by {
                    if t < idx0.len() {
                        assert(idx[t] == idx0[t]);
                        if !drawn(ia, i as int, idx0[t]) {
                            let q = choose|q: int|
                                0 <= q < j && q < ib.len() && #[trigger] ib[q] == idx0[t];
                            assert(ib[q] == idx[t]);
                        }
                    } else {
                        assert(ib[j as int] == idx[t]);
                    }
                }
                assert forall|q: int| 0 <= q < j + 1 implies named(idx, #[trigger] ib[q]) by {
                    if q < j {
                        let t = choose|t: int| 0 <= t < idx0.len() && #[trigger] idx0[t] == ib[q];
                        assert(idx[t] == ib[q]);
                    } else {
                        assert(idx[idx0.len() as int] == ib[q]);
                    }
                }
                assert forall|p: int| 0 <= p < i implies named(idx, #[trigger] ia[p]) by {
                    let t = choose|t: int| 0 <= t < idx0.len() && #[trigger] idx0[t] == ia[p];
                    assert(idx[t] == ia[p]);
                }
                assert forall|t: int, u: int| 0 <= t <= u < out@.len() implies rank(
                    (#[trigger] out@[t]).1,
                ) <= rank((#[trigger] out@[u]).1) by {
                    if u < out0.len() {
                        assert(out@[t] == out0[t] && out@[u] == out0[u]);
                    } else if t < out0.len() {
                        assert(out@[t] == out0[t]);
                        assert(rank(out0[t].1) <= rank(b@[j as int].1));
                    }
                }
                assert(none_beyond(out@, b@, j + 1)) by {
                    if j + 1 < b@.len() {
                        assert(rank(b@[j as int].1) <= rank(b@[j + 1].1));
                        assert forall|t: int| 0 <= t < out@.len() implies rank((#[trigger] out@[t]).1)
                            <= rank(b@[j + 1].1) by {
                            if t < out0.len() {
                                assert(out@[t] == out0[t]);
                                assert(rank(out0[t].1) <= rank(b@[j as int].1));
                            }
                        }
                    }
                }
                assert(none_beyond(out@, a@, i as int)) by {
                    if i < a@.len() {
                        assert forall|t: int| 0 <= t < out@.len() implies rank((#[trigger] out@[t]).1)
                            <= rank(a@[i as int].1) by {
                            if t < out0.len() {
                                assert(out@[t] == out0[t]);
                                assert(rank(out0[t].1) <= rank(a@[i as int].1));
                            }
                        }
                    }
                }
            }
            j += 1;
        }
    }
    proof {
        assert forall|p: int| lo <= p < hi implies #[trigger] named(idx, p) by {
            if p < mid {
                assert(named(ia, p));
                let t = choose|t: int| 0 <= t < ia.len() && #[trigger] ia[t] == p;
                assert(named(idx, ia[t]));
            } else {
                assert(named(ib, p));
                let t = choose|t: int| 0 <= t < ib.len() && #[trigger] ib[t] == p;
                assert(named(idx, ib[t]));
            }
        }
    }
    (out, Ghost(idx))
}

/// Orders the entries `lo..hi` of `v` by distance, nearest first, by
/// ordering each half and merging the two.
fn sort_range(v: &Vec<(u128, u32)>, lo: usize, hi: usize) -> (r: (Vec<(u128, u32)>, Ghost<Seq<int>>))
    requires
        lo <= hi <= v@.len(),
    ensures
        ascending(r.0@),
        arranges(r.0@, v@, lo as int, hi as int, r.1@),
    decreases hi - lo,
{
    if hi - lo == 0 {
        return (Vec::new(), Ghost(Seq::empty()));
    }
    if hi - lo == 1 {
        let mut one: Vec<(u128, u32)> = Vec::new();
        one.push(v[lo]);
        let ghost idx: Seq<int> = seq![lo as int];
        proof {
            assert(idx[0] == lo);
            assert forall|p: int| lo <= p < hi implies #[trigger] named(idx, p) by {
                assert(idx[0] == p);
            }
        }
        return (one, Ghost(idx));
    }
    let mid: usize = lo + (hi - lo) / 2;
    let (a, Ghost(ia)) = sort_range(v, lo, mid);
    let (b, Ghost(ib)) = sort_range(v, mid, hi);
    merge_runs(&a, &b, Ghost(v@), Ghost(lo as int), Ghost(mid as int), Ghost(hi as int), Ghost(ia), Ghost(ib))
}

/// Orders `found` by distance, nearest first; entries at equal distance keep
/// their order.
fn sort_by_distance(found: &Vec<(u128, u32)>) -> (all: Vec<(u128, u32)>)
    requires
        distinct_ids(found@),
    ensures
        ascending(all@),
        distinct_ids(all@),
        all@.len() == found@.len(),
        forall|i: int| 0 <= i < all@.len() ==> #[trigger] among(found@, found@.len() as int, all@[i]),
        forall|i: int|
            0 <= i < found@.len() ==> #[trigger] among(all@, all@.len() as int, found@[i]),
{
    let (all, Ghost(idx)) = sort_range(found, 0, found.len());
    proof {
        let n = found@.len() as int;
        assert forall|i: int| 0 <= i < all@.len() implies #[trigger] among(found@, n, all@[i]) by {
            assert(0 <= idx[i] < n && all@[i] == found@[idx[i]]);
        }
        assert forall|i: int| 0 <= i < found@.len() implies #[trigger] among(
            all@,
            all@.len() as int,
            found@[i],
        ) by {
            assert(named(idx, i));
            let t = choose|t: int| 0 <= t < idx.len() && #[trigger] idx[t] == i;
            assert(all@[t] == found@[idx[t]]);
        }
        assert forall|i: int, j: int| 0 <= i < j < all@.len() implies (#[trigger] all@[i]).0 != (
        #[trigger] all@[j]).0 by {
            assert(idx[i] != idx[j]);
            assert(all@[i] == found@[idx[i]] && all@[j] == found@[idx[j]]);
            if idx[i] < idx[j] {
                assert(found@[idx[i]].0 != found@[idx[j]].0);
            } else {
                assert(found@[idx[j]].0 != found@[idx[i]].0);
            }
        }
    }
    all
}

/// A listing of what is reachable stays one when its entries are reordered.
proof fn lemma_listing_reordered(
    found: Seq<(u128, u32)>,
    full: Seq<(u128, u32)>,
    g: GraphView,
    s: Map<u128, u32>,
    start: u128,
)
    requires
        lists_reachable(found, g, s, start),
        distinct_ids(full),
        forall|i: int| 0 <= i < full.len() ==> #[trigger] among(found, found.len() as int, full[i]),
        forall|i: int| 0 <= i < found.len() ==> #[trigger] among(full, full.len() as int, found[i]),
    ensures
        lists_reachable(full, g, s, start),
{
    assert forall|i: int| 0 <= i < full.len() implies reachable(g, start, (#[trigger] full[i]).0)
        && full[i].1 == s[full[i].0] by {
        assert(among(found, found.len() as int, full[i]));
        let a = choose|a: int| 0 <= a < found.len() && #[trigger] found[a] == full[i];
        assert(reachable(g, start, found[a].0));
    }
    assert forall|id: u128| reachable(g, start, id) implies #[trigger] listed(full, id) by {
        assert(listed(found, id));
        let a = choose|a: int| 0 <= a < found.len() && (#[trigger] found[a]).0 == id;
        assert(among(full, full.len() as int, found[a]));
        let b = choose|b: int| 0 <= b < full.len() && #[trigger] full[b] == found[a];
        assert(full[b].0 == id);
    }
}

// ---------------------------------------------------------------------
// Insertion
// ---------------------------------------------------------------------
/// The node that an insertion creates: `level + 1` layers, each of the
/// lowest `top + 1` holding the peer alone, the others empty.
pub open spec fn fresh_node(
    id: u128,
    vector: Seq<u32>,
    level: nat,
    peer: Option<u128>,
    top: nat,
) -> NodeView {
    NodeView {
        id,
        vector,
        connections: Seq::new(
            level + 1,
            |lc: int|
                if peer is Some && lc <= top {
                    seq![peer->0]
                } else {
                    Seq::<u128>::empty()
                },
        ),
    }
}

/// A peer after `id` was linked to it on its layers up to `top`: the id is
/// added at the end of a layer unless the layer would then hold more than
/// `m_max` neighbours.
pub open spec fn linked_peer(peer: NodeView, id: u128, top: nat, m_max: nat) -> NodeView {
    NodeView {
        id: peer.id,
        vector: peer.vector,
        connections: Seq::new(
            peer.connections.len(),
            |lc: int|
                if lc <= top && peer.connections[lc].len() + 1 <= m_max {
                    peer.connections[lc].push(id)
                } else {
                    peer.connections[lc]
                },
        ),
    }
}

/// The graph after `id` is inserted with the given level, `s` being the
/// distances from its embedding to the nodes of `g`.
///
/// Into a graph without entry point the node goes unlinked and becomes the
/// entry point. Otherwise the zoom from the entry point picks one peer; the
/// node and the peer are linked to each other on every layer up to the lower
/// of `level` and the entry point's level; and a node whose level exceeds
/// that of the entry point becomes the entry point. A node stored under
/// `id` before is replaced.
pub open spec fn insert_result(
    g: GraphView,
    s: Map<u128, u32>,
    id: u128,
    vector: Seq<u32>,
    level: nat,
    m_max: nat,
) -> GraphView {
    match g.entry_point {
        None => GraphView {
            nodes: g.nodes.insert(id, fresh_node(id, vector, level, None, 0)),
            entry_point: Some(id),
            max_layer: level,
        },
        Some(e) => {
            let peer = zoom_insert(g, s, g.max_layer, level, e);
            let top = if level <= g.max_layer {
                level
            } else {
                g.max_layer
            };
            let linked = if g.nodes.contains_key(peer) {
                g.nodes.insert(peer, linked_peer(g.nodes[peer], id, top, m_max))
            } else {
                g.nodes
            };
            GraphView {
                nodes: linked.insert(id, fresh_node(id, vector, level, Some(peer), top)),
                entry_point: if level > g.max_layer {
                    Some(id)
                } else {
                    g.entry_point
                },
                max_layer: if level > g.max_layer {
                    level
                } else {
                    g.max_layer
                },
            }
        },
    }
}

/// Whether every node of the graph is stored under its own id.
pub open spec fn own_ids(g: GraphView) -> bool {
    forall|k: u128| g.nodes.contains_key(k) ==> (#[trigger] g.nodes[k]).id == k
}

/// An insertion keeps every node under its own id.
pub proof fn lemma_insert_own_ids(
    g: GraphView,
    s: Map<u128, u32>,
    id: u128,
    vector: Seq<u32>,
    level: nat,
    m_max: nat,
)
    requires
        own_ids(g),
    ensures
        own_ids(insert_result(g, s, id, vector, level, m_max)),
{
    let out = insert_result(g, s, id, vector, level, m_max);
    assert forall|k: u128| out.nodes.contains_key(k) implies (#[trigger] out.nodes[k]).id == k by {
        if k != id {
            assert(g.nodes.contains_key(k));
            assert(g.nodes[k].id == k);
        }
    }
}

/// An insertion adds the inserted id to the live nodes and removes none.
pub proof fn lemma_insert_dom(
    g: GraphView,
    s: Map<u128, u32>,
    id: u128,
    vector: Seq<u32>,
    level: nat,
    m_max: nat,
)
    ensures
        insert_result(g, s, id, vector, level, m_max).nodes.dom() == g.nodes.dom().insert(id),
        insert_result(g, s, id, vector, level, m_max).nodes[id].vector == vector,
{
    assert(insert_result(g, s, id, vector, level, m_max).nodes.dom() =~= g.nodes.dom().insert(id));
}

/// `rand::Rng::gen::<bool>` on the thread-local generator: a fair coin.
/// Nothing is promised about the outcome.
#[verifier::external_body]
fn coin_flip() -> bool {
    rand::thread_rng().gen::<bool>()
}

/// Draws a level: the number of heads before the first tail, capped at
/// [`MAX_LEVEL`].
pub fn select_level() -> (level: usize)
    ensures
        level <= MAX_LEVEL,
{
    let mut level: usize = 0;
    let mut climbing: bool = true;
    while climbing && level < MAX_LEVEL
        invariant
            level <= MAX_LEVEL,
        decreases
                (MAX_LEVEL - level) + (if climbing {
                    1int
                } else {
                    0int
                }),
    {
        match level_after(level, coin_flip()) {
            Some(next) => {
                level = next;
            },
            None => {
                climbing = false;
            },
        }
    }
    level
}

/// Where a draw that stands at `level` goes on a flip: one level up on
/// heads, unless the cap is reached; nowhere on tails, which ends the draw.
pub fn level_after(level: usize, heads: bool) -> (next: Option<usize>)
    ensures
        next == (if heads && level < MAX_LEVEL {
            Some((level + 1) as usize)
        } else {
            None
        }),
{
    if heads && level < MAX_LEVEL {
        Some(level + 1)
    } else {
        None
    }
}

// ---------------------------------------------------------------------
// The index
// ---------------------------------------------------------------------
/// A layered proximity graph over embeddings.
///
/// `F` is the distance kernel: it maps two embeddings to the bit pattern of
/// their distance. Removal leaves dangling edges behind; every walk passes
/// over them.
pub struct HnswIndex<F: Fn(&Vec<u32>, &Vec<u32>) -> u32> {
    nodes: HashMap<u128, Node>,
    entry_point: Option<u128>,
    max_layer: usize,
    m_max: usize,
    _ef_construction: usize,
    metric: Metric,
    kernel: F,
}

impl<F: Fn(&Vec<u32>, &Vec<u32>) -> u32> View for HnswIndex<F> {
    type V = GraphView;

    open spec fn view(&self) -> GraphView {
        self.shape()
    }
}

impl<F: Fn(&Vec<u32>, &Vec<u32>) -> u32> HnswIndex<F> {
    /// The graph: live nodes, entry point, and the entry point's level.
    pub closed spec fn shape(&self) -> GraphView {
        GraphView {
            nodes: arena_view(self.nodes@),
            entry_point: self.entry_point,
            max_layer: self.max_layer as nat,
        }
    }

    /// The distance kernel.
    pub closed spec fn kernel(&self) -> F {
        self.kernel
    }

    /// Most neighbours that a node keeps per layer when others link to it.
    pub closed spec fn fan_out(&self) -> nat {
        self.m_max as nat
    }

    /// Breadth that the index was configured with for construction.
    pub closed spec fn breadth(&self) -> nat {
        self._ef_construction as nat
    }

    /// The metric that the kernel computes.
    pub closed spec fn metric_of(&self) -> Metric {
        self.metric
    }

    /// The index is usable when its kernel is well formed and every node is
    /// stored under its own id.
    pub open spec fn wf(&self) -> bool {
        kernel_wf(self.kernel()) && own_ids(self.shape())
    }

    /// Distance from `q` to every live node.
    pub open spec fn scores(&self, q: Seq<u32>) -> Map<u128, u32> {
        score_map(self.shape(), self.kernel(), q)
    }

    /// An empty index around `kernel`, which computes cosine distance.
    pub fn new(m_max: usize, ef: usize, kernel: F) -> (idx: Self)
        ensures
            idx.shape().nodes == Map::<u128, NodeView>::empty(),
            idx.shape().entry_point is None,
            idx.shape().max_layer == 0,
            idx.kernel() == kernel,
            idx.fan_out() == m_max,
            idx.breadth() == ef,
            idx.metric_of() == Metric::Cosine,
            kernel_wf(kernel) ==> idx.wf(),
    {
        let idx = HnswIndex {
            nodes: HashMap::new(),
            entry_point: None,
            max_layer: 0,
            m_max,
            _ef_construction: ef,
            metric: Metric::Cosine,
            kernel,
        };
        assert(idx.shape().nodes =~= Map::<u128, NodeView>::empty());
        idx
    }

    /// Forgets every node and the entry point.
    pub fn clear(&mut self)
        ensures
            final(self).shape().nodes == Map::<u128, NodeView>::empty(),
            final(self).shape().entry_point is None,
            final(self).shape().max_layer == 0,
            final(self).kernel() == old(self).kernel(),
            final(self).fan_out() == old(self).fan_out(),
            final(self).breadth() == old(self).breadth(),
            final(self).metric_of() == old(self).metric_of(),
            old(self).wf() ==> final(self).wf(),
    {
        self.nodes.clear();
        self.entry_point = None;
        self.max_layer = 0;
        assert(self.shape().nodes =~= Map::<u128, NodeView>::empty());
    }

    /// Drops the node `id`. Edges that point to it stay, and so do the entry
    /// point and its level, even when `id` is the entry point.
    pub fn remove(&mut self, id: u128)
        ensures
            final(self).shape().nodes == old(self).shape().nodes.remove(id),
            final(self).shape().entry_point == old(self).shape().entry_point,
            final(self).shape().max_layer == old(self).shape().max_layer,
            final(self).kernel() == old(self).kernel(),
            final(self).fan_out() == old(self).fan_out(),
            final(self).breadth() == old(self).breadth(),
            final(self).metric_of() == old(self).metric_of(),
            old(self).wf() ==> final(self).wf(),
    {
        self.nodes.remove(&id);
        assert(self.shape().nodes =~= old(self).shape().nodes.remove(id));
    }

    /// Number of live nodes.
    pub fn len(&self) -> (n: usize)
        ensures
            n == self.shape().nodes.dom().len(),
    {
        proof {
            assert(self.shape().nodes.dom() =~= self.nodes@.dom());
        }
        self.nodes.len()
    }

    /// Whether `id` is a live node.
    pub fn contains(&self, id: u128) -> (r: bool)
        ensures
            r == self.shape().nodes.contains_key(id),
    {
        self.nodes.contains_key(&id)
    }

    /// The entry point, live or not.
    pub fn entry_point(&self) -> (r: Option<u128>)
        ensures
            r == self.shape().entry_point,
    {
        self.entry_point
    }

    /// Level of the entry point when it was chosen.
    pub fn max_layer(&self) -> (r: usize)
        ensures
            r == self.shape().max_layer,
    {
        self.max_layer
    }

    /// The metric that the kernel computes.
    pub fn metric(&self) -> (r: Metric)
        ensures
            r == self.metric_of(),
    {
        self.metric
    }

    /// The node `id`, if it is live.
    pub fn node(&self, id: u128) -> (r: Option<&Node>)
        ensures
            r is Some <==> self.shape().nodes.contains_key(id),
            r is Some ==> r->0@ == self.shape().nodes[id],
    {
        self.nodes.get(&id)
    }

    /// Writing and reading agree: where the counts of the graph fit their
    /// fields and every embedding has the dimension that the checkpoint is
    /// laid out for, a checkpoint of this index, whatever the order of its
    /// nodes and whatever follows it, reads as a graph with the same nodes.
    pub proof fn law_save_then_load(&self, order: Seq<u128>, more: Seq<u8>)
        requires
            self.wf(),
            storable(self.shape()),
            enumerates(order, self.shape().nodes.dom()),
            forall|k: u128|
                self.shape().nodes.contains_key(k) ==> (#[trigger] self.shape().nodes[k]).vector.len()
                    == 128,
        ensures
            parse_checkpoint(checkpoint_bytes(self.shape(), order) + more) is Some,
            parse_checkpoint(checkpoint_bytes(self.shape(), order) + more)->0.nodes
                == self.shape().nodes,
    {
        let g = self.shape();
        order.unique_seq_to_set();
        assert(order.to_set() =~= g.nodes.dom());
        crate::checkpoint::law_checkpoint_round_trip(g, order, more);
    }

    /// Distance from `query` to a stored embedding.
    fn score(&self, query: &Vec<u32>, stored: &Vec<u32>) -> (d: u32)
        requires
            self.wf(),
        ensures
            d == kernel_value(self.kernel(), query@, stored@),
    {
        (self.kernel)(query, stored)
    }

    fn sweep_layer(&self, query: &Vec<u32>, nbrs: &Vec<u128>, cur: u128, best: u32) -> (r: (
        u128,
        u32,
    ))
        requires
            self.wf(),
        ensures
            r == sweep(self.shape(), self.scores(query@), nbrs@, cur, best),
    {
        let ghost g = self.shape();
        let ghost s = self.scores(query@);
        let mut c: u128 = cur;
        let mut b: u32 = best;
        let mut i: usize = 0;
        while i < nbrs.len()
            invariant
                self.wf(),
                g == self.shape(),
                s == self.scores(query@),
                i <= nbrs.len(),
                (c, b) == sweep(g, s, nbrs@.subrange(0, i as int), cur, best),
            decreases nbrs.len() - i,
        {
            let n: u128 = nbrs[i];
            proof {
                assert(nbrs@.subrange(0, i + 1).drop_last() =~= nbrs@.subrange(0, i as int));
                assert(nbrs@.subrange(0, i + 1).last() == n);
            }
            match self.nodes.get(&n) {
                Some(node) => {
                    let d: u32 = self.score(query, &node.vector);
                    if distance_less(d, b) {
                        b = d;
                        c = n;
                    }
                },
                None => {},
            }
            i += 1;
        }
        proof {
            assert(nbrs@.subrange(0, i as int) =~= nbrs@);
        }
        (c, b)
    }

    fn climb(&self, query: &Vec<u32>, lc: usize, cur: u128, best: u32) -> (r: u128)
        requires
            self.wf(),
        ensures
            r == greedy(self.shape(), self.scores(query@), lc as nat, cur, best),
    {
        let ghost g = self.shape();
        let ghost s = self.scores(query@);
        let mut c: u128 = cur;
        let mut b: u32 = best;
        let mut done: bool = false;
        while !done
            invariant
                self.wf(),
                g == self.shape(),
                s == self.scores(query@),
                greedy(g, s, lc as nat, c, b) == greedy(g, s, lc as nat, cur, best),
                done ==> greedy(g, s, lc as nat, c, b) == c,
            decreases (if done { 0int } else { 1 + rank(b) }),
        {
            let mut next: (u128, u32) = (c, b);
            match self.nodes.get(&c) {
                Some(node) => {
                    if lc < node.connections.len() {
                        next = self.sweep_layer(query, &node.connections[lc], c, b);
                    }
                },
                None => {},
            }
            assert(next == sweep(g, s, neighbours(g, c, lc as nat), c, b));
            if distance_less(next.1, b) {
                c = next.0;
                b = next.1;
            } else {
                done = true;
            }
        }
        c
    }

    /// One layer of a zoom.
    fn walk(&self, query: &Vec<u32>, lc: usize, cur: u128) -> (r: u128)
        requires
            self.wf(),
        ensures
            r == walk_layer(self.shape(), self.scores(query@), lc as nat, cur),
    {
        match self.nodes.get(&cur) {
            Some(node) => {
                if lc < node.connections.len() {
                    let d: u32 = self.score(query, &node.vector);
                    self.climb(query, lc, cur, d)
                } else {
                    cur
                }
            },
            None => cur,
        }
    }

    fn zoom_for_search(&self, query: &Vec<u32>, entry: u128) -> (r: u128)
        requires
            self.wf(),
        ensures
            r == zoom_search(self.shape(), self.scores(query@), self.shape().max_layer, entry),
    {
        let ghost g = self.shape();
        let ghost s = self.scores(query@);
        let mut cur: u128 = entry;
        let mut lc: usize = self.max_layer;
        while lc > 0
            invariant
                self.wf(),
                g == self.shape(),
                s == self.scores(query@),
                zoom_search(g, s, lc as nat, cur) == zoom_search(g, s, g.max_layer, entry),
            decreases lc,
        {
            cur = self.walk(query, lc, cur);
            lc -= 1;
        }
        cur
    }

    /// Every node reachable from `start` on the base layer, with its
    /// distance, in the order in which the expansion met them.
    fn expand(&self, query: &Vec<u32>, start: u128) -> (found: Vec<(u128, u32)>)
        requires
            self.wf(),
            self.shape().nodes.contains_key(start),
        ensures
            lists_reachable(found@, self.shape(), self.scores(query@), start),
    {
        let ghost g = self.shape();
        let ghost s = self.scores(query@);
        let mut found: Vec<(u128, u32)> = Vec::new();
        let mut stack: Vec<u128> = Vec::new();
        let mut visited: HashSet<u128> = HashSet::new();
        proof {
            assert(g.nodes.dom() =~= self.nodes@.dom());
        }
        match self.nodes.get(&start) {
            Some(n) => {
                let d0: u32 = self.score(query, &n.vector);
                found.push((start, d0));
                proof {
                    lemma_frontier_init(g, s, start, d0);
                    assert(found@ =~= seq![(start, d0)]);
                }
            },
            None => {
                return found;
            },
        }
        stack.push(start);
        visited.insert(start);
        proof {
            assert(stack@ =~= seq![start]);
            assert(visited@ =~= Set::<u128>::empty().insert(start));
        }
        while stack.len() > 0
            invariant
                self.wf(),
                g == self.shape(),
                s == self.scores(query@),
                g.nodes.dom().finite(),
                frontier_inv(g, s, start, found@, stack@, visited@, None),
            decreases g.nodes.dom().len() - found@.len() + stack@.len(),
        {
            proof {
                lemma_frontier_pop(g, s, start, found@, stack@, visited@);
            }
            let ghost full = stack@;
            let u: u128 = stack.pop().unwrap();
            assert(stack@ =~= full.drop_last());
            let ghost found0 = found@.len();
            let ghost stack0 = stack@.len();
            match self.nodes.get(&u) {
                Some(un) => {
                    if un.connections.len() > 0 {
                        let nbrs: &Vec<u128> = &un.connections[0];
                        assert(nbrs@ == neighbours(g, u, 0));
                        let mut j: usize = 0;
                        while j < nbrs.len()
                            invariant
                                self.wf(),
                                g == self.shape(),
                                s == self.scores(query@),
                                g.nodes.dom().finite(),
                                g.nodes.contains_key(u),
                                nbrs@ == neighbours(g, u, 0),
                                j <= nbrs.len(),
                                frontier_inv(g, s, start, found@, stack@, visited@, Some(u)),
                                listed(found@, u),
                                forall|t: int|
                                    0 <= t < j && g.nodes.contains_key(#[trigger] nbrs@[t]) ==> listed(
                                        found@,
                                        nbrs@[t],
                                    ),
                                found@.len() - stack@.len() == found0 - stack0,
                            decreases nbrs.len() - j,
                        {
                            let v: u128 = nbrs[j];
                            if !visited.contains(&v) {
                                let ghost seen = visited@;
                                visited.insert(v);
                                match self.nodes.get(&v) {
                                    Some(t) => {
                                        let dv: u32 = self.score(query, &t.vector);
                                        proof {
                                            assert(nbrs@.contains(v));
                                            lemma_frontier_push(
                                                g,
                                                s,
                                                start,
                                                found@,
                                                stack@,
                                                seen,
                                                u,
                                                v,
                                                dv,
                                            );
                                        }
                                        stack.push(v);
                                        found.push((v, dv));
                                    },
                                    None => {
                                        proof {
                                            lemma_frontier_skip(
                                                g,
                                                s,
                                                start,
                                                found@,
                                                stack@,
                                                seen,
                                                Some(u),
                                                v,
                                            );
                                        }
                                    },
                                }
                            }
                            j += 1;
                        }
                        proof {
                            assert forall|v: u128| #[trigger] base_edge(g, u, v) implies listed(
                                found@,
                                v,
                            ) by {
                                let t = choose|t: int| 0 <= t < nbrs@.len() && nbrs@[t] == v;
                                assert(g.nodes.contains_key(nbrs@[t]));
                            }
                        }
                    }
                },
                None => {},
            }
            proof {
                assert(settled(g, found@, u)) by {
                    assert forall|v: u128| #[trigger] base_edge(g, u, v) implies listed(found@, v) by {
                        if !(g.nodes.contains_key(u) && 0 < g.nodes[u].connections.len()) {
                            assert(neighbours(g, u, 0) =~= Seq::<u128>::empty());
                        }
                    }
                }
                lemma_frontier_done(g, s, start, found@, stack@, visited@, u);
            }
        }
        proof {
            assert(stack@ =~= Seq::<u128>::empty());
            lemma_frontier_complete(g, s, start, found@, visited@);
        }
        found
    }

    /// The `k` nearest of the nodes that the search reaches, nearest first,
    /// each with its distance to `query`.
    ///
    /// The search zooms in from the entry point through the upper layers and
    /// then visits everything that the base layer connects to the node it
    /// arrived at. It returns nothing when the index is empty or its entry
    /// point was removed.
    pub fn search(&self, query: &Vec<u32>, k: usize) -> (r: Vec<(u128, u32)>)
        requires
            self.wf(),
        ensures
            is_search_result(r@, self.shape(), self.scores(query@), k as nat),
    {
        let ghost g = self.shape();
        let ghost s = self.scores(query@);
        let entry: u128 = match self.entry_point {
            None => {
                return Vec::new();
            },
            Some(e) => e,
        };
        if !self.nodes.contains_key(&entry) {
            return Vec::new();
        }
        let start: u128 = self.zoom_for_search(query, entry);
        proof {
            lemma_zoom_search_live(g, s, g.max_layer, entry);
        }
        let found: Vec<(u128, u32)> = self.expand(query, start);
        let mut all: Vec<(u128, u32)> = sort_by_distance(&found);
        let ghost full = all@;
        proof {
            lemma_listing_reordered(found@, full, g, s, start);
        }
        all.truncate(k);
        proof {
            let n = if k <= full.len() { k as int } else { full.len() as int };
            assert(all@ =~= full.take(n));
            assert(is_ranked_prefix(all@, full, g, s, search_origin(g, s)->0, k as nat));
        }
        all
    }

    fn zoom_for_insert(&self, query: &Vec<u32>, entry: u128, floor: usize) -> (r: u128)
        requires
            self.wf(),
        ensures
            r == zoom_insert(self.shape(), self.scores(query@), self.shape().max_layer, floor as nat, entry),
    {
        let ghost g = self.shape();
        let ghost s = self.scores(query@);
        let mut cur: u128 = entry;
        let mut lc: usize = self.max_layer;
        let mut stop: bool = false;
        while lc > floor && !stop
            invariant
                self.wf(),
                g == self.shape(),
                s == self.scores(query@),
                zoom_insert(g, s, lc as nat, floor as nat, cur) == zoom_insert(
                    g,
                    s,
                    g.max_layer,
                    floor as nat,
                    entry,
                ),
                stop ==> zoom_insert(g, s, lc as nat, floor as nat, cur) == cur,
            decreases 2 * lc + (if stop { 0int } else { 1int }),
        {
            let mut next: Option<u128> = None;
            match self.nodes.get(&cur) {
                Some(node) => {
                    if lc < node.connections.len() {
                        let d: u32 = self.score(query, &node.vector);
                        next = Some(self.climb(query, lc, cur, d));
                    }
                },
                None => {},
            }
            match next {
                Some(n) => {
                    cur = n;
                    lc -= 1;
                },
                None => {
                    stop = true;
                },
            }
        }
        cur
    }

    /// Inserts `id` with its embedding at the given level.
    pub fn insert_at_level(&mut self, id: u128, vector: Vec<u32>, level: usize)
        requires
            old(self).wf(),
            level < usize::MAX,
        ensures
            final(self).shape() == insert_result(
                old(self).shape(),
                old(self).scores(vector@),
                id,
                vector@,
                level as nat,
                old(self).fan_out(),
            ),
            final(self).kernel() == old(self).kernel(),
            final(self).fan_out() == old(self).fan_out(),
            final(self).breadth() == old(self).breadth(),
            final(self).metric_of() == old(self).metric_of(),
            final(self).wf(),
    {
        let ghost g = self.shape();
        let ghost s = self.scores(vector@);
        let ghost want = insert_result(g, s, id, vector@, level as nat, self.m_max as nat);
        proof {
            lemma_insert_own_ids(g, s, id, vector@, level as nat, self.m_max as nat);
        }
        match self.entry_point {
            None => {
                let mut conns: Vec<Vec<u128>> = Vec::new();
                let mut lc: usize = 0;
                while lc <= level
                    invariant
                        lc <= level + 1,
                        level < usize::MAX,
                        conns@.len() == lc,
                        forall|t: int| 0 <= t < lc ==> (#[trigger] conns@[t])@ == Seq::<u128>::empty(),
                    decreases level + 1 - lc,
                {
                    conns.push(Vec::new());
                    lc += 1;
                }
                let node = Node { id, vector, connections: conns };
                proof {
                    assert(node@.connections =~= fresh_node(
                        id,
                        vector@,
                        level as nat,
                        None,
                        0,
                    ).connections);
                }
                self.entry_point = Some(id);
                self.max_layer = level;
                self.nodes.insert(id, node);
                proof {
                    assert(self.shape().nodes =~= want.nodes);
                }
            },
            Some(e) => {
                let peer: u128 = self.zoom_for_insert(&vector, e, level);
                let top: usize = if level <= self.max_layer {
                    level
                } else {
                    self.max_layer
                };
                let mut conns: Vec<Vec<u128>> = Vec::new();
                let mut lc: usize = 0;
                while lc <= level
                    invariant
                        lc <= level + 1,
                        level < usize::MAX,
                        conns@.len() == lc,
                        forall|t: int|
                            0 <= t < lc ==> (#[trigger] conns@[t])@ == (if t <= top {
                                seq![peer]
                            } else {
                                Seq::<u128>::empty()
                            }),
                    decreases level + 1 - lc,
                {
                    let mut layer: Vec<u128> = Vec::new();
                    if lc <= top {
                        layer.push(peer);
                        assert(layer@ =~= seq![peer]);
                    }
                    conns.push(layer);
                    lc += 1;
                }
                let node = Node { id, vector, connections: conns };
                proof {
                    assert(node@.connections =~= fresh_node(
                        id,
                        vector@,
                        level as nat,
                        Some(peer),
                        top as nat,
                    ).connections);
                }
                let m_max: usize = self.m_max;
                match self.nodes.remove(&peer) {
                    Some(pn) => {
                        let ghost was = pn@;
                        let count: usize = pn.connections.len();
                        let mut relinked: Vec<Vec<u128>> = Vec::new();
                        let mut pl: usize = 0;
                        while pl < count
                            invariant
                                pl <= count,
                                count == pn.connections@.len(),
                                was == pn@,
                                relinked@.len() == pl,
                                forall|t: int|
                                    0 <= t < pl ==> (#[trigger] relinked@[t])@ == linked_peer(
                                        was,
                                        id,
                                        top as nat,
                                        m_max as nat,
                                    ).connections[t],
                            decreases count - pl,
                        {
                            let mut layer: Vec<u128> = pn.connections[pl].clone();
                            if pl <= top && layer.len() < m_max {
                                layer.push(id);
                            }
                            relinked.push(layer);
                            pl += 1;
                        }
                        let linked = Node { id: pn.id, vector: pn.vector, connections: relinked };
                        proof {
                            assert(linked@.connections =~= linked_peer(
                                was,
                                id,
                                top as nat,
                                m_max as nat,
                            ).connections);
                            assert(linked@ == linked_peer(was, id, top as nat, m_max as nat));
                        }
                        self.nodes.insert(peer, linked);
                    },
                    None => {},
                }
                if level > self.max_layer {
                    self.max_layer = level;
                    self.entry_point = Some(id);
                }
                self.nodes.insert(id, node);
                proof {
                    assert(self.shape().nodes =~= want.nodes);
                }
            },
        }
    }

    /// Inserts `id` with its embedding at a level drawn by [`select_level`].
    pub fn insert(&mut self, id: u128, vector: Vec<u32>)
        requires
            old(self).wf(),
        ensures
            final(self).wf(),
            exists|level: nat|
                level <= MAX_LEVEL && #[trigger] insert_result(
                    old(self).shape(),
                    old(self).scores(vector@),
                    id,
                    vector@,
                    level,
                    old(self).fan_out(),
                ) == final(self).shape(),
            final(self).kernel() == old(self).kernel(),
            final(self).fan_out() == old(self).fan_out(),
            final(self).breadth() == old(self).breadth(),
            final(self).metric_of() == old(self).metric_of(),
    {
        let level: usize = select_level();
        let ghost v = vector@;
        self.insert_at_level(id, vector, level);
        proof {
            assert(insert_result(old(self).shape(), old(self).scores(v), id, v, level as nat, old(self).fan_out())
                == self.shape());
        }
    }

    /// Writes a checkpoint of the graph: the node count, then every node in
    /// the order in which the arena yields them.
    ///
    /// Fails exactly when a count does not fit its field: more than
    /// 4,294,967,295 nodes or neighbours in a layer, or more than 255 layers
    /// in a node.
    pub fn save(&self) -> (r: Result<Vec<u8>, CheckpointError>)
        ensures
            r is Ok <==> storable(self.shape()),
            r is Ok ==> exists|order: Seq<u128>|
                enumerates(order, self.shape().nodes.dom()) && #[trigger] checkpoint_bytes(self.shape(), order)
                    == r->Ok_0@,
            r is Err ==> r->Err_0 == CheckpointError::TooLarge,
    {
        let ghost g = self.shape();
        proof {
            assert(g.nodes.dom() =~= self.nodes@.dom());
        }
        let keys: Vec<u128> = key_list(&self.nodes);
        if keys.len() as u64 > 0xffff_ffff {
            return Err(CheckpointError::TooLarge);
        }
        let mut out: Vec<u8> = Vec::new();
        put_u32(&mut out, keys.len() as u32);
        let ghost head = out@;
        let mut i: usize = 0;
        while i < keys.len()
            invariant
                i <= keys.len(),
                g == self.shape(),
                enumerates(keys@, g.nodes.dom()),
                out@ == head + nodes_bytes(g, keys@.subrange(0, i as int)),
                forall|j: int| 0 <= j < i ==> node_storable(g.nodes[#[trigger] keys@[j]]),
            decreases keys.len() - i,
        {
            let k: u128 = keys[i];
            assert(keys@.contains(k));
            match self.nodes.get(&k) {
                Some(n) => {
                    assert(g.nodes[k] == n@);
                    if !node_fits(n) {
                        assert(!storable(g));
                        return Err(CheckpointError::TooLarge);
                    }
                    put_node(&mut out, n);
                    proof {
                        assert(keys@.subrange(0, i + 1).drop_last() =~= keys@.subrange(0, i as int));
                        assert(keys@.subrange(0, i + 1).last() == k);
                        assert(out@ =~= head + nodes_bytes(g, keys@.subrange(0, i + 1)));
                    }
                },
                None => {
                    return Err(CheckpointError::TooLarge);
                },
            }
            i += 1;
        }
        proof {
            assert(keys@.subrange(0, i as int) =~= keys@);
            assert forall|id: u128| g.nodes.contains_key(id) implies node_storable(
                #[trigger] g.nodes[id],
            ) by {
                assert(keys@.contains(id));
                let j = choose|j: int| 0 <= j < keys@.len() && keys@[j] == id;
                assert(node_storable(g.nodes[keys@[j]]));
            }
            assert(checkpoint_bytes(g, keys@) == out@);
        }
        Ok(out)
    }

    /// Reads a checkpoint into an index around `kernel`.
    ///
    /// Fails exactly when the bytes end before the checkpoint does.
    pub fn load(bytes: &[u8], m_max: usize, ef: usize, kernel: F) -> (r: Result<
        Self,
        CheckpointError,
    >)
        ensures
            r is Ok <==> parse_checkpoint(bytes@) is Some,
            r is Ok ==> {
                &&& r->Ok_0.shape() == parse_checkpoint(bytes@)->0
                &&& r->Ok_0.kernel() == kernel
                &&& r->Ok_0.fan_out() == m_max
                &&& r->Ok_0.breadth() == ef
                &&& r->Ok_0.metric_of() == Metric::Cosine
                &&& kernel_wf(kernel) ==> r->Ok_0.wf()
            },
            r is Err ==> r->Err_0 == CheckpointError::Truncated,
    {
        let len: usize = bytes.len();
        if len < 4 {
            return Err(CheckpointError::Truncated);
        }
        let count: u32 = get_u32(bytes, 0);
        let mut nodes: HashMap<u128, Node> = HashMap::new();
        let mut max_l: usize = 0;
        let mut ep: Option<u128> = None;
        let mut pos: usize = 4;
        let mut i: u32 = 0;
        let ghost goal = parse_checkpoint(bytes@);
        proof {
            assert(arena_view(nodes@) =~= Map::<u128, NodeView>::empty());
        }
        while i < count
            invariant
                i <= count,
                len == bytes@.len(),
                len >= 4,
                pos <= len,
                count == vstd::bytes::spec_u32_from_le_bytes(bytes@.subrange(0, 4)),
                goal == parse_checkpoint(bytes@),
                forall|k: u128| nodes@.contains_key(k) ==> (#[trigger] nodes@[k]).id == k,
                parse_nodes(
                    bytes@,
                    pos as int,
                    (count - i) as nat,
                    GraphView { nodes: arena_view(nodes@), entry_point: ep, max_layer: max_l as nat },
                ) == goal,
            decreases count - i,
        {
            let ghost before = GraphView {
                nodes: arena_view(nodes@),
                entry_point: ep,
                max_layer: max_l as nat,
            };
            match read_node(bytes, pos) {
                None => {
                    assert(parse_nodes(bytes@, pos as int, (count - i) as nat, before) is None);
                    return Err(CheckpointError::Truncated);
                },
                Some((node, next)) => {
                    let layer_count: usize = node.connections.len();
                    let id: u128 = node.id;
                    if layer_count > 0 {
                        let level: usize = layer_count - 1;
                        if level > max_l || ep.is_none() {
                            max_l = level;
                            ep = Some(id);
                        }
                    }
                    let ghost nv = node@;
                    let ghost was = nodes@;
                    nodes.insert(id, node);
                    proof {
                        assert(arena_view(nodes@) =~= arena_view(was).insert(id, nv));
                        assert(GraphView {
                            nodes: arena_view(nodes@),
                            entry_point: ep,
                            max_layer: max_l as nat,
                        } == load_step(before, nv));
                    }
                    pos = next;
                },
            }
            i += 1;
        }
        Ok(
            HnswIndex {
                nodes,
                entry_point: ep,
                max_layer: max_l,
                m_max,
                _ef_construction: ef,
                metric: Metric::Cosine,
                kernel,
            },
        )
    }
}

} // verus!
