use crate::codec::{bytes_to_words, get_u128, get_u32, get_words, put_u128, put_u32, put_words, words_to_bytes};
use crate::index::{layers_view, GraphView, Node, NodeView};
use vstd::bytes::{spec_u128_from_le_bytes, spec_u128_to_le_bytes, spec_u32_from_le_bytes, spec_u32_to_le_bytes};
use vstd::prelude::*;

verus! {

/// Bytes of a stored node before its layers: id (16), the embedding
/// (4 per component), and the layer count (1).
pub const NODE_HEAD: usize = 529;

/// Why a checkpoint could not be written or read.
#[derive(Debug, Clone, Copy, PartialEq, Eq, Structural)]
pub enum CheckpointError {
    /// A count does not fit its field.
    TooLarge,
    /// The bytes end before the checkpoint does.
    Truncated,
}

// ---------------------------------------------------------------------
// Writing
// ---------------------------------------------------------------------
/// The little-endian bytes of a list of ids, sixteen per id.
pub open spec fn ids_bytes(ids: Seq<u128>) -> Seq<u8>
    decreases ids.len(),
{
    if ids.len() == 0 {
        Seq::empty()
    } else {
        ids_bytes(ids.drop_last()) + spec_u128_to_le_bytes(ids.last())
    }
}

/// The stored form of adjacency layers: per layer the neighbour count
/// (4 bytes) and the neighbours.
pub open spec fn layers_bytes(layers: Seq<Seq<u128>>) -> Seq<u8>
    decreases layers.len(),
{
    if layers.len() == 0 {
        Seq::empty()
    } else {
        layers_bytes(layers.drop_last()) + spec_u32_to_le_bytes(layers.last().len() as u32)
            + ids_bytes(layers.last())
    }
}

/// The stored form of a node: id, embedding, layer count (1 byte), layers.
pub open spec fn node_bytes(n: NodeView) -> Seq<u8> {
    spec_u128_to_le_bytes(n.id) + words_to_bytes(n.vector) + seq![n.connections.len() as u8]
        + layers_bytes(n.connections)
}

/// The stored forms of the nodes named by `order`, one after the other.
pub open spec fn nodes_bytes(g: GraphView, order: Seq<u128>) -> Seq<u8>
    decreases order.len(),
{
    if order.len() == 0 {
        Seq::empty()
    } else {
        nodes_bytes(g, order.drop_last()) + node_bytes(g.nodes[order.last()])
    }
}

/// A checkpoint: the node count (4 bytes), then the nodes in the given
/// order.
pub open spec fn checkpoint_bytes(g: GraphView, order: Seq<u128>) -> Seq<u8> {
    spec_u32_to_le_bytes(order.len() as u32) + nodes_bytes(g, order)
}

/// Whether the counts of a node fit their fields.
pub open spec fn node_storable(n: NodeView) -> bool {
    &&& n.connections.len() <= 255
    &&& forall|lc: int| 0 <= lc < n.connections.len() ==> (#[trigger] n.connections[lc]).len() <= 0xffff_ffff
}

/// Whether the counts of a graph fit their fields.
pub open spec fn storable(g: GraphView) -> bool {
    &&& g.nodes.dom().len() <= 0xffff_ffff
    &&& forall|id: u128| g.nodes.contains_key(id) ==> node_storable(#[trigger] g.nodes[id])
}

/// Whether the counts of `n` fit their fields.
pub fn node_fits(n: &Node) -> (r: bool)
    ensures
        r == node_storable(n@),
{
    if n.connections.len() > 255 {
        return false;
    }
    let mut lc: usize = 0;
    while lc < n.connections.len()
        invariant
            lc <= n.connections@.len(),
            forall|t: int| 0 <= t < lc ==> (#[trigger] n@.connections[t]).len() <= 0xffff_ffff,
        decreases n.connections.len() - lc,
    {
        if n.connections[lc].len() as u64 > 0xffff_ffff {
            assert(n@.connections[lc as int].len() > 0xffff_ffff);
            return false;
        }
        lc += 1;
    }
    true
}

fn put_ids(out: &mut Vec<u8>, ids: &Vec<u128>)
    ensures
        final(out)@ == old(out)@ + ids_bytes(ids@),
{
    let ghost start = out@;
    let mut i: usize = 0;
    while i < ids.len()
        invariant
            i <= ids.len(),
            out@ == start + ids_bytes(ids@.subrange(0, i as int)),
        decreases ids.len() - i,
    {
        put_u128(out, ids[i]);
        proof {
            assert(ids@.subrange(0, i + 1).drop_last() =~= ids@.subrange(0, i as int));
            assert(out@ =~= start + ids_bytes(ids@.subrange(0, i + 1)));
        }
        i += 1;
    }
    proof {
        assert(ids@.subrange(0, i as int) =~= ids@);
    }
}

/// Appends the stored form of `n`.
pub fn put_node(out: &mut Vec<u8>, n: &Node)
    requires
        node_storable(n@),
    ensures
        final(out)@ == old(out)@ + node_bytes(n@),
{
    let ghost start = out@;
    put_u128(out, n.id);
    put_words(out, &n.vector);
    out.push(n.connections.len() as u8);
    let ghost head = out@;
    let ghost layers = n@.connections;
    let mut lc: usize = 0;
    while lc < n.connections.len()
        invariant
            lc <= n.connections@.len(),
            layers == n@.connections,
            node_storable(n@),
            out@ == head + layers_bytes(layers.subrange(0, lc as int)),
        decreases n.connections.len() - lc,
    {
        let layer: &Vec<u128> = &n.connections[lc];
        assert(layer@ == layers[lc as int]);
        put_u32(out, layer.len() as u32);
        put_ids(out, layer);
        proof {
            assert(layers.subrange(0, lc + 1).drop_last() =~= layers.subrange(0, lc as int));
            assert(layers.subrange(0, lc + 1).last() == layers[lc as int]);
            assert(out@ =~= head + layers_bytes(layers.subrange(0, lc + 1)));
        }
        lc += 1;
    }
    proof {
        assert(layers.subrange(0, lc as int) =~= layers);
        assert(out@ =~= start + node_bytes(n@));
    }
}

// ---------------------------------------------------------------------
// Reading
// ---------------------------------------------------------------------
/// The `count` ids stored from `at` on.
pub open spec fn parse_ids(b: Seq<u8>, at: int, count: nat) -> Seq<u128> {
    Seq::new(count, |i: int| spec_u128_from_le_bytes(b.subrange(at + 16 * i, at + 16 * i + 16)))
}

/// Reads `count` layers from `at` on and adds them to `acc`; gives the
/// layers and the position after the last. `None` if the bytes end early.
pub open spec fn parse_layers(b: Seq<u8>, at: int, count: nat, acc: Seq<Seq<u128>>) -> Option<
    (Seq<Seq<u128>>, int),
>
    decreases count,
{
    if count == 0 {
        Some((acc, at))
    } else if at < 0 || at + 4 > b.len() {
        None
    } else {
        let n = spec_u32_from_le_bytes(b.subrange(at, at + 4)) as nat;
        if at + 4 + 16 * n > b.len() {
            None
        } else {
            parse_layers(b, at + 4 + 16 * n, (count - 1) as nat, acc.push(parse_ids(b, at + 4, n)))
        }
    }
}

/// Reads the node stored at `at`; gives the node and the position after it.
pub open spec fn parse_node(b: Seq<u8>, at: int) -> Option<(NodeView, int)> {
    if at < 0 || at + 529 > b.len() {
        None
    } else {
        match parse_layers(b, at + 529, b[at + 528] as nat, Seq::empty()) {
            None => None,
            Some((layers, end)) => Some(
                (
                    NodeView {
                        id: spec_u128_from_le_bytes(b.subrange(at, at + 16)),
                        vector: bytes_to_words(b.subrange(at + 16, at + 528)),
                        connections: layers,
                    },
                    end,
                ),
            ),
        }
    }
}

/// The graph after one more stored node is taken in. A node with layers
/// becomes the entry point when its level is above that of the entry point,
/// or when there is no entry point yet.
pub open spec fn load_step(g: GraphView, n: NodeView) -> GraphView {
    let level = (n.connections.len() - 1) as nat;
    if n.connections.len() > 0 && (level > g.max_layer || g.entry_point is None) {
        GraphView { nodes: g.nodes.insert(n.id, n), entry_point: Some(n.id), max_layer: level }
    } else {
        GraphView { nodes: g.nodes.insert(n.id, n), entry_point: g.entry_point, max_layer: g.max_layer }
    }
}

/// Takes in `count` stored nodes from `at` on.
pub open spec fn parse_nodes(b: Seq<u8>, at: int, count: nat, g: GraphView) -> Option<GraphView>
    decreases count,
{
    if count == 0 {
        Some(g)
    } else {
        match parse_node(b, at) {
            None => None,
            Some((n, next)) => parse_nodes(b, next, (count - 1) as nat, load_step(g, n)),
        }
    }
}

/// The graph that a checkpoint holds. Bytes after the last node are not
/// looked at.
pub open spec fn parse_checkpoint(b: Seq<u8>) -> Option<GraphView> {
    if b.len() < 4 {
        None
    } else {
        parse_nodes(
            b,
            4,
            spec_u32_from_le_bytes(b.subrange(0, 4)) as nat,
            GraphView { nodes: Map::empty(), entry_point: None, max_layer: 0 },
        )
    }
}

fn get_ids(data: &[u8], at: usize, count: usize) -> (out: Vec<u128>)
    requires
        at + 16 * count <= data@.len(),
    ensures
        out@ == parse_ids(data@, at as int, count as nat),
{
    let len: usize = data.len();
    let mut out: Vec<u128> = Vec::new();
    let mut i: usize = 0;
    while i < count
        invariant
            i <= count,
            len == data@.len(),
            at + 16 * count <= data@.len(),
            out@.len() == i,
            forall|j: int| 0 <= j < i ==> out@[j] == parse_ids(data@, at as int, count as nat)[j],
        decreases count - i,
    {
        let id: u128 = get_u128(data, at + 16 * i);
        out.push(id);
        i += 1;
    }
    proof {
        assert(out@ =~= parse_ids(data@, at as int, count as nat));
    }
    out
}

/// Reads the node stored at `at` and the position after it. `None` exactly
/// when the bytes end before the node does.
pub fn read_node(data: &[u8], at: usize) -> (r: Option<(Node, usize)>)
    requires
        at <= data@.len(),
    ensures
        match r {
            Some((n, next)) => parse_node(data@, at as int) == Some((n@, next as int)) && next
                <= data@.len(),
            None => parse_node(data@, at as int) is None,
        },
{
    let len: usize = data.len();
    if len - at < NODE_HEAD {
        return None;
    }
    let id: u128 = get_u128(data, at);
    let vector: Vec<u32> = get_words(data, at + 16, 128);
    let count: usize = data[at + 528] as usize;
    let mut layers: Vec<Vec<u128>> = Vec::new();
    let mut pos: usize = at + NODE_HEAD;
    let mut i: usize = 0;
    let ghost goal = parse_layers(data@, at + 529, count as nat, Seq::empty());
    proof {
        assert(layers_view(layers@) =~= Seq::<Seq<u128>>::empty());
    }
    while i < count
        invariant
            i <= count,
            len == data@.len(),
            pos <= len,
            at + 529 <= len,
            count == data@[at + 528],
            goal == parse_layers(data@, at + 529, count as nat, Seq::empty()),
            parse_layers(data@, pos as int, (count - i) as nat, layers_view(layers@)) == goal,
        decreases count - i,
    {
        if len - pos < 4 {
            assert(parse_layers(data@, pos as int, (count - i) as nat, layers_view(layers@)) is None);
            return None;
        }
        let n: u32 = get_u32(data, pos);
        if ((len - pos - 4) as u64) < 16 * (n as u64) {
            assert(parse_layers(data@, pos as int, (count - i) as nat, layers_view(layers@)) is None);
            return None;
        }
        let ids: Vec<u128> = get_ids(data, pos + 4, n as usize);
        proof {
            assert(layers_view(layers@.push(ids)) =~= layers_view(layers@).push(ids@));
        }
        layers.push(ids);
        pos = pos + 4 + 16 * (n as usize);
        i += 1;
    }
    let node = Node { id, vector, connections: layers };
    Some((node, pos))
}

// ---------------------------------------------------------------------
// Writing and reading agree
// ---------------------------------------------------------------------
/// The graph after the nodes named by `order` were taken in, first to last.
pub open spec fn loaded(acc: GraphView, g: GraphView, order: Seq<u128>) -> GraphView
    decreases order.len(),
{
    if order.len() == 0 {
        acc
    } else {
        loaded(load_step(acc, g.nodes[order.first()]), g, order.drop_first())
    }
}

proof fn lemma_ids_bytes(ids: Seq<u128>)
    ensures
        ids_bytes(ids).len() == 16 * ids.len(),
        forall|i: int|
            0 <= i < ids.len() ==> #[trigger] ids_bytes(ids).subrange(16 * i, 16 * i + 16)
                == spec_u128_to_le_bytes(ids[i]),
    decreases ids.len(),
{
    vstd::bytes::lemma_auto_spec_u128_to_from_le_bytes();
    if ids.len() > 0 {
        let front = ids.drop_last();
        lemma_ids_bytes(front);
        let b = ids_bytes(ids);
        assert(b == ids_bytes(front) + spec_u128_to_le_bytes(ids.last()));
        assert forall|i: int| 0 <= i < ids.len() implies #[trigger] b.subrange(16 * i, 16 * i + 16)
            == spec_u128_to_le_bytes(ids[i]) by {
            if i < front.len() {
                assert(b.subrange(16 * i, 16 * i + 16) =~= ids_bytes(front).subrange(
                    16 * i,
                    16 * i + 16,
                ));
                assert(front[i] == ids[i]);
            } else {
                assert(b.subrange(16 * i, 16 * i + 16) =~= spec_u128_to_le_bytes(ids.last()));
            }
        }
    }
}

proof fn lemma_parse_ids(b: Seq<u8>, at: int, ids: Seq<u128>)
    requires
        0 <= at,
        at + 16 * ids.len() <= b.len(),
        b.subrange(at, at + 16 * ids.len()) == ids_bytes(ids),
    ensures
        parse_ids(b, at, ids.len()) == ids,
{
    vstd::bytes::lemma_auto_spec_u128_to_from_le_bytes();
    lemma_ids_bytes(ids);
    let part = b.subrange(at, at + 16 * ids.len());
    assert forall|i: int| 0 <= i < ids.len() implies parse_ids(b, at, ids.len())[i] == ids[i] by {
        assert(b.subrange(at + 16 * i, at + 16 * i + 16) =~= part.subrange(16 * i, 16 * i + 16));
        assert(ids_bytes(ids).subrange(16 * i, 16 * i + 16) == spec_u128_to_le_bytes(ids[i]));
    }
    assert(parse_ids(b, at, ids.len()) =~= ids);
}

/// The stored form of one layer.
pub open spec fn layer_bytes(layer: Seq<u128>) -> Seq<u8> {
    spec_u32_to_le_bytes(layer.len() as u32) + ids_bytes(layer)
}

proof fn lemma_layers_cons(first: Seq<u128>, rest: Seq<Seq<u128>>)
    ensures
        layers_bytes(seq![first] + rest) == layer_bytes(first) + layers_bytes(rest),
    decreases rest.len(),
{
    let all = seq![first] + rest;
    if rest.len() == 0 {
        assert(all.drop_last() =~= Seq::<Seq<u128>>::empty());
        assert(all.last() == first);
        assert(layers_bytes(all.drop_last()) =~= Seq::<u8>::empty());
        assert(layers_bytes(rest) =~= Seq::<u8>::empty());
        assert(layers_bytes(all) =~= layer_bytes(first) + layers_bytes(rest));
    } else {
        assert(all.drop_last() =~= seq![first] + rest.drop_last());
        assert(all.last() == rest.last());
        lemma_layers_cons(first, rest.drop_last());
        assert(layers_bytes(all) =~= layer_bytes(first) + layers_bytes(rest));
    }
}

proof fn lemma_parse_layers(b: Seq<u8>, at: int, layers: Seq<Seq<u128>>, acc: Seq<Seq<u128>>)
    requires
        0 <= at,
        at + layers_bytes(layers).len() <= b.len(),
        b.subrange(at, at + layers_bytes(layers).len()) == layers_bytes(layers),
        forall|lc: int| 0 <= lc < layers.len() ==> (#[trigger] layers[lc]).len() <= 0xffff_ffff,
    ensures
        parse_layers(b, at, layers.len(), acc) == Some(
            (acc + layers, at + layers_bytes(layers).len()),
        ),
    decreases layers.len(),
{
    vstd::bytes::lemma_auto_spec_u32_to_from_le_bytes();
    if layers.len() == 0 {
        assert(acc + layers =~= acc);
    } else {
        let first = layers.first();
        let rest = layers.drop_first();
        assert(layers =~= seq![first] + rest);
        lemma_layers_cons(first, rest);
        lemma_ids_bytes(first);
        let whole = layers_bytes(layers);
        let part = b.subrange(at, at + whole.len());
        let n = first.len() as int;
        assert(layers[0].len() <= 0xffff_ffff);
        assert(whole == layer_bytes(first) + layers_bytes(rest));
        assert(b.subrange(at, at + 4) =~= part.subrange(0, 4));
        assert(part.subrange(0, 4) =~= spec_u32_to_le_bytes(n as u32));
        assert(b.subrange(at + 4, at + 4 + 16 * n) =~= part.subrange(4, 4 + 16 * n));
        assert(part.subrange(4, 4 + 16 * n) =~= ids_bytes(first));
        lemma_parse_ids(b, at + 4, first);
        let next = at + 4 + 16 * n;
        assert(b.subrange(next, next + layers_bytes(rest).len()) =~= part.subrange(
            4 + 16 * n,
            whole.len() as int,
        ));
        assert(part.subrange(4 + 16 * n, whole.len() as int) =~= layers_bytes(rest));
        assert forall|lc: int| 0 <= lc < rest.len() implies (#[trigger] rest[lc]).len()
            <= 0xffff_ffff by {
            assert(rest[lc] == layers[lc + 1]);
        }
        lemma_parse_layers(b, next, rest, acc.push(first));
        assert(acc.push(first) + rest =~= acc + layers);
    }
}

proof fn lemma_parse_node(b: Seq<u8>, at: int, n: NodeView)
    requires
        0 <= at,
        at + node_bytes(n).len() <= b.len(),
        b.subrange(at, at + node_bytes(n).len()) == node_bytes(n),
        n.vector.len() == 128,
        node_storable(n),
    ensures
        parse_node(b, at) == Some((n, at + node_bytes(n).len())),
{
    vstd::bytes::lemma_auto_spec_u128_to_from_le_bytes();
    crate::codec::lemma_words_round_trip(n.vector);
    let whole = node_bytes(n);
    let part = b.subrange(at, at + whole.len());
    let tail = layers_bytes(n.connections);
    assert(whole.len() == 529 + tail.len());
    assert(b.subrange(at, at + 16) =~= part.subrange(0, 16));
    assert(part.subrange(0, 16) =~= spec_u128_to_le_bytes(n.id));
    assert(b.subrange(at + 16, at + 528) =~= part.subrange(16, 528));
    assert(part.subrange(16, 528) =~= words_to_bytes(n.vector));
    assert(b[at + 528] == part[528]);
    assert(part[528] == n.connections.len() as u8);
    assert(b.subrange(at + 529, at + 529 + tail.len()) =~= part.subrange(529, whole.len() as int));
    assert(part.subrange(529, whole.len() as int) =~= tail);
    lemma_parse_layers(b, at + 529, n.connections, Seq::empty());
    assert(Seq::<Seq<u128>>::empty() + n.connections =~= n.connections);
}

proof fn lemma_nodes_cons(g: GraphView, first: u128, rest: Seq<u128>)
    ensures
        nodes_bytes(g, seq![first] + rest) == node_bytes(g.nodes[first]) + nodes_bytes(g, rest),
    decreases rest.len(),
{
    let all = seq![first] + rest;
    if rest.len() == 0 {
        assert(all.drop_last() =~= Seq::<u128>::empty());
        assert(all.last() == first);
        assert(nodes_bytes(g, all.drop_last()) =~= Seq::<u8>::empty());
        assert(nodes_bytes(g, rest) =~= Seq::<u8>::empty());
        assert(nodes_bytes(g, all) =~= node_bytes(g.nodes[first]) + nodes_bytes(g, rest));
    } else {
        assert(all.drop_last() =~= seq![first] + rest.drop_last());
        assert(all.last() == rest.last());
        lemma_nodes_cons(g, first, rest.drop_last());
        assert(nodes_bytes(g, all) =~= node_bytes(g.nodes[first]) + nodes_bytes(g, rest));
    }
}

/// Whether a node can be written and read back: its counts fit, and its
/// embedding has the dimension that the checkpoint is laid out for.
pub open spec fn node_round_trips(n: NodeView) -> bool {
    node_storable(n) && n.vector.len() == 128
}

proof fn lemma_parse_nodes(b: Seq<u8>, at: int, g: GraphView, order: Seq<u128>, acc: GraphView)
    requires
        0 <= at,
        at + nodes_bytes(g, order).len() <= b.len(),
        b.subrange(at, at + nodes_bytes(g, order).len()) == nodes_bytes(g, order),
        forall|i: int| 0 <= i < order.len() ==> node_round_trips(g.nodes[#[trigger] order[i]]),
    ensures
        parse_nodes(b, at, order.len(), acc) == Some(loaded(acc, g, order)),
    decreases order.len(),
{
    if order.len() > 0 {
        let first = order.first();
        let rest = order.drop_first();
        let n = g.nodes[first];
        assert(order =~= seq![first] + rest);
        lemma_nodes_cons(g, first, rest);
        let whole = nodes_bytes(g, order);
        let part = b.subrange(at, at + whole.len());
        let head = node_bytes(n);
        assert(node_round_trips(g.nodes[order[0]]));
        assert(whole == head + nodes_bytes(g, rest));
        assert(b.subrange(at, at + head.len()) =~= part.subrange(0, head.len() as int));
        assert(part.subrange(0, head.len() as int) =~= head);
        lemma_parse_node(b, at, n);
        let next = at + head.len();
        assert(b.subrange(next, next + nodes_bytes(g, rest).len()) =~= part.subrange(
            head.len() as int,
            whole.len() as int,
        ));
        assert(part.subrange(head.len() as int, whole.len() as int) =~= nodes_bytes(g, rest));
        assert forall|i: int| 0 <= i < rest.len() implies node_round_trips(
            g.nodes[#[trigger] rest[i]],
        ) by {
            assert(rest[i] == order[i + 1]);
        }
        lemma_parse_nodes(b, next, g, rest, load_step(acc, n));
    }
}

proof fn lemma_loaded_nodes(acc: GraphView, g: GraphView, order: Seq<u128>)
    requires
        forall|i: int| 0 <= i < order.len() ==> g.nodes[#[trigger] order[i]].id == order[i],
    ensures
        forall|k: u128|
            #![trigger loaded(acc, g, order).nodes.contains_key(k)]
            loaded(acc, g, order).nodes.contains_key(k) <==> (acc.nodes.contains_key(k)
                || order.contains(k)),
        forall|k: u128|
            #![trigger loaded(acc, g, order).nodes[k]]
            loaded(acc, g, order).nodes.contains_key(k) ==> loaded(acc, g, order).nodes[k] == (
            if order.contains(k) {
                g.nodes[k]
            } else {
                acc.nodes[k]
            }),
    decreases order.len(),
{
    if order.len() > 0 {
        let first = order.first();
        let rest = order.drop_first();
        let step = load_step(acc, g.nodes[first]);
        assert(g.nodes[order[0]].id == order[0]);
        assert(step.nodes == acc.nodes.insert(first, g.nodes[first]));
        assert forall|i: int| 0 <= i < rest.len() implies g.nodes[#[trigger] rest[i]].id == rest[i] by {
            assert(rest[i] == order[i + 1]);
        }
        lemma_loaded_nodes(step, g, rest);
        let out = loaded(acc, g, order);
        assert(out == loaded(step, g, rest));
        assert forall|k: u128| order.contains(k) <==> (k == first || rest.contains(k)) by {
            if order.contains(k) {
                let i = choose|i: int| 0 <= i < order.len() && order[i] == k;
                if i > 0 {
                    assert(rest[i - 1] == k);
                }
            }
            if rest.contains(k) {
                let i = choose|i: int| 0 <= i < rest.len() && rest[i] == k;
                assert(order[i + 1] == k);
            }
            if k == first {
                assert(order[0] == k);
            }
        }
    }
}

/// Writing and reading agree: a checkpoint of a graph whose nodes can be
/// written and read back, each stored under its own id, reads as a graph
/// with the same nodes, whatever the order in which they were written and
/// whatever follows the checkpoint.
pub proof fn law_checkpoint_round_trip(g: GraphView, order: Seq<u128>, more: Seq<u8>)
    requires
        order.len() <= 0xffff_ffff,
        forall|k: u128| order.contains(k) <==> g.nodes.contains_key(k),
        forall|k: u128| g.nodes.contains_key(k) ==> node_round_trips(#[trigger] g.nodes[k]),
        forall|k: u128| g.nodes.contains_key(k) ==> (#[trigger] g.nodes[k]).id == k,
    ensures
        parse_checkpoint(checkpoint_bytes(g, order) + more) is Some,
        parse_checkpoint(checkpoint_bytes(g, order) + more)->0.nodes == g.nodes,
{
    vstd::bytes::lemma_auto_spec_u32_to_from_le_bytes();
    let head = spec_u32_to_le_bytes(order.len() as u32);
    let body = nodes_bytes(g, order);
    let b = checkpoint_bytes(g, order) + more;
    let none = GraphView { nodes: Map::empty(), entry_point: None, max_layer: 0 };
    assert(b.subrange(0, 4) =~= head);
    assert(b.subrange(4, 4 + body.len() as int) =~= body);
    assert forall|i: int| 0 <= i < order.len() implies node_round_trips(
        g.nodes[#[trigger] order[i]],
    ) && g.nodes[order[i]].id == order[i] by {
        assert(order.contains(order[i]));
    }
    lemma_parse_nodes(b, 4, g, order, none);
    lemma_loaded_nodes(none, g, order);
    let out = loaded(none, g, order);
    assert(parse_checkpoint(b) == Some(out));
    assert(out.nodes =~= g.nodes) by {
        assert forall|k: u128| out.nodes.contains_key(k) <==> g.nodes.contains_key(k) by {}
        assert forall|k: u128| out.nodes.contains_key(k) implies out.nodes[k] == g.nodes[k] by {}
    }
}

} // verus!
