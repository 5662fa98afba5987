//! The edge coder.
//!
//! Handles are flattened into two pools, outputs and inputs, in node-then-handle order.
//! An edge end is stored as its rank among the handles that it could still connect to: a
//! used handle leaves the pool, and a target must accept the item that its source carries.
//! Edges that target a splitter or merger come first, so that the targets of the others are
//! chosen among typed inputs only. All ranks go through the sub-bit packer; the decoder has
//! to know every bound in advance, so sources come first, then targets.
use crate::bits::{BitBuf, BitReader};
use crate::state::{Edge, GameData, GraphHandle, HandleId, Node, NodeId};
use crate::subbit::{dec_packed, decode_sub_bit_stream, encode_packed, in_bounds, packed};
use std::collections::BTreeMap;
use vstd::prelude::*;

verus! {

/// One handle in a pool.
#[derive(Clone, Copy, Debug)]
pub struct EdgeCoderEntry {
    pub node: NodeId,
    pub handle: HandleId,
    /// The item the handle carries; `None` for splitters and mergers.
    pub item: Option<u16>,
    pub used: bool,
}

/// The output handles of a node, with the item each carries.
pub open spec fn node_outputs(data: GameData, n: Node) -> Seq<(HandleId, Option<u16>)> {
    match n {
        Node::Recipe { recipe, .. } => {
            let outs = data.recipes@[recipe as int].outputs@;
            Seq::new(outs.len(), |i: int| ((4 + i) as u8, Some(outs[i])))
        },
        Node::Merger { .. } => seq![(3u8, None)],
        Node::Splitter { .. } => seq![(1u8, None), (2u8, None), (3u8, None)],
        Node::Source { item, .. } => seq![(0u8, Some(data.source_items@[item as int]))],
    }
}

/// The input handles of a node, with the item each accepts.
pub open spec fn node_inputs(data: GameData, n: Node) -> Seq<(HandleId, Option<u16>)> {
    match n {
        Node::Recipe { recipe, .. } => {
            let ins = data.recipes@[recipe as int].inputs@;
            Seq::new(ins.len(), |i: int| (i as u8, Some(ins[i])))
        },
        Node::Merger { .. } => seq![(0u8, None), (1u8, None), (2u8, None)],
        Node::Splitter { .. } => seq![(0u8, None)],
        Node::Source { .. } => seq![],
    }
}

/// The unused pool entries of the handles `hs` of node `k`.
pub open spec fn tagged(k: int, hs: Seq<(HandleId, Option<u16>)>) -> Seq<EdgeCoderEntry> {
    Seq::new(hs.len(), |i: int| EdgeCoderEntry { node: k as u16, handle: hs[i].0, item: hs[i].1, used: false })
}

/// The output pool of a node list.
pub open spec fn output_pool(data: GameData, nodes: Seq<Node>) -> Seq<EdgeCoderEntry>
    decreases nodes.len(),
{
    if nodes.len() == 0 {
        seq![]
    } else {
        output_pool(data, nodes.drop_last()) + tagged(nodes.len() - 1, node_outputs(data, nodes.last()))
    }
}

/// The input pool of a node list.
pub open spec fn input_pool(data: GameData, nodes: Seq<Node>) -> Seq<EdgeCoderEntry>
    decreases nodes.len(),
{
    if nodes.len() == 0 {
        seq![]
    } else {
        input_pool(data, nodes.drop_last()) + tagged(nodes.len() - 1, node_inputs(data, nodes.last()))
    }
}


/// Whether the nodes' identifiers lie within the game tables.
pub open spec fn nodes_known(data: GameData, nodes: Seq<Node>) -> bool {
    forall|k: int|
        0 <= k < nodes.len() ==> match #[trigger] nodes[k] {
            Node::Recipe { recipe, .. } => (recipe as int) < data.recipes@.len(),
            Node::Source { item, .. } => (item as int) < data.source_items@.len(),
            _ => true,
        }
}

/// A node has at most four outputs and four inputs.
pub proof fn lemma_pool_len(data: GameData, nodes: Seq<Node>)
    requires
        data.wf(),
        nodes_known(data, nodes),
    ensures
        output_pool(data, nodes).len() <= 4 * nodes.len(),
        input_pool(data, nodes).len() <= 4 * nodes.len(),
    decreases nodes.len(),
{
    if nodes.len() > 0 {
        let last = nodes.last();
        assert(nodes_known(data, nodes.drop_last())) by {
            assert forall|k: int| 0 <= k < nodes.drop_last().len() implies match #[trigger] nodes.drop_last()[k] {
                Node::Recipe { recipe, .. } => (recipe as int) < data.recipes@.len(),
                Node::Source { item, .. } => (item as int) < data.source_items@.len(),
                _ => true,
            } by {
                assert(nodes.drop_last()[k] == nodes[k]);
            }
        }
        lemma_pool_len(data, nodes.drop_last());
        assert(nodes[nodes.len() - 1] == last);
        if let Node::Recipe { recipe, .. } = last {
            assert(data.recipes@[recipe as int].inputs@.len() <= 4);
        }
    }
}

/// The node and handle of a pool entry.
pub open spec fn handle_of(e: EdgeCoderEntry) -> GraphHandle {
    GraphHandle { node: e.node, handle: e.handle }
}

/// No two entries of a pool name the same handle.
pub open spec fn handles_unique(es: Seq<EdgeCoderEntry>) -> bool {
    forall|a: int, b: int| 0 <= a < b < es.len() ==> handle_of(#[trigger] es[a]) != handle_of(#[trigger] es[b])
}

/// No entry of a pool is used.
pub open spec fn all_unused(es: Seq<EdgeCoderEntry>) -> bool {
    forall|a: int| 0 <= a < es.len() ==> !(#[trigger] es[a]).used
}

/// The entries of node `k` name node `k` and distinct handles.
proof fn lemma_tagged(k: int, hs: Seq<(HandleId, Option<u16>)>)
    requires
        0 <= k < 32768,
        forall|a: int, b: int| 0 <= a < b < hs.len() ==> (#[trigger] hs[a]).0 != (#[trigger] hs[b]).0,
    ensures
        handles_unique(tagged(k, hs)),
        all_unused(tagged(k, hs)),
        forall|a: int| 0 <= a < hs.len() ==> (#[trigger] tagged(k, hs)[a]).node == k,
{
}

/// Every pool names each handle once, and starts unused.
pub proof fn lemma_pools_unique(data: GameData, nodes: Seq<Node>)
    requires
        data.wf(),
        nodes_known(data, nodes),
        nodes.len() <= 32768,
    ensures
        handles_unique(output_pool(data, nodes)),
        handles_unique(input_pool(data, nodes)),
        all_unused(output_pool(data, nodes)),
        all_unused(input_pool(data, nodes)),
        forall|a: int| 0 <= a < output_pool(data, nodes).len() ==> (#[trigger] output_pool(data, nodes)[a].node as int) < nodes.len(),
        forall|a: int| 0 <= a < input_pool(data, nodes).len() ==> (#[trigger] input_pool(data, nodes)[a].node as int) < nodes.len(),
    decreases nodes.len(),
{
    if nodes.len() > 0 {
        let k = nodes.len() - 1;
        let ns = nodes.drop_last();
        assert(nodes_known(data, ns)) by {
            assert forall|q: int| 0 <= q < ns.len() implies match #[trigger] ns[q] {
                Node::Recipe { recipe, .. } => (recipe as int) < data.recipes@.len(),
                Node::Source { item, .. } => (item as int) < data.source_items@.len(),
                _ => true,
            } by {
                assert(ns[q] == nodes[q]);
            }
        }
        lemma_pools_unique(data, ns);
        let outs = node_outputs(data, nodes.last());
        let ins = node_inputs(data, nodes.last());
        assert forall|a: int, b: int| 0 <= a < b < outs.len() implies (#[trigger] outs[a]).0 != (#[trigger] outs[b]).0 by {
        }
        assert forall|a: int, b: int| 0 <= a < b < ins.len() implies (#[trigger] ins[a]).0 != (#[trigger] ins[b]).0 by {
        }
        lemma_tagged(k, outs);
        lemma_tagged(k, ins);
        let (po, pi) = (output_pool(data, ns), input_pool(data, ns));
        let (to, ti) = (tagged(k, outs), tagged(k, ins));
        assert(output_pool(data, nodes) == po + to);
        assert(input_pool(data, nodes) == pi + ti);
        assert forall|a: int, b: int| 0 <= a < b < (po + to).len() implies handle_of(#[trigger] (po + to)[a]) != handle_of(#[trigger] (po + to)[b]) by {
            if b >= po.len() && a < po.len() {
                assert((po + to)[a].node < k);
            }
        }
        assert forall|a: int, b: int| 0 <= a < b < (pi + ti).len() implies handle_of(#[trigger] (pi + ti)[a]) != handle_of(#[trigger] (pi + ti)[b]) by {
            if b >= pi.len() && a < pi.len() {
                assert((pi + ti)[a].node < k);
            }
        }
    }
}

/// The positions, in order, of the entries not yet used.
pub open spec fn unused_positions(es: Seq<EdgeCoderEntry>) -> Seq<usize>
    decreases es.len(),
{
    if es.len() == 0 {
        seq![]
    } else if es.last().used {
        unused_positions(es.drop_last())
    } else {
        unused_positions(es.drop_last()).push((es.len() - 1) as usize)
    }
}

/// Whether an input accepts what a source carries: either side untyped, or the same item.
pub open spec fn item_matches(entry: Option<u16>, expected: Option<u16>) -> bool {
    match (entry, expected) {
        (Some(a), Some(b)) => a == b,
        _ => true,
    }
}

/// What the coder knows of one edge target before choosing it.
#[derive(Clone, Copy, Debug)]
pub struct EdgeTargetInfo {
    /// How many inputs the target can be.
    pub num_options: u32,
    pub targets_split_merge: bool,
    pub expected_item: Option<u16>,
}

/// Whether input `e` is an option for a target described by `info`.
pub open spec fn relevant(e: EdgeCoderEntry, info: EdgeTargetInfo, nodes: Seq<Node>) -> bool {
    &&& !e.used
    &&& nodes[e.node as int].spec_is_split_merge() == info.targets_split_merge
    &&& item_matches(e.item, info.expected_item)
}

/// The positions, in order, of the inputs that are options for `info`.
pub open spec fn relevant_positions(es: Seq<EdgeCoderEntry>, info: EdgeTargetInfo, nodes: Seq<Node>) -> Seq<usize>
    decreases es.len(),
{
    if es.len() == 0 {
        seq![]
    } else if relevant(es.last(), info, nodes) {
        relevant_positions(es.drop_last(), info, nodes).push((es.len() - 1) as usize)
    } else {
        relevant_positions(es.drop_last(), info, nodes)
    }
}

/// The sort key of an edge: edges into splitters and mergers first, among them those out
/// of splitters and mergers first, then by target node.
pub open spec fn edge_key(nodes: Seq<Node>, e: Edge) -> nat {
    (if nodes[e.target.node as int].spec_is_split_merge() {
        0nat
    } else {
        2nat
    }) * 0x10000 + (if nodes[e.source.node as int].spec_is_split_merge() {
        0nat
    } else {
        1nat
    }) * 0x10000 + e.target.node as nat
}

/// Both ends of every edge name one of the nodes.
pub open spec fn edges_in_range(nodes: Seq<Node>, edges: Seq<Edge>) -> bool {
    forall|i: int|
        0 <= i < edges.len() ==> (#[trigger] edges[i].source.node as int) < nodes.len()
            && (edges[i].target.node as int) < nodes.len()
}

/// How many edges target a splitter or merger.
pub open spec fn split_merge_targets(nodes: Seq<Node>, edges: Seq<Edge>) -> nat
    decreases edges.len(),
{
    if edges.len() == 0 {
        0
    } else {
        split_merge_targets(nodes, edges.drop_last()) + if nodes[edges.last().target.node as int].spec_is_split_merge() {
            1nat
        } else {
            0nat
        }
    }
}

fn edge_key_of(nodes: &Vec<Node>, e: &Edge) -> (r: u32)
    requires
        (e.source.node as int) < nodes@.len(),
        (e.target.node as int) < nodes@.len(),
    ensures
        r as nat == edge_key(nodes@, *e),
{
    let t: u32 = if nodes[e.target.node as usize].is_split_merge() {
        0
    } else {
        2
    };
    let s: u32 = if nodes[e.source.node as usize].is_split_merge() {
        0
    } else {
        1
    };
    t * 0x10000 + s * 0x10000 + e.target.node as u32
}

/// Where a stable insertion puts an edge of key `key` into `r`: after every edge whose key
/// is not larger.
pub open spec fn insert_pos(nodes: Seq<Node>, r: Seq<Edge>, key: nat) -> nat
    decreases r.len(),
{
    if r.len() == 0 || edge_key(nodes, r.last()) <= key {
        r.len()
    } else {
        insert_pos(nodes, r.drop_last(), key)
    }
}

/// The edges stably sorted by `edge_key`, by insertion.
pub open spec fn sorted_edges(nodes: Seq<Node>, edges: Seq<Edge>) -> Seq<Edge>
    decreases edges.len(),
{
    if edges.len() == 0 {
        seq![]
    } else {
        let r = sorted_edges(nodes, edges.drop_last());
        r.insert(insert_pos(nodes, r, edge_key(nodes, edges.last())) as int, edges.last())
    }
}

proof fn lemma_insert_pos_le(nodes: Seq<Node>, r: Seq<Edge>, key: nat)
    ensures
        insert_pos(nodes, r, key) <= r.len(),
    decreases r.len(),
{
    if r.len() > 0 {
        lemma_insert_pos_le(nodes, r.drop_last(), key);
    }
}

/// Sorting keeps the edges and the count of those into splitters and mergers.
pub proof fn lemma_sorted_edges(nodes: Seq<Node>, edges: Seq<Edge>)
    ensures
        sorted_edges(nodes, edges).len() == edges.len(),
        sorted_edges(nodes, edges).to_multiset() == edges.to_multiset(),
        split_merge_targets(nodes, sorted_edges(nodes, edges)) == split_merge_targets(nodes, edges),
    decreases edges.len(),
{
    if edges.len() == 0 {
        assert(edges =~= Seq::<Edge>::empty());
    } else {
        let r = sorted_edges(nodes, edges.drop_last());
        let e = edges.last();
        lemma_sorted_edges(nodes, edges.drop_last());
        let j = insert_pos(nodes, r, edge_key(nodes, e));
        lemma_insert_pos_le(nodes, r, edge_key(nodes, e));
        assert(edges.drop_last().push(e) =~= edges);
        vstd::seq_lib::to_multiset_insert(r, j as int, e);
        vstd::seq_lib::to_multiset_build(edges.drop_last(), e);
        assert(sorted_edges(nodes, edges) == r.insert(j as int, e));
        assert(sorted_edges(nodes, edges).to_multiset() == r.to_multiset().insert(e));
        assert(edges.to_multiset() =~= edges.drop_last().to_multiset().insert(e));
        lemma_count_insert(nodes, r, j as int, e);
    }
}

proof fn lemma_count_insert(nodes: Seq<Node>, r: Seq<Edge>, j: int, e: Edge)
    requires
        0 <= j <= r.len(),
    ensures
        split_merge_targets(nodes, r.insert(j, e)) == split_merge_targets(nodes, r) + if nodes[e.target.node as int].spec_is_split_merge() {
            1nat
        } else {
            0nat
        },
    decreases r.len(),
{
    if j == r.len() {
        assert(r.insert(j, e).drop_last() =~= r);
    } else {
        assert(r.insert(j, e).drop_last() =~= r.drop_last().insert(j, e));
        assert(r.insert(j, e).last() == r.last());
        lemma_count_insert(nodes, r.drop_last(), j, e);
    }
}

/// `r` holds the first `n` of `edges`, each once, at the places `perm` gives.
pub open spec fn reorders(r: Seq<Edge>, edges: Seq<Edge>, perm: Seq<int>, n: int) -> bool {
    &&& perm.len() == r.len()
    &&& forall|q: int| 0 <= q < perm.len() ==> 0 <= #[trigger] perm[q] < n && r[q] == edges[perm[q]]
    &&& forall|a: int, b: int| 0 <= a < b < perm.len() ==> #[trigger] perm[a] != #[trigger] perm[b]
    &&& forall|a: int| 0 <= a < n ==> #[trigger] placed(perm, a)
}

/// Some place of `perm` holds `a`.
pub open spec fn placed(perm: Seq<int>, a: int) -> bool {
    exists|q: int| 0 <= q < perm.len() && perm[q] == a
}

/// The edges in the coder's order: stably sorted by `edge_key`.
#[verifier::spinoff_prover]
#[verifier::rlimit(100)]
pub fn sort_edges(nodes: &Vec<Node>, edges: &Vec<Edge>) -> (r: Vec<Edge>)
    requires
        edges_in_range(nodes@, edges@),
    ensures
        r@.len() == edges@.len(),
        r@.to_multiset() == edges@.to_multiset(),
        edges_in_range(nodes@, r@),
        forall|i: int, j: int|
            0 <= i < j < r@.len() ==> edge_key(nodes@, #[trigger] r@[i]) <= edge_key(nodes@, #[trigger] r@[j]),
        exists|perm: Seq<int>| reorders(r@, edges@, perm, edges@.len() as int),
        r@ == sorted_edges(nodes@, edges@),
{
    let mut r: Vec<Edge> = Vec::new();
    let ghost mut perm: Seq<int> = seq![];
    let mut i: usize = 0;
    proof {
        assert(edges@.take(0) =~= Seq::<Edge>::empty());
        assert(r@ =~= Seq::<Edge>::empty());
    }
    while i < edges.len()
        invariant
            i <= edges@.len(),
            edges_in_range(nodes@, edges@),
            r@.len() == i,
            r@.to_multiset() == edges@.take(i as int).to_multiset(),
            edges_in_range(nodes@, r@),
            forall|a: int, b: int|
                0 <= a < b < r@.len() ==> edge_key(nodes@, #[trigger] r@[a]) <= edge_key(nodes@, #[trigger] r@[b]),
            reorders(r@, edges@, perm, i as int),
            r@ == sorted_edges(nodes@, edges@.take(i as int)),
        decreases edges@.len() - i,
    {
        let e = edges[i];
        let key = edge_key_of(nodes, &e);
        // Insert after every edge whose key is not larger, which keeps equal keys in order.
        let mut j: usize = r.len();
        proof {
            assert(r@.take(r@.len() as int) =~= r@);
        }
        while j > 0 && edge_key_of(nodes, &r[j - 1]) > key
            invariant
                j <= r@.len(),
                edges_in_range(nodes@, r@),
                forall|b: int| j <= b < r@.len() ==> edge_key(nodes@, #[trigger] r@[b]) > key,
                insert_pos(nodes@, r@, key as nat) == insert_pos(nodes@, r@.take(j as int), key as nat),
            decreases j,
        {
            proof {
                assert(r@.take(j as int).drop_last() =~= r@.take(j - 1));
            }
            j = j - 1;
        }
        proof {
            assert(r@.take(r@.len() as int) =~= r@);
            assert(insert_pos(nodes@, r@.take(j as int), key as nat) == j);
            assert(edges@.take(i + 1).drop_last() =~= edges@.take(i as int));
        }
        let ghost before = r@;
        let ghost pb = perm;
        r.insert(j, e);
        proof {
            perm = pb.insert(j as int, i as int);
            assert forall|q: int| 0 <= q < perm.len() implies 0 <= #[trigger] perm[q] < i + 1 && r@[q] == edges@[perm[q]] by {
                if q > j {
                    assert(perm[q] == pb[q - 1]);
                } else if q < j {
                    assert(perm[q] == pb[q]);
                }
            }
            assert forall|a: int, b: int| 0 <= a < b < perm.len() implies #[trigger] perm[a] != #[trigger] perm[b] by {
                let a0 = if a < j { a } else { a - 1 };
                let b0 = if b < j { b } else { b - 1 };
                if a != j && b != j {
                    assert(perm[a] == pb[a0] && perm[b] == pb[b0]);
                } else if a == j {
                    assert(perm[b] == pb[b0]);
                } else {
                    assert(perm[a] == pb[a0]);
                }
            }
            assert forall|a: int| 0 <= a < i + 1 implies #[trigger] placed(perm, a) by {
                if a == i {
                    assert(perm[j as int] == a);
                } else {
                    assert(placed(pb, a));
                    let q0 = choose|q: int| 0 <= q < pb.len() && pb[q] == a;
                    if q0 < j {
                        assert(perm[q0] == a);
                    } else {
                        assert(perm[q0 + 1] == a);
                    }
                }
            }
            assert(edges@.take(i + 1) =~= edges@.take(i as int).push(e));
            assert(r@ =~= before.insert(j as int, e));
            vstd::seq_lib::to_multiset_insert(before, j as int, e);
            vstd::seq_lib::to_multiset_build(edges@.take(i as int), e);
            assert forall|a: int, b: int|
                0 <= a < b < r@.len() implies edge_key(nodes@, #[trigger] r@[a]) <= edge_key(nodes@, #[trigger] r@[b]) by {
                if j > 0 && a == j - 1 {
                }
                if a < j && b == j && j > 0 {
                    assert(edge_key(nodes@, before[j - 1]) <= key);
                    assert(edge_key(nodes@, before[a]) <= edge_key(nodes@, before[j - 1]));
                }
            }
        }
        i = i + 1;
    }
    assert(edges@.take(edges@.len() as int) =~= edges@);
    r
}

/// How many entries of a pool belong to splitters and mergers.
pub open spec fn split_merge_inputs(es: Seq<EdgeCoderEntry>, nodes: Seq<Node>) -> nat
    decreases es.len(),
{
    if es.len() == 0 {
        0
    } else {
        split_merge_inputs(es.drop_last(), nodes) + if nodes[es.last().node as int].spec_is_split_merge() {
            1nat
        } else {
            0nat
        }
    }
}

/// How many entries of a pool belong to other nodes and accept `item`.
pub open spec fn item_inputs(es: Seq<EdgeCoderEntry>, nodes: Seq<Node>, item: u16) -> nat
    decreases es.len(),
{
    if es.len() == 0 {
        0
    } else {
        item_inputs(es.drop_last(), nodes, item) + if es.last().item == Some(item)
            && !nodes[es.last().node as int].spec_is_split_merge() {
            1nat
        } else {
            0nat
        }
    }
}

/// How many of the edges `from` .. `to` carry `item`.
pub open spec fn expected_count(ex: Seq<Option<u16>>, from: int, to: int, item: u16) -> nat
    decreases to - from,
{
    if to <= from {
        0
    } else {
        expected_count(ex, from, to - 1, item) + if ex[to - 1] == Some(item) {
            1nat
        } else {
            0nat
        }
    }
}

/// Hands out one input of `item` from the tally: the count before, less one afterwards
/// where it was not already zero.
fn take_tally(m: &mut BTreeMap<u16, u32>, item: u16) -> (r: u32)
    ensures
        r as nat == tally(old(m)@, item),
        forall|it: u16| #[trigger] tally(final(m)@, it) == if it == item {
            monus(tally(old(m)@, it) as int, 1)
        } else {
            tally(old(m)@, it)
        },
{
    broadcast use vstd::std_specs::btree::group_btree_axioms, vstd::laws_cmp::group_laws_cmp;

    let out: u32 = match m.get(&item) {
        Some(c) => *c,
        None => 0,
    };
    if out > 0 {
        m.insert(item, out - 1);
    }
    out
}

/// The count that a tally map holds for `item`; zero where it holds none.
pub open spec fn tally(m: Map<u16, u32>, item: u16) -> nat {
    if m.contains_key(item) {
        m[item] as nat
    } else {
        0
    }
}

/// `a - b`, or zero.
pub open spec fn monus(a: int, b: int) -> nat {
    if a > b {
        (a - b) as nat
    } else {
        0
    }
}

/// Among how many inputs the target of edge `i` is chosen, given the fresh input pool, the
/// number `k` of edges into splitters and mergers, and the item each edge's source carries:
/// the splitter and merger inputs that the edges before have not taken; or the inputs of
/// other nodes that accept the item, less those taken before; or, for an untyped source, all
/// inputs of other nodes less those taken before.
pub open spec fn target_bound(es: Seq<EdgeCoderEntry>, nodes: Seq<Node>, k: nat, ex: Seq<Option<u16>>, i: int) -> nat {
    if i < k {
        monus(split_merge_inputs(es, nodes) as int, i)
    } else {
        match ex[i] {
            Some(item) => monus(item_inputs(es, nodes, item) as int, expected_count(ex, k as int, i, item) as int),
            None => monus(es.len() - split_merge_inputs(es, nodes), i - k),
        }
    }
}


/// An entry marked used.
pub open spec fn mark_used(e: EdgeCoderEntry) -> EdgeCoderEntry {
    EdgeCoderEntry { used: true, ..e }
}

/// Takes outputs in turn, each the `ranks[j]`-th unused one, marking it used: the outputs
/// taken and the pool after; `None` where a rank is out of reach.
pub open spec fn take_sources(pool: Seq<EdgeCoderEntry>, ranks: Seq<u32>) -> Option<(Seq<EdgeCoderEntry>, Seq<EdgeCoderEntry>)>
    decreases ranks.len(),
{
    if ranks.len() == 0 {
        Some((seq![], pool))
    } else {
        match take_sources(pool, ranks.drop_last()) {
            None => None,
            Some((taken, p)) => {
                let u = unused_positions(p);
                let r = ranks.last() as int;
                if r >= u.len() {
                    None
                } else {
                    let idx = u[r] as int;
                    Some((taken.push(p[idx]), p.update(idx, mark_used(p[idx]))))
                }
            },
        }
    }
}

/// Takes inputs in turn, the `ranks[j]`-th of those that are options for `infos[j]`,
/// marking it used: the inputs taken and the pool after; `None` where a rank is out of reach.
pub open spec fn take_targets(
    pool: Seq<EdgeCoderEntry>,
    nodes: Seq<Node>,
    infos: Seq<EdgeTargetInfo>,
    ranks: Seq<u32>,
) -> Option<(Seq<EdgeCoderEntry>, Seq<EdgeCoderEntry>)>
    decreases ranks.len(),
{
    if ranks.len() == 0 {
        Some((seq![], pool))
    } else {
        match take_targets(pool, nodes, infos, ranks.drop_last()) {
            None => None,
            Some((taken, p)) => {
                let u = relevant_positions(p, infos[ranks.len() - 1], nodes);
                let r = ranks.last() as int;
                if r >= u.len() {
                    None
                } else {
                    let idx = u[r] as int;
                    Some((taken.push(p[idx]), p.update(idx, mark_used(p[idx]))))
                }
            },
        }
    }
}

/// The bounds of the first packed run: the number of edges, then the number of unused
/// outputs before each source is taken.
pub open spec fn source_bounds(num_outputs: nat, num_edges: nat) -> Seq<u32> {
    seq![num_edges as u32] + Seq::new(num_edges, |j: int| (num_outputs - j) as u32)
}

/// What the decoder knows of each target before choosing it.
pub open spec fn target_infos(ins: Seq<EdgeCoderEntry>, nodes: Seq<Node>, k: nat, ex: Seq<Option<u16>>) -> Seq<EdgeTargetInfo> {
    Seq::new(
        ex.len(),
        |i: int|
            EdgeTargetInfo {
                num_options: target_bound(ins, nodes, k, ex, i) as u32,
                targets_split_merge: i < k,
                expected_item: ex[i],
            },
    )
}

/// The edges read at `p` with the pools `outs` and `ins`: sources as ranks among unused
/// outputs, then targets as ranks among the inputs they can be.
pub open spec fn dec_edges(
    outs: Seq<EdgeCoderEntry>,
    ins: Seq<EdgeCoderEntry>,
    nodes: Seq<Node>,
    s: Seq<bool>,
    p: int,
    n: nat,
) -> Option<Seq<Edge>> {
    if outs.len() < n {
        None
    } else {
        match dec_packed(s, p, source_bounds(outs.len(), n)) {
            None => None,
            Some((r1, p2)) => if r1.len() != n + 1 {
                None
            } else {
                match take_sources(outs, r1.skip(1)) {
                    None => None,
                    Some((srcs, _)) => {
                        let ex = Seq::new(n, |j: int| srcs[j].item);
                        let infos = target_infos(ins, nodes, r1[0] as nat, ex);
                        let b2 = Seq::new(n, |j: int| infos[j].num_options);
                        if exists|j: int| 0 <= j < n && b2[j] == 0 {
                            None
                        } else {
                            match dec_packed(s, p2, b2) {
                                None => None,
                                Some((r2, _)) => if r2.len() != n {
                                    None
                                } else {
                                    match take_targets(ins, nodes, infos, r2) {
                                        None => None,
                                        Some((tgts, _)) => Some(
                                            Seq::new(
                                                n,
                                                |j: int|
                                                    Edge {
                                                        source: GraphHandle { node: srcs[j].node, handle: srcs[j].handle },
                                                        target: GraphHandle { node: tgts[j].node, handle: tgts[j].handle },
                                                    },
                                            ),
                                        ),
                                    }
                                },
                            }
                        }
                    },
                }
            },
        }
    }
}

proof fn lemma_take_sources_prefix(pool: Seq<EdgeCoderEntry>, ranks: Seq<u32>, j: int)
    requires
        0 <= j <= ranks.len(),
        take_sources(pool, ranks.take(j)).is_none(),
    ensures
        take_sources(pool, ranks).is_none(),
    decreases ranks.len() - j,
{
    if j < ranks.len() {
        assert(ranks.take(j + 1).drop_last() =~= ranks.take(j));
        lemma_take_sources_prefix(pool, ranks, j + 1);
    } else {
        assert(ranks.take(j) =~= ranks);
    }
}

proof fn lemma_take_targets_prefix(pool: Seq<EdgeCoderEntry>, nodes: Seq<Node>, infos: Seq<EdgeTargetInfo>, ranks: Seq<u32>, j: int)
    requires
        0 <= j <= ranks.len(),
        take_targets(pool, nodes, infos, ranks.take(j)).is_none(),
    ensures
        take_targets(pool, nodes, infos, ranks).is_none(),
    decreases ranks.len() - j,
{
    if j < ranks.len() {
        assert(ranks.take(j + 1).drop_last() =~= ranks.take(j));
        lemma_take_targets_prefix(pool, nodes, infos, ranks, j + 1);
    } else {
        assert(ranks.take(j) =~= ranks);
    }
}

/// Some entry of the pool names handle `h`.
pub open spec fn in_pool(pool: Seq<EdgeCoderEntry>, h: GraphHandle) -> bool {
    exists|a: int| 0 <= a < pool.len() && handle_of(pool[a]) == h
}

/// The items at both ends of `e` agree, where both carry one.
pub open spec fn compatible(outs: Seq<EdgeCoderEntry>, ins: Seq<EdgeCoderEntry>, e: Edge) -> bool {
    forall|a: int, b: int|
        0 <= a < outs.len() && 0 <= b < ins.len() && handle_of(#[trigger] outs[a]) == e.source && handle_of(
            #[trigger] ins[b],
        ) == e.target ==> item_matches(ins[b].item, outs[a].item)
}

/// Legal edges: each leaves an output handle and enters an input handle of the pools, with
/// compatible items, and no handle serves two edges.
pub open spec fn edges_legal(outs: Seq<EdgeCoderEntry>, ins: Seq<EdgeCoderEntry>, edges: Seq<Edge>) -> bool {
    &&& forall|i: int|
        0 <= i < edges.len() ==> in_pool(outs, (#[trigger] edges[i]).source) && in_pool(ins, edges[i].target)
            && compatible(outs, ins, edges[i])
    &&& forall|i: int, j: int|
        0 <= i < j < edges.len() ==> (#[trigger] edges[i]).source != (#[trigger] edges[j]).source
            && edges[i].target != edges[j].target
}

/// Inputs of nodes other than splitters and mergers carry an item.
pub open spec fn typed_inputs(ins: Seq<EdgeCoderEntry>, nodes: Seq<Node>) -> bool {
    forall|b: int| 0 <= b < ins.len() && !nodes[(#[trigger] ins[b]).node as int].spec_is_split_merge() ==> ins[b].item is Some
}

/// The input pool of recipes carries items.
pub proof fn lemma_typed_inputs(data: GameData, nodes: Seq<Node>)
    requires
        data.wf(),
        nodes_known(data, nodes),
        nodes.len() <= 32768,
    ensures
        typed_inputs(input_pool(data, nodes), nodes),
    decreases nodes.len(),
{
    if nodes.len() > 0 {
        let ns = nodes.drop_last();
        assert(nodes_known(data, ns)) by {
            assert forall|q: int| 0 <= q < ns.len() implies match #[trigger] ns[q] {
                Node::Recipe { recipe, .. } => (recipe as int) < data.recipes@.len(),
                Node::Source { item, .. } => (item as int) < data.source_items@.len(),
                _ => true,
            } by {
                assert(ns[q] == nodes[q]);
            }
        }
        lemma_typed_inputs(data, ns);
        lemma_pools_unique(data, ns);
        let pi = input_pool(data, ns);
        let ti = tagged(nodes.len() - 1, node_inputs(data, nodes.last()));
        assert(input_pool(data, nodes) == pi + ti);
        assert forall|b: int| 0 <= b < (pi + ti).len() && !nodes[(#[trigger] (pi + ti)[b]).node as int].spec_is_split_merge() implies (pi + ti)[b].item is Some by {
            if b < pi.len() {
                assert((pi + ti)[b] == pi[b]);
                assert(ns[pi[b].node as int] == nodes[pi[b].node as int]);
            } else {
                assert((pi + ti)[b].node == nodes.len() - 1);
                assert(nodes[nodes.len() - 1] == nodes.last());
            }
        }
    }
}

/// Legality does not depend on the order of the edges.
proof fn lemma_legal_reorder(outs: Seq<EdgeCoderEntry>, ins: Seq<EdgeCoderEntry>, edges: Seq<Edge>, ss: Seq<Edge>, perm: Seq<int>)
    requires
        edges_legal(outs, ins, edges),
        reorders(ss, edges, perm, edges.len() as int),
    ensures
        edges_legal(outs, ins, ss),
{
    assert forall|i: int| 0 <= i < ss.len() implies in_pool(outs, (#[trigger] ss[i]).source) && in_pool(ins, ss[i].target)
        && compatible(outs, ins, ss[i]) by {
        assert(ss[i] == edges[perm[i]]);
    }
    assert forall|i: int, j: int| 0 <= i < j < ss.len() implies (#[trigger] ss[i]).source != (#[trigger] ss[j]).source
        && ss[i].target != ss[j].target by {
        assert(perm[i] != perm[j]);
        assert(ss[i] == edges[perm[i]] && ss[j] == edges[perm[j]]);
        if perm[i] < perm[j] {
            assert(edges[perm[i]].source != edges[perm[j]].source);
        } else {
            assert(edges[perm[j]].source != edges[perm[i]].source);
        }
    }
}

proof fn lemma_all_split_merge(nodes: Seq<Node>, edges: Seq<Edge>)
    requires
        forall|i: int| 0 <= i < edges.len() ==> nodes[(#[trigger] edges[i]).target.node as int].spec_is_split_merge(),
    ensures
        split_merge_targets(nodes, edges) == edges.len(),
    decreases edges.len(),
{
    if edges.len() > 0 {
        assert(edges[edges.len() - 1] == edges.last());
        assert forall|i: int| 0 <= i < edges.drop_last().len() implies nodes[(#[trigger] edges.drop_last()[i]).target.node as int].spec_is_split_merge() by {
            assert(edges.drop_last()[i] == edges[i]);
        }
        lemma_all_split_merge(nodes, edges.drop_last());
    }
}

/// In the coder's order, the edges into splitters and mergers are exactly the first `k`,
/// and not all of them are.
proof fn lemma_split_merge_first(nodes: Seq<Node>, edges: Seq<Edge>, ss: Seq<Edge>, perm: Seq<int>, k: int)
    requires
        reorders(ss, edges, perm, edges.len() as int),
        ss.len() == edges.len(),
        edges_in_range(nodes, ss),
        forall|i: int, j: int| 0 <= i < j < ss.len() ==> edge_key(nodes, #[trigger] ss[i]) <= edge_key(nodes, #[trigger] ss[j]),
        split_merge_targets(nodes, edges) < edges.len(),
        0 <= k <= ss.len(),
        forall|q: int| 0 <= q < k ==> nodes[(#[trigger] ss[q]).target.node as int].spec_is_split_merge(),
        k == ss.len() || !nodes[ss[k].target.node as int].spec_is_split_merge(),
    ensures
        k < ss.len(),
        forall|q: int| k <= q < ss.len() ==> !nodes[(#[trigger] ss[q]).target.node as int].spec_is_split_merge(),
{
    if k == ss.len() {
        assert forall|a: int| 0 <= a < edges.len() implies nodes[(#[trigger] edges[a]).target.node as int].spec_is_split_merge() by {
            assert(placed(perm, a));
            let q = choose|q: int| 0 <= q < perm.len() && perm[q] == a;
            assert(ss[q] == edges[a]);
        }
        lemma_all_split_merge(nodes, edges);
    }
    assert forall|q: int| k <= q < ss.len() implies !nodes[(#[trigger] ss[q]).target.node as int].spec_is_split_merge() by {
        if q > k {
            assert(edge_key(nodes, ss[k]) <= edge_key(nodes, ss[q]));
        }
    }
}

/// The source of edge `i` is still an unused output, since the sources before are other
/// handles.
proof fn lemma_source_open(
    outs0: Seq<EdgeCoderEntry>,
    ins0: Seq<EdgeCoderEntry>,
    ss: Seq<Edge>,
    taken: Seq<EdgeCoderEntry>,
    p: Seq<EdgeCoderEntry>,
    i: int,
) -> (q: int)
    requires
        0 <= i < ss.len(),
        edges_legal(outs0, ins0, ss),
        taken_from(outs0, taken, p),
        taken.len() == i,
        p.len() <= usize::MAX,
        forall|j: int| 0 <= j < i ==> handle_of(#[trigger] taken[j]) == ss[j].source,
    ensures
        0 <= q < unused_positions(p).len(),
        handle_of(p[unused_positions(p)[q] as int]) == ss[i].source,
{
    assert(in_pool(outs0, ss[i].source));
    let a = choose|a: int| 0 <= a < outs0.len() && handle_of(outs0[a]) == ss[i].source;
    assert(handle_of(p[a]) == handle_of(outs0[a]));
    if p[a].used {
        let j = choose|j: int| 0 <= j < taken.len() && handle_of(#[trigger] taken[j]) == handle_of(outs0[a]);
        assert(ss[j].source != ss[i].source);
    }
    lemma_unused_found(p, a);
    let q = choose|q: int| 0 <= q < unused_positions(p).len() && unused_positions(p)[q] == a;
    q
}

/// The target of edge `i` is still an input that it may be.
proof fn lemma_target_open(
    outs0: Seq<EdgeCoderEntry>,
    ins0: Seq<EdgeCoderEntry>,
    nodes: Seq<Node>,
    ss: Seq<Edge>,
    srcs: Seq<EdgeCoderEntry>,
    tgts: Seq<EdgeCoderEntry>,
    p: Seq<EdgeCoderEntry>,
    infos: Seq<EdgeTargetInfo>,
    k: int,
    i: int,
) -> (q: int)
    requires
        0 <= i < ss.len(),
        i < infos.len(),
        i < srcs.len(),
        edges_legal(outs0, ins0, ss),
        taken_from(ins0, tgts, p),
        tgts.len() == i,
        p.len() <= usize::MAX,
        forall|j: int| 0 <= j < i ==> handle_of(#[trigger] tgts[j]) == ss[j].target,
        outs0.contains(srcs[i]),
        handle_of(srcs[i]) == ss[i].source,
        infos[i].targets_split_merge == (i < k),
        infos[i].expected_item == srcs[i].item,
        (i < k) == nodes[ss[i].target.node as int].spec_is_split_merge(),
    ensures
        0 <= q < relevant_positions(p, infos[i], nodes).len(),
        handle_of(p[relevant_positions(p, infos[i], nodes)[q] as int]) == ss[i].target,
{
    assert(in_pool(ins0, ss[i].target));
    let b = choose|b: int| 0 <= b < ins0.len() && handle_of(ins0[b]) == ss[i].target;
    assert(handle_of(p[b]) == handle_of(ins0[b]));
    if p[b].used {
        let j = choose|j: int| 0 <= j < tgts.len() && handle_of(#[trigger] tgts[j]) == handle_of(ins0[b]);
        assert(ss[j].target != ss[i].target);
    }
    let a = choose|a: int| 0 <= a < outs0.len() && outs0[a] == srcs[i];
    assert(compatible(outs0, ins0, ss[i]));
    assert(item_matches(ins0[b].item, outs0[a].item));
    assert(relevant(p[b], infos[i], nodes));
    lemma_relevant_found(p, infos[i], nodes, b);
    let q = choose|q: int| 0 <= q < relevant_positions(p, infos[i], nodes).len() && relevant_positions(p, infos[i], nodes)[q] == b;
    q
}

proof fn lemma_count_with_tail(t: Seq<EdgeCoderEntry>, g: spec_fn(EdgeCoderEntry) -> bool, lo: int)
    requires
        0 <= lo,
        forall|j: int| lo <= j < t.len() ==> g(#[trigger] t[j]),
    ensures
        count_with(t, g) + lo >= t.len(),
    decreases t.len(),
{
    if t.len() > lo {
        assert(g(t[t.len() - 1]));
        assert forall|j: int| lo <= j < t.drop_last().len() implies g(#[trigger] t.drop_last()[j]) by {
            assert(t.drop_last()[j] == t[j]);
        }
        lemma_count_with_tail(t.drop_last(), g, lo);
    }
}

proof fn lemma_count_with_expected(t: Seq<EdgeCoderEntry>, g: spec_fn(EdgeCoderEntry) -> bool, ex: Seq<Option<u16>>, lo: int, item: u16)
    requires
        0 <= lo,
        t.len() <= ex.len(),
        forall|j: int| lo <= j < t.len() && ex[j] == Some(item) ==> g(#[trigger] t[j]),
    ensures
        count_with(t, g) >= expected_count(ex, lo, t.len() as int, item),
    decreases t.len(),
{
    if t.len() > lo {
        assert forall|j: int| lo <= j < t.drop_last().len() && ex[j] == Some(item) implies g(#[trigger] t.drop_last()[j]) by {
            assert(t.drop_last()[j] == t[j]);
        }
        lemma_count_with_expected(t.drop_last(), g, ex, lo, item);
    }
}

/// The options of target `i` are no more than its bound.
proof fn lemma_options_within_bound(
    ins0: Seq<EdgeCoderEntry>,
    nodes: Seq<Node>,
    infos: Seq<EdgeTargetInfo>,
    ranks: Seq<u32>,
    k: nat,
    ex: Seq<Option<u16>>,
    i: int,
)
    requires
        all_unused(ins0),
        handles_unique(ins0),
        typed_inputs(ins0, nodes),
        ins0.len() <= 0x20000,
        ranks.len() == i,
        0 <= i < ex.len(),
        infos == target_infos(ins0, nodes, k, ex),
        take_targets(ins0, nodes, infos, ranks) is Some,
    ensures
        relevant_positions(take_targets(ins0, nodes, infos, ranks).unwrap().1, infos[i], nodes).len() <= target_bound(
            ins0,
            nodes,
            k,
            ex,
            i,
        ),
        target_bound(ins0, nodes, k, ex, i) <= ins0.len(),
        target_bound(ins0, nodes, k, ex, i) == infos[i].num_options,
{
    let (tgts, p) = take_targets(ins0, nodes, infos, ranks).unwrap();
    let info = infos[i];
    lemma_take_targets(ins0, nodes, infos, ranks);
    lemma_relevant_len(p, info, nodes);
    lemma_count_fresh(ins0, nodes, 0);
    let opt = option_entry(info, nodes);
    if i < k {
        let g = split_merge_entry(nodes);
        lemma_take_targets_count(ins0, nodes, infos, ranks, g);
        lemma_count_mono(p, opt, g);
        assert forall|j: int| 0 <= j < tgts.len() implies g(#[trigger] tgts[j]) by {
            assert(opt_holds(infos, nodes, tgts, j));
        }
        lemma_count_with_tail(tgts, g, 0);
        lemma_count_mono(ins0, g, any_entry());
    } else {
        match ex[i] {
            None => {
                let g = other_entry(nodes);
                lemma_take_targets_count(ins0, nodes, infos, ranks, g);
                lemma_count_mono(p, opt, g);
                assert forall|j: int| k <= j < tgts.len() implies g(#[trigger] tgts[j]) by {
                    assert(opt_holds(infos, nodes, tgts, j));
                }
                lemma_count_with_tail(tgts, g, k as int);
                lemma_count_split(ins0, nodes);
            },
            Some(item) => {
                let g = item_entry(nodes, item);
                lemma_count_fresh(ins0, nodes, item);
                lemma_take_targets_count(ins0, nodes, infos, ranks, g);
                assert forall|a: int| 0 <= a < p.len() && opt(p[a]) implies g(#[trigger] p[a]) by {
                    assert(handle_of(p[a]) == handle_of(ins0[a]));
                    assert(p[a].item == ins0[a].item);
                }
                lemma_count_mono(p, opt, g);
                assert forall|j: int| k <= j < tgts.len() && ex[j] == Some(item) implies g(#[trigger] tgts[j]) by {
                    assert(opt_holds(infos, nodes, tgts, j));
                    assert(ins0.contains(tgts[j]));
                    let b = choose|b: int| 0 <= b < ins0.len() && ins0[b] == tgts[j];
                    assert(typed_inputs(ins0, nodes));
                    assert(!nodes[ins0[b].node as int].spec_is_split_merge());
                }
                lemma_count_with_expected(tgts, g, ex, k as int, item);
                lemma_count_mono(ins0, g, any_entry());
            },
        }
    }
}

/// Each input taken was an option for its target.
pub open spec fn opt_holds(infos: Seq<EdgeTargetInfo>, nodes: Seq<Node>, tgts: Seq<EdgeCoderEntry>, j: int) -> bool {
    (option_entry(infos[j], nodes))(tgts[j])
}

/// Two node lists of one length whose nodes are splitters or mergers at the same places.
pub open spec fn same_kinds(a: Seq<Node>, b: Seq<Node>) -> bool {
    &&& a.len() == b.len()
    &&& forall|k: int| 0 <= k < a.len() ==> (#[trigger] a[k]).spec_is_split_merge() == b[k].spec_is_split_merge()
}

/// Every entry names one of `n` nodes.
pub open spec fn entries_in(es: Seq<EdgeCoderEntry>, n: nat) -> bool {
    forall|x: int| 0 <= x < es.len() ==> ((#[trigger] es[x]).node as int) < n
}

proof fn lemma_kinds_counts(es: Seq<EdgeCoderEntry>, a: Seq<Node>, b: Seq<Node>, item: u16, info: EdgeTargetInfo)
    requires
        same_kinds(a, b),
        entries_in(es, a.len()),
    ensures
        split_merge_inputs(es, a) == split_merge_inputs(es, b),
        item_inputs(es, a, item) == item_inputs(es, b, item),
        relevant_positions(es, info, a) == relevant_positions(es, info, b),
    decreases es.len(),
{
    if es.len() > 0 {
        assert(es[es.len() - 1] == es.last());
        assert(entries_in(es.drop_last(), a.len())) by {
            assert forall|x: int| 0 <= x < es.drop_last().len() implies ((#[trigger] es.drop_last()[x]).node as int) < a.len() by {
                assert(es.drop_last()[x] == es[x]);
            }
        }
        lemma_kinds_counts(es.drop_last(), a, b, item, info);
        assert(a[es.last().node as int].spec_is_split_merge() == b[es.last().node as int].spec_is_split_merge());
    }
}

proof fn lemma_kinds_take_targets(pool: Seq<EdgeCoderEntry>, a: Seq<Node>, b: Seq<Node>, infos: Seq<EdgeTargetInfo>, ranks: Seq<u32>)
    requires
        same_kinds(a, b),
        entries_in(pool, a.len()),
        pool.len() <= usize::MAX,
    ensures
        take_targets(pool, a, infos, ranks) == take_targets(pool, b, infos, ranks),
        take_targets(pool, a, infos, ranks) matches Some((t, p)) ==> entries_in(p, a.len()) && p.len() == pool.len(),
    decreases ranks.len(),
{
    if ranks.len() > 0 {
        lemma_kinds_take_targets(pool, a, b, infos, ranks.drop_last());
        if let Some((t, p)) = take_targets(pool, a, infos, ranks.drop_last()) {
            let info = infos[ranks.len() - 1];
            lemma_kinds_counts(p, a, b, 0, info);
            lemma_relevant_positions(p, info, a);
            let u = relevant_positions(p, info, a);
            let r = ranks.last() as int;
            if r < u.len() {
                let idx = u[r] as int;
                let p2 = p.update(idx, mark_used(p[idx]));
                assert forall|x: int| 0 <= x < p2.len() implies ((#[trigger] p2[x]).node as int) < a.len() by {
                    assert(p[x].node == p2[x].node);
                }
            }
        }
    }
}

/// The edges read depend on the nodes only through which are splitters or mergers.
pub proof fn lemma_dec_edges_kinds(outs: Seq<EdgeCoderEntry>, ins: Seq<EdgeCoderEntry>, a: Seq<Node>, b: Seq<Node>, s: Seq<bool>, p: int, n: nat)
    requires
        same_kinds(a, b),
        entries_in(ins, a.len()),
        ins.len() <= usize::MAX,
    ensures
        dec_edges(outs, ins, a, s, p, n) == dec_edges(outs, ins, b, s, p, n),
{
    if outs.len() >= n {
        if let Some((r1, p2)) = dec_packed(s, p, source_bounds(outs.len(), n)) {
            if r1.len() == n + 1 {
                if let Some((srcs, _)) = take_sources(outs, r1.skip(1)) {
                    let ex = Seq::new(n, |j: int| srcs[j].item);
                    let ia = target_infos(ins, a, r1[0] as nat, ex);
                    let ib = target_infos(ins, b, r1[0] as nat, ex);
                    assert forall|i: int| 0 <= i < ex.len() implies #[trigger] ia[i] == ib[i] by {
                        match ex[i] {
                            Some(item) => lemma_kinds_counts(ins, a, b, item, ia[i]),
                            None => lemma_kinds_counts(ins, a, b, 0, ia[i]),
                        }
                    }
                    assert(ia =~= ib);
                    let b2 = Seq::new(n, |j: int| ia[j].num_options);
                    if let Some((r2, _)) = dec_packed(s, p2, b2) {
                        lemma_kinds_take_targets(ins, a, b, ia, r2);
                    }
                }
            }
        }
    }
}

/// The place of the entry that names handle `h`, if any.
fn find_handle(pool: &Vec<EdgeCoderEntry>, h: &GraphHandle) -> (r: Option<usize>)
    ensures
        match r {
            Some(a) => (a as int) < pool@.len() && handle_of(pool@[a as int]) == *h,
            None => !in_pool(pool@, *h),
        },
{
    let mut a: usize = 0;
    while a < pool.len()
        invariant
            a <= pool@.len(),
            forall|x: int| 0 <= x < a ==> handle_of(#[trigger] pool@[x]) != *h,
        decreases pool@.len() - a,
    {
        if pool[a].is_for(h) {
            return Some(a);
        }
        a = a + 1;
    }
    None
}

/// Whether the edges are legal for the pools of `nodes`: the test of `edges_legal`.
pub fn check_edges_legal(data: &GameData, nodes: &Vec<Node>, edges: &Vec<Edge>) -> (r: bool)
    requires
        data.wf(),
        nodes_known(*data, nodes@),
        nodes@.len() <= 32768,
    ensures
        r == edges_legal(output_pool(*data, nodes@), input_pool(*data, nodes@), edges@),
{
    let coder = EdgeCoder::new(data, nodes);
    let ghost (outs, ins, es) = (coder.outputs@, coder.inputs@, edges@);
    proof {
        lemma_pools_unique(*data, nodes@);
    }
    let mut i: usize = 0;
    while i < edges.len()
        invariant
            i <= es.len(),
            es == edges@,
            outs == coder.outputs@,
            ins == coder.inputs@,
            outs == output_pool(*data, nodes@),
            ins == input_pool(*data, nodes@),
            handles_unique(outs),
            handles_unique(ins),
            forall|j: int| 0 <= j < i ==> in_pool(outs, (#[trigger] es[j]).source) && in_pool(ins, es[j].target) && compatible(outs, ins, es[j]),
        decreases es.len() - i,
    {
        let e = edges[i];
        assert(es[i as int] == e);
        let a = match find_handle(&coder.outputs, &e.source) {
            Some(a) => a,
            None => {
                assert(!edges_legal(outs, ins, es));
                return false;
            },
        };
        let b = match find_handle(&coder.inputs, &e.target) {
            Some(b) => b,
            None => {
                assert(!edges_legal(outs, ins, es));
                return false;
            },
        };
        let ok = match (coder.inputs[b].item, coder.outputs[a].item) {
            (Some(x), Some(y)) => x == y,
            _ => true,
        };
        if !ok {
            assert(!compatible(outs, ins, es[i as int]));
            assert(!edges_legal(outs, ins, es));
            return false;
        }
        proof {
            assert(compatible(outs, ins, e)) by {
                assert forall|a2: int, b2: int|
                    0 <= a2 < outs.len() && 0 <= b2 < ins.len() && handle_of(#[trigger] outs[a2]) == e.source && handle_of(
                        #[trigger] ins[b2],
                    ) == e.target implies item_matches(ins[b2].item, outs[a2].item) by {
                    if a2 != a {
                        if a2 < a {
                            assert(handle_of(outs[a2]) != handle_of(outs[a as int]));
                        } else {
                            assert(handle_of(outs[a as int]) != handle_of(outs[a2]));
                        }
                    }
                    if b2 != b {
                        if b2 < b {
                            assert(handle_of(ins[b2]) != handle_of(ins[b as int]));
                        } else {
                            assert(handle_of(ins[b as int]) != handle_of(ins[b2]));
                        }
                    }
                }
            }
        }
        i = i + 1;
    }
    let mut i: usize = 0;
    while i < edges.len()
        invariant
            i <= es.len(),
            es == edges@,
            outs == output_pool(*data, nodes@),
            ins == input_pool(*data, nodes@),
            forall|j: int| 0 <= j < es.len() ==> in_pool(outs, (#[trigger] es[j]).source) && in_pool(ins, es[j].target) && compatible(outs, ins, es[j]),
            forall|x: int, y: int| 0 <= x < y < es.len() && x < i ==> (#[trigger] es[x]).source != (#[trigger] es[y]).source && es[x].target != es[y].target,
        decreases es.len() - i,
    {
        let mut j: usize = i + 1;
        while j < edges.len()
            invariant
                i < j <= es.len(),
                es == edges@,
                forall|y: int| i < y < j ==> es[i as int].source != (#[trigger] es[y]).source && es[i as int].target != es[y].target,
            decreases es.len() - j,
        {
            if edges[i].source == edges[j].source || edges[i].target == edges[j].target {
                assert(!edges_legal(outs, ins, es));
                return false;
            }
            j = j + 1;
        }
        i = i + 1;
    }
    true
}

/// The place, among the positions `u` of `p`, of the first entry that names handle `h`.
pub open spec fn rank_in(p: Seq<EdgeCoderEntry>, u: Seq<usize>, h: GraphHandle) -> nat
    decreases u.len(),
{
    if u.len() == 0 {
        0
    } else if handle_of(p[u[0] as int]) == h {
        0
    } else {
        1 + rank_in(p, u.skip(1), h)
    }
}

/// The encoder's pass over the sources of `ss`: each source's rank among the unused
/// outputs, the outputs taken, and the pool after.
pub open spec fn source_walk(pool: Seq<EdgeCoderEntry>, ss: Seq<Edge>) -> (Seq<u32>, Seq<EdgeCoderEntry>, Seq<EdgeCoderEntry>)
    decreases ss.len(),
{
    if ss.len() == 0 {
        (seq![], seq![], pool)
    } else {
        let (r, t, p) = source_walk(pool, ss.drop_last());
        let u = unused_positions(p);
        let q = rank_in(p, u, ss.last().source);
        let idx = u[q as int] as int;
        (r.push(q as u32), t.push(p[idx]), p.update(idx, mark_used(p[idx])))
    }
}

/// The encoder's pass over the targets of `ss`: each target's rank among its options,
/// the inputs taken, and the pool after.
pub open spec fn target_walk(pool: Seq<EdgeCoderEntry>, nodes: Seq<Node>, infos: Seq<EdgeTargetInfo>, ss: Seq<Edge>) -> (Seq<u32>, Seq<EdgeCoderEntry>, Seq<EdgeCoderEntry>)
    decreases ss.len(),
{
    if ss.len() == 0 {
        (seq![], seq![], pool)
    } else {
        let (r, t, p) = target_walk(pool, nodes, infos, ss.drop_last());
        let u = relevant_positions(p, infos[ss.len() - 1], nodes);
        let q = rank_in(p, u, ss.last().target);
        let idx = u[q as int] as int;
        (r.push(q as u32), t.push(p[idx]), p.update(idx, mark_used(p[idx])))
    }
}

/// What the encoder knows of each target of the sorted edges.
pub open spec fn coded_infos(outs: Seq<EdgeCoderEntry>, ins: Seq<EdgeCoderEntry>, nodes: Seq<Node>, edges: Seq<Edge>) -> Seq<EdgeTargetInfo> {
    let ss = sorted_edges(nodes, edges);
    let srcs = source_walk(outs, ss).1;
    target_infos(ins, nodes, split_merge_targets(nodes, edges), Seq::new(edges.len(), |j: int| srcs[j].item))
}

/// The edge block: the number of edges into splitters and mergers and the sources' ranks,
/// packed under the source bounds; then the targets' ranks, packed under their bounds.
pub open spec fn edge_block(outs: Seq<EdgeCoderEntry>, ins: Seq<EdgeCoderEntry>, nodes: Seq<Node>, edges: Seq<Edge>) -> Seq<bool> {
    let ss = sorted_edges(nodes, edges);
    let n = edges.len();
    let infos = coded_infos(outs, ins, nodes, edges);
    packed(
        seq![split_merge_targets(nodes, edges) as u32] + source_walk(outs, ss).0,
        source_bounds(outs.len(), n),
    ) + packed(target_walk(ins, nodes, infos, ss).0, Seq::new(n, |j: int| infos[j].num_options))
}

/// Where the edges read by `dec_edges` end.
pub open spec fn edges_end(outs: Seq<EdgeCoderEntry>, ins: Seq<EdgeCoderEntry>, nodes: Seq<Node>, s: Seq<bool>, p: int, n: nat) -> int {
    let (r1, p2) = dec_packed(s, p, source_bounds(outs.len(), n)).unwrap();
    let srcs = take_sources(outs, r1.skip(1)).unwrap().0;
    let infos = target_infos(ins, nodes, r1[0] as nat, Seq::new(n, |j: int| srcs[j].item));
    dec_packed(s, p2, Seq::new(n, |j: int| infos[j].num_options)).unwrap().1
}

/// The first place that names `h` is the first match.
proof fn lemma_rank_in(p: Seq<EdgeCoderEntry>, u: Seq<usize>, h: GraphHandle, r: int)
    requires
        0 <= r < u.len(),
        handle_of(p[u[r] as int]) == h,
        forall|z: int| 0 <= z < r ==> handle_of(p[#[trigger] u[z] as int]) != h,
    ensures
        rank_in(p, u, h) == r,
    decreases r,
{
    if r > 0 {
        assert(handle_of(p[u[0] as int]) != h);
        assert forall|z: int| 0 <= z < r - 1 implies handle_of(p[#[trigger] u.skip(1)[z] as int]) != h by {
            assert(u.skip(1)[z] == u[z + 1]);
        }
        lemma_rank_in(p, u.skip(1), h, r - 1);
    }
}

/// With the edges into splitters and mergers first, their count is where they end.
proof fn lemma_prefix_count(nodes: Seq<Node>, ss: Seq<Edge>, k: int)
    requires
        0 <= k <= ss.len(),
        forall|q: int| 0 <= q < k ==> nodes[(#[trigger] ss[q]).target.node as int].spec_is_split_merge(),
        forall|q: int| k <= q < ss.len() ==> !nodes[(#[trigger] ss[q]).target.node as int].spec_is_split_merge(),
    ensures
        split_merge_targets(nodes, ss) == k,
    decreases ss.len(),
{
    if ss.len() > 0 {
        assert(ss[ss.len() - 1] == ss.last());
        let d = ss.drop_last();
        let k2 = if k == ss.len() { k - 1 } else { k };
        assert forall|q: int| 0 <= q < k2 implies nodes[(#[trigger] d[q]).target.node as int].spec_is_split_merge() by {
            assert(d[q] == ss[q]);
        }
        assert forall|q: int| k2 <= q < d.len() implies !nodes[(#[trigger] d[q]).target.node as int].spec_is_split_merge() by {
            assert(d[q] == ss[q]);
        }
        lemma_prefix_count(nodes, d, k2);
    }
}

/// The source of an edge where `src`, else its target.
pub open spec fn end_of(e: Edge, src: bool) -> GraphHandle {
    if src {
        e.source
    } else {
        e.target
    }
}

/// Outputs or inputs after the encoder ran: the pool with `used` set exactly at the handles
/// taken.
proof fn lemma_used_exactly(
    pool: Seq<EdgeCoderEntry>,
    taken: Seq<EdgeCoderEntry>,
    p: Seq<EdgeCoderEntry>,
    ss: Seq<Edge>,
    edges: Seq<Edge>,
    perm: Seq<int>,
    src: bool,
)
    requires
        taken_from(pool, taken, p),
        taken.len() == ss.len(),
        forall|j: int| 0 <= j < ss.len() ==> handle_of(#[trigger] taken[j]) == end_of(ss[j], src),
        reorders(ss, edges, perm, edges.len() as int),
    ensures
        p.len() == pool.len(),
        forall|a: int|
            0 <= a < p.len() ==> handle_of(#[trigger] p[a]) == handle_of(pool[a]) && p[a].item == pool[a].item
                && (p[a].used <==> exists|i: int| 0 <= i < edges.len() && end_of(#[trigger] edges[i], src) == handle_of(pool[a])),
{
    assert forall|a: int| 0 <= a < p.len() implies handle_of(#[trigger] p[a]) == handle_of(pool[a]) && p[a].item == pool[a].item
        && (p[a].used <==> exists|i: int| 0 <= i < edges.len() && end_of(#[trigger] edges[i], src) == handle_of(pool[a])) by {
        if p[a].used {
            let j = choose|j: int| 0 <= j < taken.len() && handle_of(#[trigger] taken[j]) == handle_of(pool[a]);
            assert(ss[j] == edges[perm[j]]);
            assert(end_of(edges[perm[j]], src) == handle_of(pool[a]));
        } else {
            if exists|i: int| 0 <= i < edges.len() && end_of(#[trigger] edges[i], src) == handle_of(pool[a]) {
                let i = choose|i: int| 0 <= i < edges.len() && end_of(#[trigger] edges[i], src) == handle_of(pool[a]);
                assert(placed(perm, i));
                let q = choose|q: int| 0 <= q < perm.len() && perm[q] == i;
                assert(handle_of(pool[a]) != handle_of(taken[q]));
            }
        }
    }
}

/// Counts the edges that target a splitter or merger.
pub fn count_split_merge_targets(nodes: &Vec<Node>, edges: &Vec<Edge>) -> (r: usize)
    requires
        edges_in_range(nodes@, edges@),
    ensures
        r as nat == split_merge_targets(nodes@, edges@),
{
    let mut r: usize = 0;
    let mut i: usize = 0;
    while i < edges.len()
        invariant
            i <= edges@.len(),
            edges_in_range(nodes@, edges@),
            r as nat == split_merge_targets(nodes@, edges@.take(i as int)),
            r <= i,
        decreases edges@.len() - i,
    {
        proof {
            assert(edges@.take(i + 1).drop_last() =~= edges@.take(i as int));
        }
        assert((edges@[i as int].source.node as int) < nodes@.len());
        if nodes[edges[i].target.node as usize].is_split_merge() {
            r = r + 1;
        }
        i = i + 1;
    }
    assert(edges@.take(edges@.len() as int) =~= edges@);
    r
}

proof fn lemma_take_extends(start: Seq<bool>, mid: Seq<bool>, after: Seq<bool>)
    requires
        mid.len() >= start.len(),
        mid.take(start.len() as int) == start,
        after.len() >= mid.len(),
        after.take(mid.len() as int) == mid,
    ensures
        after.take(start.len() as int) == start,
{
    assert(after.take(start.len() as int) =~= mid.take(start.len() as int));
}

impl EdgeCoderEntry {
    pub fn is_for(&self, h: &GraphHandle) -> (r: bool)
        ensures
            r == (self.node == h.node && self.handle == h.handle),
    {
        self.node == h.node && self.handle == h.handle
    }
}

impl EdgeTargetInfo {
    /// The positions, in order, of the inputs this target can be.
    pub fn relevant_inputs(&self, inputs: &Vec<EdgeCoderEntry>, nodes: &Vec<Node>) -> (r: Vec<usize>)
        requires
            forall|i: int| 0 <= i < inputs@.len() ==> (#[trigger] inputs@[i].node as int) < nodes@.len(),
        ensures
            r@ == relevant_positions(inputs@, *self, nodes@),
            r@.len() <= inputs@.len(),
            forall|k: int| 0 <= k < r@.len() ==> (#[trigger] r@[k] as int) < inputs@.len(),
    {
        let mut r: Vec<usize> = Vec::new();
        let mut i: usize = 0;
        while i < inputs.len()
            invariant
                i <= inputs@.len(),
                forall|q: int| 0 <= q < inputs@.len() ==> (#[trigger] inputs@[q].node as int) < nodes@.len(),
                r@ == relevant_positions(inputs@.take(i as int), *self, nodes@),
                r@.len() <= i,
                forall|k: int| 0 <= k < r@.len() ==> (#[trigger] r@[k] as int) < i,
            decreases inputs@.len() - i,
        {
            let e = &inputs[i];
            let correct_node_type = nodes[e.node as usize].is_split_merge() == self.targets_split_merge;
            let item_ok = match (e.item, self.expected_item) {
                (Some(a), Some(b)) => a == b,
                _ => true,
            };
            proof {
                assert(inputs@.take(i + 1).drop_last() =~= inputs@.take(i as int));
            }
            if !e.used && correct_node_type && item_ok {
                r.push(i);
            }
            i = i + 1;
        }
        assert(inputs@.take(inputs@.len() as int) =~= inputs@);
        r
    }
}

/// The two pools of handles of a node list.
pub struct EdgeCoder {
    pub outputs: Vec<EdgeCoderEntry>,
    pub inputs: Vec<EdgeCoderEntry>,
}

impl EdgeCoder {
    /// Every entry names one of `n` nodes.
    pub open spec fn wf(&self, n: nat) -> bool {
        &&& forall|i: int| 0 <= i < self.outputs@.len() ==> (#[trigger] self.outputs@[i].node as int) < n
        &&& forall|i: int| 0 <= i < self.inputs@.len() ==> (#[trigger] self.inputs@[i].node as int) < n
    }

    /// Builds the output and input pools of `nodes`, all unused.
    pub fn new(data: &GameData, nodes: &Vec<Node>) -> (r: EdgeCoder)
        requires
            data.wf(),
            nodes@.len() <= 32768,
            nodes_known(*data, nodes@),
        ensures
            r.outputs@ == output_pool(*data, nodes@),
            r.inputs@ == input_pool(*data, nodes@),
            r.wf(nodes@.len()),
    {
        let mut inputs: Vec<EdgeCoderEntry> = Vec::new();
        let mut outputs: Vec<EdgeCoderEntry> = Vec::new();
        let mut k: usize = 0;
        while k < nodes.len()
            invariant
                k <= nodes@.len() <= 32768,
                data.wf(),
                nodes_known(*data, nodes@),
                outputs@ == output_pool(*data, nodes@.take(k as int)),
                inputs@ == input_pool(*data, nodes@.take(k as int)),
                forall|i: int| 0 <= i < outputs@.len() ==> (#[trigger] outputs@[i].node as int) < k,
                forall|i: int| 0 <= i < inputs@.len() ==> (#[trigger] inputs@[i].node as int) < k,
            decreases nodes@.len() - k,
        {
            let node_id = k as NodeId;
            let ghost outs_before = outputs@;
            let ghost ins_before = inputs@;
            let ghost n = nodes@[k as int];
            assert(nodes@.take(k + 1).drop_last() =~= nodes@.take(k as int));
            assert(nodes@.take(k + 1).last() == n);
            match &nodes[k] {
                Node::Recipe { recipe, .. } => {
                    let info = &data.recipes[*recipe as usize];
                    let mut i: usize = 0;
                    while i < info.inputs.len()
                        invariant
                            i <= info.inputs@.len() <= 4,
                            inputs@ == ins_before + tagged(k as int, node_inputs(*data, n)).take(i as int),
                            info.inputs@ == data.recipes@[*recipe as int].inputs@,
                            n == nodes@[k as int],
                            node_id == k as u16,
                            n == (Node::Recipe { pos: n->Recipe_pos, recipe: *recipe, buildings_count: n->Recipe_buildings_count, overclock: n->Recipe_overclock }),
                        decreases info.inputs@.len() - i,
                    {
                        let e = EdgeCoderEntry { node: node_id, handle: i as HandleId, item: Some(info.inputs[i]), used: false };
                        assert(node_inputs(*data, n)[i as int] == (i as u8, Some(info.inputs@[i as int])));
                        assert(tagged(k as int, node_inputs(*data, n))[i as int] == e);
                        inputs.push(e);
                        i = i + 1;
                        assert(inputs@ =~= ins_before + tagged(k as int, node_inputs(*data, n)).take(i as int));
                    }
                    let mut i: usize = 0;
                    while i < info.outputs.len()
                        invariant
                            i <= info.outputs@.len() <= 4,
                            outputs@ == outs_before + tagged(k as int, node_outputs(*data, n)).take(i as int),
                            info.outputs@ == data.recipes@[*recipe as int].outputs@,
                            n == nodes@[k as int],
                            node_id == k as u16,
                            n == (Node::Recipe { pos: n->Recipe_pos, recipe: *recipe, buildings_count: n->Recipe_buildings_count, overclock: n->Recipe_overclock }),
                        decreases info.outputs@.len() - i,
                    {
                        let e = EdgeCoderEntry { node: node_id, handle: (i + 4) as HandleId, item: Some(info.outputs[i]), used: false };
                        assert(node_outputs(*data, n)[i as int] == ((4 + i) as u8, Some(info.outputs@[i as int])));
                        assert(tagged(k as int, node_outputs(*data, n))[i as int] == e);
                        outputs.push(e);
                        i = i + 1;
                        assert(outputs@ =~= outs_before + tagged(k as int, node_outputs(*data, n)).take(i as int));
                    }
                    assert(tagged(k as int, node_inputs(*data, n)).take(info.inputs@.len() as int) =~= tagged(k as int, node_inputs(*data, n)));
                    assert(tagged(k as int, node_outputs(*data, n)).take(info.outputs@.len() as int) =~= tagged(k as int, node_outputs(*data, n)));
                },
                Node::Merger { .. } => {
                    inputs.push(EdgeCoderEntry { node: node_id, handle: 0, item: None, used: false });
                    inputs.push(EdgeCoderEntry { node: node_id, handle: 1, item: None, used: false });
                    inputs.push(EdgeCoderEntry { node: node_id, handle: 2, item: None, used: false });
                    outputs.push(EdgeCoderEntry { node: node_id, handle: 3, item: None, used: false });
                },
                Node::Splitter { .. } => {
                    inputs.push(EdgeCoderEntry { node: node_id, handle: 0, item: None, used: false });
                    outputs.push(EdgeCoderEntry { node: node_id, handle: 1, item: None, used: false });
                    outputs.push(EdgeCoderEntry { node: node_id, handle: 2, item: None, used: false });
                    outputs.push(EdgeCoderEntry { node: node_id, handle: 3, item: None, used: false });
                },
                Node::Source { item, .. } => {
                    let it = data.source_items[*item as usize];
                    outputs.push(EdgeCoderEntry { node: node_id, handle: 0, item: Some(it), used: false });
                },
            }
            k = k + 1;
            assert(outputs@ =~= outs_before + tagged(k - 1, node_outputs(*data, n)));
            assert(inputs@ =~= ins_before + tagged(k - 1, node_inputs(*data, n)));
        }
        assert(nodes@.take(nodes@.len() as int) =~= nodes@);
        EdgeCoder { inputs, outputs }
    }

    /// The positions, in order, of the outputs not yet used; an output's rank is its place
    /// in this list.
    pub fn unused_outputs(&self) -> (r: Vec<usize>)
        ensures
            r@ == unused_positions(self.outputs@),
            r@.len() <= self.outputs@.len(),
            forall|k: int| 0 <= k < r@.len() ==> (#[trigger] r@[k] as int) < self.outputs@.len(),
    {
        let mut r: Vec<usize> = Vec::new();
        let mut i: usize = 0;
        while i < self.outputs.len()
            invariant
                i <= self.outputs@.len(),
                r@ == unused_positions(self.outputs@.take(i as int)),
                r@.len() <= i,
                forall|k: int| 0 <= k < r@.len() ==> (#[trigger] r@[k] as int) < i,
            decreases self.outputs@.len() - i,
        {
            proof {
                assert(self.outputs@.take(i + 1).drop_last() =~= self.outputs@.take(i as int));
            }
            if !self.outputs[i].used {
                r.push(i);
            }
            i = i + 1;
        }
        assert(self.outputs@.take(self.outputs@.len() as int) =~= self.outputs@);
        r
    }

    /// Describes the target of each edge: where it may point, and among how many inputs.
    /// The first `num_split_merge_target` edges target splitters or mergers; the others
    /// target inputs of the item their source carries, if it carries one. The counts need
    /// nothing but the edges before, so that the decoder can compute them in advance.
    pub fn targets_iter(
        &self,
        nodes: &Vec<Node>,
        num_split_merge_target: usize,
        expected_items: &Vec<Option<u16>>,
    ) -> (r: Vec<EdgeTargetInfo>)
        requires
            self.wf(nodes@.len()),
            self.inputs@.len() <= u32::MAX,
            expected_items@.len() <= u32::MAX,
        ensures
            r@.len() == expected_items@.len(),
            forall|i: int|
                0 <= i < r@.len() ==> (#[trigger] r@[i]).targets_split_merge == (i < num_split_merge_target)
                    && r@[i].expected_item == expected_items@[i]
                    && r@[i].num_options as nat == target_bound(
                    self.inputs@,
                    nodes@,
                    num_split_merge_target as nat,
                    expected_items@,
                    i,
                ),
    {
        let ghost ins = self.inputs@;
        let ghost ex = expected_items@;
        broadcast use vstd::std_specs::btree::group_btree_axioms, vstd::laws_cmp::group_laws_cmp;

        let ghost k = num_split_merge_target as nat;
        let mut num_split_merges_total: u32 = 0;
        let mut i: usize = 0;
        while i < self.inputs.len()
            invariant
                self.wf(nodes@.len()),
                ins == self.inputs@,
                i <= ins.len() <= u32::MAX,
                num_split_merges_total as nat == split_merge_inputs(ins.take(i as int), nodes@),
                num_split_merges_total <= i,
            decreases ins.len() - i,
        {
            proof {
                assert(ins.take(i + 1).drop_last() =~= ins.take(i as int));
            }
            if nodes[self.inputs[i].node as usize].is_split_merge() {
                num_split_merges_total = num_split_merges_total + 1;
            }
            i = i + 1;
        }
        proof {
            assert(ins.take(ins.len() as int) =~= ins);
        }
        let num_other_total: u32 = (self.inputs.len() as u32) - num_split_merges_total;

        // Inputs of other nodes, by the item they accept. This is only needed because all
        // bounds must be known in advance: the tally stands for the inputs not yet taken.
        let mut num_per_item: BTreeMap<u16, u32> = BTreeMap::new();
        let mut i: usize = 0;
        proof {
            assert(ins.take(0) =~= Seq::<EdgeCoderEntry>::empty());
            assert forall|it: u16| #[trigger] tally(num_per_item@, it) == item_inputs(ins.take(0), nodes@, it) by {
            }
        }
        while i < self.inputs.len()
            invariant
                self.wf(nodes@.len()),
                ins == self.inputs@,
                i <= ins.len() <= u32::MAX,
                forall|it: u16| #[trigger] tally(num_per_item@, it) == item_inputs(ins.take(i as int), nodes@, it),
                forall|it: u16| #[trigger] tally(num_per_item@, it) <= i,
            decreases ins.len() - i,
        {
            let ghost before = num_per_item@;
            proof {
                assert(ins.take(i + 1).drop_last() =~= ins.take(i as int));
                assert(ins.take(i + 1).last() == ins[i as int]);
            }
            let input = &self.inputs[i];
            if let Some(item) = input.item {
                if !nodes[input.node as usize].is_split_merge() {
                    let count: u32 = match num_per_item.get(&item) {
                        Some(c) => *c,
                        None => 0,
                    };
                    assert(count as nat == tally(before, item));
                    num_per_item.insert(item, count + 1);
                }
            }
            i = i + 1;
            proof {
                assert forall|it: u16| #[trigger] tally(num_per_item@, it) == item_inputs(ins.take(i as int), nodes@, it)
                    && tally(num_per_item@, it) <= i by {
                    assert(tally(before, it) == item_inputs(ins.take(i - 1), nodes@, it));
                }
            }
        }
        proof {
            assert(ins.take(ins.len() as int) =~= ins);
        }
        let mut infos: Vec<EdgeTargetInfo> = Vec::new();
        let mut i: usize = 0;
        while i < expected_items.len()
            invariant
                self.wf(nodes@.len()),
                ins == self.inputs@,
                ex == expected_items@,
                k == num_split_merge_target,
                ins.len() <= u32::MAX,
                ex.len() <= u32::MAX,
                num_split_merges_total as nat == split_merge_inputs(ins, nodes@),
                num_split_merges_total <= ins.len(),
                num_other_total == ins.len() - num_split_merges_total,
                i <= ex.len(),
                infos@.len() == i,
                forall|it: u16| #[trigger] tally(num_per_item@, it) == monus(
                    item_inputs(ins, nodes@, it) as int,
                    expected_count(ex, k as int, i as int, it) as int,
                ),
                forall|q: int|
                    0 <= q < i ==> (#[trigger] infos@[q]).targets_split_merge == (q < k)
                        && infos@[q].expected_item == ex[q]
                        && infos@[q].num_options as nat == target_bound(ins, nodes@, k, ex, q),
            decreases ex.len() - i,
        {
            let ghost before = num_per_item@;
            let expected_item = expected_items[i];
            let targets_split_merge = i < num_split_merge_target;
            let num_options: u32 = if targets_split_merge {
                if (i as u64) < (num_split_merges_total as u64) {
                    num_split_merges_total - i as u32
                } else {
                    0
                }
            } else {
                // Edges before this one that target other nodes have taken one input each.
                let taken = (i - num_split_merge_target) as u64;
                match expected_item {
                    Some(item) => take_tally(&mut num_per_item, item),
                    None => if taken < num_other_total as u64 {
                        num_other_total - taken as u32
                    } else {
                        0
                    },
                }
            };
            infos.push(EdgeTargetInfo { num_options, targets_split_merge, expected_item });
            i = i + 1;
            proof {
                assert forall|it: u16| #[trigger] tally(num_per_item@, it) == monus(
                    item_inputs(ins, nodes@, it) as int,
                    expected_count(ex, k as int, i as int, it) as int,
                ) by {
                    let j = i - 1;
                    assert(tally(before, it) == monus(item_inputs(ins, nodes@, it) as int, expected_count(ex, k as int, j, it) as int));
                    if j < k {
                        assert(expected_count(ex, k as int, i as int, it) == 0);
                        assert(expected_count(ex, k as int, j, it) == 0);
                    } else {
                        assert(expected_count(ex, k as int, i as int, it) == expected_count(ex, k as int, j, it) + if ex[j] == Some(it) {
                            1nat
                        } else {
                            0nat
                        });
                    }
                }
            }
        }
        infos
    }


    /// Writes the edges, which the reader must know the number of, as ranks among the
    /// handles still open to them: the decoder, given the same pools, reads back the edges in
    /// the coder's order.
    #[verifier::spinoff_prover]
    #[verifier::rlimit(100)]
    pub fn encode(&mut self, buf: &mut BitBuf, nodes: &Vec<Node>, edges: &Vec<Edge>)
        requires
            old(self).wf(nodes@.len()),
            old(self).outputs@.len() <= 0x20000,
            old(self).inputs@.len() <= 0x20000,
            handles_unique(old(self).outputs@),
            handles_unique(old(self).inputs@),
            all_unused(old(self).outputs@),
            all_unused(old(self).inputs@),
            typed_inputs(old(self).inputs@, nodes@),
            old(buf).wf(),
            edges_in_range(nodes@, edges@),
            edges_legal(old(self).outputs@, old(self).inputs@, edges@),
            0 < edges@.len() < 32768,
            split_merge_targets(nodes@, edges@) < edges@.len(),
            old(buf).pos + 64 * (2 * edges@.len() + 3) <= u32::MAX,
        ensures
            final(self).wf(nodes@.len()),
            final(buf).wf(),
            final(buf).pos <= old(buf).pos + 64 * (2 * edges@.len() + 3),
            final(buf)@.len() >= old(buf)@.len(),
            final(buf)@.take(old(buf)@.len() as int) == old(buf)@,
            final(buf)@ == old(buf)@ + edge_block(old(self).outputs@, old(self).inputs@, nodes@, edges@),
            final(self).outputs@ == source_walk(old(self).outputs@, sorted_edges(nodes@, edges@)).2,
            final(self).inputs@ == target_walk(
                old(self).inputs@,
                nodes@,
                coded_infos(old(self).outputs@, old(self).inputs@, nodes@, edges@),
                sorted_edges(nodes@, edges@),
            ).2,
            final(self).outputs@.len() == old(self).outputs@.len(),
            final(self).inputs@.len() == old(self).inputs@.len(),
            forall|a: int|
                0 <= a < old(self).outputs@.len() ==> handle_of(#[trigger] final(self).outputs@[a]) == handle_of(
                    old(self).outputs@[a],
                ) && final(self).outputs@[a].item == old(self).outputs@[a].item && (final(self).outputs@[a].used
                    <==> exists|i: int| 0 <= i < edges@.len() && (#[trigger] edges@[i]).source == handle_of(old(self).outputs@[a])),
            forall|a: int|
                0 <= a < old(self).inputs@.len() ==> handle_of(#[trigger] final(self).inputs@[a]) == handle_of(
                    old(self).inputs@[a],
                ) && final(self).inputs@[a].item == old(self).inputs@[a].item && (final(self).inputs@[a].used
                    <==> exists|i: int| 0 <= i < edges@.len() && (#[trigger] edges@[i]).target == handle_of(old(self).inputs@[a])),
            forall|rest: Seq<bool>|
                dec_edges(
                    old(self).outputs@,
                    old(self).inputs@,
                    nodes@,
                    #[trigger] (final(buf)@ + rest),
                    old(buf)@.len() as int,
                    edges@.len() as nat,
                ) == Some(sorted_edges(nodes@, edges@)) && edges_end(
                    old(self).outputs@,
                    old(self).inputs@,
                    nodes@,
                    final(buf)@ + rest,
                    old(buf)@.len() as int,
                    edges@.len() as nat,
                ) == final(buf)@.len(),
    {
        let ghost outs0 = self.outputs@;
        let ghost ins0 = self.inputs@;
        let ghost n = edges@.len();
        let ghost start = buf@;
        proof {
            buf.lemma_len();
        }
        let sorted = sort_edges(nodes, edges);
        let ghost ss = sorted@;
        proof {
            let perm = choose|perm: Seq<int>| reorders(ss, edges@, perm, n as int);
            lemma_legal_reorder(outs0, ins0, edges@, ss, perm);
        }

        // Edges into splitters and mergers come first; count them.
        proof {
            assert forall|q: int| 0 <= q < ss.len() implies (#[trigger] ss[q].target.node as int) < nodes@.len() by {
                assert((ss[q].source.node as int) < nodes@.len());
            }
        }
        let mut num_split_merge_target: usize = 0;
        while num_split_merge_target < sorted.len() && nodes[sorted[num_split_merge_target].target.node as usize].is_split_merge()
            invariant
                num_split_merge_target <= ss.len(),
                ss == sorted@,
                edges_in_range(nodes@, ss),
                forall|q: int| 0 <= q < ss.len() ==> (#[trigger] ss[q].target.node as int) < nodes@.len(),
                forall|q: int| 0 <= q < num_split_merge_target ==> nodes@[(#[trigger] ss[q]).target.node as int].spec_is_split_merge(),
            decreases ss.len() - num_split_merge_target,
        {
            num_split_merge_target = num_split_merge_target + 1;
        }
        let k = num_split_merge_target;
        proof {
            let perm = choose|perm: Seq<int>| reorders(ss, edges@, perm, n as int);
            lemma_split_merge_first(nodes@, edges@, ss, perm, k as int);
            lemma_prefix_count(nodes@, ss, k as int);
            lemma_sorted_edges(nodes@, edges@);
            assert(ss.take(0) =~= Seq::<Edge>::empty());
        }

        // Sources: the rank of each among the outputs still unused.
        let num_outputs = self.outputs.len();
        let mut ranks: Vec<u32> = Vec::new();
        let mut bounds: Vec<u32> = Vec::new();
        ranks.push(k as u32);
        bounds.push(edges.len() as u32);
        let mut expected_items: Vec<Option<u16>> = Vec::new();
        let ghost mut taken: Seq<EdgeCoderEntry> = seq![];
        proof {
            lemma_count_fresh(outs0, nodes@, 0);
            assert(ranks@.skip(1) =~= Seq::<u32>::empty());
            assert(bounds@ =~= source_bounds(outs0.len(), n).take(1));
        }
        let mut i: usize = 0;
        while i < sorted.len()
            invariant
                self.wf(nodes@.len()),
                self.outputs@.len() == outs0.len(),
                self.inputs@ == ins0,
                outs0 == old(self).outputs@,
                ins0 == old(self).inputs@,
                num_outputs == outs0.len() <= 0x20000,
                handles_unique(outs0),
                all_unused(outs0),
                edges_legal(outs0, ins0, ss),
                ss == sorted@,
                n == ss.len() == edges@.len() < 32768,
                0 < n,
                k < n,
                i <= n,
                i <= num_outputs,
                ranks@.len() == i + 1,
                ranks@[0] == k,
                bounds@ == source_bounds(outs0.len(), n).take(i + 1),
                in_bounds(ranks@, bounds@),
                take_sources(outs0, ranks@.skip(1)) == Some((taken, self.outputs@)),
                taken_from(outs0, taken, self.outputs@),
                count_open(self.outputs@, any_entry()) + i == outs0.len(),
                count_open(outs0, any_entry()) == outs0.len(),
                taken.len() == i,
                forall|j: int| 0 <= j < i ==> handle_of(#[trigger] taken[j]) == ss[j].source,
                expected_items@ == Seq::new(i as nat, |j: int| taken[j].item),
                source_walk(outs0, ss.take(i as int)) == (ranks@.skip(1), taken, self.outputs@),
            decreases n - i,
        {
            let ghost p = self.outputs@;
            let ghost ranks_before = ranks@;
            let unused = self.unused_outputs();
            let ghost mut q: int = 0;
            proof {
                q = lemma_source_open(outs0, ins0, ss, taken, p, i as int);
                lemma_unused_len(p);
                lemma_unused_positions(p);
            }
            let mut r: usize = 0;
            while r < unused.len() && !self.outputs[unused[r]].is_for(&sorted[i].source)
                invariant
                    r <= unused@.len(),
                    p == self.outputs@,
                    ss == sorted@,
                    i < ss.len(),
                    0 <= q < unused@.len(),
                    handle_of(p[unused@[q] as int]) == ss[i as int].source,
                    forall|z: int| 0 <= z < unused@.len() ==> (#[trigger] unused@[z] as int) < p.len(),
                    forall|z: int| 0 <= z < r ==> handle_of(p[#[trigger] unused@[z] as int]) != ss[i as int].source,
                decreases unused@.len() - r,
            {
                r = r + 1;
            }
            assert(r < unused.len()) by {
                if r >= unused.len() {
                    assert(handle_of(p[unused@[q] as int]) != ss[i as int].source);
                }
            }
            let idx = unused[r];
            let ghost chosen = p[idx as int];
            ranks.push(r as u32);
            bounds.push((num_outputs - i) as u32);
            let mut e = self.outputs[idx];
            e.used = true;
            self.outputs.set(idx, e);
            expected_items.push(e.item);
            proof {
                let rs = ranks@.skip(1);
                assert(rs.drop_last() =~= ranks_before.skip(1));
                assert(rs.last() == r as u32);
                assert(e == mark_used(chosen));
                lemma_take_sources(outs0, rs);
                lemma_take_sources_count(outs0, rs);
                taken = taken.push(chosen);
                assert(bounds@ =~= source_bounds(outs0.len(), n).take(i + 2));
                assert(in_bounds(ranks@, bounds@)) by {
                    assert forall|z: int| 0 <= z < bounds@.len() implies #[trigger] ranks@[z] < bounds@[z] by {
                        if z < i + 1 {
                            assert(ranks@[z] == ranks_before[z]);
                        }
                    }
                }
                assert(expected_items@ =~= Seq::new((i + 1) as nat, |j: int| taken[j].item));
                assert(ss.take(i + 1).drop_last() =~= ss.take(i as int));
                assert(ss.take(i + 1).last() == ss[i as int]);
                lemma_rank_in(p, unused@, ss[i as int].source, r as int);
                assert(rs =~= ranks_before.skip(1).push(r as u32));
            }
            i = i + 1;
        }
        let ghost srcs = taken;
        let ghost outs_after = self.outputs@;
        proof {
            assert(ss.take(n as int) =~= ss);
        }
        let ghost b1 = bounds@;
        let ghost v1 = ranks@;
        proof {
            assert(b1 =~= source_bounds(outs0.len(), n));
            assert(start.len() == old(buf).pos);
        }
        encode_packed(buf, &ranks, &bounds);
        let ghost mid = buf@;

        // Targets: the rank of each among the inputs it can still be.
        let infos = self.targets_iter(nodes, k, &expected_items);
        let ghost ex = expected_items@;
        proof {
            assert(infos@ =~= target_infos(ins0, nodes@, k as nat, ex));
        }
        let mut ranks2: Vec<u32> = Vec::new();
        let mut bounds2: Vec<u32> = Vec::new();
        let ghost mut tgts: Seq<EdgeCoderEntry> = seq![];
        proof {
            assert(ranks2@ =~= Seq::<u32>::empty());
            assert(ss.take(0) =~= Seq::<Edge>::empty());
        }
        let mut i: usize = 0;
        while i < sorted.len()
            invariant
                self.wf(nodes@.len()),
                self.inputs@.len() == ins0.len(),
                ins0 == old(self).inputs@,
                outs0 == old(self).outputs@,
                ins0.len() <= 0x20000,
                handles_unique(ins0),
                all_unused(ins0),
                typed_inputs(ins0, nodes@),
                edges_legal(outs0, ins0, ss),
                ss == sorted@,
                n == ss.len(),
                k < n,
                forall|q: int| 0 <= q < k ==> nodes@[(#[trigger] ss[q]).target.node as int].spec_is_split_merge(),
                forall|q: int| k <= q < n ==> !nodes@[(#[trigger] ss[q]).target.node as int].spec_is_split_merge(),
                srcs.len() == n,
                forall|j: int| 0 <= j < n ==> outs0.contains(#[trigger] srcs[j]),
                forall|j: int| 0 <= j < n ==> handle_of(#[trigger] srcs[j]) == ss[j].source,
                ex == Seq::new(n as nat, |j: int| srcs[j].item),
                infos@ == target_infos(ins0, nodes@, k as nat, ex),
                i <= n,
                ranks2@.len() == i,
                bounds2@ == Seq::new(i as nat, |j: int| infos@[j].num_options),
                in_bounds(ranks2@, bounds2@),
                take_targets(ins0, nodes@, infos@, ranks2@) == Some((tgts, self.inputs@)),
                taken_from(ins0, tgts, self.inputs@),
                tgts.len() == i,
                forall|j: int| 0 <= j < i ==> handle_of(#[trigger] tgts[j]) == ss[j].target,
                target_walk(ins0, nodes@, infos@, ss.take(i as int)) == (ranks2@, tgts, self.inputs@),
                self.outputs@ == outs_after,
            decreases n - i,
        {
            let ghost p = self.inputs@;
            let ghost ranks_before = ranks2@;
            let info = infos[i];
            let relevant = info.relevant_inputs(&self.inputs, nodes);
            let ghost mut q: int = 0;
            proof {
                q = lemma_target_open(outs0, ins0, nodes@, ss, srcs, tgts, p, infos@, k as int, i as int);
                lemma_relevant_positions(p, info, nodes@);
                lemma_options_within_bound(ins0, nodes@, infos@, ranks2@, k as nat, ex, i as int);
                lemma_relevant_len(p, info, nodes@);
            }
            let mut r: usize = 0;
            while r < relevant.len() && !self.inputs[relevant[r]].is_for(&sorted[i].target)
                invariant
                    r <= relevant@.len(),
                    p == self.inputs@,
                    ss == sorted@,
                    i < ss.len(),
                    0 <= q < relevant@.len(),
                    handle_of(p[relevant@[q] as int]) == ss[i as int].target,
                    forall|z: int| 0 <= z < relevant@.len() ==> (#[trigger] relevant@[z] as int) < p.len(),
                    forall|z: int| 0 <= z < r ==> handle_of(p[#[trigger] relevant@[z] as int]) != ss[i as int].target,
                decreases relevant@.len() - r,
            {
                r = r + 1;
            }
            assert(r < relevant.len()) by {
                if r >= relevant.len() {
                    assert(handle_of(p[relevant@[q] as int]) != ss[i as int].target);
                }
            }
            let idx = relevant[r];
            let ghost chosen = p[idx as int];
            ranks2.push(r as u32);
            bounds2.push(info.num_options);
            let mut e = self.inputs[idx];
            e.used = true;
            self.inputs.set(idx, e);
            proof {
                assert(ranks2@.drop_last() =~= ranks_before);
                assert(e == mark_used(chosen));
                lemma_take_targets(ins0, nodes@, infos@, ranks2@);
                tgts = tgts.push(chosen);
                assert(ss.take(i + 1).drop_last() =~= ss.take(i as int));
                assert(ss.take(i + 1).last() == ss[i as int]);
                lemma_rank_in(p, relevant@, ss[i as int].target, r as int);
                assert(bounds2@ =~= Seq::new((i + 1) as nat, |j: int| infos@[j].num_options));
                assert(in_bounds(ranks2@, bounds2@)) by {
                    assert forall|z: int| 0 <= z < bounds2@.len() implies #[trigger] ranks2@[z] < bounds2@[z] by {
                        if z < i {
                            assert(ranks2@[z] == ranks_before[z]);
                        }
                    }
                }
            }
            i = i + 1;
        }
        let ghost b2 = bounds2@;
        let ghost v2 = ranks2@;
        proof {
            assert(b2 =~= Seq::new(n as nat, |j: int| infos@[j].num_options));
        }
        encode_packed(buf, &ranks2, &bounds2);
        proof {
            let pre = start;
            let c1 = packed(v1, b1);
            let c2 = packed(v2, b2);
            assert(ss.take(n as int) =~= ss);
            assert(v1 =~= seq![k as u32] + v1.skip(1));
            assert(infos@ == coded_infos(outs0, ins0, nodes@, edges@));
            assert(buf@ == start + c1 + c2);
            assert(buf@ =~= start + edge_block(outs0, ins0, nodes@, edges@));
            assert(buf@.take(start.len() as int) =~= start);
            let perm = choose|perm: Seq<int>| reorders(ss, edges@, perm, n as int);
            lemma_used_exactly(outs0, srcs, outs_after, ss, edges@, perm, true);
            lemma_used_exactly(ins0, tgts, self.inputs@, ss, edges@, perm, false);
            assert forall|rest: Seq<bool>| dec_edges(outs0, ins0, nodes@, #[trigger] (buf@ + rest), start.len() as int, n as nat) == Some(ss)
                && edges_end(outs0, ins0, nodes@, buf@ + rest, start.len() as int, n as nat) == buf@.len() by {
                let s = buf@ + rest;
                assert(s =~= start + c1 + (c2 + rest));
                crate::subbit::lemma_packed_round_trip(start, v1, b1, c2 + rest);
                assert(s =~= (start + c1) + c2 + rest);
                assert forall|z: int| 0 <= z < b2.len() implies #[trigger] b2[z] >= 1 by {
                    assert(v2[z] < b2[z]);
                }
                assert forall|z: int| 0 <= z < b1.len() implies #[trigger] b1[z] >= 1 by {
                    assert(v1[z] < b1[z]);
                }
                crate::subbit::lemma_packed_round_trip(start + c1, v2, b2, rest);
                assert(!(exists|j: int| 0 <= j < n && b2[j] == 0));
                assert(Seq::new(n as nat, |j: int| Edge {
                    source: GraphHandle { node: srcs[j].node, handle: srcs[j].handle },
                    target: GraphHandle { node: tgts[j].node, handle: tgts[j].handle },
                }) =~= ss);
            }
            assert(ss.to_multiset() == edges@.to_multiset());
        }
    }

    /// Reads `num_edges` edges, the sources first, then the targets.
    pub fn decode(&mut self, buf: &mut BitReader, num_edges: usize, nodes: &Vec<Node>) -> (r: Option<Vec<Edge>>)
        requires
            old(self).wf(nodes@.len()),
            old(self).outputs@.len() <= 0x20000,
            old(self).inputs@.len() <= 0x20000,
            old(buf).wf(),
            0 < num_edges < 32768,
        ensures
            final(buf).wf(),
            final(buf).buf@ == old(buf).buf@,
            match r {
                Some(v) => dec_edges(
                    old(self).outputs@,
                    old(self).inputs@,
                    nodes@,
                    old(buf).stream(),
                    old(buf).pos as int,
                    num_edges as nat,
                ) == Some(v@),
                None => dec_edges(
                    old(self).outputs@,
                    old(self).inputs@,
                    nodes@,
                    old(buf).stream(),
                    old(buf).pos as int,
                    num_edges as nat,
                ).is_none(),
            },
            r.is_some() ==> r.unwrap()@.len() == num_edges && edges_in_range(nodes@, r.unwrap()@),
            r.is_some() ==> final(buf).pos == edges_end(
                old(self).outputs@,
                old(self).inputs@,
                nodes@,
                old(buf).stream(),
                old(buf).pos as int,
                num_edges as nat,
            ),
    {
        let ghost outs0 = self.outputs@;
        let ghost ins0 = self.inputs@;
        let ghost s = buf.stream();
        let ghost p0 = buf.pos as int;
        let ghost n = num_edges as nat;
        let num_outputs = self.outputs.len();
        if num_outputs < num_edges {
            return None;
        }
        let mut bounds: Vec<u32> = Vec::new();
        bounds.push(num_edges as u32);
        let mut j: usize = 0;
        while j < num_edges
            invariant
                j <= num_edges <= num_outputs <= 0x20000,
                bounds@ == seq![num_edges as u32] + Seq::new(j as nat, |q: int| (num_outputs - q) as u32),
                forall|k: int| 0 <= k < bounds@.len() ==> #[trigger] bounds@[k] >= 1,
            decreases num_edges - j,
        {
            bounds.push((num_outputs - j) as u32);
            j = j + 1;
            assert(bounds@ =~= seq![num_edges as u32] + Seq::new(j as nat, |q: int| (num_outputs - q) as u32));
        }
        assert(bounds@ =~= source_bounds(num_outputs as nat, n));
        let ranks = match decode_sub_bit_stream(buf, &bounds) {
            Some(v) => v,
            None => return None,
        };
        if ranks.len() != num_edges + 1 {
            return None;
        }
        let num_split_merge_target = ranks[0] as usize;
        let ghost r1 = ranks@.skip(1);
        let ghost p2 = buf.pos as int;

        // Sources: the rank-th unused output each.
        let mut out: Vec<Edge> = Vec::new();
        let mut expected_items: Vec<Option<u16>> = Vec::new();
        let ghost mut taken: Seq<EdgeCoderEntry> = seq![];
        proof {
            assert(r1.take(0) =~= Seq::<u32>::empty());
        }
        let mut j: usize = 0;
        while j < num_edges
            invariant
                self.wf(nodes@.len()),
                self.outputs@.len() == outs0.len(),
                self.inputs@ == ins0,
                self.inputs@.len() <= 0x20000,
                buf.wf(),
                buf.buf@ == old(buf).buf@,
                ranks@.len() == num_edges + 1,
                r1 == ranks@.skip(1),
                outs0 == old(self).outputs@,
                ins0 == old(self).inputs@,
                s == old(buf).stream(),
                p0 == old(buf).pos,
                n == num_edges,
                num_outputs == outs0.len(),
                dec_packed(s, p0, source_bounds(outs0.len(), n)) == Some((ranks@, p2)),
                j <= num_edges,
                out@.len() == j,
                taken.len() == j,
                take_sources(outs0, r1.take(j as int)) == Some((taken, self.outputs@)),
                expected_items@ == Seq::new(j as nat, |q: int| taken[q].item),
                forall|q: int| 0 <= q < j ==> (#[trigger] out@[q]).source == (GraphHandle { node: taken[q].node, handle: taken[q].handle }),
                edges_in_range(nodes@, out@),
            decreases num_edges - j,
        {
            proof {
                assert(r1.take(j + 1).drop_last() =~= r1.take(j as int));
                assert(r1.take(j + 1).last() == ranks@[j + 1]);
            }
            let unused = self.unused_outputs();
            let rank = ranks[j + 1] as usize;
            if rank >= unused.len() {
                proof {
                    lemma_take_sources_prefix(outs0, r1, j + 1);
                    assert(r1.take(num_edges as int) =~= r1);
                }
                return None;
            }
            let idx = unused[rank];
            let ghost chosen = self.outputs@[idx as int];
            let mut e = self.outputs[idx];
            e.used = true;
            self.outputs.set(idx, e);
            proof {
                taken = taken.push(chosen);
                assert(e == mark_used(chosen));
                assert(expected_items@.push(e.item) =~= Seq::new((j + 1) as nat, |q: int| taken[q].item));
            }
            expected_items.push(e.item);
            // The target is filled in below.
            out.push(Edge {
                source: GraphHandle { node: e.node, handle: e.handle },
                target: GraphHandle { node: e.node, handle: e.handle },
            });
            j = j + 1;
        }
        assert(r1.take(num_edges as int) =~= r1);
        let ghost srcs = taken;
        assert(expected_items@ =~= Seq::new(n, |q: int| srcs[q].item));

        let infos = self.targets_iter(nodes, num_split_merge_target, &expected_items);
        let ghost ex = expected_items@;
        proof {
            assert(infos@ =~= target_infos(ins0, nodes@, ranks@[0] as nat, ex));
        }
        let mut bounds: Vec<u32> = Vec::new();
        let mut j: usize = 0;
        while j < infos.len()
            invariant
                buf.wf(),
                buf.buf@ == old(buf).buf@,
                outs0 == old(self).outputs@,
                ins0 == old(self).inputs@,
                s == old(buf).stream(),
                p0 == old(buf).pos,
                n == num_edges,
                num_outputs == outs0.len(),
                dec_packed(s, p0, source_bounds(outs0.len(), n)) == Some((ranks@, p2)),
                ranks@.len() == num_edges + 1,
                r1 == ranks@.skip(1),
                take_sources(outs0, r1) is Some,
                take_sources(outs0, r1).unwrap().0 == srcs,
                ex == Seq::new(n, |q: int| srcs[q].item),
                infos@ == target_infos(ins0, nodes@, ranks@[0] as nat, ex),
                j <= infos@.len(),
                bounds@ == Seq::new(j as nat, |q: int| infos@[q].num_options),
                forall|k: int| 0 <= k < bounds@.len() ==> #[trigger] bounds@[k] >= 1,
            decreases infos@.len() - j,
        {
            if infos[j].num_options == 0 {
                proof {
                    let b2 = Seq::new(n, |q: int| infos@[q].num_options);
                    assert(b2[j as int] == 0);
                }
                return None;
            }
            bounds.push(infos[j].num_options);
            j = j + 1;
            assert(bounds@ =~= Seq::new(j as nat, |q: int| infos@[q].num_options));
        }
        assert(bounds@ =~= Seq::new(n, |q: int| infos@[q].num_options));
        let ranks2 = match decode_sub_bit_stream(buf, &bounds) {
            Some(v) => v,
            None => return None,
        };
        if ranks2.len() != num_edges {
            return None;
        }
        let ghost p3 = buf.pos as int;
        proof {
            assert(p3 == edges_end(outs0, ins0, nodes@, s, p0, n));
            assert forall|q: int| 0 <= q < n implies #[trigger] infos@[q].num_options >= 1 by {
                assert(bounds@[q] >= 1);
            }
        }

        // Targets: the rank-th input among those each can be.
        let ghost mut tgts: Seq<EdgeCoderEntry> = seq![];
        proof {
            assert(ranks2@.take(0) =~= Seq::<u32>::empty());
        }
        let mut i: usize = 0;
        while i < num_edges
            invariant
                self.wf(nodes@.len()),
                self.inputs@.len() == ins0.len(),
                buf.wf(),
                buf.buf@ == old(buf).buf@,
                ranks2@.len() == num_edges,
                infos@.len() == num_edges,
                outs0 == old(self).outputs@,
                ins0 == old(self).inputs@,
                s == old(buf).stream(),
                p0 == old(buf).pos,
                n == num_edges,
                num_outputs == outs0.len(),
                dec_packed(s, p0, source_bounds(outs0.len(), n)) == Some((ranks@, p2)),
                ranks@.len() == num_edges + 1,
                r1 == ranks@.skip(1),
                take_sources(outs0, r1) is Some,
                take_sources(outs0, r1).unwrap().0 == srcs,
                ex == Seq::new(n, |q: int| srcs[q].item),
                infos@ == target_infos(ins0, nodes@, ranks@[0] as nat, ex),
                forall|q: int| 0 <= q < n ==> #[trigger] infos@[q].num_options >= 1,
                dec_packed(s, p2, Seq::new(n, |q: int| infos@[q].num_options)) is Some,
                dec_packed(s, p2, Seq::new(n, |q: int| infos@[q].num_options)).unwrap().0 == ranks2@,
                buf.pos == p3,
                p3 == edges_end(outs0, ins0, nodes@, s, p0, n),
                i <= num_edges,
                out@.len() == num_edges,
                tgts.len() == i,
                srcs.len() == num_edges,
                take_targets(ins0, nodes@, infos@, ranks2@.take(i as int)) == Some((tgts, self.inputs@)),
                forall|q: int| 0 <= q < num_edges ==> (#[trigger] out@[q]).source == (GraphHandle { node: srcs[q].node, handle: srcs[q].handle }),
                forall|q: int| 0 <= q < i ==> (#[trigger] out@[q]).target == (GraphHandle { node: tgts[q].node, handle: tgts[q].handle }),
                edges_in_range(nodes@, out@),
            decreases num_edges - i,
        {
            proof {
                assert(ranks2@.take(i + 1).drop_last() =~= ranks2@.take(i as int));
                assert(ranks2@.take(i + 1).last() == ranks2@[i as int]);
            }
            let relevant = infos[i].relevant_inputs(&self.inputs, nodes);
            let rank = ranks2[i] as usize;
            if rank >= relevant.len() {
                proof {
                    lemma_take_targets_prefix(ins0, nodes@, infos@, ranks2@, i + 1);
                    assert(ranks2@.take(num_edges as int) =~= ranks2@);
                }
                return None;
            }
            let idx = relevant[rank];
            let ghost chosen = self.inputs@[idx as int];
            let mut e = self.inputs[idx];
            e.used = true;
            self.inputs.set(idx, e);
            proof {
                tgts = tgts.push(chosen);
                assert(e == mark_used(chosen));
            }
            let source = out[i].source;
            out.set(i, Edge { source, target: GraphHandle { node: e.node, handle: e.handle } });
            i = i + 1;
        }
        proof {
            assert(ranks2@.take(num_edges as int) =~= ranks2@);
        }
        Some(out)
    }
}

/// The unused positions are in range and unused.
proof fn lemma_unused_positions(es: Seq<EdgeCoderEntry>)
    requires
        es.len() <= usize::MAX,
    ensures
        forall|q: int|
            0 <= q < unused_positions(es).len() ==> (#[trigger] unused_positions(es)[q] as int) < es.len()
                && !es[unused_positions(es)[q] as int].used,
    decreases es.len(),
{
    if es.len() > 0 {
        let prev = es.drop_last();
        lemma_unused_positions(prev);
        let u = unused_positions(es);
        assert forall|q: int| 0 <= q < u.len() implies (#[trigger] u[q] as int) < es.len() && !es[u[q] as int].used by {
            if q < unused_positions(prev).len() {
                assert(u[q] == unused_positions(prev)[q]);
                assert(prev[u[q] as int] == es[u[q] as int]);
            }
        }
    }
}

/// The relevant positions are in range and unused.
proof fn lemma_relevant_positions(es: Seq<EdgeCoderEntry>, info: EdgeTargetInfo, nodes: Seq<Node>)
    requires
        es.len() <= usize::MAX,
    ensures
        forall|q: int|
            0 <= q < relevant_positions(es, info, nodes).len() ==> (#[trigger] relevant_positions(es, info, nodes)[q] as int)
                < es.len() && !es[relevant_positions(es, info, nodes)[q] as int].used,
    decreases es.len(),
{
    if es.len() > 0 {
        let prev = es.drop_last();
        lemma_relevant_positions(prev, info, nodes);
        let u = relevant_positions(es, info, nodes);
        assert forall|q: int| 0 <= q < u.len() implies (#[trigger] u[q] as int) < es.len() && !es[u[q] as int].used by {
            if q < relevant_positions(prev, info, nodes).len() {
                assert(u[q] == relevant_positions(prev, info, nodes)[q]);
                assert(prev[u[q] as int] == es[u[q] as int]);
            }
        }
    }
}

/// How a pool stands after entries were taken from it: same handles, and every entry still
/// unused names a handle that none of the taken entries names.
pub open spec fn taken_from(pool: Seq<EdgeCoderEntry>, taken: Seq<EdgeCoderEntry>, p: Seq<EdgeCoderEntry>) -> bool {
    &&& p.len() == pool.len()
    &&& forall|a: int| 0 <= a < p.len() ==> handle_of(#[trigger] p[a]) == handle_of(pool[a])
    &&& forall|a: int| 0 <= a < p.len() ==> (#[trigger] p[a]).item == pool[a].item
    &&& forall|a: int, j: int|
        0 <= a < p.len() && 0 <= j < taken.len() && !(#[trigger] p[a]).used ==> handle_of(pool[a]) != handle_of(
            #[trigger] taken[j],
        )
    &&& forall|j: int| 0 <= j < taken.len() ==> pool.contains(#[trigger] taken[j])
    &&& forall|j: int, k: int| 0 <= j < k < taken.len() ==> handle_of(#[trigger] taken[j]) != handle_of(#[trigger] taken[k])
    &&& forall|a: int|
        0 <= a < p.len() && (#[trigger] p[a]).used ==> exists|j: int| 0 <= j < taken.len() && handle_of(#[trigger] taken[j]) == handle_of(pool[a])
}

/// Counts the unused entries that satisfy `g`.
pub open spec fn count_open(es: Seq<EdgeCoderEntry>, g: spec_fn(EdgeCoderEntry) -> bool) -> nat
    decreases es.len(),
{
    if es.len() == 0 {
        0
    } else {
        count_open(es.drop_last(), g) + if !es.last().used && g(es.last()) {
            1nat
        } else {
            0nat
        }
    }
}

/// Counts the entries that satisfy `g`.
pub open spec fn count_with(es: Seq<EdgeCoderEntry>, g: spec_fn(EdgeCoderEntry) -> bool) -> nat
    decreases es.len(),
{
    if es.len() == 0 {
        0
    } else {
        count_with(es.drop_last(), g) + if g(es.last()) {
            1nat
        } else {
            0nat
        }
    }
}

/// Every entry.
pub open spec fn any_entry() -> spec_fn(EdgeCoderEntry) -> bool {
    |e: EdgeCoderEntry| true
}

/// Entries of splitters and mergers.
pub open spec fn split_merge_entry(nodes: Seq<Node>) -> spec_fn(EdgeCoderEntry) -> bool {
    |e: EdgeCoderEntry| nodes[e.node as int].spec_is_split_merge()
}

/// Entries of other nodes.
pub open spec fn other_entry(nodes: Seq<Node>) -> spec_fn(EdgeCoderEntry) -> bool {
    |e: EdgeCoderEntry| !nodes[e.node as int].spec_is_split_merge()
}

/// Entries of other nodes that accept `item`.
pub open spec fn item_entry(nodes: Seq<Node>, item: u16) -> spec_fn(EdgeCoderEntry) -> bool {
    |e: EdgeCoderEntry| !nodes[e.node as int].spec_is_split_merge() && e.item == Some(item)
}

/// Entries that a target described by `info` may be, used or not.
pub open spec fn option_entry(info: EdgeTargetInfo, nodes: Seq<Node>) -> spec_fn(EdgeCoderEntry) -> bool {
    |e: EdgeCoderEntry| nodes[e.node as int].spec_is_split_merge() == info.targets_split_merge && item_matches(e.item, info.expected_item)
}

/// Marking an unused entry used removes it from every count it was in.
proof fn lemma_count_mark(p: Seq<EdgeCoderEntry>, idx: int, g: spec_fn(EdgeCoderEntry) -> bool)
    requires
        0 <= idx < p.len(),
        !p[idx].used,
    ensures
        count_open(p.update(idx, mark_used(p[idx])), g) + (if g(p[idx]) {
            1nat
        } else {
            0nat
        }) == count_open(p, g),
    decreases p.len(),
{
    let q = p.update(idx, mark_used(p[idx]));
    if idx == p.len() - 1 {
        assert(q.drop_last() =~= p.drop_last());
    } else {
        assert(q.drop_last() =~= p.drop_last().update(idx, mark_used(p.drop_last()[idx])));
        lemma_count_mark(p.drop_last(), idx, g);
    }
}

/// A weaker condition counts no fewer entries.
proof fn lemma_count_mono(p: Seq<EdgeCoderEntry>, f: spec_fn(EdgeCoderEntry) -> bool, g: spec_fn(EdgeCoderEntry) -> bool)
    requires
        forall|a: int| 0 <= a < p.len() && f(p[a]) ==> g(#[trigger] p[a]),
    ensures
        count_open(p, f) <= count_open(p, g),
    decreases p.len(),
{
    if p.len() > 0 {
        assert(p[p.len() - 1] == p.last());
        lemma_count_mono(p.drop_last(), f, g);
    }
}

/// Two conditions that agree on every entry count the same.
proof fn lemma_count_same(p: Seq<EdgeCoderEntry>, f: spec_fn(EdgeCoderEntry) -> bool, g: spec_fn(EdgeCoderEntry) -> bool)
    requires
        forall|a: int| 0 <= a < p.len() ==> f(#[trigger] p[a]) == g(p[a]),
    ensures
        count_open(p, f) == count_open(p, g),
{
    lemma_count_mono(p, f, g);
    lemma_count_mono(p, g, f);
}

/// Entries of splitters and mergers and entries of other nodes make up all entries.
proof fn lemma_count_split(p: Seq<EdgeCoderEntry>, nodes: Seq<Node>)
    ensures
        count_open(p, split_merge_entry(nodes)) + count_open(p, other_entry(nodes)) == count_open(p, any_entry()),
    decreases p.len(),
{
    if p.len() > 0 {
        lemma_count_split(p.drop_last(), nodes);
    }
}

/// In a pool none of whose entries is used, the counts are those of the pool's spec.
proof fn lemma_count_fresh(p: Seq<EdgeCoderEntry>, nodes: Seq<Node>, item: u16)
    requires
        all_unused(p),
    ensures
        count_open(p, any_entry()) == p.len(),
        count_open(p, split_merge_entry(nodes)) == split_merge_inputs(p, nodes),
        count_open(p, item_entry(nodes, item)) == item_inputs(p, nodes, item),
    decreases p.len(),
{
    if p.len() > 0 {
        assert(!p[p.len() - 1].used);
        lemma_count_fresh(p.drop_last(), nodes, item);
    }
}

/// The unused positions are as many as the unused entries.
proof fn lemma_unused_len(p: Seq<EdgeCoderEntry>)
    ensures
        unused_positions(p).len() == count_open(p, any_entry()),
    decreases p.len(),
{
    if p.len() > 0 {
        lemma_unused_len(p.drop_last());
    }
}

/// The options of a target are as many as the unused entries it may be.
proof fn lemma_relevant_len(p: Seq<EdgeCoderEntry>, info: EdgeTargetInfo, nodes: Seq<Node>)
    ensures
        relevant_positions(p, info, nodes).len() == count_open(p, option_entry(info, nodes)),
    decreases p.len(),
{
    if p.len() > 0 {
        lemma_relevant_len(p.drop_last(), info, nodes);
    }
}

/// Every unused entry has a place among the unused positions.
proof fn lemma_unused_found(p: Seq<EdgeCoderEntry>, a: int)
    requires
        0 <= a < p.len() <= usize::MAX,
        !p[a].used,
    ensures
        exists|q: int| 0 <= q < unused_positions(p).len() && unused_positions(p)[q] == a,
    decreases p.len(),
{
    let u = unused_positions(p);
    if a == p.len() - 1 {
        assert(u[u.len() - 1] == a);
    } else {
        assert(p.drop_last()[a] == p[a]);
        lemma_unused_found(p.drop_last(), a);
        let q = choose|q: int| 0 <= q < unused_positions(p.drop_last()).len() && unused_positions(p.drop_last())[q] == a;
        assert(u[q] == a);
    }
}

/// Every unused entry that a target may be has a place among its options.
proof fn lemma_relevant_found(p: Seq<EdgeCoderEntry>, info: EdgeTargetInfo, nodes: Seq<Node>, a: int)
    requires
        0 <= a < p.len() <= usize::MAX,
        relevant(p[a], info, nodes),
    ensures
        exists|q: int| 0 <= q < relevant_positions(p, info, nodes).len() && relevant_positions(p, info, nodes)[q] == a,
    decreases p.len(),
{
    let u = relevant_positions(p, info, nodes);
    if a == p.len() - 1 {
        assert(u[u.len() - 1] == a);
    } else {
        assert(p.drop_last()[a] == p[a]);
        lemma_relevant_found(p.drop_last(), info, nodes, a);
        let q = choose|q: int| 0 <= q < relevant_positions(p.drop_last(), info, nodes).len() && relevant_positions(p.drop_last(), info, nodes)[q] == a;
        assert(u[q] == a);
    }
}

/// Counts after taking outputs by rank: one unused output fewer per output taken.
proof fn lemma_take_sources_count(pool: Seq<EdgeCoderEntry>, ranks: Seq<u32>)
    requires
        pool.len() <= usize::MAX,
    ensures
        take_sources(pool, ranks) matches Some((taken, p)) ==> count_open(p, any_entry()) + taken.len() == count_open(pool, any_entry())
            && p.len() == pool.len() && taken.len() == ranks.len(),
    decreases ranks.len(),
{
    if ranks.len() > 0 {
        lemma_take_sources_count(pool, ranks.drop_last());
        if let Some((taken, p)) = take_sources(pool, ranks.drop_last()) {
            lemma_unused_positions(p);
            let u = unused_positions(p);
            let r = ranks.last() as int;
            if r < u.len() {
                lemma_count_mark(p, u[r] as int, any_entry());
            }
        }
    }
}

/// Counts after taking inputs by rank, and what each input taken satisfies.
proof fn lemma_take_targets_count(pool: Seq<EdgeCoderEntry>, nodes: Seq<Node>, infos: Seq<EdgeTargetInfo>, ranks: Seq<u32>, g: spec_fn(EdgeCoderEntry) -> bool)
    requires
        pool.len() <= usize::MAX,
    ensures
        take_targets(pool, nodes, infos, ranks) matches Some((taken, p)) ==> {
            &&& count_open(p, g) + count_with(taken, g) == count_open(pool, g)
            &&& taken.len() == ranks.len()
            &&& p.len() == pool.len()
            &&& forall|j: int| 0 <= j < taken.len() ==> (option_entry(infos[j], nodes))(#[trigger] taken[j])
        },
    decreases ranks.len(),
{
    if ranks.len() > 0 {
        lemma_take_targets_count(pool, nodes, infos, ranks.drop_last(), g);
        if let Some((taken, p)) = take_targets(pool, nodes, infos, ranks.drop_last()) {
            let info = infos[ranks.len() - 1];
            lemma_relevant_positions(p, info, nodes);
            let u = relevant_positions(p, info, nodes);
            let r = ranks.last() as int;
            if r < u.len() {
                let idx = u[r] as int;
                lemma_relevant_member(p, info, nodes, r);
                lemma_count_mark(p, idx, g);
                let t2 = taken.push(p[idx]);
                assert(t2.drop_last() =~= taken);
                assert forall|j: int| 0 <= j < t2.len() implies (option_entry(infos[j], nodes))(#[trigger] t2[j]) by {
                    if j < taken.len() {
                        assert(t2[j] == taken[j]);
                    }
                }
            }
        }
    }
}

/// Each option of a target is an entry it may be.
proof fn lemma_relevant_member(p: Seq<EdgeCoderEntry>, info: EdgeTargetInfo, nodes: Seq<Node>, q: int)
    requires
        0 <= q < relevant_positions(p, info, nodes).len(),
        p.len() <= usize::MAX,
    ensures
        relevant(p[relevant_positions(p, info, nodes)[q] as int], info, nodes),
    decreases p.len(),
{
    let u = relevant_positions(p, info, nodes);
    let prev = p.drop_last();
    if q < relevant_positions(prev, info, nodes).len() {
        lemma_relevant_member(prev, info, nodes, q);
        lemma_relevant_positions(prev, info, nodes);
        assert(u[q] == relevant_positions(prev, info, nodes)[q]);
        assert(prev[u[q] as int] == p[u[q] as int]);
    }
}

/// Counts over one entry more.
proof fn lemma_count_with_push(es: Seq<EdgeCoderEntry>, e: EdgeCoderEntry, g: spec_fn(EdgeCoderEntry) -> bool)
    ensures
        count_with(es.push(e), g) == count_with(es, g) + if g(e) {
            1nat
        } else {
            0nat
        },
{
    assert(es.push(e).drop_last() =~= es);
}

/// Taking one more unused entry keeps `taken_from`.
proof fn lemma_take_one(pool: Seq<EdgeCoderEntry>, taken: Seq<EdgeCoderEntry>, p: Seq<EdgeCoderEntry>, idx: int)
    requires
        handles_unique(pool),
        all_unused(pool),
        taken_from(pool, taken, p),
        0 <= idx < p.len(),
        !p[idx].used,
    ensures
        taken_from(pool, taken.push(p[idx]), p.update(idx, mark_used(p[idx]))),
{
    let t2 = taken.push(p[idx]);
    let p2 = p.update(idx, mark_used(p[idx]));
    assert(p[idx] == pool[idx]);
    assert forall|a: int, j: int|
        0 <= a < p2.len() && 0 <= j < t2.len() && !(#[trigger] p2[a]).used implies handle_of(pool[a]) != handle_of(
            #[trigger] t2[j],
        ) by {
        if j == taken.len() {
            assert(a != idx);
        } else {
            assert(t2[j] == taken[j]);
        }
    }
    assert forall|j: int| 0 <= j < t2.len() implies pool.contains(#[trigger] t2[j]) by {
        if j == taken.len() {
            assert(pool[idx] == t2[j]);
        } else {
            assert(t2[j] == taken[j]);
        }
    }
    assert forall|j: int, k: int| 0 <= j < k < t2.len() implies handle_of(#[trigger] t2[j]) != handle_of(#[trigger] t2[k]) by {
        if k == taken.len() {
            assert(t2[j] == taken[j]);
        } else {
            assert(t2[j] == taken[j]);
            assert(t2[k] == taken[k]);
        }
    }
    assert forall|a: int| 0 <= a < p2.len() && (#[trigger] p2[a]).used implies exists|j: int|
        0 <= j < t2.len() && handle_of(#[trigger] t2[j]) == handle_of(pool[a]) by {
        if a == idx {
            assert(handle_of(t2[taken.len() as int]) == handle_of(pool[a]));
        } else {
            assert(p[a].used);
            let j = choose|j: int| 0 <= j < taken.len() && handle_of(#[trigger] taken[j]) == handle_of(pool[a]);
            assert(t2[j] == taken[j]);
        }
    }
}

/// Outputs taken by rank come from the pool and name distinct handles.
pub proof fn lemma_take_sources(pool: Seq<EdgeCoderEntry>, ranks: Seq<u32>)
    requires
        pool.len() <= usize::MAX,
        handles_unique(pool),
        all_unused(pool),
    ensures
        take_sources(pool, ranks) matches Some((taken, p)) ==> taken_from(pool, taken, p) && taken.len()
            == ranks.len(),
    decreases ranks.len(),
{
    if ranks.len() == 0 {
    } else {
        lemma_take_sources(pool, ranks.drop_last());
        if let Some((taken, p)) = take_sources(pool, ranks.drop_last()) {
            lemma_unused_positions(p);
            let u = unused_positions(p);
            let r = ranks.last() as int;
            if r < u.len() {
                lemma_take_one(pool, taken, p, u[r] as int);
            }
        }
    }
}

/// Inputs taken by rank come from the pool and name distinct handles.
pub proof fn lemma_take_targets(pool: Seq<EdgeCoderEntry>, nodes: Seq<Node>, infos: Seq<EdgeTargetInfo>, ranks: Seq<u32>)
    requires
        pool.len() <= usize::MAX,
        handles_unique(pool),
        all_unused(pool),
    ensures
        take_targets(pool, nodes, infos, ranks) matches Some((taken, p)) ==> taken_from(pool, taken, p)
            && taken.len() == ranks.len(),
    decreases ranks.len(),
{
    if ranks.len() == 0 {
    } else {
        lemma_take_targets(pool, nodes, infos, ranks.drop_last());
        if let Some((taken, p)) = take_targets(pool, nodes, infos, ranks.drop_last()) {
            let info = infos[ranks.len() - 1];
            lemma_relevant_positions(p, info, nodes);
            let u = relevant_positions(p, info, nodes);
            let r = ranks.last() as int;
            if r < u.len() {
                lemma_take_one(pool, taken, p, u[r] as int);
            }
        }
    }
}

/// Decoded edges are sound: each source is an output handle of its node, each target an
/// input handle of its node, and no handle serves two edges.
pub proof fn lemma_decoded_edges_valid(data: GameData, nodes: Seq<Node>, s: Seq<bool>, p: int, n: nat)
    requires
        data.wf(),
        nodes_known(data, nodes),
        nodes.len() <= 32768,
        dec_edges(output_pool(data, nodes), input_pool(data, nodes), nodes, s, p, n) is Some,
    ensures
        ({
            let es = dec_edges(output_pool(data, nodes), input_pool(data, nodes), nodes, s, p, n).unwrap();
            &&& es.len() == n
            &&& forall|i: int| 0 <= i < n ==> exists|a: int|
                0 <= a < output_pool(data, nodes).len() && handle_of(#[trigger] output_pool(data, nodes)[a]) == (#[trigger] es[i]).source
            &&& forall|i: int| 0 <= i < n ==> exists|a: int|
                0 <= a < input_pool(data, nodes).len() && handle_of(#[trigger] input_pool(data, nodes)[a]) == (#[trigger] es[i]).target
            &&& forall|i: int, j: int| 0 <= i < j < n ==> (#[trigger] es[i]).source != (#[trigger] es[j]).source
                && es[i].target != es[j].target
        }),
{
    let (outs, ins) = (output_pool(data, nodes), input_pool(data, nodes));
    lemma_pools_unique(data, nodes);
    lemma_pool_len(data, nodes);
    let es = dec_edges(outs, ins, nodes, s, p, n).unwrap();
    let (r1, p2) = dec_packed(s, p, source_bounds(outs.len(), n)).unwrap();
    lemma_take_sources(outs, r1.skip(1));
    let (srcs, _) = take_sources(outs, r1.skip(1)).unwrap();
    let ex = Seq::new(n, |j: int| srcs[j].item);
    let infos = target_infos(ins, nodes, r1[0] as nat, ex);
    let b2 = Seq::new(n, |j: int| infos[j].num_options);
    let (r2, _) = dec_packed(s, p2, b2).unwrap();
    lemma_take_targets(ins, nodes, infos, r2);
    let (tgts, _) = take_targets(ins, nodes, infos, r2).unwrap();
    assert forall|i: int| 0 <= i < n implies exists|a: int|
        0 <= a < outs.len() && handle_of(#[trigger] outs[a]) == (#[trigger] es[i]).source by {
        assert(outs.contains(srcs[i]));
        let a = choose|a: int| 0 <= a < outs.len() && outs[a] == srcs[i];
        assert(handle_of(outs[a]) == es[i].source);
    }
    assert forall|i: int| 0 <= i < n implies exists|a: int|
        0 <= a < ins.len() && handle_of(#[trigger] ins[a]) == (#[trigger] es[i]).target by {
        assert(ins.contains(tgts[i]));
        let a = choose|a: int| 0 <= a < ins.len() && ins[a] == tgts[i];
        assert(handle_of(ins[a]) == es[i].target);
    }
    assert forall|i: int, j: int| 0 <= i < j < n implies (#[trigger] es[i]).source != (#[trigger] es[j]).source
        && es[i].target != es[j].target by {
        assert(handle_of(srcs[i]) != handle_of(srcs[j]));
        assert(handle_of(tgts[i]) != handle_of(tgts[j]));
    }
}

} // verus!
