//! The digest: the whole state in a few bytes.
//!
//! Layout, bit by bit:
//! - version: 8 bits
//! - node count: length code
//! - if there are nodes: the bits per x and per y coordinate, less 4, in 4 bits each; the
//!   position of each node in grid steps from the smallest x and y; then each node's tag
//!   (recipe 0, merger 1, splitter 2, source 3) and fields
//! - zero fill to a byte boundary
//! - edge count: length code
//! - if there are edges: the edge coder's ranks
use crate::bits::{
    bits_needed, bits_of, dec_len, field, fits, len_code, pad_len, stream_of, zeros, BitBuf,
    BitReader,
};
use crate::edges::{
    edge_block, sorted_edges, node_inputs, node_outputs, dec_edges, edges_in_range, edges_legal, input_pool, nodes_known, output_pool, split_merge_targets,
    EdgeCoder,
};
use crate::fields::{
    buildings_code, dec_buildings, dec_overclock, dec_rate, dec_recipe, dec_source_item,
    overclock_code, rate_code, read_building_count, read_overclock, read_recipe_kind,
    read_source_item_kind, read_source_rate, recipe_code, source_item_code, write_building_count,
    write_overclock, write_recipe_kind, write_source_item_kind, write_source_rate,
    BUILDINGS_LIMIT, RATE_LIMIT,
};
use crate::state::{Edge, GameData, Graph, Input, Node, Overclock, Pos, State};
use vstd::arithmetic::power2::pow2;
use vstd::prelude::*;

verus! {

/// Fewest bits stored per coordinate.
pub const MIN_POS_BITS: u8 = 4;

/// Most grid steps a coordinate may span: `2^19`, the reach of 4 bits of bit count.
pub const MAX_POS_STEPS: i64 = 0x80000;

/// A coordinate of a node: `x` where `ax`, else `y`.
pub open spec fn coord(n: Node, ax: bool) -> int {
    if ax {
        n.spec_pos().x as int
    } else {
        n.spec_pos().y as int
    }
}

/// The smallest coordinate, `i32::MAX` for no nodes.
pub open spec fn min_coord(ns: Seq<Node>, ax: bool) -> int
    decreases ns.len(),
{
    if ns.len() == 0 {
        i32::MAX as int
    } else {
        let m = min_coord(ns.drop_last(), ax);
        let c = coord(ns.last(), ax);
        if c < m {
            c
        } else {
            m
        }
    }
}

/// The largest coordinate, `i32::MIN` for no nodes.
pub open spec fn max_coord(ns: Seq<Node>, ax: bool) -> int
    decreases ns.len(),
{
    if ns.len() == 0 {
        i32::MIN as int
    } else {
        let m = max_coord(ns.drop_last(), ax);
        let c = coord(ns.last(), ax);
        if c > m {
            c
        } else {
            m
        }
    }
}

/// Bits per coordinate: enough for the span in grid steps, and at least 4.
pub open spec fn pos_bits(ns: Seq<Node>, ax: bool) -> nat {
    let b = bits_needed(((max_coord(ns, ax) - min_coord(ns, ax)) / 25 + 1) as nat);
    if b < 4 {
        4
    } else {
        b
    }
}

/// Whether a node can be stored: on the grid, with identifiers in the tables and fields in
/// the ranges their codes hold.
pub open spec fn node_encodable(data: GameData, n: Node) -> bool {
    &&& n.spec_pos().x % 25 == 0
    &&& n.spec_pos().y % 25 == 0
    &&& match n {
        Node::Recipe { recipe, buildings_count, overclock, .. } => {
            &&& (recipe as int) < data.recipes@.len()
            &&& 1 <= buildings_count < BUILDINGS_LIMIT
            &&& 10_000 <= overclock.0 <= 2_500_000
        },
        Node::Source { item, rate, .. } => {
            &&& (item as int) < data.source_items@.len()
            &&& rate < RATE_LIMIT
        },
        _ => true,
    }
}

/// What `encode` needs of its input: fewer than 32768 nodes and edges, every node storable,
/// positions spanning at most `2^19` grid steps per axis, legal edges between existing nodes
/// (each from an output handle to an input handle, items agreeing, no handle used twice),
/// and not every edge into a splitter or merger: the digest stores that count below the
/// edge count, so a graph whose only edges enter splitters and mergers cannot be stored.
pub open spec fn encodable(data: GameData, input: Input) -> bool {
    let ns = input.state.graph.nodes@;
    let es = input.state.graph.edges@;
    &&& ns.len() < 32768
    &&& es.len() < 32768
    &&& all_encodable(data, ns)
    &&& (max_coord(ns, true) - min_coord(ns, true)) / 25 < MAX_POS_STEPS
    &&& (max_coord(ns, false) - min_coord(ns, false)) / 25 < MAX_POS_STEPS
    &&& edges_in_range(ns, es)
    &&& edges_legal(output_pool(data, ns), input_pool(data, ns), es)
    &&& es.len() > 0 ==> split_merge_targets(ns, es) < es.len()
}

/// The position of a node, in grid steps from the smallest coordinates.
pub open spec fn pos_code(n: Node, min_x: int, min_y: int, bx: nat, by: nat) -> Seq<bool> {
    bits_of(((coord(n, true) - min_x) / 25) as nat, bx) + bits_of(((coord(n, false) - min_y) / 25) as nat, by)
}

pub open spec fn positions_code(ns: Seq<Node>, min_x: int, min_y: int, bx: nat, by: nat) -> Seq<bool>
    decreases ns.len(),
{
    if ns.len() == 0 {
        seq![]
    } else {
        positions_code(ns.drop_last(), min_x, min_y, bx, by) + pos_code(ns.last(), min_x, min_y, bx, by)
    }
}

/// A node's tag and fields.
pub open spec fn payload_code(n: Node) -> Seq<bool> {
    match n {
        Node::Recipe { recipe, buildings_count, overclock, .. } => bits_of(0, 3) + recipe_code(recipe as nat)
            + overclock_code(overclock.0 as nat) + buildings_code(buildings_count as nat),
        Node::Merger { .. } => bits_of(1, 3),
        Node::Splitter { .. } => bits_of(2, 3),
        Node::Source { item, rate, .. } => bits_of(3, 3) + source_item_code(item as nat) + rate_code(rate as nat),
    }
}

pub open spec fn payloads_code(ns: Seq<Node>) -> Seq<bool>
    decreases ns.len(),
{
    if ns.len() == 0 {
        seq![]
    } else {
        payloads_code(ns.drop_last()) + payload_code(ns.last())
    }
}

/// The node block: count, then for a non-empty graph bit widths, positions and payloads.
pub open spec fn nodes_code(ns: Seq<Node>) -> Seq<bool> {
    if ns.len() == 0 {
        len_code(0)
    } else {
        let (bx, by) = (pos_bits(ns, true), pos_bits(ns, false));
        len_code(ns.len()) + bits_of((bx - 4) as nat, 4) + bits_of((by - 4) as nat, 4) + positions_code(
            ns,
            min_coord(ns, true),
            min_coord(ns, false),
            bx,
            by,
        ) + payloads_code(ns)
    }
}

/// Everything before the zero fill that precedes the edges.
pub open spec fn head_code(input: Input) -> Seq<bool> {
    bits_of((input.version % 256) as nat, 8) + nodes_code(input.state.graph.nodes@)
}

/// The edge block of a state: nothing where there are no edges.
pub open spec fn edges_code(data: GameData, input: Input) -> Seq<bool> {
    let ns = input.state.graph.nodes@;
    let es = input.state.graph.edges@;
    if es.len() == 0 {
        seq![]
    } else {
        edge_block(output_pool(data, ns), input_pool(data, ns), ns, es)
    }
}

/// The bits of a digest before the final zero fill: version and node block, zero fill to a
/// byte boundary, the edge count, and the edge block.
pub open spec fn digest_bits(data: GameData, input: Input) -> Seq<bool> {
    let h = head_code(input);
    h + zeros(pad_len(h.len())) + len_code(input.state.graph.edges@.len()) + edges_code(data, input)
}

/// What a digest of `input` is: exactly `digest_bits`, zero-filled to the byte that holds
/// its last bit; where there are edges, the edge decoder reads the sorted edges back from it.
pub open spec fn is_digest_of(data: GameData, input: Input, b: Seq<u8>) -> bool {
    let h = head_code(input);
    let q = h.len() + pad_len(h.len());
    let e = len_code(input.state.graph.edges@.len());
    let ns = input.state.graph.nodes@;
    let es = input.state.graph.edges@;
    let d = digest_bits(data, input);
    &&& stream_of(b) == d + zeros(pad_len(d.len()))
    &&& es.len() > 0 ==> dec_edges(
        output_pool(data, ns),
        input_pool(data, ns),
        ns,
        stream_of(b),
        (q + e.len()) as int,
        es.len(),
    ) == Some(sorted_edges(ns, es))
}

/// The edges that stand after the node block `ns`, where the edge count is read at `q`.
pub open spec fn dec_edge_block(data: GameData, ns: Seq<Node>, s: Seq<bool>, q: int) -> Option<Seq<Edge>> {
    match dec_len(s, q) {
        None => None,
        Some((n, q2)) => if n == 0 {
            Some(seq![])
        } else {
            dec_edges(output_pool(data, ns), input_pool(data, ns), ns, s, q2, n)
        },
    }
}

/// What decoding `b` gives: success exactly where the node block, the edge count and the
/// edges can be read, and then the version, the nodes and the edges read.
pub open spec fn decodes_to(data: GameData, b: Seq<u8>, r: Result<Input, String>) -> bool {
    let s = stream_of(b);
    let h = dec_head(data, s);
    match h {
        None => r.is_err(),
        Some((version, nodes, p)) => {
            let q = p + pad_len(p as nat);
            match dec_edge_block(data, nodes, s, q) {
                None => r.is_err(),
                Some(edges) => r.is_ok() && r.unwrap().version == version && r.unwrap().state.graph.nodes@
                    == nodes && r.unwrap().state.graph.edges@ == edges && edges.len() == dec_len(s, q).unwrap().0,
            }
        },
    }
}

/// The node of tag and fields at `p`, placed at `pos`.
pub open spec fn dec_node(data: GameData, s: Seq<bool>, p: int, pos: Pos) -> Option<(Node, int)> {
    if !fits(s, p, 3) {
        None
    } else {
        let tag = field(s, p, 3);
        let q = p + 3;
        if tag == 0 {
            match dec_recipe(s, q, data.recipes@.len()) {
                None => None,
                Some((recipe, q1)) => match dec_overclock(s, q1) {
                    None => None,
                    Some((oc, q2)) => match dec_buildings(s, q2) {
                        None => None,
                        Some((bc, q3)) => Some(
                            (
                                Node::Recipe {
                                    pos,
                                    recipe,
                                    buildings_count: bc,
                                    overclock: Overclock(oc),
                                },
                                q3,
                            ),
                        ),
                    },
                },
            }
        } else if tag == 1 {
            Some((Node::Merger { pos }, q))
        } else if tag == 2 {
            Some((Node::Splitter { pos }, q))
        } else if tag == 3 {
            match dec_source_item(s, q, data.source_items@.len()) {
                None => None,
                Some((item, q1)) => match dec_rate(s, q1) {
                    None => None,
                    Some((rate, q2)) => Some((Node::Source { pos, item, rate }, q2)),
                },
            }
        } else {
            None
        }
    }
}

/// The nodes whose payloads start at `p`, placed at `ps`.
pub open spec fn dec_nodes(data: GameData, s: Seq<bool>, p: int, ps: Seq<Pos>) -> Option<(Seq<Node>, int)>
    decreases ps.len(),
{
    if ps.len() == 0 {
        Some((seq![], p))
    } else {
        match dec_nodes(data, s, p, ps.drop_last()) {
            None => None,
            Some((ns, q)) => match dec_node(data, s, q, ps.last()) {
                None => None,
                Some((n, r)) => Some((ns.push(n), r)),
            },
        }
    }
}

/// The position of node `k` of a block whose positions start at `p`.
pub open spec fn dec_pos(s: Seq<bool>, p: int, k: int, bx: nat, by: nat) -> Pos {
    let at = p + k * (bx + by);
    Pos { x: (field(s, at, bx) * 25) as i32, y: (field(s, at + bx, by) * 25) as i32 }
}

/// Version, nodes, and where the node block ends, read from the start of `s`.
pub open spec fn dec_head(data: GameData, s: Seq<bool>) -> Option<(u32, Seq<Node>, int)> {
    if !fits(s, 0, 8) {
        None
    } else {
        let version = field(s, 0, 8) as u32;
        match dec_len(s, 8) {
            None => None,
            Some((n, p)) => if n == 0 {
                Some((version, seq![], p))
            } else if !fits(s, p, 8) {
                None
            } else {
                let bx = field(s, p, 4) + 4;
                let by = field(s, p + 4, 4) + 4;
                let p1 = p + 8;
                if !fits(s, p1, n * (bx + by)) {
                    None
                } else {
                    let ps = Seq::new(n, |k: int| dec_pos(s, p1, k, bx, by));
                    match dec_nodes(data, s, p1 + n * (bx + by), ps) {
                        None => None,
                        Some((ns, q)) => Some((version, ns, q)),
                    }
                }
            },
        }
    }
}

/// Whether every node can be stored.
pub open spec fn all_encodable(data: GameData, ns: Seq<Node>) -> bool {
    forall|k: int| 0 <= k < ns.len() ==> node_encodable(data, #[trigger] ns[k])
}

/// Writes the node count, and for a non-empty graph the bit widths, positions and payloads.
fn write_nodes(buf: &mut BitBuf, data: &GameData, nodes: &Vec<Node>)
    requires
        old(buf).wf(),
        old(buf).pos <= 8,
        nodes@.len() < 32768,
        data.wf(),
        all_encodable(*data, nodes@),
        (max_coord(nodes@, true) - min_coord(nodes@, true)) / 25 < MAX_POS_STEPS,
        (max_coord(nodes@, false) - min_coord(nodes@, false)) / 25 < MAX_POS_STEPS,
    ensures
        final(buf).wf(),
        final(buf)@ == old(buf)@ + nodes_code(nodes@),
        final(buf).pos <= old(buf).pos + 24 + nodes@.len() * 101,
{
    let ghost ns = nodes@;
    let n = nodes.len();
    buf.write_len(n);
    if n == 0 {
        return ;
    }
    // Positions are stored relative to the smallest x and y.
    let mut min_x: i32 = i32::MAX;
    let mut min_y: i32 = i32::MAX;
    let mut max_x: i32 = i32::MIN;
    let mut max_y: i32 = i32::MIN;
    let mut i: usize = 0;
    while i < n
        invariant
            i <= n == ns.len(),
            ns == nodes@,
            min_x == min_coord(ns.take(i as int), true),
            min_y == min_coord(ns.take(i as int), false),
            max_x == max_coord(ns.take(i as int), true),
            max_y == max_coord(ns.take(i as int), false),
        decreases n - i,
    {
        let p = nodes[i].pos();
        proof {
            assert(ns.take(i + 1).drop_last() =~= ns.take(i as int));
        }
        if p.x < min_x {
            min_x = p.x;
        }
        if p.y < min_y {
            min_y = p.y;
        }
        if p.x > max_x {
            max_x = p.x;
        }
        if p.y > max_y {
            max_y = p.y;
        }
        i = i + 1;
    }
    proof {
        assert(ns.take(n as int) =~= ns);
        lemma_coord_bounds(ns, true, 0);
        lemma_coord_bounds(ns, false, 0);
        crate::bits::lemma_pow2_values();
    }
    let bits_x = position_bits(nodes, min_x, max_x, true);
    let bits_y = position_bits(nodes, min_y, max_y, false);
    buf.write_bits((bits_x - MIN_POS_BITS) as u64, 4);
    buf.write_bits((bits_y - MIN_POS_BITS) as u64, 4);
    let ghost b1 = buf@;
    write_positions(buf, nodes, min_x, min_y, bits_x, bits_y);
    let ghost b2 = buf@;
    proof {
        assert((n as int) * ((bits_x + bits_y) as int) <= (n as int) * 38) by (nonlinear_arith)
            requires
                bits_x + bits_y <= 38,
        ;
    }
    write_payloads(buf, data, nodes);
    proof {
        assert(buf@ =~= old(buf)@ + nodes_code(nodes@));
    }
}

/// Writes each node's position in grid steps from the smallest coordinates.
fn write_positions(buf: &mut BitBuf, nodes: &Vec<Node>, min_x: i32, min_y: i32, bits_x: u8, bits_y: u8)
    requires
        old(buf).wf(),
        old(buf).pos <= 40,
        nodes@.len() < 32768,
        min_x == min_coord(nodes@, true),
        min_y == min_coord(nodes@, false),
        bits_x == pos_bits(nodes@, true),
        bits_y == pos_bits(nodes@, false),
        4 <= bits_x <= 19,
        4 <= bits_y <= 19,
        (max_coord(nodes@, true) - min_coord(nodes@, true)) / 25 < MAX_POS_STEPS,
        (max_coord(nodes@, false) - min_coord(nodes@, false)) / 25 < MAX_POS_STEPS,
    ensures
        final(buf).wf(),
        final(buf)@ == old(buf)@ + positions_code(nodes@, min_x as int, min_y as int, bits_x as nat, bits_y as nat),
        final(buf).pos == old(buf).pos + nodes@.len() * (bits_x + bits_y),
{
    let ghost ns = nodes@;
    let ghost (bx, by) = (bits_x as nat, bits_y as nat);
    let n = nodes.len();
    proof {
        assert(ns.take(0) =~= Seq::<Node>::empty());
        assert(old(buf)@ + positions_code(ns.take(0), min_x as int, min_y as int, bx, by) =~= old(buf)@);
    }
    let mut i: usize = 0;
    while i < n
        invariant
            i <= n == ns.len() < 32768,
            ns == nodes@,
            buf.wf(),
            old(buf).pos <= 40,
            min_x == min_coord(ns, true),
            min_y == min_coord(ns, false),
            bx == pos_bits(ns, true),
            by == pos_bits(ns, false),
            bits_x == bx,
            bits_y == by,
            4 <= bx <= 19,
            4 <= by <= 19,
            (max_coord(ns, true) - min_coord(ns, true)) / 25 < MAX_POS_STEPS,
            (max_coord(ns, false) - min_coord(ns, false)) / 25 < MAX_POS_STEPS,
            buf@ == old(buf)@ + positions_code(ns.take(i as int), min_x as int, min_y as int, bx, by),
            buf.pos == old(buf).pos + i * (bx + by),
        decreases n - i,
    {
        let p = nodes[i].pos();
        proof {
            lemma_coord_bounds(ns, true, i as int);
            lemma_coord_bounds(ns, false, i as int);
            lemma_steps_fit(ns, true, i as int);
            lemma_steps_fit(ns, false, i as int);
            assert(ns.take(i + 1).drop_last() =~= ns.take(i as int));
            assert(ns.take(i + 1).last() == ns[i as int]);
            assert(i * (bx + by) + (bx + by) == (i + 1) * (bx + by)) by (nonlinear_arith);
            assert((i + 1) * (bx + by) <= 32768 * 38) by (nonlinear_arith)
                requires
                    i < 32768,
                    bx + by <= 38,
            ;
        }
        let x = (p.x as i64 - min_x as i64) / 25;
        let y = (p.y as i64 - min_y as i64) / 25;
        buf.write_bits(x as u64, bits_x);
        buf.write_bits(y as u64, bits_y);
        i = i + 1;
        proof {
            assert(buf@ =~= old(buf)@ + positions_code(ns.take(i as int), min_x as int, min_y as int, bx, by));
        }
    }
    proof {
        assert(ns.take(n as int) =~= ns);
    }
}

/// Writes each node's tag and fields.
fn write_payloads(buf: &mut BitBuf, data: &GameData, nodes: &Vec<Node>)
    requires
        old(buf).wf(),
        old(buf).pos <= 40 + 32768 * 38,
        nodes@.len() < 32768,
        data.wf(),
        all_encodable(*data, nodes@),
    ensures
        final(buf).wf(),
        final(buf)@ == old(buf)@ + payloads_code(nodes@),
        final(buf).pos <= old(buf).pos + nodes@.len() * 63,
{
    let ghost ns = nodes@;
    let n = nodes.len();
    proof {
        assert(ns.take(0) =~= Seq::<Node>::empty());
        assert(old(buf)@ + payloads_code(ns.take(0)) =~= old(buf)@);
    }
    let mut i: usize = 0;
    while i < n
        invariant
            i <= n == ns.len() < 32768,
            ns == nodes@,
            all_encodable(*data, ns),
            data.wf(),
            buf.wf(),
            old(buf).pos <= 40 + 32768 * 38,
            buf@ == old(buf)@ + payloads_code(ns.take(i as int)),
            buf.pos <= old(buf).pos + i * 63,
        decreases n - i,
    {
        proof {
            crate::bits::lemma_pow2_values();
            assert(ns.take(i + 1).drop_last() =~= ns.take(i as int));
            assert(ns.take(i + 1).last() == ns[i as int]);
            assert(node_encodable(*data, ns[i as int]));
            assert(i * 63 <= 32768 * 63) by (nonlinear_arith)
                requires
                    i < 32768,
            ;
            assert(i * 63 + 63 == (i + 1) * 63) by (nonlinear_arith);
        }
        let ghost before = buf@;
        match nodes[i] {
            Node::Recipe { recipe, buildings_count, overclock, .. } => {
                buf.write_bits(0, 3);
                write_recipe_kind(buf, recipe);
                write_overclock(buf, overclock.0);
                write_building_count(buf, buildings_count);
            },
            Node::Merger { .. } => buf.write_bits(1, 3),
            Node::Splitter { .. } => buf.write_bits(2, 3),
            Node::Source { item, rate, .. } => {
                buf.write_bits(3, 3);
                write_source_item_kind(buf, item);
                write_source_rate(buf, rate);
            },
        }
        proof {
            assert(buf@ =~= before + payload_code(ns[i as int]));
        }
        i = i + 1;
        proof {
            assert(buf@ =~= old(buf)@ + payloads_code(ns.take(i as int)));
        }
    }
    proof {
        assert(ns.take(n as int) =~= ns);
    }
}

/// Encodes the state as a digest.
#[verifier::spinoff_prover]
#[verifier::rlimit(100)]
pub fn encode(data: &GameData, input: &Input) -> (r: Vec<u8>)
    requires
        data.wf(),
        encodable(*data, *input),
    ensures
        is_digest_of(*data, *input, r@),
        r@.len() < 0x100000,
{
    let mut buf = BitBuf::new();
    buf.write_u8((input.version % 256) as u8);
    let g = &input.state.graph;
    let nodes = &g.nodes;
    let ghost ns = nodes@;
    write_nodes(&mut buf, data, nodes);
    let ghost h = buf@;
    proof {
        buf.lemma_len();
        assert(h =~= head_code(*input));
        assert(ns.len() * 101 <= 32768 * 101) by (nonlinear_arith)
            requires
                ns.len() < 32768,
        ;
    }
    buf.finish_byte();
    let num_edges = g.edges.len();
    buf.write_len(num_edges);
    let ghost q = h.len() + pad_len(h.len());
    let ghost e = len_code(num_edges as nat);
    let ghost after_len = buf@;
    proof {
        buf.lemma_len();
        assert(after_len =~= h + zeros(pad_len(h.len())) + e);
    }
    if num_edges > 0 {
        let mut coder = EdgeCoder::new(data, nodes);
        proof {
            lemma_nodes_known(*data, ns);
            crate::edges::lemma_pool_len(*data, ns);
            crate::edges::lemma_pools_unique(*data, ns);
            crate::edges::lemma_typed_inputs(*data, ns);
            assert(64 * (2 * num_edges + 3) <= 64 * (2 * 32768 + 3)) by (nonlinear_arith)
                requires
                    num_edges < 32768,
            ;
        }
        let ghost before = buf@;
        coder.encode(&mut buf, nodes, &g.edges);
        proof {
            buf.lemma_stream_pad();
            let z = zeros(pad_len(buf.pos as nat));
            assert(dec_edges(output_pool(*data, ns), input_pool(*data, ns), ns, buf@ + z, before.len() as int, g.edges@.len() as nat)
                == Some(sorted_edges(ns, g.edges@)));
            assert(before.len() == q + e.len());
        }
    }
    proof {
        buf.lemma_stream_pad();
        assert(buf.pos <= 32 + 32768 * 101 + 23 + 64 * (2 * 32768 + 3));
        assert(buf@ =~= digest_bits(*data, *input));
    }
    buf.buf
}

/// Every coordinate lies between the smallest and the largest.
pub proof fn lemma_coord_bounds(ns: Seq<Node>, ax: bool, k: int)
    requires
        0 <= k < ns.len(),
    ensures
        min_coord(ns, ax) <= coord(ns[k], ax) <= max_coord(ns, ax),
        i32::MIN <= min_coord(ns, ax) <= max_coord(ns, ax) <= i32::MAX,
    decreases ns.len(),
{
    if k < ns.len() - 1 {
        lemma_coord_bounds(ns.drop_last(), ax, k);
    } else if ns.len() > 1 {
        lemma_coord_bounds(ns.drop_last(), ax, 0);
    } else {
        assert(min_coord(ns.drop_last(), ax) == i32::MAX);
        assert(max_coord(ns.drop_last(), ax) == i32::MIN);
    }
}

/// A node's offset from the smallest coordinate fits in the coordinate's bits.
proof fn lemma_steps_fit(ns: Seq<Node>, ax: bool, k: int)
    requires
        0 <= k < ns.len(),
        (max_coord(ns, ax) - min_coord(ns, ax)) / 25 < MAX_POS_STEPS,
    ensures
        0 <= (coord(ns[k], ax) - min_coord(ns, ax)) / 25 < pow2(pos_bits(ns, ax)),
{
    lemma_coord_bounds(ns, ax, k);
    let span = max_coord(ns, ax) - min_coord(ns, ax);
    let d = coord(ns[k], ax) - min_coord(ns, ax);
    assert(d / 25 <= span / 25) by (nonlinear_arith)
        requires
            0 <= d <= span,
    ;
    crate::bits::lemma_bits_needed_bound((span / 25 + 1) as nat);
    let b = bits_needed((span / 25 + 1) as nat);
    if b < 4 {
        vstd::arithmetic::power2::lemma_pow2_strictly_increases(b, 4);
    }
}

proof fn lemma_nodes_known(data: GameData, ns: Seq<Node>)
    requires
        all_encodable(data, ns),
    ensures
        nodes_known(data, ns),
{
    assert forall|k: int| 0 <= k < ns.len() implies match #[trigger] ns[k] {
        Node::Recipe { recipe, .. } => (recipe as int) < data.recipes@.len(),
        Node::Source { item, .. } => (item as int) < data.source_items@.len(),
        _ => true,
    } by {
        assert(node_encodable(data, ns[k]));
    }
}

/// Bits per coordinate for the span from `min` to `max`.
fn position_bits(nodes: &Vec<Node>, min: i32, max: i32, ax: bool) -> (r: u8)
    requires
        min == min_coord(nodes@, ax),
        max == max_coord(nodes@, ax),
        min <= max,
        (max - min) / 25 < MAX_POS_STEPS,
    ensures
        r as nat == pos_bits(nodes@, ax),
        4 <= r <= 19,
{
    let steps = (max as i64 - min as i64) / 25;
    proof {
        crate::bits::lemma_pow2_values();
        crate::bits::lemma_bits_needed_mono((steps + 1) as nat, pow2(19));
        crate::bits::lemma_bits_needed_pow2(19);
    }
    let b = crate::bits::required_bits_for((steps + 1) as u64);
    if b < MIN_POS_BITS {
        MIN_POS_BITS
    } else {
        b
    }
}

/// Reads the tag and fields of one node, placed at `pos`.
fn read_node(buf: &mut BitReader, data: &GameData, pos: Pos) -> (r: Option<Node>)
    requires
        old(buf).wf(),
    ensures
        final(buf).wf(),
        final(buf).buf@ == old(buf).buf@,
        crate::fields::outcome(r, dec_node(*data, old(buf).stream(), old(buf).pos as int, pos), final(buf).pos as int),
        r.is_some() ==> match r.unwrap() {
            Node::Recipe { recipe, .. } => (recipe as int) < data.recipes@.len(),
            Node::Source { item, .. } => (item as int) < data.source_items@.len(),
            _ => true,
        },
{
    let ghost s = old(buf).stream();
    let ghost p = old(buf).pos as int;
    proof {
        crate::bits::lemma_pow2_values();
    }
    let tag = match buf.read_bits(3) {
        Some(t) => t,
        None => return None,
    };
    if tag == 0 {
        let recipe = match read_recipe_kind(buf, data.recipes.len()) {
            Some(v) => v,
            None => return None,
        };
        let overclock = match read_overclock(buf) {
            Some(v) => v,
            None => return None,
        };
        let buildings_count = match read_building_count(buf) {
            Some(v) => v,
            None => return None,
        };
        Some(Node::Recipe { pos, recipe, buildings_count, overclock: Overclock(overclock) })
    } else if tag == 1 {
        Some(Node::Merger { pos })
    } else if tag == 2 {
        Some(Node::Splitter { pos })
    } else if tag == 3 {
        let item = match read_source_item_kind(buf, data.source_items.len()) {
            Some(v) => v,
            None => return None,
        };
        let rate = match read_source_rate(buf) {
            Some(v) => v,
            None => return None,
        };
        Some(Node::Source { pos, item, rate })
    } else {
        None
    }
}

/// A failure among the first nodes is a failure of all.
proof fn lemma_dec_nodes_prefix(data: GameData, s: Seq<bool>, p: int, ps: Seq<Pos>, j: int)
    requires
        0 <= j <= ps.len(),
        dec_nodes(data, s, p, ps.take(j)).is_none(),
    ensures
        dec_nodes(data, s, p, ps).is_none(),
    decreases ps.len() - j,
{
    if j < ps.len() {
        assert(ps.take(j + 1).drop_last() =~= ps.take(j));
        lemma_dec_nodes_prefix(data, s, p, ps, j + 1);
    } else {
        assert(ps.take(j) =~= ps);
    }
}

/// Reads the tags and fields of nodes placed at `positions`.
fn read_payloads(buf: &mut BitReader, data: &GameData, positions: &Vec<Pos>) -> (r: Option<Vec<Node>>)
    requires
        old(buf).wf(),
    ensures
        final(buf).wf(),
        final(buf).buf@ == old(buf).buf@,
        r.is_some() == dec_nodes(*data, old(buf).stream(), old(buf).pos as int, positions@).is_some(),
        r.is_some() ==> dec_nodes(*data, old(buf).stream(), old(buf).pos as int, positions@) == Some(
            (r.unwrap()@, final(buf).pos as int),
        ),
        r.is_some() ==> r.unwrap()@.len() == positions@.len() && nodes_known(*data, r.unwrap()@),
{
    let ghost s = old(buf).stream();
    let ghost p0 = old(buf).pos as int;
    let ghost ps = positions@;
    let mut nodes: Vec<Node> = Vec::new();
    let mut i: usize = 0;
    proof {
        assert(ps.take(0) =~= Seq::<Pos>::empty());
        assert(nodes@ =~= Seq::<Node>::empty());
    }
    while i < positions.len()
        invariant
            buf.wf(),
            buf.buf@ == old(buf).buf@,
            s == buf.stream(),
            s == old(buf).stream(),
            p0 == old(buf).pos,
            ps == positions@,
            i <= ps.len(),
            dec_nodes(*data, s, p0, ps.take(i as int)) == Some((nodes@, buf.pos as int)),
            nodes@.len() == i,
            nodes_known(*data, nodes@),
        decreases ps.len() - i,
    {
        proof {
            assert(ps.take(i + 1).drop_last() =~= ps.take(i as int));
            assert(ps.take(i + 1).last() == ps[i as int]);
        }
        match read_node(buf, data, positions[i]) {
            Some(n) => {
                let ghost before = nodes@;
                nodes.push(n);
                proof {
                    assert forall|k: int| 0 <= k < nodes@.len() implies match #[trigger] nodes@[k] {
                        Node::Recipe { recipe, .. } => (recipe as int) < data.recipes@.len(),
                        Node::Source { item, .. } => (item as int) < data.source_items@.len(),
                        _ => true,
                    } by {
                        if k < i {
                            assert(nodes@[k] == before[k]);
                        }
                    }
                }
            },
            None => {
                proof {
                    lemma_dec_nodes_prefix(*data, s, p0, ps, i + 1);
                }
                return None;
            },
        }
        i = i + 1;
    }
    proof {
        assert(ps.take(ps.len() as int) =~= ps);
    }
    Some(nodes)
}

/// Reads `n` positions of `bits_x` and `bits_y` bits, in grid steps.
fn read_positions(buf: &mut BitReader, n: usize, bits_x: u8, bits_y: u8) -> (r: Option<Vec<Pos>>)
    requires
        old(buf).wf(),
        n < 32768,
        4 <= bits_x <= 19,
        4 <= bits_y <= 19,
    ensures
        final(buf).wf(),
        final(buf).buf@ == old(buf).buf@,
        r.is_some() == fits(old(buf).stream(), old(buf).pos as int, (n * (bits_x + bits_y)) as nat),
        r.is_some() ==> r.unwrap()@ == Seq::new(
            n as nat,
            |k: int| dec_pos(old(buf).stream(), old(buf).pos as int, k, bits_x as nat, bits_y as nat),
        ) && final(buf).pos == old(buf).pos + n * (bits_x + bits_y),
{
    let ghost s = old(buf).stream();
    let ghost p0 = old(buf).pos as int;
    let ghost (bx, by) = (bits_x as nat, bits_y as nat);
    let mut out: Vec<Pos> = Vec::new();
    let mut i: usize = 0;
    while i < n
        invariant
            buf.wf(),
            buf.buf@ == old(buf).buf@,
            s == buf.stream(),
            s == old(buf).stream(),
            p0 == old(buf).pos,
            bx == bits_x,
            by == bits_y,
            4 <= bx <= 19,
            4 <= by <= 19,
            i <= n < 32768,
            buf.pos == p0 + i * (bx + by),
            out@ == Seq::new(i as nat, |k: int| dec_pos(s, p0, k, bx, by)),
        decreases n - i,
    {
        let ghost at = buf.pos as int;
        proof {
            crate::bits::lemma_pow2_values();
            assert(i * (bx + by) + (bx + by) == (i + 1) * (bx + by)) by (nonlinear_arith);
            assert(i * (bx + by) <= n * (bx + by)) by (nonlinear_arith)
                requires
                    i <= n,
            ;
        }
        let x = match buf.read_bits(bits_x) {
            Some(v) => v,
            None => {
                proof {
                    assert((i + 1) * (bx + by) <= n * (bx + by)) by (nonlinear_arith)
                        requires
                            i < n,
                    ;
                }
                return None;
            },
        };
        let y = match buf.read_bits(bits_y) {
            Some(v) => v,
            None => {
                proof {
                    assert((i + 1) * (bx + by) <= n * (bx + by)) by (nonlinear_arith)
                        requires
                            i < n,
                    ;
                }
                return None;
            },
        };
        proof {
            crate::bits::lemma_val_bound(s.subrange(at, at + bx));
            crate::bits::lemma_val_bound(s.subrange(at + bx, at + bx + by));
            vstd::arithmetic::power2::lemma_pow2_strictly_increases(bx, 20);
            vstd::arithmetic::power2::lemma_pow2_strictly_increases(by, 20);
            crate::bits::lemma_pow2_values();
        }
        out.push(Pos { x: (x * 25) as i32, y: (y * 25) as i32 });
        i = i + 1;
        proof {
            assert(out@ =~= Seq::new(i as nat, |k: int| dec_pos(s, p0, k, bx, by)));
        }
    }
    Some(out)
}

/// Reads the version and the node block.
fn read_head(buf: &mut BitReader, data: &GameData) -> (r: Option<(u8, Vec<Node>)>)
    requires
        old(buf).wf(),
        old(buf).pos == 0,
    ensures
        final(buf).wf(),
        final(buf).buf@ == old(buf).buf@,
        r.is_some() == dec_head(*data, old(buf).stream()).is_some(),
        r.is_some() ==> ({
            let (v, ns) = r.unwrap();
            &&& dec_head(*data, old(buf).stream()) == Some((v as u32, ns@, final(buf).pos as int))
            &&& ns@.len() < 32768
            &&& nodes_known(*data, ns@)
        }),
{
    let ghost s = buf.stream();
    proof {
        crate::bits::lemma_pow2_values();
    }
    let version = match buf.read_u8() {
        Some(v) => v,
        None => return None,
    };
    let num_nodes = match buf.read_len() {
        Some(v) => v,
        None => return None,
    };
    let ghost p = buf.pos as int;
    if num_nodes == 0 {
        let nodes: Vec<Node> = Vec::new();
        proof {
            assert(nodes@ =~= Seq::<Node>::empty());
        }
        return Some((version, nodes));
    }
    let bx = match buf.read_bits(4) {
        Some(v) => v,
        None => return None,
    };
    let by = match buf.read_bits(4) {
        Some(v) => v,
        None => return None,
    };
    proof {
        crate::bits::lemma_val_bound(s.subrange(p, p + 4));
        crate::bits::lemma_val_bound(s.subrange(p + 4, p + 8));
    }
    let bits_x = bx as u8 + MIN_POS_BITS;
    let bits_y = by as u8 + MIN_POS_BITS;
    let positions = match read_positions(buf, num_nodes, bits_x, bits_y) {
        Some(v) => v,
        None => return None,
    };
    let nodes = match read_payloads(buf, data, &positions) {
        Some(v) => v,
        None => return None,
    };
    Some((version, nodes))
}

/// Decodes a digest; fails where it runs out of bits or holds a value that no state has.
pub fn decode(data: &GameData, bytes: &[u8]) -> (r: Result<Input, String>)
    requires
        data.wf(),
        8 * bytes@.len() + 8 <= usize::MAX,
    ensures
        decodes_to(*data, bytes@, r),
{
    let mut buf = BitReader::new(bytes);
    let ghost s = buf.stream();
    let (version, nodes) = match read_head(&mut buf, data) {
        Some(h) => h,
        None => return Err("invalid digest: bad node block".to_owned()),
    };
    buf.finish_byte();
    let num_edges = match buf.read_len() {
        Some(v) => v,
        None => return Err("invalid digest: too short".to_owned()),
    };
    let mut edges: Vec<Edge> = Vec::new();
    if num_edges > 0 {
        let mut coder = EdgeCoder::new(data, &nodes);
        proof {
            crate::edges::lemma_pool_len(*data, nodes@);
        }
        edges = match coder.decode(&mut buf, num_edges, &nodes) {
            Some(v) => v,
            None => return Err("invalid digest: bad edge block".to_owned()),
        };
    } else {
        proof {
            assert(edges@ =~= Seq::<Edge>::empty());
        }
    }
    Ok(Input { version: version as u32, state: State { graph: Graph { nodes, edges } } })
}

/// Whether `encode` can store `input`: the test of `encodable`.
pub fn check_encodable(data: &GameData, input: &Input) -> (r: bool)
    requires
        data.wf(),
    ensures
        r == encodable(*data, *input),
{
    let nodes = &input.state.graph.nodes;
    let edges = &input.state.graph.edges;
    let ghost ns = nodes@;
    let ghost es = edges@;
    if nodes.len() >= 32768 || edges.len() >= 32768 {
        return false;
    }
    let mut min_x: i32 = i32::MAX;
    let mut min_y: i32 = i32::MAX;
    let mut max_x: i32 = i32::MIN;
    let mut max_y: i32 = i32::MIN;
    let mut i: usize = 0;
    while i < nodes.len()
        invariant
            i <= ns.len(),
            ns == nodes@,
            ns == input.state.graph.nodes@,
            min_x == min_coord(ns.take(i as int), true),
            min_y == min_coord(ns.take(i as int), false),
            max_x == max_coord(ns.take(i as int), true),
            max_y == max_coord(ns.take(i as int), false),
            all_encodable(*data, ns.take(i as int)),
        decreases ns.len() - i,
    {
        let n = nodes[i];
        proof {
            assert(ns.take(i + 1).drop_last() =~= ns.take(i as int));
        }
        if !node_ok(data, &n) {
            proof {
                assert(!node_encodable(*data, ns[i as int]));
                assert(!all_encodable(*data, ns));
            }
            return false;
        }
        let p = n.pos();
        if p.x < min_x {
            min_x = p.x;
        }
        if p.y < min_y {
            min_y = p.y;
        }
        if p.x > max_x {
            max_x = p.x;
        }
        if p.y > max_y {
            max_y = p.y;
        }
        i = i + 1;
        proof {
            assert forall|k: int| 0 <= k < i implies node_encodable(*data, #[trigger] ns.take(i as int)[k]) by {
                if k < i - 1 {
                    assert(ns.take(i as int)[k] == ns.take(i - 1)[k]);
                }
            }
        }
    }
    proof {
        assert(ns.take(ns.len() as int) =~= ns);
    }
    if nodes.len() > 0 {
        proof {
            lemma_coord_bounds(ns, true, 0);
            lemma_coord_bounds(ns, false, 0);
        }
        if (max_x as i64 - min_x as i64) / 25 >= MAX_POS_STEPS || (max_y as i64 - min_y as i64) / 25 >= MAX_POS_STEPS {
            return false;
        }
    }
    let mut i: usize = 0;
    while i < edges.len()
        invariant
            i <= es.len(),
            es == edges@,
            ns == nodes@,
            es == input.state.graph.edges@,
            ns == input.state.graph.nodes@,
            edges_in_range(ns, es.take(i as int)),
        decreases es.len() - i,
    {
        let e = edges[i];
        if e.source.node as usize >= nodes.len() || e.target.node as usize >= nodes.len() {
            proof {
                assert(es[i as int] == e);
                assert((es[i as int].source.node as int) >= ns.len() || (es[i as int].target.node as int) >= ns.len());
                assert(!edges_in_range(ns, es));
            }
            return false;
        }
        i = i + 1;
        proof {
            assert forall|k: int| 0 <= k < i implies (#[trigger] es.take(i as int)[k].source.node as int) < ns.len()
                && (es.take(i as int)[k].target.node as int) < ns.len() by {
                if k < i - 1 {
                    assert(es.take(i as int)[k] == es.take(i - 1)[k]);
                }
            }
        }
    }
    proof {
        assert(es.take(es.len() as int) =~= es);
    }
    proof {
        lemma_nodes_known(*data, ns);
    }
    if !crate::edges::check_edges_legal(data, nodes, edges) {
        return false;
    }
    if edges.len() > 0 {
        let k = crate::edges::count_split_merge_targets(nodes, edges);
        if k >= edges.len() {
            return false;
        }
    }
    true
}

/// Whether one node can be stored.
fn node_ok(data: &GameData, n: &Node) -> (r: bool)
    ensures
        r == node_encodable(*data, *n),
{
    let p = n.pos();
    if p.x % 25 != 0 || p.y % 25 != 0 {
        return false;
    }
    match n {
        Node::Recipe { recipe, buildings_count, overclock, .. } => (*recipe as usize) < data.recipes.len()
            && 1 <= *buildings_count && *buildings_count < BUILDINGS_LIMIT && 10_000 <= overclock.0
            && overclock.0 <= 2_500_000,
        Node::Source { item, rate, .. } => (*item as usize) < data.source_items.len() && *rate < RATE_LIMIT,
        _ => true,
    }
}

/// A node moved to `pos`.
pub open spec fn with_pos(n: Node, pos: Pos) -> Node {
    match n {
        Node::Recipe { recipe, buildings_count, overclock, .. } => Node::Recipe { pos, recipe, buildings_count, overclock },
        Node::Merger { .. } => Node::Merger { pos },
        Node::Splitter { .. } => Node::Splitter { pos },
        Node::Source { item, rate, .. } => Node::Source { pos, item, rate },
    }
}

/// The nodes moved so that the smallest x and y are zero.
pub open spec fn normalized(ns: Seq<Node>) -> Seq<Node> {
    Seq::new(
        ns.len(),
        |k: int|
            with_pos(
                ns[k],
                Pos {
                    x: (coord(ns[k], true) - min_coord(ns, true)) as i32,
                    y: (coord(ns[k], false) - min_coord(ns, false)) as i32,
                },
            ),
    )
}

/// One node's tag and fields are read back whatever stands around them.
#[verifier::rlimit(100)]
proof fn lemma_node_round_trip(data: GameData, pre: Seq<bool>, n: Node, rest: Seq<bool>, pos: Pos)
    requires
        data.wf(),
        node_encodable(data, n),
    ensures
        dec_node(data, pre + payload_code(n) + rest, pre.len() as int, pos) == Some(
            (with_pos(n, pos), (pre.len() + payload_code(n).len()) as int),
        ),
{
    crate::bits::lemma_pow2_values();
    let s = pre + payload_code(n) + rest;
    let p = pre.len() as int;
    match n {
        Node::Recipe { recipe, buildings_count, overclock, .. } => {
            let t = bits_of(0, 3);
            let a = recipe_code(recipe as nat);
            let b = overclock_code(overclock.0 as nat);
            let c = buildings_code(buildings_count as nat);
            assert(s =~= pre + t + (a + b + c + rest));
            crate::bits::lemma_write_read(pre, 0, 3, a + b + c + rest);
            assert(s =~= (pre + t) + a + (b + c + rest));
            crate::fields::lemma_recipe_round_trip(pre + t, recipe as nat, data.recipes@.len(), b + c + rest);
            assert(s =~= (pre + t + a) + b + (c + rest));
            crate::fields::lemma_overclock_round_trip(pre + t + a, overclock.0 as nat, c + rest);
            assert(s =~= (pre + t + a + b) + c + rest);
            crate::fields::lemma_buildings_round_trip(pre + t + a + b, buildings_count as nat, rest);
        },
        Node::Merger { .. } => {
            crate::bits::lemma_write_read(pre, 1, 3, rest);
        },
        Node::Splitter { .. } => {
            crate::bits::lemma_write_read(pre, 2, 3, rest);
        },
        Node::Source { item, rate, .. } => {
            let t = bits_of(3, 3);
            let a = source_item_code(item as nat);
            let b = rate_code(rate as nat);
            assert(s =~= pre + t + (a + b + rest));
            crate::bits::lemma_write_read(pre, 3, 3, a + b + rest);
            assert(s =~= (pre + t) + a + (b + rest));
            crate::fields::lemma_source_item_round_trip(pre + t, item as nat, data.source_items@.len(), b + rest);
            assert(s =~= (pre + t + a) + b + rest);
            crate::fields::lemma_rate_round_trip(pre + t + a, rate as nat, rest);
        },
    }
}

/// The payloads of all nodes are read back, each node at the position given for it.
#[verifier::spinoff_prover]
#[verifier::rlimit(100)]
proof fn lemma_payloads_round_trip(data: GameData, pre: Seq<bool>, ns: Seq<Node>, rest: Seq<bool>, ps: Seq<Pos>)
    requires
        data.wf(),
        all_encodable(data, ns),
        ps.len() == ns.len(),
    ensures
        dec_nodes(data, pre + payloads_code(ns) + rest, pre.len() as int, ps) == Some(
            (Seq::new(ns.len(), |k: int| with_pos(ns[k], ps[k])), (pre.len() + payloads_code(ns).len()) as int),
        ),
    decreases ns.len(),
{
    let s = pre + payloads_code(ns) + rest;
    if ns.len() == 0 {
        assert(Seq::new(ns.len(), |k: int| with_pos(ns[k], ps[k])) =~= Seq::<Node>::empty());
    } else {
        let (ns0, ps0) = (ns.drop_last(), ps.drop_last());
        let last = ns.last();
        assert(all_encodable(data, ns0)) by {
            assert forall|k: int| 0 <= k < ns0.len() implies node_encodable(data, #[trigger] ns0[k]) by {
                assert(ns0[k] == ns[k]);
            }
        }
        assert(node_encodable(data, ns[ns.len() - 1]));
        assert(s =~= pre + payloads_code(ns0) + (payload_code(last) + rest));
        lemma_payloads_round_trip(data, pre, ns0, payload_code(last) + rest, ps0);
        assert(s =~= (pre + payloads_code(ns0)) + payload_code(last) + rest);
        lemma_node_round_trip(data, pre + payloads_code(ns0), last, rest, ps.last());
        assert(Seq::new(ns0.len(), |k: int| with_pos(ns0[k], ps0[k])).push(with_pos(last, ps.last()))
            =~= Seq::new(ns.len(), |k: int| with_pos(ns[k], ps[k])));
    }
}

/// Where each node's position stands in the position block.
proof fn lemma_positions_layout(ns: Seq<Node>, mx: int, my: int, bx: nat, by: nat, k: int)
    requires
        0 <= k < ns.len(),
    ensures
        positions_code(ns, mx, my, bx, by).len() == ns.len() * (bx + by),
        k * (bx + by) + (bx + by) <= ns.len() * (bx + by),
        positions_code(ns, mx, my, bx, by).subrange(k * (bx + by), k * (bx + by) + (bx + by)) == pos_code(
            ns[k],
            mx,
            my,
            bx,
            by,
        ),
    decreases ns.len(),
{
    let w = bx + by;
    let n = ns.len();
    lemma_positions_len(ns, mx, my, bx, by);
    lemma_positions_len(ns.drop_last(), mx, my, bx, by);
    assert(k * w + w <= n * w) by (nonlinear_arith)
        requires
            k < n,
    ;
    assert((n - 1) * w + w == n * w) by (nonlinear_arith);
    if k < n - 1 {
        lemma_positions_layout(ns.drop_last(), mx, my, bx, by, k);
        assert(positions_code(ns, mx, my, bx, by).subrange(k * w, k * w + w) =~= positions_code(
            ns.drop_last(),
            mx,
            my,
            bx,
            by,
        ).subrange(k * w, k * w + w));
    } else {
        assert(positions_code(ns, mx, my, bx, by).subrange(k * w, k * w + w) =~= pos_code(ns.last(), mx, my, bx, by));
    }
}

proof fn lemma_positions_len(ns: Seq<Node>, mx: int, my: int, bx: nat, by: nat)
    ensures
        positions_code(ns, mx, my, bx, by).len() == ns.len() * (bx + by),
    decreases ns.len(),
{
    if ns.len() > 0 {
        lemma_positions_len(ns.drop_last(), mx, my, bx, by);
        assert((ns.len() - 1) * (bx + by) + (bx + by) == ns.len() * (bx + by)) by (nonlinear_arith);
    }
}

/// The smallest coordinate of grid-aligned nodes is on the grid.
proof fn lemma_min_on_grid(ns: Seq<Node>, ax: bool)
    requires
        ns.len() > 0,
        forall|k: int| 0 <= k < ns.len() ==> coord(#[trigger] ns[k], ax) % 25 == 0,
    ensures
        min_coord(ns, ax) % 25 == 0,
    decreases ns.len(),
{
    assert(coord(ns[ns.len() - 1], ax) % 25 == 0);
    if ns.len() > 1 {
        assert forall|k: int| 0 <= k < ns.drop_last().len() implies coord(#[trigger] ns.drop_last()[k], ax) % 25 == 0 by {
            assert(ns.drop_last()[k] == ns[k]);
        }
        lemma_min_on_grid(ns.drop_last(), ax);
    } else {
        assert(min_coord(ns.drop_last(), ax) == i32::MAX);
    }
}

/// Both coordinate widths lie between 4 and 19 bits.
proof fn lemma_widths(ns: Seq<Node>)
    requires
        ns.len() > 0,
        (max_coord(ns, true) - min_coord(ns, true)) / 25 < MAX_POS_STEPS,
        (max_coord(ns, false) - min_coord(ns, false)) / 25 < MAX_POS_STEPS,
    ensures
        4 <= pos_bits(ns, true) <= 19,
        4 <= pos_bits(ns, false) <= 19,
{
    crate::bits::lemma_pow2_values();
    lemma_coord_bounds(ns, true, 0);
    lemma_coord_bounds(ns, false, 0);
    crate::bits::lemma_bits_needed_mono(((max_coord(ns, true) - min_coord(ns, true)) / 25 + 1) as nat, pow2(19));
    crate::bits::lemma_bits_needed_mono(((max_coord(ns, false) - min_coord(ns, false)) / 25 + 1) as nat, pow2(19));
    crate::bits::lemma_bits_needed_pow2(19);
}

/// Each position is read back from the position block, relative to the smallest x and y.
proof fn lemma_position_decoded(data: GameData, ns: Seq<Node>, pre: Seq<bool>, rest: Seq<bool>, k: int)
    requires
        0 <= k < ns.len(),
        all_encodable(data, ns),
        (max_coord(ns, true) - min_coord(ns, true)) / 25 < MAX_POS_STEPS,
        (max_coord(ns, false) - min_coord(ns, false)) / 25 < MAX_POS_STEPS,
        min_coord(ns, true) % 25 == 0,
        min_coord(ns, false) % 25 == 0,
    ensures
        ({
            let (bx, by) = (pos_bits(ns, true), pos_bits(ns, false));
            let (mx, my) = (min_coord(ns, true), min_coord(ns, false));
            let s = pre + positions_code(ns, mx, my, bx, by) + rest;
            dec_pos(s, pre.len() as int, k, bx, by) == (Pos {
                x: (coord(ns[k], true) - mx) as i32,
                y: (coord(ns[k], false) - my) as i32,
            })
        }),
{
    let (bx, by) = (pos_bits(ns, true), pos_bits(ns, false));
    let (mx, my) = (min_coord(ns, true), min_coord(ns, false));
    let pc = positions_code(ns, mx, my, bx, by);
    let s = pre + pc + rest;
    let w = bx + by;
    lemma_positions_layout(ns, mx, my, bx, by, k);
    lemma_coord_bounds(ns, true, k);
    lemma_coord_bounds(ns, false, k);
    lemma_steps_fit(ns, true, k);
    lemma_steps_fit(ns, false, k);
    assert(node_encodable(data, ns[k]));
    let at = k * w;
    let dx = ((coord(ns[k], true) - mx) / 25) as nat;
    let dy = ((coord(ns[k], false) - my) / 25) as nat;
    let (a, c) = (pc.subrange(0, at), pc.subrange(at + w, pc.len() as int));
    assert(pc =~= a + pc.subrange(at, at + w) + c);
    assert(s =~= (pre + a) + bits_of(dx, bx) + (bits_of(dy, by) + c + rest));
    crate::bits::lemma_write_read(pre + a, dx, bx, bits_of(dy, by) + c + rest);
    assert(s =~= (pre + a + bits_of(dx, bx)) + bits_of(dy, by) + (c + rest));
    crate::bits::lemma_write_read(pre + a + bits_of(dx, bx), dy, by, c + rest);
    assert(dx * 25 == coord(ns[k], true) - mx);
    assert(dy * 25 == coord(ns[k], false) - my);
}

/// Round trip of the version and node block: reading what `head_code` holds gives back the
/// version's low 8 bits and the nodes in order, moved so that the smallest x and y are zero,
/// whatever follows.
#[verifier::rlimit(100)]
pub proof fn lemma_head_round_trip(data: GameData, input: Input, rest: Seq<bool>)
    requires
        data.wf(),
        encodable(data, input),
    ensures
        dec_head(data, head_code(input) + rest) == Some(
            (
                (input.version % 256) as u32,
                normalized(input.state.graph.nodes@),
                head_code(input).len() as int,
            ),
        ),
{
    crate::bits::lemma_pow2_values();
    let ns = input.state.graph.nodes@;
    let n = ns.len();
    let v = bits_of((input.version % 256) as nat, 8);
    let s = head_code(input) + rest;
    let e = Seq::<bool>::empty();
    assert(s =~= e + v + (nodes_code(ns) + rest));
    crate::bits::lemma_write_read(e, (input.version % 256) as nat, 8, nodes_code(ns) + rest);
    let lc = len_code(n);
    if n == 0 {
        assert(s =~= v + lc + rest);
        crate::bits::lemma_len_round_trip(v, 0, rest);
        assert(normalized(ns) =~= Seq::<Node>::empty());
    } else {
        let (bx, by) = (pos_bits(ns, true), pos_bits(ns, false));
        let (mx, my) = (min_coord(ns, true), min_coord(ns, false));
        lemma_widths(ns);
        let wx = bits_of((bx - 4) as nat, 4);
        let wy = bits_of((by - 4) as nat, 4);
        let pc = positions_code(ns, mx, my, bx, by);
        let pl = payloads_code(ns);
        let hd = v + lc + wx + wy;
        assert(s =~= v + lc + (wx + wy + pc + pl + rest));
        crate::bits::lemma_len_round_trip(v, n, wx + wy + pc + pl + rest);
        assert(s =~= (v + lc) + wx + (wy + pc + pl + rest));
        crate::bits::lemma_write_read(v + lc, (bx - 4) as nat, 4, wy + pc + pl + rest);
        assert(s =~= (v + lc + wx) + wy + (pc + pl + rest));
        crate::bits::lemma_write_read(v + lc + wx, (by - 4) as nat, 4, pc + pl + rest);
        lemma_positions_len(ns, mx, my, bx, by);
        assert(s =~= hd + pc + (pl + rest));
        crate::bits::lemma_field_in(hd, pc, pl + rest, 0, n * (bx + by));
        assert forall|k: int| 0 <= k < ns.len() implies coord(#[trigger] ns[k], true) % 25 == 0
            && coord(ns[k], false) % 25 == 0 by {
            assert(node_encodable(data, ns[k]));
        }
        lemma_min_on_grid(ns, true);
        lemma_min_on_grid(ns, false);
        let p = (v + lc).len() as int;
        let p1 = hd.len() as int;
        assert(field(s, p, 4) + 4 == bx && field(s, p + 4, 4) + 4 == by);
        let ps = Seq::new(n, |k: int| dec_pos(s, p1, k, bx, by));
        assert forall|k: int| 0 <= k < n implies #[trigger] ps[k] == (Pos {
            x: (coord(ns[k], true) - mx) as i32,
            y: (coord(ns[k], false) - my) as i32,
        }) by {
            lemma_position_decoded(data, ns, hd, pl + rest, k);
        }
        assert(s =~= (hd + pc) + pl + rest);
        lemma_payloads_round_trip(data, hd + pc, ns, rest, ps);
        assert(Seq::new(ns.len(), |k: int| with_pos(ns[k], ps[k])) =~= normalized(ns));
    }
}

/// Pools depend on the nodes' kinds, recipes and items only.
proof fn lemma_pools_same(data: GameData, a: Seq<Node>, b: Seq<Node>)
    requires
        a.len() == b.len(),
        forall|k: int| 0 <= k < a.len() ==> node_outputs(data, #[trigger] a[k]) == node_outputs(data, b[k]) && node_inputs(data, a[k]) == node_inputs(data, b[k]),
    ensures
        output_pool(data, a) == output_pool(data, b),
        input_pool(data, a) == input_pool(data, b),
    decreases a.len(),
{
    if a.len() > 0 {
        assert forall|k: int| 0 <= k < a.drop_last().len() implies node_outputs(data, #[trigger] a.drop_last()[k]) == node_outputs(data, b.drop_last()[k]) && node_inputs(data, a.drop_last()[k]) == node_inputs(data, b.drop_last()[k]) by {
            assert(a.drop_last()[k] == a[k] && b.drop_last()[k] == b[k]);
        }
        lemma_pools_same(data, a.drop_last(), b.drop_last());
        assert(a[a.len() - 1] == a.last() && b[b.len() - 1] == b.last());
    }
}

/// Round trip: decoding a digest of `input` (one that `encode` gives) succeeds and gives back
/// the version's low 8 bits, the nodes in order moved so that the smallest x and y are zero,
/// and the edges, reordered.
pub proof fn lemma_round_trip(data: GameData, input: Input, b: Seq<u8>, r: Result<Input, String>)
    requires
        data.wf(),
        encodable(data, input),
        is_digest_of(data, input, b),
        decodes_to(data, b, r),
    ensures
        r.is_ok(),
        r.unwrap().version == input.version % 256,
        r.unwrap().state.graph.nodes@ == normalized(input.state.graph.nodes@),
        r.unwrap().state.graph.edges@.to_multiset() == input.state.graph.edges@.to_multiset(),
{
    let s = stream_of(b);
    let h = head_code(input);
    let q = h.len() + pad_len(h.len());
    let ns = input.state.graph.nodes@;
    let es = input.state.graph.edges@;
    let el = es.len();
    let e = len_code(el);
    let d = digest_bits(data, input);
    let tail = edges_code(data, input) + zeros(pad_len(d.len()));
    assert(s =~= h + (zeros(pad_len(h.len())) + e + tail));
    lemma_head_round_trip(data, input, zeros(pad_len(h.len())) + e + tail);
    assert(s =~= (h + zeros(pad_len(h.len()))) + e + tail);
    crate::bits::lemma_len_round_trip(h + zeros(pad_len(h.len())), el, tail);
    if el == 0 {
        assert(es =~= Seq::<Edge>::empty());
        assert(r.unwrap().state.graph.edges@ =~= Seq::<Edge>::empty());
    } else {
        lemma_edges_read_back(data, ns, s, (q + e.len()) as int, el);
        crate::edges::lemma_sorted_edges(ns, es);
        assert(r.unwrap().state.graph.edges@ == sorted_edges(ns, es));
    }
}

/// The edge decoder reads the same edges with the decoded nodes as with the nodes encoded.
#[verifier::spinoff_prover]
proof fn lemma_edges_read_back(data: GameData, ns: Seq<Node>, s: Seq<bool>, p: int, n: nat)
    requires
        data.wf(),
        all_encodable(data, ns),
        ns.len() < 32768,
    ensures
        dec_edges(output_pool(data, normalized(ns)), input_pool(data, normalized(ns)), normalized(ns), s, p, n)
            == dec_edges(output_pool(data, ns), input_pool(data, ns), ns, s, p, n),
{
    let nn = normalized(ns);
    lemma_nodes_known(data, ns);
    crate::edges::lemma_pools_unique(data, ns);
    crate::edges::lemma_pool_len(data, ns);
    assert forall|k: int| 0 <= k < nn.len() implies node_outputs(data, #[trigger] nn[k]) == node_outputs(data, ns[k]) && node_inputs(data, nn[k]) == node_inputs(data, ns[k]) by {
    }
    lemma_pools_same(data, nn, ns);
    assert(crate::edges::same_kinds(ns, nn));
    let ins = input_pool(data, ns);
    assert(crate::edges::entries_in(ins, ns.len())) by {
        assert forall|x: int| 0 <= x < ins.len() implies ((#[trigger] ins[x]).node as int) < ns.len() by {
        }
    }
    crate::edges::lemma_dec_edges_kinds(output_pool(data, ns), ins, ns, nn, s, p, n);
}

} // verus!
