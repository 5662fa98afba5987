use satisfactory_planner::digest::{check_encodable, decode, encode};
use satisfactory_planner::state::{
    Edge, GameData, Graph, GraphHandle, Input, Node, Overclock, Pos, RecipeInfo, State,
};
use satisfactory_planner::token::{compress_input, decompress_token};

// Items of the test tables.
const ORE: u16 = 0;
const INGOT: u16 = 1;
const WATER: u16 = 2;
const RAW_QUARTZ: u16 = 3;
const COAL: u16 = 4;
const BAUXITE: u16 = 5;
const ALUMINA: u16 = 6;
const SILICA: u16 = 7;
const SCRAP: u16 = 8;
const ALUMINUM: u16 = 9;
const GEAR: u16 = 10;

// Recipes of the test tables.
const IRON_INGOT: u16 = 0;
const ALUMINUM_INGOT: u16 = 1;
const ALUMINUM_SCRAP: u16 = 2;
const ALUMINA_SOLUTION: u16 = 3;
const SILICA_RECIPE: u16 = 4;
const GEARBOX: u16 = 5;

// Source items of the test tables.
const SRC_ORE: u8 = 0;
const SRC_WATER: u8 = 1;
const SRC_RAW_QUARTZ: u8 = 2;
const SRC_COAL: u8 = 3;

fn recipe(inputs: &[u16], outputs: &[u16]) -> RecipeInfo {
    RecipeInfo { inputs: inputs.to_vec(), outputs: outputs.to_vec() }
}

fn tables() -> GameData {
    GameData {
        recipes: vec![
            recipe(&[ORE], &[INGOT]),
            recipe(&[SCRAP, SILICA], &[ALUMINUM]),
            recipe(&[ALUMINA, COAL], &[SCRAP, WATER]),
            recipe(&[BAUXITE, WATER], &[ALUMINA, SILICA]),
            recipe(&[RAW_QUARTZ], &[SILICA]),
            recipe(&[INGOT, INGOT], &[GEAR]),
        ],
        source_items: vec![ORE, WATER, RAW_QUARTZ, COAL],
    }
}

fn pos(x: i32, y: i32) -> Pos {
    Pos { x, y }
}

fn rec(x: i32, y: i32, recipe: u16, buildings_count: u32, overclock: u32) -> Node {
    Node::Recipe { pos: pos(x, y), recipe, buildings_count, overclock: Overclock(overclock) }
}

fn src(x: i32, y: i32, item: u8, rate: u32) -> Node {
    Node::Source { pos: pos(x, y), item, rate }
}

fn edge(sn: u16, sh: u8, tn: u16, th: u8) -> Edge {
    Edge { source: GraphHandle { node: sn, handle: sh }, target: GraphHandle { node: tn, handle: th } }
}

fn input(version: u32, nodes: Vec<Node>, edges: Vec<Edge>) -> Input {
    Input { version, state: State { graph: Graph { nodes, edges } } }
}

fn translated(n: &Node, dx: i32, dy: i32) -> Node {
    let p = |p: &Pos| pos(p.x - dx, p.y - dy);
    match n {
        Node::Recipe { pos, recipe, buildings_count, overclock } => Node::Recipe {
            pos: p(pos),
            recipe: *recipe,
            buildings_count: *buildings_count,
            overclock: *overclock,
        },
        Node::Merger { pos } => Node::Merger { pos: p(pos) },
        Node::Splitter { pos } => Node::Splitter { pos: p(pos) },
        Node::Source { pos, item, rate } => Node::Source { pos: p(pos), item: *item, rate: *rate },
    }
}

fn sorted_edges(edges: &[Edge]) -> Vec<(u16, u8, u16, u8)> {
    let mut v: Vec<_> = edges.iter().map(|e| (e.source.node, e.source.handle, e.target.node, e.target.handle)).collect();
    v.sort();
    v
}

/// Encodes and decodes, and checks that nodes (up to translation), version and edges survive.
fn round_trip(inp: &Input) -> Input {
    let data = tables();
    assert!(check_encodable(&data, inp));
    let bytes = encode(&data, inp);
    let out = decode(&data, &bytes).expect("decodes");
    assert_eq!(out.version, inp.version % 256);
    let nodes = &inp.state.graph.nodes;
    let min_x = nodes.iter().map(|n| n.pos().x).min().unwrap_or(0);
    let min_y = nodes.iter().map(|n| n.pos().y).min().unwrap_or(0);
    let expected: Vec<Node> = nodes.iter().map(|n| translated(n, min_x, min_y)).collect();
    assert_eq!(out.state.graph.nodes, expected);
    assert_eq!(sorted_edges(&out.state.graph.edges), sorted_edges(&inp.state.graph.edges));
    out
}

#[test]
fn empty_graph() {
    let inp = input(0, vec![], vec![]);
    assert_eq!(encode(&tables(), &inp), vec![0, 0, 0]);
    round_trip(&inp);
}

#[test]
fn single_recipe_node() {
    let inp = input(0, vec![rec(650, 375, IRON_INGOT, 1, 1_000_000)], vec![]);
    // version, count 1, widths 4 and 4, position 0 0, tag 0, recipe 0, overclock `0`,
    // count `0000`: 49 bits, zero fill, edge count 0.
    assert_eq!(encode(&tables(), &inp), vec![0, 1, 0, 0, 0, 0, 0, 0]);
    let out = round_trip(&inp);
    assert_eq!(out.state.graph.nodes, vec![rec(0, 0, IRON_INGOT, 1, 1_000_000)]);
}

#[test]
fn sources_merger_recipe() {
    let nodes = vec![
        src(0, 0, SRC_ORE, 60),
        src(0, 100, SRC_ORE, 120),
        Node::Merger { pos: pos(100, 50) },
        rec(200, 50, IRON_INGOT, 2, 1_000_000),
    ];
    let edges = vec![edge(0, 0, 2, 0), edge(1, 0, 2, 1), edge(2, 3, 3, 0)];
    round_trip(&input(3, nodes, edges));
}

fn aluminum_plan() -> Input {
    let nodes = vec![
        rec(950, 225, ALUMINUM_INGOT, 4, 1_000_000),
        rec(475, 225, ALUMINUM_SCRAP, 1, 1_000_000),
        rec(100, 225, ALUMINA_SOLUTION, 2, 1_000_000),
        Node::Merger { pos: pos(-25, 300) },
        src(-200, 300, SRC_WATER, 240),
        src(-75, 450, SRC_RAW_QUARTZ, 240),
        rec(100, 400, SILICA_RECIPE, 6, 1_000_000),
        Node::Merger { pos: pos(475, 375) },
        src(250, 150, SRC_COAL, 60),
        Node::Merger { pos: pos(750, 375) },
    ];
    let edges = vec![
        edge(1, 5, 3, 2),
        edge(1, 4, 0, 0),
        edge(2, 4, 1, 0),
        edge(2, 5, 7, 1),
        edge(3, 3, 2, 1),
        edge(4, 0, 3, 1),
        edge(5, 0, 6, 0),
        edge(6, 4, 7, 2),
        edge(7, 3, 9, 1),
        edge(8, 0, 1, 1),
        edge(9, 3, 0, 1),
    ];
    input(0, nodes, edges)
}

#[test]
fn aluminum_ingot_plan() {
    round_trip(&aluminum_plan());
}

#[test]
fn common_prefix_paths() {
    let nodes = vec![rec(0, 0, IRON_INGOT, 524, 1_500_000), src(25, 0, SRC_ORE, 4800)];
    let edges = vec![edge(1, 0, 0, 0)];
    round_trip(&input(0, nodes, edges));
}

#[test]
fn long_form_prefixes() {
    let nodes = vec![rec(0, 0, IRON_INGOT, 1000, 2_499_999), src(0, 25, SRC_ORE, 15360)];
    let edges = vec![edge(1, 0, 0, 0)];
    round_trip(&input(0, nodes, edges));
}

#[test]
fn parallel_edges() {
    // Silica out of the solution into the ingot's silica input.
    let nodes = vec![rec(0, 0, ALUMINA_SOLUTION, 1, 1_000_000), rec(100, 0, ALUMINUM_INGOT, 1, 1_000_000)];
    round_trip(&input(0, nodes, vec![edge(0, 5, 1, 1)]));
    // Two edges from one splitter into the two inputs of one gearbox.
    let splitter_nodes = vec![
        src(0, 0, SRC_ORE, 60),
        Node::Splitter { pos: pos(50, 0) },
        rec(100, 0, GEARBOX, 1, 1_000_000),
    ];
    let out = round_trip(&input(0, splitter_nodes, vec![edge(0, 0, 1, 0), edge(1, 1, 2, 0), edge(1, 2, 2, 1)]));
    let mut targets: Vec<_> = out.state.graph.edges.iter().map(|e| (e.target.node, e.target.handle)).collect();
    targets.sort();
    targets.dedup();
    assert_eq!(targets.len(), 3);
}

#[test]
fn overclock_and_rate_boundaries() {
    let mut nodes = Vec::new();
    let overclocks = [1_000_000, 500_000, 2_500_000, 1_333_333, 10_000];
    let counts = [12, 13, 524, 525, 1 << 24];
    for (i, (oc, bc)) in overclocks.iter().zip(counts.iter()).enumerate() {
        nodes.push(rec(25 * i as i32, 0, IRON_INGOT, *bc, *oc));
    }
    for (i, rate) in [30, 60, 120, 240, 300, 480, 600, 960, 1200, 1920, 2400, 4800, 15330, 131071, 0].iter().enumerate() {
        nodes.push(src(25 * i as i32, 25, SRC_ORE, *rate));
    }
    round_trip(&input(0, nodes, vec![]));
}

#[test]
fn recipe_ids_zero_and_511() {
    let mut data = tables();
    while data.recipes.len() < 512 {
        data.recipes.push(recipe(&[], &[]));
    }
    let inp = input(0, vec![rec(0, 0, 0, 1, 1_000_000), rec(25, 0, 511, 1, 1_000_000)], vec![]);
    assert!(check_encodable(&data, &inp));
    let out = decode(&data, &encode(&data, &inp)).unwrap();
    assert_eq!(out.state.graph.nodes, inp.state.graph.nodes);
    // With the small table, identifier 511 is unknown.
    assert!(decode(&tables(), &encode(&data, &inp)).is_err());
}

#[test]
fn position_extents() {
    // A span of 16 grid steps needs 5 bits, of 15 steps 4.
    let small = input(0, vec![Node::Merger { pos: pos(0, 0) }, Node::Merger { pos: pos(375, 375) }], vec![]);
    let bytes = encode(&tables(), &small);
    assert_eq!(bytes[2], 0x00);
    round_trip(&small);
    let wide = input(0, vec![Node::Merger { pos: pos(-25, 0) }, Node::Merger { pos: pos(25 * 524286, 25) }], vec![]);
    let bytes = encode(&tables(), &wide);
    // 524288 steps need 19 bits: width field 15; 2 steps need 4 bits.
    assert_eq!(bytes[2], 0xF0);
    round_trip(&wide);
    let too_wide = input(0, vec![Node::Merger { pos: pos(0, 0) }, Node::Merger { pos: pos(25 * 524288, 0) }], vec![]);
    assert!(!check_encodable(&tables(), &too_wide));
}

#[test]
fn version_low_bits_kept() {
    let inp = input(0x1234, vec![], vec![]);
    let out = decode(&tables(), &encode(&tables(), &inp)).unwrap();
    assert_eq!(out.version, 0x34);
}

#[test]
fn not_encodable() {
    let off_grid = input(0, vec![Node::Merger { pos: pos(1, 0) }], vec![]);
    assert!(!check_encodable(&tables(), &off_grid));
    let bad_rate = input(0, vec![src(0, 0, SRC_ORE, 131072)], vec![]);
    assert!(!check_encodable(&tables(), &bad_rate));
    let bad_overclock = input(0, vec![rec(0, 0, IRON_INGOT, 1, 9_999)], vec![]);
    assert!(!check_encodable(&tables(), &bad_overclock));
    let zero_count = input(0, vec![rec(0, 0, IRON_INGOT, 0, 1_000_000)], vec![]);
    assert!(!check_encodable(&tables(), &zero_count));
    let missing_node = input(0, vec![src(0, 0, SRC_ORE, 60)], vec![edge(0, 0, 1, 0)]);
    assert!(!check_encodable(&tables(), &missing_node));
    // Every edge into a splitter or merger: their count cannot be stored.
    let all_into_merger = input(0, vec![src(0, 0, SRC_ORE, 60), Node::Merger { pos: pos(25, 0) }], vec![edge(0, 0, 1, 0)]);
    assert!(!check_encodable(&tables(), &all_into_merger));
}

#[test]
fn illegal_edges_not_encodable() {
    let nodes = || vec![src(0, 0, SRC_ORE, 60), src(0, 25, SRC_WATER, 60), rec(50, 0, GEARBOX, 1, 1_000_000)];
    // A source has no handle 1; a gearbox has no input 2.
    assert!(!check_encodable(&tables(), &input(0, nodes(), vec![edge(0, 1, 2, 0)])));
    assert!(!check_encodable(&tables(), &input(0, nodes(), vec![edge(0, 0, 2, 2)])));
    // Ore into a gearbox input that takes ingots.
    assert!(!check_encodable(&tables(), &input(0, nodes(), vec![edge(0, 0, 2, 0)])));
    // One output handle serving two edges, and one input handle serving two.
    let ingots = vec![rec(0, 0, IRON_INGOT, 1, 1_000_000), rec(0, 25, IRON_INGOT, 1, 1_000_000), rec(50, 0, GEARBOX, 1, 1_000_000)];
    assert!(check_encodable(&tables(), &input(0, ingots.clone(), vec![edge(0, 4, 2, 0), edge(1, 4, 2, 1)])));
    assert!(!check_encodable(&tables(), &input(0, ingots.clone(), vec![edge(0, 4, 2, 0), edge(0, 4, 2, 1)])));
    assert!(!check_encodable(&tables(), &input(0, ingots, vec![edge(0, 4, 2, 0), edge(1, 4, 2, 0)])));
}

#[test]
fn truncated_edge_block() {
    let data = tables();
    let bytes = encode(&data, &aluminum_plan());
    let out = decode(&data, &bytes).unwrap();
    assert_eq!(out.state.graph.edges.len(), 11);
    assert!(decode(&data, &bytes[..bytes.len() - 1]).is_err());
}

#[test]
fn decode_errors() {
    let data = tables();
    // Truncated: nothing, or a node count without nodes.
    assert!(decode(&data, &[]).is_err());
    assert!(decode(&data, &[0, 1]).is_err());
    // Node tag 4.
    assert!(decode(&data, &[0, 1, 0, 0, 0b1000_0000, 0, 0]).is_err());
    // Unknown source item 15.
    assert!(decode(&data, &[0, 1, 0, 0, 0b0111_1110, 0, 0, 0]).is_err());
    // An edge count without edges, and edges between too few handles.
    assert!(decode(&data, &[0, 0, 1]).is_err());
    // Edge count 2, no nodes: no handles to connect.
    assert!(decode(&data, &[0, 0, 2, 0xFF, 0xFF]).is_err());
}

#[test]
fn token_round_trip() {
    let data = tables();
    assert_eq!(compress_input(&data, &input(0, vec![], vec![])), "AAAA");
    let token = compress_input(&data, &aluminum_plan());
    assert!(token.chars().all(|c| c.is_ascii_alphanumeric() || c == '-' || c == '_'));
    let out = decompress_token(&data, &token).unwrap();
    assert_eq!(out.state.graph.nodes.len(), 10);
    assert_eq!(sorted_edges(&out.state.graph.edges), sorted_edges(&aluminum_plan().state.graph.edges));
    assert!(decompress_token(&data, "not base64!").is_err());
    assert_eq!(decompress_token(&data, "AAAA").unwrap().state.graph.nodes.len(), 0);
}
