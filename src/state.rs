//! The planner state that the digest stores: a graph of production nodes and the edges
//! between their handles, with the recipe and item tables it refers to.
use vstd::prelude::*;

verus! {

/// Index of a node in `Graph::nodes`.
pub type NodeId = u16;

/// A handle of a node: inputs and outputs are numbered by node kind.
pub type HandleId = u8;

/// Position on the grid; both coordinates are multiples of 25.
#[derive(Clone, Copy, Debug, PartialEq, Eq, Structural)]
pub struct Pos {
    pub x: i32,
    pub y: i32,
}

/// An overclock in millionths: 10_000 (1%) to 2_500_000 (250%).
#[derive(Clone, Copy, Debug, PartialEq, Eq, Structural)]
pub struct Overclock(pub u32);

#[derive(Clone, Copy, Debug, PartialEq, Eq, Structural)]
pub enum Node {
    Recipe { pos: Pos, recipe: u16, buildings_count: u32, overclock: Overclock },
    Merger { pos: Pos },
    Splitter { pos: Pos },
    Source { pos: Pos, item: u8, rate: u32 },
}

#[derive(Clone, Copy, Debug, PartialEq, Eq, Structural)]
pub struct GraphHandle {
    pub node: NodeId,
    pub handle: HandleId,
}

#[derive(Clone, Copy, Debug, PartialEq, Eq, Structural)]
pub struct Edge {
    pub source: GraphHandle,
    pub target: GraphHandle,
}

#[derive(Clone, Debug)]
pub struct Graph {
    pub nodes: Vec<Node>,
    pub edges: Vec<Edge>,
}

#[derive(Clone, Debug)]
pub struct State {
    pub graph: Graph,
}

#[derive(Clone, Debug)]
pub struct Input {
    pub state: State,
    pub version: u32,
}

/// The items that a recipe consumes and produces, in handle order.
#[derive(Clone, Debug)]
pub struct RecipeInfo {
    pub inputs: Vec<u16>,
    pub outputs: Vec<u16>,
}

/// The game tables: recipes by identifier, and the item that each source item stands for.
#[derive(Clone, Debug)]
pub struct GameData {
    pub recipes: Vec<RecipeInfo>,
    pub source_items: Vec<u16>,
}

impl GameData {
    /// At most 512 recipes with at most four inputs and four outputs each, and at most 16
    /// source items.
    pub open spec fn wf(&self) -> bool {
        &&& self.recipes@.len() <= 512
        &&& self.source_items@.len() <= 16
        &&& forall|r: int|
            0 <= r < self.recipes@.len() ==> #[trigger] self.recipes@[r].inputs@.len() <= 4
                && self.recipes@[r].outputs@.len() <= 4
    }
}

impl GameData {
    /// Whether the tables have the sizes the digest can store: the test of `wf`.
    pub fn check_wf(&self) -> (r: bool)
        ensures
            r == self.wf(),
    {
        if self.recipes.len() > 512 || self.source_items.len() > 16 {
            return false;
        }
        let mut i: usize = 0;
        while i < self.recipes.len()
            invariant
                i <= self.recipes@.len(),
                forall|r: int|
                    0 <= r < i ==> #[trigger] self.recipes@[r].inputs@.len() <= 4
                        && self.recipes@[r].outputs@.len() <= 4,
            decreases self.recipes@.len() - i,
        {
            if self.recipes[i].inputs.len() > 4 || self.recipes[i].outputs.len() > 4 {
                return false;
            }
            i = i + 1;
        }
        true
    }
}

impl Node {
    pub open spec fn spec_pos(&self) -> Pos {
        match *self {
            Node::Recipe { pos, .. } => pos,
            Node::Merger { pos } => pos,
            Node::Splitter { pos } => pos,
            Node::Source { pos, .. } => pos,
        }
    }

    pub open spec fn spec_is_split_merge(&self) -> bool {
        self is Merger || self is Splitter
    }

    pub fn pos(&self) -> (r: &Pos)
        ensures
            *r == self.spec_pos(),
    {
        match self {
            Node::Recipe { pos, .. } => pos,
            Node::Merger { pos } => pos,
            Node::Splitter { pos } => pos,
            Node::Source { pos, .. } => pos,
        }
    }

    pub fn is_split_merge(&self) -> (r: bool)
        ensures
            r == self.spec_is_split_merge(),
    {
        match self {
            Node::Merger { .. } | Node::Splitter { .. } => true,
            _ => false,
        }
    }
}

impl Graph {
    pub fn node(&self, id: NodeId) -> (r: &Node)
        requires
            (id as int) < self.nodes@.len(),
        ensures
            *r == self.nodes@[id as int],
    {
        &self.nodes[id as usize]
    }
}

} // verus!
