//! Identifiers and small coordinate records shared by the whole library.
use vstd::prelude::*;
use vstd::laws_eq::obeys_concrete_eq;

verus! {

/// Location of a token in one of the source files, used for error reporting.
#[derive(Debug, Clone, Copy, PartialEq, Eq, Structural, Hash)]
pub struct TokenCoordinate {
    pub source_file_idx: usize,
    pub start: usize,
    pub end: usize,
}

impl TokenCoordinate {
    /// The coordinate that stands for "nowhere in particular": all fields zero.
    pub fn zero() -> (tc: TokenCoordinate)
        ensures
            tc == (TokenCoordinate { source_file_idx: 0, start: 0, end: 0 }),
    {
        TokenCoordinate { source_file_idx: 0, start: 0, end: 0 }
    }
}

/// Index of a semantic data element in `Graph::data_elements`.
#[derive(Debug, Clone, Copy, Eq, Hash)]
pub struct SdeId(pub usize);

impl PartialEq for SdeId {
    fn eq(&self, other: &Self) -> (r: bool) {
        self.0 == other.0
    }
}

impl vstd::std_specs::cmp::PartialEqSpecImpl for SdeId {
    open spec fn obeys_eq_spec() -> bool {
        true
    }

    open spec fn eq_spec(&self, other: &Self) -> bool {
        self.0 == other.0
    }
}

/// `==` on `SdeId` is equality of the wrapped index.
pub broadcast proof fn lemma_sdeid_concrete_eq()
    ensures
        #[trigger] obeys_concrete_eq::<SdeId>(),
{
    reveal(obeys_concrete_eq);
}

/// Index of a pool in `Graph::pools`.
#[derive(Debug, Clone, Copy, Eq, Hash)]
pub struct PoolId(pub usize);

impl PartialEq for PoolId {
    fn eq(&self, other: &Self) -> (r: bool) {
        self.0 == other.0
    }
}

impl vstd::std_specs::cmp::PartialEqSpecImpl for PoolId {
    open spec fn obeys_eq_spec() -> bool {
        true
    }

    open spec fn eq_spec(&self, other: &Self) -> bool {
        self.0 == other.0
    }
}

/// `==` on `PoolId` is equality of the wrapped index.
pub broadcast proof fn lemma_poolid_concrete_eq()
    ensures
        #[trigger] obeys_concrete_eq::<PoolId>(),
{
    reveal(obeys_concrete_eq);
}

/// Index of a lane within its pool.
#[derive(Debug, Clone, Copy, Eq, Hash)]
pub struct LaneId(pub usize);

impl PartialEq for LaneId {
    fn eq(&self, other: &Self) -> (r: bool) {
        self.0 == other.0
    }
}

impl vstd::std_specs::cmp::PartialEqSpecImpl for LaneId {
    open spec fn obeys_eq_spec() -> bool {
        true
    }

    open spec fn eq_spec(&self, other: &Self) -> bool {
        self.0 == other.0
    }
}

/// `==` on `LaneId` is equality of the wrapped index.
pub broadcast proof fn lemma_laneid_concrete_eq()
    ensures
        #[trigger] obeys_concrete_eq::<LaneId>(),
{
    reveal(obeys_concrete_eq);
}

/// Index of a node in `Graph::nodes`.
#[derive(Debug, Clone, Copy, Eq, Hash)]
pub struct NodeId(pub usize);

impl PartialEq for NodeId {
    fn eq(&self, other: &Self) -> (r: bool) {
        self.0 == other.0
    }
}

impl vstd::std_specs::cmp::PartialEqSpecImpl for NodeId {
    open spec fn obeys_eq_spec() -> bool {
        true
    }

    open spec fn eq_spec(&self, other: &Self) -> bool {
        self.0 == other.0
    }
}

/// `==` on `NodeId` is equality of the wrapped index.
pub broadcast proof fn lemma_nodeid_concrete_eq()
    ensures
        #[trigger] obeys_concrete_eq::<NodeId>(),
{
    reveal(obeys_concrete_eq);
}

/// Index of an edge in `Graph::edges`.
#[derive(Debug, Clone, Copy, Eq, Hash)]
pub struct EdgeId(pub usize);

impl PartialEq for EdgeId {
    fn eq(&self, other: &Self) -> (r: bool) {
        self.0 == other.0
    }
}

impl vstd::std_specs::cmp::PartialEqSpecImpl for EdgeId {
    open spec fn obeys_eq_spec() -> bool {
        true
    }

    open spec fn eq_spec(&self, other: &Self) -> bool {
        self.0 == other.0
    }
}

/// `==` on `EdgeId` is equality of the wrapped index.
pub broadcast proof fn lemma_edgeid_concrete_eq()
    ensures
        #[trigger] obeys_concrete_eq::<EdgeId>(),
{
    reveal(obeys_concrete_eq);
}

/// Index of a layer (a column of the layout).
#[derive(Debug, Clone, Copy, Eq, Hash)]
pub struct LayerId(pub usize);

impl PartialEq for LayerId {
    fn eq(&self, other: &Self) -> (r: bool) {
        self.0 == other.0
    }
}

impl vstd::std_specs::cmp::PartialEqSpecImpl for LayerId {
    open spec fn obeys_eq_spec() -> bool {
        true
    }

    open spec fn eq_spec(&self, other: &Self) -> bool {
        self.0 == other.0
    }
}

/// `==` on `LayerId` is equality of the wrapped index.
pub broadcast proof fn lemma_layerid_concrete_eq()
    ensures
        #[trigger] obeys_concrete_eq::<LayerId>(),
{
    reveal(obeys_concrete_eq);
}

/// A lane together with the pool it belongs to. Ordered first by pool, then by lane.
#[derive(Debug, Clone, Copy, Eq, Hash)]
pub struct PoolAndLane {
    pub pool: PoolId,
    pub lane: LaneId,
}

impl PartialEq for PoolAndLane {
    fn eq(&self, other: &Self) -> (r: bool) {
        self.pool.0 == other.pool.0 && self.lane.0 == other.lane.0
    }
}

impl vstd::std_specs::cmp::PartialEqSpecImpl for PoolAndLane {
    open spec fn obeys_eq_spec() -> bool {
        true
    }

    open spec fn eq_spec(&self, other: &Self) -> bool {
        self.pool.0 == other.pool.0 && self.lane.0 == other.lane.0
    }
}

/// Lexicographic order on (pool, lane).
pub open spec fn pool_and_lane_lt(a: PoolAndLane, b: PoolAndLane) -> bool {
    a.pool.0 < b.pool.0 || (a.pool.0 == b.pool.0 && a.lane.0 < b.lane.0)
}

impl PoolAndLane {
    /// The smallest pool-and-lane value, the first lane of the first pool.
    pub fn min_value() -> (r: PoolAndLane)
        ensures
            r == (PoolAndLane { pool: PoolId(0), lane: LaneId(0) }),
    {
        PoolAndLane { pool: PoolId(0), lane: LaneId(0) }
    }

    /// `self < other` in the order of pools first, lanes second.
    pub fn less_than(&self, other: &PoolAndLane) -> (r: bool)
        ensures
            r == pool_and_lane_lt(*self, *other),
    {
        self.pool.0 < other.pool.0 || (self.pool.0 == other.pool.0 && self.lane.0 < other.lane.0)
    }
}

/// A position in the layout grid: lane, layer and whether the half layer is used.
#[derive(Debug, Clone, Copy, PartialEq, Eq)]
pub struct Coord3 {
    pub pool_and_lane: PoolAndLane,
    pub layer: LayerId,
    pub half_layer: bool,
}

/// Absolute coordinates of a node's top left corner.
#[derive(Debug, Clone, Copy, PartialEq, Eq, Structural)]
pub struct XY {
    pub x: usize,
    pub y: usize,
}

/// A port position relative to the node's top left corner.
#[derive(Debug, Clone, Copy, PartialEq, Eq, Structural)]
pub struct RelativePort {
    pub x: usize,
    pub y: usize,
}

/// A port position within the whole diagram.
#[derive(Debug, Clone, Copy, PartialEq, Eq, Structural)]
pub struct AbsolutePort {
    pub x: usize,
    pub y: usize,
}

impl RelativePort {
    /// Moves the relative port to the node at `xy`.
    pub fn add(&self, xy: XY) -> (r: AbsolutePort)
        requires
            self.x + xy.x <= usize::MAX,
            self.y + xy.y <= usize::MAX,
        ensures
            r.x == self.x + xy.x,
            r.y == self.y + xy.y,
    {
        AbsolutePort { x: self.x + xy.x, y: self.y + xy.y }
    }
}

impl AbsolutePort {
    /// The port as an `(x, y)` pair.
    pub fn as_pair(&self) -> (r: (usize, usize))
        ensures
            r == (self.x, self.y),
    {
        (self.x, self.y)
    }
}

} // verus!
