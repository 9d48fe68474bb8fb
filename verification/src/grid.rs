//! The grid model: positions, per-side connection roles, blocks, and the
//! grid itself with position-based lookup.

use vstd::pervasive::VecAdditionalExecFns;
use vstd::prelude::*;

verus! {

/// One of the four cardinal sides of a block.
#[derive(Clone, Copy, PartialEq, Eq, Structural, Debug)]
pub enum Side {
    Right,
    Left,
    Up,
    Down,
}

/// The role a single side of a block plays in the numeric circuit.
#[derive(Clone, Copy, PartialEq, Eq, Structural, Debug)]
pub enum ConnectionRole {
    NoRole,
    Propagating,
    Output,
    InputA,
    InputB,
    Transmitting,
}

/// What a block is: a plain value holder, an arithmetic block that sums two
/// inputs into an output, or a relay that only redirects a resolution walk.
#[derive(Clone, Copy, PartialEq, Eq, Structural, Debug)]
pub enum BlockKind {
    Plain,
    Arithmetic,
    Relay,
}

/// An integer 2D coordinate; the sole spatial key of the grid.
#[derive(Clone, Copy, PartialEq, Eq, Structural, Debug)]
pub struct Vec2 {
    pub x: i32,
    pub y: i32,
}

impl Vec2 {
    pub fn from(x: i32, y: i32) -> (v: Vec2)
        ensures
            v.x == x,
            v.y == y,
    {
        Vec2 { x, y }
    }
}

impl Side {
    /// The side facing this one: Right and Left swap, Up and Down swap.
    pub open spec fn opposite_spec(self) -> Side {
        match self {
            Side::Right => Side::Left,
            Side::Left => Side::Right,
            Side::Up => Side::Down,
            Side::Down => Side::Up,
        }
    }

    pub fn opposite(self) -> (r: Side)
        ensures
            r == self.opposite_spec(),
    {
        match self {
            Side::Right => Side::Left,
            Side::Left => Side::Right,
            Side::Up => Side::Down,
            Side::Down => Side::Up,
        }
    }
}

/// A record of one connection role per side.
#[derive(Clone, Copy, PartialEq, Eq, Structural, Debug)]
pub struct SideConnections {
    pub right: ConnectionRole,
    pub left: ConnectionRole,
    pub up: ConnectionRole,
    pub down: ConnectionRole,
}

/// The record with no role assigned on any side.
pub open spec fn no_connections() -> SideConnections {
    SideConnections {
        right: ConnectionRole::NoRole,
        left: ConnectionRole::NoRole,
        up: ConnectionRole::NoRole,
        down: ConnectionRole::NoRole,
    }
}

impl SideConnections {
    /// The role carried by the given side.
    pub open spec fn role_of(self, s: Side) -> ConnectionRole {
        match s {
            Side::Right => self.right,
            Side::Left => self.left,
            Side::Up => self.up,
            Side::Down => self.down,
        }
    }

    /// The record with the given side re-assigned to the given role.
    pub open spec fn with_role_spec(self, s: Side, role: ConnectionRole) -> SideConnections {
        match s {
            Side::Right => SideConnections { right: role, ..self },
            Side::Left => SideConnections { left: role, ..self },
            Side::Up => SideConnections { up: role, ..self },
            Side::Down => SideConnections { down: role, ..self },
        }
    }
}

impl Default for ConnectionRole {
    fn default() -> (r: ConnectionRole)
        ensures
            r == ConnectionRole::NoRole,
    {
        ConnectionRole::NoRole
    }
}

impl Default for SideConnections {
    fn default() -> (c: SideConnections)
        ensures
            c == no_connections(),
    {
        SideConnections {
            right: ConnectionRole::NoRole,
            left: ConnectionRole::NoRole,
            up: ConnectionRole::NoRole,
            down: ConnectionRole::NoRole,
        }
    }
}

/// The first side, in the fixed scan order Left, Right, Up, Down, whose role
/// in `c` equals `role`; the scan order only matters on grids that assign the
/// same role to several sides of one block.
pub open spec fn side_with_role(c: SideConnections, role: ConnectionRole) -> Option<Side> {
    if c.left == role {
        Some(Side::Left)
    } else if c.right == role {
        Some(Side::Right)
    } else if c.up == role {
        Some(Side::Up)
    } else if c.down == role {
        Some(Side::Down)
    } else {
        None
    }
}

/// The failure conditions of routing resolution and of an evaluation pass.
/// All of them stem from static grid topology, never from transient state.
#[derive(Clone, Copy, PartialEq, Eq, Structural, Debug)]
pub enum EngineError {
    /// A block is missing the requested role on all four sides.
    RoleNotFound,
    /// Routing from an input role reached no block.
    MissingInput,
    /// Routing from the output role reached no block.
    MissingOutput,
    /// A relay offers no unique non-reversing continuation.
    RoutingDeadEnd,
    /// The step bound was exceeded while chaining through relays.
    RoutingCycle,
}

/// A positioned block: its kind, its coordinate, one inert propagation
/// connection layer, the numeric connection layer that routing and
/// evaluation read, its value, and its per-pass activation flag.
#[derive(Clone, Copy, PartialEq, Eq, Structural, Debug)]
pub struct Block {
    pub kind: BlockKind,
    pub position: Vec2,
    pub propagation: SideConnections,
    pub number_connections: SideConnections,
    pub value: i32,
    pub active: bool,
}

/// The block that `Grid::add_block` appends: all roles unassigned, value 0,
/// inactive.
pub open spec fn fresh_block(kind: BlockKind, position: Vec2) -> Block {
    Block {
        kind,
        position,
        propagation: no_connections(),
        number_connections: no_connections(),
        value: 0,
        active: false,
    }
}

impl Block {
    pub fn spawn_block(kind: BlockKind, position: Vec2) -> (b: Block)
        ensures
            b == fresh_block(kind, position),
    {
        Block {
            kind,
            position,
            propagation: SideConnections::default(),
            number_connections: SideConnections::default(),
            value: 0,
            active: false,
        }
    }

    /// Scan the four numeric-connection sides for the given role. `Ok` holds
    /// the first side carrying the role; `RoleNotFound` comes exactly when no
    /// side carries it.
    pub fn resolve_side(&self, role: ConnectionRole) -> (r: Result<Side, EngineError>)
        ensures
            match side_with_role(self.number_connections, role) {
                Some(s) => r == Ok::<Side, EngineError>(s),
                None => r == Err::<Side, EngineError>(EngineError::RoleNotFound),
            },
    {
        if self.number_connections.left == role {
            Ok(Side::Left)
        } else if self.number_connections.right == role {
            Ok(Side::Right)
        } else if self.number_connections.up == role {
            Ok(Side::Up)
        } else if self.number_connections.down == role {
            Ok(Side::Down)
        } else {
            Err(EngineError::RoleNotFound)
        }
    }
}

/// Whether the block sits at the mathematical coordinate (x, y).
pub open spec fn matches_pos(b: Block, x: int, y: int) -> bool {
    b.position.x == x && b.position.y == y
}

/// The index of the first block, in insertion order, at coordinate (x, y).
pub open spec fn find_at(blocks: Seq<Block>, x: int, y: int) -> Option<int>
    decreases blocks.len(),
{
    if blocks.len() == 0 {
        None
    } else if matches_pos(blocks[0], x, y) {
        Some(0)
    } else {
        match find_at(blocks.drop_first(), x, y) {
            Some(i) => Some(i + 1),
            None => None,
        }
    }
}

/// `find_at` returns the first matching index: a found index is in range,
/// matches, and nothing before it matches; absence means nothing matches.
pub proof fn lemma_find_at_props(blocks: Seq<Block>, x: int, y: int)
    ensures
        match find_at(blocks, x, y) {
            Some(i) => 0 <= i < blocks.len() && matches_pos(blocks[i], x, y) && (forall|k: int|
                0 <= k < i ==> !matches_pos(blocks[k], x, y)),
            None => forall|k: int| 0 <= k < blocks.len() ==> !matches_pos(blocks[k], x, y),
        },
    decreases blocks.len(),
{
    if blocks.len() == 0 {
    } else if matches_pos(blocks[0], x, y) {
    } else {
        let rest = blocks.drop_first();
        lemma_find_at_props(rest, x, y);
        match find_at(rest, x, y) {
            Some(j) => {
                assert(find_at(blocks, x, y) == Some(j + 1));
                assert forall|k: int| 0 <= k < j + 1 implies !matches_pos(blocks[k], x, y) by {
                    if k >= 1 {
                        assert(blocks[k] == rest[k - 1]);
                    }
                }
            },
            None => {
                assert forall|k: int| 0 <= k < blocks.len() implies !matches_pos(
                    blocks[k],
                    x,
                    y,
                ) by {
                    if k >= 1 {
                        assert(blocks[k] == rest[k - 1]);
                    }
                }
            },
        }
    }
}

/// An ordered collection of blocks; insertion order is the stable index used
/// as a block's identity handle within one evaluation pass.
pub struct Grid {
    pub blocks: Vec<Block>,
}

impl Grid {
    pub fn new() -> (g: Grid)
        ensures
            g.blocks@ == Seq::<Block>::empty(),
    {
        Grid { blocks: Vec::new() }
    }

    /// Append a new block of the given kind at the given position, with all
    /// roles unassigned, value 0, and the active flag clear.
    pub fn add_block(&mut self, kind: BlockKind, position: Vec2)
        ensures
            final(self).blocks@ == old(self).blocks@.push(fresh_block(kind, position)),
    {
        self.blocks.push(Block::spawn_block(kind, position));
    }

    /// Linear scan for the first block, in insertion order, whose position
    /// equals the argument.
    pub fn find_block_at(&self, position: Vec2) -> (r: Option<usize>)
        ensures
            match r {
                Some(i) => i < self.blocks@.len() && find_at(
                    self.blocks@,
                    position.x as int,
                    position.y as int,
                ) == Some(i as int),
                None => find_at(self.blocks@, position.x as int, position.y as int) is None,
            },
    {
        let ghost gx: int = position.x as int;
        let ghost gy: int = position.y as int;
        let mut i: usize = 0;
        while i < self.blocks.len()
            invariant
                gx == position.x as int,
                gy == position.y as int,
                i <= self.blocks@.len(),
                forall|k: int| 0 <= k < i ==> !matches_pos(self.blocks@[k], gx, gy),
            decreases self.blocks@.len() - i,
        {
            let b = self.blocks[i];
            if b.position.x == position.x && b.position.y == position.y {
                proof {
                    assert(matches_pos(self.blocks@[i as int], gx, gy));
                    lemma_find_at_props(self.blocks@, gx, gy);
                }
                return Some(i);
            }
            assert(!matches_pos(self.blocks@[i as int], gx, gy));
            i += 1;
        }
        proof {
            lemma_find_at_props(self.blocks@, gx, gy);
        }
        None
    }

    /// Assign a connection role to one side of the numeric layer of the
    /// block at `index`; a setup-phase operation.
    pub fn set_role(&mut self, index: usize, side: Side, role: ConnectionRole)
        requires
            index < old(self).blocks@.len(),
        ensures
            final(self).blocks@ == old(self).blocks@.update(
                index as int,
                (Block {
                    number_connections: old(self).blocks@[index as int].number_connections
                        .with_role_spec(side, role),
                    ..old(self).blocks@[index as int]
                }),
            ),
    {
        let b = self.blocks[index];
        let conns = match side {
            Side::Right => SideConnections { right: role, ..b.number_connections },
            Side::Left => SideConnections { left: role, ..b.number_connections },
            Side::Up => SideConnections { up: role, ..b.number_connections },
            Side::Down => SideConnections { down: role, ..b.number_connections },
        };
        self.blocks.set(index, Block { number_connections: conns, ..b });
    }

    /// Seed the value of the block at `index`; a setup-phase operation.
    pub fn set_value(&mut self, index: usize, value: i32)
        requires
            index < old(self).blocks@.len(),
        ensures
            final(self).blocks@ == old(self).blocks@.update(
                index as int,
                (Block { value, ..old(self).blocks@[index as int] }),
            ),
    {
        let b = self.blocks[index];
        self.blocks.set(index, Block { value, ..b });
    }

    /// Toggle whether the block at `index` fires this pass.
    pub fn set_active(&mut self, index: usize, active: bool)
        requires
            index < old(self).blocks@.len(),
        ensures
            final(self).blocks@ == old(self).blocks@.update(
                index as int,
                (Block { active, ..old(self).blocks@[index as int] }),
            ),
    {
        let b = self.blocks[index];
        self.blocks.set(index, Block { active, ..b });
    }

    /// Clear every block's active flag; the per-pass cleanup the driver runs
    /// after an evaluation pass.
    pub fn reset_active_flags(&mut self)
        ensures
            final(self).blocks@.len() == old(self).blocks@.len(),
            forall|k: int|
                0 <= k < old(self).blocks@.len() ==> final(self).blocks@[k] == (Block {
                    active: false,
                    ..old(self).blocks@[k]
                }),
    {
        let mut i: usize = 0;
        while i < self.blocks.len()
            invariant
                i <= self.blocks@.len(),
                self.blocks@.len() == old(self).blocks@.len(),
                forall|k: int|
                    0 <= k < i ==> self.blocks@[k] == (Block {
                        active: false,
                        ..old(self).blocks@[k]
                    }),
                forall|k: int| i <= k < self.blocks@.len() ==> self.blocks@[k] == old(self).blocks@[k],
            decreases self.blocks@.len() - i,
        {
            let b = self.blocks[i];
            self.blocks.set(i, Block { active: false, ..b });
            i += 1;
        }
    }
}

} // verus!
