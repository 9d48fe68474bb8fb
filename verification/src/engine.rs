//! The routing and evaluation engine: resolve a connection side to the
//! concrete target block it reaches after following any chain of relay
//! blocks, and run one evaluation pass over all active arithmetic blocks.

use crate::grid::{
    find_at, lemma_find_at_props, side_with_role, Block, BlockKind, ConnectionRole, EngineError,
    Grid, Side, SideConnections, Vec2,
};
use vstd::pervasive::VecAdditionalExecFns;
use vstd::prelude::*;

verus! {

/// The outcome of a resolution walk, at the specification level.
pub enum Route {
    /// The walk reached the block with this index.
    Found(int),
    /// A step landed on a cell with no block: no target reachable.
    NoTarget,
    /// A relay offered no unique non-reversing continuation.
    DeadEnd,
    /// The step bound ran out while chaining through relays.
    Cycle,
}

/// Horizontal displacement of one step in direction `s`.
pub open spec fn dx(s: Side) -> int {
    match s {
        Side::Right => 1,
        Side::Left => -1,
        Side::Up => 0,
        Side::Down => 0,
    }
}

/// Vertical displacement of one step in direction `s`.
pub open spec fn dy(s: Side) -> int {
    match s {
        Side::Right => 0,
        Side::Left => 0,
        Side::Up => 1,
        Side::Down => -1,
    }
}

/// Whether side `s` is a valid continuation out of a relay whose connections
/// are `c` when the signal entered through side `entry`: the side transmits
/// and is not the side the signal arrived through.
pub open spec fn is_continuation_candidate(c: SideConnections, entry: Side, s: Side) -> bool {
    s != entry && c.role_of(s) == ConnectionRole::Transmitting
}

/// The continuation side of a relay entered through `entry`, when that side
/// is unique. No candidate (the relay only transmits back where the signal
/// came from) or several candidates (the data leaves the turn ambiguous and
/// the engine never guesses) both yield `None`: a routing dead end.
pub open spec fn continuation(c: SideConnections, entry: Side) -> Option<Side> {
    let cr = is_continuation_candidate(c, entry, Side::Right);
    let cl = is_continuation_candidate(c, entry, Side::Left);
    let cu = is_continuation_candidate(c, entry, Side::Up);
    let cd = is_continuation_candidate(c, entry, Side::Down);
    if cr && !cl && !cu && !cd {
        Some(Side::Right)
    } else if cl && !cr && !cu && !cd {
        Some(Side::Left)
    } else if cu && !cr && !cl && !cd {
        Some(Side::Up)
    } else if cd && !cr && !cl && !cu {
        Some(Side::Down)
    } else {
        None
    }
}

/// Executable twin of `continuation`.
pub fn continuation_side(c: SideConnections, entry: Side) -> (r: Option<Side>)
    ensures
        r == continuation(c, entry),
{
    let cr = entry != Side::Right && c.right == ConnectionRole::Transmitting;
    let cl = entry != Side::Left && c.left == ConnectionRole::Transmitting;
    let cu = entry != Side::Up && c.up == ConnectionRole::Transmitting;
    let cd = entry != Side::Down && c.down == ConnectionRole::Transmitting;
    if cr && !cl && !cu && !cd {
        Some(Side::Right)
    } else if cl && !cr && !cu && !cd {
        Some(Side::Left)
    } else if cu && !cr && !cl && !cd {
        Some(Side::Up)
    } else if cd && !cr && !cl && !cu {
        Some(Side::Down)
    } else {
        None
    }
}

/// The step bound of a resolution walk over a grid of `n` blocks. A walk
/// that has not resolved within this many steps revisits some cell in the
/// same direction of travel, so it loops forever: each step beyond the first
/// lands on a relay, and a grid of `n` blocks offers at most `4 * n`
/// distinct cell-and-direction states.
pub open spec fn fuel_for(n: nat) -> nat {
    4 * n + 2
}

/// The resolution walk: starting at (x, y), step one cell in direction
/// `dir`; a non-relay block there is the target; a relay re-routes the walk
/// through its unique non-reversing transmitting side; an empty cell ends
/// the walk with no target. `fuel` bounds the number of steps.
pub open spec fn walk(blocks: Seq<Block>, dir: Side, x: int, y: int, fuel: nat) -> Route
    decreases fuel,
{
    if fuel == 0 {
        Route::Cycle
    } else {
        let nx = x + dx(dir);
        let ny = y + dy(dir);
        match find_at(blocks, nx, ny) {
            Some(i) => {
                if !(blocks[i].kind is Relay) {
                    Route::Found(i)
                } else {
                    match continuation(blocks[i].number_connections, dir.opposite_spec()) {
                        Some(d2) => walk(blocks, d2, nx, ny, (fuel - 1) as nat),
                        None => Route::DeadEnd,
                    }
                }
            },
            None => Route::NoTarget,
        }
    }
}

/// How a walk outcome surfaces to callers of `resolve_target`.
pub open spec fn route_to_result(route: Route) -> Result<Option<int>, EngineError> {
    match route {
        Route::Found(i) => Ok(Some(i)),
        Route::NoTarget => Ok(None),
        Route::DeadEnd => Err(EngineError::RoutingDeadEnd),
        Route::Cycle => Err(EngineError::RoutingCycle),
    }
}

/// The mathematical reading of `resolve_target`'s return value.
pub open spec fn target_view(r: Result<Option<usize>, EngineError>) -> Result<
    Option<int>,
    EngineError,
> {
    match r {
        Ok(Some(i)) => Ok(Some(i as int)),
        Ok(None) => Ok(None),
        Err(e) => Err(e),
    }
}

/// The cell one step from `pos` in direction `dir`, or `None` when that
/// cell's coordinate falls outside the representable range - where no block
/// can sit.
fn neighbor_cell(pos: Vec2, dir: Side) -> (r: Option<Vec2>)
    ensures
        match r {
            Some(p) => p.x as int == pos.x + dx(dir) && p.y as int == pos.y + dy(dir),
            None => pos.x + dx(dir) < i32::MIN || pos.x + dx(dir) > i32::MAX || pos.y + dy(dir)
                < i32::MIN || pos.y + dy(dir) > i32::MAX,
        },
{
    match dir {
        Side::Right => if pos.x == i32::MAX {
            None
        } else {
            Some(Vec2 { x: pos.x + 1, y: pos.y })
        },
        Side::Left => if pos.x == i32::MIN {
            None
        } else {
            Some(Vec2 { x: pos.x - 1, y: pos.y })
        },
        Side::Up => if pos.y == i32::MAX {
            None
        } else {
            Some(Vec2 { x: pos.x, y: pos.y + 1 })
        },
        Side::Down => if pos.y == i32::MIN {
            None
        } else {
            Some(Vec2 { x: pos.x, y: pos.y - 1 })
        },
    }
}

/// Starting at `origin`, step one cell in direction `side` and follow any
/// chain of relay blocks to the first non-relay block. `Ok(Some(i))` is that
/// block's index; `Ok(None)` means the walk left the grid; the errors are
/// `RoutingDeadEnd` and `RoutingCycle`.
pub fn resolve_target(grid: &Grid, side: Side, origin: Vec2) -> (r: Result<
    Option<usize>,
    EngineError,
>)
    ensures
        target_view(r) == route_to_result(
            walk(grid.blocks@, side, origin.x as int, origin.y as int, fuel_for(grid.blocks@.len())),
        ),
        r matches Ok(Some(i)) ==> i < grid.blocks@.len(),
{
    let ghost blocks = grid.blocks@;
    let mut dir = side;
    let mut pos = origin;
    let mut fuel: u128 = 4 * (grid.blocks.len() as u128) + 2;
    proof {
        assert(fuel as nat == fuel_for(blocks.len()));
    }
    loop
        invariant
            blocks == grid.blocks@,
            walk(blocks, side, origin.x as int, origin.y as int, fuel_for(blocks.len())) == walk(
                blocks,
                dir,
                pos.x as int,
                pos.y as int,
                fuel as nat,
            ),
        decreases fuel,
    {
        let ghost px: int = pos.x as int;
        let ghost py: int = pos.y as int;
        if fuel == 0 {
            return Err(EngineError::RoutingCycle);
        }
        let np = match neighbor_cell(pos, dir) {
            Some(p) => p,
            None => {
                proof {
                    lemma_find_at_props(blocks, px + dx(dir), py + dy(dir));
                    assert(walk(blocks, dir, px, py, fuel as nat) == Route::NoTarget);
                }
                return Ok(None);
            },
        };
        match grid.find_block_at(np) {
            None => {
                proof {
                    assert(walk(blocks, dir, px, py, fuel as nat) == Route::NoTarget);
                }
                return Ok(None);
            },
            Some(i) => {
                let b = grid.blocks[i];
                match b.kind {
                    BlockKind::Relay => {
                        let entry = dir.opposite();
                        match continuation_side(b.number_connections, entry) {
                            Some(d2) => {
                                proof {
                                    assert(walk(blocks, dir, px, py, fuel as nat) == walk(
                                        blocks,
                                        d2,
                                        np.x as int,
                                        np.y as int,
                                        (fuel - 1) as nat,
                                    ));
                                }
                                dir = d2;
                                pos = np;
                                fuel = fuel - 1;
                            },
                            None => {
                                proof {
                                    assert(walk(blocks, dir, px, py, fuel as nat)
                                        == Route::DeadEnd);
                                }
                                return Err(EngineError::RoutingDeadEnd);
                            },
                        }
                    },
                    _ => {
                        proof {
                            assert(walk(blocks, dir, px, py, fuel as nat) == Route::Found(
                                i as int,
                            ));
                        }
                        return Ok(Some(i));
                    },
                }
            },
        }
    }
}

/// Whether block `i` is an arithmetic block that fires this pass.
pub open spec fn is_active_arith(blocks: Seq<Block>, i: int) -> bool {
    blocks[i].kind is Arithmetic && blocks[i].active
}

/// Resolution of role `role` on block `i`: find the side carrying the role,
/// then walk from it. `RoleNotFound` when no side carries the role.
pub open spec fn role_target(blocks: Seq<Block>, i: int, role: ConnectionRole) -> Result<
    Option<int>,
    EngineError,
> {
    match side_with_role(blocks[i].number_connections, role) {
        Some(s) => route_to_result(
            walk(
                blocks,
                s,
                blocks[i].position.x as int,
                blocks[i].position.y as int,
                fuel_for(blocks.len()),
            ),
        ),
        None => Err(EngineError::RoleNotFound),
    }
}

/// 32-bit addition, saturating at the bounds of the type.
pub open spec fn sat_add_i32(a: i32, b: i32) -> i32 {
    if a + b > i32::MAX {
        i32::MAX
    } else if a + b < i32::MIN {
        i32::MIN
    } else {
        (a + b) as i32
    }
}

/// Executable saturating addition, computed in 64 bits.
pub fn add_saturating(a: i32, b: i32) -> (r: i32)
    ensures
        r == sat_add_i32(a, b),
{
    let s: i64 = a as i64 + b as i64;
    if s > i32::MAX as i64 {
        i32::MAX
    } else if s < i32::MIN as i64 {
        i32::MIN
    } else {
        s as i32
    }
}

/// The single write an active arithmetic block `i` produces: the target
/// index resolved from its Output side, and the saturating sum of the
/// values of its two resolved input blocks. Errors: `RoleNotFound` when a
/// role is missing, `MissingInput` / `MissingOutput` when a resolution walk
/// reaches no block, and the walk's own `RoutingDeadEnd` / `RoutingCycle`;
/// the roles are tried in the order InputA, InputB, Output.
pub open spec fn eval_one(blocks: Seq<Block>, i: int) -> Result<(int, i32), EngineError> {
    match role_target(blocks, i, ConnectionRole::InputA) {
        Err(e) => Err(e),
        Ok(None) => Err(EngineError::MissingInput),
        Ok(Some(ia)) => match role_target(blocks, i, ConnectionRole::InputB) {
            Err(e) => Err(e),
            Ok(None) => Err(EngineError::MissingInput),
            Ok(Some(ib)) => match role_target(blocks, i, ConnectionRole::Output) {
                Err(e) => Err(e),
                Ok(None) => Err(EngineError::MissingOutput),
                Ok(Some(io)) => Ok((io, sat_add_i32(blocks[ia].value, blocks[ib].value))),
            },
        },
    }
}

/// The writes of one evaluation pass restricted to the first `n` blocks, in
/// insertion order, all computed against the same pre-pass snapshot
/// `blocks`; or the first error any active arithmetic block among them hits.
pub open spec fn step_writes_upto(blocks: Seq<Block>, n: int) -> Result<
    Seq<(int, i32)>,
    EngineError,
>
    decreases n,
{
    if n <= 0 {
        Ok(Seq::empty())
    } else {
        match step_writes_upto(blocks, n - 1) {
            Err(e) => Err(e),
            Ok(ws) => if is_active_arith(blocks, n - 1) {
                match eval_one(blocks, n - 1) {
                    Err(e) => Err(e),
                    Ok(w) => Ok(ws.push(w)),
                }
            } else {
                Ok(ws)
            },
        }
    }
}

/// The writes of one full evaluation pass over `blocks`.
pub open spec fn step_writes(blocks: Seq<Block>) -> Result<Seq<(int, i32)>, EngineError> {
    step_writes_upto(blocks, blocks.len() as int)
}

/// One write applied to the grid: the value of the block at index `w.0`
/// becomes `w.1`. An out-of-range index changes nothing; the engine only
/// produces in-range ones.
pub open spec fn apply_write(blocks: Seq<Block>, w: (int, i32)) -> Seq<Block> {
    if 0 <= w.0 < blocks.len() {
        blocks.update(w.0, Block { value: w.1, ..blocks[w.0] })
    } else {
        blocks
    }
}

/// All writes of a pass applied in order; a later write to the same index
/// wins.
pub open spec fn apply_writes(blocks: Seq<Block>, ws: Seq<(int, i32)>) -> Seq<Block>
    decreases ws.len(),
{
    if ws.len() == 0 {
        blocks
    } else {
        apply_writes(apply_write(blocks, ws[0]), ws.drop_first())
    }
}

/// Appending one write to a pass applies it last.
pub proof fn lemma_apply_writes_push(blocks: Seq<Block>, ws: Seq<(int, i32)>, w: (int, i32))
    ensures
        apply_writes(blocks, ws.push(w)) == apply_write(apply_writes(blocks, ws), w),
    decreases ws.len(),
{
    let p = ws.push(w);
    if ws.len() == 0 {
        assert(p[0] == w);
        assert(p.drop_first() =~= Seq::<(int, i32)>::empty());
        assert(apply_writes(blocks, p) == apply_writes(apply_write(blocks, w), p.drop_first()));
        assert(apply_writes(apply_write(blocks, w), p.drop_first()) == apply_write(blocks, w));
        assert(apply_writes(blocks, ws) == blocks);
    } else {
        assert(p[0] == ws[0]);
        assert(p.drop_first() =~= ws.drop_first().push(w));
        lemma_apply_writes_push(apply_write(blocks, ws[0]), ws.drop_first(), w);
        assert(apply_writes(blocks, p) == apply_writes(apply_write(blocks, ws[0]), p.drop_first()));
        assert(apply_writes(blocks, ws) == apply_writes(apply_write(blocks, ws[0]), ws.drop_first()));
    }
}

/// An error among the first `m` blocks is the error of every longer prefix.
pub proof fn lemma_step_writes_error_persists(blocks: Seq<Block>, m: int, m2: int)
    requires
        m <= m2,
        step_writes_upto(blocks, m) is Err,
    ensures
        step_writes_upto(blocks, m2) == step_writes_upto(blocks, m),
    decreases m2 - m,
{
    if m < m2 {
        lemma_step_writes_error_persists(blocks, m, m2 - 1);
    }
}

/// The mathematical reading of the write list the pass accumulates.
pub open spec fn writes_view(ws: Seq<(usize, i32)>) -> Seq<(int, i32)> {
    ws.map_values(|w: (usize, i32)| (w.0 as int, w.1))
}

/// One evaluation pass: every arithmetic block that is currently active, in
/// insertion order, resolves its InputA, InputB and Output sides and their
/// routing targets, and the output block's value becomes the saturating sum
/// of the two input blocks' values. All reads observe the pre-pass
/// snapshot: the writes are computed first, against the grid as it stood at
/// entry, and applied only after every active block resolved. On the first
/// error the pass stops and the grid is left unchanged - no partial writes.
pub fn evaluate_step(grid: &mut Grid) -> (r: Result<(), EngineError>)
    ensures
        match step_writes(old(grid).blocks@) {
            Ok(ws) => r == Ok::<(), EngineError>(()) && final(grid).blocks@ == apply_writes(
                old(grid).blocks@,
                ws,
            ),
            Err(e) => r == Err::<(), EngineError>(e) && final(grid).blocks@ == old(grid).blocks@,
        },
{
    let ghost blocks0 = grid.blocks@;
    let n = grid.blocks.len();
    let mut writes: Vec<(usize, i32)> = Vec::new();
    proof {
        assert(writes_view(writes@) =~= Seq::<(int, i32)>::empty());
    }
    let mut idx: usize = 0;
    while idx < n
        invariant
            blocks0 == grid.blocks@,
            n == grid.blocks@.len(),
            idx <= n,
            step_writes_upto(blocks0, idx as int) == Ok::<Seq<(int, i32)>, EngineError>(
                writes_view(writes@),
            ),
            forall|j: int| 0 <= j < writes@.len() ==> writes@[j].0 < n,
        decreases n - idx,
    {
        let b = grid.blocks[idx];
        let fire = match b.kind {
            BlockKind::Arithmetic => b.active,
            _ => false,
        };
        if fire {
            proof {
                assert(is_active_arith(blocks0, idx as int));
            }
            let sa = match b.resolve_side(ConnectionRole::InputA) {
                Ok(s) => s,
                Err(e) => {
                    proof {
                        assert(step_writes_upto(blocks0, idx + 1) == Err::<
                            Seq<(int, i32)>,
                            EngineError,
                        >(e));
                        lemma_step_writes_error_persists(blocks0, idx + 1, n as int);
                    }
                    return Err(e);
                },
            };
            let ia = match resolve_target(grid, sa, b.position) {
                Ok(Some(t)) => t,
                Ok(None) => {
                    proof {
                        assert(eval_one(blocks0, idx as int) == Err::<(int, i32), EngineError>(
                            EngineError::MissingInput,
                        ));
                        lemma_step_writes_error_persists(blocks0, idx + 1, n as int);
                    }
                    return Err(EngineError::MissingInput);
                },
                Err(e) => {
                    proof {
                        assert(eval_one(blocks0, idx as int) == Err::<(int, i32), EngineError>(e));
                        lemma_step_writes_error_persists(blocks0, idx + 1, n as int);
                    }
                    return Err(e);
                },
            };
            let sb = match b.resolve_side(ConnectionRole::InputB) {
                Ok(s) => s,
                Err(e) => {
                    proof {
                        lemma_step_writes_error_persists(blocks0, idx + 1, n as int);
                    }
                    return Err(e);
                },
            };
            let ib = match resolve_target(grid, sb, b.position) {
                Ok(Some(t)) => t,
                Ok(None) => {
                    proof {
                        lemma_step_writes_error_persists(blocks0, idx + 1, n as int);
                    }
                    return Err(EngineError::MissingInput);
                },
                Err(e) => {
                    proof {
                        lemma_step_writes_error_persists(blocks0, idx + 1, n as int);
                    }
                    return Err(e);
                },
            };
            let so = match b.resolve_side(ConnectionRole::Output) {
                Ok(s) => s,
                Err(e) => {
                    proof {
                        lemma_step_writes_error_persists(blocks0, idx + 1, n as int);
                    }
                    return Err(e);
                },
            };
            let io = match resolve_target(grid, so, b.position) {
                Ok(Some(t)) => t,
                Ok(None) => {
                    proof {
                        lemma_step_writes_error_persists(blocks0, idx + 1, n as int);
                    }
                    return Err(EngineError::MissingOutput);
                },
                Err(e) => {
                    proof {
                        lemma_step_writes_error_persists(blocks0, idx + 1, n as int);
                    }
                    return Err(e);
                },
            };
            let va = grid.blocks[ia].value;
            let vb = grid.blocks[ib].value;
            let v = add_saturating(va, vb);
            proof {
                assert(eval_one(blocks0, idx as int) == Ok::<(int, i32), EngineError>(
                    (io as int, v),
                ));
            }
            let ghost prev = writes@;
            writes.push((io, v));
            proof {
                assert(writes_view(writes@) =~= writes_view(prev).push((io as int, v)));
                assert(step_writes_upto(blocks0, idx + 1) == Ok::<Seq<(int, i32)>, EngineError>(
                    writes_view(writes@),
                ));
            }
        }
        idx += 1;
    }
    let ghost ws = writes_view(writes@);
    proof {
        assert(step_writes(blocks0) == Ok::<Seq<(int, i32)>, EngineError>(ws));
    }
    let m = writes.len();
    let mut k: usize = 0;
    while k < m
        invariant
            m == writes@.len(),
            k <= m,
            ws == writes_view(writes@),
            forall|j: int| 0 <= j < writes@.len() ==> writes@[j].0 < blocks0.len(),
            grid.blocks@ == apply_writes(blocks0, ws.take(k as int)),
            grid.blocks@.len() == blocks0.len(),
        decreases m - k,
    {
        let w = writes[k];
        let b = grid.blocks[w.0];
        proof {
            assert(ws.take(k + 1) =~= ws.take(k as int).push(ws[k as int]));
            lemma_apply_writes_push(blocks0, ws.take(k as int), ws[k as int]);
        }
        grid.blocks.set(w.0, Block { value: w.1, ..b });
        k += 1;
    }
    proof {
        assert(ws.take(m as int) =~= ws);
    }
    Ok(())
}

} // verus!
