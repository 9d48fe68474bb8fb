//! Proved laws of the routing and evaluation engine: side resolution on
//! well-formed blocks, the shape of resolution walks through relay chains,
//! and idempotence of the evaluation pass.

use crate::engine::{
    apply_write, apply_writes, continuation, dx, dy, eval_one, fuel_for, is_active_arith,
    lemma_step_writes_error_persists, role_target, sat_add_i32, step_writes, step_writes_upto,
    walk, Route,
};
use crate::grid::{
    find_at, lemma_find_at_props, matches_pos, side_with_role, Block, ConnectionRole, EngineError,
    Side, SideConnections,
};
use vstd::prelude::*;

verus! {

/// A block that carries `role` on side `s` and on no other side resolves
/// the role to exactly that side.
pub proof fn lemma_resolve_side_unique(c: SideConnections, role: ConnectionRole, s: Side)
    requires
        c.role_of(s) == role,
        forall|t: Side| t != s ==> c.role_of(t) != role,
    ensures
        side_with_role(c, role) == Some(s),
{
    assert(c.role_of(Side::Left) == c.left);
    assert(c.role_of(Side::Right) == c.right);
    assert(c.role_of(Side::Up) == c.up);
    assert(c.role_of(Side::Down) == c.down);
}

/// A block that carries `role` on no side at all resolves the role to
/// nothing: this is exactly the `RoleNotFound` condition.
pub proof fn lemma_resolve_side_missing(c: SideConnections, role: ConnectionRole)
    requires
        forall|t: Side| c.role_of(t) != role,
    ensures
        side_with_role(c, role) is None,
{
    assert(c.role_of(Side::Left) == c.left);
    assert(c.role_of(Side::Right) == c.right);
    assert(c.role_of(Side::Up) == c.up);
    assert(c.role_of(Side::Down) == c.down);
}

/// A straight one-hop connection: when the neighboring cell holds a
/// non-relay block, the walk resolves to that block with zero relay hops.
pub proof fn lemma_resolve_one_hop(
    blocks: Seq<Block>,
    dir: Side,
    x: int,
    y: int,
    fuel: nat,
    i: int,
)
    requires
        1 <= fuel,
        find_at(blocks, x + dx(dir), y + dy(dir)) == Some(i),
        !(blocks[i].kind is Relay),
    ensures
        walk(blocks, dir, x, y, fuel) == Route::Found(i),
{
}

/// A relay bends the walk exactly at its own cell: entered while traveling
/// `dir`, a relay whose unique non-reversing transmitting side is `out`
/// continues the walk from the relay's cell in direction `out`.
pub proof fn lemma_relay_turn(
    blocks: Seq<Block>,
    dir: Side,
    x: int,
    y: int,
    fuel: nat,
    i: int,
    out: Side,
)
    requires
        1 <= fuel,
        find_at(blocks, x + dx(dir), y + dy(dir)) == Some(i),
        blocks[i].kind is Relay,
        continuation(blocks[i].number_connections, dir.opposite_spec()) == Some(out),
    ensures
        walk(blocks, dir, x, y, fuel) == walk(
            blocks,
            out,
            x + dx(dir),
            y + dy(dir),
            (fuel - 1) as nat,
        ),
{
}

/// A chain of `n` consecutive relay cells straight ahead of (x, y) in
/// direction `dir`, each re-routing the walk in that same direction.
pub open spec fn straight_relay_chain(
    blocks: Seq<Block>,
    dir: Side,
    x: int,
    y: int,
    n: nat,
) -> bool
    decreases n,
{
    n == 0 || {
        let nx = x + dx(dir);
        let ny = y + dy(dir);
        match find_at(blocks, nx, ny) {
            Some(i) => blocks[i].kind is Relay && continuation(
                blocks[i].number_connections,
                dir.opposite_spec(),
            ) == Some(dir) && straight_relay_chain(blocks, dir, nx, ny, (n - 1) as nat),
            None => false,
        }
    }
}

/// Walking into a straight relay chain of length `n` is the same walk
/// started from the chain's far end, with `n` steps of fuel spent.
pub proof fn lemma_chain_same_direction(
    blocks: Seq<Block>,
    dir: Side,
    x: int,
    y: int,
    n: nat,
    fuel: nat,
)
    requires
        straight_relay_chain(blocks, dir, x, y, n),
        n <= fuel,
    ensures
        walk(blocks, dir, x, y, fuel) == walk(
            blocks,
            dir,
            x + n * dx(dir),
            y + n * dy(dir),
            (fuel - n) as nat,
        ),
    decreases n,
{
    if n == 0 {
        assert(x + 0 * dx(dir) == x);
        assert(y + 0 * dy(dir) == y);
    } else {
        let nx = x + dx(dir);
        let ny = y + dy(dir);
        let i = find_at(blocks, nx, ny)->Some_0;
        lemma_relay_turn(blocks, dir, x, y, fuel, i, dir);
        lemma_chain_same_direction(blocks, dir, nx, ny, (n - 1) as nat, (fuel - 1) as nat);
        assert(nx + (n - 1) * dx(dir) == x + n * dx(dir)) by (nonlinear_arith)
            requires
                nx == x + dx(dir),
        ;
        assert(ny + (n - 1) * dy(dir) == y + n * dy(dir)) by (nonlinear_arith)
            requires
                ny == y + dy(dir),
        ;
    }
}

/// A walk through a chain of `n` consecutive relay cells, each re-routing
/// in the same direction, resolves to the first non-relay block after the
/// chain - whatever `n` is, as long as the step bound allows `n + 1` steps.
pub proof fn lemma_chain_resolves_past_relays(
    blocks: Seq<Block>,
    dir: Side,
    x: int,
    y: int,
    n: nat,
    fuel: nat,
    j: int,
)
    requires
        straight_relay_chain(blocks, dir, x, y, n),
        n + 1 <= fuel,
        find_at(blocks, x + (n + 1) * dx(dir), y + (n + 1) * dy(dir)) == Some(j),
        !(blocks[j].kind is Relay),
    ensures
        walk(blocks, dir, x, y, fuel) == Route::Found(j),
{
    lemma_chain_same_direction(blocks, dir, x, y, n, fuel);
    assert(x + n * dx(dir) + dx(dir) == x + (n + 1) * dx(dir)) by (nonlinear_arith);
    assert(y + n * dy(dir) + dy(dir) == y + (n + 1) * dy(dir)) by (nonlinear_arith);
    lemma_resolve_one_hop(
        blocks,
        dir,
        x + n * dx(dir),
        y + n * dy(dir),
        (fuel - n) as nat,
        j,
    );
}

/// Two blocks of the same shape: everything equal but possibly the value.
pub open spec fn same_shape(p: Block, q: Block) -> bool {
    p.kind == q.kind && p.position == q.position && p.number_connections == q.number_connections
        && p.propagation == q.propagation && p.active == q.active
}

/// Two grids of the same topology: equal length and, index by index,
/// blocks of the same shape. Routing depends on topology alone, never on
/// block values.
pub open spec fn same_topology(a: Seq<Block>, b: Seq<Block>) -> bool {
    a.len() == b.len() && forall|i: int| 0 <= i < a.len() ==> #[trigger] same_shape(a[i], b[i])
}

/// Position lookup is a function of topology alone.
pub proof fn lemma_find_at_topology(a: Seq<Block>, b: Seq<Block>, x: int, y: int)
    requires
        same_topology(a, b),
    ensures
        find_at(a, x, y) == find_at(b, x, y),
    decreases a.len(),
{
    if a.len() == 0 {
    } else {
        assert(same_shape(a[0], b[0]));
        assert(matches_pos(a[0], x, y) == matches_pos(b[0], x, y));
        assert forall|k: int| 0 <= k < a.drop_first().len() implies #[trigger] same_shape(
            a.drop_first()[k],
            b.drop_first()[k],
        ) by {
            assert(same_shape(a[k + 1], b[k + 1]));
        }
        lemma_find_at_topology(a.drop_first(), b.drop_first(), x, y);
    }
}

/// The resolution walk is a function of topology alone.
pub proof fn lemma_walk_topology(
    a: Seq<Block>,
    b: Seq<Block>,
    dir: Side,
    x: int,
    y: int,
    fuel: nat,
)
    requires
        same_topology(a, b),
    ensures
        walk(a, dir, x, y, fuel) == walk(b, dir, x, y, fuel),
    decreases fuel,
{
    if fuel == 0 {
    } else {
        let nx = x + dx(dir);
        let ny = y + dy(dir);
        lemma_find_at_topology(a, b, nx, ny);
        match find_at(a, nx, ny) {
            Some(i) => {
                lemma_find_at_props(a, nx, ny);
                assert(same_shape(a[i], b[i]));
                if a[i].kind is Relay {
                    match continuation(a[i].number_connections, dir.opposite_spec()) {
                        Some(d2) => {
                            lemma_walk_topology(a, b, d2, nx, ny, (fuel - 1) as nat);
                        },
                        None => {},
                    }
                }
            },
            None => {},
        }
    }
}

/// Role resolution on a block is a function of topology alone.
pub proof fn lemma_role_target_topology(
    a: Seq<Block>,
    b: Seq<Block>,
    i: int,
    role: ConnectionRole,
)
    requires
        same_topology(a, b),
        0 <= i < a.len(),
    ensures
        role_target(a, i, role) == role_target(b, i, role),
{
    assert(same_shape(a[i], b[i]));
    match side_with_role(a[i].number_connections, role) {
        Some(s) => {
            lemma_walk_topology(
                a,
                b,
                s,
                a[i].position.x as int,
                a[i].position.y as int,
                fuel_for(a.len()),
            );
        },
        None => {},
    }
}

/// The block index that resolving `role` on block `i` reached; meaningful
/// only where that resolution succeeded with a target.
pub open spec fn resolved_index(blocks: Seq<Block>, i: int, role: ConnectionRole) -> int {
    match role_target(blocks, i, role) {
        Ok(Some(t)) => t,
        Ok(None) => 0,
        Err(_) => 0,
    }
}

/// An active arithmetic block whose pass write succeeded in `a` produces
/// the same write in any grid of the same topology whose values at the
/// block's two resolved input indices are unchanged.
pub proof fn lemma_eval_one_topology(a: Seq<Block>, b: Seq<Block>, i: int)
    requires
        same_topology(a, b),
        0 <= i < a.len(),
        eval_one(a, i) is Ok,
        b[resolved_index(a, i, ConnectionRole::InputA)].value == a[resolved_index(
            a,
            i,
            ConnectionRole::InputA,
        )].value,
        b[resolved_index(a, i, ConnectionRole::InputB)].value == a[resolved_index(
            a,
            i,
            ConnectionRole::InputB,
        )].value,
    ensures
        eval_one(b, i) == eval_one(a, i),
{
    lemma_role_target_topology(a, b, i, ConnectionRole::InputA);
    lemma_role_target_topology(a, b, i, ConnectionRole::InputB);
    lemma_role_target_topology(a, b, i, ConnectionRole::Output);
}

/// In a pass whose prefix of `n` blocks succeeded, every active arithmetic
/// block among them produced its write.
pub proof fn lemma_eval_ok_of_prefix_ok(blocks: Seq<Block>, n: int, i: int)
    requires
        step_writes_upto(blocks, n) is Ok,
        0 <= i < n,
        is_active_arith(blocks, i),
    ensures
        eval_one(blocks, i) is Ok,
    decreases n,
{
    if i < n - 1 {
        lemma_eval_ok_of_prefix_ok(blocks, n - 1, i);
    }
}

/// A successful pass computes the same writes on any grid of the same
/// topology whose values at every active arithmetic block's resolved input
/// indices are unchanged.
pub proof fn lemma_step_writes_topology(a: Seq<Block>, b: Seq<Block>, n: int)
    requires
        same_topology(a, b),
        step_writes(a) is Ok,
        0 <= n <= a.len(),
        forall|i: int|
            0 <= i < a.len() && #[trigger] is_active_arith(a, i) ==> b[resolved_index(
                a,
                i,
                ConnectionRole::InputA,
            )].value == a[resolved_index(a, i, ConnectionRole::InputA)].value && b[resolved_index(
                a,
                i,
                ConnectionRole::InputB,
            )].value == a[resolved_index(a, i, ConnectionRole::InputB)].value,
    ensures
        step_writes_upto(b, n) == step_writes_upto(a, n),
    decreases n,
{
    if n > 0 {
        lemma_step_writes_topology(a, b, n - 1);
        if step_writes_upto(a, n - 1) is Err {
            lemma_step_writes_error_persists(a, n - 1, a.len() as int);
            assert(false);
        }
        assert(same_shape(a[n - 1], b[n - 1]));
        assert(is_active_arith(b, n - 1) == is_active_arith(a, n - 1));
        if is_active_arith(a, n - 1) {
            if step_writes_upto(a, n) is Err {
                lemma_step_writes_error_persists(a, n, a.len() as int);
                assert(false);
            }
            lemma_eval_ok_of_prefix_ok(a, n, n - 1);
            lemma_eval_one_topology(a, b, n - 1);
        }
    }
}

/// Snapshot isolation: in a successful pass, every active arithmetic
/// block's write carries the saturating sum of its two input blocks'
/// pre-pass values. Writes of the same pass - even ones aimed at those very
/// input blocks, as when two blocks' outputs are each other's inputs -
/// never feed into it, since the whole write list is a function of the grid
/// as it stood when the pass began.
pub proof fn lemma_snapshot_isolation(blocks: Seq<Block>, ws: Seq<(int, i32)>, i: int)
    requires
        step_writes(blocks) == Ok::<Seq<(int, i32)>, EngineError>(ws),
        0 <= i < blocks.len(),
        is_active_arith(blocks, i),
    ensures
        eval_one(blocks, i) == Ok::<(int, i32), EngineError>(
            (
                resolved_index(blocks, i, ConnectionRole::Output),
                sat_add_i32(
                    blocks[resolved_index(blocks, i, ConnectionRole::InputA)].value,
                    blocks[resolved_index(blocks, i, ConnectionRole::InputB)].value,
                ),
            ),
        ),
{
    lemma_eval_ok_of_prefix_ok(blocks, blocks.len() as int, i);
}

/// The value the last write in `ws` aimed at index `j` carries, if any.
pub open spec fn last_write(ws: Seq<(int, i32)>, j: int) -> Option<i32>
    decreases ws.len(),
{
    if ws.len() == 0 {
        None
    } else {
        match last_write(ws.drop_first(), j) {
            Some(v) => Some(v),
            None => if ws[0].0 == j {
                Some(ws[0].1)
            } else {
                None
            },
        }
    }
}

/// What a pass's writes leave at index `j`: the value of the last write
/// aimed there, and the block unchanged where no write aimed at it.
pub proof fn lemma_apply_writes_at(blocks: Seq<Block>, ws: Seq<(int, i32)>, j: int)
    requires
        0 <= j < blocks.len(),
    ensures
        apply_writes(blocks, ws).len() == blocks.len(),
        apply_writes(blocks, ws)[j] == match last_write(ws, j) {
            Some(v) => Block { value: v, ..blocks[j] },
            None => blocks[j],
        },
    decreases ws.len(),
{
    if ws.len() == 0 {
    } else {
        lemma_apply_writes_at(apply_write(blocks, ws[0]), ws.drop_first(), j);
    }
}

/// Applying a pass's writes never changes the grid's topology.
pub proof fn lemma_apply_writes_shape(blocks: Seq<Block>, ws: Seq<(int, i32)>)
    ensures
        same_topology(blocks, apply_writes(blocks, ws)),
{
    let b = apply_writes(blocks, ws);
    lemma_apply_writes_at_len(blocks, ws);
    assert forall|i: int| 0 <= i < blocks.len() implies #[trigger] same_shape(
        blocks[i],
        b[i],
    ) by {
        lemma_apply_writes_at(blocks, ws, i);
    }
}

/// The length of a grid never changes under a pass's writes.
pub proof fn lemma_apply_writes_at_len(blocks: Seq<Block>, ws: Seq<(int, i32)>)
    ensures
        apply_writes(blocks, ws).len() == blocks.len(),
    decreases ws.len(),
{
    if ws.len() > 0 {
        lemma_apply_writes_at_len(apply_write(blocks, ws[0]), ws.drop_first());
    }
}

/// Applying the same writes twice is the same as applying them once: the
/// last write to each index wins both times.
pub proof fn lemma_apply_writes_idempotent(blocks: Seq<Block>, ws: Seq<(int, i32)>)
    ensures
        apply_writes(apply_writes(blocks, ws), ws) == apply_writes(blocks, ws),
{
    let b = apply_writes(blocks, ws);
    lemma_apply_writes_at_len(blocks, ws);
    lemma_apply_writes_at_len(b, ws);
    assert forall|j: int| 0 <= j < b.len() implies apply_writes(b, ws)[j] == b[j] by {
        lemma_apply_writes_at(blocks, ws, j);
        lemma_apply_writes_at(b, ws, j);
    }
    assert(apply_writes(b, ws) =~= b);
}

/// Idempotence of the evaluation pass: when a pass succeeds and its writes
/// leave the values at every active arithmetic block's resolved input
/// indices unchanged, a second pass computes exactly the same writes, and
/// applying them again changes nothing - without new input, evaluating
/// twice gives the same outputs as evaluating once.
pub proof fn lemma_evaluate_step_idempotent(blocks: Seq<Block>, ws: Seq<(int, i32)>)
    requires
        step_writes(blocks) == Ok::<Seq<(int, i32)>, EngineError>(ws),
        forall|i: int|
            0 <= i < blocks.len() && #[trigger] is_active_arith(blocks, i) ==> apply_writes(
                blocks,
                ws,
            )[resolved_index(blocks, i, ConnectionRole::InputA)].value == blocks[resolved_index(
                blocks,
                i,
                ConnectionRole::InputA,
            )].value && apply_writes(blocks, ws)[resolved_index(
                blocks,
                i,
                ConnectionRole::InputB,
            )].value == blocks[resolved_index(blocks, i, ConnectionRole::InputB)].value,
    ensures
        step_writes(apply_writes(blocks, ws)) == Ok::<Seq<(int, i32)>, EngineError>(ws),
        apply_writes(apply_writes(blocks, ws), ws) == apply_writes(blocks, ws),
{
    let b = apply_writes(blocks, ws);
    lemma_apply_writes_shape(blocks, ws);
    lemma_step_writes_topology(blocks, b, blocks.len() as int);
    lemma_apply_writes_idempotent(blocks, ws);
}

} // verus!
