use block_grid::engine::{evaluate_step, resolve_target};
use block_grid::grid::{BlockKind, ConnectionRole, EngineError, Grid, Side, Vec2};

fn relay(g: &mut Grid, x: i32, y: i32, a: Side, b: Side) {
    g.add_block(BlockKind::Relay, Vec2::from(x, y));
    let i = g.blocks.len() - 1;
    g.set_role(i, a, ConnectionRole::Transmitting);
    g.set_role(i, b, ConnectionRole::Transmitting);
}

#[test]
fn one_hop_resolves_to_neighbor() {
    let mut g = Grid::new();
    g.add_block(BlockKind::Arithmetic, Vec2::from(0, 0));
    g.add_block(BlockKind::Plain, Vec2::from(1, 0));
    assert_eq!(resolve_target(&g, Side::Right, Vec2::from(0, 0)), Ok(Some(1)));
}

#[test]
fn walk_off_the_grid_resolves_to_nothing() {
    let mut g = Grid::new();
    g.add_block(BlockKind::Arithmetic, Vec2::from(0, 0));
    assert_eq!(resolve_target(&g, Side::Left, Vec2::from(0, 0)), Ok(None));
}

#[test]
fn relay_chain_resolves_past_all_relays() {
    let mut g = Grid::new();
    g.add_block(BlockKind::Plain, Vec2::from(0, 0));
    relay(&mut g, 1, 0, Side::Left, Side::Right);
    relay(&mut g, 2, 0, Side::Left, Side::Right);
    relay(&mut g, 3, 0, Side::Left, Side::Right);
    g.add_block(BlockKind::Plain, Vec2::from(4, 0));
    assert_eq!(resolve_target(&g, Side::Right, Vec2::from(0, 0)), Ok(Some(4)));
}

#[test]
fn relay_l_turn_bends_exactly_at_the_relay() {
    let mut g = Grid::new();
    relay(&mut g, 1, 0, Side::Left, Side::Down);
    g.add_block(BlockKind::Plain, Vec2::from(1, -1));
    g.add_block(BlockKind::Plain, Vec2::from(2, 0));
    // Entered from its left, the relay transmits downward: the walk must
    // bend at (1, 0) and reach (1, -1), not continue straight to (2, 0).
    assert_eq!(resolve_target(&g, Side::Right, Vec2::from(0, 0)), Ok(Some(1)));
}

#[test]
fn relay_transmitting_only_backwards_is_a_dead_end() {
    let mut g = Grid::new();
    g.add_block(BlockKind::Relay, Vec2::from(1, 0));
    g.set_role(0, Side::Left, ConnectionRole::Transmitting);
    assert_eq!(
        resolve_target(&g, Side::Right, Vec2::from(0, 0)),
        Err(EngineError::RoutingDeadEnd)
    );
}

#[test]
fn relay_with_two_forward_sides_is_ambiguous() {
    let mut g = Grid::new();
    relay(&mut g, 1, 0, Side::Up, Side::Down);
    g.add_block(BlockKind::Plain, Vec2::from(1, 1));
    g.add_block(BlockKind::Plain, Vec2::from(1, -1));
    // Entered from the left, both transmitting sides lead onward; the
    // engine never guesses a direction.
    assert_eq!(
        resolve_target(&g, Side::Right, Vec2::from(0, 0)),
        Err(EngineError::RoutingDeadEnd)
    );
}

#[test]
fn looped_relay_chain_fails_with_routing_cycle() {
    let mut g = Grid::new();
    g.add_block(BlockKind::Relay, Vec2::from(1, 0));
    g.set_role(0, Side::Up, ConnectionRole::Transmitting);
    relay(&mut g, 1, 1, Side::Down, Side::Right);
    relay(&mut g, 2, 1, Side::Left, Side::Down);
    relay(&mut g, 2, 0, Side::Up, Side::Left);
    assert_eq!(
        resolve_target(&g, Side::Right, Vec2::from(0, 0)),
        Err(EngineError::RoutingCycle)
    );
}

fn three_plus_four_grid() -> Grid {
    let mut g = Grid::new();
    g.add_block(BlockKind::Arithmetic, Vec2::from(0, 0));
    g.set_role(0, Side::Left, ConnectionRole::InputA);
    g.set_role(0, Side::Right, ConnectionRole::InputB);
    g.set_role(0, Side::Up, ConnectionRole::Output);
    g.add_block(BlockKind::Plain, Vec2::from(-1, 0));
    g.set_value(1, 3);
    g.add_block(BlockKind::Plain, Vec2::from(1, 0));
    g.set_value(2, 4);
    g.add_block(BlockKind::Plain, Vec2::from(0, 1));
    g.set_active(0, true);
    g
}

#[test]
fn arithmetic_block_sums_inputs_into_output() {
    let mut g = three_plus_four_grid();
    assert_eq!(evaluate_step(&mut g), Ok(()));
    assert_eq!(g.blocks[3].value, 7);
    assert_eq!(g.blocks[1].value, 3);
    assert_eq!(g.blocks[2].value, 4);
}

#[test]
fn evaluating_twice_gives_the_same_output() {
    let mut g = three_plus_four_grid();
    assert_eq!(evaluate_step(&mut g), Ok(()));
    let first: Vec<i32> = g.blocks.iter().map(|b| b.value).collect();
    assert_eq!(evaluate_step(&mut g), Ok(()));
    let second: Vec<i32> = g.blocks.iter().map(|b| b.value).collect();
    assert_eq!(first, second);
    assert_eq!(g.blocks[3].value, 7);
}

#[test]
fn inactive_arithmetic_block_does_not_fire() {
    let mut g = three_plus_four_grid();
    g.set_active(0, false);
    assert_eq!(evaluate_step(&mut g), Ok(()));
    assert_eq!(g.blocks[3].value, 0);
}

#[test]
fn cross_wired_blocks_read_the_pre_pass_snapshot() {
    let mut g = Grid::new();
    g.add_block(BlockKind::Plain, Vec2::from(-1, 0)); // 0: first block's InputA, second block's output target
    g.set_value(0, 100);
    g.add_block(BlockKind::Arithmetic, Vec2::from(0, 0)); // 1
    g.set_role(1, Side::Left, ConnectionRole::InputA);
    g.set_role(1, Side::Down, ConnectionRole::InputB);
    g.set_role(1, Side::Right, ConnectionRole::Output);
    g.add_block(BlockKind::Plain, Vec2::from(1, 0)); // 2: first block's output target, second block's InputB
    g.set_value(2, 200);
    g.add_block(BlockKind::Arithmetic, Vec2::from(2, 0)); // 3
    g.set_role(3, Side::Right, ConnectionRole::InputA);
    g.set_role(3, Side::Left, ConnectionRole::InputB);
    g.set_role(3, Side::Up, ConnectionRole::Output);
    g.add_block(BlockKind::Plain, Vec2::from(0, -1)); // 4: first block's InputB
    g.set_value(4, 3);
    g.add_block(BlockKind::Plain, Vec2::from(3, 0)); // 5: second block's InputA
    g.set_value(5, 5);
    // Relays routing the second block's output around to block 0.
    relay(&mut g, 2, 1, Side::Down, Side::Left); // 6
    relay(&mut g, 1, 1, Side::Right, Side::Left); // 7
    relay(&mut g, 0, 1, Side::Right, Side::Left); // 8
    relay(&mut g, -1, 1, Side::Right, Side::Down); // 9
    g.set_active(1, true);
    g.set_active(3, true);
    // Both writes must use pre-pass values: block 1 writes 100 + 3 into
    // block 2, and block 3 reads block 2's pre-pass value 200, not 103.
    assert_eq!(evaluate_step(&mut g), Ok(()));
    assert_eq!(g.blocks[2].value, 103);
    assert_eq!(g.blocks[0].value, 205);
}

#[test]
fn missing_input_role_fails_and_writes_nothing() {
    let mut g = three_plus_four_grid();
    g.set_role(0, Side::Left, ConnectionRole::NoRole);
    assert_eq!(evaluate_step(&mut g), Err(EngineError::RoleNotFound));
    assert_eq!(g.blocks[1].value, 3);
    assert_eq!(g.blocks[2].value, 4);
    assert_eq!(g.blocks[3].value, 0);
}

#[test]
fn unreachable_input_fails_with_missing_input() {
    let mut g = three_plus_four_grid();
    // Point InputA at an empty cell instead of the left neighbor.
    g.set_role(0, Side::Left, ConnectionRole::NoRole);
    g.set_role(0, Side::Down, ConnectionRole::InputA);
    assert_eq!(evaluate_step(&mut g), Err(EngineError::MissingInput));
    assert_eq!(g.blocks[3].value, 0);
}

#[test]
fn unreachable_output_fails_with_missing_output() {
    let mut g = three_plus_four_grid();
    // Point Output at an empty cell instead of the upper neighbor.
    g.set_role(0, Side::Up, ConnectionRole::NoRole);
    g.set_role(0, Side::Down, ConnectionRole::Output);
    assert_eq!(evaluate_step(&mut g), Err(EngineError::MissingOutput));
    assert_eq!(g.blocks[3].value, 0);
}

#[test]
fn dead_end_during_evaluation_aborts_the_pass() {
    let mut g = three_plus_four_grid();
    // Replace the InputA neighbor's cell with a relay that only transmits
    // back toward the arithmetic block.
    g.blocks[1] = block_grid::grid::Block::spawn_block(BlockKind::Relay, Vec2::from(-1, 0));
    g.set_role(1, Side::Right, ConnectionRole::Transmitting);
    assert_eq!(evaluate_step(&mut g), Err(EngineError::RoutingDeadEnd));
    assert_eq!(g.blocks[3].value, 0);
}

#[test]
fn addition_saturates_at_the_integer_bounds() {
    let mut g = three_plus_four_grid();
    g.set_value(1, i32::MAX);
    g.set_value(2, 1);
    assert_eq!(evaluate_step(&mut g), Ok(()));
    assert_eq!(g.blocks[3].value, i32::MAX);

    let mut h = three_plus_four_grid();
    h.set_value(1, i32::MIN);
    h.set_value(2, -1);
    assert_eq!(evaluate_step(&mut h), Ok(()));
    assert_eq!(h.blocks[3].value, i32::MIN);
}

#[test]
fn relayed_input_feeds_the_sum() {
    // InputA is fetched through a relay chain with a turn: the arithmetic
    // block reads the block at the far end of the bend.
    let mut g = Grid::new();
    g.add_block(BlockKind::Arithmetic, Vec2::from(0, 0)); // 0
    g.set_role(0, Side::Left, ConnectionRole::InputA);
    g.set_role(0, Side::Right, ConnectionRole::InputB);
    g.set_role(0, Side::Down, ConnectionRole::Output);
    relay(&mut g, -1, 0, Side::Right, Side::Up); // 1
    g.add_block(BlockKind::Plain, Vec2::from(-1, 1)); // 2
    g.set_value(2, 30);
    g.add_block(BlockKind::Plain, Vec2::from(1, 0)); // 3
    g.set_value(3, 12);
    g.add_block(BlockKind::Plain, Vec2::from(0, -1)); // 4
    g.set_active(0, true);
    assert_eq!(evaluate_step(&mut g), Ok(()));
    assert_eq!(g.blocks[4].value, 42);
}
