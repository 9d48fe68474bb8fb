use block_grid::grid::{Block, BlockKind, ConnectionRole, EngineError, Grid, Side, Vec2};

#[test]
fn spawn_block_starts_blank() {
    let b = Block::spawn_block(BlockKind::Plain, Vec2::from(3, -2));
    assert_eq!(b.position, Vec2::from(3, -2));
    assert_eq!(b.kind, BlockKind::Plain);
    assert_eq!(b.value, 0);
    assert!(!b.active);
    assert_eq!(b.number_connections.left, ConnectionRole::NoRole);
    assert_eq!(b.number_connections.right, ConnectionRole::NoRole);
    assert_eq!(b.number_connections.up, ConnectionRole::NoRole);
    assert_eq!(b.number_connections.down, ConnectionRole::NoRole);
    assert_eq!(b.propagation, Default::default());
}

#[test]
fn vec2_equality_is_componentwise() {
    assert_eq!(Vec2::from(1, 2), Vec2::from(1, 2));
    assert_ne!(Vec2::from(1, 2), Vec2::from(2, 1));
}

#[test]
fn side_opposite_swaps_pairs() {
    assert_eq!(Side::Right.opposite(), Side::Left);
    assert_eq!(Side::Left.opposite(), Side::Right);
    assert_eq!(Side::Up.opposite(), Side::Down);
    assert_eq!(Side::Down.opposite(), Side::Up);
}

#[test]
fn resolve_side_returns_assigned_sides() {
    let mut b = Block::spawn_block(BlockKind::Arithmetic, Vec2::from(0, 0));
    b.number_connections.left = ConnectionRole::InputA;
    b.number_connections.right = ConnectionRole::InputB;
    b.number_connections.up = ConnectionRole::Output;
    assert_eq!(b.resolve_side(ConnectionRole::InputA), Ok(Side::Left));
    assert_eq!(b.resolve_side(ConnectionRole::InputB), Ok(Side::Right));
    assert_eq!(b.resolve_side(ConnectionRole::Output), Ok(Side::Up));
}

#[test]
fn resolve_side_missing_role_fails_with_role_not_found() {
    let b = Block::spawn_block(BlockKind::Arithmetic, Vec2::from(0, 0));
    assert_eq!(
        b.resolve_side(ConnectionRole::Output),
        Err(EngineError::RoleNotFound)
    );
}

#[test]
fn find_block_at_returns_first_match_in_insertion_order() {
    let mut g = Grid::new();
    g.add_block(BlockKind::Relay, Vec2::from(-1, 0));
    g.add_block(BlockKind::Plain, Vec2::from(-1, 0));
    g.add_block(BlockKind::Plain, Vec2::from(2, 2));
    assert_eq!(g.find_block_at(Vec2::from(-1, 0)), Some(0));
    assert_eq!(g.find_block_at(Vec2::from(2, 2)), Some(2));
    assert_eq!(g.find_block_at(Vec2::from(5, 5)), None);
}

#[test]
fn reset_active_flags_clears_every_block() {
    let mut g = Grid::new();
    g.add_block(BlockKind::Arithmetic, Vec2::from(0, 0));
    g.add_block(BlockKind::Plain, Vec2::from(1, 0));
    g.set_active(0, true);
    g.set_active(1, true);
    g.reset_active_flags();
    assert!(!g.blocks[0].active);
    assert!(!g.blocks[1].active);
}

#[test]
fn setup_operations_touch_only_their_field() {
    let mut g = Grid::new();
    g.add_block(BlockKind::Plain, Vec2::from(0, 0));
    g.set_value(0, 42);
    g.set_role(0, Side::Down, ConnectionRole::Transmitting);
    assert_eq!(g.blocks[0].value, 42);
    assert_eq!(g.blocks[0].number_connections.down, ConnectionRole::Transmitting);
    assert_eq!(g.blocks[0].number_connections.up, ConnectionRole::NoRole);
    assert_eq!(g.blocks[0].kind, BlockKind::Plain);
    assert!(!g.blocks[0].active);
}
