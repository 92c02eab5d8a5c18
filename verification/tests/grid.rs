use station::entity::Entity;
use station::maps::direction::UVec2;
use station::networking::grid::{GridAabb, IVec2, InGrid, SpatialHash, GLOBAL_GRID_CELL_SIZE};

fn p(x: i32, y: i32) -> IVec2 {
    IVec2 { x, y }
}

#[test]
fn relevant_positions_walk_rows() {
    let grid = SpatialHash::new();
    assert_eq!(grid.relevant_positions(p(0, 0), UVec2::new(0, 0)), vec![p(0, 0)]);
    assert_eq!(
        grid.relevant_positions(p(5, -2), UVec2::new(1, 1)),
        vec![
            p(4, -3), p(4, -2), p(4, -1),
            p(5, -3), p(5, -2), p(5, -1),
            p(6, -3), p(6, -2), p(6, -1),
        ]
    );
    assert_eq!(GLOBAL_GRID_CELL_SIZE, 10);
}

#[test]
fn entities_move_between_cells() {
    let mut grid = SpatialHash::new();
    let mut in_grid = InGrid::default();
    let e = Entity(7);
    grid.insert(e, p(1, 1), GridAabb::default(), &mut in_grid);
    assert_eq!(in_grid.position, Some(p(1, 1)));
    assert_eq!(grid.entities_in(p(1, 1)), vec![e]);

    grid.insert(e, p(2, 1), GridAabb::default(), &mut in_grid);
    assert!(grid.entities_in(p(1, 1)).is_empty());
    assert_eq!(grid.entities_in(p(2, 1)), vec![e]);

    // no change: nothing moves
    grid.insert(e, p(2, 1), GridAabb::default(), &mut in_grid);
    assert_eq!(grid.entities_in(p(2, 1)), vec![e]);
}

#[test]
fn large_entities_cover_several_cells() {
    let mut grid = SpatialHash::new();
    let mut in_grid = InGrid::default();
    let big = GridAabb { size: UVec2::new(1, 0), center: p(0, 1) };
    grid.insert(Entity(1), p(0, 0), big, &mut in_grid);
    for x in -1..=1 {
        assert_eq!(grid.entities_in(p(x, 1)), vec![Entity(1)]);
    }
    assert!(grid.entities_in(p(0, 0)).is_empty());
    assert!(grid.entities_in(p(2, 1)).is_empty());

    // shrinking it leaves the outer cells
    grid.insert(Entity(1), p(0, 0), GridAabb::default(), &mut in_grid);
    assert_eq!(grid.entities_in(p(0, 0)), vec![Entity(1)]);
    assert!(grid.entities_in(p(-1, 1)).is_empty());
    assert!(grid.entities_in(p(0, 1)).is_empty());
}

#[test]
fn other_entities_stay() {
    let mut grid = SpatialHash::new();
    let mut a = InGrid::default();
    let mut b = InGrid::default();
    grid.insert(Entity(1), p(3, 3), GridAabb::default(), &mut a);
    grid.insert(Entity(2), p(3, 3), GridAabb::default(), &mut b);
    let mut both = grid.entities_in(p(3, 3));
    both.sort_by_key(|e| e.0);
    assert_eq!(both, vec![Entity(1), Entity(2)]);
    grid.insert(Entity(1), p(9, 9), GridAabb::default(), &mut a);
    assert_eq!(grid.entities_in(p(3, 3)), vec![Entity(2)]);
}
