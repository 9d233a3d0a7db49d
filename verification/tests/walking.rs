use wfc::map::Map2D;
use wfc::pathfinding::{manhattan_distance, same_node, Walkable};
use wfc::{i64vec2, Direction, I64Vec2, Tile};

#[derive(Debug, Clone, Copy, PartialEq, Eq)]
enum Ground {
    Floor,
    Wall,
}

const GROUND: [Ground; 2] = [Ground::Floor, Ground::Wall];

impl Tile for Ground {
    fn spec_weight(&self) -> u16 {
        1
    }
    fn spec_count() -> usize {
        2
    }
    fn spec_nth(i: usize) -> Self {
        GROUND[i]
    }
    fn allows(&self, _: Direction, _: Self) -> bool {
        true
    }
    fn weight(&self) -> u16 {
        1
    }
    fn all() -> &'static [Self] {
        &GROUND
    }
    fn is_allowed_left(&self, _: &Self) -> bool {
        true
    }
    fn is_allowed_right(&self, _: &Self) -> bool {
        true
    }
    fn is_allowed_up(&self, _: &Self) -> bool {
        true
    }
    fn is_allowed_down(&self, _: &Self) -> bool {
        true
    }
}

impl Walkable for Ground {
    fn spec_walkable(&self) -> bool {
        self.is_walkable()
    }
    fn is_walkable(&self) -> bool {
        *self == Ground::Floor
    }
}

fn grid() -> Map2D<Ground> {
    // Row 0: Floor Wall Floor; row 1: Floor Floor Floor.
    Map2D::from_vec(
        vec![Ground::Floor, Ground::Wall, Ground::Floor, Ground::Floor, Ground::Floor, Ground::Floor],
        I64Vec2::new(3, 2),
    )
}

#[test]
fn astar_stops_at_the_start() {
    let m = grid();
    assert_eq!(m.astar(i64vec2(0, 0), i64vec2(2, 0)), Some(vec![i64vec2(0, 0)]));
    assert_eq!(m.astar(i64vec2(1, 1), i64vec2(1, 1)), Some(vec![i64vec2(1, 1)]));
    assert_eq!(m.astar(i64vec2(-4, 9), i64vec2(0, 0)), Some(vec![i64vec2(-4, 9)]));
}

#[test]
fn neighbours_are_walkable_cells_in_order() {
    let m = grid();
    assert_eq!(m.walkable_neighbors((1, 1)), vec![((2, 1), 1), ((0, 1), 1)]);
    assert_eq!(m.walkable_neighbors((0, 0)), vec![((0, 1), 1)]);
    assert_eq!(m.walkable_neighbors((2, 1)), vec![((1, 1), 1), ((2, 0), 1)]);
    assert_eq!(m.walkable_neighbors((i64::MAX, 0)), vec![]);
}

#[test]
fn distance_is_manhattan_and_saturates() {
    assert_eq!(manhattan_distance((3, -2), (0, 1)), 6);
    assert_eq!(manhattan_distance((0, 0), (0, 0)), 0);
    assert_eq!(manhattan_distance((i64::MAX, i64::MAX), (i64::MIN, 0)), i64::MAX);
    assert!(same_node((1, 2), (1, 2)));
    assert!(!same_node((1, 2), (2, 1)));
}
