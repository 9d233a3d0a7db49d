use wfc::probability::Cell;
use wfc::rules::{rules_from_attributes, rules_from_tiled, ConstraintSide, TileAttribute, TileRules, TiledLayer};
use wfc::{Direction, Tile};

fn grass_water_sand() -> Vec<Vec<TileAttribute>> {
    vec![
        vec![TileAttribute::Weight(2), TileAttribute::Constraint(ConstraintSide::All, vec![0, 2])],
        vec![TileAttribute::Weight(1), TileAttribute::Constraint(ConstraintSide::All, vec![1, 2])],
        vec![TileAttribute::Weight(2), TileAttribute::Constraint(ConstraintSide::All, vec![2, 1, 0])],
    ]
}

#[test]
fn attributes_give_weights_and_sides() {
    let r = rules_from_attributes(&grass_water_sand());
    assert_eq!(r.weights, vec![2, 1, 2]);
    for side in [&r.left, &r.right, &r.up, &r.down] {
        assert_eq!(side, &vec![vec![0, 2], vec![1, 2], vec![2, 1, 0]]);
    }
}

#[test]
fn attributes_default_weight_is_one_and_last_weight_wins() {
    let r = rules_from_attributes(&vec![
        vec![],
        vec![TileAttribute::Weight(4), TileAttribute::Other, TileAttribute::Weight(9)],
    ]);
    assert_eq!(r.weights, vec![1, 9]);
    assert!(r.left.iter().chain(&r.right).chain(&r.up).chain(&r.down).all(|l| l.is_empty()));
}

#[test]
fn attributes_sides_collect_in_order() {
    let r = rules_from_attributes(&vec![vec![
        TileAttribute::Constraint(ConstraintSide::Left, vec![1]),
        TileAttribute::Constraint(ConstraintSide::Up, vec![0, 1]),
        TileAttribute::Constraint(ConstraintSide::Other, vec![5]),
        TileAttribute::Constraint(ConstraintSide::All, vec![2]),
        TileAttribute::Constraint(ConstraintSide::Left, vec![0]),
        TileAttribute::Constraint(ConstraintSide::Down, vec![3]),
        TileAttribute::Constraint(ConstraintSide::Right, vec![]),
    ]]);
    assert_eq!(r.left, vec![vec![1, 2, 0]]);
    assert_eq!(r.right, vec![vec![2]]);
    assert_eq!(r.up, vec![vec![0, 1, 2]]);
    assert_eq!(r.down, vec![vec![2, 3]]);
    assert_eq!(r.weights, vec![1]);
}

#[test]
fn attributes_of_no_kinds_give_no_rules() {
    let r = rules_from_attributes(&Vec::new());
    assert!(r.weights.is_empty() && r.left.is_empty() && r.down.is_empty());
}

/// A layer in which `Empty` (value 0) occurs three times, `Dirt` (1) has `Stone` (2)
/// above it and to its right.
fn example_layer() -> TiledLayer {
    TiledLayer { width: 3, height: 2, data: vec![2, 0, 0, 1, 2, 0] }
}

fn example_rules() -> TileRules {
    rules_from_tiled(&vec![0, 1, 2], &vec![example_layer()])
}

#[derive(Debug, Clone, Copy, PartialEq, Eq)]
enum ExampleTile {
    Empty,
    Dirt,
    Stone,
}

const EXAMPLE_TILES: [ExampleTile; 3] = [ExampleTile::Empty, ExampleTile::Dirt, ExampleTile::Stone];

impl ExampleTile {
    fn kind(&self) -> usize {
        *self as usize
    }

    fn side(&self, dir: Direction, other: &Self) -> bool {
        let r = example_rules();
        let lists = match dir {
            Direction::Left => &r.left,
            Direction::Right => &r.right,
            Direction::Up => &r.up,
            Direction::Down => &r.down,
        };
        lists[self.kind()].contains(&other.kind())
    }
}

impl Tile for ExampleTile {
    fn spec_weight(&self) -> u16 {
        self.weight()
    }
    fn spec_count() -> usize {
        EXAMPLE_TILES.len()
    }
    fn spec_nth(i: usize) -> Self {
        EXAMPLE_TILES[i]
    }
    fn allows(&self, dir: Direction, other: Self) -> bool {
        self.side(dir, &other)
    }
    fn weight(&self) -> u16 {
        example_rules().weights[self.kind()]
    }
    fn all() -> &'static [Self] {
        &EXAMPLE_TILES
    }
    fn is_allowed_left(&self, tile: &Self) -> bool {
        self.side(Direction::Left, tile)
    }
    fn is_allowed_right(&self, tile: &Self) -> bool {
        self.side(Direction::Right, tile)
    }
    fn is_allowed_up(&self, tile: &Self) -> bool {
        self.side(Direction::Up, tile)
    }
    fn is_allowed_down(&self, tile: &Self) -> bool {
        self.side(Direction::Down, tile)
    }
}

#[test]
fn tiled_derive() {
    assert_eq!(ExampleTile::all().len(), 3);

    assert!(ExampleTile::Empty.weight() == 3);
    assert!(ExampleTile::Dirt.is_allowed_up(&ExampleTile::Stone));
    assert!(ExampleTile::Dirt.is_allowed_right(&ExampleTile::Stone));
    assert!(ExampleTile::Stone.is_allowed_left(&ExampleTile::Dirt));

    let wave = Cell::Wave([ExampleTile::Dirt, ExampleTile::Stone].to_vec());

    assert!(wave.is_allowed_right(&ExampleTile::Stone));
    assert!(wave.is_allowed_left(&ExampleTile::Dirt));
}

#[test]
fn tiled_rules_of_the_example_layer() {
    let r = example_rules();
    assert_eq!(r.weights, vec![3, 1, 2]);
    // Row 0: Stone Empty Empty; row 1: Dirt Stone Empty.
    assert_eq!(r.left, vec![vec![0, 2], vec![], vec![1]]);
    assert_eq!(r.right, vec![vec![0], vec![2], vec![0]]);
    assert_eq!(r.up, vec![vec![0], vec![2], vec![0]]);
    assert_eq!(r.down, vec![vec![0, 2], vec![], vec![1]]);
}

#[test]
fn tiled_reads_missing_cells_as_zero_and_skips_unknown_values() {
    let layer = TiledLayer { width: 2, height: 2, data: vec![7, 1] };
    let r = rules_from_tiled(&vec![0, 1], &vec![layer]);
    // Cells: 7 1 / 0 0. Value 7 is no kind; it counts nowhere in the lists.
    assert_eq!(r.weights, vec![2, 1]);
    assert_eq!(r.left, vec![vec![0], vec![]]);
    assert_eq!(r.right, vec![vec![0], vec![]]);
    assert_eq!(r.up, vec![vec![1], vec![]]);
    assert_eq!(r.down, vec![vec![], vec![0]]);
}

#[test]
fn tiled_weight_is_one_for_unseen_kinds_and_layers_add_up() {
    let a = TiledLayer { width: 1, height: 2, data: vec![1, 1] };
    let b = TiledLayer { width: 2, height: 1, data: vec![1, 0] };
    let r = rules_from_tiled(&vec![5, 1, 0], &vec![a, b]);
    assert_eq!(r.weights, vec![1, 3, 1]);
    assert_eq!(r.up, vec![vec![], vec![1], vec![]]);
    assert_eq!(r.down, vec![vec![], vec![1], vec![]]);
    assert_eq!(r.right, vec![vec![], vec![2], vec![]]);
    assert_eq!(r.left, vec![vec![], vec![], vec![1]]);
}

#[test]
fn tiled_adjacency_is_symmetric_on_a_layer() {
    let layer = TiledLayer { width: 3, height: 3, data: vec![0, 1, 2, 2, 0, 1, 1, 2, 0] };
    let r = rules_from_tiled(&vec![0, 1, 2], &vec![layer]);
    for a in 0..3usize {
        for b in 0..3usize {
            assert_eq!(r.right[a].contains(&b), r.left[b].contains(&a));
            assert_eq!(r.down[a].contains(&b), r.up[b].contains(&a));
        }
    }
}
