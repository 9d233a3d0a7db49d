use rand::rngs::StdRng;
use rand::SeedableRng;
use wfc::map::Map2D;
use wfc::probability::{Cell, ProbabilityMap, Step};
use wfc::{i64vec2, Direction, I64Vec2, Tile};

/// Grass borders grass and sand, water borders water and sand, sand borders everything.
#[derive(Clone, Copy, Debug, PartialEq, Eq)]
enum Kind {
    Grass,
    Water,
    Sand,
}

const KINDS: [Kind; 3] = [Kind::Grass, Kind::Water, Kind::Sand];

impl Kind {
    fn borders(&self, other: &Kind) -> bool {
        match self {
            Kind::Grass => matches!(other, Kind::Grass | Kind::Sand),
            Kind::Water => matches!(other, Kind::Water | Kind::Sand),
            Kind::Sand => true,
        }
    }
}

impl Tile for Kind {
    fn spec_weight(&self) -> u16 {
        self.weight()
    }
    fn spec_count() -> usize {
        KINDS.len()
    }
    fn spec_nth(i: usize) -> Self {
        KINDS[i]
    }
    fn allows(&self, _: Direction, other: Self) -> bool {
        self.borders(&other)
    }
    fn weight(&self) -> u16 {
        match self {
            Kind::Grass => 2,
            Kind::Water => 1,
            Kind::Sand => 2,
        }
    }
    fn all() -> &'static [Self] {
        &KINDS
    }
    fn is_allowed_left(&self, tile: &Self) -> bool {
        self.borders(tile)
    }
    fn is_allowed_right(&self, tile: &Self) -> bool {
        self.borders(tile)
    }
    fn is_allowed_up(&self, tile: &Self) -> bool {
        self.borders(tile)
    }
    fn is_allowed_down(&self, tile: &Self) -> bool {
        self.borders(tile)
    }
}

/// Only a single kind of tile, and it never borders itself.
#[derive(Clone, Copy, Debug, PartialEq, Eq)]
struct Lonely;

impl Tile for Lonely {
    fn spec_weight(&self) -> u16 {
        1
    }
    fn spec_count() -> usize {
        1
    }
    fn spec_nth(_: usize) -> Self {
        Lonely
    }
    fn allows(&self, _: Direction, _: Self) -> bool {
        false
    }
    fn weight(&self) -> u16 {
        1
    }
    fn all() -> &'static [Self] {
        &[Lonely]
    }
    fn is_allowed_left(&self, _: &Self) -> bool {
        false
    }
    fn is_allowed_right(&self, _: &Self) -> bool {
        false
    }
    fn is_allowed_up(&self, _: &Self) -> bool {
        false
    }
    fn is_allowed_down(&self, _: &Self) -> bool {
        false
    }
}

/// Two kinds whose weights give nothing to draw from (`Weightless`) or pass
/// `u16::MAX` together (`Heavy`); both border everything.
#[derive(Clone, Copy, Debug, PartialEq, Eq)]
enum Weightless {
    A,
    B,
}

const WEIGHTLESS: [Weightless; 2] = [Weightless::A, Weightless::B];

impl Tile for Weightless {
    fn spec_weight(&self) -> u16 {
        0
    }
    fn spec_count() -> usize {
        2
    }
    fn spec_nth(i: usize) -> Self {
        WEIGHTLESS[i]
    }
    fn allows(&self, _: Direction, _: Self) -> bool {
        true
    }
    fn weight(&self) -> u16 {
        0
    }
    fn all() -> &'static [Self] {
        &WEIGHTLESS
    }
    fn is_allowed_left(&self, _: &Self) -> bool {
        true
    }
    fn is_allowed_right(&self, _: &Self) -> bool {
        true
    }
    fn is_allowed_up(&self, _: &Self) -> bool {
        true
    }
    fn is_allowed_down(&self, _: &Self) -> bool {
        true
    }
}

#[derive(Clone, Copy, Debug, PartialEq, Eq)]
enum Heavy {
    A,
    B,
}

const HEAVY: [Heavy; 2] = [Heavy::A, Heavy::B];

impl Tile for Heavy {
    fn spec_weight(&self) -> u16 {
        40000
    }
    fn spec_count() -> usize {
        2
    }
    fn spec_nth(i: usize) -> Self {
        HEAVY[i]
    }
    fn allows(&self, _: Direction, _: Self) -> bool {
        true
    }
    fn weight(&self) -> u16 {
        40000
    }
    fn all() -> &'static [Self] {
        &HEAVY
    }
    fn is_allowed_left(&self, _: &Self) -> bool {
        true
    }
    fn is_allowed_right(&self, _: &Self) -> bool {
        true
    }
    fn is_allowed_up(&self, _: &Self) -> bool {
        true
    }
    fn is_allowed_down(&self, _: &Self) -> bool {
        true
    }
}

fn wave(cell: &Cell<Kind>) -> Vec<Kind> {
    match cell {
        Cell::Wave(w) => w.clone(),
        Cell::Collapsed(_) => panic!("expected a wave"),
    }
}

#[test]
fn new_cell_holds_every_tile() {
    let cell = Cell::<Kind>::new();
    assert_eq!(wave(&cell), vec![Kind::Grass, Kind::Water, Kind::Sand]);
    assert!(!cell.is_collesed());
}

#[test]
fn wave_allows_what_some_tile_allows() {
    let w = Cell::Wave(vec![Kind::Grass, Kind::Water]);
    assert!(w.is_allowed_right(&Kind::Sand));
    assert!(w.is_allowed_left(&Kind::Grass));
    assert!(w.is_allowed_up(&Kind::Water));
    let g = Cell::Wave(vec![Kind::Grass]);
    assert!(!g.is_allowed_down(&Kind::Water));
    assert_eq!(g.is_allowed_down(&Kind::Water), Cell::Collapsed(Kind::Grass).is_allowed_down(&Kind::Water));
    let empty: Cell<Kind> = Cell::Wave(Vec::new());
    assert!(!empty.is_allowed_left(&Kind::Sand));
}

#[test]
fn collapse_at_settles_and_returns_the_rest() {
    let mut c = Cell::Wave(vec![Kind::Grass, Kind::Water, Kind::Sand]);
    let rest = c.collapse_at(1).unwrap();
    assert!(matches!(c, Cell::Collapsed(Kind::Water)));
    assert_eq!(wave(&rest), vec![Kind::Grass, Kind::Sand]);
    assert!(c.collapse_at(0).is_err());
    let mut d = Cell::Wave(vec![Kind::Grass]);
    assert!(d.collapse_at(1).is_err());
    assert_eq!(wave(&d), vec![Kind::Grass]);
}

#[test]
fn collapse_draws_a_weighted_tile() {
    let mut rng = StdRng::seed_from_u64(7);
    for _ in 0..50 {
        let mut c = Cell::<Kind>::new();
        let rest = c.collapse(&mut rng).unwrap();
        let t = match c {
            Cell::Collapsed(t) => t,
            Cell::Wave(_) => panic!("not settled"),
        };
        let mut left = wave(&rest);
        left.push(t);
        assert_eq!(left.len(), 3);
        assert!(left.contains(&Kind::Grass) && left.contains(&Kind::Water) && left.contains(&Kind::Sand));
    }
}

#[test]
fn collapse_fails_on_settled_empty_or_weightless_cells() {
    let mut rng = StdRng::seed_from_u64(1);
    let mut settled = Cell::Collapsed(Kind::Sand);
    assert!(settled.collapse(&mut rng).is_err());
    let mut empty: Cell<Kind> = Cell::Wave(Vec::new());
    assert!(empty.collapse(&mut rng).is_err());
    let mut zero = Cell::<Weightless>::new();
    assert!(zero.collapse(&mut rng).is_err());
    assert!(matches!(zero, Cell::Wave(ref w) if w.len() == 2));
    let mut heavy = Cell::<Heavy>::new();
    assert!(heavy.collapse(&mut rng).is_err());
}

#[test]
fn step_log_pushes_and_pops_in_reverse() {
    let mut s: Step<Kind> = Step::new();
    s.push(i64vec2(0, 0), Cell::Collapsed(Kind::Sand));
    s.push(i64vec2(1, 0), Cell::Wave(vec![Kind::Grass]));
    let (p, c) = s.pop().unwrap();
    assert_eq!(p, i64vec2(1, 0));
    assert_eq!(wave(&c), vec![Kind::Grass]);
    let (p, c) = s.pop().unwrap();
    assert_eq!(p, i64vec2(0, 0));
    assert!(matches!(c, Cell::Collapsed(Kind::Sand)));
    assert!(s.pop().is_none());
}

#[test]
fn lowest_entropy_picks_the_narrowest_waves() {
    let mut map = ProbabilityMap::<Kind>::new(I64Vec2::new(2, 2));
    assert_eq!(map.lowest_entropy_cells(), vec![0, 1, 2, 3]);
    let step = map.step_at(i64vec2(0, 0), 0).unwrap();
    // Grass at (0, 0): its right and upper neighbours lose water.
    assert_eq!(map.lowest_entropy_cells(), vec![1, 2]);
    map.reverse(step);
    assert_eq!(map.lowest_entropy_cells(), vec![0, 1, 2, 3]);
}

#[test]
fn step_at_propagates_constraints() {
    let mut map = ProbabilityMap::<Kind>::new(I64Vec2::new(3, 1));
    map.step_at(i64vec2(0, 0), 0).unwrap();
    map.step_at(i64vec2(2, 0), 1).unwrap();
    // Grass on the left, water on the right: only sand fits between them.
    map.step_at(i64vec2(1, 0), 0).unwrap();
    let out = map.into_map().unwrap();
    assert_eq!(out.into_vec(), vec![Kind::Grass, Kind::Sand, Kind::Water]);
}

#[test]
fn step_at_rejects_bad_choices_without_change() {
    let mut map = ProbabilityMap::<Kind>::new(I64Vec2::new(2, 1));
    assert!(map.step_at(i64vec2(5, 0), 0).is_err());
    assert!(map.step_at(i64vec2(0, 0), 3).is_err());
    assert_eq!(map.lowest_entropy_cells(), vec![0, 1]);
    map.step_at(i64vec2(0, 0), 2).unwrap();
    assert!(map.step_at(i64vec2(0, 0), 0).is_err());
}

#[test]
fn propagation_failure_leaves_an_empty_wave() {
    let mut map = ProbabilityMap::<Lonely>::new(I64Vec2::new(2, 1));
    assert!(map.step_at(i64vec2(0, 0), 0).is_err());
    assert!(map.into_map().is_err());
}

#[test]
fn reverse_restores_the_map_before_a_step() {
    let mut rng = StdRng::seed_from_u64(3);
    let mut map = ProbabilityMap::<Kind>::new(I64Vec2::new(4, 4));
    let first = map.step(&mut rng).unwrap().unwrap();
    let before = map.lowest_entropy_cells();
    let second = map.step(&mut rng).unwrap().unwrap();
    map.reverse(second);
    assert_eq!(map.lowest_entropy_cells(), before);
    map.reverse(first);
    assert_eq!(map.lowest_entropy_cells(), (0..16).collect::<Vec<usize>>());
}

fn generate(size: I64Vec2, seed: u64) -> Result<Map2D<Kind>, ()> {
    let mut rng = StdRng::seed_from_u64(seed);
    let mut map = ProbabilityMap::<Kind>::new(size);
    let mut steps = Vec::new();
    loop {
        let outcome = map.step(&mut rng);
        if let Some(result) = map.advance(&mut steps, outcome) {
            result?;
            break;
        }
    }
    map.into_map()
}

#[test]
fn generated_maps_respect_adjacency() {
    for seed in 0..5 {
        let size = I64Vec2::new(8, 6);
        let out = generate(size, seed).unwrap();
        for y in 0..size.y {
            for x in 0..size.x {
                let here = *out.get_cell(i64vec2(x, y)).unwrap();
                if let Some(right) = out.get_cell(i64vec2(x + 1, y)) {
                    assert!(here.is_allowed_right(right));
                }
                if let Some(up) = out.get_cell(i64vec2(x, y + 1)) {
                    assert!(here.is_allowed_up(up));
                }
            }
        }
    }
}

#[test]
fn step_reports_done_once_settled() {
    let mut rng = StdRng::seed_from_u64(11);
    let mut map = ProbabilityMap::<Kind>::new(I64Vec2::new(1, 1));
    assert!(map.step(&mut rng).unwrap().is_some());
    assert!(map.step(&mut rng).unwrap().is_none());
    assert!(map.next_cell(&mut rng).is_none());
    assert!(map.into_map().is_ok());
}

#[test]
fn advance_keeps_and_takes_back_steps() {
    let mut map = ProbabilityMap::<Kind>::new(I64Vec2::new(2, 1));
    let mut steps = Vec::new();
    let s = map.step_at(i64vec2(0, 0), 0).unwrap();
    assert_eq!(map.advance(&mut steps, Ok(Some(s))), None);
    assert_eq!(steps.len(), 1);
    assert_eq!(map.advance(&mut steps, Err(())), None);
    assert!(steps.is_empty());
    assert_eq!(map.lowest_entropy_cells(), vec![0, 1]);
    assert_eq!(map.advance(&mut steps, Err(())), Some(Err(())));
    assert_eq!(map.advance(&mut steps, Ok(None)), Some(Ok(())));
}

#[test]
fn propagate_from_a_wave_narrows_neighbours() {
    let mut map = ProbabilityMap::<Kind>::new(I64Vec2::new(2, 1));
    let mut step = Step::new();
    let mut rng = StdRng::seed_from_u64(5);
    let p = map.next_cell(&mut rng).unwrap();
    assert!(p == i64vec2(0, 0) || p == i64vec2(1, 0));
    assert!(map.collapse(i64vec2(7, 7), &mut rng, &mut step).is_err());
    assert!(step.pop().is_none());
    map.collapse(i64vec2(0, 0), &mut rng, &mut step).unwrap();
    assert!(map.propagate(i64vec2(0, 0), &mut step).is_ok());
    map.reverse(step);
    assert_eq!(map.lowest_entropy_cells(), vec![0, 1]);
}

#[test]
fn propagate_from_off_the_grid_changes_nothing() {
    let mut map = ProbabilityMap::<Kind>::new(I64Vec2::new(2, 1));
    let mut step = Step::new();
    assert!(map.propagate(i64vec2(-1, 0), &mut step).is_ok());
    assert!(map.propagate(i64vec2(2, 0), &mut step).is_ok());
    assert!(step.pop().is_none());
    assert_eq!(map.lowest_entropy_cells(), vec![0, 1]);
}

#[test]
fn propagate_records_every_neighbour_it_filters() {
    let mut map = ProbabilityMap::<Kind>::new(I64Vec2::new(3, 1));
    map.step_at(i64vec2(0, 0), 0).unwrap();
    // Grass at (0, 0) and water at (2, 0) leave only sand possible at (1, 0).
    map.step_at(i64vec2(2, 0), 1).unwrap();
    let mut step = Step::new();
    assert!(map.propagate(i64vec2(2, 0), &mut step).is_ok());
    let (p, old) = step.pop().unwrap();
    assert_eq!(p, i64vec2(1, 0));
    assert!(matches!(old, Cell::Wave(ref w) if w == &vec![Kind::Sand]));
    assert!(step.pop().is_none());
}
