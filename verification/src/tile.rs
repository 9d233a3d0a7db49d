use vstd::prelude::*;

verus! {

/// The four sides of a grid cell.
#[derive(Clone, Copy, PartialEq, Eq, Debug, Structural)]
pub enum Direction {
    Left,
    Right,
    Up,
    Down,
}

/// A kind of tile that wave function collapse can place: its relative frequency, the
/// full list of kinds, and which kinds may sit next to it on each side.
pub trait Tile: Sized + Copy + PartialEq {
    /// The relative frequency of this kind.
    spec fn spec_weight(&self) -> u16;

    /// How many kinds there are.
    spec fn spec_count() -> usize;

    /// The kind at position `i` of the fixed order of all kinds.
    spec fn spec_nth(i: usize) -> Self;

    /// `other` may sit on side `dir` of `self`.
    spec fn allows(&self, dir: Direction, other: Self) -> bool;

    fn weight(&self) -> (r: u16)
        ensures
            r == self.spec_weight(),
    ;

    fn all() -> (r: &'static [Self])
        ensures
            r@.len() == Self::spec_count(),
            forall|i: int| 0 <= i < r@.len() ==> #[trigger] r@[i] == Self::spec_nth(i as usize),
    ;

    fn is_allowed_left(&self, tile: &Self) -> (r: bool)
        ensures
            r == self.allows(Direction::Left, *tile),
    ;

    fn is_allowed_right(&self, tile: &Self) -> (r: bool)
        ensures
            r == self.allows(Direction::Right, *tile),
    ;

    fn is_allowed_up(&self, tile: &Self) -> (r: bool)
        ensures
            r == self.allows(Direction::Up, *tile),
    ;

    fn is_allowed_down(&self, tile: &Self) -> (r: bool)
        ensures
            r == self.allows(Direction::Down, *tile),
    ;
}

/// Every kind of tile, in the fixed order of `Tile::all`.
pub open spec fn all_tiles<T: Tile>() -> Seq<T> {
    Seq::new(T::spec_count() as nat, |i: int| T::spec_nth(i as usize))
}

/// Whether `other` may sit on side `dir` of `tile`.
pub fn tile_allows<T: Tile>(tile: &T, dir: Direction, other: &T) -> (r: bool)
    ensures
        r == tile.allows(dir, *other),
{
    match dir {
        Direction::Left => tile.is_allowed_left(other),
        Direction::Right => tile.is_allowed_right(other),
        Direction::Up => tile.is_allowed_up(other),
        Direction::Down => tile.is_allowed_down(other),
    }
}

} // verus!
