use vstd::prelude::*;

use crate::map::{in_range, Map2D};
use crate::tile::Tile;
use crate::vec2::I64Vec2;

verus! {

/// Whether a tile can be walked on.
pub trait Walkable {
    spec fn spec_walkable(&self) -> bool;

    fn is_walkable(&self) -> (r: bool)
        ensures
            r == self.spec_walkable(),
    ;
}

/// The step from `p` by `(dx, dy)` if it lands on a walkable cell of `m`, at cost one.
pub open spec fn walk_step<T: Walkable>(m: Map2D<T>, p: (i64, i64), dx: int, dy: int) -> Seq<((i64, i64), i64)> {
    let q = I64Vec2 { x: (p.0 + dx) as i64, y: (p.1 + dy) as i64 };
    if i64::MIN <= p.0 + dx <= i64::MAX && i64::MIN <= p.1 + dy <= i64::MAX && in_range(m.extent(), q)
        && m.cell(q).unwrap().spec_walkable() {
        seq![((q.x, q.y), 1i64)]
    } else {
        Seq::empty()
    }
}

/// The walkable neighbours of `p` in `m`, right, left, up, down, each at cost one.
pub open spec fn walk_steps<T: Walkable>(m: Map2D<T>, p: (i64, i64)) -> Seq<((i64, i64), i64)> {
    walk_step(m, p, 1, 0) + walk_step(m, p, -1, 0) + walk_step(m, p, 0, 1) + walk_step(m, p, 0, -1)
}

/// The sum of the distances along each axis from `a` to `b`, capped at `i64::MAX`.
pub open spec fn manhattan(a: (i64, i64), b: (i64, i64)) -> int {
    let dx = if a.0 >= b.0 { a.0 - b.0 } else { b.0 - a.0 };
    let dy = if a.1 >= b.1 { a.1 - b.1 } else { b.1 - a.1 };
    if dx + dy <= i64::MAX { dx + dy } else { i64::MAX as int }
}

impl<T: Walkable + Tile> Map2D<T> {
    fn walk_step(&self, p: (i64, i64), dx: i64, dy: i64) -> (r: Vec<((i64, i64), i64)>)
        requires
            self.well_formed(),
        ensures
            r@ == walk_step(*self, p, dx as int, dy as int),
    {
        let mut r: Vec<((i64, i64), i64)> = Vec::new();
        let (x, y) = match (p.0.checked_add(dx), p.1.checked_add(dy)) {
            (Some(x), Some(y)) => (x, y),
            _ => {
                assert(r@ =~= walk_step(*self, p, dx as int, dy as int));
                return r;
            },
        };
        let q = I64Vec2 { x, y };
        if let Some(tile) = self.get_cell(q) {
            if tile.is_walkable() {
                r.push(((x, y), 1));
            }
        }
        assert(r@ =~= walk_step(*self, p, dx as int, dy as int));
        r
    }

    /// The walkable neighbours of `position`, right, left, up, down, each at cost one.
    pub fn walkable_neighbors(&self, position: (i64, i64)) -> (r: Vec<((i64, i64), i64)>)
        requires
            self.well_formed(),
        ensures
            r@ == walk_steps(*self, position),
    {
        let mut r = self.walk_step(position, 1, 0);
        let mut left = self.walk_step(position, -1, 0);
        let mut up = self.walk_step(position, 0, 1);
        let mut down = self.walk_step(position, 0, -1);
        r.append(&mut left);
        r.append(&mut up);
        r.append(&mut down);
        r
    }
}

/// The distance used to guide the search toward `goal`.
pub fn manhattan_distance(goal: (i64, i64), position: (i64, i64)) -> (r: i64)
    ensures
        r == manhattan(goal, position),
{
    let dx: i128 = if goal.0 >= position.0 {
        goal.0 as i128 - position.0 as i128
    } else {
        position.0 as i128 - goal.0 as i128
    };
    let dy: i128 = if goal.1 >= position.1 {
        goal.1 as i128 - position.1 as i128
    } else {
        position.1 as i128 - goal.1 as i128
    };
    let sum = dx + dy;
    if sum <= i64::MAX as i128 {
        sum as i64
    } else {
        i64::MAX
    }
}

/// `a` and `b` are the same grid node.
pub fn same_node(a: (i64, i64), b: (i64, i64)) -> (r: bool)
    ensures
        r == (a == b),
{
    a.0 == b.0 && a.1 == b.1
}

/// `pathfinding`'s `astar` from `start`, stepping to walkable neighbours at cost one,
/// guided by the distance to `goal`, and stopping at the first node equal to `start`.
/// Its source pops `start` first and tests it for success before expanding anything,
/// and then returns the path `[start]` at cost zero; the contract states that result.
#[verifier::external_body]
fn astar_from<T: Walkable + Tile>(map: &Map2D<T>, start: (i64, i64), goal: (i64, i64)) -> (r: Option<(Vec<(i64, i64)>, i64)>)
    requires
        map.well_formed(),
    ensures
        r is Some,
        r.unwrap().0@ == seq![start],
        r.unwrap().1 == 0,
{
    ::pathfinding::prelude::astar(
        &start,
        |p| map.walkable_neighbors(*p),
        |p| manhattan_distance(goal, *p),
        |p| same_node(*p, start),
    )
}

impl<T: Walkable + Tile> Map2D<T> {
    /// A path over walkable cells found by A*. The search succeeds on the first node
    /// equal to `start`, so the path is `[start]`.
    pub fn astar(&self, start: I64Vec2, goal: I64Vec2) -> (r: Option<Vec<I64Vec2>>)
        requires
            self.well_formed(),
        ensures
            r matches Some(path) && path@ == seq![start],
    {
        match astar_from(self, (start.x, start.y), (goal.x, goal.y)) {
            Some((result, _)) => {
                let mut path: Vec<I64Vec2> = Vec::new();
                let mut i: usize = 0;
                while i < result.len()
                    invariant
                        i <= result@.len(),
                        path@.len() == i,
                        forall|k: int| 0 <= k < i ==> #[trigger] path@[k] == (I64Vec2 { x: result@[k].0, y: result@[k].1 }),
                    decreases result@.len() - i,
                {
                    path.push(I64Vec2 { x: result[i].0, y: result[i].1 });
                    i += 1;
                }
                assert(path@ =~= seq![start]);
                Some(path)
            },
            None => None,
        }
    }
}

} // verus!
