use vstd::prelude::*;

use crate::vec2::I64Vec2;

verus! {

/// `p` lies on a grid of extent `size`.
pub open spec fn in_range(size: I64Vec2, p: I64Vec2) -> bool {
    0 <= p.x && 0 <= p.y && p.x < size.x && p.y < size.y
}

/// Row-major offset of `p` on a grid whose rows are `size.x` cells long.
pub open spec fn flat_index(size: I64Vec2, p: I64Vec2) -> int {
    size.x * p.y + p.x
}

/// Quotient of Rust's integer division `a / b` (rounds toward zero).
pub open spec fn trunc_div(a: int, b: int) -> int {
    if a == 0 {
        0
    } else if a > 0 && b > 0 {
        a / b
    } else if a < 0 && b < 0 {
        (-a) / (-b)
    } else if a < 0 {
        -((-a) / b)
    } else {
        -(a / (-b))
    }
}

/// Remainder of Rust's integer division `a % b` (takes the sign of `a`).
pub open spec fn trunc_rem(a: int, b: int) -> int {
    if a == 0 {
        0
    } else if a > 0 && b > 0 {
        a % b
    } else if a < 0 && b < 0 {
        -((-a) % (-b))
    } else if a < 0 {
        -((-a) % b)
    } else {
        a % (-b)
    }
}

/// The cell at `p` of a grid of extent `size` whose cells are `cells`, in row-major order.
pub open spec fn read_cell<T>(cells: Seq<T>, size: I64Vec2, p: I64Vec2) -> Option<T> {
    if in_range(size, p) {
        Some(cells[flat_index(size, p)])
    } else {
        None
    }
}

/// `cells` with the cell at `p` replaced by `v`; unchanged where `p` is off the grid.
pub open spec fn write_cell<T>(cells: Seq<T>, size: I64Vec2, p: I64Vec2, v: T) -> Seq<T> {
    if in_range(size, p) {
        cells.update(flat_index(size, p), v)
    } else {
        cells
    }
}

/// A rectangular grid of values, stored row by row.
#[derive(Debug)]
pub struct Map2D<T> {
    data: Vec<T>,
    size: I64Vec2,
}

impl<T> Map2D<T> {
    /// The values of the grid, row by row.
    pub closed spec fn cells(&self) -> Seq<T> {
        self.data@
    }

    /// The extent of the grid.
    pub closed spec fn extent(&self) -> I64Vec2 {
        self.size
    }

    /// The grid holds exactly `extent.x * extent.y` values, a number that fits both `i64`
    /// and `usize`.
    pub open spec fn well_formed(&self) -> bool {
        &&& self.cells().len() == self.extent().x * self.extent().y
        &&& self.extent().x * self.extent().y <= i64::MAX
        &&& self.extent().x * self.extent().y <= usize::MAX
    }

    /// The value at `p`, `None` off the grid.
    pub open spec fn cell(&self, p: I64Vec2) -> Option<T> {
        read_cell(self.cells(), self.extent(), p)
    }
}

impl<T: Clone> Clone for Map2D<T> {
    /// A grid of the same extent whose values are clones of these, cell by cell.
    fn clone(&self) -> (r: Self)
        ensures
            r.extent() == self.extent(),
            r.cells().len() == self.cells().len(),
            forall|i: int| 0 <= i < self.cells().len() ==> cloned(self.cells()[i], #[trigger] r.cells()[i]),
    {
        Map2D { data: self.data.clone(), size: self.size }
    }
}

impl<T: Clone> Map2D<T> {
    /// A grid of extent `size` where every value is a clone of `default`.
    pub fn new(size: I64Vec2, default: T) -> (r: Self)
        requires
            1 <= size.x * size.y <= i64::MAX,
            size.x * size.y <= usize::MAX,
        ensures
            r.well_formed(),
            r.extent() == size,
            r.cells().len() == size.x * size.y,
            forall|i: int| 0 <= i < r.cells().len() ==> cloned(default, #[trigger] r.cells()[i]),
    {
        let capacity = (size.x * size.y) as usize;
        let data = vec![default; capacity];
        Self { data, size }
    }

    pub fn size(&self) -> (r: I64Vec2)
        ensures
            r == self.extent(),
    {
        self.size
    }

    /// Row-major offset of `position`, as Rust's `as usize` gives it.
    pub fn index(&self, position: I64Vec2) -> (r: usize)
        requires
            i64::MIN <= self.extent().x * position.y <= i64::MAX,
            i64::MIN <= flat_index(self.extent(), position) <= i64::MAX,
        ensures
            r == flat_index(self.extent(), position) as usize,
    {
        ((self.size.x * position.y) + position.x) as usize
    }

    /// The position whose row-major offset is `index`: `x` is the remainder and `y`
    /// the quotient of `index` (as an `i64`) by the row length.
    pub fn position(&self, index: usize) -> (r: I64Vec2)
        requires
            self.extent().x != 0,
            !(index as i64 == i64::MIN && self.extent().x == -1),
        ensures
            r.x == trunc_rem(index as i64 as int, self.extent().x as int),
            r.y == trunc_div(index as i64 as int, self.extent().x as int),
    {
        let index = #[verifier::truncate] (index as i64);
        proof {
            lemma_trunc_div_bounds(index as int, self.size.x as int);
        }
        let x = match index.checked_rem(self.size.x) {
            Some(x) => x,
            None => 0,
        };
        let y = match index.checked_div(self.size.x) {
            Some(y) => y,
            None => 0,
        };
        I64Vec2 { x, y }
    }

    pub fn is_in_range(&self, position: I64Vec2) -> (r: bool)
        ensures
            r == in_range(self.extent(), position),
    {
        position.x >= 0 && position.y >= 0 && position.x < self.size.x && position.y < self.size.y
    }

    /// Writes `tile` at `position`; does nothing off the grid.
    pub fn set_cell(&mut self, position: I64Vec2, tile: T)
        requires
            old(self).well_formed(),
        ensures
            final(self).well_formed(),
            final(self).extent() == old(self).extent(),
            final(self).cells() == write_cell(old(self).cells(), old(self).extent(), position, tile),
    {
        if !self.is_in_range(position) {
            return;
        }
        proof {
            lemma_flat_index_bounds(self.size, position);
        }
        let len = self.data.len();
        let index = self.index(position);
        assert(index == flat_index(self.size, position));
        self.data.set(index, tile);
    }

    /// The value at `position`, `None` off the grid.
    pub fn get_cell(&self, position: I64Vec2) -> (r: Option<&T>)
        requires
            self.well_formed(),
        ensures
            r is None <==> self.cell(position) is None,
            r matches Some(v) ==> self.cell(position) == Some(*v),
    {
        if !self.is_in_range(position) {
            return None;
        }
        proof {
            lemma_flat_index_bounds(self.size, position);
        }
        let len = self.data.len();
        let index = self.index(position);
        assert(index == flat_index(self.size, position));
        Some(&self.data[index])
    }

    /// A mutable borrow of the value at `position`, `None` off the grid.
    pub fn get_cell_mut(&mut self, position: I64Vec2) -> (r: Option<&mut T>)
        requires
            old(self).well_formed(),
        ensures
            in_range(old(self).extent(), position) ==> {
                &&& r is Some
                &&& old(self).cell(position) == Some(*r->0)
                &&& final(self).extent() == old(self).extent()
                &&& final(self).cells() == old(self).cells().update(
                    flat_index(old(self).extent(), position),
                    *final(r->0),
                )
            },
            !in_range(old(self).extent(), position) ==> {
                &&& r is None
                &&& final(self).extent() == old(self).extent()
                &&& final(self).cells() == old(self).cells()
            },
    {
        if !self.is_in_range(position) {
            return None;
        }
        proof {
            lemma_flat_index_bounds(self.size, position);
        }
        let len = self.data.len();
        let index = self.index(position);
        assert(index == flat_index(self.size, position));
        Some(&mut self.data[index])
    }

    /// The values, row by row.
    pub fn into_vec(self) -> (r: Vec<T>)
        ensures
            r@ == self.cells(),
    {
        self.data
    }

    /// The grid of extent `size` whose values, row by row, are `data`, which must hold
    /// exactly `size.x * size.y` values.
    pub fn from_vec(data: Vec<T>, size: I64Vec2) -> (r: Self)
        requires
            data@.len() == size.x * size.y,
            size.x * size.y <= i64::MAX,
        ensures
            r.well_formed(),
            r.cells() == data@,
            r.extent() == size,
    {
        let n = data.len();
        assert(n == data@.len());
        Self { data, size }
    }

    /// The values, row by row.
    pub fn as_slice(&self) -> (r: &[T])
        ensures
            r@ == self.cells(),
    {
        self.data.as_slice()
    }
}

/// An on-grid position has a row-major offset inside the grid.
pub proof fn lemma_flat_index_bounds(size: I64Vec2, p: I64Vec2)
    requires
        in_range(size, p),
    ensures
        0 <= size.x * p.y <= size.x * (size.y - 1),
        0 <= flat_index(size, p) < size.x * size.y,
{
    let sx = size.x as int;
    let sy = size.y as int;
    let px = p.x as int;
    let py = p.y as int;
    assert(0 <= sx * py <= sx * (sy - 1)) by (nonlinear_arith)
        requires
            0 < sx,
            0 <= py < sy,
    ;
    assert(sx * (sy - 1) + sx == sx * sy) by (nonlinear_arith);
}

/// Rust's quotient stays within the dividend's magnitude, and within half of it when
/// the divisor is not a unit.
pub proof fn lemma_trunc_div_bounds(a: int, b: int)
    requires
        b != 0,
        i64::MIN <= a <= i64::MAX,
        !(a == i64::MIN && b == -1),
    ensures
        i64::MIN <= trunc_div(a, b) <= i64::MAX,
{
    let x = if a >= 0 { a } else { -a };
    let y = if b > 0 { b } else { -b };
    vstd::arithmetic::div_mod::lemma_div_pos_is_pos(x, y);
    vstd::arithmetic::div_mod::lemma_div_is_ordered_by_denominator(x, 1, y);
    if y >= 2 {
        vstd::arithmetic::div_mod::lemma_div_is_ordered_by_denominator(x, 2, y);
    }
}

/// Distinct on-grid positions have distinct row-major offsets.
pub proof fn lemma_flat_index_injective(size: I64Vec2, p: I64Vec2, q: I64Vec2)
    requires
        in_range(size, p),
        in_range(size, q),
        p != q,
    ensures
        flat_index(size, p) != flat_index(size, q),
{
    let sx = size.x as int;
    let d = p.y as int - q.y as int;
    if p.y == q.y {
        assert(sx * p.y == sx * q.y);
    } else {
        let py = p.y as int;
        let qy = q.y as int;
        assert(sx * py - sx * qy == sx * d) by (nonlinear_arith)
            requires
                d == py - qy,
        ;
        if d > 0 {
            assert(sx * d >= sx) by (nonlinear_arith)
                requires
                    d >= 1,
                    sx > 0,
            ;
        } else {
            assert(sx * d <= -sx) by (nonlinear_arith)
                requires
                    d <= -1,
                    sx > 0,
            ;
        }
    }
}

/// Law: on a well-formed grid, `index` of a position on it lies below the number of
/// cells and survives the casts through `usize` and back to `i64`, and `position` of that
/// index is the position again.
pub proof fn law_position_of_index<T>(m: Map2D<T>, p: I64Vec2)
    requires
        m.well_formed(),
        in_range(m.extent(), p),
    ensures
        0 <= flat_index(m.extent(), p) < m.extent().x * m.extent().y,
        flat_index(m.extent(), p) as usize as i64 == flat_index(m.extent(), p),
        trunc_rem(flat_index(m.extent(), p) as usize as i64 as int, m.extent().x as int) == p.x,
        trunc_div(flat_index(m.extent(), p) as usize as i64 as int, m.extent().x as int) == p.y,
{
    let size = m.extent();
    lemma_flat_index_bounds(size, p);
    let sx = size.x as int;
    let f = flat_index(size, p);
    vstd::arithmetic::div_mod::lemma_fundamental_div_mod_converse(f, sx, p.y as int, p.x as int);
}

/// Law: `index` undoes `position` (Rust's quotient and remainder recombine).
pub proof fn law_index_of_position(size: I64Vec2, i: int)
    requires
        size.x != 0,
    ensures
        size.x * trunc_div(i, size.x as int) + trunc_rem(i, size.x as int) == i,
{
    let b = size.x as int;
    if i == 0 {
    } else if i > 0 && b > 0 {
        vstd::arithmetic::div_mod::lemma_fundamental_div_mod(i, b);
    } else if i < 0 && b < 0 {
        vstd::arithmetic::div_mod::lemma_fundamental_div_mod(-i, -b);
        assert(b * ((-i) / (-b)) == -((-b) * ((-i) / (-b)))) by (nonlinear_arith);
    } else if i < 0 {
        vstd::arithmetic::div_mod::lemma_fundamental_div_mod(-i, b);
        assert(b * (-((-i) / b)) == -(b * ((-i) / b))) by (nonlinear_arith);
    } else {
        vstd::arithmetic::div_mod::lemma_fundamental_div_mod(i, -b);
        assert(b * (-(i / (-b))) == (-b) * (i / (-b))) by (nonlinear_arith);
    }
}

/// Law: reading a cell gives back what the last write to it stored, and writes to
/// other cells leave it alone.
pub proof fn law_read_after_write<T>(cells: Seq<T>, size: I64Vec2, p: I64Vec2, v: T, q: I64Vec2)
    requires
        cells.len() == size.x * size.y,
    ensures
        read_cell(write_cell(cells, size, p, v), size, q) == (if p == q && in_range(size, p) {
            Some(v)
        } else {
            read_cell(cells, size, q)
        }),
{
    if in_range(size, p) && in_range(size, q) {
        lemma_flat_index_bounds(size, p);
        lemma_flat_index_bounds(size, q);
        if p != q {
            lemma_flat_index_injective(size, p, q);
        }
    }
}

/// Law: taking the values out with `into_vec` and building a grid of the same extent
/// from them with `from_vec` gives a grid that reads the same everywhere and is well
/// formed as the first was.
pub proof fn law_from_vec_into_vec<T>(m: Map2D<T>, n: Map2D<T>, p: I64Vec2)
    requires
        n.cells() == m.cells(),
        n.extent() == m.extent(),
    ensures
        n.cell(p) == m.cell(p),
        n.well_formed() == m.well_formed(),
{
}

} // verus!
