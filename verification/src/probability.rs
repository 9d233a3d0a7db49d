use vstd::prelude::*;

use rand::rngs::StdRng;

use crate::map::{in_range, read_cell, trunc_div, trunc_rem, write_cell, Map2D};
use crate::random::{choose_index, weight_sum, weighted_index_new, weighted_index_sample};
use crate::tile::{all_tiles, tile_allows, Direction, Tile};
use crate::vec2::I64Vec2;

verus! {

/// A cell of the map under construction: the tiles still possible there, or the one
/// tile it has been settled to.
#[derive(Debug)]
pub enum Cell<T> {
    Wave(Vec<T>),
    Collapsed(T),
}

/// The mathematical value of a `Cell`.
pub enum CellView<T> {
    Wave(Seq<T>),
    Collapsed(T),
}

impl<T> View for Cell<T> {
    type V = CellView<T>;

    open spec fn view(&self) -> CellView<T> {
        match self {
            Cell::Wave(w) => CellView::Wave(w@),
            Cell::Collapsed(t) => CellView::Collapsed(*t),
        }
    }
}

/// Some tile that `c` may still become may have `t` on its side `dir`.
pub open spec fn cell_allows<T: Tile>(c: CellView<T>, dir: Direction, t: T) -> bool {
    match c {
        CellView::Wave(w) => exists|i: int| 0 <= i < w.len() && (#[trigger] w[i]).allows(dir, t),
        CellView::Collapsed(c) => c.allows(dir, t),
    }
}

/// Every element of `v` occurs in `w`.
pub open spec fn sub_wave<T>(v: Seq<T>, w: Seq<T>) -> bool {
    forall|k: int| 0 <= k < v.len() ==> w.contains(#[trigger] v[k])
}

/// `new` is `old` with some possibilities ruled out: a settled cell stays as it is, a
/// wave either shrinks or settles to one of its tiles.
pub open spec fn refines<T>(old: CellView<T>, new: CellView<T>) -> bool {
    match (old, new) {
        (CellView::Collapsed(a), CellView::Collapsed(b)) => a == b,
        (CellView::Wave(w), CellView::Wave(v)) => sub_wave(v, w),
        (CellView::Wave(w), CellView::Collapsed(t)) => w.contains(t),
        (CellView::Collapsed(_), CellView::Wave(_)) => false,
    }
}

/// Cell by cell, `new` refines `old`.
pub open spec fn refines_all<T>(old: Seq<CellView<T>>, new: Seq<CellView<T>>) -> bool {
    &&& old.len() == new.len()
    &&& forall|i: int| 0 <= i < old.len() ==> refines(#[trigger] old[i], new[i])
}

/// The number of cells that are still waves.
pub open spec fn wave_count<T>(cells: Seq<CellView<T>>) -> nat
    decreases cells.len(),
{
    if cells.len() == 0 {
        0
    } else {
        wave_count(cells.drop_last()) + (if cells.last() is Wave {
            1nat
        } else {
            0nat
        })
    }
}

/// The number of tiles a cell may still become (none for a settled cell).
pub open spec fn wave_len<T>(c: CellView<T>) -> nat {
    match c {
        CellView::Wave(w) => w.len(),
        CellView::Collapsed(_) => 0,
    }
}

/// The total number of open possibilities over all waves.
pub open spec fn wave_total<T>(cells: Seq<CellView<T>>) -> nat
    decreases cells.len(),
{
    if cells.len() == 0 {
        0
    } else {
        wave_total(cells.drop_last()) + wave_len(cells.last())
    }
}

/// The cells as they were before the writes recorded in `log`: the entries are undone
/// from the last to the first.
pub open spec fn undo<T>(cells: Seq<CellView<T>>, size: I64Vec2, log: Seq<(I64Vec2, CellView<T>)>) -> Seq<CellView<T>>
    decreases log.len(),
{
    if log.len() == 0 {
        cells
    } else {
        undo(write_cell(cells, size, log.last().0, log.last().1), size, log.drop_last())
    }
}

/// The offset of the neighbour on side `dir`.
pub open spec fn offset(dir: Direction) -> (int, int) {
    match dir {
        Direction::Right => (1, 0),
        Direction::Left => (-1, 0),
        Direction::Up => (0, 1),
        Direction::Down => (0, -1),
    }
}

/// The position next to `p` on side `dir`.
pub open spec fn neighbor(p: I64Vec2, dir: Direction) -> I64Vec2 {
    I64Vec2 { x: (p.x + offset(dir).0) as i64, y: (p.y + offset(dir).1) as i64 }
}

/// Seen from `p`, the neighbour on side `dir` is settled, off the grid, or a wave that is
/// not empty and of whose tiles each is allowed there by some possibility of `p`.
pub open spec fn settled_toward<T: Tile>(cells: Seq<CellView<T>>, size: I64Vec2, p: I64Vec2, dir: Direction) -> bool {
    let q = neighbor(p, dir);
    in_range(size, q) ==> match read_cell(cells, size, q) {
        Some(CellView::Wave(w)) => {
            &&& w.len() > 0
            &&& forall|k: int| 0 <= k < w.len() ==> cell_allows(
                read_cell(cells, size, p).unwrap(),
                dir,
                #[trigger] w[k],
            )
        },
        _ => true,
    }
}

/// `p` agrees with its four neighbours.
pub open spec fn settled<T: Tile>(cells: Seq<CellView<T>>, size: I64Vec2, p: I64Vec2) -> bool {
    &&& settled_toward(cells, size, p, Direction::Right)
    &&& settled_toward(cells, size, p, Direction::Left)
    &&& settled_toward(cells, size, p, Direction::Up)
    &&& settled_toward(cells, size, p, Direction::Down)
}

/// Every cell that differs between `old` and `new` agrees with its neighbours in `new`.
pub open spec fn changes_settled<T: Tile>(old: Seq<CellView<T>>, new: Seq<CellView<T>>, size: I64Vec2) -> bool {
    forall|p: I64Vec2|
        in_range(size, p) && #[trigger] read_cell(new, size, p) != read_cell(old, size, p)
            ==> settled(new, size, p)
}

/// `c` is a wave holding the fewest tiles among all waves of `cells`.
pub open spec fn lowest_entropy<T>(cells: Seq<CellView<T>>, i: int) -> bool {
    &&& 0 <= i < cells.len()
    &&& cells[i] is Wave
    &&& forall|j: int|
        0 <= j < cells.len() && #[trigger] cells[j] is Wave ==> wave_len(cells[i]) <= wave_len(
            cells[j],
        )
}

/// A copy of a wave.
pub fn copy_wave<T: Copy>(wave: &Vec<T>) -> (r: Vec<T>)
    ensures
        r@ == wave@,
{
    let mut r: Vec<T> = Vec::new();
    let mut i: usize = 0;
    while i < wave.len()
        invariant
            i <= wave@.len(),
            r@ == wave@.subrange(0, i as int),
        decreases wave@.len() - i,
    {
        r.push(wave[i]);
        i += 1;
    }
    proof {
        assert(wave@.subrange(0, wave@.len() as int) =~= wave@);
    }
    r
}

impl<T: Copy> Clone for Cell<T> {
    fn clone(&self) -> (r: Self)
        ensures
            r@ == self@,
    {
        match self {
            Cell::Wave(w) => Cell::Wave(copy_wave(w)),
            Cell::Collapsed(t) => Cell::Collapsed(*t),
        }
    }
}

impl<T: Tile + 'static> Cell<T> {
    /// A wave holding every tile.
    pub fn new() -> (r: Self)
        ensures
            r@ == CellView::Wave(all_tiles::<T>()),
    {
        let all = T::all();
        let mut wave: Vec<T> = Vec::new();
        let mut i: usize = 0;
        while i < all.len()
            invariant
                i <= all@.len(),
                wave@ == all@.subrange(0, i as int),
            decreases all@.len() - i,
        {
            wave.push(all[i]);
            i += 1;
        }
        proof {
            assert(all@.subrange(0, all@.len() as int) =~= all@);
            assert(all@ =~= all_tiles::<T>());
        }
        Cell::Wave(wave)
    }

    /// Settles a wave to its tile at `index`: the cell becomes that tile and the wave
    /// without it is returned. Fails on a settled cell or an index past the wave.
    pub fn collapse_at(&mut self, index: usize) -> (r: Result<Self, ()>)
        ensures
            match old(self)@ {
                CellView::Wave(w) => if index < w.len() {
                    &&& final(self)@ == CellView::Collapsed(w[index as int])
                    &&& r matches Ok(rest) && rest@ == CellView::Wave(w.remove(index as int))
                } else {
                    r is Err && final(self)@ == old(self)@
                },
                CellView::Collapsed(_) => r is Err && final(self)@ == old(self)@,
            },
    {
        let mut value = match self {
            Cell::Wave(wave) => {
                if index >= wave.len() {
                    return Err(());
                }
                Cell::Collapsed(wave.remove(index))
            },
            Cell::Collapsed(_) => return Err(()),
        };
        std::mem::swap(self, &mut value);
        Ok(value)
    }

    /// Settles a wave to one of its tiles, drawn by `rng` in proportion to the tiles'
    /// weights; the cell becomes that tile and the wave without it is returned. Fails on
    /// a settled cell, and on a wave that is empty or whose weights sum to zero or to
    /// more than `u16::MAX`; the cell is then left as it was.
    pub fn collapse(&mut self, rng: &mut StdRng) -> (r: Result<Self, ()>)
        ensures
            match old(self)@ {
                CellView::Wave(w) => {
                    &&& r is Ok <==> (w.len() > 0 && 0 < weight_sum(tile_weights(w)) <= u16::MAX)
                    &&& r is Err ==> final(self)@ == old(self)@
                    &&& r matches Ok(rest) ==> exists|i: int|
                        0 <= i < w.len() && w[i].spec_weight() > 0 && final(self)@
                            == CellView::Collapsed(#[trigger] w[i]) && rest@ == CellView::Wave(
                            w.remove(i),
                        )
                },
                CellView::Collapsed(_) => r is Err && final(self)@ == old(self)@,
            },
    {
        let index = match self {
            Cell::Wave(wave) => {
                let weights = wave_weights(wave);
                let dist = match weighted_index_new(&weights) {
                    Ok(dist) => dist,
                    Err(_) => return Err(()),
                };
                weighted_index_sample(&dist, rng)
            },
            Cell::Collapsed(_) => return Err(()),
        };
        self.collapse_at(index)
    }

    pub fn is_collesed(&self) -> (r: bool)
        ensures
            r == (self@ is Collapsed),
    {
        matches!(self, Cell::Collapsed(_))
    }

    /// Some tile this cell may still become allows `cell` on its side `dir`.
    pub fn is_allowed(&self, dir: Direction, cell: &T) -> (r: bool)
        ensures
            r == cell_allows(self@, dir, *cell),
    {
        match self {
            Cell::Wave(w) => {
                let mut i: usize = 0;
                while i < w.len()
                    invariant
                        i <= w@.len(),
                        self@ == CellView::Wave(w@),
                        forall|k: int| 0 <= k < i ==> !(#[trigger] w@[k]).allows(dir, *cell),
                    decreases w@.len() - i,
                {
                    if tile_allows(&w[i], dir, cell) {
                        assert(self@->Wave_0 == w@);
                        assert(w@[i as int].allows(dir, *cell));
                        return true;
                    }
                    i += 1;
                }
                false
            },
            Cell::Collapsed(c) => tile_allows(c, dir, cell),
        }
    }

    pub fn is_allowed_up(&self, cell: &T) -> (r: bool)
        ensures
            r == cell_allows(self@, Direction::Up, *cell),
    {
        self.is_allowed(Direction::Up, cell)
    }

    pub fn is_allowed_down(&self, cell: &T) -> (r: bool)
        ensures
            r == cell_allows(self@, Direction::Down, *cell),
    {
        self.is_allowed(Direction::Down, cell)
    }

    pub fn is_allowed_left(&self, cell: &T) -> (r: bool)
        ensures
            r == cell_allows(self@, Direction::Left, *cell),
    {
        self.is_allowed(Direction::Left, cell)
    }

    pub fn is_allowed_right(&self, cell: &T) -> (r: bool)
        ensures
            r == cell_allows(self@, Direction::Right, *cell),
    {
        self.is_allowed(Direction::Right, cell)
    }
}

/// The weights of the tiles of `w`, in order.
pub open spec fn tile_weights<T: Tile>(w: Seq<T>) -> Seq<u16> {
    w.map_values(|t: T| t.spec_weight())
}

/// The weights of the tiles of `wave`, in order.
pub fn wave_weights<T: Tile>(wave: &Vec<T>) -> (r: Vec<u16>)
    ensures
        r@ == tile_weights(wave@),
{
    let mut r: Vec<u16> = Vec::new();
    let mut i: usize = 0;
    while i < wave.len()
        invariant
            i <= wave@.len(),
            r@ == tile_weights(wave@.subrange(0, i as int)),
        decreases wave@.len() - i,
    {
        r.push(wave[i].weight());
        proof {
            assert(wave@.subrange(0, i + 1) =~= wave@.subrange(0, i as int).push(wave@[i as int]));
            assert(tile_weights(wave@.subrange(0, i + 1)) =~= tile_weights(wave@.subrange(0, i as int)).push(wave@[i as int].spec_weight()));
        }
        i += 1;
    }
    proof {
        assert(wave@.subrange(0, wave@.len() as int) =~= wave@);
    }
    r
}

/// The values a map under construction held before, in the order they were overwritten.
#[derive(Debug)]
pub struct Step<T> {
    old_values: Vec<(I64Vec2, Cell<T>)>,
}

impl<T> View for Step<T> {
    type V = Seq<(I64Vec2, CellView<T>)>;

    closed spec fn view(&self) -> Seq<(I64Vec2, CellView<T>)> {
        self.old_values@.map_values(|e: (I64Vec2, Cell<T>)| (e.0, e.1@))
    }
}

impl<T> Step<T> {
    pub fn new() -> (r: Self)
        ensures
            r@ == Seq::<(I64Vec2, CellView<T>)>::empty(),
    {
        let r = Self { old_values: Vec::new() };
        proof {
            assert(r@ =~= Seq::<(I64Vec2, CellView<T>)>::empty());
        }
        r
    }

    /// Takes the most recent entry off.
    pub fn pop(&mut self) -> (r: Option<(I64Vec2, Cell<T>)>)
        ensures
            old(self)@.len() == 0 ==> r is None && final(self)@ == old(self)@,
            old(self)@.len() > 0 ==> (r matches Some(e) && (e.0, e.1@) == old(self)@.last()
                && final(self)@ == old(self)@.drop_last()),
    {
        let r = self.old_values.pop();
        proof {
            assert(self@ =~= old(self)@.subrange(0, self@.len() as int));
        }
        r
    }

    /// Records that `position` held `value`.
    pub fn push(&mut self, position: I64Vec2, value: Cell<T>)
        ensures
            final(self)@ == old(self)@.push((position, value@)),
    {
        let ghost v = value@;
        self.old_values.push((position, value));
        proof {
            assert(self@ =~= old(self)@.push((position, v)));
        }
    }
}

/// The cells of `cells` that are still waves stay waves, and settled cells stay settled.
pub open spec fn waves_stay<T>(old: Seq<CellView<T>>, new: Seq<CellView<T>>) -> bool {
    &&& old.len() == new.len()
    &&& forall|i: int| 0 <= i < old.len() ==> (#[trigger] old[i] is Wave <==> new[i] is Wave)
}

/// Some cell is a wave with no tile left.
pub open spec fn has_empty_wave<T>(cells: Seq<CellView<T>>) -> bool {
    exists|i: int| 0 <= i < cells.len() && #[trigger] cells[i] == CellView::Wave(Seq::<T>::empty())
}

/// The position with row-major offset `i` (Rust's remainder and quotient by the row length).
pub open spec fn position_of(size: I64Vec2, i: int) -> I64Vec2 {
    I64Vec2 { x: trunc_rem(i, size.x as int) as i64, y: trunc_div(i, size.x as int) as i64 }
}

/// A map under construction: a grid of cells, each a wave of possible tiles or a
/// settled tile.
#[derive(Debug)]
pub struct ProbabilityMap<T> {
    data: Map2D<Cell<T>>,
    size: I64Vec2,
}

impl<T> ProbabilityMap<T> {
    /// The extent of the map.
    pub closed spec fn extent(&self) -> I64Vec2 {
        self.size
    }

    /// The cells, row by row.
    pub closed spec fn cells(&self) -> Seq<CellView<T>> {
        self.data.cells().map_values(|c: Cell<T>| c@)
    }

    /// The grid holds `extent.x * extent.y` cells, at least one.
    pub closed spec fn well_formed(&self) -> bool {
        &&& self.data.well_formed()
        &&& self.data.extent() == self.size
        &&& 1 <= self.size.x * self.size.y
    }

    /// The cell at `p`, `None` off the grid.
    pub open spec fn cell(&self, p: I64Vec2) -> Option<CellView<T>> {
        read_cell(self.cells(), self.extent(), p)
    }

    /// The shape a well-formed map has.
    pub proof fn lemma_shape(&self)
        requires
            self.well_formed(),
        ensures
            self.cells().len() == self.extent().x * self.extent().y,
            1 <= self.extent().x * self.extent().y <= i64::MAX,
            self.extent().x != 0,
    {
        if self.size.x == 0 {
            assert(self.size.x * self.size.y == 0);
        }
    }
}

/// Rust's remainder of a non-negative dividend lies below the divisor's magnitude.
proof fn lemma_trunc_rem_bounds(a: int, b: int)
    requires
        0 <= a,
        b != 0,
    ensures
        0 <= trunc_rem(a, b) < (if b > 0 { b } else { -b }),
{
    if a > 0 {
        if b > 0 {
            vstd::arithmetic::div_mod::lemma_mod_bound(a, b);
        } else {
            vstd::arithmetic::div_mod::lemma_mod_bound(a, -b);
        }
    }
}

/// Writing a cell of the grid writes its value in the view.
proof fn lemma_view_write<T>(cells: Seq<Cell<T>>, size: I64Vec2, p: I64Vec2, c: Cell<T>)
    requires
        cells.len() == size.x * size.y,
    ensures
        write_cell(cells, size, p, c).map_values(|c: Cell<T>| c@) == write_cell(
            cells.map_values(|c: Cell<T>| c@),
            size,
            p,
            c@,
        ),
{
    if in_range(size, p) {
        crate::map::lemma_flat_index_bounds(size, p);
    }
    assert(write_cell(cells, size, p, c).map_values(|c: Cell<T>| c@) =~= write_cell(
        cells.map_values(|c: Cell<T>| c@),
        size,
        p,
        c@,
    ));
}

impl<T: Tile + 'static> ProbabilityMap<T> {
    /// A map of extent `size` where every cell may still become any tile.
    pub fn new(size: I64Vec2) -> (r: Self)
        requires
            1 <= size.x * size.y <= i64::MAX,
            size.x * size.y <= usize::MAX,
        ensures
            r.well_formed(),
            r.extent() == size,
            r.cells().len() == size.x * size.y,
            forall|i: int| 0 <= i < r.cells().len() ==> #[trigger] r.cells()[i] == CellView::Wave(all_tiles::<T>()),
    {
        let default = Cell::new();
        let data = Map2D::new(size, default);
        let r = Self { data, size };
        assert forall|i: int| 0 <= i < r.cells().len() implies #[trigger] r.cells()[i] == CellView::Wave(all_tiles::<T>()) by {
            assert(cloned(default, r.data.cells()[i]));
        }
        r
    }

    /// The offsets of the waves holding the fewest tiles, in increasing order.
    pub fn lowest_entropy_cells(&self) -> (r: Vec<usize>)
        requires
            self.well_formed(),
        ensures
            forall|k: int| 0 <= k < r@.len() ==> lowest_entropy(self.cells(), #[trigger] r@[k] as int),
            forall|i: int| lowest_entropy(self.cells(), i) ==> r@.contains(i as usize),
            forall|a: int, b: int| 0 <= a < b < r@.len() ==> r@[a] < r@[b],
            (exists|i: int| 0 <= i < self.cells().len() && #[trigger] self.cells()[i] is Wave) ==> r@.len() > 0,
    {
        let cells = self.data.as_slice();
        let ghost view = self.cells();
        let mut indexes: Vec<usize> = Vec::new();
        let mut min = usize::MAX;
        let mut index: usize = 0;
        while index < cells.len()
            invariant
                view == cells@.map_values(|c: Cell<T>| c@),
                index <= cells@.len(),
                forall|k: int| 0 <= k < indexes@.len() ==> #[trigger] indexes@[k] < index,
                forall|a: int, b: int| 0 <= a < b < indexes@.len() ==> indexes@[a] < indexes@[b],
                forall|j: int| 0 <= j < index && #[trigger] view[j] is Wave ==> min <= wave_len(view[j]),
                (exists|j: int| 0 <= j < index && #[trigger] view[j] is Wave) ==> exists|j: int|
                    0 <= j < index && view[j] is Wave && wave_len(#[trigger] view[j]) == min,
                !(exists|j: int| 0 <= j < index && #[trigger] view[j] is Wave) ==> min == usize::MAX,
                forall|j: int|
                    0 <= j < index ==> (indexes@.contains(j as usize) <==> (#[trigger] view[j] is Wave
                        && wave_len(view[j]) == min)),
            decreases cells@.len() - index,
        {
            let ghost old_indexes = indexes@;
            let ghost old_min = min;
            match &cells[index] {
                Cell::Wave(wave) => {
                    let len = wave.len();
                    assert(view[index as int] == CellView::Wave(wave@));
                    if len < min {
                        min = len;
                        indexes.clear();
                    }
                    if len == min {
                        indexes.push(index);
                    }
                    proof {
                        if len > min {
                            assert(exists|j: int| 0 <= j < index && #[trigger] view[j] is Wave);
                            let j = choose|j: int| 0 <= j < index && view[j] is Wave && wave_len(#[trigger] view[j]) == min;
                            assert(0 <= j < index + 1 && view[j] is Wave && wave_len(view[j]) == min);
                        } else {
                            assert(view[index as int] is Wave && wave_len(view[index as int]) == min);
                        }
                    }
                    assert forall|j: int| 0 <= j < index + 1 implies (indexes@.contains(j as usize)
                        <==> (#[trigger] view[j] is Wave && wave_len(view[j]) == min)) by {
                        if j < index {
                            if indexes@.contains(j as usize) {
                                let k = choose|k: int| 0 <= k < indexes@.len() && indexes@[k] == j as usize;
                                assert(old_indexes[k] == j as usize);
                            }
                            if view[j] is Wave && wave_len(view[j]) == min && min == old_min {
                                assert(old_indexes.contains(j as usize));
                                let k = choose|k: int| 0 <= k < old_indexes.len() && old_indexes[k] == j as usize;
                                assert(indexes@[k] == j as usize);
                            }
                        } else {
                            if view[j] is Wave && wave_len(view[j]) == min {
                                assert(indexes@[indexes@.len() - 1] == j as usize);
                            }
                        }
                    }
                },
                Cell::Collapsed(_) => {
                    assert(view[index as int] is Collapsed);
                    proof {
                        if exists|j: int| 0 <= j < index + 1 && #[trigger] view[j] is Wave {
                            let j0 = choose|j: int| 0 <= j < index + 1 && #[trigger] view[j] is Wave;
                            assert(0 <= j0 < index && view[j0] is Wave);
                            let j = choose|j: int| 0 <= j < index && view[j] is Wave && wave_len(#[trigger] view[j]) == min;
                            assert(0 <= j < index + 1 && view[j] is Wave && wave_len(view[j]) == min);
                        }
                    }
                },
            }
            index += 1;
        }
        proof {
            assert forall|i: int| lowest_entropy(view, i) implies indexes@.contains(i as usize) by {
                let j = choose|j: int| 0 <= j < index && view[j] is Wave && wave_len(#[trigger] view[j]) == min;
                assert(view[j] is Wave);
            }
            assert forall|k: int| 0 <= k < indexes@.len() implies lowest_entropy(view, #[trigger] indexes@[k] as int) by {
                let i = indexes@[k] as int;
                assert(indexes@.contains(i as usize));
                assert(view[i] is Wave);
            }
            if exists|i: int| 0 <= i < view.len() && #[trigger] view[i] is Wave {
                let j = choose|j: int| 0 <= j < index && view[j] is Wave && wave_len(#[trigger] view[j]) == min;
                assert(indexes@.contains(j as usize));
            }
        }
        indexes
    }
}

impl<T: Tile + 'static> ProbabilityMap<T> {
    /// One of the waves holding the fewest tiles, drawn by `rng`; `None` once no cell
    /// is a wave.
    pub fn next_cell(&self, rng: &mut StdRng) -> (r: Option<I64Vec2>)
        requires
            self.well_formed(),
        ensures
            r is None <==> (forall|i: int| 0 <= i < self.cells().len() ==> !(#[trigger] self.cells()[i] is Wave)),
            r matches Some(p) ==> exists|i: int|
                lowest_entropy(self.cells(), i) && p == #[trigger] position_of(self.extent(), i),
            r matches Some(p) ==> (self.extent().x > 0 ==> in_range(self.extent(), p) && self.cell(p).unwrap() is Wave),
    {
        proof {
            self.lemma_shape();
        }
        let indexes = self.lowest_entropy_cells();
        let index = match choose_index(&indexes, rng) {
            Some(index) => index,
            None => return None,
        };
        proof {
            let k = choose|k: int| 0 <= k < indexes@.len() && indexes@[k] == index;
            assert(lowest_entropy(self.cells(), indexes@[k] as int));
            assert(index as i64 == index);
            crate::map::lemma_trunc_div_bounds(index as int, self.size.x as int);
            lemma_trunc_rem_bounds(index as int, self.size.x as int);
        }
        let p = self.data.position(index);
        assert(p == position_of(self.extent(), index as int));
        proof {
            crate::map::law_index_of_position(self.size, index as int);
            assert(crate::map::flat_index(self.size, p) == index as int);
            if self.size.x > 0 {
                let x = self.size.x as int;
                let y = self.size.y as int;
                let i = index as int;
                vstd::arithmetic::div_mod::lemma_fundamental_div_mod(i, x);
                vstd::arithmetic::div_mod::lemma_mod_bound(i, x);
                vstd::arithmetic::div_mod::lemma_div_pos_is_pos(i, x);
                assert(i / x < y) by (nonlinear_arith)
                    requires
                        x > 0,
                        0 <= i < x * y,
                        i == x * (i / x) + i % x,
                        0 <= i % x,
                ;
                let k = choose|k: int| 0 <= k < indexes@.len() && indexes@[k] == index;
                assert(lowest_entropy(self.cells(), indexes@[k] as int));
            }
        }
        Some(p)
    }

    /// The settled map; fails while some cell is still a wave.
    pub fn into_map(self) -> (r: Result<Map2D<T>, ()>)
        requires
            self.well_formed(),
        ensures
            r is Ok <==> (forall|i: int| 0 <= i < self.cells().len() ==> #[trigger] self.cells()[i] is Collapsed),
            r matches Ok(m) ==> {
                &&& m.well_formed()
                &&& m.extent() == self.extent()
                &&& m.cells().len() == self.cells().len()
                &&& forall|i: int| 0 <= i < self.cells().len() ==> #[trigger] self.cells()[i] == CellView::Collapsed(m.cells()[i])
            },
    {
        proof {
            self.lemma_shape();
        }
        let ghost view = self.cells();
        let size = self.size;
        let cells = self.data.into_vec();
        let mut data: Vec<T> = Vec::new();
        let mut i: usize = 0;
        while i < cells.len()
            invariant
                view == cells@.map_values(|c: Cell<T>| c@),
                view == self.cells(),
                i <= cells@.len(),
                data@.len() == i,
                forall|j: int| 0 <= j < i ==> #[trigger] view[j] == CellView::Collapsed(data@[j]),
            decreases cells@.len() - i,
        {
            match &cells[i] {
                Cell::Collapsed(tile) => {
                    data.push(*tile);
                },
                Cell::Wave(_) => {
                    assert(view[i as int] is Wave);
                    assert(self.cells()[i as int] is Wave);
                    return Err(());
                },
            }
            i += 1;
        }
        Ok(Map2D::from_vec(data, size))
    }

    /// Puts back the values recorded in `step`, the most recent first.
    pub fn reverse(&mut self, step: Step<T>)
        requires
            old(self).well_formed(),
        ensures
            final(self).well_formed(),
            final(self).extent() == old(self).extent(),
            final(self).cells() == undo(old(self).cells(), old(self).extent(), step@),
    {
        let mut step = step;
        let ghost target = undo(self.cells(), self.size, step@);
        loop
            invariant
                self.well_formed(),
                self.size == old(self).extent(),
                undo(self.cells(), self.size, step@) == target,
            ensures
                self.well_formed(),
                self.size == old(self).extent(),
                self.cells() == target,
            decreases step@.len(),
        {
            proof {
                self.lemma_shape();
            }
            match step.pop() {
                Some((position, tile)) => {
                    proof {
                        lemma_view_write(self.data.cells(), self.size, position, tile);
                    }
                    self.data.set_cell(position, tile);
                },
                None => break,
            }
        }
    }
}

/// The tiles of `w`, in order, that `c` allows on its side `dir`.
pub open spec fn keep_allowed<T: Tile>(w: Seq<T>, c: CellView<T>, dir: Direction) -> Seq<T>
    decreases w.len(),
{
    if w.len() == 0 {
        Seq::empty()
    } else {
        let rest = keep_allowed(w.drop_last(), c, dir);
        if cell_allows(c, dir, w.last()) {
            rest.push(w.last())
        } else {
            rest
        }
    }
}

/// What filtering a wave keeps.
pub proof fn lemma_keep_allowed<T: Tile>(w: Seq<T>, c: CellView<T>, dir: Direction)
    ensures
        keep_allowed(w, c, dir).len() <= w.len(),
        sub_wave(keep_allowed(w, c, dir), w),
        forall|k: int|
            0 <= k < keep_allowed(w, c, dir).len() ==> cell_allows(c, dir, #[trigger] keep_allowed(w, c, dir)[k]),
        keep_allowed(w, c, dir).len() == w.len() ==> keep_allowed(w, c, dir) == w,
    decreases w.len(),
{
    if w.len() > 0 {
        let rest = keep_allowed(w.drop_last(), c, dir);
        lemma_keep_allowed(w.drop_last(), c, dir);
        let kept = keep_allowed(w, c, dir);
        assert forall|k: int| 0 <= k < kept.len() implies w.contains(#[trigger] kept[k]) by {
            if k < rest.len() {
                assert(w.drop_last().contains(rest[k]));
                let j = choose|j: int| 0 <= j < w.drop_last().len() && w.drop_last()[j] == rest[k];
                assert(w[j] == kept[k]);
            } else {
                assert(kept[k] == w[w.len() - 1]);
            }
        }
        if kept.len() == w.len() {
            assert(cell_allows(c, dir, w.last()));
            assert(rest == w.drop_last());
            assert(kept =~= w);
        }
    }
}

/// The tiles of `w` satisfying `keep`, in their order.
pub open spec fn keep_if<T>(w: Seq<T>, keep: spec_fn(T) -> bool) -> Seq<T>
    decreases w.len(),
{
    if w.len() == 0 {
        Seq::empty()
    } else {
        let rest = keep_if(w.drop_last(), keep);
        if keep(w.last()) {
            rest.push(w.last())
        } else {
            rest
        }
    }
}

/// `v` is `w` with some tiles taken out and the others left in their order.
pub open spec fn narrowed_from<T>(w: Seq<T>, v: Seq<T>) -> bool {
    v == keep_if(w, |t: T| v.contains(t))
}

/// What `keep_if` keeps.
proof fn lemma_keep_if_contains<T>(w: Seq<T>, keep: spec_fn(T) -> bool, t: T)
    ensures
        keep_if(w, keep).contains(t) <==> (w.contains(t) && keep(t)),
    decreases w.len(),
{
    if w.len() > 0 {
        let rest = keep_if(w.drop_last(), keep);
        lemma_keep_if_contains(w.drop_last(), keep, t);
        if w.drop_last().contains(t) {
            let j = choose|j: int| 0 <= j < w.drop_last().len() && w.drop_last()[j] == t;
            assert(w[j] == t);
        }
        if w.contains(t) && t != w.last() {
            let j = choose|j: int| 0 <= j < w.len() && w[j] == t;
            assert(w.drop_last()[j] == t);
        }
        if keep(w.last()) {
            let kept = rest.push(w.last());
            assert(kept[rest.len() as int] == w.last());
            if rest.contains(t) {
                let j = choose|j: int| 0 <= j < rest.len() && rest[j] == t;
                assert(kept[j] == t);
            }
            if kept.contains(t) && t != w.last() {
                let j = choose|j: int| 0 <= j < kept.len() && kept[j] == t;
                assert(rest[j] == t);
            }
            assert(w[w.len() - 1] == w.last());
        } else {
            assert(w[w.len() - 1] == w.last());
        }
    }
}

/// `keep_if` only looks at the tiles of `w`.
proof fn lemma_keep_if_ext<T>(w: Seq<T>, a: spec_fn(T) -> bool, b: spec_fn(T) -> bool)
    requires
        forall|t: T| w.contains(t) ==> a(t) == b(t),
    ensures
        keep_if(w, a) == keep_if(w, b),
    decreases w.len(),
{
    if w.len() > 0 {
        assert forall|t: T| w.drop_last().contains(t) implies a(t) == b(t) by {
            let j = choose|j: int| 0 <= j < w.drop_last().len() && w.drop_last()[j] == t;
            assert(w[j] == t);
            assert(w.contains(t));
        }
        lemma_keep_if_ext(w.drop_last(), a, b);
        assert(w[w.len() - 1] == w.last());
        assert(w.contains(w.last()));
    }
}

/// Keeping by `a` and then by `b` keeps by both.
proof fn lemma_keep_if_compose<T>(w: Seq<T>, a: spec_fn(T) -> bool, b: spec_fn(T) -> bool)
    ensures
        keep_if(keep_if(w, a), b) == keep_if(w, |t: T| a(t) && b(t)),
    decreases w.len(),
{
    if w.len() > 0 {
        lemma_keep_if_compose(w.drop_last(), a, b);
        let rest = keep_if(w.drop_last(), a);
        if a(w.last()) {
            assert(rest.push(w.last()).drop_last() =~= rest);
        }
    }
}

/// Keeping by a condition every tile meets keeps everything.
proof fn lemma_keep_if_all<T>(w: Seq<T>, keep: spec_fn(T) -> bool)
    requires
        forall|t: T| w.contains(t) ==> keep(t),
    ensures
        keep_if(w, keep) == w,
    decreases w.len(),
{
    if w.len() > 0 {
        assert forall|t: T| w.drop_last().contains(t) implies keep(t) by {
            let j = choose|j: int| 0 <= j < w.drop_last().len() && w.drop_last()[j] == t;
            assert(w[j] == t);
            assert(w.contains(t));
        }
        lemma_keep_if_all(w.drop_last(), keep);
        assert(w[w.len() - 1] == w.last());
        assert(w.contains(w.last()));
        assert(w.drop_last().push(w.last()) =~= w);
    }
}

/// Filtering a wave by what a cell allows is keeping by that condition.
proof fn lemma_keep_allowed_is_keep_if<T: Tile>(w: Seq<T>, c: CellView<T>, dir: Direction)
    ensures
        keep_allowed(w, c, dir) == keep_if(w, |t: T| cell_allows(c, dir, t)),
    decreases w.len(),
{
    if w.len() > 0 {
        lemma_keep_allowed_is_keep_if(w.drop_last(), c, dir);
    }
}

/// A wave is narrowed from itself.
proof fn lemma_narrowed_refl<T>(w: Seq<T>)
    ensures
        narrowed_from(w, w),
{
    lemma_keep_if_all(w, |t: T| w.contains(t));
}

/// Filtering a narrowed wave once more leaves it narrowed from the same wave.
proof fn lemma_narrowed_keep_allowed<T: Tile>(w: Seq<T>, v: Seq<T>, c: CellView<T>, dir: Direction)
    requires
        narrowed_from(w, v),
    ensures
        narrowed_from(w, keep_allowed(v, c, dir)),
{
    let q = |t: T| cell_allows(c, dir, t);
    let pv = |t: T| v.contains(t);
    let v2 = keep_allowed(v, c, dir);
    lemma_keep_allowed_is_keep_if(v, c, dir);
    lemma_keep_if_compose(w, pv, q);
    assert forall|t: T| w.contains(t) implies (|t: T| v2.contains(t))(t) == (|t: T| pv(t) && q(t))(t) by {
        lemma_keep_if_contains(v, q, t);
    }
    lemma_keep_if_ext(w, |t: T| v2.contains(t), |t: T| pv(t) && q(t));
}

/// The cell at `p` is where narrowing started, or it changed from `old` to `new`: only
/// such cells narrow their neighbours.
pub open spec fn moved<T>(old: Seq<CellView<T>>, new: Seq<CellView<T>>, size: I64Vec2, start: I64Vec2, p: I64Vec2) -> bool {
    p == start || read_cell(new, size, p) != read_cell(old, size, p)
}

/// Beside `q`, on the side opposite `dir`, lies a cell of the grid that is the start or
/// changed from `old` to `new`, and that in `new` allows `t` on no possibility on its
/// side `dir`, where `q` is: `t` cannot sit at `q`.
pub open spec fn ruled_out<T: Tile>(
    old: Seq<CellView<T>>,
    new: Seq<CellView<T>>,
    size: I64Vec2,
    start: I64Vec2,
    q: I64Vec2,
    dir: Direction,
    t: T,
) -> bool {
    let p = neighbor(q, opposite(dir));
    &&& in_range(size, p)
    &&& moved(old, new, size, start, p)
    &&& !cell_allows(read_cell(new, size, p).unwrap(), dir, t)
}

/// Where `q` holds a wave in both, its wave in `new` is its wave in `old` with some tiles
/// taken out, the others in their order, and each tile taken out is ruled out at `q` by
/// a neighbour that is the start or changed.
pub open spec fn narrowed_at<T: Tile>(
    old: Seq<CellView<T>>,
    new: Seq<CellView<T>>,
    size: I64Vec2,
    start: I64Vec2,
    q: I64Vec2,
) -> bool {
    match (read_cell(old, size, q), read_cell(new, size, q)) {
        (Some(CellView::Wave(w)), Some(CellView::Wave(v))) => {
            &&& narrowed_from(w, v)
            &&& forall|t: T| #[trigger] w.contains(t) && !v.contains(t) ==> exists|d: Direction| #[trigger] ruled_out(old, new, size, start, q, d, t)
        },
        _ => true,
    }
}

/// Every wave of `new` is narrowed from its wave in `old`, only by tiles ruled out there
/// by the start or by a cell that changed.
pub open spec fn narrowed_justly<T: Tile>(old: Seq<CellView<T>>, new: Seq<CellView<T>>, size: I64Vec2, start: I64Vec2) -> bool {
    forall|q: I64Vec2| in_range(size, q) ==> #[trigger] narrowed_at(old, new, size, start, q)
}

/// Keeping some tiles never makes a wave longer, and keeps it whole only by keeping all.
proof fn lemma_keep_if_len<T>(w: Seq<T>, keep: spec_fn(T) -> bool)
    ensures
        keep_if(w, keep).len() <= w.len(),
        keep_if(w, keep).len() == w.len() ==> keep_if(w, keep) == w,
    decreases w.len(),
{
    if w.len() > 0 {
        lemma_keep_if_len(w.drop_last(), keep);
        if keep_if(w, keep).len() == w.len() {
            assert(keep(w.last()));
            assert(w.drop_last().push(w.last()) =~= w);
        }
    }
}

/// A narrowed wave is no longer than the wave it came from, and as long only if equal.
proof fn lemma_narrowed_len<T>(w: Seq<T>, v: Seq<T>)
    requires
        narrowed_from(w, v),
    ensures
        v.len() <= w.len(),
        v.len() == w.len() ==> v == w,
{
    lemma_keep_if_len(w, |t: T| v.contains(t));
}

/// A smaller wave allows no more than the wave it came from.
proof fn lemma_allows_shrink<T: Tile>(v: Seq<T>, v2: Seq<T>, d: Direction, t: T)
    requires
        sub_wave(v2, v),
        cell_allows(CellView::Wave(v2), d, t),
    ensures
        cell_allows(CellView::Wave(v), d, t),
{
    assert(CellView::Wave(v2)->Wave_0 == v2);
    assert(CellView::Wave(v)->Wave_0 == v);
    let i = choose|i: int| 0 <= i < v2.len() && (#[trigger] v2[i]).allows(d, t);
    assert(v.contains(v2[i]));
    let j = choose|j: int| 0 <= j < v.len() && v[j] == v2[i];
    assert(v[j].allows(d, t));
}

/// Nothing has been narrowed yet.
proof fn lemma_narrowed_justly_refl<T: Tile>(cells: Seq<CellView<T>>, size: I64Vec2, start: I64Vec2)
    ensures
        narrowed_justly(cells, cells, size, start),
{
    assert forall|q: I64Vec2| in_range(size, q) implies #[trigger] narrowed_at(cells, cells, size, start, q) by {
        match read_cell(cells, size, q) {
            Some(CellView::Wave(w)) => {
                lemma_narrowed_refl(w);
            },
            _ => {},
        }
    }
}

/// Filtering the wave beside `p` on side `dir` by what `p` allows, where `p` is the start
/// or changed, keeps every wave narrowed justly; a cell that was the start or changed
/// stays so, and the filtered wave counts as changed once it shrank.
proof fn lemma_narrow_step<T: Tile>(
    init: Seq<CellView<T>>,
    before: Seq<CellView<T>>,
    size: I64Vec2,
    start: I64Vec2,
    p: I64Vec2,
    dir: Direction,
    cur: CellView<T>,
)
    requires
        before.len() == size.x * size.y,
        init.len() == before.len(),
        size.x * size.y <= i64::MAX,
        in_range(size, p),
        moved(init, before, size, start, p),
        read_cell(before, size, p) == Some(cur),
        in_range(size, neighbor(p, dir)),
        read_cell(before, size, neighbor(p, dir)).unwrap() is Wave,
        waves_stay(init, before),
        narrowed_justly(init, before, size, start),
    ensures
        ({
            let q = neighbor(p, dir);
            let v = read_cell(before, size, q).unwrap()->Wave_0;
            let after = write_cell(before, size, q, CellView::Wave(keep_allowed(v, cur, dir)));
            &&& narrowed_justly(init, after, size, start)
            &&& forall|r: I64Vec2| #[trigger] moved(init, before, size, start, r) ==> moved(init, after, size, start, r)
            &&& keep_allowed(v, cur, dir).len() != v.len() ==> moved(init, after, size, start, q)
        }),
{
    let q = neighbor(p, dir);
    let v = read_cell(before, size, q).unwrap()->Wave_0;
    let v2 = keep_allowed(v, cur, dir);
    let after = write_cell(before, size, q, CellView::Wave(v2));
    lemma_neighbors_distinct(p, size);
    lemma_keep_allowed(v, cur, dir);
    lemma_keep_allowed_is_keep_if(v, cur, dir);
    assert(neighbor(q, opposite(dir)) == p);
    crate::map::law_read_after_write(before, size, q, CellView::Wave(v2), p);
    crate::map::law_read_after_write(before, size, q, CellView::Wave(v2), q);
    crate::map::lemma_flat_index_bounds(size, q);
    let iq = crate::map::flat_index(size, q);
    assert(before[iq] is Wave);
    assert(init[iq] is Wave);
    let w0 = init[iq]->Wave_0;
    assert(narrowed_at(init, before, size, start, q));
    lemma_narrowed_len(w0, v);
    // A cell that differs from `init` keeps differing: the wave at `q` only gets shorter.
    assert(moved(init, before, size, start, q) ==> moved(init, after, size, start, q)) by {
        if read_cell(before, size, q) != read_cell(init, size, q) {
            assert(v != w0);
            assert(v2.len() < w0.len());
        }
    }
    assert(v2.len() != v.len() ==> moved(init, after, size, start, q)) by {
        if v2.len() != v.len() {
            assert(v2.len() < w0.len());
        }
    }
    assert forall|r: I64Vec2| #[trigger] moved(init, before, size, start, r) implies moved(init, after, size, start, r) by {
        crate::map::law_read_after_write(before, size, q, CellView::Wave(v2), r);
    }
    assert forall|q2: I64Vec2| in_range(size, q2) implies #[trigger] narrowed_at(init, after, size, start, q2) by {
        assert(narrowed_at(init, before, size, start, q2));
        crate::map::law_read_after_write(before, size, q, CellView::Wave(v2), q2);
        lemma_neighbors_distinct(q2, size);
        if let (Some(CellView::Wave(w)), Some(CellView::Wave(vn))) = (read_cell(init, size, q2), read_cell(after, size, q2)) {
            if q2 == q {
                lemma_narrowed_keep_allowed(w, v, cur, dir);
            }
            assert forall|t: T| #[trigger] w.contains(t) && !vn.contains(t) implies exists|d: Direction|
                #[trigger] ruled_out(init, after, size, start, q2, d, t) by {
                if q2 == q && v.contains(t) {
                    lemma_keep_if_contains(v, |t: T| cell_allows(cur, dir, t), t);
                    assert(moved(init, after, size, start, p));
                    assert(ruled_out(init, after, size, start, q2, dir, t));
                } else {
                    let d2 = choose|d2: Direction| #[trigger] ruled_out(init, before, size, start, q2, d2, t);
                    let p2 = neighbor(q2, opposite(d2));
                    crate::map::law_read_after_write(before, size, q, CellView::Wave(v2), p2);
                    assert(moved(init, before, size, start, p2));
                    assert(moved(init, after, size, start, p2));
                    if p2 == q {
                        if cell_allows(CellView::Wave(v2), d2, t) {
                            lemma_allows_shrink(v, v2, d2, t);
                        }
                    }
                    assert(ruled_out(init, after, size, start, q2, d2, t));
                }
            }
        }
    }
}

/// Undoing `a + b` undoes `b` first, then `a`.
proof fn lemma_undo_append<T>(cells: Seq<CellView<T>>, size: I64Vec2, a: Seq<(I64Vec2, CellView<T>)>, b: Seq<(I64Vec2, CellView<T>)>)
    ensures
        undo(cells, size, a + b) == undo(undo(cells, size, b), size, a),
    decreases b.len(),
{
    if b.len() == 0 {
        assert(a + b =~= a);
    } else {
        let c2 = write_cell(cells, size, b.last().0, b.last().1);
        assert((a + b).drop_last() =~= a + b.drop_last());
        assert((a + b).last() == b.last());
        lemma_undo_append(c2, size, a, b.drop_last());
    }
}

/// A record that grew by at most one entry, whose write that entry undoes, still undoes
/// everything after `log0` back to `init`.
proof fn lemma_record_grows<T>(
    init: Seq<CellView<T>>,
    before: Seq<CellView<T>>,
    after: Seq<CellView<T>>,
    size: I64Vec2,
    log0: Seq<(I64Vec2, CellView<T>)>,
    s: Seq<(I64Vec2, CellView<T>)>,
    s2: Seq<(I64Vec2, CellView<T>)>,
)
    requires
        log0.len() <= s.len(),
        s.subrange(0, log0.len() as int) == log0,
        undo(before, size, s.subrange(log0.len() as int, s.len() as int)) == init,
        s2 == s ==> after == before,
        s2 != s ==> s2.len() == s.len() + 1 && s2.drop_last() == s && write_cell(after, size, s2.last().0, s2.last().1)
            == before,
    ensures
        log0.len() <= s2.len(),
        s2.subrange(0, log0.len() as int) == log0,
        undo(after, size, s2.subrange(log0.len() as int, s2.len() as int)) == init,
{
    if s2 != s {
        let added = s2.subrange(log0.len() as int, s2.len() as int);
        assert(added.drop_last() =~= s.subrange(log0.len() as int, s.len() as int));
        assert(added.last() == s2.last());
        assert(s2.subrange(0, log0.len() as int) =~= s.subrange(0, log0.len() as int));
    }
}

/// Undoing the entries after `log0` gives `init`, so undoing the whole record gives what
/// undoing `log0` from `init` gives.
proof fn lemma_record_whole<T>(
    init: Seq<CellView<T>>,
    cells: Seq<CellView<T>>,
    size: I64Vec2,
    log0: Seq<(I64Vec2, CellView<T>)>,
    s: Seq<(I64Vec2, CellView<T>)>,
)
    requires
        log0.len() <= s.len(),
        s.subrange(0, log0.len() as int) == log0,
        undo(cells, size, s.subrange(log0.len() as int, s.len() as int)) == init,
    ensures
        undo(cells, size, s) == undo(init, size, log0),
{
    let added = s.subrange(log0.len() as int, s.len() as int);
    assert(s =~= log0 + added);
    lemma_undo_append(cells, size, log0, added);
}

/// After one restriction of the neighbour of `p` on side `dir`, the record still undoes
/// back to `init` and every wave is still narrowed justly from its wave in `init`.
proof fn lemma_restrict_bookkeeping<T: Tile>(
    init: Seq<CellView<T>>,
    before: Seq<CellView<T>>,
    after: Seq<CellView<T>>,
    size: I64Vec2,
    start: I64Vec2,
    log0: Seq<(I64Vec2, CellView<T>)>,
    s: Seq<(I64Vec2, CellView<T>)>,
    s2: Seq<(I64Vec2, CellView<T>)>,
    p: I64Vec2,
    dir: Direction,
    cur: CellView<T>,
    qb: Seq<I64Vec2>,
    qa: Seq<I64Vec2>,
    ok: bool,
)
    requires
        before.len() == size.x * size.y,
        init.len() == before.len(),
        size.x * size.y <= i64::MAX,
        in_range(size, p),
        moved(init, before, size, start, p),
        read_cell(before, size, p) == Some(cur),
        waves_stay(init, before),
        narrowed_justly(init, before, size, start),
        forall|k: int| 0 <= k < qb.len() ==> moved(init, before, size, start, #[trigger] qb[k]),
        log0.len() <= s.len(),
        s.subrange(0, log0.len() as int) == log0,
        undo(before, size, s.subrange(log0.len() as int, s.len() as int)) == init,
        s2 == s ==> after == before,
        s2 != s ==> {
            let q = neighbor(p, dir);
            &&& in_range(size, q)
            &&& s2 == s.push((q, read_cell(before, size, q).unwrap()))
            &&& write_cell(after, size, q, read_cell(before, size, q).unwrap()) == before
        },
        ok ==> restricted(before, after, size, p, dir, cur, qb, qa),
        !ok ==> {
            let q = neighbor(p, dir);
            &&& in_range(size, q)
            &&& read_cell(before, size, q).unwrap() is Wave
            &&& keep_allowed(read_cell(before, size, q).unwrap()->Wave_0, cur, dir).len() == 0
            &&& after == write_cell(before, size, q, CellView::Wave(Seq::<T>::empty()))
        },
    ensures
        log0.len() <= s2.len(),
        s2.subrange(0, log0.len() as int) == log0,
        undo(after, size, s2.subrange(log0.len() as int, s2.len() as int)) == init,
        narrowed_justly(init, after, size, start),
        forall|r: I64Vec2| #[trigger] moved(init, before, size, start, r) ==> moved(init, after, size, start, r),
        ok ==> forall|k: int| 0 <= k < qa.len() ==> moved(init, after, size, start, #[trigger] qa[k]),
{
    let q = neighbor(p, dir);
    if s2 != s {
        assert(s2.drop_last() =~= s);
    }
    lemma_record_grows(init, before, after, size, log0, s, s2);
    if in_range(size, q) && read_cell(before, size, q).unwrap() is Wave {
        let w = read_cell(before, size, q).unwrap()->Wave_0;
        if !ok {
            assert(keep_allowed(w, cur, dir) =~= Seq::<T>::empty());
        }
        lemma_narrow_step(init, before, size, start, p, dir, cur);
        if ok {
            assert forall|k: int| 0 <= k < qa.len() implies moved(init, after, size, start, #[trigger] qa[k]) by {
                if k < qb.len() {
                    assert(qa[k] == qb[k]);
                    assert(moved(init, before, size, start, qb[k]));
                } else {
                    assert(qa[k] == q);
                }
            }
        }
    }
}

/// A copy of `wave` holding only the tiles that `current` allows on its side `dir`.
pub fn restrict_wave<T: Tile + 'static>(wave: &Vec<T>, current: &Cell<T>, dir: Direction) -> (r: Vec<T>)
    ensures
        r@ == keep_allowed(wave@, current@, dir),
{
    let mut r: Vec<T> = Vec::new();
    let mut i: usize = 0;
    while i < wave.len()
        invariant
            i <= wave@.len(),
            r@ == keep_allowed(wave@.subrange(0, i as int), current@, dir),
        decreases wave@.len() - i,
    {
        proof {
            assert(wave@.subrange(0, i + 1).drop_last() =~= wave@.subrange(0, i as int));
        }
        if current.is_allowed(dir, &wave[i]) {
            r.push(wave[i]);
        }
        i += 1;
    }
    proof {
        assert(wave@.subrange(0, wave@.len() as int) =~= wave@);
    }
    r
}

/// Writing back the value a cell held undoes the write.
proof fn lemma_write_back<T>(cells: Seq<T>, size: I64Vec2, q: I64Vec2, v: T)
    requires
        cells.len() == size.x * size.y,
        in_range(size, q),
    ensures
        write_cell(write_cell(cells, size, q, v), size, q, read_cell(cells, size, q).unwrap()) == cells,
{
    crate::map::lemma_flat_index_bounds(size, q);
    assert(write_cell(write_cell(cells, size, q, v), size, q, read_cell(cells, size, q).unwrap()) =~= cells);
}

/// The total open possibilities change by what one cell gains or loses.
proof fn lemma_wave_total_update<T>(cells: Seq<CellView<T>>, i: int, v: CellView<T>)
    requires
        0 <= i < cells.len(),
    ensures
        wave_total(cells.update(i, v)) + wave_len(cells[i]) == wave_total(cells) + wave_len(v),
    decreases cells.len(),
{
    if i < cells.len() - 1 {
        assert(cells.update(i, v).drop_last() =~= cells.drop_last().update(i, v));
        lemma_wave_total_update(cells.drop_last(), i, v);
    } else {
        assert(cells.update(i, v).drop_last() =~= cells.drop_last());
    }
}

/// The number of waves changes by one when a single wave settles.
proof fn lemma_wave_count_update<T>(cells: Seq<CellView<T>>, i: int, v: CellView<T>)
    requires
        0 <= i < cells.len(),
    ensures
        wave_count(cells.update(i, v)) + (if cells[i] is Wave { 1int } else { 0int }) == wave_count(cells)
            + (if v is Wave { 1int } else { 0int }),
    decreases cells.len(),
{
    if i < cells.len() - 1 {
        assert(cells.update(i, v).drop_last() =~= cells.drop_last().update(i, v));
        lemma_wave_count_update(cells.drop_last(), i, v);
    } else {
        assert(cells.update(i, v).drop_last() =~= cells.drop_last());
    }
}

/// Maps whose cells are waves at the same places have as many waves.
proof fn lemma_wave_count_stays<T>(a: Seq<CellView<T>>, b: Seq<CellView<T>>)
    requires
        waves_stay(a, b),
    ensures
        wave_count(a) == wave_count(b),
    decreases a.len(),
{
    if a.len() > 0 {
        assert(a.drop_last().len() == b.drop_last().len());
        assert forall|i: int| 0 <= i < a.drop_last().len() implies (#[trigger] a.drop_last()[i] is Wave
            <==> b.drop_last()[i] is Wave) by {
            assert(a[i] is Wave <==> b[i] is Wave);
        }
        lemma_wave_count_stays(a.drop_last(), b.drop_last());
        assert(a[a.len() - 1] is Wave <==> b[b.len() - 1] is Wave);
    }
}

/// The four neighbours of a position are four different positions, none of them itself.
proof fn lemma_neighbors_distinct(p: I64Vec2, size: I64Vec2)
    requires
        in_range(size, p),
        size.x * size.y <= i64::MAX,
    ensures
        forall|d: Direction| #[trigger] neighbor(p, d) != p,
        forall|d1: Direction, d2: Direction|
            d1 != d2 ==> #[trigger] neighbor(p, d1) != #[trigger] neighbor(p, d2),
{
}

/// Every cell that must agree with its neighbours does, or waits in `queue`, or is `hole`.
pub open spec fn pending_ok<T: Tile>(
    init: Seq<CellView<T>>,
    cells: Seq<CellView<T>>,
    size: I64Vec2,
    start: I64Vec2,
    queue: Seq<I64Vec2>,
    hole: I64Vec2,
) -> bool {
    forall|r: I64Vec2|
        in_range(size, r) && (r == start || #[trigger] read_cell(cells, size, r) != read_cell(init, size, r))
            ==> (queue.contains(r) || r == hole || settled(cells, size, r))
}

/// What restricting the neighbour on side `dir` of `p` to what `cur` allows did, when it
/// did not empty a wave.
pub open spec fn restricted<T: Tile>(
    before: Seq<CellView<T>>,
    after: Seq<CellView<T>>,
    size: I64Vec2,
    p: I64Vec2,
    dir: Direction,
    cur: CellView<T>,
    qb: Seq<I64Vec2>,
    qa: Seq<I64Vec2>,
) -> bool {
    let q = neighbor(p, dir);
    if in_range(size, q) && read_cell(before, size, q).unwrap() is Wave {
        let w = read_cell(before, size, q).unwrap()->Wave_0;
        let v = keep_allowed(w, cur, dir);
        &&& v.len() > 0
        &&& after == write_cell(before, size, q, CellView::Wave(v))
        &&& qa == (if v.len() != w.len() {
            qb.push(q)
        } else {
            qb
        })
    } else {
        after == before && qa == qb
    }
}

/// A wave that shrinks to some of its tiles, but not to none, keeps every other cell in
/// agreement with its neighbours.
proof fn lemma_settled_shrink<T: Tile>(
    cells: Seq<CellView<T>>,
    size: I64Vec2,
    r: I64Vec2,
    q: I64Vec2,
    v: Seq<T>,
    d: Direction,
)
    requires
        cells.len() == size.x * size.y,
        in_range(size, q),
        in_range(size, r),
        r != q,
        read_cell(cells, size, q).unwrap() is Wave,
        sub_wave(v, read_cell(cells, size, q).unwrap()->Wave_0),
        v.len() > 0,
        settled_toward(cells, size, r, d),
    ensures
        settled_toward(write_cell(cells, size, q, CellView::Wave(v)), size, r, d),
{
    let after = write_cell(cells, size, q, CellView::Wave(v));
    let n = neighbor(r, d);
    crate::map::lemma_flat_index_bounds(size, q);
    crate::map::lemma_flat_index_bounds(size, r);
    crate::map::lemma_flat_index_injective(size, r, q);
    crate::map::law_read_after_write(cells, size, q, CellView::Wave(v), r);
    crate::map::law_read_after_write(cells, size, q, CellView::Wave(v), n);
    if in_range(size, n) && n == q {
        let w = read_cell(cells, size, q).unwrap()->Wave_0;
        assert forall|k: int| 0 <= k < v.len() implies cell_allows(
            read_cell(after, size, r).unwrap(),
            d,
            #[trigger] v[k],
        ) by {
            assert(w.contains(v[k]));
            let j = choose|j: int| 0 <= j < w.len() && w[j] == v[k];
            assert(cell_allows(read_cell(cells, size, r).unwrap(), d, w[j]));
        }
    }
}

/// Restricting one neighbour keeps the bookkeeping of propagation: `p` agrees with that
/// neighbour, what agreed before still agrees, and every changed cell is queued.
proof fn lemma_after_restrict<T: Tile>(
    init: Seq<CellView<T>>,
    before: Seq<CellView<T>>,
    after: Seq<CellView<T>>,
    size: I64Vec2,
    start: I64Vec2,
    p: I64Vec2,
    d: Direction,
    cur: CellView<T>,
    qb: Seq<I64Vec2>,
    qa: Seq<I64Vec2>,
)
    requires
        before.len() == size.x * size.y,
        size.x * size.y <= i64::MAX,
        in_range(size, p),
        read_cell(before, size, p) == Some(cur),
        pending_ok(init, before, size, start, qb, p),
        restricted(before, after, size, p, d, cur, qb, qa),
    ensures
        after.len() == before.len(),
        read_cell(after, size, p) == Some(cur),
        pending_ok(init, after, size, start, qa, p),
        settled_toward(after, size, p, d),
        forall|d2: Direction|
            #[trigger] settled_toward(before, size, p, d2) ==> settled_toward(after, size, p, d2),
        refines_all(before, after),
        waves_stay(before, after),
        2 * wave_total(after) + qa.len() <= 2 * wave_total(before) + qb.len(),
        forall|k: int| 0 <= k < qa.len() && !(0 <= k < qb.len()) ==> in_range(size, #[trigger] qa[k]),
        forall|k: int| 0 <= k < qb.len() ==> qa[k] == qb[k],
        qb.len() <= qa.len(),
        !has_empty_wave(before) ==> !has_empty_wave(after),
{
    let q = neighbor(p, d);
    lemma_neighbors_distinct(p, size);
    assert(q != p);
    if in_range(size, q) && read_cell(before, size, q).unwrap() is Wave {
        let w = read_cell(before, size, q).unwrap()->Wave_0;
        let v = keep_allowed(w, cur, d);
        lemma_keep_allowed(w, cur, d);
        crate::map::lemma_flat_index_bounds(size, q);
        crate::map::lemma_flat_index_bounds(size, p);
        crate::map::lemma_flat_index_injective(size, p, q);
        let iq = crate::map::flat_index(size, q);
        crate::map::law_read_after_write(before, size, q, CellView::Wave(v), p);
        crate::map::law_read_after_write(before, size, q, CellView::Wave(v), q);
        // `p` agrees with `q`.
        assert forall|k: int| 0 <= k < v.len() implies cell_allows(
            read_cell(after, size, p).unwrap(),
            d,
            #[trigger] v[k],
        ) by {}
        assert(settled_toward(after, size, p, d));
        // Other directions of `p`.
        assert forall|d2: Direction| #[trigger] settled_toward(before, size, p, d2) implies settled_toward(
            after,
            size,
            p,
            d2,
        ) by {
            lemma_settled_shrink(before, size, p, q, v, d2);
        }
        // Refinement and the measure.
        assert forall|i: int| 0 <= i < before.len() implies refines(#[trigger] before[i], after[i]) && (
        before[i] is Wave <==> after[i] is Wave) by {
            if i == iq {
                assert(after[i] == CellView::Wave(v));
            } else {
                assert(after[i] == before[i]);
                match before[i] {
                    CellView::Wave(x) => {
                        assert forall|k: int| 0 <= k < x.len() implies x.contains(#[trigger] x[k]) by {}
                    },
                    _ => {},
                }
            }
        }
        lemma_wave_total_update(before, iq, CellView::Wave(v));
        lemma_write_keeps_waves_filled(before, size, q, CellView::Wave(v));
        // Every changed cell is queued or agrees.
        assert forall|r: I64Vec2|
            in_range(size, r) && (r == start || #[trigger] read_cell(after, size, r) != read_cell(init, size, r))
            implies (qa.contains(r) || r == p || settled(after, size, r)) by {
            crate::map::law_read_after_write(before, size, q, CellView::Wave(v), r);
            if r == q {
                if v.len() != w.len() {
                    assert(qa[qa.len() - 1] == q);
                } else {
                    assert(v == w);
                    assert(read_cell(after, size, r) == read_cell(before, size, r));
                    if qb.contains(r) {
                        let k = choose|k: int| 0 <= k < qb.len() && qb[k] == r;
                        assert(qa[k] == r);
                    } else if r != p {
                        assert(after =~= before) by {
                            lemma_write_back(before, size, q, CellView::Wave(v));
                        }
                    }
                }
            } else if r != p {
                if qb.contains(r) {
                    let k = choose|k: int| 0 <= k < qb.len() && qb[k] == r;
                    assert(qa[k] == r);
                } else {
                    assert(settled(before, size, r));
                    lemma_settled_shrink(before, size, r, q, v, Direction::Right);
                    lemma_settled_shrink(before, size, r, q, v, Direction::Left);
                    lemma_settled_shrink(before, size, r, q, v, Direction::Up);
                    lemma_settled_shrink(before, size, r, q, v, Direction::Down);
                }
            }
        }
    } else {
        assert forall|i: int| 0 <= i < before.len() implies refines(#[trigger] before[i], after[i]) && (
        before[i] is Wave <==> after[i] is Wave) by {
            match before[i] {
                CellView::Wave(x) => {
                    assert forall|k: int| 0 <= k < x.len() implies x.contains(#[trigger] x[k]) by {}
                },
                _ => {},
            }
        }
    }
}

/// Writing a settled cell or a wave that is not empty leaves no empty wave where there
/// was none.
proof fn lemma_write_keeps_waves_filled<T>(cells: Seq<CellView<T>>, size: I64Vec2, q: I64Vec2, c: CellView<T>)
    requires
        cells.len() == size.x * size.y,
        c != CellView::Wave(Seq::<T>::empty()),
    ensures
        !has_empty_wave(cells) ==> !has_empty_wave(write_cell(cells, size, q, c)),
{
    if !has_empty_wave(cells) && in_range(size, q) {
        let after = write_cell(cells, size, q, c);
        crate::map::lemma_flat_index_bounds(size, q);
        let iq = crate::map::flat_index(size, q);
        assert forall|i: int| 0 <= i < after.len() implies #[trigger] after[i] != CellView::Wave(Seq::<T>::empty()) by {
            if i != iq {
                assert(after[i] == cells[i]);
            }
        }
    }
}

/// Emptying a wave is still a refinement, and leaves an empty wave behind.
proof fn lemma_restrict_err<T: Tile>(
    before: Seq<CellView<T>>,
    size: I64Vec2,
    q: I64Vec2,
    v: Seq<T>,
)
    requires
        before.len() == size.x * size.y,
        in_range(size, q),
        read_cell(before, size, q).unwrap() is Wave,
        v.len() == 0,
    ensures
        refines_all(before, write_cell(before, size, q, CellView::Wave(v))),
        waves_stay(before, write_cell(before, size, q, CellView::Wave(v))),
        has_empty_wave(write_cell(before, size, q, CellView::Wave(v))),
{
    let after = write_cell(before, size, q, CellView::Wave(v));
    crate::map::lemma_flat_index_bounds(size, q);
    let iq = crate::map::flat_index(size, q);
    assert forall|i: int| 0 <= i < before.len() implies refines(#[trigger] before[i], after[i]) && (
    before[i] is Wave <==> after[i] is Wave) by {
        if i != iq {
            match before[i] {
                CellView::Wave(x) => {
                    assert forall|k: int| 0 <= k < x.len() implies x.contains(#[trigger] x[k]) by {}
                },
                _ => {},
            }
        }
    }
    assert(v =~= Seq::<T>::empty());
    assert(after[iq] == CellView::Wave(Seq::<T>::empty()));
}

/// Refinement composes.
pub proof fn law_refines_transitive<T>(a: Seq<CellView<T>>, b: Seq<CellView<T>>, c: Seq<CellView<T>>)
    requires
        refines_all(a, b),
        refines_all(b, c),
    ensures
        refines_all(a, c),
{
    assert forall|i: int| 0 <= i < a.len() implies refines(#[trigger] a[i], c[i]) by {
        assert(refines(a[i], b[i]));
        assert(refines(b[i], c[i]));
        match (a[i], b[i], c[i]) {
            (CellView::Wave(x), CellView::Wave(y), CellView::Wave(z)) => {
                assert forall|k: int| 0 <= k < z.len() implies x.contains(#[trigger] z[k]) by {
                    assert(y.contains(z[k]));
                    let j = choose|j: int| 0 <= j < y.len() && y[j] == z[k];
                    assert(x.contains(y[j]));
                }
            },
            (CellView::Wave(x), CellView::Wave(y), CellView::Collapsed(t)) => {
                let j = choose|j: int| 0 <= j < y.len() && y[j] == t;
                assert(x.contains(y[j]));
            },
            _ => {},
        }
    }
}

/// Whether cells are waves is preserved along a chain of maps.
proof fn lemma_waves_stay_transitive<T>(a: Seq<CellView<T>>, b: Seq<CellView<T>>, c: Seq<CellView<T>>)
    requires
        waves_stay(a, b),
        waves_stay(b, c),
    ensures
        waves_stay(a, c),
{
    assert forall|i: int| 0 <= i < a.len() implies (#[trigger] a[i] is Wave <==> c[i] is Wave) by {
        assert(a[i] is Wave <==> b[i] is Wave);
        assert(b[i] is Wave <==> c[i] is Wave);
    }
}

/// The view of the cell read from the grid is the cell of the view.
proof fn lemma_view_read<T>(cells: Seq<Cell<T>>, size: I64Vec2, p: I64Vec2)
    requires
        cells.len() == size.x * size.y,
    ensures
        read_cell(cells.map_values(|c: Cell<T>| c@), size, p) == (match read_cell(cells, size, p) {
            Some(c) => Some(c@),
            None => None,
        }),
{
    if in_range(size, p) {
        crate::map::lemma_flat_index_bounds(size, p);
    }
}

impl<T: Tile + 'static> ProbabilityMap<T> {
    /// Restricts the wave on side `dir` of `position` to the tiles that `current` allows
    /// there, recording its former value in `step`; queues it when it shrank, and fails
    /// when it is left empty. A settled or missing neighbour is left alone.
    fn restrict_neighbor(
        &mut self,
        position: I64Vec2,
        dir: Direction,
        current: &Cell<T>,
        step: &mut Step<T>,
        queue: &mut std::collections::VecDeque<I64Vec2>,
    ) -> (r: Result<(), ()>)
        requires
            old(self).well_formed(),
            in_range(old(self).extent(), position),
            old(self).cell(position) == Some(current@),
        ensures
            final(self).well_formed(),
            final(self).extent() == old(self).extent(),
            undo(final(self).cells(), final(self).extent(), final(step)@) == undo(
                old(self).cells(),
                old(self).extent(),
                old(step)@,
            ),
            r is Ok ==> restricted(
                old(self).cells(),
                final(self).cells(),
                old(self).extent(),
                position,
                dir,
                current@,
                old(queue)@,
                final(queue)@,
            ),
            final(step)@ == old(step)@ ==> final(self).cells() == old(self).cells(),
            final(step)@ != old(step)@ ==> {
                let q = neighbor(position, dir);
                &&& in_range(old(self).extent(), q)
                &&& final(step)@ == old(step)@.push((q, old(self).cell(q).unwrap()))
                &&& write_cell(final(self).cells(), old(self).extent(), q, old(self).cell(q).unwrap())
                    == old(self).cells()
            },
            r is Err ==> {
                let q = neighbor(position, dir);
                &&& in_range(old(self).extent(), q)
                &&& old(self).cell(q).unwrap() is Wave
                &&& keep_allowed(old(self).cell(q).unwrap()->Wave_0, current@, dir).len() == 0
                &&& final(step)@ == old(step)@.push((q, old(self).cell(q).unwrap()))
                &&& final(self).cells() == write_cell(
                    old(self).cells(),
                    old(self).extent(),
                    q,
                    CellView::Wave(Seq::<T>::empty()),
                )
            },
    {
        proof {
            self.lemma_shape();
        }
        let q = match dir {
            Direction::Right => I64Vec2 { x: position.x + 1, y: position.y },
            Direction::Left => I64Vec2 { x: position.x - 1, y: position.y },
            Direction::Up => I64Vec2 { x: position.x, y: position.y + 1 },
            Direction::Down => I64Vec2 { x: position.x, y: position.y - 1 },
        };
        assert(q == neighbor(position, dir));
        let ghost before = self.cells();
        let ghost log = step@;
        proof {
            lemma_view_read(self.data.cells(), self.size, q);
        }
        let found = match self.data.get_cell(q) {
            Some(Cell::Wave(neighbor)) => Some(
                (copy_wave(neighbor), restrict_wave(neighbor, current, dir)),
            ),
            _ => None,
        };
        match found {
            None => {
                assert(self.cells() == before);
                assert(step@ == log);
                Ok(())
            },
            Some((old_wave, kept)) => {
                let len = old_wave.len();
                let kept_len = kept.len();
                let ghost w = old_wave@;
                proof {
                    lemma_keep_allowed(w, current@, dir);
                    lemma_view_write(self.data.cells(), self.size, q, Cell::Wave(kept));
                    lemma_write_back(before, self.size, q, CellView::Wave(kept@));
                }
                step.push(q, Cell::Wave(old_wave));
                assert(step@.drop_last() =~= log);
                assert(step@.last() == (q, read_cell(before, self.size, q).unwrap()));
                self.data.set_cell(q, Cell::Wave(kept));
                proof {
                    assert(step@ != log) by {
                        assert(step@.len() == log.len() + 1);
                    }
                    assert(write_cell(self.cells(), self.size, q, read_cell(before, self.size, q).unwrap()) == before);
                }
                if kept_len == 0 {
                    assert(kept@ =~= Seq::<T>::empty());
                    return Err(());
                }
                if len != kept_len {
                    queue.push_back(q);
                }
                Ok(())
            },
        }
    }

    /// Starting from `position`, narrows the waves around every cell that changed until
    /// each of them agrees with its neighbours, appending every overwritten value to
    /// `step`; fails as soon as a wave is left empty. Each wave keeps its remaining tiles
    /// in order, and loses only tiles ruled out by a neighbour that is the start or that
    /// changed. A start off the grid changes nothing.
    pub fn propagate(&mut self, position: I64Vec2, step: &mut Step<T>) -> (r: Result<(), ()>)
        requires
            old(self).well_formed(),
        ensures
            !in_range(old(self).extent(), position) ==> r is Ok && final(self).cells() == old(self).cells()
                && final(step)@ == old(step)@,
            old(step)@.len() <= final(step)@.len(),
            final(step)@.subrange(0, old(step)@.len() as int) == old(step)@,
            undo(
                final(self).cells(),
                final(self).extent(),
                final(step)@.subrange(old(step)@.len() as int, final(step)@.len() as int),
            ) == old(self).cells(),
            narrowed_justly(old(self).cells(), final(self).cells(), final(self).extent(), position),
            !has_empty_wave(old(self).cells()) ==> (r is Err <==> has_empty_wave(final(self).cells())),
            r is Err ==> {
                &&& old(step)@.len() < final(step)@.len()
                &&& final(step)@.last().1 is Wave
                &&& final(self).cell(final(step)@.last().0) == Some(CellView::Wave(Seq::<T>::empty()))
            },
            final(self).well_formed(),
            final(self).extent() == old(self).extent(),
            refines_all(old(self).cells(), final(self).cells()),
            waves_stay(old(self).cells(), final(self).cells()),
            undo(final(self).cells(), final(self).extent(), final(step)@) == undo(
                old(self).cells(),
                old(self).extent(),
                old(step)@,
            ),
            r is Ok ==> forall|p: I64Vec2|
                in_range(final(self).extent(), p) && (p == position || #[trigger] read_cell(
                    final(self).cells(),
                    final(self).extent(),
                    p,
                ) != read_cell(old(self).cells(), old(self).extent(), p)) ==> settled(
                    final(self).cells(),
                    final(self).extent(),
                    p,
                ),
            r is Err ==> has_empty_wave(final(self).cells()),
            r is Ok && !has_empty_wave(old(self).cells()) ==> !has_empty_wave(final(self).cells()),
            r is Ok && in_range(old(self).extent(), position) ==> {
                let c = final(self).cell(position).unwrap();
                &&& final(self).cell(I64Vec2 { x: (position.x + 1) as i64, y: position.y }) matches Some(
                    CellView::Wave(w),
                ) ==> forall|k: int| 0 <= k < w.len() ==> cell_allows(c, Direction::Right, #[trigger] w[k])
                &&& final(self).cell(I64Vec2 { x: (position.x - 1) as i64, y: position.y }) matches Some(
                    CellView::Wave(w),
                ) ==> forall|k: int| 0 <= k < w.len() ==> cell_allows(c, Direction::Left, #[trigger] w[k])
                &&& final(self).cell(I64Vec2 { x: position.x, y: (position.y + 1) as i64 }) matches Some(
                    CellView::Wave(w),
                ) ==> forall|k: int| 0 <= k < w.len() ==> cell_allows(c, Direction::Up, #[trigger] w[k])
                &&& final(self).cell(I64Vec2 { x: position.x, y: (position.y - 1) as i64 }) matches Some(
                    CellView::Wave(w),
                ) ==> forall|k: int| 0 <= k < w.len() ==> cell_allows(c, Direction::Down, #[trigger] w[k])
            },
    {
        let ghost init = self.cells();
        let ghost ext = self.size;
        let ghost log0 = step@;
        let ghost nowhere = I64Vec2 { x: -1i64, y: -1i64 };
        proof {
            self.lemma_shape();
            assert forall|i: int| 0 <= i < init.len() implies refines(#[trigger] init[i], init[i]) by {
                match init[i] {
                    CellView::Wave(x) => {
                        assert forall|k: int| 0 <= k < x.len() implies x.contains(#[trigger] x[k]) by {}
                    },
                    _ => {},
                }
            }
        }
        proof {
            assert(log0.subrange(0, log0.len() as int) =~= log0);
            assert(log0.subrange(log0.len() as int, log0.len() as int) =~= Seq::<(I64Vec2, CellView<T>)>::empty());
            lemma_narrowed_justly_refl(init, ext, position);
        }
        if !self.data.is_in_range(position) {
            proof {
                lemma_record_whole(init, self.cells(), ext, log0, step@);
            }
            return Ok(());
        }
        let mut queue: std::collections::VecDeque<I64Vec2> = std::collections::VecDeque::new();
        queue.push_back(position);
        assert(queue@[0] == position);
        assert(queue@.contains(position));
        while queue.len() > 0
            invariant
                self.well_formed(),
                self.size == ext,
                ext == old(self).extent(),
                init == old(self).cells(),
                log0 == old(step)@,
                nowhere == (I64Vec2 { x: -1i64, y: -1i64 }),
                in_range(ext, position),
                init.len() == ext.x * ext.y,
                forall|k: int| 0 <= k < queue@.len() ==> in_range(ext, #[trigger] queue@[k]),
                refines_all(init, self.cells()),
                waves_stay(init, self.cells()),
                log0.len() <= step@.len(),
                step@.subrange(0, log0.len() as int) == log0,
                undo(self.cells(), ext, step@.subrange(log0.len() as int, step@.len() as int)) == init,
                narrowed_justly(init, self.cells(), ext, position),
                forall|k: int| 0 <= k < queue@.len() ==> moved(init, self.cells(), ext, position, #[trigger] queue@[k]),
                pending_ok(init, self.cells(), ext, position, queue@, nowhere),
                !has_empty_wave(init) ==> !has_empty_wave(self.cells()),
            decreases 2 * wave_total(self.cells()) + queue@.len(),
        {
            proof {
                self.lemma_shape();
            }
            let ghost q_before = queue@;
            let ghost total_before = wave_total(self.cells());
            proof {
                lemma_record_whole(init, self.cells(), ext, log0, step@);
            }
            let p = match queue.pop_front() {
                Some(p) => p,
                None => return Ok(()),
            };
            assert(in_range(ext, q_before[0]));
            proof {
                lemma_view_read(self.data.cells(), self.size, p);
                assert(pending_ok(init, self.cells(), ext, position, q_before, nowhere));
                assert forall|r: I64Vec2|
                    in_range(ext, r) && (r == position || #[trigger] read_cell(self.cells(), ext, r) != read_cell(init, ext, r))
                    implies (queue@.contains(r) || r == p || settled(self.cells(), ext, r)) by {
                    assert(q_before.contains(r) || r == nowhere || settled(self.cells(), ext, r));
                    assert(r != nowhere);
                    if q_before.contains(r) && r != p {
                        let k = choose|k: int| 0 <= k < q_before.len() && q_before[k] == r;
                        assert(queue@[k - 1] == r);
                    }
                }
            }
            let current = match self.data.get_cell(p) {
                Some(c) => c.clone(),
                None => return Ok(()),
            };
            let ghost c0 = self.cells();
            let ghost q0 = queue@;
            let ghost s0 = step@;
            match self.restrict_neighbor(p, Direction::Right, &current, step, &mut queue) {
                Ok(()) => {},
                Err(()) => {
                    proof {
                        lemma_restrict_bookkeeping(init, c0, self.cells(), ext, position, log0, s0, step@, p, Direction::Right, current@, q0, queue@, false);
                        lemma_record_whole(init, self.cells(), ext, log0, step@);
                        let q = neighbor(p, Direction::Right);
                        crate::map::law_read_after_write(c0, ext, q, CellView::Wave(Seq::<T>::empty()), q);
                        lemma_restrict_err(c0, ext, q, Seq::<T>::empty());
                        law_refines_transitive(init, c0, self.cells());
                        lemma_waves_stay_transitive(init, c0, self.cells());
                    }
                    return Err(());
                },
            }
            proof {
                lemma_restrict_bookkeeping(init, c0, self.cells(), ext, position, log0, s0, step@, p, Direction::Right, current@, q0, queue@, true);
                lemma_after_restrict(init, c0, self.cells(), ext, position, p, Direction::Right, current@, q0, queue@);
                law_refines_transitive(init, c0, self.cells());
                lemma_waves_stay_transitive(init, c0, self.cells());
            }
            let ghost c1 = self.cells();
            let ghost q1 = queue@;
            let ghost s1 = step@;
            match self.restrict_neighbor(p, Direction::Left, &current, step, &mut queue) {
                Ok(()) => {},
                Err(()) => {
                    proof {
                        lemma_restrict_bookkeeping(init, c1, self.cells(), ext, position, log0, s1, step@, p, Direction::Left, current@, q1, queue@, false);
                        lemma_record_whole(init, self.cells(), ext, log0, step@);
                        let q = neighbor(p, Direction::Left);
                        crate::map::law_read_after_write(c1, ext, q, CellView::Wave(Seq::<T>::empty()), q);
                        lemma_restrict_err(c1, ext, q, Seq::<T>::empty());
                        law_refines_transitive(init, c1, self.cells());
                        lemma_waves_stay_transitive(init, c1, self.cells());
                    }
                    return Err(());
                },
            }
            proof {
                lemma_restrict_bookkeeping(init, c1, self.cells(), ext, position, log0, s1, step@, p, Direction::Left, current@, q1, queue@, true);
                lemma_after_restrict(init, c1, self.cells(), ext, position, p, Direction::Left, current@, q1, queue@);
                law_refines_transitive(init, c1, self.cells());
                lemma_waves_stay_transitive(init, c1, self.cells());
            }
            let ghost c2 = self.cells();
            let ghost q2 = queue@;
            let ghost s2 = step@;
            match self.restrict_neighbor(p, Direction::Up, &current, step, &mut queue) {
                Ok(()) => {},
                Err(()) => {
                    proof {
                        lemma_restrict_bookkeeping(init, c2, self.cells(), ext, position, log0, s2, step@, p, Direction::Up, current@, q2, queue@, false);
                        lemma_record_whole(init, self.cells(), ext, log0, step@);
                        let q = neighbor(p, Direction::Up);
                        crate::map::law_read_after_write(c2, ext, q, CellView::Wave(Seq::<T>::empty()), q);
                        lemma_restrict_err(c2, ext, q, Seq::<T>::empty());
                        law_refines_transitive(init, c2, self.cells());
                        lemma_waves_stay_transitive(init, c2, self.cells());
                    }
                    return Err(());
                },
            }
            proof {
                lemma_restrict_bookkeeping(init, c2, self.cells(), ext, position, log0, s2, step@, p, Direction::Up, current@, q2, queue@, true);
                lemma_after_restrict(init, c2, self.cells(), ext, position, p, Direction::Up, current@, q2, queue@);
                law_refines_transitive(init, c2, self.cells());
                lemma_waves_stay_transitive(init, c2, self.cells());
            }
            let ghost c3 = self.cells();
            let ghost q3 = queue@;
            let ghost s3 = step@;
            match self.restrict_neighbor(p, Direction::Down, &current, step, &mut queue) {
                Ok(()) => {},
                Err(()) => {
                    proof {
                        lemma_restrict_bookkeeping(init, c3, self.cells(), ext, position, log0, s3, step@, p, Direction::Down, current@, q3, queue@, false);
                        lemma_record_whole(init, self.cells(), ext, log0, step@);
                        let q = neighbor(p, Direction::Down);
                        crate::map::law_read_after_write(c3, ext, q, CellView::Wave(Seq::<T>::empty()), q);
                        lemma_restrict_err(c3, ext, q, Seq::<T>::empty());
                        law_refines_transitive(init, c3, self.cells());
                        lemma_waves_stay_transitive(init, c3, self.cells());
                    }
                    return Err(());
                },
            }
            proof {
                lemma_restrict_bookkeeping(init, c3, self.cells(), ext, position, log0, s3, step@, p, Direction::Down, current@, q3, queue@, true);
                lemma_after_restrict(init, c3, self.cells(), ext, position, p, Direction::Down, current@, q3, queue@);
                law_refines_transitive(init, c3, self.cells());
                lemma_waves_stay_transitive(init, c3, self.cells());
                let c4 = self.cells();
                assert(settled(c4, ext, p));
                assert forall|k: int| 0 <= k < queue@.len() implies in_range(ext, #[trigger] queue@[k]) by {
                    if k < q0.len() {
                        assert(q1[k] == q0[k]);
                        assert(q2[k] == q0[k]);
                        assert(q3[k] == q0[k]);
                    } else if k < q1.len() {
                        assert(q2[k] == q1[k]);
                        assert(q3[k] == q1[k]);
                    } else if k < q2.len() {
                        assert(q3[k] == q2[k]);
                    }
                }
                assert forall|r: I64Vec2|
                    in_range(ext, r) && (r == position || #[trigger] read_cell(c4, ext, r) != read_cell(init, ext, r))
                    implies (queue@.contains(r) || r == nowhere || settled(c4, ext, r)) by {
                }
            }
        }
        proof {
            lemma_record_whole(init, self.cells(), ext, log0, step@);
        }
        Ok(())
    }
}

/// Every cell refines itself.
pub proof fn lemma_refines_refl<T>(a: Seq<CellView<T>>)
    ensures
        refines_all(a, a),
        waves_stay(a, a),
{
    assert forall|i: int| 0 <= i < a.len() implies refines(#[trigger] a[i], a[i]) by {
        match a[i] {
            CellView::Wave(x) => {
                assert forall|k: int| 0 <= k < x.len() implies x.contains(#[trigger] x[k]) by {}
            },
            _ => {},
        }
    }
}

/// A wave that a weighted draw can settle: not empty, with a total weight above zero that
/// fits `u16`.
pub open spec fn drawable<T: Tile>(c: CellView<T>) -> bool {
    &&& c is Wave
    &&& c->Wave_0.len() > 0
    &&& 0 < weight_sum(tile_weights(c->Wave_0)) <= u16::MAX
}

/// From `old` to `new`, the wave at `p` settled to `t`, one of its tiles of positive weight,
/// and then every wave was narrowed justly, from `p` outwards, from the map as it was
/// right after that.
pub open spec fn drawn_round<T: Tile>(old: Seq<CellView<T>>, new: Seq<CellView<T>>, size: I64Vec2, p: I64Vec2, t: T) -> bool {
    &&& in_range(size, p)
    &&& read_cell(old, size, p).unwrap() is Wave
    &&& read_cell(old, size, p).unwrap()->Wave_0.contains(t)
    &&& t.spec_weight() > 0
    &&& read_cell(new, size, p) == Some(CellView::Collapsed(t))
    &&& narrowed_justly(write_cell(old, size, p, CellView::Collapsed(t)), new, size, p)
}

/// What a successful step did to the map `old`, leaving `new` and the record `log`: every
/// cell refines its old value, exactly one wave settled, undoing `log` gives `old` back,
/// and every changed cell agrees with its neighbours.
pub open spec fn successful_step<T: Tile>(
    old: Seq<CellView<T>>,
    new: Seq<CellView<T>>,
    size: I64Vec2,
    log: Seq<(I64Vec2, CellView<T>)>,
) -> bool {
    &&& refines_all(old, new)
    &&& wave_count(new) + 1 == wave_count(old)
    &&& undo(new, size, log) == old
    &&& changes_settled(old, new, size)
}

/// Settling the wave at `position` and then propagating from there is a successful step.
proof fn lemma_collapse_then_propagate<T: Tile>(
    old: Seq<CellView<T>>,
    mid: Seq<CellView<T>>,
    new: Seq<CellView<T>>,
    size: I64Vec2,
    position: I64Vec2,
    t: T,
    log: Seq<(I64Vec2, CellView<T>)>,
)
    requires
        old.len() == size.x * size.y,
        in_range(size, position),
        read_cell(old, size, position).unwrap() is Wave,
        read_cell(old, size, position).unwrap()->Wave_0.contains(t),
        mid == write_cell(old, size, position, CellView::Collapsed(t)),
        refines_all(mid, new),
        waves_stay(mid, new),
        undo(new, size, log) == undo(
            mid,
            size,
            seq![(position, read_cell(old, size, position).unwrap())],
        ),
        forall|p: I64Vec2|
            in_range(size, p) && (p == position || #[trigger] read_cell(new, size, p) != read_cell(
                mid,
                size,
                p,
            )) ==> settled(new, size, p),
    ensures
        successful_step(old, new, size, log),
{
    crate::map::lemma_flat_index_bounds(size, position);
    let ip = crate::map::flat_index(size, position);
    lemma_refines_refl(old);
    assert forall|i: int| 0 <= i < old.len() implies refines(#[trigger] old[i], mid[i]) by {
        if i != ip {
            assert(mid[i] == old[i]);
            assert(refines(old[i], old[i]));
        }
    }
    law_refines_transitive(old, mid, new);
    lemma_wave_count_update(old, ip, CellView::Collapsed(t));
    lemma_wave_count_stays(mid, new);
    let e = (position, read_cell(old, size, position).unwrap());
    assert(seq![e].drop_last() =~= Seq::<(I64Vec2, CellView<T>)>::empty());
    lemma_write_back(old, size, position, CellView::Collapsed(t));
    assert forall|p: I64Vec2|
        in_range(size, p) && #[trigger] read_cell(new, size, p) != read_cell(old, size, p) implies settled(
        new,
        size,
        p,
    ) by {
        crate::map::law_read_after_write(old, size, position, CellView::Collapsed(t), p);
    }
    assert(refines_all(old, new));
    assert(wave_count(new) + 1 == wave_count(old));
    assert(seq![e].last() == e);
    assert(undo(mid, size, seq![e]) == undo(write_cell(mid, size, e.0, e.1), size, seq![e].drop_last()));
    assert(undo(new, size, log) == old);
}

impl<T: Tile + 'static> ProbabilityMap<T> {
    /// Settles the wave at `position` to a tile drawn by `rng` by weight, after recording
    /// its value in `step`. Fails off the grid (recording nothing), on a settled cell, and
    /// on a wave the draw cannot be made from; the map is then left as it was.
    pub fn collapse(&mut self, position: I64Vec2, rng: &mut StdRng, step: &mut Step<T>) -> (r: Result<Cell<T>, ()>)
        requires
            old(self).well_formed(),
        ensures
            final(self).well_formed(),
            final(self).extent() == old(self).extent(),
            !in_range(old(self).extent(), position) ==> r is Err && final(self).cells() == old(self).cells()
                && final(step)@ == old(step)@,
            in_range(old(self).extent(), position) ==> final(step)@ == old(step)@.push(
                (position, old(self).cell(position).unwrap()),
            ),
            r is Err ==> final(self).cells() == old(self).cells(),
            r matches Ok(rest) ==> {
                &&& in_range(old(self).extent(), position)
                &&& old(self).cell(position).unwrap() is Wave
                &&& exists|i: int|
                    #![trigger old(self).cell(position).unwrap()->Wave_0[i]]
                    {
                        let w = old(self).cell(position).unwrap()->Wave_0;
                        &&& 0 <= i < w.len()
                        &&& w[i].spec_weight() > 0
                        &&& final(self).cells() == write_cell(
                            old(self).cells(),
                            old(self).extent(),
                            position,
                            CellView::Collapsed(w[i]),
                        )
                        &&& rest@ == CellView::Wave(w.remove(i))
                    }
            },
            in_range(old(self).extent(), position) ==> match old(self).cell(position).unwrap() {
                CellView::Wave(w) => r is Ok <==> (w.len() > 0 && 0 < weight_sum(tile_weights(w)) <= u16::MAX),
                CellView::Collapsed(_) => r is Err,
            },
    {
        proof {
            self.lemma_shape();
            lemma_view_read(self.data.cells(), self.size, position);
        }
        let mut current = match self.data.get_cell(position) {
            Some(c) => c.clone(),
            None => return Err(()),
        };
        step.push(position, current.clone());
        let result = current.collapse(rng);
        proof {
            lemma_view_write(self.data.cells(), self.size, position, current);
            lemma_write_back(self.cells(), self.size, position, current@);
            crate::map::lemma_flat_index_bounds(self.size, position);
            if result is Err {
                assert(write_cell(self.cells(), self.size, position, current@) =~= self.cells());
            }
        }
        self.data.set_cell(position, current);
        result
    }

    /// One round of wave function collapse: settles one of the waves holding the fewest
    /// tiles (drawn by `rng`) to a tile drawn by weight, then propagates from it. Gives
    /// `None` once no cell is a wave, and the record of the overwritten values otherwise.
    /// A failed round may leave the map partly narrowed.
    pub fn step(&mut self, rng: &mut StdRng) -> (r: Result<Option<Step<T>>, ()>)
        requires
            old(self).well_formed(),
        ensures
            final(self).well_formed(),
            final(self).extent() == old(self).extent(),
            refines_all(old(self).cells(), final(self).cells()),
            r matches Ok(None) <==> (forall|i: int| 0 <= i < old(self).cells().len() ==> !(#[trigger] old(self).cells()[i] is Wave)),
            r matches Ok(None) ==> final(self).cells() == old(self).cells(),
            r matches Ok(Some(_)) && !has_empty_wave(old(self).cells()) ==> !has_empty_wave(final(self).cells()),
            r matches Ok(Some(s)) ==> successful_step(old(self).cells(), final(self).cells(), old(self).extent(), s@),
            !(r matches Ok(None)) ==> exists|i: int|
                #![trigger position_of(old(self).extent(), i)]
                {
                    let p = position_of(old(self).extent(), i);
                    &&& lowest_entropy(old(self).cells(), i)
                    &&& if r is Err && !(in_range(old(self).extent(), p) && drawable(old(self).cell(p).unwrap())) {
                        final(self).cells() == old(self).cells()
                    } else {
                        &&& exists|t: T| #[trigger] drawn_round(old(self).cells(), final(self).cells(), old(self).extent(), p, t)
                        &&& r is Err ==> has_empty_wave(final(self).cells())
                    }
                },
    {
        proof {
            self.lemma_shape();
            lemma_refines_refl(self.cells());
        }
        if let Some(position) = self.next_cell(rng) {
            let ghost old_cells = self.cells();
            let mut step = Step::new();
            match self.collapse(position, rng, &mut step) {
                Ok(_) => {},
                Err(()) => {
                    proof {
                        let j = choose|j: int| lowest_entropy(old_cells, j) && position == #[trigger] position_of(self.size, j);
                        assert(lowest_entropy(old_cells, j));
                    }
                    return Err(());
                },
            }
            let ghost mid = self.cells();
            let ghost log1 = step@;
            proof {
                let w = read_cell(old_cells, self.size, position).unwrap()->Wave_0;
                let i = choose|i: int| 0 <= i < w.len() && w[i].spec_weight() > 0 && mid == write_cell(
                    old_cells,
                    self.size,
                    position,
                    CellView::Collapsed(#[trigger] w[i]),
                );
                assert(w.contains(w[i]));
                lemma_refines_refl(mid);
                lemma_write_keeps_waves_filled(old_cells, self.size, position, CellView::Collapsed(w[i]));
            }
            match self.propagate(position, &mut step) {
                Ok(()) => {},
                Err(()) => {
                    proof {
                        let w = read_cell(old_cells, self.size, position).unwrap()->Wave_0;
                        let i = choose|i: int| 0 <= i < w.len() && w[i].spec_weight() > 0 && mid == write_cell(
                            old_cells,
                            self.size,
                            position,
                            CellView::Collapsed(#[trigger] w[i]),
                        );
                        crate::map::lemma_flat_index_bounds(self.size, position);
                        let ip = crate::map::flat_index(self.size, position);
                        lemma_refines_refl(old_cells);
                        assert forall|j: int| 0 <= j < old_cells.len() implies refines(#[trigger] old_cells[j], mid[j]) by {
                            if j != ip {
                                assert(refines(old_cells[j], old_cells[j]));
                            } else {
                                assert(w.contains(w[i]));
                            }
                        }
                        law_refines_transitive(old_cells, mid, self.cells());
                        let t = w[i];
                        crate::map::law_read_after_write(old_cells, self.size, position, CellView::Collapsed(t), position);
                        assert(refines(read_cell(mid, self.size, position).unwrap(), read_cell(self.cells(), self.size, position).unwrap()));
                        assert(drawn_round(old_cells, self.cells(), self.size, position, t));
                        let j = choose|j: int| lowest_entropy(old_cells, j) && position == #[trigger] position_of(self.size, j);
                        assert(lowest_entropy(old_cells, j));
                    }
                    return Err(());
                },
            }
            proof {
                let w = read_cell(old_cells, self.size, position).unwrap()->Wave_0;
                let i = choose|i: int| 0 <= i < w.len() && w[i].spec_weight() > 0 && mid == write_cell(
                    old_cells,
                    self.size,
                    position,
                    CellView::Collapsed(#[trigger] w[i]),
                );
                let t = w[i];
                assert(w.contains(t));
                assert(log1 == seq![(position, read_cell(old_cells, self.size, position).unwrap())]);
                lemma_collapse_then_propagate(old_cells, mid, self.cells(), self.size, position, t, step@);
                crate::map::law_read_after_write(old_cells, self.size, position, CellView::Collapsed(t), position);
                let j = choose|j: int| lowest_entropy(old_cells, j) && position == #[trigger] position_of(self.size, j);
                assert(self.cell(position_of(self.size, j)) matches Some(CellView::Collapsed(t2)) && t2 == t) by {
                    assert(refines(read_cell(mid, self.size, position).unwrap(), read_cell(self.cells(), self.size, position).unwrap())) by {
                        crate::map::lemma_flat_index_bounds(self.size, position);
                    }
                }
                assert(drawn_round(old_cells, self.cells(), self.size, position, t));
                assert(lowest_entropy(old_cells, j));
            }
            Ok(Some(step))
        } else {
            Ok(None)
        }
    }
}

impl<T: Tile + 'static> ProbabilityMap<T> {
    /// The round of `step` once its draws are made: settles the wave at `position` to its
    /// tile at `choice`, then propagates from it. Fails, leaving the map as it was, off
    /// the grid, on a settled cell or on a choice past the wave; fails, leaving the map
    /// partly narrowed, when propagation empties a wave.
    pub fn step_at(&mut self, position: I64Vec2, choice: usize) -> (r: Result<Step<T>, ()>)
        requires
            old(self).well_formed(),
        ensures
            final(self).well_formed(),
            final(self).extent() == old(self).extent(),
            !(old(self).cell(position) matches Some(CellView::Wave(w)) && choice < w.len()) ==> r is Err
                && final(self).cells() == old(self).cells(),
            old(self).cell(position) matches Some(CellView::Wave(w)) ==> choice < w.len() ==> {
                &&& refines_all(old(self).cells(), final(self).cells())
                &&& final(self).cell(position) == Some(CellView::Collapsed(w[choice as int]))
                &&& narrowed_justly(
                    write_cell(old(self).cells(), old(self).extent(), position, CellView::Collapsed(w[choice as int])),
                    final(self).cells(),
                    old(self).extent(),
                    position,
                )
                &&& r matches Ok(s) ==> successful_step(old(self).cells(), final(self).cells(), old(self).extent(), s@)
                &&& r is Err ==> has_empty_wave(final(self).cells())
                &&& !has_empty_wave(old(self).cells()) ==> (r is Err <==> has_empty_wave(final(self).cells()))
            },
    {
        proof {
            self.lemma_shape();
            lemma_view_read(self.data.cells(), self.size, position);
        }
        let ghost old_cells = self.cells();
        let mut step = Step::new();
        let mut current = match self.data.get_cell(position) {
            Some(c) => c.clone(),
            None => return Err(()),
        };
        step.push(position, current.clone());
        match current.collapse_at(choice) {
            Ok(_) => {},
            Err(()) => return Err(()),
        }
        let ghost w = read_cell(old_cells, self.size, position).unwrap()->Wave_0;
        let ghost t = w[choice as int];
        proof {
            lemma_view_write(self.data.cells(), self.size, position, current);
        }
        self.data.set_cell(position, current);
        let ghost mid = self.cells();
        let ghost log1 = step@;
        proof {
            assert(w.contains(t));
            lemma_refines_refl(mid);
            crate::map::lemma_flat_index_bounds(self.size, position);
            let ip = crate::map::flat_index(self.size, position);
            lemma_refines_refl(old_cells);
            assert forall|j: int| 0 <= j < old_cells.len() implies refines(#[trigger] old_cells[j], mid[j]) by {
                if j != ip {
                    assert(refines(old_cells[j], old_cells[j]));
                }
            }
            lemma_write_keeps_waves_filled(old_cells, self.size, position, CellView::Collapsed(t));
        }
        match self.propagate(position, &mut step) {
            Ok(()) => {},
            Err(()) => {
                proof {
                    law_refines_transitive(old_cells, mid, self.cells());
                }
                return Err(());
            },
        }
        proof {
            law_refines_transitive(old_cells, mid, self.cells());
            lemma_collapse_then_propagate(old_cells, mid, self.cells(), self.size, position, t, step@);
            crate::map::law_read_after_write(old_cells, self.size, position, CellView::Collapsed(t), position);
            crate::map::lemma_flat_index_bounds(self.size, position);
            assert(refines(read_cell(mid, self.size, position).unwrap(), read_cell(self.cells(), self.size, position).unwrap()));
        }
        Ok(step)
    }

    /// One turn of the generation loop, given the outcome of `step`: a successful round
    /// is kept on `steps`; once no wave is left, generation has succeeded; a failed round
    /// takes back the most recent kept one, or ends generation in failure when none is
    /// left. `None` means the loop goes on.
    pub fn advance(&mut self, steps: &mut Vec<Step<T>>, outcome: Result<Option<Step<T>>, ()>) -> (r: Option<Result<(), ()>>)
        requires
            old(self).well_formed(),
        ensures
            final(self).well_formed(),
            final(self).extent() == old(self).extent(),
            match outcome {
                Ok(Some(s)) => r is None && final(steps)@ == old(steps)@.push(s) && final(self).cells()
                    == old(self).cells(),
                Ok(None) => r == Some(Ok::<(), ()>(())) && final(steps)@ == old(steps)@ && final(self).cells()
                    == old(self).cells(),
                Err(()) => if old(steps)@.len() > 0 {
                    &&& r is None
                    &&& final(steps)@ == old(steps)@.drop_last()
                    &&& final(self).cells() == undo(old(self).cells(), old(self).extent(), old(steps)@.last()@)
                } else {
                    &&& r == Some(Err::<(), ()>(()))
                    &&& final(steps)@ == old(steps)@
                    &&& final(self).cells() == old(self).cells()
                },
            },
    {
        match outcome {
            Ok(Some(step)) => {
                steps.push(step);
                None
            },
            Ok(None) => Some(Ok(())),
            Err(()) => {
                if let Some(step) = steps.pop() {
                    self.reverse(step);
                    None
                } else {
                    Some(Err(()))
                }
            },
        }
    }
}

/// Law: the neighbour on side `Right` of `p` is the cell one step along `x`, `Left` one
/// step back along `x`, `Up` one step along `y` and `Down` one step back along `y`; so a
/// cell that agrees with its neighbours allows, on each side, every tile still possible
/// in the wave of the cell at that offset.
pub proof fn law_settled_sides<T: Tile>(cells: Seq<CellView<T>>, size: I64Vec2, p: I64Vec2)
    requires
        in_range(size, p),
        settled(cells, size, p),
    ensures
        neighbor(p, Direction::Right) == (I64Vec2 { x: (p.x + 1) as i64, y: p.y }),
        neighbor(p, Direction::Left) == (I64Vec2 { x: (p.x - 1) as i64, y: p.y }),
        neighbor(p, Direction::Up) == (I64Vec2 { x: p.x, y: (p.y + 1) as i64 }),
        neighbor(p, Direction::Down) == (I64Vec2 { x: p.x, y: (p.y - 1) as i64 }),
        ({
            let c = read_cell(cells, size, p).unwrap();
            &&& read_cell(cells, size, I64Vec2 { x: (p.x + 1) as i64, y: p.y }) matches Some(CellView::Wave(w))
                ==> forall|k: int| 0 <= k < w.len() ==> cell_allows(c, Direction::Right, #[trigger] w[k])
            &&& read_cell(cells, size, I64Vec2 { x: (p.x - 1) as i64, y: p.y }) matches Some(CellView::Wave(w))
                ==> forall|k: int| 0 <= k < w.len() ==> cell_allows(c, Direction::Left, #[trigger] w[k])
            &&& read_cell(cells, size, I64Vec2 { x: p.x, y: (p.y + 1) as i64 }) matches Some(CellView::Wave(w))
                ==> forall|k: int| 0 <= k < w.len() ==> cell_allows(c, Direction::Up, #[trigger] w[k])
            &&& read_cell(cells, size, I64Vec2 { x: p.x, y: (p.y - 1) as i64 }) matches Some(CellView::Wave(w))
                ==> forall|k: int| 0 <= k < w.len() ==> cell_allows(c, Direction::Down, #[trigger] w[k])
        }),
{
    assert(settled_toward(cells, size, p, Direction::Right));
    assert(settled_toward(cells, size, p, Direction::Left));
    assert(settled_toward(cells, size, p, Direction::Up));
    assert(settled_toward(cells, size, p, Direction::Down));
}

/// Law: putting back the record of a successful step gives the map as it was before
/// the step.
pub proof fn law_reverse_undoes_step<T: Tile>(
    before: Seq<CellView<T>>,
    after: Seq<CellView<T>>,
    size: I64Vec2,
    log: Seq<(I64Vec2, CellView<T>)>,
    restored: Seq<CellView<T>>,
)
    requires
        successful_step(before, after, size, log),
        restored == undo(after, size, log),
    ensures
        restored == before,
{
}

/// Law: every successful step settles one more wave, so generation that keeps
/// succeeding ends after at most as many steps as there were waves.
pub proof fn law_step_progress<T: Tile>(
    before: Seq<CellView<T>>,
    after: Seq<CellView<T>>,
    size: I64Vec2,
    log: Seq<(I64Vec2, CellView<T>)>,
)
    requires
        successful_step(before, after, size, log),
    ensures
        wave_count(after) < wave_count(before),
{
}

/// Law: once no cell is a wave (when `step` reports that it is done), the map converts
/// into a finished one.
pub proof fn law_done_converts<T>(cells: Seq<CellView<T>>)
    requires
        forall|i: int| 0 <= i < cells.len() ==> !(#[trigger] cells[i] is Wave),
    ensures
        forall|i: int| 0 <= i < cells.len() ==> #[trigger] cells[i] is Collapsed,
{
    assert forall|i: int| 0 <= i < cells.len() implies #[trigger] cells[i] is Collapsed by {
        assert(!(cells[i] is Wave));
    }
}

/// Law: a wave holding a single tile allows exactly what that tile allows.
pub proof fn law_single_wave_allows<T: Tile>(t: T, dir: Direction, u: T)
    ensures
        cell_allows(CellView::Wave(seq![t]), dir, u) == cell_allows(CellView::Collapsed(t), dir, u),
{
    let c = CellView::Wave(seq![t]);
    assert(c->Wave_0 == seq![t]);
    assert(seq![t][0] == t);
}

/// Law: narrowing a wave by the same cell twice changes nothing the second time.
pub proof fn law_keep_allowed_idempotent<T: Tile>(w: Seq<T>, c: CellView<T>, dir: Direction)
    ensures
        keep_allowed(keep_allowed(w, c, dir), c, dir) == keep_allowed(w, c, dir),
{
    let k = keep_allowed(w, c, dir);
    lemma_keep_allowed(w, c, dir);
    lemma_keep_all(k, c, dir);
}

/// A wave all of whose tiles are allowed is kept whole.
proof fn lemma_keep_all<T: Tile>(w: Seq<T>, c: CellView<T>, dir: Direction)
    requires
        forall|k: int| 0 <= k < w.len() ==> cell_allows(c, dir, #[trigger] w[k]),
    ensures
        keep_allowed(w, c, dir) == w,
    decreases w.len(),
{
    if w.len() > 0 {
        assert forall|k: int| 0 <= k < w.drop_last().len() implies cell_allows(c, dir, #[trigger] w.drop_last()[k]) by {
            assert(w.drop_last()[k] == w[k]);
        }
        lemma_keep_all(w.drop_last(), c, dir);
        assert(cell_allows(c, dir, w[w.len() - 1]));
        assert(w.drop_last().push(w.last()) =~= w);
    }
}


/// The side facing `dir`.
pub open spec fn opposite(dir: Direction) -> Direction {
    match dir {
        Direction::Left => Direction::Right,
        Direction::Right => Direction::Left,
        Direction::Up => Direction::Down,
        Direction::Down => Direction::Up,
    }
}

/// Between `p` and its neighbour on side `dir`: a settled cell allows there every tile of
/// a wave, and of two settled cells side by side one allows the other.
pub open spec fn agrees_toward<T: Tile>(cells: Seq<CellView<T>>, size: I64Vec2, p: I64Vec2, dir: Direction) -> bool {
    match (read_cell(cells, size, p), read_cell(cells, size, neighbor(p, dir))) {
        (Some(CellView::Collapsed(a)), Some(CellView::Wave(w))) => forall|k: int|
            0 <= k < w.len() ==> a.allows(dir, #[trigger] w[k]),
        (Some(CellView::Collapsed(a)), Some(CellView::Collapsed(b))) => a.allows(dir, b) || b.allows(
            opposite(dir),
            a,
        ),
        _ => true,
    }
}

/// Every cell agrees with its four neighbours.
pub open spec fn consistent<T: Tile>(cells: Seq<CellView<T>>, size: I64Vec2) -> bool {
    forall|p: I64Vec2, dir: Direction| in_range(size, p) ==> #[trigger] agrees_toward(cells, size, p, dir)
}

/// Refining never adds a wave.
proof fn lemma_wave_count_refines<T>(old: Seq<CellView<T>>, new: Seq<CellView<T>>)
    requires
        refines_all(old, new),
    ensures
        wave_count(new) <= wave_count(old),
    decreases old.len(),
{
    if old.len() > 0 {
        assert forall|i: int| 0 <= i < old.drop_last().len() implies refines(
            #[trigger] old.drop_last()[i],
            new.drop_last()[i],
        ) by {
            assert(refines(old[i], new[i]));
        }
        lemma_wave_count_refines(old.drop_last(), new.drop_last());
        assert(refines(old[old.len() - 1], new[new.len() - 1]));
    }
}

/// Two waves that settle in one refinement take two waves away.
proof fn lemma_two_settle<T>(old: Seq<CellView<T>>, new: Seq<CellView<T>>, i: int, j: int)
    requires
        refines_all(old, new),
        0 <= i < old.len(),
        0 <= j < old.len(),
        i != j,
        old[i] is Wave,
        new[i] is Collapsed,
        old[j] is Wave,
        new[j] is Collapsed,
    ensures
        wave_count(new) + 2 <= wave_count(old),
{
    let n1 = new.update(i, old[i]);
    let n2 = n1.update(j, old[j]);
    lemma_wave_count_update(n2, i, new[i]);
    assert(n2.update(i, new[i]) =~= new.update(j, old[j]));
    lemma_wave_count_update(new.update(j, old[j]), j, new[j]);
    assert(new.update(j, old[j]).update(j, new[j]) =~= new);
    lemma_refines_refl(old);
    assert forall|k: int| 0 <= k < old.len() implies refines(#[trigger] old[k], n2[k]) by {
        assert(refines(old[k], old[k]));
        assert(refines(old[k], new[k]));
    }
    lemma_wave_count_refines(old, n2);
}

/// Law: a map whose cells are all waves, as `ProbabilityMap::new` makes it, is consistent.
pub proof fn law_fresh_map_consistent<T: Tile>(cells: Seq<CellView<T>>, size: I64Vec2)
    requires
        forall|i: int| 0 <= i < cells.len() ==> #[trigger] cells[i] is Wave,
        cells.len() == size.x * size.y,
    ensures
        consistent(cells, size),
{
    assert forall|p: I64Vec2, dir: Direction| in_range(size, p) implies #[trigger] agrees_toward(cells, size, p, dir) by {
        crate::map::lemma_flat_index_bounds(size, p);
        assert(cells[crate::map::flat_index(size, p)] is Wave);
    }
}

/// Law: a successful step keeps the map consistent: the wave it settles was allowed by
/// every settled neighbour, and the waves around it keep only what it allows.
pub proof fn law_step_keeps_consistent<T: Tile>(
    before: Seq<CellView<T>>,
    after: Seq<CellView<T>>,
    size: I64Vec2,
    log: Seq<(I64Vec2, CellView<T>)>,
)
    requires
        successful_step(before, after, size, log),
        consistent(before, size),
        before.len() == size.x * size.y,
    ensures
        consistent(after, size),
{
    assert forall|p: I64Vec2, dir: Direction| in_range(size, p) implies #[trigger] agrees_toward(after, size, p, dir) by {
        let q = neighbor(p, dir);
        crate::map::lemma_flat_index_bounds(size, p);
        let ip = crate::map::flat_index(size, p);
        assert(refines(before[ip], after[ip]));
        assert(agrees_toward(before, size, p, dir));
        if in_range(size, q) && after[ip] is Collapsed {
            let a = after[ip]->Collapsed_0;
            crate::map::lemma_flat_index_bounds(size, q);
            let iq = crate::map::flat_index(size, q);
            assert(refines(before[iq], after[iq]));
            assert(p != q);
            crate::map::lemma_flat_index_injective(size, p, q);
            let od = opposite(dir);
            assert(neighbor(q, od) == p);
            assert(agrees_toward(before, size, q, od));
            match (before[ip], after[iq]) {
                (CellView::Collapsed(_), CellView::Wave(v)) => {
                    let w = before[iq]->Wave_0;
                    assert forall|k: int| 0 <= k < v.len() implies a.allows(dir, #[trigger] v[k]) by {
                        assert(w.contains(v[k]));
                        let j = choose|j: int| 0 <= j < w.len() && w[j] == v[k];
                        assert(a.allows(dir, w[j]));
                    }
                },
                (CellView::Wave(_), CellView::Wave(v)) => {
                    assert(read_cell(after, size, p) != read_cell(before, size, p));
                    assert(settled(after, size, p));
                    assert(settled_toward(after, size, p, dir));
                    assert forall|k: int| 0 <= k < v.len() implies a.allows(dir, #[trigger] v[k]) by {
                        assert(cell_allows(CellView::Collapsed(a), dir, v[k]));
                    }
                },
                (CellView::Collapsed(_), CellView::Collapsed(b)) => {
                    if before[iq] is Wave {
                        let w = before[iq]->Wave_0;
                        let j = choose|j: int| 0 <= j < w.len() && w[j] == b;
                        assert(a.allows(dir, w[j]));
                    }
                },
                (CellView::Wave(w), CellView::Collapsed(b)) => {
                    if before[iq] is Wave {
                        lemma_two_settle(before, after, ip, iq);
                    } else {
                        let j = choose|j: int| 0 <= j < w.len() && w[j] == a;
                        assert(b.allows(od, w[j]));
                    }
                },
            }
        }
    }
}

/// Law: in a consistent map every cell of which is settled, of two tiles side by side one
/// allows the other; where the tiles' rules are symmetric, each allows the other.
pub proof fn law_settled_map_agrees<T: Tile>(cells: Seq<CellView<T>>, m: Map2D<T>, p: I64Vec2, dir: Direction)
    requires
        consistent(cells, m.extent()),
        cells.len() == m.cells().len(),
        forall|i: int| 0 <= i < cells.len() ==> #[trigger] cells[i] == CellView::Collapsed(m.cells()[i]),
        m.well_formed(),
        m.cell(p) is Some,
        m.cell(neighbor(p, dir)) is Some,
    ensures
        ({
            let a = m.cell(p).unwrap();
            let b = m.cell(neighbor(p, dir)).unwrap();
            &&& a.allows(dir, b) || b.allows(opposite(dir), a)
            &&& (forall|x: T, d: Direction, y: T| #[trigger] x.allows(d, y) == y.allows(opposite(d), x)) ==> a.allows(
                dir,
                b,
            )
        }),
{
    let q = neighbor(p, dir);
    crate::map::lemma_flat_index_bounds(m.extent(), p);
    crate::map::lemma_flat_index_bounds(m.extent(), q);
    assert(agrees_toward(cells, m.extent(), p, dir));
    assert(cells[crate::map::flat_index(m.extent(), p)] == CellView::Collapsed(m.cell(p).unwrap()));
    assert(cells[crate::map::flat_index(m.extent(), q)] == CellView::Collapsed(m.cell(q).unwrap()));
}

} // verus!
