use vstd::prelude::*;

use crate::tile::Direction;

verus! {

/// The weight of every kind of tile, and for each side the kinds that may sit there,
/// all by the kinds' positions in declaration order.
#[derive(Debug, Clone)]
pub struct TileRules {
    pub weights: Vec<u16>,
    pub left: Vec<Vec<usize>>,
    pub right: Vec<Vec<usize>>,
    pub up: Vec<Vec<usize>>,
    pub down: Vec<Vec<usize>>,
}

impl TileRules {
    /// The kinds that may sit on side `dir` of kind `k`.
    pub open spec fn allowed(&self, dir: Direction, k: int) -> Seq<usize> {
        match dir {
            Direction::Left => self.left@[k]@,
            Direction::Right => self.right@[k]@,
            Direction::Up => self.up@[k]@,
            Direction::Down => self.down@[k]@,
        }
    }

    /// One weight and one list per side for each of `n` kinds.
    pub open spec fn has_kinds(&self, n: nat) -> bool {
        &&& self.weights@.len() == n
        &&& self.left@.len() == n
        &&& self.right@.len() == n
        &&& self.up@.len() == n
        &&& self.down@.len() == n
    }
}

/// The side a `constraint` attribute names; `All` stands for the four sides.
#[derive(Clone, Copy, PartialEq, Eq, Debug, Structural)]
pub enum ConstraintSide {
    All,
    Left,
    Right,
    Up,
    Down,
    Other,
}

/// An attribute on a kind of tile: `weight(n)`, `constraint(side = [kinds...])`, or one
/// that rules do not read.
#[derive(Debug, Clone)]
pub enum TileAttribute {
    Weight(u16),
    Constraint(ConstraintSide, Vec<usize>),
    Other,
}

/// The weight that `attrs` give: the last `weight` attribute, one without any.
pub open spec fn attribute_weight(attrs: Seq<TileAttribute>) -> u16
    decreases attrs.len(),
{
    if attrs.len() == 0 {
        1
    } else {
        match attrs.last() {
            TileAttribute::Weight(w) => w,
            _ => attribute_weight(attrs.drop_last()),
        }
    }
}

/// `side` names `dir`.
pub open spec fn side_covers(side: ConstraintSide, dir: Direction) -> bool {
    match side {
        ConstraintSide::All => true,
        ConstraintSide::Left => dir == Direction::Left,
        ConstraintSide::Right => dir == Direction::Right,
        ConstraintSide::Up => dir == Direction::Up,
        ConstraintSide::Down => dir == Direction::Down,
        ConstraintSide::Other => false,
    }
}

/// The kinds that `attrs` allow on side `dir`: the lists of the `constraint` attributes
/// naming that side, one after the other.
pub open spec fn attribute_side(attrs: Seq<TileAttribute>, dir: Direction) -> Seq<usize>
    decreases attrs.len(),
{
    if attrs.len() == 0 {
        Seq::empty()
    } else {
        attribute_side(attrs.drop_last(), dir) + match attrs.last() {
            TileAttribute::Constraint(side, kinds) => if side_covers(side, dir) {
                kinds@
            } else {
                Seq::empty()
            },
            _ => Seq::empty(),
        }
    }
}

fn attributes_weight(attrs: &Vec<TileAttribute>) -> (r: u16)
    ensures
        r == attribute_weight(attrs@),
{
    let mut weight: u16 = 1;
    let mut i: usize = 0;
    while i < attrs.len()
        invariant
            i <= attrs@.len(),
            weight == attribute_weight(attrs@.subrange(0, i as int)),
        decreases attrs@.len() - i,
    {
        proof {
            assert(attrs@.subrange(0, i + 1).drop_last() =~= attrs@.subrange(0, i as int));
        }
        match &attrs[i] {
            TileAttribute::Weight(w) => {
                weight = *w;
            },
            _ => {},
        }
        i += 1;
    }
    proof {
        assert(attrs@.subrange(0, attrs@.len() as int) =~= attrs@);
    }
    weight
}

fn covers(side: ConstraintSide, dir: Direction) -> (r: bool)
    ensures
        r == side_covers(side, dir),
{
    match side {
        ConstraintSide::All => true,
        ConstraintSide::Left => dir == Direction::Left,
        ConstraintSide::Right => dir == Direction::Right,
        ConstraintSide::Up => dir == Direction::Up,
        ConstraintSide::Down => dir == Direction::Down,
        ConstraintSide::Other => false,
    }
}

fn attributes_side(attrs: &Vec<TileAttribute>, dir: Direction) -> (r: Vec<usize>)
    ensures
        r@ == attribute_side(attrs@, dir),
{
    let mut kinds: Vec<usize> = Vec::new();
    let mut i: usize = 0;
    while i < attrs.len()
        invariant
            i <= attrs@.len(),
            kinds@ == attribute_side(attrs@.subrange(0, i as int), dir),
        decreases attrs@.len() - i,
    {
        proof {
            assert(attrs@.subrange(0, i + 1).drop_last() =~= attrs@.subrange(0, i as int));
        }
        match &attrs[i] {
            TileAttribute::Constraint(side, list) => {
                if covers(*side, dir) {
                    let mut j: usize = 0;
                    let ghost start = kinds@;
                    while j < list.len()
                        invariant
                            j <= list@.len(),
                            kinds@ == start + list@.subrange(0, j as int),
                        decreases list@.len() - j,
                    {
                        kinds.push(list[j]);
                        proof {
                            assert(start + list@.subrange(0, j + 1) =~= (start + list@.subrange(0, j as int)).push(list@[j as int]));
                        }
                        j += 1;
                    }
                    proof {
                        assert(list@.subrange(0, list@.len() as int) =~= list@);
                    }
                } else {
                    proof {
                        assert(kinds@ =~= kinds@ + Seq::<usize>::empty());
                    }
                }
            },
            _ => {
                proof {
                    assert(kinds@ =~= kinds@ + Seq::<usize>::empty());
                }
            },
        }
        i += 1;
    }
    proof {
        assert(attrs@.subrange(0, attrs@.len() as int) =~= attrs@);
    }
    kinds
}

/// The rules that `weight` and `constraint` attributes declare, one list of attributes
/// per kind of tile in declaration order.
pub fn rules_from_attributes(variants: &Vec<Vec<TileAttribute>>) -> (r: TileRules)
    ensures
        r.has_kinds(variants@.len()),
        forall|k: int| 0 <= k < variants@.len() ==> #[trigger] r.weights@[k] == attribute_weight(variants@[k]@),
        forall|k: int, dir: Direction|
            0 <= k < variants@.len() ==> #[trigger] r.allowed(dir, k) == attribute_side(variants@[k]@, dir),
{
    let mut r = TileRules { weights: Vec::new(), left: Vec::new(), right: Vec::new(), up: Vec::new(), down: Vec::new() };
    let mut k: usize = 0;
    while k < variants.len()
        invariant
            k <= variants@.len(),
            r.has_kinds(k as nat),
            forall|j: int| 0 <= j < k ==> #[trigger] r.weights@[j] == attribute_weight(variants@[j]@),
            forall|j: int, dir: Direction| 0 <= j < k ==> #[trigger] r.allowed(dir, j) == attribute_side(variants@[j]@, dir),
        decreases variants@.len() - k,
    {
        let attrs = &variants[k];
        let ghost old_r = r;
        r.weights.push(attributes_weight(attrs));
        r.left.push(attributes_side(attrs, Direction::Left));
        r.right.push(attributes_side(attrs, Direction::Right));
        r.up.push(attributes_side(attrs, Direction::Up));
        r.down.push(attributes_side(attrs, Direction::Down));
        proof {
            assert forall|j: int, dir: Direction| 0 <= j < k + 1 implies #[trigger] r.allowed(dir, j) == attribute_side(variants@[j]@, dir) by {
                if j < k {
                    assert(old_r.allowed(dir, j) == attribute_side(variants@[j]@, dir));
                    assert(r.left@[j] == old_r.left@[j]);
                    assert(r.right@[j] == old_r.right@[j]);
                    assert(r.up@[j] == old_r.up@[j]);
                    assert(r.down@[j] == old_r.down@[j]);
                }
            }
        }
        k += 1;
    }
    r
}

/// One layer of a map drawn in the Tiled editor: `width * height` tile values, row by
/// row; values missing at the end read as `0`.
#[derive(Debug, Clone)]
pub struct TiledLayer {
    pub width: usize,
    pub height: usize,
    pub data: Vec<i64>,
}

/// The number of cells of `l`.
pub open spec fn layer_size(l: TiledLayer) -> int {
    l.width * l.height
}

/// The value of cell `i` of `l`, `0` where the data stops short.
pub open spec fn value_at(l: TiledLayer, i: int) -> i64 {
    if 0 <= i < l.data@.len() {
        l.data@[i]
    } else {
        0
    }
}

/// The cell next to cell `i` of `l` on side `dir`, if it lies inside the layer. Left and
/// right are the neighbouring columns; up is the previous row, down the next one.
pub open spec fn neighbor_offset(l: TiledLayer, dir: Direction, i: int) -> Option<int> {
    let w = l.width as int;
    let h = l.height as int;
    let x = i % w;
    let y = i / w;
    match dir {
        Direction::Left => if x > 0 { Some(i - 1) } else { None },
        Direction::Right => if x + 1 < w { Some(i + 1) } else { None },
        Direction::Up => if y > 0 { Some(i - w) } else { None },
        Direction::Down => if y + 1 < h { Some(i + w) } else { None },
    }
}

/// In `l`, cell `i` holds `a` and its neighbour on side `dir` holds `b`.
pub open spec fn adjacent_at(l: TiledLayer, dir: Direction, i: int, a: i64, b: i64) -> bool {
    &&& 0 <= i < layer_size(l)
    &&& value_at(l, i) == a
    &&& neighbor_offset(l, dir, i) is Some
    &&& value_at(l, neighbor_offset(l, dir, i).unwrap()) == b
}

/// Somewhere in `layers`, `b` sits on side `dir` of `a`.
pub open spec fn adjacent_in(layers: Seq<TiledLayer>, dir: Direction, a: i64, b: i64) -> bool {
    exists|li: int, i: int| 0 <= li < layers.len() && #[trigger] adjacent_at(layers[li], dir, i, a, b)
}

/// The number of the first `n` cells of `l` holding `v`.
pub open spec fn layer_count(l: TiledLayer, v: i64, n: int) -> nat
    decreases n,
{
    if n <= 0 {
        0
    } else {
        layer_count(l, v, n - 1) + (if value_at(l, n - 1) == v {
            1nat
        } else {
            0nat
        })
    }
}

/// The number of cells over all `layers` holding `v`.
pub open spec fn occurrences(layers: Seq<TiledLayer>, v: i64) -> nat
    decreases layers.len(),
{
    if layers.len() == 0 {
        0
    } else {
        occurrences(layers.drop_last(), v) + layer_count(layers.last(), v, layer_size(layers.last()))
    }
}

/// The weight the Tiled rules give a kind of value `v`: how often it occurs, one if never.
pub open spec fn tiled_weight(layers: Seq<TiledLayer>, v: i64) -> int {
    if occurrences(layers, v) > 0 {
        occurrences(layers, v) as int
    } else {
        1
    }
}

/// The occurrences of `v` before cell `i` of layer `li`.
pub open spec fn occurrences_before(layers: Seq<TiledLayer>, v: i64, li: int, i: int) -> int {
    occurrences(layers.take(li), v) + (if li < layers.len() {
        layer_count(layers[li], v, i) as int
    } else {
        0int
    })
}

/// `b` sits on side `dir` of `a` somewhere before cell `i` of layer `li`.
pub open spec fn adjacent_before(layers: Seq<TiledLayer>, dir: Direction, a: i64, b: i64, li: int, i: int) -> bool {
    exists|lj: int, j: int|
        0 <= lj < layers.len() && (lj < li || (lj == li && j < i)) && #[trigger] adjacent_at(
            layers[lj],
            dir,
            j,
            a,
            b,
        )
}

/// The side at position `d` of the order left, right, up, down.
pub open spec fn side_at(d: int) -> Direction {
    if d == 0 {
        Direction::Left
    } else if d == 1 {
        Direction::Right
    } else if d == 2 {
        Direction::Up
    } else {
        Direction::Down
    }
}

/// Values occur at most once in `variants`.
pub open spec fn distinct(variants: Seq<i64>) -> bool {
    forall|a: int, b: int| 0 <= a < variants.len() && 0 <= b < variants.len() && a != b ==> variants[a] != variants[b]
}

proof fn lemma_layer_count_bound(l: TiledLayer, v: i64, n: int, m: int)
    requires
        n <= m,
    ensures
        layer_count(l, v, n) <= layer_count(l, v, m),
    decreases m - n,
{
    if n < m {
        lemma_layer_count_bound(l, v, n, m - 1);
    }
}

proof fn lemma_occurrences_prefix(layers: Seq<TiledLayer>, v: i64, li: int)
    requires
        0 <= li <= layers.len(),
    ensures
        occurrences(layers.take(li), v) <= occurrences(layers, v),
    decreases layers.len() - li,
{
    if li < layers.len() {
        lemma_occurrences_prefix(layers, v, li + 1);
        assert(layers.take(li + 1).drop_last() =~= layers.take(li));
    } else {
        assert(layers.take(li) =~= layers);
    }
}

/// The occurrences before a cell never exceed all occurrences.
proof fn lemma_occurrences_before_bound(layers: Seq<TiledLayer>, v: i64, li: int, i: int)
    requires
        0 <= li < layers.len(),
        0 <= i <= layer_size(layers[li]),
    ensures
        occurrences_before(layers, v, li, i) <= occurrences(layers, v),
        occurrences_before(layers, v, li, layer_size(layers[li])) == occurrences_before(layers, v, li + 1, 0),
{
    lemma_layer_count_bound(layers[li], v, i, layer_size(layers[li]));
    assert(layers.take(li + 1).drop_last() =~= layers.take(li));
    assert(layers.take(li + 1).last() == layers[li]);
    lemma_occurrences_prefix(layers, v, li + 1);
}

/// Moving past one cell adds that cell's adjacency.
proof fn lemma_adjacent_before_step(layers: Seq<TiledLayer>, dir: Direction, a: i64, b: i64, li: int, i: int)
    requires
        0 <= li < layers.len(),
        0 <= i,
    ensures
        adjacent_before(layers, dir, a, b, li, i + 1) == (adjacent_before(layers, dir, a, b, li, i)
            || adjacent_at(layers[li], dir, i, a, b)),
{
    if adjacent_before(layers, dir, a, b, li, i + 1) {
        let (lj, j) = choose|lj: int, j: int|
            0 <= lj < layers.len() && (lj < li || (lj == li && j < i + 1)) && #[trigger] adjacent_at(
                layers[lj],
                dir,
                j,
                a,
                b,
            );
        if !(lj == li && j == i) {
            assert(adjacent_before(layers, dir, a, b, li, i));
        }
    }
    if adjacent_at(layers[li], dir, i, a, b) {
        assert(adjacent_before(layers, dir, a, b, li, i + 1));
    }
}

/// Passing the end of a layer is starting the next one.
proof fn lemma_adjacent_before_layer(layers: Seq<TiledLayer>, dir: Direction, a: i64, b: i64, li: int)
    requires
        0 <= li < layers.len(),
    ensures
        adjacent_before(layers, dir, a, b, li, layer_size(layers[li])) == adjacent_before(
            layers,
            dir,
            a,
            b,
            li + 1,
            0,
        ),
{
    if adjacent_before(layers, dir, a, b, li + 1, 0) {
        let (lj, j) = choose|lj: int, j: int|
            0 <= lj < layers.len() && (lj < li + 1 || (lj == li + 1 && j < 0)) && #[trigger] adjacent_at(
                layers[lj],
                dir,
                j,
                a,
                b,
            );
        assert(adjacent_before(layers, dir, a, b, li, layer_size(layers[li])));
    }
}

/// The position of `v` in `variants`, if it is there.
fn lookup(variants: &Vec<i64>, v: i64) -> (r: Option<usize>)
    requires
        distinct(variants@),
    ensures
        r matches Some(k) ==> k < variants@.len() && variants@[k as int] == v,
        r is None ==> forall|k: int| 0 <= k < variants@.len() ==> variants@[k] != v,
{
    let mut k: usize = 0;
    while k < variants.len()
        invariant
            k <= variants@.len(),
            forall|j: int| 0 <= j < k ==> variants@[j] != v,
        decreases variants@.len() - k,
    {
        if variants[k] == v {
            return Some(k);
        }
        k += 1;
    }
    None
}

/// The value of cell `i` of `layer`.
fn layer_value(layer: &TiledLayer, i: usize) -> (r: i64)
    ensures
        r == value_at(*layer, i as int),
{
    if i < layer.data.len() {
        layer.data[i]
    } else {
        0
    }
}

/// The cell next to cell `i` of `layer` on side `side_at(d)`.
fn layer_neighbor(layer: &TiledLayer, d: usize, i: usize) -> (r: Option<usize>)
    requires
        d < 4,
        i < layer_size(*layer),
        layer_size(*layer) <= usize::MAX,
    ensures
        r matches Some(j) ==> neighbor_offset(*layer, side_at(d as int), i as int) == Some(j as int)
            && j < layer_size(*layer),
        r is None ==> neighbor_offset(*layer, side_at(d as int), i as int) is None,
{
    let w = layer.width;
    let h = layer.height;
    proof {
        if w == 0 {
            assert(layer.width * layer.height == 0);
        }
    }
    let x = i % w;
    let y = i / w;
    proof {
        vstd::arithmetic::div_mod::lemma_fundamental_div_mod(i as int, w as int);
        vstd::arithmetic::div_mod::lemma_mod_bound(i as int, w as int);
        let yy = y as int;
        let ww = w as int;
        let hh = h as int;
        let xx = x as int;
        let ii = i as int;
        assert(ii == ww * yy + xx);
        assert(0 <= xx < ww);
        assert(yy < hh && ww * yy + ww <= ww * hh) by (nonlinear_arith)
            requires
                ww * yy + xx < ww * hh,
                0 <= xx,
                ww > 0,
                yy >= 0,
        ;
        if y > 0 {
            assert(ww * yy >= ww) by (nonlinear_arith)
                requires
                    yy >= 1,
                    ww > 0,
            ;
        }
        if y + 1 < h {
            assert(ww * yy + xx + ww < ww * hh) by (nonlinear_arith)
                requires
                    yy + 2 <= hh,
                    0 <= xx < ww,
                    ww > 0,
            ;
        }
    }
    if d == 0 {
        if x > 0 { Some(i - 1) } else { None }
    } else if d == 1 {
        if x + 1 < w { Some(i + 1) } else { None }
    } else if d == 2 {
        if y > 0 { Some(i - w) } else { None }
    } else {
        if y + 1 < h { Some(i + w) } else { None }
    }
}

/// An `n` by `n` table of `false`, four times over.
fn empty_tables(n: usize) -> (r: Vec<Vec<Vec<bool>>>)
    ensures
        r@.len() == 4,
        forall|d: int| 0 <= d < 4 ==> #[trigger] r@[d]@.len() == n,
        forall|d: int, a: int| 0 <= d < 4 && 0 <= a < n ==> #[trigger] r@[d]@[a]@.len() == n,
        forall|d: int, a: int, b: int|
            0 <= d < 4 && 0 <= a < n && 0 <= b < n ==> !#[trigger] r@[d]@[a]@[b],
{
    let mut tables: Vec<Vec<Vec<bool>>> = Vec::new();
    let mut d: usize = 0;
    while d < 4
        invariant
            d <= 4,
            tables@.len() == d,
            forall|e: int| 0 <= e < d ==> #[trigger] tables@[e]@.len() == n,
            forall|e: int, a: int| 0 <= e < d && 0 <= a < n ==> #[trigger] tables@[e]@[a]@.len() == n,
            forall|e: int, a: int, b: int|
                0 <= e < d && 0 <= a < n && 0 <= b < n ==> !#[trigger] tables@[e]@[a]@[b],
        decreases 4 - d,
    {
        let mut table: Vec<Vec<bool>> = Vec::new();
        let mut a: usize = 0;
        while a < n
            invariant
                a <= n,
                table@.len() == a,
                forall|c: int| 0 <= c < a ==> #[trigger] table@[c]@.len() == n,
                forall|c: int, b: int| 0 <= c < a && 0 <= b < n ==> !#[trigger] table@[c]@[b],
            decreases n - a,
        {
            let mut row: Vec<bool> = Vec::new();
            let mut b: usize = 0;
            while b < n
                invariant
                    b <= n,
                    row@.len() == b,
                    forall|c: int| 0 <= c < b ==> !#[trigger] row@[c],
                decreases n - b,
            {
                row.push(false);
                b += 1;
            }
            table.push(row);
            a += 1;
        }
        tables.push(table);
        d += 1;
    }
    tables
}

/// The kinds marked in row `a` of `table`, in increasing order.
fn marked(table: &Vec<Vec<bool>>, a: usize, n: usize) -> (r: Vec<usize>)
    requires
        a < table@.len(),
        table@[a as int]@.len() == n,
    ensures
        forall|b: int| 0 <= b < n ==> (r@.contains(b as usize) <==> table@[a as int]@[b]),
        forall|k: int| 0 <= k < r@.len() ==> #[trigger] r@[k] < n,
        forall|k: int, m: int| 0 <= k < m < r@.len() ==> r@[k] < r@[m],
{
    let mut r: Vec<usize> = Vec::new();
    let mut b: usize = 0;
    while b < n
        invariant
            b <= n,
            a < table@.len(),
            table@[a as int]@.len() == n,
            forall|c: int| 0 <= c < n ==> (r@.contains(c as usize) <==> (c < b && table@[a as int]@[c])),
            forall|k: int| 0 <= k < r@.len() ==> #[trigger] r@[k] < b,
            forall|k: int, m: int| 0 <= k < m < r@.len() ==> r@[k] < r@[m],
        decreases n - b,
    {
        let ghost old_r = r@;
        if table[a][b] {
            r.push(b);
            proof {
                assert forall|c: int| 0 <= c < n implies (r@.contains(c as usize) <==> (c < b + 1
                    && table@[a as int]@[c])) by {
                    if c == b {
                        assert(r@[r@.len() - 1] == b);
                    } else {
                        if r@.contains(c as usize) {
                            let k = choose|k: int| 0 <= k < r@.len() && r@[k] == c as usize;
                            assert(k < r@.len() - 1);
                            assert(old_r[k] == c as usize);
                        }
                        if c < b && table@[a as int]@[c] {
                            assert(old_r.contains(c as usize));
                            let k = choose|k: int| 0 <= k < old_r.len() && old_r[k] == c as usize;
                            assert(r@[k] == c as usize);
                        }
                    }
                }
            }
        }
        b += 1;
    }
    r
}

/// The rules a map drawn in Tiled shows, for the kinds whose values are `variants` in
/// declaration order: a kind weighs as many cells as hold its value (one if none do),
/// and a kind may sit on a side of another exactly where some layer has it there.
pub fn rules_from_tiled(variants: &Vec<i64>, layers: &Vec<TiledLayer>) -> (r: TileRules)
    requires
        distinct(variants@),
        forall|li: int| 0 <= li < layers@.len() ==> layer_size(#[trigger] layers@[li]) <= usize::MAX,
        forall|v: i64| #[trigger] occurrences(layers@, v) <= u16::MAX,
    ensures
        r.has_kinds(variants@.len()),
        forall|k: int| 0 <= k < variants@.len() ==> #[trigger] r.weights@[k] == tiled_weight(layers@, variants@[k]),
        forall|k: int, dir: Direction, j: int|
            0 <= k < variants@.len() && 0 <= j < variants@.len() ==> (#[trigger] r.allowed(dir, k).contains(j as usize)
                <==> adjacent_in(layers@, dir, variants@[k], variants@[j])),
        forall|k: int, dir: Direction, m: int|
            0 <= k < variants@.len() && 0 <= m < r.allowed(dir, k).len() ==> #[trigger] r.allowed(dir, k)[m]
                < variants@.len(),
        forall|k: int, dir: Direction, m1: int, m2: int|
            0 <= k < variants@.len() && 0 <= m1 < m2 < r.allowed(dir, k).len() ==> #[trigger] r.allowed(dir, k)[m1]
                < #[trigger] r.allowed(dir, k)[m2],
{
    let n = variants.len();
    let ghost vs = variants@;
    let ghost ls = layers@;
    let mut counts: Vec<u16> = Vec::new();
    let mut k: usize = 0;
    while k < n
        invariant
            k <= n,
            n == vs.len(),
            counts@.len() == k,
            forall|j: int| 0 <= j < k ==> #[trigger] counts@[j] == 0,
        decreases n - k,
    {
        counts.push(0);
        k += 1;
    }
    let mut tables = empty_tables(n);
    proof {
        assert(ls.take(0) =~= Seq::<TiledLayer>::empty());
    }
    let mut li: usize = 0;
    while li < layers.len()
        invariant
            li <= ls.len(),
            n == vs.len(),
            vs == variants@,
            ls == layers@,
            distinct(vs),
            forall|lj: int| 0 <= lj < ls.len() ==> layer_size(#[trigger] ls[lj]) <= usize::MAX,
            forall|v: i64| #[trigger] occurrences(ls, v) <= u16::MAX,
            counts@.len() == n,
            forall|j: int| 0 <= j < n ==> #[trigger] counts@[j] == occurrences_before(ls, vs[j], li as int, 0),
            tables@.len() == 4,
            forall|d: int| 0 <= d < 4 ==> #[trigger] tables@[d]@.len() == n,
            forall|d: int, a: int| 0 <= d < 4 && 0 <= a < n ==> #[trigger] tables@[d]@[a]@.len() == n,
            forall|d: int, a: int, b: int|
                0 <= d < 4 && 0 <= a < n && 0 <= b < n ==> #[trigger] tables@[d]@[a]@[b] == adjacent_before(
                    ls,
                    side_at(d),
                    vs[a],
                    vs[b],
                    li as int,
                    0,
                ),
        decreases ls.len() - li,
    {
        let layer = &layers[li];
        let size = layer.width * layer.height;
        let mut i: usize = 0;
        while i < size
            invariant
                li < ls.len(),
                i <= size,
                size == layer_size(ls[li as int]),
                *layer == ls[li as int],
                n == vs.len(),
                vs == variants@,
                distinct(vs),
                forall|v: i64| #[trigger] occurrences(ls, v) <= u16::MAX,
                layer_size(ls[li as int]) <= usize::MAX,
                counts@.len() == n,
                forall|j: int| 0 <= j < n ==> #[trigger] counts@[j] == occurrences_before(ls, vs[j], li as int, i as int),
                tables@.len() == 4,
                forall|d: int| 0 <= d < 4 ==> #[trigger] tables@[d]@.len() == n,
                forall|d: int, a: int| 0 <= d < 4 && 0 <= a < n ==> #[trigger] tables@[d]@[a]@.len() == n,
                forall|d: int, a: int, b: int|
                    0 <= d < 4 && 0 <= a < n && 0 <= b < n ==> #[trigger] tables@[d]@[a]@[b] == adjacent_before(
                        ls,
                        side_at(d),
                        vs[a],
                        vs[b],
                        li as int,
                        i as int,
                    ),
            decreases size - i,
        {
            let value = layer_value(layer, i);
            match lookup(variants, value) {
                Some(ka) => {
                    proof {
                        lemma_occurrences_before_bound(ls, value, li as int, i + 1);
                    }
                    let c = counts[ka] + 1;
                    counts.set(ka, c);
                    let mut d: usize = 0;
                    while d < 4
                        invariant
                            d <= 4,
                            li < ls.len(),
                            i < size,
                            size == layer_size(ls[li as int]),
                            *layer == ls[li as int],
                            n == vs.len(),
                            vs == variants@,
                            distinct(vs),
                            ka < n,
                            vs[ka as int] == value,
                            value == value_at(ls[li as int], i as int),
                            layer_size(ls[li as int]) <= usize::MAX,
                            tables@.len() == 4,
                            forall|e: int| 0 <= e < 4 ==> #[trigger] tables@[e]@.len() == n,
                            forall|e: int, a: int| 0 <= e < 4 && 0 <= a < n ==> #[trigger] tables@[e]@[a]@.len() == n,
                            forall|e: int, a: int, b: int|
                                0 <= e < 4 && 0 <= a < n && 0 <= b < n ==> #[trigger] tables@[e]@[a]@[b] == (if e < d {
                                    adjacent_before(ls, side_at(e), vs[a], vs[b], li as int, i + 1)
                                } else {
                                    adjacent_before(ls, side_at(e), vs[a], vs[b], li as int, i as int)
                                }),
                        decreases 4 - d,
                    {
                        let ghost before = tables@;
                        let neighbor = layer_neighbor(layer, d, i);
                        let mut marked_kb: Option<usize> = None;
                        if let Some(j) = neighbor {
                            let nb = layer_value(layer, j);
                            if let Some(kb) = lookup(variants, nb) {
                                tables[d][ka].set(kb, true);
                                marked_kb = Some(kb);
                            }
                        }
                        proof {
                            let l = ls[li as int];
                            let dir = side_at(d as int);
                            assert forall|e: int, a: int, b: int|
                                0 <= e < 4 && 0 <= a < n && 0 <= b < n implies #[trigger] tables@[e]@[a]@[b] == (if e < d + 1 {
                                    adjacent_before(ls, side_at(e), vs[a], vs[b], li as int, i + 1)
                                } else {
                                    adjacent_before(ls, side_at(e), vs[a], vs[b], li as int, i as int)
                                }) by {
                                if e == d {
                                    lemma_adjacent_before_step(ls, dir, vs[a], vs[b], li as int, i as int);
                                    let hit = adjacent_at(l, dir, i as int, vs[a], vs[b]);
                                    if hit {
                                        assert(a == ka);
                                        let j = neighbor_offset(l, dir, i as int).unwrap();
                                        assert(neighbor == Some(j as usize));
                                        assert(marked_kb == Some(b as usize));
                                    } else {
                                        if let Some(kb) = marked_kb {
                                            if a == ka && b == kb {
                                                assert(hit);
                                            }
                                        }
                                        assert(tables@[e]@[a]@[b] == before[e]@[a]@[b]);
                                    }
                                } else {
                                    assert(tables@[e]@[a]@[b] == before[e]@[a]@[b]);
                                }
                            }
                        }
                        d += 1;
                    }
                    proof {
                        assert forall|j: int| 0 <= j < n implies #[trigger] counts@[j] == occurrences_before(
                            ls,
                            vs[j],
                            li as int,
                            i + 1,
                        ) by {
                            if j != ka {
                                assert(vs[j] != value);
                            }
                        }
                    }
                },
                None => {
                    proof {
                        let l = ls[li as int];
                        assert forall|e: int, a: int, b: int|
                            0 <= e < 4 && 0 <= a < n && 0 <= b < n implies #[trigger] tables@[e]@[a]@[b] == adjacent_before(
                                ls,
                                side_at(e),
                                vs[a],
                                vs[b],
                                li as int,
                                i + 1,
                            ) by {
                            lemma_adjacent_before_step(ls, side_at(e), vs[a], vs[b], li as int, i as int);
                        }
                    }
                },
            }
            i += 1;
        }
        proof {
            assert forall|j: int| 0 <= j < n implies #[trigger] counts@[j] == occurrences_before(
                ls,
                vs[j],
                li + 1,
                0,
            ) by {
                lemma_occurrences_before_bound(ls, vs[j], li as int, size as int);
            }
            assert forall|e: int, a: int, b: int|
                0 <= e < 4 && 0 <= a < n && 0 <= b < n implies #[trigger] tables@[e]@[a]@[b] == adjacent_before(
                    ls,
                    side_at(e),
                    vs[a],
                    vs[b],
                    li + 1,
                    0,
                ) by {
                lemma_adjacent_before_layer(ls, side_at(e), vs[a], vs[b], li as int);
            }
        }
        li += 1;
    }
    proof {
        assert(ls.take(ls.len() as int) =~= ls);
    }
    let mut r = TileRules { weights: Vec::new(), left: Vec::new(), right: Vec::new(), up: Vec::new(), down: Vec::new() };
    let mut k: usize = 0;
    while k < n
        invariant
            k <= n,
            n == vs.len(),
            vs == variants@,
            ls == layers@,
            counts@.len() == n,
            forall|j: int| 0 <= j < n ==> #[trigger] counts@[j] == occurrences(ls, vs[j]),
            tables@.len() == 4,
            forall|d: int| 0 <= d < 4 ==> #[trigger] tables@[d]@.len() == n,
            forall|d: int, a: int| 0 <= d < 4 && 0 <= a < n ==> #[trigger] tables@[d]@[a]@.len() == n,
            forall|d: int, a: int, b: int|
                0 <= d < 4 && 0 <= a < n && 0 <= b < n ==> #[trigger] tables@[d]@[a]@[b] == adjacent_in(
                    ls,
                    side_at(d),
                    vs[a],
                    vs[b],
                ),
            r.has_kinds(k as nat),
            forall|j: int| 0 <= j < k ==> #[trigger] r.weights@[j] == tiled_weight(ls, vs[j]),
            forall|j: int, dir: Direction, b: int|
                0 <= j < k && 0 <= b < n ==> (#[trigger] r.allowed(dir, j).contains(b as usize)
                    <==> adjacent_in(ls, dir, vs[j], vs[b])),
            forall|j: int, dir: Direction, m: int|
                0 <= j < k && 0 <= m < r.allowed(dir, j).len() ==> #[trigger] r.allowed(dir, j)[m] < n,
            forall|j: int, dir: Direction, m1: int, m2: int|
                0 <= j < k && 0 <= m1 < m2 < r.allowed(dir, j).len() ==> #[trigger] r.allowed(dir, j)[m1]
                    < #[trigger] r.allowed(dir, j)[m2],
        decreases n - k,
    {
        let ghost old_r = r;
        let weight = if counts[k] > 0 { counts[k] } else { 1 };
        r.weights.push(weight);
        r.left.push(marked(&tables[0], k, n));
        r.right.push(marked(&tables[1], k, n));
        r.up.push(marked(&tables[2], k, n));
        r.down.push(marked(&tables[3], k, n));
        proof {
            assert(side_at(0) == Direction::Left);
            assert(side_at(1) == Direction::Right);
            assert(side_at(2) == Direction::Up);
            assert(side_at(3) == Direction::Down);
            assert forall|j: int, dir: Direction|
                0 <= j < k + 1 implies #[trigger] r.allowed(dir, j) == (if j < k {
                    old_r.allowed(dir, j)
                } else {
                    r.allowed(dir, j)
                }) by {
                if j < k {
                    assert(r.left@[j] == old_r.left@[j]);
                    assert(r.right@[j] == old_r.right@[j]);
                    assert(r.up@[j] == old_r.up@[j]);
                    assert(r.down@[j] == old_r.down@[j]);
                }
            }
            assert forall|j: int, dir: Direction, b: int|
                0 <= j < k + 1 && 0 <= b < n implies (#[trigger] r.allowed(dir, j).contains(b as usize)
                    <==> adjacent_in(ls, dir, vs[j], vs[b])) by {
                if j == k {
                    match dir {
                        Direction::Left => assert(tables@[0]@[j]@[b] == adjacent_in(ls, side_at(0), vs[j], vs[b])),
                        Direction::Right => assert(tables@[1]@[j]@[b] == adjacent_in(ls, side_at(1), vs[j], vs[b])),
                        Direction::Up => assert(tables@[2]@[j]@[b] == adjacent_in(ls, side_at(2), vs[j], vs[b])),
                        Direction::Down => assert(tables@[3]@[j]@[b] == adjacent_in(ls, side_at(3), vs[j], vs[b])),
                    }
                }
            }
        }
        k += 1;
    }
    r
}

/// Cell `i + 1` is the right-hand neighbour of cell `i` exactly when cell `i` is the
/// left-hand neighbour of cell `i + 1`; likewise for cells one row apart.
proof fn lemma_neighbor_pairs(l: TiledLayer, i: int)
    requires
        0 <= i,
    ensures
        (0 <= i < layer_size(l) && neighbor_offset(l, Direction::Right, i) == Some(i + 1)) <==> (0 <= i + 1
            < layer_size(l) && neighbor_offset(l, Direction::Left, i + 1) == Some(i)),
        (0 <= i < layer_size(l) && neighbor_offset(l, Direction::Down, i) == Some(i + l.width)) <==> (0 <= i
            + l.width < layer_size(l) && neighbor_offset(l, Direction::Up, i + l.width) == Some(i)),
{
    let w = l.width as int;
    let h = l.height as int;
    if w > 0 {
        vstd::arithmetic::div_mod::lemma_fundamental_div_mod(i, w);
        vstd::arithmetic::div_mod::lemma_mod_bound(i, w);
        vstd::arithmetic::div_mod::lemma_fundamental_div_mod(i + 1, w);
        vstd::arithmetic::div_mod::lemma_mod_bound(i + 1, w);
        let x = i % w;
        let y = i / w;
        assert(w * (y + 1) == w * y + w) by (nonlinear_arith);
        assert(y * w == w * y) by (nonlinear_arith);
        assert((y + 1) * w == w * y + w) by (nonlinear_arith);
        if x + 1 < w {
            vstd::arithmetic::div_mod::lemma_fundamental_div_mod_converse(i + 1, w, y, x + 1);
        } else {
            vstd::arithmetic::div_mod::lemma_fundamental_div_mod_converse(i + 1, w, y + 1, 0);
        }
        vstd::arithmetic::div_mod::lemma_fundamental_div_mod_converse(i + w, w, y + 1, x);
        assert(0 <= y) by {
            vstd::arithmetic::div_mod::lemma_div_pos_is_pos(i, w);
        }
        assert((w * y + x < w * h) <==> (y < h)) by (nonlinear_arith)
            requires
                0 <= x < w,
                0 <= y,
        ;
        assert((w * y + w + x < w * h) <==> (y + 1 < h)) by (nonlinear_arith)
            requires
                0 <= x < w,
                0 <= y,
        ;
        if x + 1 < w {
            assert((w * y + x + 1 < w * h) <==> (y < h)) by (nonlinear_arith)
                requires
                    0 <= x,
                    x + 1 < w,
                    0 <= y,
            ;
        }
    } else {
        assert(w * h == 0) by (nonlinear_arith)
            requires
                w == 0,
        ;
    }
}

/// Law: in rules read from Tiled, `b` may sit to the right of `a` exactly when `a` may sit
/// to the left of `b`, and `b` may sit below `a` exactly when `a` may sit above `b`.
pub proof fn law_tiled_adjacency_symmetric(layers: Seq<TiledLayer>, a: i64, b: i64)
    ensures
        adjacent_in(layers, Direction::Right, a, b) == adjacent_in(layers, Direction::Left, b, a),
        adjacent_in(layers, Direction::Down, a, b) == adjacent_in(layers, Direction::Up, b, a),
{
    if adjacent_in(layers, Direction::Right, a, b) {
        let (li, i) = choose|li: int, i: int| 0 <= li < layers.len() && #[trigger] adjacent_at(layers[li], Direction::Right, i, a, b);
        lemma_neighbor_pairs(layers[li], i);
        assert(adjacent_at(layers[li], Direction::Left, i + 1, b, a));
    }
    if adjacent_in(layers, Direction::Left, b, a) {
        let (li, i) = choose|li: int, i: int| 0 <= li < layers.len() && #[trigger] adjacent_at(layers[li], Direction::Left, i, b, a);
        let w = layers[li].width as int;
        if i == 0 {
            vstd::arithmetic::div_mod::lemma_small_mod(0, w as nat);
        }
        lemma_neighbor_pairs(layers[li], i - 1);
        assert(adjacent_at(layers[li], Direction::Right, i - 1, a, b));
    }
    if adjacent_in(layers, Direction::Down, a, b) {
        let (li, i) = choose|li: int, i: int| 0 <= li < layers.len() && #[trigger] adjacent_at(layers[li], Direction::Down, i, a, b);
        lemma_neighbor_pairs(layers[li], i);
        assert(adjacent_at(layers[li], Direction::Up, i + layers[li].width, b, a));
    }
    if adjacent_in(layers, Direction::Up, b, a) {
        let (li, i) = choose|li: int, i: int| 0 <= li < layers.len() && #[trigger] adjacent_at(layers[li], Direction::Up, i, b, a);
        let w = layers[li].width as int;
        vstd::arithmetic::div_mod::lemma_fundamental_div_mod(i, w);
        vstd::arithmetic::div_mod::lemma_mod_bound(i, w);
        let y = i / w;
        assert(w * y >= w) by (nonlinear_arith)
            requires
                y >= 1,
                w > 0,
        ;
        lemma_neighbor_pairs(layers[li], i - w);
        assert(adjacent_at(layers[li], Direction::Down, i - w, a, b));
    }
}

/// Law: the rules `rules_from_tiled` gives are symmetric: kind `j` may sit to the right of
/// kind `k` exactly when `k` may sit to the left of `j`, and below it exactly when `k` may
/// sit above `j`.
pub proof fn law_tiled_rules_symmetric(variants: Seq<i64>, layers: Seq<TiledLayer>, r: TileRules, k: int, j: int)
    requires
        0 <= k < variants.len(),
        0 <= j < variants.len(),
        forall|k2: int, dir: Direction, j2: int|
            0 <= k2 < variants.len() && 0 <= j2 < variants.len() ==> (#[trigger] r.allowed(dir, k2).contains(
                j2 as usize,
            ) <==> adjacent_in(layers, dir, variants[k2], variants[j2])),
    ensures
        r.allowed(Direction::Right, k).contains(j as usize) == r.allowed(Direction::Left, j).contains(k as usize),
        r.allowed(Direction::Down, k).contains(j as usize) == r.allowed(Direction::Up, j).contains(k as usize),
{
    law_tiled_adjacency_symmetric(layers, variants[k], variants[j]);
    assert(r.allowed(Direction::Right, k).contains(j as usize) == adjacent_in(layers, Direction::Right, variants[k], variants[j]));
    assert(r.allowed(Direction::Left, j).contains(k as usize) == adjacent_in(layers, Direction::Left, variants[j], variants[k]));
    assert(r.allowed(Direction::Down, k).contains(j as usize) == adjacent_in(layers, Direction::Down, variants[k], variants[j]));
    assert(r.allowed(Direction::Up, j).contains(k as usize) == adjacent_in(layers, Direction::Up, variants[j], variants[k]));
}

} // verus!
