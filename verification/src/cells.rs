//! The per-cell baseline grid: one enum-tagged tile per storage slot,
//! addressed by `(x, y)` with horizontal wraparound computed by modulo on
//! lookup. It walks a path by repeated coordinate addition and counts
//! matches by direct comparison — the correctness oracle for the bit-packed
//! implementation.

use vstd::arithmetic::div_mod::{
    lemma_fundamental_div_mod, lemma_fundamental_div_mod_converse, lemma_mod_bound,
    lemma_small_mod,
};
use vstd::prelude::*;

use crate::error::ParseError;
use crate::packed;

verus! {

/// One grid cell.
#[derive(Clone, Copy, Debug, PartialEq, Eq, Structural)]
pub enum Tile {
    Open,
    Tree,
}

impl Default for Tile {
    /// An unset cell is open ground.
    fn default() -> (t: Tile)
        ensures
            t == Tile::Open,
    {
        Tile::Open
    }
}

impl Tile {
    /// The tile a character denotes: `.` is open ground, `#` is a tree.
    pub fn try_from(c: char) -> (r: Result<Tile, ParseError>)
        ensures
            r == if c == '.' {
                Ok::<Tile, ParseError>(Tile::Open)
            } else if c == '#' {
                Ok::<Tile, ParseError>(Tile::Tree)
            } else {
                Err::<Tile, ParseError>(ParseError::InvalidCharacterError { character: c })
            },
    {
        match c {
            '.' => Ok(Tile::Open),
            '#' => Ok(Tile::Tree),
            _ => Err(ParseError::InvalidCharacterError { character: c }),
        }
    }
}

/// A grid position or step, `x` columns and `y` rows.
#[derive(Clone, Copy, Debug, PartialEq, Eq, Structural)]
pub struct Coord {
    pub x: usize,
    pub y: usize,
}

impl From<(usize, usize)> for Coord {
    /// A pair `(x, y)` names the same position.
    fn from(pair: (usize, usize)) -> (r: Coord) {
        Coord { x: pair.0, y: pair.1 }
    }
}

impl vstd::std_specs::convert::FromSpecImpl<(usize, usize)> for Coord {
    open spec fn obeys_from_spec() -> bool {
        true
    }

    open spec fn from_spec(pair: (usize, usize)) -> Coord {
        Coord { x: pair.0, y: pair.1 }
    }
}

/// A rectangular field of tiles, row-major, with horizontal wraparound.
#[derive(Debug)]
pub struct Grid {
    size: Coord,
    tiles: Vec<Tile>,
}

impl Grid {
    /// Columns per row.
    pub closed spec fn spec_width(&self) -> int {
        self.size.x as int
    }

    /// Number of rows.
    pub closed spec fn spec_height(&self) -> int {
        self.size.y as int
    }

    /// The tiles, row-major.
    pub closed spec fn tiles_seq(&self) -> Seq<Tile> {
        self.tiles@
    }

    /// Structural invariant: one tile per cell.
    pub open spec fn wf(&self) -> bool {
        self.tiles_seq().len() == self.spec_width() * self.spec_height()
    }

    /// Tile at `(x, y)`, with `x` wrapped modulo the width.
    pub open spec fn spec_tile(&self, x: int, y: int) -> Tile {
        self.tiles_seq()[y * self.spec_width() + x % self.spec_width()]
    }

    /// A grid of the given size with every cell open.
    pub fn new(size: Coord) -> (g: Grid)
        requires
            size.x * size.y <= usize::MAX,
        ensures
            g.wf(),
            g.spec_width() == size.x,
            g.spec_height() == size.y,
            forall|i: int| 0 <= i < g.tiles_seq().len() ==> g.tiles_seq()[i] == Tile::Open,
    {
        let n = size.x * size.y;
        let mut tiles: Vec<Tile> = Vec::new();
        while tiles.len() < n
            invariant
                tiles@.len() <= n,
                forall|i: int| 0 <= i < tiles@.len() ==> tiles@[i] == Tile::Open,
            decreases n - tiles.len(),
        {
            tiles.push(Tile::Open);
        }
        Grid { size, tiles }
    }

    /// Flat index of `(x, y)`: `y * width + x % width`.
    fn index(&self, coord: Coord) -> (i: usize)
        requires
            self.wf(),
            self.spec_width() >= 1,
            coord.y < self.spec_height(),
        ensures
            i == coord.y * self.spec_width() + coord.x as int % self.spec_width(),
            i < self.tiles_seq().len(),
    {
        let total = self.tiles.len();
        proof {
            lemma_index_in_range(
                self.spec_width(),
                self.spec_height(),
                coord.x as int,
                coord.y as int,
            );
            assert(total as int == self.spec_width() * self.spec_height());
        }
        coord.y * self.size.x + coord.x % self.size.x
    }

    /// The tile at a coordinate, wrapping horizontally.
    pub fn get(&self, coord: Coord) -> (t: Tile)
        requires
            self.wf(),
            self.spec_width() >= 1,
            coord.y < self.spec_height(),
        ensures
            t == self.spec_tile(coord.x as int, coord.y as int),
    {
        let i = self.index(coord);
        self.tiles[i]
    }

    /// Replaces the tile at a coordinate, wrapping horizontally.
    pub fn set(&mut self, coord: Coord, tile: Tile)
        requires
            old(self).wf(),
            old(self).spec_width() >= 1,
            coord.y < old(self).spec_height(),
        ensures
            final(self).wf(),
            final(self).spec_width() == old(self).spec_width(),
            final(self).spec_height() == old(self).spec_height(),
            final(self).tiles_seq() == old(self).tiles_seq().update(
                coord.y * old(self).spec_width() + coord.x as int % old(self).spec_width(),
                tile,
            ),
    {
        let i = self.index(coord);
        self.tiles[i] = tile;
        proof {
            assert(self.tiles@ =~= old(self).tiles_seq().update(i as int, tile));
        }
    }

    /// A route over this grid with the given step.
    pub fn route(&self, step: Coord) -> (r: Route)
        ensures
            r.size.x == self.spec_width(),
            r.size.y == self.spec_height(),
            r.step == step,
            r.coord == (Coord { x: 0, y: 0 }),
    {
        Route::new(self.size, step)
    }
}

/// `y * w + x % w` addresses a cell of a `w`-by-`h` grid.
proof fn lemma_index_in_range(w: int, h: int, x: int, y: int)
    requires
        1 <= w,
        0 <= x,
        0 <= y < h,
    ensures
        0 <= y * w,
        0 <= x % w < w,
        y * w + x % w < w * h,
{
    lemma_mod_bound(x, w);
    assert(y * w + x % w < w * h) by (nonlinear_arith)
        requires
            0 <= y < h,
            1 <= w,
            0 <= x % w < w,
    ;
    assert(0 <= y * w) by (nonlinear_arith)
        requires
            0 <= y,
            1 <= w,
    ;
}

impl Grid {
    /// Parses a grid from text, with the same symbols, line discipline and
    /// error order as the bit-packed parser: the first line fixes the
    /// width, each `#` becomes a tree. The packed parser does the text
    /// work; this grid stores the same field one tile per cell.
    pub fn from_str(s: &str) -> (r: Result<Grid, ParseError>)
        requires
            4 * s@.len() + 1024 <= usize::MAX as int,
        ensures
            ({
                let lines = crate::text::line_split(s@);
                let stride0 = packed::stride_of(lines);
                match r {
                    Ok(g) => {
                        &&& packed::lines_error(lines, stride0) is None
                        &&& g.wf()
                        &&& g.spec_width() == stride0
                        &&& g.spec_height() == lines.len()
                        &&& forall|x: int, y: int|
                            0 <= x < stride0 && 0 <= y < lines.len() ==> g.spec_tile(x, y) == (
                            if lines[y][x] == '#' {
                                Tile::Tree
                            } else {
                                Tile::Open
                            })
                    },
                    Err(e) => packed::lines_error(lines, stride0) == Some(e),
                }
            }),
    {
        let p = match packed::Grid::from_str(s) {
            Ok(p) => p,
            Err(e) => {
                return Err(e);
            },
        };
        let w = p.stride();
        let h = p.rows();
        proof {
            assert(p.wf());
            assert(p.spec_cursor() == h as int * w as int);
            assert(w as int * h as int == h as int * w as int) by (nonlinear_arith);
            assert(w as int * h as int <= usize::MAX as int);
        }
        let mut b = Grid::new(Coord { x: w, y: h });
        let mut y: usize = 0;
        let mut base: usize = 0;
        while y < h
            invariant
                b.wf(),
                b.spec_width() == w as int,
                b.spec_height() == h as int,
                p.wf(),
                w as int == p.spec_stride(),
                h as int == p.spec_rows(),
                y <= h,
                base as int == y as int * w as int,
                b.tiles_seq().len() == w as int * h as int,
                forall|i: int|
                    0 <= i < base as int ==> b.tiles_seq()[i] == (if p.bit(i) {
                        Tile::Tree
                    } else {
                        Tile::Open
                    }),
                forall|i: int| base as int <= i < b.tiles_seq().len() ==> b.tiles_seq()[i]
                    == Tile::Open,
            decreases h - y,
        {
            proof {
                assert((y as int + 1) * w as int == y as int * w as int + w as int)
                    by (nonlinear_arith);
                assert((y as int + 1) * w as int <= h as int * w as int) by (nonlinear_arith)
                    requires
                        y as int + 1 <= h as int,
                        0 <= w as int,
                ;
                assert(h as int * w as int == w as int * h as int) by (nonlinear_arith);
                assert(h as int * w as int == p.spec_cursor());
                assert(w as int * h as int <= usize::MAX as int);
            }
            let mut x: usize = 0;
            while x < w
                invariant
                    b.wf(),
                    b.spec_width() == w as int,
                    b.spec_height() == h as int,
                    p.wf(),
                    w as int == p.spec_stride(),
                    h as int == p.spec_rows(),
                    y < h,
                    x <= w,
                    base as int == y as int * w as int,
                    base as int + w as int <= b.tiles_seq().len(),
                    b.tiles_seq().len() == w as int * h as int,
                    forall|i: int|
                        0 <= i < base as int + x as int ==> b.tiles_seq()[i] == (if p.bit(i) {
                            Tile::Tree
                        } else {
                            Tile::Open
                        }),
                    forall|i: int| base as int + x as int <= i < b.tiles_seq().len()
                        ==> b.tiles_seq()[i] == Tile::Open,
                decreases w - x,
            {
                proof {
                    let words_len = p.words().len() as int;
                    let flat = base as int + x as int;
                    assert(h as int * w as int == w as int * h as int) by (nonlinear_arith);
                    assert(flat < w as int * h as int);
                    assert(h as int * w as int == p.spec_cursor());
                    assert(flat < 64 * words_len);
                }
                if p.get_bit(base + x) {
                    let ghost oldt = b.tiles_seq();
                    b.set(Coord { x, y }, Tile::Tree);
                    proof {
                        lemma_small_mod(x as nat, w as nat);
                        assert(b.tiles_seq() == oldt.update(base as int + x as int, Tile::Tree));
                    }
                }
                x = x + 1;
            }
            base = base + w;
            y = y + 1;
        }
        proof {
            assert forall|x: int, y2: int|
                0 <= x < w as int && 0 <= y2 < h as int implies b.spec_tile(x, y2) == (
            if p.bit(y2 * w as int + x) {
                Tile::Tree
            } else {
                Tile::Open
            }) by {
                lemma_small_mod(x as nat, w as nat);
                lemma_index_in_range(w as int, h as int, x, y2);
            }
        }
        Ok(b)
    }
}

/// The coordinates visited by stepping a fixed offset from the origin until
/// the bottom of the grid is passed.
pub struct Route {
    pub size: Coord,
    pub coord: Coord,
    pub step: Coord,
}

impl Route {
    /// A route from the origin with the given grid size and step.
    pub fn new(size: Coord, step: Coord) -> (r: Route)
        ensures
            r.size == size,
            r.step == step,
            r.coord == (Coord { x: 0, y: 0 }),
    {
        Route { size, coord: Coord { x: 0, y: 0 }, step }
    }

    /// The current coordinate, advancing by one step; `None` once the
    /// vertical cursor has left the grid.
    pub fn next(&mut self) -> (r: Option<Coord>)
        requires
            old(self).coord.x + old(self).step.x <= usize::MAX,
            old(self).coord.y + old(self).step.y <= usize::MAX,
        ensures
            final(self).size == old(self).size,
            final(self).step == old(self).step,
            old(self).coord.y < old(self).size.y ==> {
                &&& r == Some(old(self).coord)
                &&& final(self).coord.x == old(self).coord.x + old(self).step.x
                &&& final(self).coord.y == old(self).coord.y + old(self).step.y
            },
            old(self).coord.y >= old(self).size.y ==> r is None && *final(self) == *old(self),
    {
        if self.coord.y < self.size.y {
            let next = self.coord;
            self.coord.x = self.coord.x + self.step.x;
            self.coord.y = self.coord.y + self.step.y;
            Some(next)
        } else {
            None
        }
    }
}

/// Number of the first `m` path points that land on a tree: point `k`
/// visits `(k * left mod width, k * down)` and counts while its row is
/// inside the grid.
pub open spec fn route_hits(g: Grid, left: int, down: int, m: int) -> nat
    decreases m,
{
    if m <= 0 {
        0
    } else {
        route_hits(g, left, down, m - 1) + if (m - 1) * down < g.spec_height() && g.spec_tile(
            ((m - 1) * left) % g.spec_width(),
            (m - 1) * down,
        ) == Tile::Tree {
            1nat
        } else {
            0nat
        }
    }
}

/// Walks the route `(left, down)` from the origin and counts the tree
/// cells it visits, wrapping horizontally: the baseline hit count.
pub fn count_hits(grid: &Grid, left: usize, down: usize) -> (r: usize)
    requires
        grid.wf(),
        down >= 1,
        grid.spec_width() >= 1 || grid.spec_height() == 0,
        grid.spec_height() + down <= usize::MAX,
        grid.spec_width() + left <= usize::MAX,
    ensures
        r as int == route_hits(
            *grid,
            left as int,
            down as int,
            (grid.spec_height() + down - 1) / (down as int),
        ),
{
    let ghost w = grid.spec_width();
    let ghost h = grid.spec_height();
    let ghost l = left as int;
    let ghost d = down as int;
    let mut count: usize = 0;
    let mut x: usize = 0;
    let mut y: usize = 0;
    let ghost mut k: int = 0;
    proof {
        assert(0 * l == 0) by (nonlinear_arith);
        assert(0 * d == 0) by (nonlinear_arith);
        if h > 0 {
            lemma_small_mod(0nat, w as nat);
        }
    }
    while y < grid.size.y
        invariant
            grid.wf(),
            w == grid.spec_width(),
            h == grid.spec_height(),
            down >= 1,
            w >= 1 || h == 0,
            0 <= k <= y as int,
            y as int == k * d,
            down == d,
            left == l,
            grid.spec_height() + down <= usize::MAX,
            grid.spec_width() + left <= usize::MAX,
            h > 0 ==> x as int == (k * l) % w,
            h > 0 ==> x < grid.size.x,
            count as int == route_hits(*grid, l, d, k),
            count <= k,
            k >= 1 ==> (k - 1) * d < h,
        decreases (if y < grid.size.y {
            h - y
        } else {
            0
        }),
    {
        if matches!(grid.get(Coord { x, y }), Tile::Tree) {
            count = count + 1;
        }
        proof {
            lemma_small_mod(x as nat, w as nat);
            assert(route_hits(*grid, l, d, k + 1) == route_hits(*grid, l, d, k) + (if k * d < h
                && grid.spec_tile((k * l) % w, k * d) == Tile::Tree {
                1nat
            } else {
                0nat
            }));
            lemma_fundamental_div_mod(k * l, w);
            vstd::arithmetic::div_mod::lemma_mod_multiples_vanish((k * l) / w, (k * l) % w + l, w);
            assert((k * l) % w + l == k * l + l - w * ((k * l) / w));
            assert(k * l + l == (k + 1) * l) by (nonlinear_arith);
            lemma_mod_bound((k * l) % w + l, w);
            assert((k + 1) * d == k * d + d) by (nonlinear_arith);
        }
        x = (x + left) % grid.size.x;
        y = y + down;
        proof {
            k = k + 1;
        }
    }
    proof {
        if h > 0 {
            assert(k * d >= h);
            assert((k - 1) * d < h);
            assert(k * d == (k - 1) * d + d) by (nonlinear_arith);
            lemma_fundamental_div_mod_converse(h + d - 1, d, k, h + d - 1 - k * d);
        } else {
            assert(k == 0);
            assert((h + d - 1) / d == 0) by {
                vstd::arithmetic::div_mod::lemma_basic_div(d - 1, d);
            }
        }
    }
    count
}

} // verus!
