//! The maze grid: cells with terrain and routing flags, bounds-safe queries,
//! and the stack-free depth-first carver that turns an all-wall grid into a maze.
use vstd::prelude::*;
use crate::news::{News, spec_dx, spec_dy};
use crate::random::{rng_from_seed, gen_index};
use rand::rngs::StdRng;

verus! {

/// Width of the maze in cells, outer wall ring included.
pub const MAP_GRIDS_WIDTH: i32 = 51;
/// Height of the maze in cells, outer wall ring included.
pub const MAP_GRIDS_HEIGHT: i32 = 51;

/// Terrain not decided yet.
pub const BIT_CELL_UNDEF: u8 = 0;
/// Terrain: open space.
pub const BIT_CELL_SPACE: u8 = 1;
/// Terrain: wall.
pub const BIT_CELL_WALL: u8 = 2;
/// Flag: the carver has fully explored this cell.
pub const BIT_FLAG_DEADEND: u8 = 4;

/// A grid coordinate.
#[derive(Clone, Copy, Debug, PartialEq, Eq, Structural)]
pub struct GridPos {
    pub x: i32,
    pub y: i32,
}

/// The mathematical picture of a maze: its size and its cells, column by column.
pub struct MazeView {
    pub width: int,
    pub height: int,
    pub cells: Seq<u8>,
    pub start: GridPos,
}

impl MazeView {
    pub open spec fn wf(self) -> bool {
        &&& 1 <= self.width <= i32::MAX
        &&& 1 <= self.height <= i32::MAX
        &&& self.width * self.height <= usize::MAX
        &&& self.cells.len() == self.width * self.height
    }

    pub open spec fn inside(self, x: int, y: int) -> bool {
        0 <= x < self.width && 0 <= y < self.height
    }

    /// The carvable region: everything but the outer ring.
    pub open spec fn interior(self, x: int, y: int) -> bool {
        1 <= x < self.width - 1 && 1 <= y < self.height - 1
    }

    pub open spec fn at(self, x: int, y: int) -> u8 {
        self.cells[x * self.height + y]
    }

    /// The same maze with the cell at `(x, y)` replaced by `c`.
    pub open spec fn with_cell(self, x: int, y: int, c: u8) -> MazeView {
        MazeView { cells: self.cells.update(x * self.height + y, c), ..self }
    }

    /// Outside the grid everything counts as wall.
    pub open spec fn is_wall(self, x: int, y: int) -> bool {
        !self.inside(x, y) || self.at(x, y) & BIT_CELL_WALL != 0
    }

    /// Outside the grid nothing is open.
    pub open spec fn is_open(self, x: int, y: int) -> bool {
        self.inside(x, y) && self.at(x, y) & BIT_CELL_SPACE != 0
    }

    /// Outside the grid nothing is a dead end.
    pub open spec fn is_dead_end(self, x: int, y: int) -> bool {
        self.inside(x, y) && self.at(x, y) & BIT_FLAG_DEADEND != 0
    }

    /// The directions, in the order of `NEWS`, whose neighbour of `(x, y)` is open.
    pub open spec fn open_sides(self, x: int, y: int) -> Seq<News> {
        self.side_if_open(x, y, News::South) + self.side_if_open(x, y, News::East)
            + self.side_if_open(x, y, News::West) + self.side_if_open(x, y, News::North)
    }

    pub open spec fn side_if_open(self, x: int, y: int, d: News) -> Seq<News> {
        if self.is_open(x + spec_dx(d), y + spec_dy(d)) {
            seq![d]
        } else {
            Seq::empty()
        }
    }

    /// Every cell holds decided terrain: a wall, or open space with or without the dead-end flag.
    pub open spec fn decided(self) -> bool {
        forall|x: int, y: int|
            self.inside(x, y) ==> {
                let c = #[trigger] self.at(x, y);
                c == BIT_CELL_WALL || c == BIT_CELL_SPACE || c == (BIT_CELL_SPACE | BIT_FLAG_DEADEND)
            }
    }

    /// Every cell of the outermost ring is a plain wall.
    pub open spec fn border_walled(self) -> bool {
        forall|x: int, y: int|
            self.inside(x, y) && !self.interior(x, y) ==> #[trigger] self.at(x, y) == BIT_CELL_WALL
    }

    /// The 2x2 block whose top-left cell is `(x, y)` is entirely open.
    pub open spec fn block_open(self, x: int, y: int) -> bool {
        &&& self.is_open(x, y)
        &&& self.is_open(x + 1, y)
        &&& self.is_open(x, y + 1)
        &&& self.is_open(x + 1, y + 1)
    }

    /// No 2x2 block of cells is entirely open.
    pub open spec fn no_thick_corridor(self) -> bool {
        forall|x: int, y: int| !#[trigger] self.block_open(x, y)
    }

    /// The wall footprint that must surround `(x, y)` before it is dug from the
    /// neighbour on its `d.back()` side: the three cells beyond it and the two beside it.
    pub open spec fn diggable(self, x: int, y: int, d: News) -> bool {
        match d {
            News::North => {
                &&& self.is_wall(x - 1, y - 1)
                &&& self.is_wall(x, y - 1)
                &&& self.is_wall(x + 1, y - 1)
                &&& self.is_wall(x - 1, y)
                &&& self.is_wall(x + 1, y)
            },
            News::South => {
                &&& self.is_wall(x - 1, y)
                &&& self.is_wall(x + 1, y)
                &&& self.is_wall(x - 1, y + 1)
                &&& self.is_wall(x, y + 1)
                &&& self.is_wall(x + 1, y + 1)
            },
            News::West => {
                &&& self.is_wall(x - 1, y - 1)
                &&& self.is_wall(x, y - 1)
                &&& self.is_wall(x - 1, y)
                &&& self.is_wall(x - 1, y + 1)
                &&& self.is_wall(x, y + 1)
            },
            News::East => {
                &&& self.is_wall(x, y - 1)
                &&& self.is_wall(x + 1, y - 1)
                &&& self.is_wall(x + 1, y)
                &&& self.is_wall(x, y + 1)
                &&& self.is_wall(x + 1, y + 1)
            },
        }
    }

    /// What a finished maze satisfies: decided cells, a walled outer ring, no 2x2 open block,
    /// an open interior start, open cells forming a tree rooted at the start, and nothing
    /// left to dig.
    pub open spec fn generated(self) -> bool {
        let start = self.start;
        &&& self.wf()
        &&& self.decided()
        &&& self.border_walled()
        &&& self.no_thick_corridor()
        &&& self.interior(start.x as int, start.y as int)
        &&& self.is_open(start.x as int, start.y as int)
        &&& exists|depth: spec_fn(int, int) -> nat| spanning_tree(self, depth)
        &&& complete(self)
    }
}

/// The bit facts that tie the three decided cell values to the three queries.
proof fn lemma_cell_bits()
    ensures
        BIT_CELL_WALL & BIT_CELL_WALL != 0,
        BIT_CELL_WALL & BIT_CELL_SPACE == 0,
        BIT_CELL_WALL & BIT_FLAG_DEADEND == 0,
        BIT_CELL_SPACE & BIT_CELL_WALL == 0,
        BIT_CELL_SPACE & BIT_CELL_SPACE != 0,
        BIT_CELL_SPACE & BIT_FLAG_DEADEND == 0,
        BIT_CELL_SPACE | BIT_FLAG_DEADEND == 5u8,
        5u8 & BIT_CELL_WALL == 0,
        5u8 & BIT_CELL_SPACE != 0,
        5u8 & BIT_FLAG_DEADEND != 0,
{
    assert(2u8 & 2u8 != 0) by (bit_vector);
    assert(2u8 & 1u8 == 0) by (bit_vector);
    assert(2u8 & 4u8 == 0) by (bit_vector);
    assert(1u8 & 2u8 == 0) by (bit_vector);
    assert(1u8 & 1u8 != 0) by (bit_vector);
    assert(1u8 & 4u8 == 0) by (bit_vector);
    assert(1u8 | 4u8 == 5u8) by (bit_vector);
    assert(5u8 & 2u8 == 0) by (bit_vector);
    assert(5u8 & 1u8 != 0) by (bit_vector);
    assert(5u8 & 4u8 != 0) by (bit_vector);
}

/// A cell inside the grid has its own place in the flat cell sequence.
proof fn lemma_index(w: int, h: int, x: int, y: int, x2: int, y2: int)
    requires
        1 <= h,
        0 <= x < w,
        0 <= y < h,
        0 <= x2 < w,
        0 <= y2 < h,
    ensures
        0 <= x * h + y < w * h,
        (x != x2 || y != y2) ==> x * h + y != x2 * h + y2,
{
    assert(0 <= x * h + y < w * h) by (nonlinear_arith)
        requires 1 <= h, 0 <= x < w, 0 <= y < h;
    if x < x2 {
        assert(x * h + y < x2 * h + y2) by (nonlinear_arith)
            requires 1 <= h, 0 <= x < x2, 0 <= y < h, 0 <= y2;
    } else if x2 < x {
        assert(x2 * h + y2 < x * h + y) by (nonlinear_arith)
            requires 1 <= h, 0 <= x2 < x, 0 <= y2 < h, 0 <= y;
    }
}

/// Writing one cell leaves every other cell as it was.
proof fn lemma_write(v: MazeView, x: int, y: int, c: u8)
    requires
        v.wf(),
        v.inside(x, y),
    ensures
        ({
            let v2 = MazeView { cells: v.cells.update(x * v.height + y, c), ..v };
            &&& v2.wf()
            &&& v2.at(x, y) == c
            &&& forall|x2: int, y2: int|
                v.inside(x2, y2) && (x2 != x || y2 != y) ==> #[trigger] v2.at(x2, y2) == v.at(x2, y2)
        }),
{
    let v2 = MazeView { cells: v.cells.update(x * v.height + y, c), ..v };
    lemma_index(v.width, v.height, x, y, x, y);
    assert forall|x2: int, y2: int|
        v.inside(x2, y2) && (x2 != x || y2 != y) implies #[trigger] v2.at(x2, y2) == v.at(x2, y2) by {
        lemma_index(v.width, v.height, x, y, x2, y2);
        lemma_index(v.width, v.height, x2, y2, x, y);
    }
}

/// What a cell is worth in the carver's progress measure.
spec fn weight(c: u8) -> nat {
    if c == BIT_CELL_WALL {
        2
    } else if c == BIT_CELL_SPACE {
        1
    } else {
        0
    }
}

spec fn weight_sum(s: Seq<u8>) -> nat
    decreases s.len(),
{
    if s.len() == 0 {
        0
    } else {
        weight_sum(s.drop_last()) + weight(s.last())
    }
}

proof fn lemma_weight_update(s: Seq<u8>, i: int, c: u8)
    requires
        0 <= i < s.len(),
    ensures
        weight_sum(s.update(i, c)) + weight(s[i]) == weight_sum(s) + weight(c),
    decreases s.len(),
{
    let s2 = s.update(i, c);
    if i == s.len() - 1 {
        assert(s2.drop_last() =~= s.drop_last());
    } else {
        assert(s2.drop_last() =~= s.drop_last().update(i, c));
        lemma_weight_update(s.drop_last(), i, c);
    }
}

/// The maze: a grid of cells stored column by column, a start cell, and the
/// seeded generator used for carving.
pub struct Maze {
    rng: StdRng,
    matrix: Vec<u8>,
    width: i32,
    height: i32,
    start: GridPos,
}

impl Maze {
    pub closed spec fn view(&self) -> MazeView {
        MazeView { width: self.width as int, height: self.height as int, cells: self.matrix@, start: self.start }
    }

    pub open spec fn wf(&self) -> bool {
        self.view().wf()
    }

    /// A `width` by `height` grid of undecided cells whose carver is seeded with `seed`.
    pub fn new(width: i32, height: i32, seed: u64) -> (r: Maze)
        requires
            1 <= width,
            1 <= height,
            width * height <= usize::MAX,
        ensures
            r.wf(),
            r.view().width == width,
            r.view().height == height,
            forall|x: int, y: int| r.view().inside(x, y) ==> #[trigger] r.view().at(x, y) == BIT_CELL_UNDEF,
            r.view().start == (GridPos { x: 0, y: 0 }),
    {
        Self::with_rng(width, height, rng_from_seed(seed))
    }

    fn with_rng(width: i32, height: i32, rng: StdRng) -> (r: Maze)
        requires
            1 <= width,
            1 <= height,
            width * height <= usize::MAX,
        ensures
            r.wf(),
            r.view().width == width,
            r.view().height == height,
            forall|x: int, y: int| r.view().inside(x, y) ==> #[trigger] r.view().at(x, y) == BIT_CELL_UNDEF,
            r.view().start == (GridPos { x: 0, y: 0 }),
    {
        let n: usize = width as usize * height as usize;
        let matrix: Vec<u8> = vec![BIT_CELL_UNDEF; n];
        let r = Maze { rng, matrix, width, height, start: GridPos { x: 0, y: 0 } };
        assert forall|x: int, y: int| r.view().inside(x, y) implies #[trigger] r.view().at(x, y) == BIT_CELL_UNDEF by {
            lemma_index(width as int, height as int, x, y, x, y);
        }
        r
    }

    /// The cell where carving begins and the player appears.
    pub fn start(&self) -> (r: GridPos)
        ensures
            r == self.view().start,
    {
        self.start
    }

    pub fn width(&self) -> (r: i32)
        ensures
            r == self.view().width,
    {
        self.width
    }

    pub fn height(&self) -> (r: i32)
        ensures
            r == self.view().height,
    {
        self.height
    }

    fn is_inside(&self, x: i64, y: i64) -> (r: bool)
        ensures
            r == self.view().inside(x as int, y as int),
    {
        0 <= x && x < self.width as i64 && 0 <= y && y < self.height as i64
    }

    /// The cell at a position inside the grid.
    fn cell(&self, x: i64, y: i64) -> (r: u8)
        requires
            self.wf(),
            self.view().inside(x as int, y as int),
        ensures
            r == self.view().at(x as int, y as int),
    {
        proof {
            lemma_index(self.width as int, self.height as int, x as int, y as int, x as int, y as int);
        }
        self.matrix[x as usize * self.height as usize + y as usize]
    }

    fn wall_at(&self, x: i64, y: i64) -> (r: bool)
        requires
            self.wf(),
        ensures
            r == self.view().is_wall(x as int, y as int),
    {
        if !self.is_inside(x, y) {
            return true;
        }
        self.cell(x, y) & BIT_CELL_WALL != 0
    }

    fn space_at(&self, x: i64, y: i64) -> (r: bool)
        requires
            self.wf(),
        ensures
            r == self.view().is_open(x as int, y as int),
    {
        if !self.is_inside(x, y) {
            return false;
        }
        self.cell(x, y) & BIT_CELL_SPACE != 0
    }

    fn deadend_at(&self, x: i64, y: i64) -> (r: bool)
        requires
            self.wf(),
        ensures
            r == self.view().is_dead_end(x as int, y as int),
    {
        if !self.is_inside(x, y) {
            return false;
        }
        self.cell(x, y) & BIT_FLAG_DEADEND != 0
    }

    /// Whether `cell` is a wall; anything outside the grid is.
    pub fn is_wall(&self, cell: GridPos) -> (r: bool)
        requires
            self.wf(),
        ensures
            r == self.view().is_wall(cell.x as int, cell.y as int),
            !self.view().inside(cell.x as int, cell.y as int) ==> r,
    {
        self.wall_at(cell.x as i64, cell.y as i64)
    }

    /// Whether `cell` is open space; nothing outside the grid is.
    pub fn is_space(&self, cell: GridPos) -> (r: bool)
        requires
            self.wf(),
        ensures
            r == self.view().is_open(cell.x as int, cell.y as int),
            !self.view().inside(cell.x as int, cell.y as int) ==> !r,
    {
        self.space_at(cell.x as i64, cell.y as i64)
    }

    /// Whether `cell` carries the dead-end flag; nothing outside the grid does.
    pub fn is_deadend(&self, cell: GridPos) -> (r: bool)
        requires
            self.wf(),
        ensures
            r == self.view().is_dead_end(cell.x as int, cell.y as int),
            !self.view().inside(cell.x as int, cell.y as int) ==> !r,
    {
        self.deadend_at(cell.x as i64, cell.y as i64)
    }

    fn push_if_open(&self, sides: &mut Vec<News>, cell: GridPos, d: News)
        requires
            self.wf(),
        ensures
            final(sides)@ == old(sides)@ + self.view().side_if_open(cell.x as int, cell.y as int, d),
    {
        let (dx, dy) = d.offset();
        if self.space_at(cell.x as i64 + dx as i64, cell.y as i64 + dy as i64) {
            sides.push(d);
        } else {
            assert(old(sides)@ + Seq::<News>::empty() =~= old(sides)@);
        }
    }

    /// The directions, in the order of `NEWS`, in which the neighbour of `cell` is open.
    pub fn get_sides_space(&self, cell: GridPos) -> (r: Vec<News>)
        requires
            self.wf(),
        ensures
            r@ == self.view().open_sides(cell.x as int, cell.y as int),
    {
        let mut sides: Vec<News> = Vec::new();
        self.push_if_open(&mut sides, cell, News::South);
        self.push_if_open(&mut sides, cell, News::East);
        self.push_if_open(&mut sides, cell, News::West);
        self.push_if_open(&mut sides, cell, News::North);
        proof {
            let (v, x, y) = (self.view(), cell.x as int, cell.y as int);
            assert(sides@ =~= v.open_sides(x, y));
        }
        sides
    }
}

/// A wall cell that may be dug from its neighbour `cur`: interior, plain wall, with the
/// footprint for the step from `cur` intact.
pub open spec fn dig_ok(v: MazeView, cur: GridPos, c: GridPos) -> bool {
    let (x, y) = (c.x as int, c.y as int);
    &&& v.interior(x, y)
    &&& v.at(x, y) == BIT_CELL_WALL
    &&& exists|d: News|
        x == cur.x + spec_dx(d) && y == cur.y + spec_dy(d) && #[trigger] v.diggable(x, y, d)
}

/// A cell the carver may step back to from `cur`: interior, open, not yet a dead end.
pub open spec fn back_ok(v: MazeView, cur: GridPos, b: GridPos) -> bool {
    &&& v.interior(b.x as int, b.y as int)
    &&& v.at(b.x as int, b.y as int) == BIT_CELL_SPACE
    &&& adjacent((cur.x as int, cur.y as int), (b.x as int, b.y as int))
}

/// Two cells that share a side.
pub open spec fn adjacent(a: (int, int), b: (int, int)) -> bool {
    (a.0 == b.0 && (a.1 == b.1 + 1 || b.1 == a.1 + 1)) || (a.1 == b.1 && (a.0 == b.0 + 1 || b.0 == a.0 + 1))
}

/// From the open cell `(x, y)` the carver could still dig toward `d`.
pub open spec fn can_dig_toward(v: MazeView, x: int, y: int, d: News) -> bool {
    let (nx, ny) = (x + spec_dx(d), y + spec_dy(d));
    v.interior(nx, ny) && v.is_wall(nx, ny) && v.diggable(nx, ny, d)
}

/// The neighbour of `cell` toward `d`.
pub open spec fn neighbor(cell: GridPos, d: News) -> GridPos {
    GridPos { x: (cell.x + spec_dx(d)) as i32, y: (cell.y + spec_dy(d)) as i32 }
}

/// The neighbour toward `d`, if the carver could dig it from `cell`.
pub open spec fn dig_here(v: MazeView, cell: GridPos, d: News) -> Seq<GridPos> {
    if can_dig_toward(v, cell.x as int, cell.y as int, d) {
        seq![neighbor(cell, d)]
    } else {
        Seq::empty()
    }
}

/// The walls the carver could dig from `cell`, in the order of `NEWS`.
pub open spec fn dig_candidates(v: MazeView, cell: GridPos) -> Seq<GridPos> {
    dig_here(v, cell, News::South) + dig_here(v, cell, News::East) + dig_here(v, cell, News::West)
        + dig_here(v, cell, News::North)
}

/// The neighbour toward `d` is an interior cell, not a diggable wall, open and without the
/// dead-end flag: a way back for the carver.
pub open spec fn back_toward(v: MazeView, cell: GridPos, d: News) -> bool {
    let (nx, ny) = (cell.x + spec_dx(d), cell.y + spec_dy(d));
    &&& v.interior(nx, ny)
    &&& !(v.is_wall(nx, ny) && v.diggable(nx, ny, d))
    &&& v.is_open(nx, ny)
    &&& !v.is_dead_end(nx, ny)
}

/// The way back from `cell`: of the sides examined in the order of `NEWS`, the last one
/// that offers a way back.
pub open spec fn back_from(v: MazeView, cell: GridPos) -> Option<GridPos> {
    if back_toward(v, cell, News::North) {
        Some(neighbor(cell, News::North))
    } else if back_toward(v, cell, News::West) {
        Some(neighbor(cell, News::West))
    } else if back_toward(v, cell, News::East) {
        Some(neighbor(cell, News::East))
    } else if back_toward(v, cell, News::South) {
        Some(neighbor(cell, News::South))
    } else {
        None
    }
}

/// One step of the carver at `cell` with the drawn number `pick`: dig the candidate
/// numbered `pick` (modulo their count) and move there; with no candidate, flag `cell` as
/// a dead end and move back; with no way back either, stop.
pub open spec fn spec_carve_step(v: MazeView, cell: GridPos, pick: usize) -> (MazeView, Option<GridPos>) {
    let cands = dig_candidates(v, cell);
    if cands.len() > 0 {
        let c = cands[pick as int % cands.len() as int];
        (v.with_cell(c.x as int, c.y as int, BIT_CELL_SPACE), Some(c))
    } else {
        match back_from(v, cell) {
            Some(b) => (
                v.with_cell(cell.x as int, cell.y as int, v.at(cell.x as int, cell.y as int) | BIT_FLAG_DEADEND),
                Some(b),
            ),
            None => (v, None),
        }
    }
}

/// The carver run from `cell` over the numbers `picks`, drawn one per step: the maze it
/// leaves and the cell it stands on, or none once it has stopped.
pub open spec fn carve_run(v: MazeView, cell: GridPos, picks: Seq<usize>) -> (MazeView, Option<GridPos>)
    decreases picks.len(),
{
    if picks.len() == 0 {
        (v, Some(cell))
    } else {
        let (w, at) = carve_run(v, cell, picks.drop_last());
        match at {
            Some(c) => spec_carve_step(w, c, picks.last()),
            None => (w, None),
        }
    }
}

/// A `width` by `height` maze of plain walls but for its open centre, where it starts.
pub open spec fn fresh_maze(width: int, height: int) -> MazeView {
    let start = GridPos { x: (width / 2) as i32, y: (height / 2) as i32 };
    MazeView {
        width,
        height,
        cells: Seq::new(
            (width * height) as nat,
            |i: int| if i == (width / 2) * height + height / 2 { BIT_CELL_SPACE } else { BIT_CELL_WALL },
        ),
        start,
    }
}

/// Nothing is left to dig from `(x, y)` in any direction.
pub open spec fn exhausted(v: MazeView, x: int, y: int) -> bool {
    &&& !can_dig_toward(v, x, y, News::South)
    &&& !can_dig_toward(v, x, y, News::East)
    &&& !can_dig_toward(v, x, y, News::West)
    &&& !can_dig_toward(v, x, y, News::North)
}

/// The carving is finished: no open cell has a wall beside it that could still be dug.
pub open spec fn complete(v: MazeView) -> bool {
    forall|x: int, y: int| v.is_open(x, y) ==> #[trigger] exhausted(v, x, y)
}

/// The neighbour of `(x, y)` toward `d` is an interior open cell without the dead-end flag.
pub open spec fn back_cand(v: MazeView, x: int, y: int, d: News) -> bool {
    let (nx, ny) = (x + spec_dx(d), y + spec_dy(d));
    v.interior(nx, ny) && v.at(nx, ny) == BIT_CELL_SPACE
}

/// The open cells without the dead-end flag are exactly the walk from the start down the
/// tree to `cur`, one level per step; every cell already flagged is exhausted.
pub open spec fn dfs_stack(v: MazeView, depth: spec_fn(int, int) -> nat, stack: Seq<(int, int)>, cur: GridPos) -> bool {
    &&& stack.len() >= 1
    &&& stack[0] == (v.start.x as int, v.start.y as int)
    &&& stack.last() == (cur.x as int, cur.y as int)
    &&& forall|i: int|
        0 <= i < stack.len() ==> {
            let q = #[trigger] stack[i];
            depth(q.0, q.1) == i && v.inside(q.0, q.1) && v.at(q.0, q.1) == BIT_CELL_SPACE
        }
    &&& forall|i: int| 0 <= i < stack.len() - 1 ==> adjacent(#[trigger] stack[i], stack[i + 1])
    &&& forall|x: int, y: int| v.inside(x, y) && #[trigger] v.at(x, y) == BIT_CELL_SPACE ==> stack.contains((x, y))
    &&& forall|x: int, y: int| v.is_open(x, y) && v.at(x, y) != BIT_CELL_SPACE ==> #[trigger] exhausted(v, x, y)
}

/// The state the carver keeps between steps.
pub open spec fn carving(v: MazeView) -> bool {
    &&& v.wf()
    &&& v.decided()
    &&& v.border_walled()
    &&& v.no_thick_corridor()
    &&& v.interior(v.start.x as int, v.start.y as int)
    &&& v.is_open(v.start.x as int, v.start.y as int)
}

/// In a grid of decided cells a wall is never open.
pub proof fn lemma_wall_not_open(v: MazeView)
    requires
        v.wf(),
        v.decided(),
    ensures
        forall|x: int, y: int| #[trigger] v.is_wall(x, y) ==> !v.is_open(x, y),
{
    lemma_cell_bits();
    assert forall|x: int, y: int| #[trigger] v.is_wall(x, y) implies !v.is_open(x, y) by {
        if v.inside(x, y) {
            let c = v.at(x, y);
            assert(c == BIT_CELL_WALL || c == BIT_CELL_SPACE || c == 5u8);
        }
    }
}

/// The number of open neighbours of `(x, y)` one level nearer the root than `(x, y)`.
pub open spec fn parent_count(v: MazeView, depth: spec_fn(int, int) -> nat, x: int, y: int) -> int {
    (if v.is_open(x + 1, y) && depth(x + 1, y) + 1 == depth(x, y) { 1int } else { 0 })
        + (if v.is_open(x - 1, y) && depth(x - 1, y) + 1 == depth(x, y) { 1int } else { 0 })
        + (if v.is_open(x, y + 1) && depth(x, y + 1) + 1 == depth(x, y) { 1int } else { 0 })
        + (if v.is_open(x, y - 1) && depth(x, y - 1) + 1 == depth(x, y) { 1int } else { 0 })
}

pub open spec fn consecutive(a: nat, b: nat) -> bool {
    a == b + 1 || b == a + 1
}

/// The open cell `(x, y)` fits the tree given by `depth`: the start aside, it has exactly
/// one open neighbour one level up, and its open neighbours to the right and below are
/// one level apart from it.
pub open spec fn tree_node(v: MazeView, depth: spec_fn(int, int) -> nat, x: int, y: int) -> bool {
    v.is_open(x, y) ==> {
        &&& ((x == v.start.x && y == v.start.y) || parent_count(v, depth, x, y) == 1)
        &&& (v.is_open(x + 1, y) ==> consecutive(depth(x, y), depth(x + 1, y)))
        &&& (v.is_open(x, y + 1) ==> consecutive(depth(x, y), depth(x, y + 1)))
    }
}

/// The open cells form a tree rooted at the start, with `depth` the distance to the root:
/// every edge between open cells joins neighbouring levels, and every open cell but the
/// root has exactly one edge up. Each open cell other than the root thus owns exactly one
/// edge, so there is one edge fewer than open cells, and climbing reaches the root.
pub open spec fn spanning_tree(v: MazeView, depth: spec_fn(int, int) -> nat) -> bool {
    &&& depth(v.start.x as int, v.start.y as int) == 0
    &&& forall|x: int, y: int| #[trigger] tree_node(v, depth, x, y)
}

/// Opening a diggable wall hangs it below `cur` in the tree.
proof fn lemma_dig_tree(v: MazeView, cur: GridPos, c: GridPos, depth: spec_fn(int, int) -> nat)
    requires
        carving(v),
        dig_ok(v, cur, c),
        v.interior(cur.x as int, cur.y as int),
        v.is_open(cur.x as int, cur.y as int),
        spanning_tree(v, depth),
    ensures
        ({
            let (x, y) = (c.x as int, c.y as int);
            let v2 = MazeView { cells: v.cells.update(x * v.height + y, BIT_CELL_SPACE), ..v };
            let depth2 = |x2: int, y2: int|
                if x2 == x && y2 == y { depth(cur.x as int, cur.y as int) + 1 } else { depth(x2, y2) };
            spanning_tree(v2, depth2)
        }),
{
    let (x, y) = (c.x as int, c.y as int);
    let (cx, cy) = (cur.x as int, cur.y as int);
    let v2 = MazeView { cells: v.cells.update(x * v.height + y, BIT_CELL_SPACE), ..v };
    let depth2 = |x2: int, y2: int|
        if x2 == x && y2 == y { depth(cx, cy) + 1 } else { depth(x2, y2) };
    lemma_write(v, x, y, BIT_CELL_SPACE);
    lemma_cell_bits();
    lemma_wall_not_open(v);
    assert forall|x2: int, y2: int| #[trigger] v2.is_open(x2, y2) == (v.is_open(x2, y2) || (x2 == x && y2 == y)) by {
        if v.inside(x2, y2) && (x2 != x || y2 != y) {
            assert(v2.at(x2, y2) == v.at(x2, y2));
        }
    }
    assert(!v.is_open(x, y));
    let d = choose|d: News| x == cur.x + spec_dx(d) && y == cur.y + spec_dy(d) && #[trigger] v.diggable(x, y, d);
    // Of the four neighbours of the new cell only `cur` is open.
    assert(v.is_open(x + 1, y) ==> x + 1 == cx && y == cy);
    assert(v.is_open(x - 1, y) ==> x - 1 == cx && y == cy);
    assert(v.is_open(x, y + 1) ==> x == cx && y + 1 == cy);
    assert(v.is_open(x, y - 1) ==> x == cx && y - 1 == cy);
    assert forall|px: int, py: int| #[trigger] tree_node(v2, depth2, px, py) by {
        assert(tree_node(v, depth, px, py));
        if px == x && py == y {
            assert(parent_count(v2, depth2, px, py) == 1);
        } else if v.is_open(px, py) {
            assert(parent_count(v2, depth2, px, py) == parent_count(v, depth, px, py));
        }
    }
}

/// Opening a diggable wall keeps the carver's state.
proof fn lemma_dig(v: MazeView, cur: GridPos, c: GridPos)
    requires
        carving(v),
        dig_ok(v, cur, c),
    ensures
        ({
            let (x, y) = (c.x as int, c.y as int);
            let v2 = MazeView { cells: v.cells.update(x * v.height + y, BIT_CELL_SPACE), ..v };
            &&& carving(v2)
            &&& v2.at(x, y) == BIT_CELL_SPACE
            &&& weight_sum(v2.cells) < weight_sum(v.cells)
        }),
{
    let (x, y) = (c.x as int, c.y as int);
    let v2 = MazeView { cells: v.cells.update(x * v.height + y, BIT_CELL_SPACE), ..v };
    lemma_write(v, x, y, BIT_CELL_SPACE);
    lemma_index(v.width, v.height, x, y, x, y);
    lemma_cell_bits();
    lemma_wall_not_open(v);
    lemma_weight_update(v.cells, x * v.height + y, BIT_CELL_SPACE);
    assert(v.is_open(v.start.x as int, v.start.y as int));
    assert forall|x2: int, y2: int| (x2 != x || y2 != y) implies #[trigger] v2.is_open(x2, y2)
        == v.is_open(x2, y2) by {
        if v.inside(x2, y2) {
            assert(v2.at(x2, y2) == v.at(x2, y2));
        }
    }
    assert forall|bx: int, by: int| !#[trigger] v2.block_open(bx, by) by {
        assert(!v.block_open(bx, by));
        if v.diggable(x, y, News::North) {
            assert(!v.is_open(x - 1, y - 1) && !v.is_open(x, y - 1) && !v.is_open(x + 1, y - 1));
            assert(!v.is_open(x - 1, y) && !v.is_open(x + 1, y));
        } else if v.diggable(x, y, News::South) {
            assert(!v.is_open(x - 1, y + 1) && !v.is_open(x, y + 1) && !v.is_open(x + 1, y + 1));
            assert(!v.is_open(x - 1, y) && !v.is_open(x + 1, y));
        } else if v.diggable(x, y, News::West) {
            assert(!v.is_open(x - 1, y - 1) && !v.is_open(x - 1, y) && !v.is_open(x - 1, y + 1));
            assert(!v.is_open(x, y - 1) && !v.is_open(x, y + 1));
        } else {
            assert(!v.is_open(x + 1, y - 1) && !v.is_open(x + 1, y) && !v.is_open(x + 1, y + 1));
            assert(!v.is_open(x, y - 1) && !v.is_open(x, y + 1));
        }
    }
    assert forall|x2: int, y2: int| v2.inside(x2, y2) implies {
        let c2 = #[trigger] v2.at(x2, y2);
        c2 == BIT_CELL_WALL || c2 == BIT_CELL_SPACE || c2 == (BIT_CELL_SPACE | BIT_FLAG_DEADEND)
    } by {
        if x2 != x || y2 != y {
            assert(v.at(x2, y2) == v2.at(x2, y2));
        }
    }
    assert forall|x2: int, y2: int| v2.inside(x2, y2) && !v2.interior(x2, y2) implies #[trigger] v2.at(
        x2,
        y2,
    ) == BIT_CELL_WALL by {
        assert(v.at(x2, y2) == v2.at(x2, y2));
    }
}

/// Marking the current cell as a dead end keeps the carver's state.
proof fn lemma_mark_dead_end(v: MazeView, cur: GridPos, b: GridPos)
    requires
        carving(v),
        v.interior(cur.x as int, cur.y as int),
        v.at(cur.x as int, cur.y as int) == BIT_CELL_SPACE,
        back_ok(v, cur, b),
    ensures
        ({
            let (x, y) = (cur.x as int, cur.y as int);
            let v2 = MazeView { cells: v.cells.update(x * v.height + y, BIT_CELL_SPACE | BIT_FLAG_DEADEND), ..v };
            &&& carving(v2)
            &&& v2.at(b.x as int, b.y as int) == BIT_CELL_SPACE
            &&& weight_sum(v2.cells) < weight_sum(v.cells)
            &&& forall|depth: spec_fn(int, int) -> nat| spanning_tree(v, depth) ==> spanning_tree(v2, depth)
        }),
{
    let (x, y) = (cur.x as int, cur.y as int);
    let v2 = MazeView { cells: v.cells.update(x * v.height + y, BIT_CELL_SPACE | BIT_FLAG_DEADEND), ..v };
    lemma_write(v, x, y, BIT_CELL_SPACE | BIT_FLAG_DEADEND);
    lemma_index(v.width, v.height, x, y, x, y);
    lemma_cell_bits();
    lemma_weight_update(v.cells, x * v.height + y, BIT_CELL_SPACE | BIT_FLAG_DEADEND);
    assert forall|x2: int, y2: int| #[trigger] v2.is_open(x2, y2) == v.is_open(x2, y2) by {
        if v.inside(x2, y2) && (x2 != x || y2 != y) {
            assert(v2.at(x2, y2) == v.at(x2, y2));
        }
    }
    assert forall|bx: int, by: int| !#[trigger] v2.block_open(bx, by) by {
        assert(!v.block_open(bx, by));
    }
    assert forall|depth: spec_fn(int, int) -> nat| spanning_tree(v, depth) implies spanning_tree(v2, depth) by {
        assert forall|px: int, py: int| #[trigger] tree_node(v2, depth, px, py) by {
            assert(tree_node(v, depth, px, py));
            assert(parent_count(v2, depth, px, py) == parent_count(v, depth, px, py));
        }
    }
    assert forall|x2: int, y2: int| v2.inside(x2, y2) implies {
        let c2 = #[trigger] v2.at(x2, y2);
        c2 == BIT_CELL_WALL || c2 == BIT_CELL_SPACE || c2 == (BIT_CELL_SPACE | BIT_FLAG_DEADEND)
    } by {
        if x2 != x || y2 != y {
            assert(v.at(x2, y2) == v2.at(x2, y2));
        }
    }
    assert forall|x2: int, y2: int| v2.inside(x2, y2) && !v2.interior(x2, y2) implies #[trigger] v2.at(
        x2,
        y2,
    ) == BIT_CELL_WALL by {
        assert(v.at(x2, y2) == v2.at(x2, y2));
    }
    assert(v2.at(b.x as int, b.y as int) == v.at(b.x as int, b.y as int));
}

impl Maze {
    /// Turns every cell into a plain wall.
    fn fill_walls(&mut self)
        requires
            old(self).wf(),
        ensures
            final(self).wf(),
            final(self).view().width == old(self).view().width,
            final(self).view().height == old(self).view().height,
            final(self).view().start == old(self).view().start,
            forall|i: int| 0 <= i < final(self).view().cells.len() ==> #[trigger] final(self).view().cells[i] == BIT_CELL_WALL,
            final(self).rng == old(self).rng,
    {
        let n = self.matrix.len();
        let mut i: usize = 0;
        while i < n
            invariant
                0 <= i <= n,
                n == self.matrix.len(),
                self.wf(),
                self.view().width == old(self).view().width,
                self.view().height == old(self).view().height,
                self.view().start == old(self).view().start,
                forall|j: int| 0 <= j < i ==> #[trigger] self.matrix@[j] == BIT_CELL_WALL,
                self.rng == old(self).rng,
            decreases n - i,
        {
            self.matrix.set(i, BIT_CELL_WALL);
            i = i + 1;
        }
    }

    /// Makes `cell` plain open space, clearing its flags; a cell outside the grid is ignored.
    fn set_space(&mut self, cell: GridPos)
        requires
            old(self).wf(),
        ensures
            final(self).view() == (if old(self).view().inside(cell.x as int, cell.y as int) {
                MazeView {
                    cells: old(self).view().cells.update(
                        cell.x * old(self).view().height + cell.y,
                        BIT_CELL_SPACE,
                    ),
                    ..old(self).view()
                }
            } else {
                old(self).view()
            }),
            final(self).rng == old(self).rng,
    {
        if !self.is_inside(cell.x as i64, cell.y as i64) {
            return;
        }
        proof {
            lemma_index(self.width as int, self.height as int, cell.x as int, cell.y as int, cell.x as int, cell.y as int);
        }
        let i = cell.x as usize * self.height as usize + cell.y as usize;
        self.matrix.set(i, BIT_CELL_SPACE);
    }

    /// Adds the dead-end flag to `cell`; a cell outside the grid is ignored.
    fn add_flag_deadend(&mut self, cell: GridPos)
        requires
            old(self).wf(),
        ensures
            final(self).view() == (if old(self).view().inside(cell.x as int, cell.y as int) {
                MazeView {
                    cells: old(self).view().cells.update(
                        cell.x * old(self).view().height + cell.y,
                        old(self).view().at(cell.x as int, cell.y as int) | BIT_FLAG_DEADEND,
                    ),
                    ..old(self).view()
                }
            } else {
                old(self).view()
            }),
            final(self).rng == old(self).rng,
    {
        if !self.is_inside(cell.x as i64, cell.y as i64) {
            return;
        }
        proof {
            lemma_index(self.width as int, self.height as int, cell.x as int, cell.y as int, cell.x as int, cell.y as int);
        }
        let i = cell.x as usize * self.height as usize + cell.y as usize;
        let c = self.matrix[i] | BIT_FLAG_DEADEND;
        self.matrix.set(i, c);
    }

    /// Whether the wall at `cell`, reached by a step toward `news`, keeps its wall footprint.
    fn is_digable(&self, cell: GridPos, news: News) -> (r: bool)
        requires
            self.wf(),
        ensures
            r == self.view().diggable(cell.x as int, cell.y as int, news),
    {
        let (x, y) = (cell.x as i64, cell.y as i64);
        match news {
            News::North => self.wall_at(x - 1, y - 1) && self.wall_at(x, y - 1) && self.wall_at(x + 1, y - 1)
                && self.wall_at(x - 1, y) && self.wall_at(x + 1, y),
            News::South => self.wall_at(x - 1, y) && self.wall_at(x + 1, y) && self.wall_at(x - 1, y + 1)
                && self.wall_at(x, y + 1) && self.wall_at(x + 1, y + 1),
            News::West => self.wall_at(x - 1, y - 1) && self.wall_at(x, y - 1) && self.wall_at(x - 1, y)
                && self.wall_at(x - 1, y + 1) && self.wall_at(x, y + 1),
            News::East => self.wall_at(x, y - 1) && self.wall_at(x + 1, y - 1) && self.wall_at(x + 1, y)
                && self.wall_at(x, y + 1) && self.wall_at(x + 1, y + 1),
        }
    }

    /// Looks at the neighbour of `cur` toward `news`: a diggable wall joins `digable_walls`,
    /// otherwise an open cell without the dead-end flag becomes the way back.
    fn probe(&self, cur: GridPos, news: News, digable_walls: &mut Vec<GridPos>, backtrack: &mut Option<GridPos>)
        requires
            self.wf(),
            self.view().inside(cur.x as int, cur.y as int),
        ensures
            final(digable_walls)@ == old(digable_walls)@ + dig_here(self.view(), cur, news),
            *final(backtrack) == (if back_toward(self.view(), cur, news) {
                Some(neighbor(cur, news))
            } else {
                *old(backtrack)
            }),
    {
        let (dx, dy) = news.offset();
        let next = GridPos { x: cur.x + dx, y: cur.y + dy };
        if !(1 <= next.x && next.x < self.width - 1 && 1 <= next.y && next.y < self.height - 1) {
            assert(old(digable_walls)@ + Seq::<GridPos>::empty() =~= old(digable_walls)@);
            return;
        }
        if self.is_wall(next) && self.is_digable(next, news) {
            digable_walls.push(next);
        } else {
            assert(old(digable_walls)@ + Seq::<GridPos>::empty() =~= old(digable_walls)@);
            if self.is_space(next) && !self.is_deadend(next) {
                *backtrack = Some(next);
            }
        }
    }

    /// The walls that could be dug from `cell`, in the order of `NEWS`, and the way back.
    fn survey(&self, cell: GridPos) -> (r: (Vec<GridPos>, Option<GridPos>))
        requires
            self.wf(),
            self.view().inside(cell.x as int, cell.y as int),
        ensures
            r.0@ == dig_candidates(self.view(), cell),
            r.1 == back_from(self.view(), cell),
    {
        let mut digable_walls: Vec<GridPos> = Vec::new();
        let mut backtrack: Option<GridPos> = None;
        self.probe(cell, News::South, &mut digable_walls, &mut backtrack);
        self.probe(cell, News::East, &mut digable_walls, &mut backtrack);
        self.probe(cell, News::West, &mut digable_walls, &mut backtrack);
        self.probe(cell, News::North, &mut digable_walls, &mut backtrack);
        proof {
            let v = self.view();
            assert(digable_walls@ =~= dig_candidates(v, cell));
        }
        (digable_walls, backtrack)
    }

    /// The seeded generator the carver draws from.
    pub closed spec fn generator(&self) -> StdRng {
        self.rng
    }

    /// One step of the carver at `cell`, with `pick` the number drawn to choose among the
    /// diggable walls. Returns the cell to go on from, or none when carving is over.
    pub fn carve_step(&mut self, cell: GridPos, pick: usize) -> (r: Option<GridPos>)
        requires
            old(self).wf(),
            old(self).view().inside(cell.x as int, cell.y as int),
        ensures
            (final(self).view(), r) == spec_carve_step(old(self).view(), cell, pick),
            final(self).wf(),
            final(self).generator() == old(self).generator(),
    {
        let ghost v = self.view();
        let (digable_walls, backtrack) = self.survey(cell);
        if digable_walls.len() > 0 {
            let c = digable_walls[pick % digable_walls.len()];
            proof {
                let k = pick as int % digable_walls@.len() as int;
                lemma_survey_inside(v, cell, k);
                lemma_index(v.width, v.height, c.x as int, c.y as int, c.x as int, c.y as int);
            }
            self.set_space(c);
            Some(c)
        } else {
            match backtrack {
                Some(b) => {
                    proof {
                        lemma_index(v.width, v.height, cell.x as int, cell.y as int, cell.x as int, cell.y as int);
                    }
                    self.add_flag_deadend(cell);
                    Some(b)
                },
                None => None,
            }
        }
    }

    /// Carves the maze from the start cell: a depth-first walk that digs a random diggable
    /// neighbour while there is one, and otherwise marks its cell as a dead end and steps back
    /// to the open neighbour not yet marked, stopping where there is none.
    fn build_labyrinth(&mut self)
        requires
            carving(old(self).view()),
            old(self).view().at(old(self).view().start.x as int, old(self).view().start.y as int) == BIT_CELL_SPACE,
            forall|x: int, y: int| #[trigger] old(self).view().is_open(x, y) ==> x == old(self).view().start.x && y == old(self).view().start.y,
        ensures
            carving(final(self).view()),
            exists|depth: spec_fn(int, int) -> nat| spanning_tree(final(self).view(), depth),
            complete(final(self).view()),
            exists|picks: Seq<usize>|
                carve_run(old(self).view(), old(self).view().start, picks) == (final(self).view(), None::<GridPos>),
            final(self).view().width == old(self).view().width,
            final(self).view().height == old(self).view().height,
            final(self).view().start == old(self).view().start,
    {
        let mut cell = self.start;
        let ghost mut depth = |x: int, y: int| 0nat;
        let ghost mut stack: Seq<(int, int)> = seq![(cell.x as int, cell.y as int)];
        let ghost mut picks: Seq<usize> = Seq::empty();
        proof {
            let v = self.view();
            lemma_cell_bits();
            assert forall|x: int, y: int| #[trigger] tree_node(v, depth, x, y) by {
                if v.is_open(x, y) {
                    assert(!v.is_open(x + 1, y) && !v.is_open(x, y + 1));
                }
            }
            assert forall|x: int, y: int| v.inside(x, y) && #[trigger] v.at(x, y) == BIT_CELL_SPACE implies stack.contains((x, y)) by {
                assert(v.is_open(x, y));
                assert(stack[0] == (x, y));
            }
        }
        loop
            invariant_except_break
                carve_run(old(self).view(), old(self).view().start, picks) == (self.view(), Some(cell)),
            invariant
                carving(self.view()),
                spanning_tree(self.view(), depth),
                dfs_stack(self.view(), depth, stack, cell),
                self.view().width == old(self).view().width,
                self.view().height == old(self).view().height,
                self.view().start == old(self).view().start,
                self.view().interior(cell.x as int, cell.y as int),
                self.view().at(cell.x as int, cell.y as int) == BIT_CELL_SPACE,
            ensures
                complete(self.view()),
                carve_run(old(self).view(), old(self).view().start, picks) == (self.view(), None::<GridPos>),
            decreases weight_sum(self.view().cells),
        {
            let ghost v = self.view();
            let (digable_walls, _) = self.survey(cell);
            let pick: usize = if digable_walls.len() > 0 {
                gen_index(&mut self.rng, digable_walls.len())
            } else {
                0
            };
            proof {
                lemma_survey(v, cell);
            }
            let step = self.carve_step(cell, pick);
            proof {
                let before = picks;
                picks = picks.push(pick);
                assert(picks.drop_last() =~= before);
                let cands = dig_candidates(v, cell);
                if cands.len() > 0 {
                    let c = cands[pick as int % cands.len() as int];
                    lemma_dig(v, cell, c);
                    lemma_cell_bits();
                    lemma_dig_tree(v, cell, c, depth);
                    lemma_dig_stack(v, depth, stack, cell, c);
                    stack = stack.push((c.x as int, c.y as int));
                    let (x, y, d0) = (c.x as int, c.y as int, depth);
                    let dc = d0(cell.x as int, cell.y as int);
                    depth = |x2: int, y2: int| if x2 == x && y2 == y { dc + 1 } else { d0(x2, y2) };
                } else if let Some(b) = back_from(v, cell) {
                    lemma_back_stack(v, depth, stack, cell, b);
                    stack = stack.drop_last();
                    lemma_mark_dead_end(v, cell, b);
                    lemma_cell_bits();
                } else {
                    lemma_finish(v, depth, stack, cell);
                }
            }
            match step {
                Some(next) => {
                    cell = next;
                },
                None => {
                    break;
                },
            }
        }
        assert(spanning_tree(self.view(), depth));
    }
}

/// Makes a new maze in place: every cell becomes a wall, the start moves to the centre
/// and is opened, and the maze is carved from it.
pub fn make_new_data(map: &mut Maze)
    requires
        old(map).wf(),
        3 <= old(map).view().width,
        3 <= old(map).view().height,
    ensures
        final(map).view().width == old(map).view().width,
        final(map).view().height == old(map).view().height,
        final(map).view().start == (GridPos { x: (old(map).view().width / 2) as i32, y: (old(map).view().height / 2) as i32 }),
        final(map).view().generated(),
        exists|picks: Seq<usize>|
            carve_run(
                fresh_maze(old(map).view().width, old(map).view().height),
                final(map).view().start,
                picks,
            ) == (final(map).view(), None::<GridPos>),
{
    map.fill_walls();
    map.start = GridPos { x: map.width / 2, y: map.height / 2 };
    let start = map.start;
    proof {
        let v = map.view();
        lemma_cell_bits();
        assert forall|x: int, y: int| v.inside(x, y) implies #[trigger] v.at(x, y) == BIT_CELL_WALL by {
            lemma_index(v.width, v.height, x, y, x, y);
        }
        assert forall|bx: int, by: int| !#[trigger] v.block_open(bx, by) by {
            if v.inside(bx, by) {
                assert(v.at(bx, by) == BIT_CELL_WALL);
            }
        }
        lemma_write(v, start.x as int, start.y as int, BIT_CELL_SPACE);
        let v2 = MazeView { cells: v.cells.update(start.x * v.height + start.y, BIT_CELL_SPACE), ..v };
        assert forall|bx: int, by: int| !#[trigger] v2.block_open(bx, by) by {
            if v.inside(bx, by) && v.inside(bx + 1, by + 1) {
                if bx != start.x || by != start.y {
                    assert(v2.at(bx, by) == BIT_CELL_WALL);
                } else {
                    assert(v2.at(bx + 1, by + 1) == BIT_CELL_WALL);
                }
            }
        }
        assert forall|x: int, y: int| v2.inside(x, y) implies {
            let c2 = #[trigger] v2.at(x, y);
            c2 == BIT_CELL_WALL || c2 == BIT_CELL_SPACE || c2 == (BIT_CELL_SPACE | BIT_FLAG_DEADEND)
        } by {
            if x != start.x || y != start.y {
                assert(v.at(x, y) == v2.at(x, y));
            }
        }
        assert forall|x: int, y: int| v2.inside(x, y) && !v2.interior(x, y) implies #[trigger] v2.at(x, y)
            == BIT_CELL_WALL by {
            assert(v.at(x, y) == v2.at(x, y));
        }
        let fresh = fresh_maze(v.width, v.height);
        let idx = start.x * v.height + start.y;
        lemma_index(v.width, v.height, start.x as int, start.y as int, start.x as int, start.y as int);
        assert(start.x as int == v.width / 2 && start.y as int == v.height / 2);
        assert(idx == (v.width / 2) * v.height + v.height / 2);
        assert(v2.cells.len() == fresh.cells.len());
        assert forall|i: int| 0 <= i < v2.cells.len() implies v2.cells[i] == fresh.cells[i] by {
            if i != idx {
                assert(v2.cells[i] == v.cells[i]);
            }
        }
        assert(v2.cells =~= fresh.cells);
        assert(v2 == fresh);
    }
    map.set_space(start);
    proof {
        let v = map.view();
        let (sx, sy) = (start.x as int, start.y as int);
        lemma_cell_bits();
        assert forall|x: int, y: int| #[trigger] v.is_open(x, y) implies x == sx && y == sy by {
            assert(v.at(x, y) == BIT_CELL_WALL || (x == sx && y == sy));
        }
    }
    map.build_labyrinth();
}

/// Two mazes of the same size carved with the same numbers drawn are the same maze.
pub proof fn lemma_same_draws_same_maze(width: int, height: int, picks: Seq<usize>, a: MazeView, b: MazeView)
    requires
        carve_run(fresh_maze(width, height), fresh_maze(width, height).start, picks) == (a, None::<GridPos>),
        carve_run(fresh_maze(width, height), fresh_maze(width, height).start, picks) == (b, None::<GridPos>),
    ensures
        a == b,
{
}

/// Marks the entity under which the maze's walls are drawn.
pub struct MapZeroEntity;

/// `path` walks from cell to cell through open cells, one orthogonal step at a time.
pub open spec fn open_path(v: MazeView, path: Seq<(int, int)>) -> bool {
    &&& path.len() >= 1
    &&& forall|i: int| 0 <= i < path.len() ==> v.is_open(#[trigger] path[i].0, path[i].1)
    &&& forall|i: int|
        0 <= i < path.len() - 1 ==> {
            let (a, b) = (#[trigger] path[i], path[i + 1]);
            (a.0 - b.0 == 1 || b.0 - a.0 == 1) && a.1 == b.1 || (a.1 - b.1 == 1 || b.1 - a.1 == 1) && a.0 == b.0
        }
}

#[verifier::spinoff_prover]
proof fn lemma_extend_path(v: MazeView, path: Seq<(int, int)>, x: int, y: int)
    requires
        open_path(v, path),
        v.is_open(x, y),
        (x - path[0].0 == 1 || path[0].0 - x == 1) && y == path[0].1 || (y - path[0].1 == 1 || path[0].1 - y
            == 1) && x == path[0].0,
    ensures
        open_path(v, seq![(x, y)] + path),
        (seq![(x, y)] + path)[0] == (x, y),
        (seq![(x, y)] + path).last() == path.last(),
{
    let longer = seq![(x, y)] + path;
    assert forall|i: int| 0 <= i < longer.len() implies v.is_open(#[trigger] longer[i].0, longer[i].1) by {
        if i > 0 {
            assert(longer[i] == path[i - 1]);
        }
    }
    assert forall|i: int| 0 <= i < longer.len() - 1 implies {
        let (a, b) = (#[trigger] longer[i], longer[i + 1]);
        (a.0 - b.0 == 1 || b.0 - a.0 == 1) && a.1 == b.1 || (a.1 - b.1 == 1 || b.1 - a.1 == 1) && a.0 == b.0
    } by {
        assert(longer[i + 1] == path[i]);
        if i > 0 {
            assert(longer[i] == path[i - 1]);
        }
    }
}

/// In a maze whose open cells form a tree rooted at the start, every open cell is joined
/// to the start by a path of open cells: the open cells are connected.
#[verifier::spinoff_prover]
pub proof fn lemma_tree_connected(v: MazeView, depth: spec_fn(int, int) -> nat, x: int, y: int)
    requires
        spanning_tree(v, depth),
        v.is_open(x, y),
    ensures
        exists|path: Seq<(int, int)>|
            open_path(v, path) && path[0] == (x, y) && path.last() == (v.start.x as int, v.start.y as int),
    decreases depth(x, y),
{
    assert(tree_node(v, depth, x, y));
    if x == v.start.x && y == v.start.y {
        let path = seq![(x, y)];
        assert(open_path(v, path));
        assert(path.last() == (v.start.x as int, v.start.y as int));
    } else {
        assert(parent_count(v, depth, x, y) == 1);
        let (px, py) = if v.is_open(x + 1, y) && depth(x + 1, y) + 1 == depth(x, y) {
            (x + 1, y)
        } else if v.is_open(x - 1, y) && depth(x - 1, y) + 1 == depth(x, y) {
            (x - 1, y)
        } else if v.is_open(x, y + 1) && depth(x, y + 1) + 1 == depth(x, y) {
            (x, y + 1)
        } else {
            (x, y - 1)
        };
        assert(v.is_open(px, py) && depth(px, py) < depth(x, y));
        lemma_tree_connected(v, depth, px, py);
        let rest = choose|path: Seq<(int, int)>|
            open_path(v, path) && path[0] == (px, py) && path.last() == (v.start.x as int, v.start.y as int);
        lemma_extend_path(v, rest, x, y);
    }
}

/// The open cells of the maze.
pub open spec fn open_cells(v: MazeView) -> Set<(int, int)> {
    Set::new(|p: (int, int)| v.is_open(p.0, p.1))
}

/// The edges between orthogonally adjacent open cells, each written once as a pair whose
/// second cell lies right of or below the first.
pub open spec fn open_edges(v: MazeView) -> Set<((int, int), (int, int))> {
    Set::new(
        |e: ((int, int), (int, int))|
            v.is_open(e.0.0, e.0.1) && v.is_open(e.1.0, e.1.1) && (e.1 == (e.0.0 + 1, e.0.1) || e.1 == (
            e.0.0, e.0.1 + 1)),
    )
}

spec fn grid(w: int, h: int) -> Set<(int, int)> {
    Set::new(|p: (int, int)| 0 <= p.0 < w && 0 <= p.1 < h)
}

proof fn lemma_grid_finite(w: int, h: int)
    requires
        0 <= w,
        0 <= h,
    ensures
        grid(w, h).finite(),
    decreases w,
{
    if w == 0 {
        assert(grid(w, h) =~= Set::<(int, int)>::empty());
    } else {
        lemma_grid_finite(w - 1, h);
        let f = |y: int| (w - 1, y);
        let col = vstd::set_lib::set_int_range(0, h).map(f);
        vstd::set_lib::lemma_int_range(0, h);
        vstd::set_lib::lemma_map_size_bound(vstd::set_lib::set_int_range(0, h), col, f);
        assert forall|p: (int, int)| #[trigger] grid(w, h).contains(p) implies grid(w - 1, h).union(col).contains(p) by {
            if p.0 == w - 1 {
                assert(vstd::set_lib::set_int_range(0, h).contains(p.1) && f(p.1) == p);
            }
        }
        assert(grid(w, h) =~= grid(w - 1, h).union(col));
    }
}

/// The open neighbour one level up from `(x, y)`.
pub open spec fn parent_of(v: MazeView, depth: spec_fn(int, int) -> nat, x: int, y: int) -> (int, int) {
    if v.is_open(x + 1, y) && depth(x + 1, y) + 1 == depth(x, y) {
        (x + 1, y)
    } else if v.is_open(x - 1, y) && depth(x - 1, y) + 1 == depth(x, y) {
        (x - 1, y)
    } else if v.is_open(x, y + 1) && depth(x, y + 1) + 1 == depth(x, y) {
        (x, y + 1)
    } else {
        (x, y - 1)
    }
}

/// The edge from an open cell up to its parent, written as in `open_edges`.
pub open spec fn edge_up(v: MazeView, depth: spec_fn(int, int) -> nat, q: (int, int)) -> ((int, int), (int, int)) {
    let p = parent_of(v, depth, q.0, q.1);
    if q == (p.0 + 1, p.1) || q == (p.0, p.1 + 1) {
        (p, q)
    } else {
        (q, p)
    }
}

/// In a maze whose open cells form a tree rooted at the start, there are finitely many
/// open cells and exactly one edge fewer between orthogonally adjacent open cells: each
/// open cell but the start owns the edge up to its parent, and every edge is owned so.
pub proof fn lemma_tree_edge_count(v: MazeView, depth: spec_fn(int, int) -> nat)
    requires
        v.wf(),
        spanning_tree(v, depth),
        v.is_open(v.start.x as int, v.start.y as int),
    ensures
        open_cells(v).finite(),
        open_edges(v).len() + 1 == open_cells(v).len(),
{
    let s = (v.start.x as int, v.start.y as int);
    let cells = open_cells(v);
    let below = cells.remove(s);
    let g = |q: (int, int)| edge_up(v, depth, q);
    lemma_grid_finite(v.width, v.height);
    vstd::set_lib::lemma_len_subset(cells, grid(v.width, v.height));
    assert(cells.contains(s));
    // Each open cell other than the start has its parent one level up.
    assert forall|q: (int, int)| #[trigger] below.contains(q) implies {
        let p = parent_of(v, depth, q.0, q.1);
        v.is_open(p.0, p.1) && depth(p.0, p.1) + 1 == depth(q.0, q.1) && (p.0 - q.0 == 1 || q.0 - p.0 == 1)
            && p.1 == q.1 || v.is_open(p.0, p.1) && depth(p.0, p.1) + 1 == depth(q.0, q.1) && (p.1 - q.1 == 1
            || q.1 - p.1 == 1) && p.0 == q.0
    } by {
        assert(tree_node(v, depth, q.0, q.1));
    }
    assert forall|qa: (int, int), qb: (int, int)|
        below.contains(qa) && below.contains(qb) && #[trigger] g(qa) == #[trigger] g(qb) implies qa == qb by {
        let upa = parent_of(v, depth, qa.0, qa.1);
        let upb = parent_of(v, depth, qb.0, qb.1);
        assert(depth(upa.0, upa.1) + 1 == depth(qa.0, qa.1));
        assert(depth(upb.0, upb.1) + 1 == depth(qb.0, qb.1));
    }
    assert(vstd::relations::injective_on(g, below));
    assert forall|e: ((int, int), (int, int))| #[trigger] open_edges(v).contains(e) implies below.map(g).contains(e) by {
        let (a, b) = e;
        assert(tree_node(v, depth, a.0, a.1));
        assert(consecutive(depth(a.0, a.1), depth(b.0, b.1)));
        let (p, q) = if depth(a.0, a.1) < depth(b.0, b.1) { (a, b) } else { (b, a) };
        assert(tree_node(v, depth, q.0, q.1));
        assert(q != s);
        assert(parent_count(v, depth, q.0, q.1) == 1);
        assert(parent_of(v, depth, q.0, q.1) == p);
        assert(below.contains(q) && g(q) == e);
    }
    assert forall|e: ((int, int), (int, int))| #[trigger] below.map(g).contains(e) implies open_edges(v).contains(e) by {
        let q = choose|q: (int, int)| below.contains(q) && g(q) == e;
        assert(below.contains(q));
    }
    assert(below.map(g) =~= open_edges(v));
    vstd::set_lib::lemma_map_size(below, open_edges(v), g);
}

/// A generated maze is perfect: its open cells are connected, each joined to the start by
/// a path of open cells, and there is exactly one edge fewer between orthogonally adjacent
/// open cells than there are open cells, so no loop exists.
pub proof fn lemma_generated_perfect(v: MazeView)
    requires
        v.generated(),
    ensures
        forall|x: int, y: int|
            #[trigger] v.is_open(x, y) ==> exists|path: Seq<(int, int)>|
                open_path(v, path) && path[0] == (x, y) && path.last() == (v.start.x as int, v.start.y as int),
        open_cells(v).finite(),
        open_edges(v).len() + 1 == open_cells(v).len(),
{
    let depth = choose|depth: spec_fn(int, int) -> nat| spanning_tree(v, depth);
    lemma_tree_edge_count(v, depth);
    assert forall|x: int, y: int| #[trigger] v.is_open(x, y) implies exists|path: Seq<(int, int)>|
        open_path(v, path) && path[0] == (x, y) && path.last() == (v.start.x as int, v.start.y as int) by {
        lemma_tree_connected(v, depth, x, y);
    }
}

/// A cell exhausted before a wall is opened stays exhausted: opening a wall only takes
/// walls away from every footprint.
proof fn lemma_exhausted_after_dig(v: MazeView, c: GridPos, x: int, y: int)
    requires
        carving(v),
        v.inside(c.x as int, c.y as int),
        exhausted(v, x, y),
    ensures
        exhausted(MazeView { cells: v.cells.update(c.x * v.height + c.y, BIT_CELL_SPACE), ..v }, x, y),
{
    let v2 = MazeView { cells: v.cells.update(c.x * v.height + c.y, BIT_CELL_SPACE), ..v };
    lemma_write(v, c.x as int, c.y as int, BIT_CELL_SPACE);
    lemma_cell_bits();
    assert forall|qx: int, qy: int| #[trigger] v2.is_wall(qx, qy) implies v.is_wall(qx, qy) by {
        if v.inside(qx, qy) && (qx != c.x || qy != c.y) {
            assert(v2.at(qx, qy) == v.at(qx, qy));
        }
    }
}

proof fn lemma_dig_stack(v: MazeView, depth: spec_fn(int, int) -> nat, stack: Seq<(int, int)>, cur: GridPos, c: GridPos)
    requires
        carving(v),
        dig_ok(v, cur, c),
        dfs_stack(v, depth, stack, cur),
    ensures
        ({
            let (x, y) = (c.x as int, c.y as int);
            let v2 = MazeView { cells: v.cells.update(x * v.height + y, BIT_CELL_SPACE), ..v };
            let dc = depth(cur.x as int, cur.y as int);
            let depth2 = |x2: int, y2: int| if x2 == x && y2 == y { dc + 1 } else { depth(x2, y2) };
            dfs_stack(v2, depth2, stack.push((x, y)), c)
        }),
{
    let (x, y) = (c.x as int, c.y as int);
    let v2 = MazeView { cells: v.cells.update(x * v.height + y, BIT_CELL_SPACE), ..v };
    let dc = depth(cur.x as int, cur.y as int);
    let depth2 = |x2: int, y2: int| if x2 == x && y2 == y { dc + 1 } else { depth(x2, y2) };
    let stack2 = stack.push((x, y));
    lemma_write(v, x, y, BIT_CELL_SPACE);
    lemma_cell_bits();
    let n = stack.len() as int;
    assert(stack[n - 1] == (cur.x as int, cur.y as int));
    assert forall|i: int| 0 <= i < stack2.len() implies {
        let q = #[trigger] stack2[i];
        depth2(q.0, q.1) == i && v2.inside(q.0, q.1) && v2.at(q.0, q.1) == BIT_CELL_SPACE
    } by {
        if i < n {
            let q = stack[i];
            assert(stack2[i] == q);
            assert(v.at(q.0, q.1) == BIT_CELL_SPACE);
            assert(q.0 != x || q.1 != y);
            assert(v2.at(q.0, q.1) == v.at(q.0, q.1));
        }
    }
    let d = choose|d: News| x == cur.x + spec_dx(d) && y == cur.y + spec_dy(d) && #[trigger] v.diggable(x, y, d);
    assert forall|i: int| 0 <= i < stack2.len() - 1 implies adjacent(#[trigger] stack2[i], stack2[i + 1]) by {
        if i < n - 1 {
            assert(stack2[i] == stack[i] && stack2[i + 1] == stack[i + 1]);
        }
    }
    assert forall|x2: int, y2: int| v2.inside(x2, y2) && #[trigger] v2.at(x2, y2) == BIT_CELL_SPACE implies stack2.contains(
        (x2, y2),
    ) by {
        if x2 == x && y2 == y {
            assert(stack2[n] == (x2, y2));
        } else {
            assert(v2.at(x2, y2) == v.at(x2, y2));
            let k = choose|k: int| 0 <= k < n && stack[k] == (x2, y2);
            assert(stack2[k] == (x2, y2));
        }
    }
    assert forall|x2: int, y2: int| v2.is_open(x2, y2) && v2.at(x2, y2) != BIT_CELL_SPACE implies #[trigger] exhausted(
        v2,
        x2,
        y2,
    ) by {
        assert(x2 != x || y2 != y);
        assert(v2.at(x2, y2) == v.at(x2, y2));
        assert(exhausted(v, x2, y2));
        lemma_exhausted_after_dig(v, c, x2, y2);
    }
}

proof fn lemma_back_stack(v: MazeView, depth: spec_fn(int, int) -> nat, stack: Seq<(int, int)>, cur: GridPos, b: GridPos)
    requires
        carving(v),
        spanning_tree(v, depth),
        dfs_stack(v, depth, stack, cur),
        exhausted(v, cur.x as int, cur.y as int),
        back_ok(v, cur, b),
    ensures
        ({
            let (x, y) = (cur.x as int, cur.y as int);
            let v2 = MazeView { cells: v.cells.update(x * v.height + y, BIT_CELL_SPACE | BIT_FLAG_DEADEND), ..v };
            &&& stack.len() >= 2
            &&& dfs_stack(v2, depth, stack.drop_last(), b)
        }),
{
    let (x, y) = (cur.x as int, cur.y as int);
    let v2 = MazeView { cells: v.cells.update(x * v.height + y, BIT_CELL_SPACE | BIT_FLAG_DEADEND), ..v };
    let stack2 = stack.drop_last();
    let n = stack.len() as int;
    lemma_write(v, x, y, BIT_CELL_SPACE | BIT_FLAG_DEADEND);
    lemma_cell_bits();
    let (bx, by) = (b.x as int, b.y as int);
    assert(stack[n - 1] == (x, y));
    assert(depth(x, y) == n - 1);
    assert(stack.contains((bx, by)));
    let j = choose|j: int| 0 <= j < n && stack[j] == (bx, by);
    assert(depth(bx, by) == j);
    assert(v.is_open(x, y) && v.is_open(bx, by));
    assert(tree_node(v, depth, x, y) && tree_node(v, depth, bx, by));
    assert(consecutive(depth(x, y), depth(bx, by)));
    assert(j == n - 2);
    assert forall|qx: int, qy: int| #[trigger] v2.is_wall(qx, qy) == v.is_wall(qx, qy) by {
        if v.inside(qx, qy) && (qx != x || qy != y) {
            assert(v2.at(qx, qy) == v.at(qx, qy));
        }
    }
    assert forall|qx: int, qy: int| #[trigger] v2.is_open(qx, qy) == v.is_open(qx, qy) by {
        if v.inside(qx, qy) && (qx != x || qy != y) {
            assert(v2.at(qx, qy) == v.at(qx, qy));
        }
    }
    assert forall|i: int| 0 <= i < stack2.len() implies {
        let q = #[trigger] stack2[i];
        depth(q.0, q.1) == i && v2.inside(q.0, q.1) && v2.at(q.0, q.1) == BIT_CELL_SPACE
    } by {
        let q = stack[i];
        assert(stack2[i] == q);
        assert(depth(q.0, q.1) == i);
        assert(q.0 != x || q.1 != y);
        assert(v2.at(q.0, q.1) == v.at(q.0, q.1));
    }
    assert forall|i: int| 0 <= i < stack2.len() - 1 implies adjacent(#[trigger] stack2[i], stack2[i + 1]) by {
        assert(stack2[i] == stack[i] && stack2[i + 1] == stack[i + 1]);
    }
    assert forall|x2: int, y2: int| v2.inside(x2, y2) && #[trigger] v2.at(x2, y2) == BIT_CELL_SPACE implies stack2.contains(
        (x2, y2),
    ) by {
        assert(x2 != x || y2 != y);
        assert(v2.at(x2, y2) == v.at(x2, y2));
        let k = choose|k: int| 0 <= k < n && stack[k] == (x2, y2);
        assert(k != n - 1);
        assert(stack2[k] == (x2, y2));
    }
    assert forall|x2: int, y2: int| v2.is_open(x2, y2) && v2.at(x2, y2) != BIT_CELL_SPACE implies #[trigger] exhausted(
        v2,
        x2,
        y2,
    ) by {
        if x2 != x || y2 != y {
            assert(v2.at(x2, y2) == v.at(x2, y2));
            assert(exhausted(v, x2, y2));
        }
    }
    assert(stack2.last() == stack[n - 2]);
}

proof fn lemma_finish(v: MazeView, depth: spec_fn(int, int) -> nat, stack: Seq<(int, int)>, cur: GridPos)
    requires
        carving(v),
        dfs_stack(v, depth, stack, cur),
        exhausted(v, cur.x as int, cur.y as int),
        !back_cand(v, cur.x as int, cur.y as int, News::South),
        !back_cand(v, cur.x as int, cur.y as int, News::East),
        !back_cand(v, cur.x as int, cur.y as int, News::West),
        !back_cand(v, cur.x as int, cur.y as int, News::North),
    ensures
        complete(v),
{
    lemma_cell_bits();
    let n = stack.len() as int;
    assert(stack[n - 1] == (cur.x as int, cur.y as int));
    if n >= 2 {
        let p = stack[n - 2];
        assert(adjacent(stack[n - 2], stack[n - 1]));
        assert(v.inside(p.0, p.1) && v.at(p.0, p.1) == BIT_CELL_SPACE);
        assert(v.interior(p.0, p.1));
        assert(false);
    }
    assert forall|x: int, y: int| v.is_open(x, y) implies #[trigger] exhausted(v, x, y) by {
        if v.at(x, y) == BIT_CELL_SPACE {
            let k = choose|k: int| 0 <= k < n && stack[k] == (x, y);
        }
    }
}

/// What one side of an interior cell offers the carver, in the terms of its invariant.
proof fn lemma_side(v: MazeView, cell: GridPos, d: News)
    requires
        carving(v),
        v.interior(cell.x as int, cell.y as int),
    ensures
        can_dig_toward(v, cell.x as int, cell.y as int, d) ==> dig_ok(v, cell, neighbor(cell, d)),
        back_toward(v, cell, d) == back_cand(v, cell.x as int, cell.y as int, d),
        back_toward(v, cell, d) ==> back_ok(v, cell, neighbor(cell, d)),
{
    lemma_cell_bits();
    let (nx, ny) = (cell.x + spec_dx(d), cell.y + spec_dy(d));
    let n = neighbor(cell, d);
    assert(n.x as int == nx && n.y as int == ny);
    if v.inside(nx, ny) {
        let c = v.at(nx, ny);
        assert(c == BIT_CELL_WALL || c == BIT_CELL_SPACE || c == 5u8);
    }
    if can_dig_toward(v, cell.x as int, cell.y as int, d) {
        assert(v.diggable(nx, ny, d));
    }
}

/// What a survey of an interior cell offers the carver, in the terms of its invariant.
proof fn lemma_survey(v: MazeView, cell: GridPos)
    requires
        carving(v),
        v.interior(cell.x as int, cell.y as int),
    ensures
        forall|k: int| 0 <= k < dig_candidates(v, cell).len() ==> dig_ok(v, cell, #[trigger] dig_candidates(v, cell)[k]),
        dig_candidates(v, cell).len() == 0 ==> exhausted(v, cell.x as int, cell.y as int),
        back_from(v, cell) matches Some(b) ==> back_ok(v, cell, b),
        back_from(v, cell) is None ==> {
            &&& !back_cand(v, cell.x as int, cell.y as int, News::South)
            &&& !back_cand(v, cell.x as int, cell.y as int, News::East)
            &&& !back_cand(v, cell.x as int, cell.y as int, News::West)
            &&& !back_cand(v, cell.x as int, cell.y as int, News::North)
        },
{
    lemma_side(v, cell, News::South);
    lemma_side(v, cell, News::East);
    lemma_side(v, cell, News::West);
    lemma_side(v, cell, News::North);
    let cands = dig_candidates(v, cell);
    assert forall|k: int| 0 <= k < cands.len() implies dig_ok(v, cell, #[trigger] cands[k]) by {
        let (s, e, w, n) = (
            dig_here(v, cell, News::South),
            dig_here(v, cell, News::East),
            dig_here(v, cell, News::West),
            dig_here(v, cell, News::North),
        );
        assert(cands == s + e + w + n);
        let ls = s.len() as int;
        let le = ls + e.len();
        let lw = le + w.len();
        if k < ls {
            assert(cands[k] == s[k]);
        } else if k < le {
            assert(cands[k] == e[k - ls]);
        } else if k < lw {
            assert(cands[k] == w[k - le]);
        } else {
            assert(cands[k] == n[k - lw]);
        }
    }
}

/// A chosen candidate is an interior cell.
proof fn lemma_survey_inside(v: MazeView, cell: GridPos, k: int)
    requires
        v.wf(),
        0 <= k < dig_candidates(v, cell).len(),
    ensures
        v.interior(dig_candidates(v, cell)[k].x as int, dig_candidates(v, cell)[k].y as int),
{
    let cands = dig_candidates(v, cell);
    let (s, e, w, n) = (
        dig_here(v, cell, News::South),
        dig_here(v, cell, News::East),
        dig_here(v, cell, News::West),
        dig_here(v, cell, News::North),
    );
    let ls = s.len() as int;
    let le = ls + e.len();
    let lw = le + w.len();
    let d = if k < ls {
        assert(cands[k] == s[k]);
        News::South
    } else if k < le {
        assert(cands[k] == e[k - ls]);
        News::East
    } else if k < lw {
        assert(cands[k] == w[k - le]);
        News::West
    } else {
        assert(cands[k] == n[k - lw]);
        News::North
    };
    assert(cands[k] == neighbor(cell, d) && can_dig_toward(v, cell.x as int, cell.y as int, d));
}

} // verus!
