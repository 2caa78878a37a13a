//! A rectangular grid of cells with a configurable diagonal policy.

use vstd::prelude::*;
use crate::cost::{cost_scale, cost_scaled, span, Cost, COST_INFINITY, COST_ONE, COST_SQRT2};
use crate::heuristics::Position;
use crate::traits::{Graph, Keyed};

verus! {

#[derive(Clone, Copy, Debug, PartialEq, Eq, Hash, Structural)]
pub struct GridPos {
    pub x: i32,
    pub y: i32,
}

#[derive(Clone, Copy, Debug, PartialEq, Eq, Structural)]
pub enum CellType {
    /// With movement cost multiplier.
    Passable(Cost),
    Blocked,
}

#[derive(Clone, Copy, Debug, PartialEq, Eq, Structural)]
pub enum DiagonalMode {
    Never,
    Always,
    /// At least one cardinal neighbor must be open.
    IfNoObstacle,
    /// Both adjacent cardinals must be open (no corner cutting).
    OnlyIfBothOpen,
}

pub struct Grid2D {
    pub width: usize,
    pub height: usize,
    pub cells: Vec<CellType>,
    pub diagonal_movement: DiagonalMode,
}

/// The state of Bresenham's walk from one cell towards another.
pub ghost struct Ray {
    pub x: int,
    pub y: int,
    pub err: int,
}

/// `y * width + x` stays inside a `width * height` buffer.
pub proof fn lemma_cell_index(width: int, height: int, x: int, y: int)
    requires
        0 <= x < width,
        0 <= y < height,
    ensures
        0 <= y * width + x < width * height,
        y * width >= 0,
{
    assert(y * width + x < width * height && y * width >= 0) by (nonlinear_arith)
        requires
            0 <= x < width,
            0 <= y < height,
    ;
}

/// Two in-range coordinate pairs with the same index are the same pair.
pub proof fn lemma_cell_index_injective(width: int, x1: int, y1: int, x2: int, y2: int)
    requires
        0 <= x1 < width,
        0 <= x2 < width,
        0 <= y1,
        0 <= y2,
        y1 * width + x1 == y2 * width + x2,
    ensures
        x1 == x2,
        y1 == y2,
{
    if y1 < y2 {
        assert(y2 * width >= (y1 + 1) * width) by (nonlinear_arith)
            requires
                y1 < y2,
                width > 0,
        ;
        assert((y1 + 1) * width == y1 * width + width) by (nonlinear_arith);
    } else if y2 < y1 {
        assert(y1 * width >= (y2 + 1) * width) by (nonlinear_arith)
            requires
                y2 < y1,
                width > 0,
        ;
        assert((y2 + 1) * width == y2 * width + width) by (nonlinear_arith);
    }
}

impl Keyed for GridPos {
    open spec fn key_of(self) -> u128 {
        ((self.x + 0x8000_0000) * 0x1_0000_0000 + (self.y + 0x8000_0000)) as u128
    }

    fn key(&self) -> (k: u128) {
        let hi: u128 = (self.x as i64 + 0x8000_0000) as u128;
        let lo: u128 = (self.y as i64 + 0x8000_0000) as u128;
        hi * 0x1_0000_0000 + lo
    }

    proof fn key_is_injective(a: Self, b: Self) {
    }
}

impl Position for GridPos {
    open spec fn x_of(&self) -> i64 {
        (self.x * 1_000_000) as i64
    }

    open spec fn y_of(&self) -> i64 {
        (self.y * 1_000_000) as i64
    }

    open spec fn z_of(&self) -> i64 {
        0
    }

    fn x(&self) -> (r: i64) {
        self.x as i64 * 1_000_000
    }

    fn y(&self) -> (r: i64) {
        self.y as i64 * 1_000_000
    }

    fn z(&self) -> (r: i64) {
        0
    }
}

impl Grid2D {
    /// The storage holds exactly one cell per coordinate pair.
    pub open spec fn well_formed(&self) -> bool {
        self.cells@.len() == self.width * self.height
    }

    /// The cell at an in-range coordinate pair.
    pub open spec fn cell(&self, x: int, y: int) -> CellType
        recommends
            0 <= x < self.width,
            0 <= y < self.height,
    {
        self.cells@[y * self.width + x]
    }

    /// Whether a coordinate pair names a cell of the grid.
    pub open spec fn in_bounds(&self, x: int, y: int) -> bool {
        0 <= x < self.width && 0 <= y < self.height && x <= i32::MAX && y <= i32::MAX
    }

    /// Out-of-bounds coordinates are blocked; a cell is blocked when it is marked so.
    pub open spec fn blocked(&self, x: int, y: int) -> bool {
        !self.in_bounds(x, y) || self.cell(x, y) == CellType::Blocked
    }

    /// The cost multiplier of a cell, `COST_INFINITY` where blocked.
    pub open spec fn cost_at(&self, x: int, y: int) -> Cost {
        if !self.in_bounds(x, y) {
            COST_INFINITY
        } else {
            match self.cell(x, y) {
                CellType::Passable(c) => c,
                CellType::Blocked => COST_INFINITY,
            }
        }
    }

    /// Whether the policy lets a diagonal step `(dx, dy)` leave `from`.
    pub open spec fn diagonal_allowed(&self, from: GridPos, dx: int, dy: int) -> bool {
        match self.diagonal_movement {
            DiagonalMode::Never => false,
            DiagonalMode::Always => true,
            DiagonalMode::IfNoObstacle => !self.blocked(from.x + dx, from.y as int) || !self.blocked(
                from.x as int,
                from.y + dy,
            ),
            DiagonalMode::OnlyIfBothOpen => !self.blocked(from.x + dx, from.y as int) && !self.blocked(
                from.x as int,
                from.y + dy,
            ),
        }
    }

    /// The edge from `node` along the cardinal step `(dx, dy)`, if there is one.
    pub open spec fn cardinal_edge(&self, node: GridPos, dx: int, dy: int) -> Seq<(GridPos, Cost)> {
        let nx = node.x + dx;
        let ny = node.y + dy;
        if self.blocked(nx, ny) {
            Seq::empty()
        } else {
            seq![(GridPos { x: nx as i32, y: ny as i32 }, self.cost_at(nx, ny))]
        }
    }

    /// The edge from `node` along the diagonal step `(dx, dy)`, if there is one.
    pub open spec fn diagonal_edge(&self, node: GridPos, dx: int, dy: int) -> Seq<(GridPos, Cost)> {
        let nx = node.x + dx;
        let ny = node.y + dy;
        if self.blocked(nx, ny) || !self.diagonal_allowed(node, dx, dy) {
            Seq::empty()
        } else {
            seq![(GridPos { x: nx as i32, y: ny as i32 }, cost_scaled(self.cost_at(nx, ny), COST_SQRT2))]
        }
    }

    /// The four cardinal edges, then the four diagonal ones.
    #[verifier::opaque]
    pub open spec fn edges_of(&self, node: GridPos) -> Seq<(GridPos, Cost)> {
        self.cardinal_edge(node, 0, 1) + self.cardinal_edge(node, 1, 0) + self.cardinal_edge(
            node,
            0,
            -1,
        ) + self.cardinal_edge(node, -1, 0) + self.diagonal_edge(node, 1, 1) + self.diagonal_edge(
            node,
            1,
            -1,
        ) + self.diagonal_edge(node, -1, 1) + self.diagonal_edge(node, -1, -1)
    }

    /// One step of Bresenham's walk towards `(x1, y1)`.
    pub open spec fn ray_next(r: Ray, x1: int, y1: int, dx: int, dy: int) -> Ray {
        let sx: int = if r.x < x1 { 1 } else { -1 };
        let sy: int = if r.y < y1 { 1 } else { -1 };
        let e2 = 2 * r.err;
        let mid = if e2 > -dy {
            Ray { x: r.x + sx, y: r.y, err: r.err - dy }
        } else {
            r
        };
        if e2 < dx {
            Ray { x: mid.x, y: mid.y + sy, err: mid.err + dx }
        } else {
            mid
        }
    }

    /// The cells still to be crossed before `(x1, y1)`.
    pub open spec fn ray_left(r: Ray, x1: int, y1: int) -> nat {
        (if r.x <= x1 { x1 - r.x } else { r.x - x1 } + if r.y <= y1 { y1 - r.y } else { r.y - y1 }) as nat
    }

    /// Whether every cell that Bresenham's walk visits from `r` to `(x1, y1)` is open.
    pub open spec fn ray_clear(&self, r: Ray, x1: int, y1: int, dx: int, dy: int) -> bool
        decreases Self::ray_left(r, x1, y1),
    {
        if self.blocked(r.x, r.y) {
            false
        } else if r.x == x1 && r.y == y1 {
            true
        } else {
            let n = Self::ray_next(r, x1, y1, dx, dy);
            Self::ray_left(n, x1, y1) < Self::ray_left(r, x1, y1) && self.ray_clear(n, x1, y1, dx, dy)
        }
    }

    /// Whether the straight line between two cells crosses open cells only.
    pub open spec fn line_of_sight(&self, from: GridPos, to: GridPos) -> bool {
        let dx = span(from.x as i64, to.x as i64) as int;
        let dy = span(from.y as i64, to.y as i64) as int;
        self.ray_clear(Ray { x: from.x as int, y: from.y as int, err: dx - dy }, to.x as int, to.y as int, dx, dy)
    }

    /// A grid of the given size with every cell passable at cost `COST_ONE`.
    pub fn new(width: usize, height: usize, diagonal_movement: DiagonalMode) -> (g: Self)
        requires
            width * height <= usize::MAX,
        ensures
            g.well_formed(),
            g.width == width,
            g.height == height,
            g.diagonal_movement == diagonal_movement,
            forall|i: int| 0 <= i < g.cells@.len() ==> g.cells@[i] == CellType::Passable(COST_ONE),
    {
        let total: usize = width * height;
        let mut cells: Vec<CellType> = Vec::new();
        let mut i: usize = 0;
        while i < total
            invariant
                i <= total,
                cells@.len() == i,
                forall|j: int| 0 <= j < i ==> cells@[j] == CellType::Passable(COST_ONE),
            decreases total - i,
        {
            cells.push(CellType::Passable(COST_ONE));
            i += 1;
        }
        Grid2D { width, height, cells, diagonal_movement }
    }

    fn put(&mut self, x: usize, y: usize, value: CellType)
        requires
            old(self).well_formed(),
        ensures
            final(self).well_formed(),
            final(self).width == old(self).width,
            final(self).height == old(self).height,
            final(self).diagonal_movement == old(self).diagonal_movement,
            x < old(self).width && y < old(self).height ==> final(self).cells@ == old(self).cells@.update(
                y * old(self).width + x,
                value,
            ),
            !(x < old(self).width && y < old(self).height) ==> final(self).cells@ == old(self).cells@,
    {
        if x < self.width && y < self.height {
            let len: usize = self.cells.len();
            proof {
                lemma_cell_index(self.width as int, self.height as int, x as int, y as int);
                assert(y * self.width + x < len);
            }
            let idx: usize = y * self.width + x;
            self.cells.set(idx, value);
        }
    }

    /// Marks the cell blocked, or passable at cost `COST_ONE`. Out-of-range coordinates are ignored.
    pub fn set_blocked(&mut self, x: usize, y: usize, blocked: bool)
        requires
            old(self).well_formed(),
        ensures
            final(self).well_formed(),
            final(self).width == old(self).width,
            final(self).height == old(self).height,
            final(self).diagonal_movement == old(self).diagonal_movement,
            x < old(self).width && y < old(self).height ==> final(self).cells@ == old(self).cells@.update(
                y * old(self).width + x,
                if blocked {
                    CellType::Blocked
                } else {
                    CellType::Passable(COST_ONE)
                },
            ),
            !(x < old(self).width && y < old(self).height) ==> final(self).cells@ == old(self).cells@,
    {
        let value = if blocked {
            CellType::Blocked
        } else {
            CellType::Passable(COST_ONE)
        };
        self.put(x, y, value);
    }

    /// Makes the cell passable at the given cost multiplier. Out-of-range coordinates are ignored.
    pub fn set_cost(&mut self, x: usize, y: usize, cost: Cost)
        requires
            old(self).well_formed(),
        ensures
            final(self).well_formed(),
            final(self).width == old(self).width,
            final(self).height == old(self).height,
            final(self).diagonal_movement == old(self).diagonal_movement,
            x < old(self).width && y < old(self).height ==> final(self).cells@ == old(self).cells@.update(
                y * old(self).width + x,
                CellType::Passable(cost),
            ),
            !(x < old(self).width && y < old(self).height) ==> final(self).cells@ == old(self).cells@,
    {
        self.put(x, y, CellType::Passable(cost));
    }

    /// Marks every cell of the rectangle `(x, y, width, height)` blocked, or
    /// passable at cost `COST_ONE`. The part of the rectangle outside the grid is ignored.
    pub fn set_region_blocked(&mut self, rect: (usize, usize, usize, usize), blocked: bool)
        requires
            old(self).well_formed(),
        ensures
            final(self).well_formed(),
            final(self).width == old(self).width,
            final(self).height == old(self).height,
            final(self).diagonal_movement == old(self).diagonal_movement,
            forall|x: int, y: int|
                0 <= x < final(self).width && 0 <= y < final(self).height ==> #[trigger] final(self).cell(x, y)
                    == (if rect.0 <= x < rect.0 + rect.2 && rect.1 <= y < rect.1 + rect.3 {
                    if blocked {
                        CellType::Blocked
                    } else {
                        CellType::Passable(COST_ONE)
                    }
                } else {
                    old(self).cell(x, y)
                }),
    {
        let (rx, ry, rw, rh) = rect;
        let x_end: usize = if rw >= self.width || rx >= self.width - rw { self.width } else { rx + rw };
        let y_end: usize = if rh >= self.height || ry >= self.height - rh { self.height } else { ry + rh };
        let value = if blocked {
            CellType::Blocked
        } else {
            CellType::Passable(COST_ONE)
        };
        let mut y: usize = ry;
        while y < y_end
            invariant
                self.well_formed(),
                self.width == old(self).width,
                self.height == old(self).height,
                self.diagonal_movement == old(self).diagonal_movement,
                y_end <= self.height,
                x_end <= self.width,
                x_end == (if rx + rw <= self.width { rx + rw } else { self.width as int }),
                y_end == (if ry + rh <= self.height { ry + rh } else { self.height as int }),
                ry <= y,
                y <= y_end || y == ry,
                value == (if blocked { CellType::Blocked } else { CellType::Passable(COST_ONE) }),
                forall|cx: int, cy: int|
                    0 <= cx < self.width && 0 <= cy < self.height ==> #[trigger] self.cell(cx, cy) == (if rx
                        <= cx < rx + rw && ry <= cy < y {
                        value
                    } else {
                        old(self).cell(cx, cy)
                    }),
            decreases y_end - y,
        {
            let mut x: usize = rx;
            while x < x_end
                invariant
                    self.well_formed(),
                    self.width == old(self).width,
                    self.height == old(self).height,
                    self.diagonal_movement == old(self).diagonal_movement,
                    y < y_end <= self.height,
                    x_end <= self.width,
                    x_end == (if rx + rw <= self.width { rx + rw } else { self.width as int }),
                    rx <= x,
                    ry <= y,
                    forall|cx: int, cy: int|
                        0 <= cx < self.width && 0 <= cy < self.height ==> #[trigger] self.cell(cx, cy) == (if rx
                            <= cx < rx + rw && ((ry <= cy < y) || (cy == y && cx < x)) {
                            value
                        } else {
                            old(self).cell(cx, cy)
                        }),
                decreases x_end - x,
            {
                let ghost before = *self;
                self.put(x, y, value);
                proof {
                    lemma_cell_index(self.width as int, self.height as int, x as int, y as int);
                    assert forall|cx: int, cy: int|
                        0 <= cx < self.width && 0 <= cy < self.height implies #[trigger] self.cell(cx, cy) == (if rx
                        <= cx < rx + rw && ((ry <= cy < y) || (cy == y && cx < x + 1)) {
                        value
                    } else {
                        old(self).cell(cx, cy)
                    }) by {
                        lemma_cell_index(self.width as int, self.height as int, cx, cy);
                        if cy * self.width + cx == y * self.width + x {
                            lemma_cell_index_injective(self.width as int, cx, cy, x as int, y as int);
                        }
                        assert(before.cell(cx, cy) == before.cells@[cy * self.width + cx]);
                    }
                }
                x += 1;
            }
            y += 1;
        }
    }

    fn lookup(&self, x: i64, y: i64) -> (r: Option<CellType>)
        requires
            self.well_formed(),
        ensures
            r is None <==> !self.in_bounds(x as int, y as int),
            r is Some ==> r->0 == self.cell(x as int, y as int),
    {
        if x < 0 || y < 0 || x > 0x7fff_ffff || y > 0x7fff_ffff {
            return None;
        }
        let ux: usize = x as usize;
        let uy: usize = y as usize;
        if ux >= self.width || uy >= self.height {
            return None;
        }
        let len: usize = self.cells.len();
        proof {
            lemma_cell_index(self.width as int, self.height as int, ux as int, uy as int);
            assert(uy * self.width + ux < len);
        }
        Some(self.cells[uy * self.width + ux])
    }

    pub(crate) fn blocked_at(&self, x: i64, y: i64) -> (r: bool)
        requires
            self.well_formed(),
        ensures
            r == self.blocked(x as int, y as int),
    {
        match self.lookup(x, y) {
            Some(CellType::Passable(_)) => false,
            _ => true,
        }
    }

    pub(crate) fn cost_of(&self, x: i64, y: i64) -> (r: Cost)
        requires
            self.well_formed(),
        ensures
            r == self.cost_at(x as int, y as int),
    {
        match self.lookup(x, y) {
            Some(CellType::Passable(c)) => c,
            _ => COST_INFINITY,
        }
    }

    /// Whether the cell `(x, y)` is blocked; cells outside the grid are.
    pub fn cell_blocked(&self, x: usize, y: usize) -> (r: bool)
        requires
            self.well_formed(),
        ensures
            r == self.blocked(x as int, y as int),
    {
        if x > 0x7fff_ffff || y > 0x7fff_ffff {
            return true;
        }
        self.blocked_at(x as i64, y as i64)
    }

    /// Out-of-bounds coordinates are treated as blocked.
    pub fn is_blocked(&self, x: i32, y: i32) -> (r: bool)
        requires
            self.well_formed(),
        ensures
            r == self.blocked(x as int, y as int),
    {
        self.blocked_at(x as i64, y as i64)
    }

    /// The cost multiplier of a cell; `COST_INFINITY` for blocked and out-of-bounds cells.
    pub fn get_cost(&self, x: i32, y: i32) -> (r: Cost)
        requires
            self.well_formed(),
        ensures
            r == self.cost_at(x as int, y as int),
    {
        self.cost_of(x as i64, y as i64)
    }

    /// Resets every cell to passable at cost `COST_ONE`.
    pub fn clear(&mut self)
        requires
            old(self).well_formed(),
        ensures
            final(self).well_formed(),
            final(self).width == old(self).width,
            final(self).height == old(self).height,
            final(self).diagonal_movement == old(self).diagonal_movement,
            forall|i: int|
                0 <= i < final(self).cells@.len() ==> final(self).cells@[i] == CellType::Passable(COST_ONE),
    {
        let n: usize = self.cells.len();
        let mut i: usize = 0;
        while i < n
            invariant
                i <= n,
                n == self.cells@.len(),
                self.width == old(self).width,
                self.height == old(self).height,
                self.diagonal_movement == old(self).diagonal_movement,
                self.well_formed(),
                forall|j: int| 0 <= j < i ==> self.cells@[j] == CellType::Passable(COST_ONE),
            decreases n - i,
        {
            self.cells.set(i, CellType::Passable(COST_ONE));
            i += 1;
        }
    }

    /// Whether the diagonal policy lets a step `(dx, dy)` leave `from`.
    pub fn diagonal_movement_allowed(&self, from: GridPos, dx: i32, dy: i32) -> (r: bool)
        requires
            self.well_formed(),
            -1 <= dx <= 1,
            -1 <= dy <= 1,
        ensures
            r == self.diagonal_allowed(from, dx as int, dy as int),
    {
        match self.diagonal_movement {
            DiagonalMode::Never => false,
            DiagonalMode::Always => true,
            DiagonalMode::IfNoObstacle => {
                let c1: bool = self.blocked_at(from.x as i64 + dx as i64, from.y as i64);
                let c2: bool = self.blocked_at(from.x as i64, from.y as i64 + dy as i64);
                !c1 || !c2
            },
            DiagonalMode::OnlyIfBothOpen => {
                let c1: bool = self.blocked_at(from.x as i64 + dx as i64, from.y as i64);
                let c2: bool = self.blocked_at(from.x as i64, from.y as i64 + dy as i64);
                !c1 && !c2
            },
        }
    }

    fn push_cardinal(&self, out: &mut Vec<(GridPos, Cost)>, node: GridPos, dx: i32, dy: i32)
        requires
            self.well_formed(),
            -1 <= dx <= 1,
            -1 <= dy <= 1,
        ensures
            final(out)@ == old(out)@ + self.cardinal_edge(node, dx as int, dy as int),
    {
        let nx: i64 = node.x as i64 + dx as i64;
        let ny: i64 = node.y as i64 + dy as i64;
        if !self.blocked_at(nx, ny) {
            out.push((GridPos { x: nx as i32, y: ny as i32 }, self.cost_of(nx, ny)));
            proof {
                assert(out@ =~= old(out)@ + self.cardinal_edge(node, dx as int, dy as int));
            }
        } else {
            proof {
                assert(out@ =~= old(out)@ + self.cardinal_edge(node, dx as int, dy as int));
            }
        }
    }

    fn push_diagonal(&self, out: &mut Vec<(GridPos, Cost)>, node: GridPos, dx: i32, dy: i32)
        requires
            self.well_formed(),
            -1 <= dx <= 1,
            -1 <= dy <= 1,
        ensures
            final(out)@ == old(out)@ + self.diagonal_edge(node, dx as int, dy as int),
    {
        let nx: i64 = node.x as i64 + dx as i64;
        let ny: i64 = node.y as i64 + dy as i64;
        if !self.blocked_at(nx, ny) && self.diagonal_movement_allowed(node, dx, dy) {
            out.push(
                (GridPos { x: nx as i32, y: ny as i32 }, cost_scale(self.cost_of(nx, ny), COST_SQRT2)),
            );
            proof {
                assert(out@ =~= old(out)@ + self.diagonal_edge(node, dx as int, dy as int));
            }
        } else {
            proof {
                assert(out@ =~= old(out)@ + self.diagonal_edge(node, dx as int, dy as int));
            }
        }
    }
}

impl Graph for Grid2D {
    type Node = GridPos;

    open spec fn well_formed(&self) -> bool {
        self.cells@.len() == self.width * self.height
    }

    open spec fn passable(&self, node: GridPos) -> bool {
        !self.blocked(node.x as int, node.y as int)
    }

    open spec fn edges(&self, node: GridPos) -> Seq<(GridPos, Cost)> {
        self.edges_of(node)
    }

    open spec fn visible(&self, from: GridPos, to: GridPos) -> bool {
        self.line_of_sight(from, to)
    }

    fn is_passable(&self, node: &GridPos) -> (r: bool) {
        !self.blocked_at(node.x as i64, node.y as i64)
    }

    fn neighbors(&self, node: &GridPos) -> (r: Vec<(GridPos, Cost)>) {
        let mut out: Vec<(GridPos, Cost)> = Vec::new();
        proof {
            assert(out@ =~= Seq::empty());
        }
        self.push_cardinal(&mut out, *node, 0, 1);
        self.push_cardinal(&mut out, *node, 1, 0);
        self.push_cardinal(&mut out, *node, 0, -1);
        self.push_cardinal(&mut out, *node, -1, 0);
        self.push_diagonal(&mut out, *node, 1, 1);
        self.push_diagonal(&mut out, *node, 1, -1);
        self.push_diagonal(&mut out, *node, -1, 1);
        self.push_diagonal(&mut out, *node, -1, -1);
        proof {
            reveal(Grid2D::edges_of);
            assert(out@ =~= self.edges_of(*node));
        }
        out
    }

    fn can_traverse(&self, from: &GridPos, to: &GridPos) -> (r: bool) {
        let x1: i64 = to.x as i64;
        let y1: i64 = to.y as i64;
        let dx: i64 = if from.x <= to.x { to.x as i64 - from.x as i64 } else { from.x as i64 - to.x as i64 };
        let dy: i64 = if from.y <= to.y { to.y as i64 - from.y as i64 } else { from.y as i64 - to.y as i64 };
        let sx: i64 = if from.x < to.x { 1 } else { -1 };
        let sy: i64 = if from.y < to.y { 1 } else { -1 };
        let mut err: i64 = dx - dy;
        let mut x: i64 = from.x as i64;
        let mut y: i64 = from.y as i64;
        let ghost mut i: int = 0;
        let ghost mut j: int = 0;
        proof {
            assert(0 * dy == 0 && 0 * dx == 0) by (nonlinear_arith);
        }
        while x != x1 || y != y1
            invariant
                self.well_formed(),
                dx == span(from.x as i64, to.x as i64),
                dy == span(from.y as i64, to.y as i64),
                x1 == to.x,
                y1 == to.y,
                sx == (if from.x < to.x { 1i64 } else { -1i64 }),
                sy == (if from.y < to.y { 1i64 } else { -1i64 }),
                0 <= i <= dx,
                0 <= j <= dy,
                x == (if from.x < to.x { from.x + i } else { from.x - i }),
                y == (if from.y < to.y { from.y + j } else { from.y - j }),
                err == dx - dy - i * dy + j * dx,
                -2 * dy <= err <= 2 * dx,
                self.line_of_sight(*from, *to) == self.ray_clear(
                    Ray { x: x as int, y: y as int, err: err as int },
                    x1 as int,
                    y1 as int,
                    dx as int,
                    dy as int,
                ),
            decreases (dx - i) + (dy - j),
        {
            if self.blocked_at(x, y) {
                return false;
            }
            let ghost before = Ray { x: x as int, y: y as int, err: err as int };
            let e2: i64 = 2 * err;
            proof {
                assert((i + 1) * dy == i * dy + dy) by (nonlinear_arith);
                assert((j + 1) * dx == j * dx + dx) by (nonlinear_arith);
                if i == dx && j < dy {
                    assert(e2 <= -dy) by (nonlinear_arith)
                        requires
                            e2 == 2 * (dx - dy - i * dy + j * dx),
                            i == dx,
                            0 <= j < dy,
                            dx >= 0,
                    ;
                }
                if j == dy && i < dx {
                    assert(e2 >= dx) by (nonlinear_arith)
                        requires
                            e2 == 2 * (dx - dy - i * dy + j * dx),
                            j == dy,
                            0 <= i < dx,
                            dy >= 0,
                    ;
                }
            }
            if e2 > -dy {
                err = err - dy;
                x = x + sx;
                proof {
                    i = i + 1;
                }
            }
            if e2 < dx {
                err = err + dx;
                y = y + sy;
                proof {
                    j = j + 1;
                }
            }
            proof {
                let after = Ray { x: x as int, y: y as int, err: err as int };
                assert(after == Self::ray_next(before, x1 as int, y1 as int, dx as int, dy as int));
                assert(Self::ray_left(after, x1 as int, y1 as int) < Self::ray_left(
                    before,
                    x1 as int,
                    y1 as int,
                ));
            }
        }
        !self.blocked_at(x, y)
    }
}

/// Whether the grid has an edge from `a` to `b`.
pub open spec fn connected(grid: &Grid2D, a: GridPos, b: GridPos) -> bool {
    exists|c: Cost| #[trigger] grid.edges_of(a).contains((b, c))
}

/// Every edge of the grid leads to an open cell.
pub proof fn lemma_edge_target_open(grid: &Grid2D, p: GridPos, k: int)
    requires
        0 <= k < grid.edges_of(p).len(),
    ensures
        !grid.blocked(grid.edges_of(p)[k].0.x as int, grid.edges_of(p)[k].0.y as int),
{
    let a = grid.cardinal_edge(p, 0, 1);
    let b = grid.cardinal_edge(p, 1, 0);
    let c = grid.cardinal_edge(p, 0, -1);
    let d = grid.cardinal_edge(p, -1, 0);
    let e = grid.diagonal_edge(p, 1, 1);
    let f = grid.diagonal_edge(p, 1, -1);
    let g = grid.diagonal_edge(p, -1, 1);
    let h = grid.diagonal_edge(p, -1, -1);
    reveal(Grid2D::edges_of);
    assert(grid.edges_of(p) == a + b + c + d + e + f + g + h);
}

proof fn lemma_contains_left<T>(x: Seq<T>, y: Seq<T>, e: T)
    requires
        x.contains(e),
    ensures
        (x + y).contains(e),
{
    let i = choose|i: int| 0 <= i < x.len() && x[i] == e;
    assert((x + y)[i] == e);
}

proof fn lemma_contains_right<T>(x: Seq<T>, y: Seq<T>, e: T)
    requires
        y.contains(e),
    ensures
        (x + y).contains(e),
{
    let i = choose|i: int| 0 <= i < y.len() && y[i] == e;
    assert((x + y)[x.len() + i] == e);
}

proof fn lemma_contains_split<T>(x: Seq<T>, y: Seq<T>, e: T)
    requires
        (x + y).contains(e),
    ensures
        x.contains(e) || y.contains(e),
{
    let i = choose|i: int| 0 <= i < (x + y).len() && (x + y)[i] == e;
    if i < x.len() {
        assert(x[i] == e);
    } else {
        assert(y[i - x.len()] == e);
    }
}

/// The edge that the step `(dx, dy)` from `p` would be.
pub open spec fn step_edge(grid: &Grid2D, p: GridPos, dx: int, dy: int) -> Seq<(GridPos, Cost)> {
    if dx != 0 && dy != 0 {
        grid.diagonal_edge(p, dx, dy)
    } else {
        grid.cardinal_edge(p, dx, dy)
    }
}

/// Whether `(dx, dy)` is one of the eight steps.
pub open spec fn is_step(dx: int, dy: int) -> bool {
    -1 <= dx <= 1 && -1 <= dy <= 1 && (dx != 0 || dy != 0)
}

/// An edge of the grid is the edge of one of the eight steps, and the other way round.
pub proof fn lemma_edges_are_steps(grid: &Grid2D, p: GridPos, e: (GridPos, Cost))
    ensures
        grid.edges_of(p).contains(e) <==> exists|dx: int, dy: int|
            is_step(dx, dy) && (#[trigger] step_edge(grid, p, dx, dy)).contains(e),
{
    reveal(Grid2D::edges_of);
    let a = step_edge(grid, p, 0, 1);
    let b = step_edge(grid, p, 1, 0);
    let c = step_edge(grid, p, 0, -1);
    let d = step_edge(grid, p, -1, 0);
    let f = step_edge(grid, p, 1, 1);
    let g = step_edge(grid, p, 1, -1);
    let h = step_edge(grid, p, -1, 1);
    let k = step_edge(grid, p, -1, -1);
    let s1 = a + b;
    let s2 = s1 + c;
    let s3 = s2 + d;
    let s4 = s3 + f;
    let s5 = s4 + g;
    let s6 = s5 + h;
    let s7 = s6 + k;
    assert(grid.edges_of(p) == s7);
    if grid.edges_of(p).contains(e) {
        lemma_contains_split(s6, k, e);
        if s6.contains(e) {
            lemma_contains_split(s5, h, e);
            if s5.contains(e) {
                lemma_contains_split(s4, g, e);
                if s4.contains(e) {
                    lemma_contains_split(s3, f, e);
                    if s3.contains(e) {
                        lemma_contains_split(s2, d, e);
                        if s2.contains(e) {
                            lemma_contains_split(s1, c, e);
                            if s1.contains(e) {
                                lemma_contains_split(a, b, e);
                            }
                        }
                    }
                }
            }
        }
        assert(a.contains(e) || b.contains(e) || c.contains(e) || d.contains(e) || f.contains(e) || g.contains(e)
            || h.contains(e) || k.contains(e));
    }
    if exists|dx: int, dy: int| is_step(dx, dy) && (#[trigger] step_edge(grid, p, dx, dy)).contains(e) {
        let (dx, dy) = choose|dx: int, dy: int|
            is_step(dx, dy) && (#[trigger] step_edge(grid, p, dx, dy)).contains(e);
        if a.contains(e) {
            lemma_contains_left(a, b, e);
        }
        if b.contains(e) {
            lemma_contains_right(a, b, e);
        }
        if s1.contains(e) {
            lemma_contains_left(s1, c, e);
        }
        if c.contains(e) {
            lemma_contains_right(s1, c, e);
        }
        if s2.contains(e) {
            lemma_contains_left(s2, d, e);
        }
        if d.contains(e) {
            lemma_contains_right(s2, d, e);
        }
        if s3.contains(e) {
            lemma_contains_left(s3, f, e);
        }
        if f.contains(e) {
            lemma_contains_right(s3, f, e);
        }
        if s4.contains(e) {
            lemma_contains_left(s4, g, e);
        }
        if g.contains(e) {
            lemma_contains_right(s4, g, e);
        }
        if s5.contains(e) {
            lemma_contains_left(s5, h, e);
        }
        if h.contains(e) {
            lemma_contains_right(s5, h, e);
        }
        if s6.contains(e) {
            lemma_contains_left(s6, k, e);
        }
        if k.contains(e) {
            lemma_contains_right(s6, k, e);
        }
    }
}

/// A cardinal step onto an open cell is an edge of the grid.
pub proof fn lemma_cardinal_step_connects(grid: &Grid2D, p: GridPos, dx: int, dy: int)
    requires
        is_step(dx, dy),
        dx == 0 || dy == 0,
        !grid.blocked(p.x + dx, p.y + dy),
    ensures
        connected(grid, p, GridPos { x: (p.x + dx) as i32, y: (p.y + dy) as i32 }),
{
    let q = GridPos { x: (p.x + dx) as i32, y: (p.y + dy) as i32 };
    let e = (q, grid.cost_at(p.x + dx, p.y + dy));
    assert(step_edge(grid, p, dx, dy)[0] == e);
    lemma_edges_are_steps(grid, p, e);
}

/// Where the grid has an edge from an open cell, it has one back.
pub proof fn lemma_edge_back(grid: &Grid2D, a: GridPos, b: GridPos)
    requires
        !grid.blocked(a.x as int, a.y as int),
        connected(grid, a, b),
    ensures
        connected(grid, b, a),
        !grid.blocked(b.x as int, b.y as int),
{
    let c = choose|c: Cost| #[trigger] grid.edges_of(a).contains((b, c));
    lemma_edges_are_steps(grid, a, (b, c));
    let (dx, dy) = choose|dx: int, dy: int|
        is_step(dx, dy) && (#[trigger] step_edge(grid, a, dx, dy)).contains((b, c));
    let part = step_edge(grid, a, dx, dy);
    let i = choose|i: int| 0 <= i < part.len() && part[i] == (b, c);
    assert(part.len() == 1);
    assert(b.x == a.x + dx && b.y == a.y + dy);
    let back = if dx != 0 && dy != 0 {
        (a, cost_scaled(grid.cost_at(a.x as int, a.y as int), COST_SQRT2))
    } else {
        (a, grid.cost_at(a.x as int, a.y as int))
    };
    assert(step_edge(grid, b, -dx, -dy)[0] == back);
    assert(is_step(-dx, -dy));
    lemma_edges_are_steps(grid, b, back);
}

} // verus!
