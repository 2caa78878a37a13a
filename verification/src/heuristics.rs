//! Distance estimates between positions.

use vstd::prelude::*;
use crate::cost::{
    coord_span, cost_add, cost_scale, cost_scaled, cost_sum, is_floor_sqrt, isqrt,
    lemma_floor_sqrt_unique, span, Cost, COST_INFINITY, COST_ONE, COST_SQRT2,
};
use crate::traits::Heuristic;

verus! {

/// A place with fixed-point coordinates.
pub trait Position {
    spec fn x_of(&self) -> i64;

    spec fn y_of(&self) -> i64;

    spec fn z_of(&self) -> i64;

    fn x(&self) -> (r: i64)
        ensures
            r == self.x_of(),
    ;

    fn y(&self) -> (r: i64)
        ensures
            r == self.y_of(),
    ;

    fn z(&self) -> (r: i64)
        ensures
            r == self.z_of(),
    ;
}

#[derive(Clone, Copy, Debug)]
pub struct Manhattan;

#[derive(Clone, Copy, Debug)]
pub struct Euclidean;

#[derive(Clone, Copy, Debug)]
pub struct Diagonal {
    /// Typically `COST_ONE`.
    pub cardinal_cost: Cost,
    /// Typically `COST_SQRT2` or `COST_ONE`.
    pub diagonal_cost: Cost,
}

/// For Dijkstra behavior.
#[derive(Clone, Copy, Debug)]
pub struct Zero;

/// The largest `r` with `r * r <= n`.
pub open spec fn floor_sqrt(n: nat) -> nat {
    choose|r: nat| is_floor_sqrt(r, n)
}

/// The sum of the absolute coordinate differences.
pub open spec fn manhattan_distance(dx: nat, dy: nat, dz: nat) -> Cost {
    if dx + dy + dz >= COST_INFINITY {
        COST_INFINITY
    } else {
        (dx + dy + dz) as Cost
    }
}

/// The straight-line distance, rounded down.
pub open spec fn euclidean_distance(dx: nat, dy: nat, dz: nat) -> Cost {
    let squares = dx * dx + dy * dy + dz * dz;
    if squares >= 0x1_0000_0000_0000_0000_0000_0000_0000_0000 {
        COST_INFINITY
    } else {
        floor_sqrt(squares) as Cost
    }
}

/// The octile distance in the plane, with the third axis walked at the cardinal cost.
pub open spec fn diagonal_distance(cardinal: Cost, diagonal: Cost, dx: nat, dy: nat, dz: nat) -> Cost
    recommends
        dx <= u64::MAX,
        dy <= u64::MAX,
        dz <= u64::MAX,
{
    let low = if dx <= dy { dx } else { dy };
    let high = if dx <= dy { dy } else { dx };
    cost_sum(
        cost_sum(cost_scaled((high - low) as Cost, cardinal), cost_scaled(low as Cost, diagonal)),
        cost_scaled(dz as Cost, cardinal),
    )
}

impl Default for Diagonal {
    fn default() -> (r: Self)
        ensures
            r.cardinal_cost == COST_ONE,
            r.diagonal_cost == COST_SQRT2,
    {
        Diagonal { cardinal_cost: COST_ONE, diagonal_cost: COST_SQRT2 }
    }
}

impl<P: Position> Heuristic<P> for Manhattan {
    open spec fn estimate_of(&self, from: P, to: P) -> Cost {
        manhattan_distance(
            span(from.x_of(), to.x_of()),
            span(from.y_of(), to.y_of()),
            span(from.z_of(), to.z_of()),
        )
    }

    fn estimate(&self, from: &P, to: &P) -> (r: Cost) {
        let dx: u64 = coord_span(from.x(), to.x());
        let dy: u64 = coord_span(from.y(), to.y());
        let dz: u64 = coord_span(from.z(), to.z());
        cost_add(cost_add(dx, dy), dz)
    }

    open spec fn admissible(&self) -> bool {
        true
    }

    fn is_admissible(&self) -> (r: bool) {
        true
    }
}

impl<P: Position> Heuristic<P> for Euclidean {
    open spec fn estimate_of(&self, from: P, to: P) -> Cost {
        euclidean_distance(
            span(from.x_of(), to.x_of()),
            span(from.y_of(), to.y_of()),
            span(from.z_of(), to.z_of()),
        )
    }

    fn estimate(&self, from: &P, to: &P) -> (r: Cost) {
        let dx: u128 = coord_span(from.x(), to.x()) as u128;
        let dy: u128 = coord_span(from.y(), to.y()) as u128;
        let dz: u128 = coord_span(from.z(), to.z()) as u128;
        proof {
            lemma_square_fits(dx as nat);
            lemma_square_fits(dy as nat);
            lemma_square_fits(dz as nat);
        }
        let xx: u128 = dx * dx;
        let yy: u128 = dy * dy;
        let zz: u128 = dz * dz;
        match xx.checked_add(yy) {
            None => COST_INFINITY,
            Some(xy) => match xy.checked_add(zz) {
                None => COST_INFINITY,
                Some(squares) => {
                    let root: u64 = isqrt(squares);
                    proof {
                        lemma_floor_sqrt_unique(root as nat, floor_sqrt(squares as nat), squares as nat);
                    }
                    root
                },
            },
        }
    }

    open spec fn admissible(&self) -> bool {
        true
    }

    fn is_admissible(&self) -> (r: bool) {
        true
    }
}

impl<P: Position> Heuristic<P> for Diagonal {
    open spec fn estimate_of(&self, from: P, to: P) -> Cost {
        diagonal_distance(
            self.cardinal_cost,
            self.diagonal_cost,
            span(from.x_of(), to.x_of()),
            span(from.y_of(), to.y_of()),
            span(from.z_of(), to.z_of()),
        )
    }

    fn estimate(&self, from: &P, to: &P) -> (r: Cost) {
        let dx: u64 = coord_span(from.x(), to.x());
        let dy: u64 = coord_span(from.y(), to.y());
        let dz: u64 = coord_span(from.z(), to.z());
        let low: u64 = if dx <= dy { dx } else { dy };
        let high: u64 = if dx <= dy { dy } else { dx };
        cost_add(
            cost_add(cost_scale(high - low, self.cardinal_cost), cost_scale(low, self.diagonal_cost)),
            cost_scale(dz, self.cardinal_cost),
        )
    }

    open spec fn admissible(&self) -> bool {
        true
    }

    fn is_admissible(&self) -> (r: bool) {
        true
    }
}

impl<P> Heuristic<P> for Zero {
    open spec fn estimate_of(&self, from: P, to: P) -> Cost {
        0
    }

    fn estimate(&self, from: &P, to: &P) -> (r: Cost) {
        0
    }

    open spec fn admissible(&self) -> bool {
        true
    }

    fn is_admissible(&self) -> (r: bool) {
        true
    }
}

proof fn lemma_square_fits(d: nat)
    requires
        d <= u64::MAX,
    ensures
        d * d < 0x1_0000_0000_0000_0000_0000_0000_0000_0000,
{
    assert(d * d <= 0xffff_ffff_ffff_ffff * 0xffff_ffff_ffff_ffff) by (nonlinear_arith)
        requires
            d <= 0xffff_ffff_ffff_ffff,
    ;
}

} // verus!
