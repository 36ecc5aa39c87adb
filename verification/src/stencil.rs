//! The five-point stencil: a cell and its four neighbours, with the
//! neighbours past an edge supplied by the boundary condition of that axis.

use vstd::prelude::*;
use crate::genvec::{cells, lemma_columns, well_formed};
use crate::solver::BoundaryCondition;

verus! {

/// The values that the update of one cell reads.
pub struct Stencil<T> {
    /// The cell's own value.
    pub psi: T,
    /// The neighbour one column down the x axis.
    pub left: T,
    /// The neighbour one column up the x axis.
    pub right: T,
    /// The neighbour one row up the y axis.
    pub up: T,
    /// The neighbour one row down the y axis.
    pub down: T,
}

/// The neighbour of `(i, j)` at column `i - 1`.
pub open spec fn left_of<T>(
    prev: Seq<Seq<T>>,
    boundary: BoundaryCondition<T>,
    i: int,
    j: int,
) -> T {
    if i != 0 {
        prev[i - 1][j]
    } else {
        match boundary {
            BoundaryCondition::Periodic => prev[prev.len() - 1][j],
            BoundaryCondition::Dirichlet(low, _) => low,
        }
    }
}

/// The neighbour of `(i, j)` at column `i + 1`.
pub open spec fn right_of<T>(
    prev: Seq<Seq<T>>,
    boundary: BoundaryCondition<T>,
    i: int,
    j: int,
) -> T {
    if i != prev.len() - 1 {
        prev[i + 1][j]
    } else {
        match boundary {
            BoundaryCondition::Periodic => prev[0][j],
            BoundaryCondition::Dirichlet(_, high) => high,
        }
    }
}

/// The neighbour of `(i, j)` at row `j + 1`.
pub open spec fn up_of<T>(prev: Seq<Seq<T>>, boundary: BoundaryCondition<T>, i: int, j: int) -> T {
    if j != prev[0].len() - 1 {
        prev[i][j + 1]
    } else {
        match boundary {
            BoundaryCondition::Periodic => prev[i][0],
            BoundaryCondition::Dirichlet(_, high) => high,
        }
    }
}

/// The neighbour of `(i, j)` at row `j - 1`.
pub open spec fn down_of<T>(
    prev: Seq<Seq<T>>,
    boundary: BoundaryCondition<T>,
    i: int,
    j: int,
) -> T {
    if j != 0 {
        prev[i][j - 1]
    } else {
        match boundary {
            BoundaryCondition::Periodic => prev[i][prev[0].len() - 1],
            BoundaryCondition::Dirichlet(low, _) => low,
        }
    }
}

/// The stencil of cell `(i, j)` of `prev`.
pub open spec fn stencil_of<T>(
    prev: Seq<Seq<T>>,
    boundary_x: BoundaryCondition<T>,
    boundary_y: BoundaryCondition<T>,
    i: int,
    j: int,
) -> Stencil<T> {
    Stencil {
        psi: prev[i][j],
        left: left_of(prev, boundary_x, i, j),
        right: right_of(prev, boundary_x, i, j),
        up: up_of(prev, boundary_y, i, j),
        down: down_of(prev, boundary_y, i, j),
    }
}

/// `(i, j)` is a cell of the well-formed grid `prev`.
pub open spec fn in_grid<T>(prev: Seq<Seq<T>>, i: int, j: int) -> bool {
    well_formed(prev) && 0 <= i < prev.len() && 0 <= j < prev[0].len()
}

pub fn left_neighbor<T: Copy>(
    prev: &Vec<Vec<T>>,
    boundary: &BoundaryCondition<T>,
    i: usize,
    j: usize,
) -> (value: T)
    requires
        in_grid(cells(prev@), i as int, j as int),
    ensures
        value == left_of(cells(prev@), *boundary, i as int, j as int),
{
    proof {
        lemma_columns(prev@);
    }
    if i != 0 {
        prev[i - 1][j]
    } else {
        match boundary {
            BoundaryCondition::Periodic => prev[prev.len() - 1][j],
            BoundaryCondition::Dirichlet(low, _) => *low,
        }
    }
}

pub fn right_neighbor<T: Copy>(
    prev: &Vec<Vec<T>>,
    boundary: &BoundaryCondition<T>,
    i: usize,
    j: usize,
) -> (value: T)
    requires
        in_grid(cells(prev@), i as int, j as int),
    ensures
        value == right_of(cells(prev@), *boundary, i as int, j as int),
{
    proof {
        lemma_columns(prev@);
    }
    if i != prev.len() - 1 {
        prev[i + 1][j]
    } else {
        match boundary {
            BoundaryCondition::Periodic => prev[0][j],
            BoundaryCondition::Dirichlet(_, high) => *high,
        }
    }
}

pub fn up_neighbor<T: Copy>(
    prev: &Vec<Vec<T>>,
    boundary: &BoundaryCondition<T>,
    i: usize,
    j: usize,
) -> (value: T)
    requires
        in_grid(cells(prev@), i as int, j as int),
    ensures
        value == up_of(cells(prev@), *boundary, i as int, j as int),
{
    proof {
        lemma_columns(prev@);
    }
    if j != prev[0].len() - 1 {
        prev[i][j + 1]
    } else {
        match boundary {
            BoundaryCondition::Periodic => prev[i][0],
            BoundaryCondition::Dirichlet(_, high) => *high,
        }
    }
}

pub fn down_neighbor<T: Copy>(
    prev: &Vec<Vec<T>>,
    boundary: &BoundaryCondition<T>,
    i: usize,
    j: usize,
) -> (value: T)
    requires
        in_grid(cells(prev@), i as int, j as int),
    ensures
        value == down_of(cells(prev@), *boundary, i as int, j as int),
{
    proof {
        lemma_columns(prev@);
    }
    if j != 0 {
        prev[i][j - 1]
    } else {
        match boundary {
            BoundaryCondition::Periodic => prev[i][prev[0].len() - 1],
            BoundaryCondition::Dirichlet(low, _) => *low,
        }
    }
}

/// Reads the stencil of cell `(i, j)` out of `prev`.
pub fn stencil_at<T: Copy>(
    prev: &Vec<Vec<T>>,
    boundary_x: &BoundaryCondition<T>,
    boundary_y: &BoundaryCondition<T>,
    i: usize,
    j: usize,
) -> (stencil: Stencil<T>)
    requires
        in_grid(cells(prev@), i as int, j as int),
    ensures
        stencil == stencil_of(cells(prev@), *boundary_x, *boundary_y, i as int, j as int),
{
    proof {
        lemma_columns(prev@);
    }
    Stencil {
        psi: prev[i][j],
        left: left_neighbor(prev, boundary_x, i, j),
        right: right_neighbor(prev, boundary_x, i, j),
        up: up_neighbor(prev, boundary_y, i, j),
        down: down_neighbor(prev, boundary_y, i, j),
    }
}

/// On a periodic axis the lattice wraps: the neighbour missing at index 0 is
/// the value at the last index, and the neighbour missing at the last index
/// is the value at index 0.
pub proof fn lemma_periodic_wraps<T>(prev: Seq<Seq<T>>, i: int, j: int)
    requires
        in_grid(prev, i, j),
    ensures
        left_of(prev, BoundaryCondition::Periodic, 0, j) == prev[prev.len() - 1][j],
        right_of(prev, BoundaryCondition::Periodic, prev.len() - 1, j) == prev[0][j],
        down_of(prev, BoundaryCondition::Periodic, i, 0) == prev[i][prev[0].len() - 1],
        up_of(prev, BoundaryCondition::Periodic, i, prev[0].len() - 1) == prev[i][0],
{
}

/// On a Dirichlet axis the neighbour missing at an edge is the configured
/// edge value, whatever the buffer holds: `low` below index 0, `high` above
/// the last index.
pub proof fn lemma_dirichlet_edge_is_fixed<T>(prev: Seq<Seq<T>>, low: T, high: T, i: int, j: int)
    ensures
        left_of(prev, BoundaryCondition::Dirichlet(low, high), 0, j) == low,
        right_of(prev, BoundaryCondition::Dirichlet(low, high), prev.len() - 1, j) == high,
        down_of(prev, BoundaryCondition::Dirichlet(low, high), i, 0) == low,
        up_of(prev, BoundaryCondition::Dirichlet(low, high), i, prev[0].len() - 1) == high,
{
}

/// Away from the edges the boundary condition plays no part: each neighbour
/// is the adjacent cell of the buffer.
pub proof fn lemma_interior_neighbours<T>(
    prev: Seq<Seq<T>>,
    boundary_x: BoundaryCondition<T>,
    boundary_y: BoundaryCondition<T>,
    i: int,
    j: int,
)
    requires
        0 < i < prev.len() - 1,
        0 < j < prev[0].len() - 1,
    ensures
        stencil_of(prev, boundary_x, boundary_y, i, j) == (Stencil {
            psi: prev[i][j],
            left: prev[i - 1][j],
            right: prev[i + 1][j],
            up: prev[i][j + 1],
            down: prev[i][j - 1],
        }),
{
}

} // verus!
