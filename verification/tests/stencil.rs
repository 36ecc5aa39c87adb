use schroedinger::solver::BoundaryCondition;
use schroedinger::stencil::{
    down_neighbor, left_neighbor, right_neighbor, stencil_at, up_neighbor,
};

type Amp = (f64, f64);

// Column `i`, row `j` holds `(i, j)`, so a value names the cell it came from.
fn labelled(width: usize, height: usize) -> Vec<Vec<Amp>> {
    (0..width).map(|i| (0..height).map(|j| (i as f64, j as f64)).collect()).collect()
}

#[test]
fn interior_neighbours_are_the_adjacent_cells() {
    let grid = labelled(4, 5);
    let periodic = BoundaryCondition::Periodic;
    let clamped = BoundaryCondition::Dirichlet((-1.0, -1.0), (-2.0, -2.0));
    for boundary in [&periodic, &clamped] {
        assert_eq!(left_neighbor(&grid, boundary, 2, 3), (1.0, 3.0));
        assert_eq!(right_neighbor(&grid, boundary, 2, 3), (3.0, 3.0));
        assert_eq!(up_neighbor(&grid, boundary, 2, 3), (2.0, 4.0));
        assert_eq!(down_neighbor(&grid, boundary, 2, 3), (2.0, 2.0));
    }
}

#[test]
fn periodic_axis_wraps_at_index_zero() {
    let grid = labelled(4, 5);
    let periodic = BoundaryCondition::Periodic;
    for j in 0..5 {
        assert_eq!(left_neighbor(&grid, &periodic, 0, j), grid[3][j]);
    }
    for i in 0..4 {
        assert_eq!(down_neighbor(&grid, &periodic, i, 0), grid[i][4]);
    }
}

#[test]
fn periodic_axis_wraps_at_the_last_index() {
    let grid = labelled(4, 5);
    let periodic = BoundaryCondition::Periodic;
    for j in 0..5 {
        assert_eq!(right_neighbor(&grid, &periodic, 3, j), grid[0][j]);
    }
    for i in 0..4 {
        assert_eq!(up_neighbor(&grid, &periodic, i, 4), grid[i][0]);
    }
}

#[test]
fn dirichlet_axis_supplies_the_edge_values() {
    let clamped = BoundaryCondition::Dirichlet((0.25, -0.5), (8.0, 9.0));
    for grid in [labelled(4, 5), vec![vec![(100.0, 100.0); 5]; 4]] {
        for j in 0..5 {
            assert_eq!(left_neighbor(&grid, &clamped, 0, j), (0.25, -0.5));
            assert_eq!(right_neighbor(&grid, &clamped, 3, j), (8.0, 9.0));
        }
        for i in 0..4 {
            assert_eq!(down_neighbor(&grid, &clamped, i, 0), (0.25, -0.5));
            assert_eq!(up_neighbor(&grid, &clamped, i, 4), (8.0, 9.0));
        }
    }
}

#[test]
fn single_cell_lattice_is_its_own_periodic_neighbour() {
    let grid = vec![vec![(3.0, 4.0)]];
    let periodic = BoundaryCondition::Periodic;
    let stencil = stencil_at(&grid, &periodic, &periodic, 0, 0);
    assert_eq!(stencil.psi, (3.0, 4.0));
    assert_eq!(stencil.left, (3.0, 4.0));
    assert_eq!(stencil.right, (3.0, 4.0));
    assert_eq!(stencil.up, (3.0, 4.0));
    assert_eq!(stencil.down, (3.0, 4.0));
}

#[test]
fn single_cell_lattice_sees_only_edge_values_when_clamped() {
    let grid = vec![vec![(3.0, 4.0)]];
    let on_x = BoundaryCondition::Dirichlet((1.0, 0.0), (2.0, 0.0));
    let on_y = BoundaryCondition::Dirichlet((3.0, 0.0), (4.0, 0.0));
    let stencil = stencil_at(&grid, &on_x, &on_y, 0, 0);
    assert_eq!(stencil.psi, (3.0, 4.0));
    assert_eq!(stencil.left, (1.0, 0.0));
    assert_eq!(stencil.right, (2.0, 0.0));
    assert_eq!(stencil.down, (3.0, 0.0));
    assert_eq!(stencil.up, (4.0, 0.0));
}

#[test]
fn stencil_mixes_the_conditions_of_the_two_axes() {
    let grid = labelled(3, 3);
    let periodic = BoundaryCondition::Periodic;
    let clamped = BoundaryCondition::Dirichlet((-1.0, 0.0), (-2.0, 0.0));
    let corner = stencil_at(&grid, &periodic, &clamped, 0, 2);
    assert_eq!(corner.psi, (0.0, 2.0));
    assert_eq!(corner.left, (2.0, 2.0));
    assert_eq!(corner.right, (1.0, 2.0));
    assert_eq!(corner.up, (-2.0, 0.0));
    assert_eq!(corner.down, (0.0, 1.0));
    let other = stencil_at(&grid, &clamped, &periodic, 2, 0);
    assert_eq!(other.psi, (2.0, 0.0));
    assert_eq!(other.left, (1.0, 0.0));
    assert_eq!(other.right, (-2.0, 0.0));
    assert_eq!(other.up, (2.0, 1.0));
    assert_eq!(other.down, (2.0, 2.0));
}
