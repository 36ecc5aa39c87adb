//! Rectangular grids held as vectors of columns, and their mathematical view.

use vstd::prelude::*;

verus! {

/// The mathematical view of a grid: `cells(g@)[i][j]` is the value at column
/// `i`, row `j`.
pub open spec fn cells<T>(grid: Seq<Vec<T>>) -> Seq<Seq<T>> {
    Seq::new(grid.len(), |i: int| grid[i]@)
}

/// Every one of the `width` columns holds `height` values.
pub open spec fn rectangular<T>(grid: Seq<Seq<T>>, width: int, height: int) -> bool {
    &&& grid.len() == width
    &&& forall|i: int| 0 <= i < grid.len() ==> (#[trigger] grid[i]).len() == height
}

/// A grid that the engine can step: at least one column, all of one height.
pub open spec fn well_formed<T>(grid: Seq<Seq<T>>) -> bool {
    grid.len() > 0 && rectangular(grid, grid.len() as int, grid[0].len() as int)
}

/// `grid` has as many columns as the well-formed `other`, each of the same
/// height.
pub open spec fn same_shape<A, B>(grid: Seq<Seq<A>>, other: Seq<Seq<B>>) -> bool {
    rectangular(grid, other.len() as int, other[0].len() as int)
}

/// Column `i` of the view is the view of column `i`.
pub proof fn lemma_columns<T>(grid: Seq<Vec<T>>)
    ensures
        cells(grid).len() == grid.len(),
        forall|i: int| 0 <= i < grid.len() ==> cells(grid)[i] == (#[trigger] grid[i])@,
{
}

/// Builds the `size_x` by `size_y` grid whose value at `(i, j)` is `f(i, j)`.
pub fn generate_vec2d<T, F>(size_x: usize, size_y: usize, f: F) -> (grid: Vec<Vec<T>>) where
    F: Fn(usize, usize) -> T,

    requires
        forall|i: usize, j: usize| i < size_x && j < size_y ==> f.requires((i, j)),
    ensures
        rectangular(cells(grid@), size_x as int, size_y as int),
        forall|i: usize, j: usize|
            i < size_x && j < size_y ==> f.ensures(
                (i, j),
                #[trigger] cells(grid@)[i as int][j as int],
            ),
{
    let mut grid: Vec<Vec<T>> = Vec::new();
    let mut i: usize = 0;
    while i < size_x
        invariant
            i <= size_x,
            forall|a: usize, b: usize| a < size_x && b < size_y ==> f.requires((a, b)),
            rectangular(cells(grid@), i as int, size_y as int),
            forall|a: usize, b: usize|
                a < i && b < size_y ==> f.ensures(
                    (a, b),
                    #[trigger] cells(grid@)[a as int][b as int],
                ),
        decreases size_x - i,
    {
        let mut column: Vec<T> = Vec::new();
        let mut j: usize = 0;
        while j < size_y
            invariant
                i < size_x,
                j <= size_y,
                forall|a: usize, b: usize| a < size_x && b < size_y ==> f.requires((a, b)),
                column@.len() == j,
                forall|b: usize| b < j ==> f.ensures((i, b), #[trigger] column@[b as int]),
            decreases size_y - j,
        {
            column.push(f(i, j));
            j += 1;
        }
        proof {
            let before = cells(grid@);
            let after = cells(grid@.push(column));
            assert(after =~= before.push(column@));
        }
        grid.push(column);
        i += 1;
    }
    grid
}

/// The width and height of a grid that the engine can step, or `None` where
/// the grid has no column or its columns differ in height.
pub fn grid_dimensions<T>(grid: &Vec<Vec<T>>) -> (dims: Option<(usize, usize)>)
    ensures
        dims is Some <==> well_formed(cells(grid@)),
        dims matches Some((width, height)) ==> rectangular(
            cells(grid@),
            width as int,
            height as int,
        ),
{
    if grid.len() == 0 {
        return None;
    }
    let width: usize = grid.len();
    let height: usize = grid[0].len();
    let mut i: usize = 1;
    while i < width
        invariant
            1 <= i <= width,
            width == grid@.len(),
            height == grid@[0]@.len(),
            forall|a: int| 0 <= a < i ==> (#[trigger] cells(grid@)[a]).len() == height,
        decreases width - i,
    {
        if grid[i].len() != height {
            assert(cells(grid@)[i as int].len() != cells(grid@)[0].len());
            return None;
        }
        i += 1;
    }
    Some((width, height))
}

/// A copy of `grid`, cell for cell.
pub fn copy_grid<T: Copy>(grid: &Vec<Vec<T>>) -> (copy: Vec<Vec<T>>)
    ensures
        cells(copy@) == cells(grid@),
{
    let mut copy: Vec<Vec<T>> = Vec::new();
    let mut i: usize = 0;
    while i < grid.len()
        invariant
            i <= grid@.len(),
            copy@.len() == i,
            forall|a: int| 0 <= a < i ==> (#[trigger] copy@[a])@ == grid@[a]@,
        decreases grid@.len() - i,
    {
        let source = &grid[i];
        let mut column: Vec<T> = Vec::new();
        let mut j: usize = 0;
        while j < source.len()
            invariant
                j <= source@.len(),
                column@.len() == j,
                forall|b: int| 0 <= b < j ==> #[trigger] column@[b] == source@[b],
            decreases source@.len() - j,
        {
            column.push(source[j]);
            j += 1;
        }
        assert(column@ =~= source@);
        copy.push(column);
        i += 1;
    }
    assert(cells(copy@) =~= cells(grid@));
    copy
}

/// The `width` by `height` grid that holds `value` in every cell.
pub fn filled_grid<T: Copy>(width: usize, height: usize, value: T) -> (grid: Vec<Vec<T>>)
    ensures
        rectangular(cells(grid@), width as int, height as int),
        forall|i: int, j: int|
            0 <= i < width && 0 <= j < height ==> #[trigger] cells(grid@)[i][j] == value,
{
    let grid = generate_vec2d(width, height, |i: usize, j: usize| -> (cell: T)
        ensures
            cell == value,
        { value });
    assert forall|i: int, j: int| 0 <= i < width && 0 <= j < height implies #[trigger] cells(
        grid@,
    )[i][j] == value by {
        let a = i as usize;
        let b = j as usize;
        assert(cells(grid@)[a as int][b as int] == value);
    }
    grid
}

} // verus!
