//! A run is a function of its inputs: where the caller's functions return
//! one result for one input, so does the engine.

use vstd::prelude::*;
use crate::genvec::cells;
use crate::potential::PotentialValue;
use crate::solver::{
    classifies, follows, is_course, is_potential_grid, is_record, is_run, is_step, observed,
    Config,
};
use crate::stencil::{stencil_of, Stencil};

verus! {

/// The coordinate map returns one value for one input.
pub open spec fn coordinate_is_function<R, C: Fn(R, usize, usize) -> R>(coordinate: C) -> bool {
    forall|dx: R, index: usize, extent: usize, a: R, b: R|
        #![trigger coordinate.ensures((dx, index, extent), a), coordinate.ensures((dx, index, extent), b)]
        coordinate.ensures((dx, index, extent), a) && coordinate.ensures((dx, index, extent), b)
            ==> a == b
}

/// The potential function returns one classification for one point.
pub open spec fn potential_is_function<R, P: Fn(R, R) -> PotentialValue<R>>(
    potential_fn: P,
) -> bool {
    forall|x: R, y: R, a: PotentialValue<R>, b: PotentialValue<R>|
        #![trigger potential_fn.ensures((x, y), a), potential_fn.ensures((x, y), b)]
        potential_fn.ensures((x, y), a) && potential_fn.ensures((x, y), b) ==> a == b
}

/// The update rule returns one value for one input.
pub open spec fn update_is_function<R, T, U: Fn(R, R, Stencil<T>, R) -> T>(update: U) -> bool {
    forall|dx: R, dt: R, stencil: Stencil<T>, v: R, a: T, b: T|
        #![trigger update.ensures((dx, dt, stencil, v), a), update.ensures((dx, dt, stencil, v), b)]
        update.ensures((dx, dt, stencil, v), a) && update.ensures((dx, dt, stencil, v), b) ==> a
            == b
}

/// The snapshot consumer returns one output for one sequence number and one
/// grid, and reads of a grid only its cells.
pub open spec fn consumer_is_function<T, O, S: Fn(usize, &Vec<Vec<T>>) -> O>(
    save_callback: S,
) -> bool {
    forall|number: usize, first: Vec<Vec<T>>, second: Vec<Vec<T>>, a: O, b: O|
        #![trigger save_callback.ensures((number, &first), a), save_callback.ensures((number, &second), b)]
        cells(first@) == cells(second@) && save_callback.ensures((number, &first), a)
            && save_callback.ensures((number, &second), b) ==> a == b
}

/// One step has one result: two grids that a step may make of the same grid
/// are the same.
pub proof fn lemma_steps_agree<R, T, U: Fn(R, R, Stencil<T>, R) -> T>(
    prev: Seq<Seq<T>>,
    first: Seq<Seq<T>>,
    second: Seq<Seq<T>>,
    potential: Seq<Seq<PotentialValue<R>>>,
    config: Config<R, T>,
    zero: T,
    update: U,
)
    requires
        update_is_function(update),
        is_step(prev, first, potential, config, zero, update),
        is_step(prev, second, potential, config, zero, update),
    ensures
        first == second,
{
    assert forall|i: int| 0 <= i < first.len() implies first[i] =~= second[i] by {
        assert forall|j: int| 0 <= j < first[i].len() implies first[i][j] == second[i][j] by {
            let stencil = stencil_of(
                prev,
                config.boundary_condition_x,
                config.boundary_condition_y,
                i,
                j,
            );
            assert(follows(
                update,
                config.dx,
                config.dt,
                zero,
                potential[i][j],
                stencil,
                first[i][j],
            ));
            assert(follows(
                update,
                config.dx,
                config.dt,
                zero,
                potential[i][j],
                stencil,
                second[i][j],
            ));
        }
    }
    assert(first =~= second);
}

/// The potential grid of a lattice is one: two grids of classifications that
/// the potential function may give are the same.
pub proof fn lemma_potential_grids_agree<
    R,
    C: Fn(R, usize, usize) -> R,
    P: Fn(R, R) -> PotentialValue<R>,
>(
    first: Seq<Seq<PotentialValue<R>>>,
    second: Seq<Seq<PotentialValue<R>>>,
    coordinate: C,
    potential_fn: P,
    dx: R,
    width: usize,
    height: usize,
)
    requires
        coordinate_is_function(coordinate),
        potential_is_function(potential_fn),
        is_potential_grid(first, coordinate, potential_fn, dx, width, height),
        is_potential_grid(second, coordinate, potential_fn, dx, width, height),
    ensures
        first == second,
{
    assert forall|i: int| 0 <= i < first.len() implies first[i] =~= second[i] by {
        assert forall|j: int| 0 <= j < first[i].len() implies first[i][j] == second[i][j] by {
            let a = i as usize;
            let b = j as usize;
            assert(classifies(
                coordinate,
                potential_fn,
                dx,
                a,
                b,
                width,
                height,
                first[a as int][b as int],
            ));
            assert(classifies(
                coordinate,
                potential_fn,
                dx,
                a,
                b,
                width,
                height,
                second[a as int][b as int],
            ));
        }
    }
    assert(first =~= second);
}

/// Two courses from the same grid agree up to state `k`.
proof fn lemma_courses_agree<R, T, U: Fn(R, R, Stencil<T>, R) -> T>(
    first: Seq<Seq<Seq<T>>>,
    second: Seq<Seq<Seq<T>>>,
    potential: Seq<Seq<PotentialValue<R>>>,
    config: Config<R, T>,
    zero: T,
    update: U,
    k: int,
)
    requires
        update_is_function(update),
        is_course(first, potential, config, zero, update),
        is_course(second, potential, config, zero, update),
        0 <= k < first.len(),
        first.len() == second.len(),
        first[0] == second[0],
    ensures
        first[k] == second[k],
    decreases k,
{
    if k > 0 {
        lemma_courses_agree(first, second, potential, config, zero, update, k - 1);
        assert(is_step(first[k - 1], first[k - 1 + 1], potential, config, zero, update));
        assert(is_step(second[k - 1], second[k - 1 + 1], potential, config, zero, update));
        lemma_steps_agree(first[k - 1], first[k], second[k], potential, config, zero, update);
    }
}

/// Two runs with the same configuration, the same initial grid and the same
/// functions pass through the same states, under the same potential grid,
/// and hand back the same outputs.
pub proof fn lemma_runs_agree<
    R,
    T,
    O,
    C: Fn(R, usize, usize) -> R,
    P: Fn(R, R) -> PotentialValue<R>,
    U: Fn(R, R, Stencil<T>, R) -> T,
    S: Fn(usize, &Vec<Vec<T>>) -> O,
>(
    first: (Seq<Seq<Seq<T>>>, Seq<Seq<PotentialValue<R>>>, Seq<O>),
    second: (Seq<Seq<Seq<T>>>, Seq<Seq<PotentialValue<R>>>, Seq<O>),
    config: Config<R, T>,
    init: Seq<Seq<T>>,
    zero: T,
    coordinate: C,
    potential_fn: P,
    update: U,
    save_callback: S,
)
    requires
        coordinate_is_function(coordinate),
        potential_is_function(potential_fn),
        update_is_function(update),
        consumer_is_function(save_callback),
        is_run(first.0, first.1, config, init, zero, coordinate, potential_fn, update),
        is_record(first.2, first.0, config.num_steps, config.save_freq, save_callback),
        is_run(second.0, second.1, config, init, zero, coordinate, potential_fn, update),
        is_record(second.2, second.0, config.num_steps, config.save_freq, save_callback),
    ensures
        first == second,
{
    lemma_potential_grids_agree(
        first.1,
        second.1,
        coordinate,
        potential_fn,
        config.dx,
        init.len() as usize,
        init[0].len() as usize,
    );
    assert forall|k: int| 0 <= k < first.0.len() implies first.0[k] == second.0[k] by {
        lemma_courses_agree(first.0, second.0, first.1, config, zero, update, k);
    }
    assert(first.0 =~= second.0);
    assert forall|m: int| 0 <= m < first.2.len() implies first.2[m] == second.2[m] by {
        let state = first.0[m * config.save_freq + 1];
        assert(observed(save_callback, m as usize, state, first.2[m]));
        assert(observed(save_callback, m as usize, state, second.2[m]));
    }
    assert(first.2 =~= second.2);
}

} // verus!
