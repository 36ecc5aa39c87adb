//! The explicit time-stepping engine.
//!
//! One step reads the whole of one buffer and overwrites the whole of the
//! other. A walled cell becomes zero. Every other cell becomes what the
//! update rule makes of the cell's stencil and its potential value. The
//! update rule is the caller's: the explicit scheme that this engine was
//! built for is only conditionally stable, and the engine does nothing to
//! hide that.

use vstd::prelude::*;
use crate::genvec::{
    cells, copy_grid, filled_grid, generate_vec2d, lemma_columns, rectangular, same_shape,
    well_formed,
};
use crate::potential::PotentialValue;
use crate::stencil::{in_grid, stencil_at, stencil_of, Stencil};

verus! {

/// What lies past the two ends of one axis of the lattice.
pub enum BoundaryCondition<T> {
    /// The axis wraps around.
    Periodic,
    /// The axis is clamped: the first value lies below index 0, the second
    /// above the last index.
    Dirichlet(T, T),
}

/// The parameters of a run.
pub struct Config<R, T> {
    /// Lattice spacing.
    pub dx: R,
    /// Time step.
    pub dt: R,
    pub boundary_condition_x: BoundaryCondition<T>,
    pub boundary_condition_y: BoundaryCondition<T>,
    /// How many steps a run takes.
    pub num_steps: usize,
    /// A snapshot is taken at every step whose index is a multiple of this;
    /// 0 turns snapshots off.
    pub save_freq: usize,
}

/// `next` is a value that one step may give a cell with this potential and
/// this stencil: `zero` behind a wall, else a result of the update rule.
pub open spec fn follows<R, T, U: Fn(R, R, Stencil<T>, R) -> T>(
    update: U,
    dx: R,
    dt: R,
    zero: T,
    potential: PotentialValue<R>,
    stencil: Stencil<T>,
    next: T,
) -> bool {
    match potential {
        PotentialValue::Infinite => next == zero,
        PotentialValue::Finite(v) => update.ensures((dx, dt, stencil, v), next),
    }
}

/// The update rule accepts what one step hands it at cell `(i, j)`.
pub open spec fn accepts<R, T, U: Fn(R, R, Stencil<T>, R) -> T>(
    update: U,
    config: Config<R, T>,
    potential: PotentialValue<R>,
    stencil: Stencil<T>,
) -> bool {
    potential matches PotentialValue::Finite(v) ==> update.requires(
        (config.dx, config.dt, stencil, v),
    )
}

/// `curr` is a grid that one step may make of `prev`.
pub open spec fn is_step<R, T, U: Fn(R, R, Stencil<T>, R) -> T>(
    prev: Seq<Seq<T>>,
    curr: Seq<Seq<T>>,
    potential: Seq<Seq<PotentialValue<R>>>,
    config: Config<R, T>,
    zero: T,
    update: U,
) -> bool {
    &&& same_shape(curr, prev)
    &&& forall|i: int, j: int|
        0 <= i < prev.len() && 0 <= j < prev[0].len() ==> follows(
            update,
            config.dx,
            config.dt,
            zero,
            potential[i][j],
            stencil_of(prev, config.boundary_condition_x, config.boundary_condition_y, i, j),
            #[trigger] curr[i][j],
        )
}

/// Advances the wavefunction by one step: reads `prev`, overwrites `curr`.
pub fn next_step<R: Copy, T: Copy, U>(
    prev: &Vec<Vec<T>>,
    curr: &mut Vec<Vec<T>>,
    potential: &Vec<Vec<PotentialValue<R>>>,
    config: &Config<R, T>,
    zero: T,
    update: U,
) where U: Fn(R, R, Stencil<T>, R) -> T
    requires
        well_formed(cells(prev@)),
        same_shape(cells(old(curr)@), cells(prev@)),
        same_shape(cells(potential@), cells(prev@)),
        forall|i: int, j: int|
            0 <= i < prev@.len() && 0 <= j < cells(prev@)[0].len() ==> accepts(
                update,
                *config,
                #[trigger] cells(potential@)[i][j],
                stencil_of(
                    cells(prev@),
                    config.boundary_condition_x,
                    config.boundary_condition_y,
                    i,
                    j,
                ),
            ),
    ensures
        is_step(cells(prev@), cells(final(curr)@), cells(potential@), *config, zero, update),
{
    proof {
        lemma_columns(prev@);
    }
    let width: usize = prev.len();
    let height: usize = prev[0].len();
    let mut i: usize = 0;
    while i < width
        invariant
            i <= width,
            width == prev@.len(),
            height == cells(prev@)[0].len(),
            well_formed(cells(prev@)),
            same_shape(cells(curr@), cells(prev@)),
            same_shape(cells(potential@), cells(prev@)),
            forall|a: int, b: int|
                0 <= a < width && 0 <= b < height ==> accepts(
                    update,
                    *config,
                    #[trigger] cells(potential@)[a][b],
                    stencil_of(
                        cells(prev@),
                        config.boundary_condition_x,
                        config.boundary_condition_y,
                        a,
                        b,
                    ),
                ),
            forall|a: int, b: int|
                0 <= a < i && 0 <= b < height ==> follows(
                    update,
                    config.dx,
                    config.dt,
                    zero,
                    cells(potential@)[a][b],
                    stencil_of(
                        cells(prev@),
                        config.boundary_condition_x,
                        config.boundary_condition_y,
                        a,
                        b,
                    ),
                    #[trigger] cells(curr@)[a][b],
                ),
        decreases width - i,
    {
        let mut j: usize = 0;
        while j < height
            invariant
                i < width,
                j <= height,
                width == prev@.len(),
                height == cells(prev@)[0].len(),
                well_formed(cells(prev@)),
                same_shape(cells(curr@), cells(prev@)),
                same_shape(cells(potential@), cells(prev@)),
                forall|a: int, b: int|
                    0 <= a < width && 0 <= b < height ==> accepts(
                        update,
                        *config,
                        #[trigger] cells(potential@)[a][b],
                        stencil_of(
                            cells(prev@),
                            config.boundary_condition_x,
                            config.boundary_condition_y,
                            a,
                            b,
                        ),
                    ),
                forall|a: int, b: int|
                    (0 <= a < i && 0 <= b < height) || (a == i && 0 <= b < j) ==> follows(
                        update,
                        config.dx,
                        config.dt,
                        zero,
                        cells(potential@)[a][b],
                        stencil_of(
                            cells(prev@),
                            config.boundary_condition_x,
                            config.boundary_condition_y,
                            a,
                            b,
                        ),
                        #[trigger] cells(curr@)[a][b],
                    ),
            decreases height - j,
        {
            let ghost before = cells(curr@);
            proof {
                lemma_columns(curr@);
                lemma_columns(potential@);
                assert(cells(potential@)[i as int].len() == height);
                assert(before[i as int].len() == height);
            }
            let value = match &potential[i][j] {
                PotentialValue::Infinite => zero,
                PotentialValue::Finite(v) => {
                    let stencil = stencil_at(
                        prev,
                        &config.boundary_condition_x,
                        &config.boundary_condition_y,
                        i,
                        j,
                    );
                    assert(accepts(
                        update,
                        *config,
                        cells(potential@)[i as int][j as int],
                        stencil,
                    ));
                    update(config.dx, config.dt, stencil, *v)
                },
            };
            curr[i][j] = value;
            proof {
                lemma_columns(curr@);
                assert(cells(curr@) =~= before.update(
                    i as int,
                    before[i as int].update(j as int, value),
                ));
            }
            j += 1;
        }
        i += 1;
    }
}

/// A walled cell holds zero after a step, whatever it held before.
pub proof fn lemma_walled_cell_is_zero<R, T, U: Fn(R, R, Stencil<T>, R) -> T>(
    prev: Seq<Seq<T>>,
    curr: Seq<Seq<T>>,
    potential: Seq<Seq<PotentialValue<R>>>,
    config: Config<R, T>,
    zero: T,
    update: U,
    i: int,
    j: int,
)
    requires
        is_step(prev, curr, potential, config, zero, update),
        0 <= i < prev.len(),
        0 <= j < prev[0].len(),
        potential[i][j] is Infinite,
    ensures
        curr[i][j] == zero,
{
}

/// The coordinate map accepts every index of an axis with `extent` cells.
pub open spec fn maps_axis<R, C: Fn(R, usize, usize) -> R>(
    coordinate: C,
    dx: R,
    extent: usize,
) -> bool {
    forall|index: usize| index < extent ==> coordinate.requires((dx, index, extent))
}

/// `value` is a classification that the potential function may give cell
/// `(i, j)` of a `width` by `height` lattice: its answer at the coordinates
/// that the two indices are mapped to.
pub open spec fn classifies<R, C: Fn(R, usize, usize) -> R, P: Fn(R, R) -> PotentialValue<R>>(
    coordinate: C,
    potential_fn: P,
    dx: R,
    i: usize,
    j: usize,
    width: usize,
    height: usize,
    value: PotentialValue<R>,
) -> bool {
    exists|x: R, y: R|
        #![trigger potential_fn.ensures((x, y), value)]
        coordinate.ensures((dx, i, width), x) && coordinate.ensures((dx, j, height), y)
            && potential_fn.ensures((x, y), value)
}

/// `potential` is a grid of classifications that the potential function may
/// give the cells of a `width` by `height` lattice.
pub open spec fn is_potential_grid<
    R,
    C: Fn(R, usize, usize) -> R,
    P: Fn(R, R) -> PotentialValue<R>,
>(
    potential: Seq<Seq<PotentialValue<R>>>,
    coordinate: C,
    potential_fn: P,
    dx: R,
    width: usize,
    height: usize,
) -> bool {
    &&& rectangular(potential, width as int, height as int)
    &&& forall|i: usize, j: usize|
        i < width && j < height ==> classifies(
            coordinate,
            potential_fn,
            dx,
            i,
            j,
            width,
            height,
            #[trigger] potential[i as int][j as int],
        )
}

/// How many of the steps `0 .. num_steps` take a snapshot.
pub open spec fn snapshot_count(num_steps: int, save_freq: int) -> int {
    if save_freq == 0 {
        0
    } else {
        (num_steps + save_freq - 1) / save_freq
    }
}

/// Whether the step with this index takes a snapshot, and if so the
/// snapshot's sequence number.
pub open spec fn snapshot_at(step_index: int, save_freq: int) -> Option<int> {
    if save_freq != 0 && step_index % save_freq == 0 {
        Some(step_index / save_freq)
    } else {
        None
    }
}

/// Decides whether the step with this index takes a snapshot.
pub fn snapshot_due(step_index: usize, save_freq: usize) -> (due: Option<usize>)
    ensures
        due is Some <==> snapshot_at(step_index as int, save_freq as int) is Some,
        due matches Some(number) ==> snapshot_at(step_index as int, save_freq as int) == Some(
            number as int,
        ),
{
    if save_freq != 0 && step_index % save_freq == 0 {
        Some(step_index / save_freq)
    } else {
        None
    }
}

/// Each state of the course `states` but the first is what one step may make
/// of the state before it.
pub open spec fn is_course<R, T, U: Fn(R, R, Stencil<T>, R) -> T>(
    states: Seq<Seq<Seq<T>>>,
    potential: Seq<Seq<PotentialValue<R>>>,
    config: Config<R, T>,
    zero: T,
    update: U,
) -> bool {
    forall|k: int|
        0 <= k < states.len() - 1 ==> is_step(
            #[trigger] states[k],
            states[k + 1],
            potential,
            config,
            zero,
            update,
        )
}

/// `states` is a course that a run may take from `init`: `states[0]` is the
/// initial grid and `states[k + 1]` is what step `k` makes of `states[k]`,
/// all under the one grid `potential`.
pub open spec fn is_run<
    R,
    T,
    C: Fn(R, usize, usize) -> R,
    P: Fn(R, R) -> PotentialValue<R>,
    U: Fn(R, R, Stencil<T>, R) -> T,
>(
    states: Seq<Seq<Seq<T>>>,
    potential: Seq<Seq<PotentialValue<R>>>,
    config: Config<R, T>,
    init: Seq<Seq<T>>,
    zero: T,
    coordinate: C,
    potential_fn: P,
    update: U,
) -> bool {
    &&& is_potential_grid(
        potential,
        coordinate,
        potential_fn,
        config.dx,
        init.len() as usize,
        init[0].len() as usize,
    )
    &&& states.len() == config.num_steps + 1
    &&& states[0] == init
    &&& is_course(states, potential, config, zero, update)
}

/// `output` is what the snapshot consumer may return when it is shown the
/// grid `state` under the sequence number `number`.
pub open spec fn observed<T, O, S: Fn(usize, &Vec<Vec<T>>) -> O>(
    save_callback: S,
    number: usize,
    state: Seq<Seq<T>>,
    output: O,
) -> bool {
    exists|grid: Vec<Vec<T>>|
        #![trigger save_callback.ensures((number, &grid), output)]
        cells(grid@) == state && save_callback.ensures((number, &grid), output)
}

/// `outputs` is what the snapshot consumer may return over the course
/// `states`: one output for each step whose index is a multiple of
/// `save_freq`, in order. Output `m` comes from the grid that step
/// `m * save_freq` wrote, shown under the sequence number `m`.
pub open spec fn is_record<T, O, S: Fn(usize, &Vec<Vec<T>>) -> O>(
    outputs: Seq<O>,
    states: Seq<Seq<Seq<T>>>,
    num_steps: usize,
    save_freq: usize,
    save_callback: S,
) -> bool {
    &&& outputs.len() == snapshot_count(num_steps as int, save_freq as int)
    &&& forall|m: int|
        0 <= m < outputs.len() ==> observed(
            save_callback,
            m as usize,
            states[m * save_freq + 1],
            #[trigger] outputs[m],
        )
}

/// Step `k` takes a snapshot exactly when `k` is a multiple of `save_freq`.
/// The snapshot's sequence number is then the count of snapshots taken
/// before it, and with `save_freq` 0 no step takes one.
pub proof fn lemma_snapshot_cadence(k: int, save_freq: int)
    requires
        0 <= k,
        0 <= save_freq,
    ensures
        snapshot_count(0, save_freq) == 0,
        snapshot_at(k, save_freq) is Some ==> snapshot_at(k, save_freq) == Some(
            snapshot_count(k, save_freq),
        ) && snapshot_count(k + 1, save_freq) == snapshot_count(k, save_freq) + 1,
        snapshot_at(k, save_freq) is None ==> snapshot_count(k + 1, save_freq) == snapshot_count(
            k,
            save_freq,
        ),
        save_freq == 0 ==> snapshot_at(k, save_freq) is None && snapshot_count(k, save_freq) == 0,
{
    if save_freq != 0 {
        let f = save_freq;
        assert((f - 1) / f == 0) by (nonlinear_arith)
            requires
                f > 0,
        ;
        assert((k + f) / f == k / f + 1) by (nonlinear_arith)
            requires
                f > 0,
                k >= 0,
        ;
        if k % f == 0 {
            assert((k + f - 1) / f == k / f) by (nonlinear_arith)
                requires
                    f > 0,
                    k >= 0,
                    k % f == 0,
            ;
        } else {
            assert((k + f - 1) / f == k / f + 1) by (nonlinear_arith)
                requires
                    f > 0,
                    k >= 0,
                    k % f != 0,
            ;
        }
    }
}

/// Runs the engine: takes `config.num_steps` steps from `init` and returns
/// what the snapshot consumer made of each snapshot, in order.
///
/// Two buffers take turns: each step reads the one that the step before it
/// wrote. A snapshot shows the consumer the buffer just written, which the
/// next step but one overwrites.
pub fn evolve<R: Copy, T: Copy, O, C, P, U, S>(
    config: &Config<R, T>,
    init: &Vec<Vec<T>>,
    zero: T,
    coordinate: C,
    potential_fn: P,
    update: U,
    save_callback: S,
) -> (outputs: Vec<O>) where
    C: Fn(R, usize, usize) -> R,
    P: Fn(R, R) -> PotentialValue<R>,
    U: Fn(R, R, Stencil<T>, R) -> T,
    S: Fn(usize, &Vec<Vec<T>>) -> O,

    requires
        well_formed(cells(init@)),
        maps_axis(coordinate, config.dx, init@.len() as usize),
        maps_axis(coordinate, config.dx, cells(init@)[0].len() as usize),
        forall|x: R, y: R| potential_fn.requires((x, y)),
        forall|stencil: Stencil<T>, v: R| update.requires((config.dx, config.dt, stencil, v)),
        forall|number: usize, grid: Vec<Vec<T>>|
            number < snapshot_count(config.num_steps as int, config.save_freq as int) && same_shape(
                cells(grid@),
                cells(init@),
            ) ==> save_callback.requires((number, &grid)),
    ensures
        exists|states: Seq<Seq<Seq<T>>>, potential: Seq<Seq<PotentialValue<R>>>|
            #![trigger is_run(states, potential, *config, cells(init@), zero, coordinate, potential_fn, update)]
            is_run(
                states,
                potential,
                *config,
                cells(init@),
                zero,
                coordinate,
                potential_fn,
                update,
            ) && is_record(outputs@, states, config.num_steps, config.save_freq, save_callback),
{
    proof {
        lemma_columns(init@);
    }
    let lattice_width: usize = init.len();
    let lattice_height: usize = init[0].len();

    let mut front = copy_grid(init);
    let mut back = filled_grid(lattice_width, lattice_height, zero);

    let dx = config.dx;
    let potential = generate_vec2d(lattice_width, lattice_height, |i: usize, j: usize| -> (value:
        PotentialValue<R>)
        requires
            i < lattice_width,
            j < lattice_height,
        ensures
            classifies(
                coordinate,
                potential_fn,
                dx,
                i,
                j,
                lattice_width,
                lattice_height,
                value,
            ),
        {
            let x = coordinate(dx, i, lattice_width);
            let y = coordinate(dx, j, lattice_height);
            potential_fn(x, y)
        });

    let mut outputs: Vec<O> = Vec::new();
    let ghost mut states: Seq<Seq<Seq<T>>> = seq![cells(init@)];
    proof {
        lemma_snapshot_cadence(0, config.save_freq as int);
    }
    let mut k: usize = 0;
    while k < config.num_steps
        invariant
            k <= config.num_steps,
            well_formed(cells(init@)),
            same_shape(cells(front@), cells(init@)),
            same_shape(cells(back@), cells(init@)),
            same_shape(cells(potential@), cells(init@)),
            forall|stencil: Stencil<T>, v: R| update.requires((config.dx, config.dt, stencil, v)),
            forall|number: usize, grid: Vec<Vec<T>>|
                number < snapshot_count(config.num_steps as int, config.save_freq as int)
                    && same_shape(cells(grid@), cells(init@)) ==> save_callback.requires(
                    (number, &grid),
                ),
            states.len() == k + 1,
            states[0] == cells(init@),
            states[k as int] == (if k % 2 == 0 {
                cells(front@)
            } else {
                cells(back@)
            }),
            is_course(states, cells(potential@), *config, zero, update),
            is_record(outputs@, states, k, config.save_freq, save_callback),
        decreases config.num_steps - k,
    {
        let ghost before = states;
        if k % 2 == 0 {
            next_step(&front, &mut back, &potential, config, zero, &update);
            proof {
                states = before.push(cells(back@));
            }
        } else {
            next_step(&back, &mut front, &potential, config, zero, &update);
            proof {
                states = before.push(cells(front@));
            }
        }
        proof {
            lemma_course_extends(before, states[k + 1], cells(potential@), *config, zero, update);
            lemma_record_kept(outputs@, before, states[k + 1], k, config.save_freq, save_callback);
            lemma_snapshot_cadence(k as int, config.save_freq as int);
            lemma_snapshot_count_grows(
                k as int + 1,
                config.num_steps as int,
                config.save_freq as int,
            );
        }
        match snapshot_due(k, config.save_freq) {
            Some(call_number) => {
                let output = if k % 2 == 0 {
                    save_callback(call_number, &back)
                } else {
                    save_callback(call_number, &front)
                };
                proof {
                    lemma_snapshot_step(k as int, config.save_freq as int);
                    assert(observed(save_callback, call_number, states[k + 1], output));
                    lemma_record_extends(
                        outputs@,
                        output,
                        states,
                        k,
                        config.save_freq,
                        save_callback,
                    );
                }
                outputs.push(output);
            },
            None => {},
        }
        k += 1;
    }
    proof {
        assert(is_run(
            states,
            cells(potential@),
            *config,
            cells(init@),
            zero,
            coordinate,
            potential_fn,
            update,
        ));
    }
    outputs
}

/// A course stays one when a further step is appended to it.
proof fn lemma_course_extends<R, T, U: Fn(R, R, Stencil<T>, R) -> T>(
    before: Seq<Seq<Seq<T>>>,
    next: Seq<Seq<T>>,
    potential: Seq<Seq<PotentialValue<R>>>,
    config: Config<R, T>,
    zero: T,
    update: U,
)
    requires
        before.len() > 0,
        is_course(before, potential, config, zero, update),
        is_step(before[before.len() - 1], next, potential, config, zero, update),
    ensures
        is_course(before.push(next), potential, config, zero, update),
{
    let after = before.push(next);
    assert forall|q: int| 0 <= q < after.len() - 1 implies is_step(
        #[trigger] after[q],
        after[q + 1],
        potential,
        config,
        zero,
        update,
    ) by {
        if q < before.len() - 1 {
            assert(is_step(before[q], before[q + 1], potential, config, zero, update));
        }
    }
}

/// The outputs recorded over `k` steps are still those of the first `k`
/// steps once a further state is appended.
proof fn lemma_record_kept<T, O, S: Fn(usize, &Vec<Vec<T>>) -> O>(
    outputs: Seq<O>,
    before: Seq<Seq<Seq<T>>>,
    next: Seq<Seq<T>>,
    k: usize,
    save_freq: usize,
    save_callback: S,
)
    requires
        before.len() == k + 1,
        is_record(outputs, before, k, save_freq, save_callback),
    ensures
        is_record(outputs, before.push(next), k, save_freq, save_callback),
{
    let after = before.push(next);
    assert forall|m: int| 0 <= m < outputs.len() implies observed(
        save_callback,
        m as usize,
        after[m * save_freq + 1],
        #[trigger] outputs[m],
    ) by {
        lemma_snapshot_index(m, k as int, save_freq as int);
        assert(after[m * save_freq + 1] == before[m * save_freq + 1]);
    }
}

/// The record of `k` steps, with the output of the snapshot that step `k`
/// takes appended, is the record of `k + 1` steps.
proof fn lemma_record_extends<T, O, S: Fn(usize, &Vec<Vec<T>>) -> O>(
    outputs: Seq<O>,
    output: O,
    states: Seq<Seq<Seq<T>>>,
    k: usize,
    save_freq: usize,
    save_callback: S,
)
    requires
        k < usize::MAX,
        states.len() == k + 2,
        is_record(outputs, states, k, save_freq, save_callback),
        snapshot_at(k as int, save_freq as int) is Some,
        observed(save_callback, (k / save_freq) as usize, states[k + 1], output),
    ensures
        is_record(outputs.push(output), states, (k + 1) as usize, save_freq, save_callback),
{
    lemma_snapshot_cadence(k as int, save_freq as int);
    lemma_snapshot_step(k as int, save_freq as int);
    let longer = outputs.push(output);
    assert forall|m: int| 0 <= m < longer.len() implies observed(
        save_callback,
        m as usize,
        states[m * save_freq + 1],
        #[trigger] longer[m],
    ) by {
        if m < outputs.len() {
            assert(longer[m] == outputs[m]);
        } else {
            assert(m == k as int / save_freq as int);
        }
    }
}

/// Every state of a course has the shape of the first.
pub proof fn lemma_course_keeps_shape<R, T, U: Fn(R, R, Stencil<T>, R) -> T>(
    states: Seq<Seq<Seq<T>>>,
    potential: Seq<Seq<PotentialValue<R>>>,
    config: Config<R, T>,
    zero: T,
    update: U,
    k: int,
)
    requires
        is_course(states, potential, config, zero, update),
        0 <= k < states.len(),
        well_formed(states[0]),
    ensures
        well_formed(states[k]),
        same_shape(states[k], states[0]),
    decreases k,
{
    if k > 0 {
        lemma_course_keeps_shape(states, potential, config, zero, update, k - 1);
        assert(is_step(states[k - 1], states[k - 1 + 1], potential, config, zero, update));
    }
}

/// A walled cell holds zero in every state of a course after the first,
/// whatever the first state held there.
pub proof fn lemma_walls_hold_zero<R, T, U: Fn(R, R, Stencil<T>, R) -> T>(
    states: Seq<Seq<Seq<T>>>,
    potential: Seq<Seq<PotentialValue<R>>>,
    config: Config<R, T>,
    zero: T,
    update: U,
    k: int,
    i: int,
    j: int,
)
    requires
        is_course(states, potential, config, zero, update),
        1 <= k < states.len(),
        in_grid(states[0], i, j),
        potential[i][j] is Infinite,
    ensures
        states[k][i][j] == zero,
{
    lemma_course_keeps_shape(states, potential, config, zero, update, k - 1);
    assert(is_step(states[k - 1], states[k - 1 + 1], potential, config, zero, update));
}

/// The count of snapshots never falls as the run grows longer.
proof fn lemma_snapshot_count_grows(shorter: int, longer: int, save_freq: int)
    requires
        0 <= shorter <= longer,
        0 <= save_freq,
    ensures
        snapshot_count(shorter, save_freq) <= snapshot_count(longer, save_freq),
{
    if save_freq != 0 {
        assert((shorter + save_freq - 1) / save_freq <= (longer + save_freq - 1) / save_freq)
            by (nonlinear_arith)
            requires
                0 <= shorter <= longer,
                save_freq > 0,
        ;
    }
}

/// A step that takes a snapshot has its sequence number times `save_freq` as
/// its index.
proof fn lemma_snapshot_step(k: int, save_freq: int)
    requires
        0 <= k,
        0 < save_freq,
        k % save_freq == 0,
    ensures
        (k / save_freq) * save_freq == k,
{
    assert((k / save_freq) * save_freq == k) by (nonlinear_arith)
        requires
            0 <= k,
            0 < save_freq,
            k % save_freq == 0,
    ;
}

/// Snapshot `m` of a run of `k` steps was taken before step `k`.
proof fn lemma_snapshot_index(m: int, k: int, save_freq: int)
    requires
        0 <= k,
        0 <= save_freq,
        0 <= m < snapshot_count(k, save_freq),
    ensures
        0 <= m * save_freq < k,
{
    assert(0 <= m * save_freq < k) by (nonlinear_arith)
        requires
            0 <= k,
            save_freq > 0,
            0 <= m < (k + save_freq - 1) / save_freq,
    ;
}

} // verus!
