//! Infinite potential wells: regions of the plane, given as a union of
//! shapes, on which the wavefunction is forced to zero.

use vstd::prelude::*;

verus! {

/// The potential at a point: a finite value, or an impenetrable wall.
pub enum PotentialValue<R> {
    Finite(R),
    Infinite,
}

/// A union of shapes. The potential is infinite strictly inside any of them.
///
/// The well is generic in the shape type `S`; whether a shape holds a point is
/// answered by the membership test that `get_value` is called with.
pub struct InfiniteWell<S> {
    pub shapes: Vec<S>,
}

/// The membership test answers `inside` for `shape` at the point `(x, y)`.
pub open spec fn answers<S, R, F: Fn(&S, R, R) -> bool>(
    contains: F,
    shape: S,
    x: R,
    y: R,
    inside: bool,
) -> bool {
    contains.ensures((&shape, x, y), inside)
}

/// Some shape of the union is found to hold the point `(x, y)`.
pub open spec fn some_shape_holds<S, R, F: Fn(&S, R, R) -> bool>(
    shapes: Seq<S>,
    contains: F,
    x: R,
    y: R,
) -> bool {
    exists|k: int| 0 <= k < shapes.len() && answers(contains, #[trigger] shapes[k], x, y, true)
}

/// No shape of the union is found to hold the point `(x, y)`.
pub open spec fn no_shape_holds<S, R, F: Fn(&S, R, R) -> bool>(
    shapes: Seq<S>,
    contains: F,
    x: R,
    y: R,
) -> bool {
    forall|k: int| 0 <= k < shapes.len() ==> answers(contains, #[trigger] shapes[k], x, y, false)
}

/// The membership test gives one answer for each shape of the union at
/// `(x, y)`: it never both holds and does not hold the point.
pub open spec fn decided<S, R, F: Fn(&S, R, R) -> bool>(
    shapes: Seq<S>,
    contains: F,
    x: R,
    y: R,
) -> bool {
    forall|k: int|
        0 <= k < shapes.len() ==> !(answers(contains, #[trigger] shapes[k], x, y, true) && answers(
            contains,
            shapes[k],
            x,
            y,
            false,
        ))
}

impl<S> InfiniteWell<S> {
    /// The empty union: no wall anywhere.
    pub fn new() -> (well: InfiniteWell<S>)
        ensures
            well.shapes@ == Seq::<S>::empty(),
    {
        InfiniteWell { shapes: Vec::new() }
    }

    /// Adds `shape` to the union and hands the well back, so that calls chain.
    pub fn add_shape(&mut self, shape: S) -> (well: &mut Self)
        ensures
            well.shapes@ == old(self).shapes@.push(shape),
            *final(self) == *final(well),
    {
        self.shapes.push(shape);
        self
    }

    /// Classifies the point `(x, y)`: `Infinite` where some shape holds it,
    /// `Finite(ground)` where none does.
    pub fn get_value<R: Copy, F>(&self, x: R, y: R, ground: R, contains: F) -> (value:
        PotentialValue<R>) where F: Fn(&S, R, R) -> bool
        requires
            forall|k: int|
                0 <= k < self.shapes@.len() ==> contains.requires((&#[trigger] self.shapes@[k], x, y)),
        ensures
            value is Infinite ==> some_shape_holds(self.shapes@, contains, x, y),
            value is Finite ==> no_shape_holds(self.shapes@, contains, x, y),
            value matches PotentialValue::Finite(v) ==> v == ground,
            decided(self.shapes@, contains, x, y) ==> (value is Infinite <==> some_shape_holds(
                self.shapes@,
                contains,
                x,
                y,
            )),
    {
        let mut value = PotentialValue::Finite(ground);
        let mut k: usize = 0;
        while k < self.shapes.len()
            invariant
                k <= self.shapes@.len(),
                forall|a: int|
                    0 <= a < self.shapes@.len() ==> contains.requires(
                        (&#[trigger] self.shapes@[a], x, y),
                    ),
                value is Infinite ==> some_shape_holds(self.shapes@, contains, x, y),
                value is Finite ==> no_shape_holds(self.shapes@.take(k as int), contains, x, y),
                value matches PotentialValue::Finite(v) ==> v == ground,
            decreases self.shapes@.len() - k,
        {
            let inside = contains(&self.shapes[k], x, y);
            proof {
                let shapes = self.shapes@;
                assert(answers(contains, shapes[k as int], x, y, inside));
                if !inside && value is Finite {
                    assert forall|a: int| 0 <= a < k + 1 implies answers(
                        contains,
                        #[trigger] shapes.take(k + 1)[a],
                        x,
                        y,
                        false,
                    ) by {
                        if a < k {
                            assert(shapes.take(k + 1)[a] == shapes.take(k as int)[a]);
                        }
                    }
                }
            }
            if inside {
                value = PotentialValue::Infinite;
            }
            k += 1;
        }
        assert(self.shapes@.take(k as int) =~= self.shapes@);
        value
    }
}

/// A union covers the same points in whatever order its shapes were added:
/// two wells that hold the same shapes, each as often, classify alike.
pub proof fn lemma_union_ignores_order<S, R, F: Fn(&S, R, R) -> bool>(
    first: Seq<S>,
    second: Seq<S>,
    contains: F,
    x: R,
    y: R,
)
    requires
        first.to_multiset() == second.to_multiset(),
    ensures
        some_shape_holds(first, contains, x, y) == some_shape_holds(second, contains, x, y),
        no_shape_holds(first, contains, x, y) == no_shape_holds(second, contains, x, y),
{
    lemma_same_shapes(first, second);
    lemma_same_shapes(second, first);
    if some_shape_holds(first, contains, x, y) {
        let k = choose|k: int|
            0 <= k < first.len() && answers(contains, #[trigger] first[k], x, y, true);
        assert(second.contains(first[k]));
        let m = choose|m: int| 0 <= m < second.len() && second[m] == first[k];
        assert(answers(contains, second[m], x, y, true));
    }
    if some_shape_holds(second, contains, x, y) {
        let k = choose|k: int|
            0 <= k < second.len() && answers(contains, #[trigger] second[k], x, y, true);
        assert(first.contains(second[k]));
        let m = choose|m: int| 0 <= m < first.len() && first[m] == second[k];
        assert(answers(contains, first[m], x, y, true));
    }
    if no_shape_holds(first, contains, x, y) {
        assert forall|k: int| 0 <= k < second.len() implies answers(
            contains,
            #[trigger] second[k],
            x,
            y,
            false,
        ) by {
            assert(first.contains(second[k]));
            let m = choose|m: int| 0 <= m < first.len() && first[m] == second[k];
            assert(answers(contains, first[m], x, y, false));
        }
    }
    if no_shape_holds(second, contains, x, y) {
        assert forall|k: int| 0 <= k < first.len() implies answers(
            contains,
            #[trigger] first[k],
            x,
            y,
            false,
        ) by {
            assert(second.contains(first[k]));
            let m = choose|m: int| 0 <= m < second.len() && second[m] == first[k];
            assert(answers(contains, second[m], x, y, false));
        }
    }
}

/// Every shape of `first` occurs in `second` when both hold the same shapes.
proof fn lemma_same_shapes<S>(first: Seq<S>, second: Seq<S>)
    requires
        first.to_multiset() == second.to_multiset(),
    ensures
        forall|k: int| 0 <= k < first.len() ==> second.contains(#[trigger] first[k]),
{
    broadcast use vstd::seq_lib::group_to_multiset_ensures;

    assert forall|k: int| 0 <= k < first.len() implies second.contains(#[trigger] first[k]) by {
        assert(first.to_multiset().count(first[k]) > 0);
        assert(second.to_multiset().count(first[k]) > 0);
        assert(second.contains(first[k]));
    }
}

} // verus!
