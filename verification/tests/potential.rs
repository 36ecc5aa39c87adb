use schroedinger::potential::{InfiniteWell, PotentialValue};

enum Region {
    Disk { pos: (f64, f64), rad: f64 },
    Rect { min: (f64, f64), max: (f64, f64) },
}

fn region_holds(region: &Region, x: f64, y: f64) -> bool {
    match region {
        Region::Disk { pos, rad } => {
            let dx = x - pos.0;
            let dy = y - pos.1;
            dx * dx + dy * dy < rad * rad
        }
        Region::Rect { min, max } => min.0 < x && x < max.0 && min.1 < y && y < max.1,
    }
}

fn is_wall(value: &PotentialValue<f64>) -> bool {
    matches!(value, PotentialValue::Infinite)
}

fn is_ground(value: &PotentialValue<f64>, ground: f64) -> bool {
    match value {
        PotentialValue::Finite(v) => *v == ground,
        PotentialValue::Infinite => false,
    }
}

#[test]
fn new_well_has_no_shapes() {
    let well: InfiniteWell<Region> = InfiniteWell::new();
    assert!(well.shapes.is_empty());
}

#[test]
fn empty_well_is_finite_everywhere() {
    let well: InfiniteWell<Region> = InfiniteWell::new();
    assert!(is_ground(&well.get_value(0.0, 0.0, 0.0, region_holds), 0.0));
    assert!(is_ground(&well.get_value(-7.5, 1.0e9, 0.0, region_holds), 0.0));
}

#[test]
fn add_shape_appends_and_chains() {
    let mut well: InfiniteWell<u8> = InfiniteWell::new();
    well.add_shape(3).add_shape(1).add_shape(2);
    assert_eq!(well.shapes, vec![3u8, 1, 2]);
}

#[test]
fn get_value_hands_back_the_ground_value() {
    let mut well = InfiniteWell::new();
    well.add_shape(Region::Disk { pos: (0.0, 0.0), rad: 1.0 });
    assert!(is_ground(&well.get_value(5.0, 5.0, 0.0, region_holds), 0.0));
    assert!(is_ground(&well.get_value(5.0, 5.0, 2.5, region_holds), 2.5));
    assert!(is_wall(&well.get_value(0.5, 0.5, 2.5, region_holds)));
}

#[test]
fn point_inside_any_shape_is_walled() {
    let mut well = InfiniteWell::new();
    well.add_shape(Region::Disk { pos: (0.0, 0.0), rad: 1.0 })
        .add_shape(Region::Rect { min: (2.0, 2.0), max: (4.0, 3.0) })
        .add_shape(Region::Disk { pos: (3.0, 2.5), rad: 0.25 });
    // Inside the first shape only.
    assert!(is_wall(&well.get_value(0.25, -0.25, 0.0, region_holds)));
    // Inside the second only.
    assert!(is_wall(&well.get_value(2.25, 2.75, 0.0, region_holds)));
    // Inside the second and the third.
    assert!(is_wall(&well.get_value(3.0, 2.5, 0.0, region_holds)));
    // Inside none.
    assert!(is_ground(&well.get_value(1.5, 1.5, 0.0, region_holds), 0.0));
    assert!(is_ground(&well.get_value(-3.0, 0.0, 0.0, region_holds), 0.0));
}

#[test]
fn a_hit_on_an_early_shape_survives_later_misses() {
    let mut well: InfiniteWell<u8> = InfiniteWell::new();
    well.add_shape(1).add_shape(2).add_shape(3);
    let first_only = |shape: &u8, _x: f64, _y: f64| *shape == 1;
    let last_only = |shape: &u8, _x: f64, _y: f64| *shape == 3;
    let none = |_shape: &u8, _x: f64, _y: f64| false;
    assert!(is_wall(&well.get_value(0.0, 0.0, 0.0, first_only)));
    assert!(is_wall(&well.get_value(0.0, 0.0, 0.0, last_only)));
    assert!(is_ground(&well.get_value(0.0, 0.0, 0.0, none), 0.0));
}

#[test]
fn classification_ignores_insertion_order() {
    let shapes = || {
        vec![
            Region::Disk { pos: (0.0, 0.0), rad: 1.0 },
            Region::Rect { min: (0.5, -3.0), max: (2.0, 3.0) },
            Region::Disk { pos: (-4.0, 1.0), rad: 0.5 },
        ]
    };
    let mut forward = InfiniteWell::new();
    for shape in shapes() {
        forward.add_shape(shape);
    }
    let mut backward = InfiniteWell::new();
    for shape in shapes().into_iter().rev() {
        backward.add_shape(shape);
    }
    let points = [
        (0.0, 0.0),
        (0.75, 0.0),
        (1.5, 2.0),
        (-4.0, 1.25),
        (-4.0, 1.5),
        (10.0, 10.0),
        (0.5, 0.0),
        (-2.0, -2.0),
    ];
    for (x, y) in points {
        let a = forward.get_value(x, y, 0.0, region_holds);
        let b = backward.get_value(x, y, 0.0, region_holds);
        assert_eq!(is_wall(&a), is_wall(&b));
    }
    assert!(is_wall(&forward.get_value(0.75, 0.0, 0.0, region_holds)));
    assert!(is_ground(&backward.get_value(10.0, 10.0, 0.0, region_holds), 0.0));
}

#[test]
fn a_strict_membership_test_leaves_the_rim_outside() {
    let mut well = InfiniteWell::new();
    well.add_shape(Region::Disk { pos: (1.0, 2.0), rad: 2.0 })
        .add_shape(Region::Rect { min: (10.0, 10.0), max: (12.0, 14.0) });
    // Exactly at distance `rad` from the centre of the disk.
    assert!(is_ground(&well.get_value(3.0, 2.0, 0.0, region_holds), 0.0));
    assert!(is_ground(&well.get_value(1.0, 0.0, 0.0, region_holds), 0.0));
    // Exactly on an edge of the box.
    assert!(is_ground(&well.get_value(10.0, 12.0, 0.0, region_holds), 0.0));
    assert!(is_ground(&well.get_value(11.0, 14.0, 0.0, region_holds), 0.0));
    assert!(is_ground(&well.get_value(12.0, 14.0, 0.0, region_holds), 0.0));
    // Just inside.
    assert!(is_wall(&well.get_value(2.999, 2.0, 0.0, region_holds)));
    assert!(is_wall(&well.get_value(10.001, 12.0, 0.0, region_holds)));
}
