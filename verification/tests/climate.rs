use pumpkin_core::climate::{
    combine_bounds, contains_point, distance_to, NoiseHypercube, NoiseValuePoint, ParameterRange,
};

fn range(min: i32, max: i32) -> ParameterRange {
    ParameterRange { min, max }
}

fn sample_cube() -> NoiseHypercube {
    NoiseHypercube {
        temperature: range(-10, 10),
        erosion: range(30, 40),
        depth: range(50, 60),
        continentalness: range(-200, -100),
        weirdness: range(7, 7),
        humidity: range(1, 2),
        offset: 375,
    }
}

fn origin() -> NoiseValuePoint {
    NoiseValuePoint {
        temperature: 0,
        erosion: 0,
        depth: 0,
        continents: 0,
        weirdness: 0,
        humidity: 0,
    }
}

#[test]
fn new_range_needs_min_not_above_max() {
    assert_eq!(ParameterRange::new(-3, 8), Some(range(-3, 8)));
    assert_eq!(ParameterRange::new(4, 4), Some(range(4, 4)));
    assert_eq!(ParameterRange::new(5, 4), None);
}

#[test]
fn combine_is_the_union_of_the_intervals() {
    assert_eq!(range(0, 5).combine(&range(3, 9)), range(0, 9));
    assert_eq!(range(3, 9).combine(&range(0, 5)), range(0, 9));
    assert_eq!(range(-4, 20).combine(&range(1, 2)), range(-4, 20));
    assert_eq!(range(-7, -5).combine(&range(5, 7)), range(-7, 7));
    assert_eq!(range(2, 2).combine(&range(2, 2)), range(2, 2));
    assert_eq!(
        range(i32::MIN, 0).combine(&range(0, i32::MAX)),
        range(i32::MIN, i32::MAX)
    );
}

#[test]
fn holds_is_closed_at_both_ends() {
    let r = range(-2, 3);
    assert!(r.holds(-2));
    assert!(r.holds(0));
    assert!(r.holds(3));
    assert!(!r.holds(-3));
    assert!(!r.holds(4));
}

#[test]
fn squared_gap_is_zero_inside_and_grows_outside() {
    let r = range(-2, 3);
    assert_eq!(r.squared_gap(-2), 0);
    assert_eq!(r.squared_gap(3), 0);
    assert_eq!(r.squared_gap(1), 0);
    assert_eq!(r.squared_gap(-5), 9);
    assert_eq!(r.squared_gap(13), 100);
}

#[test]
fn squared_gap_at_the_ends_of_the_number_line() {
    let top = range(i32::MAX, i32::MAX);
    let width = (1u128 << 32) - 1;
    assert_eq!(top.squared_gap(i32::MIN), width * width);
    let bottom = range(i32::MIN, i32::MIN);
    assert_eq!(bottom.squared_gap(i32::MAX), width * width);
}

#[test]
fn parameters_come_in_the_fixed_order() {
    let parameters = sample_cube().to_parameters();
    assert_eq!(
        parameters,
        [
            range(-10, 10),
            range(1, 2),
            range(-200, -100),
            range(30, 40),
            range(50, 60),
            range(7, 7),
            range(375, 375),
        ]
    );
}

#[test]
fn coordinates_come_in_the_order_of_the_parameters() {
    let point = NoiseValuePoint {
        temperature: 1,
        erosion: 2,
        depth: 3,
        continents: 4,
        weirdness: 5,
        humidity: 6,
    };
    assert_eq!(point.to_coordinates(), [1, 6, 4, 2, 3, 5]);
}

#[test]
fn distance_sums_the_squares_over_six_parameters() {
    let bounds = sample_cube().to_parameters();
    // temperature 0, humidity 1, continents 100, erosion 30, depth 50, weirdness 7
    assert_eq!(distance_to(&bounds, &origin()), 1 + 10_000 + 900 + 2_500 + 49);
    let inside = NoiseValuePoint {
        temperature: 10,
        erosion: 35,
        depth: 50,
        continents: -150,
        weirdness: 7,
        humidity: 2,
    };
    assert_eq!(distance_to(&bounds, &inside), 0);
}

#[test]
fn distance_does_not_overflow() {
    let cube = NoiseHypercube {
        temperature: range(i32::MAX, i32::MAX),
        erosion: range(i32::MAX, i32::MAX),
        depth: range(i32::MAX, i32::MAX),
        continentalness: range(i32::MAX, i32::MAX),
        weirdness: range(i32::MAX, i32::MAX),
        humidity: range(i32::MAX, i32::MAX),
        offset: 0,
    };
    let point = NoiseValuePoint {
        temperature: i32::MIN,
        erosion: i32::MIN,
        depth: i32::MIN,
        continents: i32::MIN,
        weirdness: i32::MIN,
        humidity: i32::MIN,
    };
    let width = (1u128 << 32) - 1;
    assert_eq!(distance_to(&cube.to_parameters(), &point), 6 * width * width);
}

#[test]
fn containment_looks_at_the_six_sampled_parameters() {
    let bounds = sample_cube().to_parameters();
    let mut point = NoiseValuePoint {
        temperature: -10,
        erosion: 40,
        depth: 55,
        continents: -100,
        weirdness: 7,
        humidity: 1,
    };
    assert!(contains_point(&bounds, &point));
    point.weirdness = 8;
    assert!(!contains_point(&bounds, &point));
    point.weirdness = 7;
    point.continents = -99;
    assert!(!contains_point(&bounds, &point));
    assert!(!contains_point(&bounds, &origin()));
}

#[test]
fn combine_bounds_unites_parameter_by_parameter() {
    let a = sample_cube().to_parameters();
    let mut other = sample_cube();
    other.temperature = range(-30, -20);
    other.humidity = range(0, 9);
    other.offset = 100;
    let b = other.to_parameters();
    let hull = combine_bounds(&a, &b);
    assert_eq!(hull[0], range(-30, 10));
    assert_eq!(hull[1], range(0, 9));
    assert_eq!(hull[2], range(-200, -100));
    assert_eq!(hull[3], range(30, 40));
    assert_eq!(hull[4], range(50, 60));
    assert_eq!(hull[5], range(7, 7));
    assert_eq!(hull[6], range(100, 375));
}
