use look_up_table::oned_lut::interpolation::{interpolate, is_object_constructible};
use look_up_table::{ConstructionError, OneDLookUpTable, OneDLookUpTableRef};

fn bits<const N: usize>(values: [f64; N]) -> [u64; N] {
    values.map(f64::to_bits)
}

type IncrFunc = OneDLookUpTable<5>;

fn simple_increasing_function() -> IncrFunc {
    OneDLookUpTable::new(
        std::array::from_fn(|i| ((i + 1) as f64).to_bits()),
        std::array::from_fn(|i| ((i + 1) as f64).to_bits()),
    )
    .unwrap()
}

type RandFunc = OneDLookUpTable<6>;

fn random_function() -> RandFunc {
    OneDLookUpTable::new(
        bits([1.0, 2.0, 7.0, 9.0, 13.0, 20.0]),
        bits([8.0, 4.0, 6.0, 10.0, 3.0, 2.0]),
    )
    .unwrap()
}

fn get<const N: usize>(table: &mut OneDLookUpTable<N>, index: f64) -> f64 {
    f64::from_bits(table.get(index.to_bits()))
}

/// The interpolation as the hardware computes it.
fn reference(x: f64, xs: &[f64], ys: &[f64]) -> f64 {
    if x < xs[0] {
        return ys[0];
    }
    if x > xs[xs.len() - 1] {
        return ys[ys.len() - 1];
    }
    let lub = match xs.binary_search_by(|val| val.partial_cmp(&x).unwrap()) {
        Ok(ind) => return ys[ind],
        Err(ind) => ind,
    };
    let prev = lub - 1;
    let alpha = (x - xs[prev]) / (xs[lub] - xs[prev]);
    ys[prev] + alpha * (ys[lub] - ys[prev])
}

#[test]
fn when_x_value_is_to_the_right_of_interval_return_last_value_in_y_table() {
    let mut function = simple_increasing_function();
    let expected = 5.0;
    let actual = get(&mut function, 10.0);

    assert!((actual - expected).abs() < f64::EPSILON);
}

#[test]
fn when_x_value_is_to_the_left_of_interval_return_first_value_in_y_table() {
    let mut function = simple_increasing_function();
    let expected = 1.0;
    let actual = get(&mut function, -1.0);

    assert!((actual - expected).abs() < f64::EPSILON);
}

#[test]
fn when_x_value_is_in_interval_return_appropriate_first_value_in_y_table() {
    let mut function = simple_increasing_function();
    let expected = 3.0;
    let actual = get(&mut function, 3.0);

    assert!((actual - expected).abs() < f64::EPSILON);
}

#[test]
#[should_panic(expected = "IncreasingDimOrderError")]
fn when_x_values_are_same_dont_construct_object() {
    OneDLookUpTable::new(bits([2.0; 6]), bits([2.0; 6])).unwrap();
}

#[test]
#[should_panic(expected = "MinLengthError")]
fn when_given_single_x_value_dont_construct_object() {
    OneDLookUpTable::new(bits([2.6; 1]), bits([3.2; 1])).unwrap();
}

#[test]
fn when_x_or_y_values_contain_nan_or_infinities_dont_construct_object() {
    let xs = [[f64::NAN; 5], [0.0, 1.5, f64::INFINITY, 4.5, 2.3], [1.1, 2.2, 3.3, 4.4, 5.5]];
    let ys = [
        [f64::NAN; 5],
        [0.0, 0.0, 0.0, f64::NAN, 0.05],
        [0.0, 1.5, f64::INFINITY, f64::INFINITY, f64::NAN],
    ];
    for x in xs {
        for y in ys {
            let lut = OneDLookUpTable::new(bits(x), bits(y));
            assert_eq!(lut.err(), Some(ConstructionError::ContainingNansOrInfinities));
        }
    }
}

#[test]
fn when_x_is_in_range_return_interpolated_value() {
    for (input, expected) in [(10.0, 8.25), (16.0, 2.5714)] {
        let mut function = random_function();
        let actual = get(&mut function, input);
        assert!((actual - expected).abs() < 0.0001);
    }
}

#[test]
fn interpolated_values_are_exact_to_the_bit() {
    let mut function = random_function();
    assert_eq!(function.get(10.0f64.to_bits()), 8.25f64.to_bits());
    assert_eq!(get(&mut function, 16.0), 3.0 + ((16.0 - 13.0) / (20.0 - 13.0)) * (2.0 - 3.0));
    assert_eq!(get(&mut function, 16.0), 2.5714285714285716);
    assert_eq!(get(&mut function, 1.5), 6.0);
    assert_eq!(get(&mut function, 4.5), 5.0);
}

#[test]
fn every_breakpoint_returns_its_value() {
    let xs: [f64; 6] = [1.0, 2.0, 7.0, 9.0, 13.0, 20.0];
    let ys: [f64; 6] = [8.0, 4.0, 6.0, 10.0, 3.0, 2.0];
    let mut function = random_function();
    for i in 0..6 {
        assert_eq!(function.get(xs[i].to_bits()), ys[i].to_bits());
    }
    let mut around_zero = OneDLookUpTable::new(bits([-1.0, 0.0, 1.0]), bits([5.0, 6.0, 7.0])).unwrap();
    assert_eq!(get(&mut around_zero, -0.0), 6.0);
    assert_eq!(get(&mut around_zero, 0.0), 6.0);
}

#[test]
fn queries_outside_the_breakpoints_are_clamped() {
    let mut function = random_function();
    assert_eq!(get(&mut function, 0.999), 8.0);
    assert_eq!(get(&mut function, -1e300), 8.0);
    assert_eq!(get(&mut function, f64::NEG_INFINITY), 8.0);
    assert_eq!(get(&mut function, 20.000001), 2.0);
    assert_eq!(get(&mut function, 1e300), 2.0);
    assert_eq!(get(&mut function, f64::INFINITY), 2.0);
}

#[test]
fn repeated_queries_are_served_from_the_cache() {
    let mut function = random_function();
    let q = 16.0f64.to_bits();
    assert!(!function.is_cached(q));
    let first = function.get(q);
    assert!(function.is_cached(q));
    let second = function.get(q);
    assert_eq!(first, second);
    assert!(function.is_cached(q));
    // A neighbouring pattern is another query.
    assert!(!function.is_cached(q + 1));
    // A breakpoint is remembered as well.
    assert!(!function.is_cached(7.0f64.to_bits()));
    assert_eq!(get(&mut function, 7.0), 6.0);
    assert!(function.is_cached(7.0f64.to_bits()));
}

#[test]
fn clamped_queries_are_not_cached() {
    let mut function = random_function();
    assert_eq!(get(&mut function, 0.0), 8.0);
    assert_eq!(get(&mut function, 25.0), 2.0);
    assert!(!function.is_cached(0.0f64.to_bits()));
    assert!(!function.is_cached(25.0f64.to_bits()));
}

#[test]
fn the_two_zeros_are_cached_apart() {
    let mut table = OneDLookUpTable::new(bits([-1.0, 1.0]), bits([0.0, 8.0])).unwrap();
    assert_eq!(get(&mut table, 0.0), 4.0);
    assert!(table.is_cached(0.0f64.to_bits()));
    assert!(!table.is_cached((-0.0f64).to_bits()));
    assert_eq!(get(&mut table, -0.0), 4.0);
    assert!(table.is_cached((-0.0f64).to_bits()));
}

#[test]
fn increasing_values_interpolate_between_their_neighbours() {
    let mut function = simple_increasing_function();
    for (q, lo, hi) in [(1.5, 1.0, 2.0), (2.25, 2.0, 3.0), (4.999, 4.0, 5.0)] {
        let y = get(&mut function, q);
        assert!(lo < y && y < hi);
    }
}

#[test]
fn rounding_can_carry_an_interpolated_value_onto_or_past_a_neighbour() {
    // The share of the way is so small that the sum rounds back to the lower value.
    let mut flat = OneDLookUpTable::new(bits([0.0, 1.0]), bits([1.0, 2.0])).unwrap();
    assert_eq!(get(&mut flat, 1e-20), 1.0);
    // The difference of the values rounds up, and carries the result past the upper value.
    let top = 9007199254740992.0;
    let xs = [-1.0, top];
    let ys = [-1.0, top + 2.0];
    let q = top - 1.0;
    let mut steep = OneDLookUpTable::new(bits(xs), bits(ys)).unwrap();
    assert_eq!(get(&mut steep, q), top + 4.0);
    assert_eq!(reference(q, &xs, &ys), top + 4.0);
}

#[test]
fn construction_rejects_short_arrays() {
    let lut = OneDLookUpTable::new(bits([1.0]), bits([1.0]));
    assert_eq!(lut.err(), Some(ConstructionError::MinLengthError));
    let lut = OneDLookUpTable::<0>::new([], []);
    assert_eq!(lut.err(), Some(ConstructionError::MinLengthError));
    let xs = bits([1.0, 2.0]);
    let ys = bits([1.0]);
    assert_eq!(is_object_constructible(&xs, &ys), Err(ConstructionError::MinLengthError));
    assert_eq!(is_object_constructible(&ys, &xs), Err(ConstructionError::MinLengthError));
}

#[test]
fn construction_rejects_breakpoints_that_do_not_increase() {
    for x in [[3.0, 1.0, 2.0], [1.0, 1.0, 2.0], [1.0, 2.0, 2.0], [1.0, 3.0, 2.0]] {
        let lut = OneDLookUpTable::new(bits(x), bits([1.0; 3]));
        assert_eq!(lut.err(), Some(ConstructionError::IncreasingDimOrderError));
    }
}

#[test]
fn construction_compares_gaps_with_the_tolerance() {
    // A gap of the tolerance itself is too small; the next double above it is enough.
    let eps = 1e-8f64;
    let above = f64::from_bits(eps.to_bits() + 1);
    assert_eq!(
        OneDLookUpTable::new(bits([0.0, eps]), bits([0.0, 1.0])).err(),
        Some(ConstructionError::IncreasingDimOrderError)
    );
    assert!(OneDLookUpTable::new(bits([0.0, above]), bits([0.0, 1.0])).is_ok());
    // The difference is rounded before it is compared.
    assert_eq!(1.00000001f64 - 1.0 > eps, false);
    assert_eq!(
        OneDLookUpTable::new(bits([1.0, 1.00000001]), bits([0.0, 1.0])).err(),
        Some(ConstructionError::IncreasingDimOrderError)
    );
    assert_eq!(1.00000002f64 - 1.0 > eps, true);
    assert!(OneDLookUpTable::new(bits([1.0, 1.00000002]), bits([0.0, 1.0])).is_ok());
    // A difference that overflows is a gap.
    assert!(OneDLookUpTable::new(bits([-f64::MAX, f64::MAX]), bits([0.0, 1.0])).is_ok());
}

#[test]
fn construction_reports_the_first_failing_check() {
    let lut = OneDLookUpTable::new(bits([f64::NAN]), bits([1.0]));
    assert_eq!(lut.err(), Some(ConstructionError::MinLengthError));
    let lut = OneDLookUpTable::new(bits([3.0, 1.0, 2.0]), bits([1.0, f64::INFINITY, 0.0]));
    assert_eq!(lut.err(), Some(ConstructionError::ContainingNansOrInfinities));
    let lut = OneDLookUpTable::new(bits([3.0, 1.0, f64::NEG_INFINITY]), bits([1.0; 3]));
    assert_eq!(lut.err(), Some(ConstructionError::ContainingNansOrInfinities));
}

#[test]
fn values_need_not_increase() {
    assert!(OneDLookUpTable::new(bits([1.0, 2.0, 3.0]), bits([5.0, 5.0, -5.0])).is_ok());
    let xs = bits([1.0, 2.0, 3.0]);
    let ys = bits([5.0, 5.0, -5.0]);
    assert_eq!(is_object_constructible(&xs, &ys), Ok(true));
}

#[test]
fn error_messages_name_the_fault() {
    assert_eq!(
        ConstructionError::IncreasingDimOrderError.message(),
        "Independent Dimension values should be in strictly increasing order"
    );
    assert_eq!(
        ConstructionError::ContainingNansOrInfinities.message(),
        "Cannot create a Lookup Table containing NaNs or Infinities"
    );
    assert_eq!(
        ConstructionError::MinLengthError.message(),
        "At least two values should be provided for all dimensions"
    );
}

#[test]
fn borrowing_table_answers_as_the_owning_one() {
    let xs = bits([1.0, 2.0, 7.0, 9.0, 13.0, 20.0]);
    let ys = bits([8.0, 4.0, 6.0, 10.0, 3.0, 2.0]);
    let mut borrowed = OneDLookUpTableRef::new(&xs, &ys).unwrap();
    let mut owned = random_function();
    for q in [-3.0, 1.0, 1.25, 2.0, 6.9, 10.0, 16.0, 19.99, 20.0, 21.0] {
        let q = f64::to_bits(q);
        assert_eq!(borrowed.get(q), owned.get(q));
        assert_eq!(borrowed.is_cached(q), owned.is_cached(q));
    }
    assert_eq!(
        OneDLookUpTableRef::new(&xs[..1], &ys[..1]).err(),
        Some(ConstructionError::MinLengthError)
    );
    let bad = bits([1.0, f64::NAN]);
    assert_eq!(
        OneDLookUpTableRef::new(&xs[..2], &bad).err(),
        Some(ConstructionError::ContainingNansOrInfinities)
    );
    let flat = bits([1.0, 1.0]);
    assert_eq!(
        OneDLookUpTableRef::new(&flat, &ys[..2]).err(),
        Some(ConstructionError::IncreasingDimOrderError)
    );
}

#[test]
fn table_agrees_with_hardware_arithmetic() {
    let xs = [-1e3, -2.5, -1e-3, 0.0, 1e-7, 0.3, 1.0, 1e10, 1e300];
    let ys = [3.25, -1e200, 1e200, 7.0, -7.0, 0.1, 1e-300, 5e-324, -1e308];
    let mut table = OneDLookUpTable::new(bits(xs), bits(ys)).unwrap();
    let mut state: u64 = 0x853c49e6748fea9b;
    for _ in 0..2000 {
        state = state.wrapping_mul(6364136223846793005).wrapping_add(1442695040888963407);
        let lo = state >> 12;
        state = state.wrapping_mul(6364136223846793005).wrapping_add(1442695040888963407);
        let q = f64::from_bits((state & 0xfff0_0000_0000_0000) | lo);
        if q.is_nan() {
            continue;
        }
        let want = reference(q, &xs, &ys);
        let got = get(&mut table, q);
        assert!(got == want || (got.is_nan() && want.is_nan()), "at {:e}", q);
        assert_eq!(f64::from_bits(interpolate(q.to_bits(), &bits(xs), &bits(ys))).to_bits(), got.to_bits());
    }
    for q in [-999.0, -2.0, -1e-4, 1e-8, 0.2, 0.9, 5e9, 1e299, 1e-320, -1e-320] {
        assert_eq!(get(&mut table, q).to_bits(), reference(q, &xs, &ys).to_bits(), "at {:e}", q);
    }
}

#[test]
fn rising_values_bound_the_interpolation() {
    let xs = [-4.0, -1.0, 0.0, 0.1, 3.0, 1e9];
    let ys = [-7.5, -7.0, 1e-3, 0.3, 0.30000000000000004, 1e200];
    let mut table = OneDLookUpTable::new(bits(xs), bits(ys)).unwrap();
    let mut state: u64 = 0xda3e39cb94b95bdb;
    for i in 0..5 {
        for _ in 0..400 {
            state = state.wrapping_mul(6364136223846793005).wrapping_add(1442695040888963407);
            let share = (state >> 11) as f64 / (1u64 << 53) as f64;
            let q = xs[i] + share * (xs[i + 1] - xs[i]);
            if !(xs[i] < q && q < xs[i + 1]) {
                continue;
            }
            let y = get(&mut table, q);
            assert!(ys[i] <= y && y <= ys[i] + (ys[i + 1] - ys[i]), "at {:e}", q);
        }
    }
}
