use look_up_table::twod_lut::interpolation::{interpolate, is_nan_or_infinite, is_object_constructible};
use look_up_table::twod_lut::{pair_key, KEY_RADIX};
use look_up_table::{ConstructionError, TwoDLookUpTable, TwoDLookUpTableRef};
use std::borrow::Cow;

fn bits<const N: usize>(values: [f64; N]) -> [u64; N] {
    values.map(f64::to_bits)
}

fn grid<const M: usize, const N: usize>(values: [[f64; N]; M]) -> [[u64; N]; M] {
    values.map(bits)
}

type IncrSurface = TwoDLookUpTable<5, 5>;

fn simple_increasing_surface() -> IncrSurface {
    TwoDLookUpTable::new(
        std::array::from_fn(|i| ((i + 1) as f64).to_bits()),
        std::array::from_fn(|i| ((i + 1) as f64).to_bits()),
        grid([
            [1.0, 2.0, 3.0, 4.0, 5.0],
            [6.0, 7.0, 8.0, 9.0, 10.0],
            [11.0, 12.0, 13.0, 14.0, 15.0],
            [16.0, 17.0, 18.0, 19.0, 20.0],
            [21.0, 22.0, 23.0, 24.0, 25.0],
        ]),
    )
    .unwrap()
}

fn get<const M: usize, const N: usize>(table: &mut TwoDLookUpTable<M, N>, x: f64, y: f64) -> f64 {
    f64::from_bits(table.get(x.to_bits(), y.to_bits()))
}

fn indices(v: f64, vs: &[f64]) -> (usize, usize) {
    if v < vs[0] {
        (0, 0)
    } else if v > vs[vs.len() - 1] {
        (vs.len() - 1, vs.len() - 1)
    } else {
        match vs.binary_search_by(|val| val.partial_cmp(&v).unwrap()) {
            Ok(ind) => (ind, ind),
            Err(ind) => (ind - 1, ind),
        }
    }
}

/// The interpolation as the hardware computes it, on a surface whose rows run
/// along `ys`.
fn reference(x: f64, y: f64, xs: &[f64], ys: &[f64], surface: &[&[f64]]) -> f64 {
    let (x1_ind, x2_ind) = indices(x, xs);
    let (y1_ind, y2_ind) = indices(y, ys);
    let (x1, x2, y1, y2) = (xs[x1_ind], xs[x2_ind], ys[y1_ind], ys[y2_ind]);
    let fq11 = surface[y1_ind][x1_ind];
    let fq12 = surface[y1_ind][x2_ind];
    let fq21 = surface[y2_ind][x1_ind];
    let fq22 = surface[y2_ind][x2_ind];
    if x1_ind == x2_ind && y1_ind == y2_ind {
        fq11
    } else if y1_ind == y2_ind {
        let alpha = (x - x1) / (x2 - x1);
        fq11 + alpha * (fq12 - fq11)
    } else if x1_ind == x2_ind {
        let alpha = (y - y1) / (y2 - y1);
        fq11 + alpha * (fq21 - fq11)
    } else {
        let alpha_x = (x - x1) / (x2 - x1);
        let alpha_y = (y - y1) / (y2 - y1);
        let fxy1 = fq11 + alpha_x * (fq21 - fq11);
        let fxy2 = fq12 + alpha_x * (fq22 - fq12);
        fxy1 + alpha_y * (fxy2 - fxy1)
    }
}

#[test]
fn when_x_y_values_are_out_of_bounds_return_corner_values() {
    for (x, y, expected) in
        [(-2.0, -3.0, 1.0), (7.0, -1.0, 5.0), (10.0, 10.0, 25.0), (-3.0, 8.0, 21.0)]
    {
        let mut surface = simple_increasing_surface();
        let actual = get(&mut surface, x, y);

        assert!((actual - expected).abs() < 0.000001);
    }
}

#[test]
#[should_panic(expected = "IncreasingDimOrderError")]
fn when_x_or_y_values_are_not_increasing_dont_construct_object() {
    TwoDLookUpTable::new(bits([3.0, 1.0, 2.0]), bits([1.0; 2]), grid([[1.0; 2]; 3])).unwrap();
}

#[test]
#[should_panic(expected = "MinLengthError")]
fn when_x_or_y_values_are_single_element_arrays_dont_construct_object() {
    TwoDLookUpTable::new(bits([1.0]), bits([0.0]), grid([[0.0]; 1])).unwrap();
}

#[test]
#[should_panic(expected = "ContainingNansOrInfinities")]
fn when_x_or_y_surface_values_contain_nans_or_infinities_dont_construct_object() {
    TwoDLookUpTable::new(
        bits([f64::NAN, 1.0, 2.0]),
        bits([f64::NEG_INFINITY; 3]),
        grid([[1.0; 3]; 3]),
    )
    .unwrap();
}

#[test]
fn when_x_y_values_are_within_bounds_then_perform_bilinear_interpolation() {
    let mut lut = TwoDLookUpTable::new(
        bits([14.0, 15.0]),
        bits([20.0, 21.0]),
        grid([[91.0, 210.0], [162.0, 95.0]]),
    )
    .unwrap();

    let expected = 131.7;
    let actual = get(&mut lut, 14.5, 20.2);

    assert!((actual - expected).abs() < 0.00001);
}

#[test]
fn bilinear_interpolation_is_exact_to_the_bit() {
    let xs = [14.0, 15.0];
    let ys = [20.0, 21.0];
    let surface = [[91.0, 210.0], [162.0, 95.0]];
    let mut lut = TwoDLookUpTable::new(bits(xs), bits(ys), grid(surface)).unwrap();
    let alpha_x = (14.5 - 14.0) / (15.0 - 14.0);
    let alpha_y = (20.2 - 20.0) / (21.0 - 20.0);
    let fxy1 = 91.0 + alpha_x * (162.0 - 91.0);
    let fxy2 = 210.0 + alpha_x * (95.0 - 210.0);
    assert_eq!(get(&mut lut, 14.5, 20.2), fxy1 + alpha_y * (fxy2 - fxy1));
    assert_eq!(get(&mut lut, 14.5, 20.5), 139.5);
    assert_eq!(get(&mut lut, 14.25, 20.75), 163.125);
}

#[test]
fn every_grid_point_returns_its_value() {
    let mut surface = simple_increasing_surface();
    for row in 0..5 {
        for column in 0..5 {
            let expected = (row * 5 + column + 1) as f64;
            assert_eq!(get(&mut surface, (column + 1) as f64, (row + 1) as f64), expected);
        }
    }
}

#[test]
fn a_query_on_one_grid_line_is_interpolated_along_it() {
    let mut surface = simple_increasing_surface();
    // On a breakpoint of the second axis: between two columns of one row.
    assert_eq!(get(&mut surface, 1.5, 2.0), 6.5);
    assert_eq!(get(&mut surface, 4.25, 5.0), 24.25);
    // On a breakpoint of the first axis: between two rows of one column.
    assert_eq!(get(&mut surface, 2.0, 1.5), 4.5);
    assert_eq!(get(&mut surface, 5.0, 4.5), 22.5);
    // Outside one axis, inside the other.
    assert_eq!(get(&mut surface, -4.0, 2.5), 8.5);
    assert_eq!(get(&mut surface, 3.5, 9.0), 23.5);
}

#[test]
fn equal_corner_values_do_not_collapse_a_cell() {
    // Opposite corners hold the same value; the cell is still interpolated.
    let mut lut = TwoDLookUpTable::new(
        bits([0.0, 1.0]),
        bits([0.0, 1.0]),
        grid([[1.0, 3.0], [5.0, 1.0]]),
    )
    .unwrap();
    let alpha = 0.5;
    let fxy1 = 1.0 + alpha * (5.0 - 1.0);
    let fxy2 = 3.0 + alpha * (1.0 - 3.0);
    assert_eq!(get(&mut lut, 0.5, 0.5), fxy1 + alpha * (fxy2 - fxy1));
    assert_eq!(get(&mut lut, 0.5, 0.5), 2.5);
    // Two corners of one row hold the same value; the query between them gets it.
    let mut flat = TwoDLookUpTable::new(
        bits([0.0, 1.0]),
        bits([0.0, 1.0]),
        grid([[2.0, 2.0], [4.0, 8.0]]),
    )
    .unwrap();
    assert_eq!(get(&mut flat, 0.5, 0.0), 2.0);
    assert_eq!(get(&mut flat, 0.5, 1.0), 6.0);
    assert_eq!(get(&mut flat, 0.0, 0.5), 3.0);
}

#[test]
fn repeated_surface_queries_are_served_from_the_cache() {
    let mut surface = simple_increasing_surface();
    let (x, y) = (2.5f64.to_bits(), 3.5f64.to_bits());
    assert!(!surface.is_cached(x, y));
    let first = surface.get(x, y);
    assert!(surface.is_cached(x, y));
    assert!(!surface.is_cached(y, x));
    let second = surface.get(x, y);
    assert_eq!(first, second);
    // Queries outside the axes are remembered as well.
    assert_eq!(get(&mut surface, -2.0, -3.0), 1.0);
    assert!(surface.is_cached((-2.0f64).to_bits(), (-3.0f64).to_bits()));
}

#[test]
fn construction_rejects_short_axes() {
    let lut = TwoDLookUpTable::new(bits([1.0]), bits([0.0, 1.0]), grid([[0.0, 1.0]]));
    assert_eq!(lut.err(), Some(ConstructionError::MinLengthError));
    let lut = TwoDLookUpTable::new(bits([0.0, 1.0]), bits([1.0]), grid([[0.0], [1.0]]));
    assert_eq!(lut.err(), Some(ConstructionError::MinLengthError));
    let lut = TwoDLookUpTable::new(bits([f64::NAN]), bits([1.0]), grid([[f64::NAN]]));
    assert_eq!(lut.err(), Some(ConstructionError::MinLengthError));
}

#[test]
fn construction_rejects_values_that_are_no_numbers() {
    let good = [[1.0; 2]; 2];
    for bad in [f64::NAN, f64::INFINITY, f64::NEG_INFINITY] {
        let lut = TwoDLookUpTable::new(bits([0.0, bad]), bits([0.0, 1.0]), grid(good));
        assert_eq!(lut.err(), Some(ConstructionError::ContainingNansOrInfinities));
        let lut = TwoDLookUpTable::new(bits([0.0, 1.0]), bits([bad, 1.0]), grid(good));
        assert_eq!(lut.err(), Some(ConstructionError::ContainingNansOrInfinities));
        for row in 0..2 {
            for column in 0..2 {
                let mut surface = good;
                surface[row][column] = bad;
                let lut = TwoDLookUpTable::new(bits([0.0, 1.0]), bits([0.0, 1.0]), grid(surface));
                assert_eq!(lut.err(), Some(ConstructionError::ContainingNansOrInfinities));
            }
        }
    }
    // A value that is no number is reported before an axis that does not increase.
    let lut = TwoDLookUpTable::new(bits([1.0, 0.0]), bits([0.0, 1.0]), grid([[1.0, f64::NAN], [1.0, 1.0]]));
    assert_eq!(lut.err(), Some(ConstructionError::ContainingNansOrInfinities));
}

#[test]
fn construction_rejects_axes_that_do_not_increase() {
    let good = [[1.0; 3]; 3];
    for bad in [[3.0, 1.0, 2.0], [1.0, 1.0, 2.0], [1.0, 2.0, 2.0], [0.0, 1e-8, 1.0]] {
        let lut = TwoDLookUpTable::new(bits(bad), bits([1.0, 2.0, 3.0]), grid(good));
        assert_eq!(lut.err(), Some(ConstructionError::IncreasingDimOrderError));
        let lut = TwoDLookUpTable::new(bits([1.0, 2.0, 3.0]), bits(bad), grid(good));
        assert_eq!(lut.err(), Some(ConstructionError::IncreasingDimOrderError));
    }
    assert!(TwoDLookUpTable::new(bits([0.0, 2e-8, 1.0]), bits([1.0, 2.0, 3.0]), grid(good)).is_ok());
    // The surface may hold any numbers, in any order.
    let lut = TwoDLookUpTable::new(
        bits([1.0, 2.0, 3.0]),
        bits([1.0, 2.0, 3.0]),
        grid([[9.0, 1.0, 5.0], [0.0, 0.0, 0.0], [-1.0, 7.0, -1e300]]),
    );
    assert!(lut.is_ok());
}

#[test]
fn checks_run_over_axes_of_any_length() {
    let one = bits([1.0]);
    let two = bits([1.0, 2.0]);
    let none: [u64; 0] = [];
    let row = bits([1.0, 2.0]);
    let rows: [&[u64]; 2] = [&row, &row];
    assert_eq!(is_object_constructible(&two, &two, &rows), Ok(true));
    assert_eq!(is_object_constructible(&one, &two, &rows), Err(ConstructionError::MinLengthError));
    assert_eq!(is_object_constructible(&two, &none, &rows), Err(ConstructionError::MinLengthError));
    let down = bits([2.0, 1.0]);
    assert_eq!(
        is_object_constructible(&two, &down, &rows),
        Err(ConstructionError::IncreasingDimOrderError)
    );
    let long = bits([1.0, 2.0, 3.0, 4.0, 4.0]);
    assert_eq!(
        is_object_constructible(&long, &two, &rows),
        Err(ConstructionError::IncreasingDimOrderError)
    );
    let hole = bits([1.0, f64::NAN]);
    let holed: [&[u64]; 2] = [&row, &hole];
    assert_eq!(
        is_object_constructible(&two, &two, &holed),
        Err(ConstructionError::ContainingNansOrInfinities)
    );
}

#[test]
fn a_surface_that_is_not_square_is_read_with_the_first_axis_down_its_rows() {
    let xs = [1.0, 2.0, 3.0];
    let ys = [10.0, 20.0];
    let surface = [[1.0, 2.0], [3.0, 5.0], [8.0, 13.0]];
    let mut lut = TwoDLookUpTable::new(bits(xs), bits(ys), grid(surface)).unwrap();
    for (i, x) in xs.iter().enumerate() {
        for (j, y) in ys.iter().enumerate() {
            assert_eq!(get(&mut lut, *x, *y), surface[i][j]);
        }
    }
    assert_eq!(get(&mut lut, 0.0, 0.0), 1.0);
    assert_eq!(get(&mut lut, 9.0, 99.0), 13.0);
    assert_eq!(get(&mut lut, 9.0, 0.0), 8.0);
    assert_eq!(get(&mut lut, 2.0, 15.0), 4.0);
    assert_eq!(get(&mut lut, 2.5, 10.0), 5.5);
    let rows: Vec<&[f64]> = surface.iter().map(|r| &r[..]).collect();
    assert_eq!(get(&mut lut, 2.5, 12.5), reference(12.5, 2.5, &ys, &xs, &rows));
}

#[test]
fn borrowing_surface_answers_as_the_owning_one() {
    let xs = bits([1.0, 2.0, 3.0, 4.0, 5.0]);
    let ys = xs;
    let cells: Vec<[u64; 5]> =
        (0..5).map(|r| std::array::from_fn(|c| ((r * 5 + c + 1) as f64).to_bits())).collect();
    let rows: Vec<&[u64]> = cells.iter().map(|r| &r[..]).collect();
    let mut borrowed = TwoDLookUpTableRef::new(&xs, &ys, &rows).unwrap();
    let mut owned = simple_increasing_surface();
    for x in [-2.0, 1.0, 1.5, 2.0, 3.3, 4.999, 5.0, 7.0] {
        for y in [-3.0, 1.0, 1.25, 3.0, 4.2, 5.0, 10.0] {
            let (x, y) = (f64::to_bits(x), f64::to_bits(y));
            assert_eq!(borrowed.get(x, y), owned.get(x, y));
            assert!(borrowed.is_cached(x, y));
        }
    }
}

#[test]
fn borrowing_table_takes_a_surface_in_either_orientation() {
    let xs = bits([1.0, 2.0, 3.0]);
    let ys = bits([10.0, 20.0]);
    let by_x = grid([[1.0, 2.0], [3.0, 5.0], [8.0, 13.0]]);
    let by_y = grid([[1.0, 3.0, 8.0], [2.0, 5.0, 13.0]]);
    let rows_x: Vec<&[u64]> = by_x.iter().map(|r| &r[..]).collect();
    let rows_y: Vec<&[u64]> = by_y.iter().map(|r| &r[..]).collect();
    let mut down = TwoDLookUpTableRef::new(&xs, &ys, &rows_x).unwrap();
    let mut across = TwoDLookUpTableRef::new(&xs, &ys, &rows_y).unwrap();
    for (i, x) in xs.iter().enumerate() {
        for (j, y) in ys.iter().enumerate() {
            assert_eq!(down.get(*x, *y), by_x[i][j]);
            assert_eq!(across.get(*x, *y), by_x[i][j]);
        }
    }
    let (x, y) = (2.5f64.to_bits(), 15.0f64.to_bits());
    assert_eq!(f64::from_bits(down.get(x, 10.0f64.to_bits())), 5.5);
    assert_eq!(f64::from_bits(across.get(x, 10.0f64.to_bits())), 5.5);
    assert_eq!(f64::from_bits(down.get(2.0f64.to_bits(), y)), 4.0);
    assert_eq!(f64::from_bits(across.get(2.0f64.to_bits(), y)), 4.0);
    let bad = bits([1.0, 1.0, 3.0]);
    assert_eq!(
        TwoDLookUpTableRef::new(&bad, &ys, &rows_x).err(),
        Some(ConstructionError::IncreasingDimOrderError)
    );
}

#[test]
fn surface_agrees_with_hardware_arithmetic() {
    let xs = [-10.0, -1.0, 0.0, 0.5, 3.0, 1e6];
    let ys = [-1e-3, 0.0, 1e-3, 2.0, 1e100, 1e300];
    let surface = [
        [1.0, -2.0, 3.5, 1e10, -1e-10, 0.0],
        [4.0, 4.0, 4.0, -4.0, 1e300, -1e300],
        [0.1, 0.2, 0.3, 0.4, 0.5, 0.6],
        [1e308, -1e308, 5e-324, 1.0, 2.0, 3.0],
        [7.0, 8.0, 9.0, 10.0, 11.0, 12.0],
        [-1.0, -1.0, -1.0, 0.0, 1.0, 1.0],
    ];
    let rows: Vec<&[f64]> = surface.iter().map(|r| &r[..]).collect();
    let mut table = TwoDLookUpTable::new(bits(xs), bits(ys), grid(surface)).unwrap();
    let probes = [
        -11.0, -10.0, -5.5, -1.0, -0.25, 0.0, 0.1, 0.5, 2.9, 3.0, 17.0, 999999.0, 1e6, 1e7, -1e-3,
        -1e-4, 1e-3, 1.0, 2.0, 1e50, 1e100, 1e200, 1e300, 1e301, 1e-310,
    ];
    for x in probes {
        for y in probes {
            let want = reference(x, y, &xs, &ys, &rows);
            let got = get(&mut table, x, y);
            assert!(
                got.to_bits() == want.to_bits() || (got.is_nan() && want.is_nan()),
                "at ({:e}, {:e}): {:e} for {:e}",
                x,
                y,
                got,
                want
            );
        }
    }
}

#[test]
fn a_surface_in_copy_on_write_containers_makes_a_table() {
    let cells = grid([[1.0, 2.0, 3.0], [4.0, 5.0, 6.0], [7.0, 8.0, 9.0]]);
    let rows: Vec<Cow<'static, [u64]>> = vec![
        Cow::Owned(cells[0].to_vec()),
        Cow::Borrowed(Vec::leak(cells[1].to_vec())),
        Cow::Owned(cells[2].to_vec()),
    ];
    let surface: &'static Cow<'static, [Cow<'static, [u64]>]> = Box::leak(Box::new(Cow::Owned(rows)));
    let xs = bits([1.0, 2.0, 3.0]);
    let ys = bits([10.0, 20.0, 30.0]);
    let mut table = TwoDLookUpTableRef::from_cow(&xs, &ys, surface).unwrap();
    let mut owned = TwoDLookUpTable::new(xs, ys, cells).unwrap();
    for x in [0.0, 1.0, 1.5, 2.0, 2.75, 3.0, 4.0] {
        for y in [0.0, 10.0, 12.5, 20.0, 29.0, 30.0, 31.0] {
            let (x, y) = (f64::to_bits(x), f64::to_bits(y));
            assert_eq!(table.get(x, y), owned.get(x, y));
        }
    }
    assert_eq!(f64::from_bits(table.get(3.0f64.to_bits(), 10.0f64.to_bits())), 3.0);
    let flat = bits([1.0, 1.0, 3.0]);
    assert_eq!(
        TwoDLookUpTableRef::from_cow(&flat, &ys, surface).err(),
        Some(ConstructionError::IncreasingDimOrderError)
    );
    let holed: &'static Cow<'static, [Cow<'static, [u64]>]> = Box::leak(Box::new(Cow::Owned(vec![
        Cow::Owned(bits([1.0, 2.0]).to_vec()),
        Cow::Owned(bits([f64::NAN, 2.0]).to_vec()),
    ])));
    assert_eq!(
        TwoDLookUpTableRef::from_cow(&xs[..2], &ys[..2], holed).err(),
        Some(ConstructionError::ContainingNansOrInfinities)
    );
}

#[test]
fn keys_hold_both_coordinates() {
    assert_eq!(KEY_RADIX, 1u128 << 64);
    assert_eq!(pair_key(0, 0), 0);
    assert_eq!(pair_key(0, 7), 7);
    assert_eq!(pair_key(1, 0), 1u128 << 64);
    assert_eq!(pair_key(u64::MAX, u64::MAX), u128::MAX);
    assert_ne!(pair_key(1, 2), pair_key(2, 1));
    let (x, y) = (14.5f64.to_bits(), 20.2f64.to_bits());
    assert_eq!(pair_key(x, y), ((x as u128) << 64) | y as u128);
}

#[test]
fn patterns_that_are_no_numbers_are_told_apart() {
    assert!(is_nan_or_infinite(f64::NAN.to_bits()));
    assert!(is_nan_or_infinite(f64::INFINITY.to_bits()));
    assert!(is_nan_or_infinite(f64::NEG_INFINITY.to_bits()));
    assert!(!is_nan_or_infinite(f64::MAX.to_bits()));
    assert!(!is_nan_or_infinite(0.0f64.to_bits()));
}

#[test]
fn a_surface_is_evaluated_without_a_cache() {
    let mut surface = simple_increasing_surface();
    let axis: [u64; 5] = std::array::from_fn(|i| ((i + 1) as f64).to_bits());
    for (x, y) in [(1.5, 2.5), (0.0, 3.0), (4.0, 4.0), (9.0, 1.25)] {
        let (x, y) = (f64::to_bits(x), f64::to_bits(y));
        let z = interpolate(x, y, &axis, &axis, &surface);
        assert!(!surface.is_cached(x, y));
        assert_eq!(surface.get(x, y), z);
    }
    assert_eq!(
        f64::from_bits(interpolate(1.5f64.to_bits(), 2.5f64.to_bits(), &axis, &axis, &surface)),
        9.0
    );
}
