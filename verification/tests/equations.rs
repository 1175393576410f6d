use electrocute::{c64, CircuitError, LinearEquations};

fn z(re: f64, im: f64) -> c64 {
    c64::new(re.to_bits(), im.to_bits())
}

fn plus(a: c64, b: c64) -> c64 {
    z(
        f64::from_bits(a.re) + f64::from_bits(b.re),
        f64::from_bits(a.im) + f64::from_bits(b.im),
    )
}

fn minus(a: c64, b: c64) -> c64 {
    z(
        f64::from_bits(a.re) - f64::from_bits(b.re),
        f64::from_bits(a.im) - f64::from_bits(b.im),
    )
}

fn add_a(le: &mut LinearEquations, i: u32, j: u32, value: c64) {
    let sum = plus(le.get_a(i, j).unwrap(), value);
    le.set_a(i, j, sum).unwrap();
}

fn add_b(le: &mut LinearEquations, i: u32, value: c64) {
    let sum = plus(le.get_current(i), value);
    le.set_b(i, sum);
}

#[test]
fn test_csr_construction() {
    let coords = vec![(0, 0), (0, 2), (1, 1), (2, 0), (2, 2)];
    let le = LinearEquations::from_coordinates(coords);

    let (rows, cols) = le.dimensions();
    assert_eq!(rows, 3);
    assert_eq!(cols, 3);

    assert_eq!(le.row_pointers().len(), 4);
    assert_eq!(le.column_indices(), &vec![0, 2, 1, 0, 2]);

    assert_eq!(le.index_of(0, 0), Some(0));
    assert_eq!(le.index_of(0, 2), Some(1));
    assert_eq!(le.index_of(1, 1), Some(2));
    assert_eq!(le.index_of(2, 0), Some(3));
    assert_eq!(le.index_of(2, 2), Some(4));
}

#[test]
fn test_add_and_clear_a() {
    let coords = vec![(0, 0), (0, 1)];
    let mut le = LinearEquations::from_coordinates(coords);

    add_a(&mut le, 0, 0, z(1.0, 0.0));
    add_a(&mut le, 0, 1, z(2.0, 0.0));

    assert_eq!(le.values()[0], z(1.0, 0.0));
    assert_eq!(le.values()[1], z(2.0, 0.0));

    le.clear_row(0);
    assert_eq!(le.values()[0], c64::zero());
    assert_eq!(le.values()[1], c64::zero());
}

#[test]
fn test_set_and_add_b() {
    let coords = vec![(0, 0), (1, 1)];
    let mut le = LinearEquations::from_coordinates(coords);

    le.set_b(0, z(1.0, 1.0));
    add_b(&mut le, 0, z(2.0, -1.0));
    le.set_b(1, z(0.5, 0.5));

    assert_eq!(le.rhs()[0], z(3.0, 0.0));
    assert_eq!(le.rhs()[1], z(0.5, 0.5));
}

#[test]
fn test_get_voltage_across() {
    let coords = vec![(0, 0), (1, 1)];
    let mut le = LinearEquations::from_coordinates(coords);

    le.set_solution(vec![z(5.0, 0.0), z(2.0, 0.0)]);

    let v = minus(le.get_voltage(0), le.get_voltage(1));
    assert_eq!(v, z(3.0, 0.0));
}

#[test]
fn test_get_current() {
    let coords = vec![(0, 0)];
    let mut le = LinearEquations::from_coordinates(coords);

    le.set_b(0, z(4.0, 0.0));
    let i = le.get_current(0);
    assert_eq!(i, z(4.0, 0.0));
}

#[test]
fn unreserved_coordinate_is_reported() {
    let mut le = LinearEquations::from_coordinates(vec![(0, 0)]);
    assert_eq!(
        le.set_a(0, 1, z(1.0, 0.0)),
        Err(CircuitError::UnreservedCoordinate { row: 0, col: 1 })
    );
    assert_eq!(
        le.get_a(3, 0),
        Err(CircuitError::UnreservedCoordinate { row: 3, col: 0 })
    );
    assert_eq!(
        le.pin_node(1, z(1.0, 0.0)),
        Err(CircuitError::UnreservedCoordinate { row: 1, col: 1 })
    );
    assert_eq!(le.values(), &vec![c64::zero()]);
}

#[test]
fn empty_system_has_no_dimension() {
    let le = LinearEquations::from_coordinates(vec![]);
    assert_eq!(le.dimensions(), (0, 0));
    assert_eq!(le.row_pointers(), &vec![0]);
    assert!(le.column_indices().is_empty());
    assert!(le.values().is_empty());
    assert!(le.solution().is_empty());
    assert!(le.rhs().is_empty());
    let fresh = LinearEquations::new();
    assert_eq!(fresh.dimensions(), (0, 0));
    assert_eq!(fresh.row_pointers(), &vec![0]);
}

#[test]
fn coordinates_are_sorted_and_coalesced() {
    let coords = vec![(2, 1), (0, 3), (2, 1), (0, 0), (2, 0), (0, 3), (0, 0)];
    let le = LinearEquations::from_coordinates(coords);
    assert_eq!(le.dimensions(), (4, 4));
    assert_eq!(le.row_pointers(), &vec![0, 2, 2, 4, 4]);
    assert_eq!(le.column_indices(), &vec![0, 3, 0, 1]);
    assert_eq!(le.values().len(), 4);
    assert_eq!(le.index_of(0, 0), Some(0));
    assert_eq!(le.index_of(0, 3), Some(1));
    assert_eq!(le.index_of(2, 0), Some(2));
    assert_eq!(le.index_of(2, 1), Some(3));
    assert_eq!(le.index_of(1, 1), None);
    assert_eq!(le.index_of(3, 0), None);
}

#[test]
fn dimension_follows_the_largest_index() {
    let le = LinearEquations::from_coordinates(vec![(0, 5)]);
    assert_eq!(le.dimensions(), (6, 6));
    assert_eq!(le.row_pointers(), &vec![0, 1, 1, 1, 1, 1, 1]);
    assert_eq!(le.solution().len(), 6);
    assert_eq!(le.rhs().len(), 6);
    let le = LinearEquations::from_coordinates(vec![(7, 1)]);
    assert_eq!(le.dimensions(), (8, 8));
    assert_eq!(le.row_pointers(), &vec![0, 0, 0, 0, 0, 0, 0, 0, 1]);
}

#[test]
fn lookup_lands_in_the_row_of_the_coordinate() {
    let coords = vec![(3, 1), (1, 2), (1, 0), (3, 3), (0, 0), (1, 1), (3, 0)];
    let le = LinearEquations::from_coordinates(coords.clone());
    for (i, j) in coords {
        let k = le.index_of(i, j).unwrap();
        assert_eq!(le.column_indices()[k], j);
        assert!(le.row_pointers()[i as usize] <= k);
        assert!(k < le.row_pointers()[i as usize + 1]);
    }
}

#[test]
fn columns_ascend_within_each_row() {
    let coords = vec![(1, 4), (1, 0), (0, 2), (1, 2), (4, 4), (0, 1), (1, 3)];
    let le = LinearEquations::from_coordinates(coords);
    let (rows, _) = le.dimensions();
    for i in 0..rows {
        let start = le.row_pointers()[i];
        let end = le.row_pointers()[i + 1];
        for k in start + 1..end {
            assert!(le.column_indices()[k - 1] < le.column_indices()[k]);
        }
    }
}

#[test]
fn last_row_pointer_is_the_storage_length() {
    let coords = vec![(1, 4), (1, 0), (0, 2), (1, 2), (4, 4)];
    let le = LinearEquations::from_coordinates(coords);
    let (rows, _) = le.dimensions();
    assert_eq!(le.row_pointers()[0], 0);
    assert_eq!(le.row_pointers()[rows], le.column_indices().len());
    assert_eq!(le.row_pointers()[rows], le.values().len());
    assert_eq!(le.column_indices().len(), 5);
}

#[test]
fn add_coordinates_keeps_old_ones_and_zeroes_storage() {
    let mut le = LinearEquations::from_coordinates(vec![(0, 0), (1, 1)]);
    le.set_a(0, 0, z(2.0, 0.0)).unwrap();
    le.set_b(1, z(9.0, 0.0));
    le.set_solution(vec![z(1.0, 0.0), z(1.0, 0.0)]);
    le.add_coordinates(vec![(2, 0), (0, 0), (0, 1)]);
    assert_eq!(le.dimensions(), (3, 3));
    assert_eq!(le.row_pointers(), &vec![0, 2, 3, 4]);
    assert_eq!(le.column_indices(), &vec![0, 1, 1, 0]);
    assert_eq!(le.values(), &vec![c64::zero(); 4]);
    assert_eq!(le.rhs(), &vec![c64::zero(); 3]);
    assert_eq!(le.solution(), &vec![c64::zero(); 3]);
    assert_eq!(le.index_of(1, 1), Some(2));
    le.add_coordinates(vec![]);
    assert_eq!(le.dimensions(), (3, 3));
    assert_eq!(le.column_indices(), &vec![0, 1, 1, 0]);
}

#[test]
fn reset_zeroes_a_and_b_and_keeps_x() {
    let mut le = LinearEquations::from_coordinates(vec![(0, 0), (0, 1), (1, 1)]);
    le.set_a(0, 1, z(2.0, 1.0)).unwrap();
    le.set_a(1, 1, z(3.0, 0.0)).unwrap();
    le.set_b(0, z(4.0, 0.0));
    le.set_solution(vec![z(7.0, 0.0), z(8.0, -1.0)]);
    le.reset();
    assert_eq!(le.values(), &vec![c64::zero(); 3]);
    assert_eq!(le.rhs(), &vec![c64::zero(); 2]);
    assert_eq!(le.solution(), &vec![z(7.0, 0.0), z(8.0, -1.0)]);
    assert_eq!(le.column_indices(), &vec![0, 1, 1]);
    assert_eq!(le.row_pointers(), &vec![0, 2, 3]);
}

#[test]
fn clear_row_leaves_b_and_other_rows() {
    let mut le = LinearEquations::from_coordinates(vec![(0, 0), (0, 1), (1, 0), (1, 1)]);
    le.set_a(0, 0, z(1.0, 0.0)).unwrap();
    le.set_a(0, 1, z(2.0, 0.0)).unwrap();
    le.set_a(1, 0, z(3.0, 0.0)).unwrap();
    le.set_a(1, 1, z(4.0, 0.0)).unwrap();
    le.set_b(1, z(5.0, 0.0));
    le.clear_row(1);
    assert_eq!(
        le.values(),
        &vec![z(1.0, 0.0), z(2.0, 0.0), c64::zero(), c64::zero()]
    );
    assert_eq!(le.get_current(1), z(5.0, 0.0));
}

#[test]
fn pin_node_writes_the_identity_row() {
    let mut le = LinearEquations::from_coordinates(vec![(0, 0), (0, 1), (1, 0), (1, 1)]);
    le.set_a(0, 0, z(0.5, 0.0)).unwrap();
    le.set_a(0, 1, z(-0.5, 0.0)).unwrap();
    le.set_a(1, 0, z(-0.5, 0.0)).unwrap();
    le.set_a(1, 1, z(0.5, 0.0)).unwrap();
    le.set_b(0, z(9.0, 0.0));
    assert_eq!(le.pin_node(1, z(5.0, 0.0)), Ok(()));
    assert_eq!(
        le.values(),
        &vec![z(0.5, 0.0), z(-0.5, 0.0), z(0.0, 0.0), z(1.0, 0.0)]
    );
    assert_eq!(le.rhs(), &vec![z(9.0, 0.0), z(5.0, 0.0)]);
    let once = le.values().clone();
    assert_eq!(le.pin_node(1, z(5.0, 0.0)), Ok(()));
    assert_eq!(le.values(), &once);
    assert_eq!(le.rhs(), &vec![z(9.0, 0.0), z(5.0, 0.0)]);
}

#[test]
fn complex_words() {
    assert_eq!(c64::one(), z(1.0, 0.0));
    assert_eq!(c64::zero(), z(0.0, 0.0));
    assert_eq!(c64::from_real(2.5f64.to_bits()), z(2.5, 0.0));
    assert_eq!(c64::imag(2.5f64.to_bits()), z(0.0, 2.5));
    assert_eq!(z(1.0, 2.0).conj(), z(1.0, -2.0));
    assert_eq!(z(1.0, -2.0).conj().conj(), z(1.0, -2.0));
    assert_eq!(z(1.0, -2.0).neg(), z(-1.0, 2.0));
    assert_eq!(z(0.0, 0.0).neg(), z(-0.0, -0.0));
    assert!(c64::zero().is_zero());
    assert!(!z(-0.0, 0.0).is_zero());
    assert!(!z(0.0, 1.0).is_zero());
}

#[test]
fn diagonal_of_the_rows_that_store_one() {
    let mut le = LinearEquations::from_coordinates(vec![(0, 0), (0, 2), (1, 0), (2, 2), (3, 1)]);
    le.set_a(0, 0, z(1.0, 0.0)).unwrap();
    le.set_a(0, 2, z(2.0, 0.0)).unwrap();
    le.set_a(1, 0, z(3.0, 0.0)).unwrap();
    le.set_a(2, 2, z(4.0, 1.0)).unwrap();
    le.set_a(3, 1, z(5.0, 0.0)).unwrap();
    assert_eq!(le.diag(), vec![z(1.0, 0.0), z(4.0, 1.0)]);
    assert_eq!(LinearEquations::new().diag(), vec![]);
    assert_eq!(LinearEquations::from_coordinates(vec![(0, 1)]).diag(), vec![]);
}

#[test]
#[should_panic]
fn test_add_a_invalid_index() {
    let coords = vec![(0, 0)];
    let mut le = LinearEquations::from_coordinates(coords);
    add_a(&mut le, 0, 1, z(1.0, 0.0));
}
