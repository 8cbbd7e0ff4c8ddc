use fem_poisson_1d::sparse::{CsrMatrix, Triplet};

#[test]
fn triplets_with_the_same_position_are_summed() {
    let triplets = vec![
        Triplet { row: 0, column: 0, value: 1.0 },
        Triplet { row: 0, column: 0, value: 2.0 },
        Triplet { row: 1, column: 1, value: 5.0 },
    ];
    let matrix = CsrMatrix::from_triplets(&triplets, 2, 2);

    assert_eq!(matrix.get(0, 0), 3.0);
    assert_eq!(matrix.get(1, 1), 5.0);
    assert_eq!(matrix.get(0, 1), 0.0);
}

#[test]
fn integer_triplets_are_summed_in_any_input_order() {
    let triplets = vec![
        Triplet { row: 2, column: 0, value: 7i64 },
        Triplet { row: 0, column: 2, value: 1 },
        Triplet { row: 0, column: 0, value: 4 },
        Triplet { row: 0, column: 2, value: -3 },
        Triplet { row: 2, column: 0, value: 10 },
        Triplet { row: 0, column: 2, value: 5 },
    ];
    let matrix = CsrMatrix::from_triplets(&triplets, 3, 3);

    assert_eq!(matrix.n_rows(), 3);
    assert_eq!(matrix.get(0, 0), 4);
    assert_eq!(matrix.get(0, 2), 3);
    assert_eq!(matrix.get(2, 0), 17);
    assert_eq!(matrix.get(1, 1), 0);
    assert_eq!(matrix.get(2, 2), 0);
}

#[test]
fn duplicate_values_are_added_left_to_right() {
    // 1e16 + 1 + 1 loses both ones when added left to right.
    let triplets = vec![
        Triplet { row: 0, column: 0, value: 1.0e16 },
        Triplet { row: 0, column: 0, value: 1.0 },
        Triplet { row: 0, column: 0, value: 1.0 },
    ];
    let matrix = CsrMatrix::from_triplets(&triplets, 1, 1);
    assert_eq!(matrix.get(0, 0), (1.0e16 + 1.0) + 1.0);
}

#[test]
fn triplets_on_the_row_past_the_last_are_not_visible() {
    let triplets = vec![
        Triplet { row: 2, column: 0, value: 9i32 },
        Triplet { row: 1, column: 1, value: 2 },
    ];
    let matrix = CsrMatrix::from_triplets(&triplets, 2, 2);
    assert_eq!(matrix.n_rows(), 2);
    assert_eq!(matrix.get(0, 0), 0);
    assert_eq!(matrix.get(1, 0), 0);
    assert_eq!(matrix.get(1, 1), 2);
}

#[test]
fn empty_triplet_list_gives_an_empty_matrix() {
    let triplets: Vec<Triplet<f64>> = Vec::new();
    let matrix = CsrMatrix::from_triplets(&triplets, 3, 3);
    assert_eq!(matrix.n_rows(), 3);
    for row in 0..3 {
        for column in 0..3 {
            assert_eq!(matrix.get(row, column), 0.0);
        }
    }
    assert!(matrix.is_tridiagonal());
    assert!(matrix.columns_in_range());
}

#[test]
fn columns_past_the_declared_width_are_reported() {
    let triplets = vec![Triplet { row: 0, column: 5, value: 1u8 }];
    let matrix = CsrMatrix::from_triplets(&triplets, 2, 2);
    assert!(!matrix.columns_in_range());
    assert_eq!(matrix.get(0, 5), 1);
}

fn small_system() -> CsrMatrix<f64> {
    let triplets = vec![
        Triplet { row: 0, column: 0, value: 2.0 },
        Triplet { row: 0, column: 1, value: -1.0 },
        Triplet { row: 1, column: 0, value: -1.0 },
        Triplet { row: 1, column: 1, value: 2.0 },
        Triplet { row: 1, column: 2, value: -1.0 },
        Triplet { row: 2, column: 1, value: -1.0 },
        Triplet { row: 2, column: 2, value: 2.0 },
    ];
    CsrMatrix::from_triplets(&triplets, 3, 3)
}

#[test]
fn multiply_gives_the_matrix_vector_product() {
    let matrix = small_system();
    let product = matrix.multiply(&[1.0, 1.0, 1.0]);
    assert_eq!(product, vec![1.0, 0.0, 1.0]);

    let product = matrix.multiply(&[1.0, 2.0, 3.0]);
    assert_eq!(product, vec![0.0, 0.0, 4.0]);
}

#[test]
fn multiply_with_integers() {
    let triplets = vec![
        Triplet { row: 0, column: 1, value: 3i64 },
        Triplet { row: 1, column: 0, value: -2 },
        Triplet { row: 1, column: 2, value: 5 },
    ];
    let matrix = CsrMatrix::from_triplets(&triplets, 3, 3);
    assert_eq!(matrix.multiply(&[10, 20, 30]), vec![60, 130, 0]);
}

#[test]
fn to_tridiagonal_pulls_out_the_three_diagonals() {
    let matrix = small_system();
    assert!(matrix.is_tridiagonal());
    let (sub, main, super_diagonal) = matrix.to_tridiagonal();
    assert_eq!(sub, vec![0.0, -1.0, -1.0]);
    assert_eq!(main, vec![2.0, 2.0, 2.0]);
    assert_eq!(super_diagonal, vec![-1.0, -1.0, 0.0]);
}

#[test]
fn an_entry_two_columns_away_is_not_tridiagonal() {
    let triplets = vec![
        Triplet { row: 0, column: 0, value: 1.0 },
        Triplet { row: 0, column: 2, value: 1.0 },
    ];
    let matrix = CsrMatrix::from_triplets(&triplets, 3, 3);
    assert!(!matrix.is_tridiagonal());

    let triplets = vec![Triplet { row: 2, column: 0, value: 1.0 }];
    let matrix = CsrMatrix::from_triplets(&triplets, 3, 3);
    assert!(!matrix.is_tridiagonal());
}

#[test]
fn submatrix_keeps_and_renumbers_rows_and_columns() {
    let matrix = small_system();
    let sub = matrix.submatrix(&[0, 2]);
    assert_eq!(sub.n_rows(), 2);
    assert_eq!(sub.get(0, 0), 2.0);
    assert_eq!(sub.get(0, 1), 0.0);
    assert_eq!(sub.get(1, 0), 0.0);
    assert_eq!(sub.get(1, 1), 2.0);

    let sub = matrix.submatrix(&[2, 1]);
    assert_eq!(sub.get(0, 0), 2.0);
    assert_eq!(sub.get(0, 1), -1.0);
    assert_eq!(sub.get(1, 0), -1.0);
    assert_eq!(sub.get(1, 1), 2.0);
}

#[test]
fn submatrix_with_a_repeated_index_uses_its_last_position_for_columns() {
    let matrix = small_system();
    let sub = matrix.submatrix(&[1, 1]);
    assert_eq!(sub.n_rows(), 2);
    // Column 1 of the full matrix lands on position 1 only.
    assert_eq!(sub.get(0, 0), 0.0);
    assert_eq!(sub.get(0, 1), 2.0);
    assert_eq!(sub.get(1, 0), 0.0);
    assert_eq!(sub.get(1, 1), 2.0);
}

#[test]
fn empty_submatrix() {
    let matrix = small_system();
    let sub = matrix.submatrix(&[]);
    assert_eq!(sub.n_rows(), 0);
    assert_eq!(sub.multiply(&[]), Vec::<f64>::new());
}

#[test]
fn reordered_triplets_with_distinct_positions_give_the_same_matrix() {
    let triplets = vec![
        Triplet { row: 0, column: 1, value: 1.5 },
        Triplet { row: 2, column: 2, value: -4.0 },
        Triplet { row: 1, column: 0, value: 3.0 },
    ];
    let reordered = vec![triplets[2], triplets[0], triplets[1]];
    let first = CsrMatrix::from_triplets(&triplets, 3, 3);
    let second = CsrMatrix::from_triplets(&reordered, 3, 3);
    for row in 0..3 {
        for column in 0..3 {
            assert_eq!(first.get(row, column), second.get(row, column));
        }
    }
}

#[test]
fn selecting_twice_is_selecting_by_the_composed_list() {
    let matrix = small_system();
    let k1 = [2usize, 0, 1];
    let k2 = [2usize, 0];
    let composed: Vec<usize> = k2.iter().map(|&i| k1[i]).collect();
    let twice = matrix.submatrix(&k1).submatrix(&k2);
    let once = matrix.submatrix(&composed);
    for a in 0..2 {
        for b in 0..2 {
            assert_eq!(twice.get(a, b), once.get(a, b));
        }
    }
    assert_eq!(once.get(0, 1), -1.0);
}

#[test]
fn first_sub_diagonal_entry_is_zero() {
    let matrix = small_system();
    let (sub, _, _) = matrix.to_tridiagonal();
    assert_eq!(sub[0], 0.0);
}

#[test]
fn row_column_check_looks_at_one_row() {
    let triplets = vec![
        Triplet { row: 0, column: 7, value: 1i32 },
        Triplet { row: 1, column: 1, value: 2 },
    ];
    let matrix = CsrMatrix::from_triplets(&triplets, 2, 2);
    assert!(!matrix.row_columns_in_range(0));
    assert!(matrix.row_columns_in_range(1));
    assert!(!matrix.columns_in_range());
}
