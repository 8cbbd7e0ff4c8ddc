use fem_poisson_1d::fem::{
    apply_homogeneous_dirichlet, assemble_elements, scatter_interior_solution,
    ElementContribution,
};

fn element(h: f64, load: f64) -> ElementContribution<f64> {
    let inverse_h = 1.0 / h;
    ElementContribution {
        stiffness: [[inverse_h, -inverse_h], [-inverse_h, inverse_h]],
        load: [load, load],
    }
}

#[test]
fn assembled_matrix_has_the_expected_stencil() {
    // For a uniform mesh the interior rows should read [-1/h, 2/h, -1/h].
    let h = 0.25;
    let elements: Vec<ElementContribution<f64>> = (0..4).map(|_| element(h, 0.0)).collect();
    let (stiffness, _) = assemble_elements(&elements);

    assert!((stiffness.get(2, 1) + 1.0 / h).abs() < 1e-12);
    assert!((stiffness.get(2, 2) - 2.0 / h).abs() < 1e-12);
    assert!((stiffness.get(2, 3) + 1.0 / h).abs() < 1e-12);
}

#[test]
fn assembly_scatters_each_element_onto_its_two_nodes() {
    let elements = vec![
        ElementContribution { stiffness: [[1i64, 2], [3, 4]], load: [10, 20] },
        ElementContribution { stiffness: [[5, 6], [7, 8]], load: [30, 40] },
    ];
    let (stiffness, load) = assemble_elements(&elements);
    assert_eq!(stiffness.n_rows(), 3);
    assert_eq!(stiffness.get(0, 0), 1);
    assert_eq!(stiffness.get(0, 1), 2);
    assert_eq!(stiffness.get(1, 0), 3);
    assert_eq!(stiffness.get(1, 1), 4 + 5);
    assert_eq!(stiffness.get(1, 2), 6);
    assert_eq!(stiffness.get(2, 1), 7);
    assert_eq!(stiffness.get(2, 2), 8);
    assert_eq!(stiffness.get(0, 2), 0);
    assert_eq!(stiffness.get(2, 0), 0);
    assert_eq!(load, vec![10, 20 + 30, 40]);
    assert!(stiffness.is_tridiagonal());
}

#[test]
fn assembly_with_no_elements_has_one_node() {
    let elements: Vec<ElementContribution<f64>> = Vec::new();
    let (stiffness, load) = assemble_elements(&elements);
    assert_eq!(stiffness.n_rows(), 1);
    assert_eq!(stiffness.get(0, 0), 0.0);
    assert_eq!(load, vec![0.0]);
}

#[test]
fn assembled_stiffness_is_symmetric() {
    let h = 0.2;
    let elements: Vec<ElementContribution<f64>> = (0..5).map(|_| element(h, h / 2.0)).collect();
    let (stiffness, load) = assemble_elements(&elements);
    for row in 0..6 {
        for column in 0..6 {
            assert_eq!(stiffness.get(row, column), stiffness.get(column, row));
        }
    }
    assert_eq!(load.len(), 6);
    assert_eq!(load[0], h / 2.0);
    assert_eq!(load[3], h / 2.0 + h / 2.0);
}

#[test]
fn dirichlet_drops_the_boundary_rows_and_columns() {
    let elements = vec![
        ElementContribution { stiffness: [[1i64, -1], [-1, 1]], load: [1, 2] },
        ElementContribution { stiffness: [[2, -2], [-2, 2]], load: [3, 4] },
        ElementContribution { stiffness: [[3, -3], [-3, 3]], load: [5, 6] },
    ];
    let (stiffness, load) = assemble_elements(&elements);
    assert_eq!(load, vec![1, 5, 9, 6]);

    let (reduced, reduced_load, interior) = apply_homogeneous_dirichlet(&stiffness, &load);
    assert_eq!(interior, vec![1, 2]);
    assert_eq!(reduced.n_rows(), 2);
    assert_eq!(reduced.get(0, 0), 3);
    assert_eq!(reduced.get(0, 1), -2);
    assert_eq!(reduced.get(1, 0), -2);
    assert_eq!(reduced.get(1, 1), 5);
    assert_eq!(reduced_load, vec![5, 9]);
    assert!(reduced.is_tridiagonal());
}

#[test]
fn dirichlet_on_a_single_element_leaves_nothing() {
    let elements = vec![element(1.0, 0.5)];
    let (stiffness, load) = assemble_elements(&elements);
    let (reduced, reduced_load, interior) = apply_homogeneous_dirichlet(&stiffness, &load);
    assert_eq!(reduced.n_rows(), 0);
    assert!(reduced_load.is_empty());
    assert!(interior.is_empty());
}

#[test]
fn scattered_solution_is_zero_at_the_boundary() {
    let interior_values = vec![0.5, 0.75, 0.25];
    let full = scatter_interior_solution(&interior_values, 5, &[1, 2, 3]);
    assert_eq!(full, vec![0.0, 0.5, 0.75, 0.25, 0.0]);
    assert_eq!(full[0], 0.0);
    assert_eq!(*full.last().unwrap(), 0.0);
}

#[test]
fn scatter_then_restrict_gives_the_values_back() {
    let elements: Vec<ElementContribution<f64>> = (0..6).map(|_| element(1.0 / 6.0, 0.1)).collect();
    let (stiffness, _) = assemble_elements(&elements);
    let values = vec![1.0, 2.0, 3.0, 4.0, 5.0];
    let full = scatter_interior_solution(&values, 7, &[1, 2, 3, 4, 5]);
    let (_, restricted, interior) = apply_homogeneous_dirichlet(&stiffness, &full);
    assert_eq!(interior, vec![1, 2, 3, 4, 5]);
    assert_eq!(restricted, values);
}

#[test]
fn scatter_with_a_repeated_node_keeps_the_last_value() {
    let full = scatter_interior_solution(&[7u32, 8, 9], 3, &[1, 1, 2]);
    assert_eq!(full, vec![0, 8, 9]);
}
