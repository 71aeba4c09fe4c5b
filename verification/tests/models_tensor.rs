use orion_serve::models::tensor::{
    check_gate, check_linear, check_norm, check_rope, rope_width, Matrix, RopeTable,
};

#[test]
fn matrix_construction_validates_dimensions() {
    assert!(Matrix::new(vec![1.0; 6], 2, 3).is_ok());
    assert!(Matrix::new(vec![1.0; 5], 2, 3).is_err());
    assert_eq!(
        Matrix::new(vec![1.0; 5], 2, 3).unwrap_err().message(),
        "internal invariant violated: matrix data has 5 elements, expected 2x3 = 6"
    );
}

#[test]
fn rows_are_slices_of_the_data() {
    let m = Matrix::new(vec![1, 2, 3, 4, 5, 6], 2, 3).unwrap();
    assert_eq!(m.row(0), Some(&[1, 2, 3][..]));
    assert_eq!(m.row(1), Some(&[4, 5, 6][..]));
    assert_eq!(m.row(2), None);
    assert_eq!(m.rows(), 2);
}

#[test]
fn gathering_picks_rows_in_order() {
    let m = Matrix::new(vec![1, 2, 3, 4, 5, 6], 3, 2).unwrap();
    let g = m.gather(&[2, 0, 2]).unwrap();
    assert_eq!(g.into_data(), vec![5, 6, 1, 2, 5, 6]);
    assert_eq!(m.gather(&[0, 3, 9]).unwrap_err(), 1);
}

#[test]
fn data_can_be_changed_in_place() {
    let mut m = Matrix::filled(2, 2, 0);
    m.data_mut()[3] = 7;
    assert_eq!(m.data(), &[0, 0, 0, 7]);
    assert_eq!(m.cols(), 2);
}

#[test]
fn linear_shapes_are_compared() {
    let x = Matrix::new(vec![1.0; 3], 1, 3).unwrap();
    let w = Matrix::new(vec![1.0; 4], 2, 2).unwrap();
    assert!(check_linear(&x, &w, None).is_err());

    let w2 = Matrix::new(vec![1.0; 3], 1, 3).unwrap();
    assert!(check_linear(&x, &w2, Some(2)).is_err(), "bad bias length");
    assert!(check_linear(&x, &w2, Some(1)).is_ok());
}

#[test]
fn norm_weights_are_counted() {
    let x = Matrix::new(vec![1.0; 4], 1, 4).unwrap();
    assert!(check_norm(2, x.cols()).is_err());
    assert!(check_norm(4, x.cols()).is_ok());
}

#[test]
fn gate_shapes_are_compared() {
    let gate = Matrix::filled(1, 2, 0.0);
    let up = Matrix::filled(1, 3, 0.0);
    assert_eq!(
        check_gate(&gate, &up).unwrap_err().message(),
        "internal invariant violated: swiglu shape mismatch: gate is 1x2, up is 1x3"
    );
    assert!(check_gate(&gate, &gate).is_ok());
}

#[test]
fn rotary_tables_are_cut_by_position() {
    let t = RopeTable::new(4, 8, vec![1.0; 16], vec![0.0; 16]).unwrap();
    assert_eq!(t.head_dim(), 4);
    assert_eq!(t.max_positions(), 8);
    let (cos, sin) = t.at(0).unwrap();
    assert_eq!(cos.len(), 2);
    assert_eq!(sin.len(), 2);
    assert!(t.at(8).is_none(), "out of range");
}

#[test]
fn rope_rows_are_found_by_position() {
    let cos: Vec<i32> = (0..6).collect();
    let sin: Vec<i32> = (10..16).collect();
    let t = RopeTable::new(4, 3, cos, sin).unwrap();
    assert_eq!(t.at(2), Some((&[4, 5][..], &[14, 15][..])));
}

#[test]
fn an_odd_head_has_no_pairs() {
    assert!(rope_width(3).is_err());
    assert_eq!(rope_width(4).unwrap(), 2);
    assert!(RopeTable::new(3, 8, vec![1.0; 8], vec![0.0; 8]).is_err());
}

#[test]
fn rotary_widths_are_compared() {
    assert!(check_rope(4, 1, 1).is_err());
    assert!(check_rope(4, 2, 1).is_err());
    assert_eq!(check_rope(4, 2, 2).unwrap(), 2);
}
