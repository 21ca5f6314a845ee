use dbf_beam_simulator::grid::{
    deflattern_quarter_wgt, fftshift2, flattern_quarter_wgt, full2quarter, quarter2full,
    quarter_fold_multiplicity, Grid,
};

fn grid_from(rows: usize, cols: usize, data: Vec<f64>) -> Grid<f64> {
    Grid::from_flat(data, rows, cols)
}

fn grid_cells(g: &Grid<f64>) -> Vec<Vec<f64>> {
    let mut out = Vec::new();
    for i in 0..g.num_rows() {
        let mut row = Vec::new();
        for j in 0..g.num_cols() {
            row.push(g.get(i, j));
        }
        out.push(row);
    }
    out
}

#[test]
fn grid_cells_are_set_and_read_back() {
    let mut g: Grid<f64> = Grid::new(2, 3, 0.0);
    g.set(0, 2, 5.0);
    g.set(1, 0, -1.0);
    assert_eq!(g.get(0, 2), 5.0);
    assert_eq!(g.get(1, 0), -1.0);
    assert_eq!(g.get(0, 0), 0.0);
    assert_eq!(g.num_rows(), 2);
    assert_eq!(g.num_cols(), 3);
}

#[test]
fn center_line_cells_count_once() {
    assert_eq!(quarter_fold_multiplicity(0), 1);
    assert_eq!(quarter_fold_multiplicity(1), 2);
    assert_eq!(quarter_fold_multiplicity(7), 2);
}

#[test]
fn fftshift2_swaps_quadrants_2x2() {
    let g = grid_from(2, 2, vec![1.0, 2.0, 3.0, 4.0]);
    let s = fftshift2(&g);
    assert_eq!(grid_cells(&s), vec![vec![4.0, 3.0], vec![2.0, 1.0]]);
}

#[test]
fn fftshift2_is_an_involution() {
    let data: Vec<f64> = (0..16).map(|x| x as f64).collect();
    let g = grid_from(4, 4, data.clone());
    let twice = fftshift2(&fftshift2(&g));
    assert_eq!(twice.as_flat(), &data);
}

#[test]
fn fftshift2_moves_corner_to_center() {
    let mut data = vec![0.0; 16];
    data[0] = 7.0;
    let g = grid_from(4, 4, data);
    let s = fftshift2(&g);
    assert_eq!(s.get(2, 2), 7.0);
    assert_eq!(s.get(0, 0), 0.0);
}

#[test]
fn full2quarter_takes_lower_right_block() {
    let data: Vec<f64> = (0..16).map(|x| x as f64).collect();
    let g = grid_from(4, 4, data);
    let q = full2quarter(&g);
    assert_eq!(grid_cells(&q), vec![vec![10.0, 11.0], vec![14.0, 15.0]]);
}

#[test]
fn full2quarter_on_odd_grid() {
    let data: Vec<f64> = (0..9).map(|x| x as f64).collect();
    let g = grid_from(3, 3, data);
    let q = full2quarter(&g);
    assert_eq!(grid_cells(&q), vec![vec![4.0, 5.0], vec![7.0, 8.0]]);
}

#[test]
fn quarter2full_mirrors_the_quadrant() {
    // quarter [[a, b], [c, d]] expands around center a
    let q = grid_from(2, 2, vec![1.0, 2.0, 3.0, 4.0]);
    let f = quarter2full(&q);
    assert_eq!(
        grid_cells(&f),
        vec![
            vec![4.0, 3.0, 4.0],
            vec![2.0, 1.0, 2.0],
            vec![4.0, 3.0, 4.0],
        ]
    );
}

#[test]
fn quarter_round_trip_on_symmetric_odd_grid() {
    let x = grid_from(
        3,
        3,
        vec![4.0, 3.0, 4.0, 2.0, 1.0, 2.0, 4.0, 3.0, 4.0],
    );
    let q = full2quarter(&x);
    let f = quarter2full(&q);
    assert_eq!(grid_cells(&f), grid_cells(&x));
}

#[test]
fn quarter2full_of_single_cell() {
    let q = grid_from(1, 1, vec![5.0]);
    let f = quarter2full(&q);
    assert_eq!(grid_cells(&f), vec![vec![5.0]]);
}

#[test]
fn flatten_drops_dc_coefficient() {
    let q = grid_from(2, 2, vec![1.0, 0.5, 0.25, 0.125]);
    let v = flattern_quarter_wgt(&q);
    assert_eq!(v, vec![0.5, 0.25, 0.125]);
}

#[test]
fn deflatten_reinserts_dc_coefficient() {
    // full grid 3x3 -> quarter 2x2
    let v = vec![0.5, 0.25, 0.125];
    let q = deflattern_quarter_wgt(&v, 1.0, 3, 3);
    assert_eq!(q.num_rows(), 2);
    assert_eq!(q.num_cols(), 2);
    assert_eq!(q.as_flat(), &vec![1.0, 0.5, 0.25, 0.125]);
}

#[test]
fn flatten_deflatten_round_trip() {
    let q = grid_from(2, 3, vec![1.0, 2.0, 3.0, 4.0, 5.0, 6.0]);
    let v = flattern_quarter_wgt(&q);
    // a 2x3 quarter belongs to a 3x5 full grid
    let back = deflattern_quarter_wgt(&v, q.get(0, 0), 3, 5);
    assert_eq!(back.as_flat(), q.as_flat());
    assert_eq!(back.num_rows(), 2);
    assert_eq!(back.num_cols(), 3);
}
