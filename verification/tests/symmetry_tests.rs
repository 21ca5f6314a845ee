use dbf_beam_simulator::symmetry::{sym_weight, zenith_ns_sym_array};

#[test]
fn symmetric_array_expands_half_configuration() {
    let y = vec![1.5_f64, 3.0];
    let y_mirror: Vec<f64> = y.iter().map(|v| -v).collect();
    let w = vec![0.2_f64, 0.7];
    let (ant_x, ant_y, ant_z, ant_w) = zenith_ns_sym_array(0.0, 1.0, &y, &y_mirror, &w);

    // 2k + 1 elements
    assert_eq!(ant_x.len(), 5);
    assert_eq!(ant_y.len(), 5);
    assert_eq!(ant_z.len(), 5);
    assert_eq!(ant_w.len(), 5);

    // everything on the north-south axis
    assert!(ant_x.iter().all(|&v| v == 0.0));
    assert!(ant_z.iter().all(|&v| v == 0.0));

    // central element
    assert_eq!(ant_y[0], 0.0);
    assert_eq!(ant_w[0], 1.0);

    // pairs 2i-1 / 2i: equal weight, mirrored position
    for i in 1..=2 {
        assert_eq!(ant_w[2 * i - 1], w[i - 1]);
        assert_eq!(ant_w[2 * i], w[i - 1]);
        assert_eq!(ant_y[2 * i - 1], y[i - 1]);
        assert_eq!(ant_y[2 * i], -y[i - 1]);
    }
}

#[test]
fn symmetric_array_of_empty_half_is_the_central_element() {
    let none: Vec<f64> = Vec::new();
    let (ant_x, ant_y, _ant_z, ant_w) = zenith_ns_sym_array(0.0, 1.0, &none, &none, &none);
    assert_eq!(ant_x, vec![0.0]);
    assert_eq!(ant_y, vec![0.0]);
    assert_eq!(ant_w, vec![1.0]);
}

#[test]
fn weight_expansion_doubles_each_entry() {
    let w = vec![0.5_f64, 0.25];
    let full = sym_weight(1.0, &w);
    assert_eq!(full, vec![1.0, 0.5, 0.5, 0.25, 0.25]);
}
