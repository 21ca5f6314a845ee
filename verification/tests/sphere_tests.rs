use dbf_beam_simulator::sphere::{
    averaged_beam_to_healpix, ground_cut_keeps, group_by_ring, nring2nside, nside2npix,
    nside2nring, npix2nside, pix2ring, ring_weights,
};

#[test]
fn pixel_counts_per_resolution() {
    assert_eq!(nside2npix(1), 12);
    assert_eq!(nside2npix(2), 48);
    assert_eq!(nside2npix(4), 192);
    assert_eq!(nside2npix(8), 768);
}

#[test]
fn resolution_from_pixel_count() {
    assert_eq!(npix2nside(12), 1);
    assert_eq!(npix2nside(48), 2);
    assert_eq!(npix2nside(192), 4);
    assert_eq!(npix2nside(768), 8);
}

#[test]
fn ring_counts_per_resolution() {
    assert_eq!(nside2nring(1), 3);
    assert_eq!(nside2nring(2), 7);
    assert_eq!(nring2nside(3), 1);
    assert_eq!(nring2nside(7), 2);
}

#[test]
fn ring_of_each_pixel_at_nside_1() {
    let expected = [1, 1, 1, 1, 2, 2, 2, 2, 3, 3, 3, 3];
    for p in 0..12 {
        assert_eq!(pix2ring(1, p), expected[p]);
    }
}

#[test]
fn ring_of_boundary_pixels_at_nside_2() {
    // ring sizes at nside 2: 4, 8, 8, 8, 8, 8, 4
    assert_eq!(pix2ring(2, 0), 1);
    assert_eq!(pix2ring(2, 3), 1);
    assert_eq!(pix2ring(2, 4), 2);
    assert_eq!(pix2ring(2, 11), 2);
    assert_eq!(pix2ring(2, 12), 3);
    assert_eq!(pix2ring(2, 43), 6);
    assert_eq!(pix2ring(2, 44), 7);
    assert_eq!(pix2ring(2, 47), 7);
}

#[test]
fn ring_weights_at_nside_2() {
    let w = ring_weights(2);
    assert_eq!(w, vec![4, 8, 8, 8, 8, 8, 4]);
}

#[test]
fn ring_weights_sum_to_pixel_count() {
    for nside in [1usize, 2, 4, 8] {
        let w = ring_weights(nside);
        let total: usize = w.iter().sum();
        assert_eq!(total, nside2npix(nside));
        assert_eq!(w.len(), nside2nring(nside));
    }
}

#[test]
fn ground_cut_keeps_upper_hemisphere_only() {
    assert!(ground_cut_keeps(0, 48));
    assert!(ground_cut_keeps(23, 48));
    assert!(!ground_cut_keeps(24, 48));
    assert!(!ground_cut_keeps(47, 48));
}

#[test]
fn ring_of_cap_pixels_at_nside_4() {
    // north cap rings at nside 4 hold 4, 8 and 12 pixels
    assert_eq!(pix2ring(4, 0), 1);
    assert_eq!(pix2ring(4, 4), 2);
    assert_eq!(pix2ring(4, 12), 3);
    assert_eq!(pix2ring(4, 23), 3);
    assert_eq!(pix2ring(4, 24), 4);
    // the south pole pixel sits in the last of the 15 rings
    assert_eq!(pix2ring(4, 191), 15);
}

#[test]
fn grouping_splits_pixels_by_ring() {
    let values: Vec<f64> = (0..12).map(|x| x as f64).collect();
    let rows = group_by_ring(&values, 1);
    assert_eq!(rows.len(), 3);
    assert_eq!(rows[0], vec![0.0, 1.0, 2.0, 3.0]);
    assert_eq!(rows[1], vec![4.0, 5.0, 6.0, 7.0]);
    assert_eq!(rows[2], vec![8.0, 9.0, 10.0, 11.0]);
}

#[test]
fn uniform_map_averages_to_one_in_every_ring() {
    let values: Vec<f64> = vec![1.0; 48];
    let rows = group_by_ring(&values, 2);
    let mut total = 0usize;
    for row in &rows {
        assert!(!row.is_empty());
        let mean: f64 = row.iter().sum::<f64>() / row.len() as f64;
        assert_eq!(mean, 1.0);
        total += row.len();
    }
    assert_eq!(total, 48);
}

#[test]
fn broadcast_repeats_each_ring_value() {
    let beam = vec![10.0_f64, 20.0, 30.0];
    let map = averaged_beam_to_healpix(&beam);
    assert_eq!(map.len(), 12);
    for p in 0..4 {
        assert_eq!(map[p], 10.0);
    }
    for p in 4..8 {
        assert_eq!(map[p], 20.0);
    }
    for p in 8..12 {
        assert_eq!(map[p], 30.0);
    }
}

#[test]
fn broadcast_of_grouped_means_at_nside_2() {
    let beam: Vec<f64> = (1..=7).map(|x| x as f64).collect();
    let map = averaged_beam_to_healpix(&beam);
    assert_eq!(map.len(), 48);
    for p in 0..48 {
        assert_eq!(map[p], pix2ring(2, p) as f64);
    }
}
