use dbf_beam_simulator::trim::{
    get_ants, get_baseline, regulate_baseline, sort_ants_by_grade, trim_ants,
};

#[test]
fn regulate_baseline_is_identity() {
    assert_eq!(regulate_baseline((3, -4)), (3, -4));
    assert_eq!(regulate_baseline((-1, 0)), (-1, 0));
}

#[test]
fn square_grid_of_side_two() {
    let ants = get_ants(2);
    assert_eq!(ants, vec![(-1, -1), (-1, 0), (0, -1), (0, 0)]);
}

#[test]
fn square_grid_of_side_three() {
    let ants = get_ants(3);
    assert_eq!(ants.len(), 9);
    assert_eq!(ants[0], (-1, -1));
    assert_eq!(ants[4], (0, 0));
    assert_eq!(ants[8], (1, 1));
}

#[test]
fn square_grid_of_side_zero_is_empty() {
    assert!(get_ants(0).is_empty());
}

#[test]
fn baseline_tally_of_a_pair() {
    let ants = vec![(0, 0), (1, 0)];
    let bl = get_baseline(&ants);
    assert_eq!(bl.len(), 3);
    assert_eq!(bl.get((0, 0)), 2);
    assert_eq!(bl.get((1, 0)), 1);
    assert_eq!(bl.get((-1, 0)), 1);
}

#[test]
fn baseline_tally_of_a_line() {
    let ants = vec![(0, 0), (1, 0), (2, 0)];
    let bl = get_baseline(&ants);
    assert_eq!(bl.len(), 5);
    assert_eq!(bl.get((0, 0)), 3);
    assert_eq!(bl.get((1, 0)), 2);
    assert_eq!(bl.get((-1, 0)), 2);
    assert_eq!(bl.get((2, 0)), 1);
    assert_eq!(bl.get((-2, 0)), 1);
}

#[test]
fn baseline_tallies_cover_every_ordered_pair() {
    let ants = get_ants(3);
    let bl = get_baseline(&ants);
    let total: usize = bl.keys().iter().map(|&k| bl.get(k)).sum();
    assert_eq!(total, ants.len() * ants.len());
}

#[test]
fn grading_puts_redundant_antenna_last() {
    // on a 3-element line the middle antenna shares the most-covered
    // baselines and must sort last; the ends tie and keep their order
    let ants = vec![(0, 0), (1, 0), (2, 0)];
    let sorted = sort_ants_by_grade(&ants);
    assert_eq!(sorted, vec![(0, 0), (2, 0), (1, 0)]);
}

#[test]
fn grading_is_stable_on_equal_grades() {
    // all four antennas of a 2x2 grid are equivalent by symmetry, so the
    // stable sort keeps the original order
    let ants = get_ants(2);
    let sorted = sort_ants_by_grade(&ants);
    assert_eq!(sorted, ants);
}

#[test]
fn grading_permutes_the_antennas() {
    let ants = vec![(5, 0), (0, 0), (1, 1), (1, 0)];
    let mut sorted = sort_ants_by_grade(&ants);
    let mut orig = ants.clone();
    sorted.sort();
    orig.sort();
    assert_eq!(sorted, orig);
}

#[test]
fn trimming_keeps_every_baseline() {
    // removing any antenna of the line would lose the longest baseline
    let ants = vec![(0, 0), (1, 0), (2, 0)];
    let trimmed = trim_ants(&ants);
    assert_eq!(trimmed, vec![(0, 0), (2, 0), (1, 0)]);
}

#[test]
fn trimming_removes_a_duplicate_antenna() {
    let ants = vec![(0, 0), (0, 0)];
    let trimmed = trim_ants(&ants);
    assert_eq!(trimmed, vec![(0, 0)]);
}

#[test]
fn trimming_a_grid_against_its_baselines() {
    let ants = get_ants(2);
    let full = get_baseline(&ants);
    let trimmed = trim_ants(&ants);
    let after = get_baseline(&trimmed);
    assert_eq!(full.len(), after.len());
    assert!(trimmed.len() <= ants.len());
}
