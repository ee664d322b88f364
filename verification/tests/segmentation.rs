use phase_similarity::detect_phases;

#[test]
fn test_detect_phases() {
    let coding: Vec<u16> = vec![2, 2, 2, 2, 8, 2, 0, 0, 0, 1, 0, 8, 1, 1, 0];
    let res_phases = detect_phases(coding);
    let expected_phases: Vec<Vec<u16>> = vec![vec![2, 2, 2, 2, 8, 2], vec![1], vec![8, 1, 1]];
    assert_eq!(res_phases, expected_phases);
}

#[test]
fn all_zero_series_has_no_phases() {
    let phases = detect_phases(vec![0, 0, 0, 0]);
    assert!(phases.is_empty());
}

#[test]
fn empty_series_has_no_phases() {
    let phases = detect_phases(Vec::new());
    assert!(phases.is_empty());
}

#[test]
fn trailing_phase_without_zero_is_kept() {
    let phases = detect_phases(vec![0, 3, 4]);
    let expected: Vec<Vec<u16>> = vec![vec![3, 4]];
    assert_eq!(phases, expected);
}

#[test]
fn series_without_zeros_is_one_phase() {
    let phases = detect_phases(vec![5, 6]);
    let expected: Vec<Vec<u16>> = vec![vec![5, 6]];
    assert_eq!(phases, expected);
}
