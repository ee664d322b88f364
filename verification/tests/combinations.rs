use phase_similarity::PhaseCombinations;

fn collect_all(l1: u16, l2: u16) -> Vec<(Vec<u16>, Vec<u16>)> {
    let mut pc = PhaseCombinations::new(l1, l2);
    let mut out = Vec::new();
    while let Some(c) = pc.next() {
        out.push((c.used_idxs, c.unused_idxs));
    }
    out
}

#[test]
fn two_of_three_in_engine_order() {
    let cs = collect_all(2, 3);
    let expected: Vec<(Vec<u16>, Vec<u16>)> = vec![
        (vec![1, 2], vec![0]),
        (vec![0, 2], vec![1]),
        (vec![0, 1], vec![2]),
    ];
    assert_eq!(cs, expected);
}

#[test]
fn empty_short_side_yields_single_all_unused() {
    let cs = collect_all(0, 4);
    let expected: Vec<(Vec<u16>, Vec<u16>)> = vec![(vec![], vec![0, 1, 2, 3])];
    assert_eq!(cs, expected);
}

#[test]
fn counts_match_binomials() {
    assert_eq!(collect_all(3, 5).len(), 10);
    assert_eq!(collect_all(2, 4).len(), 6);
    assert_eq!(collect_all(1, 6).len(), 6);
    assert_eq!(collect_all(3, 3).len(), 1);
    assert_eq!(collect_all(0, 0).len(), 1);
}

#[test]
fn each_combination_partitions_the_index_range() {
    for (used, unused) in collect_all(3, 6) {
        assert_eq!(used.len(), 3);
        assert_eq!(unused.len(), 3);
        let mut all: Vec<u16> = used.clone();
        all.extend(unused.iter().copied());
        all.sort();
        assert_eq!(all, vec![0, 1, 2, 3, 4, 5]);
        assert!(used.windows(2).all(|w| w[0] < w[1]));
        assert!(unused.windows(2).all(|w| w[0] < w[1]));
    }
}

#[test]
fn equal_lengths_use_every_index() {
    let cs = collect_all(4, 4);
    let expected: Vec<(Vec<u16>, Vec<u16>)> = vec![(vec![0, 1, 2, 3], vec![])];
    assert_eq!(cs, expected);
}
