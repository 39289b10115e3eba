use itertools::Itertools;

#[test]
fn getting_combos() {
    let combinations: Vec<Vec<_>> = (0..2)
        .map(|i| (i * 2)..(i * 2 + 2))
        .multi_cartesian_product()
        .collect();
    let expected = vec![vec![0, 2], vec![0, 3], vec![1, 2], vec![1, 3]];
    for c in combinations.iter() {
        println!("{:?}", c);
    }
    assert!(combinations == expected)
}

#[test]
fn getting_all_assignments() {
    let polarity = [false, true];
    let nvars = 3;
    let combinations: Vec<Vec<_>> = (0..nvars)
        .map(|_| polarity)
        .multi_cartesian_product()
        .collect();
    let expected = vec![
        vec![false, false, false],
        vec![false, false, true],
        vec![false, true, false],
        vec![false, true, true],
        vec![true, false, false],
        vec![true, false, true],
        vec![true, true, false],
        vec![true, true, true],
    ];
    for c in combinations.iter() {
        println!("{:?}", c);
    }
    assert!(combinations == expected)
}
