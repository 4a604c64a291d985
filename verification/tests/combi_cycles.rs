use transducers::combi::factorial;
use transducers::combi::Cycle;
use transducers::combi::Permutation;
use transducers::combi::TCycle;
use transducers::combi::UCycle;
use transducers::combi::VCycle;

fn drain<C: Cycle>(c: &mut C, at_most: usize) -> Vec<C::Item> {
    let mut out = Vec::new();
    for _ in 0..at_most {
        match c.next() {
            Some(x) => out.push(x),
            None => break,
        }
    }
    out
}

#[test]
fn ucycle_with_limit_stops_after_one_traversal() {
    let mut c = UCycle::<u8>::new(3, true);
    assert_eq!(drain(&mut c, 10), vec![0, 1, 2]);
    assert_eq!(c.next(), None);
    assert_eq!(c.next(), None);
}

#[test]
fn ucycle_without_limit_wraps_forever() {
    let mut c = UCycle::<usize>::new(3, false);
    assert_eq!(drain(&mut c, 7), vec![0, 1, 2, 0, 1, 2, 0]);
}

#[test]
fn ucycle_of_one_item() {
    let mut c = UCycle::<u8>::new(1, true);
    assert_eq!(c.next(), Some(0));
    assert_eq!(c.next(), None);
}

#[test]
fn vcycle_runs_in_odometer_order() {
    let mut c = VCycle::<UCycle<u8>>::new(vec![2, 3], true);
    let all = drain(&mut c, 100);
    assert_eq!(
        all,
        vec![vec![0, 0], vec![0, 1], vec![0, 2], vec![1, 0], vec![1, 1], vec![1, 2]]
    );
    assert_eq!(c.next(), None);
}

#[test]
fn vcycle_of_width_zero_yields_one_empty_vector() {
    let mut c = VCycle::<UCycle<u8>>::new(vec![], true);
    assert_eq!(c.next(), Some(vec![]));
    assert_eq!(c.next(), None);
    assert_eq!(c.next(), None);
}

#[test]
fn vcycle_without_limit_starts_over() {
    let mut c = VCycle::<UCycle<u8>>::new(vec![2, 2], false);
    let all = drain(&mut c, 6);
    assert_eq!(
        all,
        vec![vec![0, 0], vec![0, 1], vec![1, 0], vec![1, 1], vec![0, 0], vec![0, 1]]
    );
}

#[test]
fn nested_vcycle_moves_last_row_fastest() {
    let mut c = VCycle::<VCycle<UCycle<usize>>>::new(vec![vec![2], vec![2, 2]], true);
    let all = drain(&mut c, 100);
    assert_eq!(all.len(), 8);
    assert_eq!(all[0], vec![vec![0], vec![0, 0]]);
    assert_eq!(all[1], vec![vec![0], vec![0, 1]]);
    assert_eq!(all[3], vec![vec![0], vec![1, 1]]);
    assert_eq!(all[4], vec![vec![1], vec![0, 0]]);
    assert_eq!(all[7], vec![vec![1], vec![1, 1]]);
}

#[test]
fn tcycle_moves_second_component_fastest() {
    let mut c = TCycle::<UCycle<u8>, UCycle<u8>>::new((2, 2), true);
    assert_eq!(drain(&mut c, 100), vec![(0, 0), (0, 1), (1, 0), (1, 1)]);
    assert_eq!(c.next(), None);
}

#[test]
fn tcycle_of_vectors_is_the_cartesian_product() {
    let mut c = TCycle::<VCycle<UCycle<u8>>, UCycle<usize>>::new((vec![2, 2], 3), true);
    let all = drain(&mut c, 100);
    assert_eq!(all.len(), 12);
    assert_eq!(all[0], (vec![0, 0], 0));
    assert_eq!(all[2], (vec![0, 0], 2));
    assert_eq!(all[3], (vec![0, 1], 0));
    assert_eq!(all[11], (vec![1, 1], 2));
    for i in 0..all.len() {
        for j in i + 1..all.len() {
            assert_ne!(all[i], all[j]);
        }
    }
}

#[test]
fn factorial_is_the_product_below_its_argument() {
    assert_eq!(factorial(0), 1);
    assert_eq!(factorial(1), 1);
    assert_eq!(factorial(2), 1);
    assert_eq!(factorial(3), 2);
    assert_eq!(factorial(4), 6);
    assert_eq!(factorial(5), 24);
    assert_eq!(factorial(6), 120);
}

fn permutations(width: usize) -> Vec<Vec<usize>> {
    let mut p = Permutation::new(width);
    let mut out = Vec::new();
    for _ in 0..1000 {
        match p.next() {
            Some(x) => out.push(x),
            None => break,
        }
    }
    out
}

#[test]
fn permutations_of_three_in_factorial_order() {
    assert_eq!(
        permutations(3),
        vec![
            vec![0, 1, 2],
            vec![0, 2, 1],
            vec![1, 0, 2],
            vec![1, 2, 0],
            vec![2, 0, 1],
            vec![2, 1, 0]
        ]
    );
}

#[test]
fn permutations_of_width_zero_and_one_are_trivial() {
    assert_eq!(permutations(0), vec![Vec::<usize>::new()]);
    assert_eq!(permutations(1), vec![vec![0]]);
}

#[test]
fn permutations_are_distinct_bijections() {
    for width in 0..6usize {
        let all = permutations(width);
        let mut expected = 1;
        for i in 1..=width {
            expected *= i;
        }
        assert_eq!(all.len(), expected);
        for p in &all {
            assert_eq!(p.len(), width);
            let mut seen = vec![false; width];
            for &x in p {
                assert!(x < width);
                assert!(!seen[x]);
                seen[x] = true;
            }
        }
        for i in 0..all.len() {
            for j in i + 1..all.len() {
                assert_ne!(all[i], all[j]);
            }
        }
    }
}

#[test]
fn permutation_stays_exhausted() {
    let mut p = Permutation::new(2);
    assert_eq!(p.next(), Some(vec![0, 1]));
    assert_eq!(p.next(), Some(vec![1, 0]));
    assert_eq!(p.next(), None);
    assert_eq!(p.next(), None);
}
