use transducers::combi::checked_factorial;
use transducers::dfa::DFA;
use transducers::necklace::is_odd;
use transducers::necklace::min_necklace;
use transducers::necklace::necklaces;
use transducers::seqs::join_all;
use transducers::seqs::reverse_vec;
use transducers::transducer::words_order;
use transducers::transducer::rows_order;
use transducers::transducer::Transducer;

#[test]
fn min_necklace_is_the_least_rotation() {
    assert_eq!(min_necklace(vec![1, 0, 1]), vec![0, 1, 1]);
    assert_eq!(min_necklace(vec![0, 0, 1]), vec![0, 0, 1]);
    assert_eq!(min_necklace(vec![2, 1, 3, 1]), vec![1, 2, 1, 3]);
    assert_eq!(min_necklace(vec![]), Vec::<usize>::new());
    assert_eq!(min_necklace(vec![5]), vec![5]);
}

#[test]
fn necklaces_are_sorted_and_distinct() {
    assert_eq!(
        necklaces(3),
        vec![vec![0, 0, 0], vec![0, 0, 1], vec![0, 1, 1], vec![1, 1, 1]]
    );
    assert_eq!(
        necklaces(4),
        vec![
            vec![0, 0, 0, 0],
            vec![0, 0, 0, 1],
            vec![0, 0, 1, 1],
            vec![0, 1, 0, 1],
            vec![0, 1, 1, 1],
            vec![1, 1, 1, 1]
        ]
    );
    assert_eq!(necklaces(0), vec![Vec::<usize>::new()]);
    assert_eq!(necklaces(1), vec![vec![0], vec![1]]);
    assert_eq!(necklaces(6).len(), 14);
}

#[test]
fn is_odd_counts_the_zeros() {
    assert!(is_odd(&vec![0, 1, 1]));
    assert!(!is_odd(&vec![0, 1, 0]));
    assert!(!is_odd(&vec![]));
    assert!(!is_odd(&vec![1, 1]));
    assert!(is_odd(&vec![0, 0, 0]));
}

#[test]
fn checked_factorial_until_it_overflows() {
    assert_eq!(checked_factorial(0), Some(1));
    assert_eq!(checked_factorial(1), Some(1));
    assert_eq!(checked_factorial(5), Some(120));
    assert_eq!(checked_factorial(10), Some(3628800));
    assert_eq!(checked_factorial(200), None);
}

#[test]
fn transducer_shape_check() {
    assert!(Transducer::new(vec![vec![0, 1], vec![1, 0]], vec![1, 0]).is_well_formed());
    assert!(Transducer::new(vec![], vec![]).is_well_formed());
    assert!(!Transducer::new(vec![vec![0, 1]], vec![]).is_well_formed());
    assert!(!Transducer::new(vec![vec![0, 1]], vec![0]).is_well_formed());
    assert!(!Transducer::new(vec![vec![0]], vec![0]).is_well_formed());
    assert!(!Transducer::new(vec![vec![0, 0, 0]], vec![0]).is_well_formed());
    assert!(!Transducer::new(vec![vec![0, 0]], vec![2]).is_well_formed());
}

#[test]
fn automaton_shape_check() {
    let good = DFA::new(vec![0u8, 1], vec![vec![(0, 1), (1, 0)], vec![(0, 1), (1, 1)]], vec![false, true]);
    assert!(good.is_well_formed());
    let out_of_range = DFA::new(vec![0u8], vec![vec![(0, 2)], vec![(0, 1)]], vec![false, true]);
    assert!(!out_of_range.is_well_formed());
    let uneven = DFA::new(vec![0u8, 1], vec![vec![(0, 1)], vec![(0, 1), (1, 1)]], vec![false, true]);
    assert!(!uneven.is_well_formed());
    let uneven_too = DFA::new(vec![0u8, 1], vec![vec![(0, 1), (1, 1)], vec![(0, 1)]], vec![false, true]);
    assert!(!uneven_too.is_well_formed());
    let no_bits = DFA::new(vec![0u8], vec![vec![(0, 0)]], vec![]);
    assert!(!no_bits.is_well_formed());
    let empty: DFA<u8> = DFA::new(vec![], vec![], vec![]);
    assert!(!empty.is_well_formed());
}

#[test]
fn orders_of_words_and_rows() {
    assert_eq!(words_order(&vec![0, 1], &vec![0, 1]), 0);
    assert_eq!(words_order(&vec![0, 1], &vec![1, 0]), -1);
    assert_eq!(words_order(&vec![1], &vec![0, 1]), 1);
    assert_eq!(words_order(&vec![0], &vec![0, 0]), -1);
    assert_eq!(words_order(&vec![], &vec![]), 0);
    assert_eq!(rows_order(&vec![3, 1], &vec![3, 2]), -1);
    assert_eq!(rows_order(&vec![3, 2, 0], &vec![3, 2]), 1);
}

#[test]
fn joining_and_turning_round() {
    assert_eq!(reverse_vec(vec![1, 2, 3]), vec![3, 2, 1]);
    assert_eq!(reverse_vec(Vec::<u8>::new()), Vec::<u8>::new());
    assert_eq!(join_all(vec![vec![1, 2], vec![], vec![3], vec![4, 5]]), vec![1, 2, 3, 4, 5]);
    assert_eq!(join_all(Vec::<Vec<u8>>::new()), Vec::<u8>::new());
}
