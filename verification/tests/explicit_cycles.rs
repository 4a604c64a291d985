use transducers::cycles::AllWords;
use transducers::cycles::Combination;
use transducers::cycles::Cycle;
use transducers::cycles::ICycle;
use transducers::cycles::VCycle;

#[test]
fn icycle_counts_like_an_odometer() {
    let mut c = ICycle::<u8>::new(2, 3);
    assert_eq!(c.peek(), vec![0, 0]);
    assert_eq!(c.next(), vec![0, 0]);
    assert_eq!(c.next(), vec![0, 1]);
    assert_eq!(c.next(), vec![0, 2]);
    assert_eq!(c.next(), vec![1, 0]);
    assert_eq!(c.peek(), vec![1, 1]);
    assert_eq!(c.root(), vec![0, 0]);
    c.reset();
    assert_eq!(c.peek(), vec![0, 0]);
}

#[test]
fn icycle_wraps_to_its_root() {
    let mut c = ICycle::<usize>::new(2, 2);
    for _ in 0..4 {
        c.next();
    }
    assert_eq!(c.peek(), c.root());
}

#[test]
fn vcycle_moves_the_last_cycle_first() {
    let mut c = VCycle::<ICycle<u8>>::new(vec![1, 1], vec![2, 2]);
    assert_eq!(c.next(), vec![vec![0], vec![0]]);
    assert_eq!(c.next(), vec![vec![0], vec![1]]);
    assert_eq!(c.next(), vec![vec![1], vec![0]]);
    assert_eq!(c.next(), vec![vec![1], vec![1]]);
    assert_eq!(c.peek(), vec![vec![0], vec![0]]);
    assert_eq!(c.root(), vec![vec![0], vec![0]]);
}

#[test]
fn all_words_yields_every_word_once() {
    let mut a = AllWords::<ICycle<u8>>::new(3, 2);
    let mut words = Vec::new();
    for _ in 0..100 {
        match a.next() {
            Some(w) => words.push(w),
            None => break,
        }
    }
    assert_eq!(words.len(), 8);
    assert_eq!(words[0], vec![0, 0, 0]);
    assert_eq!(words[1], vec![0, 0, 1]);
    assert_eq!(words[7], vec![1, 1, 1]);
    for i in 0..words.len() {
        for j in i + 1..words.len() {
            assert_ne!(words[i], words[j]);
        }
    }
    assert_eq!(a.next(), None);
    assert_eq!(a.next(), None);
}

#[test]
fn all_words_of_width_zero_yields_the_empty_word() {
    let mut a = AllWords::<ICycle<u8>>::new(0, 2);
    assert_eq!(a.next(), Some(vec![]));
    assert_eq!(a.next(), None);
}

#[test]
fn combination_is_the_product_of_its_cycles() {
    let mut c = Combination::<ICycle<u8>, ICycle<u8>>::new((1, 2), (2, 2));
    let mut all = Vec::new();
    for _ in 0..100 {
        match c.next() {
            Some(x) => all.push(x),
            None => break,
        }
    }
    assert_eq!(all.len(), 8);
    assert_eq!(all[0], (vec![0], vec![0, 0]));
    assert_eq!(all[1], (vec![0], vec![0, 1]));
    assert_eq!(all[3], (vec![0], vec![1, 1]));
    assert_eq!(all[4], (vec![1], vec![0, 0]));
    assert_eq!(all[7], (vec![1], vec![1, 1]));
    assert_eq!(c.next(), None);
}
