use rustc_hash::FxHashMap;
use transducers::transducer::Transducer;

fn words(len: usize) -> Vec<Vec<u8>> {
    let mut out = vec![vec![]];
    for _ in 0..len {
        let mut next = Vec::new();
        for w in &out {
            for a in 0..2u8 {
                let mut x = w.clone();
                x.push(a);
                next.push(x);
            }
        }
        out = next;
    }
    out
}

fn apply(t: &Transducer, w: &[u8]) -> Vec<u8> {
    let mut x = w.to_vec();
    t.step(&mut x);
    x
}

fn same_behavior(a: &Transducer, b: &Transducer, upto: usize) {
    for len in 0..=upto {
        for w in words(len) {
            assert_eq!(apply(a, &w), apply(b, &w));
        }
    }
}

fn map_of(pairs: &[(usize, usize)]) -> FxHashMap<usize, usize> {
    let mut m = FxHashMap::default();
    for &(k, v) in pairs {
        m.insert(k, v);
    }
    m
}

fn adder() -> Transducer {
    Transducer::new(vec![vec![0, 1], vec![1, 0]], vec![1, 0])
}

#[test]
fn step_flips_with_the_active_state() {
    let m = adder();
    let mut x: Vec<u8> = vec![0, 0, 1, 1];
    let end = m.step(&mut x);
    assert_eq!(x, vec![1, 1, 0, 1]);
    assert_eq!(end, 0);
}

#[test]
fn step_on_the_empty_word() {
    let m = adder();
    let mut x: Vec<u8> = vec![];
    assert_eq!(m.step(&mut x), 0);
    assert_eq!(x, Vec::<u8>::new());
}

#[test]
fn step_returns_the_state_to_resume_from() {
    let m = Transducer::new(vec![vec![1, 2], vec![2, 0], vec![0, 1]], vec![0, 1, 0]);
    let mut x: Vec<u8> = vec![0, 1];
    assert_eq!(m.step(&mut x), 0);
    assert_eq!(x, vec![0, 0]);
    let mut y: Vec<u8> = vec![1, 1, 0];
    assert_eq!(m.step(&mut y), 2);
    assert_eq!(y, vec![1, 1, 1]);
}

#[test]
fn len_is_the_number_of_states() {
    assert_eq!(adder().len(), 2);
    assert_eq!(Transducer::new(vec![], vec![]).len(), 0);
}

#[test]
fn minimize_keeps_a_minimal_transducer() {
    let m = adder();
    assert_eq!(m.minimize(), m);
    let id = Transducer::new(vec![vec![0, 0]], vec![0]);
    assert_eq!(id.minimize(), id);
    let flip = Transducer::new(vec![vec![0, 0]], vec![1]);
    assert_eq!(flip.minimize(), flip);
}

#[test]
fn minimize_merges_states_that_behave_alike() {
    let m = Transducer::new(vec![vec![1, 1], vec![0, 0]], vec![0, 0]);
    assert_eq!(m.minimize(), Transducer::new(vec![vec![0, 0]], vec![0]));
}

#[test]
fn minimize_drops_states_that_are_not_reached() {
    let m = Transducer::new(vec![vec![0, 0], vec![1, 1]], vec![1, 0]);
    assert_eq!(m.minimize(), Transducer::new(vec![vec![0, 0]], vec![1]));
}

#[test]
fn minimize_of_the_empty_transducer() {
    let m = Transducer::new(vec![], vec![]);
    assert_eq!(m.minimize(), Transducer::new(vec![], vec![]));
}

fn samples() -> Vec<Transducer> {
    vec![
        adder(),
        Transducer::new(vec![vec![1, 2], vec![2, 0], vec![0, 1]], vec![0, 1, 0]),
        Transducer::new(vec![vec![1, 1], vec![2, 2], vec![0, 0]], vec![1, 1, 1]),
        Transducer::new(vec![vec![1, 2], vec![3, 3], vec![3, 3], vec![0, 0]], vec![0, 1, 1, 0]),
        Transducer::new(vec![vec![1, 0], vec![1, 0]], vec![1, 1]),
        Transducer::new(vec![vec![2, 1], vec![0, 0], vec![2, 0], vec![3, 3]], vec![1, 0, 0, 1]),
    ]
}

#[test]
fn minimize_keeps_the_behavior_and_never_adds_states() {
    for t in samples() {
        let m = t.minimize();
        assert!(m.len() <= t.len());
        assert!(m.len() > 0);
        same_behavior(&t, &m, 7);
    }
}

#[test]
fn minimize_twice_is_minimize_once() {
    for t in samples() {
        let m = t.minimize();
        assert_eq!(m.minimize(), m);
    }
}

#[test]
fn inverse_swaps_the_successors_of_flipping_states() {
    let m = adder();
    assert_eq!(m.inverse(), Transducer::new(vec![vec![1, 0], vec![1, 0]], vec![1, 0]));
    assert_eq!(m.reverse(), m.inverse());
}

#[test]
fn inverse_twice_is_the_transducer() {
    for t in samples() {
        assert_eq!(t.inverse().inverse(), t);
        same_behavior(&t.inverse().inverse(), &t, 6);
    }
}

#[test]
fn inverse_undoes_the_transducer() {
    for t in samples() {
        let inv = t.inverse();
        for len in 0..=6 {
            for w in words(len) {
                assert_eq!(apply(&inv, &apply(&t, &w)), w);
                assert_eq!(apply(&t, &apply(&inv, &w)), w);
            }
        }
    }
}

#[test]
fn relabel_by_a_permutation() {
    let t = Transducer::new(vec![vec![1, 2], vec![0, 2], vec![2, 2]], vec![0, 1, 0]);
    let r = t.relabel(map_of(&[(0, 0), (1, 2), (2, 1)]));
    assert_eq!(r, Transducer::new(vec![vec![2, 1], vec![1, 1], vec![0, 1]], vec![0, 0, 1]));
    same_behavior(&t, &r, 6);
}

#[test]
fn relabel_by_the_identity() {
    for t in samples() {
        let n = t.len();
        let id: Vec<(usize, usize)> = (0..n).map(|i| (i, i)).collect();
        assert_eq!(t.relabel(map_of(&id)), t);
    }
}

#[test]
fn is_relabeling_accepts_permutations() {
    let t = Transducer::new(vec![vec![1, 2], vec![0, 2], vec![2, 2]], vec![0, 1, 0]);
    assert!(t.is_relabeling(&map_of(&[(0, 0), (1, 2), (2, 1)])));
    assert!(t.is_relabeling(&map_of(&[(0, 1), (1, 2), (2, 0)])));
}

#[test]
fn is_relabeling_rejects_a_map_that_is_no_function_on_the_states() {
    let t = Transducer::new(vec![vec![1, 2], vec![0, 2], vec![2, 2]], vec![0, 1, 0]);
    assert!(!t.is_relabeling(&map_of(&[(0, 0), (1, 2)])));
    assert!(!t.is_relabeling(&map_of(&[(0, 0), (1, 2), (2, 1), (3, 0)])));
    assert!(!t.is_relabeling(&map_of(&[(0, 0), (1, 2), (2, 3)])));
    assert!(!t.is_relabeling(&map_of(&[(0, 0), (1, 2), (5, 1)])));
}

#[test]
fn is_relabeling_rejects_a_merge_of_states_with_different_successors() {
    let t = Transducer::new(vec![vec![1, 2], vec![0, 2], vec![2, 2]], vec![0, 1, 0]);
    // States 1 and 2 go to one state, but their successors on 0 do not.
    assert!(!t.is_relabeling(&map_of(&[(0, 0), (1, 1), (2, 1)])));
    // States 0 and 1 go to one state, and so do all their successors.
    assert!(t.is_relabeling(&map_of(&[(0, 0), (1, 0), (2, 1)])));
    // States 1 and 2 go to one state, and so do all their successors.
    let u = Transducer::new(vec![vec![1, 2], vec![1, 2], vec![2, 1]], vec![0, 1, 1]);
    assert!(u.is_relabeling(&map_of(&[(0, 0), (1, 1), (2, 1)])));
}

#[test]
fn canonicalize_picks_the_least_variant() {
    let t = Transducer::new(vec![vec![1, 2], vec![0, 2], vec![2, 2]], vec![0, 1, 0]);
    assert_eq!(t.canonicalize(), t);
    let r = Transducer::new(vec![vec![2, 1], vec![1, 1], vec![0, 1]], vec![0, 0, 1]);
    assert_eq!(r.canonicalize(), t);
}

#[test]
fn canonicalize_considers_the_inverse() {
    let t = Transducer::new(vec![vec![1, 0], vec![1, 0]], vec![1, 0]);
    assert_eq!(t.canonicalize(), Transducer::new(vec![vec![0, 1], vec![1, 0]], vec![1, 0]));
}

#[test]
fn canonicalize_of_one_state() {
    let t = Transducer::new(vec![vec![0, 0]], vec![1]);
    assert_eq!(t.canonicalize(), t);
}

fn permutations_fixing_zero(n: usize) -> Vec<Vec<(usize, usize)>> {
    let mut out = Vec::new();
    let mut p = transducers::combi::Permutation::new(n - 1);
    for _ in 0..1000 {
        match p.next() {
            Some(pm) => {
                let mut pairs = vec![(0, 0)];
                for (i, j) in pm.iter().enumerate() {
                    pairs.push((i + 1, j + 1));
                }
                out.push(pairs);
            }
            None => break,
        }
    }
    out
}

#[test]
fn canonicalize_is_invariant_under_relabeling() {
    for t in samples() {
        let c = t.canonicalize();
        for pairs in permutations_fixing_zero(t.len()) {
            let r = t.relabel(map_of(&pairs));
            assert_eq!(r.canonicalize(), c);
            same_behavior(&r, &t, 5);
        }
    }
}

#[test]
fn order_agrees_with_the_derived_order() {
    let all = samples();
    for a in &all {
        for b in &all {
            let expected = match a.cmp(b) {
                std::cmp::Ordering::Less => -1,
                std::cmp::Ordering::Equal => 0,
                std::cmp::Ordering::Greater => 1,
            };
            assert_eq!(a.order(b), expected);
        }
    }
    let short = Transducer::new(vec![vec![0, 1]], vec![0]);
    let long = Transducer::new(vec![vec![0, 1], vec![0, 0]], vec![0, 0]);
    assert_eq!(short.order(&long), -1);
    assert_eq!(long.order(&short), 1);
    assert!(short < long);
    let f0 = Transducer::new(vec![vec![0, 0]], vec![0]);
    let f1 = Transducer::new(vec![vec![0, 0]], vec![1]);
    assert_eq!(f0.order(&f1), -1);
    assert_eq!(f0.order(&f0), 0);
}

#[test]
fn copy_is_equal() {
    for t in samples() {
        assert_eq!(t.copy(), t);
    }
}

#[test]
fn product_runs_the_second_on_what_the_first_writes() {
    let all = samples();
    for a in &all {
        for b in &all {
            let p = a.product(b);
            assert!(p.len() <= a.len() * b.len());
            for len in 0..=5 {
                for w in words(len) {
                    assert_eq!(apply(&p, &w), apply(b, &apply(a, &w)));
                }
            }
        }
    }
}

#[test]
fn product_of_adder_with_itself() {
    let m = adder();
    let p = m.product(&m);
    let mut x = vec![0u8, 0, 0];
    p.step(&mut x);
    assert_eq!(x, vec![0, 1, 0]);
    assert_eq!(p.minimize(), p);
}

#[test]
fn residues_of_a_transducer_that_does_not_flip_at_the_start() {
    let t = Transducer::new(vec![vec![1, 2], vec![2, 0], vec![0, 1]], vec![0, 1, 0]);
    let r = t.residues();
    assert_eq!(r.len(), 2);
    // After reading 0 the transducer is in state 1, after reading 1 in state 2.
    for len in 0..=5 {
        for w in words(len) {
            let mut w0 = vec![0u8];
            w0.extend(&w);
            let mut w1 = vec![1u8];
            w1.extend(&w);
            assert_eq!(apply(&r[0], &w), apply(&t, &w0)[1..].to_vec());
            assert_eq!(apply(&r[1], &w), apply(&t, &w1)[1..].to_vec());
        }
    }
}

#[test]
fn residues_of_a_transducer_that_flips_at_the_start() {
    let m = adder();
    let r = m.residues();
    assert_eq!(r.len(), 2);
    let l = m.relabel(map_of(&[(0, 0), (1, 1)]));
    let s = m.relabel(map_of(&[(0, 1), (1, 0)]));
    assert_eq!(s, Transducer::new(vec![vec![0, 1], vec![1, 0]], vec![0, 1]));
    same_behavior(&r[0], &l.product(&s), 6);
    same_behavior(&r[1], &s.product(&l), 6);
}
