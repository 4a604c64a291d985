use rustc_hash::FxHashSet;
use transducers::classify::classify_transducers;
use transducers::classify::distinguish;
use transducers::diagram::EdgeLabel;
use transducers::diagram::Stmt;
use transducers::enumerate::AllTransducers;
use transducers::orbit::all_words;
use transducers::transducer::Transducer;

fn all(size: usize) -> Vec<Transducer> {
    let mut a = AllTransducers::new(size);
    let mut out = Vec::new();
    for _ in 0..100000 {
        match a.next() {
            Some(t) => out.push(t),
            None => break,
        }
    }
    out
}

#[test]
fn all_transducers_of_one_state() {
    let ts = all(1);
    assert_eq!(
        ts,
        vec![Transducer::new(vec![vec![0, 0]], vec![0]), Transducer::new(vec![vec![0, 0]], vec![1])]
    );
}

#[test]
fn all_transducers_of_no_state() {
    assert_eq!(all(0), vec![Transducer::new(vec![], vec![])]);
}

#[test]
fn all_transducers_of_two_states_are_distinct() {
    let ts = all(2);
    assert_eq!(ts.len(), 64);
    let set: FxHashSet<Transducer> = ts.iter().cloned().collect();
    assert_eq!(set.len(), 64);
    for t in &ts {
        assert_eq!(t.len(), 2);
    }
    // The table moves fastest, and in it the first row and the first entry
    // move fastest.
    assert_eq!(ts[0], Transducer::new(vec![vec![0, 0], vec![0, 0]], vec![0, 0]));
    assert_eq!(ts[1], Transducer::new(vec![vec![1, 0], vec![0, 0]], vec![0, 0]));
    assert_eq!(ts[2], Transducer::new(vec![vec![0, 1], vec![0, 0]], vec![0, 0]));
    assert_eq!(ts[4], Transducer::new(vec![vec![0, 0], vec![1, 0]], vec![0, 0]));
    assert_eq!(ts[16], Transducer::new(vec![vec![0, 0], vec![0, 0]], vec![1, 0]));
    assert_eq!(ts[63], Transducer::new(vec![vec![1, 1], vec![1, 1]], vec![1, 1]));
}

#[test]
fn all_transducers_of_three_states_count() {
    let ts = all(3);
    assert_eq!(ts.len(), 729 * 8);
    let set: FxHashSet<Transducer> = ts.iter().cloned().collect();
    assert_eq!(set.len(), 729 * 8);
}

#[test]
fn all_transducers_stay_exhausted() {
    let mut a = AllTransducers::new(1);
    assert!(a.next().is_some());
    assert!(a.next().is_some());
    assert!(a.next().is_none());
    assert!(a.next().is_none());
}

#[test]
fn all_words_are_the_binary_words_in_order() {
    assert_eq!(all_words(0), vec![Vec::<u8>::new()]);
    assert_eq!(all_words(2), vec![vec![0, 0], vec![0, 1], vec![1, 0], vec![1, 1]]);
    assert_eq!(all_words(5).len(), 32);
}

#[test]
fn min_word_is_the_least_word_of_the_orbit() {
    let id = Transducer::new(vec![vec![0, 0]], vec![0]);
    let flip = Transducer::new(vec![vec![0, 0]], vec![1]);
    assert_eq!(id.min_word(&vec![0]), vec![0]);
    assert_eq!(id.min_word(&vec![1]), vec![1]);
    assert_eq!(flip.min_word(&vec![0]), vec![0]);
    assert_eq!(flip.min_word(&vec![1]), vec![0]);
    assert_eq!(flip.min_word(&vec![1, 0, 1]), vec![0, 1, 0]);
    let adder = Transducer::new(vec![vec![0, 1], vec![1, 0]], vec![1, 0]);
    for w in all_words(2) {
        assert_eq!(adder.min_word(&w), vec![0, 0]);
    }
    assert_eq!(adder.min_word(&vec![1, 1, 1]), vec![0, 0, 0]);
    assert_eq!(adder.min_word(&vec![1, 0, 0]), vec![0, 0, 0]);
    assert_eq!(adder.min_word(&vec![1, 0, 1]), vec![0, 0, 1]);
    assert_eq!(adder.min_word(&vec![0, 1, 1]), vec![0, 0, 1]);
    assert_eq!(adder.min_word(&vec![]), Vec::<u8>::new());
}

#[test]
fn orbit_compare_tells_identity_from_flip() {
    let id = Transducer::new(vec![vec![0, 0]], vec![0]);
    let flip = Transducer::new(vec![vec![0, 0]], vec![1]);
    assert!(id.orbit_compare(&id, 3));
    assert!(flip.orbit_compare(&flip, 3));
    assert!(!id.orbit_compare(&flip, 1));
    assert!(!flip.orbit_compare(&id, 2));
    assert!(id.orbit_compare(&flip, 0));
}

#[test]
fn orbit_compare_of_a_transducer_and_its_inverse() {
    let adder = Transducer::new(vec![vec![0, 1], vec![1, 0]], vec![1, 0]);
    let inv = adder.inverse();
    for depth in 0..6 {
        assert!(adder.orbit_compare(&inv, depth));
    }
}

#[test]
fn same_min_word_compares_one_orbit() {
    let id = Transducer::new(vec![vec![0, 0]], vec![0]);
    let flip = Transducer::new(vec![vec![0, 0]], vec![1]);
    assert!(id.same_min_word(&flip, &vec![0, 0]));
    assert!(!id.same_min_word(&flip, &vec![1, 0]));
}

fn set_of(ts: &[Transducer]) -> FxHashSet<Transducer> {
    ts.iter().cloned().collect()
}

#[test]
fn distinguish_divides_by_orbit_equality() {
    let id = Transducer::new(vec![vec![0, 0]], vec![0]);
    let flip = Transducer::new(vec![vec![0, 0]], vec![1]);
    let adder = Transducer::new(vec![vec![0, 1], vec![1, 0]], vec![1, 0]);
    let inv = adder.inverse();
    let class = set_of(&[id.clone(), flip.clone(), adder.clone(), inv.clone()]);
    let parts = distinguish(&class, 2);
    assert_eq!(parts.len(), 3);
    let mut total = 0;
    for p in &parts {
        total += p.len();
        if p.contains(&adder) {
            assert!(p.contains(&inv));
            assert_eq!(p.len(), 2);
        } else {
            assert_eq!(p.len(), 1);
        }
    }
    assert_eq!(total, 4);
    let at_one = distinguish(&class, 1);
    assert_eq!(at_one.len(), 2);
    for p in &at_one {
        if p.contains(&id) {
            assert_eq!(p.len(), 1);
        } else {
            assert_eq!(p.len(), 3);
        }
    }
}

#[test]
fn distinguish_of_an_empty_class() {
    assert_eq!(distinguish(&FxHashSet::default(), 3).len(), 0);
}

#[test]
fn classify_one_state_at_depth_one() {
    let classes = classify_transducers(1, 1);
    assert_eq!(classes.len(), 2);
    let id = Transducer::new(vec![vec![0, 0]], vec![0]);
    let flip = Transducer::new(vec![vec![0, 0]], vec![1]);
    for c in &classes {
        assert_eq!(c.len(), 1);
    }
    assert!(classes.iter().any(|c| c.contains(&id)));
    assert!(classes.iter().any(|c| c.contains(&flip)));
}

#[test]
fn classify_at_depth_zero_is_one_class() {
    let classes = classify_transducers(2, 0);
    assert_eq!(classes.len(), 1);
    let mut forms = FxHashSet::default();
    for t in all(2) {
        forms.insert(t.minimize().canonicalize());
    }
    assert_eq!(classes[0], forms);
}

#[test]
fn classify_refines_with_the_depth() {
    let mut coarse = classify_transducers(2, 0);
    for depth in 1..5 {
        let fine = classify_transducers(2, depth);
        let mut total = 0;
        for f in &fine {
            assert!(f.len() > 0);
            total += f.len();
            assert_eq!(coarse.iter().filter(|c| f.is_subset(c)).count(), 1);
            for a in f {
                for b in f {
                    for d in 1..=depth {
                        assert!(a.orbit_compare(b, d));
                    }
                }
            }
        }
        assert_eq!(total, coarse.iter().map(|c| c.len()).sum::<usize>());
        for i in 0..fine.len() {
            for j in i + 1..fine.len() {
                let a = fine[i].iter().next().unwrap();
                let b = fine[j].iter().next().unwrap();
                assert!((1..=depth).any(|d| !a.orbit_compare(b, d)));
            }
        }
        coarse = fine;
    }
}

#[test]
fn graph_states_nodes_and_edges() {
    let adder = Transducer::new(vec![vec![0, 1], vec![1, 1]], vec![1, 0]);
    assert_eq!(
        adder.graph(),
        vec![
            Stmt::Node { state: 0, flipping: true },
            Stmt::Edge { from: 0, to: 0, label: EdgeLabel::Zero },
            Stmt::Edge { from: 0, to: 1, label: EdgeLabel::One },
            Stmt::Node { state: 1, flipping: false },
            Stmt::Edge { from: 1, to: 1, label: EdgeLabel::Both },
        ]
    );
}

#[test]
fn orbit_tree_leaves_out_what_the_orbit_reaches() {
    let id = Transducer::new(vec![vec![0, 0]], vec![0]);
    assert_eq!(
        id.orbit_tree(2),
        vec![vec![0], vec![1], vec![0, 0], vec![0, 1], vec![1, 0], vec![1, 1]]
    );
    let flip = Transducer::new(vec![vec![0, 0]], vec![1]);
    assert_eq!(flip.orbit_tree(2), vec![vec![0], vec![0, 0], vec![0, 1]]);
    let adder = Transducer::new(vec![vec![0, 1], vec![1, 0]], vec![1, 0]);
    assert_eq!(adder.orbit_tree(3), vec![vec![0], vec![0, 0], vec![0, 0, 0], vec![0, 0, 1]]);
    assert_eq!(adder.orbit_tree(0), Vec::<Vec<u8>>::new());
}

#[test]
fn detailed_orbit_tree_traces_each_orbit() {
    let flip = Transducer::new(vec![vec![0, 0]], vec![1]);
    assert_eq!(
        flip.detailed_orbit_tree(2),
        vec![
            (vec![0], vec![0, 0]),
            (vec![0, 0], vec![0, 0]),
            (vec![0, 1], vec![0, 0]),
        ]
    );
    let adder = Transducer::new(vec![vec![0, 1], vec![1, 0]], vec![1, 0]);
    assert_eq!(
        adder.detailed_orbit_tree(2),
        vec![(vec![0], vec![0, 1]), (vec![0, 0], vec![0, 0, 1, 1])]
    );
    let id = Transducer::new(vec![vec![0, 0]], vec![0]);
    assert_eq!(
        id.detailed_orbit_tree(1),
        vec![(vec![0], vec![0]), (vec![1], vec![0])]
    );
}

#[test]
fn orbit_trace_reports_the_probe() {
    let adder = Transducer::new(vec![vec![0, 1], vec![1, 0]], vec![1, 0]);
    assert_eq!(adder.orbit_trace(&vec![0, 0], &vec![1, 1]), (vec![0, 0, 1, 1], true));
    let id = Transducer::new(vec![vec![0, 0]], vec![0]);
    assert_eq!(id.orbit_trace(&vec![0, 0], &vec![0, 1]), (vec![0], false));
}
