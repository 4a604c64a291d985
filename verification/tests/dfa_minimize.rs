use transducers::dfa::DFA;

fn accepts(d: &DFA<u8>, w: &[u8]) -> bool {
    let mut s = 0usize;
    for c in w {
        match d.transition[s].get(c) {
            Some(&t) => s = t,
            None => return false,
        }
    }
    d.accept[s]
}

fn words(alphabet: &[u8], len: usize) -> Vec<Vec<u8>> {
    let mut out = vec![vec![]];
    for _ in 0..len {
        let mut next = Vec::new();
        for w in &out {
            for &a in alphabet {
                let mut x = w.clone();
                x.push(a);
                next.push(x);
            }
        }
        out = next;
    }
    out
}

fn same_language(a: &DFA<u8>, b: &DFA<u8>, alphabet: &[u8], upto: usize) {
    for len in 0..=upto {
        for w in words(alphabet, len) {
            assert_eq!(accepts(a, &w), accepts(b, &w));
        }
    }
}

#[test]
fn new_keeps_the_tables() {
    let d = DFA::new(vec![7u8, 9], vec![vec![(7, 1), (9, 0)], vec![(7, 1), (9, 1)]], vec![false, true]);
    assert_eq!(d.alphabet, vec![7, 9]);
    assert_eq!(d.accept, vec![false, true]);
    assert_eq!(d.transition.len(), 2);
    assert_eq!(d.transition[0][&7], 1);
    assert_eq!(d.transition[0][&9], 0);
    assert_eq!(d.transition[1][&9], 1);
}

#[test]
fn new_lets_the_last_pair_of_a_symbol_count() {
    let d = DFA::new(vec![1u8], vec![vec![(1, 0), (1, 1)], vec![(1, 1)]], vec![false, true]);
    assert_eq!(d.transition[0].len(), 1);
    assert_eq!(d.transition[0][&1], 1);
}

#[test]
fn minimize_merges_equivalent_states_and_drops_unreachable_ones() {
    let d = DFA::new(
        vec![0u8, 1],
        vec![
            vec![(0, 1), (1, 2)],
            vec![(0, 1), (1, 1)],
            vec![(0, 2), (1, 2)],
            vec![(0, 3), (1, 3)],
        ],
        vec![false, true, true, false],
    );
    let m = d.minimize();
    assert_eq!(m.transition.len(), 2);
    assert_eq!(m.accept, vec![false, true]);
    assert_eq!(m.alphabet, vec![0, 1]);
    assert_eq!(m.transition[0][&0], 1);
    assert_eq!(m.transition[0][&1], 1);
    assert_eq!(m.transition[1][&0], 1);
    assert_eq!(m.transition[1][&1], 1);
    same_language(&d, &m, &[0, 1], 6);
}

#[test]
fn minimize_keeps_a_minimal_automaton() {
    let d = DFA::new(
        vec![0u8, 1],
        vec![vec![(0, 1), (1, 0)], vec![(0, 2), (1, 0)], vec![(0, 2), (1, 2)]],
        vec![false, false, true],
    );
    let m = d.minimize();
    assert_eq!(m.transition.len(), 3);
    assert_eq!(m.accept, vec![false, false, true]);
    for s in 0..3 {
        assert_eq!(m.transition[s], d.transition[s]);
    }
}

#[test]
fn minimize_renumbers_in_the_order_of_the_least_members() {
    // States 1 and 3 are alike, state 2 stands alone, state 4 is not reached.
    let d = DFA::new(
        vec![0u8, 1],
        vec![
            vec![(0, 3), (1, 1)],
            vec![(0, 2), (1, 2)],
            vec![(0, 2), (1, 2)],
            vec![(0, 2), (1, 2)],
            vec![(0, 0), (1, 0)],
        ],
        vec![false, false, true, false, false],
    );
    let m = d.minimize();
    assert_eq!(m.transition.len(), 3);
    assert_eq!(m.accept, vec![false, false, true]);
    assert_eq!(m.transition[0][&0], 1);
    assert_eq!(m.transition[0][&1], 1);
    assert_eq!(m.transition[1][&0], 2);
    assert_eq!(m.transition[1][&1], 2);
    assert_eq!(m.transition[2][&0], 2);
    same_language(&d, &m, &[0, 1], 7);
}

#[test]
fn minimize_numbers_reachable_states_densely() {
    let d = DFA::new(
        vec![0u8],
        vec![vec![(0, 3)], vec![(0, 2)], vec![(0, 2)], vec![(0, 2)], vec![(0, 0)]],
        vec![false, false, true, false, false],
    );
    let m = d.minimize();
    assert_eq!(m.transition.len(), 3);
    assert_eq!(m.accept, vec![false, true, false]);
    assert_eq!(m.transition[0][&0], 2);
    assert_eq!(m.transition[1][&0], 1);
    assert_eq!(m.transition[2][&0], 1);
    same_language(&d, &m, &[0], 8);
}

#[test]
fn minimize_never_adds_states_and_keeps_the_language() {
    let tables: Vec<(Vec<Vec<(u8, usize)>>, Vec<bool>)> = vec![
        (vec![vec![(0, 0), (1, 0)]], vec![true]),
        (vec![vec![(0, 1), (1, 1)], vec![(0, 0), (1, 0)]], vec![true, true]),
        (
            vec![
                vec![(0, 1), (1, 2)],
                vec![(0, 3), (1, 4)],
                vec![(0, 4), (1, 3)],
                vec![(0, 5), (1, 5)],
                vec![(0, 5), (1, 5)],
                vec![(0, 5), (1, 5)],
            ],
            vec![false, false, false, false, false, true],
        ),
    ];
    for (transition, accept) in tables {
        let n = transition.len();
        let d = DFA::new(vec![0u8, 1], transition, accept);
        let m = d.minimize();
        assert!(m.transition.len() <= n);
        same_language(&d, &m, &[0, 1], 6);
        let again = m.minimize();
        assert_eq!(again.transition.len(), m.transition.len());
        assert_eq!(again.accept, m.accept);
    }
}

#[test]
fn minimize_on_a_partial_table() {
    let d = DFA::new(vec![0u8, 1], vec![vec![(0, 1)], vec![(0, 2)], vec![(0, 1)]], vec![false, true, true]);
    let m = d.minimize();
    assert_eq!(m.transition.len(), 2);
    assert_eq!(m.accept, vec![false, true]);
    assert_eq!(m.transition[0].len(), 1);
    assert_eq!(m.transition[1][&0], 1);
    same_language(&d, &m, &[0, 1], 6);
}
