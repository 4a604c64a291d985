//! Deterministic finite automata and their minimization.

use crate::fx::map_entries;
use crate::fx::map_get;
use crate::fx::map_insert;
use crate::fx::map_new;
use crate::seqs::contains_state;
use crate::seqs::copy_vec;
use crate::seqs::lemma_bounded_distinct;
use crate::seqs::lemma_push_contains;
use rustc_hash::FxHashMap;
use std::hash::Hash;
use vstd::prelude::*;
use vstd::std_specs::hash::obeys_key_model;

verus! {

/// A DFA, or deterministic finite automaton. State `0` is the start state.
pub struct DFA<T: Copy + Eq + Hash> {
    /// The alphabet of the DFA.
    pub alphabet: Vec<T>,
    /// The transition function of the DFA.
    /// Because states are consecutive integers beginning with 0,
    /// each partial function is an element of a vector.
    pub transition: Vec<FxHashMap<T, usize>>,
    /// The accept set of the DFA represented as a boolean vector.
    pub accept: Vec<bool>,
}

/// The partial function that a list of `(symbol, target)` pairs stands for:
/// where a symbol occurs more than once, its last pair counts.
pub open spec fn table_of<T>(pairs: Seq<(T, usize)>) -> Map<T, usize>
    decreases pairs.len(),
{
    if pairs.len() == 0 {
        Map::empty()
    } else {
        table_of(pairs.drop_last()).insert(pairs.last().0, pairs.last().1)
    }
}

impl<T: Copy + Eq + Hash> DFA<T> {
    /// The number of states.
    pub open spec fn states(&self) -> nat {
        self.transition@.len()
    }

    /// The partial transition function of state `s`.
    pub open spec fn delta(&self, s: int) -> Map<T, usize> {
        self.transition@[s]@
    }


    /// The shape that every operation relies on: there is a start state, each
    /// state has an accept bit, and every transition leads to a state.
    pub open spec fn wf(&self) -> bool {
        &&& self.states() > 0
        &&& self.accept@.len() == self.states()
        &&& forall|s: int, a: T|
            0 <= s < self.states() && #[trigger] self.delta(s).contains_key(a) ==> self.delta(
                s,
            )[a] < self.states()
    }

    /// Every state defines its transitions on the same symbols.
    pub open spec fn uniform(&self) -> bool {
        forall|s: int, a: T|
            0 <= s < self.states() ==> (#[trigger] self.delta(s).contains_key(a)
                <==> self.delta(0).contains_key(a))
    }

    /// Whether the word `w`, read from state `s`, ends in an accepting state.
    /// A symbol on which the current state has no transition rejects.
    pub open spec fn accepts_from(&self, s: int, w: Seq<T>) -> bool
        decreases w.len(),
    {
        if w.len() == 0 {
            self.accept@[s]
        } else {
            self.delta(s).contains_key(w[0]) && self.accepts_from(
                self.delta(s)[w[0]] as int,
                w.drop_first(),
            )
        }
    }

    /// Whether the automaton accepts the word `w`.
    pub open spec fn accepts(&self, w: Seq<T>) -> bool {
        self.accepts_from(0, w)
    }

    /// The state in which the word `w` ends when read from the start state.
    pub open spec fn reach(&self, w: Seq<T>) -> Option<int>
        decreases w.len(),
    {
        if w.len() == 0 {
            Some(0int)
        } else {
            match self.reach(w.drop_last()) {
                Some(s) => if self.delta(s).contains_key(w.last()) {
                    Some(self.delta(s)[w.last()] as int)
                } else {
                    None
                },
                None => None,
            }
        }
    }

    /// Some word leads from the start state to `s`.
    pub open spec fn reachable(&self, s: int) -> bool {
        exists|w: Seq<T>| #[trigger] self.reach(w) == Some(s)
    }

    /// The number of reachable states below `k`: the index that pruning gives
    /// to a reachable state `k`.
    pub open spec fn rank(&self, k: int) -> nat
        decreases k,
    {
        if k <= 0 {
            0
        } else {
            self.rank(k - 1) + if self.reachable(k - 1) {
                1nat
            } else {
                0nat
            }
        }
    }

    /// `p` is this automaton without its unreachable states: the reachable
    /// states keep their order and are numbered densely.
    pub open spec fn pruned_by(&self, p: &DFA<T>) -> bool {
        &&& p.alphabet@ == self.alphabet@
        &&& p.states() == self.rank(self.states() as int)
        &&& p.accept@.len() == p.states()
        &&& forall|s: int|
            0 <= s < self.states() && #[trigger] self.reachable(s) ==> {
                &&& p.accept@[self.rank(s) as int] == self.accept@[s]
                &&& p.delta(self.rank(s) as int) =~= self.delta(s).map_values(
                    |t: usize| self.rank(t as int) as usize,
                )
            }
    }

    /// No word tells `s` from `t`.
    pub open spec fn equiv(&self, s: int, t: int) -> bool {
        forall|w: Seq<T>| #[trigger] self.accepts_from(s, w) == self.accepts_from(t, w)
    }

    /// The first state from `k` on that no word tells from `s`, or `s` itself.
    pub open spec fn first_equiv(&self, s: int, k: int) -> int
        decreases s - k,
    {
        if k >= s {
            s
        } else if self.equiv(k, s) {
            k
        } else {
            self.first_equiv(s, k + 1)
        }
    }

    /// The least state that no word tells from `s`: the representative of
    /// the class of `s`.
    pub open spec fn least(&self, s: int) -> int {
        self.first_equiv(s, 0)
    }

    /// The number of representatives below `k`.
    pub open spec fn class_count(&self, k: int) -> nat
        decreases k,
    {
        if k <= 0 {
            0
        } else {
            self.class_count(k - 1) + if self.least(k - 1) == k - 1 {
                1nat
            } else {
                0nat
            }
        }
    }

    /// The index that the quotient gives to the class of `s`.
    pub open spec fn class_index(&self, s: int) -> nat {
        self.class_count(self.least(s))
    }

    /// `m` is the quotient of this automaton by indistinguishability: one
    /// state for each class, the classes in the order of their least
    /// members, and `class_index` a homomorphism onto it.
    pub open spec fn quotient_by(&self, m: &DFA<T>) -> bool {
        &&& m.alphabet@ == self.alphabet@
        &&& m.states() == self.class_count(self.states() as int)
        &&& m.accept@.len() == m.states()
        &&& forall|s: int|
            0 <= s < self.states() ==> {
                &&& m.accept@[#[trigger] self.class_index(s) as int] == self.accept@[s]
                &&& m.delta(self.class_index(s) as int) =~= self.delta(s).map_values(
                    |t: usize| self.class_index(t as int) as usize,
                )
            }
    }

    /// Create a DFA with given alphabet, transition function, and accept states.
    pub fn new(alphabet: Vec<T>, transition: Vec<Vec<(T, usize)>>, accept: Vec<bool>) -> (d: Self)
        requires
            obeys_key_model::<T>(),
        ensures
            d.alphabet@ == alphabet@,
            d.accept@ == accept@,
            d.states() == transition@.len(),
            forall|s: int| 0 <= s < transition@.len() ==> #[trigger] d.delta(s) == table_of(transition@[s]@),
    {
        let mut maps: Vec<FxHashMap<T, usize>> = Vec::new();
        let mut s: usize = 0;
        while s < transition.len()
            invariant
                obeys_key_model::<T>(),
                s <= transition@.len(),
                maps@.len() == s,
                forall|k: int| 0 <= k < s ==> (#[trigger] maps@[k])@ == table_of(transition@[k]@),
            decreases transition@.len() - s,
        {
            let row = &transition[s];
            let mut m: FxHashMap<T, usize> = map_new();
            let mut i: usize = 0;
            while i < row.len()
                invariant
                    obeys_key_model::<T>(),
                    i <= row@.len(),
                    m@ == table_of(row@.take(i as int)),
                decreases row@.len() - i,
            {
                let p = row[i];
                assert(row@.take(i + 1).drop_last() == row@.take(i as int));
                map_insert(&mut m, p.0, p.1);
                i += 1;
            }
            assert(row@.take(i as int) == row@);
            maps.push(m);
            s += 1;
        }
        DFA { alphabet, transition: maps, accept }
    }
}


impl<T: Copy + Eq + Hash> DFA<T> {
    /// Every successor of a state of `marked` that is not in `pending` is in
    /// `marked`.
    pub open spec fn closed_except(&self, marked: Seq<usize>, pending: Seq<usize>) -> bool {
        forall|s: usize, a: T|
            marked.contains(s) && !pending.contains(s) && #[trigger] self.delta(
                s as int,
            ).contains_key(a) ==> marked.contains(self.delta(s as int)[a])
    }

    /// Each state of `marked` is reached by the word at the same place in
    /// `paths`.
    pub open spec fn witnessed(&self, marked: Seq<usize>, paths: Seq<Seq<T>>) -> bool {
        &&& paths.len() == marked.len()
        &&& forall|k: int|
            #![trigger marked[k]]
            #![trigger paths[k]]
            0 <= k < marked.len() ==> marked[k] < self.states() && self.reach(paths[k]) == Some(
                marked[k] as int,
            )
    }

    /// A set of states that holds the start state and is closed under
    /// transitions holds every state that a word reaches.
    pub proof fn lemma_closed_holds_reach(&self, marked: Seq<usize>, w: Seq<T>)
        requires
            self.wf(),
            marked.contains(0usize),
            self.closed_except(marked, Seq::empty()),
            self.reach(w) is Some,
        ensures
            0 <= self.reach(w)->0 < self.states(),
            marked.contains(self.reach(w)->0 as usize),
        decreases w.len(),
    {
        if w.len() > 0 {
            self.lemma_closed_holds_reach(marked, w.drop_last());
            let s = self.reach(w.drop_last())->0;
            assert(self.delta(s as usize as int).contains_key(w.last()));
        }
    }

    /// The successor of a reachable state is reachable.
    pub proof fn lemma_reachable_step(&self, s: int, a: T)
        requires
            self.reachable(s),
            self.delta(s).contains_key(a),
        ensures
            self.reachable(self.delta(s)[a] as int),
    {
        let w = choose|w: Seq<T>| #[trigger] self.reach(w) == Some(s);
        let w2 = w.push(a);
        assert(w2.drop_last() == w);
        assert(self.reach(w2) == Some(self.delta(s)[a] as int));
    }

    /// Reachable states are states.
    pub proof fn lemma_reachable_is_state(&self, s: int)
        requires
            self.wf(),
            self.reachable(s),
        ensures
            0 <= s < self.states(),
    {
        let w = choose|w: Seq<T>| #[trigger] self.reach(w) == Some(s);
        self.lemma_reach_is_state(w);
    }

    /// A word ends in a state, if it can be read at all.
    pub proof fn lemma_reach_is_state(&self, w: Seq<T>)
        requires
            self.wf(),
            self.reach(w) is Some,
        ensures
            0 <= self.reach(w)->0 < self.states(),
        decreases w.len(),
    {
        if w.len() > 0 {
            self.lemma_reach_is_state(w.drop_last());
        }
    }

    /// The states that some word reaches from the start state, found breadth
    /// first.
    fn reachable_states(&self) -> (marked: Vec<usize>)
        requires
            self.wf(),
            obeys_key_model::<T>(),
        ensures
            forall|s: int|
                0 <= s < self.states() ==> (marked@.contains(s as usize) <==> self.reachable(s)),
    {
        let mut marked: Vec<usize> = Vec::new();
        marked.push(0);
        let mut frontier: Vec<usize> = Vec::new();
        frontier.push(0);
        let ghost mut paths: Seq<Seq<T>> = seq![Seq::<T>::empty()];
        proof {
            assert(self.reach(Seq::<T>::empty()) == Some(0int));
            assert(marked@[0] == 0);
            assert(frontier@[0] == 0);
        }
        while frontier.len() > 0
            invariant
                self.wf(),
                obeys_key_model::<T>(),
                marked@.len() > 0,
                marked@[0] == 0,
                marked@.no_duplicates(),
                self.witnessed(marked@, paths),
                forall|k: int| 0 <= k < frontier@.len() ==> marked@.contains(frontier@[k]),
                self.closed_except(marked@, frontier@),
            decreases self.states() - marked@.len(), frontier@.len(),
        {
            let mut new_frontier: Vec<usize> = Vec::new();
            let ghost before = marked@.len();
            let mut fi: usize = 0;
            proof {
                lemma_bounded_distinct(marked@, self.states());
                assert(frontier@.subrange(0, frontier@.len() as int) + new_frontier@ == frontier@);
            }
            while fi < frontier.len()
                invariant
                    self.wf(),
                    obeys_key_model::<T>(),
                    fi <= frontier@.len(),
                    marked@.len() > 0,
                    marked@[0] == 0,
                    marked@.no_duplicates(),
                    self.witnessed(marked@, paths),
                    forall|k: int| 0 <= k < frontier@.len() ==> marked@.contains(frontier@[k]),
                    forall|k: int| 0 <= k < new_frontier@.len() ==> marked@.contains(new_frontier@[k]),
                    marked@.len() == before + new_frontier@.len(),
                    self.closed_except(
                        marked@,
                        frontier@.subrange(fi as int, frontier@.len() as int) + new_frontier@,
                    ),
                decreases frontier@.len() - fi,
            {
                let s1 = frontier[fi];
                proof {
                    assert(marked@.contains(frontier@[fi as int]));
                }
                let ghost k1 = choose|k: int| 0 <= k < marked@.len() && marked@[k] == s1;
                let entries = map_entries(&self.transition[s1]);
                let mut ei: usize = 0;
                while ei < entries.len()
                    invariant
                        self.wf(),
                        obeys_key_model::<T>(),
                        fi < frontier@.len(),
                        s1 == frontier@[fi as int],
                        s1 < self.states(),
                        0 <= k1 < marked@.len(),
                        marked@[k1] == s1,
                        ei <= entries@.len(),
                        forall|i: int|
                            0 <= i < entries@.len() ==> self.delta(s1 as int).contains_key(
                                #[trigger] entries@[i].0,
                            ) && self.delta(s1 as int)[entries@[i].0] == entries@[i].1,
                        marked@.len() > 0,
                        marked@[0] == 0,
                        marked@.no_duplicates(),
                        self.witnessed(marked@, paths),
                        forall|k: int| 0 <= k < frontier@.len() ==> marked@.contains(frontier@[k]),
                        forall|k: int|
                            0 <= k < new_frontier@.len() ==> marked@.contains(new_frontier@[k]),
                        marked@.len() == before + new_frontier@.len(),
                        self.closed_except(
                            marked@,
                            frontier@.subrange(fi as int, frontier@.len() as int) + new_frontier@,
                        ),
                        forall|i: int| 0 <= i < ei ==> marked@.contains(#[trigger] entries@[i].1),
                    decreases entries@.len() - ei,
                {
                    let sym = entries[ei].0;
                    let s2 = entries[ei].1;
                    proof {
                        assert(self.delta(s1 as int).contains_key(entries@[ei as int].0));
                    }
                    if !contains_state(&marked, s2) {
                        let ghost pending = frontier@.subrange(fi as int, frontier@.len() as int)
                            + new_frontier@;
                        let ghost old_marked = marked@;
                        marked.push(s2);
                        new_frontier.push(s2);
                        proof {
                            let w = paths[k1];
                            let w2 = w.push(sym);
                            assert(w2.drop_last() == w);
                            assert(self.reach(w2) == Some(s2 as int));
                            paths = paths.push(w2);
                            let pending2 = frontier@.subrange(fi as int, frontier@.len() as int)
                                + new_frontier@;
                            assert(pending2 == pending.push(s2));
                            assert forall|s: usize| old_marked.contains(s) implies marked@.contains(
                                s,
                            ) by {
                                let k = choose|k: int| 0 <= k < old_marked.len() && old_marked[k] == s;
                                assert(marked@[k] == s);
                            }
                            assert(marked@[marked@.len() - 1] == s2);
                            assert forall|s: usize| pending.contains(s) implies pending2.contains(
                                s,
                            ) by {
                                let k = choose|k: int| 0 <= k < pending.len() && pending[k] == s;
                                assert(pending2[k] == s);
                            }
                            assert(pending2[pending2.len() - 1] == s2);
                            assert forall|s: usize, a: T|
                                marked@.contains(s) && !pending2.contains(s) && #[trigger] self.delta(
                                    s as int,
                                ).contains_key(a) implies marked@.contains(
                                self.delta(s as int)[a],
                            ) by {
                                if s != s2 {
                                    let k = choose|k: int| 0 <= k < marked@.len() && marked@[k] == s;
                                    assert(old_marked[k] == s);
                                    assert(old_marked.contains(s));
                                    assert(!pending.contains(s));
                                }
                            }
                            assert forall|k: int| 0 <= k < new_frontier@.len() implies marked@.contains(
                                new_frontier@[k],
                            ) by {
                                if k < new_frontier@.len() - 1 {
                                    assert(old_marked.contains(new_frontier@[k]));
                                }
                            }
                        }
                    }
                    ei += 1;
                }
                proof {
                    let pending = frontier@.subrange(fi as int, frontier@.len() as int)
                        + new_frontier@;
                    let pending2 = frontier@.subrange(fi as int + 1, frontier@.len() as int)
                        + new_frontier@;
                    assert forall|s: usize, a: T|
                        marked@.contains(s) && !pending2.contains(s) && #[trigger] self.delta(
                            s as int,
                        ).contains_key(a) implies marked@.contains(self.delta(s as int)[a]) by {
                        if s == s1 {
                            let i = choose|i: int|
                                0 <= i < entries@.len() && #[trigger] entries@[i].0 == a;
                            assert(marked@.contains(entries@[i].1));
                        } else {
                            if pending.contains(s) {
                                let k = choose|k: int| 0 <= k < pending.len() && pending[k] == s;
                                if k < frontier@.len() - fi {
                                    assert(k > 0);
                                    assert(pending2[k - 1] == s);
                                } else {
                                    assert(pending2[k - 1] == s);
                                }
                                assert(false);
                            }
                        }
                    }
                }
                fi += 1;
            }
            proof {
                assert(frontier@.subrange(fi as int, frontier@.len() as int) + new_frontier@
                    == new_frontier@);
                lemma_bounded_distinct(marked@, self.states());
            }
            frontier = new_frontier;
        }
        proof {
            assert(frontier@ == Seq::<usize>::empty());
            assert(marked@.contains(0usize));
            assert(self.states() == self.transition.len());
            assert forall|s: int| 0 <= s < self.states() implies (marked@.contains(s as usize)
                <==> self.reachable(s)) by {
                if marked@.contains(s as usize) {
                    let k = choose|k: int| 0 <= k < marked@.len() && marked@[k] == s as usize;
                    assert(self.reach(paths[k]) == Some(s));
                }
                if self.reachable(s) {
                    let w = choose|w: Seq<T>| #[trigger] self.reach(w) == Some(s);
                    self.lemma_closed_holds_reach(marked@, w);
                }
            }
        }
        marked
    }
}


impl<T: Copy + Eq + Hash> DFA<T> {
    /// `rank` never exceeds its argument and never decreases.
    pub proof fn lemma_rank_mono(&self, a: int, b: int)
        requires
            0 <= a <= b,
        ensures
            self.rank(a) <= a,
            self.rank(a) <= self.rank(b),
            a < b && self.reachable(a) ==> self.rank(a) < self.rank(b),
        decreases b,
    {
        if a < b {
            self.lemma_rank_mono(a, b - 1);
        } else {
            if a > 0 {
                self.lemma_rank_mono(a - 1, a - 1);
            }
        }
    }

    /// The reachable part of the automaton, with its states numbered densely
    /// in their old order.
    fn prune(&self) -> (p: Self)
        requires
            self.wf(),
            obeys_key_model::<T>(),
        ensures
            self.pruned_by(&p),
            p.wf(),
            self.uniform() ==> p.uniform(),
    {
        let marked = self.reachable_states();
        let n = self.transition.len();
        let mut states_a: FxHashMap<usize, usize> = map_new();
        let mut c: usize = 0;
        let mut state: usize = 0;
        while state < n
            invariant
                n == self.states(),
                state <= n,
                c == self.rank(state as int),
                c <= state,
                forall|s: int|
                    0 <= s < self.states() ==> (marked@.contains(s as usize) <==> self.reachable(s)),
                forall|s: usize|
                    #![trigger states_a@.contains_key(s)]
                    states_a@.contains_key(s) <==> s < state && self.reachable(s as int),
                forall|s: usize|
                    #![trigger states_a@[s]]
                    states_a@.contains_key(s) ==> states_a@[s] == self.rank(s as int),
            decreases n - state,
        {
            if contains_state(&marked, state) {
                map_insert(&mut states_a, state, c);
                c += 1;
            }
            state += 1;
        }
        let mut new_transition: Vec<FxHashMap<T, usize>> = Vec::new();
        let mut new_accept: Vec<bool> = Vec::new();
        let ghost total = self.rank(n as int);
        proof {
            assert(self.reach(Seq::<T>::empty()) == Some(0int));
            assert(self.reachable(0));
            self.lemma_rank_mono(0, n as int);
        }
        state = 0;
        while state < n
            invariant
                self.wf(),
                obeys_key_model::<T>(),
                n == self.states(),
                state <= n,
                total == self.rank(n as int),
                new_transition@.len() == self.rank(state as int),
                new_accept@.len() == self.rank(state as int),
                forall|s: usize|
                    #![trigger states_a@.contains_key(s)]
                    states_a@.contains_key(s) <==> s < n && self.reachable(s as int),
                forall|s: usize|
                    #![trigger states_a@[s]]
                    states_a@.contains_key(s) ==> states_a@[s] == self.rank(s as int),
                forall|s: int|
                    0 <= s < state && #[trigger] self.reachable(s) ==> {
                        &&& new_accept@[self.rank(s) as int] == self.accept@[s]
                        &&& new_transition@[self.rank(s) as int]@ =~= self.delta(s).map_values(
                            |t: usize| self.rank(t as int) as usize,
                        )
                    },
                forall|k: int, a: T|
                    0 <= k < new_transition@.len() && #[trigger] new_transition@[k]@.contains_key(a)
                        ==> new_transition@[k]@[a] < total,
                self.uniform() ==> forall|k: int, a: T|
                    0 <= k < new_transition@.len() ==> (#[trigger] new_transition@[k]@.contains_key(
                        a,
                    ) <==> self.delta(0).contains_key(a)),
            decreases n - state,
        {
            proof {
                self.lemma_rank_mono(state as int, n as int);
            }
            if map_get(&states_a, &state).is_some() {
                let entries = map_entries(&self.transition[state]);
                let mut nt: FxHashMap<T, usize> = map_new();
                let mut i: usize = 0;
                while i < entries.len()
                    invariant
                        self.wf(),
                        obeys_key_model::<T>(),
                        n == self.states(),
                        state < n,
                        self.reachable(state as int),
                        total == self.rank(n as int),
                        i <= entries@.len(),
                        forall|k: int|
                            0 <= k < entries@.len() ==> self.delta(state as int).contains_key(
                                #[trigger] entries@[k].0,
                            ) && self.delta(state as int)[entries@[k].0] == entries@[k].1,
                        forall|s: usize|
                            #![trigger states_a@.contains_key(s)]
                            states_a@.contains_key(s) <==> s < n && self.reachable(s as int),
                        forall|s: usize|
                            #![trigger states_a@[s]]
                            states_a@.contains_key(s) ==> states_a@[s] == self.rank(s as int),
                        forall|a: T|
                            nt@.contains_key(a) <==> exists|k: int|
                                0 <= k < i && #[trigger] entries@[k].0 == a,
                        forall|a: T|
                            #![trigger nt@[a]]
                            nt@.contains_key(a) ==> nt@[a] == self.rank(
                                self.delta(state as int)[a] as int,
                            ) && nt@[a] < total,
                    decreases entries@.len() - i,
                {
                    let l = entries[i].0;
                    let r = entries[i].1;
                    proof {
                        assert(self.delta(state as int).contains_key(entries@[i as int].0));
                        self.lemma_reachable_step(state as int, l);
                        self.lemma_rank_mono(r as int, n as int);
                        assert(states_a@.contains_key(r));
                    }
                    let target = map_get(&states_a, &r).unwrap();
                    let ghost before = nt@;
                    map_insert(&mut nt, l, target);
                    proof {
                        assert forall|a: T| nt@.contains_key(a) <==> exists|k: int|
                            0 <= k < i + 1 && #[trigger] entries@[k].0 == a by {
                            if before.contains_key(a) {
                                let k = choose|k: int| 0 <= k < i && #[trigger] entries@[k].0 == a;
                                assert(0 <= k < i + 1 && entries@[k].0 == a);
                            }
                            if a == l {
                                assert(entries@[i as int].0 == a);
                            }
                        }
                    }
                    i += 1;
                }
                proof {
                    let f = |t: usize| self.rank(t as int) as usize;
                    assert(nt@ =~= self.delta(state as int).map_values(f)) by {
                        assert forall|a: T| nt@.contains_key(a) <==> self.delta(
                            state as int,
                        ).contains_key(a) by {
                            if self.delta(state as int).contains_key(a) {
                                let k = choose|k: int|
                                    0 <= k < entries@.len() && #[trigger] entries@[k].0 == a;
                                assert(nt@.contains_key(a));
                            }
                        }
                    }
                    assert(self.uniform() ==> forall|a: T|
                        (nt@.contains_key(a) <==> self.delta(0).contains_key(a)));
                }
                let ghost old_transition = new_transition@;
                let ghost old_accept = new_accept@;
                new_transition.push(nt);
                new_accept.push(self.accept[state]);
                proof {
                    assert forall|s: int| 0 <= s < state + 1 && #[trigger] self.reachable(s) implies {
                        &&& new_accept@[self.rank(s) as int] == self.accept@[s]
                        &&& new_transition@[self.rank(s) as int]@ =~= self.delta(s).map_values(
                            |t: usize| self.rank(t as int) as usize,
                        )
                    } by {
                        if s < state {
                            self.lemma_rank_mono(s, state as int);
                            assert(new_transition@[self.rank(s) as int] == old_transition[self.rank(
                                s,
                            ) as int]);
                            assert(new_accept@[self.rank(s) as int] == old_accept[self.rank(s) as int]);
                        }
                    }
                    assert forall|k: int, a: T|
                        0 <= k < new_transition@.len() && #[trigger] new_transition@[k]@.contains_key(
                            a,
                        ) implies new_transition@[k]@[a] < total by {
                        if k < old_transition.len() {
                            assert(new_transition@[k] == old_transition[k]);
                        }
                    }
                    if self.uniform() {
                        assert forall|k: int, a: T| 0 <= k < new_transition@.len() implies (
                        #[trigger] new_transition@[k]@.contains_key(a) <==> self.delta(
                            0,
                        ).contains_key(a)) by {
                            if k < old_transition.len() {
                                assert(new_transition@[k] == old_transition[k]);
                            }
                        }
                    }
                }
            }
            state += 1;
        }
        let alphabet = copy_vec(&self.alphabet);
        let p = DFA { alphabet, transition: new_transition, accept: new_accept };
        proof {
            assert(p.states() == total);
            assert(p.delta(0) == new_transition@[0]@);
            assert forall|s: int, a: T|
                0 <= s < p.states() && #[trigger] p.delta(s).contains_key(a) implies p.delta(s)[a]
                < p.states() by {
                assert(new_transition@[s]@.contains_key(a));
            }
            if self.uniform() {
                assert forall|s: int, a: T| 0 <= s < p.states() implies (#[trigger] p.delta(
                    s,
                ).contains_key(a) <==> p.delta(0).contains_key(a)) by {
                    assert(new_transition@[s]@.contains_key(a) <==> self.delta(0).contains_key(a));
                    assert(new_transition@[0]@.contains_key(a) <==> self.delta(0).contains_key(a));
                }
            }
        }
        p
    }
}


/// The place of the pair `(a, b)` in `v`, if it occurs there.
fn index_of_pair(v: &Vec<(usize, usize)>, a: usize, b: usize) -> (r: Option<usize>)
    ensures
        r matches Some(k) ==> k < v@.len() && v@[k as int] == (a, b),
        r is None ==> !v@.contains((a, b)),
{
    let mut i: usize = 0;
    while i < v.len()
        invariant
            i <= v@.len(),
            forall|k: int| 0 <= k < i ==> v@[k] != (a, b),
        decreases v@.len() - i,
    {
        if v[i].0 == a && v[i].1 == b {
            return Some(i);
        }
        i += 1;
    }
    None
}

impl<T: Copy + Eq + Hash> DFA<T> {
    /// Each pair of `marked` is told apart by the word at the same place in
    /// `why`.
    pub open spec fn told_apart(&self, marked: Seq<(usize, usize)>, why: Seq<Seq<T>>) -> bool {
        &&& why.len() == marked.len()
        &&& forall|k: int|
            #![trigger marked[k]]
            #![trigger why[k]]
            0 <= k < marked.len() ==> {
                &&& marked[k].0 < marked[k].1 < self.states()
                &&& self.accepts_from(marked[k].0 as int, why[k]) != self.accepts_from(
                    marked[k].1 as int,
                    why[k],
                )
            }
    }

    /// Each pair of `unmarked` is a pair of states with the same accept bit.
    pub open spec fn candidates(&self, unmarked: Seq<(usize, usize)>) -> bool {
        forall|k: int|
            0 <= k < unmarked.len() ==> {
                &&& (#[trigger] unmarked[k]).0 < unmarked[k].1 < self.states()
                &&& self.accept@[unmarked[k].0 as int] == self.accept@[unmarked[k].1 as int]
            }
    }

    /// Every pair of distinct states is in one of the two lists.
    pub open spec fn covered(
        &self,
        marked: Seq<(usize, usize)>,
        unmarked: Seq<(usize, usize)>,
    ) -> bool {
        forall|i: usize, j: usize|
            i < j < self.states() ==> marked.contains((i, j)) || #[trigger] unmarked.contains((i, j))
    }

    /// No symbol leads the pair `(i, j)` to a pair of `marked`.
    pub open spec fn stable(&self, i: int, j: int, marked: Seq<(usize, usize)>) -> bool {
        forall|a: T| #[trigger]
            self.delta(i).contains_key(a) ==> !marked.contains((self.delta(i)[a], self.delta(j)[a]))
                && !marked.contains((self.delta(j)[a], self.delta(i)[a]))
    }

    /// Every pair of `unmarked` is stable.
    pub open spec fn all_stable(
        &self,
        marked: Seq<(usize, usize)>,
        unmarked: Seq<(usize, usize)>,
        k: int,
    ) -> bool {
        forall|l: int|
            0 <= l < k ==> self.stable(
                (#[trigger] unmarked[l]).0 as int,
                unmarked[l].1 as int,
                marked,
            )
    }

    /// The states are equal or form a pair of `unmarked`.
    pub open spec fn related(unmarked: Seq<(usize, usize)>, s: int, t: int) -> bool {
        s == t || unmarked.contains((s as usize, t as usize)) || unmarked.contains(
            (t as usize, s as usize),
        )
    }

    /// Once no pair of `unmarked` can be marked any more, no word tells the
    /// two states of such a pair apart.
    pub proof fn lemma_related_same(
        &self,
        marked: Seq<(usize, usize)>,
        unmarked: Seq<(usize, usize)>,
        s: int,
        t: int,
        w: Seq<T>,
    )
        requires
            self.wf(),
            self.uniform(),
            self.candidates(unmarked),
            self.covered(marked, unmarked),
            self.all_stable(marked, unmarked, unmarked.len() as int),
            0 <= s < self.states(),
            0 <= t < self.states(),
            Self::related(unmarked, s, t),
        ensures
            self.accepts_from(s, w) == self.accepts_from(t, w),
        decreases w.len(),
    {
        assert(self.states() == self.transition.len());
        if w.len() == 0 {
            if s != t {
                if unmarked.contains((s as usize, t as usize)) {
                    let k = choose|k: int|
                        0 <= k < unmarked.len() && unmarked[k] == (s as usize, t as usize);
                    assert(unmarked[k].0 == s as usize);
                } else {
                    let k = choose|k: int|
                        0 <= k < unmarked.len() && unmarked[k] == (t as usize, s as usize);
                    assert(unmarked[k].0 == t as usize);
                }
            }
        } else {
            let a = w[0];
            assert(self.delta(s).contains_key(a) <==> self.delta(0).contains_key(a));
            assert(self.delta(t).contains_key(a) <==> self.delta(0).contains_key(a));
            if self.delta(s).contains_key(a) {
                let s2 = self.delta(s)[a];
                let t2 = self.delta(t)[a];
                if s != t {
                    if unmarked.contains((s as usize, t as usize)) {
                        let k = choose|k: int|
                            0 <= k < unmarked.len() && unmarked[k] == (s as usize, t as usize);
                        assert(self.stable(unmarked[k].0 as int, unmarked[k].1 as int, marked));
                        assert(self.delta(s).contains_key(a));
                    } else {
                        let k = choose|k: int|
                            0 <= k < unmarked.len() && unmarked[k] == (t as usize, s as usize);
                        assert(self.stable(unmarked[k].0 as int, unmarked[k].1 as int, marked));
                        assert(self.delta(t).contains_key(a));
                    }
                    assert(!marked.contains((s2, t2)));
                    assert(!marked.contains((t2, s2)));
                    if s2 < t2 {
                        assert(marked.contains((s2, t2)) || unmarked.contains((s2, t2)));
                    } else if t2 < s2 {
                        assert(marked.contains((t2, s2)) || unmarked.contains((t2, s2)));
                    }
                }
                assert(Self::related(unmarked, s2 as int, t2 as int));
                self.lemma_related_same(marked, unmarked, s2 as int, t2 as int, w.drop_first());
            }
        }
    }

    /// Looks for a symbol that leads the pair `(i, j)` to a marked pair, and
    /// with it for a word that tells `i` from `j`.
    fn splits(
        &self,
        i: usize,
        j: usize,
        marked: &Vec<(usize, usize)>,
        Ghost(why): Ghost<Seq<Seq<T>>>,
    ) -> (r: (bool, Ghost<Seq<T>>))
        requires
            self.wf(),
            self.uniform(),
            obeys_key_model::<T>(),
            i < self.states(),
            j < self.states(),
            self.told_apart(marked@, why),
        ensures
            r.0 ==> self.accepts_from(i as int, r.1@) != self.accepts_from(j as int, r.1@),
            !r.0 ==> self.stable(i as int, j as int, marked@),
    {
        let entries = map_entries(&self.transition[i]);
        let mut e: usize = 0;
        while e < entries.len()
            invariant
                self.wf(),
                self.uniform(),
                obeys_key_model::<T>(),
                i < self.states(),
                j < self.states(),
                self.told_apart(marked@, why),
                e <= entries@.len(),
                forall|k: int|
                    0 <= k < entries@.len() ==> self.delta(i as int).contains_key(
                        #[trigger] entries@[k].0,
                    ) && self.delta(i as int)[entries@[k].0] == entries@[k].1,
                forall|k: int|
                    0 <= k < e ==> !marked@.contains(
                        (
                            self.delta(i as int)[(#[trigger] entries@[k]).0],
                            self.delta(j as int)[entries@[k].0],
                        ),
                    ) && !marked@.contains(
                        (self.delta(j as int)[entries@[k].0], self.delta(i as int)[entries@[k].0]),
                    ),
            decreases entries@.len() - e,
        {
            let sym = entries[e].0;
            let a = entries[e].1;
            proof {
                assert(self.delta(i as int).contains_key(entries@[e as int].0));
                assert(self.delta(i as int).contains_key(sym) <==> self.delta(0).contains_key(sym));
                assert(self.delta(j as int).contains_key(sym) <==> self.delta(0).contains_key(sym));
            }
            let b = map_get(&self.transition[j], &sym).unwrap();
            let hit = match index_of_pair(marked, a, b) {
                Some(k) => Some(k),
                None => index_of_pair(marked, b, a),
            };
            match hit {
                Some(k) => {
                    let ghost w = seq![sym] + why[k as int];
                    proof {
                        assert(w[0] == sym);
                        assert(w.drop_first() == why[k as int]);
                        assert(marked@[k as int] == (a, b) || marked@[k as int] == (b, a));
                    }
                    return (true, Ghost(w));
                },
                None => {},
            }
            e += 1;
        }
        proof {
            assert forall|a: T| #[trigger] self.delta(i as int).contains_key(a) implies !marked@.contains(
                (self.delta(i as int)[a], self.delta(j as int)[a]),
            ) && !marked@.contains((self.delta(j as int)[a], self.delta(i as int)[a])) by {
                let k = choose|k: int| 0 <= k < entries@.len() && #[trigger] entries@[k].0 == a;
                assert(entries@[k].0 == a);
            }
        }
        (false, Ghost(Seq::empty()))
    }
}


impl<T: Copy + Eq + Hash> DFA<T> {
    /// Indistinguishability is transitive and symmetric.
    pub proof fn lemma_equiv_trans(&self, a: int, b: int, c: int)
        requires
            self.equiv(a, b) || self.equiv(b, a),
            self.equiv(b, c) || self.equiv(c, b),
        ensures
            self.equiv(a, c),
            self.equiv(c, a),
    {
        assert forall|w: Seq<T>| #[trigger] self.accepts_from(a, w) == self.accepts_from(c, w) by {
            assert(self.accepts_from(a, w) == self.accepts_from(b, w));
            assert(self.accepts_from(b, w) == self.accepts_from(c, w));
        }
        assert forall|w: Seq<T>| #[trigger] self.accepts_from(c, w) == self.accepts_from(a, w) by {
            assert(self.accepts_from(a, w) == self.accepts_from(b, w));
            assert(self.accepts_from(b, w) == self.accepts_from(c, w));
        }
    }

    /// One symbol leads indistinguishable states to indistinguishable states.
    pub proof fn lemma_equiv_step(&self, s: int, t: int, a: T)
        requires
            self.equiv(s, t),
            self.delta(s).contains_key(a),
            self.delta(t).contains_key(a),
        ensures
            self.equiv(self.delta(s)[a] as int, self.delta(t)[a] as int),
    {
        let s2 = self.delta(s)[a] as int;
        let t2 = self.delta(t)[a] as int;
        assert forall|w: Seq<T>| #[trigger] self.accepts_from(s2, w) == self.accepts_from(t2, w) by {
            let w2 = seq![a] + w;
            assert(w2[0] == a);
            assert(w2.drop_first() == w);
            assert(self.accepts_from(s, w2) == self.accepts_from(t, w2));
        }
    }

    /// What `first_equiv` finds: the first state from `k` on that no word
    /// tells from `s`.
    pub proof fn lemma_first_equiv(&self, s: int, k: int)
        requires
            0 <= k <= s,
        ensures
            k <= self.first_equiv(s, k) <= s,
            self.equiv(self.first_equiv(s, k), s),
            forall|t: int| k <= t < self.first_equiv(s, k) ==> !self.equiv(t, s),
        decreases s - k,
    {
        if k < s && !self.equiv(k, s) {
            self.lemma_first_equiv(s, k + 1);
        }
    }

    /// The representative of `s` is the only state `t` up to `s` that no word
    /// tells from `s` while each state below `t` is told from `s`.
    pub proof fn lemma_least_unique(&self, s: int, t: int)
        requires
            0 <= t <= s,
            self.equiv(t, s),
            forall|u: int| 0 <= u < t ==> !self.equiv(u, s),
        ensures
            self.least(s) == t,
    {
        self.lemma_first_equiv(s, 0);
    }

    /// Indistinguishable states have the same representative.
    pub proof fn lemma_equiv_same_least(&self, x: int, y: int)
        requires
            0 <= x,
            0 <= y,
            self.equiv(x, y),
        ensures
            self.least(x) == self.least(y),
    {
        self.lemma_first_equiv(x, 0);
        self.lemma_first_equiv(y, 0);
        let a = self.least(x);
        self.lemma_equiv_trans(a, x, y);
        self.lemma_equiv_trans(y, x, x);
        assert forall|u: int| 0 <= u < a implies !self.equiv(u, y) by {
            if self.equiv(u, y) {
                self.lemma_equiv_trans(u, y, x);
            }
        }
        if a <= y {
            self.lemma_least_unique(y, a);
        } else {
            assert(self.equiv(y, x));
        }
    }

    /// A representative represents itself.
    pub proof fn lemma_least_is_rep(&self, s: int)
        requires
            0 <= s,
        ensures
            0 <= self.least(s) <= s,
            self.equiv(self.least(s), s),
            self.least(self.least(s)) == self.least(s),
    {
        self.lemma_first_equiv(s, 0);
        self.lemma_equiv_same_least(self.least(s), s);
    }

    /// `class_count` never exceeds its argument and never decreases.
    pub proof fn lemma_class_count_mono(&self, a: int, b: int)
        requires
            0 <= a <= b,
        ensures
            self.class_count(a) <= a,
            self.class_count(a) <= self.class_count(b),
            a < b && self.least(a) == a ==> self.class_count(a) < self.class_count(b),
        decreases b,
    {
        if a < b {
            self.lemma_class_count_mono(a, b - 1);
        } else {
            if a > 0 {
                self.lemma_class_count_mono(a - 1, a - 1);
            }
        }
    }

    /// While a round goes through `unmarked`: every pair of distinct states is
    /// marked, kept, or still to come.
    pub open spec fn covered_during(
        &self,
        marked: Seq<(usize, usize)>,
        kept: Seq<(usize, usize)>,
        unmarked: Seq<(usize, usize)>,
        k: int,
    ) -> bool {
        forall|i: usize, j: usize|
            i < j < self.states() ==> marked.contains((i, j)) || #[trigger] kept.contains((i, j))
                || exists|l: int| k <= l < unmarked.len() && #[trigger] unmarked[l] == (i, j)
    }

    /// The pairs of distinct states that no word tells apart, found by
    /// marking the pairs that some word tells apart until none is left to
    /// mark.
    fn indistinguishable_pairs(&self) -> (unmarked: Vec<(usize, usize)>)
        requires
            self.wf(),
            self.uniform(),
            obeys_key_model::<T>(),
        ensures
            forall|i: usize, j: usize|
                i < j < self.states() ==> (#[trigger] unmarked@.contains((i, j)) <==> self.equiv(
                    i as int,
                    j as int,
                )),
            forall|k: int|
                0 <= k < unmarked@.len() ==> (#[trigger] unmarked@[k]).0 < unmarked@[k].1
                    < self.states(),
    {
        let n = self.transition.len();
        let mut marked: Vec<(usize, usize)> = Vec::new();
        let mut unmarked: Vec<(usize, usize)> = Vec::new();
        let ghost mut why: Seq<Seq<T>> = Seq::empty();
        let mut i: usize = 0;
        while i < n
            invariant
                n == self.states(),
                self.accept@.len() == n,
                i <= n,
                self.told_apart(marked@, why),
                self.candidates(unmarked@),
                forall|a: usize, b: usize|
                    a < b < n && a < i ==> marked@.contains((a, b)) || #[trigger] unmarked@.contains(
                        (a, b),
                    ),
            decreases n - i,
        {
            let mut j: usize = i + 1;
            while j < n
                invariant
                    n == self.states(),
                    self.accept@.len() == n,
                    i < n,
                    i < j <= n,
                    self.told_apart(marked@, why),
                    self.candidates(unmarked@),
                    forall|a: usize, b: usize|
                        a < b < n && (a < i || (a == i && b < j)) ==> marked@.contains((a, b))
                            || #[trigger] unmarked@.contains((a, b)),
                decreases n - j,
            {
                proof {
                    lemma_push_contains(marked@, (i, j));
                    lemma_push_contains(unmarked@, (i, j));
                }
                if self.accept[i] == self.accept[j] {
                    unmarked.push((i, j));
                } else {
                    marked.push((i, j));
                    proof {
                        why = why.push(Seq::empty());
                    }
                }
                j += 1;
            }
            i += 1;
        }
        let mut done = false;
        while !done
            invariant
                self.wf(),
                self.uniform(),
                obeys_key_model::<T>(),
                n == self.states(),
                self.told_apart(marked@, why),
                self.candidates(unmarked@),
                self.covered(marked@, unmarked@),
                done ==> self.all_stable(marked@, unmarked@, unmarked@.len() as int),
            decreases
                    unmarked@.len() + if done {
                        0int
                    } else {
                        1int
                    },
        {
            let mut kept: Vec<(usize, usize)> = Vec::new();
            let ghost marked0 = marked@;
            let mut k: usize = 0;
            proof {
                assert forall|i: usize, j: usize| i < j < self.states() implies marked@.contains(
                    (i, j),
                ) || #[trigger] kept@.contains((i, j)) || exists|l: int|
                    0 <= l < unmarked@.len() && #[trigger] unmarked@[l] == (i, j) by {
                    if unmarked@.contains((i, j)) {
                        let l = choose|l: int| 0 <= l < unmarked@.len() && unmarked@[l] == (i, j);
                        assert(unmarked@[l] == (i, j));
                    }
                }
            }
            while k < unmarked.len()
                invariant
                    self.wf(),
                    self.uniform(),
                    obeys_key_model::<T>(),
                    n == self.states(),
                    k <= unmarked@.len(),
                    self.told_apart(marked@, why),
                    self.candidates(unmarked@),
                    self.candidates(kept@),
                    self.covered_during(marked@, kept@, unmarked@, k as int),
                    kept@.len() <= k,
                    forall|l: int| 0 <= l < kept@.len() ==> unmarked@.contains(#[trigger] kept@[l]),
                    kept@.len() == k ==> marked@ == marked0 && self.all_stable(
                        marked0,
                        unmarked@,
                        k as int,
                    ),
                decreases unmarked@.len() - k,
            {
                let a = unmarked[k].0;
                let b = unmarked[k].1;
                let r = self.splits(a, b, &marked, Ghost(why));
                let ghost marked1 = marked@;
                let ghost kept1 = kept@;
                proof {
                    lemma_push_contains(marked@, (a, b));
                    lemma_push_contains(kept@, (a, b));
                    assert(unmarked@[k as int] == (a, b));
                }
                if r.0 {
                    marked.push((a, b));
                    proof {
                        why = why.push(r.1@);
                    }
                } else {
                    kept.push((a, b));
                    proof {
                        assert(unmarked@.contains((a, b)));
                        assert forall|l: int| 0 <= l < kept@.len() implies unmarked@.contains(
                            #[trigger] kept@[l],
                        ) by {
                            if l < kept1.len() {
                                assert(kept@[l] == kept1[l]);
                            }
                        }
                    }
                }
                proof {
                    assert forall|i: usize, j: usize| i < j < self.states() implies marked@.contains(
                        (i, j),
                    ) || #[trigger] kept@.contains((i, j)) || exists|l: int|
                        k + 1 <= l < unmarked@.len() && #[trigger] unmarked@[l] == (i, j) by {
                        if !(marked1.contains((i, j)) || kept1.contains((i, j))) {
                            let l = choose|l: int|
                                k <= l < unmarked@.len() && #[trigger] unmarked@[l] == (i, j);
                            if l == k {
                                assert((i, j) == (a, b));
                            } else {
                                assert(k + 1 <= l < unmarked@.len() && unmarked@[l] == (i, j));
                            }
                        }
                    }
                }
                k += 1;
            }
            proof {
                assert forall|i: usize, j: usize| i < j < self.states() implies marked@.contains(
                    (i, j),
                ) || #[trigger] unmarked@.contains((i, j)) by {
                    if kept@.contains((i, j)) {
                        let l = choose|l: int| 0 <= l < kept@.len() && kept@[l] == (i, j);
                        assert(unmarked@.contains(kept@[l]));
                    }
                }
            }
            if kept.len() == unmarked.len() {
                done = true;
            } else {
                proof {
                    assert forall|i: usize, j: usize| i < j < self.states() implies marked@.contains(
                        (i, j),
                    ) || #[trigger] kept@.contains((i, j)) by {
                        assert(marked@.contains((i, j)) || kept@.contains((i, j)) || exists|l: int|
                            k <= l < unmarked@.len() && #[trigger] unmarked@[l] == (i, j));
                    }
                }
                unmarked = kept;
            }
        }
        proof {
            assert forall|i: usize, j: usize| i < j < self.states() implies (
            #[trigger] unmarked@.contains((i, j)) <==> self.equiv(i as int, j as int)) by {
                if unmarked@.contains((i, j)) {
                    assert forall|w: Seq<T>| #[trigger]
                        self.accepts_from(i as int, w) == self.accepts_from(j as int, w) by {
                        self.lemma_related_same(marked@, unmarked@, i as int, j as int, w);
                    }
                } else {
                    assert(marked@.contains((i, j)));
                    let k = choose|k: int| 0 <= k < marked@.len() && marked@[k] == (i, j);
                    assert(self.accepts_from(marked@[k].0 as int, why[k]) != self.accepts_from(
                        marked@[k].1 as int,
                        why[k],
                    ));
                }
            }
        }
        unmarked
    }
}


/// The least first component among the first `k` pairs of `u` whose second
/// component is `j`.
pub open spec fn min_partner(u: Seq<(usize, usize)>, k: int, j: usize) -> Option<usize>
    decreases k,
{
    if k <= 0 {
        None
    } else if u[k - 1].1 == j {
        match min_partner(u, k - 1, j) {
            None => Some(u[k - 1].0),
            Some(c) => if c > u[k - 1].0 {
                Some(u[k - 1].0)
            } else {
                Some(c)
            },
        }
    } else {
        min_partner(u, k - 1, j)
    }
}

/// `min_partner` is the least first component of the pairs it looks at.
pub proof fn lemma_min_partner(u: Seq<(usize, usize)>, k: int, j: usize)
    requires
        0 <= k <= u.len(),
    ensures
        match min_partner(u, k, j) {
            None => forall|l: int| 0 <= l < k ==> (#[trigger] u[l]).1 != j,
            Some(c) => u.contains((c, j)) && forall|l: int|
                0 <= l < k && (#[trigger] u[l]).1 == j ==> c <= u[l].0,
        },
    decreases k,
{
    if k > 0 {
        lemma_min_partner(u, k - 1, j);
        if u[k - 1].1 == j {
            assert(u[k - 1] == (u[k - 1].0, j));
        }
    }
}

/// A map between the states of two automata that keeps accept bits and
/// transitions keeps the words that are accepted.
pub proof fn lemma_hom_language<T: Copy + Eq + Hash>(
    a: &DFA<T>,
    b: &DFA<T>,
    h: spec_fn(int) -> int,
    good: spec_fn(int) -> bool,
    s: int,
    w: Seq<T>,
)
    requires
        forall|x: int| #[trigger] good(x) ==> b.accept@[h(x)] == a.accept@[x],
        forall|x: int, c: T|
            good(x) ==> (#[trigger] b.delta(h(x)).contains_key(c) <==> a.delta(x).contains_key(c)),
        forall|x: int, c: T|
            good(x) && #[trigger] a.delta(x).contains_key(c) ==> good(a.delta(x)[c] as int)
                && b.delta(h(x))[c] as int == h(a.delta(x)[c] as int),
        good(s),
    ensures
        b.accepts_from(h(s), w) == a.accepts_from(s, w),
    decreases w.len(),
{
    if w.len() > 0 {
        let c = w[0];
        assert(b.delta(h(s)).contains_key(c) <==> a.delta(s).contains_key(c));
        if a.delta(s).contains_key(c) {
            lemma_hom_language(a, b, h, good, a.delta(s)[c] as int, w.drop_first());
        }
    }
}

impl<T: Copy + Eq + Hash> DFA<T> {
    /// The quotient of the automaton by indistinguishability.
    fn quotient(&self) -> (m: Self)
        requires
            self.wf(),
            self.uniform(),
            obeys_key_model::<T>(),
        ensures
            self.quotient_by(&m),
            m.wf(),
            m.uniform(),
    {
        let n = self.transition.len();
        let unmarked = self.indistinguishable_pairs();
        let mut states_a: FxHashMap<usize, usize> = map_new();
        let mut k: usize = 0;
        while k < unmarked.len()
            invariant
                k <= unmarked@.len(),
                forall|j: usize|
                    #![trigger states_a@.contains_key(j)]
                    states_a@.contains_key(j) <==> min_partner(unmarked@, k as int, j) is Some,
                forall|j: usize|
                    #![trigger states_a@[j]]
                    states_a@.contains_key(j) ==> min_partner(unmarked@, k as int, j) == Some(
                        states_a@[j],
                    ),
            decreases unmarked@.len() - k,
        {
            let i = unmarked[k].0;
            let j = unmarked[k].1;
            match map_get(&states_a, &j) {
                None => {
                    map_insert(&mut states_a, j, i);
                },
                Some(cur) => {
                    if cur > i {
                        map_insert(&mut states_a, j, i);
                    }
                },
            }
            k += 1;
        }
        proof {
            assert forall|s: usize| s < n implies (#[trigger] states_a@.contains_key(s)
                <==> self.least(s as int) != s) && (states_a@.contains_key(s) ==> states_a@[s]
                == self.least(s as int)) by {
                lemma_min_partner(unmarked@, unmarked@.len() as int, s);
                self.lemma_first_equiv(s as int, 0);
                match min_partner(unmarked@, unmarked@.len() as int, s) {
                    None => {
                        assert forall|u: int| 0 <= u < s implies !self.equiv(u, s as int) by {
                            if self.equiv(u, s as int) {
                                assert(unmarked@.contains((u as usize, s)));
                                let l = choose|l: int|
                                    0 <= l < unmarked@.len() && unmarked@[l] == (u as usize, s);
                                assert(unmarked@[l].1 == s);
                            }
                        }
                        assert(self.equiv(s as int, s as int));
                        self.lemma_least_unique(s as int, s as int);
                    },
                    Some(c) => {
                        let l = choose|l: int| 0 <= l < unmarked@.len() && unmarked@[l] == (c, s);
                        assert(unmarked@[l].0 < unmarked@[l].1);
                        assert(unmarked@.contains((c, s)));
                        assert(self.equiv(c as int, s as int));
                        assert forall|u: int| 0 <= u < c implies !self.equiv(u, s as int) by {
                            if self.equiv(u, s as int) {
                                assert(unmarked@.contains((u as usize, s)));
                                let l2 = choose|l2: int|
                                    0 <= l2 < unmarked@.len() && unmarked@[l2] == (u as usize, s);
                                assert(unmarked@[l2].1 == s);
                            }
                        }
                        self.lemma_least_unique(s as int, c as int);
                    },
                }
            }
        }
        let mut states_b: FxHashMap<usize, usize> = map_new();
        let mut c: usize = 0;
        let mut state: usize = 0;
        while state < n
            invariant
                n == self.states(),
                state <= n,
                c == self.class_count(state as int),
                c <= state,
                forall|s: usize|
                    s < n ==> (#[trigger] states_a@.contains_key(s) <==> (self.least(s as int) != s
                        || s < state)),
                forall|s: usize|
                    #![trigger states_a@[s]]
                    s < n && states_a@.contains_key(s) ==> states_a@[s] == self.least(s as int),
                forall|s: usize|
                    #![trigger states_b@.contains_key(s)]
                    states_b@.contains_key(s) <==> s < state && self.least(s as int) == s,
                forall|s: usize|
                    #![trigger states_b@[s]]
                    states_b@.contains_key(s) ==> states_b@[s] == self.class_count(s as int),
            decreases n - state,
        {
            if map_get(&states_a, &state).is_none() {
                map_insert(&mut states_a, state, state);
                map_insert(&mut states_b, state, c);
                c += 1;
            }
            state += 1;
        }
        let mut new_transition: Vec<FxHashMap<T, usize>> = Vec::new();
        let mut new_accept: Vec<bool> = Vec::new();
        let ghost total = self.class_count(n as int);
        proof {
            assert(self.equiv(0, 0));
            self.lemma_least_unique(0, 0);
            self.lemma_class_count_mono(0, n as int);
        }
        state = 0;
        while state < n
            invariant
                self.wf(),
                self.uniform(),
                obeys_key_model::<T>(),
                n == self.states(),
                state <= n,
                total == self.class_count(n as int),
                new_transition@.len() == self.class_count(state as int),
                new_accept@.len() == self.class_count(state as int),
                forall|s: usize| s < n ==> #[trigger] states_a@.contains_key(s),
                forall|s: usize|
                    #![trigger states_a@[s]]
                    s < n ==> states_a@[s] == self.least(s as int),
                forall|s: usize|
                    #![trigger states_b@.contains_key(s)]
                    states_b@.contains_key(s) <==> s < n && self.least(s as int) == s,
                forall|s: usize|
                    #![trigger states_b@[s]]
                    states_b@.contains_key(s) ==> states_b@[s] == self.class_count(s as int),
                forall|s: int|
                    0 <= s < state && #[trigger] self.least(s) == s ==> {
                        &&& new_accept@[self.class_count(s) as int] == self.accept@[s]
                        &&& new_transition@[self.class_count(s) as int]@ =~= self.delta(s).map_values(
                            |t: usize| self.class_index(t as int) as usize,
                        )
                    },
                forall|k: int, a: T|
                    0 <= k < new_transition@.len() && #[trigger] new_transition@[k]@.contains_key(a)
                        ==> new_transition@[k]@[a] < total,
                forall|k: int, a: T|
                    0 <= k < new_transition@.len() ==> (#[trigger] new_transition@[k]@.contains_key(
                        a,
                    ) <==> self.delta(0).contains_key(a)),
            decreases n - state,
        {
            proof {
                self.lemma_class_count_mono(state as int, n as int);
            }
            if map_get(&states_b, &state).is_some() {
                let entries = map_entries(&self.transition[state]);
                let mut nt: FxHashMap<T, usize> = map_new();
                let mut i: usize = 0;
                while i < entries.len()
                    invariant
                        self.wf(),
                        obeys_key_model::<T>(),
                        n == self.states(),
                        state < n,
                        total == self.class_count(n as int),
                        i <= entries@.len(),
                        forall|k: int|
                            0 <= k < entries@.len() ==> self.delta(state as int).contains_key(
                                #[trigger] entries@[k].0,
                            ) && self.delta(state as int)[entries@[k].0] == entries@[k].1,
                        forall|s: usize| s < n ==> #[trigger] states_a@.contains_key(s),
                        forall|s: usize|
                            #![trigger states_a@[s]]
                            s < n ==> states_a@[s] == self.least(s as int),
                        forall|s: usize|
                            #![trigger states_b@.contains_key(s)]
                            states_b@.contains_key(s) <==> s < n && self.least(s as int) == s,
                        forall|s: usize|
                            #![trigger states_b@[s]]
                            states_b@.contains_key(s) ==> states_b@[s] == self.class_count(s as int),
                        forall|a: T|
                            nt@.contains_key(a) <==> exists|k: int|
                                0 <= k < i && #[trigger] entries@[k].0 == a,
                        forall|a: T|
                            #![trigger nt@[a]]
                            nt@.contains_key(a) ==> nt@[a] == self.class_index(
                                self.delta(state as int)[a] as int,
                            ) && nt@[a] < total,
                    decreases entries@.len() - i,
                {
                    let l = entries[i].0;
                    let r = entries[i].1;
                    proof {
                        assert(self.delta(state as int).contains_key(entries@[i as int].0));
                        self.lemma_least_is_rep(r as int);
                        self.lemma_class_count_mono(self.least(r as int), n as int);
                        assert(states_a@.contains_key(r));
                        assert(states_a@[r] == self.least(r as int));
                        assert(states_b@.contains_key(states_a@[r]));
                    }
                    let rep = map_get(&states_a, &r).unwrap();
                    let target = map_get(&states_b, &rep).unwrap();
                    let ghost before = nt@;
                    map_insert(&mut nt, l, target);
                    proof {
                        assert forall|a: T| nt@.contains_key(a) <==> exists|k: int|
                            0 <= k < i + 1 && #[trigger] entries@[k].0 == a by {
                            if before.contains_key(a) {
                                let k = choose|k: int| 0 <= k < i && #[trigger] entries@[k].0 == a;
                                assert(0 <= k < i + 1 && entries@[k].0 == a);
                            }
                            if a == l {
                                assert(entries@[i as int].0 == a);
                            }
                        }
                    }
                    i += 1;
                }
                proof {
                    let f = |t: usize| self.class_index(t as int) as usize;
                    assert(nt@ =~= self.delta(state as int).map_values(f)) by {
                        assert forall|a: T| nt@.contains_key(a) <==> self.delta(
                            state as int,
                        ).contains_key(a) by {
                            if self.delta(state as int).contains_key(a) {
                                let k = choose|k: int|
                                    0 <= k < entries@.len() && #[trigger] entries@[k].0 == a;
                                assert(nt@.contains_key(a));
                            }
                        }
                    }
                    assert(forall|a: T|
                        (nt@.contains_key(a) <==> #[trigger] self.delta(0).contains_key(a)));
                }
                let ghost old_transition = new_transition@;
                let ghost old_accept = new_accept@;
                new_transition.push(nt);
                new_accept.push(self.accept[state]);
                proof {
                    assert forall|s: int| 0 <= s < state + 1 && #[trigger] self.least(s) == s implies {
                        &&& new_accept@[self.class_count(s) as int] == self.accept@[s]
                        &&& new_transition@[self.class_count(s) as int]@ =~= self.delta(s).map_values(
                            |t: usize| self.class_index(t as int) as usize,
                        )
                    } by {
                        if s < state {
                            self.lemma_class_count_mono(s, state as int);
                            assert(new_transition@[self.class_count(s) as int]
                                == old_transition[self.class_count(s) as int]);
                            assert(new_accept@[self.class_count(s) as int] == old_accept[self.class_count(
                                s,
                            ) as int]);
                        }
                    }
                    assert forall|k: int, a: T|
                        0 <= k < new_transition@.len() && #[trigger] new_transition@[k]@.contains_key(
                            a,
                        ) implies new_transition@[k]@[a] < total by {
                        if k < old_transition.len() {
                            assert(new_transition@[k] == old_transition[k]);
                        }
                    }
                    assert forall|k: int, a: T| 0 <= k < new_transition@.len() implies (
                    #[trigger] new_transition@[k]@.contains_key(a) <==> self.delta(0).contains_key(
                        a,
                    )) by {
                        if k < old_transition.len() {
                            assert(new_transition@[k] == old_transition[k]);
                        }
                    }
                }
            }
            state += 1;
        }
        let alphabet = copy_vec(&self.alphabet);
        let m = DFA { alphabet, transition: new_transition, accept: new_accept };
        proof {
            assert(m.states() == total);
            assert(m.delta(0) == new_transition@[0]@);
            assert forall|s: int, a: T|
                0 <= s < m.states() && #[trigger] m.delta(s).contains_key(a) implies m.delta(s)[a]
                < m.states() by {
                assert(new_transition@[s]@.contains_key(a));
            }
            assert forall|s: int, a: T| 0 <= s < m.states() implies (#[trigger] m.delta(
                s,
            ).contains_key(a) <==> m.delta(0).contains_key(a)) by {
                assert(new_transition@[s]@.contains_key(a) <==> self.delta(0).contains_key(a));
                assert(new_transition@[0]@.contains_key(a) <==> self.delta(0).contains_key(a));
            }
            assert forall|s: int| 0 <= s < self.states() implies {
                &&& m.accept@[#[trigger] self.class_index(s) as int] == self.accept@[s]
                &&& m.delta(self.class_index(s) as int) =~= self.delta(s).map_values(
                    |t: usize| self.class_index(t as int) as usize,
                )
            } by {
                self.lemma_quotient_row(s);
                let r = self.least(s);
                assert(self.least(r) == r);
            }
        }
        m
    }

    /// A state and its representative have the same accept bit, and their
    /// transitions lead to the same classes.
    pub proof fn lemma_quotient_row(&self, s: int)
        requires
            self.wf(),
            self.uniform(),
            0 <= s < self.states(),
        ensures
            0 <= self.least(s) <= s,
            self.least(self.least(s)) == self.least(s),
            self.accept@[self.least(s)] == self.accept@[s],
            self.delta(self.least(s)).map_values(|t: usize| self.class_index(t as int) as usize)
                =~= self.delta(s).map_values(|t: usize| self.class_index(t as int) as usize),
    {
        self.lemma_least_is_rep(s);
        let r = self.least(s);
        assert(self.accepts_from(r, Seq::<T>::empty()) == self.accepts_from(s, Seq::<T>::empty()));
        assert forall|a: T| self.delta(r).contains_key(a) <==> self.delta(s).contains_key(a) by {
            assert(self.delta(r).contains_key(a) <==> self.delta(0).contains_key(a));
            assert(self.delta(s).contains_key(a) <==> self.delta(0).contains_key(a));
        }
        assert forall|a: T| self.delta(s).contains_key(a) implies self.class_index(
            self.delta(r)[a] as int,
        ) == self.class_index(self.delta(s)[a] as int) by {
            self.lemma_equiv_step(r, s, a);
            self.lemma_equiv_same_least(self.delta(r)[a] as int, self.delta(s)[a] as int);
        }
    }

    /// Returns the minimal equivalent DFA: the unreachable states are
    /// dropped, and the states that no word tells apart are merged.
    ///
    /// At least O(n^2) time in the number of states.
    /// Does not canonicalize the resulting DFA: to check equality you must also find an isomorphism.
    pub fn minimize(&self) -> (m: Self)
        requires
            self.wf(),
            self.uniform(),
            obeys_key_model::<T>(),
        ensures
            m.wf(),
            m.uniform(),
            exists|p: DFA<T>| #[trigger] self.pruned_by(&p) && p.wf() && p.uniform() && p.quotient_by(&m),
            m.states() <= self.states(),
            forall|w: Seq<T>| #[trigger] m.accepts(w) == self.accepts(w),
            m.reduced(),
    {
        let p = self.prune();
        let m = p.quotient();
        proof {
            self.lemma_minimize_language(&p, &m);
            self.lemma_minimized_is_reduced(&p, &m);
            p.lemma_class_count_mono(p.states() as int, p.states() as int);
            self.lemma_rank_mono(self.states() as int, self.states() as int);
        }
        m
    }

    /// Pruning and then merging keeps the words that are accepted.
    pub proof fn lemma_minimize_language(&self, p: &DFA<T>, m: &DFA<T>)
        requires
            self.wf(),
            p.wf(),
            p.uniform(),
            self.pruned_by(p),
            p.quotient_by(m),
        ensures
            forall|w: Seq<T>| #[trigger] m.accepts(w) == self.accepts(w),
    {
        assert(self.reach(Seq::<T>::empty()) == Some(0int));
        assert(self.reachable(0));
        assert(p.equiv(0, 0));
        p.lemma_least_unique(0, 0);
        let h1 = |x: int| self.rank(x) as int;
        let g1 = |x: int| 0 <= x < self.states() && self.reachable(x);
        let h2 = |x: int| p.class_index(x) as int;
        let g2 = |x: int| 0 <= x < p.states();
        assert forall|x: int, c: T| g1(x) && #[trigger] self.delta(x).contains_key(c) implies g1(
            self.delta(x)[c] as int,
        ) && p.delta(h1(x))[c] as int == h1(self.delta(x)[c] as int) by {
            self.lemma_reachable_step(x, c);
            self.lemma_rank_mono(self.delta(x)[c] as int, self.states() as int);
            assert(self.states() == self.transition.len());
        }
        assert forall|x: int, c: T| g2(x) && #[trigger] p.delta(x).contains_key(c) implies g2(
            p.delta(x)[c] as int,
        ) && m.delta(h2(x))[c] as int == h2(p.delta(x)[c] as int) by {
            let t = p.delta(x)[c] as int;
            p.lemma_least_is_rep(t);
            p.lemma_class_count_mono(p.least(t), p.states() as int);
            assert(p.states() == p.transition.len());
        }
        assert forall|w: Seq<T>| #[trigger] m.accepts(w) == self.accepts(w) by {
            lemma_hom_language(self, p, h1, g1, 0, w);
            lemma_hom_language(p, m, h2, g2, 0, w);
        }
    }
}


impl<T: Copy + Eq + Hash> DFA<T> {
    /// The state of the minimized automaton that stands for the state `s`,
    /// where `p` is the pruned automaton in between.
    pub open spec fn image(&self, p: &DFA<T>, s: int) -> int {
        p.class_index(self.rank(s) as int) as int
    }

    /// Every index below `rank(k)` is the rank of a reachable state below `k`.
    pub proof fn lemma_rank_onto(&self, k: int, c: int)
        requires
            0 <= c < self.rank(k),
        ensures
            exists|s: int| 0 <= s < k && self.reachable(s) && #[trigger] self.rank(s) == c,
        decreases k,
    {
        if c < self.rank(k - 1) {
            self.lemma_rank_onto(k - 1, c);
            let s = choose|s: int| 0 <= s < k - 1 && self.reachable(s) && #[trigger] self.rank(s) == c;
            assert(0 <= s < k && self.reachable(s) && self.rank(s) == c);
        } else {
            assert(self.rank(k - 1) == c);
        }
    }

    /// Every index below `class_count(k)` is the index of a representative
    /// below `k`.
    pub proof fn lemma_class_onto(&self, k: int, c: int)
        requires
            0 <= c < self.class_count(k),
        ensures
            exists|s: int| 0 <= s < k && self.least(s) == s && #[trigger] self.class_index(s) == c,
        decreases k,
    {
        if c < self.class_count(k - 1) {
            self.lemma_class_onto(k - 1, c);
            let s = choose|s: int|
                0 <= s < k - 1 && self.least(s) == s && #[trigger] self.class_index(s) == c;
            assert(0 <= s < k && self.least(s) == s && self.class_index(s) == c);
        } else {
            assert(self.class_index(k - 1) == c);
        }
    }

    /// What minimization does to a reachable state: its image is a state of
    /// the result with the same accept bit, defined on the same symbols, and
    /// the image of each successor is the successor of the image.
    pub proof fn lemma_minimize_image(&self, p: &DFA<T>, m: &DFA<T>, s: int)
        requires
            self.wf(),
            p.wf(),
            p.uniform(),
            self.pruned_by(p),
            p.quotient_by(m),
            self.reachable(s),
        ensures
            0 <= s < self.states(),
            0 <= self.image(p, s) < m.states(),
            m.accept@[self.image(p, s)] == self.accept@[s],
            forall|a: T|
                #[trigger] m.delta(self.image(p, s)).contains_key(a) <==> self.delta(s).contains_key(
                    a,
                ),
            forall|a: T| #[trigger]
                self.delta(s).contains_key(a) ==> self.reachable(self.delta(s)[a] as int) && m.delta(
                    self.image(p, s),
                )[a] == self.image(p, self.delta(s)[a] as int),
    {
        self.lemma_reachable_is_state(s);
        self.lemma_rank_mono(s, self.states() as int);
        let r = self.rank(s) as int;
        p.lemma_least_is_rep(r);
        p.lemma_class_count_mono(p.least(r), p.states() as int);
        assert(self.states() == self.transition.len());
        assert(p.states() == p.transition.len());
        assert forall|a: T| #[trigger] self.delta(s).contains_key(a) implies self.reachable(
            self.delta(s)[a] as int,
        ) && m.delta(self.image(p, s))[a] == self.image(p, self.delta(s)[a] as int) by {
            self.lemma_reachable_step(s, a);
            let t = self.delta(s)[a] as int;
            self.lemma_rank_mono(t, self.states() as int);
            let rt = self.rank(t) as int;
            p.lemma_least_is_rep(rt);
            p.lemma_class_count_mono(p.least(rt), p.states() as int);
            assert(p.delta(r).contains_key(a));
            assert(p.delta(r)[a] == rt);
        }
    }

    /// The start state is its own image.
    pub proof fn lemma_minimize_start(&self, p: &DFA<T>)
        requires
            self.wf(),
        ensures
            self.reachable(0),
            self.image(p, 0) == 0,
    {
        assert(self.reach(Seq::<T>::empty()) == Some(0int));
        assert(p.equiv(0, 0));
        p.lemma_least_unique(0, 0);
    }

    /// Every state of the minimized automaton is the image of a reachable
    /// state.
    pub proof fn lemma_minimize_onto(&self, p: &DFA<T>, m: &DFA<T>, c: int)
        requires
            self.wf(),
            p.wf(),
            p.uniform(),
            self.pruned_by(p),
            p.quotient_by(m),
            0 <= c < m.states(),
        ensures
            exists|s: int|
                0 <= s < self.states() && #[trigger] self.reachable(s) && self.image(p, s) == c,
    {
        p.lemma_class_onto(p.states() as int, c);
        let r = choose|r: int|
            0 <= r < p.states() && p.least(r) == r && #[trigger] p.class_index(r) == c;
        self.lemma_rank_onto(self.states() as int, r);
        let s = choose|s: int|
            0 <= s < self.states() && self.reachable(s) && #[trigger] self.rank(s) == r;
        assert(self.reachable(s) && self.image(p, s) == c);
    }
}


impl<T: Copy + Eq + Hash> DFA<T> {
    /// Whether the automaton has the shape that `minimize` relies on: a start
    /// state, an accept bit for each state, every transition leading to a
    /// state, and every state defined on the same symbols.
    pub fn is_well_formed(&self) -> (r: bool)
        requires
            obeys_key_model::<T>(),
        ensures
            r == (self.wf() && self.uniform()),
    {
        let n = self.transition.len();
        if n == 0 || self.accept.len() != n {
            return false;
        }
        let first = map_entries(&self.transition[0]);
        let mut s: usize = 0;
        while s < n
            invariant
                obeys_key_model::<T>(),
                n == self.states(),
                n > 0,
                self.accept@.len() == n,
                s <= n,
                forall|k: int|
                    0 <= k < first@.len() ==> self.delta(0).contains_key(#[trigger] first@[k].0),
                forall|a: T|
                    self.delta(0).contains_key(a) ==> exists|k: int|
                        0 <= k < first@.len() && #[trigger] first@[k].0 == a,
                forall|x: int, a: T|
                    0 <= x < s && #[trigger] self.delta(x).contains_key(a) ==> self.delta(x)[a] < n,
                forall|x: int, a: T|
                    0 <= x < s ==> (#[trigger] self.delta(x).contains_key(a) <==> self.delta(
                        0,
                    ).contains_key(a)),
            decreases n - s,
        {
            let entries = map_entries(&self.transition[s]);
            let mut e: usize = 0;
            while e < entries.len()
                invariant
                    obeys_key_model::<T>(),
                    n == self.states(),
                    s < n,
                    e <= entries@.len(),
                    forall|k: int|
                        0 <= k < entries@.len() ==> self.delta(s as int).contains_key(
                            #[trigger] entries@[k].0,
                        ) && self.delta(s as int)[entries@[k].0] == entries@[k].1,
                    forall|k: int|
                        0 <= k < e ==> (#[trigger] entries@[k]).1 < n && self.delta(0).contains_key(
                            entries@[k].0,
                        ),
                decreases entries@.len() - e,
            {
                let sym = entries[e].0;
                proof {
                    assert(self.delta(s as int).contains_key(entries@[e as int].0));
                }
                if entries[e].1 >= n {
                    return false;
                }
                if map_get(&self.transition[0], &sym).is_none() {
                    return false;
                }
                e += 1;
            }
            let mut f: usize = 0;
            while f < first.len()
                invariant
                    obeys_key_model::<T>(),
                    n == self.states(),
                    s < n,
                    f <= first@.len(),
                    forall|k: int|
                        0 <= k < first@.len() ==> self.delta(0).contains_key(#[trigger] first@[k].0),
                    forall|k: int|
                        0 <= k < f ==> self.delta(s as int).contains_key((#[trigger] first@[k]).0),
                decreases first@.len() - f,
            {
                let sym = first[f].0;
                proof {
                    assert(self.delta(0).contains_key(first@[f as int].0));
                }
                if map_get(&self.transition[s], &sym).is_none() {
                    proof {
                        assert(!self.delta(s as int).contains_key(sym));
                        assert(self.delta(0).contains_key(sym));
                    }
                    return false;
                }
                f += 1;
            }
            proof {
                assert forall|a: T| #[trigger]
                    self.delta(s as int).contains_key(a) implies self.delta(s as int)[a] < n
                    && self.delta(0).contains_key(a) by {
                    let k = choose|k: int| 0 <= k < entries@.len() && #[trigger] entries@[k].0 == a;
                    assert(entries@[k].1 < n);
                }
                assert forall|a: T| self.delta(0).contains_key(a) implies #[trigger] self.delta(
                    s as int,
                ).contains_key(a) by {
                    let k = choose|k: int| 0 <= k < first@.len() && #[trigger] first@[k].0 == a;
                    assert(self.delta(s as int).contains_key(first@[k].0));
                }
            }
            s += 1;
        }
        true
    }
}

} // verus!
