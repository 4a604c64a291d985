//! Reduced automata: those that minimization leaves as they are.

use crate::dfa::lemma_hom_language;
use crate::dfa::DFA;
use std::hash::Hash;
use vstd::prelude::*;

verus! {

/// The two automata have the same states, accept bits and transitions.
pub open spec fn same_tables<T: Copy + Eq + Hash>(a: &DFA<T>, b: &DFA<T>) -> bool {
    &&& a.states() == b.states()
    &&& a.accept@ == b.accept@
    &&& forall|s: int| 0 <= s < a.states() ==> #[trigger] a.delta(s) == b.delta(s)
}

/// A map between the states of two automata that keeps the start state and
/// the transitions takes the state that a word reaches to the state that
/// the word reaches.
pub proof fn lemma_hom_reach<T: Copy + Eq + Hash>(
    a: &DFA<T>,
    b: &DFA<T>,
    h: spec_fn(int) -> int,
    good: spec_fn(int) -> bool,
    w: Seq<T>,
)
    requires
        good(0),
        h(0) == 0,
        forall|x: int, c: T|
            good(x) ==> (#[trigger] b.delta(h(x)).contains_key(c) <==> a.delta(x).contains_key(c)),
        forall|x: int, c: T|
            good(x) && #[trigger] a.delta(x).contains_key(c) ==> good(a.delta(x)[c] as int)
                && b.delta(h(x))[c] as int == h(a.delta(x)[c] as int),
        a.reach(w) is Some,
    ensures
        good(a.reach(w)->0),
        b.reach(w) == Some(h(a.reach(w)->0)),
    decreases w.len(),
{
    if w.len() > 0 {
        lemma_hom_reach(a, b, h, good, w.drop_last());
        let s = a.reach(w.drop_last())->0;
        assert(a.delta(s).contains_key(w.last()));
        assert(b.delta(h(s)).contains_key(w.last()));
    }
}

impl<T: Copy + Eq + Hash> DFA<T> {
    /// Every state is reachable, and some word tells each two states apart.
    pub open spec fn reduced(&self) -> bool {
        &&& forall|s: int| 0 <= s < self.states() ==> #[trigger] self.reachable(s)
        &&& forall|s: int, t: int|
            0 <= s < self.states() && 0 <= t < self.states() && s != t ==> !#[trigger] self.equiv(
                s,
                t,
            )
    }

    /// Automata with the same tables accept the same words from the same
    /// states.
    pub proof fn lemma_same_accepts(&self, b: &DFA<T>, s: int, w: Seq<T>)
        requires
            self.wf(),
            same_tables(self, b),
            0 <= s < self.states(),
        ensures
            self.accepts_from(s, w) == b.accepts_from(s, w),
        decreases w.len(),
    {
        if w.len() > 0 {
            assert(self.delta(s) == b.delta(s));
            if self.delta(s).contains_key(w[0]) {
                self.lemma_same_accepts(b, self.delta(s)[w[0]] as int, w.drop_first());
            }
        }
    }

    /// Automata with the same tables reach the same states.
    pub proof fn lemma_same_reach(&self, b: &DFA<T>, w: Seq<T>)
        requires
            self.wf(),
            same_tables(self, b),
        ensures
            self.reach(w) == b.reach(w),
        decreases w.len(),
    {
        if w.len() > 0 {
            self.lemma_same_reach(b, w.drop_last());
            if self.reach(w.drop_last()) is Some {
                self.lemma_reach_is_state(w.drop_last());
                let s = self.reach(w.drop_last())->0;
                assert(self.delta(s) == b.delta(s));
            }
        }
    }

    /// An automaton with the tables of a reduced automaton is reduced.
    pub proof fn lemma_same_reduced(&self, b: &DFA<T>)
        requires
            self.wf(),
            same_tables(self, b),
            self.reduced(),
        ensures
            b.reduced(),
            b.wf(),
    {
        assert forall|s: int, a: T| 0 <= s < b.states() && #[trigger] b.delta(s).contains_key(a) implies b.delta(
            s,
        )[a] < b.states() by {
            assert(self.delta(s) == b.delta(s));
            assert(self.delta(s).contains_key(a));
        }
        assert forall|s: int| 0 <= s < b.states() implies #[trigger] b.reachable(s) by {
            assert(self.reachable(s));
            let w = choose|w: Seq<T>| #[trigger] self.reach(w) == Some(s);
            self.lemma_same_reach(b, w);
        }
        assert forall|s: int, t: int|
            0 <= s < b.states() && 0 <= t < b.states() && s != t implies !#[trigger] b.equiv(s, t) by {
            assert(!self.equiv(s, t));
            let w = choose|w: Seq<T>| #[trigger] self.accepts_from(s, w) != self.accepts_from(t, w);
            self.lemma_same_accepts(b, s, w);
            self.lemma_same_accepts(b, t, w);
        }
    }

    /// In an automaton whose states are all reachable, the rank of a state
    /// is the state.
    pub proof fn lemma_rank_of_reduced(&self, k: int)
        requires
            forall|s: int| 0 <= s < self.states() ==> #[trigger] self.reachable(s),
            0 <= k <= self.states(),
        ensures
            self.rank(k) == k,
        decreases k,
    {
        if k > 0 {
            self.lemma_rank_of_reduced(k - 1);
            assert(self.reachable(k - 1));
        }
    }

    /// In an automaton whose states are told apart, each state is its own
    /// representative, and its index is the state.
    pub proof fn lemma_classes_of_reduced(&self, k: int)
        requires
            forall|s: int, t: int|
                0 <= s < self.states() && 0 <= t < self.states() && s != t ==> !#[trigger] self.equiv(
                    s,
                    t,
                ),
            0 <= k <= self.states(),
        ensures
            self.class_count(k) == k,
            k < self.states() ==> self.least(k) == k && self.class_index(k) == k,
        decreases k,
    {
        if k > 0 {
            self.lemma_classes_of_reduced(k - 1);
        }
        if k < self.states() {
            self.lemma_first_equiv(k, 0);
            if self.least(k) != k {
                assert(self.equiv(self.least(k), k));
            }
        }
    }

    /// Pruning a reduced automaton gives an automaton with the same tables.
    pub proof fn lemma_pruned_of_reduced(&self, p: &DFA<T>)
        requires
            self.wf(),
            self.reduced(),
            self.pruned_by(p),
        ensures
            same_tables(self, p),
    {
        let n = self.states() as int;
        self.lemma_rank_of_reduced(n);
        assert(self.states() == self.transition.len());
        assert forall|s: int| 0 <= s < n implies #[trigger] self.delta(s) == p.delta(s)
            && self.accept@[s] == p.accept@[s] by {
            self.lemma_rank_of_reduced(s);
            assert(self.reachable(s));
            let f = |t: usize| self.rank(t as int) as usize;
            assert(self.delta(s).map_values(f) =~= self.delta(s)) by {
                assert forall|a: T| self.delta(s).contains_key(a) implies f(self.delta(s)[a])
                    == self.delta(s)[a] by {
                    self.lemma_rank_of_reduced(self.delta(s)[a] as int);
                }
            }
        }
        assert(p.states() == n);
        assert forall|s: int| 0 <= s < n implies self.accept@[s] == p.accept@[s] by {
            self.lemma_rank_of_reduced(s);
            assert(self.reachable(s));
            assert(p.accept@[self.rank(s) as int] == self.accept@[s]);
        }
        assert(self.accept@ =~= p.accept@);
    }

    /// Merging the states of a reduced automaton gives an automaton with the
    /// same tables.
    pub proof fn lemma_quotient_of_reduced(&self, m: &DFA<T>)
        requires
            self.wf(),
            self.reduced(),
            self.quotient_by(m),
        ensures
            same_tables(self, m),
    {
        let n = self.states() as int;
        self.lemma_classes_of_reduced(n);
        assert(self.states() == self.transition.len());
        assert forall|s: int| 0 <= s < n implies #[trigger] self.delta(s) == m.delta(s)
            && self.accept@[s] == m.accept@[s] by {
            self.lemma_classes_of_reduced(s);
            assert(self.class_index(s) == s);
            let f = |t: usize| self.class_index(t as int) as usize;
            assert(self.delta(s).map_values(f) =~= self.delta(s)) by {
                assert forall|a: T| self.delta(s).contains_key(a) implies f(self.delta(s)[a])
                    == self.delta(s)[a] by {
                    self.lemma_classes_of_reduced(self.delta(s)[a] as int);
                }
            }
        }
        assert(m.states() == n);
        assert forall|s: int| 0 <= s < n implies self.accept@[s] == m.accept@[s] by {
            self.lemma_classes_of_reduced(s);
            assert(self.class_index(s) == s);
            assert(m.accept@[self.class_index(s) as int] == self.accept@[s]);
        }
        assert(self.accept@ =~= m.accept@);
    }

    /// The minimized automaton is reduced.
    pub proof fn lemma_minimized_is_reduced(&self, p: &DFA<T>, m: &DFA<T>)
        requires
            self.wf(),
            p.wf(),
            p.uniform(),
            self.pruned_by(p),
            p.quotient_by(m),
        ensures
            m.reduced(),
    {
        self.lemma_minimize_start(p);
        let h = |x: int| self.image(p, x);
        let good = |x: int| self.reachable(x);
        assert forall|x: int, c: T| good(x) implies (#[trigger] m.delta(h(x)).contains_key(c)
            <==> self.delta(x).contains_key(c)) by {
            self.lemma_minimize_image(p, m, x);
        }
        assert forall|x: int, c: T| good(x) && #[trigger] self.delta(x).contains_key(c) implies good(
            self.delta(x)[c] as int,
        ) && m.delta(h(x))[c] as int == h(self.delta(x)[c] as int) by {
            self.lemma_minimize_image(p, m, x);
        }
        assert forall|c: int| 0 <= c < m.states() implies #[trigger] m.reachable(c) by {
            self.lemma_minimize_onto(p, m, c);
            let s = choose|s: int|
                0 <= s < self.states() && #[trigger] self.reachable(s) && self.image(p, s) == c;
            let w = choose|w: Seq<T>| #[trigger] self.reach(w) == Some(s);
            lemma_hom_reach(self, m, h, good, w);
        }
        let h2 = |x: int| p.class_index(x) as int;
        let g2 = |x: int| 0 <= x < p.states();
        assert forall|x: int| #[trigger] g2(x) implies m.accept@[h2(x)] == p.accept@[x] by {}
        assert forall|x: int, c: T| g2(x) implies (#[trigger] m.delta(h2(x)).contains_key(c)
            <==> p.delta(x).contains_key(c)) by {}
        assert forall|x: int, c: T| g2(x) && #[trigger] p.delta(x).contains_key(c) implies g2(
            p.delta(x)[c] as int,
        ) && m.delta(h2(x))[c] as int == h2(p.delta(x)[c] as int) by {
            let t = p.delta(x)[c] as int;
            p.lemma_least_is_rep(t);
            p.lemma_class_count_mono(p.least(t), p.states() as int);
            assert(p.states() == p.transition.len());
        }
        assert forall|c1: int, c2: int|
            0 <= c1 < m.states() && 0 <= c2 < m.states() && c1 != c2 implies !#[trigger] m.equiv(
            c1,
            c2,
        ) by {
            p.lemma_class_onto(p.states() as int, c1);
            p.lemma_class_onto(p.states() as int, c2);
            let r1 = choose|r: int|
                0 <= r < p.states() && p.least(r) == r && #[trigger] p.class_index(r) == c1;
            let r2 = choose|r: int|
                0 <= r < p.states() && p.least(r) == r && #[trigger] p.class_index(r) == c2;
            if p.equiv(r1, r2) {
                p.lemma_equiv_same_least(r1, r2);
            }
            let w = choose|w: Seq<T>| #[trigger] p.accepts_from(r1, w) != p.accepts_from(r2, w);
            lemma_hom_language(p, m, h2, g2, r1, w);
            lemma_hom_language(p, m, h2, g2, r2, w);
        }
    }
}


impl<T: Copy + Eq + Hash> DFA<T> {
    /// Automata with the same tables have the same reachable states, and
    /// give them the same ranks.
    pub proof fn lemma_same_rank(&self, b: &DFA<T>, k: int)
        requires
            self.wf(),
            same_tables(self, b),
        ensures
            forall|s: int| #[trigger] self.reachable(s) <==> b.reachable(s),
            self.rank(k) == b.rank(k),
        decreases k,
    {
        assert forall|s: int| #[trigger] self.reachable(s) <==> b.reachable(s) by {
            if self.reachable(s) {
                let w = choose|w: Seq<T>| #[trigger] self.reach(w) == Some(s);
                self.lemma_same_reach(b, w);
            }
            if b.reachable(s) {
                let w = choose|w: Seq<T>| #[trigger] b.reach(w) == Some(s);
                self.lemma_same_reach(b, w);
            }
        }
        if k > 0 {
            self.lemma_same_rank(b, k - 1);
        }
    }

    /// Automata with the same tables tell the same states apart.
    pub proof fn lemma_same_equiv(&self, b: &DFA<T>, s: int, t: int)
        requires
            self.wf(),
            same_tables(self, b),
            0 <= s < self.states(),
            0 <= t < self.states(),
        ensures
            self.equiv(s, t) <==> b.equiv(s, t),
    {
        if self.equiv(s, t) {
            assert forall|w: Seq<T>| #[trigger] b.accepts_from(s, w) == b.accepts_from(t, w) by {
                self.lemma_same_accepts(b, s, w);
                self.lemma_same_accepts(b, t, w);
                assert(self.accepts_from(s, w) == self.accepts_from(t, w));
            }
        }
        if b.equiv(s, t) {
            assert forall|w: Seq<T>| #[trigger] self.accepts_from(s, w) == self.accepts_from(t, w) by {
                self.lemma_same_accepts(b, s, w);
                self.lemma_same_accepts(b, t, w);
                assert(b.accepts_from(s, w) == b.accepts_from(t, w));
            }
        }
    }

    /// Automata with the same tables give the same representatives.
    pub proof fn lemma_same_first_equiv(&self, b: &DFA<T>, s: int, k: int)
        requires
            self.wf(),
            same_tables(self, b),
            0 <= k,
            0 <= s < self.states(),
        ensures
            self.first_equiv(s, k) == b.first_equiv(s, k),
        decreases s - k,
    {
        if k < s {
            self.lemma_same_equiv(b, k, s);
            if !self.equiv(k, s) {
                self.lemma_same_first_equiv(b, s, k + 1);
            }
        }
    }

    /// Automata with the same tables count the same classes.
    pub proof fn lemma_same_class_count(&self, b: &DFA<T>, k: int)
        requires
            self.wf(),
            same_tables(self, b),
            0 <= k <= self.states(),
        ensures
            self.class_count(k) == b.class_count(k),
        decreases k,
    {
        if k > 0 {
            self.lemma_same_class_count(b, k - 1);
            self.lemma_same_first_equiv(b, k - 1, 0);
        }
    }

    /// Automata with the same tables give each state the same class index.
    pub proof fn lemma_same_class_index(&self, b: &DFA<T>, s: int)
        requires
            self.wf(),
            same_tables(self, b),
            0 <= s < self.states(),
        ensures
            self.class_index(s) == b.class_index(s),
    {
        self.lemma_same_first_equiv(b, s, 0);
        self.lemma_first_equiv(s, 0);
        self.lemma_same_class_count(b, self.least(s));
    }

    /// Pruning automata with the same tables gives automata with the same
    /// tables.
    pub proof fn lemma_same_pruned(&self, b: &DFA<T>, pa: &DFA<T>, pb: &DFA<T>)
        requires
            self.wf(),
            same_tables(self, b),
            self.pruned_by(pa),
            b.pruned_by(pb),
        ensures
            same_tables(pa, pb),
    {
        let n = self.states() as int;
        self.lemma_same_rank(b, n);
        assert forall|c: int| 0 <= c < pa.states() implies #[trigger] pa.delta(c) == pb.delta(c)
            && pa.accept@[c] == pb.accept@[c] by {
            self.lemma_rank_onto(n, c);
            let s = choose|s: int| 0 <= s < n && self.reachable(s) && #[trigger] self.rank(s) == c;
            self.lemma_same_rank(b, s);
            assert(b.reachable(s));
            assert(self.delta(s) == b.delta(s));
            let f = |t: usize| self.rank(t as int) as usize;
            let g = |t: usize| b.rank(t as int) as usize;
            assert(self.delta(s).map_values(f) =~= b.delta(s).map_values(g)) by {
                assert forall|a: T| self.delta(s).contains_key(a) implies f(self.delta(s)[a]) == g(
                    self.delta(s)[a],
                ) by {
                    self.lemma_same_rank(b, self.delta(s)[a] as int);
                }
            }
        }
        assert(pa.states() == pb.states());
        assert forall|c: int| 0 <= c < pa.accept@.len() implies pa.accept@[c] == pb.accept@[c] by {
            self.lemma_rank_onto(n, c);
            let s = choose|s: int| 0 <= s < n && self.reachable(s) && #[trigger] self.rank(s) == c;
            self.lemma_same_rank(b, s);
            assert(b.reachable(s));
            assert(pa.accept@[self.rank(s) as int] == self.accept@[s]);
            assert(pb.accept@[b.rank(s) as int] == b.accept@[s]);
        }
        assert(pa.accept@ =~= pb.accept@);
    }

    /// Merging the states of automata with the same tables gives automata
    /// with the same tables.
    pub proof fn lemma_same_quotient(&self, b: &DFA<T>, ma: &DFA<T>, mb: &DFA<T>)
        requires
            self.wf(),
            same_tables(self, b),
            self.quotient_by(ma),
            b.quotient_by(mb),
        ensures
            same_tables(ma, mb),
    {
        let n = self.states() as int;
        self.lemma_same_class_count(b, n);
        assert(self.states() == self.transition.len());
        assert forall|c: int| 0 <= c < ma.states() implies #[trigger] ma.delta(c) == mb.delta(c)
            && ma.accept@[c] == mb.accept@[c] by {
            self.lemma_class_onto(n, c);
            let s = choose|s: int|
                0 <= s < n && self.least(s) == s && #[trigger] self.class_index(s) == c;
            self.lemma_same_class_index(b, s);
            assert(self.delta(s) == b.delta(s));
            let f = |t: usize| self.class_index(t as int) as usize;
            let g = |t: usize| b.class_index(t as int) as usize;
            assert(self.delta(s).map_values(f) =~= b.delta(s).map_values(g)) by {
                assert forall|a: T| self.delta(s).contains_key(a) implies f(self.delta(s)[a]) == g(
                    self.delta(s)[a],
                ) by {
                    self.lemma_same_class_index(b, self.delta(s)[a] as int);
                }
            }
        }
        assert(ma.states() == mb.states());
        assert forall|c: int| 0 <= c < ma.accept@.len() implies ma.accept@[c] == mb.accept@[c] by {
            self.lemma_class_onto(n, c);
            let s = choose|s: int|
                0 <= s < n && self.least(s) == s && #[trigger] self.class_index(s) == c;
            self.lemma_same_class_index(b, s);
            assert(ma.accept@[self.class_index(s) as int] == self.accept@[s]);
            assert(mb.accept@[b.class_index(s) as int] == b.accept@[s]);
        }
        assert(ma.accept@ =~= mb.accept@);
    }
}

} // verus!
