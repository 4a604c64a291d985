//! Relabeling the states of a transducer, and the canonical form under
//! relabeling and inversion.

use crate::combi::fact;
use crate::combi::lemma_permutation_is_bijection;
use crate::combi::lemma_permutations_complete;
use crate::combi::perm_at;
use crate::combi::Permutation;
use crate::seqs::lemma_bounded_distinct;
use crate::fx::map_entries;
use crate::fx::map_get;
use crate::fx::map_insert;
use crate::fx::map_new;
use crate::machine::lemma_machine_order;
use crate::machine::machine_order;
use crate::machine::Machine;
use crate::seqs::copy_vec;
use crate::transducer::Transducer;
use rustc_hash::FxHashMap;
use vstd::prelude::*;
use vstd::std_specs::hash::obeys_key_model;

verus! {

/// The row of the state `t` after relabeling, as far as the first `k` states
/// of the machine have been placed: the relabeled successors of each state
/// that the map takes to `t`, state after state.
pub open spec fn gathered(m: Machine, map: Map<usize, usize>, t: int, k: int) -> Seq<usize>
    decreases k,
{
    if k <= 0 {
        Seq::empty()
    } else if map[(k - 1) as usize] == t {
        gathered(m, map, t, k - 1) + seq![
            map[m.transition[k - 1][0]],
            map[m.transition[k - 1][1]],
        ]
    } else {
        gathered(m, map, t, k - 1)
    }
}

/// The flip bit of the state `t` after relabeling, as far as the first `k`
/// states of the machine have been placed: that of the last state that the
/// map takes to `t`, and 0 where there is none.
pub open spec fn last_flip(m: Machine, map: Map<usize, usize>, t: int, k: int) -> u8
    decreases k,
{
    if k <= 0 {
        0
    } else if map[(k - 1) as usize] == t {
        m.flip[k - 1]
    } else {
        last_flip(m, map, t, k - 1)
    }
}

impl Machine {
    /// The map is a function from the states to the states, and states that
    /// it takes to one state have successors that it takes to one state.
    pub open spec fn relabeling(self, map: Map<usize, usize>) -> bool {
        &&& forall|s: usize| #[trigger] map.contains_key(s) <==> s < self.len()
        &&& forall|s: usize| s < self.len() ==> #[trigger] map[s] < self.len()
        &&& forall|i: int, j: int, a: int|
            0 <= i <= j < self.len() && 0 <= a < 2 && map[i as usize] == map[j as usize] ==> map[
            #[trigger] self.transition[i][a]] == map[#[trigger] self.transition[j][a]]
    }

    /// The machine with every state renamed by the map.
    pub open spec fn relabel(self, map: Map<usize, usize>) -> Machine {
        Machine {
            transition: Seq::new(
                self.len(),
                |t: int| gathered(self, map, t, self.len() as int),
            ),
            flip: Seq::new(self.len(), |t: int| last_flip(self, map, t, self.len() as int)),
        }
    }

    /// The map takes different states to different states.
    pub open spec fn one_to_one(self, map: Map<usize, usize>) -> bool {
        forall|i: usize, j: usize|
            i < self.len() && j < self.len() && #[trigger] map[i] == #[trigger] map[j] ==> i == j
    }

    /// Under a map that takes different states to different states, the
    /// states placed so far have their relabeled rows, and the others none.
    pub proof fn lemma_gathered(self, map: Map<usize, usize>, t: int, k: int)
        requires
            self.one_to_one(map),
            0 <= k <= self.len(),
            self.len() <= usize::MAX,
        ensures
            forall|s: usize|
                s < k && #[trigger] map[s] == t ==> gathered(self, map, t, k) == seq![
                    map[self.transition[s as int][0]],
                    map[self.transition[s as int][1]],
                ] && last_flip(self, map, t, k) == self.flip[s as int],
            (forall|s: usize| s < k ==> #[trigger] map[s] != t) ==> gathered(self, map, t, k)
                == Seq::<usize>::empty(),
        decreases k,
    {
        if k > 0 {
            self.lemma_gathered(map, t, k - 1);
            let last = (k - 1) as usize;
            if map[last] == t {
                assert forall|s: usize| s < k - 1 implies #[trigger] map[s] != t by {
                    if map[s] == t {
                        assert(map[s] == map[last]);
                    }
                }
                assert(Seq::<usize>::empty() + seq![
                    map[self.transition[k - 1][0]],
                    map[self.transition[k - 1][1]],
                ] =~= seq![map[self.transition[k - 1][0]], map[self.transition[k - 1][1]]]);
            }
        }
    }

    /// Renaming the states by a one to one relabeling gives a well-formed
    /// machine: the state `map[s]` has the flip bit of `s`, and its
    /// successors are the renamed successors of `s`.
    pub proof fn lemma_relabel_one_to_one(self, map: Map<usize, usize>, s: int)
        requires
            self.wf(),
            self.relabeling(map),
            self.one_to_one(map),
            0 <= s < self.len(),
            self.len() <= usize::MAX,
        ensures
            self.relabel(map).len() == self.len(),
            self.relabel(map).transition[map[s as usize] as int] == seq![
                map[self.transition[s][0]],
                map[self.transition[s][1]],
            ],
            self.relabel(map).flip[map[s as usize] as int] == self.flip[s],
    {
        self.lemma_gathered(map, map[s as usize] as int, self.len() as int);
        let t = map[s as usize];
        assert(gathered(self, map, t as int, self.len() as int) == seq![
            map[self.transition[s][0]],
            map[self.transition[s][1]],
        ]);
    }
}

impl Transducer {
    /// Whether the map is a relabeling of the transducer: a function from
    /// its states to its states under which states with one image have
    /// successors with one image.
    pub fn is_relabeling(&self, map: &FxHashMap<usize, usize>) -> (r: bool)
        requires
            self@.wf(),
        ensures
            r == self@.relabeling(map@),
    {
        let n = self.len();
        let entries = map_entries(map);
        let mut e: usize = 0;
        while e < entries.len()
            invariant
                n == self@.len(),
                e <= entries@.len(),
                forall|i: int| 0 <= i < entries@.len() ==> map@.contains_key(#[trigger] entries@[i].0),
                forall|i: int| 0 <= i < e ==> (#[trigger] entries@[i]).0 < n,
            decreases entries@.len() - e,
        {
            if entries[e].0 >= n {
                proof {
                    assert(map@.contains_key(entries@[e as int].0));
                }
                return false;
            }
            e += 1;
        }
        proof {
            assert forall|s: usize| #[trigger] map@.contains_key(s) implies s < n by {
                let i = choose|i: int| 0 <= i < entries@.len() && #[trigger] entries@[i].0 == s;
                assert(entries@[i].0 < n);
            }
        }
        let mut i: usize = 0;
        while i < n
            invariant
                n == self@.len(),
                i <= n,
                forall|s: usize| #[trigger] map@.contains_key(s) ==> s < n,
                forall|s: usize|
                    #![trigger map@.contains_key(s)]
                    #![trigger map@[s]]
                    s < i ==> map@.contains_key(s) && map@[s] < n,
            decreases n - i,
        {
            match map_get(map, &i) {
                None => {
                    return false;
                },
                Some(v) => {
                    if v >= n {
                        return false;
                    }
                },
            }
            i += 1;
        }
        i = 0;
        while i < n
            invariant
                self@.wf(),
                n == self@.len(),
                i <= n,
                forall|s: usize| #[trigger] map@.contains_key(s) <==> s < n,
                forall|s: usize| s < n ==> #[trigger] map@[s] < n,
                forall|x: int, y: int, a: int|
                    0 <= x <= y < n && x < i && 0 <= a < 2 && map@[x as usize] == map@[y as usize]
                        ==> map@[#[trigger] self@.transition[x][a]] == map@[
                    #[trigger] self@.transition[y][a]],
            decreases n - i,
        {
            let mi = map_get(map, &i).unwrap();
            let mut j: usize = i;
            while j < n
                invariant
                    self@.wf(),
                    n == self@.len(),
                    i < n,
                    i <= j <= n,
                    mi == map@[i],
                    forall|s: usize| #[trigger] map@.contains_key(s) <==> s < n,
                    forall|s: usize| s < n ==> #[trigger] map@[s] < n,
                    forall|x: int, y: int, a: int|
                        0 <= x <= y < n && (x < i || (x == i && y < j)) && 0 <= a < 2 && map@[x as usize]
                            == map@[y as usize] ==> map@[#[trigger] self@.transition[x][a]] == map@[
                        #[trigger] self@.transition[y][a]],
                decreases n - j,
            {
                let mj = map_get(map, &j).unwrap();
                if mi == mj {
                    let mut a: u8 = 0;
                    while a < 2
                        invariant
                            self@.wf(),
                            n == self@.len(),
                            i < n,
                            j < n,
                            i <= j,
                            a <= 2,
                            map@[i] == map@[j],
                            forall|s: usize| #[trigger] map@.contains_key(s) <==> s < n,
                            forall|b: int|
                                0 <= b < a ==> map@[#[trigger] self@.transition[i as int][b]] == map@[
                                self@.transition[j as int][b]],
                        decreases 2 - a,
                    {
                        let x = self.next_state(i, a);
                        let y = self.next_state(j, a);
                        let mx = map_get(map, &x).unwrap();
                        let my = map_get(map, &y).unwrap();
                        if mx != my {
                            proof {
                                assert(map@[self@.transition[i as int][a as int]] != map@[
                                self@.transition[j as int][a as int]]);
                            }
                            return false;
                        }
                        a += 1;
                    }
                }
                j += 1;
            }
            i += 1;
        }
        true
    }

    /// Given a relabeling of its states, create the corresponding
    /// transducer: each state goes where the map takes it, and each
    /// successor likewise. With a permutation this is the graph-isomorphic
    /// transducer.
    ///
    /// Warning: since `0` is the start state by convention, only permutations
    /// mapping `0` to itself are guaranteed to behave identically.
    pub fn relabel(&self, map: FxHashMap<usize, usize>) -> (r: Self)
        requires
            self@.wf(),
            self@.relabeling(map@),
        ensures
            r@ == self@.relabel(map@),
    {
        let n = self.len();
        let mut new_transition: Vec<Vec<usize>> = Vec::new();
        let mut new_flip: Vec<u8> = Vec::new();
        let mut i: usize = 0;
        while i < n
            invariant
                i <= n,
                new_transition@.len() == i,
                new_flip@.len() == i,
                forall|t: int| 0 <= t < i ==> (#[trigger] new_transition@[t])@ == Seq::<usize>::empty(),
                forall|t: int| 0 <= t < i ==> #[trigger] new_flip@[t] == 0,
            decreases n - i,
        {
            new_transition.push(Vec::new());
            new_flip.push(0);
            i += 1;
        }
        let mut state: usize = 0;
        while state < n
            invariant
                self@.wf(),
                self@.relabeling(map@),
                n == self@.len(),
                state <= n,
                new_transition@.len() == n,
                new_flip@.len() == n,
                forall|t: int|
                    0 <= t < n ==> (#[trigger] new_transition@[t])@ == gathered(
                        self@,
                        map@,
                        t,
                        state as int,
                    ),
                forall|t: int|
                    0 <= t < n ==> #[trigger] new_flip@[t] == last_flip(self@, map@, t, state as int),
            decreases n - state,
        {
            let target = map_get(&map, &state).unwrap();
            let s0 = self.next_state(state, 0);
            let s1 = self.next_state(state, 1);
            let m0 = map_get(&map, &s0).unwrap();
            let m1 = map_get(&map, &s1).unwrap();
            let ghost before = new_transition@;
            let ghost flips = new_flip@;
            let mut row = copy_vec(&new_transition[target]);
            row.push(m0);
            row.push(m1);
            new_transition.set(target, row);
            new_flip.set(target, self.flip_of(state));
            proof {
                assert forall|t: int| 0 <= t < n implies (#[trigger] new_transition@[t])@ == gathered(
                    self@,
                    map@,
                    t,
                    state + 1,
                ) by {
                    if t == target {
                        assert(before[t]@ + seq![m0, m1] =~= before[t]@.push(m0).push(m1));
                    } else {
                        assert(new_transition@[t] == before[t]);
                    }
                }
                assert forall|t: int| 0 <= t < n implies #[trigger] new_flip@[t] == last_flip(
                    self@,
                    map@,
                    t,
                    state + 1,
                ) by {
                    if t != target {
                        assert(new_flip@[t] == flips[t]);
                    }
                }
            }
            state += 1;
        }
        let r = Transducer::new(new_transition, new_flip);
        proof {
            assert(r@.transition =~= self@.relabel(map@).transition);
            assert(r@.flip =~= self@.relabel(map@).flip);
        }
        r
    }
}

/// The relabeling that keeps the start state and takes the state `i + 1` to
/// the state `pm[i] + 1`.
pub open spec fn shifted(pm: Seq<usize>) -> Map<usize, usize> {
    Map::new(
        |s: usize| s <= pm.len(),
        |s: usize|
            if s == 0 {
                0usize
            } else {
                (pm[s - 1] + 1) as usize
            },
    )
}

/// `pm` is a permutation of `0..pm.len()`.
pub open spec fn is_permutation(pm: Seq<usize>) -> bool {
    &&& pm.no_duplicates()
    &&& forall|i: int| 0 <= i < pm.len() ==> #[trigger] pm[i] < pm.len()
}

/// Distinct numbers below their count take every value below it.
pub proof fn lemma_permutation_onto(pm: Seq<usize>, t: usize)
    requires
        is_permutation(pm),
        t < pm.len(),
    ensures
        pm.contains(t),
{
    if !pm.contains(t) {
        let r = Seq::new(
            pm.len(),
            |i: int|
                if pm[i] < t {
                    pm[i]
                } else {
                    (pm[i] - 1) as usize
                },
        );
        assert forall|i: int| 0 <= i < r.len() implies r[i] < pm.len() - 1 by {
            assert(pm[i] < pm.len());
            assert(pm.contains(pm[i]));
        }
        assert forall|i: int, j: int| 0 <= i < r.len() && 0 <= j < r.len() && i != j implies r[i]
            != r[j] by {
            assert(pm.contains(pm[i]));
            assert(pm.contains(pm[j]));
            assert(pm[i] != pm[j]);
        }
        lemma_bounded_distinct(r, (pm.len() - 1) as nat);
    }
}

impl Machine {
    /// The machine renamed by the permutation at position `k` of the
    /// permutations of its states other than the start state.
    pub open spec fn candidate(self, k: nat) -> Machine {
        self.relabel(shifted(perm_at((self.len() - 1) as nat, k)))
    }

    /// The number of permutations of the states other than the start state.
    pub open spec fn candidates(self) -> nat {
        fact((self.len() - 1) as nat)
    }

    /// `c` is the canonical form of the machine: the least among the machine
    /// itself, its renamings by the permutations that keep the start state,
    /// and their inverses.
    pub open spec fn is_canonical(self, c: Machine) -> bool {
        &&& c == self || exists|k: nat|
            k < self.candidates() && (c == #[trigger] self.candidate(k) || c == self.candidate(
                k,
            ).inverse())
        &&& machine_order(c, self) <= 0
        &&& forall|k: nat|
            k < self.candidates() ==> machine_order(c, #[trigger] self.candidate(k)) <= 0
                && machine_order(c, self.candidate(k).inverse()) <= 0
    }

    /// The canonical form of the machine.
    pub open spec fn canonical(self) -> Machine {
        choose|c: Machine| self.is_canonical(c)
    }

    /// The canonical form is the only machine that `is_canonical` holds of.
    pub proof fn lemma_canonical_unique(self, c: Machine)
        requires
            self.is_canonical(c),
        ensures
            self.canonical() == c,
    {
        let d = self.canonical();
        assert(self.is_canonical(d));
        assert(machine_order(c, d) <= 0) by {
            if d != self {
                let k = choose|k: nat|
                    k < self.candidates() && (d == #[trigger] self.candidate(k) || d
                        == self.candidate(k).inverse());
                assert(machine_order(c, self.candidate(k)) <= 0);
            }
        }
        assert(machine_order(d, c) <= 0) by {
            if c != self {
                let k = choose|k: nat|
                    k < self.candidates() && (c == #[trigger] self.candidate(k) || c
                        == self.candidate(k).inverse());
                assert(machine_order(d, self.candidate(k)) <= 0);
            }
        }
        lemma_machine_order(c, d, c);
    }

    /// A permutation of the states other than the start state, shifted, is a
    /// one to one relabeling, and the machine that it gives is well formed.
    pub proof fn lemma_shifted(self, pm: Seq<usize>)
        requires
            self.wf(),
            self.len() == pm.len() + 1,
            self.len() <= usize::MAX,
            is_permutation(pm),
        ensures
            self.relabeling(shifted(pm)),
            self.one_to_one(shifted(pm)),
            self.relabel(shifted(pm)).wf(),
            self.relabel(shifted(pm)).inverse().wf(),
    {
        let map = shifted(pm);
        let n = self.len();
        assert forall|i: usize, j: usize|
            i < n && j < n && #[trigger] map[i] == #[trigger] map[j] implies i == j by {
            if i != 0 && j != 0 {
                assert(pm[i - 1] < pm.len());
                assert(pm[j - 1] < pm.len());
            } else if i != 0 {
                assert(pm[i - 1] < pm.len());
            } else if j != 0 {
                assert(pm[j - 1] < pm.len());
            }
        }
        assert forall|s: usize| s < n implies #[trigger] map[s] < n by {
            if s != 0 {
                assert(pm[s - 1] < pm.len());
            }
        }
        assert forall|i: int, j: int, a: int|
            0 <= i <= j < n && 0 <= a < 2 && map[i as usize] == map[j as usize] implies map[
        #[trigger] self.transition[i][a]] == map[#[trigger] self.transition[j][a]] by {
            assert(i as usize == j as usize);
        }
        let r = self.relabel(map);
        assert forall|t: int| 0 <= t < n implies (#[trigger] r.transition[t]).len() == 2
            && r.transition[t][0] < n && r.transition[t][1] < n && r.flip[t] <= 1 by {
            let s: int = if t == 0 {
                0
            } else {
                lemma_permutation_onto(pm, (t - 1) as usize);
                let i = choose|i: int| 0 <= i < pm.len() && pm[i] == (t - 1) as usize;
                i + 1
            };
            assert(map[s as usize] == t);
            self.lemma_relabel_one_to_one(map, s);
            assert(self.transition[s].len() == 2);
            assert(self.transition[s][0] < n);
            assert(self.transition[s][1] < n);
        }
        assert(r.wf()) by {
            assert forall|t: int, a: int| 0 <= t < n && 0 <= a < 2 implies #[trigger] r.transition[t][a]
                < n by {
                assert(r.transition[t].len() == 2);
            }
            assert forall|t: int| 0 <= t < r.flip.len() implies #[trigger] r.flip[t] <= 1 by {
                assert(r.transition[t].len() == 2);
            }
        }
        r.lemma_inverse_wf();
    }

    /// The inverse of a well-formed machine is well formed.
    pub proof fn lemma_inverse_wf(self)
        requires
            self.wf(),
        ensures
            self.inverse().wf(),
            self.inverse().len() == self.len(),
    {
        let v = self.inverse();
        assert forall|s: int| 0 <= s < v.transition.len() implies (#[trigger] v.transition[s]).len()
            == 2 by {
            assert(self.transition[s].len() == 2);
        }
        assert forall|s: int, a: int|
            0 <= s < v.transition.len() && 0 <= a < 2 implies #[trigger] v.transition[s][a]
            < v.transition.len() by {
            assert(self.transition[s].len() == 2);
            assert(self.transition[s][a] < self.len());
            assert(self.transition[s][1 - a] < self.len());
        }
    }
}

impl Transducer {
    /// The relabeling that keeps the start state and takes the state `i + 1`
    /// to the state `pm[i] + 1`.
    fn shifted_map(pm: &Vec<usize>) -> (map: FxHashMap<usize, usize>)
        requires
            is_permutation(pm@),
            pm@.len() < usize::MAX,
        ensures
            map@ == shifted(pm@),
    {
        let mut map: FxHashMap<usize, usize> = map_new();
        map_insert(&mut map, 0, 0);
        let mut i: usize = 0;
        while i < pm.len()
            invariant
                is_permutation(pm@),
                pm@.len() < usize::MAX,
                i <= pm@.len(),
                obeys_key_model::<usize>(),
                forall|s: usize| map@.contains_key(s) <==> s <= i,
                forall|s: usize| s <= i ==> #[trigger] map@[s] == shifted(pm@)[s],
            decreases pm@.len() - i,
        {
            proof {
                assert(pm@[i as int] < pm@.len());
            }
            map_insert(&mut map, i + 1, pm[i] + 1);
            i += 1;
        }
        proof {
            assert(map@ =~= shifted(pm@));
        }
        map
    }

    /// Create a canonical representation of a transducer under graph
    /// isomorphism and inversion: the least among the transducer itself, its
    /// relabelings by the permutations that keep the start state, and the
    /// inverses of these.
    ///
    /// Exponential in the number of states.
    pub fn canonicalize(&self) -> (r: Self)
        requires
            self@.wf(),
            self@.len() > 0,
            self@.candidates() <= usize::MAX,
        ensures
            self@.is_canonical(r@),
            r@ == self@.canonical(),
            r@.wf(),
            r@.len() == self@.len(),
    {
        let n = self.len();
        let mut min = self.copy();
        let mut perms = Permutation::new(n - 1);
        let ghost m = self@;
        proof {
            lemma_machine_order(m, m, m);
        }
        loop
            invariant
                m == self@,
                m.wf(),
                n == m.len(),
                n > 0,
                m.candidates() <= usize::MAX,
                perms.width() == n - 1,
                perms.pos() <= m.candidates(),
                min@.wf(),
                min@.len() == n,
                min@ == m || exists|k: nat|
                    k < perms.pos() && (min@ == #[trigger] m.candidate(k) || min@ == m.candidate(
                        k,
                    ).inverse()),
                machine_order(min@, m) <= 0,
                forall|k: nat|
                    k < perms.pos() ==> machine_order(min@, #[trigger] m.candidate(k)) <= 0
                        && machine_order(min@, m.candidate(k).inverse()) <= 0,
            decreases m.candidates() - perms.pos(),
        {
            let ghost pos = perms.pos();
            let ghost before = min@;
            match perms.next() {
                None => {
                    proof {
                        m.lemma_canonical_unique(min@);
                    }
                    return min;
                },
                Some(pm) => {
                    proof {
                        lemma_permutation_is_bijection((n - 1) as nat, pos);
                        m.lemma_shifted(pm@);
                    }
                    let map = Self::shifted_map(&pm);
                    let cand1 = self.relabel(map);
                    let cand2 = cand1.inverse();
                    let ghost c1 = cand1@;
                    let ghost c2 = cand2@;
                    proof {
                        assert(c1 == m.candidate(pos));
                        assert(c2 == m.candidate(pos).inverse());
                    }
                    if cand1.order(&min) < 0 {
                        min = cand1;
                    }
                    let ghost middle = min@;
                    if cand2.order(&min) < 0 {
                        min = cand2;
                    }
                    proof {
                        lemma_machine_order(c1, before, m);
                        lemma_machine_order(middle, before, m);
                        lemma_machine_order(c2, middle, before);
                        lemma_machine_order(min@, middle, before);
                        lemma_machine_order(min@, before, m);
                        lemma_machine_order(min@, middle, c1);
                        lemma_machine_order(middle, c1, c1);
                        lemma_machine_order(min@, c2, c2);
                        lemma_machine_order(min@, middle, middle);
                        assert(machine_order(min@, before) <= 0);
                        assert(machine_order(min@, c1) <= 0);
                        assert(machine_order(min@, c2) <= 0);
                        assert forall|k: nat| k < pos + 1 implies machine_order(
                            min@,
                            #[trigger] m.candidate(k),
                        ) <= 0 && machine_order(min@, m.candidate(k).inverse()) <= 0 by {
                            if k < pos {
                                lemma_machine_order(min@, before, m.candidate(k));
                                lemma_machine_order(min@, before, m.candidate(k).inverse());
                            }
                        }
                        if min@ != m {
                            if min@ == c1 || min@ == c2 {
                                assert(pos < perms.pos() && (min@ == m.candidate(pos) || min@
                                    == m.candidate(pos).inverse()));
                            } else {
                                assert(min@ == before);
                                let k = choose|k: nat|
                                    k < pos && (before == #[trigger] m.candidate(k) || before
                                        == m.candidate(k).inverse());
                                assert(k < perms.pos() && (min@ == m.candidate(k) || min@
                                    == m.candidate(k).inverse()));
                            }
                        }
                    }
                },
            }
        }
    }
}


/// The map that does first what `first` does and then what `second` does,
/// on the states below `n`.
pub open spec fn composed(n: nat, first: Map<usize, usize>, second: Map<usize, usize>) -> Map<
    usize,
    usize,
> {
    Map::new(|s: usize| s < n, |s: usize| second[first[s]])
}

/// The map that keeps every state below `n`.
pub open spec fn identity(n: nat) -> Map<usize, usize> {
    Map::new(|s: usize| s < n, |s: usize| s)
}

/// The map that undoes `map` on the states below `n`.
pub open spec fn undoing(n: nat, map: Map<usize, usize>) -> Map<usize, usize> {
    Map::new(|t: usize| t < n, |t: usize| choose|s: usize| s < n && map[s] == t)
}

impl Machine {
    /// The map renames the states one to one.
    pub open spec fn renaming(self, map: Map<usize, usize>) -> bool {
        &&& forall|s: usize| #[trigger] map.contains_key(s) <==> s < self.len()
        &&& forall|s: usize| s < self.len() ==> #[trigger] map[s] < self.len()
        &&& self.one_to_one(map)
    }

    /// A renaming is a relabeling, and takes some state to each state.
    pub proof fn lemma_renaming(self, map: Map<usize, usize>, t: usize)
        requires
            self.renaming(map),
            self.len() <= usize::MAX,
            t < self.len(),
        ensures
            self.relabeling(map),
            exists|s: usize| s < self.len() && #[trigger] map[s] == t,
    {
        let n = self.len();
        assert forall|i: int, j: int, a: int|
            0 <= i <= j < n && 0 <= a < 2 && map[i as usize] == map[j as usize] implies map[
        #[trigger] self.transition[i][a]] == map[#[trigger] self.transition[j][a]] by {
            assert(i as usize == j as usize);
        }
        let pm = Seq::new(n, |i: int| map[i as usize]);
        assert(is_permutation(pm)) by {
            assert forall|i: int, j: int| 0 <= i < pm.len() && 0 <= j < pm.len() && i != j implies pm[i]
                != pm[j] by {
                if map[i as usize] == map[j as usize] {
                    assert(i as usize == j as usize);
                }
            }
        }
        lemma_permutation_onto(pm, t);
        let i = choose|i: int| 0 <= i < pm.len() && pm[i] == t;
        assert(map[i as usize] == t);
    }

    /// Renaming the states of a well-formed machine gives a well-formed
    /// machine.
    pub proof fn lemma_renamed_wf(self, map: Map<usize, usize>)
        requires
            self.wf(),
            self.renaming(map),
            self.len() <= usize::MAX,
        ensures
            self.relabel(map).wf(),
            self.relabel(map).len() == self.len(),
    {
        let n = self.len();
        let r = self.relabel(map);
        assert forall|t: int| 0 <= t < n implies (#[trigger] r.transition[t]).len() == 2
            && r.transition[t][0] < n && r.transition[t][1] < n && r.flip[t] <= 1 by {
            self.lemma_renaming(map, t as usize);
            let s = choose|s: usize| s < n && #[trigger] map[s] == t as usize;
            self.lemma_relabel_one_to_one(map, s as int);
            assert(self.transition[s as int].len() == 2);
            assert(self.transition[s as int][0] < n);
            assert(self.transition[s as int][1] < n);
            assert(self.flip[s as int] <= 1);
        }
        assert forall|t: int, a: int| 0 <= t < n && 0 <= a < 2 implies #[trigger] r.transition[t][a]
            < n by {
            assert(r.transition[t].len() == 2);
        }
        assert forall|t: int| 0 <= t < r.flip.len() implies #[trigger] r.flip[t] <= 1 by {
            assert(r.transition[t].len() == 2);
        }
    }

    /// Renaming by one map and then by another is renaming by the two
    /// composed.
    pub proof fn lemma_renamed_twice(self, first: Map<usize, usize>, second: Map<usize, usize>)
        requires
            self.wf(),
            self.len() <= usize::MAX,
            self.renaming(first),
            self.renaming(second),
        ensures
            self.renaming(composed(self.len(), first, second)),
            self.relabel(first).relabel(second) == self.relabel(composed(self.len(), first, second)),
    {
        let n = self.len();
        let both = composed(n, first, second);
        let mid = self.relabel(first);
        self.lemma_renamed_wf(first);
        assert(self.renaming(both)) by {
            assert forall|i: usize, j: usize|
                i < n && j < n && #[trigger] both[i] == #[trigger] both[j] implies i == j by {
                assert(second[first[i]] == second[first[j]]);
                assert(first[i] == first[j]);
            }
        }
        assert(mid.renaming(second));
        let a = mid.relabel(second);
        let b = self.relabel(both);
        assert forall|t: int| 0 <= t < n implies a.transition[t] == b.transition[t] && a.flip[t]
            == b.flip[t] by {
            self.lemma_renaming(both, t as usize);
            let s = choose|s: usize| s < n && #[trigger] both[s] == t as usize;
            self.lemma_relabel_one_to_one(both, s as int);
            self.lemma_relabel_one_to_one(first, s as int);
            mid.lemma_renaming(second, t as usize);
            mid.lemma_relabel_one_to_one(second, first[s] as int);
            assert(self.transition[s as int].len() == 2);
            assert(self.transition[s as int][0] < n);
            assert(self.transition[s as int][1] < n);
        }
        assert(a.transition =~= b.transition);
        assert(a.flip =~= b.flip);
    }

    /// Renaming by the map that keeps every state gives the machine.
    pub proof fn lemma_renamed_by_identity(self)
        requires
            self.wf(),
            self.len() <= usize::MAX,
        ensures
            self.relabel(identity(self.len())) == self,
    {
        let n = self.len();
        let id = identity(n);
        let r = self.relabel(id);
        assert forall|t: int| 0 <= t < n implies r.transition[t] =~= self.transition[t] && r.flip[t]
            == self.flip[t] by {
            assert(id[t as usize] == t as usize);
            self.lemma_relabel_one_to_one(id, t);
            assert(self.transition[t].len() == 2);
            assert(self.transition[t][0] < n);
            assert(self.transition[t][1] < n);
        }
        assert(r.transition =~= self.transition);
        assert(r.flip =~= self.flip);
    }

    /// The map that undoes a renaming is a renaming, and the two composed
    /// keep every state.
    pub proof fn lemma_undoing(self, map: Map<usize, usize>)
        requires
            self.renaming(map),
            self.len() <= usize::MAX,
        ensures
            self.renaming(undoing(self.len(), map)),
            composed(self.len(), map, undoing(self.len(), map)) == identity(self.len()),
            self.len() > 0 && map[0] == 0 ==> undoing(self.len(), map)[0] == 0,
    {
        let n = self.len();
        let back = undoing(n, map);
        assert forall|t: usize| t < n implies #[trigger] back[t] < n && map[back[t]] == t by {
            self.lemma_renaming(map, t);
        }
        assert forall|i: usize, j: usize|
            i < n && j < n && #[trigger] back[i] == #[trigger] back[j] implies i == j by {
            assert(map[back[i]] == i);
            assert(map[back[j]] == j);
        }
        assert(composed(n, map, back) =~= identity(n)) by {
            assert forall|s: usize| s < n implies back[map[s]] == s by {
                assert(map[back[map[s]]] == map[s]);
            }
        }
        if n > 0 && map[0] == 0 {
            assert(map[back[0]] == 0usize);
        }
    }

    /// Every renaming that keeps the start state is the shifted permutation
    /// at some position of the enumeration.
    pub proof fn lemma_renaming_is_shifted(self, map: Map<usize, usize>) -> (k: nat)
        requires
            self.renaming(map),
            0 < self.len() <= usize::MAX,
            map[0] == 0,
        ensures
            k < self.candidates(),
            shifted(perm_at((self.len() - 1) as nat, k)) == map,
    {
        let n = self.len();
        let pm = Seq::new((n - 1) as nat, |i: int| (map[(i + 1) as usize] - 1) as usize);
        assert forall|i: int| 0 <= i < n - 1 implies #[trigger] pm[i] < n - 1 && map[(i + 1) as usize]
            >= 1 by {
            assert(map[(i + 1) as usize] < n);
            if map[(i + 1) as usize] == 0 {
                assert(map[(i + 1) as usize] == map[0]);
            }
        }
        assert forall|i: int, j: int| 0 <= i < pm.len() && 0 <= j < pm.len() && i != j implies pm[i]
            != pm[j] by {
            assert(pm[i] < n - 1 && map[(i + 1) as usize] >= 1);
            assert(pm[j] < n - 1 && map[(j + 1) as usize] >= 1);
            if pm[i] == pm[j] {
                assert(map[(i + 1) as usize] == map[(j + 1) as usize]);
            }
        }
        let k = lemma_permutations_complete((n - 1) as nat, pm);
        assert(shifted(pm) =~= map) by {
            assert forall|s: usize| s < n implies #[trigger] shifted(pm)[s] == map[s] by {
                if s > 0 {
                    assert(pm[s - 1] < n - 1 && map[((s - 1) + 1) as usize] >= 1);
                }
            }
        }
        k
    }

    /// `c` is one of the machines among which the canonical form is chosen.
    pub open spec fn is_candidate(self, c: Machine) -> bool {
        c == self || exists|k: nat|
            k < self.candidates() && (c == #[trigger] self.candidate(k) || c == self.candidate(
                k,
            ).inverse())
    }

    /// The canonical form is the least of the candidates.
    pub proof fn lemma_canonical_is_least(self, c: Machine)
        ensures
            self.is_canonical(c) <==> self.is_candidate(c) && forall|d: Machine| #[trigger]
                self.is_candidate(d) ==> machine_order(c, d) <= 0,
    {
        if self.is_canonical(c) {
            assert forall|d: Machine| #[trigger] self.is_candidate(d) implies machine_order(c, d)
                <= 0 by {
                if d != self {
                    let k = choose|k: nat|
                        k < self.candidates() && (d == #[trigger] self.candidate(k) || d
                            == self.candidate(k).inverse());
                    assert(machine_order(c, self.candidate(k)) <= 0);
                }
            }
        }
        if self.is_candidate(c) && forall|d: Machine| #[trigger]
            self.is_candidate(d) ==> machine_order(c, d) <= 0 {
            assert(self.is_candidate(self));
            assert forall|k: nat| k < self.candidates() implies machine_order(
                c,
                #[trigger] self.candidate(k),
            ) <= 0 && machine_order(c, self.candidate(k).inverse()) <= 0 by {
                assert(self.is_candidate(self.candidate(k)));
                assert(self.is_candidate(self.candidate(k).inverse()));
            }
        }
    }

    /// The least of the machine and its first `k` renamings and their
    /// inverses.
    pub open spec fn least_upto(self, k: nat) -> Machine
        decreases k,
    {
        if k == 0 {
            self
        } else {
            let a = self.least_upto((k - 1) as nat);
            let b = self.candidate((k - 1) as nat);
            let c = if machine_order(b, a) < 0 {
                b
            } else {
                a
            };
            if machine_order(b.inverse(), c) < 0 {
                b.inverse()
            } else {
                c
            }
        }
    }

    /// `least_upto` is among, and before, what it is chosen from.
    pub proof fn lemma_least_upto(self, k: nat)
        requires
            k <= self.candidates(),
        ensures
            self.is_candidate(self.least_upto(k)),
            machine_order(self.least_upto(k), self) <= 0,
            forall|j: nat|
                j < k ==> machine_order(self.least_upto(k), #[trigger] self.candidate(j)) <= 0
                    && machine_order(self.least_upto(k), self.candidate(j).inverse()) <= 0,
        decreases k,
    {
        if k == 0 {
            lemma_machine_order(self, self, self);
        } else {
            self.lemma_least_upto((k - 1) as nat);
            let a = self.least_upto((k - 1) as nat);
            let b = self.candidate((k - 1) as nat);
            let c = if machine_order(b, a) < 0 { b } else { a };
            let r = self.least_upto(k);
            lemma_machine_order(b, a, self);
            lemma_machine_order(c, a, self);
            lemma_machine_order(b.inverse(), c, a);
            lemma_machine_order(r, c, a);
            lemma_machine_order(r, a, self);
            lemma_machine_order(c, b, b);
            lemma_machine_order(r, c, b);
            lemma_machine_order(r, b.inverse(), b.inverse());
            lemma_machine_order(r, c, c);
            assert(machine_order(r, a) <= 0);
            assert(machine_order(r, b) <= 0);
            assert(machine_order(r, b.inverse()) <= 0);
            assert forall|j: nat| j < k implies machine_order(r, #[trigger] self.candidate(j)) <= 0
                && machine_order(r, self.candidate(j).inverse()) <= 0 by {
                if j < k - 1 {
                    lemma_machine_order(r, a, self.candidate(j));
                    lemma_machine_order(r, a, self.candidate(j).inverse());
                }
            }
            if r != self {
                if r == b || r == b.inverse() {
                    let j = (k - 1) as nat;
                    assert(j < self.candidates() && (r == self.candidate(j) || r == self.candidate(
                        j,
                    ).inverse()));
                } else {
                    assert(r == a);
                }
            }
        }
    }

    /// Every machine has a canonical form.
    pub proof fn lemma_canonical_exists(self)
        ensures
            self.is_canonical(self.canonical()),
    {
        self.lemma_least_upto(self.candidates());
        let c = self.least_upto(self.candidates());
        if c != self {
            let k = choose|k: nat|
                k < self.candidates() && (c == #[trigger] self.candidate(k) || c == self.candidate(
                    k,
                ).inverse());
        }
        assert(self.is_canonical(c));
    }

    /// Every candidate of a machine renamed is a candidate of the machine,
    /// where the renaming keeps the start state.
    pub proof fn lemma_candidate_of_renamed(self, map: Map<usize, usize>, c: Machine)
        requires
            self.wf(),
            0 < self.len() <= usize::MAX,
            self.renaming(map),
            map[0] == 0,
            self.relabel(map).is_candidate(c),
        ensures
            self.is_candidate(c),
    {
        let n = self.len();
        let r = self.relabel(map);
        self.lemma_renamed_wf(map);
        let k0 = self.lemma_renaming_is_shifted(map);
        assert(r == self.candidate(k0));
        if c != r {
            let k = choose|k: nat|
                k < r.candidates() && (c == #[trigger] r.candidate(k) || c == r.candidate(
                    k,
                ).inverse());
            let pm = perm_at((n - 1) as nat, k);
            lemma_permutation_is_bijection((n - 1) as nat, k);
            self.lemma_shifted(pm);
            let second = shifted(pm);
            assert(self.renaming(second)) by {
                assert forall|s: usize| s < n implies #[trigger] second[s] < n by {
                    if s > 0 {
                        assert(pm[s - 1] < n - 1);
                    }
                }
            }
            self.lemma_renamed_twice(map, second);
            let both = composed(n, map, second);
            let k2 = self.lemma_renaming_is_shifted(both);
            assert(r.candidate(k) == self.candidate(k2));
            assert(k2 < self.candidates() && (c == self.candidate(k2) || c == self.candidate(
                k2,
            ).inverse()));
        }
    }

    /// The canonical form does not change where the states are renamed by a
    /// map that keeps the start state.
    pub proof fn lemma_canonical_of_renamed(self, map: Map<usize, usize>)
        requires
            self.wf(),
            0 < self.len() <= usize::MAX,
            self.renaming(map),
            map[0] == 0,
        ensures
            self.relabel(map).canonical() == self.canonical(),
    {
        let n = self.len();
        let r = self.relabel(map);
        let c = self.canonical();
        self.lemma_canonical_exists();
        self.lemma_canonical_is_least(c);
        self.lemma_renamed_wf(map);
        self.lemma_undoing(map);
        let back = undoing(n, map);
        self.lemma_renamed_twice(map, back);
        self.lemma_renamed_by_identity();
        assert(r.relabel(back) == self);
        assert(r.renaming(back));
        r.lemma_candidate_of_renamed(back, c);
        assert forall|d: Machine| #[trigger] r.is_candidate(d) implies machine_order(c, d) <= 0 by {
            self.lemma_candidate_of_renamed(map, d);
        }
        r.lemma_canonical_is_least(c);
        r.lemma_canonical_unique(c);
    }
}

} // verus!
