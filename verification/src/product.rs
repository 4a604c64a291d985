//! The product of two transducers, and the residues of a transducer.

use crate::fx::map_insert;
use crate::fx::map_new;
use crate::idempotent::lemma_minimize_idempotent;
use crate::machine::is_word;
use crate::machine::xor;
use crate::machine::Machine;
use crate::orbit::lemma_prefix_is_word;
use crate::minimize::minimizes_to;
use crate::transducer::Transducer;
use rustc_hash::FxHashMap;
use vstd::prelude::*;
use vstd::std_specs::hash::obeys_key_model;

verus! {

impl Machine {
    /// The row of the pair of states `(i, j)` in the product with `other`:
    /// on each input this machine moves on from `i`, and `other` moves on
    /// from `j` on what this machine writes.
    pub open spec fn product_row(self, other: Machine, i: int, j: int) -> Seq<usize> {
        seq![
            (self.transition[i][0] * other.len() + other.transition[j][(0 + self.flip[i]) % 2]) as usize,
            (self.transition[i][1] * other.len() + other.transition[j][(1 + self.flip[i]) % 2]) as usize,
        ]
    }

    /// The synchronous product: the pair of states `(i, j)` is the state
    /// `i * other.len() + j`, and it flips where exactly one of `i` and `j`
    /// flips.
    pub open spec fn product(self, other: Machine) -> Machine {
        Machine {
            transition: Seq::new(
                self.len() * other.len(),
                |x: int| self.product_row(other, x / other.len() as int, x % other.len() as int),
            ),
            flip: Seq::new(
                self.len() * other.len(),
                |x: int|
                    ((self.flip[x / other.len() as int] + other.flip[x % other.len() as int])
                        % 2) as u8,
            ),
        }
    }

    /// The product of well-formed machines is well formed.
    pub proof fn lemma_product_wf(self, other: Machine)
        requires
            self.wf(),
            other.wf(),
            self.len() * other.len() <= usize::MAX,
        ensures
            self.product(other).wf(),
            self.product(other).len() == self.len() * other.len(),
    {
        let p = self.product(other);
        let n1 = self.len() as int;
        let n2 = other.len() as int;
        assert forall|x: int| 0 <= x < p.transition.len() implies (#[trigger] p.transition[x]).len()
            == 2 && p.transition[x][0] < n1 * n2 && p.transition[x][1] < n1 * n2 && p.flip[x]
            <= 1 by {
            assert(n2 > 0) by (nonlinear_arith)
                requires
                    0 <= x < n1 * n2,
                    0 <= n1,
                    0 <= n2,
            ;
            let i = x / n2;
            let j = x % n2;
            vstd::arithmetic::div_mod::lemma_fundamental_div_mod(x, n2);
            vstd::arithmetic::div_mod::lemma_mod_bound(x, n2);
            vstd::arithmetic::div_mod::lemma_div_pos_is_pos(x, n2);
            assert(i < n1) by (nonlinear_arith)
                requires
                    x == n2 * i + j,
                    0 <= j,
                    x < n1 * n2,
                    n2 > 0,
            ;
            assert(self.transition[i].len() == 2);
            assert(other.transition[j].len() == 2);
            assert(self.flip[i] <= 1);
            assert(other.flip[j] <= 1);
            let a0 = self.transition[i][0] as int;
            let a1 = self.transition[i][1] as int;
            let b0 = other.transition[j][(0 + self.flip[i]) % 2] as int;
            let b1 = other.transition[j][(1 + self.flip[i]) % 2] as int;
            assert(a0 < n1 && a1 < n1 && b0 < n2 && b1 < n2);
            assert(a0 * n2 + b0 < n1 * n2 && a1 * n2 + b1 < n1 * n2) by (nonlinear_arith)
                requires
                    0 <= a0 < n1,
                    0 <= a1 < n1,
                    0 <= b0 < n2,
                    0 <= b1 < n2,
            ;
        }
        assert forall|x: int, a: int|
            0 <= x < p.transition.len() && 0 <= a < 2 implies #[trigger] p.transition[x][a]
            < p.transition.len() by {
            assert(p.transition[x].len() == 2);
        }
        assert forall|x: int| 0 <= x < p.flip.len() implies #[trigger] p.flip[x] <= 1 by {
            assert(p.transition[x].len() == 2);
        }
    }

    /// While the product reads a word, it is in the pair of the state in
    /// which this machine is on the word and the state in which `other` is
    /// on what this machine writes.
    pub proof fn lemma_product_end(self, other: Machine, w: Seq<u8>, i: int)
        requires
            self.wf(),
            other.wf(),
            self.len() > 0,
            other.len() > 0,
            self.len() * other.len() <= usize::MAX,
            is_word(w),
            0 <= i <= w.len(),
        ensures
            0 <= self.end(w.take(i)) < self.len(),
            0 <= other.end(self.output(w).take(i)) < other.len(),
            self.product(other).end(w.take(i)) == self.end(w.take(i)) * other.len() + other.end(
                self.output(w).take(i),
            ),
        decreases i,
    {
        let v = self.output(w);
        let n1 = self.len() as int;
        let n2 = other.len() as int;
        self.lemma_output_is_word(0, w);
        lemma_prefix_is_word(w, i);
        lemma_prefix_is_word(v, i);
        self.lemma_end_is_state(0, w.take(i));
        other.lemma_end_is_state(0, v.take(i));
        if i == 0 {
            assert(0 * n2 + 0 == 0) by (nonlinear_arith);
        } else {
            self.lemma_product_end(other, w, i - 1);
            let a = self.end(w.take(i - 1));
            let b = other.end(v.take(i - 1));
            let x = a * n2 + b;
            vstd::arithmetic::div_mod::lemma_fundamental_div_mod_converse(x, n2, a, b);
            assert(0 <= a * n2 + b < n1 * n2) by (nonlinear_arith)
                requires
                    0 <= a < n1,
                    0 <= b < n2,
            ;
            assert(w.take(i).drop_last() =~= w.take(i - 1));
            assert(v.take(i).drop_last() =~= v.take(i - 1));
            assert(w.take(i).last() == w[i - 1]);
            assert(v.take(i).last() == v[i - 1]);
            assert(w[i - 1] <= 1);
            assert(self.flip[a] <= 1);
            assert(v[i - 1] == xor(w[i - 1], self.flip[a]));
            assert(self.transition[a].len() == 2);
            assert(other.transition[b].len() == 2);
            let a2 = self.transition[a][w[i - 1] as int] as int;
            let b2 = other.transition[b][v[i - 1] as int] as int;
            assert(a2 < n1 && b2 < n2);
            assert(0 <= a2 * n2 + b2 < n1 * n2) by (nonlinear_arith)
                requires
                    0 <= a2 < n1,
                    0 <= b2 < n2,
            ;
            assert(self.product(other).transition[x] == self.product_row(other, a, b));
        }
    }

    /// The product does to a word what `other` does to what this machine
    /// makes of the word.
    pub proof fn lemma_product_output(self, other: Machine, w: Seq<u8>)
        requires
            self.wf(),
            other.wf(),
            self.len() > 0,
            other.len() > 0,
            self.len() * other.len() <= usize::MAX,
            is_word(w),
        ensures
            self.product(other).output(w) == other.output(self.output(w)),
    {
        let v = self.output(w);
        let p = self.product(other);
        let n1 = self.len() as int;
        let n2 = other.len() as int;
        assert forall|i: int| 0 <= i < w.len() implies p.output(w)[i] == other.output(v)[i] by {
            self.lemma_product_end(other, w, i);
            let a = self.end(w.take(i));
            let b = other.end(v.take(i));
            let x = a * n2 + b;
            vstd::arithmetic::div_mod::lemma_fundamental_div_mod_converse(x, n2, a, b);
            assert(0 <= a * n2 + b < n1 * n2) by (nonlinear_arith)
                requires
                    0 <= a < n1,
                    0 <= b < n2,
            ;
            assert(w[i] <= 1);
            assert(self.flip[a] <= 1);
            assert(other.flip[b] <= 1);
        }
        assert(p.output(w) =~= other.output(v));
    }

    /// The map that exchanges the start state with the state `x`.
    pub open spec fn exchange(self, x: usize) -> Map<usize, usize> {
        Map::new(
            |s: usize| s < self.len(),
            |s: usize|
                if s == 0 {
                    x
                } else if s == x {
                    0usize
                } else {
                    s
                },
        )
    }

    /// Exchanging two states is a one to one relabeling, and the machine
    /// that it gives is well formed.
    pub proof fn lemma_exchange(self, x: usize)
        requires
            self.wf(),
            x < self.len(),
            self.len() <= usize::MAX,
        ensures
            self.relabeling(self.exchange(x)),
            self.one_to_one(self.exchange(x)),
            self.relabel(self.exchange(x)).wf(),
            self.relabel(self.exchange(x)).len() == self.len(),
    {
        let map = self.exchange(x);
        let n = self.len();
        assert forall|i: int, j: int, a: int|
            0 <= i <= j < n && 0 <= a < 2 && map[i as usize] == map[j as usize] implies map[
        #[trigger] self.transition[i][a]] == map[#[trigger] self.transition[j][a]] by {
            assert(i as usize == j as usize);
        }
        let r = self.relabel(map);
        assert forall|t: int| 0 <= t < n implies (#[trigger] r.transition[t]).len() == 2
            && r.transition[t][0] < n && r.transition[t][1] < n && r.flip[t] <= 1 by {
            let s: int = map[t as usize] as int;
            assert(map[s as usize] == t);
            self.lemma_relabel_one_to_one(map, s);
            assert(self.transition[s].len() == 2);
            assert(self.transition[s][0] < n);
            assert(self.transition[s][1] < n);
        }
        assert forall|t: int, a: int| 0 <= t < n && 0 <= a < 2 implies #[trigger] r.transition[t][a]
            < n by {
            assert(r.transition[t].len() == 2);
        }
        assert forall|t: int| 0 <= t < r.flip.len() implies #[trigger] r.flip[t] <= 1 by {
            assert(r.transition[t].len() == 2);
        }
    }
}

impl Transducer {
    /// The synchronous product of two transducers, before it is minimized.
    fn raw_product(&self, other: &Transducer) -> (r: Self)
        requires
            self@.wf(),
            other@.wf(),
            self@.len() * other@.len() <= usize::MAX,
        ensures
            r@ == self@.product(other@),
    {
        let n1 = self.len();
        let n2 = other.len();
        let mut new_transition: Vec<Vec<usize>> = Vec::new();
        let mut new_flip: Vec<u8> = Vec::new();
        let ghost p = self@.product(other@);
        let mut i: usize = 0;
        while i < n1
            invariant
                self@.wf(),
                other@.wf(),
                n1 == self@.len(),
                n2 == other@.len(),
                n1 * n2 <= usize::MAX,
                p == self@.product(other@),
                i <= n1,
                new_transition@.len() == i * n2,
                new_flip@.len() == i * n2,
                forall|x: int|
                    0 <= x < new_transition@.len() ==> (#[trigger] new_transition@[x])@
                        == p.transition[x],
                forall|x: int| 0 <= x < new_flip@.len() ==> #[trigger] new_flip@[x] == p.flip[x],
            decreases n1 - i,
        {
            let mut j: usize = 0;
            while j < n2
                invariant
                    self@.wf(),
                    other@.wf(),
                    n1 == self@.len(),
                    n2 == other@.len(),
                    n1 * n2 <= usize::MAX,
                    p == self@.product(other@),
                    i < n1,
                    j <= n2,
                    new_transition@.len() == i * n2 + j,
                    new_flip@.len() == i * n2 + j,
                    forall|x: int|
                        0 <= x < new_transition@.len() ==> (#[trigger] new_transition@[x])@
                            == p.transition[x],
                    forall|x: int| 0 <= x < new_flip@.len() ==> #[trigger] new_flip@[x] == p.flip[x],
                decreases n2 - j,
            {
                let fi = self.flip_of(i);
                let fj = other.flip_of(j);
                let ghost x = i * n2 + j;
                proof {
                    vstd::arithmetic::div_mod::lemma_fundamental_div_mod_converse(
                        x as int,
                        n2 as int,
                        i as int,
                        j as int,
                    );
                    assert(i * n2 + j < n1 * n2) by (nonlinear_arith)
                        requires
                            0 <= i < n1,
                            0 <= j < n2,
                    ;
                    self@.lemma_product_wf(other@);
                    assert(p.transition[x as int].len() == 2);
                    assert(p.transition[x as int][0] < n1 * n2);
                    assert(p.transition[x as int][1] < n1 * n2);
                }
                let mut nt: Vec<usize> = Vec::new();
                let mut k: u8 = 0;
                while k < 2
                    invariant
                        self@.wf(),
                        other@.wf(),
                        n1 == self@.len(),
                        n2 == other@.len(),
                        n1 * n2 <= usize::MAX,
                        i < n1,
                        j < n2,
                        k <= 2,
                        fi == self@.flip[i as int],
                        fi <= 1,
                        nt@.len() == k,
                        forall|a: int|
                            0 <= a < k ==> nt@[a] == self@.product_row(other@, i as int, j as int)[a],
                    decreases 2 - k,
                {
                    let a = self.next_state(i, k);
                    let b = other.next_state(j, (k + fi) % 2);
                    proof {
                        let ai = a as int;
                        let bi = b as int;
                        assert(ai * n2 + bi < n1 * n2) by (nonlinear_arith)
                            requires
                                0 <= ai < n1,
                                0 <= bi < n2,
                        ;
                        assert(ai * n2 >= 0) by (nonlinear_arith)
                            requires
                                0 <= ai,
                                0 <= n2,
                        ;
                    }
                    nt.push(a * n2 + b);
                    k += 1;
                }
                proof {
                    assert(nt@ =~= self@.product_row(other@, i as int, j as int));
                }
                new_flip.push((fi + fj) % 2);
                new_transition.push(nt);
                j += 1;
            }
            proof {
                assert(i * n2 + n2 == (i + 1) * n2) by (nonlinear_arith);
            }
            i += 1;
        }
        let r = Transducer::new(new_transition, new_flip);
        proof {
            assert(r@.transition =~= p.transition);
            assert(r@.flip =~= p.flip);
        }
        r
    }

    /// Create the minimized semigroup product of two transducers.
    pub fn product(&self, other: &Transducer) -> (r: Self)
        requires
            self@.wf(),
            other@.wf(),
            self@.len() * other@.len() < usize::MAX,
        ensures
            self@.product(other@).minimal(r@),
            minimizes_to(self@.product(other@), r@),
    {
        let raw = self.raw_product(other);
        proof {
            self@.lemma_product_wf(other@);
        }
        raw.minimize()
    }

    /// The map that exchanges the start state with the state `x`.
    fn exchange_map(&self, x: usize) -> (map: FxHashMap<usize, usize>)
        requires
            x < self@.len(),
        ensures
            map@ == self@.exchange(x),
    {
        let n = self.len();
        let mut map: FxHashMap<usize, usize> = map_new();
        let mut i: usize = 0;
        while i < n
            invariant
                i <= n,
                obeys_key_model::<usize>(),
                forall|s: usize| map@.contains_key(s) <==> s < i,
                forall|s: usize| s < i ==> #[trigger] map@[s] == s,
            decreases n - i,
        {
            map_insert(&mut map, i, i);
            i += 1;
        }
        map_insert(&mut map, 0, x);
        map_insert(&mut map, x, 0);
        proof {
            assert(map@ =~= self@.exchange(x));
        }
        map
    }

    /// The two residues of the transducer: what it does after reading 0,
    /// and what it does after reading 1. Each comes from exchanging the
    /// start state with its successor on that input; where the start state
    /// flips, the two are multiplied, in the one order and in the other.
    pub fn residues(&self) -> (r: Vec<Self>)
        requires
            self@.wf(),
            self@.len() > 0,
            self@.len() * self@.len() < usize::MAX,
        ensures
            r@.len() == 2,
            self@.flip[0] == 0 ==> minimizes_to(
                self@.relabel(self@.exchange(self@.transition[0][0])),
                r@[0]@,
            ) && minimizes_to(self@.relabel(self@.exchange(self@.transition[0][1])), r@[1]@),
            self@.flip[0] != 0 ==> minimizes_to(
                self@.relabel(self@.exchange(self@.transition[0][0])).product(
                    self@.relabel(self@.exchange(self@.transition[0][1])),
                ),
                r@[0]@,
            ) && minimizes_to(
                self@.relabel(self@.exchange(self@.transition[0][1])).product(
                    self@.relabel(self@.exchange(self@.transition[0][0])),
                ),
                r@[1]@,
            ),
            r@[0]@.wf() && r@[0]@.len() > 0,
            r@[1]@.wf() && r@[1]@.len() > 0,
    {
        let t0 = self.next_state(0, 0);
        let t1 = self.next_state(0, 1);
        let remap_l = self.exchange_map(t0);
        let remap_r = self.exchange_map(t1);
        proof {
            let n = self@.len() as int;
            assert(n <= n * n) by (nonlinear_arith)
                requires
                    n >= 1,
            ;
            self@.lemma_exchange(t0);
            self@.lemma_exchange(t1);
        }
        let l = self.relabel(remap_l);
        let r = self.relabel(remap_r);
        let mut out: Vec<Self> = Vec::new();
        if self.flip_of(0) == 0 {
            out.push(l.minimize());
            out.push(r.minimize());
        } else {
            let lr = l.product(&r);
            let rl = r.product(&l);
            let a = lr.minimize();
            let b = rl.minimize();
            proof {
                lemma_minimize_idempotent(l@.product(r@), lr@, a@);
                lemma_minimize_idempotent(r@.product(l@), rl@, b@);
            }
            out.push(a);
            out.push(b);
        }
        out
    }
}

} // verus!
