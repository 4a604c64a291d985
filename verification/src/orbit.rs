//! Orbits: what repeated application of a transducer does to the words of
//! one length, and the least word of each orbit.

use crate::combi::compose;
use crate::combi::digit_of;
use crate::combi::digits_fit;
use crate::combi::lemma_compose_bound;
use crate::combi::lemma_compose_digits;
use crate::combi::lemma_digit_of_compose;
use crate::combi::product;
use crate::combi::sizes_of;
use crate::combi::Cycle;
use crate::combi::UCycle;
use crate::combi::VCycle;
use crate::seqs::copy_vec;
use crate::seqs::lemma_pigeonhole;
use crate::par::all_agree;
use crate::machine::is_word;
use crate::machine::lemma_word_order;
use crate::machine::word_order;
use crate::machine::xor;
use crate::machine::Machine;
use crate::transducer::words_order;
use crate::transducer::Transducer;
use vstd::prelude::*;

verus! {

/// The power of 2 with exponent `n`.
pub open spec fn two_to(n: nat) -> nat
    decreases n,
{
    if n == 0 {
        1
    } else {
        2 * two_to((n - 1) as nat)
    }
}

/// The number that the word `w` is in binary, its first symbol counting
/// most.
pub open spec fn number_of(w: Seq<u8>) -> nat
    decreases w.len(),
{
    if w.len() == 0 {
        0
    } else {
        2 * number_of(w.drop_last()) + w.last() as nat
    }
}

/// The prefixes of a word are words.
pub proof fn lemma_prefix_is_word(w: Seq<u8>, i: int)
    requires
        is_word(w),
        0 <= i <= w.len(),
    ensures
        is_word(w.take(i)),
{
    assert forall|k: int| 0 <= k < w.take(i).len() implies #[trigger] w.take(i)[k] <= 1 by {
        assert(w[k] <= 1);
    }
}

/// The number of a word is below 2 to the power of its length.
pub proof fn lemma_number_bound(w: Seq<u8>)
    requires
        is_word(w),
    ensures
        number_of(w) < two_to(w.len()),
    decreases w.len(),
{
    if w.len() > 0 {
        lemma_prefix_is_word(w, w.len() - 1);
        assert(w.take(w.len() - 1) == w.drop_last());
        lemma_number_bound(w.drop_last());
        assert(w[w.len() - 1] <= 1);
    }
}

/// Two words of one length with the same number are equal.
pub proof fn lemma_number_injective(a: Seq<u8>, b: Seq<u8>)
    requires
        is_word(a),
        is_word(b),
        a.len() == b.len(),
        number_of(a) == number_of(b),
    ensures
        a == b,
    decreases a.len(),
{
    if a.len() > 0 {
        lemma_prefix_is_word(a, a.len() - 1);
        lemma_prefix_is_word(b, b.len() - 1);
        assert(a.take(a.len() - 1) == a.drop_last());
        assert(b.take(b.len() - 1) == b.drop_last());
        assert(a[a.len() - 1] <= 1);
        assert(b[b.len() - 1] <= 1);
        lemma_number_injective(a.drop_last(), b.drop_last());
        assert(a =~= a.drop_last().push(a.last()));
        assert(b =~= b.drop_last().push(b.last()));
    } else {
        assert(a =~= b);
    }
}

impl Machine {
    /// The machine is one to one on the words of one length: two words that
    /// it takes to the same word agree on every prefix.
    pub proof fn lemma_output_prefix(self, a: Seq<u8>, b: Seq<u8>, i: int)
        requires
            self.wf(),
            is_word(a),
            is_word(b),
            a.len() == b.len(),
            self.len() > 0 || a.len() == 0,
            self.output(a) == self.output(b),
            0 <= i <= a.len(),
        ensures
            a.take(i) == b.take(i),
        decreases i,
    {
        if i == 0 {
            assert(a.take(0) =~= b.take(0));
        } else {
            self.lemma_output_prefix(a, b, i - 1);
            let s = self.end(a.take(i - 1));
            lemma_prefix_is_word(a, i - 1);
            if self.len() > 0 {
                self.lemma_end_is_state(0, a.take(i - 1));
            }
            assert(self.flip[s] <= 1);
            assert(self.output(a)[i - 1] == xor(a[i - 1], self.flip[s]));
            assert(self.output(b)[i - 1] == xor(b[i - 1], self.flip[s]));
            assert(a[i - 1] <= 1 && b[i - 1] <= 1);
            assert(a.take(i) =~= a.take(i - 1).push(a[i - 1]));
            assert(b.take(i) =~= b.take(i - 1).push(b[i - 1]));
        }
    }

    /// The machine is one to one on the words of one length.
    pub proof fn lemma_output_injective(self, a: Seq<u8>, b: Seq<u8>)
        requires
            self.wf(),
            is_word(a),
            is_word(b),
            a.len() == b.len(),
            self.len() > 0 || a.len() == 0,
            self.output(a) == self.output(b),
        ensures
            a == b,
    {
        self.lemma_output_prefix(a, b, a.len() as int);
        assert(a.take(a.len() as int) == a);
        assert(b.take(b.len() as int) == b);
    }

    /// Applying the machine again and again keeps a word a word of its
    /// length.
    pub proof fn lemma_iterate_is_word(self, k: nat, w: Seq<u8>)
        requires
            self.wf(),
            is_word(w),
            self.len() > 0 || w.len() == 0,
        ensures
            is_word(self.iterate(k, w)),
            self.iterate(k, w).len() == w.len(),
        decreases k,
    {
        if k > 0 {
            self.lemma_iterate_is_word((k - 1) as nat, w);
            self.lemma_output_is_word(0, self.iterate((k - 1) as nat, w));
        }
    }

    /// Once `p` applications have taken a word back to itself, `j`
    /// applications do what `j % p` do.
    pub proof fn lemma_periodic(self, w: Seq<u8>, p: nat, j: nat)
        requires
            p > 0,
            self.iterate(p, w) == w,
        ensures
            self.iterate(j, w) == self.iterate(j % p, w),
        decreases j,
    {
        if j < p {
            vstd::arithmetic::div_mod::lemma_small_mod(j, p);
        } else if j == p {
            vstd::arithmetic::div_mod::lemma_mod_self_0(p as int);
        } else {
            self.lemma_periodic(w, p, (j - 1) as nat);
            let r = ((j - 1) as nat) % p;
            vstd::arithmetic::div_mod::lemma_mod_bound((j - 1) as int, p as int);
            vstd::arithmetic::div_mod::lemma_add_mod_noop((j - 1) as int, 1, p as int);
            vstd::arithmetic::div_mod::lemma_small_mod(r, p);
            if r + 1 < p {
                vstd::arithmetic::div_mod::lemma_small_mod(1, p);
                vstd::arithmetic::div_mod::lemma_small_mod(r + 1, p);
                assert(j % p == r + 1);
            } else {
                if p > 1 {
                    vstd::arithmetic::div_mod::lemma_small_mod(1, p);
                } else {
                    vstd::arithmetic::div_mod::lemma_mod_self_0(p as int);
                }
                vstd::arithmetic::div_mod::lemma_mod_self_0(p as int);
                assert(j % p == 0);
                assert(self.iterate(j, w) == self.output(self.iterate(r, w)));
                assert(self.iterate(p, w) == self.output(self.iterate((p - 1) as nat, w)));
            }
        }
    }

    /// The least word of an orbit is the only word that is in the orbit and
    /// before every other word of it.
    pub proof fn lemma_min_word_unique(self, w: Seq<u8>, m: Seq<u8>)
        requires
            self.is_min_word(w, m),
        ensures
            self.min_word(w) == m,
    {
        let c = self.min_word(w);
        assert(self.is_min_word(w, c));
        assert(word_order(m, c) <= 0);
        assert(word_order(c, m) <= 0);
        lemma_word_order(m, c);
    }

    /// The words that the first `k` applications make of `w` are distinct.
    pub open spec fn distinct_upto(self, w: Seq<u8>, k: nat) -> bool {
        forall|a: nat, b: nat|
            #![trigger self.iterate(a, w), self.iterate(b, w)]
            a < b < k ==> self.iterate(a, w) != self.iterate(b, w)
    }

    /// Distinct words of one length are at most 2 to the power of that
    /// length many.
    pub proof fn lemma_orbit_bound(self, w: Seq<u8>, k: nat)
        requires
            self.wf(),
            is_word(w),
            self.len() > 0 || w.len() == 0,
            self.distinct_upto(w, k),
        ensures
            k <= two_to(w.len()),
    {
        let s = Seq::new(k, |j: int| number_of(self.iterate(j as nat, w)));
        assert forall|i: int| 0 <= i < s.len() implies s[i] < two_to(w.len()) by {
            self.lemma_iterate_is_word(i as nat, w);
            lemma_number_bound(self.iterate(i as nat, w));
        }
        assert forall|i: int, j: int| 0 <= i < s.len() && 0 <= j < s.len() && i != j implies s[i]
            != s[j] by {
            self.lemma_iterate_is_word(i as nat, w);
            self.lemma_iterate_is_word(j as nat, w);
            if s[i] == s[j] {
                lemma_number_injective(self.iterate(i as nat, w), self.iterate(j as nat, w));
                if i < j {
                    assert(self.iterate(i as nat, w) != self.iterate(j as nat, w));
                } else {
                    assert(self.iterate(j as nat, w) != self.iterate(i as nat, w));
                }
            }
        }
        lemma_pigeonhole(s, two_to(w.len()));
    }

    /// While a word has not come back to itself, one more application makes
    /// one more word.
    pub proof fn lemma_distinct_step(self, w: Seq<u8>, k: nat)
        requires
            self.wf(),
            is_word(w),
            self.len() > 0 || w.len() == 0,
            k >= 1,
            self.distinct_upto(w, k),
            self.iterate(k, w) != w,
        ensures
            self.distinct_upto(w, k + 1),
    {
        assert forall|a: nat, b: nat|
            #![trigger self.iterate(a, w), self.iterate(b, w)]
            a < b < k + 1 implies self.iterate(a, w) != self.iterate(b, w) by {
            if b == k {
                if a == 0 {
                } else {
                    if self.iterate(a, w) == self.iterate(b, w) {
                        self.lemma_iterate_is_word((a - 1) as nat, w);
                        self.lemma_iterate_is_word((b - 1) as nat, w);
                        self.lemma_output_injective(
                            self.iterate((a - 1) as nat, w),
                            self.iterate((b - 1) as nat, w),
                        );
                        assert(self.iterate((a - 1) as nat, w) != self.iterate((b - 1) as nat, w));
                    }
                }
            }
        }
    }
}

impl Transducer {
    /// The least word of the orbit of `word`: the transducer is applied
    /// until the word comes back, and the least word seen is kept.
    pub fn min_word(&self, word: &Vec<u8>) -> (min: Vec<u8>)
        requires
            self@.wf(),
            is_word(word@),
            self@.len() > 0 || word@.len() == 0,
        ensures
            self@.is_min_word(word@, min@),
            min@ == self@.min_word(word@),
    {
        let ghost w = word@;
        let mut min = copy_vec(word);
        let mut next = copy_vec(word);
        self.step(&mut next);
        let ghost mut i: nat = 1;
        let ghost mut at: nat = 0;
        proof {
            assert(self@.iterate(1, w) == self@.output(self@.iterate(0, w)));
            lemma_word_order(w, w);
        }
        loop
            invariant
                self@.wf(),
                is_word(w),
                w == word@,
                self@.len() > 0 || w.len() == 0,
                i >= 1,
                next@ == self@.iterate(i, w),
                is_word(next@),
                self@.distinct_upto(w, i),
                at < i,
                min@ == self@.iterate(at, w),
                forall|j: nat| j < i ==> word_order(min@, #[trigger] self@.iterate(j, w)) <= 0,
            decreases two_to(w.len()) - i,
        {
            let ghost before = min@;
            if words_order(&next, &min) < 0 {
                min = copy_vec(&next);
                proof {
                    at = i;
                }
            }
            proof {
                lemma_word_order(next@, before);
                lemma_word_order(min@, min@);
                assert forall|j: nat| j < i + 1 implies word_order(
                    min@,
                    #[trigger] self@.iterate(j, w),
                ) <= 0 by {
                    if j < i {
                        assert(word_order(before, self@.iterate(j, w)) <= 0);
                        if min@ != before {
                            crate::machine::lemma_word_order_trans(min@, before, self@.iterate(j, w));
                        }
                    }
                }
            }
            if words_order(&next, word) == 0 {
                proof {
                    lemma_word_order(next@, w);
                    assert(self@.in_orbit(w, min@));
                    assert forall|u: Seq<u8>| #[trigger] self@.in_orbit(w, u) implies word_order(
                        min@,
                        u,
                    ) <= 0 by {
                        let k = choose|k: nat| #[trigger] self@.iterate(k, w) == u;
                        self@.lemma_periodic(w, i, k);
                        vstd::arithmetic::div_mod::lemma_mod_bound(k as int, i as int);
                        assert(word_order(min@, self@.iterate(k % i, w)) <= 0);
                    }
                    self@.lemma_min_word_unique(w, min@);
                }
                return min;
            }
            proof {
                lemma_word_order(next@, w);
                self@.lemma_distinct_step(w, i);
                self@.lemma_orbit_bound(w, i + 1);
                assert(self@.iterate(i + 1, w) == self@.output(self@.iterate(i, w)));
            }
            self.step(&mut next);
            proof {
                i = i + 1;
            }
        }
    }
}


/// The sizes of the domains of the words of the length `depth`: 2 at each
/// place.
pub open spec fn twos(depth: nat) -> Seq<nat> {
    Seq::new(depth, |i: int| 2nat)
}

/// The word as a sequence of numbers.
pub open spec fn numbers(w: Seq<u8>) -> Seq<nat> {
    w.map_values(|e: u8| e as nat)
}

/// Every word of the length `depth`, in the order of the vector cycle over
/// `depth` binary digits.
pub fn all_words(depth: usize) -> (words: Vec<Vec<u8>>)
    ensures
        forall|i: int|
            0 <= i < words@.len() ==> is_word(#[trigger] words@[i]@) && words@[i]@.len() == depth,
        forall|w: Seq<u8>|
            is_word(w) && w.len() == depth ==> exists|i: int|
                0 <= i < words@.len() && #[trigger] words@[i]@ == w,
        words@.len() == product(twos(depth as nat)),
        forall|i: int, j: int|
            0 <= i < words@.len() && 0 <= j < depth ==> (#[trigger] words@[i]@[j]) as nat
                == digit_of(twos(depth as nat), i as nat, j),
{
    let mut max: Vec<u8> = Vec::new();
    let mut k: usize = 0;
    while k < depth
        invariant
            k <= depth,
            max@.len() == k,
            forall|i: int| 0 <= i < k ==> max@[i] == 2,
        decreases depth - k,
    {
        max.push(2);
        k += 1;
    }
    let ghost mm = VCycle::<UCycle<u8>>::model(&max);
    proof {
        assert(sizes_of::<UCycle<u8>>(mm) =~= twos(depth as nat));
    }
    let mut cyc: VCycle<UCycle<u8>> = VCycle::new(max, true);
    let ghost sizes = twos(depth as nat);
    let ghost total = product(sizes);
    let mut words: Vec<Vec<u8>> = Vec::new();
    let mut going = true;
    while going
        invariant
            cyc.inv(),
            cyc.max() == mm,
            cyc.limit(),
            mm.len() == depth,
            sizes == twos(depth as nat),
            sizes_of::<UCycle<u8>>(mm) == sizes,
            total == product(sizes),
            going ==> (if cyc.done() {
                words@.len() == total
            } else {
                words@.len() == cyc.pos()
            }),
            !going ==> words@.len() == total,
            words@.len() <= total,
            forall|i: int|
                0 <= i < words@.len() ==> (#[trigger] words@[i])@.len() == depth && forall|j: int|
                    0 <= j < depth ==> words@[i]@[j] as nat == digit_of(sizes, i as nat, j),
        decreases
                (total - words@.len()) + if going {
                    1int
                } else {
                    0int
                },
    {
        proof {
            cyc.lemma_size();
        }
        let ghost pos = cyc.pos();
        match cyc.next() {
            Some(w) => {
                proof {
                    let item = VCycle::<UCycle<u8>>::model(&w);
                    assert(item == VCycle::<UCycle<u8>>::nth(mm, pos));
                    assert(w@.len() == depth) by {
                        assert(item.len() == w@.len());
                    }
                    assert forall|j: int| 0 <= j < depth implies w@[j] as nat == digit_of(
                        sizes,
                        pos,
                        j,
                    ) by {
                        assert(item[j] == w@[j] as nat);
                    }
                    if pos + 1 < total {
                        vstd::arithmetic::div_mod::lemma_small_mod(pos + 1, total);
                    }
                }
                words.push(w);
            },
            None => {
                going = false;
            },
        }
    }
    proof {
        assert forall|i: int| 0 <= i < sizes.len() implies #[trigger] sizes[i] > 0 by {}
        assert forall|i: int| 0 <= i < words@.len() implies is_word(#[trigger] words@[i]@)
            && words@[i]@.len() == depth by {
            lemma_compose_digits(sizes, i as nat);
            let d = Seq::new(sizes.len(), |j: int| digit_of(sizes, i as nat, j));
            assert forall|j: int| 0 <= j < words@[i]@.len() implies #[trigger] words@[i]@[j]
                <= 1 by {
                assert(d[j] < sizes[j]);
            }
        }
        assert forall|w: Seq<u8>| is_word(w) && w.len() == depth implies exists|i: int|
            0 <= i < words@.len() && #[trigger] words@[i]@ == w by {
            let d = numbers(w);
            assert(digits_fit(sizes, d)) by {
                assert forall|j: int| 0 <= j < sizes.len() implies #[trigger] d[j] < sizes[j] by {
                    assert(w[j] <= 1);
                }
            }
            lemma_compose_bound(sizes, d);
            let i = compose(sizes, d) as int;
            assert(words@[i]@ =~= w) by {
                assert forall|j: int| 0 <= j < depth implies words@[i]@[j] == w[j] by {
                    lemma_digit_of_compose(sizes, d, j);
                }
            }
        }
    }
    words
}

impl Transducer {
    /// Whether the orbits of the word under the two transducers have the
    /// same least word.
    pub fn same_min_word(&self, other: &Transducer, word: &Vec<u8>) -> (r: bool)
        requires
            self@.wf(),
            other@.wf(),
            is_word(word@),
            (self@.len() > 0 && other@.len() > 0) || word@.len() == 0,
        ensures
            r == (self@.min_word(word@) == other@.min_word(word@)),
    {
        let a = self.min_word(word);
        let b = other.min_word(word);
        proof {
            lemma_word_order(a@, b@);
        }
        words_order(&a, &b) == 0
    }

    /// Compare the orbits of two transducers on the strings of the length
    /// `depth`: whether the orbit of every such string has the same least
    /// word under the one transducer as under the other.
    ///
    /// At least O(2^n) time where n is `depth`.
    pub fn orbit_compare(&self, other: &Transducer, depth: usize) -> (r: bool)
        requires
            self@.wf(),
            other@.wf(),
            depth > 0 ==> self@.len() > 0 && other@.len() > 0,
        ensures
            r == self@.orbit_equal(other@, depth as nat),
    {
        let xs = all_words(depth);
        let r = all_agree(self, other, &xs);
        proof {
            if r {
                assert forall|w: Seq<u8>| is_word(w) && w.len() == depth implies #[trigger] self@.min_word(
                    w,
                ) == other@.min_word(w) by {
                    let i = choose|i: int| 0 <= i < xs@.len() && #[trigger] xs@[i]@ == w;
                    assert(self@.min_word(xs@[i]@) == other@.min_word(xs@[i]@));
                }
            } else {
                let i = choose|i: int|
                    0 <= i < xs@.len() && !(self@.min_word(#[trigger] xs@[i]@) == other@.min_word(
                        xs@[i]@,
                    ));
                assert(is_word(xs@[i]@) && xs@[i]@.len() == depth);
            }
        }
        r
    }
}


impl Machine {
    /// Inverting twice gives the machine back.
    pub proof fn lemma_inverse_twice(self)
        ensures
            self.inverse().inverse() == self,
            self.same_behavior(self.inverse().inverse()),
    {
        let v = self.inverse().inverse();
        assert(v.transition =~= self.transition) by {
            assert forall|s: int| 0 <= s < self.transition.len() implies v.transition[s]
                == self.transition[s] by {
                assert(self.transition[s].reverse().reverse() =~= self.transition[s]);
            }
        }
    }

    /// While the machine reads a word and its inverse reads what the machine
    /// writes, the two are in the same state.
    pub proof fn lemma_inverse_end(self, w: Seq<u8>, i: int)
        requires
            self.wf(),
            is_word(w),
            self.len() > 0,
            0 <= i <= w.len(),
        ensures
            self.inverse().end(self.output(w).take(i)) == self.end(w.take(i)),
            0 <= self.end(w.take(i)) < self.len(),
        decreases i,
    {
        let v = self.output(w);
        lemma_prefix_is_word(w, i);
        self.lemma_end_is_state(0, w.take(i));
        if i > 0 {
            self.lemma_inverse_end(w, i - 1);
            let s = self.end(w.take(i - 1));
            assert(v.take(i).drop_last() =~= v.take(i - 1));
            assert(w.take(i).drop_last() =~= w.take(i - 1));
            assert(v.take(i).last() == v[i - 1]);
            assert(w.take(i).last() == w[i - 1]);
            assert(w[i - 1] <= 1);
            assert(self.flip[s] <= 1);
            assert(self.transition[s].len() == 2);
            assert(v[i - 1] == xor(w[i - 1], self.flip[s]));
        }
    }

    /// The inverse undoes the machine: it takes what the machine writes back
    /// to what the machine has read.
    pub proof fn lemma_inverse_undoes(self, w: Seq<u8>)
        requires
            self.wf(),
            is_word(w),
            self.len() > 0 || w.len() == 0,
        ensures
            self.inverse().output(self.output(w)) == w,
    {
        let v = self.output(w);
        let u = self.inverse().output(v);
        assert forall|i: int| 0 <= i < w.len() implies u[i] == w[i] by {
            self.lemma_inverse_end(w, i);
            let s = self.end(w.take(i));
            assert(w[i] <= 1);
            assert(self.flip[s] <= 1);
        }
        assert(u =~= w);
    }
}

} // verus!
