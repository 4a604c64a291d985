//! Transducers: deterministic machines over the binary alphabet that write
//! one bit for each bit they read.

pub use crate::classify::classify_transducers;
pub use crate::enumerate::AllTransducers;
use crate::seqs::copy_vec;
use crate::machine::machine_order;
use crate::machine::row_order;
use crate::machine::table_order;
use crate::machine::word_order;
use crate::machine::xor;
use crate::machine::is_word;
use crate::machine::Machine;
use vstd::prelude::*;

verus! {

/// A transducer. By convention, state `0` is the start state.
///
/// Warning: the representation only assumes the transducer is deterministic
/// and alphabetic, but most methods also assume it's reversible.
#[derive(Clone, Debug, PartialEq, Eq, PartialOrd, Hash, Ord)]
pub struct Transducer {
    transition: Vec<Vec<usize>>,
    flip: Vec<u8>,
}

/// The rows of a table as sequences.
pub open spec fn table_view(t: Vec<Vec<usize>>) -> Seq<Seq<usize>> {
    t@.map_values(|r: Vec<usize>| r@)
}

impl View for Transducer {
    type V = Machine;

    closed spec fn view(&self) -> Machine {
        Machine { transition: table_view(self.transition), flip: self.flip@ }
    }
}

/// XOR on bits is `xor`.
pub proof fn lemma_xor(a: u8, b: u8)
    requires
        a <= 1,
        b <= 1,
    ensures
        a ^ b == xor(a, b),
{
    assert((a ^ b) == (if a == b { 0u8 } else { 1u8 })) by (bit_vector)
        requires
            a <= 1,
            b <= 1,
    ;
}

impl Machine {
    /// A well-formed machine that reads a word stays among its states.
    pub proof fn lemma_end_is_state(self, s: int, w: Seq<u8>)
        requires
            self.wf(),
            is_word(w),
            0 <= s < self.len(),
        ensures
            0 <= self.end_from(s, w) < self.len(),
        decreases w.len(),
    {
        if w.len() > 0 {
            assert(is_word(w.drop_last())) by {
                assert forall|i: int| 0 <= i < w.drop_last().len() implies #[trigger] w.drop_last()[i]
                    <= 1 by {
                    assert(w[i] <= 1);
                }
            }
            self.lemma_end_is_state(s, w.drop_last());
            assert(w[w.len() - 1] <= 1);
        }
    }

    /// What a well-formed machine writes is a word as long as the one it
    /// reads.
    pub proof fn lemma_output_is_word(self, s: int, w: Seq<u8>)
        requires
            self.wf(),
            is_word(w),
            0 <= s < self.len() || w.len() == 0,
        ensures
            is_word(self.output_from(s, w)),
            self.output_from(s, w).len() == w.len(),
    {
        assert forall|i: int| 0 <= i < w.len() implies #[trigger] self.output_from(s, w)[i] <= 1 by {
        }
    }
}

/// The order of two rows: -1, 0 or 1.
pub fn rows_order(a: &Vec<usize>, b: &Vec<usize>) -> (r: i8)
    ensures
        r == row_order(a@, b@),
{
    let mut i: usize = 0;
    proof {
        assert(a@.skip(0) == a@);
        assert(b@.skip(0) == b@);
    }
    while i < a.len() && i < b.len()
        invariant
            i <= a@.len(),
            i <= b@.len(),
            row_order(a@, b@) == row_order(a@.skip(i as int), b@.skip(i as int)),
        decreases a@.len() - i,
    {
        proof {
            assert(a@.skip(i as int).drop_first() == a@.skip(i + 1));
            assert(b@.skip(i as int).drop_first() == b@.skip(i + 1));
        }
        if a[i] < b[i] {
            return -1;
        }
        if a[i] > b[i] {
            return 1;
        }
        i += 1;
    }
    if i < b.len() {
        -1
    } else if i < a.len() {
        1
    } else {
        0
    }
}

/// The order of two words: -1, 0 or 1.
pub fn words_order(a: &Vec<u8>, b: &Vec<u8>) -> (r: i8)
    ensures
        r == word_order(a@, b@),
{
    let mut i: usize = 0;
    proof {
        assert(a@.skip(0) == a@);
        assert(b@.skip(0) == b@);
    }
    while i < a.len() && i < b.len()
        invariant
            i <= a@.len(),
            i <= b@.len(),
            word_order(a@, b@) == word_order(a@.skip(i as int), b@.skip(i as int)),
        decreases a@.len() - i,
    {
        proof {
            assert(a@.skip(i as int).drop_first() == a@.skip(i + 1));
            assert(b@.skip(i as int).drop_first() == b@.skip(i + 1));
        }
        if a[i] < b[i] {
            return -1;
        }
        if a[i] > b[i] {
            return 1;
        }
        i += 1;
    }
    if i < b.len() {
        -1
    } else if i < a.len() {
        1
    } else {
        0
    }
}

/// The order of two tables: -1, 0 or 1.
fn tables_order(a: &Vec<Vec<usize>>, b: &Vec<Vec<usize>>) -> (r: i8)
    ensures
        r == table_order(table_view(*a), table_view(*b)),
{
    let ghost x = table_view(*a);
    let ghost y = table_view(*b);
    let mut i: usize = 0;
    proof {
        assert(x.skip(0) == x);
        assert(y.skip(0) == y);
    }
    while i < a.len() && i < b.len()
        invariant
            x == table_view(*a),
            y == table_view(*b),
            i <= a@.len(),
            i <= b@.len(),
            table_order(x, y) == table_order(x.skip(i as int), y.skip(i as int)),
        decreases a@.len() - i,
    {
        proof {
            assert(x.skip(i as int).drop_first() == x.skip(i + 1));
            assert(y.skip(i as int).drop_first() == y.skip(i + 1));
            assert(x.skip(i as int)[0] == a@[i as int]@);
            assert(y.skip(i as int)[0] == b@[i as int]@);
        }
        let c = rows_order(&a[i], &b[i]);
        if c != 0 {
            return c;
        }
        i += 1;
    }
    if i < b.len() {
        -1
    } else if i < a.len() {
        1
    } else {
        0
    }
}

impl Transducer {
    /// Create a new transducer.
    pub fn new(transition: Vec<Vec<usize>>, flip: Vec<u8>) -> (t: Self)
        ensures
            t@ == (Machine { transition: table_view(transition), flip: flip@ }),
    {
        Transducer { transition, flip }
    }

    /// The number of states.
    pub fn len(&self) -> (n: usize)
        ensures
            n == self@.len(),
    {
        return self.transition.len();
    }

    /// Whether the tables fit together: one flip bit for each state, two
    /// successors for each state, each of them a state.
    pub fn is_well_formed(&self) -> (r: bool)
        ensures
            r == self@.wf(),
    {
        let n = self.transition.len();
        if self.flip.len() != n {
            return false;
        }
        let mut s: usize = 0;
        while s < n
            invariant
                n == self.transition@.len(),
                self.flip@.len() == n,
                s <= n,
                forall|k: int| 0 <= k < s ==> (#[trigger] self@.transition[k]).len() == 2,
                forall|k: int, a: int|
                    0 <= k < s && 0 <= a < 2 ==> #[trigger] self@.transition[k][a] < n,
                forall|k: int| 0 <= k < s ==> #[trigger] self@.flip[k] <= 1,
            decreases n - s,
        {
            proof {
                assert(self@.transition[s as int] == self.transition@[s as int]@);
            }
            if self.transition[s].len() != 2 {
                return false;
            }
            if self.transition[s][0] >= n || self.transition[s][1] >= n {
                proof {
                    assert(self@.transition[s as int][0] >= n || self@.transition[s as int][1] >= n);
                }
                return false;
            }
            if self.flip[s] > 1 {
                return false;
            }
            s += 1;
        }
        true
    }

    /// The state that follows the state `s` on the input `a`.
    pub fn next_state(&self, s: usize, a: u8) -> (t: usize)
        requires
            self@.wf(),
            s < self@.len(),
            a <= 1,
        ensures
            t == self@.transition[s as int][a as int],
            t < self@.len(),
    {
        proof {
            assert(self@.transition[s as int] == self.transition@[s as int]@);
            assert(self@.transition[s as int].len() == 2);
            assert(self@.transition[s as int][a as int] < self@.len());
        }
        self.transition[s][a as usize]
    }

    /// The flip bit of the state `s`.
    pub fn flip_of(&self, s: usize) -> (f: u8)
        requires
            self@.wf(),
            s < self@.len(),
        ensures
            f == self@.flip[s as int],
            f <= 1,
    {
        self.flip[s]
    }

    /// A transducer with the same tables.
    pub fn copy(&self) -> (t: Self)
        ensures
            t@ == self@,
    {
        let mut transition: Vec<Vec<usize>> = Vec::new();
        let mut s: usize = 0;
        while s < self.transition.len()
            invariant
                s <= self.transition@.len(),
                transition@.len() == s,
                forall|k: int| 0 <= k < s ==> (#[trigger] transition@[k])@ == self.transition@[k]@,
            decreases self.transition@.len() - s,
        {
            transition.push(copy_vec(&self.transition[s]));
            s += 1;
        }
        let flip = copy_vec(&self.flip);
        proof {
            assert(table_view(transition) =~= table_view(self.transition));
        }
        Transducer { transition, flip }
    }

    /// The order of two transducers: by their transition tables, row by row
    /// and entry by entry, and where these are equal by their flip bits; a
    /// proper prefix comes first. -1, 0 or 1.
    pub fn order(&self, other: &Transducer) -> (r: i8)
        ensures
            r == machine_order(self@, other@),
    {
        let c = tables_order(&self.transition, &other.transition);
        if c != 0 {
            c
        } else {
            words_order(&self.flip, &other.flip)
        }
    }

    /// Applies the transducer to the word `x` in place: each symbol is XORed
    /// with the flip bit of the state that reads it. Returns the state in
    /// which the transducer ends.
    pub fn step(&self, x: &mut Vec<u8>) -> (state: usize)
        requires
            self@.wf(),
            is_word(old(x)@),
            self@.len() > 0 || old(x)@.len() == 0,
        ensures
            final(x)@ == self@.output(old(x)@),
            state == self@.end(old(x)@),
            is_word(final(x)@),
    {
        let mut state: usize = 0;
        let ghost w = x@;
        let mut i: usize = 0;
        while i < x.len()
            invariant
                self@.wf(),
                is_word(w),
                self@.len() > 0 || w.len() == 0,
                x@.len() == w.len(),
                i <= w.len(),
                state == self@.end(w.take(i as int)),
                state < self@.len() || w.len() == 0,
                forall|k: int|
                    0 <= k < i ==> #[trigger] x@[k] == xor(w[k], self@.flip[self@.end(w.take(k))]),
                forall|k: int| i <= k < w.len() ==> #[trigger] x@[k] == w[k],
            decreases w.len() - i,
        {
            let c = x[i];
            proof {
                assert(w[i as int] <= 1);
                lemma_xor(c, self.flip@[state as int]);
                assert(w.take(i + 1).drop_last() == w.take(i as int));
                assert(self@.transition[state as int] == self.transition@[state as int]@);
                assert(self@.transition[state as int].len() == 2);
                assert(self@.transition[state as int][c as int] < self@.len());
            }
            x.set(i, c ^ self.flip[state]);
            state = self.transition[state][c as usize];
            i += 1;
        }
        proof {
            assert(w.take(w.len() as int) == w);
            assert(x@ =~= self@.output(w));
            self@.lemma_output_is_word(0, w);
        }
        return state;
    }

    /// Produce the inverse transducer, that is, one that undoes the operation
    /// of the given transducer: where a state flips, its two successors
    /// change places.
    pub fn inverse(&self) -> (t: Self)
        requires
            self@.transition.len() <= self@.flip.len(),
        ensures
            t@ == self@.inverse(),
    {
        let mut new_transition: Vec<Vec<usize>> = Vec::new();
        let mut state: usize = 0;
        while state < self.transition.len()
            invariant
                self@.transition.len() <= self@.flip.len(),
                state <= self.transition@.len(),
                new_transition@.len() == state,
                forall|s: int|
                    0 <= s < state ==> (#[trigger] new_transition@[s])@ == self@.inverse().transition[s],
            decreases self.transition@.len() - state,
        {
            let row = &self.transition[state];
            if self.flip[state] != 0 {
                let mut rev: Vec<usize> = Vec::new();
                let mut k: usize = row.len();
                while k > 0
                    invariant
                        k <= row@.len(),
                        rev@.len() == row@.len() - k,
                        forall|j: int| 0 <= j < rev@.len() ==> rev@[j] == row@[row@.len() - 1 - j],
                    decreases k,
                {
                    k -= 1;
                    rev.push(row[k]);
                }
                proof {
                    assert(rev@ =~= row@.reverse());
                }
                new_transition.push(rev);
            } else {
                new_transition.push(copy_vec(row));
            }
            state += 1;
        }
        let flip = copy_vec(&self.flip);
        proof {
            assert(table_view(new_transition) =~= self@.inverse().transition);
        }
        Transducer { transition: new_transition, flip }
    }

    /// Produce the inverse transducer; another name of `inverse`.
    pub fn reverse(&self) -> (t: Self)
        requires
            self@.transition.len() <= self@.flip.len(),
        ensures
            t@ == self@.inverse(),
    {
        self.inverse()
    }
}

} // verus!
