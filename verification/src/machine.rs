//! The mathematical model of a transducer: its tables as sequences, what it
//! does to a word, and the order in which transducers are compared.

use vstd::prelude::*;

verus! {

/// What a transducer is: for each state its two successors, and its flip bit.
pub struct Machine {
    /// For each state, the next state on input 0 and on input 1.
    pub transition: Seq<Seq<usize>>,
    /// For each state, the bit that is XORed onto the input while the state
    /// is active.
    pub flip: Seq<u8>,
}

/// A word over the binary alphabet: each symbol is 0 or 1.
pub open spec fn is_word(w: Seq<u8>) -> bool {
    forall|i: int| 0 <= i < w.len() ==> #[trigger] w[i] <= 1
}

/// The exclusive or of two bits.
pub open spec fn xor(a: u8, b: u8) -> u8 {
    if a == b {
        0
    } else {
        1
    }
}

impl Machine {
    /// The number of states.
    pub open spec fn len(self) -> nat {
        self.transition.len()
    }

    /// The tables fit together: one flip bit for each state, two successors
    /// for each state, each of them a state.
    pub open spec fn wf(self) -> bool {
        &&& self.flip.len() == self.transition.len()
        &&& forall|s: int| 0 <= s < self.transition.len() ==> (#[trigger] self.transition[s]).len() == 2
        &&& forall|s: int, a: int|
            0 <= s < self.transition.len() && 0 <= a < 2 ==> #[trigger] self.transition[s][a]
                < self.transition.len()
        &&& forall|s: int| 0 <= s < self.flip.len() ==> #[trigger] self.flip[s] <= 1
    }

    /// The machine in which the two successors of each state that flips have
    /// changed places.
    pub open spec fn inverse(self) -> Machine {
        Machine {
            transition: Seq::new(
                self.transition.len(),
                |s: int|
                    if self.flip[s] != 0 {
                        self.transition[s].reverse()
                    } else {
                        self.transition[s]
                    },
            ),
            flip: self.flip,
        }
    }

    /// The state in which the machine is after it has read the word `w`
    /// from the state `s`.
    pub open spec fn end_from(self, s: int, w: Seq<u8>) -> int
        decreases w.len(),
    {
        if w.len() == 0 {
            s
        } else {
            self.transition[self.end_from(s, w.drop_last())][w.last() as int] as int
        }
    }

    /// What the machine writes when it reads the word `w` from the state
    /// `s`: each symbol XORed with the flip bit of the state that reads it.
    pub open spec fn output_from(self, s: int, w: Seq<u8>) -> Seq<u8> {
        Seq::new(w.len(), |i: int| xor(w[i], self.flip[self.end_from(s, w.take(i))]))
    }

    /// The state after the word `w`, read from the start state.
    pub open spec fn end(self, w: Seq<u8>) -> int {
        self.end_from(0, w)
    }

    /// What the machine makes of the word `w`.
    pub open spec fn output(self, w: Seq<u8>) -> Seq<u8> {
        self.output_from(0, w)
    }

    /// The word `w` after `k` applications of the machine.
    pub open spec fn iterate(self, k: nat, w: Seq<u8>) -> Seq<u8>
        decreases k,
    {
        if k == 0 {
            w
        } else {
            self.output(self.iterate((k - 1) as nat, w))
        }
    }

    /// `u` is in the orbit of `w`: some number of applications takes `w` to `u`.
    pub open spec fn in_orbit(self, w: Seq<u8>, u: Seq<u8>) -> bool {
        exists|k: nat| #[trigger] self.iterate(k, w) == u
    }

    /// `m` is the least word of the orbit of `w`.
    pub open spec fn is_min_word(self, w: Seq<u8>, m: Seq<u8>) -> bool {
        &&& self.in_orbit(w, m)
        &&& forall|u: Seq<u8>| #[trigger] self.in_orbit(w, u) ==> word_order(m, u) <= 0
    }

    /// The least word of the orbit of `w`.
    pub open spec fn min_word(self, w: Seq<u8>) -> Seq<u8> {
        choose|m: Seq<u8>| self.is_min_word(w, m)
    }

    /// The two machines do the same to every word.
    pub open spec fn same_behavior(self, other: Machine) -> bool {
        forall|w: Seq<u8>| is_word(w) ==> #[trigger] self.output(w) == other.output(w)
    }

    /// `r` is a minimized form of the machine: well formed, with no more
    /// states, with a state if the machine has one, and doing the same to
    /// every word.
    pub open spec fn minimal(self, r: Machine) -> bool {
        &&& r.wf()
        &&& r.len() <= self.len()
        &&& self.len() > 0 ==> r.len() > 0
        &&& self.same_behavior(r)
    }

    /// The orbits of the two machines have the same least words, on every
    /// word of the length `depth`.
    pub open spec fn orbit_equal(self, other: Machine, depth: nat) -> bool {
        forall|w: Seq<u8>|
            is_word(w) && w.len() == depth ==> #[trigger] self.min_word(w) == other.min_word(w)
    }
}

/// The order of two words, symbol by symbol from the front, a proper prefix
/// coming first: -1, 0 or 1.
pub open spec fn word_order(a: Seq<u8>, b: Seq<u8>) -> int
    decreases a.len(),
{
    if a.len() == 0 {
        if b.len() == 0 {
            0
        } else {
            -1
        }
    } else if b.len() == 0 {
        1
    } else if a[0] < b[0] {
        -1
    } else if a[0] > b[0] {
        1
    } else {
        word_order(a.drop_first(), b.drop_first())
    }
}

/// The order of two rows of a transition table, entry by entry from the
/// front, a proper prefix coming first: -1, 0 or 1.
pub open spec fn row_order(a: Seq<usize>, b: Seq<usize>) -> int
    decreases a.len(),
{
    if a.len() == 0 {
        if b.len() == 0 {
            0
        } else {
            -1
        }
    } else if b.len() == 0 {
        1
    } else if a[0] < b[0] {
        -1
    } else if a[0] > b[0] {
        1
    } else {
        row_order(a.drop_first(), b.drop_first())
    }
}

/// The order of two transition tables, row by row from the front, a proper
/// prefix coming first: -1, 0 or 1.
pub open spec fn table_order(a: Seq<Seq<usize>>, b: Seq<Seq<usize>>) -> int
    decreases a.len(),
{
    if a.len() == 0 {
        if b.len() == 0 {
            0
        } else {
            -1
        }
    } else if b.len() == 0 {
        1
    } else if row_order(a[0], b[0]) != 0 {
        row_order(a[0], b[0])
    } else {
        table_order(a.drop_first(), b.drop_first())
    }
}

/// The order of two machines: by their transition tables, and where these
/// are equal by their flip bits. -1, 0 or 1.
pub open spec fn machine_order(x: Machine, y: Machine) -> int {
    if table_order(x.transition, y.transition) != 0 {
        table_order(x.transition, y.transition)
    } else {
        word_order(x.flip, y.flip)
    }
}

/// Words are equal exactly where their order is 0, and the order of a pair
/// turns round with the pair.
pub proof fn lemma_word_order(a: Seq<u8>, b: Seq<u8>)
    ensures
        -1 <= word_order(a, b) <= 1,
        word_order(a, b) == 0 <==> a == b,
        word_order(b, a) == -word_order(a, b),
    decreases a.len(),
{
    if a.len() > 0 && b.len() > 0 {
        lemma_word_order(a.drop_first(), b.drop_first());
        if a[0] == b[0] && a.drop_first() == b.drop_first() {
            assert(a =~= seq![a[0]] + a.drop_first());
            assert(b =~= seq![b[0]] + b.drop_first());
        }
    } else if a.len() == 0 && b.len() == 0 {
        assert(a =~= b);
    }
}

/// The order of words is transitive.
pub proof fn lemma_word_order_trans(a: Seq<u8>, b: Seq<u8>, c: Seq<u8>)
    requires
        word_order(a, b) <= 0,
        word_order(b, c) <= 0,
    ensures
        word_order(a, c) <= 0,
        word_order(a, b) < 0 || word_order(b, c) < 0 ==> word_order(a, c) < 0,
    decreases a.len(),
{
    lemma_word_order(a, b);
    lemma_word_order(b, c);
    lemma_word_order(a, c);
    if a.len() > 0 && b.len() > 0 && c.len() > 0 {
        if a[0] == b[0] && b[0] == c[0] {
            lemma_word_order_trans(a.drop_first(), b.drop_first(), c.drop_first());
        }
    }
}

/// Rows are equal exactly where their order is 0, and the order of a pair
/// turns round with the pair.
pub proof fn lemma_row_order(a: Seq<usize>, b: Seq<usize>)
    ensures
        -1 <= row_order(a, b) <= 1,
        row_order(a, b) == 0 <==> a == b,
        row_order(b, a) == -row_order(a, b),
    decreases a.len(),
{
    if a.len() > 0 && b.len() > 0 {
        lemma_row_order(a.drop_first(), b.drop_first());
        if a[0] == b[0] && a.drop_first() == b.drop_first() {
            assert(a =~= seq![a[0]] + a.drop_first());
            assert(b =~= seq![b[0]] + b.drop_first());
        }
    } else if a.len() == 0 && b.len() == 0 {
        assert(a =~= b);
    }
}

/// The order of rows is transitive.
pub proof fn lemma_row_order_trans(a: Seq<usize>, b: Seq<usize>, c: Seq<usize>)
    requires
        row_order(a, b) <= 0,
        row_order(b, c) <= 0,
    ensures
        row_order(a, c) <= 0,
        row_order(a, b) < 0 || row_order(b, c) < 0 ==> row_order(a, c) < 0,
    decreases a.len(),
{
    lemma_row_order(a, b);
    lemma_row_order(b, c);
    lemma_row_order(a, c);
    if a.len() > 0 && b.len() > 0 && c.len() > 0 {
        if a[0] == b[0] && b[0] == c[0] {
            lemma_row_order_trans(a.drop_first(), b.drop_first(), c.drop_first());
        }
    }
}

/// Tables are equal exactly where their order is 0, and the order of a pair
/// turns round with the pair.
pub proof fn lemma_table_order(a: Seq<Seq<usize>>, b: Seq<Seq<usize>>)
    ensures
        -1 <= table_order(a, b) <= 1,
        table_order(a, b) == 0 <==> a == b,
        table_order(b, a) == -table_order(a, b),
    decreases a.len(),
{
    if a.len() > 0 && b.len() > 0 {
        lemma_row_order(a[0], b[0]);
        lemma_table_order(a.drop_first(), b.drop_first());
        if a[0] == b[0] && a.drop_first() == b.drop_first() {
            assert(a =~= seq![a[0]] + a.drop_first());
            assert(b =~= seq![b[0]] + b.drop_first());
        }
    } else if a.len() == 0 && b.len() == 0 {
        assert(a =~= b);
    }
}

/// The order of tables is transitive.
pub proof fn lemma_table_order_trans(a: Seq<Seq<usize>>, b: Seq<Seq<usize>>, c: Seq<Seq<usize>>)
    requires
        table_order(a, b) <= 0,
        table_order(b, c) <= 0,
    ensures
        table_order(a, c) <= 0,
        table_order(a, b) < 0 || table_order(b, c) < 0 ==> table_order(a, c) < 0,
    decreases a.len(),
{
    lemma_table_order(a, b);
    lemma_table_order(b, c);
    lemma_table_order(a, c);
    if a.len() > 0 && b.len() > 0 && c.len() > 0 {
        lemma_row_order(a[0], b[0]);
        lemma_row_order(b[0], c[0]);
        lemma_row_order(a[0], c[0]);
        if row_order(a[0], b[0]) <= 0 && row_order(b[0], c[0]) <= 0 {
            lemma_row_order_trans(a[0], b[0], c[0]);
        }
        if a[0] == b[0] && b[0] == c[0] {
            lemma_table_order_trans(a.drop_first(), b.drop_first(), c.drop_first());
        }
    }
}

/// The order of machines is a total order: machines are equal exactly where
/// their order is 0, the order of a pair turns round with the pair, and it
/// is transitive.
pub proof fn lemma_machine_order(x: Machine, y: Machine, z: Machine)
    ensures
        -1 <= machine_order(x, y) <= 1,
        machine_order(x, y) == 0 <==> x == y,
        machine_order(y, x) == -machine_order(x, y),
        machine_order(x, y) <= 0 && machine_order(y, z) <= 0 ==> machine_order(x, z) <= 0,
{
    lemma_table_order(x.transition, y.transition);
    lemma_table_order(y.transition, z.transition);
    lemma_table_order(x.transition, z.transition);
    lemma_word_order(x.flip, y.flip);
    lemma_word_order(y.flip, z.flip);
    lemma_word_order(x.flip, z.flip);
    if machine_order(x, y) <= 0 && machine_order(y, z) <= 0 {
        lemma_table_order_trans(x.transition, y.transition, z.transition);
        if x.transition == y.transition && y.transition == z.transition {
            lemma_word_order_trans(x.flip, y.flip, z.flip);
        }
    }
}

} // verus!
