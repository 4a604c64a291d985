//! Minimization of transducers, by way of an automaton over the pairs
//! `(input, output)` in which every wrong output leads to a sink.

use crate::combi::Cycle;
use crate::combi::TCycle;
use crate::combi::UCycle;
use crate::dfa::DFA;
use crate::fx::map_get;
use crate::fx::map_insert;
use crate::fx::map_new;
use crate::machine::is_word;
use crate::machine::xor;
use crate::machine::Machine;
use crate::transducer::Transducer;
use rustc_hash::FxHashMap;
use vstd::prelude::*;
use vstd::std_specs::hash::obeys_key_model;

verus! {

/// The row of the state `s` in the automaton of the machine `m`. The symbol
/// `2 * a + b` stands for reading `a` and writing `b`: the pair that the
/// state does write leads where the machine goes, the other pair to the
/// sink, which is the state after the machine's last.
pub open spec fn pair_row(m: Machine, s: int) -> Map<u8, usize> {
    Map::new(
        |c: u8| c < 4,
        |c: u8|
            if c % 2 == xor(c / 2, m.flip[s]) {
                m.transition[s][(c / 2) as int]
            } else {
                m.len() as usize
            },
    )
}

/// The row of the sink: every pair stays there.
pub open spec fn sink_row(n: nat) -> Map<u8, usize> {
    Map::new(|c: u8| c < 4, |c: u8| n as usize)
}

/// `d` is the automaton of the machine `m`: one state for each state of the
/// machine, and the sink, which alone accepts.
pub open spec fn encodes(m: Machine, d: &DFA<u8>) -> bool {
    &&& d.states() == m.len() + 1
    &&& d.accept@.len() == m.len() + 1
    &&& d.alphabet@ == seq![0u8, 1u8, 2u8, 3u8]
    &&& forall|s: int| 0 <= s <= m.len() ==> #[trigger] d.accept@[s] == (s == m.len())
    &&& forall|s: int| 0 <= s < m.len() ==> #[trigger] d.delta(s) == pair_row(m, s)
    &&& d.delta(m.len() as int) == sink_row(m.len())
}

/// The automaton of a well-formed machine is well formed and defines every
/// pair in every state.
pub proof fn lemma_encodes_wf(m: Machine, d: &DFA<u8>)
    requires
        m.wf(),
        m.len() < usize::MAX,
        encodes(m, d),
    ensures
        d.wf(),
        d.uniform(),
{
    assert forall|s: int, a: u8| 0 <= s < d.states() && #[trigger] d.delta(s).contains_key(a) implies d.delta(
        s,
    )[a] < d.states() by {
        if s < m.len() {
            assert(d.delta(s) == pair_row(m, s));
            assert(m.transition[s].len() == 2);
            assert(m.transition[s][(a / 2) as int] < m.len());
        }
    }
    assert forall|s: int, a: u8| 0 <= s < d.states() implies (#[trigger] d.delta(s).contains_key(a)
        <==> d.delta(0).contains_key(a)) by {
        if s < m.len() {
            assert(d.delta(s) == pair_row(m, s));
        }
        if 0 < m.len() {
            assert(d.delta(0) == pair_row(m, 0));
        }
    }
}

/// The four pairs `(input, output)` in the order of the product cycle, each
/// as the symbol `2 * input + output`.
pub fn pair_codes() -> (r: Vec<u8>)
    ensures
        r@ == seq![0u8, 1u8, 2u8, 3u8],
{
    let mut cyc: TCycle<UCycle<u8>, UCycle<u8>> = TCycle::new((2u8, 2u8), true);
    let mut out: Vec<u8> = Vec::new();
    let mut going = true;
    while going
        invariant
            cyc.inv(),
            cyc.max() == (2nat, 2nat),
            cyc.limit(),
            going ==> (if cyc.done() {
                out@.len() == 4
            } else {
                out@.len() == cyc.pos()
            }),
            !going ==> out@.len() == 4,
            out@.len() <= 4,
            forall|k: int| 0 <= k < out@.len() ==> out@[k] == k,
        decreases
                (4 - out@.len()) + if going {
                    1int
                } else {
                    0int
                },
    {
        proof {
            cyc.lemma_size();
            assert(2 * 2 == 4) by (nonlinear_arith);
        }
        let ghost pos = cyc.pos();
        match cyc.next() {
            Some(p) => {
                proof {
                    assert(p.0 as nat == pos / 2);
                    assert(p.1 as nat == pos % 2);
                    assert(pos < 4);
                    if pos + 1 < 4 {
                        vstd::arithmetic::div_mod::lemma_small_mod(pos + 1, 4);
                        assert(cyc.pos() == pos + 1);
                        assert(!cyc.done());
                    } else {
                        assert(cyc.done());
                    }
                }
                out.push(2 * p.0 + p.1);
            },
            None => {
                going = false;
            },
        }
    }
    proof {
        assert(out@ =~= seq![0u8, 1u8, 2u8, 3u8]);
    }
    out
}

impl Transducer {
    /// The automaton of the transducer.
    fn encode(&self) -> (d: DFA<u8>)
        requires
            self@.wf(),
            self@.len() < usize::MAX,
        ensures
            encodes(self@, &d),
    {
        let n = self.len();
        let alphabet = pair_codes();
        let mut accept: Vec<bool> = Vec::new();
        let mut s: usize = 0;
        while s < n
            invariant
                s <= n,
                accept@.len() == s,
                forall|k: int| 0 <= k < s ==> !accept@[k],
            decreases n - s,
        {
            accept.push(false);
            s += 1;
        }
        accept.push(true);
        let mut transition: Vec<FxHashMap<u8, usize>> = Vec::new();
        let mut s1: usize = 0;
        while s1 < n
            invariant
                self@.wf(),
                n == self@.len(),
                n < usize::MAX,
                s1 <= n,
                obeys_key_model::<u8>(),
                transition@.len() == s1,
                forall|k: int| 0 <= k < s1 ==> (#[trigger] transition@[k])@ == pair_row(self@, k),
            decreases n - s1,
        {
            let mut nt: FxHashMap<u8, usize> = map_new();
            let f = self.flip_of(s1);
            let mut a: u8 = 0;
            while a < 2
                invariant
                    self@.wf(),
                    n == self@.len(),
                    s1 < n,
                    obeys_key_model::<u8>(),
                    a <= 2,
                    f == self@.flip[s1 as int],
                    f <= 1,
                    forall|c: u8| nt@.contains_key(c) <==> c < 2 * a,
                    forall|c: u8| c < 2 * a ==> nt@[c] == pair_row(self@, s1 as int)[c],
                decreases 2 - a,
            {
                let s2 = self.next_state(s1, a);
                let b = (a + f) % 2;
                let b0 = (a + f + 1) % 2;
                map_insert(&mut nt, 2 * a + b, s2);
                map_insert(&mut nt, 2 * a + b0, n);
                a += 1;
            }
            proof {
                assert(nt@ =~= pair_row(self@, s1 as int));
            }
            transition.push(nt);
            s1 += 1;
        }
        let mut nt: FxHashMap<u8, usize> = map_new();
        let mut i: usize = 0;
        while i < alphabet.len()
            invariant
                obeys_key_model::<u8>(),
                alphabet@ == seq![0u8, 1u8, 2u8, 3u8],
                i <= 4,
                forall|c: u8| nt@.contains_key(c) <==> c < i,
                forall|c: u8| c < i ==> nt@[c] == n,
            decreases 4 - i,
        {
            map_insert(&mut nt, alphabet[i], n);
            i += 1;
        }
        proof {
            assert(nt@ =~= sink_row(n as nat));
        }
        transition.push(nt);
        DFA { alphabet, transition, accept }
    }
}


/// The index of the state `c` once the state `k` is taken out.
pub open spec fn below(c: int, k: int) -> int {
    if c < k {
        c
    } else {
        c - 1
    }
}

/// What holds between a machine `t`, its automaton `d`, the pruned
/// automaton `p` and the minimized automaton `m`.
pub open spec fn minimized_automaton(t: Machine, d: &DFA<u8>, p: &DFA<u8>, m: &DFA<u8>) -> bool {
    &&& t.wf()
    &&& t.len() < usize::MAX
    &&& encodes(t, d)
    &&& d.pruned_by(p)
    &&& p.wf()
    &&& p.uniform()
    &&& p.quotient_by(m)
}

/// The state of the minimized transducer that stands for the state `s` of
/// the machine.
pub open spec fn new_state(t: Machine, d: &DFA<u8>, p: &DFA<u8>, s: int) -> int {
    below(d.image(p, s), d.image(p, t.len() as int))
}

/// The sink is reachable, its image is the one accepting state of the
/// minimized automaton, and every state of that automaton defines every pair.
pub proof fn lemma_sink_image(t: Machine, d: &DFA<u8>, p: &DFA<u8>, m: &DFA<u8>)
    requires
        minimized_automaton(t, d, p, m),
    ensures
        d.wf(),
        d.reachable(t.len() as int),
        0 <= d.image(p, t.len() as int) < m.states(),
        forall|c: int| 0 <= c < m.states() ==> (#[trigger] m.accept@[c] <==> c == d.image(p, t.len() as int)),
        m.alphabet@ == seq![0u8, 1u8, 2u8, 3u8],
        t.len() > 0 ==> d.image(p, t.len() as int) != 0,
{
    lemma_encodes_wf(t, d);
    let n = t.len() as int;
    d.lemma_minimize_start(p);
    if n > 0 {
        let f = t.flip[0];
        let c: u8 = if f == 0 { 1 } else { 0 };
        assert(d.delta(0) == pair_row(t, 0));
        let w = seq![c];
        assert(w.drop_last() =~= Seq::<u8>::empty());
        assert(d.reach(w.drop_last()) == Some(0int));
        assert(d.reach(w) == Some(n));
    }
    d.lemma_minimize_image(p, m, n);
    assert forall|c: int| 0 <= c < m.states() implies (#[trigger] m.accept@[c] <==> c == d.image(
        p,
        n,
    )) by {
        d.lemma_minimize_onto(p, m, c);
        let s = choose|s: int| 0 <= s < d.states() && #[trigger] d.reachable(s) && d.image(p, s) == c;
        d.lemma_minimize_image(p, m, s);
    }
    if n > 0 {
        d.lemma_minimize_image(p, m, 0);
    }
}

/// The row of the image of a reachable state `s` of the machine: the pair
/// that `s` writes on an input leads to the image of the successor of `s`,
/// which is not the image of the sink, and the other pair leads to the image
/// of the sink.
pub proof fn lemma_row_image(t: Machine, d: &DFA<u8>, p: &DFA<u8>, m: &DFA<u8>, s: int, c: u8)
    requires
        minimized_automaton(t, d, p, m),
        d.reachable(s),
        0 <= s < t.len(),
        c < 4,
    ensures
        0 <= d.image(p, s) < m.states(),
        d.image(p, s) != d.image(p, t.len() as int),
        m.delta(d.image(p, s)).contains_key(c),
        0 <= m.delta(d.image(p, s))[c] < m.states(),
        c % 2 == xor(c / 2, t.flip[s]) ==> {
            &&& m.delta(d.image(p, s))[c] == d.image(p, t.transition[s][(c / 2) as int] as int)
            &&& m.delta(d.image(p, s))[c] != d.image(p, t.len() as int)
            &&& d.reachable(t.transition[s][(c / 2) as int] as int)
            &&& t.transition[s][(c / 2) as int] < t.len()
        },
        c % 2 != xor(c / 2, t.flip[s]) ==> m.delta(d.image(p, s))[c] == d.image(p, t.len() as int),
{
    lemma_sink_image(t, d, p, m);
    d.lemma_minimize_image(p, m, s);
    assert(d.delta(s) == pair_row(t, s));
    assert(d.delta(s).contains_key(c));
    let target = d.delta(s)[c] as int;
    d.lemma_minimize_image(p, m, target);
    assert(t.transition[s].len() == 2);
    assert(t.transition[s][(c / 2) as int] < t.len());
}

/// The row and the flip bit are those of the state of the minimized
/// transducer that stands for the states of the machine with the image `c`.
pub open spec fn row_decoded(
    t: Machine,
    d: &DFA<u8>,
    p: &DFA<u8>,
    c: int,
    row: Seq<usize>,
    f: u8,
) -> bool {
    &&& row.len() == 2
    &&& f <= 1
    &&& forall|s: int|
        #[trigger] d.reachable(s) && 0 <= s < t.len() && d.image(p, s) == c ==> {
            &&& f == t.flip[s]
            &&& row[0] == new_state(t, d, p, t.transition[s][0] as int)
            &&& row[1] == new_state(t, d, p, t.transition[s][1] as int)
        }
}

/// The state of `r` that stands for the state `s` of the machine `t` has
/// the flip bit of `s`, and its successors stand for the successors of `s`.
pub open spec fn decoded_state(t: Machine, d: &DFA<u8>, p: &DFA<u8>, r: Machine, s: int) -> bool {
    &&& 0 <= new_state(t, d, p, s) < r.len()
    &&& r.flip[new_state(t, d, p, s)] == t.flip[s]
    &&& r.transition[new_state(t, d, p, s)][0] == new_state(t, d, p, t.transition[s][0] as int)
    &&& r.transition[new_state(t, d, p, s)][1] == new_state(t, d, p, t.transition[s][1] as int)
}

/// `r` is the machine read off the minimized automaton: every reachable
/// state of the machine `t` has its state in `r`.
pub open spec fn decoded(t: Machine, d: &DFA<u8>, p: &DFA<u8>, r: Machine) -> bool {
    forall|s: int|
        #![trigger decoded_state(t, d, p, r, s)]
        d.reachable(s) && 0 <= s < t.len() ==> decoded_state(t, d, p, r, s)
}

/// `r` is the minimized form of the machine `t`: there are the automaton of
/// `t`, its pruned automaton and its minimized automaton, and `r` is the
/// machine read off the last. The states of `r` are the classes of the
/// reachable states of `t` that behave alike, in the order of their least
/// members.
pub open spec fn minimizes_to(t: Machine, r: Machine) -> bool {
    exists|d: DFA<u8>, p: DFA<u8>, m: DFA<u8>|
        #[trigger] minimized_automaton(t, &d, &p, &m) && m.wf() && m.uniform() && decoded(
            t,
            &d,
            &p,
            r,
        ) && r.len() + 1 == m.states() && r.wf()
}

/// Reads the minimized transducer off the minimized automaton: each state
/// but the image of the sink becomes a state, its flip bit and successors
/// read from the pairs that do not lead to the sink.
fn decode(
    m: &DFA<u8>,
    Ghost(t): Ghost<Machine>,
    Ghost(d): Ghost<&DFA<u8>>,
    Ghost(p): Ghost<&DFA<u8>>,
) -> (r: Transducer)
    requires
        minimized_automaton(t, d, p, m),
        m.wf(),
        m.uniform(),
    ensures
        r@.wf(),
        r@.len() + 1 == m.states(),
        decoded(t, d, p, r@),
{
    let ghost n = t.len() as int;
    let ghost k = d.image(p, n);
    proof {
        lemma_sink_image(t, d, p, m);
    }
    let total = m.transition.len();
    let mut sink: usize = 0;
    let mut s: usize = 0;
    while s < m.accept.len()
        invariant
            total == m.states(),
            m.accept@.len() == total,
            s <= total,
            0 <= k < total,
            forall|c: int| 0 <= c < m.states() ==> (#[trigger] m.accept@[c] <==> c == k),
            sink == k || (sink == 0 && s <= k),
        decreases total - s,
    {
        if m.accept[s] {
            sink = s;
        }
        s += 1;
    }
    let mut new_transition: Vec<Vec<usize>> = Vec::new();
    let mut new_flip: Vec<u8> = Vec::new();
    let mut s1: usize = 0;
    while s1 < total
        invariant
            minimized_automaton(t, d, p, m),
            m.wf(),
            obeys_key_model::<u8>(),
            n == t.len(),
            k == d.image(p, n),
            total == m.states(),
            sink == k,
            0 <= k < total,
            s1 <= total,
            m.alphabet@ == seq![0u8, 1u8, 2u8, 3u8],
            new_transition@.len() == (if s1 <= k {
                s1 as int
            } else {
                s1 - 1
            }),
            new_flip@.len() == new_transition@.len(),
            forall|c: int|
                #![trigger below(c, k)]
                0 <= c < s1 && c != k ==> row_decoded(
                    t,
                    d,
                    p,
                    c,
                    new_transition@[below(c, k)]@,
                    new_flip@[below(c, k)],
                ),
        decreases total - s1,
    {
        if s1 != sink {
            let mut tn: Vec<usize> = Vec::new();
            tn.push(0);
            tn.push(0);
            let mut fb: u8 = 0;
            proof {
                d.lemma_minimize_onto(p, m, s1 as int);
            }
            let ghost s0 = choose|s: int|
                0 <= s < d.states() && #[trigger] d.reachable(s) && d.image(p, s) == s1;
            let ghost f0 = t.flip[s0];
            proof {
                assert(s0 != n);
                assert(f0 <= 1);
            }
            let mut ci: usize = 0;
            while ci < m.alphabet.len()
                invariant
                    minimized_automaton(t, d, p, m),
                    m.wf(),
                    obeys_key_model::<u8>(),
                    n == t.len(),
                    k == d.image(p, n),
                    total == m.states(),
                    sink == k,
                    0 <= k < total,
                    s1 < total,
                    s1 != k,
                    m.alphabet@ == seq![0u8, 1u8, 2u8, 3u8],
                    ci <= 4,
                    d.reachable(s0),
                    0 <= s0 < n,
                    d.image(p, s0) == s1,
                    f0 == t.flip[s0],
                    f0 <= 1,
                    tn@.len() == 2,
                    fb <= 1,
                    ci > f0 ==> fb == f0,
                    forall|a: u8|
                        a < 2 && 2 * a + xor(a, f0) < ci ==> #[trigger] tn@[a as int] == new_state(
                            t,
                            d,
                            p,
                            t.transition[s0][a as int] as int,
                        ),
                decreases 4 - ci,
            {
                let c = m.alphabet[ci];
                let a = c / 2;
                let b = c % 2;
                proof {
                    lemma_row_image(t, d, p, m, s0, c);
                }
                let target = map_get(&m.transition[s1], &c).unwrap();
                if target != sink {
                    fb = if a != b {
                        1
                    } else {
                        0
                    };
                    let x = if target < sink {
                        target
                    } else {
                        target - 1
                    };
                    tn.set(a as usize, x);
                }
                ci += 1;
            }
            let ghost old_transition = new_transition@;
            let ghost old_flip = new_flip@;
            new_flip.push(fb);
            new_transition.push(tn);
            proof {
                assert(row_decoded(t, d, p, s1 as int, tn@, fb)) by {
                    assert forall|s: int|
                        #[trigger] d.reachable(s) && 0 <= s < t.len() && d.image(p, s)
                            == s1 implies fb == t.flip[s] && tn@[0] == new_state(
                        t,
                        d,
                        p,
                        t.transition[s][0] as int,
                    ) && tn@[1] == new_state(t, d, p, t.transition[s][1] as int) by {
                        let c0: u8 = xor(0, f0);
                        let c1: u8 = (2 + xor(1, f0)) as u8;
                        lemma_row_image(t, d, p, m, s0, c0);
                        lemma_row_image(t, d, p, m, s0, c1);
                        lemma_row_image(t, d, p, m, s, c0);
                        lemma_row_image(t, d, p, m, s, c1);
                        assert(t.flip[s] <= 1);
                        assert(tn@[0int] == new_state(t, d, p, t.transition[s0][0] as int));
                        assert(tn@[1int] == new_state(t, d, p, t.transition[s0][1] as int));
                    }
                }
                assert forall|c: int|
                    #![trigger below(c, k)]
                    0 <= c < s1 + 1 && c != k implies row_decoded(
                    t,
                    d,
                    p,
                    c,
                    new_transition@[below(c, k)]@,
                    new_flip@[below(c, k)],
                ) by {
                    if c < s1 {
                        assert(new_transition@[below(c, k)] == old_transition[below(c, k)]);
                        assert(new_flip@[below(c, k)] == old_flip[below(c, k)]);
                    }
                }
            }
        }
        s1 += 1;
    }
    let r = Transducer::new(new_transition, new_flip);
    proof {
        assert(r@.transition.len() == total - 1);
        assert forall|s: int|
            #![trigger decoded_state(t, d, p, r@, s)]
            d.reachable(s) && 0 <= s < t.len() implies decoded_state(t, d, p, r@, s) by {
            lemma_row_image(t, d, p, m, s, 0);
            let c = d.image(p, s);
            assert(row_decoded(t, d, p, c, new_transition@[below(c, k)]@, new_flip@[below(c, k)]));
        }
        assert forall|x: int| 0 <= x < r@.transition.len() implies (#[trigger] r@.transition[x]).len()
            == 2 && r@.flip[x] <= 1 && r@.transition[x][0] < r@.transition.len() && r@.transition[x][1]
            < r@.transition.len() by {
            let c = if x < k { x } else { x + 1 };
            assert(below(c, k) == x);
            assert(row_decoded(t, d, p, c, new_transition@[below(c, k)]@, new_flip@[below(c, k)]));
            d.lemma_minimize_onto(p, m, c);
            let s = choose|s: int| 0 <= s < d.states() && #[trigger] d.reachable(s) && d.image(p, s) == c;
            assert(s != n);
            let c0: u8 = xor(0, t.flip[s]);
            let c1: u8 = (2 + xor(1, t.flip[s])) as u8;
            assert(t.flip[s] <= 1);
            lemma_row_image(t, d, p, m, s, c0);
            lemma_row_image(t, d, p, m, s, c1);
        }
        assert forall|x: int, a: int|
            0 <= x < r@.transition.len() && 0 <= a < 2 implies #[trigger] r@.transition[x][a]
            < r@.transition.len() by {
            assert(r@.transition[x].len() == 2);
        }
        assert forall|x: int| 0 <= x < r@.flip.len() implies #[trigger] r@.flip[x] <= 1 by {
            assert(r@.transition[x].len() == 2);
        }
        assert(r@.flip.len() == r@.transition.len());
    }
    r
}

/// The successors of a reachable state of the machine are reachable, and
/// their states in `r` are the successors of the state of `s` in `r`.
pub proof fn lemma_decoded_step(
    t: Machine,
    d: &DFA<u8>,
    p: &DFA<u8>,
    m: &DFA<u8>,
    r: Machine,
    s: int,
    a: int,
)
    requires
        minimized_automaton(t, d, p, m),
        decoded(t, d, p, r),
        d.reachable(s),
        0 <= s < t.len(),
        0 <= a < 2,
    ensures
        d.reachable(t.transition[s][a] as int),
        0 <= t.transition[s][a] < t.len(),
        r.transition[new_state(t, d, p, s)][a] == new_state(t, d, p, t.transition[s][a] as int),
        r.flip[new_state(t, d, p, s)] == t.flip[s],
{
    assert(decoded_state(t, d, p, r, s));
    assert(t.flip[s] <= 1);
    if a == 0 {
        let c: u8 = xor(0, t.flip[s]);
        lemma_row_image(t, d, p, m, s, c);
    } else {
        let c: u8 = (2 + xor(1, t.flip[s])) as u8;
        lemma_row_image(t, d, p, m, s, c);
    }
}

/// The state of the machine `t` after a word is reachable in its automaton,
/// and the machine `r` is then in the state that stands for it.
pub proof fn lemma_decoded_end(
    t: Machine,
    d: &DFA<u8>,
    p: &DFA<u8>,
    m: &DFA<u8>,
    r: Machine,
    w: Seq<u8>,
)
    requires
        minimized_automaton(t, d, p, m),
        decoded(t, d, p, r),
        t.len() > 0,
        is_word(w),
    ensures
        d.reachable(t.end(w)),
        0 <= t.end(w) < t.len(),
        r.end(w) == new_state(t, d, p, t.end(w)),
    decreases w.len(),
{
    if w.len() == 0 {
        lemma_sink_image(t, d, p, m);
        d.lemma_minimize_start(p);
    } else {
        crate::orbit::lemma_prefix_is_word(w, w.len() - 1);
        assert(w.take(w.len() - 1) == w.drop_last());
        lemma_decoded_end(t, d, p, m, r, w.drop_last());
        assert(w[w.len() - 1] <= 1);
        lemma_decoded_step(t, d, p, m, r, t.end(w.drop_last()), w.last() as int);
    }
}

/// The transducer read off the minimized automaton does to every word what
/// the machine does, and has no more states.
pub proof fn lemma_decoded_behavior(t: Machine, d: &DFA<u8>, p: &DFA<u8>, m: &DFA<u8>, r: Machine)
    requires
        minimized_automaton(t, d, p, m),
        r.wf(),
        r.len() + 1 == m.states(),
        decoded(t, d, p, r),
    ensures
        t.same_behavior(r),
        r.len() <= t.len(),
        t.len() > 0 ==> r.len() > 0,
{
    lemma_sink_image(t, d, p, m);
    lemma_encodes_wf(t, d);
    d.lemma_rank_mono(d.states() as int, d.states() as int);
    p.lemma_class_count_mono(p.states() as int, p.states() as int);
    if t.len() == 0 {
        assert(r.transition =~= t.transition);
        assert(r.flip =~= t.flip);
    } else {
        assert forall|w: Seq<u8>| is_word(w) implies #[trigger] t.output(w) == r.output(w) by {
            assert forall|i: int| 0 <= i < w.len() implies r.output(w)[i] == t.output(w)[i] by {
                crate::orbit::lemma_prefix_is_word(w, i);
                lemma_decoded_end(t, d, p, m, r, w.take(i));
                lemma_decoded_step(t, d, p, m, r, t.end(w.take(i)), 0);
            }
            assert(r.output(w) =~= t.output(w));
        }
    }
}

impl Transducer {
    /// Minimize a given transducer: the states that no word reaches are
    /// dropped, and the states that behave alike are merged.
    ///
    /// This uses the DFA representation of a transducer. DFAs minimization is
    /// well-known and the injection from transducers to DFAs preserves
    /// equivalence.
    pub fn minimize(&self) -> (r: Self)
        requires
            self@.wf(),
            self@.len() < usize::MAX,
        ensures
            self@.minimal(r@),
            minimizes_to(self@, r@),
    {
        let d = self.encode();
        proof {
            lemma_encodes_wf(self@, &d);
        }
        let m = d.minimize();
        let ghost p = choose|p: DFA<u8>|
            #[trigger] d.pruned_by(&p) && p.wf() && p.uniform() && p.quotient_by(&m);
        let r = decode(&m, Ghost(self@), Ghost(&d), Ghost(&p));
        proof {
            lemma_decoded_behavior(self@, &d, &p, &m, r@);
            assert(minimized_automaton(self@, &d, &p, &m) && m.wf() && m.uniform() && decoded(
                self@,
                &d,
                &p,
                r@,
            ) && r@.len() + 1 == m.states() && r@.wf());
        }
        r
    }
}

} // verus!
