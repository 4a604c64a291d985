//! Minimizing a minimized transducer changes nothing.

use crate::dfa::lemma_hom_language;
use crate::dfa::DFA;
use crate::machine::xor;
use crate::machine::Machine;
use crate::minimize::below;
use crate::minimize::decoded;
use crate::minimize::decoded_state;
use crate::minimize::encodes;
use crate::minimize::lemma_encodes_wf;
use crate::minimize::lemma_row_image;
use crate::minimize::lemma_sink_image;
use crate::minimize::minimized_automaton;
use crate::minimize::minimizes_to;
use crate::minimize::new_state;
use crate::minimize::pair_row;
use crate::minimize::sink_row;
use crate::reduced::lemma_hom_reach;
use crate::reduced::same_tables;
use vstd::prelude::*;

verus! {

/// The state of the automaton of the minimized machine that stands for the
/// state `c` of the minimized automaton: the image `k` of the sink goes to
/// the sink, which is the state `last`, and the others close the gap.
pub open spec fn moved(c: int, k: int, last: int) -> int {
    if c == k {
        last
    } else {
        below(c, k)
    }
}

/// The row of a state of the minimized automaton is, state by state moved,
/// the row of its state in the automaton of the minimized machine.
pub proof fn lemma_moved_row(
    t: Machine,
    d: &DFA<u8>,
    p: &DFA<u8>,
    m: &DFA<u8>,
    r: Machine,
    dd: &DFA<u8>,
    c: int,
    code: u8,
)
    requires
        minimized_automaton(t, d, p, m),
        m.wf(),
        decoded(t, d, p, r),
        r.len() + 1 == m.states(),
        r.wf(),
        encodes(r, dd),
        0 <= c < m.states(),
    ensures
        0 <= moved(c, d.image(p, t.len() as int), r.len() as int) <= r.len(),
        dd.accept@[moved(c, d.image(p, t.len() as int), r.len() as int)] == m.accept@[c],
        dd.delta(moved(c, d.image(p, t.len() as int), r.len() as int)).contains_key(code)
            <==> m.delta(c).contains_key(code),
        m.delta(c).contains_key(code) ==> 0 <= m.delta(c)[code] < m.states() && dd.delta(
            moved(c, d.image(p, t.len() as int), r.len() as int),
        )[code] == moved(m.delta(c)[code] as int, d.image(p, t.len() as int), r.len() as int),
{
    let n = t.len() as int;
    let k = d.image(p, n);
    let last = r.len() as int;
    lemma_sink_image(t, d, p, m);
    lemma_encodes_wf(t, d);
    assert(m.states() == m.transition.len());
    assert(r.len() < usize::MAX);
    if c == k {
        d.lemma_minimize_image(p, m, n);
        assert(d.delta(n) == sink_row(t.len()));
        assert(dd.delta(last) == sink_row(r.len()));
        if code < 4 {
            assert(d.delta(n).contains_key(code));
            assert(d.delta(n)[code] == n);
            assert(m.delta(c)[code] == d.image(p, n));
            assert(dd.delta(last)[code] == last);
        }
    } else {
        d.lemma_minimize_onto(p, m, c);
        let s = choose|s: int| 0 <= s < d.states() && #[trigger] d.reachable(s) && d.image(p, s) == c;
        assert(s != n);
        d.lemma_minimize_image(p, m, s);
        assert(d.delta(s) == pair_row(t, s));
        assert(decoded_state(t, d, p, r, s));
        let x = new_state(t, d, p, s);
        assert(x == below(c, k));
        assert(dd.delta(x) == pair_row(r, x));
        assert(!m.accept@[c]);
        if code < 4 {
            assert(d.delta(s).contains_key(code));
            lemma_row_image(t, d, p, m, s, code);
            assert(t.flip[s] <= 1);
            assert(r.flip[x] == t.flip[s]);
            assert(t.transition[s].len() == 2);
            assert(r.transition[x].len() == 2);
            assert(dd.delta(x).contains_key(code));
            if code % 2 == xor(code / 2, t.flip[s]) {
                let a = (code / 2) as int;
                let target = t.transition[s][a] as int;
                assert(m.delta(c)[code] == d.image(p, target));
                assert(d.image(p, target) != k);
                assert(a == 0 || a == 1);
                assert(r.transition[x][a] == new_state(t, d, p, target));
                assert(dd.delta(x)[code] == r.transition[x][a]);
                assert(moved(d.image(p, target), k, last) == below(d.image(p, target), k));
            } else {
                assert(m.delta(c)[code] == k);
                assert(dd.delta(x)[code] == r.len());
            }
        }
    }
}

/// The automaton of a minimized machine is reduced.
pub proof fn lemma_encoded_is_reduced(
    t: Machine,
    d: &DFA<u8>,
    p: &DFA<u8>,
    m: &DFA<u8>,
    r: Machine,
    dd: &DFA<u8>,
)
    requires
        minimized_automaton(t, d, p, m),
        m.wf(),
        decoded(t, d, p, r),
        r.len() + 1 == m.states(),
        r.wf(),
        encodes(r, dd),
    ensures
        dd.reduced(),
{
    let n = t.len() as int;
    let k = d.image(p, n);
    let last = r.len() as int;
    lemma_sink_image(t, d, p, m);
    lemma_encodes_wf(t, d);
    d.lemma_minimized_is_reduced(p, m);
    let h = |c: int| moved(c, k, last);
    let good = |c: int| 0 <= c < m.states();
    assert(h(0) == 0) by {
        if t.len() == 0 {
            d.lemma_minimize_start(p);
        }
    }
    assert forall|x: int| #[trigger] good(x) implies dd.accept@[h(x)] == m.accept@[x] by {
        lemma_moved_row(t, d, p, m, r, dd, x, 0);
    }
    assert forall|x: int, c: u8| good(x) implies (#[trigger] dd.delta(h(x)).contains_key(c)
        <==> m.delta(x).contains_key(c)) by {
        lemma_moved_row(t, d, p, m, r, dd, x, c);
    }
    assert forall|x: int, c: u8| good(x) && #[trigger] m.delta(x).contains_key(c) implies good(
        m.delta(x)[c] as int,
    ) && dd.delta(h(x))[c] as int == h(m.delta(x)[c] as int) by {
        lemma_moved_row(t, d, p, m, r, dd, x, c);
    }
    assert forall|x: int| 0 <= x < dd.states() implies #[trigger] dd.reachable(x) by {
        let c: int = if x == last {
            k
        } else if x < k {
            x
        } else {
            x + 1
        };
        assert(moved(c, k, last) == x);
        assert(m.reachable(c));
        let w = choose|w: Seq<u8>| #[trigger] m.reach(w) == Some(c);
        lemma_hom_reach(m, dd, h, good, w);
    }
    assert forall|x: int, y: int|
        0 <= x < dd.states() && 0 <= y < dd.states() && x != y implies !#[trigger] dd.equiv(x, y) by {
        let cx: int = if x == last {
            k
        } else if x < k {
            x
        } else {
            x + 1
        };
        let cy: int = if y == last {
            k
        } else if y < k {
            y
        } else {
            y + 1
        };
        assert(moved(cx, k, last) == x);
        assert(moved(cy, k, last) == y);
        assert(!m.equiv(cx, cy));
        let w = choose|w: Seq<u8>| #[trigger] m.accepts_from(cx, w) != m.accepts_from(cy, w);
        lemma_hom_language(m, dd, h, good, cx, w);
        lemma_hom_language(m, dd, h, good, cy, w);
    }
}

/// Where the automaton of a machine is reduced, each state is its own
/// image in the minimized automaton.
pub proof fn lemma_image_of_reduced(r: Machine, dd: &DFA<u8>, pp: &DFA<u8>, s: int)
    requires
        dd.wf(),
        dd.reduced(),
        dd.pruned_by(pp),
        0 <= s < dd.states(),
    ensures
        dd.image(pp, s) == s,
{
    dd.lemma_pruned_of_reduced(pp);
    dd.lemma_same_reduced(pp);
    dd.lemma_rank_of_reduced(s);
    pp.lemma_classes_of_reduced(s);
}

/// The machine read off the minimized automaton of a machine whose
/// automaton is reduced is the machine.
pub proof fn lemma_decoded_of_reduced(
    r: Machine,
    dd: &DFA<u8>,
    pp: &DFA<u8>,
    mm: &DFA<u8>,
    rr: Machine,
)
    requires
        minimized_automaton(r, dd, pp, mm),
        dd.reduced(),
        decoded(r, dd, pp, rr),
        rr.len() + 1 == mm.states(),
        rr.wf(),
    ensures
        rr == r,
{
    lemma_encodes_wf(r, dd);
    let n = r.len() as int;
    assert(rr.len() == r.len()) by {
        dd.lemma_pruned_of_reduced(pp);
        dd.lemma_same_reduced(pp);
        pp.lemma_quotient_of_reduced(mm);
    }
    assert forall|x: int| 0 <= x <= n implies #[trigger] dd.image(pp, x) == x by {
        lemma_image_of_reduced(r, dd, pp, x);
    }
    assert forall|s: int| 0 <= s < n implies rr.transition[s] == r.transition[s] && rr.flip[s]
        == r.flip[s] by {
        assert(dd.reachable(s));
        assert(decoded_state(r, dd, pp, rr, s));
        lemma_decoded_row_of_reduced(r, dd, pp, rr, s);
    }
    assert(rr.transition =~= r.transition);
    assert(rr.flip =~= r.flip);
}

/// The row of a state in the machine read off an automaton in which each
/// state is its own image is the row of the state.
pub proof fn lemma_decoded_row_of_reduced(
    r: Machine,
    dd: &DFA<u8>,
    pp: &DFA<u8>,
    rr: Machine,
    s: int,
)
    requires
        r.wf(),
        rr.wf(),
        rr.len() == r.len(),
        forall|x: int| 0 <= x <= r.len() ==> #[trigger] dd.image(pp, x) == x,
        decoded_state(r, dd, pp, rr, s),
        0 <= s < r.len(),
    ensures
        rr.transition[s] == r.transition[s],
        rr.flip[s] == r.flip[s],
{
    let n = r.len() as int;
    assert(dd.image(pp, s) == s);
    assert(dd.image(pp, n) == n);
    assert(new_state(r, dd, pp, s) == s);
    assert(r.transition[s].len() == 2);
    assert(rr.transition[s].len() == 2);
    let t0 = r.transition[s][0] as int;
    let t1 = r.transition[s][1] as int;
    assert(t0 < n && t1 < n);
    assert(dd.image(pp, t0) == t0);
    assert(dd.image(pp, t1) == t1);
    assert(new_state(r, dd, pp, t0) == t0);
    assert(new_state(r, dd, pp, t1) == t1);
    assert(rr.transition[s] =~= r.transition[s]);
}

/// Minimizing twice is minimizing once: the minimized form of a minimized
/// form is that form.
pub proof fn lemma_minimize_idempotent(t: Machine, r: Machine, rr: Machine)
    requires
        minimizes_to(t, r),
        minimizes_to(r, rr),
    ensures
        rr == r,
{
    let (d, p, m) = choose|d: DFA<u8>, p: DFA<u8>, m: DFA<u8>|
        #[trigger] minimized_automaton(t, &d, &p, &m) && m.wf() && m.uniform() && decoded(
            t,
            &d,
            &p,
            r,
        ) && r.len() + 1 == m.states() && r.wf();
    let (dd, pp, mm) = choose|dd: DFA<u8>, pp: DFA<u8>, mm: DFA<u8>|
        #[trigger] minimized_automaton(r, &dd, &pp, &mm) && mm.wf() && mm.uniform() && decoded(
            r,
            &dd,
            &pp,
            rr,
        ) && rr.len() + 1 == mm.states() && rr.wf();
    lemma_encoded_is_reduced(t, &d, &p, &m, r, &dd);
    lemma_decoded_of_reduced(r, &dd, &pp, &mm, rr);
}


/// Two automata of one machine have the same tables.
pub proof fn lemma_encodes_same(t: Machine, d: &DFA<u8>, e: &DFA<u8>)
    requires
        encodes(t, d),
        encodes(t, e),
    ensures
        same_tables(d, e),
{
    assert forall|s: int| 0 <= s < d.states() implies #[trigger] d.delta(s) == e.delta(s) by {
        if s < t.len() {
            assert(d.delta(s) == pair_row(t, s));
            assert(e.delta(s) == pair_row(t, s));
        }
    }
    assert(d.accept@ =~= e.accept@) by {
        assert forall|s: int| 0 <= s < d.accept@.len() implies d.accept@[s] == e.accept@[s] by {
            assert(d.accept@[s] == (s == t.len()));
            assert(e.accept@[s] == (s == t.len()));
        }
    }
}

/// A machine has one minimized form: `minimizes_to` holds of no two.
pub proof fn lemma_minimizes_to_one(t: Machine, a: Machine, b: Machine)
    requires
        minimizes_to(t, a),
        minimizes_to(t, b),
    ensures
        a == b,
{
    let (d, p, m) = choose|d: DFA<u8>, p: DFA<u8>, m: DFA<u8>|
        #[trigger] minimized_automaton(t, &d, &p, &m) && m.wf() && m.uniform() && decoded(
            t,
            &d,
            &p,
            a,
        ) && a.len() + 1 == m.states() && a.wf();
    let (e, q, o) = choose|e: DFA<u8>, q: DFA<u8>, o: DFA<u8>|
        #[trigger] minimized_automaton(t, &e, &q, &o) && o.wf() && o.uniform() && decoded(
            t,
            &e,
            &q,
            b,
        ) && b.len() + 1 == o.states() && b.wf();
    lemma_encodes_wf(t, &d);
    lemma_encodes_same(t, &d, &e);
    d.lemma_same_pruned(&e, &p, &q);
    p.lemma_same_quotient(&q, &m, &o);
    lemma_sink_image(t, &d, &p, &m);
    let n = t.len() as int;
    let k = d.image(&p, n);
    assert forall|s: int| 0 <= s <= n && d.reachable(s) implies #[trigger] d.image(&p, s) == e.image(
        &q,
        s,
    ) && e.reachable(s) by {
        d.lemma_same_rank(&e, s);
        d.lemma_rank_mono(s, d.states() as int);
        p.lemma_same_class_index(&q, d.rank(s) as int);
    }
    assert(a.len() == b.len());
    assert forall|x: int| 0 <= x < a.len() implies a.transition[x] == b.transition[x] && a.flip[x]
        == b.flip[x] by {
        let c: int = if x < k {
            x
        } else {
            x + 1
        };
        d.lemma_minimize_onto(&p, &m, c);
        let s = choose|s: int| 0 <= s < d.states() && #[trigger] d.reachable(s) && d.image(&p, s) == c;
        assert(s != n);
        assert(d.image(&p, s) == e.image(&q, s));
        assert(d.image(&p, n) == e.image(&q, n));
        assert(decoded_state(t, &d, &p, a, s));
        assert(decoded_state(t, &e, &q, b, s));
        assert(new_state(t, &d, &p, s) == x);
        assert(new_state(t, &e, &q, s) == x);
        assert(t.flip[s] <= 1);
        lemma_row_image(t, &d, &p, &m, s, xor(0, t.flip[s]));
        lemma_row_image(t, &d, &p, &m, s, (2 + xor(1, t.flip[s])) as u8);
        let t0 = t.transition[s][0] as int;
        let t1 = t.transition[s][1] as int;
        assert(d.image(&p, t0) == e.image(&q, t0));
        assert(d.image(&p, t1) == e.image(&q, t1));
        assert(a.transition[x].len() == 2);
        assert(b.transition[x].len() == 2);
        assert(a.transition[x] =~= b.transition[x]);
    }
    assert(a.transition =~= b.transition);
    assert(a.flip =~= b.flip);
}

} // verus!
