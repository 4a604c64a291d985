//! What a drawing of a transducer holds, and what a drawing of its orbit
//! tree holds: statements and words, for a renderer to lay out.

use crate::seqs::copy_vec;
use crate::machine::is_word;
use crate::machine::lemma_word_order_trans;
use crate::orbit::two_to;
use crate::machine::lemma_word_order;
use crate::machine::word_order;
use crate::machine::Machine;
use crate::transducer::words_order;
use crate::transducer::Transducer;
use vstd::prelude::*;

verus! {

/// The label of an edge of the drawing of a transducer.
#[derive(Clone, Copy, Debug, PartialEq, Eq, Structural)]
pub enum EdgeLabel {
    /// The edge is taken on both inputs.
    Both,
    /// The edge is taken on the input 0.
    Zero,
    /// The edge is taken on the input 1.
    One,
}

/// A statement of the drawing of a transducer.
#[derive(Clone, Copy, Debug, PartialEq, Eq, Structural)]
pub enum Stmt {
    /// A node for a state: a diamond where the state flips, else a circle.
    Node { state: usize, flipping: bool },
    /// An edge from a state to its successor.
    Edge { from: usize, to: usize, label: EdgeLabel },
}

impl Machine {
    /// The statements for the state `s`: its node, and one edge where both
    /// inputs lead to the same state, else one edge for each input.
    pub open spec fn state_stmts(self, s: int) -> Seq<Stmt> {
        if self.transition[s][0] == self.transition[s][1] {
            seq![
                Stmt::Node { state: s as usize, flipping: self.flip[s] > 0 },
                Stmt::Edge { from: s as usize, to: self.transition[s][0], label: EdgeLabel::Both },
            ]
        } else {
            seq![
                Stmt::Node { state: s as usize, flipping: self.flip[s] > 0 },
                Stmt::Edge { from: s as usize, to: self.transition[s][0], label: EdgeLabel::Zero },
                Stmt::Edge { from: s as usize, to: self.transition[s][1], label: EdgeLabel::One },
            ]
        }
    }

    /// The statements for the first `k` states, state after state.
    pub open spec fn stmts_upto(self, k: int) -> Seq<Stmt>
        decreases k,
    {
        if k <= 0 {
            Seq::empty()
        } else {
            self.stmts_upto(k - 1) + self.state_stmts(k - 1)
        }
    }

    /// The words below `w` in the orbit tree: `w` with 0, and `w` with 1
    /// unless the least word of the orbit of that is `w` with 0.
    pub open spec fn children(self, w: Seq<u8>) -> Seq<Seq<u8>> {
        if self.min_word(w.push(1)) != w.push(0) {
            seq![w.push(0), w.push(1)]
        } else {
            seq![w.push(0)]
        }
    }

    /// The words below the words of `ws`, word after word.
    pub open spec fn children_of(self, ws: Seq<Seq<u8>>) -> Seq<Seq<u8>>
        decreases ws.len(),
    {
        if ws.len() == 0 {
            Seq::empty()
        } else {
            self.children_of(ws.drop_last()) + self.children(ws.last())
        }
    }

    /// The words of the length `k` in the orbit tree.
    pub open spec fn level(self, k: nat) -> Seq<Seq<u8>>
        decreases k,
    {
        if k == 0 {
            seq![Seq::<u8>::empty()]
        } else {
            self.children_of(self.level((k - 1) as nat))
        }
    }

    /// The words of the orbit tree from the length 1 to the length `depth`,
    /// level after level.
    pub open spec fn tree(self, depth: nat) -> Seq<Seq<u8>>
        decreases depth,
    {
        if depth == 0 {
            Seq::empty()
        } else {
            self.tree((depth - 1) as nat) + self.level(depth)
        }
    }
}

/// The words of a sequence are words of the length `k`.
pub open spec fn words_of_len(ws: Seq<Seq<u8>>, k: nat) -> bool {
    forall|i: int| 0 <= i < ws.len() ==> is_word(#[trigger] ws[i]) && ws[i].len() == k
}

/// The words of the vectors of a sequence.
pub open spec fn words_view(v: Seq<Vec<u8>>) -> Seq<Seq<u8>> {
    v.map_values(|w: Vec<u8>| w@)
}

/// A word with one more symbol is a word.
pub proof fn lemma_push_is_word(w: Seq<u8>, c: u8)
    requires
        is_word(w),
        c <= 1,
    ensures
        is_word(w.push(c)),
{
    assert forall|i: int| 0 <= i < w.push(c).len() implies #[trigger] w.push(c)[i] <= 1 by {
        if i < w.len() {
            assert(w[i] <= 1);
        }
    }
}

impl Transducer {
    /// The statements of a drawing of the transducer's structure: for each
    /// state its node and its edges.
    pub fn graph(&self) -> (res: Vec<Stmt>)
        requires
            self@.wf(),
        ensures
            res@ == self@.stmts_upto(self@.len() as int),
    {
        let mut res: Vec<Stmt> = Vec::new();
        let n = self.len();
        let mut i: usize = 0;
        while i < n
            invariant
                self@.wf(),
                n == self@.len(),
                i <= n,
                res@ == self@.stmts_upto(i as int),
            decreases n - i,
        {
            let ghost before = res@;
            res.push(Stmt::Node { state: i, flipping: self.flip_of(i) > 0 });
            let t0 = self.next_state(i, 0);
            let t1 = self.next_state(i, 1);
            if t0 == t1 {
                res.push(Stmt::Edge { from: i, to: t0, label: EdgeLabel::Both });
            } else {
                res.push(Stmt::Edge { from: i, to: t0, label: EdgeLabel::Zero });
                res.push(Stmt::Edge { from: i, to: t1, label: EdgeLabel::One });
            }
            proof {
                assert(res@ =~= before + self@.state_stmts(i as int));
            }
            i += 1;
        }
        res
    }

    /// The words of the transducer's orbit tree up to the given `depth`, in
    /// the order in which a drawing states them: level after level, and in
    /// each level the words below one word together, 0 before 1. Each word
    /// is a node below the word without its last symbol; the word with 1 is
    /// left out where its orbit reaches the word with 0 as its least word.
    pub fn orbit_tree(&self, depth: usize) -> (res: Vec<Vec<u8>>)
        requires
            self@.wf(),
            self@.len() > 0,
        ensures
            words_view(res@) == self@.tree(depth as nat),
    {
        let mut res: Vec<Vec<u8>> = Vec::new();
        let mut words: Vec<Vec<u8>> = Vec::new();
        words.push(Vec::new());
        let mut k: usize = 0;
        proof {
            assert(words_view(words@) =~= self@.level(0));
            assert(words_view(res@) =~= self@.tree(0));
        }
        while k < depth
            invariant
                self@.wf(),
                self@.len() > 0,
                k <= depth,
                words_view(words@) == self@.level(k as nat),
                words_of_len(words_view(words@), k as nat),
                words_view(res@) == self@.tree(k as nat),
            decreases depth - k,
        {
            let mut new_words: Vec<Vec<u8>> = Vec::new();
            let ghost level = words_view(words@);
            let ghost base = words_view(res@);
            let mut i: usize = 0;
            proof {
                assert(level.take(0) =~= Seq::<Seq<u8>>::empty());
                assert(base + Seq::<Seq<u8>>::empty() =~= base);
            }
            while i < words.len()
                invariant
                    self@.wf(),
                    self@.len() > 0,
                    i <= words@.len(),
                    level == words_view(words@),
                    words_of_len(level, k as nat),
                    words_view(new_words@) == self@.children_of(level.take(i as int)),
                    words_of_len(words_view(new_words@), (k + 1) as nat),
                    words_view(res@) == base + words_view(new_words@),
                decreases words@.len() - i,
            {
                let word = &words[i];
                let ghost w = word@;
                let ghost before = words_view(new_words@);
                let ghost out = words_view(res@);
                let mut l = copy_vec(word);
                let mut r = copy_vec(word);
                l.push(0);
                r.push(1);
                proof {
                    assert(level[i as int] == w);
                    lemma_push_is_word(w, 0);
                    lemma_push_is_word(w, 1);
                    assert(level.take(i + 1).drop_last() =~= level.take(i as int));
                    assert(level.take(i + 1).last() == w);
                }
                new_words.push(copy_vec(&l));
                let m = self.min_word(&r);
                proof {
                    lemma_word_order(m@, l@);
                }
                let keep = words_order(&m, &l) != 0;
                res.push(l);
                if keep {
                    new_words.push(copy_vec(&r));
                    res.push(r);
                }
                proof {
                    assert(words_view(new_words@) =~= before + self@.children(w));
                    assert(words_view(res@) =~= out + self@.children(w));
                    assert(base + (before + self@.children(w)) =~= (base + before) + self@.children(w));
                    assert forall|j: int| 0 <= j < words_view(new_words@).len() implies is_word(
                        #[trigger] words_view(new_words@)[j],
                    ) && words_view(new_words@)[j].len() == k + 1 by {
                        if j < before.len() {
                            assert(words_view(new_words@)[j] == before[j]);
                        }
                    }
                }
                i += 1;
            }
            proof {
                assert(level.take(words@.len() as int) =~= level);
            }
            words = new_words;
            k += 1;
        }
        res
    }
}


impl Machine {
    /// `p` is the period of the word `w`: the least number of applications,
    /// at least one, that takes `w` back to itself.
    pub open spec fn is_period(self, w: Seq<u8>, p: nat) -> bool {
        &&& p >= 1
        &&& self.iterate(p, w) == w
        &&& forall|q: nat| 1 <= q < p ==> #[trigger] self.iterate(q, w) != w
    }

    /// `t` is the trace of the word `w`: for each word of the orbit of `w`,
    /// from `w` on, the state in which the machine ends on it.
    pub open spec fn is_trace(self, w: Seq<u8>, t: Seq<usize>) -> bool {
        &&& self.is_period(w, t.len())
        &&& forall|k: int| 0 <= k < t.len() ==> #[trigger] t[k] == self.end(self.iterate(k as nat, w))
    }

    /// The words below `w` in the detailed orbit tree: `w` with 0, and `w`
    /// with 1 unless it is in the orbit of `w` with 0.
    pub open spec fn kids(self, w: Seq<u8>) -> Seq<Seq<u8>> {
        if self.in_orbit(w.push(0), w.push(1)) {
            seq![w.push(0)]
        } else {
            seq![w.push(0), w.push(1)]
        }
    }

    /// The words below the words of `ws` in the detailed orbit tree, word
    /// after word.
    pub open spec fn kids_of(self, ws: Seq<Seq<u8>>) -> Seq<Seq<u8>>
        decreases ws.len(),
    {
        if ws.len() == 0 {
            Seq::empty()
        } else {
            self.kids_of(ws.drop_last()) + self.kids(ws.last())
        }
    }

    /// The words of the length `k` in the detailed orbit tree.
    pub open spec fn detailed_level(self, k: nat) -> Seq<Seq<u8>>
        decreases k,
    {
        if k == 0 {
            seq![Seq::<u8>::empty()]
        } else {
            self.kids_of(self.detailed_level((k - 1) as nat))
        }
    }

    /// The words of the detailed orbit tree from the length 1 to the length
    /// `depth`, level after level.
    pub open spec fn detailed_tree(self, depth: nat) -> Seq<Seq<u8>>
        decreases depth,
    {
        if depth == 0 {
            Seq::empty()
        } else {
            self.detailed_tree((depth - 1) as nat) + self.detailed_level(depth)
        }
    }
}

/// The word `a` comes before the word `b`: it is shorter, or as long and
/// before it symbol by symbol.
pub open spec fn shortlex(a: Seq<u8>, b: Seq<u8>) -> bool {
    a.len() < b.len() || (a.len() == b.len() && word_order(a, b) < 0)
}

/// Each word of the sequence comes before the words after it.
pub open spec fn ascending(ws: Seq<Seq<u8>>) -> bool {
    forall|i: int, j: int| 0 <= i < j < ws.len() ==> shortlex(#[trigger] ws[i], #[trigger] ws[j])
}

/// The order of two words of one length with one more symbol each: that of
/// the words, and where they are equal that of the symbols.
pub proof fn lemma_order_push(a: Seq<u8>, b: Seq<u8>, x: u8, y: u8)
    requires
        a.len() == b.len(),
    ensures
        word_order(a.push(x), b.push(y)) == if word_order(a, b) != 0 {
            word_order(a, b)
        } else if x < y {
            -1
        } else if x > y {
            1
        } else {
            0int
        },
    decreases a.len(),
{
    if a.len() == 0 {
        reveal_with_fuel(word_order, 3);
        assert(a.push(x).drop_first() =~= Seq::<u8>::empty());
        assert(b.push(y).drop_first() =~= Seq::<u8>::empty());
        assert(a.push(x)[0] == x);
        assert(b.push(y)[0] == y);
        assert(word_order(Seq::<u8>::empty(), Seq::<u8>::empty()) == 0);
        assert(word_order(a, b) == 0);
    } else {
        assert(a.push(x).drop_first() =~= a.drop_first().push(x));
        assert(b.push(y).drop_first() =~= b.drop_first().push(y));
        assert(a.push(x)[0] == a[0]);
        assert(b.push(y)[0] == b[0]);
        lemma_order_push(a.drop_first(), b.drop_first(), x, y);
    }
}

/// The words of the entries of a sequence.
pub open spec fn entry_words(v: Seq<(Vec<u8>, Vec<usize>)>) -> Seq<Seq<u8>> {
    v.map_values(|e: (Vec<u8>, Vec<usize>)| e.0@)
}

impl Transducer {
    /// The trace of the word: the transducer is applied until the word
    /// comes back, and the state in which it ends is noted each time. Also
    /// says whether `probe` is in the orbit of the word.
    pub fn orbit_trace(&self, word: &Vec<u8>, probe: &Vec<u8>) -> (r: (Vec<usize>, bool))
        requires
            self@.wf(),
            self@.len() > 0,
            is_word(word@),
        ensures
            self@.is_trace(word@, r.0@),
            r.1 == self@.in_orbit(word@, probe@),
    {
        let ghost w = word@;
        let mut v = copy_vec(word);
        let mut trace: Vec<usize> = Vec::new();
        let mut seen = false;
        let ghost mut i: nat = 0;
        loop
            invariant
                self@.wf(),
                self@.len() > 0,
                is_word(w),
                w == word@,
                v@ == self@.iterate(i, w),
                is_word(v@),
                trace@.len() == i,
                forall|k: int|
                    0 <= k < i ==> #[trigger] trace@[k] == self@.end(self@.iterate(k as nat, w)),
                forall|q: nat| 1 <= q <= i ==> #[trigger] self@.iterate(q, w) != w,
                self@.distinct_upto(w, i + 1),
                seen == (exists|q: nat| 1 <= q <= i && #[trigger] self@.iterate(q, w) == probe@),
            decreases two_to(w.len()) - i,
        {
            proof {
                self@.lemma_orbit_bound(w, i + 1);
                assert(self@.iterate(i + 1, w) == self@.output(self@.iterate(i, w)));
            }
            let ghost old_seen = seen;
            let s = self.step(&mut v);
            trace.push(s);
            proof {
                lemma_word_order(v@, probe@);
                lemma_word_order(v@, w);
            }
            if words_order(&v, probe) == 0 {
                seen = true;
            }
            proof {
                assert(seen == (exists|q: nat|
                    1 <= q <= i + 1 && #[trigger] self@.iterate(q, w) == probe@)) by {
                    if seen {
                        if old_seen {
                            let q = choose|q: nat|
                                1 <= q <= i && #[trigger] self@.iterate(q, w) == probe@;
                            assert(1 <= q <= i + 1 && self@.iterate(q, w) == probe@);
                        } else {
                            assert(1 <= i + 1 <= i + 1 && self@.iterate(i + 1, w) == probe@);
                        }
                    } else {
                        if exists|q: nat| 1 <= q <= i + 1 && #[trigger] self@.iterate(q, w) == probe@ {
                            let q = choose|q: nat|
                                1 <= q <= i + 1 && #[trigger] self@.iterate(q, w) == probe@;
                            if q <= i {
                                assert(1 <= q <= i && self@.iterate(q, w) == probe@);
                            }
                        }
                    }
                }
            }
            if words_order(&v, word) == 0 {
                proof {
                    let p = i + 1;
                    assert(self@.is_period(w, p));
                    if self@.in_orbit(w, probe@) {
                        let k = choose|k: nat| #[trigger] self@.iterate(k, w) == probe@;
                        self@.lemma_periodic(w, p, k);
                        vstd::arithmetic::div_mod::lemma_mod_bound(k as int, p as int);
                        let j = k % p;
                        if j == 0 {
                            assert(self@.iterate(0, w) == w);
                            assert(1 <= p <= i + 1 && self@.iterate(p, w) == probe@);
                        } else {
                            assert(1 <= j <= i + 1 && self@.iterate(j, w) == probe@);
                        }
                    }
                    if seen {
                        let q = choose|q: nat|
                            1 <= q <= i + 1 && #[trigger] self@.iterate(q, w) == probe@;
                        assert(self@.in_orbit(w, probe@));
                    }
                }
                return (trace, seen);
            }
            proof {
                self@.lemma_distinct_step(w, i + 1);
                i = i + 1;
            }
        }
    }

    /// For each word of the detailed orbit tree up to the given `depth`, the
    /// word and its trace. The words come level after level, which is
    /// shorter words first and words of one length in the order of their
    /// symbols. A word with 1 is left out where it is in the orbit of the
    /// word with 0 in its place.
    pub fn detailed_orbit_tree(&self, depth: usize) -> (res: Vec<(Vec<u8>, Vec<usize>)>)
        requires
            self@.wf(),
            self@.len() > 0,
        ensures
            entry_words(res@) == self@.detailed_tree(depth as nat),
            forall|i: int| 0 <= i < res@.len() ==> self@.is_trace((#[trigger] res@[i]).0@, res@[i].1@),
            ascending(entry_words(res@)),
    {
        let mut res: Vec<(Vec<u8>, Vec<usize>)> = Vec::new();
        let mut prev: Vec<Vec<u8>> = Vec::new();
        prev.push(Vec::new());
        let mut k: usize = 0;
        proof {
            assert(words_view(prev@) =~= self@.detailed_level(0));
            assert(entry_words(res@) =~= self@.detailed_tree(0));
        }
        while k < depth
            invariant
                self@.wf(),
                self@.len() > 0,
                k <= depth,
                words_view(prev@) == self@.detailed_level(k as nat),
                words_of_len(words_view(prev@), k as nat),
                ascending(words_view(prev@)),
                entry_words(res@) == self@.detailed_tree(k as nat),
                forall|i: int|
                    0 <= i < res@.len() ==> self@.is_trace((#[trigger] res@[i]).0@, res@[i].1@),
                ascending(entry_words(res@)),
                forall|i: int| 0 <= i < res@.len() ==> (#[trigger] entry_words(res@)[i]).len() <= k,
            decreases depth - k,
        {
            let mut new_prev: Vec<Vec<u8>> = Vec::new();
            let ghost level = words_view(prev@);
            let ghost base = entry_words(res@);
            let mut i: usize = 0;
            proof {
                assert(level.take(0) =~= Seq::<Seq<u8>>::empty());
                assert(base + Seq::<Seq<u8>>::empty() =~= base);
            }
            while i < prev.len()
                invariant
                    self@.wf(),
                    self@.len() > 0,
                    i <= prev@.len(),
                    level == words_view(prev@),
                    words_of_len(level, k as nat),
                    ascending(level),
                    words_view(new_prev@) == self@.kids_of(level.take(i as int)),
                    words_of_len(words_view(new_prev@), (k + 1) as nat),
                    entry_words(res@) == base + words_view(new_prev@),
                    forall|j: int|
                        0 <= j < res@.len() ==> self@.is_trace((#[trigger] res@[j]).0@, res@[j].1@),
                    forall|j: int| 0 <= j < base.len() ==> (#[trigger] base[j]).len() <= k,
                    ascending(base),
                    ascending(words_view(new_prev@)),
                    forall|j: int|
                        0 <= j < new_prev@.len() ==> i > 0 && word_order(
                            (#[trigger] words_view(new_prev@)[j]).drop_last(),
                            level[i - 1],
                        ) <= 0,
                decreases prev@.len() - i,
            {
                let word = &prev[i];
                let ghost w = word@;
                let ghost before = words_view(new_prev@);
                let ghost out = entry_words(res@);
                let ghost entries = res@;
                let mut target0 = copy_vec(word);
                let mut target1 = copy_vec(word);
                target0.push(0);
                target1.push(1);
                proof {
                    assert(level[i as int] == w);
                    lemma_push_is_word(w, 0);
                    lemma_push_is_word(w, 1);
                    assert(level.take(i + 1).drop_last() =~= level.take(i as int));
                    assert(level.take(i + 1).last() == w);
                }
                new_prev.push(copy_vec(&target0));
                let first = self.orbit_trace(&target0, &target1);
                let seen1 = first.1;
                let ghost t0 = target0@;
                let ghost t1 = target1@;
                res.push((target0, first.0));
                if !seen1 {
                    new_prev.push(copy_vec(&target1));
                    let second = self.orbit_trace(&target1, &target1);
                    res.push((target1, second.0));
                }
                proof {
                    let now = words_view(new_prev@);
                    assert(now =~= before + self@.kids(w));
                    assert(entry_words(res@) =~= out + self@.kids(w));
                    assert(base + (before + self@.kids(w)) =~= (base + before) + self@.kids(w));
                    assert forall|j: int| 0 <= j < now.len() implies is_word(#[trigger] now[j])
                        && now[j].len() == k + 1 by {
                        if j < before.len() {
                            assert(now[j] == before[j]);
                        }
                    }
                    assert forall|j: int| 0 <= j < res@.len() implies self@.is_trace(
                        (#[trigger] res@[j]).0@,
                        res@[j].1@,
                    ) by {
                        if j < entries.len() {
                            assert(res@[j] == entries[j]);
                        }
                    }
                    lemma_word_order(w, w);
                    assert(t0.drop_last() =~= w);
                    assert(t1.drop_last() =~= w);
                    assert forall|j: int| 0 <= j < now.len() implies word_order(
                        (#[trigger] now[j]).drop_last(),
                        level[i as int],
                    ) <= 0 by {
                        if j < before.len() {
                            assert(now[j] == before[j]);
                            assert(shortlex(level[i - 1], level[i as int]));
                            lemma_word_order_trans(before[j].drop_last(), level[i - 1], w);
                        }
                    }
                    assert forall|a: int, b: int| 0 <= a < b < now.len() implies shortlex(
                        #[trigger] now[a],
                        #[trigger] now[b],
                    ) by {
                        if b < before.len() {
                            assert(now[a] == before[a] && now[b] == before[b]);
                        } else if a < before.len() {
                            assert(now[a] == before[a]);
                            let pa = before[a].drop_last();
                            assert(before[a] =~= pa.push(before[a].last()));
                            assert(shortlex(level[i - 1], level[i as int]));
                            lemma_word_order_trans(pa, level[i - 1], w);
                            assert(now[b] == t0 || now[b] == t1);
                            lemma_order_push(pa, w, before[a].last(), 0);
                            lemma_order_push(pa, w, before[a].last(), 1);
                        } else {
                            lemma_order_push(w, w, 0, 1);
                        }
                    }
                }
                i += 1;
            }
            proof {
                assert(level.take(prev@.len() as int) =~= level);
                let all = entry_words(res@);
                let fresh = words_view(new_prev@);
                assert forall|a: int, b: int| 0 <= a < b < all.len() implies shortlex(
                    #[trigger] all[a],
                    #[trigger] all[b],
                ) by {
                    if b < base.len() {
                        assert(all[a] == base[a] && all[b] == base[b]);
                    } else if a < base.len() {
                        assert(all[a] == base[a]);
                        assert(all[b] == fresh[b - base.len()]);
                        assert(base[a].len() <= k);
                    } else {
                        assert(all[a] == fresh[a - base.len()]);
                        assert(all[b] == fresh[b - base.len()]);
                    }
                }
                assert forall|j: int| 0 <= j < all.len() implies (#[trigger] all[j]).len() <= k + 1 by {
                    if j < base.len() {
                        assert(all[j] == base[j]);
                    } else {
                        assert(all[j] == fresh[j - base.len()]);
                    }
                }
            }
            prev = new_prev;
            k += 1;
        }
        res
    }
}

} // verus!
