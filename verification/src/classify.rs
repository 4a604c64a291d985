//! The classification of the transducers of one size by the orbits of
//! their words.

use crate::combi::fact;
use crate::combi::lemma_fact_mono;
use crate::enumerate::count;
use crate::enumerate::lemma_machine_at_wf;
use crate::enumerate::machine_at;
use crate::enumerate::AllTransducers;
use crate::fx::members;
use crate::fx::set_contains;
use crate::fx::set_insert;
use crate::fx::set_items;
use crate::fx::set_new;
use crate::machine::Machine;
use crate::minimize::minimizes_to;
use crate::par::distinguish_all;
use crate::par::machines_of;
use crate::par::split_by_orbit;
use crate::seqs::cat;
use crate::seqs::join_all;
use crate::seqs::lemma_locate;
use crate::seqs::lemma_locate_injective;
use crate::seqs::lemma_locate_onto;
use crate::seqs::lists_of;
use crate::seqs::locate;
use crate::transducer::Transducer;
use rustc_hash::FxHashSet;
use vstd::prelude::*;

verus! {

/// Every machine of the set is well formed and has a state.
pub open spec fn sound(whole: Set<Machine>) -> bool {
    forall|m: Machine| #[trigger] whole.contains(m) ==> m.wf() && m.len() > 0
}

/// The set holds a machine.
pub open spec fn inhabited(s: Set<Machine>) -> bool {
    exists|m: Machine| s.contains(m)
}

/// The sets of machines of a sequence of sets of transducers.
pub open spec fn parts_of(v: Seq<FxHashSet<Transducer>>) -> Seq<Set<Machine>> {
    v.map_values(|h: FxHashSet<Transducer>| members(&h))
}

/// Every machine of every part is a machine of `whole`.
pub open spec fn within(whole: Set<Machine>, parts: Seq<Set<Machine>>) -> bool {
    forall|i: int, m: Machine|
        0 <= i < parts.len() && #[trigger] parts[i].contains(m) ==> whole.contains(m)
}

/// No part is empty.
pub open spec fn all_inhabited(parts: Seq<Set<Machine>>) -> bool {
    forall|i: int| 0 <= i < parts.len() ==> inhabited(#[trigger] parts[i])
}

/// Some part holds the machine.
pub open spec fn held(parts: Seq<Set<Machine>>, m: Machine) -> bool {
    exists|i: int| 0 <= i < parts.len() && (#[trigger] parts[i]).contains(m)
}

/// Every machine of `whole` is in a part.
pub open spec fn covers(whole: Set<Machine>, parts: Seq<Set<Machine>>) -> bool {
    forall|m: Machine| #[trigger] whole.contains(m) ==> held(parts, m)
}

/// Two machines are in one part exactly where the relation holds of them.
pub open spec fn sorted_by(
    parts: Seq<Set<Machine>>,
    rel: spec_fn(Machine, Machine) -> bool,
) -> bool {
    forall|i: int, j: int, a: Machine, b: Machine|
        0 <= i < parts.len() && 0 <= j < parts.len() && #[trigger] parts[i].contains(a)
            && #[trigger] parts[j].contains(b) ==> (i == j <==> rel(a, b))
}

/// `parts` are the classes of `whole` under orbit equality at the depth:
/// each part is a set of machines of `whole` and not empty, every machine
/// of `whole` is in a part, and two machines are in one part exactly where
/// their orbits agree.
pub open spec fn split_of(whole: Set<Machine>, parts: Seq<Set<Machine>>, depth: nat) -> bool {
    &&& within(whole, parts)
    &&& all_inhabited(parts)
    &&& covers(whole, parts)
    &&& sorted_by(parts, |a: Machine, b: Machine| a.orbit_equal(b, depth))
}

/// The orbits of the two machines agree at every depth from 1 to `depth`.
pub open spec fn alike(a: Machine, b: Machine, depth: nat) -> bool {
    forall|e: nat| 1 <= e <= depth ==> #[trigger] a.orbit_equal(b, e)
}

/// `parts` are the classes of `whole` under orbit equality at every depth up
/// to `depth`.
pub open spec fn classified(whole: Set<Machine>, parts: Seq<Set<Machine>>, depth: nat) -> bool {
    &&& within(whole, parts)
    &&& all_inhabited(parts)
    &&& covers(whole, parts)
    &&& sorted_by(parts, |a: Machine, b: Machine| alike(a, b, depth))
}

impl Machine {
    /// Orbit equality is an equivalence.
    pub proof fn lemma_orbit_equal(self, b: Machine, c: Machine, depth: nat)
        ensures
            self.orbit_equal(self, depth),
            self.orbit_equal(b, depth) ==> b.orbit_equal(self, depth),
            self.orbit_equal(b, depth) && b.orbit_equal(c, depth) ==> self.orbit_equal(c, depth),
            self.orbit_equal(b, depth) && !b.orbit_equal(c, depth) ==> !self.orbit_equal(c, depth),
    {
        if self.orbit_equal(b, depth) {
            assert forall|w: Seq<u8>|
                crate::machine::is_word(w) && w.len() == depth implies #[trigger] b.min_word(w)
                == self.min_word(w) by {
                assert(self.min_word(w) == b.min_word(w));
            }
            if b.orbit_equal(c, depth) {
                assert forall|w: Seq<u8>|
                    crate::machine::is_word(w) && w.len() == depth implies #[trigger] self.min_word(
                    w,
                ) == c.min_word(w) by {
                    assert(self.min_word(w) == b.min_word(w));
                    assert(b.min_word(w) == c.min_word(w));
                }
            }
            if self.orbit_equal(c, depth) {
                assert forall|w: Seq<u8>|
                    crate::machine::is_word(w) && w.len() == depth implies #[trigger] b.min_word(w)
                    == c.min_word(w) by {
                    assert(self.min_word(w) == b.min_word(w));
                    assert(self.min_word(w) == c.min_word(w));
                }
            }
        }
    }
}

/// What a sequence of transducers holds after a push, as machines.
pub proof fn lemma_machines_push(v: Seq<Transducer>, t: Transducer)
    ensures
        machines_of(v.push(t)).contains(t@),
        forall|m: Machine|
            #[trigger] machines_of(v.push(t)).contains(m) <==> machines_of(v).contains(m) || m == t@,
{
    let a = machines_of(v);
    let b = machines_of(v.push(t));
    assert(b =~= a.push(t@));
    crate::seqs::lemma_push_contains(a, t@);
}

/// What a sequence of transducers holds after its last item is taken off,
/// as machines.
pub proof fn lemma_machines_pop(v: Seq<Transducer>)
    requires
        v.len() > 0,
    ensures
        forall|m: Machine|
            machines_of(v).contains(m) <==> machines_of(v.drop_last()).contains(m) || m == v.last()@,
{
    assert(v =~= v.drop_last().push(v.last()));
    lemma_machines_push(v.drop_last(), v.last());
}

/// The set of the transducers of a vector.
fn set_of(v: Vec<Transducer>) -> (s: FxHashSet<Transducer>)
    ensures
        forall|m: Machine| members(&s).contains(m) <==> machines_of(v@).contains(m),
{
    let mut s = set_new();
    let mut v = v;
    let ghost all = v@;
    while v.len() > 0
        invariant
            forall|m: Machine|
                machines_of(all).contains(m) <==> members(&s).contains(m) || machines_of(
                    v@,
                ).contains(m),
        decreases v@.len(),
    {
        proof {
            lemma_machines_pop(v@);
        }
        let t = v.pop().unwrap();
        set_insert(&mut s, t);
    }
    proof {
        assert forall|m: Machine| !machines_of(v@).contains(m) by {
            if machines_of(v@).contains(m) {
                let i = choose|i: int| 0 <= i < machines_of(v@).len() && machines_of(v@)[i] == m;
            }
        }
    }
    s
}

/// Divides a class into the classes of orbit equality at the depth: a
/// member is taken out, the members whose orbits agree with its orbits are
/// put with it, and the same is done to the rest.
pub fn distinguish(class: &FxHashSet<Transducer>, depth: usize) -> (res: Vec<FxHashSet<Transducer>>)
    requires
        sound(members(class)),
    ensures
        split_of(members(class), parts_of(res@), depth as nat),
{
    let mut res: Vec<FxHashSet<Transducer>> = Vec::new();
    let mut remainder = set_items(class);
    let ghost whole = members(class);
    let ghost d = depth as nat;
    while remainder.len() > 0
        invariant
            whole == members(class),
            d == depth as nat,
            sound(whole),
            forall|m: Machine|
                whole.contains(m) <==> (exists|i: int|
                    0 <= i < res@.len() && (#[trigger] parts_of(res@)[i]).contains(m))
                    || machines_of(remainder@).contains(m),
            forall|i: int| 0 <= i < res@.len() ==> inhabited(#[trigger] parts_of(res@)[i]),
            forall|i: int, j: int, a: Machine, b: Machine|
                0 <= i < res@.len() && 0 <= j < res@.len() && #[trigger] parts_of(res@)[i].contains(a)
                    && #[trigger] parts_of(res@)[j].contains(b) ==> (i == j <==> a.orbit_equal(b, d)),
            forall|i: int, a: Machine, x: Machine|
                0 <= i < res@.len() && #[trigger] parts_of(res@)[i].contains(a) && #[trigger] machines_of(
                    remainder@,
                ).contains(x) ==> !a.orbit_equal(x, d),
        decreases remainder@.len(),
    {
        let ghost before = remainder@;
        let ghost old_parts = parts_of(res@);
        proof {
            lemma_machines_pop(before);
        }
        let cand = remainder.pop().unwrap();
        let ghost rest = remainder@;
        proof {
            assert(machines_of(before).contains(cand@)) by {
                assert(machines_of(before)[before.len() - 1] == cand@);
            }
            assert(whole.contains(cand@));
            assert forall|i: int| 0 <= i < rest.len() implies (#[trigger] rest[i])@.wf() && rest[i]@.len()
                > 0 by {
                assert(machines_of(before)[i] == rest[i]@);
                assert(machines_of(before).contains(rest[i]@));
                assert(whole.contains(rest[i]@));
            }
        }
        let (mut l, r) = split_by_orbit(&cand, remainder, depth);
        let ghost l0 = l@;
        proof {
            lemma_machines_push(l0, cand);
        }
        l.push(cand);
        let ghost lv = l@;
        let part = set_of(l);
        res.push(part);
        remainder = r;
        proof {
            let parts = parts_of(res@);
            let c = cand@;
            assert(parts =~= old_parts.push(members(&part)));
            let last = res@.len() - 1;
            assert forall|m: Machine| #[trigger] parts[last].contains(m) implies c.orbit_equal(m, d)
                && machines_of(before).contains(m) by {
                c.lemma_orbit_equal(c, c, d);
                if m != c {
                    assert(machines_of(l0).contains(m));
                    let k = choose|k: int| 0 <= k < machines_of(l0).len() && machines_of(l0)[k] == m;
                    assert(l0[k]@ == m);
                }
            }
            assert(parts[last] == members(&part));
            assert(lv == l0.push(cand));
            assert(machines_of(lv).contains(c));
            assert(parts[last].contains(c));
            assert forall|m: Machine|
                whole.contains(m) <==> (exists|i: int|
                    0 <= i < res@.len() && (#[trigger] parts[i]).contains(m)) || machines_of(
                    remainder@,
                ).contains(m) by {
                if exists|i: int| 0 <= i < res@.len() && (#[trigger] parts[i]).contains(m) {
                    let i = choose|i: int| 0 <= i < res@.len() && (#[trigger] parts[i]).contains(m);
                    if i < last {
                        assert(old_parts[i].contains(m));
                    }
                }
                if whole.contains(m) {
                    if exists|i: int| 0 <= i < last && (#[trigger] old_parts[i]).contains(m) {
                        let i = choose|i: int| 0 <= i < last && (#[trigger] old_parts[i]).contains(m);
                        assert(parts[i].contains(m));
                    } else {
                        assert(machines_of(before).contains(m));
                        if m != c && !machines_of(remainder@).contains(m) {
                            assert(machines_of(l0).contains(m));
                            assert(machines_of(lv).contains(m));
                            assert(parts[last].contains(m));
                        }
                        if m == c {
                            assert(parts[last].contains(m));
                        }
                    }
                }
            }
            assert forall|i: int| 0 <= i < res@.len() implies inhabited(#[trigger] parts[i]) by {
                if i < last {
                    assert(inhabited(old_parts[i]));
                    assert(parts[i] == old_parts[i]);
                }
            }
            assert forall|i: int, j: int, a: Machine, b: Machine|
                0 <= i < res@.len() && 0 <= j < res@.len() && #[trigger] parts[i].contains(a)
                    && #[trigger] parts[j].contains(b) implies (i == j <==> a.orbit_equal(b, d)) by {
                c.lemma_orbit_equal(a, b, d);
                c.lemma_orbit_equal(b, a, d);
                a.lemma_orbit_equal(b, c, d);
                b.lemma_orbit_equal(a, c, d);
                a.lemma_orbit_equal(c, b, d);
                if i < last {
                    assert(old_parts[i].contains(a));
                }
                if j < last {
                    assert(old_parts[j].contains(b));
                }
            }
            assert forall|i: int, a: Machine, x: Machine|
                0 <= i < res@.len() && #[trigger] parts[i].contains(a) && #[trigger] machines_of(
                    remainder@,
                ).contains(x) implies !a.orbit_equal(x, d) by {
                let k = choose|k: int|
                    0 <= k < machines_of(remainder@).len() && machines_of(remainder@)[k] == x;
                assert(remainder@[k]@ == x);
                assert(!c.orbit_equal(x, d));
                assert(machines_of(rest).contains(x));
                assert(machines_of(before).contains(x));
                if i < last {
                    assert(old_parts[i].contains(a));
                } else {
                    c.lemma_orbit_equal(a, x, d);
                }
            }
        }
    }
    proof {
        let parts = parts_of(res@);
        assert forall|m: Machine| !machines_of(remainder@).contains(m) by {
            if machines_of(remainder@).contains(m) {
                let i = choose|i: int|
                    0 <= i < machines_of(remainder@).len() && machines_of(remainder@)[i] == m;
            }
        }
        assert forall|i: int, m: Machine|
            0 <= i < parts.len() && #[trigger] parts[i].contains(m) implies whole.contains(m) by {}
        assert forall|m: Machine| #[trigger] whole.contains(m) implies held(parts, m) by {
            let i = choose|i: int| 0 <= i < res@.len() && (#[trigger] parts[i]).contains(m);
            assert(parts[i].contains(m));
        }
        let rel = |a: Machine, b: Machine| a.orbit_equal(b, d);
        assert forall|i: int, j: int, a: Machine, b: Machine|
            0 <= i < parts.len() && 0 <= j < parts.len() && #[trigger] parts[i].contains(a)
                && #[trigger] parts[j].contains(b) implies (i == j <==> rel(a, b)) by {}
    }
    res
}


/// `c` is the canonical form of the minimized form of the machine `t`.
pub open spec fn form_of(t: Machine, c: Machine) -> bool {
    exists|m: Machine| #[trigger] minimizes_to(t, m) && m.len() > 0 && c == m.canonical()
}

/// `s` holds a canonical minimized form of the transducer of `n` states at
/// position `k`.
pub open spec fn has_form(n: nat, s: Set<Machine>, k: nat) -> bool {
    exists|c: Machine| #[trigger] s.contains(c) && form_of(machine_at(n, k), c)
}

/// `s` holds the canonical minimized forms of the first `upto` transducers
/// of `n` states, one for each, and nothing else.
pub open spec fn represents(n: nat, s: Set<Machine>, upto: nat) -> bool {
    &&& sound(s)
    &&& forall|c: Machine|
        #[trigger] s.contains(c) ==> exists|k: nat| k < upto && form_of(#[trigger] machine_at(n, k), c)
    &&& forall|k: nat| k < upto ==> #[trigger] has_form(n, s, k)
}

/// Agreeing up to the next depth is agreeing up to this depth and at the
/// next.
pub proof fn lemma_alike_next(a: Machine, b: Machine, d: nat)
    ensures
        alike(a, b, d + 1) <==> alike(a, b, d) && a.orbit_equal(b, d + 1),
{
    if alike(a, b, d + 1) {
        assert(a.orbit_equal(b, d + 1));
        assert forall|e: nat| 1 <= e <= d implies #[trigger] a.orbit_equal(b, e) by {}
    }
    if alike(a, b, d) && a.orbit_equal(b, d + 1) {
        assert forall|e: nat| 1 <= e <= d + 1 implies #[trigger] a.orbit_equal(b, e) by {
            if e <= d {
            }
        }
    }
}

/// Each list of `lists` holds the classes of the part of `parts` at its
/// place, under orbit equality at the depth.
pub open spec fn all_split(
    parts: Seq<Set<Machine>>,
    lists: Seq<Seq<FxHashSet<Transducer>>>,
    d: nat,
) -> bool {
    forall|k: int| 0 <= k < parts.len() ==> split_of(parts[k], parts_of(#[trigger] lists[k]), d)
}

/// The parts that come of dividing the parts of `parts`: each is a part of
/// one list, and lies in the part that was divided.
pub proof fn lemma_refine_within(
    whole: Set<Machine>,
    parts: Seq<Set<Machine>>,
    lists: Seq<Seq<FxHashSet<Transducer>>>,
    d: nat,
)
    requires
        within(whole, parts),
        lists.len() == parts.len(),
        all_split(parts, lists, d),
    ensures
        within(whole, parts_of(cat(lists))),
        all_inhabited(parts_of(cat(lists))),
{
    let q = parts_of(cat(lists));
    assert forall|x: int, m: Machine| 0 <= x < q.len() && #[trigger] q[x].contains(m) implies whole.contains(
        m,
    ) by {
        lemma_locate(lists, x);
        let (k, j) = locate(lists, x);
        assert(split_of(parts[k], parts_of(lists[k]), d));
        assert(within(parts[k], parts_of(lists[k])));
        assert(parts_of(lists[k])[j].contains(m));
        assert(parts[k].contains(m));
    }
    assert forall|x: int| 0 <= x < q.len() implies inhabited(#[trigger] q[x]) by {
        lemma_locate(lists, x);
        let (k, j) = locate(lists, x);
        assert(split_of(parts[k], parts_of(lists[k]), d));
        assert(all_inhabited(parts_of(lists[k])));
        assert(inhabited(parts_of(lists[k])[j]));
    }
}

/// Every machine is in one of the parts that come of dividing the parts of
/// `parts`.
pub proof fn lemma_refine_covers(
    whole: Set<Machine>,
    parts: Seq<Set<Machine>>,
    lists: Seq<Seq<FxHashSet<Transducer>>>,
    d: nat,
)
    requires
        covers(whole, parts),
        lists.len() == parts.len(),
        all_split(parts, lists, d),
    ensures
        covers(whole, parts_of(cat(lists))),
{
    let q = parts_of(cat(lists));
    assert forall|m: Machine| #[trigger] whole.contains(m) implies held(q, m) by {
        assert(held(parts, m));
        let k = choose|k: int| 0 <= k < parts.len() && (#[trigger] parts[k]).contains(m);
        assert(split_of(parts[k], parts_of(lists[k]), d));
        assert(covers(parts[k], parts_of(lists[k])));
        assert(held(parts_of(lists[k]), m));
        let j = choose|j: int|
            0 <= j < parts_of(lists[k]).len() && (#[trigger] parts_of(lists[k])[j]).contains(m);
        lemma_locate_onto(lists, k, j);
        let x = choose|x: int| 0 <= x < cat(lists).len() && #[trigger] locate(lists, x) == (k, j);
        lemma_locate(lists, x);
        assert(q[x].contains(m));
    }
}

/// Two machines are in one of the parts that come of dividing the parts of
/// `parts` exactly where they were in one part and their orbits agree at the
/// next depth.
pub proof fn lemma_refine_sorted(
    parts: Seq<Set<Machine>>,
    lists: Seq<Seq<FxHashSet<Transducer>>>,
    d: nat,
    x: int,
    y: int,
    a: Machine,
    b: Machine,
)
    requires
        sorted_by(parts, |a: Machine, b: Machine| alike(a, b, d)),
        lists.len() == parts.len(),
        all_split(parts, lists, d + 1),
        0 <= x < cat(lists).len(),
        0 <= y < cat(lists).len(),
        parts_of(cat(lists))[x].contains(a),
        parts_of(cat(lists))[y].contains(b),
    ensures
        x == y <==> alike(a, b, d + 1),
{
    lemma_locate(lists, x);
    lemma_locate(lists, y);
    let (kx, jx) = locate(lists, x);
    let (ky, jy) = locate(lists, y);
    let px = parts_of(lists[kx]);
    let py = parts_of(lists[ky]);
    assert(split_of(parts[kx], px, d + 1));
    assert(split_of(parts[ky], py, d + 1));
    assert(within(parts[kx], px));
    assert(within(parts[ky], py));
    assert(px[jx].contains(a));
    assert(py[jy].contains(b));
    assert(parts[kx].contains(a));
    assert(parts[ky].contains(b));
    let rel = |a: Machine, b: Machine| alike(a, b, d);
    let rel2 = |a: Machine, b: Machine| a.orbit_equal(b, d + 1);
    assert(kx == ky <==> rel(a, b));
    lemma_alike_next(a, b, d);
    if kx == ky {
        assert(sorted_by(px, rel2));
        assert(jx == jy <==> rel2(a, b));
        if jx == jy {
            lemma_locate_injective(lists, x, y);
        }
    }
}

/// Dividing each class of a classification by orbit equality at the next
/// depth, and joining what comes of it, gives the classification at the
/// next depth.
pub proof fn lemma_refine(
    whole: Set<Machine>,
    parts: Seq<Set<Machine>>,
    lists: Seq<Seq<FxHashSet<Transducer>>>,
    d: nat,
)
    requires
        classified(whole, parts, d),
        lists.len() == parts.len(),
        all_split(parts, lists, d + 1),
    ensures
        classified(whole, parts_of(cat(lists)), d + 1),
{
    let q = parts_of(cat(lists));
    lemma_refine_within(whole, parts, lists, d + 1);
    lemma_refine_covers(whole, parts, lists, d + 1);
    let rel = |a: Machine, b: Machine| alike(a, b, d + 1);
    assert forall|x: int, y: int, a: Machine, b: Machine|
        0 <= x < q.len() && 0 <= y < q.len() && #[trigger] q[x].contains(a) && #[trigger] q[y].contains(
            b,
        ) implies (x == y <==> rel(a, b)) by {
        lemma_refine_sorted(parts, lists, d, x, y, a, b);
    }
}

/// The part lies in one of the parts of `coarse`.
pub open spec fn lies_in(part: Set<Machine>, coarse: Seq<Set<Machine>>) -> bool {
    exists|i: int| 0 <= i < coarse.len() && part.subset_of(#[trigger] coarse[i])
}

/// The classification at the next depth refines the classification at this
/// depth: each class of the former lies in a class of the latter.
pub proof fn lemma_refinement(
    whole: Set<Machine>,
    coarse: Seq<Set<Machine>>,
    fine: Seq<Set<Machine>>,
    d: nat,
)
    requires
        classified(whole, coarse, d),
        classified(whole, fine, d + 1),
    ensures
        forall|j: int| 0 <= j < fine.len() ==> lies_in(#[trigger] fine[j], coarse),
{
    let rel = |a: Machine, b: Machine| alike(a, b, d);
    let rel2 = |a: Machine, b: Machine| alike(a, b, d + 1);
    assert forall|j: int| 0 <= j < fine.len() implies lies_in(#[trigger] fine[j], coarse) by {
        assert(inhabited(fine[j]));
        let a = choose|a: Machine| fine[j].contains(a);
        assert(whole.contains(a));
        assert(held(coarse, a));
        let i = choose|i: int| 0 <= i < coarse.len() && (#[trigger] coarse[i]).contains(a);
        assert forall|b: Machine| fine[j].contains(b) implies coarse[i].contains(b) by {
            assert(whole.contains(b));
            assert(held(coarse, b));
            let i2 = choose|i2: int| 0 <= i2 < coarse.len() && (#[trigger] coarse[i2]).contains(b);
            assert(rel2(a, b));
            lemma_alike_next(a, b, d);
            assert(i == i2 <==> rel(a, b));
        }
        assert(fine[j].subset_of(coarse[i]));
    }
}

/// The canonical minimized forms of all transducers of the size, each once.
fn canonical_forms(size: usize) -> (initial: FxHashSet<Transducer>)
    requires
        0 < size < usize::MAX,
        fact((size - 1) as nat) <= usize::MAX,
    ensures
        represents(size as nat, members(&initial), count(size as nat)),
        inhabited(members(&initial)),
{
    let mut initial = set_new();
    let mut all = AllTransducers::new(size);
    let ghost n = size as nat;
    let mut going = true;
    proof {
        crate::enumerate::lemma_domains(n);
        let a = crate::enumerate::flip_count(n) as int;
        let b = crate::enumerate::table_count(n) as int;
        assert(a * b > 0) by (nonlinear_arith)
            requires
                a > 0,
                b > 0,
        ;
    }
    while going
        invariant
            n == size,
            0 < size < usize::MAX,
            fact((size - 1) as nat) <= usize::MAX,
            all.inv(),
            all.size() == n,
            all.yielded() <= count(n),
            count(n) > 0,
            !going ==> all.yielded() == count(n),
            represents(n, members(&initial), all.yielded()),
        decreases
                (count(n) - all.yielded()) + if going {
                    1int
                } else {
                    0int
                },
    {
        let ghost k = all.yielded();
        let ghost before = members(&initial);
        match all.next() {
            None => {
                going = false;
            },
            Some(t) => {
                proof {
                    lemma_machine_at_wf(n, k);
                }
                let m = t.minimize();
                proof {
                    lemma_fact_mono((m@.len() - 1) as nat, (size - 1) as nat);
                }
                let c = m.canonicalize();
                let ghost cv = c@;
                proof {
                    assert(minimizes_to(machine_at(n, k), m@) && m@.len() > 0 && cv == m@.canonical());
                    assert(form_of(machine_at(n, k), cv));
                }
                if !set_contains(&initial, &c) {
                    set_insert(&mut initial, c);
                }
                proof {
                    let now = members(&initial);
                    assert(now.contains(cv));
                    assert forall|x: Machine| #[trigger] now.contains(x) implies x.wf() && x.len()
                        > 0 by {
                        if x != cv {
                            assert(before.contains(x));
                        }
                    }
                    assert forall|x: Machine| #[trigger] now.contains(x) implies exists|j: nat|
                        j < k + 1 && form_of(#[trigger] machine_at(n, j), x) by {
                        if before.contains(x) {
                            let j = choose|j: nat| j < k && form_of(#[trigger] machine_at(n, j), x);
                            assert(j < k + 1 && form_of(machine_at(n, j), x));
                        } else {
                            assert(x == cv);
                            assert(k < k + 1 && form_of(machine_at(n, k), x));
                        }
                    }
                    assert forall|j: nat| j < k + 1 implies #[trigger] has_form(n, now, j) by {
                        if j < k {
                            assert(has_form(n, before, j));
                            let x = choose|x: Machine|
                                #[trigger] before.contains(x) && form_of(machine_at(n, j), x);
                            assert(now.contains(x) && form_of(machine_at(n, j), x));
                        } else {
                            assert(now.contains(cv) && form_of(machine_at(n, j), cv));
                        }
                    }
                }
            },
        }
    }
    proof {
        let s = members(&initial);
        assert(has_form(n, s, 0));
        let x = choose|x: Machine| #[trigger] s.contains(x) && form_of(machine_at(n, 0), x);
        assert(s.contains(x));
    }
    initial
}

/// Divide transducers of a given size into classes: the transducers are
/// minimized and brought to their canonical forms, and these are divided
/// by the orbits of the words of the lengths 1 to `depth`. Two forms are in
/// one class exactly where their orbits agree at every such length.
pub fn classify_transducers(size: usize, depth: usize) -> (classes: Vec<FxHashSet<Transducer>>)
    requires
        0 < size < usize::MAX,
        fact((size - 1) as nat) <= usize::MAX,
    ensures
        exists|s: Set<Machine>|
            #[trigger] represents(size as nat, s, count(size as nat)) && classified(
                s,
                parts_of(classes@),
                depth as nat,
            ),
{
    let initial = canonical_forms(size);
    let ghost s = members(&initial);
    let mut classes: Vec<FxHashSet<Transducer>> = Vec::new();
    classes.push(initial);
    proof {
        let parts = parts_of(classes@);
        assert(parts[0] == s);
        let rel = |a: Machine, b: Machine| alike(a, b, 0);
        assert forall|i: int, j: int, a: Machine, b: Machine|
            0 <= i < parts.len() && 0 <= j < parts.len() && #[trigger] parts[i].contains(a)
                && #[trigger] parts[j].contains(b) implies (i == j <==> rel(a, b)) by {}
        assert forall|m: Machine| #[trigger] s.contains(m) implies held(parts, m) by {
            assert(parts[0].contains(m));
        }
        assert(all_inhabited(parts));
        assert(within(s, parts));
    }
    let mut i: usize = 0;
    while i < depth
        invariant
            i <= depth,
            sound(s),
            classified(s, parts_of(classes@), i as nat),
        decreases depth - i,
    {
        let ghost parts = parts_of(classes@);
        proof {
            assert forall|k: int| 0 <= k < classes@.len() implies sound(
                members(&#[trigger] classes@[k]),
            ) by {
                assert forall|m: Machine| #[trigger] members(&classes@[k]).contains(m) implies m.wf()
                    && m.len() > 0 by {
                    assert(parts[k].contains(m));
                    assert(s.contains(m));
                }
            }
        }
        let split = distinguish_all(&classes, i + 1);
        proof {
            let lists = lists_of(split@);
            assert forall|k: int| 0 <= k < parts.len() implies split_of(
                parts[k],
                parts_of(#[trigger] lists[k]),
                i as nat + 1,
            ) by {
                assert(lists[k] == split@[k]@);
                assert(parts[k] == members(&classes@[k]));
            }
            assert(all_split(parts, lists, i as nat + 1));
            lemma_refine(s, parts, lists, i as nat);
        }
        classes = join_all(split);
        i += 1;
    }
    classes
}

} // verus!
