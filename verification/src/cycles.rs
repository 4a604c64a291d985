//! Cycles with explicit `next`, `peek`, `root` and `reset`: counters whose
//! state is a vector of items, alone, in vectors and in pairs, and the
//! enumerations that run them once round.

use crate::combi::Scalar;
use crate::seqs::copy_vec;
use vstd::prelude::*;

verus! {

/// A cycle whose state shows as a vector of items.
///
/// `next` moves the state on by one step, `reset` takes it back to its
/// origin, `peek` shows it, and `root` shows its origin.
pub trait Cycle: Sized {
    /// What says how wide the cycle is.
    type Width;

    /// The items that the state shows.
    type Item;

    /// What a width stands for.
    type W;

    /// What an item stands for.
    type V;

    /// What the state of a cycle stands for.
    type State;

    /// What the width `w` stands for.
    spec fn width_model(w: &Self::Width) -> Self::W;

    /// What the item `x` stands for.
    spec fn model(x: &Self::Item) -> Self::V;

    /// The widths and heights that a cycle can be made from.
    spec fn valid(width: Self::W, height: Self::V) -> bool;

    /// The state of a cycle that has just been made.
    spec fn start(width: Self::W, height: Self::V) -> Self::State;

    /// The states that a cycle can be in.
    spec fn sound(s: Self::State) -> bool;

    /// The state after one step.
    spec fn succ(s: Self::State) -> Self::State;

    /// The state to which `reset` takes the state `s`.
    spec fn origin(s: Self::State) -> Self::State;

    /// What the state shows.
    spec fn shown(s: Self::State) -> Seq<Self::V>;

    /// The state of the cycle.
    spec fn state(&self) -> Self::State;

    /// A freshly made cycle is in a state that it can be in, and steps and
    /// resets keep it so.
    proof fn lemma_sound(width: Self::W, height: Self::V, s: Self::State)
        ensures
            Self::valid(width, height) ==> Self::sound(Self::start(width, height)),
            Self::sound(s) ==> Self::sound(Self::succ(s)) && Self::sound(Self::origin(s)),
    ;

    /// Creates a cycle of the given width, whose items run below `height`.
    fn new(width: Self::Width, height: Self::Item) -> (c: Self)
        requires
            Self::valid(Self::width_model(&width), Self::model(&height)),
        ensures
            c.state() == Self::start(Self::width_model(&width), Self::model(&height)),
    ;

    /// Shows the state, and moves it on by one step.
    fn next(&mut self) -> (r: Vec<Self::Item>)
        requires
            Self::sound(old(self).state()),
        ensures
            r@.map_values(|x: Self::Item| Self::model(&x)) == Self::shown(old(self).state()),
            final(self).state() == Self::succ(old(self).state()),
    ;

    /// Shows the state.
    fn peek(&self) -> (r: Vec<Self::Item>)
        requires
            Self::sound(self.state()),
        ensures
            r@.map_values(|x: Self::Item| Self::model(&x)) == Self::shown(self.state()),
    ;

    /// Shows the origin of the state.
    fn root(&self) -> (r: Vec<Self::Item>)
        requires
            Self::sound(self.state()),
        ensures
            r@.map_values(|x: Self::Item| Self::model(&x)) == Self::shown(Self::origin(self.state())),
    ;

    /// Takes the state back to its origin.
    fn reset(&mut self)
        requires
            Self::sound(old(self).state()),
        ensures
            final(self).state() == Self::origin(old(self).state()),
    ;

    /// Whether two items stand for the same.
    fn same_item(a: &Self::Item, b: &Self::Item) -> (r: bool)
        ensures
            r == (Self::model(a) == Self::model(b)),
    ;

    /// A copy of an item.
    fn copy_item(x: &Self::Item) -> (r: Self::Item)
        ensures
            Self::model(&r) == Self::model(x),
    ;

    /// A copy of a width.
    fn copy_width(w: &Self::Width) -> (r: Self::Width)
        ensures
            Self::width_model(&r) == Self::width_model(w),
    ;
}

/// What the items of a sequence stand for.
pub open spec fn models<C: Cycle>(v: Seq<C::Item>) -> Seq<C::V> {
    v.map_values(|x: C::Item| C::model(&x))
}

/// The two sequences differ at a place that both have.
pub open spec fn differ<A>(a: Seq<A>, b: Seq<A>) -> bool {
    exists|i: int| 0 <= i < a.len() && 0 <= i < b.len() && a[i] != b[i]
}

/// Whether the two vectors differ at a place that both have.
pub fn items_differ<C: Cycle>(a: &Vec<C::Item>, b: &Vec<C::Item>) -> (r: bool)
    ensures
        r == differ(models::<C>(a@), models::<C>(b@)),
{
    let mut i: usize = 0;
    while i < a.len() && i < b.len()
        invariant
            i <= a@.len(),
            i <= b@.len(),
            forall|k: int| 0 <= k < i ==> models::<C>(a@)[k] == models::<C>(b@)[k],
        decreases a@.len() - i,
    {
        if !C::same_item(&a[i], &b[i]) {
            proof {
                assert(models::<C>(a@)[i as int] != models::<C>(b@)[i as int]);
            }
            return true;
        }
        i += 1;
    }
    false
}

/// Whether the two vectors stand for the same sequence.
pub fn items_equal<C: Cycle>(a: &Vec<C::Item>, b: &Vec<C::Item>) -> (r: bool)
    ensures
        r == (models::<C>(a@) == models::<C>(b@)),
{
    if a.len() != b.len() {
        proof {
            assert(models::<C>(a@).len() != models::<C>(b@).len());
        }
        return false;
    }
    let d = items_differ::<C>(a, b);
    proof {
        if !d {
            assert(models::<C>(a@) =~= models::<C>(b@));
        }
    }
    !d
}

/// Copies of the items of `v`.
pub fn copy_all<C: Cycle>(v: &Vec<C::Item>) -> (r: Vec<C::Item>)
    ensures
        models::<C>(r@) == models::<C>(v@),
{
    let mut r: Vec<C::Item> = Vec::new();
    let mut i: usize = 0;
    while i < v.len()
        invariant
            i <= v@.len(),
            r@.len() == i,
            forall|k: int| 0 <= k < i ==> C::model(&#[trigger] r@[k]) == C::model(&v@[k]),
        decreases v@.len() - i,
    {
        r.push(C::copy_item(&v[i]));
        i += 1;
    }
    proof {
        assert(models::<C>(r@) =~= models::<C>(v@));
    }
    r
}

/// The digits after one step of an odometer whose digits run below `h`:
/// the last digit moves up by one, and where it was the last below `h` it
/// falls to 0 and the digits before it take the step.
pub open spec fn bump(h: nat, d: Seq<nat>) -> Seq<nat>
    decreases d.len(),
{
    if d.len() == 0 {
        d
    } else if d.last() + 1 == h {
        bump(h, d.drop_last()).push(0)
    } else {
        d.drop_last().push(d.last() + 1)
    }
}

/// A step keeps the number of digits, and keeps them below `h`.
pub proof fn lemma_bump(h: nat, d: Seq<nat>)
    requires
        forall|i: int| 0 <= i < d.len() ==> d[i] < h,
    ensures
        bump(h, d).len() == d.len(),
        forall|i: int| 0 <= i < d.len() ==> bump(h, d)[i] < h,
    decreases d.len(),
{
    if d.len() > 0 {
        assert(d[d.len() - 1] < h);
        if d.last() + 1 == h {
            assert forall|i: int| 0 <= i < d.drop_last().len() implies d.drop_last()[i] < h by {
                assert(d[i] < h);
            }
            lemma_bump(h, d.drop_last());
        } else {
            assert forall|i: int| 0 <= i < d.len() implies bump(h, d)[i] < h by {
                if i < d.len() - 1 {
                    assert(d[i] < h);
                }
            }
        }
    }
}

/// An odometer: a vector of digits that run below `height`, the last digit
/// moving fastest.
pub struct ICycle<T: Scalar> {
    height: T,
    state: Vec<T>,
}

/// The numbers of a sequence of scalars.
pub open spec fn values<T: Scalar>(v: Seq<T>) -> Seq<nat> {
    v.map_values(|x: T| x.value())
}

impl<T: Scalar> Cycle for ICycle<T> {
    type Width = usize;

    type Item = T;

    type W = nat;

    type V = nat;

    type State = (nat, Seq<nat>);

    open spec fn width_model(w: &usize) -> nat {
        *w as nat
    }

    open spec fn model(x: &T) -> nat {
        x.value()
    }

    open spec fn valid(width: nat, height: nat) -> bool {
        height > 0 || width == 0
    }

    open spec fn start(width: nat, height: nat) -> (nat, Seq<nat>) {
        (height, Seq::new(width, |i: int| 0nat))
    }

    open spec fn sound(s: (nat, Seq<nat>)) -> bool {
        forall|i: int| 0 <= i < s.1.len() ==> #[trigger] s.1[i] < s.0
    }

    open spec fn succ(s: (nat, Seq<nat>)) -> (nat, Seq<nat>) {
        (s.0, bump(s.0, s.1))
    }

    open spec fn origin(s: (nat, Seq<nat>)) -> (nat, Seq<nat>) {
        (s.0, Seq::new(s.1.len(), |i: int| 0nat))
    }

    open spec fn shown(s: (nat, Seq<nat>)) -> Seq<nat> {
        s.1
    }

    closed spec fn state(&self) -> (nat, Seq<nat>) {
        (self.height.value(), values(self.state@))
    }

    proof fn lemma_sound(width: nat, height: nat, s: (nat, Seq<nat>)) {
        if Self::sound(s) {
            lemma_bump(s.0, s.1);
            if s.1.len() > 0 {
                assert(s.1[0] < s.0);
            }
        }
    }

    fn new(width: usize, height: T) -> (c: Self) {
        let mut state: Vec<T> = Vec::new();
        let mut i: usize = 0;
        while i < width
            invariant
                i <= width,
                state@.len() == i,
                forall|k: int| 0 <= k < i ==> (#[trigger] state@[k]).value() == 0,
            decreases width - i,
        {
            state.push(T::zero());
            i += 1;
        }
        let c = ICycle { height, state };
        proof {
            assert(values(c.state@) =~= Seq::new(width as nat, |i: int| 0nat));
        }
        c
    }

    fn next(&mut self) -> (r: Vec<T>) {
        let out = copy_vec(&self.state);
        let ghost h = self.height.value();
        let ghost d = values(self.state@);
        let n = self.state.len();
        let mut i: usize = n;
        let mut carry = true;
        proof {
            assert forall|k: int| 0 <= k < n implies d[k] < h by {
                assert(self.state().1[k] < self.state().0);
            }
            assert(d.take(n as int) =~= d);
            assert(values(self.state@).skip(n as int) =~= Seq::<nat>::empty());
            assert(bump(h, d) + Seq::<nat>::empty() =~= bump(h, d));
        }
        while carry && i > 0
            invariant
                i <= n,
                n == d.len(),
                self.state@.len() == n,
                self.height.value() == h,
                forall|k: int| 0 <= k < n ==> d[k] < h,
                carry ==> values(self.state@).take(i as int) == d.take(i as int),
                carry ==> bump(h, d) == bump(h, d.take(i as int)) + values(self.state@).skip(
                    i as int,
                ),
                !carry ==> values(self.state@) == bump(h, d),
            decreases i,
        {
            i -= 1;
            let ghost before = values(self.state@);
            let x = self.state[i];
            proof {
                T::lemma_value(self.height, self.height);
                assert(before.take(i + 1)[i as int] == x.value());
                assert(d[i as int] == x.value());
                assert(d.take(i + 1).drop_last() =~= d.take(i as int));
                assert(d.take(i + 1).last() == d[i as int]);
            }
            let y = x.succ();
            if y.same(self.height) {
                self.state.set(i, T::zero());
                proof {
                    let now = values(self.state@);
                    assert(now.take(i as int) =~= d.take(i as int)) by {
                        assert forall|k: int| 0 <= k < i implies now[k] == d[k] by {
                            assert(before.take(i + 1)[k] == d.take(i + 1)[k]);
                        }
                    }
                    assert(now.skip(i as int) =~= seq![0nat] + before.skip(i + 1));
                    assert(bump(h, d.take(i as int)).push(0) + before.skip(i + 1) =~= bump(
                        h,
                        d.take(i as int),
                    ) + now.skip(i as int));
                }
            } else {
                self.state.set(i, y);
                carry = false;
                proof {
                    let now = values(self.state@);
                    assert(now =~= d.take(i as int).push(d[i as int] + 1) + before.skip(i + 1)) by {
                        assert forall|k: int| 0 <= k < i implies now[k] == d[k] by {
                            assert(before.take(i + 1)[k] == d.take(i + 1)[k]);
                        }
                    }
                }
            }
        }
        proof {
            if carry {
                assert(d.take(0) =~= Seq::<nat>::empty());
                assert(values(self.state@).skip(0) =~= values(self.state@));
                assert(Seq::<nat>::empty() + values(self.state@) =~= values(self.state@));
            }
            assert(values(out@) =~= d);
        }
        out
    }

    fn peek(&self) -> (r: Vec<T>) {
        let r = copy_vec(&self.state);
        proof {
            assert(values(r@) =~= values(self.state@));
        }
        r
    }

    fn root(&self) -> (r: Vec<T>) {
        let mut r: Vec<T> = Vec::new();
        let mut i: usize = 0;
        while i < self.state.len()
            invariant
                i <= self.state@.len(),
                r@.len() == i,
                forall|k: int| 0 <= k < i ==> (#[trigger] r@[k]).value() == 0,
            decreases self.state@.len() - i,
        {
            r.push(T::zero());
            i += 1;
        }
        proof {
            assert(values(r@) =~= Seq::new(self.state@.len(), |i: int| 0nat));
        }
        r
    }

    fn reset(&mut self) {
        let n = self.state.len();
        let mut i: usize = 0;
        while i < n
            invariant
                i <= n,
                self.state@.len() == n,
                self.height == old(self).height,
                forall|k: int| 0 <= k < i ==> (#[trigger] self.state@[k]).value() == 0,
            decreases n - i,
        {
            self.state.set(i, T::zero());
            i += 1;
        }
        proof {
            assert(values(self.state@) =~= Seq::new(n as nat, |i: int| 0nat));
        }
    }

    fn same_item(a: &T, b: &T) -> (r: bool) {
        a.same(*b)
    }

    fn copy_item(x: &T) -> (r: T) {
        *x
    }

    fn copy_width(w: &usize) -> (r: usize) {
        *w
    }
}

/// The states of a vector of cycles after one step: the last cycle takes a
/// step, and where that brings it back to what its origin shows, the cycles
/// before it take the step.
pub open spec fn cascade<C: Cycle>(s: Seq<C::State>) -> Seq<C::State>
    decreases s.len(),
{
    if s.len() == 0 {
        s
    } else if differ(C::shown(C::succ(s.last())), C::shown(C::origin(C::succ(s.last())))) {
        s.drop_last().push(C::succ(s.last()))
    } else {
        cascade::<C>(s.drop_last()).push(C::succ(s.last()))
    }
}

/// Every state of the sequence is one that its cycle can be in.
pub open spec fn all_sound<C: Cycle>(s: Seq<C::State>) -> bool {
    forall|i: int| 0 <= i < s.len() ==> C::sound(#[trigger] s[i])
}

/// A step of a vector of cycles keeps their number, and keeps each in a
/// state that it can be in.
pub proof fn lemma_cascade<C: Cycle>(s: Seq<C::State>, w: C::W, h: C::V)
    requires
        all_sound::<C>(s),
    ensures
        cascade::<C>(s).len() == s.len(),
        all_sound::<C>(cascade::<C>(s)),
    decreases s.len(),
{
    if s.len() > 0 {
        assert(C::sound(s[s.len() - 1]));
        C::lemma_sound(w, h, s.last());
        assert(all_sound::<C>(s.drop_last())) by {
            assert forall|i: int| 0 <= i < s.drop_last().len() implies C::sound(
                #[trigger] s.drop_last()[i],
            ) by {
                assert(C::sound(s[i]));
            }
        }
        lemma_cascade::<C>(s.drop_last(), w, h);
        let r = cascade::<C>(s);
        assert forall|i: int| 0 <= i < r.len() implies C::sound(#[trigger] r[i]) by {
            if i < s.len() - 1 {
                if differ(C::shown(C::succ(s.last())), C::shown(C::origin(C::succ(s.last())))) {
                    assert(r[i] == s.drop_last()[i]);
                } else {
                    assert(r[i] == cascade::<C>(s.drop_last())[i]);
                }
            }
        }
    }
}

/// The states of the cycles of a sequence.
pub open spec fn states<C: Cycle>(v: Seq<C>) -> Seq<C::State> {
    v.map_values(|c: C| c.state())
}

/// A vector of cycles, the last one moving fastest.
pub struct VCycle<C: Cycle> {
    state: Vec<C>,
}

impl<C: Cycle> Cycle for VCycle<C> {
    type Width = Vec<C::Width>;

    type Item = Vec<C::Item>;

    type W = Seq<C::W>;

    type V = Seq<C::V>;

    type State = Seq<C::State>;

    open spec fn width_model(w: &Vec<C::Width>) -> Seq<C::W> {
        w@.map_values(|x: C::Width| C::width_model(&x))
    }

    open spec fn model(x: &Vec<C::Item>) -> Seq<C::V> {
        x@.map_values(|e: C::Item| C::model(&e))
    }

    open spec fn valid(width: Seq<C::W>, height: Seq<C::V>) -> bool {
        &&& width.len() <= height.len()
        &&& forall|i: int| 0 <= i < width.len() ==> C::valid(#[trigger] width[i], height[i])
    }

    open spec fn start(width: Seq<C::W>, height: Seq<C::V>) -> Seq<C::State> {
        Seq::new(width.len(), |i: int| C::start(width[i], height[i]))
    }

    open spec fn sound(s: Seq<C::State>) -> bool {
        all_sound::<C>(s)
    }

    open spec fn succ(s: Seq<C::State>) -> Seq<C::State> {
        cascade::<C>(s)
    }

    open spec fn origin(s: Seq<C::State>) -> Seq<C::State> {
        s.map_values(|c: C::State| C::origin(c))
    }

    open spec fn shown(s: Seq<C::State>) -> Seq<Seq<C::V>> {
        s.map_values(|c: C::State| C::shown(c))
    }

    closed spec fn state(&self) -> Seq<C::State> {
        states::<C>(self.state@)
    }

    proof fn lemma_sound(width: Seq<C::W>, height: Seq<C::V>, s: Seq<C::State>) {
        if Self::valid(width, height) {
            let st = Self::start(width, height);
            assert forall|i: int| 0 <= i < st.len() implies C::sound(#[trigger] st[i]) by {
                assert(C::valid(width[i], height[i]));
                C::lemma_sound(width[i], height[i], st[i]);
            }
        }
        if Self::sound(s) {
            let w = arbitrary::<C::W>();
            let h = arbitrary::<C::V>();
            lemma_cascade::<C>(s, w, h);
            let o = Self::origin(s);
            assert forall|i: int| 0 <= i < o.len() implies C::sound(#[trigger] o[i]) by {
                assert(C::sound(s[i]));
                C::lemma_sound(w, h, s[i]);
            }
        }
    }

    fn new(width: Vec<C::Width>, height: Vec<C::Item>) -> (c: Self) {
        let mut state: Vec<C> = Vec::new();
        let ghost wm = Self::width_model(&width);
        let ghost hm = Self::model(&height);
        let mut i: usize = 0;
        while i < width.len()
            invariant
                i <= width@.len(),
                wm == Self::width_model(&width),
                hm == Self::model(&height),
                Self::valid(wm, hm),
                state@.len() == i,
                forall|k: int| 0 <= k < i ==> (#[trigger] state@[k]).state() == C::start(wm[k], hm[k]),
            decreases width@.len() - i,
        {
            proof {
                assert(C::valid(wm[i as int], hm[i as int]));
            }
            state.push(C::new(C::copy_width(&width[i]), C::copy_item(&height[i])));
            i += 1;
        }
        let c = VCycle { state };
        proof {
            assert(states::<C>(c.state@) =~= Self::start(wm, hm));
        }
        c
    }

    fn next(&mut self) -> (r: Vec<Vec<C::Item>>) {
        let out = self.peek();
        let ghost s0 = states::<C>(self.state@);
        let n = self.state.len();
        let mut i: usize = n;
        let mut carry = true;
        proof {
            assert(s0.take(n as int) =~= s0);
            assert(s0.skip(n as int) =~= Seq::<C::State>::empty());
            assert(cascade::<C>(s0) + Seq::<C::State>::empty() =~= cascade::<C>(s0));
        }
        while carry && i > 0
            invariant
                i <= n,
                n == s0.len(),
                self.state@.len() == n,
                all_sound::<C>(s0),
                carry ==> states::<C>(self.state@).take(i as int) == s0.take(i as int),
                carry ==> cascade::<C>(s0) == cascade::<C>(s0.take(i as int)) + states::<C>(
                    self.state@,
                ).skip(i as int),
                !carry ==> states::<C>(self.state@) == cascade::<C>(s0),
            decreases i,
        {
            i -= 1;
            let ghost before = states::<C>(self.state@);
            proof {
                assert(before.take(i + 1)[i as int] == s0.take(i + 1)[i as int]);
                assert(C::sound(s0[i as int]));
                assert(s0.take(i + 1).drop_last() =~= s0.take(i as int));
                assert(s0.take(i + 1).last() == s0[i as int]);
                C::lemma_sound(arbitrary(), arbitrary(), s0[i as int]);
            }
            self.state[i].next();
            let p = self.state[i].peek();
            let r = self.state[i].root();
            let moved = items_differ::<C>(&p, &r);
            proof {
                let now = states::<C>(self.state@);
                let t = C::succ(s0[i as int]);
                assert(now[i as int] == t);
                assert forall|k: int| 0 <= k < n && k != i implies now[k] == before[k] by {}
                assert forall|k: int| 0 <= k < i implies now[k] == s0[k] by {
                    assert(before.take(i + 1)[k] == s0.take(i + 1)[k]);
                }
                if moved {
                    assert(now =~= s0.take(i as int).push(t) + before.skip(i + 1));
                } else {
                    assert(now.take(i as int) =~= s0.take(i as int));
                    assert(now.skip(i as int) =~= seq![t] + before.skip(i + 1));
                    assert(cascade::<C>(s0.take(i as int)).push(t) + before.skip(i + 1) =~= cascade::<
                        C,
                    >(s0.take(i as int)) + now.skip(i as int));
                }
            }
            if moved {
                carry = false;
            }
        }
        proof {
            if carry {
                assert(s0.take(0) =~= Seq::<C::State>::empty());
                assert(states::<C>(self.state@).skip(0) =~= states::<C>(self.state@));
                assert(Seq::<C::State>::empty() + states::<C>(self.state@) =~= states::<C>(
                    self.state@,
                ));
            }
        }
        out
    }

    fn peek(&self) -> (r: Vec<Vec<C::Item>>) {
        let mut r: Vec<Vec<C::Item>> = Vec::new();
        let mut i: usize = 0;
        while i < self.state.len()
            invariant
                i <= self.state@.len(),
                all_sound::<C>(states::<C>(self.state@)),
                r@.len() == i,
                forall|k: int|
                    0 <= k < i ==> models::<C>((#[trigger] r@[k])@) == C::shown(self.state@[k].state()),
            decreases self.state@.len() - i,
        {
            proof {
                assert(C::sound(states::<C>(self.state@)[i as int]));
            }
            r.push(self.state[i].peek());
            i += 1;
        }
        proof {
            assert(r@.map_values(|x: Vec<C::Item>| Self::model(&x)) =~= Self::shown(self.state()));
        }
        r
    }

    fn root(&self) -> (r: Vec<Vec<C::Item>>) {
        let mut r: Vec<Vec<C::Item>> = Vec::new();
        let mut i: usize = 0;
        while i < self.state.len()
            invariant
                i <= self.state@.len(),
                all_sound::<C>(states::<C>(self.state@)),
                r@.len() == i,
                forall|k: int|
                    0 <= k < i ==> models::<C>((#[trigger] r@[k])@) == C::shown(
                        C::origin(self.state@[k].state()),
                    ),
            decreases self.state@.len() - i,
        {
            proof {
                assert(C::sound(states::<C>(self.state@)[i as int]));
            }
            r.push(self.state[i].root());
            i += 1;
        }
        proof {
            assert(r@.map_values(|x: Vec<C::Item>| Self::model(&x)) =~= Self::shown(
                Self::origin(self.state()),
            ));
        }
        r
    }

    fn reset(&mut self) {
        let n = self.state.len();
        let ghost s0 = states::<C>(self.state@);
        let mut i: usize = 0;
        while i < n
            invariant
                i <= n,
                n == s0.len(),
                self.state@.len() == n,
                all_sound::<C>(s0),
                forall|k: int| 0 <= k < i ==> (#[trigger] self.state@[k]).state() == C::origin(s0[k]),
                forall|k: int| i <= k < n ==> (#[trigger] self.state@[k]).state() == s0[k],
            decreases n - i,
        {
            let ghost before = self.state@;
            proof {
                assert(C::sound(s0[i as int]));
            }
            self.state[i].reset();
            proof {
                assert forall|k: int| 0 <= k < i implies (#[trigger] self.state@[k]).state()
                    == C::origin(s0[k]) by {
                    assert(self.state@[k] == before[k]);
                }
                assert forall|k: int| i + 1 <= k < n implies (#[trigger] self.state@[k]).state()
                    == s0[k] by {
                    assert(self.state@[k] == before[k]);
                }
            }
            i += 1;
        }
        proof {
            assert(states::<C>(self.state@) =~= Self::origin(s0));
        }
    }

    fn same_item(a: &Vec<C::Item>, b: &Vec<C::Item>) -> (r: bool) {
        items_equal::<C>(a, b)
    }

    fn copy_item(x: &Vec<C::Item>) -> (r: Vec<C::Item>) {
        copy_all::<C>(x)
    }

    fn copy_width(w: &Vec<C::Width>) -> (r: Vec<C::Width>) {
        let mut r: Vec<C::Width> = Vec::new();
        let mut i: usize = 0;
        while i < w.len()
            invariant
                i <= w@.len(),
                r@.len() == i,
                forall|k: int|
                    0 <= k < i ==> C::width_model(&#[trigger] r@[k]) == C::width_model(&w@[k]),
            decreases w@.len() - i,
        {
            r.push(C::copy_width(&w[i]));
            i += 1;
        }
        proof {
            assert(Self::width_model(&r) =~= Self::width_model(w));
        }
        r
    }
}

/// Whether what the state shows is what its origin shows, at every place
/// that both have.
pub open spec fn at_origin<C: Cycle>(s: C::State) -> bool {
    !differ(C::shown(s), C::shown(C::origin(s)))
}

/// An enumeration that runs a cycle until it comes back to its origin.
pub struct AllWords<C: Cycle> {
    internal: C,
    done: bool,
}

impl<C: Cycle> AllWords<C> {
    /// The state of the cycle.
    pub closed spec fn state(&self) -> C::State {
        self.internal.state()
    }

    /// Whether the enumeration has ended.
    pub closed spec fn done(&self) -> bool {
        self.done
    }

    /// Creates the enumeration of a cycle of the given width and height.
    pub fn new(width: C::Width, height: C::Item) -> (a: AllWords<C>)
        requires
            C::valid(C::width_model(&width), C::model(&height)),
        ensures
            a.state() == C::start(C::width_model(&width), C::model(&height)),
            !a.done(),
    {
        AllWords { internal: C::new(width, height), done: false }
    }

    /// Yields what the cycle shows and moves the cycle on by one step. The
    /// enumeration ends where the step brings the cycle back to what its
    /// origin shows; after that it yields nothing.
    pub fn next(&mut self) -> (r: Option<Vec<C::Item>>)
        requires
            C::sound(old(self).state()),
        ensures
            C::sound(final(self).state()),
            old(self).done() ==> r is None && final(self).done() && final(self).state() == old(
                self,
            ).state(),
            !old(self).done() ==> r is Some && models::<C>(r->0@) == C::shown(old(self).state())
                && final(self).state() == C::succ(old(self).state()) && final(self).done()
                == at_origin::<C>(C::succ(old(self).state())),
    {
        if self.done {
            return None;
        }
        proof {
            C::lemma_sound(arbitrary(), arbitrary(), self.internal.state());
        }
        let next = self.internal.next();
        let p = self.internal.peek();
        let r = self.internal.root();
        self.done = !items_differ::<C>(&p, &r);
        return Some(next);
    }
}

/// An enumeration that runs a pair of cycles, the second one moving
/// fastest, until both have come back to their origins.
pub struct Combination<C: Cycle, D: Cycle> {
    internal: (C, D),
    done: bool,
}

impl<C: Cycle, D: Cycle> Combination<C, D> {
    /// The states of the two cycles.
    pub closed spec fn state(&self) -> (C::State, D::State) {
        (self.internal.0.state(), self.internal.1.state())
    }

    /// Whether the enumeration has ended.
    pub closed spec fn done(&self) -> bool {
        self.done
    }

    /// The states of the two cycles after one step: the second cycle takes
    /// a step, and where that brings it back to what its origin shows, the
    /// first takes a step.
    pub open spec fn succ(s: (C::State, D::State)) -> (C::State, D::State) {
        if D::shown(D::succ(s.1)) == D::shown(D::origin(D::succ(s.1))) {
            (C::succ(s.0), D::succ(s.1))
        } else {
            (s.0, D::succ(s.1))
        }
    }

    /// Whether the step from the states `s` brings both cycles back to what
    /// their origins show.
    pub open spec fn ends(s: (C::State, D::State)) -> bool {
        &&& D::shown(D::succ(s.1)) == D::shown(D::origin(D::succ(s.1)))
        &&& C::shown(C::succ(s.0)) == C::shown(C::origin(C::succ(s.0)))
    }

    /// Creates the enumeration of a pair of cycles of the given widths and
    /// heights.
    pub fn new(width: (C::Width, D::Width), height: (C::Item, D::Item)) -> (a: Combination<C, D>)
        requires
            C::valid(C::width_model(&width.0), C::model(&height.0)),
            D::valid(D::width_model(&width.1), D::model(&height.1)),
        ensures
            a.state() == (
                C::start(C::width_model(&width.0), C::model(&height.0)),
                D::start(D::width_model(&width.1), D::model(&height.1)),
            ),
            !a.done(),
    {
        Combination { internal: (C::new(width.0, height.0), D::new(width.1, height.1)), done: false }
    }

    /// Yields what the two cycles show and moves them on by one step. The
    /// enumeration ends where the step brings both cycles back to what
    /// their origins show; after that it yields nothing.
    pub fn next(&mut self) -> (r: Option<(Vec<C::Item>, Vec<D::Item>)>)
        requires
            C::sound(old(self).state().0),
            D::sound(old(self).state().1),
        ensures
            C::sound(final(self).state().0),
            D::sound(final(self).state().1),
            old(self).done() ==> r is None && final(self).done() && final(self).state() == old(
                self,
            ).state(),
            !old(self).done() ==> r is Some && models::<C>((r->0).0@) == C::shown(
                old(self).state().0,
            ) && models::<D>((r->0).1@) == D::shown(old(self).state().1) && final(self).state()
                == Self::succ(old(self).state()) && final(self).done() == Self::ends(
                old(self).state(),
            ),
    {
        if self.done {
            return None;
        }
        proof {
            C::lemma_sound(arbitrary(), arbitrary(), self.internal.0.state());
            D::lemma_sound(arbitrary(), arbitrary(), self.internal.1.state());
        }
        let out = (self.internal.0.peek(), self.internal.1.peek());
        self.internal.1.next();
        let shown1 = self.internal.1.peek();
        let root1 = self.internal.1.root();
        if items_equal::<D>(&shown1, &root1) {
            self.internal.0.next();
            let shown0 = self.internal.0.peek();
            let root0 = self.internal.0.root();
            if items_equal::<C>(&shown0, &root0) {
                self.done = true;
            }
        }
        return Some(out);
    }
}

} // verus!
