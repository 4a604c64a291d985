//! Cycles: enumerators that walk a bounded domain in odometer order, alone,
//! in pairs and in vectors; and the permutations of `0..width`.

use vstd::prelude::*;

verus! {

/// The unsigned integer types that a `UCycle` can count in.
pub trait Scalar: Copy {
    /// The number that the value stands for.
    spec fn value(self) -> nat;

    /// The largest number that the type holds.
    spec fn top() -> nat;

    /// Every value is at most `top`, and two values of one number are equal.
    proof fn lemma_value(x: Self, y: Self)
        ensures
            x.value() <= Self::top(),
            x.value() == y.value() ==> x == y,
    ;

    /// The number 0.
    fn zero() -> (r: Self)
        ensures
            r.value() == 0,
    ;

    /// The next number.
    fn succ(self) -> (r: Self)
        requires
            self.value() < Self::top(),
        ensures
            r.value() == self.value() + 1,
    ;

    /// Whether two values stand for the same number.
    fn same(self, other: Self) -> (r: bool)
        ensures
            r == (self.value() == other.value()),
    ;
}

impl Scalar for u8 {
    open spec fn value(self) -> nat {
        self as nat
    }

    open spec fn top() -> nat {
        0xff
    }

    proof fn lemma_value(x: Self, y: Self) {
    }

    fn zero() -> (r: Self) {
        0
    }

    fn succ(self) -> (r: Self) {
        self + 1
    }

    fn same(self, other: Self) -> (r: bool) {
        self == other
    }
}

impl Scalar for usize {
    open spec fn value(self) -> nat {
        self as nat
    }

    open spec fn top() -> nat {
        usize::MAX as nat
    }

    proof fn lemma_value(x: Self, y: Self) {
    }

    fn zero() -> (r: Self) {
        0
    }

    fn succ(self) -> (r: Self) {
        self + 1
    }

    fn same(self, other: Self) -> (r: bool) {
        self == other
    }
}

/// A cycle: an enumerator of the items of a bounded domain.
///
/// The domain is given by its descriptor `max`, a value of the items' own
/// type. One traversal yields `size(max)` items, the item at position `k`
/// being `nth(max, k)`. A cycle made with `limit` ends after one traversal;
/// one made without starts over.
pub trait Cycle: Sized {
    /// The items, and the descriptor of the domain.
    type Item;

    /// What an item stands for.
    type V;

    /// What the item `x` stands for.
    spec fn model(x: &Self::Item) -> Self::V;

    /// The descriptors that a cycle can be made from.
    spec fn valid(max: Self::V) -> bool;

    /// The number of items in one traversal of the domain `max`.
    spec fn size(max: Self::V) -> nat;

    /// The item at position `k` of a traversal of the domain `max`.
    spec fn nth(max: Self::V, k: nat) -> Self::V;

    /// The invariant of the cycle's state.
    spec fn inv(&self) -> bool;

    /// The descriptor that the cycle was made from.
    spec fn max(&self) -> Self::V;

    /// Whether the cycle ends after one traversal.
    spec fn limit(&self) -> bool;

    /// Whether the cycle has ended.
    spec fn done(&self) -> bool;

    /// The position of the item that `next` yields next.
    spec fn pos(&self) -> nat;

    /// A traversal is never empty, and the position stays inside it.
    proof fn lemma_size(&self)
        requires
            self.inv(),
        ensures
            Self::valid(self.max()),
            self.pos() < Self::size(self.max()),
    ;

    /// A traversal is never empty.
    proof fn lemma_valid_size(max: Self::V)
        requires
            Self::valid(max),
        ensures
            Self::size(max) > 0,
    ;

    /// The items at two different positions of one traversal are different:
    /// a traversal yields no item twice.
    proof fn lemma_nth_injective(max: Self::V, j: nat, k: nat)
        requires
            Self::valid(max),
            j < Self::size(max),
            k < Self::size(max),
            Self::nth(max, j) == Self::nth(max, k),
        ensures
            j == k,
    ;

    /// Creates a cycle.
    ///
    /// `max` represents the kind of structure to be cycled through.
    /// If `limit` is true, the iteration will end after one complete cycle rather than repeat.
    fn new(max: Self::Item, limit: bool) -> (c: Self)
        requires
            Self::valid(Self::model(&max)),
        ensures
            c.inv(),
            c.max() == Self::model(&max),
            c.limit() == limit,
            !c.done(),
            c.pos() == 0,
    ;

    /// Yields the item at the current position and moves on by one; at the
    /// end of the traversal a cycle with `limit` ends, and another starts
    /// over. A cycle that has ended yields nothing and stays as it is.
    fn next(&mut self) -> (r: Option<Self::Item>)
        requires
            old(self).inv(),
        ensures
            final(self).inv(),
            final(self).max() == old(self).max(),
            final(self).limit() == old(self).limit(),
            old(self).done() ==> r is None && final(self).done() && final(self).pos() == old(
                self,
            ).pos(),
            !old(self).done() ==> r is Some && Self::model(&r->0) == Self::nth(
                old(self).max(),
                old(self).pos(),
            ) && final(self).pos() == (old(self).pos() + 1) % Self::size(old(self).max())
                && final(self).done() == (old(self).limit() && old(self).pos() + 1 == Self::size(
                old(self).max(),
            )),
    ;

    /// A copy of an item.
    fn copy_item(x: &Self::Item) -> (r: Self::Item)
        ensures
            Self::model(&r) == Self::model(x),
    ;
}

/// An iterator cycling through integers modulo `max`.
pub struct UCycle<T: Scalar> {
    max: T,
    state: T,
    limit: bool,
    done: bool,
}

impl<T: Scalar> Cycle for UCycle<T> {
    type Item = T;

    type V = nat;

    open spec fn model(x: &T) -> nat {
        x.value()
    }

    open spec fn valid(max: nat) -> bool {
        max > 0
    }

    open spec fn size(max: nat) -> nat {
        max
    }

    open spec fn nth(max: nat, k: nat) -> nat {
        k
    }

    closed spec fn inv(&self) -> bool {
        self.state.value() < self.max.value()
    }

    closed spec fn max(&self) -> nat {
        self.max.value()
    }

    closed spec fn limit(&self) -> bool {
        self.limit
    }

    closed spec fn done(&self) -> bool {
        self.done
    }

    closed spec fn pos(&self) -> nat {
        self.state.value()
    }

    proof fn lemma_size(&self) {
    }

    proof fn lemma_valid_size(max: nat) {
    }

    proof fn lemma_nth_injective(max: nat, j: nat, k: nat) {
    }

    fn new(max: T, limit: bool) -> (c: Self) {
        UCycle { max, state: T::zero(), limit, done: false }
    }

    fn next(&mut self) -> (r: Option<T>) {
        if self.done {
            return None;
        }
        let out = self.state;
        proof {
            T::lemma_value(self.max, self.max);
        }
        self.state = self.state.succ();
        if self.state.same(self.max) {
            self.state = T::zero();
            self.done = self.limit;
        }
        proof {
            let m = self.max.value() as int;
            let p = out.value() as int;
            if p + 1 < m {
                vstd::arithmetic::div_mod::lemma_small_mod((p + 1) as nat, m as nat);
            } else {
                vstd::arithmetic::div_mod::lemma_mod_self_0(m);
            }
        }
        Some(out)
    }

    fn copy_item(x: &T) -> (r: T) {
        *x
    }
}


/// The position of the item that the cycle `c` has yielded last.
pub open spec fn digit<C: Cycle>(c: &C) -> nat {
    if c.done() {
        (C::size(c.max()) - 1) as nat
    } else {
        (c.pos() - 1) as nat
    }
}

/// `c` is a component of a composite cycle: it ends after one traversal, has
/// yielded at least one item, and `item` is the one it has yielded last.
pub open spec fn holds<C: Cycle>(c: &C, item: &C::Item) -> bool {
    &&& c.inv()
    &&& c.limit()
    &&& c.done() || c.pos() >= 1
    &&& C::model(item) == C::nth(c.max(), digit(c))
}

/// What one call of `next` does to a component that has not ended.
pub proof fn lemma_component_next<C: Cycle>(before: &C, after: &C, item: &C::Item)
    requires
        before.inv(),
        before.limit(),
        !before.done(),
        after.inv(),
        after.max() == before.max(),
        after.limit() == before.limit(),
        C::model(item) == C::nth(before.max(), before.pos()),
        after.pos() == (before.pos() + 1) % C::size(before.max()),
        after.done() == (before.limit() && before.pos() + 1 == C::size(before.max())),
    ensures
        holds(after, item),
        digit(after) == before.pos(),
        digit(after) < C::size(before.max()),
{
    before.lemma_size();
    let n = C::size(before.max());
    let p = before.pos();
    if p + 1 < n {
        vstd::arithmetic::div_mod::lemma_small_mod(p + 1, n);
    }
}

/// The component `c` with its last item `item` has started over since it
/// was `before`, which had yielded its last item.
pub open spec fn was_reset<C: Cycle>(before: &C, c: &C, item: &C::Item) -> bool {
    &&& holds(c, item)
    &&& c.max() == before.max()
    &&& digit(c) == 0
    &&& digit(before) + 1 == C::size(before.max())
}

/// The component `c` with its last item `item` has moved on by one since it
/// was `before`.
pub open spec fn was_advanced<C: Cycle>(before: &C, c: &C, item: &C::Item) -> bool {
    &&& holds(c, item)
    &&& c.max() == before.max()
    &&& digit(c) == digit(before) + 1
    &&& digit(before) + 1 < C::size(before.max())
}

/// A freshly made component, and the first item taken from it.
fn start<C: Cycle>(max: &C::Item) -> (r: (C, C::Item))
    requires
        C::valid(C::model(max)),
    ensures
        holds(&r.0, &r.1),
        r.0.max() == C::model(max),
        digit(&r.0) == 0,
{
    let mut c = C::new(C::copy_item(max), true);
    let ghost before = c;
    let first = c.next();
    proof {
        lemma_component_next(&before, &c, &first->0);
    }
    (c, first.unwrap())
}

/// A number below `n0 * n1` splits into a quotient below `n0` and a
/// remainder below `n1`.
pub proof fn lemma_split(x: int, n0: int, n1: int)
    requires
        0 <= x < n0 * n1,
        0 < n1,
    ensures
        0 <= x / n1 < n0,
        0 <= x % n1 < n1,
        x == (x / n1) * n1 + x % n1,
{
    vstd::arithmetic::div_mod::lemma_fundamental_div_mod(x, n1);
    vstd::arithmetic::div_mod::lemma_mod_bound(x, n1);
    vstd::arithmetic::div_mod::lemma_div_pos_is_pos(x, n1);
    let q = x / n1;
    let r = x % n1;
    assert(q < n0) by (nonlinear_arith)
        requires
            x == n1 * q + r,
            0 <= r,
            x < n0 * n1,
            n1 > 0,
    ;
    assert(n1 * q == q * n1) by (nonlinear_arith);
}

/// An iterator cycling through the Cartesian product of two cycles,
/// represented as a tuple. The second component moves fastest.
pub struct TCycle<S: Cycle, T: Cycle> {
    max: (S::Item, T::Item),
    state: (S, T),
    prev: (S::Item, T::Item),
    limit: bool,
    done: bool,
}

impl<S: Cycle, T: Cycle> Cycle for TCycle<S, T> {
    type Item = (S::Item, T::Item);

    type V = (S::V, T::V);

    open spec fn model(x: &(S::Item, T::Item)) -> (S::V, T::V) {
        (S::model(&x.0), T::model(&x.1))
    }

    open spec fn valid(max: (S::V, T::V)) -> bool {
        S::valid(max.0) && T::valid(max.1)
    }

    open spec fn size(max: (S::V, T::V)) -> nat {
        S::size(max.0) * T::size(max.1)
    }

    open spec fn nth(max: (S::V, T::V), k: nat) -> (S::V, T::V) {
        (S::nth(max.0, k / T::size(max.1)), T::nth(max.1, k % T::size(max.1)))
    }

    closed spec fn inv(&self) -> bool {
        &&& holds(&self.state.0, &self.prev.0)
        &&& holds(&self.state.1, &self.prev.1)
        &&& self.state.0.max() == S::model(&self.max.0)
        &&& self.state.1.max() == T::model(&self.max.1)
    }

    closed spec fn max(&self) -> (S::V, T::V) {
        (S::model(&self.max.0), T::model(&self.max.1))
    }

    closed spec fn limit(&self) -> bool {
        self.limit
    }

    closed spec fn done(&self) -> bool {
        self.done
    }

    closed spec fn pos(&self) -> nat {
        digit(&self.state.0) * T::size(self.state.1.max()) + digit(&self.state.1)
    }

    proof fn lemma_size(&self) {
        self.state.0.lemma_size();
        self.state.1.lemma_size();
        let n0 = S::size(self.state.0.max()) as int;
        let n1 = T::size(self.state.1.max()) as int;
        let d0 = digit(&self.state.0) as int;
        let d1 = digit(&self.state.1) as int;
        assert(d0 * n1 + d1 < n0 * n1) by (nonlinear_arith)
            requires
                0 <= d0 < n0,
                0 <= d1 < n1,
        ;
    }

    proof fn lemma_valid_size(max: (S::V, T::V)) {
        S::lemma_valid_size(max.0);
        T::lemma_valid_size(max.1);
        let n0 = S::size(max.0) as int;
        let n1 = T::size(max.1) as int;
        assert(n0 * n1 > 0) by (nonlinear_arith)
            requires
                n0 > 0,
                n1 > 0,
        ;
    }

    proof fn lemma_nth_injective(max: (S::V, T::V), j: nat, k: nat) {
        let n0 = S::size(max.0) as int;
        let n1 = T::size(max.1) as int;
        assert(n1 > 0) by (nonlinear_arith)
            requires
                0 <= j < n0 * n1,
                0 <= n0,
                0 <= n1,
        ;
        lemma_split(j as int, n0, n1);
        lemma_split(k as int, n0, n1);
        S::lemma_nth_injective(max.0, j / (n1 as nat), k / (n1 as nat));
        T::lemma_nth_injective(max.1, j % (n1 as nat), k % (n1 as nat));
    }

    fn new(max: (S::Item, T::Item), limit: bool) -> (c: Self) {
        let a = start::<S>(&max.0);
        let b = start::<T>(&max.1);
        let c = TCycle { max, state: (a.0, b.0), prev: (a.1, b.1), limit, done: false };
        proof {
            assert(0 * T::size(c.state.1.max()) == 0) by (nonlinear_arith);
        }
        c
    }

    fn next(&mut self) -> (r: Option<(S::Item, T::Item)>) {
        if self.done {
            return None;
        }
        let out = (S::copy_item(&self.prev.0), T::copy_item(&self.prev.1));
        let ghost n0 = S::size(self.state.0.max()) as int;
        let ghost n1 = T::size(self.state.1.max()) as int;
        let ghost d0 = digit(&self.state.0) as int;
        let ghost d1 = digit(&self.state.1) as int;
        let ghost p = d0 * n1 + d1;
        proof {
            self.state.0.lemma_size();
            self.state.1.lemma_size();
            vstd::arithmetic::div_mod::lemma_fundamental_div_mod_converse(p, n1, d0, d1);
            assert(d0 * n1 + d1 < n0 * n1) by (nonlinear_arith)
                requires
                    0 <= d0 < n0,
                    0 <= d1 < n1,
            ;
        }
        let mut overflow = true;
        let ghost before1 = self.state.1;
        match self.state.1.next() {
            Some(x) => {
                overflow = false;
                proof {
                    lemma_component_next(&before1, &self.state.1, &x);
                    assert(d0 * n1 + d1 + 1 < n0 * n1) by (nonlinear_arith)
                        requires
                            0 <= d0 < n0,
                            0 <= d1,
                            d1 + 1 < n1,
                    ;
                    vstd::arithmetic::div_mod::lemma_small_mod((p + 1) as nat, (n0 * n1) as nat);
                }
                self.prev.1 = x;
            },
            None => {
                let b = start::<T>(&self.max.1);
                self.state.1 = b.0;
                self.prev.1 = b.1;
                let ghost before0 = self.state.0;
                match self.state.0.next() {
                    Some(x) => {
                        overflow = false;
                        proof {
                            lemma_component_next(&before0, &self.state.0, &x);
                            assert((d0 + 1) * n1 + 0 == d0 * n1 + (n1 - 1) + 1) by (nonlinear_arith);
                            assert((d0 + 1) * n1 < n0 * n1) by (nonlinear_arith)
                                requires
                                    0 <= d0 + 1 < n0,
                                    0 < n1,
                            ;
                            vstd::arithmetic::div_mod::lemma_small_mod(
                                (p + 1) as nat,
                                (n0 * n1) as nat,
                            );
                        }
                        self.prev.0 = x;
                    },
                    None => {
                        let a = start::<S>(&self.max.0);
                        self.state.0 = a.0;
                        self.prev.0 = a.1;
                        proof {
                            assert((n0 - 1) * n1 + (n1 - 1) + 1 == n0 * n1) by (nonlinear_arith);
                            assert(0 * n1 + 0 == 0) by (nonlinear_arith);
                            vstd::arithmetic::div_mod::lemma_mod_self_0(n0 * n1);
                        }
                    },
                }
            },
        }
        self.done = overflow && self.limit;
        Some(out)
    }

    fn copy_item(x: &(S::Item, T::Item)) -> (r: (S::Item, T::Item)) {
        (S::copy_item(&x.0), T::copy_item(&x.1))
    }
}


/// The product of the numbers of `sizes`.
pub open spec fn product(sizes: Seq<nat>) -> nat
    decreases sizes.len(),
{
    if sizes.len() == 0 {
        1
    } else {
        product(sizes.drop_last()) * sizes.last()
    }
}

/// The number that the digits `d` stand for in the mixed radix `sizes`, the
/// last digit counting least.
pub open spec fn compose(sizes: Seq<nat>, d: Seq<nat>) -> nat
    decreases sizes.len(),
{
    if sizes.len() == 0 {
        0
    } else {
        compose(sizes.drop_last(), d.drop_last()) * sizes.last() + d.last()
    }
}

/// The digit at place `i` of the number `k` in the mixed radix `sizes`, the
/// last digit counting least.
pub open spec fn digit_of(sizes: Seq<nat>, k: nat, i: int) -> nat
    decreases sizes.len(),
{
    if sizes.len() == 0 {
        0
    } else if i == sizes.len() - 1 {
        k % sizes.last()
    } else {
        digit_of(sizes.drop_last(), k / sizes.last(), i)
    }
}

/// Digits below their sizes.
pub open spec fn digits_fit(sizes: Seq<nat>, d: Seq<nat>) -> bool {
    &&& d.len() == sizes.len()
    &&& forall|i: int| 0 <= i < sizes.len() ==> #[trigger] d[i] < sizes[i]
}

/// Digits that fit stand for a number below the product of the sizes.
pub proof fn lemma_compose_bound(sizes: Seq<nat>, d: Seq<nat>)
    requires
        digits_fit(sizes, d),
    ensures
        compose(sizes, d) < product(sizes),
    decreases sizes.len(),
{
    if sizes.len() > 0 {
        let s2 = sizes.drop_last();
        let d2 = d.drop_last();
        assert(digits_fit(s2, d2)) by {
            assert forall|i: int| 0 <= i < s2.len() implies #[trigger] d2[i] < s2[i] by {
                assert(d[i] < sizes[i]);
            }
        }
        lemma_compose_bound(s2, d2);
        let c = compose(s2, d2) as int;
        let p = product(s2) as int;
        let s = sizes.last() as int;
        let r = d.last() as int;
        assert(d[sizes.len() - 1] < sizes[sizes.len() - 1]);
        assert(c * s + r < p * s) by (nonlinear_arith)
            requires
                0 <= c < p,
                0 <= r < s,
        ;
    }
}

/// The digits of the number that digits stand for are those digits.
pub proof fn lemma_digit_of_compose(sizes: Seq<nat>, d: Seq<nat>, i: int)
    requires
        digits_fit(sizes, d),
        0 <= i < sizes.len(),
    ensures
        digit_of(sizes, compose(sizes, d), i) == d[i],
    decreases sizes.len(),
{
    let s2 = sizes.drop_last();
    let d2 = d.drop_last();
    let c = compose(s2, d2) as int;
    let s = sizes.last() as int;
    let r = d.last() as int;
    assert(d[sizes.len() - 1] < sizes[sizes.len() - 1]);
    vstd::arithmetic::div_mod::lemma_fundamental_div_mod_converse(c * s + r, s, c, r);
    if i < sizes.len() - 1 {
        assert(digits_fit(s2, d2)) by {
            assert forall|j: int| 0 <= j < s2.len() implies #[trigger] d2[j] < s2[j] by {
                assert(d[j] < sizes[j]);
            }
        }
        lemma_digit_of_compose(s2, d2, i);
    }
}

/// The digits of a number below the product of the sizes fit, and stand for
/// that number.
pub proof fn lemma_compose_digits(sizes: Seq<nat>, k: nat)
    requires
        forall|i: int| 0 <= i < sizes.len() ==> #[trigger] sizes[i] > 0,
        k < product(sizes),
    ensures
        digits_fit(sizes, Seq::new(sizes.len(), |i: int| digit_of(sizes, k, i))),
        compose(sizes, Seq::new(sizes.len(), |i: int| digit_of(sizes, k, i))) == k,
    decreases sizes.len(),
{
    let d = Seq::new(sizes.len(), |i: int| digit_of(sizes, k, i));
    if sizes.len() > 0 {
        let s2 = sizes.drop_last();
        let s = sizes.last();
        assert(sizes[sizes.len() - 1] > 0);
        let q = k / s;
        assert(q < product(s2)) by {
            vstd::arithmetic::div_mod::lemma_fundamental_div_mod(k as int, s as int);
            let p = product(s2) as int;
            let qi = q as int;
            let si = s as int;
            let ri = (k % s) as int;
            assert(qi < p) by (nonlinear_arith)
                requires
                    si * qi + ri < p * si,
                    0 <= ri,
                    0 < si,
                    0 <= qi,
            ;
        }
        assert forall|i: int| 0 <= i < s2.len() implies #[trigger] s2[i] > 0 by {
            assert(sizes[i] > 0);
        }
        lemma_compose_digits(s2, q);
        let d2 = Seq::new(s2.len(), |i: int| digit_of(s2, q, i));
        assert(d.drop_last() =~= d2);
        vstd::arithmetic::div_mod::lemma_fundamental_div_mod(k as int, s as int);
        assert(compose(sizes, d) == q * s + k % s);
        assert(q * s == s * q) by (nonlinear_arith);
        assert forall|i: int| 0 <= i < sizes.len() implies #[trigger] d[i] < sizes[i] by {
            if i < sizes.len() - 1 {
                assert(d2[i] < s2[i]);
            } else {
                vstd::arithmetic::div_mod::lemma_mod_bound(k as int, s as int);
            }
        }
    }
}

/// The digits 0 stand for the number 0.
pub proof fn lemma_compose_zero(sizes: Seq<nat>, d: Seq<nat>)
    requires
        d.len() == sizes.len(),
        forall|i: int| 0 <= i < d.len() ==> d[i] == 0,
    ensures
        compose(sizes, d) == 0,
    decreases sizes.len(),
{
    if sizes.len() > 0 {
        lemma_compose_zero(sizes.drop_last(), d.drop_last());
        assert(0 * sizes.last() == 0) by (nonlinear_arith);
    }
}

/// The odometer step. From the digits `d` to the digits `e`: the digit at
/// `pivot` moves up by one, the digits after it fall from their last value
/// to 0, and those before it stay. With no pivot (`-1`) every digit falls.
pub open spec fn odometer_step(sizes: Seq<nat>, d: Seq<nat>, e: Seq<nat>, pivot: int) -> bool {
    &&& digits_fit(sizes, d)
    &&& e.len() == sizes.len()
    &&& -1 <= pivot < sizes.len()
    &&& forall|i: int| pivot < i < sizes.len() ==> #[trigger] d[i] + 1 == sizes[i] && e[i] == 0
    &&& forall|i: int| 0 <= i < pivot ==> #[trigger] e[i] == d[i]
    &&& pivot >= 0 ==> d[pivot] + 1 < sizes[pivot] && e[pivot] == d[pivot] + 1
}

/// An odometer step adds one to the number that the digits stand for, or
/// takes the last number to 0.
pub proof fn lemma_odometer_step(sizes: Seq<nat>, d: Seq<nat>, e: Seq<nat>, pivot: int)
    requires
        odometer_step(sizes, d, e, pivot),
    ensures
        pivot >= 0 ==> compose(sizes, e) == compose(sizes, d) + 1 && compose(sizes, d) + 1
            < product(sizes),
        pivot < 0 ==> compose(sizes, e) == 0 && compose(sizes, d) + 1 == product(sizes),
    decreases sizes.len(),
{
    if sizes.len() > 0 {
        let last = sizes.len() - 1;
        let s2 = sizes.drop_last();
        let d2 = d.drop_last();
        let e2 = e.drop_last();
        let s = sizes.last() as int;
        let c = compose(s2, d2) as int;
        let p = product(s2) as int;
        assert(d[last] < sizes[last]);
        assert(digits_fit(s2, d2)) by {
            assert forall|i: int| 0 <= i < s2.len() implies #[trigger] d2[i] < s2[i] by {
                assert(d[i] < sizes[i]);
            }
        }
        lemma_compose_bound(s2, d2);
        if pivot == last {
            assert(e2 =~= d2) by {
                assert forall|i: int| 0 <= i < e2.len() implies e2[i] == d2[i] by {
                    assert(e[i] == d[i]);
                }
            }
            let r = d.last() as int;
            assert(c * s + r + 1 < p * s) by (nonlinear_arith)
                requires
                    0 <= c < p,
                    0 <= r,
                    r + 1 < s,
            ;
        } else {
            assert(d[last] + 1 == sizes[last] && e[last] == 0);
            assert(odometer_step(s2, d2, e2, pivot)) by {
                assert forall|i: int| pivot < i < s2.len() implies #[trigger] d2[i] + 1 == s2[i]
                    && e2[i] == 0 by {
                    assert(d[i] + 1 == sizes[i] && e[i] == 0);
                }
                assert forall|i: int| 0 <= i < pivot implies #[trigger] e2[i] == d2[i] by {
                    assert(e[i] == d[i]);
                }
            }
            lemma_odometer_step(s2, d2, e2, pivot);
            let c2 = compose(s2, e2) as int;
            if pivot >= 0 {
                assert(c2 * s + 0 == c * s + (s - 1) + 1) by (nonlinear_arith)
                    requires
                        c2 == c + 1,
                ;
                assert(c2 * s < p * s) by (nonlinear_arith)
                    requires
                        0 <= c2 < p,
                        0 < s,
                ;
            } else {
                assert(c2 * s + 0 == 0) by (nonlinear_arith)
                    requires
                        c2 == 0,
                ;
                assert(c * s + (s - 1) + 1 == p * s) by (nonlinear_arith)
                    requires
                        c + 1 == p,
                ;
            }
        }
    }
}


/// A traversal of a valid domain is never empty.
pub proof fn lemma_valid_size<C: Cycle>(max: C::V)
    requires
        C::valid(max),
    ensures
        C::size(max) > 0,
{
    C::lemma_valid_size(max);
}

/// A product of positive numbers is positive.
pub proof fn lemma_product_positive(sizes: Seq<nat>)
    requires
        forall|i: int| 0 <= i < sizes.len() ==> #[trigger] sizes[i] > 0,
    ensures
        product(sizes) > 0,
    decreases sizes.len(),
{
    if sizes.len() > 0 {
        assert forall|i: int| 0 <= i < sizes.drop_last().len() implies #[trigger] sizes.drop_last()[i]
            > 0 by {
            assert(sizes[i] > 0);
        }
        lemma_product_positive(sizes.drop_last());
        assert(sizes[sizes.len() - 1] > 0);
        let p = product(sizes.drop_last()) as int;
        let s = sizes.last() as int;
        assert(p * s > 0) by (nonlinear_arith)
            requires
                p > 0,
                s > 0,
        ;
    }
}

/// The sizes of the domains of `max`, place by place.
pub open spec fn sizes_of<C: Cycle>(max: Seq<C::V>) -> Seq<nat> {
    max.map_values(|m: C::V| C::size(m))
}

/// Copies of the items of `v`.
fn copy_items<C: Cycle>(v: &Vec<C::Item>) -> (r: Vec<C::Item>)
    ensures
        r@.len() == v@.len(),
        forall|i: int| 0 <= i < v@.len() ==> C::model(&#[trigger] r@[i]) == C::model(&v@[i]),
{
    let mut r: Vec<C::Item> = Vec::new();
    let mut i: usize = 0;
    while i < v.len()
        invariant
            i <= v@.len(),
            r@.len() == i,
            forall|k: int| 0 <= k < i ==> C::model(&#[trigger] r@[k]) == C::model(&v@[k]),
        decreases v@.len() - i,
    {
        r.push(C::copy_item(&v[i]));
        i += 1;
    }
    r
}

/// An iterator cycling through the chained Cartesian product of identically-typed cycles,
/// represented as a vector. The last component moves fastest.
pub struct VCycle<C: Cycle> {
    max: Vec<C::Item>,
    state: Vec<C>,
    prev: Vec<C::Item>,
    limit: bool,
    done: bool,
}

impl<C: Cycle> VCycle<C> {
    /// The positions of the items that the components have yielded last.
    pub closed spec fn digits(&self) -> Seq<nat> {
        self.state@.map_values(|c: C| digit(&c))
    }
}

impl<C: Cycle> Cycle for VCycle<C> {
    type Item = Vec<C::Item>;

    type V = Seq<C::V>;

    open spec fn model(x: &Vec<C::Item>) -> Seq<C::V> {
        x@.map_values(|e: C::Item| C::model(&e))
    }

    open spec fn valid(max: Seq<C::V>) -> bool {
        forall|i: int| 0 <= i < max.len() ==> C::valid(#[trigger] max[i])
    }

    open spec fn size(max: Seq<C::V>) -> nat {
        product(sizes_of::<C>(max))
    }

    open spec fn nth(max: Seq<C::V>, k: nat) -> Seq<C::V> {
        Seq::new(max.len(), |i: int| C::nth(max[i], digit_of(sizes_of::<C>(max), k, i)))
    }

    closed spec fn inv(&self) -> bool {
        &&& self.state@.len() == self.max@.len()
        &&& self.prev@.len() == self.max@.len()
        &&& forall|i: int|
            #![trigger self.state@[i]]
            0 <= i < self.max@.len() ==> holds(&self.state@[i], &self.prev@[i])
                && self.state@[i].max() == C::model(&self.max@[i])
    }

    closed spec fn max(&self) -> Seq<C::V> {
        Self::model(&self.max)
    }

    closed spec fn limit(&self) -> bool {
        self.limit
    }

    closed spec fn done(&self) -> bool {
        self.done
    }

    closed spec fn pos(&self) -> nat {
        compose(sizes_of::<C>(self.max()), self.digits())
    }

    proof fn lemma_size(&self) {
        let sizes = sizes_of::<C>(self.max());
        let d = self.digits();
        assert forall|i: int| 0 <= i < self.max().len() implies C::valid(
            #[trigger] self.max()[i],
        ) by {
            self.state@[i].lemma_size();
        }
        assert forall|i: int| 0 <= i < sizes.len() implies #[trigger] d[i] < sizes[i] by {
            self.state@[i].lemma_size();
        }
        lemma_compose_bound(sizes, d);
    }

    proof fn lemma_valid_size(max: Seq<C::V>) {
        let sizes = sizes_of::<C>(max);
        assert forall|i: int| 0 <= i < sizes.len() implies #[trigger] sizes[i] > 0 by {
            lemma_valid_size::<C>(max[i]);
        }
        lemma_product_positive(sizes);
    }

    proof fn lemma_nth_injective(max: Seq<C::V>, j: nat, k: nat) {
        let sizes = sizes_of::<C>(max);
        assert forall|i: int| 0 <= i < sizes.len() implies #[trigger] sizes[i] > 0 by {
            lemma_valid_size::<C>(max[i]);
        }
        lemma_compose_digits(sizes, j);
        lemma_compose_digits(sizes, k);
        let dj = Seq::new(sizes.len(), |i: int| digit_of(sizes, j, i));
        let dk = Seq::new(sizes.len(), |i: int| digit_of(sizes, k, i));
        assert(dj =~= dk) by {
            assert forall|i: int| 0 <= i < sizes.len() implies dj[i] == dk[i] by {
                assert(dj[i] < sizes[i]);
                assert(dk[i] < sizes[i]);
                assert(sizes.len() == max.len());
                assert(Self::nth(max, j)[i] == C::nth(max[i], digit_of(sizes, j, i)));
                assert(Self::nth(max, k)[i] == C::nth(max[i], digit_of(sizes, k, i)));
                assert(sizes[i] == C::size(max[i]));
                C::lemma_nth_injective(max[i], dj[i], dk[i]);
            }
        }
    }

    fn new(max: Vec<C::Item>, limit: bool) -> (c: Self) {
        let mut state: Vec<C> = Vec::new();
        let mut prev: Vec<C::Item> = Vec::new();
        let mut i: usize = 0;
        while i < max.len()
            invariant
                i <= max@.len(),
                Self::valid(Self::model(&max)),
                state@.len() == i,
                prev@.len() == i,
                forall|k: int|
                    #![trigger state@[k]]
                    0 <= k < i ==> holds(&state@[k], &prev@[k]) && state@[k].max() == C::model(
                        &max@[k],
                    ) && digit(&state@[k]) == 0,
            decreases max@.len() - i,
        {
            proof {
                assert(C::valid(Self::model(&max)[i as int]));
            }
            let b = start::<C>(&max[i]);
            state.push(b.0);
            prev.push(b.1);
            i += 1;
        }
        let c = VCycle { max, state, prev, limit, done: false };
        proof {
            lemma_compose_zero(sizes_of::<C>(c.max()), c.digits());
        }
        c
    }

    fn next(&mut self) -> (r: Option<Vec<C::Item>>) {
        if self.done {
            return None;
        }
        let out = copy_items::<C>(&self.prev);
        let ghost a = self.state@;
        let ghost pa = self.prev@;
        let ghost m0 = self.max@;
        let ghost sizes = sizes_of::<C>(self.max());
        let ghost d = self.digits();
        let n = self.state.len();
        let mut i: usize = n;
        let mut carry = true;
        proof {
            self.lemma_size();
        }
        while carry && i > 0
            invariant
                i <= n,
                n == m0.len(),
                a.len() == n,
                pa.len() == n,
                self.max@ == m0,
                self.state@.len() == n,
                self.prev@.len() == n,
                self.limit == old(self).limit,
                Self::valid(Self::model(&self.max)),
                forall|k: int|
                    #![trigger a[k]]
                    0 <= k < n ==> holds(&a[k], &pa[k]) && a[k].max() == C::model(&m0[k]),
                forall|k: int|
                    #![trigger self.state@[k]]
                    0 <= k < i ==> self.state@[k] == a[k] && self.prev@[k] == pa[k],
                forall|k: int|
                    #![trigger self.state@[k]]
                    i < k < n ==> was_reset(&a[k], &self.state@[k], &self.prev@[k]),
                carry && i < n ==> was_reset(
                    &a[i as int],
                    &self.state@[i as int],
                    &self.prev@[i as int],
                ),
                !carry ==> i < n && was_advanced(
                    &a[i as int],
                    &self.state@[i as int],
                    &self.prev@[i as int],
                ),
            decreases i,
        {
            i -= 1;
            let ghost before = self.state@[i as int];
            let ghost kept = self.state@;
            let ghost held = self.prev@;
            proof {
                assert(before == a[i as int]);
                before.lemma_size();
                assert(C::valid(Self::model(&self.max)[i as int]));
            }
            match self.state[i].next() {
                Some(x) => {
                    carry = false;
                    proof {
                        lemma_component_next(&before, &self.state@[i as int], &x);
                    }
                    self.prev.set(i, x);
                },
                None => {
                    let b = start::<C>(&self.max[i]);
                    self.state.set(i, b.0);
                    self.prev.set(i, b.1);
                },
            }
            proof {
                assert forall|k: int|
                    #![trigger self.state@[k]]
                    0 <= k < i implies self.state@[k] == a[k] && self.prev@[k] == pa[k] by {
                    assert(kept[k] == a[k]);
                    assert(held[k] == pa[k]);
                }
                assert forall|k: int|
                    #![trigger self.state@[k]]
                    i < k < n implies was_reset(&a[k], &self.state@[k], &self.prev@[k]) by {
                    assert(self.state@[k] == kept[k]);
                    assert(self.prev@[k] == held[k]);
                }
                assert(holds(&a[i as int], &pa[i as int]));
            }
        }
        self.done = carry && self.limit;
        proof {
            let e = self.digits();
            let pivot: int = if carry {
                -1
            } else {
                i as int
            };
            assert(self.max() == old(self).max());
            assert(digits_fit(sizes, d)) by {
                assert forall|k: int| 0 <= k < sizes.len() implies #[trigger] d[k] < sizes[k] by {
                    a[k].lemma_size();
                }
            }
            assert(odometer_step(sizes, d, e, pivot)) by {
                assert forall|k: int| pivot < k < sizes.len() implies #[trigger] d[k] + 1
                    == sizes[k] && e[k] == 0 by {
                    assert(was_reset(&a[k], &self.state@[k], &self.prev@[k]));
                    assert(holds(&a[k], &pa[k]));
                }
                if pivot >= 0 {
                    assert(holds(&a[pivot], &pa[pivot]));
                }
                assert forall|k: int| 0 <= k < pivot implies #[trigger] e[k] == d[k] by {
                    assert(self.state@[k] == a[k]);
                }
            }
            lemma_odometer_step(sizes, d, e, pivot);
            let p = compose(sizes, d);
            let total = product(sizes);
            lemma_compose_bound(sizes, d);
            if carry {
                vstd::arithmetic::div_mod::lemma_mod_self_0(total as int);
            } else {
                vstd::arithmetic::div_mod::lemma_small_mod(p + 1, total);
            }
            assert(Self::model(&out) =~= Self::nth(old(self).max(), old(self).pos())) by {
                assert forall|k: int| 0 <= k < n implies Self::model(&out)[k] == Self::nth(
                    old(self).max(),
                    old(self).pos(),
                )[k] by {
                    lemma_digit_of_compose(sizes, d, k);
                    assert(holds(&a[k], &pa[k]));
                    assert(C::model(&out@[k]) == C::model(&pa[k]));
                }
            }
            assert forall|k: int|
                #![trigger self.state@[k]]
                0 <= k < self.max@.len() implies holds(&self.state@[k], &self.prev@[k])
                && self.state@[k].max() == C::model(&self.max@[k]) by {
                assert(holds(&a[k], &pa[k]) && a[k].max() == C::model(&m0[k]));
                if k < i {
                    assert(self.state@[k] == a[k]);
                } else if k > i || carry {
                    assert(was_reset(&a[k], &self.state@[k], &self.prev@[k]));
                }
            }
        }
        Some(out)
    }

    fn copy_item(x: &Vec<C::Item>) -> (r: Vec<C::Item>) {
        let r = copy_items::<C>(x);
        proof {
            assert(Self::model(&r) =~= Self::model(x));
        }
        r
    }
}


/// The factorial of `n`.
pub open spec fn fact(n: nat) -> nat
    decreases n,
{
    if n == 0 {
        1
    } else {
        n * fact((n - 1) as nat)
    }
}

/// Factorials are positive and never decrease.
pub proof fn lemma_fact_mono(a: nat, b: nat)
    requires
        a <= b,
    ensures
        1 <= fact(a) <= fact(b),
    decreases b,
{
    if a < b {
        lemma_fact_mono(a, (b - 1) as nat);
        let f = fact((b - 1) as nat) as int;
        let bi = b as int;
        assert(f <= bi * f) by (nonlinear_arith)
            requires
                1 <= bi,
                0 <= f,
        ;
    } else if a > 0 {
        lemma_fact_mono((a - 1) as nat, (a - 1) as nat);
        let f = fact((a - 1) as nat) as int;
        let ai = a as int;
        assert(1 <= ai * f) by (nonlinear_arith)
            requires
                1 <= ai,
                1 <= f,
        ;
    }
}

/// The product of the numbers from 2 up to, but not including, `n`: the
/// factorial of `n - 1`.
pub fn factorial(n: usize) -> (r: usize)
    requires
        n > 0 ==> fact((n - 1) as nat) <= usize::MAX,
    ensures
        r == if n == 0 {
            1
        } else {
            fact((n - 1) as nat)
        },
{
    let mut res: usize = 1;
    let mut i: usize = 2;
    proof {
        reveal_with_fuel(fact, 2);
    }
    while i < n
        invariant
            2 <= i,
            i <= n || n < 2,
            n < 2 ==> i == 2,
            n > 0 ==> fact((n - 1) as nat) <= usize::MAX,
            res == fact((i - 1) as nat),
        decreases n - i,
    {
        proof {
            lemma_fact_mono(i as nat, (n - 1) as nat);
            assert(fact(i as nat) == i * fact((i - 1) as nat));
            assert(res * i == i * res) by (nonlinear_arith);
        }
        res = res * i;
        i += 1;
    }
    proof {
        reveal_with_fuel(fact, 2);
        assert(fact(0) == 1);
        assert(fact(1) == 1);
    }
    res
}

/// The factorial of `n`, if it fits the machine's integers.
pub fn checked_factorial(n: usize) -> (r: Option<usize>)
    ensures
        match r {
            Some(f) => f == fact(n as nat),
            None => fact(n as nat) > usize::MAX,
        },
{
    let mut res: usize = 1;
    let mut i: usize = 0;
    while i < n
        invariant
            i <= n,
            res == fact(i as nat),
        decreases n - i,
    {
        proof {
            assert(fact((i + 1) as nat) == (i + 1) * fact(i as nat));
            assert(res * (i + 1) == (i + 1) * res) by (nonlinear_arith);
        }
        match res.checked_mul(i + 1) {
            Some(x) => {
                res = x;
            },
            None => {
                proof {
                    lemma_fact_mono((i + 1) as nat, n as nat);
                }
                return None;
            },
        }
        i += 1;
    }
    Some(res)
}

/// The numbers from 0 up to, but not including, `n`, in order.
pub open spec fn iota(n: nat) -> Seq<usize> {
    Seq::new(n, |i: int| i as usize)
}

/// The sequence `pool` without its item at place `q`.
pub open spec fn without(pool: Seq<usize>, q: int) -> Seq<usize> {
    Seq::new(
        (pool.len() - 1) as nat,
        |j: int|
            if j < q {
                pool[j]
            } else {
                pool[j + 1]
            },
    )
}

/// The arrangement of the items of `pool` that the number `index` stands
/// for in the factorial number system: the digit of greatest weight picks
/// the first item from the pool, the next digit picks the second from what
/// is left, and so on.
pub open spec fn decode(pool: Seq<usize>, index: nat) -> Seq<usize>
    decreases pool.len(),
{
    if pool.len() == 0 {
        Seq::empty()
    } else {
        let f = fact((pool.len() - 1) as nat);
        seq![pool[(index / f) as int]] + decode(without(pool, (index / f) as int), index % f)
    }
}

/// The permutation of `0..width` at position `k`.
pub open spec fn perm_at(width: nat, k: nat) -> Seq<usize> {
    decode(iota(width), k)
}

/// A number below the factorial of `n` has a first digit below `n` and a
/// rest below the factorial of `n - 1`.
pub proof fn lemma_factorial_digit(n: nat, index: nat)
    requires
        n > 0,
        index < fact(n),
    ensures
        0 <= index / fact((n - 1) as nat) < n,
        0 <= index % fact((n - 1) as nat) < fact((n - 1) as nat),
        index == (index / fact((n - 1) as nat)) * fact((n - 1) as nat) + index % fact(
            (n - 1) as nat,
        ),
{
    let f = fact((n - 1) as nat) as int;
    lemma_fact_mono((n - 1) as nat, (n - 1) as nat);
    vstd::arithmetic::div_mod::lemma_fundamental_div_mod(index as int, f);
    vstd::arithmetic::div_mod::lemma_mod_bound(index as int, f);
    let q = index as int / f;
    let r = index as int % f;
    let ni = n as int;
    assert(q < ni) by (nonlinear_arith)
        requires
            f * q + r < ni * f,
            0 <= r,
            0 < f,
    ;
    assert(f * q == q * f) by (nonlinear_arith);
    vstd::arithmetic::div_mod::lemma_div_pos_is_pos(index as int, f);
}

/// An iterator through all permutations of the numbers from 0 to `width-1` in
/// the order of the factorial number system.
pub struct Permutation {
    state: usize,
    width: usize,
}

impl Permutation {
    /// The width: the permutations are those of `0..width`.
    pub closed spec fn width(&self) -> nat {
        self.width as nat
    }

    /// The position of the permutation that `next` yields next.
    pub closed spec fn pos(&self) -> nat {
        self.state as nat
    }

    /// Creates a cycle through permutations of numbers from 0 to `width-1`.
    pub fn new(width: usize) -> (p: Self)
        ensures
            p.width() == width,
            p.pos() == 0,
    {
        Permutation { state: 0, width }
    }

    /// Yields the permutation at the current position and moves on by one.
    /// After the last of the `width!` permutations it yields nothing.
    pub fn next(&mut self) -> (r: Option<Vec<usize>>)
        requires
            fact(old(self).width()) <= usize::MAX,
        ensures
            final(self).width() == old(self).width(),
            old(self).pos() < fact(old(self).width()) ==> r is Some && r->0@ == perm_at(
                old(self).width(),
                old(self).pos(),
            ) && final(self).pos() == old(self).pos() + 1,
            old(self).pos() >= fact(old(self).width()) ==> r is None && final(self).pos() == old(
                self,
            ).pos(),
    {
        let limit = if self.width == usize::MAX {
            proof {
                lemma_fact_mono(1, self.width as nat);
                assert(fact(self.width as nat) == self.width * fact((self.width - 1) as nat));
                lemma_fact_mono(2, (self.width - 1) as nat);
                reveal_with_fuel(fact, 3);
                let f = fact((self.width - 1) as nat) as int;
                let w = self.width as int;
                assert(w * f > w) by (nonlinear_arith)
                    requires
                        f >= 2,
                        w > 0,
                ;
            }
            0
        } else {
            factorial(self.width + 1)
        };
        if self.state >= limit {
            return None;
        }
        let mut pool: Vec<usize> = Vec::new();
        let mut k: usize = 0;
        while k < self.width
            invariant
                k <= self.width,
                pool@ == iota(k as nat),
            decreases self.width - k,
        {
            pool.push(k);
            assert(pool@ =~= iota((k + 1) as nat));
            k += 1;
        }
        let mut res: Vec<usize> = Vec::new();
        let mut index = self.state;
        let mut i = self.width;
        while i > 0
            invariant
                i <= self.width,
                fact(self.width as nat) <= usize::MAX,
                pool@.len() == i,
                index < fact(i as nat),
                res@ + decode(pool@, index as nat) == perm_at(self.width as nat, self.state as nat),
            decreases i,
        {
            proof {
                lemma_factorial_digit(i as nat, index as nat);
                lemma_fact_mono((i - 1) as nat, self.width as nat);
            }
            let f = factorial(i);
            let q = index / f;
            let ghost before = res@;
            let ghost old_pool = pool@;
            let x = pool.remove(q);
            res.push(x);
            index = index % f;
            proof {
                assert(pool@ =~= without(old_pool, q as int));
                assert(before + (seq![old_pool[q as int]] + decode(pool@, index as nat)) =~= res@
                    + decode(pool@, index as nat));
            }
            i -= 1;
        }
        proof {
            assert(decode(pool@, index as nat) =~= Seq::<usize>::empty());
            assert(res@ + Seq::<usize>::empty() =~= res@);
        }
        self.state += 1;
        Some(res)
    }
}


/// What is left of a pool without repeats when one item is taken out: the
/// other items, still without repeats.
pub proof fn lemma_without(pool: Seq<usize>, q: int)
    requires
        0 <= q < pool.len(),
    ensures
        without(pool, q).len() == pool.len() - 1,
        forall|j: int| 0 <= j < pool.len() - 1 ==> pool.contains(#[trigger] without(pool, q)[j]),
        pool.no_duplicates() ==> without(pool, q).no_duplicates() && !without(pool, q).contains(
            pool[q],
        ),
{
    let rest = without(pool, q);
    assert forall|j: int| 0 <= j < pool.len() - 1 implies pool.contains(#[trigger] rest[j]) by {
        if j < q {
            assert(pool[j] == rest[j]);
        } else {
            assert(pool[j + 1] == rest[j]);
        }
    }
    if pool.no_duplicates() {
        assert forall|i: int, j: int| 0 <= i < rest.len() && 0 <= j < rest.len() && i != j implies rest[i]
            != rest[j] by {
            let i2 = if i < q { i } else { i + 1 };
            let j2 = if j < q { j } else { j + 1 };
            assert(rest[i] == pool[i2]);
            assert(rest[j] == pool[j2]);
        }
        if rest.contains(pool[q]) {
            let j = choose|j: int| 0 <= j < rest.len() && rest[j] == pool[q];
            let j2 = if j < q { j } else { j + 1 };
            assert(rest[j] == pool[j2]);
        }
    }
}

/// `decode` arranges the pool: it keeps the length, yields only items of
/// the pool, and repeats none if the pool repeats none.
pub proof fn lemma_decode_arranges(pool: Seq<usize>, index: nat)
    requires
        index < fact(pool.len()),
    ensures
        decode(pool, index).len() == pool.len(),
        forall|i: int| 0 <= i < pool.len() ==> pool.contains(#[trigger] decode(pool, index)[i]),
        pool.no_duplicates() ==> decode(pool, index).no_duplicates(),
    decreases pool.len(),
{
    if pool.len() > 0 {
        let f = fact((pool.len() - 1) as nat);
        lemma_factorial_digit(pool.len(), index);
        assert(index / f < pool.len());
        let q = (index / f) as int;
        assert(0 <= q);
        let rest = without(pool, q);
        lemma_without(pool, q);
        lemma_decode_arranges(rest, index % f);
        let tail = decode(rest, index % f);
        let d = decode(pool, index);
        assert(d == seq![pool[q]] + tail);
        assert forall|i: int| 0 <= i < pool.len() implies pool.contains(#[trigger] d[i]) by {
            if i == 0 {
                assert(d[0] == pool[q]);
            } else {
                assert(d[i] == tail[i - 1]);
                assert(rest.contains(tail[i - 1]));
                let j = choose|j: int| 0 <= j < rest.len() && rest[j] == tail[i - 1];
                assert(pool.contains(rest[j]));
            }
        }
        if pool.no_duplicates() {
            assert forall|i: int, j: int| 0 <= i < d.len() && 0 <= j < d.len() && i != j implies d[i]
                != d[j] by {
                if i > 0 {
                    assert(d[i] == tail[i - 1]);
                    assert(rest.contains(tail[i - 1]));
                }
                if j > 0 {
                    assert(d[j] == tail[j - 1]);
                    assert(rest.contains(tail[j - 1]));
                }
            }
        }
    }
}

/// Two numbers that `decode` takes to the same arrangement of a pool
/// without repeats are equal.
pub proof fn lemma_decode_injective(pool: Seq<usize>, i1: nat, i2: nat)
    requires
        pool.no_duplicates(),
        i1 < fact(pool.len()),
        i2 < fact(pool.len()),
        decode(pool, i1) == decode(pool, i2),
    ensures
        i1 == i2,
    decreases pool.len(),
{
    if pool.len() > 0 {
        let f = fact((pool.len() - 1) as nat);
        lemma_factorial_digit(pool.len(), i1);
        lemma_factorial_digit(pool.len(), i2);
        let q1 = (i1 / f) as int;
        let q2 = (i2 / f) as int;
        let t1 = decode(without(pool, q1), i1 % f);
        let t2 = decode(without(pool, q2), i2 % f);
        let d1 = seq![pool[q1]] + t1;
        let d2 = seq![pool[q2]] + t2;
        assert(d1[0] == pool[q1]);
        assert(d2[0] == pool[q2]);
        assert(q1 == q2);
        assert(t1 =~= d1.subrange(1, d1.len() as int));
        assert(t2 =~= d2.subrange(1, d2.len() as int));
        lemma_without(pool, q1);
        lemma_decode_injective(without(pool, q1), i1 % f, i2 % f);
    } else {
        assert(fact(0) == 1);
    }
}

/// Each permutation that the enumeration yields is a bijection on
/// `0..width`: it has `width` entries, all below `width`, none twice.
pub proof fn lemma_permutation_is_bijection(width: nat, k: nat)
    requires
        k < fact(width),
        width <= usize::MAX,
    ensures
        perm_at(width, k).len() == width,
        perm_at(width, k).no_duplicates(),
        forall|i: int| 0 <= i < width ==> #[trigger] perm_at(width, k)[i] < width,
{
    let pool = iota(width);
    lemma_decode_arranges(pool, k);
    assert forall|i: int| 0 <= i < width implies #[trigger] perm_at(width, k)[i] < width by {
        let x = perm_at(width, k)[i];
        assert(pool.contains(x));
        let j = choose|j: int| 0 <= j < pool.len() && pool[j] == x;
    }
}

/// The permutations at two different positions are different: the
/// enumeration yields `width!` permutations and none of them twice.
pub proof fn lemma_permutations_distinct(width: nat, j: nat, k: nat)
    requires
        j < fact(width),
        k < fact(width),
        width <= usize::MAX,
        j != k,
    ensures
        perm_at(width, j) != perm_at(width, k),
{
    if perm_at(width, j) == perm_at(width, k) {
        lemma_decode_injective(iota(width), j, k);
    }
}


/// `q` arranges the pool: it is as long, repeats nothing, and holds only
/// items of the pool.
pub open spec fn arranges(pool: Seq<usize>, q: Seq<usize>) -> bool {
    &&& q.len() == pool.len()
    &&& q.no_duplicates()
    &&& forall|i: int| 0 <= i < q.len() ==> pool.contains(#[trigger] q[i])
}

/// Every arrangement of a pool without repeats is the one that some number
/// below the factorial of its length stands for.
pub proof fn lemma_decode_complete(pool: Seq<usize>, q: Seq<usize>) -> (index: nat)
    requires
        pool.no_duplicates(),
        arranges(pool, q),
    ensures
        index < fact(pool.len()),
        decode(pool, index) == q,
    decreases pool.len(),
{
    if pool.len() == 0 {
        assert(decode(pool, 0) =~= q);
        0
    } else {
        assert(pool.contains(q[0]));
        let j = choose|j: int| 0 <= j < pool.len() && pool[j] == q[0];
        let rest = without(pool, j);
        let tail = q.subrange(1, q.len() as int);
        lemma_without(pool, j);
        assert(arranges(rest, tail)) by {
            assert forall|a: int, b: int| 0 <= a < tail.len() && 0 <= b < tail.len() && a != b implies tail[a]
                != tail[b] by {
                assert(tail[a] == q[a + 1]);
                assert(tail[b] == q[b + 1]);
            }
            assert forall|i: int| 0 <= i < tail.len() implies rest.contains(#[trigger] tail[i]) by {
                assert(tail[i] == q[i + 1]);
                assert(pool.contains(q[i + 1]));
                let x = choose|x: int| 0 <= x < pool.len() && pool[x] == q[i + 1];
                assert(x != j);
                let y = if x < j { x } else { x - 1 };
                assert(rest[y] == pool[x]);
            }
        }
        let sub = lemma_decode_complete(rest, tail);
        let f = fact((pool.len() - 1) as nat);
        let index = (j * f + sub) as nat;
        lemma_fact_mono((pool.len() - 1) as nat, (pool.len() - 1) as nat);
        vstd::arithmetic::div_mod::lemma_fundamental_div_mod_converse(
            index as int,
            f as int,
            j,
            sub as int,
        );
        let fi = f as int;
        let ni = pool.len() as int;
        let si = sub as int;
        assert(j * fi + si < ni * fi) by (nonlinear_arith)
            requires
                0 <= j < ni,
                0 <= si < fi,
        ;
        assert(j * fi >= 0) by (nonlinear_arith)
            requires
                0 <= j,
                0 <= fi,
        ;
        assert(decode(pool, index) =~= q) by {
            assert(decode(pool, index) == seq![pool[j]] + decode(rest, sub));
        }
        index
    }
}

/// Every permutation of `0..width` is in the enumeration.
pub proof fn lemma_permutations_complete(width: nat, pm: Seq<usize>) -> (k: nat)
    requires
        width <= usize::MAX,
        pm.len() == width,
        pm.no_duplicates(),
        forall|i: int| 0 <= i < width ==> #[trigger] pm[i] < width,
    ensures
        k < fact(width),
        perm_at(width, k) == pm,
{
    let pool = iota(width);
    assert forall|i: int, j: int| 0 <= i < pool.len() && 0 <= j < pool.len() && i != j implies pool[i]
        != pool[j] by {}
    assert forall|i: int| 0 <= i < pm.len() implies pool.contains(#[trigger] pm[i]) by {
        assert(pool[pm[i] as int] == pm[i]);
    }
    lemma_decode_complete(pool, pm)
}

} // verus!
