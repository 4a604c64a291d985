//! The enumeration of every transducer of one size.

use crate::combi::compose;
use crate::combi::digit_of;
use crate::combi::digits_fit;
use crate::combi::lemma_compose_bound;
use crate::combi::lemma_digit_of_compose;
use crate::combi::lemma_compose_digits;
use crate::combi::lemma_split;
use crate::combi::lemma_valid_size;
use crate::combi::product;
use crate::combi::sizes_of;
use crate::combi::Cycle;
use crate::combi::TCycle;
use crate::combi::UCycle;
use crate::combi::VCycle;
use crate::machine::Machine;
use crate::transducer::Transducer;
use vstd::prelude::*;

verus! {

/// The domain of the flip bits of `n` states: `n` bits.
pub open spec fn flip_domain(n: nat) -> Seq<nat> {
    Seq::new(n, |i: int| 2nat)
}

/// The domain of the transition tables of `n` states: `n` rows of two
/// states each.
pub open spec fn table_domain(n: nat) -> Seq<Seq<nat>> {
    Seq::new(n, |i: int| Seq::new(2, |j: int| n))
}

/// The number of flip vectors of `n` states.
pub open spec fn flip_count(n: nat) -> nat {
    VCycle::<UCycle<u8>>::size(flip_domain(n))
}

/// The number of transition tables of `n` states.
pub open spec fn table_count(n: nat) -> nat {
    VCycle::<VCycle<UCycle<usize>>>::size(table_domain(n))
}

/// The number of transducers of `n` states.
pub open spec fn count(n: nat) -> nat {
    flip_count(n) * table_count(n)
}

/// The transducer of `n` states at position `k` of the enumeration. The
/// position splits into that of the flip vector and that of the table, the
/// table moving fastest; both are read in the order of their cycles and
/// then turned round, rows and entries alike.
pub open spec fn machine_at(n: nat, k: nat) -> Machine {
    let flips = VCycle::<UCycle<u8>>::nth(flip_domain(n), k / table_count(n));
    let rows = VCycle::<VCycle<UCycle<usize>>>::nth(table_domain(n), k % table_count(n));
    Machine {
        transition: Seq::new(n, |s: int| Seq::new(2, |a: int| rows[n - 1 - s][1 - a] as usize)),
        flip: Seq::new(n, |s: int| flips[n - 1 - s] as u8),
    }
}

/// The domains are valid, and their sizes are 2 and `n` at every place.
pub proof fn lemma_domains(n: nat)
    ensures
        VCycle::<UCycle<u8>>::valid(flip_domain(n)),
        VCycle::<VCycle<UCycle<usize>>>::valid(table_domain(n)),
        sizes_of::<UCycle<u8>>(flip_domain(n)) == Seq::new(n, |i: int| 2nat),
        forall|i: int|
            0 <= i < n ==> sizes_of::<UCycle<usize>>(#[trigger] table_domain(n)[i]) == Seq::new(
                2,
                |j: int| n,
            ),
        flip_count(n) > 0,
        table_count(n) > 0,
{
    assert forall|i: int| 0 <= i < n implies VCycle::<UCycle<usize>>::valid(
        #[trigger] table_domain(n)[i],
    ) by {
        assert(n > 0);
        let row = table_domain(n)[i];
        assert forall|j: int| 0 <= j < row.len() implies UCycle::<usize>::valid(#[trigger] row[j]) by {}
    }
    assert(sizes_of::<UCycle<u8>>(flip_domain(n)) =~= Seq::new(n, |i: int| 2nat));
    assert forall|i: int| 0 <= i < n implies sizes_of::<UCycle<usize>>(
        #[trigger] table_domain(n)[i],
    ) == Seq::new(2, |j: int| n) by {
        assert(sizes_of::<UCycle<usize>>(table_domain(n)[i]) =~= Seq::new(2, |j: int| n));
    }
    lemma_valid_size::<VCycle<UCycle<u8>>>(flip_domain(n));
    lemma_valid_size::<VCycle<VCycle<UCycle<usize>>>>(table_domain(n));
}

/// The entries of the items of the two cycles: flip bits are bits, and the
/// entries of a table are states.
pub proof fn lemma_items(n: nat, k: nat)
    requires
        k < count(n),
    ensures
        0 <= k / table_count(n) < flip_count(n),
        0 <= k % table_count(n) < table_count(n),
        forall|s: int|
            0 <= s < n ==> #[trigger] VCycle::<UCycle<u8>>::nth(
                flip_domain(n),
                k / table_count(n),
            )[s] < 2,
        forall|s: int, a: int|
            0 <= s < n && 0 <= a < 2 ==> (#[trigger] VCycle::<VCycle<UCycle<usize>>>::nth(
                table_domain(n),
                k % table_count(n),
            )[s][a]) < n,
{
    lemma_domains(n);
    lemma_split(k as int, flip_count(n) as int, table_count(n) as int);
    let kf = k / table_count(n);
    let kt = k % table_count(n);
    let fs = sizes_of::<UCycle<u8>>(flip_domain(n));
    assert forall|i: int| 0 <= i < fs.len() implies #[trigger] fs[i] > 0 by {}
    lemma_compose_digits(fs, kf);
    let df = Seq::new(fs.len(), |i: int| digit_of(fs, kf, i));
    assert forall|s: int| 0 <= s < n implies #[trigger] VCycle::<UCycle<u8>>::nth(
        flip_domain(n),
        kf,
    )[s] < 2 by {
        assert(df[s] < fs[s]);
    }
    let ts = sizes_of::<VCycle<UCycle<usize>>>(table_domain(n));
    assert forall|i: int| 0 <= i < ts.len() implies #[trigger] ts[i] > 0 by {
        lemma_valid_size::<VCycle<UCycle<usize>>>(table_domain(n)[i]);
    }
    lemma_compose_digits(ts, kt);
    let dt = Seq::new(ts.len(), |i: int| digit_of(ts, kt, i));
    assert forall|s: int, a: int| 0 <= s < n && 0 <= a < 2 implies (
    #[trigger] VCycle::<VCycle<UCycle<usize>>>::nth(table_domain(n), kt)[s][a]) < n by {
        assert(dt[s] < ts[s]);
        let row = table_domain(n)[s];
        let rs = sizes_of::<UCycle<usize>>(row);
        assert(rs == Seq::new(2, |j: int| n));
        assert forall|i: int| 0 <= i < rs.len() implies #[trigger] rs[i] > 0 by {}
        lemma_compose_digits(rs, dt[s]);
        let dr = Seq::new(rs.len(), |i: int| digit_of(rs, dt[s], i));
        assert(dr[a] < rs[a]);
    }
}

/// Every transducer of the enumeration is well formed and has `n` states.
pub proof fn lemma_machine_at_wf(n: nat, k: nat)
    requires
        k < count(n),
        n <= usize::MAX,
    ensures
        machine_at(n, k).wf(),
        machine_at(n, k).len() == n,
{
    lemma_items(n, k);
    let m = machine_at(n, k);
    let flips = VCycle::<UCycle<u8>>::nth(flip_domain(n), k / table_count(n));
    let rows = VCycle::<VCycle<UCycle<usize>>>::nth(table_domain(n), k % table_count(n));
    assert forall|s: int| 0 <= s < m.transition.len() implies (#[trigger] m.transition[s]).len()
        == 2 by {}
    assert forall|s: int, a: int|
        0 <= s < m.transition.len() && 0 <= a < 2 implies #[trigger] m.transition[s][a]
        < m.transition.len() by {
        let s2 = n - 1 - s;
        let a2 = 1 - a;
        assert(0 <= s2 < n && 0 <= a2 < 2);
        assert(rows[s2][a2] < n);
    }
    assert forall|s: int| 0 <= s < m.flip.len() implies #[trigger] m.flip[s] <= 1 by {
        let s2 = n - 1 - s;
        assert(0 <= s2 < n);
        assert(flips[s2] < 2);
    }
}

/// The transducers at two different positions are different: the
/// enumeration yields none twice.
pub proof fn lemma_machines_distinct(n: nat, j: nat, k: nat)
    requires
        j < count(n),
        k < count(n),
        n <= usize::MAX,
        j != k,
    ensures
        machine_at(n, j) != machine_at(n, k),
{
    lemma_domains(n);
    lemma_items(n, j);
    lemma_items(n, k);
    let tc = table_count(n);
    lemma_split(j as int, flip_count(n) as int, tc as int);
    lemma_split(k as int, flip_count(n) as int, tc as int);
    let fj = VCycle::<UCycle<u8>>::nth(flip_domain(n), j / tc);
    let fk = VCycle::<UCycle<u8>>::nth(flip_domain(n), k / tc);
    let rj = VCycle::<VCycle<UCycle<usize>>>::nth(table_domain(n), j % tc);
    let rk = VCycle::<VCycle<UCycle<usize>>>::nth(table_domain(n), k % tc);
    let a = machine_at(n, j);
    let b = machine_at(n, k);
    if a == b {
        assert(fj =~= fk) by {
            assert forall|s: int| 0 <= s < n implies fj[s] == fk[s] by {
                assert(a.flip[n - 1 - s] == b.flip[n - 1 - s]);
                assert(fj[s] < 2 && fk[s] < 2);
            }
        }
        assert(rj =~= rk) by {
            assert forall|s: int| 0 <= s < n implies rj[s] == rk[s] by {
                assert(a.transition[n - 1 - s] == b.transition[n - 1 - s]);
                assert forall|x: int| 0 <= x < 2 implies rj[s][x] == rk[s][x] by {
                    assert(a.transition[n - 1 - s][1 - x] == b.transition[n - 1 - s][1 - x]);
                    assert(rj[s][x] < n && rk[s][x] < n);
                }
                assert(rj[s].len() == 2 && rk[s].len() == 2);
                assert(rj[s] =~= rk[s]);
            }
        }
        VCycle::<UCycle<u8>>::lemma_nth_injective(flip_domain(n), j / tc, k / tc);
        VCycle::<VCycle<UCycle<usize>>>::lemma_nth_injective(table_domain(n), j % tc, k % tc);
    }
}

/// The sequence `v` turned round.
fn reversed<T: Copy>(v: &Vec<T>) -> (r: Vec<T>)
    ensures
        r@ == v@.reverse(),
{
    let mut r: Vec<T> = Vec::new();
    let mut k: usize = v.len();
    while k > 0
        invariant
            k <= v@.len(),
            r@.len() == v@.len() - k,
            forall|j: int| 0 <= j < r@.len() ==> r@[j] == v@[v@.len() - 1 - j],
        decreases k,
    {
        k -= 1;
        r.push(v[k]);
    }
    proof {
        assert(r@ =~= v@.reverse());
    }
    r
}

/// An iterator through all transducers of a particular size.
pub struct AllTransducers {
    state: TCycle<VCycle<UCycle<u8>>, VCycle<VCycle<UCycle<usize>>>>,
}

impl AllTransducers {
    /// The number of states of the transducers.
    pub closed spec fn size(&self) -> nat {
        self.state.max().0.len()
    }

    /// The invariant of the enumeration.
    pub closed spec fn inv(&self) -> bool {
        &&& self.state.inv()
        &&& self.state.limit()
        &&& self.state.max() == (flip_domain(self.size()), table_domain(self.size()))
        &&& self.size() <= usize::MAX
    }

    /// The number of transducers yielded so far.
    pub closed spec fn yielded(&self) -> nat {
        if self.state.done() {
            count(self.size())
        } else {
            self.state.pos()
        }
    }

    /// Create a new iterator through all transducers of a particular `size`.
    pub fn new(size: usize) -> (a: AllTransducers)
        ensures
            a.inv(),
            a.size() == size,
            a.yielded() == 0,
    {
        let mut flips: Vec<u8> = Vec::new();
        let mut rows: Vec<Vec<usize>> = Vec::new();
        let mut i: usize = 0;
        while i < size
            invariant
                i <= size,
                flips@.len() == i,
                rows@.len() == i,
                forall|k: int| 0 <= k < i ==> flips@[k] == 2,
                forall|k: int| 0 <= k < i ==> (#[trigger] rows@[k])@ == seq![size, size],
            decreases size - i,
        {
            flips.push(2);
            let mut row: Vec<usize> = Vec::new();
            row.push(size);
            row.push(size);
            rows.push(row);
            i += 1;
        }
        proof {
            lemma_domains(size as nat);
            assert(VCycle::<UCycle<u8>>::model(&flips) =~= flip_domain(size as nat));
            assert(VCycle::<VCycle<UCycle<usize>>>::model(&rows) =~= table_domain(size as nat)) by {
                assert forall|k: int| 0 <= k < size implies VCycle::<VCycle<UCycle<usize>>>::model(
                    &rows,
                )[k] == table_domain(size as nat)[k] by {
                    assert(VCycle::<UCycle<usize>>::model(&rows@[k]) =~= Seq::new(
                        2,
                        |j: int| size as nat,
                    ));
                }
            }
        }
        AllTransducers { state: TCycle::new((flips, rows), true) }
    }

    /// Yields the transducer at the current position of the enumeration and
    /// moves on by one. After the last one it yields nothing.
    pub fn next(&mut self) -> (r: Option<Transducer>)
        requires
            old(self).inv(),
        ensures
            final(self).inv(),
            final(self).size() == old(self).size(),
            old(self).yielded() < count(old(self).size()) ==> r is Some && r->0@ == machine_at(
                old(self).size(),
                old(self).yielded(),
            ) && final(self).yielded() == old(self).yielded() + 1,
            old(self).yielded() >= count(old(self).size()) ==> r is None && final(self).yielded()
                == old(self).yielded(),
    {
        let ghost n = self.size();
        let ghost pos = self.state.pos();
        proof {
            self.state.lemma_size();
        }
        match self.state.next() {
            None => None,
            Some(item) => {
                let ghost im = TCycle::<VCycle<UCycle<u8>>, VCycle<VCycle<UCycle<usize>>>>::model(
                    &item,
                );
                proof {
                    lemma_items(n, pos);
                    assert(im == TCycle::<VCycle<UCycle<u8>>, VCycle<VCycle<UCycle<usize>>>>::nth(
                        (flip_domain(n), table_domain(n)),
                        pos,
                    ));
                    assert(im.0.len() == n);
                    assert(im.1.len() == n);
                }
                let flips = item.0;
                let rows = item.1;
                proof {
                    if pos + 1 < count(n) {
                        vstd::arithmetic::div_mod::lemma_small_mod(pos + 1, count(n));
                    }
                    lemma_items(n, pos);
                }
                let ghost fm = VCycle::<UCycle<u8>>::model(&flips);
                let ghost rm = VCycle::<VCycle<UCycle<usize>>>::model(&rows);
                let mut transition: Vec<Vec<usize>> = Vec::new();
                let mut k: usize = rows.len();
                while k > 0
                    invariant
                        k <= rows@.len(),
                        transition@.len() == rows@.len() - k,
                        forall|j: int|
                            0 <= j < transition@.len() ==> (#[trigger] transition@[j])@
                                == rows@[rows@.len() - 1 - j]@.reverse(),
                    decreases k,
                {
                    k -= 1;
                    transition.push(reversed(&rows[k]));
                }
                let flip = reversed(&flips);
                let t = Transducer::new(transition, flip);
                proof {
                    let m = machine_at(n, pos);
                    assert(fm == im.0);
                    assert(rm == im.1);
                    assert(fm.len() == n);
                    assert(rm.len() == n);
                    assert(t@.flip =~= m.flip) by {
                        assert forall|s: int| 0 <= s < n implies t@.flip[s] == m.flip[s] by {
                            assert(fm[n - 1 - s] == flips@[n - 1 - s] as nat);
                        }
                    }
                    assert(t@.transition =~= m.transition) by {
                        assert forall|s: int| 0 <= s < n implies t@.transition[s]
                            =~= m.transition[s] by {
                            let row = rows@[n - 1 - s];
                            assert(rm[n - 1 - s] == VCycle::<UCycle<usize>>::model(&row));
                            assert(rm[n - 1 - s].len() == 2);
                            assert forall|a: int| 0 <= a < 2 implies t@.transition[s][a]
                                == m.transition[s][a] by {
                                assert(rm[n - 1 - s][1 - a] == row@[1 - a] as nat);
                            }
                        }
                    }
                }
                Some(t)
            },
        }
    }
}


/// The power `b` to the `e`.
pub open spec fn power(b: nat, e: nat) -> nat
    decreases e,
{
    if e == 0 {
        1
    } else {
        b * power(b, (e - 1) as nat)
    }
}

/// The product of `n` times the number `c` is `c` to the `n`.
pub proof fn lemma_product_of_equals(sizes: Seq<nat>, c: nat)
    requires
        forall|i: int| 0 <= i < sizes.len() ==> sizes[i] == c,
    ensures
        product(sizes) == power(c, sizes.len()),
    decreases sizes.len(),
{
    if sizes.len() > 0 {
        lemma_product_of_equals(sizes.drop_last(), c);
        let p = power(c, (sizes.len() - 1) as nat) as int;
        let ci = c as int;
        assert(p * ci == ci * p) by (nonlinear_arith);
    }
}

/// The square of a number to the `e` is the number to twice `e`.
pub proof fn lemma_power_of_square(b: nat, e: nat)
    ensures
        power(b * b, e) == power(b, 2 * e),
    decreases e,
{
    if e > 0 {
        lemma_power_of_square(b, (e - 1) as nat);
        let p = power(b, (2 * e - 2) as nat) as int;
        let bi = b as int;
        assert(power(b, 2 * e) == b * power(b, (2 * e - 1) as nat));
        assert(power(b, (2 * e - 1) as nat) == b * power(b, (2 * e - 2) as nat));
        assert((bi * bi) * p == bi * (bi * p)) by (nonlinear_arith);
    }
}

/// The enumeration of the transducers of `n` states yields `n` to the `2n`
/// transition tables, each with 2 to the `n` flip vectors.
pub proof fn lemma_count(n: nat)
    ensures
        count(n) == power(n, 2 * n) * power(2, n),
{
    lemma_domains(n);
    lemma_product_of_equals(sizes_of::<UCycle<u8>>(flip_domain(n)), 2);
    let ts = sizes_of::<VCycle<UCycle<usize>>>(table_domain(n));
    assert forall|i: int| 0 <= i < ts.len() implies ts[i] == n * n by {
        let rs = sizes_of::<UCycle<usize>>(table_domain(n)[i]);
        assert(rs == Seq::new(2, |j: int| n));
        lemma_product_of_equals(rs, n);
        reveal_with_fuel(power, 3);
        let ni = n as int;
        assert(ni * (ni * 1) == ni * ni) by (nonlinear_arith);
    }
    lemma_product_of_equals(ts, n * n);
    lemma_power_of_square(n, n);
    let a = power(2, n) as int;
    let b = power(n, 2 * n) as int;
    assert(a * b == b * a) by (nonlinear_arith);
}


/// Without states there is one transducer, and `n + 1` to the `2n` times 2
/// to the `n` is then the count as well.
pub proof fn lemma_count_without_states(n: nat)
    requires
        n == 0,
    ensures
        count(n) == power(n + 1, 2 * n) * power(2, n),
{
    lemma_count(n);
}


/// Every well-formed transducer of `n` states is in the enumeration: the
/// enumeration leaves none out.
pub proof fn lemma_machines_complete(n: nat, m: Machine) -> (k: nat)
    requires
        m.wf(),
        m.len() == n,
        n <= usize::MAX,
    ensures
        k < count(n),
        machine_at(n, k) == m,
{
    lemma_domains(n);
    let fs = sizes_of::<UCycle<u8>>(flip_domain(n));
    let ts = sizes_of::<VCycle<UCycle<usize>>>(table_domain(n));
    let rs = Seq::new(2, |j: int| n);
    let df = Seq::new(n, |i: int| m.flip[n - 1 - i] as nat);
    assert(digits_fit(fs, df)) by {
        assert forall|i: int| 0 <= i < fs.len() implies #[trigger] df[i] < fs[i] by {
            assert(m.flip[n - 1 - i] <= 1);
        }
    }
    lemma_compose_bound(fs, df);
    let kf = compose(fs, df);
    let rows = Seq::new(
        n,
        |i: int| Seq::new(2, |j: int| m.transition[n - 1 - i][1 - j] as nat),
    );
    let dt = Seq::new(n, |i: int| compose(rs, rows[i]));
    assert forall|i: int| 0 <= i < n implies digits_fit(rs, #[trigger] rows[i]) by {
        assert forall|j: int| 0 <= j < 2 implies #[trigger] rows[i][j] < rs[j] by {
            assert(m.transition[n - 1 - i].len() == 2);
            assert(m.transition[n - 1 - i][1 - j] < n);
        }
    }
    assert(digits_fit(ts, dt)) by {
        assert forall|i: int| 0 <= i < ts.len() implies #[trigger] dt[i] < ts[i] by {
            assert(digits_fit(rs, rows[i]));
            lemma_compose_bound(rs, rows[i]);
            assert(sizes_of::<UCycle<usize>>(table_domain(n)[i]) == rs);
        }
    }
    lemma_compose_bound(ts, dt);
    let kt = compose(ts, dt);
    let tc = table_count(n);
    let k = kf * tc + kt;
    vstd::arithmetic::div_mod::lemma_fundamental_div_mod_converse(
        k as int,
        tc as int,
        kf as int,
        kt as int,
    );
    let a = kf as int;
    let b = kt as int;
    let fc = flip_count(n) as int;
    let tci = tc as int;
    assert(0 <= a * tci + b < fc * tci) by (nonlinear_arith)
        requires
            0 <= a < fc,
            0 <= b < tci,
    ;
    let r = machine_at(n, k);
    assert(r.flip =~= m.flip) by {
        assert forall|s: int| 0 <= s < n implies r.flip[s] == m.flip[s] by {
            lemma_digit_of_compose(fs, df, n - 1 - s);
        }
    }
    assert(r.transition =~= m.transition) by {
        assert forall|s: int| 0 <= s < n implies r.transition[s] =~= m.transition[s] by {
            let i = n - 1 - s;
            lemma_digit_of_compose(ts, dt, i);
            assert(sizes_of::<UCycle<usize>>(table_domain(n)[i]) == rs);
            assert(digits_fit(rs, rows[i]));
            assert(m.transition[s].len() == 2);
            assert forall|x: int| 0 <= x < 2 implies r.transition[s][x] == m.transition[s][x] by {
                lemma_digit_of_compose(rs, rows[i], 1 - x);
                assert(m.transition[s][x] < n);
            }
        }
    }
    k
}

} // verus!
