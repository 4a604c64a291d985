//! Sequences and vectors: membership, copies, counting distinct items, and
//! joining a vector of vectors.

use vstd::prelude::*;

verus! {

/// The sequences of `ls` joined, one after the other.
pub open spec fn cat<T>(ls: Seq<Seq<T>>) -> Seq<T>
    decreases ls.len(),
{
    if ls.len() == 0 {
        Seq::empty()
    } else {
        cat(ls.drop_last()) + ls.last()
    }
}

/// The vectors of a sequence as sequences.
pub open spec fn lists_of<T>(v: Seq<Vec<T>>) -> Seq<Seq<T>> {
    v.map_values(|l: Vec<T>| l@)
}

/// The place from which the item at `x` of the joined sequence comes: the
/// sequence, and the place in it.
pub open spec fn locate<T>(ls: Seq<Seq<T>>, x: int) -> (int, int)
    decreases ls.len(),
{
    if ls.len() == 0 {
        (0, 0)
    } else if x >= cat(ls.drop_last()).len() {
        (ls.len() - 1, x - cat(ls.drop_last()).len())
    } else {
        locate(ls.drop_last(), x)
    }
}

/// The item at `x` of the joined sequence is the item at the place that
/// `locate` gives.
pub proof fn lemma_locate<T>(ls: Seq<Seq<T>>, x: int)
    requires
        0 <= x < cat(ls).len(),
    ensures
        0 <= locate(ls, x).0 < ls.len(),
        0 <= locate(ls, x).1 < ls[locate(ls, x).0].len(),
        cat(ls)[x] == ls[locate(ls, x).0][locate(ls, x).1],
    decreases ls.len(),
{
    if ls.len() > 0 {
        if x < cat(ls.drop_last()).len() {
            lemma_locate(ls.drop_last(), x);
        }
    }
}

/// Two items of the joined sequence that come from one place are one item.
pub proof fn lemma_locate_injective<T>(ls: Seq<Seq<T>>, x: int, y: int)
    requires
        0 <= x < cat(ls).len(),
        0 <= y < cat(ls).len(),
        locate(ls, x) == locate(ls, y),
    ensures
        x == y,
    decreases ls.len(),
{
    if ls.len() > 0 {
        let n = cat(ls.drop_last()).len();
        if x < n {
            lemma_locate(ls.drop_last(), x);
        }
        if y < n {
            lemma_locate(ls.drop_last(), y);
        }
        if x < n && y < n {
            lemma_locate_injective(ls.drop_last(), x, y);
        }
    }
}

/// Every place of every sequence has its item in the joined sequence.
pub proof fn lemma_locate_onto<T>(ls: Seq<Seq<T>>, k: int, j: int)
    requires
        0 <= k < ls.len(),
        0 <= j < ls[k].len(),
    ensures
        exists|x: int| 0 <= x < cat(ls).len() && #[trigger] locate(ls, x) == (k, j),
    decreases ls.len(),
{
    if k == ls.len() - 1 {
        let x = cat(ls.drop_last()).len() + j;
        assert(locate(ls, x) == (k, j));
    } else {
        lemma_locate_onto(ls.drop_last(), k, j);
        let x = choose|x: int|
            0 <= x < cat(ls.drop_last()).len() && #[trigger] locate(ls.drop_last(), x) == (k, j);
        assert(locate(ls, x) == (k, j));
    }
}

/// The vector turned round.
pub fn reverse_vec<T>(v: Vec<T>) -> (r: Vec<T>)
    ensures
        r@ == v@.reverse(),
{
    let mut v = v;
    let ghost all = v@;
    let mut r: Vec<T> = Vec::new();
    while v.len() > 0
        invariant
            v@.len() <= all.len(),
            v@ == all.take(v@.len() as int),
            r@.len() == all.len() - v@.len(),
            forall|j: int| 0 <= j < r@.len() ==> r@[j] == all[all.len() - 1 - j],
        decreases v@.len(),
    {
        let ghost before = v@;
        let x = v.pop().unwrap();
        r.push(x);
        proof {
            assert(v@ =~= all.take(v@.len() as int));
        }
    }
    proof {
        assert(r@ =~= all.reverse());
    }
    r
}

/// The vectors joined, one after the other.
pub fn join_all<T>(lists: Vec<Vec<T>>) -> (out: Vec<T>)
    ensures
        out@ == cat(lists_of(lists@)),
{
    let ghost all = lists_of(lists@);
    let ghost n = lists@.len();
    let ghost given = lists@;
    let mut rl = reverse_vec(lists);
    let mut out: Vec<T> = Vec::new();
    let ghost mut i: int = 0;
    proof {
        assert(all.take(0) =~= Seq::<Seq<T>>::empty());
    }
    while rl.len() > 0
        invariant
            all == lists_of(given),
            n == given.len(),
            0 <= i <= n,
            rl@.len() == n - i,
            rl@ == given.reverse().take(n - i),
            out@ == cat(all.take(i)),
        decreases rl@.len(),
    {
        let l = rl.pop().unwrap();
        let ghost base = out@;
        let ghost lv = l@;
        proof {
            assert(given.reverse()[n - i - 1] == given[i]);
            assert(l == given[i]);
            assert(rl@ =~= given.reverse().take(n - i - 1));
        }
        let mut rv = reverse_vec(l);
        let ghost mut j: int = 0;
        while rv.len() > 0
            invariant
                0 <= j <= lv.len(),
                rv@.len() == lv.len() - j,
                rv@ == lv.reverse().take(lv.len() - j),
                out@ == base + lv.take(j),
            decreases rv@.len(),
        {
            let x = rv.pop().unwrap();
            out.push(x);
            proof {
                assert(lv.reverse()[lv.len() - j - 1] == lv[j]);
                assert(rv@ =~= lv.reverse().take(lv.len() - j - 1));
                assert(base + lv.take(j + 1) =~= (base + lv.take(j)).push(lv[j]));
                j = j + 1;
            }
        }
        proof {
            assert(lv.take(lv.len() as int) =~= lv);
            assert(all.take(i + 1).drop_last() =~= all.take(i));
            assert(all.take(i + 1).last() == lv);
            i = i + 1;
        }
    }
    proof {
        assert(all.take(n as int) =~= all);
    }
    out
}

/// Whether `s` occurs in `v`.
pub fn contains_state(v: &Vec<usize>, s: usize) -> (r: bool)
    ensures
        r == v@.contains(s),
{
    let mut i: usize = 0;
    while i < v.len()
        invariant
            i <= v@.len(),
            forall|k: int| 0 <= k < i ==> v@[k] != s,
        decreases v@.len() - i,
    {
        if v[i] == s {
            return true;
        }
        i += 1;
    }
    false
}

/// A copy of `v`.
pub fn copy_vec<T: Copy>(v: &Vec<T>) -> (r: Vec<T>)
    ensures
        r@ == v@,
{
    let mut r: Vec<T> = Vec::new();
    let mut i: usize = 0;
    while i < v.len()
        invariant
            i <= v@.len(),
            r@ == v@.take(i as int),
        decreases v@.len() - i,
    {
        r.push(v[i]);
        assert(v@.take(i + 1) == v@.take(i as int).push(v@[i as int]));
        i += 1;
    }
    assert(v@.take(i as int) == v@);
    r
}

/// What a sequence holds after a push: what it held before, and the new item.
pub proof fn lemma_push_contains<A>(s: Seq<A>, x: A)
    ensures
        s.push(x).contains(x),
        forall|y: A| s.contains(y) ==> #[trigger] s.push(x).contains(y),
        forall|y: A| #[trigger] s.push(x).contains(y) ==> s.contains(y) || y == x,
{
    assert(s.push(x)[s.len() as int] == x);
    assert forall|y: A| s.contains(y) implies #[trigger] s.push(x).contains(y) by {
        let k = choose|k: int| 0 <= k < s.len() && s[k] == y;
        assert(s.push(x)[k] == y);
    }
    assert forall|y: A| #[trigger] s.push(x).contains(y) implies s.contains(y) || y == x by {
        let k = choose|k: int| 0 <= k < s.push(x).len() && s.push(x)[k] == y;
        if k < s.len() {
            assert(s[k] == y);
        }
    }
}

/// Distinct numbers below `n` are at most `n` many.
pub proof fn lemma_pigeonhole(s: Seq<nat>, n: nat)
    requires
        s.no_duplicates(),
        forall|i: int| 0 <= i < s.len() ==> s[i] < n,
    ensures
        s.len() <= n,
    decreases n,
{
    if n == 0 {
        if s.len() > 0 {
            assert(s[0] < n);
        }
    } else if s.contains((n - 1) as nat) {
        let k = choose|k: int| 0 <= k < s.len() && s[k] == (n - 1) as nat;
        let r = s.remove(k);
        assert forall|i: int| 0 <= i < r.len() implies r[i] < n - 1 by {
            if i < k {
                assert(r[i] == s[i]);
            } else {
                assert(r[i] == s[i + 1]);
            }
        }
        assert(r.no_duplicates()) by {
            assert forall|i: int, j: int| 0 <= i < r.len() && 0 <= j < r.len() && i != j implies r[i]
                != r[j] by {
                let i2 = if i < k { i } else { i + 1 };
                let j2 = if j < k { j } else { j + 1 };
                assert(r[i] == s[i2]);
                assert(r[j] == s[j2]);
            }
        }
        lemma_pigeonhole(r, (n - 1) as nat);
    } else {
        assert forall|i: int| 0 <= i < s.len() implies s[i] < n - 1 by {
            assert(s[i] < n);
            assert(s.contains(s[i]));
        }
        lemma_pigeonhole(s, (n - 1) as nat);
    }
}

/// Distinct machine integers below `n` are at most `n` many.
pub proof fn lemma_bounded_distinct(s: Seq<usize>, n: nat)
    requires
        s.no_duplicates(),
        forall|i: int| 0 <= i < s.len() ==> s[i] < n,
    ensures
        s.len() <= n,
{
    let t = s.map_values(|x: usize| x as nat);
    assert forall|i: int, j: int| 0 <= i < t.len() && 0 <= j < t.len() && i != j implies t[i]
        != t[j] by {
        assert(s[i] != s[j]);
    }
    lemma_pigeonhole(t, n);
}

} // verus!
