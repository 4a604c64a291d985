//! Necklaces: the words over the binary alphabet up to rotation, each by its
//! least rotation.

use crate::seqs::copy_vec;
use crate::machine::lemma_row_order;
use crate::machine::lemma_row_order_trans;
use crate::machine::row_order;
use crate::orbit::all_words;
use crate::transducer::rows_order;
use vstd::prelude::*;

verus! {

/// The sequence `x` rotated by `k` places: it starts with the item at `k`.
pub open spec fn rotate(x: Seq<usize>, k: int) -> Seq<usize> {
    Seq::new(x.len(), |i: int| x[(i + k) % (x.len() as int)])
}

/// `r` is the least rotation of `x`.
pub open spec fn is_min_rotation(x: Seq<usize>, r: Seq<usize>) -> bool {
    &&& r == x || exists|k: int| 0 <= k < x.len() && r == #[trigger] rotate(x, k)
    &&& row_order(r, x) <= 0
    &&& forall|k: int| 0 <= k < x.len() ==> row_order(r, #[trigger] rotate(x, k)) <= 0
}

/// The number of zeros among the first `k` items of `x`.
pub open spec fn zeros(x: Seq<usize>, k: int) -> nat
    decreases k,
{
    if k <= 0 {
        0
    } else {
        zeros(x, k - 1) + if x[k - 1] == 0 {
            1nat
        } else {
            0nat
        }
    }
}

/// The items of a word as numbers.
pub open spec fn widened(w: Seq<u8>) -> Seq<usize> {
    w.map_values(|c: u8| c as usize)
}

/// Each sequence comes before the sequences after it.
pub open spec fn strictly_ascending(v: Seq<Vec<usize>>) -> bool {
    forall|i: int, j: int|
        0 <= i < j < v.len() ==> row_order((#[trigger] v[i])@, (#[trigger] v[j])@) < 0
}

/// The vector holds the sequence.
pub open spec fn holds_row(v: Seq<Vec<usize>>, s: Seq<usize>) -> bool {
    exists|i: int| 0 <= i < v.len() && (#[trigger] v[i])@ == s
}

/// The least rotation of the sequence.
pub fn min_necklace(x: Vec<usize>) -> (min: Vec<usize>)
    ensures
        is_min_rotation(x@, min@),
{
    let mut min = copy_vec(&x);
    let n = x.len();
    let mut offset: usize = 0;
    proof {
        lemma_row_order(x@, x@);
    }
    while offset < n
        invariant
            n == x@.len(),
            offset <= n,
            min@ == x@ || exists|k: int| 0 <= k < offset && min@ == #[trigger] rotate(x@, k),
            row_order(min@, x@) <= 0,
            forall|k: int| 0 <= k < offset ==> row_order(min@, #[trigger] rotate(x@, k)) <= 0,
        decreases n - offset,
    {
        let mut xs: Vec<usize> = Vec::new();
        let mut i: usize = 0;
        while i < n
            invariant
                n == x@.len(),
                offset < n,
                i <= n,
                xs@.len() == i,
                forall|j: int| 0 <= j < i ==> xs@[j] == rotate(x@, offset as int)[j],
            decreases n - i,
        {
            let j = if i >= n - offset {
                i - (n - offset)
            } else {
                i + offset
            };
            proof {
                if i >= n - offset {
                    vstd::arithmetic::div_mod::lemma_fundamental_div_mod_converse(
                        i + offset,
                        n as int,
                        1,
                        j as int,
                    );
                } else {
                    vstd::arithmetic::div_mod::lemma_small_mod((i + offset) as nat, n as nat);
                }
            }
            xs.push(x[j]);
            i += 1;
        }
        let ghost before = min@;
        proof {
            assert(xs@ =~= rotate(x@, offset as int));
            lemma_row_order(xs@, before);
            lemma_row_order(xs@, xs@);
        }
        if rows_order(&xs, &min) < 0 {
            min = xs;
            proof {
                lemma_row_order_trans(min@, before, x@);
                assert forall|k: int| 0 <= k < offset + 1 implies row_order(
                    min@,
                    #[trigger] rotate(x@, k),
                ) <= 0 by {
                    if k < offset {
                        lemma_row_order_trans(min@, before, rotate(x@, k));
                    }
                }
            }
        }
        offset += 1;
    }
    min
}

/// Whether the number of zeros of the sequence is odd.
pub fn is_odd(x: &Vec<usize>) -> (r: bool)
    ensures
        r == (zeros(x@, x@.len() as int) % 2 == 1),
{
    let mut odd = false;
    let mut i: usize = 0;
    while i < x.len()
        invariant
            i <= x@.len(),
            odd == (zeros(x@, i as int) % 2 == 1),
        decreases x@.len() - i,
    {
        if x[i] == 0 {
            odd = !odd;
        }
        i += 1;
    }
    odd
}

/// The word as a vector of numbers.
fn widen(w: &Vec<u8>) -> (r: Vec<usize>)
    ensures
        r@ == widened(w@),
{
    let mut r: Vec<usize> = Vec::new();
    let mut i: usize = 0;
    while i < w.len()
        invariant
            i <= w@.len(),
            r@.len() == i,
            forall|k: int| 0 <= k < i ==> r@[k] == w@[k] as usize,
        decreases w@.len() - i,
    {
        r.push(w[i] as usize);
        i += 1;
    }
    proof {
        assert(r@ =~= widened(w@));
    }
    r
}

/// Puts the sequence at its place in the ascending vector, unless it is
/// there already.
fn put(out: &mut Vec<Vec<usize>>, item: Vec<usize>)
    requires
        strictly_ascending(old(out)@),
    ensures
        strictly_ascending(final(out)@),
        forall|s: Seq<usize>|
            #[trigger] holds_row(final(out)@, s) <==> holds_row(old(out)@, s) || s == item@,
{
    let ghost before = out@;
    let ghost it = item@;
    let mut pos: usize = 0;
    let mut stop = false;
    while !stop && pos < out.len()
        invariant
            out@ == before,
            item@ == it,
            strictly_ascending(before),
            pos <= before.len(),
            forall|i: int| 0 <= i < pos ==> row_order((#[trigger] before[i])@, it) < 0,
            stop ==> pos < before.len() && row_order(before[pos as int]@, it) > 0,
        decreases before.len() - pos + if stop { 0int } else { 1int },
    {
        let c = rows_order(&out[pos], &item);
        proof {
            lemma_row_order(before[pos as int]@, it);
        }
        if c == 0 {
            proof {
                assert(before[pos as int]@ == it);
                assert forall|s: Seq<usize>|
                    #[trigger] holds_row(before, s) <==> holds_row(before, s) || s == it by {}
            }
            return;
        }
        if c > 0 {
            stop = true;
        } else {
            pos += 1;
        }
    }
    out.insert(pos, item);
    proof {
        let now = out@;
        assert(now[pos as int]@ == it);
        assert forall|i: int, j: int| 0 <= i < j < now.len() implies row_order(
            (#[trigger] now[i])@,
            (#[trigger] now[j])@,
        ) < 0 by {
            let a: int = if i < pos { i } else { i - 1 };
            let b: int = if j < pos { j } else { j - 1 };
            if i != pos {
                assert(now[i] == before[a]);
            }
            if j != pos {
                assert(now[j] == before[b]);
            }
            if i == pos {
                lemma_row_order(before[pos as int]@, it);
                if b > pos {
                    lemma_row_order_trans(it, before[pos as int]@, before[b]@);
                }
            } else if j != pos {
                assert(a < b);
            }
        }
        assert forall|s: Seq<usize>|
            #[trigger] holds_row(now, s) <==> holds_row(before, s) || s == it by {
            if exists|i: int| 0 <= i < now.len() && (#[trigger] now[i])@ == s {
                let i = choose|i: int| 0 <= i < now.len() && (#[trigger] now[i])@ == s;
                if i != pos {
                    let a: int = if i < pos { i } else { i - 1 };
                    assert(now[i] == before[a]);
                }
            }
            if exists|i: int| 0 <= i < before.len() && (#[trigger] before[i])@ == s {
                let a = choose|a: int| 0 <= a < before.len() && (#[trigger] before[a])@ == s;
                let i: int = if a < pos { a } else { a + 1 };
                assert(now[i] == before[a]);
            }
        }
    }
}

/// `r` is the least rotation of a word of the given width.
pub open spec fn is_necklace(r: Seq<usize>, width: nat) -> bool {
    exists|w: Seq<u8>|
        crate::machine::is_word(w) && w.len() == width && is_min_rotation(#[trigger] widened(w), r)
}

/// The vector holds the least rotation of the word.
pub open spec fn has_necklace(v: Seq<Vec<usize>>, w: Seq<u8>) -> bool {
    exists|i: int| 0 <= i < v.len() && is_min_rotation(widened(w), (#[trigger] v[i])@)
}

/// The necklaces of the given width: the least rotations of the words of
/// that length, each once, in ascending order.
pub fn necklaces(width: usize) -> (out: Vec<Vec<usize>>)
    ensures
        strictly_ascending(out@),
        forall|i: int| 0 <= i < out@.len() ==> is_necklace((#[trigger] out@[i])@, width as nat),
        forall|w: Seq<u8>|
            crate::machine::is_word(w) && w.len() == width ==> #[trigger] has_necklace(out@, w),
{
    let words = all_words(width);
    let mut out: Vec<Vec<usize>> = Vec::new();
    let mut k: usize = 0;
    while k < words.len()
        invariant
            k <= words@.len(),
            forall|i: int|
                0 <= i < words@.len() ==> crate::machine::is_word(#[trigger] words@[i]@)
                    && words@[i]@.len() == width,
            strictly_ascending(out@),
            forall|i: int| 0 <= i < out@.len() ==> is_necklace((#[trigger] out@[i])@, width as nat),
            forall|j: int| 0 <= j < k ==> has_necklace(out@, #[trigger] words@[j]@),
        decreases words@.len() - k,
    {
        let x = widen(&words[k]);
        let m = min_necklace(x);
        let ghost before = out@;
        let ghost mv = m@;
        put(&mut out, m);
        proof {
            let w = words@[k as int]@;
            assert(is_min_rotation(widened(w), mv));
            assert forall|i: int| 0 <= i < out@.len() implies is_necklace(
                (#[trigger] out@[i])@,
                width as nat,
            ) by {
                let s = out@[i]@;
                assert(holds_row(out@, s));
                if holds_row(before, s) {
                    let a = choose|a: int| 0 <= a < before.len() && (#[trigger] before[a])@ == s;
                    assert(is_necklace(before[a]@, width as nat));
                } else {
                    assert(s == mv);
                }
            }
            assert forall|j: int| 0 <= j < k + 1 implies has_necklace(out@, #[trigger] words@[j]@) by {
                if j < k {
                    assert(has_necklace(before, words@[j]@));
                    let a = choose|a: int|
                        0 <= a < before.len() && is_min_rotation(
                            widened(words@[j]@),
                            (#[trigger] before[a])@,
                        );
                    let s = before[a]@;
                    assert(holds_row(before, s));
                    assert(holds_row(out@, s));
                    let i = choose|i: int| 0 <= i < out@.len() && (#[trigger] out@[i])@ == s;
                    assert(is_min_rotation(widened(words@[j]@), out@[i]@));
                } else {
                    assert(holds_row(out@, mv));
                    let i = choose|i: int| 0 <= i < out@.len() && (#[trigger] out@[i])@ == mv;
                    assert(is_min_rotation(widened(words@[j]@), out@[i]@));
                }
            }
        }
        k += 1;
    }
    proof {
        assert forall|w: Seq<u8>|
            crate::machine::is_word(w) && w.len() == width implies #[trigger] has_necklace(
            out@,
            w,
        ) by {
            let j = choose|j: int| 0 <= j < words@.len() && #[trigger] words@[j]@ == w;
            assert(has_necklace(out@, words@[j]@));
        }
    }
    out
}

} // verus!
