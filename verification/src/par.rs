//! Contracts for the parallel iterators of `rayon`.
//!
//! Each function hands a verified function of this library to a parallel
//! iterator. Nothing in this file is proved: each function states what the
//! iterator's documentation gives of the call.

use crate::classify::distinguish;
use crate::classify::split_of;
use crate::classify::parts_of;
use crate::classify::sound;
use crate::fx::members;
use crate::machine::is_word;
use crate::machine::Machine;
use crate::transducer::Transducer;
use rayon::iter::IntoParallelIterator;
use rayon::iter::IntoParallelRefIterator;
use rayon::iter::ParallelIterator;
use rustc_hash::FxHashSet;
use vstd::prelude::*;

verus! {

/// The machines of a sequence of transducers.
pub open spec fn machines_of(v: Seq<Transducer>) -> Seq<Machine> {
    v.map_values(|t: Transducer| t@)
}

/// `ParallelIterator::all` over the words: whether the orbits of the two
/// transducers have the same least word on every word of `words`.
#[verifier::external_body]
pub(crate) fn all_agree(a: &Transducer, b: &Transducer, words: &Vec<Vec<u8>>) -> (r: bool)
    requires
        a@.wf(),
        b@.wf(),
        forall|i: int| 0 <= i < words@.len() ==> is_word(#[trigger] words@[i]@),
        forall|i: int|
            0 <= i < words@.len() ==> (a@.len() > 0 && b@.len() > 0) || (#[trigger] words@[i])@.len()
                == 0,
    ensures
        r == (forall|i: int|
            0 <= i < words@.len() ==> a@.min_word(#[trigger] words@[i]@) == b@.min_word(words@[i]@)),
{
    words.par_iter().all(|w| a.same_min_word(b, w))
}

/// `ParallelIterator::partition` over the transducers: those whose orbits
/// agree with those of `cand` at the depth go into the first vector, and the
/// rest go into the second. The order inside the two vectors is not
/// stated.
#[verifier::external_body]
pub(crate) fn split_by_orbit(cand: &Transducer, items: Vec<Transducer>, depth: usize) -> (r: (
    Vec<Transducer>,
    Vec<Transducer>,
))
    requires
        cand@.wf(),
        depth > 0 ==> cand@.len() > 0,
        forall|i: int| 0 <= i < items@.len() ==> (#[trigger] items@[i])@.wf(),
        forall|i: int| 0 <= i < items@.len() ==> depth > 0 ==> (#[trigger] items@[i])@.len() > 0,
    ensures
        r.0@.len() + r.1@.len() == items@.len(),
        forall|i: int| 0 <= i < r.0@.len() ==> cand@.orbit_equal((#[trigger] r.0@[i])@, depth as nat),
        forall|i: int| 0 <= i < r.1@.len() ==> !cand@.orbit_equal((#[trigger] r.1@[i])@, depth as nat),
        forall|m: Machine|
            machines_of(items@).contains(m) <==> machines_of(r.0@).contains(m) || machines_of(
                r.1@,
            ).contains(m),
{
    items.into_par_iter().partition(|x| cand.orbit_compare(x, depth))
}


/// `ParallelIterator::map` and `collect` over the classes: for each class,
/// at its place, what `distinguish` makes of it at the depth.
#[verifier::external_body]
pub(crate) fn distinguish_all(classes: &Vec<FxHashSet<Transducer>>, depth: usize) -> (r: Vec<
    Vec<FxHashSet<Transducer>>,
>)
    requires
        forall|k: int| 0 <= k < classes@.len() ==> sound(members(&#[trigger] classes@[k])),
    ensures
        r@.len() == classes@.len(),
        forall|k: int|
            0 <= k < classes@.len() ==> split_of(
                members(&classes@[k]),
                parts_of((#[trigger] r@[k])@),
                depth as nat,
            ),
{
    classes.par_iter().map(|x| distinguish(x, depth)).collect()
}

} // verus!
