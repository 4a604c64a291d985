//! Tools for manipulating reversible alphabetic transducers on a binary
//! alphabet: exhaustive enumeration, minimization, canonical forms and
//! classification by orbit equivalence.

/// Iterator representations of products and permutations.
pub mod combi;
/// Cycles with explicit `next`, `peek`, `root` and `reset`.
pub mod cycles;
/// Representations of DFAs.
pub mod dfa;
/// Reduced DFAs, which minimization leaves as they are.
pub mod reduced;
/// The mathematical model of a transducer.
pub mod machine;
/// Representations of transducers.
pub mod transducer;
/// Orbits of words, and their least words.
pub mod orbit;
/// Minimization of transducers.
pub mod minimize;
/// Minimization of a minimized transducer.
pub mod idempotent;
/// Relabeling and canonical forms.
pub mod relabel;
/// Products and residues.
pub mod product;
/// The enumeration of all transducers of one size.
pub mod enumerate;
/// The classification by orbits.
pub mod classify;
/// What drawings of transducers and orbit trees hold.
pub mod diagram;
/// Necklaces.
pub mod necklace;
/// Sequences and vectors.
pub mod seqs;
/// Contracts for the hash collections of `rustc_hash`.
pub mod fx;
/// Contracts for the parallel iterators of `rayon`.
pub mod par;
