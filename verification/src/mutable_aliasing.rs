//! Problem: given a list of immutable and mutable references to variables,
//! determine which variables violate Rust's mutability XOR aliasing requirement.

use std::collections::{HashMap, HashSet};
use std::hash::Hash;
use vstd::prelude::*;

verus! {

/// Whether a variable reference is immutable or mutable.
#[derive(Clone, Copy)]
pub enum Mutability {
    Immutable,
    Mutable,
}

/// A reference to a variable, simulating Rust's `&x` and `&mut x` references.
pub struct Reference<T> {
    // The exact representation of a variable is flexible, and can be of various types.
    variable: T,
    mutability: Mutability,
}

impl<T> Reference<T> {
    /// The variable this reference points at.
    pub closed spec fn spec_variable(self) -> T {
        self.variable
    }

    /// Whether this reference is immutable or mutable.
    pub closed spec fn spec_mutability(self) -> Mutability {
        self.mutability
    }

    /// Creates a reference to the given variable with the given mutability.
    pub fn new(variable: T, mutability: Mutability) -> (r: Reference<T>)
        ensures
            r.spec_variable() == variable,
            r.spec_mutability() == mutability,
    {
        Reference { variable, mutability }
    }
}

/// How many references in the list point at `v`.
pub open spec fn ref_count<T>(refs: Seq<Reference<T>>, v: T) -> int
    decreases refs.len(),
{
    if refs.len() == 0 {
        0
    } else {
        ref_count(refs.drop_last(), v) + if refs.last().spec_variable() == v {
            1int
        } else {
            0int
        }
    }
}

/// How many mutable references in the list point at `v`.
pub open spec fn mut_ref_count<T>(refs: Seq<Reference<T>>, v: T) -> int
    decreases refs.len(),
{
    if refs.len() == 0 {
        0
    } else {
        mut_ref_count(refs.drop_last(), v) + if refs.last().spec_variable() == v
            && refs.last().spec_mutability() is Mutable {
            1int
        } else {
            0int
        }
    }
}

/// A variable is mutably aliased when it has two or more references,
/// at least one of which is mutable.
pub open spec fn is_mutably_aliased<T>(refs: Seq<Reference<T>>, v: T) -> bool {
    ref_count(refs, v) >= 2 && mut_ref_count(refs, v) >= 1
}

/// A classification of a given variable's set of references,
/// based on the number of immutable and mutable references.
#[derive(Clone, Copy, PartialEq, Eq, Structural)]
enum ReferenceSetType {
    /// One or more references, none mutable.
    Aliased,
    /// Exactly one mutable reference.
    Mutable,
    /// Two or more references, at least one of which is mutable.
    MutablyAliased,
}

/// Appending one reference extends the counts by at most one.
proof fn lemma_counts_push<T>(refs: Seq<Reference<T>>, r: Reference<T>, v: T)
    ensures
        ref_count(refs.push(r), v) == ref_count(refs, v) + if r.spec_variable() == v {
            1int
        } else {
            0int
        },
        mut_ref_count(refs.push(r), v) == mut_ref_count(refs, v) + if r.spec_variable() == v
            && r.spec_mutability() is Mutable {
            1int
        } else {
            0int
        },
{
    assert(refs.push(r).drop_last() =~= refs);
}

/// Returns the set of variables that are mutably aliased
/// (have two or more references, at least one of which is mutable)
/// in the given list of references.
pub fn mutable_aliasing_violations<T: Copy + Eq + Hash>(references: &[Reference<T>]) -> (r: HashSet<
    T,
>)
    requires
        vstd::std_specs::hash::obeys_key_model::<T>(),
    ensures
        forall|v: T| r@.contains(v) <==> is_mutably_aliased(references@, v),
{
    let mut var_to_type: HashMap<T, ReferenceSetType> = HashMap::new();
    let mut violations: HashSet<T> = HashSet::new();
    let n = references.len();
    let mut i: usize = 0;
    while i < n
        invariant
            vstd::std_specs::hash::obeys_key_model::<T>(),
            i <= n,
            n == references@.len(),
            forall|v: T|
                !var_to_type@.contains_key(v) ==> ref_count(#[trigger] references@.take(i as int), v)
                    == 0 && mut_ref_count(references@.take(i as int), v) == 0,
            forall|v: T| #[trigger]
                var_to_type@.contains_key(v) ==> {
                    let s = references@.take(i as int);
                    match var_to_type@[v] {
                        ReferenceSetType::Aliased => ref_count(s, v) >= 1 && mut_ref_count(s, v)
                            == 0,
                        ReferenceSetType::Mutable => ref_count(s, v) == 1 && mut_ref_count(s, v)
                            == 1,
                        ReferenceSetType::MutablyAliased => ref_count(s, v) >= 2 && mut_ref_count(
                            s,
                            v,
                        ) >= 1,
                    }
                },
            forall|v: T| #[trigger]
                violations@.contains(v) <==> (var_to_type@.contains_key(v) && var_to_type@[v]
                    == ReferenceSetType::MutablyAliased),
        decreases n - i,
    {
        let reference = &references[i];
        let v = reference.variable;
        let m = reference.mutability;
        let ghost prefix = references@.take(i as int);
        proof {
            assert(references@.take(i + 1) =~= prefix.push(references@[i as int]));
            assert forall|w: T| true implies {
                &&& ref_count(references@.take(i + 1), w) == ref_count(prefix, w) + if references@[
                    i as int
                ].spec_variable() == w {
                    1int
                } else {
                    0int
                }
                &&& mut_ref_count(references@.take(i + 1), w) == mut_ref_count(prefix, w)
                    + if references@[i as int].spec_variable() == w && references@[
                    i as int
                ].spec_mutability() is Mutable {
                    1int
                } else {
                    0int
                }
            } by {
                lemma_counts_push(prefix, references@[i as int], w);
            }
        }
        let new_state = match (var_to_type.get(&v), m) {
            (None, Mutability::Immutable) => ReferenceSetType::Aliased,
            (None, Mutability::Mutable) => ReferenceSetType::Mutable,
            (Some(ReferenceSetType::Aliased), Mutability::Immutable) => ReferenceSetType::Aliased,
            (Some(ReferenceSetType::Aliased), Mutability::Mutable) => ReferenceSetType::MutablyAliased,
            (Some(ReferenceSetType::Mutable), _) => ReferenceSetType::MutablyAliased,
            (Some(ReferenceSetType::MutablyAliased), _) => ReferenceSetType::MutablyAliased,
        };
        var_to_type.insert(v, new_state);
        if matches!(new_state, ReferenceSetType::MutablyAliased) {
            violations.insert(v);
        }
        i = i + 1;
    }
    proof {
        assert(references@.take(n as int) =~= references@);
        assert forall|v: T|
            violations@.contains(v) <==> is_mutably_aliased(references@, v) by {
            if var_to_type@.contains_key(v) {
                assert(ref_count(references@.take(n as int), v) == ref_count(references@, v));
            } else {
                assert(ref_count(references@.take(n as int), v) == 0);
            }
        }
    }
    violations
}

} // verus!
