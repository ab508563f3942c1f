//! The records a lock file describes: packages and their dependency references.
use vstd::prelude::*;

verus! {

/// A reference from one package to another, by exact name and version.
#[derive(Debug, Clone, PartialEq, Eq)]
pub struct DependencyRef {
    pub name: String,
    pub version: String,
}

/// One locked package: its identity and the references to what it depends on,
/// in the order the lock file lists them.
#[derive(Debug, Clone, PartialEq, Eq)]
pub struct Package {
    pub name: String,
    pub version: String,
    pub dependencies: Vec<DependencyRef>,
}

/// Whether package `k` of `pkgs` carries the name and version that `d` names.
pub open spec fn resolves_to(pkgs: Seq<Package>, d: DependencyRef, k: int) -> bool {
    &&& 0 <= k < pkgs.len()
    &&& pkgs[k].name@ == d.name@
    &&& pkgs[k].version@ == d.version@
}

/// No package matches the reference.
pub open spec fn is_unresolved(pkgs: Seq<Package>, d: DependencyRef) -> bool {
    forall|k: int| !#[trigger] resolves_to(pkgs, d, k)
}

/// Two different packages match the reference.
pub open spec fn is_ambiguous(pkgs: Seq<Package>, d: DependencyRef) -> bool {
    exists|k1: int, k2: int|
        k1 != k2 && #[trigger] resolves_to(pkgs, d, k1) && #[trigger] resolves_to(pkgs, d, k2)
}

/// The reference matches exactly one package.
pub open spec fn is_resolved(pkgs: Seq<Package>, d: DependencyRef) -> bool {
    !is_unresolved(pkgs, d) && !is_ambiguous(pkgs, d)
}

/// Dependency `j` of package `i` exists.
pub open spec fn is_ref_index(pkgs: Seq<Package>, i: int, j: int) -> bool {
    0 <= i < pkgs.len() && 0 <= j < pkgs[i].dependencies@.len()
}

/// Dependency `j` of package `i`.
pub open spec fn ref_at(pkgs: Seq<Package>, i: int, j: int) -> DependencyRef {
    pkgs[i].dependencies@[j]
}

/// Every dependency reference of every package matches exactly one package.
pub open spec fn all_resolved(pkgs: Seq<Package>) -> bool {
    forall|i: int, j: int|
        is_ref_index(pkgs, i, j) ==> is_resolved(pkgs, #[trigger] ref_at(pkgs, i, j))
}

/// Reference `(i, j)` comes before `(i2, j2)` in the order of the records and
/// of each record's dependency list.
pub open spec fn ref_before(i2: int, j2: int, i: int, j: int) -> bool {
    i2 < i || (i2 == i && j2 < j)
}

/// Reference `(i, j)` is the first one, in record order, that does not match
/// exactly one package.
pub open spec fn first_bad_ref(pkgs: Seq<Package>, i: int, j: int) -> bool {
    &&& is_ref_index(pkgs, i, j)
    &&& !is_resolved(pkgs, ref_at(pkgs, i, j))
    &&& forall|i2: int, j2: int|
        is_ref_index(pkgs, i2, j2) && ref_before(i2, j2, i, j) ==> is_resolved(
            pkgs,
            #[trigger] ref_at(pkgs, i2, j2),
        )
}

/// What a search for the package that a reference names found.
#[derive(Debug, Clone, Copy, PartialEq, Eq)]
pub enum Lookup {
    Missing,
    Found(usize),
    Ambiguous,
}

/// Finds the package that `d` names among `pkgs`.
pub fn find_package(pkgs: &Vec<Package>, d: &DependencyRef) -> (r: Lookup)
    ensures
        match r {
            Lookup::Missing => is_unresolved(pkgs@, *d),
            Lookup::Found(k) => resolves_to(pkgs@, *d, k as int) && !is_ambiguous(pkgs@, *d),
            Lookup::Ambiguous => is_ambiguous(pkgs@, *d),
        },
{
    let mut first: Option<usize> = None;
    let mut many = false;
    let mut k: usize = 0;
    while k < pkgs.len()
        invariant
            k <= pkgs@.len(),
            first is None ==> forall|l: int| 0 <= l < k ==> !#[trigger] resolves_to(pkgs@, *d, l),
            first matches Some(f) ==> f < k && resolves_to(pkgs@, *d, f as int),
            many ==> is_ambiguous(pkgs@, *d),
            !many && first is Some ==> forall|l: int|
                0 <= l < k && l != first->0 ==> !#[trigger] resolves_to(pkgs@, *d, l),
        decreases pkgs@.len() - k,
    {
        let p = &pkgs[k];
        if p.name == d.name && p.version == d.version {
            assert(resolves_to(pkgs@, *d, k as int));
            match first {
                None => {
                    first = Some(k);
                },
                Some(f) => {
                    assert(resolves_to(pkgs@, *d, f as int));
                    many = true;
                },
            }
        }
        k = k + 1;
    }
    if many {
        Lookup::Ambiguous
    } else {
        match first {
            None => Lookup::Missing,
            Some(f) => Lookup::Found(f),
        }
    }
}

} // verus!
