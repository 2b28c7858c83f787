//! The disk fallback: what the walk looks at, and how the
//! directories it found become ranking candidates.
use vstd::prelude::*;

use crate::clock::Timestamp;
use crate::paths::CanonicalDir;
use crate::rank::Candidate;

verus! {

/// Depth walked under the current directory itself.
pub const CHILD_DEPTH: usize = 1;

/// How many ancestor levels above the current directory are climbed.
pub const ANCESTOR_LEVELS: usize = 1;

/// The directory names the walk skips by default.
pub open spec fn excluded_names_of() -> Seq<Seq<char>> {
    seq!["node_modules"@, "bin"@, "obj"@, ".git"@, "target"@]
}

/// The directory names the walk skips by default, in order.
pub fn excluded_names() -> (r: Vec<String>)
    ensures
        r@.map_values(|s: String| s@) == excluded_names_of(),
{
    let names: Vec<String> = vec![
        "node_modules".to_owned(),
        "bin".to_owned(),
        "obj".to_owned(),
        ".git".to_owned(),
        "target".to_owned(),
    ];
    assert(names@.map_values(|s: String| s@) =~= excluded_names_of());
    names
}

/// The found directory at `i` becomes a candidate: it is not the current
/// directory and no earlier found directory has its key.
pub open spec fn fresh(current_key: Seq<char>, found: Seq<CanonicalDir>, i: int) -> bool {
    &&& found[i].key@ != current_key
    &&& forall|j: int| 0 <= j < i ==> (#[trigger] found[j]).key@ != found[i].key@
}

/// `c` is the candidate found directory `d` stands for: never visited,
/// present.
pub open spec fn stands_for(c: Candidate, d: CanonicalDir) -> bool {
    &&& c.path == d.path
    &&& c.name == d.name
    &&& c.folder == d.folder
    &&& c.last_visit.seconds() == 0
    &&& !c.missing
}

/// The found directories that become candidates, among the first `n`, in
/// walk order.
pub open spec fn fresh_dirs(current_key: Seq<char>, found: Seq<CanonicalDir>, n: nat) -> Seq<CanonicalDir>
    decreases n,
{
    if n == 0 {
        seq![]
    } else {
        let rest = fresh_dirs(current_key, found, (n - 1) as nat);
        if fresh(current_key, found, n - 1) {
            rest.push(found[n - 1])
        } else {
            rest
        }
    }
}

/// Turns the canonical directories the walk found into candidates: the
/// current directory and every repeated key are dropped, the walk order is
/// kept.
pub fn to_candidates(found: Vec<CanonicalDir>, current: &CanonicalDir) -> (r: Vec<Candidate>)
    ensures
        r@.len() == fresh_dirs(current.key@, found@, found@.len()).len(),
        forall|i: int| 0 <= i < r@.len() ==> stands_for(#[trigger] r@[i], fresh_dirs(current.key@, found@, found@.len())[i]),
{
    let mut seen: Vec<String> = Vec::new();
    let mut candidates: Vec<Candidate> = Vec::new();
    let mut i: usize = 0;
    while i < found.len()
        invariant
            i <= found@.len(),
            seen@.len() == i,
            forall|j: int| 0 <= j < i ==> (#[trigger] seen@[j])@ == found@[j].key@,
            candidates@.len() == fresh_dirs(current.key@, found@, i as nat).len(),
            forall|k: int| 0 <= k < candidates@.len() ==> stands_for(#[trigger] candidates@[k], fresh_dirs(current.key@, found@, i as nat)[k]),
        decreases found@.len() - i,
    {
        let dir = &found[i];
        let mut repeated = false;
        let mut j: usize = 0;
        while j < i
            invariant
                j <= i,
                i < found@.len(),
                seen@.len() == i,
                dir.key@ == found@[i as int].key@,
                forall|q: int| 0 <= q < i ==> (#[trigger] seen@[q])@ == found@[q].key@,
                repeated == exists|q: int| 0 <= q < j && (#[trigger] found@[q]).key@ == found@[i as int].key@,
            decreases i - j,
        {
            assert(seen@[j as int]@ == found@[j as int].key@);
            if seen[j] == dir.key {
                repeated = true;
            }
            j += 1;
        }
        let is_current = dir.key == current.key;
        if !is_current && !repeated {
            candidates.push(Candidate {
                path: dir.path.clone(),
                name: dir.name.clone(),
                folder: dir.folder.clone(),
                last_visit: Timestamp::from_unix_seconds(0),
                missing: false,
            });
        }
        seen.push(dir.key.clone());
        i += 1;
    }
    candidates
}

} // verus!
