//! Project roots: the nearest ancestor holding a `.git` entry,
//! and which stored keys lie inside it.
use vstd::prelude::*;

use crate::paths;
use crate::storage::DirEntry;
use crate::text;

verus! {

/// Injectable view of the `.git` entries that mark a project root,
/// following the model of `soft_delete::Filesystem`.
pub trait GitMarker {
    /// Whether `dir` itself holds a `.git` entry, directory or file.
    fn has_git_entry(&self, dir: &str) -> bool;
}

/// `p`, then its parent, its parent's parent, and so on up to the path
/// with no parent.
pub open spec fn ancestors(p: Seq<char>) -> Seq<Seq<char>>
    decreases p.len(),
{
    match paths::folder_of(p) {
        Some(f) => {
            proof {
                paths::lemma_folder_shorter(p);
            }
            seq![p] + ancestors(f)
        },
        None => seq![p],
    }
}

/// The first directory of `chain` whose mark is set.
pub open spec fn first_marked(chain: Seq<Seq<char>>, marks: Seq<bool>) -> Option<Seq<char>>
    decreases chain.len(),
{
    if chain.len() == 0 || marks.len() == 0 {
        None
    } else if marks[0] {
        Some(chain[0])
    } else {
        first_marked(chain.drop_first(), marks.drop_first())
    }
}

/// The texts of a list of directories.
pub open spec fn dir_texts(dirs: Seq<String>) -> Seq<Seq<char>> {
    dirs.map_values(|d: String| d@)
}

/// `current` and its ancestors, nearest first, up to the path with no
/// parent.
pub fn ancestor_chain(current: &str) -> (r: Vec<String>)
    ensures
        dir_texts(r@) == ancestors(current@),
{
    let mut chain: Vec<String> = Vec::new();
    let mut dir: String = current.to_owned();
    loop
        invariant
            dir_texts(chain@) + ancestors(dir@) == ancestors(current@),
        decreases dir@.len(),
    {
        let parts = paths::split(dir.as_str());
        let ghost before = chain@;
        let ghost here = dir@;
        match parts.folder {
            Some(f) => {
                proof {
                    paths::lemma_folder_shorter(here);
                    assert(ancestors(here) == seq![here] + ancestors(f@));
                }
                chain.push(dir);
                proof {
                    assert(dir_texts(chain@) =~= dir_texts(before).push(here));
                    assert(dir_texts(chain@) + ancestors(f@) =~= dir_texts(before) + (seq![here] + ancestors(f@)));
                }
                dir = f;
            },
            None => {
                proof {
                    assert(ancestors(here) == seq![here]);
                }
                chain.push(dir);
                proof {
                    assert(dir_texts(chain@) =~= dir_texts(before) + seq![here]);
                }
                return chain;
            },
        }
    }
}

/// The first directory of `chain` whose mark is set, or `None`.
pub fn nearest_marked(chain: &[String], marks: &[bool]) -> (r: Option<String>)
    requires
        marks@.len() == chain@.len(),
    ensures
        match r {
            Some(p) => first_marked(dir_texts(chain@), marks@) == Some(p@),
            None => first_marked(dir_texts(chain@), marks@) is None,
        },
{
    let ghost cv = dir_texts(chain@);
    let mut i: usize = 0;
    while i < chain.len()
        invariant
            i <= chain@.len(),
            marks@.len() == chain@.len(),
            cv == dir_texts(chain@),
            forall|j: int| 0 <= j < i ==> !marks@[j],
        decreases chain@.len() - i,
    {
        if marks[i] {
            proof {
                lemma_first_marked_at(cv, marks@, i as int);
            }
            let found = chain[i].clone();
            return Some(found);
        }
        i += 1;
    }
    proof {
        lemma_first_marked_none(cv, marks@);
    }
    None
}

/// `marks` records what `marker` answered for the directories of `chain`,
/// nearest first: every directory up to and including the first one marked
/// was asked, with its own path, and holds the answer `has_git_entry` gave
/// for it; every directory after it is unmarked.
pub open spec fn answered<M: GitMarker>(marker: &M, chain: Seq<Seq<char>>, marks: Seq<bool>) -> bool {
    &&& marks.len() == chain.len()
    &&& answered_upto(marker, chain, marks, marks.len() as int)
}

/// The first `n` marks are answers as `answered` describes them.
pub open spec fn answered_upto<M: GitMarker>(marker: &M, chain: Seq<Seq<char>>, marks: Seq<bool>, n: int) -> bool {
    forall|i: int|
        0 <= i < n ==> if (forall|j: int| 0 <= j < i ==> !#[trigger] marks[j]) {
            exists|d: &str| d@ == chain[i] && #[trigger] call_ensures(M::has_git_entry, (marker, d), marks[i])
        } else {
            !marks[i]
        }
}

/// Returns the nearest of `current` and its ancestors (up to the drive
/// root) that `marker` reports holding a `.git` entry, or `None`: the
/// ancestors are asked nearest first, none after the first one marked.
pub fn root<M: GitMarker>(current: &str, marker: &M) -> (r: Option<String>)
    ensures
        exists|marks: Seq<bool>|
            #[trigger] answered(marker, ancestors(current@), marks) && first_marked(ancestors(current@), marks) == match r {
                Some(p) => Some(p@),
                None => None,
            },
{
    let chain = ancestor_chain(current);
    let ghost cv = dir_texts(chain@);
    let mut marks: Vec<bool> = Vec::new();
    let mut found = false;
    let mut i: usize = 0;
    while i < chain.len()
        invariant
            i <= chain@.len(),
            cv == dir_texts(chain@),
            marks@.len() == i,
            found == exists|j: int| 0 <= j < i && marks@[j],
            answered_upto(marker, cv, marks@, i as int),
        decreases chain@.len() - i,
    {
        let ghost before = marks@;
        let dir: &str = chain[i].as_str();
        let marked = if found {
            false
        } else {
            marker.has_git_entry(dir)
        };
        marks.push(marked);
        proof {
            assert forall|k: int| 0 <= k < i implies #[trigger] marks@[k] == before[k] by {}
            if found {
                let j = choose|j: int| 0 <= j < i && before[j];
                assert(marks@[j]);
            } else {
                assert(dir@ == cv[i as int]);
                assert(call_ensures(M::has_git_entry, (marker, dir), marks@[i as int]));
            }
            if marked {
                assert(marks@[i as int]);
            }
            assert forall|k: int|
                #![trigger marks@[k]]
                0 <= k < i + 1 implies if (forall|j: int| 0 <= j < k ==> !#[trigger] marks@[j]) {
                    exists|d: &str| d@ == cv[k] && #[trigger] call_ensures(M::has_git_entry, (marker, d), marks@[k])
                } else {
                    !marks@[k]
                } by {
                if k < i {
                    assert(marks@[k] == before[k]);
                    if forall|j: int| 0 <= j < k ==> !#[trigger] marks@[j] {
                        assert forall|j: int| 0 <= j < k implies !#[trigger] before[j] by {
                            assert(marks@[j] == before[j]);
                        }
                    } else {
                        let j = choose|j: int| 0 <= j < k && #[trigger] marks@[j];
                        assert(before[j]);
                    }
                }
            }
        }
        found = found || marked;
        i += 1;
        assert(answered_upto(marker, cv, marks@, i as int));
    }
    let r = nearest_marked(chain.as_slice(), marks.as_slice());
    assert(answered(marker, ancestors(current@), marks@));
    r
}

proof fn lemma_ancestors_first(p: Seq<char>)
    ensures
        ancestors(p).len() >= 1,
        ancestors(p)[0] == p,
{
    match paths::folder_of(p) {
        Some(f) => {
            assert((seq![p] + ancestors(f))[0] == p);
        },
        None => {},
    }
}

proof fn lemma_first_marked_at(chain: Seq<Seq<char>>, marks: Seq<bool>, k: int)
    requires
        0 <= k < chain.len(),
        marks.len() == chain.len(),
        marks[k],
        forall|i: int| 0 <= i < k ==> !marks[i],
    ensures
        first_marked(chain, marks) == Some(chain[k]),
    decreases k,
{
    if k > 0 {
        lemma_first_marked_at(chain.drop_first(), marks.drop_first(), k - 1);
    }
}

proof fn lemma_first_marked_none(chain: Seq<Seq<char>>, marks: Seq<bool>)
    requires
        marks.len() == chain.len(),
        forall|i: int| 0 <= i < marks.len() ==> !marks[i],
    ensures
        first_marked(chain, marks) is None,
    decreases chain.len(),
{
    if chain.len() > 0 {
        lemma_first_marked_none(chain.drop_first(), marks.drop_first());
    }
}

/// `key` is `root_key` itself or lies under it; a `root_key` ending in `\`
/// (a drive root) needs no separator after it.
pub open spec fn within_of(key: Seq<char>, root_key: Seq<char>) -> bool {
    if root_key.len() > 0 && root_key.last() == '\\' {
        root_key.is_prefix_of(key)
    } else {
        root_key.is_prefix_of(key) && (key.len() == root_key.len() || key[root_key.len() as int] == '\\')
    }
}

/// Whether the lowercased key `key` is `root_key` itself or one of its
/// descendants.
pub fn within(key: &str, root_key: &str) -> (r: bool)
    ensures
        r == within_of(key@, root_key@),
{
    let k = text::chars_of(key);
    let root = text::chars_of(root_key);
    if root.len() > k.len() {
        return false;
    }
    let mut i: usize = 0;
    while i < root.len()
        invariant
            i <= root@.len() <= k@.len(),
            k@ == key@,
            root@ == root_key@,
            forall|j: int| 0 <= j < i ==> root@[j] == k@[j],
        decreases root@.len() - i,
    {
        if root[i] != k[i] {
            assert(k@.subrange(0, root@.len() as int)[i as int] != root@[i as int]);
            return false;
        }
        i += 1;
    }
    assert(root@ =~= k@.take(root@.len() as int));
    if root.len() > 0 && root[root.len() - 1] == '\\' {
        return true;
    }
    root.len() == k.len() || k[root.len()] == '\\'
}

/// A key lies within itself, and everything on a drive lies within its
/// root key.
pub proof fn lemma_within_itself(key: Seq<char>)
    ensures
        within_of(key, key),
{
    assert(key =~= key.subrange(0, key.len() as int));
}

/// The entries of `entries` whose path, lowercased, lies within the
/// lowercased `root`, in their order.
pub open spec fn entries_within_of(entries: Seq<DirEntry>, root: Seq<char>) -> Seq<DirEntry>
    decreases entries.len(),
{
    if entries.len() == 0 {
        seq![]
    } else {
        let rest = entries_within_of(entries.drop_last(), root);
        if within_of(text::lower_str(entries.last().path@), text::lower_str(root)) {
            rest.push(entries.last())
        } else {
            rest
        }
    }
}

/// Keeps the stored rows that lie inside the project `root`, whatever
/// the case of either.
pub fn entries_within(entries: Vec<DirEntry>, root: &str) -> (r: Vec<DirEntry>)
    ensures
        r@ == entries_within_of(entries@, root@),
{
    let root_key = text::to_lowercase_str(root);
    let mut kept: Vec<DirEntry> = Vec::new();
    let mut rest = entries;
    let ghost all = rest@;
    let total = rest.len();
    assert(all.len() == total);
    let mut i: usize = 0;
    assert(all.take(0) =~= Seq::<DirEntry>::empty());
    assert(rest@ =~= all.skip(0));
    while rest.len() > 0
        invariant
            i <= all.len(),
            all.len() <= usize::MAX,
            rest@ == all.skip(i as int),
            root_key@ == text::lower_str(root@),
            kept@ == entries_within_of(all.take(i as int), root@),
        decreases rest@.len(),
    {
        let entry = rest.remove(0);
        assert(entry == all[i as int]);
        assert(rest@ =~= all.skip(i + 1));
        assert(all.take(i + 1).drop_last() =~= all.take(i as int));
        assert(all.take(i + 1).last() == entry);
        let key = text::to_lowercase_str(entry.path.as_str());
        if within(key.as_str(), root_key.as_str()) {
            kept.push(entry);
        }
        i += 1;
    }
    assert(all.take(i as int) =~= all);
    kept
}

} // verus!
