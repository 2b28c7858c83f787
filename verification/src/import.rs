//! Importing another tool's history: reading `zoxide query -ls`
//! lines, keeping one candidate per directory, ordering them by score then
//! path, and scheduling the directories to record.
use vstd::prelude::*;

use crate::clock::Timestamp;
use crate::commands;
use crate::paths::CanonicalDir;
use crate::rank;
use crate::remove::Target;
use crate::text;

verus! {

/// One directory ready to import, with its synthetic recency timestamp.
#[derive(Debug, Clone, PartialEq, Eq)]
pub struct Planned {
    /// Canonical displayable path to record.
    pub path: String,
    /// The comparison key to store alongside it.
    pub key: String,
    /// Synthetic `ts`: strictly decreasing from `now - 1`, best score first.
    pub ts: Timestamp,
}

/// What becomes of one line of the imported history.
#[derive(Debug, Clone, Copy, PartialEq, Eq, Structural)]
pub enum LineOutcome {
    /// Not UTF-8, or not a score followed by a path.
    Malformed,
    /// The path does not resolve to an existing directory.
    NotADirectory,
    /// The directory is one `exclude_dirs` selects.
    Excluded,
    /// The directory is a candidate for the import.
    Kept,
}

/// Classifies one line: `parsed` says whether it held a score and a path,
/// `dir` is the canonical path of the directory it names, if it names one.
pub fn line_outcome(parsed: bool, dir: Option<&str>, exclude: &[Target]) -> (r: LineOutcome)
    ensures
        r == (if !parsed {
            LineOutcome::Malformed
        } else {
            match dir {
                None => LineOutcome::NotADirectory,
                Some(d) => if commands::excluded(exclude@, d@) {
                    LineOutcome::Excluded
                } else {
                    LineOutcome::Kept
                },
            }
        }),
{
    if !parsed {
        return LineOutcome::Malformed;
    }
    match dir {
        None => LineOutcome::NotADirectory,
        Some(d) => if commands::is_excluded(exclude, d) {
            LineOutcome::Excluded
        } else {
            LineOutcome::Kept
        },
    }
}

/// The lines an import skipped before dedupe, by reason.
#[derive(Debug, Clone, Copy, PartialEq, Eq, Structural)]
pub struct Skipped {
    pub malformed: usize,
    pub not_a_directory: usize,
    pub excluded: usize,
}

/// How many of `outcomes` are `o`.
pub open spec fn count_of(outcomes: Seq<LineOutcome>, o: LineOutcome) -> nat
    decreases outcomes.len(),
{
    if outcomes.len() == 0 {
        0
    } else {
        count_of(outcomes.drop_last(), o) + if outcomes.last() == o {
            1nat
        } else {
            0nat
        }
    }
}

proof fn lemma_count_bound(outcomes: Seq<LineOutcome>, o: LineOutcome)
    ensures
        count_of(outcomes, o) <= outcomes.len(),
    decreases outcomes.len(),
{
    if outcomes.len() > 0 {
        lemma_count_bound(outcomes.drop_last(), o);
    }
}

/// Counts the malformed, not-a-directory and excluded lines.
pub fn tally(outcomes: &[LineOutcome]) -> (r: Skipped)
    ensures
        r.malformed == count_of(outcomes@, LineOutcome::Malformed),
        r.not_a_directory == count_of(outcomes@, LineOutcome::NotADirectory),
        r.excluded == count_of(outcomes@, LineOutcome::Excluded),
{
    let mut r = Skipped { malformed: 0, not_a_directory: 0, excluded: 0 };
    let mut i: usize = 0;
    while i < outcomes.len()
        invariant
            i <= outcomes@.len(),
            r.malformed == count_of(outcomes@.take(i as int), LineOutcome::Malformed),
            r.not_a_directory == count_of(outcomes@.take(i as int), LineOutcome::NotADirectory),
            r.excluded == count_of(outcomes@.take(i as int), LineOutcome::Excluded),
        decreases outcomes@.len() - i,
    {
        let ghost prefix = outcomes@.take(i + 1);
        proof {
            assert(prefix.drop_last() =~= outcomes@.take(i as int));
            assert(prefix.last() == outcomes@[i as int]);
            lemma_count_bound(outcomes@.take(i as int), LineOutcome::Malformed);
            lemma_count_bound(outcomes@.take(i as int), LineOutcome::NotADirectory);
            lemma_count_bound(outcomes@.take(i as int), LineOutcome::Excluded);
        }
        match outcomes[i] {
            LineOutcome::Malformed => r.malformed = r.malformed + 1,
            LineOutcome::NotADirectory => r.not_a_directory = r.not_a_directory + 1,
            LineOutcome::Excluded => r.excluded = r.excluded + 1,
            LineOutcome::Kept => {},
        }
        i += 1;
    }
    assert(outcomes@.take(i as int) =~= outcomes@);
    r
}

/// The first whitespace position of `s` at or after `i`, or its length.
pub open spec fn whitespace_at(s: Seq<char>, i: int) -> int
    decreases s.len() - i,
{
    if i >= s.len() {
        s.len() as int
    } else if text::white_space(s[i]) {
        i
    } else {
        whitespace_at(s, i + 1)
    }
}

/// The score text and the path text of a `<score> <path>` line: leading
/// whitespace skipped, the score ending at the first whitespace character,
/// the path being the rest after that character with its own leading
/// whitespace skipped; `None` when either is missing.
pub open spec fn line_fields_of(line: Seq<char>) -> Option<(Seq<char>, Seq<char>)> {
    let t = text::trim_start_of(line);
    let k = whitespace_at(t, 0);
    if t.len() == 0 || k >= t.len() {
        None
    } else {
        let path = text::trim_start_of(t.skip(k + 1));
        if path.len() == 0 {
            None
        } else {
            Some((t.take(k), path))
        }
    }
}

/// Splits one `<score> <path>` line into its score text and its path text.
pub fn line_fields(line: &str) -> (r: Option<(String, String)>)
    ensures
        match r {
            Some((score, path)) => line_fields_of(line@) == Some((score@, path@)),
            None => line_fields_of(line@) is None,
        },
{
    let chars = text::chars_of(line);
    let mut start: usize = 0;
    assert(chars@.skip(0) =~= chars@);
    while start < chars.len() && text::is_whitespace(chars[start])
        invariant
            start <= chars@.len(),
            chars@ == line@,
            text::trim_start_of(line@) == text::trim_start_of(chars@.skip(start as int)),
        decreases chars@.len() - start,
    {
        assert(chars@.skip(start as int).drop_first() =~= chars@.skip(start + 1));
        start += 1;
    }
    let ghost t = chars@.skip(start as int);
    assert(text::trim_start_of(line@) == t);
    if start == chars.len() {
        return None;
    }
    let mut k: usize = start;
    while k < chars.len() && !text::is_whitespace(chars[k])
        invariant
            start <= k <= chars@.len(),
            t == chars@.skip(start as int),
            whitespace_at(t, 0) == whitespace_at(t, k - start),
        decreases chars@.len() - k,
    {
        k += 1;
    }
    if k == chars.len() {
        return None;
    }
    let mut p: usize = k + 1;
    assert(chars@.skip(p as int) =~= t.skip(k - start + 1));
    while p < chars.len() && text::is_whitespace(chars[p])
        invariant
            k < p <= chars@.len(),
            text::trim_start_of(t.skip(k - start + 1)) == text::trim_start_of(chars@.skip(p as int)),
        decreases chars@.len() - p,
    {
        assert(chars@.skip(p as int).drop_first() =~= chars@.skip(p + 1));
        p += 1;
    }
    assert(text::trim_start_of(chars@.skip(p as int)) == chars@.skip(p as int));
    if p == chars.len() {
        return None;
    }
    let mut score: Vec<char> = Vec::new();
    let mut i: usize = start;
    while i < k
        invariant
            start <= i <= k < chars@.len(),
            score@ == chars@.subrange(start as int, i as int),
        decreases k - i,
    {
        score.push(chars[i]);
        assert(chars@.subrange(start as int, i + 1) =~= chars@.subrange(start as int, i as int).push(chars@[i as int]));
        i += 1;
    }
    let mut path: Vec<char> = Vec::new();
    let mut j: usize = p;
    while j < chars.len()
        invariant
            p <= j <= chars@.len(),
            path@ == chars@.subrange(p as int, j as int),
        decreases chars@.len() - j,
    {
        path.push(chars[j]);
        assert(chars@.subrange(p as int, j + 1) =~= chars@.subrange(p as int, j as int).push(chars@[j as int]));
        j += 1;
    }
    assert(score@ =~= t.take(k - start));
    assert(path@ =~= chars@.skip(p as int));
    Some((text::string_of(&score), text::string_of(&path)))
}

/// The directories whose key is not already stored, in order.
pub open spec fn unknown_dirs(dirs: Seq<CanonicalDir>, known: Seq<Seq<char>>) -> Seq<CanonicalDir>
    decreases dirs.len(),
{
    if dirs.len() == 0 {
        seq![]
    } else if known.contains(dirs.last().key@) {
        unknown_dirs(dirs.drop_last(), known)
    } else {
        unknown_dirs(dirs.drop_last(), known).push(dirs.last())
    }
}

/// A prefix of `dirs` has no more unknown directories than `dirs` itself.
proof fn lemma_unknown_prefix(dirs: Seq<CanonicalDir>, known: Seq<Seq<char>>, j: int)
    requires
        0 <= j <= dirs.len(),
    ensures
        unknown_dirs(dirs.take(j), known).len() <= unknown_dirs(dirs, known).len(),
    decreases dirs.len(),
{
    if j == dirs.len() {
        assert(dirs.take(j) =~= dirs);
    } else {
        assert(dirs.drop_last().take(j) =~= dirs.take(j));
        lemma_unknown_prefix(dirs.drop_last(), known, j);
    }
}

/// Drops the already-known directories of `ordered` (best score first) and
/// gives each survivor a synthetic timestamp counting down from `now - 1`.
fn schedule(ordered: Vec<CanonicalDir>, known_keys: &[String], now: Timestamp) -> (r: Vec<Planned>)
    requires
        unknown_dirs(ordered@, key_texts(known_keys@)).len() < i64::MAX,
        now.seconds() - unknown_dirs(ordered@, key_texts(known_keys@)).len() >= i64::MIN,
    ensures
        scheduled(ordered@, key_texts(known_keys@), now, r@),
{
    let ghost known = key_texts(known_keys@);
    let mut planned: Vec<Planned> = Vec::new();
    let mut i: usize = 0;
    while i < ordered.len()
        invariant
            i <= ordered@.len(),
            known == known_keys@.map_values(|k: String| k@),
            unknown_dirs(ordered@, known).len() < i64::MAX,
            now.seconds() - unknown_dirs(ordered@, known).len() >= i64::MIN,
            planned@.len() == unknown_dirs(ordered@.take(i as int), known).len(),
            forall|q: int| 0 <= q < planned@.len() ==> {
                let d = unknown_dirs(ordered@.take(i as int), known)[q];
                &&& (#[trigger] planned@[q]).path == d.path
                &&& planned@[q].key == d.key
                &&& planned@[q].ts.seconds() == now.seconds() - (q + 1)
            },
        decreases ordered@.len() - i,
    {
        let dir = &ordered[i];
        proof {
            assert(ordered@.take(i + 1).drop_last() =~= ordered@.take(i as int));
            assert(ordered@.take(i + 1).last() == *dir);
        }
        let mut seen = false;
        let mut j: usize = 0;
        while j < known_keys.len()
            invariant
                j <= known_keys@.len(),
                known == known_keys@.map_values(|k: String| k@),
                seen == exists|q: int| 0 <= q < j && (#[trigger] known_keys@[q])@ == dir.key@,
            decreases known_keys@.len() - j,
        {
            if known_keys[j] == dir.key {
                seen = true;
            }
            j += 1;
        }
        proof {
            if known.contains(dir.key@) {
                let q = choose|q: int| 0 <= q < known.len() && known[q] == dir.key@;
                assert(known_keys@[q]@ == dir.key@);
            }
            if seen {
                let q = choose|q: int| 0 <= q < known_keys@.len() && (#[trigger] known_keys@[q])@ == dir.key@;
                assert(known[q] == dir.key@);
            }
        }
        let ghost before = planned@;
        if !seen {
            proof {
                lemma_unknown_prefix(ordered@, known, i + 1);
                assert(unknown_dirs(ordered@.take(i + 1), known).len() == planned@.len() + 1);
            }
            let index = planned.len() as i64;
            let ts = Timestamp::from_unix_seconds(now.unix_seconds() - (index + 1));
            planned.push(Planned { path: dir.path.clone(), key: dir.key.clone(), ts });
            proof {
                let u = unknown_dirs(ordered@.take(i + 1), known);
                assert(u == unknown_dirs(ordered@.take(i as int), known).push(*dir));
                assert forall|q: int| 0 <= q < planned@.len() implies {
                    let d = u[q];
                    &&& (#[trigger] planned@[q]).path == d.path
                    &&& planned@[q].key == d.key
                    &&& planned@[q].ts.seconds() == now.seconds() - (q + 1)
                } by {
                    if q < before.len() {
                        assert(planned@[q] == before[q]);
                    }
                }
            }
        }
        i += 1;
    }
    assert(ordered@.take(i as int) =~= ordered@);
    planned
}

} // verus!

verus! {

/// A candidate directory with its zoxide score, the score given as an order
/// key: a larger key stands for a larger score.
pub type ScoredDir = (u64, CanonicalDir);

/// `a` is imported before `b`: the higher score first, then the smaller path.
pub open spec fn import_before(a: ScoredDir, b: ScoredDir) -> bool {
    a.0 > b.0 || (a.0 == b.0 && rank::lex_lt(a.1.path@, b.1.path@))
}

/// `a` may be imported before `b`.
pub open spec fn import_le(a: ScoredDir, b: ScoredDir) -> bool {
    !import_before(b, a)
}

proof fn lemma_import_transitive(a: ScoredDir, b: ScoredDir, c: ScoredDir)
    requires
        import_before(a, b),
        import_before(b, c),
    ensures
        import_before(a, c),
{
    if a.0 == b.0 && b.0 == c.0 {
        rank::lemma_lex_transitive(a.1.path@, b.1.path@, c.1.path@);
    }
}

proof fn lemma_import_irreflexive(a: ScoredDir)
    ensures
        !import_before(a, a),
{
    rank::lemma_lex_irreflexive(a.1.path@);
}

fn imports_before(a: &ScoredDir, b: &ScoredDir) -> (r: bool)
    ensures
        r == import_before(*a, *b),
{
    if a.0 != b.0 {
        return a.0 > b.0;
    }
    let pa = text::chars_of(a.1.path.as_str());
    let pb = text::chars_of(b.1.path.as_str());
    rank::lex_less(&pa, &pb)
}

/// No two kept candidates share a comparison key.
#[verifier::opaque]
spec fn keys_distinct(kept: Seq<ScoredDir>) -> bool {
    forall|i: int, j: int| 0 <= i < j < kept.len() ==> (#[trigger] kept[i]).1.key@ != (#[trigger] kept[j]).1.key@
}

/// Every kept candidate is one of the first `n` inputs.
#[verifier::opaque]
spec fn drawn_from(kept: Seq<ScoredDir>, all: Seq<ScoredDir>, n: int) -> bool {
    forall|i: int| 0 <= i < kept.len() ==> exists|q: int| 0 <= q < n && all[q] == #[trigger] kept[i]
}

/// Each of the first `n` inputs has a kept candidate with its key, at least
/// as good in import order.
#[verifier::opaque]
spec fn represented(kept: Seq<ScoredDir>, all: Seq<ScoredDir>, n: int) -> bool {
    forall|k: int|
        0 <= k < n ==> exists|i: int|
            0 <= i < kept.len() && (#[trigger] kept[i]).1.key@ == (#[trigger] all[k]).1.key@
                && import_le(kept[i], all[k])
}

/// A better candidate for an existing key takes that key's place.
proof fn lemma_dedupe_replace(before: Seq<ScoredDir>, all: Seq<ScoredDir>, n: int, j: int)
    requires
        0 <= n < all.len(),
        0 <= j < before.len(),
        before[j].1.key@ == all[n].1.key@,
        import_before(all[n], before[j]),
        keys_distinct(before),
        drawn_from(before, all, n),
        represented(before, all, n),
    ensures
        keys_distinct(before.update(j, all[n])),
        drawn_from(before.update(j, all[n]), all, n + 1),
        represented(before.update(j, all[n]), all, n + 1),
{
    let x = all[n];
    let kept = before.update(j, x);
    assert(represented(kept, all, n + 1)) by {
        reveal(represented);
        assert forall|k: int| 0 <= k < n + 1 implies exists|i: int|
            0 <= i < kept.len() && (#[trigger] kept[i]).1.key@ == (#[trigger] all[k]).1.key@ && import_le(kept[i], all[k]) by {
            if k == n {
                lemma_import_irreflexive(x);
                assert(kept[j] == x);
            } else {
                let i = choose|i: int|
                    0 <= i < before.len() && (#[trigger] before[i]).1.key@ == (#[trigger] all[k]).1.key@ && import_le(before[i], all[k]);
                if i == j && import_before(all[k], x) {
                    lemma_import_transitive(all[k], x, before[i]);
                }
                assert(kept[i].1.key@ == all[k].1.key@);
            }
        }
    }
    assert(drawn_from(kept, all, n + 1)) by {
        reveal(drawn_from);
        assert forall|i: int| 0 <= i < kept.len() implies exists|q: int| 0 <= q < n + 1 && all[q] == #[trigger] kept[i] by {
            if i == j {
                assert(all[n] == kept[i]);
            } else {
                assert(kept[i] == before[i]);
                let q = choose|q: int| 0 <= q < n && all[q] == #[trigger] before[i];
                assert(all[q] == kept[i]);
            }
        }
    }
    assert(keys_distinct(kept)) by {
        reveal(keys_distinct);
        assert forall|a: int, b: int| 0 <= a < b < kept.len() implies (#[trigger] kept[a]).1.key@ != (#[trigger] kept[b]).1.key@ by {
            assert(before[a].1.key@ != before[b].1.key@);
        }
    }
}

/// A candidate no better than the one kept for its key is dropped.
proof fn lemma_dedupe_drop(before: Seq<ScoredDir>, all: Seq<ScoredDir>, n: int, j: int)
    requires
        0 <= n < all.len(),
        0 <= j < before.len(),
        before[j].1.key@ == all[n].1.key@,
        !import_before(all[n], before[j]),
        drawn_from(before, all, n),
        represented(before, all, n),
    ensures
        drawn_from(before, all, n + 1),
        represented(before, all, n + 1),
{
    assert(represented(before, all, n + 1)) by {
        reveal(represented);
        assert forall|k: int| 0 <= k < n + 1 implies exists|i: int|
            0 <= i < before.len() && (#[trigger] before[i]).1.key@ == (#[trigger] all[k]).1.key@ && import_le(before[i], all[k]) by {
            if k == n {
                assert(before[j].1.key@ == all[k].1.key@);
            }
        }
    }
    assert(drawn_from(before, all, n + 1)) by {
        reveal(drawn_from);
        assert forall|i: int| 0 <= i < before.len() implies exists|q: int| 0 <= q < n + 1 && all[q] == #[trigger] before[i] by {
            let q = choose|q: int| 0 <= q < n && all[q] == #[trigger] before[i];
            assert(all[q] == before[i]);
        }
    }
}

/// A candidate with a new key is kept.
proof fn lemma_dedupe_push(before: Seq<ScoredDir>, all: Seq<ScoredDir>, n: int)
    requires
        0 <= n < all.len(),
        forall|q: int| 0 <= q < before.len() ==> (#[trigger] before[q]).1.key@ != all[n].1.key@,
        keys_distinct(before),
        drawn_from(before, all, n),
        represented(before, all, n),
    ensures
        keys_distinct(before.push(all[n])),
        drawn_from(before.push(all[n]), all, n + 1),
        represented(before.push(all[n]), all, n + 1),
{
    let x = all[n];
    let kept = before.push(x);
    assert(represented(kept, all, n + 1)) by {
        reveal(represented);
        assert forall|k: int| 0 <= k < n + 1 implies exists|i: int|
            0 <= i < kept.len() && (#[trigger] kept[i]).1.key@ == (#[trigger] all[k]).1.key@ && import_le(kept[i], all[k]) by {
            if k == n {
                lemma_import_irreflexive(x);
                assert(kept[before.len() as int] == x);
            } else {
                let i = choose|i: int|
                    0 <= i < before.len() && (#[trigger] before[i]).1.key@ == (#[trigger] all[k]).1.key@ && import_le(before[i], all[k]);
                assert(kept[i] == before[i]);
            }
        }
    }
    assert(drawn_from(kept, all, n + 1)) by {
        reveal(drawn_from);
        assert forall|i: int| 0 <= i < kept.len() implies exists|q: int| 0 <= q < n + 1 && all[q] == #[trigger] kept[i] by {
            if i == before.len() {
                assert(all[n] == kept[i]);
            } else {
                assert(kept[i] == before[i]);
                let q = choose|q: int| 0 <= q < n && all[q] == #[trigger] before[i];
                assert(all[q] == kept[i]);
            }
        }
    }
    assert(keys_distinct(kept)) by {
        reveal(keys_distinct);
        assert forall|a: int, b: int| 0 <= a < b < kept.len() implies (#[trigger] kept[a]).1.key@ != (#[trigger] kept[b]).1.key@ by {
            assert(kept[a] == before[a]);
            if b < before.len() {
                assert(kept[b] == before[b]);
            }
        }
    }
}

/// The distinct keys of `cs`, in the order each first appears.
pub open spec fn keys_first_seen(cs: Seq<ScoredDir>) -> Seq<Seq<char>>
    decreases cs.len(),
{
    if cs.len() == 0 {
        seq![]
    } else {
        let seen = keys_first_seen(cs.drop_last());
        if seen.contains(cs.last().1.key@) {
            seen
        } else {
            seen.push(cs.last().1.key@)
        }
    }
}

/// The keys of `cs`, in order.
pub open spec fn keys_of(cs: Seq<ScoredDir>) -> Seq<Seq<char>> {
    cs.map_values(|c: ScoredDir| c.1.key@)
}

/// Taking one more candidate adds its key to the first-seen keys exactly
/// when no kept candidate has that key yet.
proof fn lemma_first_seen_step(before: Seq<ScoredDir>, all: Seq<ScoredDir>, n: int, j: int)
    requires
        0 <= n < all.len(),
        0 <= j <= before.len(),
        keys_of(before) == keys_first_seen(all.take(n)),
        j < before.len() ==> before[j].1.key@ == all[n].1.key@,
        j == before.len() ==> forall|q: int| 0 <= q < before.len() ==> (#[trigger] before[q]).1.key@ != all[n].1.key@,
    ensures
        keys_first_seen(all.take(n + 1)) == if j < before.len() {
            keys_of(before)
        } else {
            keys_of(before).push(all[n].1.key@)
        },
{
    let x = all[n];
    assert(all.take(n + 1).drop_last() =~= all.take(n));
    assert(all.take(n + 1).last() == x);
    if j < before.len() {
        assert(keys_of(before)[j] == x.1.key@);
    } else if keys_of(before).contains(x.1.key@) {
        let q = choose|q: int| 0 <= q < keys_of(before).len() && keys_of(before)[q] == x.1.key@;
        assert(before[q].1.key@ == x.1.key@);
    }
}

/// Keeps one candidate per comparison key, the best one in import order
/// (the highest score, then the smallest path), and counts the others.
#[verifier::spinoff_prover]
#[verifier::rlimit(40)]
pub fn dedupe_by_key(candidates: Vec<ScoredDir>) -> (r: (Vec<ScoredDir>, usize))
    ensures
        r.1 == candidates@.len() - r.0@.len(),
        forall|i: int, j: int| 0 <= i < j < r.0@.len() ==> (#[trigger] r.0@[i]).1.key@ != (#[trigger] r.0@[j]).1.key@,
        forall|i: int| 0 <= i < r.0@.len() ==> candidates@.contains(#[trigger] r.0@[i]),
        forall|k: int|
            0 <= k < candidates@.len() ==> exists|i: int|
                0 <= i < r.0@.len() && (#[trigger] r.0@[i]).1.key@ == (#[trigger] candidates@[k]).1.key@
                    && import_le(r.0@[i], candidates@[k]),
        keys_of(r.0@) == keys_first_seen(candidates@),
{
    let ghost all = candidates@;
    let mut rest = candidates;
    let total = rest.len();
    assert(all.len() == total);
    let mut kept: Vec<ScoredDir> = Vec::new();
    let mut duplicate: usize = 0;
    let mut n: usize = 0;
    assert(rest@ =~= all.skip(0));
    assert(keys_distinct(kept@)) by {
        reveal(keys_distinct);
    }
    assert(drawn_from(kept@, all, 0)) by {
        reveal(drawn_from);
    }
    assert(represented(kept@, all, 0)) by {
        reveal(represented);
    }
    while rest.len() > 0
        invariant
            n <= all.len(),
            all.len() <= usize::MAX,
            rest@ == all.skip(n as int),
            duplicate + kept@.len() == n,
            keys_distinct(kept@),
            drawn_from(kept@, all, n as int),
            represented(kept@, all, n as int),
            keys_of(kept@) == keys_first_seen(all.take(n as int)),
        decreases rest@.len(),
    {
        let x = rest.remove(0);
        assert(x == all[n as int]);
        assert(rest@ =~= all.skip(n + 1));
        let mut j: usize = 0;
        while j < kept.len() && !text::same_str(kept[j].1.key.as_str(), x.1.key.as_str())
            invariant
                j <= kept@.len(),
                forall|q: int| 0 <= q < j ==> (#[trigger] kept@[q]).1.key@ != x.1.key@,
            decreases kept@.len() - j,
        {
            j += 1;
        }
        let ghost before = kept@;
        proof {
            lemma_first_seen_step(before, all, n as int, j as int);
        }
        if j < kept.len() {
            if imports_before(&x, &kept[j]) {
                proof {
                    lemma_dedupe_replace(before, all, n as int, j as int);
                }
                kept.set(j, x);
                assert(keys_of(kept@) =~= keys_of(before));
            } else {
                proof {
                    lemma_dedupe_drop(before, all, n as int, j as int);
                }
            }
            duplicate += 1;
        } else {
            proof {
                lemma_dedupe_push(before, all, n as int);
            }
            kept.push(x);
            assert(keys_of(kept@) =~= keys_of(before).push(x.1.key@));
        }
        n += 1;
    }
    assert(all.skip(n as int).len() == 0);
    assert(n == all.len());
    assert(all.take(n as int) =~= all);
    assert forall|i: int, j: int| 0 <= i < j < kept@.len() implies (#[trigger] kept@[i]).1.key@ != (#[trigger] kept@[j]).1.key@ by {
        reveal(keys_distinct);
    }
    assert forall|i: int| 0 <= i < kept@.len() implies all.contains(#[trigger] kept@[i]) by {
        reveal(drawn_from);
        let q = choose|q: int| 0 <= q < n && all[q] == #[trigger] kept@[i];
        assert(all[q] == kept@[i]);
    }
    assert(represented(kept@, all, all.len() as int));
    assert forall|k: int| 0 <= k < all.len() implies exists|i: int|
        0 <= i < kept@.len() && (#[trigger] kept@[i]).1.key@ == (#[trigger] all[k]).1.key@ && import_le(kept@[i], all[k]) by {
        reveal(represented);
    }
    (kept, duplicate)
}

/// `s` with `x` put just before the first candidate `x` imports before.
pub open spec fn insert_for_import(s: Seq<ScoredDir>, x: ScoredDir) -> Seq<ScoredDir>
    decreases s.len(),
{
    if s.len() == 0 {
        seq![x]
    } else if import_before(x, s[0]) {
        seq![x] + s
    } else {
        seq![s[0]] + insert_for_import(s.drop_first(), x)
    }
}

/// `s` in import order, stably: candidates with equal scores and paths
/// keep their order in `s`.
pub open spec fn import_order(s: Seq<ScoredDir>) -> Seq<ScoredDir>
    decreases s.len(),
{
    if s.len() == 0 {
        seq![]
    } else {
        insert_for_import(import_order(s.drop_last()), s.last())
    }
}

proof fn lemma_insert_for_import_at(s: Seq<ScoredDir>, x: ScoredDir, p: int)
    requires
        0 <= p <= s.len(),
        forall|j: int| 0 <= j < p ==> !import_before(x, #[trigger] s[j]),
        p < s.len() ==> import_before(x, s[p]),
    ensures
        insert_for_import(s, x) == s.insert(p, x),
    decreases s.len(),
{
    if s.len() == 0 {
        assert(s.insert(p, x) =~= seq![x]);
    } else if p == 0 {
        assert(s.insert(0, x) =~= seq![x] + s);
    } else {
        let t = s.drop_first();
        assert(!import_before(x, s[0]));
        assert forall|j: int| 0 <= j < p - 1 implies !import_before(x, #[trigger] t[j]) by {
            assert(t[j] == s[j + 1]);
        }
        if p < s.len() {
            assert(t[p - 1] == s[p]);
        }
        lemma_insert_for_import_at(t, x, p - 1);
        assert(s.insert(p, x) =~= seq![s[0]] + t.insert(p - 1, x));
    }
}

/// Orders candidates for import, the highest score first and the smallest
/// path among equal scores; a stable insertion sort.
fn order_for_import(candidates: Vec<ScoredDir>) -> (r: Vec<ScoredDir>)
    ensures
        r@.to_multiset() == candidates@.to_multiset(),
        vstd::relations::sorted_by(r@, |a: ScoredDir, b: ScoredDir| import_le(a, b)),
        r@ == import_order(candidates@),
{
    let ghost all = candidates@;
    let mut rest = candidates;
    let total = rest.len();
    assert(all.len() == total);
    let mut sorted: Vec<ScoredDir> = Vec::new();
    let mut n: usize = 0;
    assert(rest@ =~= all.skip(0));
    assert(sorted@ =~= all.take(0));
    while rest.len() > 0
        invariant
            n <= all.len(),
            all.len() <= usize::MAX,
            rest@ == all.skip(n as int),
            sorted@.to_multiset() == all.take(n as int).to_multiset(),
            forall|a: int, b: int| 0 <= a < b < sorted@.len() ==> import_le(#[trigger] sorted@[a], #[trigger] sorted@[b]),
            sorted@ == import_order(all.take(n as int)),
        decreases rest@.len(),
    {
        let x = rest.remove(0);
        assert(x == all[n as int]);
        assert(rest@ =~= all.skip(n + 1));
        let mut p: usize = 0;
        while p < sorted.len() && !imports_before(&x, &sorted[p])
            invariant
                p <= sorted@.len(),
                forall|j: int| 0 <= j < p ==> !import_before(x, #[trigger] sorted@[j]),
            decreases sorted@.len() - p,
        {
            p += 1;
        }
        let ghost old_sorted = sorted@;
        proof {
            assert forall|j: int| p <= j < old_sorted.len() implies import_le(x, #[trigger] old_sorted[j]) by {
                let pe = old_sorted[p as int];
                if j > p {
                    assert(import_le(pe, old_sorted[j]));
                }
                if import_before(old_sorted[j], x) {
                    lemma_import_transitive(old_sorted[j], x, pe);
                    if j == p {
                        lemma_import_irreflexive(pe);
                    }
                }
            }
        }
        sorted.insert(p, x);
        proof {
            vstd::seq_lib::to_multiset_insert(old_sorted, p as int, x);
            assert(all.take(n + 1) =~= all.take(n as int).push(x));
            vstd::seq_lib::to_multiset_build(all.take(n as int), x);
            lemma_insert_for_import_at(old_sorted, x, p as int);
            assert(all.take(n + 1).drop_last() =~= all.take(n as int));
            assert forall|a: int, b: int| 0 <= a < b < sorted@.len() implies import_le(#[trigger] sorted@[a], #[trigger] sorted@[b]) by {
                if a < p && b <= p {
                    assert(sorted@[a] == old_sorted[a]);
                } else if a < p && b > p {
                    assert(sorted@[a] == old_sorted[a] && sorted@[b] == old_sorted[b - 1]);
                } else if a == p {
                    assert(sorted@[b] == old_sorted[b - 1]);
                } else {
                    assert(sorted@[a] == old_sorted[a - 1] && sorted@[b] == old_sorted[b - 1]);
                }
            }
        }
        n += 1;
    }
    assert(all.take(n as int) =~= all);
    sorted
}

/// `r` is what scheduling `ordered` gives: the directories whose key is not
/// in `known`, in order, counting down from one second before `now`.
pub open spec fn scheduled(ordered: Seq<CanonicalDir>, known: Seq<Seq<char>>, now: Timestamp, r: Seq<Planned>) -> bool {
    &&& r.len() == unknown_dirs(ordered, known).len()
    &&& forall|i: int| 0 <= i < r.len() ==> {
        let d = unknown_dirs(ordered, known)[i];
        &&& (#[trigger] r[i]).path == d.path
        &&& r[i].key == d.key
        &&& r[i].ts.seconds() == now.seconds() - (i + 1)
    }
}

/// The texts of the stored keys.
pub open spec fn key_texts(keys: Seq<String>) -> Seq<Seq<char>> {
    keys.map_values(|k: String| k@)
}

/// `r` schedules `candidates` once put in import order as `sorted`.
pub open spec fn plans(candidates: Seq<ScoredDir>, known: Seq<Seq<char>>, now: Timestamp, sorted: Seq<ScoredDir>, r: Seq<Planned>) -> bool {
    &&& sorted.to_multiset() == candidates.to_multiset()
    &&& vstd::relations::sorted_by(sorted, |a: ScoredDir, b: ScoredDir| import_le(a, b))
    &&& scheduled(sorted.map_values(|c: ScoredDir| c.1), known, now, r)
}

/// How many of `candidates` have a key outside `known`.
pub open spec fn unknown_count(candidates: Seq<ScoredDir>, known: Seq<Seq<char>>) -> nat
    decreases candidates.len(),
{
    if candidates.len() == 0 {
        0
    } else {
        unknown_count(candidates.drop_last(), known) + if known.contains(candidates.last().1.key@) {
            0nat
        } else {
            1nat
        }
    }
}

proof fn lemma_unknown_count_dirs(candidates: Seq<ScoredDir>, known: Seq<Seq<char>>)
    ensures
        unknown_count(candidates, known) == unknown_dirs(candidates.map_values(|c: ScoredDir| c.1), known).len(),
    decreases candidates.len(),
{
    if candidates.len() > 0 {
        let dirs = candidates.map_values(|c: ScoredDir| c.1);
        assert(dirs.drop_last() =~= candidates.drop_last().map_values(|c: ScoredDir| c.1));
        lemma_unknown_count_dirs(candidates.drop_last(), known);
    }
}

proof fn lemma_unknown_count_remove(s: Seq<ScoredDir>, known: Seq<Seq<char>>, i: int)
    requires
        0 <= i < s.len(),
    ensures
        unknown_count(s, known) == unknown_count(s.remove(i), known) + if known.contains(s[i].1.key@) {
            0nat
        } else {
            1nat
        },
    decreases s.len(),
{
    if i == s.len() - 1 {
        assert(s.remove(i) =~= s.drop_last());
    } else {
        let t = s.remove(i);
        assert(t.drop_last() =~= s.drop_last().remove(i));
        assert(t.last() == s.last());
        lemma_unknown_count_remove(s.drop_last(), known, i);
    }
}

/// Reordering the candidates does not change how many are unknown.
proof fn lemma_unknown_count_permutation(a: Seq<ScoredDir>, b: Seq<ScoredDir>, known: Seq<Seq<char>>)
    requires
        a.to_multiset() == b.to_multiset(),
    ensures
        unknown_count(a, known) == unknown_count(b, known),
    decreases a.len(),
{
    vstd::seq_lib::to_multiset_len(a);
    vstd::seq_lib::to_multiset_len(b);
    if a.len() > 0 {
        let x = a.last();
        let rest = a.drop_last();
        assert(a =~= rest.push(x));
        vstd::seq_lib::to_multiset_build(rest, x);
        vstd::seq_lib::to_multiset_contains(a, x);
        assert(a.contains(x)) by {
            assert(a[a.len() - 1] == x);
        }
        vstd::seq_lib::to_multiset_contains(b, x);
        let i = choose|i: int| 0 <= i < b.len() && b[i] == x;
        vstd::seq_lib::to_multiset_remove(b, i);
        assert(rest.to_multiset() =~= b.remove(i).to_multiset());
        lemma_unknown_count_permutation(rest, b.remove(i), known);
        lemma_unknown_count_remove(b, known, i);
    }
}

fn is_known(key: &String, known_keys: &[String]) -> (r: bool)
    ensures
        r == key_texts(known_keys@).contains(key@),
{
    let mut j: usize = 0;
    while j < known_keys.len()
        invariant
            j <= known_keys@.len(),
            forall|q: int| 0 <= q < j ==> (#[trigger] known_keys@[q])@ != key@,
        decreases known_keys@.len() - j,
    {
        if known_keys[j] == *key {
            proof {
                assert(key_texts(known_keys@)[j as int] == key@);
            }
            return true;
        }
        j += 1;
    }
    proof {
        if key_texts(known_keys@).contains(key@) {
            let q = choose|q: int| 0 <= q < known_keys@.len() && key_texts(known_keys@)[q] == key@;
            assert(known_keys@[q]@ == key@);
        }
    }
    false
}

/// Whether `plan` can give every unknown candidate its own timestamp
/// before `now`: fewer than `i64::MAX` of them, and the earliest one still
/// an `i64`.
pub fn schedulable(candidates: &[ScoredDir], known_keys: &[String], now: Timestamp) -> (r: bool)
    ensures
        r == (unknown_count(candidates@, key_texts(known_keys@)) < i64::MAX
            && now.seconds() - unknown_count(candidates@, key_texts(known_keys@)) >= i64::MIN),
{
    let mut count: u64 = 0;
    let mut i: usize = 0;
    while i < candidates.len()
        invariant
            i <= candidates@.len(),
            count == unknown_count(candidates@.take(i as int), key_texts(known_keys@)),
            count <= i,
        decreases candidates@.len() - i,
    {
        assert(candidates@.take(i + 1).drop_last() =~= candidates@.take(i as int));
        if !is_known(&candidates[i].1.key, known_keys) {
            count = count + 1;
        }
        i += 1;
    }
    assert(candidates@.take(i as int) =~= candidates@);
    count < 0x7FFF_FFFF_FFFF_FFFF && (now.unix_seconds() as i128) - (count as i128) >= -0x8000_0000_0000_0000i128
}

/// Drops the already-known directories, orders the others by score
/// descending then path ascending, and gives each a synthetic timestamp
/// counting down from `now - 1`.
pub fn plan(candidates: Vec<ScoredDir>, known_keys: &[String], now: Timestamp) -> (r: Vec<Planned>)
    requires
        unknown_count(candidates@, key_texts(known_keys@)) < i64::MAX,
        now.seconds() - unknown_count(candidates@, key_texts(known_keys@)) >= i64::MIN,
    ensures
        plans(candidates@, key_texts(known_keys@), now, import_order(candidates@), r@),
{
    let ghost given = candidates@;
    let mut sorted = order_for_import(candidates);
    let ghost order = sorted@;
    let total = sorted.len();
    assert(order.len() == total);
    proof {
        vstd::seq_lib::to_multiset_len(order);
        vstd::seq_lib::to_multiset_len(given);
    }
    let mut dirs: Vec<CanonicalDir> = Vec::new();
    let mut n: usize = 0;
    while sorted.len() > 0
        invariant
            n <= order.len(),
            order.len() <= usize::MAX,
            sorted@ == order.skip(n as int),
            dirs@ == order.take(n as int).map_values(|c: ScoredDir| c.1),
        decreases sorted@.len(),
    {
        let (_, dir) = sorted.remove(0);
        assert(order.take(n + 1).map_values(|c: ScoredDir| c.1) =~= order.take(n as int).map_values(|c: ScoredDir| c.1).push(dir));
        assert(sorted@ =~= order.skip(n + 1));
        n += 1;
        dirs.push(dir);
    }
    assert(order.take(n as int) =~= order);
    proof {
        lemma_unknown_count_permutation(given, order, key_texts(known_keys@));
        lemma_unknown_count_dirs(order, key_texts(known_keys@));
    }
    let r = schedule(dirs, known_keys, now);
    assert(plans(given, key_texts(known_keys@), now, order, r@));
    r
}

} // verus!

verus! {

/// The keys a plan records.
pub open spec fn planned_keys(r: Seq<Planned>) -> Seq<Seq<char>> {
    r.map_values(|p: Planned| p.key@)
}

proof fn lemma_unknown_member(dirs: Seq<CanonicalDir>, known: Seq<Seq<char>>, j: int)
    requires
        0 <= j < dirs.len(),
        !known.contains(dirs[j].key@),
    ensures
        unknown_dirs(dirs, known).contains(dirs[j]),
    decreases dirs.len(),
{
    let u = unknown_dirs(dirs, known);
    if j == dirs.len() - 1 {
        assert(u[u.len() - 1] == dirs[j]);
    } else {
        lemma_unknown_member(dirs.drop_last(), known, j);
        let rest = unknown_dirs(dirs.drop_last(), known);
        let m = choose|m: int| 0 <= m < rest.len() && rest[m] == dirs[j];
        assert(u[m] == rest[m]);
    }
}

proof fn lemma_unknown_empty(dirs: Seq<CanonicalDir>, known: Seq<Seq<char>>)
    requires
        forall|j: int| 0 <= j < dirs.len() ==> known.contains(#[trigger] dirs[j].key@),
    ensures
        unknown_dirs(dirs, known).len() == 0,
    decreases dirs.len(),
{
    if dirs.len() > 0 {
        assert(known.contains(dirs[dirs.len() - 1].key@));
        lemma_unknown_empty(dirs.drop_last(), known);
    }
}

/// Importing the same candidates a second time, once the first import's
/// directories are stored, records nothing: every directory is known by
/// then.
pub proof fn lemma_import_again_is_noop(
    candidates: Seq<ScoredDir>,
    known: Seq<Seq<char>>,
    now: Timestamp,
    sorted: Seq<ScoredDir>,
    first: Seq<Planned>,
    later: Timestamp,
    sorted_again: Seq<ScoredDir>,
    second: Seq<Planned>,
)
    requires
        plans(candidates, known, now, sorted, first),
        plans(candidates, known + planned_keys(first), later, sorted_again, second),
    ensures
        second.len() == 0,
{
    let stored = known + planned_keys(first);
    let dirs = sorted.map_values(|c: ScoredDir| c.1);
    let dirs_again = sorted_again.map_values(|c: ScoredDir| c.1);
    assert forall|j: int| 0 <= j < dirs_again.len() implies stored.contains(#[trigger] dirs_again[j].key@) by {
        let x = sorted_again[j];
        assert(sorted_again.contains(x));
        vstd::seq_lib::to_multiset_contains(sorted_again, x);
        vstd::seq_lib::to_multiset_contains(sorted, x);
        let i = choose|i: int| 0 <= i < sorted.len() && sorted[i] == x;
        assert(dirs[i] == x.1);
        if known.contains(x.1.key@) {
            let q = choose|q: int| 0 <= q < known.len() && known[q] == x.1.key@;
            assert(stored[q] == x.1.key@);
        } else {
            lemma_unknown_member(dirs, known, i);
            let u = unknown_dirs(dirs, known);
            let m = choose|m: int| 0 <= m < u.len() && u[m] == x.1;
            assert(first[m].key == u[m].key);
            assert(planned_keys(first)[m] == x.1.key@);
            assert(stored[known.len() + m] == x.1.key@);
        }
    }
    lemma_unknown_empty(dirs_again, stored);
}

} // verus!
