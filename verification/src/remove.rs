//! Removal patterns: case-insensitive wildcards over directory
//! names or lowercased paths.
use vstd::prelude::*;

use crate::paths;
use crate::text;

verus! {

/// Whether pattern `p` from index `i` matches text `t` from index `j`: `*`
/// spans any run of characters, `?` exactly one, every other character
/// itself.
pub open spec fn matches_from(p: Seq<char>, t: Seq<char>, i: int, j: int) -> bool
    decreases p.len() - i + t.len() - j,
{
    if i < 0 || j < 0 || i > p.len() || j > t.len() {
        false
    } else if i == p.len() {
        j == t.len()
    } else if p[i] == '*' {
        matches_from(p, t, i + 1, j) || (j < t.len() && matches_from(p, t, i, j + 1))
    } else {
        j < t.len() && (p[i] == '?' || p[i] == t[j]) && matches_from(p, t, i + 1, j + 1)
    }
}

/// The whole pattern matches the whole text.
pub open spec fn glob(p: Seq<char>, t: Seq<char>) -> bool {
    matches_from(p, t, 0, 0)
}

/// No `*` in `p[a..b]`.
pub open spec fn star_free(p: Seq<char>, a: int, b: int) -> bool {
    forall|q: int| a <= q < b ==> p[q] != '*'
}

/// Some position `k` in `[lo, t.len()]` lets `p[i..]` match `t[k..]`.
pub open spec fn some_match_from(p: Seq<char>, t: Seq<char>, i: int, lo: int) -> bool {
    exists|k: int| lo <= k <= t.len() && #[trigger] matches_from(p, t, i, k)
}

/// A star at `i` absorbs any run: `p[i..]` matches `t[j..]` exactly when
/// `p[i+1..]` matches some suffix starting at or after `j`.
proof fn lemma_star(p: Seq<char>, t: Seq<char>, i: int, j: int)
    requires
        0 <= i < p.len(),
        0 <= j <= t.len(),
        p[i] == '*',
    ensures
        matches_from(p, t, i, j) <==> some_match_from(p, t, i + 1, j),
    decreases t.len() - j,
{
    assert(matches_from(p, t, i, j) == (matches_from(p, t, i + 1, j) || (j < t.len() && matches_from(p, t, i, j + 1))));
    if matches_from(p, t, i + 1, j) {
        assert(some_match_from(p, t, i + 1, j));
    }
    if j < t.len() {
        lemma_star(p, t, i, j + 1);
        if some_match_from(p, t, i + 1, j + 1) {
            let k = choose|k: int| j + 1 <= k <= t.len() && #[trigger] matches_from(p, t, i + 1, k);
            assert(some_match_from(p, t, i + 1, j));
        }
        if some_match_from(p, t, i + 1, j) {
            let k = choose|k: int| j <= k <= t.len() && #[trigger] matches_from(p, t, i + 1, k);
            if k > j {
                assert(some_match_from(p, t, i + 1, j + 1));
            }
        }
    } else {
        if some_match_from(p, t, i + 1, j) {
            let k = choose|k: int| j <= k <= t.len() && #[trigger] matches_from(p, t, i + 1, k);
            assert(k == j);
        }
    }
}

/// A star-free stretch `p[a..b]` can only match character by character.
proof fn lemma_literal_run(p: Seq<char>, t: Seq<char>, a: int, b: int, k: int)
    requires
        0 <= a <= b <= p.len(),
        star_free(p, a, b),
        matches_from(p, t, a, k),
    ensures
        k + (b - a) <= t.len(),
        matches_from(p, t, b, k + (b - a)),
    decreases b - a,
{
    if a < b {
        lemma_literal_run(p, t, a + 1, b, k + 1);
    }
}

/// At the end of the text only stars are left to match.
proof fn lemma_tail(p: Seq<char>, t: Seq<char>, i: int)
    requires
        0 <= i <= p.len(),
    ensures
        matches_from(p, t, i, t.len() as int) <==> forall|q: int| i <= q < p.len() ==> p[q] == '*',
    decreases p.len() - i,
{
    if i < p.len() {
        lemma_tail(p, t, i + 1);
    }
}

/// The characters of `pattern` and `text` lowercased, then matched.
pub open spec fn wildcard_of(pattern: Seq<char>, text: Seq<char>) -> bool {
    glob(text::lower_str(pattern), text::lower_str(text))
}

/// The greedy matcher with a single backtrack point, on characters.
fn glob_chars(p: &Vec<char>, t: &Vec<char>) -> (r: bool)
    ensures
        r == glob(p@, t@),
{
    let ghost ps = p@;
    let ghost ts = t@;
    let ghost whole = glob(ps, ts);
    let mut pi: usize = 0;
    let mut ti: usize = 0;
    let mut last_star: Option<usize> = None;
    let mut star_mark: usize = 0;
    while ti < t.len()
        invariant
            ps == p@,
            ts == t@,
            whole == glob(ps, ts),
            pi <= ps.len(),
            ti <= ts.len(),
            match last_star {
                None => whole == matches_from(ps, ts, pi as int, ti as int),
                Some(s) => {
                    &&& s < pi
                    &&& ps[s as int] == '*'
                    &&& star_mark <= ti
                    &&& ti - star_mark == pi - (s + 1)
                    &&& star_free(ps, s + 1, pi as int)
                    &&& whole == some_match_from(ps, ts, s + 1, star_mark as int)
                    &&& matches_from(ps, ts, s + 1, star_mark as int) == matches_from(ps, ts, pi as int, ti as int)
                },
            },
        decreases
            (if last_star is Some { ts.len() - star_mark } else { ts.len() + 1int }),
            ts.len() - ti,
            ps.len() - pi,
    {
        if pi < p.len() && p[pi] == '*' {
            proof {
                lemma_star(ps, ts, pi as int, ti as int);
                match last_star {
                    None => {},
                    Some(s) => {
                        // committing to the later star loses no match
                        if some_match_from(ps, ts, s + 1, star_mark as int) {
                            let k = choose|k: int| star_mark <= k <= ts.len() && #[trigger] matches_from(ps, ts, s + 1, k);
                            lemma_literal_run(ps, ts, s + 1, pi as int, k);
                            let e = k + (pi - (s + 1));
                            lemma_star(ps, ts, pi as int, e);
                            let k2 = choose|k2: int| e <= k2 <= ts.len() && #[trigger] matches_from(ps, ts, pi + 1, k2);
                            assert(some_match_from(ps, ts, pi + 1, ti as int));
                        }
                        if some_match_from(ps, ts, pi + 1, ti as int) {
                            assert(matches_from(ps, ts, s + 1, star_mark as int));
                        }
                    },
                }
            }
            last_star = Some(pi);
            star_mark = ti;
            pi += 1;
            proof {
                assert(star_free(ps, pi as int, pi as int));
            }
        } else if pi < p.len() && (p[pi] == '?' || p[pi] == t[ti]) {
            pi += 1;
            ti += 1;
        } else {
            match last_star {
                Some(star) => {
                    proof {
                        assert(!matches_from(ps, ts, star + 1, star_mark as int));
                        if some_match_from(ps, ts, star + 1, star_mark as int) {
                            let k = choose|k: int| star_mark <= k <= ts.len() && #[trigger] matches_from(ps, ts, star + 1, k);
                            assert(k != star_mark);
                            assert(some_match_from(ps, ts, star + 1, star_mark + 1));
                        }
                    }
                    pi = star + 1;
                    star_mark = star_mark + 1;
                    ti = star_mark;
                },
                None => {
                    return false;
                },
            }
        }
    }
    proof {
        match last_star {
            None => {},
            Some(s) => {
                if some_match_from(ps, ts, s + 1, star_mark as int) {
                    let k = choose|k: int| star_mark <= k <= ts.len() && #[trigger] matches_from(ps, ts, s + 1, k);
                    lemma_literal_run(ps, ts, s + 1, pi as int, k);
                    assert(k == star_mark);
                }
            },
        }
        lemma_tail(ps, ts, pi as int);
    }
    let ghost from = pi;
    while pi < p.len() && p[pi] == '*'
        invariant
            ps == p@,
            from <= pi <= ps.len(),
            forall|q: int| from <= q < pi ==> ps[q] == '*',
        decreases ps.len() - pi,
    {
        pi += 1;
    }
    pi == p.len()
}

/// Wildcard match of `pattern` against `text`, case-insensitively: `*` spans
/// any run of characters including `\`, `?` is exactly one, the rest is
/// literal.
pub fn wildcard_match(pattern: &str, text: &str) -> (r: bool)
    ensures
        r == wildcard_of(pattern@, text@),
{
    let lowered_pattern = text::to_lowercase_str(pattern);
    let lowered_text = text::to_lowercase_str(text);
    let p = text::chars_of(lowered_pattern.as_str());
    let t = text::chars_of(lowered_text.as_str());
    glob_chars(&p, &t)
}

/// What a remove pattern resolves into: a directory name to match, an exact
/// lowercased path key, or a lowercased path wildcard pattern.
#[derive(Debug, Clone, PartialEq, Eq)]
pub enum Target {
    /// The pattern carries no wildcard and no separator: match directory names.
    Name(String),
    /// The pattern resolved to one directory: match its exact lowercased key.
    Key(String),
    /// The pattern is a path with wildcards: match lowercased paths against it.
    KeyPattern(String),
}

/// `target` selects the stored path `path`.
pub open spec fn selects(target: Target, path: Seq<char>) -> bool {
    match target {
        Target::Name(pattern) => wildcard_of(pattern@, paths::name_of(path)),
        Target::Key(key) => text::lower_str(path) == key@,
        Target::KeyPattern(pattern) => wildcard_of(pattern@, text::lower_str(path)),
    }
}

/// Whether `path` (a stored canonical path) is selected by `target`.
pub fn matches(target: &Target, path: &str) -> (r: bool)
    ensures
        r == selects(*target, path@),
{
    match target {
        Target::Name(pattern) => {
            let parts = paths::split(path);
            wildcard_match(pattern.as_str(), parts.name.as_str())
        },
        Target::Key(key) => {
            let lowered = text::to_lowercase_str(path);
            lowered == *key
        },
        Target::KeyPattern(pattern) => {
            let lowered = text::to_lowercase_str(path);
            wildcard_match(pattern.as_str(), lowered.as_str())
        },
    }
}

/// The pattern reads as a path: it holds `\`, `/` or `:`, or is `.` or `..`.
pub open spec fn path_pattern(p: Seq<char>) -> bool {
    ||| p.contains('\\')
    ||| p.contains('/')
    ||| p.contains(':')
    ||| p == seq!['.']
    ||| p == seq!['.', '.']
}

/// Whether the pattern is read as a path instead of a bare directory name.
pub fn is_path_pattern(pattern: &str) -> (r: bool)
    ensures
        r == path_pattern(pattern@),
{
    let chars = text::chars_of(pattern);
    let mut i: usize = 0;
    while i < chars.len()
        invariant
            i <= chars@.len(),
            chars@ == pattern@,
            forall|j: int| 0 <= j < i ==> chars@[j] != '\\' && chars@[j] != '/' && chars@[j] != ':',
        decreases chars@.len() - i,
    {
        let c = chars[i];
        if c == '\\' || c == '/' || c == ':' {
            assert(chars@[i as int] == c);
            return true;
        }
        i += 1;
    }
    proof {
        assert(!chars@.contains('\\'));
        assert(!chars@.contains('/'));
        assert(!chars@.contains(':'));
    }
    let dot = chars.len() == 1 && chars[0] == '.';
    let dots = chars.len() == 2 && chars[0] == '.' && chars[1] == '.';
    proof {
        if chars@ == seq!['.'] {
            assert(seq!['.'][0] == '.');
        }
        if chars@ == seq!['.', '.'] {
            assert(seq!['.', '.'][0] == '.' && seq!['.', '.'][1] == '.');
        }
        if dot {
            assert(chars@ =~= seq!['.']);
        }
        if dots {
            assert(chars@ =~= seq!['.', '.']);
        }
    }
    dot || dots
}

/// `p` holds a `*` or a `?`.
pub open spec fn has_wildcard(p: Seq<char>) -> bool {
    p.contains('*') || p.contains('?')
}

fn wildcard_in(s: &Vec<char>) -> (r: bool)
    ensures
        r == has_wildcard(s@),
{
    let mut i: usize = 0;
    while i < s.len()
        invariant
            i <= s@.len(),
            forall|j: int| 0 <= j < i ==> s@[j] != '*' && s@[j] != '?',
        decreases s@.len() - i,
    {
        if s[i] == '*' || s[i] == '?' {
            assert(s@[i as int] == s[i as int]);
            return true;
        }
        i += 1;
    }
    false
}

/// `r` is what an `exclude_dirs` entry `p` reads as: a name pattern when
/// `p` is no path; a lowercased path pattern when it starts with `*` or is
/// an absolute path with a wildcard; the lowercased key of an absolute path
/// without one; nothing for a relative path.
pub open spec fn excludes_as(p: Seq<char>, r: Option<Target>) -> bool {
    let u = paths::unified(p);
    if !path_pattern(p) {
        r matches Some(Target::Name(n)) && n@ == p
    } else if u.len() > 0 && u[0] == '*' {
        r matches Some(Target::KeyPattern(k)) && k@ == text::lower_str(u)
    } else if paths::absolute_of(u) {
        if has_wildcard(u) {
            r matches Some(Target::KeyPattern(k)) && k@ == text::lower_str(u)
        } else {
            r matches Some(Target::Key(k)) && k@ == text::lower_str(paths::stripped(u))
        }
    } else {
        r is None
    }
}

/// Reads an `exclude_dirs` entry with the `furet remove` pattern syntax; a
/// relative path pattern is refused.
pub fn exclusion_target(pattern: &str) -> (r: Option<Target>)
    ensures
        excludes_as(pattern@, r),
{
    if !is_path_pattern(pattern) {
        return Some(Target::Name(pattern.to_owned()));
    }
    let unified = paths::unify_separators(pattern);
    let chars = text::chars_of(unified.as_str());
    if chars.len() > 0 && chars[0] == '*' {
        return Some(Target::KeyPattern(text::to_lowercase_str(unified.as_str())));
    }
    if paths::is_absolute(unified.as_str()) {
        if wildcard_in(&chars) {
            return Some(Target::KeyPattern(text::to_lowercase_str(unified.as_str())));
        }
        let stripped = paths::strip_trailing_separator(unified);
        return Some(Target::Key(text::to_lowercase_str(stripped.as_str())));
    }
    None
}

/// `r` is the target a `furet remove` pattern reads as without the disk: a
/// name pattern, or a wildcard path pattern (taken as is when it starts
/// with `*`, else anchored at `base`); `None` when the pattern names one
/// path, which the disk resolves.
pub open spec fn lexical_target_of(p: Seq<char>, base: Seq<char>, r: Option<Target>) -> bool {
    let u = paths::unified(p);
    if !path_pattern(p) {
        r matches Some(Target::Name(n)) && n@ == p
    } else if has_wildcard(p) {
        if u.len() > 0 && u[0] == '*' {
            r matches Some(Target::KeyPattern(k)) && k@ == text::lower_str(u)
        } else {
            r matches Some(Target::KeyPattern(k)) && k@ == paths::absolute_key_of(p, base)
        }
    } else {
        r is None
    }
}

/// The part of reading a `furet remove` pattern that needs no disk access.
pub fn lexical_target(pattern: &str, base: &str) -> (r: Option<Target>)
    ensures
        lexical_target_of(pattern@, base@, r),
{
    if !is_path_pattern(pattern) {
        return Some(Target::Name(pattern.to_owned()));
    }
    let raw = text::chars_of(pattern);
    if wildcard_in(&raw) {
        let unified = paths::unify_separators(pattern);
        let chars = text::chars_of(unified.as_str());
        if chars.len() > 0 && chars[0] == '*' {
            return Some(Target::KeyPattern(text::to_lowercase_str(unified.as_str())));
        }
        return Some(Target::KeyPattern(paths::absolute_key(pattern, base)));
    }
    None
}

/// A lone `*` matches every text.
pub proof fn lemma_star_matches_everything(t: Seq<char>)
    ensures
        glob(seq!['*'], t),
{
    let p = seq!['*'];
    lemma_star(p, t, 0, 0);
    lemma_tail(p, t, 1);
    assert(matches_from(p, t, 1, t.len() as int));
    assert(some_match_from(p, t, 1, 0));
}

/// A pattern without `*` or `?` matches exactly itself.
pub proof fn lemma_literal_pattern(p: Seq<char>, t: Seq<char>)
    requires
        forall|i: int| 0 <= i < p.len() ==> p[i] != '*' && p[i] != '?',
    ensures
        glob(p, t) <==> p == t,
{
    lemma_literal_from(p, t, 0);
    if p == t {
        assert(p.skip(0) =~= p);
    }
    assert(t.skip(0) =~= t);
    assert(p.skip(0) =~= p);
}

proof fn lemma_literal_from(p: Seq<char>, t: Seq<char>, i: int)
    requires
        0 <= i <= p.len(),
        forall|k: int| 0 <= k < p.len() ==> p[k] != '*' && p[k] != '?',
    ensures
        i <= t.len() ==> (matches_from(p, t, i, i) <==> p.skip(i) == t.skip(i)),
    decreases p.len() - i,
{
    if i <= t.len() {
        if i < p.len() {
            lemma_literal_from(p, t, i + 1);
            if i < t.len() {
                assert(p.skip(i).drop_first() =~= p.skip(i + 1));
                assert(t.skip(i).drop_first() =~= t.skip(i + 1));
                if p.skip(i) == t.skip(i) {
                    assert(p.skip(i)[0] == t.skip(i)[0]);
                }
                if p[i] == t[i] && p.skip(i + 1) == t.skip(i + 1) {
                    assert(p.skip(i).len() == t.skip(i).len());
                    assert forall|k: int| 0 <= k < p.skip(i).len() implies p.skip(i)[k] == t.skip(i)[k] by {
                        if k > 0 {
                            assert(p.skip(i)[k] == p.skip(i + 1)[k - 1]);
                            assert(t.skip(i)[k] == t.skip(i + 1)[k - 1]);
                        }
                    }
                    assert(p.skip(i) =~= t.skip(i));
                }
            } else {
                assert(t.skip(i).len() == 0);
            }
        } else {
            if t.skip(i) == p.skip(i) {
                assert(t.skip(i).len() == 0);
            }
            if i == t.len() {
                assert(p.skip(i) =~= t.skip(i));
            }
        }
    }
}

} // verus!
