//! Path text as furet stores it: Windows paths, either separator
//! accepted, split into a last segment and its parent without disk access.
use vstd::prelude::*;

use crate::text;

verus! {

/// The canonical description of a directory.
#[derive(Debug, Clone, PartialEq, Eq)]
pub struct CanonicalDir {
    /// Canonical displayable path: no `\\?\` prefix, no trailing separator.
    pub path: String,
    /// The canonical path lowercased, used as the storage comparison key.
    pub key: String,
    /// Last path segment; empty for a drive root.
    pub name: String,
    /// Everything before the last segment; `None` for a drive root.
    pub folder: Option<String>,
}

/// The name/folder split of a path string, derived without disk access.
#[derive(Debug, Clone, PartialEq, Eq)]
pub struct SplitPath {
    /// Last path segment; empty for a root.
    pub name: String,
    /// Parent path; `None` when the path has no parent.
    pub folder: Option<String>,
}

/// A path separator on Windows: `\` or `/`.
pub open spec fn is_sep(c: char) -> bool {
    c == '\\' || c == '/'
}

pub open spec fn is_ascii_letter(c: char) -> bool {
    ('a' <= c && c <= 'z') || ('A' <= c && c <= 'Z')
}

/// `s` starts with the verbatim prefix `\\?\`, written with backslashes
/// only.
pub open spec fn verbatim(s: Seq<char>) -> bool {
    s.len() >= 4 && s[0] == '\\' && s[1] == '\\' && s[2] == '?' && s[3] == '\\'
}

/// A separator of `s`: only `\` in a verbatim path, `\` or `/` otherwise.
pub open spec fn sep_in(s: Seq<char>, c: char) -> bool {
    if verbatim(s) {
        c == '\\'
    } else {
        is_sep(c)
    }
}

/// The first position at or after `i` holding a separator (only `\` when
/// `backslash_only`), or the length of `s`.
pub open spec fn next_sep(s: Seq<char>, i: nat, backslash_only: bool) -> nat
    decreases s.len() - i,
{
    if i >= s.len() {
        s.len()
    } else if (if backslash_only { s[i as int] == '\\' } else { is_sep(s[i as int]) }) {
        i
    } else {
        next_sep(s, i + 1, backslash_only)
    }
}

/// `s` starts with two separators.
pub open spec fn double_sep(s: Seq<char>) -> bool {
    s.len() >= 2 && is_sep(s[0]) && is_sep(s[1])
}

/// The length of the Windows prefix of `s`, 0 when it has none: `\\?\UNC\`
/// with a server and share, `\\?\` with a drive, `\\?\` with one
/// component, `\\.\` with a device, `\\` with a non-empty server and share,
/// or a drive letter and `:`.
pub open spec fn prefix_len(s: Seq<char>) -> nat {
    if double_sep(s) {
        if verbatim(s) {
            if s.len() >= 8 && s[4] == 'U' && s[5] == 'N' && s[6] == 'C' && is_sep(s[7]) {
                let a = next_sep(s, 8, true);
                if a < s.len() && next_sep(s, a + 1, true) > a + 1 {
                    next_sep(s, a + 1, true)
                } else {
                    a
                }
            } else if s.len() >= 6 && is_ascii_letter(s[4]) && s[5] == ':' && (s.len() == 6 || s[6] == '\\') {
                6
            } else {
                next_sep(s, 4, true)
            }
        } else if s.len() >= 4 && s[2] == '.' && is_sep(s[3]) {
            next_sep(s, 4, false)
        } else {
            let a = next_sep(s, 2, false);
            if a > 2 && a < s.len() && next_sep(s, a + 1, false) > a + 1 {
                next_sep(s, a + 1, false)
            } else {
                0
            }
        }
    } else if s.len() >= 2 && is_ascii_letter(s[0]) && s[1] == ':' {
        2
    } else {
        0
    }
}

/// The prefix of `s` is a drive letter alone, which carries no root of
/// its own.
pub open spec fn disk_prefix(s: Seq<char>) -> bool {
    !double_sep(s) && prefix_len(s) == 2
}

/// Length of the part of `s` no segment can start in: the prefix, then the
/// root separator when there is one.
pub open spec fn head_len(s: Seq<char>) -> nat {
    let p = prefix_len(s);
    if s.len() > p && sep_in(s, s[p as int]) { p + 1 } else { p }
}

/// `s` has a root: a separator after its prefix, or a prefix other than a
/// drive letter alone.
pub open spec fn has_root(s: Seq<char>) -> bool {
    head_len(s) > prefix_len(s) || (prefix_len(s) > 0 && !disk_prefix(s))
}

/// 1 when `s` has no root and its first component after the prefix is `.`,
/// which then counts as a component of its own; 0 otherwise.
pub open spec fn cur_dir_len(s: Seq<char>) -> nat {
    let p = prefix_len(s);
    if !has_root(s) && s.len() > p && s[p as int] == '.' && (s.len() == p + 1 || sep_in(s, s[p + 1 as int])) {
        1
    } else {
        0
    }
}

/// Where the components after the prefix, root and leading `.` start.
pub open spec fn body_start(s: Seq<char>) -> nat {
    head_len(s) + cur_dir_len(s)
}

/// `k` moved left past the separators just before it, never below `lo`.
pub open spec fn trim_end(s: Seq<char>, lo: nat, k: nat) -> nat
    decreases k,
{
    if k > lo && k <= s.len() && sep_in(s, s[k - 1]) {
        trim_end(s, lo, (k - 1) as nat)
    } else {
        k
    }
}

/// `k` moved left past the non-separators just before it, never below `lo`:
/// the start of the segment that ends at `k`.
pub open spec fn segment_start(s: Seq<char>, lo: nat, k: nat) -> nat
    decreases k,
{
    if k > lo && k <= s.len() && !sep_in(s, s[k - 1]) {
        segment_start(s, lo, (k - 1) as nat)
    } else {
        k
    }
}

/// Trimming separators never moves right.
pub proof fn lemma_trim_end_le(s: Seq<char>, lo: nat, k: nat)
    ensures
        trim_end(s, lo, k) <= k,
    decreases k,
{
    if k > lo && k <= s.len() && sep_in(s, s[k - 1]) {
        lemma_trim_end_le(s, lo, (k - 1) as nat);
    }
}

/// A segment never starts after its end.
pub proof fn lemma_segment_start_le(s: Seq<char>, lo: nat, k: nat)
    ensures
        segment_start(s, lo, k) <= k,
    decreases k,
{
    if k > lo && k <= s.len() && !sep_in(s, s[k - 1]) {
        lemma_segment_start_le(s, lo, (k - 1) as nat);
    }
}

/// `k` moved left past trailing separators and, outside verbatim paths,
/// past `.` components, which Windows path parsing skips; never below `lo`.
pub open spec fn body_end(s: Seq<char>, lo: nat, k: nat) -> nat
    decreases k,
{
    let t = trim_end(s, lo, k);
    let st = segment_start(s, lo, t);
    proof {
        lemma_trim_end_le(s, lo, k);
        lemma_segment_start_le(s, lo, t);
    }
    if t > lo && t <= s.len() && !verbatim(s) && st + 1 == t && s[st as int] == '.' {
        body_end(s, lo, st)
    } else {
        t
    }
}

/// The end of the last component of `s`; equal to `body_start(s)` when `s`
/// has none after its prefix, root and leading `.`.
pub open spec fn last_end(s: Seq<char>) -> nat {
    body_end(s, body_start(s), s.len())
}

/// The last component of `s`, or the empty text when it has none or it is
/// `..` (or `.` in a verbatim path): what `Path::file_name` gives on
/// Windows.
pub open spec fn name_of(s: Seq<char>) -> Seq<char> {
    let lo = body_start(s);
    let e = last_end(s);
    let st = segment_start(s, lo, e);
    let seg = s.subrange(st as int, e as int);
    if e == lo || seg == seq!['.', '.'] || (verbatim(s) && seg == seq!['.']) {
        seq![]
    } else {
        seg
    }
}

/// `s` without its last component, trailing separators and skipped `.`
/// components, keeping the prefix and root; `None` when `s` has no
/// component but its prefix and root: what `Path::parent` gives on Windows.
pub open spec fn folder_of(s: Seq<char>) -> Option<Seq<char>> {
    let lo = body_start(s);
    let e = last_end(s);
    if e == lo {
        if cur_dir_len(s) == 1 {
            Some(s.subrange(0, prefix_len(s) as int))
        } else {
            None
        }
    } else {
        Some(s.subrange(0, body_end(s, lo, segment_start(s, lo, e)) as int))
    }
}

proof fn lemma_trim_end(s: Seq<char>, lo: nat, k: nat)
    requires
        lo <= k <= s.len(),
    ensures
        lo <= trim_end(s, lo, k) <= k,
        trim_end(s, lo, k) > lo ==> !sep_in(s, s[trim_end(s, lo, k) - 1]),
    decreases k,
{
    if k > lo && sep_in(s, s[k - 1]) {
        lemma_trim_end(s, lo, (k - 1) as nat);
    }
}

proof fn lemma_segment_start(s: Seq<char>, lo: nat, k: nat)
    requires
        lo <= k <= s.len(),
    ensures
        lo <= segment_start(s, lo, k) <= k,
        k > lo && !sep_in(s, s[k - 1]) ==> segment_start(s, lo, k) < k,
    decreases k,
{
    if k > lo && !sep_in(s, s[k - 1]) {
        lemma_segment_start(s, lo, (k - 1) as nat);
    }
}

proof fn lemma_body_end(s: Seq<char>, lo: nat, k: nat)
    requires
        lo <= k <= s.len(),
    ensures
        lo <= body_end(s, lo, k) <= k,
        body_end(s, lo, k) > lo ==> !sep_in(s, s[body_end(s, lo, k) - 1]),
    decreases k,
{
    lemma_trim_end(s, lo, k);
    let t = trim_end(s, lo, k);
    lemma_segment_start(s, lo, t);
    let st = segment_start(s, lo, t);
    if t > lo && !verbatim(s) && st + 1 == t && s[st as int] == '.' {
        lemma_body_end(s, lo, st);
    }
}

proof fn lemma_next_sep(s: Seq<char>, i: nat, b: bool)
    requires
        i <= s.len(),
    ensures
        i <= next_sep(s, i, b) <= s.len(),
    decreases s.len() - i,
{
    if i < s.len() {
        lemma_next_sep(s, i + 1, b);
    }
}

proof fn lemma_head_len(s: Seq<char>)
    ensures
        prefix_len(s) <= head_len(s) <= s.len(),
        body_start(s) <= s.len(),
{
    if s.len() >= 8 {
        lemma_next_sep(s, 8, true);
        let a = next_sep(s, 8, true);
        if a < s.len() {
            lemma_next_sep(s, a + 1, true);
        }
    }
    if s.len() >= 4 {
        lemma_next_sep(s, 4, true);
        lemma_next_sep(s, 4, false);
    }
    if s.len() >= 2 {
        lemma_next_sep(s, 2, false);
        let a = next_sep(s, 2, false);
        if a < s.len() {
            lemma_next_sep(s, a + 1, false);
        }
    }
}

/// A path with a parent is strictly longer than that parent.
pub proof fn lemma_folder_shorter(s: Seq<char>)
    ensures
        folder_of(s) matches Some(f) ==> f.len() < s.len(),
{
    lemma_head_len(s);
    let lo = body_start(s);
    lemma_body_end(s, lo, s.len());
    let e = last_end(s);
    if e != lo {
        lemma_segment_start(s, lo, e);
        lemma_body_end(s, lo, segment_start(s, lo, e));
    }
}

fn sep(c: char) -> (r: bool)
    ensures
        r == is_sep(c),
{
    c == '\\' || c == '/'
}

fn is_verbatim(s: &[char]) -> (r: bool)
    ensures
        r == verbatim(s@),
{
    s.len() >= 4 && s[0] == '\\' && s[1] == '\\' && s[2] == '?' && s[3] == '\\'
}

fn sep_of(s: &[char], c: char) -> (r: bool)
    ensures
        r == sep_in(s@, c),
{
    if is_verbatim(s) {
        c == '\\'
    } else {
        sep(c)
    }
}

fn sep_kind(c: char, backslash_only: bool) -> (r: bool)
    ensures
        r == (if backslash_only { c == '\\' } else { is_sep(c) }),
{
    if backslash_only {
        c == '\\'
    } else {
        sep(c)
    }
}

fn next_sep_at(s: &[char], i: usize, backslash_only: bool) -> (r: usize)
    requires
        i <= s@.len(),
    ensures
        r == next_sep(s@, i as nat, backslash_only),
{
    let mut j = i;
    while j < s.len() && !sep_kind(s[j], backslash_only)
        invariant
            i <= j <= s@.len(),
            next_sep(s@, i as nat, backslash_only) == next_sep(s@, j as nat, backslash_only),
        decreases s@.len() - j,
    {
        j += 1;
    }
    j
}

fn letter(c: char) -> (r: bool)
    ensures
        r == is_ascii_letter(c),
{
    ('a' <= c && c <= 'z') || ('A' <= c && c <= 'Z')
}

fn prefix(s: &[char]) -> (r: usize)
    ensures
        r == prefix_len(s@),
{
    proof {
        lemma_head_len(s@);
    }
    if s.len() >= 2 && sep(s[0]) && sep(s[1]) {
        if is_verbatim(s) {
            if s.len() >= 8 && s[4] == 'U' && s[5] == 'N' && s[6] == 'C' && sep(s[7]) {
                let a = next_sep_at(s, 8, true);
                if a < s.len() {
                    let b = next_sep_at(s, a + 1, true);
                    if b > a + 1 {
                        return b;
                    }
                }
                a
            } else if s.len() >= 6 && letter(s[4]) && s[5] == ':' && (s.len() == 6 || s[6] == '\\') {
                6
            } else {
                next_sep_at(s, 4, true)
            }
        } else if s.len() >= 4 && s[2] == '.' && sep(s[3]) {
            next_sep_at(s, 4, false)
        } else {
            let a = next_sep_at(s, 2, false);
            if a > 2 && a < s.len() {
                let b = next_sep_at(s, a + 1, false);
                if b > a + 1 {
                    return b;
                }
            }
            0
        }
    } else if s.len() >= 2 && letter(s[0]) && s[1] == ':' {
        2
    } else {
        0
    }
}

/// The prefix length, the head length and where the body of `s` starts.
fn body_bounds(s: &[char]) -> (r: (usize, usize, usize))
    ensures
        r.0 == prefix_len(s@),
        r.1 == head_len(s@),
        r.2 == body_start(s@),
{
    proof {
        lemma_head_len(s@);
    }
    let p = prefix(s);
    let h = if s.len() > p && sep_of(s, s[p]) {
        p + 1
    } else {
        p
    };
    let disk = !(s.len() >= 2 && sep(s[0]) && sep(s[1])) && p == 2;
    let rooted = h > p || (p > 0 && !disk);
    let cur = !rooted && s.len() > p && s[p] == '.' && (s.len() == p + 1 || sep_of(s, s[p + 1]));
    (p, h, if cur { h + 1 } else { h })
}

fn trim_end_at(s: &[char], lo: usize, k: usize) -> (r: usize)
    requires
        lo <= k <= s@.len(),
    ensures
        r == trim_end(s@, lo as nat, k as nat),
{
    let mut j = k;
    while j > lo && sep_of(s, s[j - 1])
        invariant
            lo <= j <= k,
            k <= s@.len(),
            trim_end(s@, lo as nat, k as nat) == trim_end(s@, lo as nat, j as nat),
        decreases j,
    {
        j -= 1;
    }
    j
}

fn segment_start_at(s: &[char], lo: usize, k: usize) -> (r: usize)
    requires
        lo <= k <= s@.len(),
    ensures
        r == segment_start(s@, lo as nat, k as nat),
{
    let mut j = k;
    while j > lo && !sep_of(s, s[j - 1])
        invariant
            lo <= j <= k,
            k <= s@.len(),
            segment_start(s@, lo as nat, k as nat) == segment_start(s@, lo as nat, j as nat),
        decreases j,
    {
        j -= 1;
    }
    j
}

fn body_end_at(s: &[char], lo: usize, k: usize) -> (r: usize)
    requires
        lo <= k <= s@.len(),
    ensures
        r == body_end(s@, lo as nat, k as nat),
{
    let verb = is_verbatim(s);
    let mut j = k;
    loop
        invariant
            lo <= j <= k,
            k <= s@.len(),
            verb == verbatim(s@),
            body_end(s@, lo as nat, k as nat) == body_end(s@, lo as nat, j as nat),
        decreases j,
    {
        let t = trim_end_at(s, lo, j);
        proof {
            lemma_trim_end(s@, lo as nat, j as nat);
        }
        let st = segment_start_at(s, lo, t);
        proof {
            lemma_segment_start(s@, lo as nat, t as nat);
        }
        if t > lo && !verb && st + 1 == t && s[st] == '.' {
            j = st;
        } else {
            return t;
        }
    }
}

fn slice_string(s: &[char], from: usize, to: usize) -> (r: String)
    requires
        from <= to <= s@.len(),
    ensures
        r@ == s@.subrange(from as int, to as int),
{
    let mut out: Vec<char> = Vec::new();
    let mut i = from;
    while i < to
        invariant
            from <= i <= to,
            to <= s@.len(),
            out@ == s@.subrange(from as int, i as int),
        decreases to - i,
    {
        out.push(s[i]);
        assert(s@.subrange(from as int, i + 1) =~= s@.subrange(from as int, i as int).push(s@[i as int]));
        i += 1;
    }
    text::string_of(&out)
}

/// `split` on characters.
pub fn split_chars(s: &[char]) -> (r: SplitPath)
    ensures
        r.name@ == name_of(s@),
        match r.folder {
            Some(f) => folder_of(s@) == Some(f@),
            None => folder_of(s@) is None,
        },
{
    let (p, h, lo) = body_bounds(s);
    proof {
        lemma_head_len(s@);
    }
    let e = body_end_at(s, lo, s.len());
    proof {
        lemma_body_end(s@, lo as nat, s@.len());
    }
    if e == lo {
        let folder = if lo > h {
            Some(slice_string(s, 0, p))
        } else {
            None
        };
        return SplitPath { name: String::new(), folder };
    }
    let st = segment_start_at(s, lo, e);
    proof {
        lemma_segment_start(s@, lo as nat, e as nat);
    }
    let seg = slice_string(s, st, e);
    let dots = e - st == 2 && s[st] == '.' && s[st + 1] == '.';
    let dot = is_verbatim(s) && e - st == 1 && s[st] == '.';
    proof {
        if dots {
            assert(seg@ =~= seq!['.', '.']);
        }
        if seg@ == seq!['.', '.'] {
            assert(seq!['.', '.'].len() == 2);
            assert(seq!['.', '.'][0] == '.' && seq!['.', '.'][1] == '.');
            assert(seg@[0] == s@[st as int]);
            assert(seg@[1] == s@[st + 1]);
        }
        if dot {
            assert(seg@ =~= seq!['.']);
        }
        if seg@ == seq!['.'] {
            assert(seq!['.'][0] == '.');
            assert(seg@[0] == s@[st as int]);
        }
    }
    let name = if dots || dot {
        String::new()
    } else {
        seg
    };
    let fe = body_end_at(s, lo, st);
    proof {
        lemma_body_end(s@, lo as nat, st as nat);
    }
    SplitPath { name, folder: Some(slice_string(s, 0, fe)) }
}

/// Splits a path string into its last segment and its parent, as Windows
/// path parsing does.
pub fn split(path: &str) -> (r: SplitPath)
    ensures
        r.name@ == name_of(path@),
        match r.folder {
            Some(f) => folder_of(path@) == Some(f@),
            None => folder_of(path@) is None,
        },
{
    let chars = text::chars_of(path);
    split_chars(chars.as_slice())
}

/// `/` replaced by `\`, every other character kept.
pub open spec fn unified(s: Seq<char>) -> Seq<char> {
    s.map_values(|c: char| if c == '/' { '\\' } else { c })
}

/// Replaces every `/` of `input` by `\`.
pub fn unify_separators(input: &str) -> (r: String)
    ensures
        r@ == unified(input@),
{
    let chars = text::chars_of(input);
    let mut out: Vec<char> = Vec::new();
    let mut i: usize = 0;
    while i < chars.len()
        invariant
            i <= chars@.len(),
            chars@ == input@,
            out@ == unified(chars@.take(i as int)),
        decreases chars@.len() - i,
    {
        let c = chars[i];
        out.push(if c == '/' { '\\' } else { c });
        assert(unified(chars@.take(i + 1)) =~= unified(chars@.take(i as int)).push(if c == '/' { '\\' } else { c }));
        i += 1;
    }
    assert(chars@.take(i as int) =~= chars@);
    text::string_of(&out)
}

/// How many bytes UTF-8 takes for `c`.
pub open spec fn utf8_width(c: char) -> nat {
    if (c as u32) < 0x80 {
        1
    } else if (c as u32) < 0x800 {
        2
    } else if (c as u32) < 0x10000 {
        3
    } else {
        4
    }
}

/// The UTF-8 length of `s` in bytes, which `str::len` reports.
pub open spec fn utf8_len(s: Seq<char>) -> nat
    decreases s.len(),
{
    if s.len() == 0 {
        0
    } else {
        utf8_len(s.drop_last()) + utf8_width(s.last())
    }
}

/// `s` without its trailing `\`s, stopping once it is no longer than three
/// bytes, so a drive root such as `c:\` keeps its separator.
pub open spec fn stripped(s: Seq<char>) -> Seq<char>
    decreases s.len(),
{
    if utf8_len(s) > 3 && s.len() > 0 && s.last() == '\\' {
        stripped(s.drop_last())
    } else {
        s
    }
}

fn width(c: char) -> (r: usize)
    ensures
        r == utf8_width(c),
{
    let code = c as u32;
    if code < 0x80 {
        1
    } else if code < 0x800 {
        2
    } else if code < 0x10000 {
        3
    } else {
        4
    }
}

proof fn lemma_utf8_len_bound(s: Seq<char>)
    ensures
        s.len() <= utf8_len(s) <= 4 * s.len(),
    decreases s.len(),
{
    if s.len() > 0 {
        lemma_utf8_len_bound(s.drop_last());
    }
}

/// Whether the first `end` characters of `s` take more than three bytes.
fn over_three_bytes(s: &[char], end: usize) -> (r: bool)
    requires
        end <= s@.len(),
    ensures
        r == (utf8_len(s@.take(end as int)) > 3),
{
    proof {
        lemma_utf8_len_bound(s@.take(end as int));
    }
    if end >= 4 {
        return true;
    }
    let mut bytes: usize = 0;
    let mut i: usize = 0;
    while i < end
        invariant
            i <= end < 4,
            end <= s@.len(),
            bytes == utf8_len(s@.take(i as int)),
            bytes <= 4 * i,
        decreases end - i,
    {
        assert(s@.take(i + 1).drop_last() =~= s@.take(i as int));
        bytes = bytes + width(s[i]);
        i += 1;
    }
    bytes > 3
}

/// Drops trailing `\`s while the text stays longer than three bytes.
pub fn strip_trailing_separator(text: String) -> (r: String)
    ensures
        r@ == stripped(text@),
{
    let chars = text::chars_of(text.as_str());
    let mut end: usize = chars.len();
    assert(chars@.take(end as int) =~= chars@);
    while end > 0 && chars[end - 1] == '\\' && over_three_bytes(chars.as_slice(), end)
        invariant
            end <= chars@.len(),
            chars@ == text@,
            stripped(text@) == stripped(chars@.take(end as int)),
        decreases end,
    {
        assert(chars@.take(end as int).drop_last() =~= chars@.take(end - 1));
        end -= 1;
    }
    let r = slice_string(chars.as_slice(), 0, end);
    assert(chars@.subrange(0, end as int) =~= chars@.take(end as int));
    r
}

/// The canonical description of a directory whose canonicalized path text
/// is `raw`: the text without trailing separators, its lowercased key, and
/// its last segment and parent.
pub fn canonical_dir(raw: &str) -> (r: CanonicalDir)
    ensures
        r.path@ == stripped(raw@),
        r.key@ == text::lower_str(stripped(raw@)),
        r.name@ == name_of(stripped(raw@)),
        match r.folder {
            Some(f) => folder_of(stripped(raw@)) == Some(f@),
            None => folder_of(stripped(raw@)) is None,
        },
{
    let owned: String = raw.to_owned();
    let path = strip_trailing_separator(owned);
    let parts = split(path.as_str());
    CanonicalDir { key: text::to_lowercase_str(path.as_str()), path, name: parts.name, folder: parts.folder }
}

/// A Windows absolute path: one with a prefix and a root, such as `c:\`,
/// `\\server\share` or `\\?\c:\`.
pub open spec fn absolute_of(s: Seq<char>) -> bool {
    prefix_len(s) > 0 && has_root(s)
}

/// Whether `path` is absolute on Windows.
pub fn is_absolute(path: &str) -> (r: bool)
    ensures
        r == absolute_of(path@),
{
    let s = text::chars_of(path);
    let (p, h, _) = body_bounds(s.as_slice());
    let disk = !(s.len() >= 2 && sep(s[0]) && sep(s[1])) && p == 2;
    p > 0 && (h > p || !disk)
}

/// `rel` anchored at `base`: kept as is when absolute, else appended to
/// `base` with one `\` between them.
pub open spec fn joined(base: Seq<char>, rel: Seq<char>) -> Seq<char> {
    if absolute_of(rel) || base.len() == 0 {
        rel
    } else if is_sep(base.last()) {
        base + rel
    } else {
        base + seq!['\\'] + rel
    }
}

/// The lexical key of a user-supplied path that may not exist on disk:
/// separators unified, anchored at `base` when relative, trailing
/// separators dropped, lowercased. `.` and `..` segments are kept as typed.
pub open spec fn absolute_key_of(pattern: Seq<char>, base: Seq<char>) -> Seq<char> {
    text::lower_str(stripped(joined(base, unified(pattern))))
}

/// Computes `absolute_key_of` without touching the disk.
pub fn absolute_key(pattern: &str, base: &str) -> (r: String)
    ensures
        r@ == absolute_key_of(pattern@, base@),
{
    let rel = unify_separators(pattern);
    let base_chars = text::chars_of(base);
    let anchored: String = if is_absolute(rel.as_str()) || base_chars.len() == 0 {
        rel
    } else {
        let mut out: Vec<char> = base_chars.clone();
        if !sep(base_chars[base_chars.len() - 1]) {
            out.push('\\');
        }
        text::push_str(&mut out, rel.as_str());
        text::string_of(&out)
    };
    assert(anchored@ =~= joined(base@, unified(pattern@)));
    let trimmed = strip_trailing_separator(anchored);
    text::to_lowercase_str(trimmed.as_str())
}

/// A stripped path keeps a trailing `\` only when it is three bytes or
/// shorter, as a drive root such as `c:\` is.
pub proof fn lemma_stripped_has_no_trailing_separator(s: Seq<char>)
    ensures
        utf8_len(stripped(s)) > 3 && stripped(s).len() > 0 ==> stripped(s).last() != '\\',
    decreases s.len(),
{
    if utf8_len(s) > 3 && s.len() > 0 && s.last() == '\\' {
        lemma_stripped_has_no_trailing_separator(s.drop_last());
    }
}

/// After unifying, no `/` is left, and unifying again changes nothing.
pub proof fn lemma_unified_idempotent(s: Seq<char>)
    ensures
        !unified(s).contains('/'),
        unified(unified(s)) == unified(s),
{
    assert(unified(unified(s)) =~= unified(s));
}

} // verus!
