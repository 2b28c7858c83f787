//! The decisions the command-line front end takes around the engine: which
//! stored rows become candidates, how lists are ordered and printed, what a
//! query journals, and how standard input splits into lines.
use vstd::prelude::*;

use crate::calibration::FailureReason;
use crate::clock::Timestamp;
use crate::decision::Decision;
use crate::paths;
use crate::rank::{self, Candidate, Scored, Stage};
use crate::remove::{self, Target};
use crate::storage::DirEntry;
use crate::text;

verus! {

/// Seconds in one day of retention.
pub const SECONDS_PER_DAY: i64 = 86_400;

/// The session fallback visits are recorded under, distinct from any real
/// shell session so `back` never sees them.
pub const FALLBACK_SESSION: &'static str = "fallback";

/// What triggered a visit.
#[derive(Debug, Clone, Copy, PartialEq, Eq, Structural)]
pub enum Source {
    Hook,
    Jump,
    Back,
    Up,
    Fallback,
    Import,
}

pub open spec fn source_name(s: Source) -> Seq<char> {
    match s {
        Source::Hook => "hook"@,
        Source::Jump => "jump"@,
        Source::Back => "back"@,
        Source::Up => "up"@,
        Source::Fallback => "fallback"@,
        Source::Import => "import"@,
    }
}

impl Source {
    /// The name stored in the `visits.source` column.
    pub fn as_str(self) -> (r: &'static str)
        ensures
            r@ == source_name(self),
    {
        match self {
            Source::Hook => "hook",
            Source::Jump => "jump",
            Source::Back => "back",
            Source::Up => "up",
            Source::Fallback => "fallback",
            Source::Import => "import",
        }
    }
}

/// Some exclusion target selects `path`.
pub open spec fn excluded(exclude: Seq<Target>, path: Seq<char>) -> bool {
    exists|i: int| 0 <= i < exclude.len() && remove::selects(#[trigger] exclude[i], path)
}

/// Whether any of the `exclude_dirs` targets selects `path`.
pub fn is_excluded(exclude: &[Target], path: &str) -> (r: bool)
    ensures
        r == excluded(exclude@, path@),
{
    let mut i: usize = 0;
    while i < exclude.len()
        invariant
            i <= exclude@.len(),
            forall|j: int| 0 <= j < i ==> !remove::selects(#[trigger] exclude@[j], path@),
        decreases exclude@.len() - i,
    {
        if remove::matches(&exclude[i], path) {
            return true;
        }
        i += 1;
    }
    false
}

/// The instant before which history is purged: `days` before `now`,
/// saturating at the earliest representable instant.
pub open spec fn cutoff_of(now: int, days: int) -> int {
    let c = now - days * SECONDS_PER_DAY;
    if c < i64::MIN { i64::MIN as int } else { c }
}

/// The retention cutoff for `days` of history kept.
pub fn retention_cutoff(now: Timestamp, days: u32) -> (r: Timestamp)
    ensures
        r.seconds() == cutoff_of(now.seconds() as int, days as int),
{
    let span: i64 = days as i64 * SECONDS_PER_DAY;
    let seconds = now.unix_seconds();
    let cut: i64 = if seconds < i64::MIN + span {
        i64::MIN
    } else {
        seconds - span
    };
    Timestamp::from_unix_seconds(cut)
}

/// What a query prints once it has a ranking.
#[derive(Debug, Clone, Copy, PartialEq, Eq, Structural)]
pub enum QueryOutput {
    /// The `--explain` report, on standard error.
    Report,
    /// The ranked paths, one per line (`--list`).
    Lines,
    /// The decision rule's jump or menu.
    Decision,
}

/// How `furet query` proceeds for a query and its flags.
#[derive(Debug, Clone, Copy, PartialEq, Eq, Structural)]
pub struct QueryPlan {
    /// Print the project root and stop, before the database is opened.
    pub root_only: bool,
    /// Check every stored row on disk before ranking, rather than only the
    /// rows the query matched, after ranking.
    pub check_all: bool,
    /// List every known directory by recency instead of ranking.
    pub recency: bool,
    /// Walk the disk when no stored directory matches.
    pub may_fall_back: bool,
    /// What a ranked query prints.
    pub output: QueryOutput,
}

impl QueryPlan {
    /// Whether the query walks the disk instead: it may, and no stored
    /// directory ranked.
    pub fn falls_back<'a>(&self, ranked: &[Scored<'a>]) -> (r: bool)
        ensures
            r == (self.may_fall_back && ranked@.len() == 0),
    {
        self.may_fall_back && ranked.len() == 0
    }
}

/// The plan for a query that is blank or not and the `--list`,
/// `--explain` and `--local` flags.
pub open spec fn query_plan_of(blank: bool, list: bool, explain: bool, local: bool) -> QueryPlan {
    QueryPlan {
        root_only: local && blank && !list && !explain,
        check_all: explain || blank,
        recency: list && blank,
        may_fall_back: !blank,
        output: if explain {
            QueryOutput::Report
        } else if list {
            QueryOutput::Lines
        } else {
            QueryOutput::Decision
        },
    }
}

/// Decides how `furet query` runs: a blank query (only whitespace) with
/// `--local` alone prints the project root; a blank query, or `--explain`,
/// checks every stored row on disk first; a blank query with `--list`
/// lists by recency; only a non-blank query may fall back to the disk walk;
/// `--explain` prints the report, else `--list` the ranked lines, else the
/// decision applies.
pub fn query_plan(query: &str, list: bool, explain: bool, local: bool) -> (r: QueryPlan)
    ensures
        r == query_plan_of(text::trim_of(query@).len() == 0, list, explain, local),
{
    let chars = text::chars_of(query);
    let blank = text::trim(chars.as_slice()).len() == 0;
    let output = if explain {
        QueryOutput::Report
    } else if list {
        QueryOutput::Lines
    } else {
        QueryOutput::Decision
    };
    QueryPlan {
        root_only: local && blank && !list && !explain,
        check_all: explain || blank,
        recency: list && blank,
        may_fall_back: !blank,
        output,
    }
}

/// The `outcome` a journaled query records for a decision.
pub open spec fn outcome_of(decision: Decision) -> Seq<char> {
    match decision {
        Decision::NoMatch => "none"@,
        Decision::Jump(_) => "jump"@,
        Decision::Menu(_) => "menu"@,
    }
}

/// The `outcome` column of the query journal for `decision`.
pub fn outcome_label(decision: &Decision) -> (r: &'static str)
    ensures
        r@ == outcome_of(*decision),
{
    match decision {
        Decision::NoMatch => "none",
        Decision::Jump(_) => "jump",
        Decision::Menu(_) => "menu",
    }
}

/// The ranked entries whose path is not among `missing`, in rank order.
pub open spec fn present_only<'a>(ranked: Seq<Scored<'a>>, missing: Seq<Seq<char>>) -> Seq<Scored<'a>>
    decreases ranked.len(),
{
    if ranked.len() == 0 {
        seq![]
    } else if missing.contains(ranked.last().candidate.path@) {
        present_only(ranked.drop_last(), missing)
    } else {
        present_only(ranked.drop_last(), missing).push(ranked.last())
    }
}

/// Drops from a ranking the entries whose directory the disk check found
/// missing, keeping the others in rank order.
pub fn without_missing<'a>(ranked: &[Scored<'a>], missing: &[String]) -> (r: Vec<Scored<'a>>)
    ensures
        r@ == present_only(ranked@, missing@.map_values(|m: String| m@)),
{
    let ghost gone = missing@.map_values(|m: String| m@);
    let mut kept: Vec<Scored<'a>> = Vec::new();
    let mut i: usize = 0;
    while i < ranked.len()
        invariant
            i <= ranked@.len(),
            gone == missing@.map_values(|m: String| m@),
            kept@ == present_only(ranked@.take(i as int), gone),
        decreases ranked@.len() - i,
    {
        let scored = ranked[i];
        let mut found = false;
        let mut j: usize = 0;
        while j < missing.len()
            invariant
                j <= missing@.len(),
                gone == missing@.map_values(|m: String| m@),
                found == exists|q: int| 0 <= q < j && gone[q] == scored.candidate.path@,
            decreases missing@.len() - j,
        {
            assert(gone[j as int] == missing@[j as int]@);
            if text::same_str(missing[j].as_str(), scored.candidate.path.as_str()) {
                found = true;
            }
            j += 1;
        }
        proof {
            assert(ranked@.take(i + 1).drop_last() =~= ranked@.take(i as int));
            assert(ranked@.take(i + 1).last() == scored);
            if gone.contains(scored.candidate.path@) {
                let q = choose|q: int| 0 <= q < gone.len() && gone[q] == scored.candidate.path@;
                assert(found);
            }
        }
        if !found {
            kept.push(scored);
        }
        i += 1;
    }
    assert(ranked@.take(i as int) =~= ranked@);
    kept
}

/// The paths of the ranked entries.
pub open spec fn ranked_paths<'a>(ranked: Seq<Scored<'a>>) -> Seq<Seq<char>> {
    ranked.map_values(|s: Scored<'a>| s.candidate.path@)
}

/// The stored rows whose path is the path of a ranked entry, in their order.
pub open spec fn rows_ranked(entries: Seq<DirEntry>, paths: Seq<Seq<char>>) -> Seq<DirEntry>
    decreases entries.len(),
{
    if entries.len() == 0 {
        seq![]
    } else if paths.contains(entries.last().path@) {
        rows_ranked(entries.drop_last(), paths).push(entries.last())
    } else {
        rows_ranked(entries.drop_last(), paths)
    }
}

/// The stored rows a query checks on disk once ranked: those of the
/// directories it ranked.
pub fn rows_to_check<'a>(entries: Vec<DirEntry>, ranked: &[Scored<'a>]) -> (r: Vec<DirEntry>)
    ensures
        r@ == rows_ranked(entries@, ranked_paths(ranked@)),
{
    let ghost paths = ranked_paths(ranked@);
    let mut kept: Vec<DirEntry> = Vec::new();
    let mut rest = entries;
    let ghost all = rest@;
    let total = rest.len();
    assert(all.len() == total);
    let mut i: usize = 0;
    assert(all.take(0) =~= Seq::<DirEntry>::empty());
    assert(rest@ =~= all.skip(0));
    while rest.len() > 0
        invariant
            i <= all.len(),
            all.len() <= usize::MAX,
            rest@ == all.skip(i as int),
            paths == ranked_paths(ranked@),
            kept@ == rows_ranked(all.take(i as int), paths),
        decreases rest@.len(),
    {
        let entry = rest.remove(0);
        assert(entry == all[i as int]);
        assert(rest@ =~= all.skip(i + 1));
        assert(all.take(i + 1).drop_last() =~= all.take(i as int));
        assert(all.take(i + 1).last() == entry);
        let mut found = false;
        let mut j: usize = 0;
        while j < ranked.len()
            invariant
                j <= ranked@.len(),
                paths == ranked_paths(ranked@),
                found == exists|q: int| 0 <= q < j && paths[q] == entry.path@,
            decreases ranked@.len() - j,
        {
            assert(paths[j as int] == ranked@[j as int].candidate.path@);
            if text::same_str(ranked[j].candidate.path.as_str(), entry.path.as_str()) {
                found = true;
            }
            j += 1;
        }
        proof {
            if paths.contains(entry.path@) {
                let q = choose|q: int| 0 <= q < paths.len() && paths[q] == entry.path@;
                assert(found);
            }
        }
        if found {
            kept.push(entry);
        }
        i += 1;
    }
    assert(all.take(i as int) =~= all);
    kept
}

/// The paths of the rows the disk check found missing, in their order.
pub open spec fn missing_paths_of(entries: Seq<DirEntry>) -> Seq<Seq<char>>
    decreases entries.len(),
{
    if entries.len() == 0 {
        seq![]
    } else if entries.last().missing {
        missing_paths_of(entries.drop_last()).push(entries.last().path@)
    } else {
        missing_paths_of(entries.drop_last())
    }
}

/// The paths of the checked rows that turned out missing.
pub fn missing_paths(entries: &[DirEntry]) -> (r: Vec<String>)
    ensures
        r@.map_values(|p: String| p@) == missing_paths_of(entries@),
{
    let mut out: Vec<String> = Vec::new();
    let mut i: usize = 0;
    while i < entries.len()
        invariant
            i <= entries@.len(),
            out@.map_values(|p: String| p@) == missing_paths_of(entries@.take(i as int)),
        decreases entries@.len() - i,
    {
        assert(entries@.take(i + 1).drop_last() =~= entries@.take(i as int));
        assert(entries@.take(i + 1).last() == entries@[i as int]);
        let ghost before = out@;
        if entries[i].missing {
            out.push(entries[i].path.clone());
            assert(out@.map_values(|p: String| p@) =~= before.map_values(|p: String| p@).push(entries@[i as int].path@));
        }
        i += 1;
    }
    assert(entries@.take(i as int) =~= entries@);
    out
}

/// The stage a journaled query records: nothing for an empty query, then
/// `fallback`, `menu`, or the stage of the best candidate.
pub open spec fn stage_label_of(query: Seq<char>, is_fallback: bool, decision: Decision, ranked: Seq<Scored>) -> Option<Seq<char>> {
    if text::trim_of(query).len() == 0 {
        None
    } else if is_fallback {
        Some("fallback"@)
    } else if decision is Menu {
        Some("menu"@)
    } else if ranked.len() > 0 && ranked[0].stage == Stage::One {
        Some("1"@)
    } else {
        Some("2"@)
    }
}

/// What stage the query journal records for this outcome; a logged query
/// that did not fall back always reached a ranking with a best candidate.
pub fn query_stage(query: &str, is_fallback: bool, decision: &Decision, ranked: &[Scored]) -> (r: Option<String>)
    requires
        text::trim_of(query@).len() > 0 && !is_fallback && !(*decision is Menu) ==> ranked@.len() > 0,
    ensures
        match r {
            Some(s) => stage_label_of(query@, is_fallback, *decision, ranked@) == Some(s@),
            None => stage_label_of(query@, is_fallback, *decision, ranked@) is None,
        },
{
    let chars = text::chars_of(query);
    if text::trim(chars.as_slice()).len() == 0 {
        return None;
    }
    if is_fallback {
        return Some("fallback".to_owned());
    }
    match decision {
        Decision::Menu(_) => return Some("menu".to_owned()),
        _ => {},
    }
    match ranked[0].stage {
        Stage::One => Some("1".to_owned()),
        Stage::Two => Some("2".to_owned()),
    }
}

pub open spec fn reason_name(reason: FailureReason) -> Seq<char> {
    match reason {
        FailureReason::Backtrack => "backtrack"@,
        FailureReason::MovedElsewhere => "moved"@,
    }
}

/// The word `furet queries --failures` prints for a reason.
pub fn reason_label(reason: FailureReason) -> (r: &'static str)
    ensures
        r@ == reason_name(reason),
{
    match reason {
        FailureReason::Backtrack => "backtrack",
        FailureReason::MovedElsewhere => "moved",
    }
}

/// Fields joined by tabs.
pub open spec fn tab_joined(fields: Seq<Seq<char>>) -> Seq<char>
    decreases fields.len(),
{
    if fields.len() == 0 {
        seq![]
    } else if fields.len() == 1 {
        fields[0]
    } else {
        tab_joined(fields.drop_last()) + seq!['\t'] + fields.last()
    }
}

/// One `furet queries --failures` line: the query's directory, its text,
/// the path it jumped to, and why the jump looks wrong.
pub fn failure_line(cwd: &str, query: &str, result_path: &str, reason: FailureReason) -> (r: String)
    ensures
        r@ == tab_joined(seq![cwd@, query@, result_path@, reason_name(reason)]),
{
    let mut out: Vec<char> = Vec::new();
    text::push_str(&mut out, cwd);
    out.push('\t');
    text::push_str(&mut out, query);
    out.push('\t');
    text::push_str(&mut out, result_path);
    out.push('\t');
    text::push_str(&mut out, reason_label(reason));
    proof {
        let f = seq![cwd@, query@, result_path@, reason_name(reason)];
        assert(f.drop_last().drop_last().drop_last() =~= seq![cwd@]);
        assert(f.drop_last().drop_last() =~= seq![cwd@, query@]);
        assert(f.drop_last() =~= seq![cwd@, query@, result_path@]);
        let t1 = tab_joined(seq![cwd@]);
        assert(t1 == cwd@);
        let t2 = tab_joined(seq![cwd@, query@]);
        assert(seq![cwd@, query@].drop_last() =~= seq![cwd@]);
        assert(t2 == t1 + seq!['\t'] + query@);
        let t3 = tab_joined(seq![cwd@, query@, result_path@]);
        assert(seq![cwd@, query@, result_path@].drop_last() =~= seq![cwd@, query@]);
        assert(t3 == t2 + seq!['\t'] + result_path@);
        assert(tab_joined(f) == t3 + seq!['\t'] + reason_name(reason));
        assert(out@ =~= tab_joined(f));
    }
    text::string_of(&out)
}

proof fn lemma_tab_joined_push(fields: Seq<Seq<char>>, field: Seq<char>)
    requires
        fields.len() > 0,
    ensures
        tab_joined(fields.push(field)) == tab_joined(fields) + seq!['\t'] + field,
{
    assert(fields.push(field).drop_last() =~= fields);
}

pub open spec fn text_or_empty(t: Option<Seq<char>>) -> Seq<char> {
    match t {
        Some(t) => t,
        None => seq![],
    }
}

/// The fields of one `furet list` line: the path, its visit count, its last
/// visit (empty when it has none) and when it was first seen, and with
/// `--all` whether it is `present` or `missing`.
pub open spec fn listing_fields(path: Seq<char>, visits: i64, last_visit: Option<Seq<char>>, first_seen: Seq<char>, all: bool, missing: bool) -> Seq<Seq<char>> {
    let base = seq![path, text::signed_decimal_of(visits as int), text_or_empty(last_visit), first_seen];
    if all {
        base.push(if missing { "missing"@ } else { "present"@ })
    } else {
        base
    }
}

/// One `furet list` line: the path alone with `--paths`, otherwise the
/// tab-separated listing fields.
pub fn listing_line(path: &str, visits: i64, last_visit: Option<&str>, first_seen: &str, all: bool, missing: bool, paths_only: bool) -> (r: String)
    ensures
        r@ == (if paths_only {
            path@
        } else {
            tab_joined(listing_fields(path@, visits, opt_text(last_visit), first_seen@, all, missing))
        }),
{
    let mut out: Vec<char> = Vec::new();
    text::push_str(&mut out, path);
    assert(out@ =~= path@);
    if paths_only {
        return text::string_of(&out);
    }
    let ghost f1 = seq![path@];
    let ghost f2 = f1.push(text::signed_decimal_of(visits as int));
    let ghost f3 = f2.push(text_or_empty(opt_text(last_visit)));
    let ghost f4 = f3.push(first_seen@);
    proof {
        assert(tab_joined(f1) == path@);
        lemma_tab_joined_push(f1, f2.last());
        lemma_tab_joined_push(f2, f3.last());
        lemma_tab_joined_push(f3, f4.last());
        assert(f4 =~= seq![path@, text::signed_decimal_of(visits as int), text_or_empty(opt_text(last_visit)), first_seen@]);
    }
    out.push('\t');
    text::push_signed(&mut out, visits, false);
    assert(out@ =~= tab_joined(f2));
    out.push('\t');
    match last_visit {
        Some(t) => text::push_str(&mut out, t),
        None => {},
    }
    assert(out@ =~= tab_joined(f3));
    out.push('\t');
    text::push_str(&mut out, first_seen);
    assert(out@ =~= tab_joined(f4));
    if all {
        let presence = if missing { "missing" } else { "present" };
        proof {
            lemma_tab_joined_push(f4, presence@);
        }
        out.push('\t');
        text::push_str(&mut out, presence);
        assert(out@ =~= tab_joined(f4.push(presence@)));
    }
    text::string_of(&out)
}

/// The spec view of an optional string slice.
pub open spec fn opt_text(t: Option<&str>) -> Option<Seq<char>> {
    match t {
        Some(t) => Some(t@),
        None => None,
    }
}

/// A `--confirm` answer agrees to the removal: `y` or `yes`, whatever the
/// case and the surrounding whitespace.
pub open spec fn agrees(answer: Seq<char>) -> bool {
    text::lower_str(text::trim_of(answer)) == "y"@ || text::lower_str(text::trim_of(answer)) == "yes"@
}

/// Whether the answer to the removal prompt agrees to it.
pub fn confirms(answer: &str) -> (r: bool)
    ensures
        r == agrees(answer@),
{
    let chars = text::chars_of(answer);
    let trimmed = text::string_of(&text::trim(chars.as_slice()));
    let lowered = text::to_lowercase_str(trimmed.as_str());
    text::same_str(lowered.as_str(), "y") || text::same_str(lowered.as_str(), "yes")
}

/// `path` wrapped in the `LS_COLORS` directory color when coloring is on and
/// a color is known.
pub open spec fn colored(path: Seq<char>, color: bool, code: Option<Seq<char>>) -> Seq<char> {
    match code {
        Some(c) if color => seq!['\x1b', '['] + c + seq!['m'] + path + seq!['\x1b', '[', '0', 'm'],
        _ => path,
    }
}

/// Wraps `path` in the directory color `code` when `color` is set.
pub fn colorize(path: &str, color: bool, code: Option<&str>) -> (r: String)
    ensures
        r@ == colored(path@, color, match code {
            Some(c) => Some(c@),
            None => None,
        }),
{
    if !color {
        return path.to_owned();
    }
    match code {
        Some(c) => {
            let mut out: Vec<char> = Vec::new();
            out.push('\x1b');
            out.push('[');
            text::push_str(&mut out, c);
            out.push('m');
            text::push_str(&mut out, path);
            out.push('\x1b');
            out.push('[');
            out.push('0');
            out.push('m');
            assert(out@ =~= seq!['\x1b', '['] + c@ + seq!['m'] + path@ + seq!['\x1b', '[', '0', 'm']);
            text::string_of(&out)
        },
        None => path.to_owned(),
    }
}

/// `line` without one trailing carriage return.
pub open spec fn without_cr(line: Seq<u8>) -> Seq<u8> {
    if line.len() > 0 && line.last() == 13u8 { line.drop_last() } else { line }
}

/// Drops one trailing `\r` from a line.
pub fn strip_cr(line: &[u8]) -> (r: &[u8])
    ensures
        r@ == without_cr(line@),
{
    if line.len() > 0 && line[line.len() - 1] == 13u8 {
        let r = vstd::slice::slice_subrange(line, 0, line.len() - 1);
        assert(r@ =~= line@.drop_last());
        r
    } else {
        line
    }
}

/// The pieces of `raw` between `\n` bytes, from position `from`.
pub open spec fn pieces_from(raw: Seq<u8>, from: int, i: int) -> Seq<Seq<u8>>
    decreases raw.len() - i,
{
    if i >= raw.len() {
        seq![raw.subrange(from, raw.len() as int)]
    } else if raw[i] == 10u8 {
        seq![raw.subrange(from, i)] + pieces_from(raw, i + 1, i + 1)
    } else {
        pieces_from(raw, from, i + 1)
    }
}

/// The lines of `raw`: split on `\n`, without the empty piece a final `\n`
/// leaves, and none at all for empty input.
pub open spec fn lines_of(raw: Seq<u8>) -> Seq<Seq<u8>> {
    let pieces = pieces_from(raw, 0, 0);
    if raw.len() == 0 {
        seq![]
    } else if pieces.last().len() == 0 {
        pieces.drop_last()
    } else {
        pieces
    }
}

proof fn lemma_pieces_nonempty(raw: Seq<u8>, from: int, i: int)
    requires
        0 <= from <= i <= raw.len(),
    ensures
        pieces_from(raw, from, i).len() >= 1,
    decreases raw.len() - i,
{
    if i < raw.len() {
        if raw[i] == 10u8 {
            lemma_pieces_nonempty(raw, i + 1, i + 1);
        } else {
            lemma_pieces_nonempty(raw, from, i + 1);
        }
    }
}

/// Splits standard input into lines.
pub fn stdin_lines(raw: &[u8]) -> (r: Vec<&[u8]>)
    ensures
        r@.map_values(|l: &[u8]| l@) == lines_of(raw@),
{
    if raw.len() == 0 {
        let empty: Vec<&[u8]> = Vec::new();
        assert(empty@.map_values(|l: &[u8]| l@) =~= Seq::<Seq<u8>>::empty());
        return empty;
    }
    let mut lines: Vec<&[u8]> = Vec::new();
    let mut from: usize = 0;
    let mut i: usize = 0;
    while i < raw.len()
        invariant
            from <= i <= raw@.len(),
            lines@.map_values(|l: &[u8]| l@) + pieces_from(raw@, from as int, i as int) == pieces_from(raw@, 0, 0),
        decreases raw@.len() - i,
    {
        if raw[i] == 10u8 {
            let piece = vstd::slice::slice_subrange(raw, from, i);
            let ghost before = lines@.map_values(|l: &[u8]| l@);
            lines.push(piece);
            assert(lines@.map_values(|l: &[u8]| l@) =~= before.push(piece@));
            assert(pieces_from(raw@, from as int, i as int) == seq![raw@.subrange(from as int, i as int)] + pieces_from(raw@, i + 1, i + 1));
            assert(before + pieces_from(raw@, from as int, i as int) =~= before.push(piece@) + pieces_from(raw@, i + 1, i + 1));
            from = i + 1;
        }
        i += 1;
    }
    let last = vstd::slice::slice_subrange(raw, from, raw.len());
    let ghost before = lines@.map_values(|l: &[u8]| l@);
    proof {
        lemma_pieces_nonempty(raw@, 0, 0);
        assert(pieces_from(raw@, from as int, i as int) == seq![raw@.subrange(from as int, raw@.len() as int)]);
        assert(before + seq![last@] =~= pieces_from(raw@, 0, 0));
    }
    if last.len() > 0 {
        lines.push(last);
        assert(lines@.map_values(|l: &[u8]| l@) =~= before.push(last@));
    } else {
        assert(pieces_from(raw@, 0, 0).drop_last() =~= before);
    }
    lines
}

/// The candidate a stored row becomes: its name and folder split from its
/// path, its `missing` flag kept only when the flags were just checked.
pub open spec fn candidate_for(c: Candidate, e: DirEntry, checked: bool) -> bool {
    &&& c.path == e.path
    &&& c.name@ == paths::name_of(e.path@)
    &&& match c.folder {
        Some(f) => paths::folder_of(e.path@) == Some(f@),
        None => paths::folder_of(e.path@) is None,
    }
    &&& c.last_visit == e.last_visit
    &&& c.missing == (checked && e.missing)
}

/// Turns the stored rows into ranking candidates, in order.
pub fn candidates_from(entries: &[DirEntry], checked: bool) -> (r: Vec<Candidate>)
    ensures
        r@.len() == entries@.len(),
        forall|i: int| 0 <= i < entries@.len() ==> candidate_for(#[trigger] r@[i], entries@[i], checked),
{
    let mut out: Vec<Candidate> = Vec::new();
    let mut i: usize = 0;
    while i < entries.len()
        invariant
            i <= entries@.len(),
            out@.len() == i,
            forall|k: int| 0 <= k < i ==> candidate_for(#[trigger] out@[k], entries@[k], checked),
        decreases entries@.len() - i,
    {
        let entry = &entries[i];
        let split = paths::split(entry.path.as_str());
        out.push(Candidate {
            name: split.name,
            folder: split.folder,
            last_visit: entry.last_visit,
            missing: checked && entry.missing,
            path: entry.path.clone(),
        });
        i += 1;
    }
    out
}

/// `a` lists before `b` by recency: more recent first, then by path.
pub open spec fn recency_before(a: Candidate, b: Candidate) -> bool {
    ||| a.last_visit.seconds() > b.last_visit.seconds()
    ||| (a.last_visit.seconds() == b.last_visit.seconds() && rank::lex_lt(a.path@, b.path@))
}

proof fn lemma_recency_transitive(a: Candidate, b: Candidate, c: Candidate)
    requires
        recency_before(a, b),
        recency_before(b, c),
    ensures
        recency_before(a, c),
{
    if a.last_visit.seconds() == b.last_visit.seconds() && b.last_visit.seconds() == c.last_visit.seconds() {
        rank::lemma_lex_transitive(a.path@, b.path@, c.path@);
    }
}

proof fn lemma_recency_asymmetric(a: Candidate, b: Candidate)
    requires
        recency_before(a, b),
    ensures
        !recency_before(b, a),
{
    if a.last_visit.seconds() == b.last_visit.seconds() {
        rank::lemma_lex_asymmetric(a.path@, b.path@);
    }
}

/// The candidates an empty-query list shows: present, and not the current
/// directory, in input order.
pub open spec fn listable(cs: Seq<Candidate>, current: Seq<char>) -> Seq<Candidate>
    decreases cs.len(),
{
    if cs.len() == 0 {
        seq![]
    } else if !cs.last().missing && !rank::same_path_of(cs.last().path@, current) {
        listable(cs.drop_last(), current).push(cs.last())
    } else {
        listable(cs.drop_last(), current)
    }
}

struct ByRecency<'a> {
    candidate: &'a Candidate,
    path: Vec<char>,
}

/// The known directories an empty query lists: every present candidate but
/// the current directory, most recent first, ties by path.
pub fn list_by_recency<'a>(candidates: &'a [Candidate], current_path: &str) -> (r: Vec<&'a Candidate>)
    ensures
        r@.map_values(|c: &'a Candidate| *c).to_multiset() == listable(candidates@, current_path@).to_multiset(),
        forall|a: int, b: int| 0 <= a < b < r@.len() ==> !recency_before(*#[trigger] r@[b], *#[trigger] r@[a]),
{
    let ghost d = |b: ByRecency<'a>| *b.candidate;
    let mut sorted: Vec<ByRecency<'a>> = Vec::new();
    let mut i: usize = 0;
    assert(candidates@.take(0) =~= Seq::<Candidate>::empty());
    assert(sorted@.map_values(d) =~= Seq::<Candidate>::empty());
    while i < candidates.len()
        invariant
            i <= candidates@.len(),
            d == |b: ByRecency<'a>| *b.candidate,
            forall|k: int| 0 <= k < sorted@.len() ==> (#[trigger] sorted@[k]).path@ == sorted@[k].candidate.path@,
            sorted@.map_values(d).to_multiset() == listable(candidates@.take(i as int), current_path@).to_multiset(),
            forall|a: int, b: int| 0 <= a < b < sorted@.len() ==> !recency_before(*(#[trigger] sorted@[b]).candidate, *(#[trigger] sorted@[a]).candidate),
        decreases candidates@.len() - i,
    {
        let candidate: &'a Candidate = &candidates[i];
        proof {
            assert(candidates@.take(i + 1).drop_last() =~= candidates@.take(i as int));
            assert(candidates@.take(i + 1).last() == *candidate);
        }
        if !candidate.missing && !rank::same_path(candidate.path.as_str(), current_path) {
            let x = ByRecency { candidate, path: text::chars_of(candidate.path.as_str()) };
            let mut p: usize = 0;
            while p < sorted.len() && !(x.candidate.last_visit.unix_seconds() > sorted[p].candidate.last_visit.unix_seconds()
                || (x.candidate.last_visit.unix_seconds() == sorted[p].candidate.last_visit.unix_seconds()
                && rank::lex_less(&x.path, &sorted[p].path)))
                invariant
                    p <= sorted@.len(),
                    x.path@ == x.candidate.path@,
                    forall|k: int| 0 <= k < sorted@.len() ==> (#[trigger] sorted@[k]).path@ == sorted@[k].candidate.path@,
                    forall|k: int| 0 <= k < p ==> !recency_before(*x.candidate, *(#[trigger] sorted@[k]).candidate),
                decreases sorted@.len() - p,
            {
                p += 1;
            }
            let ghost old_sorted = sorted@;
            let ghost xc = *x.candidate;
            proof {
                assert forall|j: int| p <= j < old_sorted.len() implies !recency_before(*(#[trigger] old_sorted[j]).candidate, xc) by {
                    let pc = *old_sorted[p as int].candidate;
                    let jc = *old_sorted[j].candidate;
                    assert(recency_before(xc, pc));
                    if recency_before(jc, xc) {
                        lemma_recency_transitive(jc, xc, pc);
                        if j == p {
                            lemma_recency_asymmetric(jc, xc);
                        }
                    }
                }
            }
            sorted.insert(p, x);
            proof {
                old_sorted.insert_ensures(p as int, x);
                assert(sorted@.map_values(d) =~= old_sorted.map_values(d).insert(p as int, xc));
                vstd::seq_lib::to_multiset_insert(old_sorted.map_values(d), p as int, xc);
                vstd::seq_lib::to_multiset_build(listable(candidates@.take(i as int), current_path@), xc);
                assert forall|a: int, b: int| 0 <= a < b < sorted@.len() implies !recency_before(
                    *(#[trigger] sorted@[b]).candidate,
                    *(#[trigger] sorted@[a]).candidate,
                ) by {
                    if a < p && b <= p {
                    } else if a < p && b > p {
                        assert(sorted@[b] == old_sorted[b - 1]);
                    } else if a == p {
                        assert(sorted@[b] == old_sorted[b - 1]);
                    } else {
                        assert(sorted@[a] == old_sorted[a - 1]);
                        assert(sorted@[b] == old_sorted[b - 1]);
                    }
                }
                assert forall|k: int| 0 <= k < sorted@.len() implies (#[trigger] sorted@[k]).path@ == sorted@[k].candidate.path@ by {
                    if k > p {
                        assert(sorted@[k] == old_sorted[k - 1]);
                    }
                }
            }
        }
        i += 1;
    }
    assert(candidates@.take(i as int) =~= candidates@);
    let mut out: Vec<&'a Candidate> = Vec::new();
    let mut j: usize = 0;
    while j < sorted.len()
        invariant
            j <= sorted@.len(),
            out@.len() == j,
            forall|q: int| 0 <= q < j ==> #[trigger] out@[q] == sorted@[q].candidate,
        decreases sorted@.len() - j,
    {
        out.push(sorted[j].candidate);
        j += 1;
    }
    proof {
        assert(out@.map_values(|c: &'a Candidate| *c) =~= sorted@.map_values(d));
        assert forall|a: int, b: int| 0 <= a < b < out@.len() implies !recency_before(*#[trigger] out@[b], *#[trigger] out@[a]) by {
            assert(out@[a] == sorted@[a].candidate);
            assert(out@[b] == sorted@[b].candidate);
        }
    }
    out
}

/// The stored rows `target` selects, in input order.
pub open spec fn selected(entries: Seq<DirEntry>, target: Target) -> Seq<DirEntry>
    decreases entries.len(),
{
    if entries.len() == 0 {
        seq![]
    } else if remove::selects(target, entries.last().path@) {
        selected(entries.drop_last(), target).push(entries.last())
    } else {
        selected(entries.drop_last(), target)
    }
}

/// `a`'s lowercased path does not sort after `b`'s.
pub open spec fn lower_path_le(a: DirEntry, b: DirEntry) -> bool {
    !rank::lex_lt(text::lower_str(b.path@), text::lower_str(a.path@))
}

struct ByKey {
    entry: DirEntry,
    key: Vec<char>,
}

/// The rows a `furet remove` target selects, sorted by lowercased path.
pub fn remove_candidates(entries: Vec<DirEntry>, target: &Target) -> (r: Vec<DirEntry>)
    ensures
        r@.to_multiset() == selected(entries@, *target).to_multiset(),
        forall|a: int, b: int| 0 <= a < b < r@.len() ==> lower_path_le(#[trigger] r@[a], #[trigger] r@[b]),
{
    let ghost d = |b: ByKey| b.entry;
    let mut sorted: Vec<ByKey> = Vec::new();
    let mut i: usize = 0;
    assert(entries@.take(0) =~= Seq::<DirEntry>::empty());
    assert(sorted@.map_values(d) =~= Seq::<DirEntry>::empty());
    while i < entries.len()
        invariant
            i <= entries@.len(),
            d == |b: ByKey| b.entry,
            forall|k: int| 0 <= k < sorted@.len() ==> (#[trigger] sorted@[k]).key@ == text::lower_str(sorted@[k].entry.path@),
            sorted@.map_values(d).to_multiset() == selected(entries@.take(i as int), *target).to_multiset(),
            forall|a: int, b: int| 0 <= a < b < sorted@.len() ==> lower_path_le((#[trigger] sorted@[a]).entry, (#[trigger] sorted@[b]).entry),
        decreases entries@.len() - i,
    {
        let entry = &entries[i];
        proof {
            assert(entries@.take(i + 1).drop_last() =~= entries@.take(i as int));
            assert(entries@.take(i + 1).last() == *entry);
        }
        if remove::matches(target, entry.path.as_str()) {
            let lowered = text::to_lowercase_str(entry.path.as_str());
            let x = ByKey {
                entry: DirEntry { id: entry.id, path: entry.path.clone(), last_visit: entry.last_visit, missing: entry.missing },
                key: text::chars_of(lowered.as_str()),
            };
            assert(x.entry == *entry);
            let mut p: usize = 0;
            while p < sorted.len() && !rank::lex_less(&x.key, &sorted[p].key)
                invariant
                    p <= sorted@.len(),
                    x.key@ == text::lower_str(x.entry.path@),
                    forall|k: int| 0 <= k < sorted@.len() ==> (#[trigger] sorted@[k]).key@ == text::lower_str(sorted@[k].entry.path@),
                    forall|k: int| 0 <= k < p ==> lower_path_le((#[trigger] sorted@[k]).entry, x.entry),
                decreases sorted@.len() - p,
            {
                p += 1;
            }
            let ghost old_sorted = sorted@;
            let ghost xe = x.entry;
            proof {
                assert forall|j: int| p <= j < old_sorted.len() implies lower_path_le(xe, (#[trigger] old_sorted[j]).entry) by {
                    let pk = text::lower_str(old_sorted[p as int].entry.path@);
                    let jk = text::lower_str(old_sorted[j].entry.path@);
                    let xk = text::lower_str(xe.path@);
                    assert(rank::lex_lt(xk, pk));
                    if rank::lex_lt(jk, xk) {
                        rank::lemma_lex_transitive(jk, xk, pk);
                        if j > p {
                            assert(lower_path_le(old_sorted[p as int].entry, old_sorted[j].entry));
                        } else {
                            rank::lemma_lex_irreflexive(jk);
                        }
                    }
                }
            }
            sorted.insert(p, x);
            proof {
                old_sorted.insert_ensures(p as int, x);
                assert(sorted@.map_values(d) =~= old_sorted.map_values(d).insert(p as int, xe));
                vstd::seq_lib::to_multiset_insert(old_sorted.map_values(d), p as int, xe);
                vstd::seq_lib::to_multiset_build(selected(entries@.take(i as int), *target), xe);
                assert forall|a: int, b: int| 0 <= a < b < sorted@.len() implies lower_path_le(
                    (#[trigger] sorted@[a]).entry,
                    (#[trigger] sorted@[b]).entry,
                ) by {
                    if a < p && b <= p {
                    } else if a < p && b > p {
                        assert(sorted@[b] == old_sorted[b - 1]);
                    } else if a == p {
                        assert(sorted@[b] == old_sorted[b - 1]);
                    } else {
                        assert(sorted@[a] == old_sorted[a - 1]);
                        assert(sorted@[b] == old_sorted[b - 1]);
                    }
                }
                assert forall|k: int| 0 <= k < sorted@.len() implies (#[trigger] sorted@[k]).key@ == text::lower_str(sorted@[k].entry.path@) by {
                    if k > p {
                        assert(sorted@[k] == old_sorted[k - 1]);
                    }
                }
            }
        }
        i += 1;
    }
    assert(entries@.take(i as int) =~= entries@);
    let mut out: Vec<DirEntry> = Vec::new();
    let mut j: usize = 0;
    while j < sorted.len()
        invariant
            j <= sorted@.len(),
            out@.len() == j,
            forall|q: int| 0 <= q < j ==> #[trigger] out@[q] == sorted@[q].entry,
        decreases sorted@.len() - j,
    {
        let e = &sorted[j].entry;
        out.push(DirEntry { id: e.id, path: e.path.clone(), last_visit: e.last_visit, missing: e.missing });
        j += 1;
    }
    proof {
        assert(out@ =~= sorted@.map_values(d));
    }
    out
}

/// The pieces of `s` between `:` characters, from position `from`.
pub open spec fn fields_from(s: Seq<char>, from: int, i: int) -> Seq<Seq<char>>
    decreases s.len() - i,
{
    if i >= s.len() {
        seq![s.subrange(from, s.len() as int)]
    } else if s[i] == ':' {
        seq![s.subrange(from, i)] + fields_from(s, i + 1, i + 1)
    } else {
        fields_from(s, from, i + 1)
    }
}

/// What follows `di=` in the first field holding that prefix.
pub open spec fn directory_code_in(fields: Seq<Seq<char>>) -> Option<Seq<char>>
    decreases fields.len(),
{
    if fields.len() == 0 {
        None
    } else if seq!['d', 'i', '='].is_prefix_of(fields[0]) {
        Some(fields[0].skip(3))
    } else {
        directory_code_in(fields.drop_first())
    }
}

/// The directory color of an `LS_COLORS` value: what follows `di=` in the
/// first `:`-separated field that starts with it.
pub fn ls_colors_directory_code(value: &str) -> (r: Option<String>)
    ensures
        match r {
            Some(code) => directory_code_in(fields_from(value@, 0, 0)) == Some(code@),
            None => directory_code_in(fields_from(value@, 0, 0)) is None,
        },
{
    let s = text::chars_of(value);
    let mut from: usize = 0;
    let mut i: usize = 0;
    while i <= s.len()
        invariant
            from <= i <= s@.len(),
            s@ == value@,
            directory_code_in(fields_from(s@, 0, 0)) == directory_code_in(fields_from(s@, from as int, i as int)),
        decreases s@.len() + 1 - i,
    {
        if i == s.len() || s[i] == ':' {
            let ghost field = s@.subrange(from as int, i as int);
            proof {
                if i < s@.len() {
                    assert(fields_from(s@, from as int, i as int) == seq![field] + fields_from(s@, i + 1, i + 1));
                    assert((seq![field] + fields_from(s@, i + 1, i + 1))[0] == field);
                    assert((seq![field] + fields_from(s@, i + 1, i + 1)).drop_first() =~= fields_from(s@, i + 1, i + 1));
                } else {
                    assert(fields_from(s@, from as int, i as int) == seq![field]);
                    assert(seq![field].drop_first() =~= Seq::<Seq<char>>::empty());
                    assert(directory_code_in(Seq::<Seq<char>>::empty()) is None);
                }
            }
            let starts = i - from >= 3 && s[from] == 'd' && s[from + 1] == 'i' && s[from + 2] == '=';
            proof {
                if starts {
                    assert(seq!['d', 'i', '='] =~= field.subrange(0, 3));
                }
                if seq!['d', 'i', '='].is_prefix_of(field) {
                    assert(field[0] == 'd' && field[1] == 'i' && field[2] == '=');
                }
            }
            if starts {
                let mut code: Vec<char> = Vec::new();
                let mut k: usize = from + 3;
                while k < i
                    invariant
                        from + 3 <= k <= i,
                        i <= s@.len(),
                        code@ == s@.subrange(from + 3, k as int),
                    decreases i - k,
                {
                    code.push(s[k]);
                    assert(s@.subrange(from + 3, k + 1) =~= s@.subrange(from + 3, k as int).push(s@[k as int]));
                    k += 1;
                }
                assert(code@ =~= field.skip(3));
                return Some(text::string_of(&code));
            }
            if i == s.len() {
                return None;
            }
            from = i + 1;
        }
        i += 1;
    }
    None
}

/// `start`'s parent taken `n` times, `None` once a path has no parent.
pub open spec fn nth_parent_of(start: Seq<char>, n: nat) -> Option<Seq<char>>
    decreases n,
{
    if n == 0 {
        Some(start)
    } else {
        match paths::folder_of(start) {
            Some(parent) => nth_parent_of(parent, (n - 1) as nat),
            None => None,
        }
    }
}

/// Climbs `n` parents from `start` without touching the disk.
pub fn nth_parent(start: &str, n: u32) -> (r: Option<String>)
    ensures
        match r {
            Some(p) => nth_parent_of(start@, n as nat) == Some(p@),
            None => nth_parent_of(start@, n as nat) is None,
        },
{
    let mut current: String = start.to_owned();
    let mut k: u32 = 0;
    while k < n
        invariant
            k <= n,
            nth_parent_of(start@, n as nat) == nth_parent_of(current@, (n - k) as nat),
        decreases n - k,
    {
        let split = paths::split(current.as_str());
        match split.folder {
            Some(parent) => {
                current = parent;
            },
            None => {
                return None;
            },
        }
        k += 1;
    }
    Some(current)
}

} // verus!
