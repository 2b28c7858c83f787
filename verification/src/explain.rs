//! The `--explain` report: what one query did with every stored
//! directory, and its plain-text rendering.
use vstd::prelude::*;

use crate::decision::{self, Decision};
use crate::normalize::{self, Normalized};
use crate::rank::{self, Candidate, Engine, Entry, Scored, Stage, TieBreak};
use crate::stage1_nucleo::{self, NucleoScorer};
use crate::{stage1, stage2, text};

verus! {

/// Why a stored directory never reached the ranking.
#[derive(Debug, Clone, Copy, PartialEq, Eq, Structural)]
pub enum Elimination {
    CurrentDirectory,
    Disappeared,
    NoSubsequence,
    DistanceTooFar { distance: usize },
}

/// The stage-1 score detail, in the shape of the engine that produced it.
#[derive(Debug, Clone, PartialEq, Eq)]
pub enum Stage1Detail {
    Reference(stage1::Breakdown),
    Nucleo(stage1_nucleo::Breakdown),
}

/// What this query did with one stored directory: match it with its score
/// detail, or drop it with a reason.
#[derive(Debug, Clone, PartialEq, Eq)]
pub enum Evaluation<'a> {
    Matched {
        candidate: &'a Candidate,
        stage: Stage,
        score: u32,
        stage1: Option<Stage1Detail>,
        stage2_distance: Option<usize>,
    },
    Eliminated { candidate: &'a Candidate, reason: Elimination },
}

/// Where a report's candidates came from.
#[derive(Debug, Clone, Copy, PartialEq, Eq, Structural)]
pub enum Origin {
    Database,
    Fallback,
}

/// Everything the report says about one query; no jump is performed.
#[derive(Debug, Clone, PartialEq, Eq)]
pub struct Report<'a> {
    pub normalized_query: String,
    pub engine: Engine,
    /// Set by `query --local`: the git project root the pool was scoped to.
    pub project_root: Option<String>,
    pub evaluations: Vec<Evaluation<'a>>,
    pub decision: Decision<'a>,
    pub deciding_criterion: Option<TieBreak>,
    pub origin: Origin,
    pub stage2_max_distance: usize,
}

/// The candidate reaches the ranking: it is present, not the current
/// directory, and one of the two stages scores it.
pub open spec fn kept(query: Seq<char>, current_dir: Seq<char>, c: Candidate, typo_min_length: nat, engine: Engine) -> bool {
    &&& !c.missing
    &&& !rank::same_path_of(c.path@, current_dir)
    &&& rank::dispatch_of(query, c, typo_min_length, engine) is Some
}

/// The candidates that never reach the ranking, in input order.
pub open spec fn dropped(query: Seq<char>, current_dir: Seq<char>, cs: Seq<Candidate>, typo_min_length: nat, engine: Engine) -> Seq<Candidate>
    decreases cs.len(),
{
    if cs.len() == 0 {
        seq![]
    } else {
        let rest = dropped(query, current_dir, cs.drop_last(), typo_min_length, engine);
        if kept(query, current_dir, cs.last(), typo_min_length, engine) {
            rest
        } else {
            rest.push(cs.last())
        }
    }
}

/// `s` with `x` put just before the first candidate whose path is strictly
/// greater; `x` thus follows every candidate with the same path.
pub open spec fn insert_by_path(s: Seq<Candidate>, x: Candidate) -> Seq<Candidate>
    decreases s.len(),
{
    if s.len() == 0 {
        seq![x]
    } else if rank::lex_lt(x.path@, s[0].path@) {
        seq![x] + s
    } else {
        seq![s[0]] + insert_by_path(s.drop_first(), x)
    }
}

/// `s` sorted by path, stably: candidates with equal paths keep their
/// order in `s`.
pub open spec fn path_order(s: Seq<Candidate>) -> Seq<Candidate>
    decreases s.len(),
{
    if s.len() == 0 {
        seq![]
    } else {
        insert_by_path(path_order(s.drop_last()), s.last())
    }
}

/// Inserting `x` at the first position whose path is greater than its own
/// is `insert_by_path`.
proof fn lemma_insert_by_path_at(s: Seq<Candidate>, x: Candidate, p: int)
    requires
        0 <= p <= s.len(),
        forall|j: int| 0 <= j < p ==> !rank::lex_lt(x.path@, (#[trigger] s[j]).path@),
        p < s.len() ==> rank::lex_lt(x.path@, s[p].path@),
    ensures
        insert_by_path(s, x) == s.insert(p, x),
    decreases s.len(),
{
    if s.len() == 0 {
        assert(s.insert(p, x) =~= seq![x]);
    } else if p == 0 {
        assert(s.insert(0, x) =~= seq![x] + s);
    } else {
        let t = s.drop_first();
        assert(!rank::lex_lt(x.path@, s[0].path@));
        assert forall|j: int| 0 <= j < p - 1 implies !rank::lex_lt(x.path@, (#[trigger] t[j]).path@) by {
            assert(t[j] == s[j + 1]);
        }
        if p < s.len() {
            assert(t[p - 1] == s[p]);
        }
        lemma_insert_by_path_at(t, x, p - 1);
        assert(s.insert(p, x) =~= seq![s[0]] + t.insert(p - 1, x));
    }
}

/// The path sort is stable: candidates sharing one path come out in their
/// input order.
pub proof fn lemma_equal_paths_keep_input_order(s: Seq<Candidate>)
    requires
        forall|i: int, j: int| 0 <= i < s.len() && 0 <= j < s.len() ==> (#[trigger] s[i]).path@ == (#[trigger] s[j]).path@,
    ensures
        path_order(s) == s,
    decreases s.len(),
{
    if s.len() > 0 {
        let t = s.drop_last();
        let x = s.last();
        assert forall|i: int, j: int| 0 <= i < t.len() && 0 <= j < t.len() implies (#[trigger] t[i]).path@ == (#[trigger] t[j]).path@ by {
            assert(t[i] == s[i] && t[j] == s[j]);
        }
        lemma_equal_paths_keep_input_order(t);
        assert forall|k: int| 0 <= k < t.len() implies !rank::lex_lt(x.path@, (#[trigger] t[k]).path@) by {
            assert(t[k] == s[k]);
            assert(s[k].path@ == s[s.len() - 1].path@);
            rank::lemma_lex_irreflexive(x.path@);
        }
        lemma_insert_by_path_at(t, x, t.len() as int);
        assert(t.insert(t.len() as int, x) =~= s);
    }
}

/// Why `c` was dropped: the current directory first, then a missing
/// directory, then how far stage 2 found its name, if it looked at all.
pub open spec fn elimination_of(query: Seq<char>, current_dir: Seq<char>, c: Candidate, typo_min_length: nat) -> Elimination {
    if rank::same_path_of(c.path@, current_dir) {
        Elimination::CurrentDirectory
    } else if c.missing {
        Elimination::Disappeared
    } else {
        match stage2::explain_of(query, c.name@, typo_min_length) {
            Some(d) => Elimination::DistanceTooFar { distance: d as usize },
            None => Elimination::NoSubsequence,
        }
    }
}

/// A matched evaluation carries the detail of the stage that scored it: the
/// engine's stage-1 breakdown, or the raw stage-2 distance.
pub open spec fn detailed(query: Seq<char>, e: Evaluation, typo_min_length: nat, engine: Engine) -> bool {
    match e {
        Evaluation::Matched { candidate, stage, score, stage1, stage2_distance } => match stage {
            Stage::One => stage2_distance is None && match engine {
                Engine::Reference => stage1 matches Some(Stage1Detail::Reference(b))
                    && stage1::explained(query, candidate.name@, rank::folder_of(*candidate), Some(b)),
                Engine::Nucleo => stage1 matches Some(Stage1Detail::Nucleo(b))
                    && stage1_nucleo::explained(query, candidate.name@, rank::folder_of(*candidate), Some(b)),
            },
            Stage::Two => stage1 is None && match stage2_distance {
                Some(d) => stage2::explain_of(query, candidate.name@, typo_min_length) == Some(d as nat),
                None => stage2::explain_of(query, candidate.name@, typo_min_length) is None,
            },
        },
        Evaluation::Eliminated { .. } => false,
    }
}

/// The ranked entry a matched evaluation stands for.
pub open spec fn scored_of<'a>(e: Evaluation<'a>) -> Scored<'a> {
    match e {
        Evaluation::Matched { candidate, stage, score, .. } => Scored { candidate, score, stage },
        Evaluation::Eliminated { candidate, .. } => Scored { candidate, score: 0, stage: Stage::Two },
    }
}

/// The candidate an evaluation is about.
pub open spec fn candidate_of(e: Evaluation) -> Candidate {
    match e {
        Evaluation::Matched { candidate, .. } => *candidate,
        Evaluation::Eliminated { candidate, .. } => *candidate,
    }
}

/// An eliminated evaluation with the reason `elimination_of` gives.
pub open spec fn eliminated_for(query: Seq<char>, current_dir: Seq<char>, e: Evaluation, typo_min_length: nat) -> bool {
    match e {
        Evaluation::Eliminated { candidate, reason } => reason == elimination_of(query, current_dir, *candidate, typo_min_length),
        Evaluation::Matched { .. } => false,
    }
}

/// `a`'s path does not sort after `b`'s.
pub open spec fn path_le(a: Candidate, b: Candidate) -> bool {
    !rank::lex_lt(b.path@, a.path@)
}

/// The ranking a report shows: its first `n` evaluations.
pub open spec fn ranking_of<'a>(evaluations: Seq<Evaluation<'a>>, n: nat) -> Seq<Scored<'a>> {
    evaluations.take(n as int).map_values(|e: Evaluation<'a>| scored_of(e))
}

/// `r` is the report on this query: every ranked candidate first, in rank
/// order and with its detail, then every dropped candidate stably sorted
/// by path with its reason, and the decision and tie-break the ranking leads to.
pub open spec fn reports_on<'a>(
    query: Seq<char>,
    current_dir: Seq<char>,
    cs: Seq<Candidate>,
    origin: Origin,
    typo_min_length: nat,
    engine: Engine,
    r: Report<'a>,
) -> bool {
    let ps = rank::pool(query, current_dir, cs, typo_min_length, engine);
    let n = ps.len();
    let ranked = ranking_of(r.evaluations@, n);
    let rest = r.evaluations@.skip(n as int);
    &&& r.evaluations@.len() == cs.len()
    &&& forall|i: int| 0 <= i < n ==> detailed(query, #[trigger] r.evaluations@[i], typo_min_length, engine)
    &&& ranked.map_values(|s: Scored<'a>| rank::entry_of(s)).to_multiset() == ps.to_multiset()
    &&& vstd::relations::sorted_by(ranked.map_values(|s: Scored<'a>| rank::entry_of(s)), |a: Entry, b: Entry| rank::ranks_le(a, b))
    &&& ranked.map_values(|s: Scored<'a>| rank::entry_of(s)) == rank::ranked_order(ps)
    &&& forall|i: int| 0 <= i < rest.len() ==> eliminated_for(query, current_dir, #[trigger] rest[i], typo_min_length)
    &&& rest.map_values(|e: Evaluation<'a>| candidate_of(e)).to_multiset() == dropped(query, current_dir, cs, typo_min_length, engine).to_multiset()
    &&& rest.map_values(|e: Evaluation<'a>| candidate_of(e)) == path_order(dropped(query, current_dir, cs, typo_min_length, engine))
    &&& forall|i: int, j: int| 0 <= i < j < rest.len() ==> path_le(candidate_of(#[trigger] rest[i]), candidate_of(#[trigger] rest[j]))
    &&& decision::decides(ranked, r.decision)
    &&& r.deciding_criterion == (if ranked.len() < 2 {
        None
    } else {
        Some(rank::criterion_of(rank::entry_of(ranked[0]), rank::entry_of(ranked[1])))
    })
    &&& r.normalized_query@ == normalize::normalize_seq(query)
    &&& r.engine == engine
    &&& r.project_root is None
    &&& r.origin == origin
    &&& r.stage2_max_distance == stage2::query_max_distance_of(query)
}

/// Every input candidate is either in the pool or dropped.
proof fn lemma_pool_and_dropped(query: Seq<char>, current_dir: Seq<char>, cs: Seq<Candidate>, typo_min_length: nat, engine: Engine)
    ensures
        rank::pool(query, current_dir, cs, typo_min_length, engine).len() + dropped(query, current_dir, cs, typo_min_length, engine).len() == cs.len(),
    decreases cs.len(),
{
    if cs.len() > 0 {
        lemma_pool_and_dropped(query, current_dir, cs.drop_last(), typo_min_length, engine);
    }
}

/// The stage-1 detail of a stage-1 candidate, from the engine that scored it.
fn stage1_detail(query: &str, candidate: &Candidate, engine: Engine, scorer: &mut NucleoScorer) -> (r: Stage1Detail)
    requires
        engine == Engine::Nucleo ==> crate::paths::utf8_len(candidate.name@) <= u32::MAX,
        rank::stage_one_of(query@, *candidate, engine) is Some,
    ensures
        match engine {
            Engine::Reference => r matches Stage1Detail::Reference(b)
                && stage1::explained(query@, candidate.name@, rank::folder_of(*candidate), Some(b)),
            Engine::Nucleo => r matches Stage1Detail::Nucleo(b)
                && stage1_nucleo::explained(query@, candidate.name@, rank::folder_of(*candidate), Some(b)),
        },
{
    match engine {
        Engine::Reference => {
            let found = stage1::explain(query, candidate.name.as_str(), rank::folder_str(candidate));
            Stage1Detail::Reference(found.unwrap())
        },
        Engine::Nucleo => {
            let found = scorer.explain(query, candidate.name.as_str(), rank::folder_str(candidate));
            Stage1Detail::Nucleo(found.unwrap())
        },
    }
}

/// One matched evaluation per ranked entry, in rank order.
fn evaluate_ranked<'a>(
    query: &str,
    current_dir: &str,
    candidates: &'a [Candidate],
    typo_min_length: usize,
    engine: Engine,
    ranked: &Vec<Scored<'a>>,
    scorer: &mut NucleoScorer,
) -> (r: Vec<Evaluation<'a>>)
    requires
        engine == Engine::Nucleo ==> forall|i: int| 0 <= i < candidates@.len() ==> crate::paths::utf8_len((#[trigger] candidates@[i]).name@) <= u32::MAX,
        ranked@.map_values(|s: Scored<'a>| rank::entry_of(s)).to_multiset() == rank::pool(query@, current_dir@, candidates@, typo_min_length as nat, engine).to_multiset(),
    ensures
        r@.len() == ranked@.len(),
        forall|i: int| 0 <= i < ranked@.len() ==> detailed(query@, #[trigger] r@[i], typo_min_length as nat, engine),
        forall|i: int| 0 <= i < ranked@.len() ==> scored_of(#[trigger] r@[i]) == ranked@[i],
{
    let mut evaluations: Vec<Evaluation<'a>> = Vec::new();
    let mut i: usize = 0;
    while i < ranked.len()
        invariant
            i <= ranked@.len(),
            evaluations@.len() == i,
            engine == Engine::Nucleo ==> forall|k: int| 0 <= k < candidates@.len() ==> crate::paths::utf8_len((#[trigger] candidates@[k]).name@) <= u32::MAX,
            ranked@.map_values(|s: Scored<'a>| rank::entry_of(s)).to_multiset() == rank::pool(query@, current_dir@, candidates@, typo_min_length as nat, engine).to_multiset(),
            forall|k: int| 0 <= k < i ==> detailed(query@, #[trigger] evaluations@[k], typo_min_length as nat, engine),
            forall|k: int| 0 <= k < i ==> scored_of(#[trigger] evaluations@[k]) == ranked@[k],
        decreases ranked@.len() - i,
    {
        let scored = ranked[i];
        proof {
            rank::lemma_ranked_member(query@, current_dir@, candidates@, typo_min_length as nat, engine, ranked@, i as int);
        }
        let candidate: &'a Candidate = scored.candidate;
        let evaluation = match scored.stage {
            Stage::One => Evaluation::Matched {
                candidate,
                stage: scored.stage,
                score: scored.score,
                stage1: Some(stage1_detail(query, candidate, engine, scorer)),
                stage2_distance: None,
            },
            Stage::Two => Evaluation::Matched {
                candidate,
                stage: scored.stage,
                score: scored.score,
                stage1: None,
                stage2_distance: stage2::explain(query, candidate.name.as_str(), typo_min_length),
            },
        };
        evaluations.push(evaluation);
        i += 1;
    }
    evaluations
}

/// A dropped candidate with its path's characters, for sorting.
struct ByPath<'a> {
    candidate: &'a Candidate,
    path: Vec<char>,
}

spec fn by_path_wf(b: ByPath) -> bool {
    b.path@ == b.candidate.path@
}

spec fn by_path_candidate<'a>(b: ByPath<'a>) -> Candidate {
    *b.candidate
}

/// The candidates `kept` rejects, sorted by path (stably).
fn dropped_by_path<'a>(
    query: &str,
    current_dir: &str,
    candidates: &'a [Candidate],
    typo_min_length: usize,
    engine: Engine,
    scorer: &mut NucleoScorer,
) -> (r: Vec<&'a Candidate>)
    requires
        engine == Engine::Nucleo ==> forall|i: int| 0 <= i < candidates@.len() ==> crate::paths::utf8_len((#[trigger] candidates@[i]).name@) <= u32::MAX,
    ensures
        r@.map_values(|c: &'a Candidate| *c).to_multiset() == dropped(query@, current_dir@, candidates@, typo_min_length as nat, engine).to_multiset(),
        forall|a: int, b: int| 0 <= a < b < r@.len() ==> path_le(*#[trigger] r@[a], *#[trigger] r@[b]),
        r@.map_values(|c: &'a Candidate| *c) == path_order(dropped(query@, current_dir@, candidates@, typo_min_length as nat, engine)),
{
    let ghost d = |b: ByPath<'a>| by_path_candidate(b);
    let mut sorted: Vec<ByPath<'a>> = Vec::new();
    let mut i: usize = 0;
    assert(candidates@.take(0) =~= Seq::<Candidate>::empty());
    assert(sorted@.map_values(d) =~= Seq::<Candidate>::empty());
    while i < candidates.len()
        invariant
            i <= candidates@.len(),
            engine == Engine::Nucleo ==> forall|k: int| 0 <= k < candidates@.len() ==> crate::paths::utf8_len((#[trigger] candidates@[k]).name@) <= u32::MAX,
            d == |b: ByPath<'a>| by_path_candidate(b),
            forall|k: int| 0 <= k < sorted@.len() ==> by_path_wf(#[trigger] sorted@[k]),
            sorted@.map_values(d).to_multiset() == dropped(query@, current_dir@, candidates@.take(i as int), typo_min_length as nat, engine).to_multiset(),
            forall|a: int, b: int| 0 <= a < b < sorted@.len() ==> path_le(#[trigger] by_path_candidate(sorted@[a]), #[trigger] by_path_candidate(sorted@[b])),
            sorted@.map_values(d) == path_order(dropped(query@, current_dir@, candidates@.take(i as int), typo_min_length as nat, engine)),
        decreases candidates@.len() - i,
    {
        let candidate: &'a Candidate = &candidates[i];
        let ghost prefix = candidates@.take(i + 1);
        proof {
            assert(prefix.drop_last() =~= candidates@.take(i as int));
            assert(prefix.last() == *candidate);
        }
        let excluded = candidate.missing || rank::same_path(candidate.path.as_str(), current_dir);
        let keep = if excluded {
            false
        } else {
            match rank::dispatch_with(query, candidate, typo_min_length, engine, scorer) {
                Some(_) => true,
                None => false,
            }
        };
        if !keep {
            let x = ByPath { candidate, path: text::chars_of(candidate.path.as_str()) };
            let mut p: usize = 0;
            while p < sorted.len() && !rank::lex_less(&x.path, &sorted[p].path)
                invariant
                    p <= sorted@.len(),
                    by_path_wf(x),
                    forall|k: int| 0 <= k < sorted@.len() ==> by_path_wf(#[trigger] sorted@[k]),
                    forall|k: int| 0 <= k < p ==> path_le(#[trigger] by_path_candidate(sorted@[k]), by_path_candidate(x)),
                decreases sorted@.len() - p,
            {
                p += 1;
            }
            let ghost old_sorted = sorted@;
            let ghost xc = by_path_candidate(x);
            proof {
                assert forall|j: int| p <= j < old_sorted.len() implies path_le(xc, #[trigger] by_path_candidate(old_sorted[j])) by {
                    let pc = by_path_candidate(old_sorted[p as int]);
                    let jc = by_path_candidate(old_sorted[j]);
                    assert(rank::lex_lt(xc.path@, pc.path@));
                    if rank::lex_lt(jc.path@, xc.path@) {
                        rank::lemma_lex_transitive(jc.path@, xc.path@, pc.path@);
                        if j > p {
                            assert(path_le(pc, jc));
                        } else {
                            rank::lemma_lex_irreflexive(jc.path@);
                        }
                    }
                }
            }
            sorted.insert(p, x);
            proof {
                old_sorted.insert_ensures(p as int, x);
                assert(sorted@.map_values(d) =~= old_sorted.map_values(d).insert(p as int, xc));
                vstd::seq_lib::to_multiset_insert(old_sorted.map_values(d), p as int, xc);
                vstd::seq_lib::to_multiset_build(dropped(query@, current_dir@, candidates@.take(i as int), typo_min_length as nat, engine), xc);
                let om = old_sorted.map_values(d);
                assert forall|j: int| 0 <= j < p implies !rank::lex_lt(xc.path@, (#[trigger] om[j]).path@) by {
                    assert(om[j] == by_path_candidate(old_sorted[j]));
                }
                if p < om.len() {
                    assert(om[p as int] == by_path_candidate(old_sorted[p as int]));
                }
                lemma_insert_by_path_at(om, xc, p as int);
                let dp = dropped(query@, current_dir@, prefix, typo_min_length as nat, engine);
                assert(dp == dropped(query@, current_dir@, candidates@.take(i as int), typo_min_length as nat, engine).push(xc));
                assert(dp.drop_last() =~= dropped(query@, current_dir@, candidates@.take(i as int), typo_min_length as nat, engine));
                assert forall|a: int, b: int| 0 <= a < b < sorted@.len() implies path_le(
                    #[trigger] by_path_candidate(sorted@[a]),
                    #[trigger] by_path_candidate(sorted@[b]),
                ) by {
                    if a < p && b <= p {
                    } else if a < p && b > p {
                        assert(sorted@[b] == old_sorted[b - 1]);
                    } else if a == p {
                        assert(sorted@[b] == old_sorted[b - 1]);
                    } else {
                        assert(sorted@[a] == old_sorted[a - 1]);
                        assert(sorted@[b] == old_sorted[b - 1]);
                    }
                }
                assert forall|k: int| 0 <= k < sorted@.len() implies by_path_wf(#[trigger] sorted@[k]) by {
                    if k > p {
                        assert(sorted@[k] == old_sorted[k - 1]);
                    }
                }
            }
        }
        i += 1;
    }
    assert(candidates@.take(i as int) =~= candidates@);
    let mut out: Vec<&'a Candidate> = Vec::new();
    let mut j: usize = 0;
    while j < sorted.len()
        invariant
            j <= sorted@.len(),
            out@.len() == j,
            forall|q: int| 0 <= q < j ==> #[trigger] out@[q] == sorted@[q].candidate,
        decreases sorted@.len() - j,
    {
        out.push(sorted[j].candidate);
        j += 1;
    }
    proof {
        assert(out@.map_values(|c: &'a Candidate| *c) =~= sorted@.map_values(d));
        assert forall|a: int, b: int| 0 <= a < b < out@.len() implies path_le(*#[trigger] out@[a], *#[trigger] out@[b]) by {
            assert(by_path_candidate(sorted@[a]) == *out@[a]);
            assert(by_path_candidate(sorted@[b]) == *out@[b]);
        }
    }
    out
}

/// Why a dropped candidate never reached the ranking.
fn eliminate(query: &str, current_dir: &str, candidate: &Candidate, typo_min_length: usize) -> (r: Elimination)
    ensures
        r == elimination_of(query@, current_dir@, *candidate, typo_min_length as nat),
{
    if rank::same_path(candidate.path.as_str(), current_dir) {
        return Elimination::CurrentDirectory;
    }
    if candidate.missing {
        return Elimination::Disappeared;
    }
    match stage2::explain(query, candidate.name.as_str(), typo_min_length) {
        Some(distance) => Elimination::DistanceTooFar { distance },
        None => Elimination::NoSubsequence,
    }
}

/// The report ranks exactly like `rank`: when no two candidates share a
/// path, its ranked part holds the entries of `rank`'s output, in the same
/// order.
pub proof fn lemma_report_ranks_like_rank<'a, 'b>(
    query: Seq<char>,
    current_dir: Seq<char>,
    cs: Seq<Candidate>,
    origin: Origin,
    typo_min_length: nat,
    engine: Engine,
    r: Report<'a>,
    ranked: Seq<Scored<'b>>,
)
    requires
        reports_on(query, current_dir, cs, origin, typo_min_length, engine, r),
        rank::distinct_candidate_paths(cs),
        ranked.map_values(|s: Scored<'b>| rank::entry_of(s)).to_multiset() == rank::pool(query, current_dir, cs, typo_min_length, engine).to_multiset(),
        vstd::relations::sorted_by(ranked.map_values(|s: Scored<'b>| rank::entry_of(s)), |a: Entry, b: Entry| rank::ranks_le(a, b)),
    ensures
        ranking_of(r.evaluations@, rank::pool(query, current_dir, cs, typo_min_length, engine).len()).map_values(
            |s: Scored<'a>| rank::entry_of(s),
        ) == ranked.map_values(|s: Scored<'b>| rank::entry_of(s)),
{
    let n = rank::pool(query, current_dir, cs, typo_min_length, engine).len();
    rank::lemma_ranking_ignores_input_order(query, current_dir, cs, cs, typo_min_length, engine, ranking_of(r.evaluations@, n), ranked);
}

/// A candidate the ranking dropped although stage 2 measured its name was
/// too far: the distance its elimination reports exceeds the ceiling the
/// query's length applies.
pub proof fn lemma_eliminated_distance_exceeds_ceiling(
    query: Seq<char>,
    current_dir: Seq<char>,
    c: Candidate,
    typo_min_length: nat,
    engine: Engine,
)
    requires
        !kept(query, current_dir, c, typo_min_length, engine),
    ensures
        elimination_of(query, current_dir, c, typo_min_length) matches Elimination::DistanceTooFar { distance }
            ==> distance > stage2::query_max_distance_of(query),
{
    match stage2::explain_of(query, c.name@, typo_min_length) {
        Some(d) => {
            if !rank::same_path_of(c.path@, current_dir) && !c.missing {
                let t = stage2::eligible(query, typo_min_length)->0;
                let n = normalize::normalize_seq(c.name@);
                stage2::lemma_best_window_at_most_longer(t, n);
                assert(d == stage2::best_window(t, n));
                assert((d as usize) as int == d);
            }
        },
        None => {},
    }
}

/// Ranks and decides exactly as `furet query` would, keeping the score
/// detail of every candidate and the reason behind every exclusion.
pub fn explain<'a>(
    query: &str,
    current_dir: &str,
    candidates: &'a [Candidate],
    origin: Origin,
    typo_min_length: usize,
    engine: Engine,
) -> (r: Report<'a>)
    requires
        engine == Engine::Nucleo ==> forall|i: int| 0 <= i < candidates@.len() ==> crate::paths::utf8_len((#[trigger] candidates@[i]).name@) <= u32::MAX,
    ensures
        reports_on(query@, current_dir@, candidates@, origin, typo_min_length as nat, engine, r),
{
    let ranked = rank::rank(query, current_dir, candidates, typo_min_length, engine);
    let mut scorer = NucleoScorer::new();
    let mut evaluations = evaluate_ranked(query, current_dir, candidates, typo_min_length, engine, &ranked, &mut scorer);
    let dropped_sorted = dropped_by_path(query, current_dir, candidates, typo_min_length, engine, &mut scorer);
    let ghost ps = rank::pool(query@, current_dir@, candidates@, typo_min_length as nat, engine);
    let ghost n = ranked@.len();
    let ghost matched = evaluations@;
    proof {
        let es = ranked@.map_values(|s: Scored<'a>| rank::entry_of(s));
        vstd::seq_lib::to_multiset_len(es);
        vstd::seq_lib::to_multiset_len(ps);
        assert(n == ps.len());
    }
    let mut k: usize = 0;
    while k < dropped_sorted.len()
        invariant
            k <= dropped_sorted@.len(),
            evaluations@.len() == n + k,
            evaluations@.take(n as int) == matched,
            forall|q: int| 0 <= q < k ==> #[trigger] evaluations@[n + q] == (Evaluation::Eliminated {
                candidate: dropped_sorted@[q],
                reason: elimination_of(query@, current_dir@, *dropped_sorted@[q], typo_min_length as nat),
            }),
        decreases dropped_sorted@.len() - k,
    {
        let candidate: &'a Candidate = dropped_sorted[k];
        let ghost before = evaluations@;
        evaluations.push(Evaluation::Eliminated {
            candidate,
            reason: eliminate(query, current_dir, candidate, typo_min_length),
        });
        assert(evaluations@.take(n as int) =~= before.take(n as int));
        k += 1;
    }
    let report = Report {
        normalized_query: Normalized::new(query).text(),
        engine,
        project_root: None,
        decision: decision::decide(ranked.as_slice()),
        deciding_criterion: rank::deciding_criterion(ranked.as_slice()),
        evaluations,
        origin,
        stage2_max_distance: stage2::query_max_distance(query),
    };
    proof {
        let evs = report.evaluations@;
        let rest = evs.skip(n as int);
        assert(evs.take(n as int) == matched);
        assert(ranking_of(evs, n) =~= ranked@);
        assert forall|i: int| 0 <= i < n implies detailed(query@, #[trigger] evs[i], typo_min_length as nat, engine) by {
            assert(evs[i] == matched[i]);
        }
        assert forall|i: int| 0 <= i < rest.len() implies eliminated_for(query@, current_dir@, #[trigger] rest[i], typo_min_length as nat) by {
            assert(rest[i] == evs[n + i]);
        }
        assert(rest.map_values(|e: Evaluation<'a>| candidate_of(e)) =~= dropped_sorted@.map_values(|c: &'a Candidate| *c)) by {
            assert forall|i: int| #![trigger rest[i]] 0 <= i < rest.len() implies rest.map_values(|e: Evaluation<'a>| candidate_of(e))[i] == dropped_sorted@.map_values(|c: &'a Candidate| *c)[i] by {
                assert(rest[i] == evs[n + i]);
            }
        }
        assert forall|i: int, j: int| 0 <= i < j < rest.len() implies path_le(candidate_of(#[trigger] rest[i]), candidate_of(#[trigger] rest[j])) by {
            assert(rest[i] == evs[n + i]);
            assert(rest[j] == evs[n + j]);
        }
        vstd::seq_lib::to_multiset_len(dropped_sorted@.map_values(|c: &'a Candidate| *c));
        vstd::seq_lib::to_multiset_len(dropped(query@, current_dir@, candidates@, typo_min_length as nat, engine));
        lemma_pool_and_dropped(query@, current_dir@, candidates@, typo_min_length as nat, engine);
    }
    report
}

// ---------------------------------------------------------------------------
// Rendering.

/// `x` is an `i64` value.
pub open spec fn fits_i64(x: int) -> bool {
    i64::MIN <= x <= i64::MAX
}

/// The sums the rendering of `b` prints fit in an `i64`: each token's
/// subtotal, the running total after each token, and that total plus the
/// order bonus.
pub open spec fn sums_fit(b: stage1::Breakdown) -> bool {
    &&& forall|i: int| 0 <= i < b.tokens@.len() ==> fits_i64(subtotal(#[trigger] b.tokens@[i]))
    &&& forall|k: int| 0 <= k <= b.tokens@.len() ==> fits_i64(#[trigger] running(b.tokens@.take(k)))
    &&& fits_i64(running(b.tokens@) + b.order_bonus)
}

/// Every reference breakdown a report carries has its printed sums fit in
/// an `i64`.
pub open spec fn renderable(r: Report) -> bool {
    forall|i: int| 0 <= i < r.evaluations@.len() ==> match #[trigger] r.evaluations@[i] {
        Evaluation::Matched { stage1, .. } => match stage1 {
            Some(Stage1Detail::Reference(b)) => sums_fit(b),
            _ => true,
        },
        Evaluation::Eliminated { .. } => true,
    }
}

fn fits_in_i64(x: i128) -> (r: bool)
    ensures
        r == fits_i64(x as int),
{
    -0x8000_0000_0000_0000 <= x && x <= 0x7FFF_FFFF_FFFF_FFFF
}

/// Whether the sums the rendering of `b` prints fit in an `i64`.
pub fn breakdown_sums_fit(b: &stage1::Breakdown) -> (r: bool)
    ensures
        r == sums_fit(*b),
{
    let mut total: i128 = 0;
    let mut i: usize = 0;
    assert(b.tokens@.take(0) =~= Seq::<stage1::TokenBreakdown>::empty());
    while i < b.tokens.len()
        invariant
            i <= b.tokens@.len(),
            total == running(b.tokens@.take(i as int)),
            forall|j: int| 0 <= j < i ==> fits_i64(subtotal(#[trigger] b.tokens@[j])),
            forall|k: int| 0 <= k <= i ==> fits_i64(#[trigger] running(b.tokens@.take(k))),
        decreases b.tokens@.len() - i,
    {
        let t = &b.tokens[i];
        let step: i128 = t.base as i128 + t.length as i128 + t.placement as i128 + t.prefix as i128 + t.density as i128;
        assert(step == subtotal(b.tokens@[i as int]));
        if !fits_in_i64(step) {
            assert(!sums_fit(*b));
            return false;
        }
        proof {
            assert(b.tokens@.take(i + 1).drop_last() =~= b.tokens@.take(i as int));
            assert(b.tokens@.take(i + 1).last() == *t);
        }
        let next = total + step;
        assert(next == running(b.tokens@.take(i + 1)));
        if !fits_in_i64(next) {
            assert(!fits_i64(running(b.tokens@.take(i + 1))));
            assert(!sums_fit(*b));
            return false;
        }
        total = next;
        i += 1;
    }
    assert(b.tokens@.take(i as int) =~= b.tokens@);
    assert(total == running(b.tokens@));
    fits_in_i64(total + b.order_bonus as i128)
}

/// Whether every reference breakdown of `report` has its printed sums fit
/// in an `i64`, so that `render` accepts it.
pub fn renderable_report(report: &Report) -> (r: bool)
    ensures
        r == renderable(*report),
{
    let mut i: usize = 0;
    while i < report.evaluations.len()
        invariant
            i <= report.evaluations@.len(),
            forall|j: int| 0 <= j < i ==> match #[trigger] report.evaluations@[j] {
                Evaluation::Matched { stage1, .. } => match stage1 {
                    Some(Stage1Detail::Reference(b)) => sums_fit(b),
                    _ => true,
                },
                Evaluation::Eliminated { .. } => true,
            },
        decreases report.evaluations@.len() - i,
    {
        match &report.evaluations[i] {
            Evaluation::Matched { stage1: Some(Stage1Detail::Reference(b)), .. } => {
                if !breakdown_sums_fit(b) {
                    return false;
                }
            },
            _ => {},
        }
        i += 1;
    }
    true
}

pub open spec fn stage_label_of(stage: Stage) -> Seq<char> {
    match stage {
        Stage::One => "stage 1"@,
        Stage::Two => "stage 2"@,
    }
}

pub open spec fn engine_name_of(engine: Engine) -> Seq<char> {
    match engine {
        Engine::Reference => "reference"@,
        Engine::Nucleo => "nucleo"@,
    }
}

/// One token's stage-1 points: base plus its four bonuses.
pub open spec fn subtotal(t: stage1::TokenBreakdown) -> int {
    t.base + t.length + t.placement + t.prefix + t.density
}

/// The sum of the tokens' subtotals.
pub open spec fn running(tokens: Seq<stage1::TokenBreakdown>) -> int
    decreases tokens.len(),
{
    if tokens.len() == 0 {
        0
    } else {
        running(tokens.drop_last()) + subtotal(tokens.last())
    }
}

pub open spec fn token_line(t: stage1::TokenBreakdown) -> Seq<char> {
    "    token '"@ + t.token@ + "': base "@ + text::signed_decimal_of(t.base as int) + " + length "@
        + text::signed_decimal_of(t.length as int) + " + placement "@ + text::signed_decimal_of(t.placement as int)
        + " + prefix "@ + text::signed_decimal_of(t.prefix as int) + " + density "@
        + text::signed_decimal_of(t.density as int) + " = "@ + text::signed_decimal_of(subtotal(t)) + "\n"@
}

pub open spec fn token_lines(tokens: Seq<stage1::TokenBreakdown>) -> Seq<char>
    decreases tokens.len(),
{
    if tokens.len() == 0 {
        seq![]
    } else {
        token_lines(tokens.drop_last()) + token_line(tokens.last())
    }
}

/// The lines under a stage-1 candidate scored by the reference engine.
pub open spec fn breakdown_text(b: stage1::Breakdown) -> Seq<char> {
    let total = running(b.tokens@) + b.order_bonus;
    token_lines(b.tokens@) + "    order bonus "@ + text::plus_decimal_of(b.order_bonus as int) + "\n"@ + (if total
        < stage1::SCORE_FLOOR {
        "    floor raises "@ + text::signed_decimal_of(total) + " to "@ + text::decimal_of(stage1::SCORE_FLOOR as nat)
            + "\n"@
    } else {
        seq![]
    }) + "    folder bonus "@ + text::plus_decimal_of(b.folder_bonus as int) + "\n"@
}

pub open spec fn nucleo_token_line(t: stage1_nucleo::TokenScore) -> Seq<char> {
    "    token '"@ + t.token@ + "': nucleo "@ + text::decimal_of(t.score as nat) + "\n"@
}

pub open spec fn nucleo_token_lines(tokens: Seq<stage1_nucleo::TokenScore>) -> Seq<char>
    decreases tokens.len(),
{
    if tokens.len() == 0 {
        seq![]
    } else {
        nucleo_token_lines(tokens.drop_last()) + nucleo_token_line(tokens.last())
    }
}

/// The lines under a stage-1 candidate scored by nucleo.
pub open spec fn nucleo_text(b: stage1_nucleo::Breakdown) -> Seq<char> {
    nucleo_token_lines(b.tokens@) + "    sum "@ + text::decimal_of(b.sum as nat) + ", floored "@ + text::decimal_of(
        b.floored as nat,
    ) + "\n"@ + (if b.folder_bonus > 0 {
        "    folder bonus +"@ + text::decimal_of(b.folder_bonus as nat) + "\n"@
    } else {
        seq![]
    })
}

/// A matched candidate's block: its header line, its stage-1 detail and its
/// stage-2 distance.
pub open spec fn matched_text(e: Evaluation, max_distance: nat) -> Seq<char> {
    match e {
        Evaluation::Matched { candidate, stage, score, stage1, stage2_distance } => matched_head(
            stage,
            score,
            candidate.path@,
        ) + detail_text(stage1) + distance_text(stage2_distance, max_distance),
        Evaluation::Eliminated { .. } => seq![],
    }
}

pub open spec fn matched_head(stage: Stage, score: u32, path: Seq<char>) -> Seq<char> {
    "  "@ + stage_label_of(stage) + " score "@ + text::decimal_of(score as nat) + " "@ + path + "\n"@
}

pub open spec fn detail_text(stage1: Option<Stage1Detail>) -> Seq<char> {
    match stage1 {
        Some(Stage1Detail::Reference(b)) => breakdown_text(b),
        Some(Stage1Detail::Nucleo(b)) => nucleo_text(b),
        None => seq![],
    }
}

pub open spec fn distance_text(stage2_distance: Option<usize>, max_distance: nat) -> Seq<char> {
    match stage2_distance {
        Some(d) => "    distance "@ + text::decimal_of(d as nat) + " (max "@ + text::decimal_of(max_distance) + ")\n"@,
        None => seq![],
    }
}

pub open spec fn reason_label_of(reason: Elimination, max_distance: nat) -> Seq<char> {
    match reason {
        Elimination::CurrentDirectory => "current directory"@,
        Elimination::Disappeared => "disappeared"@,
        Elimination::NoSubsequence => "no subsequence"@,
        Elimination::DistanceTooFar { distance } => "distance "@ + text::decimal_of(distance as nat) + " > "@
            + text::decimal_of(max_distance),
    }
}

/// An eliminated candidate's line.
pub open spec fn eliminated_text(e: Evaluation, max_distance: nat) -> Seq<char> {
    match e {
        Evaluation::Eliminated { candidate, reason } => "  "@ + candidate.path@ + ": "@ + reason_label_of(
            reason,
            max_distance,
        ) + "\n"@,
        Evaluation::Matched { .. } => seq![],
    }
}

pub open spec fn matched_lines(evaluations: Seq<Evaluation>, max_distance: nat) -> Seq<char>
    decreases evaluations.len(),
{
    if evaluations.len() == 0 {
        seq![]
    } else {
        matched_lines(evaluations.drop_last(), max_distance) + matched_text(evaluations.last(), max_distance)
    }
}

pub open spec fn eliminated_lines(evaluations: Seq<Evaluation>, max_distance: nat) -> Seq<char>
    decreases evaluations.len(),
{
    if evaluations.len() == 0 {
        seq![]
    } else {
        eliminated_lines(evaluations.drop_last(), max_distance) + eliminated_text(evaluations.last(), max_distance)
    }
}

/// Some evaluation is a match.
pub open spec fn any_matched(evaluations: Seq<Evaluation>) -> bool {
    exists|i: int| 0 <= i < evaluations.len() && #[trigger] evaluations[i] is Matched
}

/// Some evaluation is an elimination.
pub open spec fn any_eliminated(evaluations: Seq<Evaluation>) -> bool {
    exists|i: int| 0 <= i < evaluations.len() && #[trigger] evaluations[i] is Eliminated
}

pub open spec fn none_line(empty: bool) -> Seq<char> {
    if empty { "  (none)\n"@ } else { seq![] }
}

pub open spec fn criterion_label_of(criterion: Option<TieBreak>) -> Seq<char> {
    match criterion {
        None => "none (no runner-up)"@,
        Some(TieBreak::Score) => "score"@,
        Some(TieBreak::Recency) => "recency"@,
        Some(TieBreak::NameLength) => "name length"@,
        Some(TieBreak::Path) => "path"@,
    }
}

pub open spec fn decision_text(d: Decision) -> Seq<char> {
    match d {
        Decision::NoMatch => "decision: none\n"@,
        Decision::Jump(c) => "decision: jump "@ + c.path@ + "\n"@,
        Decision::Menu(v) => "decision: menu\n"@ + decision::menu_lines(decision::paths_of(v@)),
    }
}

/// The whole rendered report.
pub open spec fn report_text(r: Report) -> Seq<char> {
    let evs = r.evaluations@;
    let max = r.stage2_max_distance as nat;
    "normalized query: "@ + r.normalized_query@ + "\n"@ + "engine: "@ + engine_name_of(r.engine) + "\n"@
        + match r.project_root {
        Some(root) => "project root: "@ + root@ + "\n"@,
        None => seq![],
    } + (if r.origin == Origin::Fallback {
        "origin: fallback\n"@
    } else {
        seq![]
    }) + "evaluated candidates:\n"@ + matched_lines(evs, max) + none_line(!any_matched(evs))
        + "eliminated candidates:\n"@ + eliminated_lines(evs, max) + none_line(!any_eliminated(evs))
        + "deciding criterion: "@ + criterion_label_of(r.deciding_criterion) + "\n"@ + decision_text(r.decision)
}

fn stage_label(stage: Stage) -> (r: &'static str)
    ensures
        r@ == stage_label_of(stage),
{
    match stage {
        Stage::One => "stage 1",
        Stage::Two => "stage 2",
    }
}

fn push_token_line(out: &mut Vec<char>, t: &stage1::TokenBreakdown) -> (r: i64)
    requires
        fits_i64(subtotal(*t)),
    ensures
        final(out)@ == old(out)@ + token_line(*t),
        r == subtotal(*t),
{
    let wide: i128 = t.base as i128 + t.length as i128 + t.placement as i128 + t.prefix as i128 + t.density as i128;
    assert(wide == subtotal(*t));
    let subtotal = wide as i64;
    assert(subtotal == wide);
    let ghost start = out@;
    text::push_str(out, "    token '");
    text::push_str(out, t.token.as_str());
    text::push_str(out, "': base ");
    text::push_signed(out, t.base, false);
    text::push_str(out, " + length ");
    text::push_signed(out, t.length, false);
    text::push_str(out, " + placement ");
    text::push_signed(out, t.placement, false);
    text::push_str(out, " + prefix ");
    text::push_signed(out, t.prefix, false);
    text::push_str(out, " + density ");
    text::push_signed(out, t.density, false);
    text::push_str(out, " = ");
    text::push_signed(out, subtotal, false);
    text::push_str(out, "\n");
    assert(out@ =~= start + token_line(*t));
    subtotal
}

fn push_breakdown(out: &mut Vec<char>, b: &stage1::Breakdown)
    requires
        sums_fit(*b),
    ensures
        final(out)@ == old(out)@ + breakdown_text(*b),
{
    let ghost start = out@;
    let mut running_total: i64 = 0;
    let mut i: usize = 0;
    assert(b.tokens@.take(0) =~= Seq::<stage1::TokenBreakdown>::empty());
    while i < b.tokens.len()
        invariant
            sums_fit(*b),
            i <= b.tokens@.len(),
            running_total == running(b.tokens@.take(i as int)),
            out@ == start + token_lines(b.tokens@.take(i as int)),
        decreases b.tokens@.len() - i,
    {
        let t = &b.tokens[i];
        proof {
            assert(b.tokens@.take(i + 1).drop_last() =~= b.tokens@.take(i as int));
            assert(b.tokens@.take(i + 1).last() == *t);
            assert(fits_i64(subtotal(b.tokens@[i as int])));
            assert(fits_i64(running(b.tokens@.take(i + 1))));
        }
        let step = push_token_line(out, t);
        running_total = running_total + step;
        i += 1;
    }
    assert(b.tokens@.take(i as int) =~= b.tokens@);
    running_total = running_total + b.order_bonus;
    text::push_str(out, "    order bonus ");
    text::push_signed(out, b.order_bonus, true);
    text::push_str(out, "\n");
    if running_total < stage1::SCORE_FLOOR as i64 {
        text::push_str(out, "    floor raises ");
        text::push_signed(out, running_total, false);
        text::push_str(out, " to ");
        text::push_decimal(out, stage1::SCORE_FLOOR as u64);
        text::push_str(out, "\n");
    }
    text::push_str(out, "    folder bonus ");
    text::push_signed(out, b.folder_bonus, true);
    text::push_str(out, "\n");
    assert(out@ =~= start + breakdown_text(*b));
}

fn push_nucleo_breakdown(out: &mut Vec<char>, b: &stage1_nucleo::Breakdown)
    ensures
        final(out)@ == old(out)@ + nucleo_text(*b),
{
    let ghost start = out@;
    let mut i: usize = 0;
    while i < b.tokens.len()
        invariant
            i <= b.tokens@.len(),
            out@ == start + nucleo_token_lines(b.tokens@.take(i as int)),
        decreases b.tokens@.len() - i,
    {
        let t = &b.tokens[i];
        let ghost before = out@;
        text::push_str(out, "    token '");
        text::push_str(out, t.token.as_str());
        text::push_str(out, "': nucleo ");
        text::push_decimal(out, t.score as u64);
        text::push_str(out, "\n");
        proof {
            assert(b.tokens@.take(i + 1).drop_last() =~= b.tokens@.take(i as int));
            assert(out@ =~= before + nucleo_token_line(*t));
        }
        i += 1;
    }
    assert(b.tokens@.take(i as int) =~= b.tokens@);
    text::push_str(out, "    sum ");
    text::push_decimal(out, b.sum as u64);
    text::push_str(out, ", floored ");
    text::push_decimal(out, b.floored as u64);
    text::push_str(out, "\n");
    if b.folder_bonus > 0 {
        text::push_str(out, "    folder bonus +");
        text::push_decimal(out, b.folder_bonus as u64);
        text::push_str(out, "\n");
    }
    assert(out@ =~= start + nucleo_text(*b));
}

#[verifier::rlimit(50)]
#[verifier::spinoff_prover]
fn push_matched(out: &mut Vec<char>, e: &Evaluation, max_distance: usize)
    requires
        *e matches Evaluation::Matched { stage1, .. } && (stage1 matches Some(Stage1Detail::Reference(b)) ==> sums_fit(b)),
    ensures
        final(out)@ == old(out)@ + matched_text(*e, max_distance as nat),
{
    match e {
        Evaluation::Matched { candidate, stage, score, stage1, stage2_distance } => {
            let ghost start = out@;
            text::push_str(out, "  ");
            text::push_str(out, stage_label(*stage));
            text::push_str(out, " score ");
            text::push_decimal(out, *score as u64);
            text::push_str(out, " ");
            text::push_str(out, candidate.path.as_str());
            text::push_str(out, "\n");
            assert(out@ =~= start + matched_head(*stage, *score, candidate.path@));
            let ghost head = out@;
            match stage1 {
                Some(Stage1Detail::Reference(b)) => push_breakdown(out, b),
                Some(Stage1Detail::Nucleo(b)) => push_nucleo_breakdown(out, b),
                None => {},
            }
            assert(out@ == head + detail_text(*stage1));
            let ghost detail = out@;
            match stage2_distance {
                Some(d) => {
                    text::push_str(out, "    distance ");
                    text::push_decimal(out, *d as u64);
                    text::push_str(out, " (max ");
                    text::push_decimal(out, max_distance as u64);
                    text::push_str(out, ")\n");
                    assert(out@ =~= detail + distance_text(*stage2_distance, max_distance as nat));
                },
                None => {
                    assert(out@ =~= detail + distance_text(*stage2_distance, max_distance as nat));
                },
            }
            assert(out@ =~= start + matched_text(*e, max_distance as nat));
        },
        Evaluation::Eliminated { .. } => {},
    }
}

fn push_reason(out: &mut Vec<char>, reason: Elimination, max_distance: usize)
    ensures
        final(out)@ == old(out)@ + reason_label_of(reason, max_distance as nat),
{
    let ghost start = out@;
    match reason {
        Elimination::CurrentDirectory => text::push_str(out, "current directory"),
        Elimination::Disappeared => text::push_str(out, "disappeared"),
        Elimination::NoSubsequence => text::push_str(out, "no subsequence"),
        Elimination::DistanceTooFar { distance } => {
            text::push_str(out, "distance ");
            text::push_decimal(out, distance as u64);
            text::push_str(out, " > ");
            text::push_decimal(out, max_distance as u64);
            assert(out@ =~= start + reason_label_of(reason, max_distance as nat));
        },
    }
}

fn criterion_label(criterion: Option<TieBreak>) -> (r: &'static str)
    ensures
        r@ == criterion_label_of(criterion),
{
    match criterion {
        None => "none (no runner-up)",
        Some(TieBreak::Score) => "score",
        Some(TieBreak::Recency) => "recency",
        Some(TieBreak::NameLength) => "name length",
        Some(TieBreak::Path) => "path",
    }
}

fn push_decision(out: &mut Vec<char>, d: &Decision)
    ensures
        final(out)@ == old(out)@ + decision_text(*d),
{
    let ghost start = out@;
    match d {
        Decision::NoMatch => text::push_str(out, "decision: none\n"),
        Decision::Jump(candidate) => {
            text::push_str(out, "decision: jump ");
            text::push_str(out, candidate.path.as_str());
            text::push_str(out, "\n");
            assert(out@ =~= start + decision_text(*d));
        },
        Decision::Menu(shown) => {
            text::push_str(out, "decision: menu\n");
            decision::push_menu_lines(out, shown.as_slice());
            assert(out@ =~= start + decision_text(*d));
        },
    }
}

/// Renders a report as the plain text `--explain` writes to stderr; pure and
/// stable, so it can be snapshot tested.
#[verifier::rlimit(50)]
#[verifier::spinoff_prover]
pub fn render(report: &Report) -> (r: String)
    requires
        renderable(*report),
    ensures
        r@ == report_text(*report),
{
    let ghost evs = report.evaluations@;
    let max = report.stage2_max_distance;
    let mut out: Vec<char> = Vec::new();
    text::push_str(&mut out, "normalized query: ");
    text::push_str(&mut out, report.normalized_query.as_str());
    text::push_str(&mut out, "\n");
    text::push_str(&mut out, "engine: ");
    text::push_str(&mut out, report.engine.name());
    text::push_str(&mut out, "\n");
    match &report.project_root {
        Some(root) => {
            text::push_str(&mut out, "project root: ");
            text::push_str(&mut out, root.as_str());
            text::push_str(&mut out, "\n");
        },
        None => {},
    }
    if report.origin == Origin::Fallback {
        text::push_str(&mut out, "origin: fallback\n");
    }
    text::push_str(&mut out, "evaluated candidates:\n");
    let ghost head = out@;
    let mut evaluated: usize = 0;
    let mut i: usize = 0;
    while i < report.evaluations.len()
        invariant
            i <= evs.len(),
            evs == report.evaluations@,
            max == report.stage2_max_distance,
            renderable(*report),
            out@ == head + matched_lines(evs.take(i as int), max as nat),
            (evaluated > 0) == any_matched(evs.take(i as int)),
        decreases evs.len() - i,
    {
        let evaluation = &report.evaluations[i];
        proof {
            assert(evs.take(i + 1).drop_last() =~= evs.take(i as int));
            assert(evs.take(i + 1).last() == evs[i as int]);
            if any_matched(evs.take(i as int)) {
                let w = choose|w: int| 0 <= w < evs.take(i as int).len() && #[trigger] evs.take(i as int)[w] is Matched;
                assert(evs.take(i + 1)[w] is Matched);
            }
            if any_matched(evs.take(i + 1)) && !(evs[i as int] is Matched) {
                let w = choose|w: int| 0 <= w < evs.take(i + 1).len() && #[trigger] evs.take(i + 1)[w] is Matched;
                assert(evs.take(i as int)[w] is Matched);
            }
            if evs[i as int] is Matched {
                assert(evs.take(i + 1)[i as int] is Matched);
            }
        }
        match evaluation {
            Evaluation::Matched { .. } => {
                evaluated = 1;
                push_matched(&mut out, evaluation, max);
            },
            Evaluation::Eliminated { .. } => {},
        }
        i += 1;
    }
    assert(evs.take(i as int) =~= evs);
    if evaluated == 0 {
        text::push_str(&mut out, "  (none)\n");
    }
    text::push_str(&mut out, "eliminated candidates:\n");
    let ghost middle = out@;
    let mut eliminated: usize = 0;
    let mut j: usize = 0;
    while j < report.evaluations.len()
        invariant
            j <= evs.len(),
            evs == report.evaluations@,
            max == report.stage2_max_distance,
            out@ == middle + eliminated_lines(evs.take(j as int), max as nat),
            (eliminated > 0) == any_eliminated(evs.take(j as int)),
        decreases evs.len() - j,
    {
        let evaluation = &report.evaluations[j];
        proof {
            assert(evs.take(j + 1).drop_last() =~= evs.take(j as int));
            assert(evs.take(j + 1).last() == evs[j as int]);
            if any_eliminated(evs.take(j as int)) {
                let w = choose|w: int| 0 <= w < evs.take(j as int).len() && #[trigger] evs.take(j as int)[w] is Eliminated;
                assert(evs.take(j + 1)[w] is Eliminated);
            }
            if any_eliminated(evs.take(j + 1)) && !(evs[j as int] is Eliminated) {
                let w = choose|w: int| 0 <= w < evs.take(j + 1).len() && #[trigger] evs.take(j + 1)[w] is Eliminated;
                assert(evs.take(j as int)[w] is Eliminated);
            }
            if evs[j as int] is Eliminated {
                assert(evs.take(j + 1)[j as int] is Eliminated);
            }
        }
        match evaluation {
            Evaluation::Eliminated { candidate, reason } => {
                eliminated = 1;
                let ghost before = out@;
                text::push_str(&mut out, "  ");
                text::push_str(&mut out, candidate.path.as_str());
                text::push_str(&mut out, ": ");
                push_reason(&mut out, *reason, max);
                text::push_str(&mut out, "\n");
                assert(out@ =~= before + eliminated_text(*evaluation, max as nat));
            },
            Evaluation::Matched { .. } => {},
        }
        j += 1;
    }
    assert(evs.take(j as int) =~= evs);
    if eliminated == 0 {
        text::push_str(&mut out, "  (none)\n");
    }
    text::push_str(&mut out, "deciding criterion: ");
    text::push_str(&mut out, criterion_label(report.deciding_criterion));
    text::push_str(&mut out, "\n");
    push_decision(&mut out, &report.decision);
    assert(out@ =~= report_text(*report));
    text::string_of(&out)
}

} // verus!
