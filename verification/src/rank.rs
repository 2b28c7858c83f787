//! Ranking: score every surviving candidate, stage 1 first and
//! stage 2 only when stage 1 fails, then order by score, recency, name
//! length, and path.
use vstd::prelude::*;

use crate::clock::Timestamp;
use crate::stage1_nucleo::{self, NucleoScorer};
use crate::{stage1, stage2, text};

verus! {

/// Which stage of the engine produced a candidate's score.
#[derive(Debug, Clone, Copy, PartialEq, Eq, Structural)]
pub enum Stage {
    One,
    Two,
}

/// Which stage-1 scorer ranks the candidates.
#[derive(Debug, Clone, Copy, PartialEq, Eq, Structural)]
pub enum Engine {
    Reference,
    Nucleo,
}

impl Engine {
    /// The engine's configuration name.
    pub fn name(&self) -> (r: &'static str)
        ensures
            r@ == (match self {
                Engine::Reference => "reference"@,
                Engine::Nucleo => "nucleo"@,
            }),
    {
        match self {
            Engine::Reference => "reference",
            Engine::Nucleo => "nucleo",
        }
    }
}

/// A directory the engine may rank: what to match on, when it was last
/// visited, and whether it is soft-deleted.
#[derive(Debug, Clone, PartialEq, Eq)]
pub struct Candidate {
    pub path: String,
    pub name: String,
    pub folder: Option<String>,
    pub last_visit: Timestamp,
    pub missing: bool,
}

/// A candidate that matched the query, with its score and its stage.
#[derive(Debug, Clone, Copy, PartialEq, Eq)]
pub struct Scored<'a> {
    pub candidate: &'a Candidate,
    pub score: u32,
    pub stage: Stage,
}

/// A ranked entry as a plain value.
pub type Entry = (Candidate, int, Stage);

pub open spec fn entry_of(s: Scored) -> Entry {
    (*s.candidate, s.score as int, s.stage)
}

pub open spec fn folder_of(c: Candidate) -> Option<Seq<char>> {
    match c.folder {
        Some(f) => Some(f@),
        None => None,
    }
}

/// Two paths name the same directory, ignoring case.
pub open spec fn same_path_of(left: Seq<char>, right: Seq<char>) -> bool {
    text::lower_str(left) == text::lower_str(right)
}

/// The engine's stage-1 score of one candidate.
pub open spec fn stage_one_of(query: Seq<char>, c: Candidate, engine: Engine) -> Option<int> {
    match engine {
        Engine::Reference => stage1::score_of(query, c.name@, folder_of(c)),
        Engine::Nucleo => stage1_nucleo::score_of(query, c.name@, folder_of(c)),
    }
}

/// Stage 1, then stage 2 only when stage 1 found nothing.
pub open spec fn dispatch_of(query: Seq<char>, c: Candidate, typo_min_length: nat, engine: Engine) -> Option<(int, Stage)> {
    match stage_one_of(query, c, engine) {
        Some(v) => Some((v, Stage::One)),
        None => match stage2::score_of(query, c.name@, typo_min_length) {
            Some(v) => Some((v as int, Stage::Two)),
            None => None,
        },
    }
}

/// Every candidate the ranking keeps, with its score, in input order.
pub open spec fn pool(query: Seq<char>, current_dir: Seq<char>, cs: Seq<Candidate>, typo_min_length: nat, engine: Engine) -> Seq<Entry>
    decreases cs.len(),
{
    if cs.len() == 0 {
        seq![]
    } else {
        let rest = pool(query, current_dir, cs.drop_last(), typo_min_length, engine);
        let c = cs.last();
        if c.missing || same_path_of(c.path@, current_dir) {
            rest
        } else {
            match dispatch_of(query, c, typo_min_length, engine) {
                Some((v, stage)) => rest.push((c, v, stage)),
                None => rest,
            }
        }
    }
}

/// Every entry of the pool is a kept candidate of the input, with the
/// score and stage that `dispatch_of` gives it.
pub proof fn lemma_pool_member(query: Seq<char>, current_dir: Seq<char>, cs: Seq<Candidate>, typo_min_length: nat, engine: Engine, e: Entry)
    requires
        pool(query, current_dir, cs, typo_min_length, engine).contains(e),
    ensures
        cs.contains(e.0),
        !e.0.missing,
        !same_path_of(e.0.path@, current_dir),
        dispatch_of(query, e.0, typo_min_length, engine) == Some((e.1, e.2)),
    decreases cs.len(),
{
    let rest = pool(query, current_dir, cs.drop_last(), typo_min_length, engine);
    if cs.len() > 0 {
        if rest.contains(e) {
            lemma_pool_member(query, current_dir, cs.drop_last(), typo_min_length, engine, e);
            let k = choose|k: int| 0 <= k < cs.drop_last().len() && cs.drop_last()[k] == e.0;
            assert(cs[k] == e.0);
        } else {
            let w = choose|w: int| 0 <= w < pool(query, current_dir, cs, typo_min_length, engine).len()
                && pool(query, current_dir, cs, typo_min_length, engine)[w] == e;
            assert(w == rest.len());
            assert(cs[cs.len() - 1] == e.0);
        }
    }
}

/// A stage-1 score is never below `SCORE_FLOOR` and a stage-2 score never
/// above `SCORE_CAP`, whichever engine scores stage 1.
pub proof fn lemma_dispatch_ranges(query: Seq<char>, c: Candidate, typo_min_length: nat, engine: Engine)
    ensures
        dispatch_of(query, c, typo_min_length, engine) matches Some((v, stage)) ==> {
            &&& stage == Stage::One ==> v >= stage1::SCORE_FLOOR
            &&& stage == Stage::Two ==> 1 <= v <= stage2::SCORE_CAP
        },
{
    stage1::lemma_score_at_least_floor(query, c.name@, folder_of(c));
    stage1_nucleo::lemma_score_at_least_floor(query, c.name@, folder_of(c));
    stage2::lemma_score_range(query, c.name@, typo_min_length);
}

/// Each entry of a ranking whose entries are the pool's is a pool member.
pub proof fn lemma_ranked_member<'a>(query: Seq<char>, current_dir: Seq<char>, cs: Seq<Candidate>, typo_min_length: nat, engine: Engine, ranked: Seq<Scored<'a>>, i: int)
    requires
        ranked.map_values(|s: Scored<'a>| entry_of(s)).to_multiset() == pool(query, current_dir, cs, typo_min_length, engine).to_multiset(),
        0 <= i < ranked.len(),
    ensures
        pool(query, current_dir, cs, typo_min_length, engine).contains(entry_of(ranked[i])),
        cs.contains(*ranked[i].candidate),
        !ranked[i].candidate.missing,
        !same_path_of(ranked[i].candidate.path@, current_dir),
        dispatch_of(query, *ranked[i].candidate, typo_min_length, engine) == Some((ranked[i].score as int, ranked[i].stage)),
{
    let es = ranked.map_values(|s: Scored<'a>| entry_of(s));
    let ps = pool(query, current_dir, cs, typo_min_length, engine);
    let e = entry_of(ranked[i]);
    assert(es[i] == e);
    assert(es.contains(e));
    vstd::seq_lib::to_multiset_contains(es, e);
    vstd::seq_lib::to_multiset_contains(ps, e);
    lemma_pool_member(query, current_dir, cs, typo_min_length, engine, e);
}

/// `a` comes strictly before `b` lexicographically, character by character.
pub open spec fn lex_lt(a: Seq<char>, b: Seq<char>) -> bool
    decreases a.len(),
{
    if a.len() == 0 {
        b.len() > 0
    } else if b.len() == 0 {
        false
    } else if a[0] != b[0] {
        (a[0] as int) < (b[0] as int)
    } else {
        lex_lt(a.drop_first(), b.drop_first())
    }
}

/// The four sort keys of the ranking: score, recency, name length, path.
pub type KeyTuple = (int, int, int, Seq<char>);

pub open spec fn key_of(e: Entry) -> KeyTuple {
    (e.1, e.0.last_visit.seconds() as int, e.0.name@.len() as int, e.0.path@)
}

/// `a` ranks strictly before `b`: higher score, then more recent, then
/// shorter name, then smaller path.
pub open spec fn key_before(a: KeyTuple, b: KeyTuple) -> bool {
    ||| a.0 > b.0
    ||| a.0 == b.0 && a.1 > b.1
    ||| a.0 == b.0 && a.1 == b.1 && a.2 < b.2
    ||| a.0 == b.0 && a.1 == b.1 && a.2 == b.2 && lex_lt(a.3, b.3)
}

pub open spec fn before(a: Entry, b: Entry) -> bool {
    key_before(key_of(a), key_of(b))
}

/// `a` may precede `b` in a ranking.
pub open spec fn ranks_le(a: Entry, b: Entry) -> bool {
    !before(b, a)
}

pub proof fn lemma_lex_irreflexive(a: Seq<char>)
    ensures
        !lex_lt(a, a),
    decreases a.len(),
{
    if a.len() > 0 {
        lemma_lex_irreflexive(a.drop_first());
    }
}

pub proof fn lemma_lex_transitive(a: Seq<char>, b: Seq<char>, c: Seq<char>)
    requires
        lex_lt(a, b),
        lex_lt(b, c),
    ensures
        lex_lt(a, c),
    decreases a.len(),
{
    if a.len() > 0 && b.len() > 0 && c.len() > 0 && a[0] == b[0] && b[0] == c[0] {
        lemma_lex_transitive(a.drop_first(), b.drop_first(), c.drop_first());
    }
}

pub proof fn lemma_lex_trichotomy(a: Seq<char>, b: Seq<char>)
    ensures
        a == b || lex_lt(a, b) || lex_lt(b, a),
    decreases a.len(),
{
    if a.len() > 0 && b.len() > 0 {
        if a[0] == b[0] {
            lemma_lex_trichotomy(a.drop_first(), b.drop_first());
            if a.drop_first() == b.drop_first() {
                assert(a.drop_first().len() == b.drop_first().len());
                assert(a.len() == b.len());
                assert forall|k: int| 0 <= k < a.len() implies a[k] == b[k] by {
                    if k > 0 {
                        assert(a[k] == a.drop_first()[k - 1]);
                        assert(b[k] == b.drop_first()[k - 1]);
                    }
                }
                assert(a =~= b);
            }
        } else {
            assert((a[0] as int) != (b[0] as int));
        }
    } else if a.len() == 0 && b.len() == 0 {
        assert(a =~= b);
    }
}

pub proof fn lemma_lex_asymmetric(a: Seq<char>, b: Seq<char>)
    requires
        lex_lt(a, b),
    ensures
        !lex_lt(b, a),
{
    if lex_lt(b, a) {
        lemma_lex_transitive(a, b, a);
        lemma_lex_irreflexive(a);
    }
}

/// The ranking order is a strict total order on the sort keys: never
/// reflexive, transitive, and any two distinct keys are ordered one way.
pub proof fn lemma_key_order_is_strict_total()
    ensures
        vstd::relations::strict_total_ordering(|a: KeyTuple, b: KeyTuple| key_before(a, b)),
{
    let r = |a: KeyTuple, b: KeyTuple| key_before(a, b);
    assert forall|x: KeyTuple| #[trigger] r(x, x) == false by {
        lemma_lex_irreflexive(x.3);
    }
    assert forall|x: KeyTuple, y: KeyTuple| #[trigger] r(x, y) && #[trigger] r(y, x) implies x == y by {
        if x.0 == y.0 && x.1 == y.1 && x.2 == y.2 {
            lemma_lex_asymmetric(x.3, y.3);
        }
    }
    assert forall|x: KeyTuple, y: KeyTuple, z: KeyTuple| #[trigger] r(x, y) && #[trigger] r(y, z) implies r(x, z) by {
        if x.0 == y.0 && y.0 == z.0 && x.1 == y.1 && y.1 == z.1 && x.2 == y.2 && y.2 == z.2 {
            lemma_lex_transitive(x.3, y.3, z.3);
        }
    }
    assert forall|x: KeyTuple, y: KeyTuple| x != y implies #[trigger] r(x, y) || #[trigger] r(y, x) by {
        lemma_lex_trichotomy(x.3, y.3);
    }
}

proof fn lemma_before_transitive(a: Entry, b: Entry, c: Entry)
    requires
        before(a, b),
        before(b, c),
    ensures
        before(a, c),
{
    let (x, y, z) = (key_of(a), key_of(b), key_of(c));
    if x.0 == y.0 && y.0 == z.0 && x.1 == y.1 && y.1 == z.1 && x.2 == y.2 && y.2 == z.2 {
        lemma_lex_transitive(x.3, y.3, z.3);
    }
}

proof fn lemma_before_asymmetric(a: Entry, b: Entry)
    requires
        before(a, b),
    ensures
        !before(b, a),
{
    let (x, y) = (key_of(a), key_of(b));
    if x.0 == y.0 && x.1 == y.1 && x.2 == y.2 {
        lemma_lex_asymmetric(x.3, y.3);
    }
}

/// `s` with `x` put just before the first entry that `x` ranks strictly
/// before; `x` thus follows every entry it ties with on all four keys.
pub open spec fn insert_ranked(s: Seq<Entry>, x: Entry) -> Seq<Entry>
    decreases s.len(),
{
    if s.len() == 0 {
        seq![x]
    } else if before(x, s[0]) {
        seq![x] + s
    } else {
        seq![s[0]] + insert_ranked(s.drop_first(), x)
    }
}

/// The ranking of `s`: a stable sort in ranking order, so entries that tie
/// on score, recency, name length and path keep their order in `s`.
pub open spec fn ranked_order(s: Seq<Entry>) -> Seq<Entry>
    decreases s.len(),
{
    if s.len() == 0 {
        seq![]
    } else {
        insert_ranked(ranked_order(s.drop_last()), s.last())
    }
}

/// Inserting `x` at the first position whose entry it ranks before is
/// `insert_ranked`.
proof fn lemma_insert_ranked_at(s: Seq<Entry>, x: Entry, p: int)
    requires
        0 <= p <= s.len(),
        forall|j: int| 0 <= j < p ==> !before(x, #[trigger] s[j]),
        p < s.len() ==> before(x, s[p]),
    ensures
        insert_ranked(s, x) == s.insert(p, x),
    decreases s.len(),
{
    if s.len() == 0 {
        assert(s.insert(p, x) =~= seq![x]);
    } else if p == 0 {
        assert(s.insert(0, x) =~= seq![x] + s);
    } else {
        let t = s.drop_first();
        assert(!before(x, s[0]));
        assert forall|j: int| 0 <= j < p - 1 implies !before(x, #[trigger] t[j]) by {
            assert(t[j] == s[j + 1]);
        }
        if p < s.len() {
            assert(t[p - 1] == s[p]);
        }
        lemma_insert_ranked_at(t, x, p - 1);
        assert(s.insert(p, x) =~= seq![s[0]] + t.insert(p - 1, x));
    }
}

/// The ranking is stable: entries that tie on score, recency, name length
/// and path come out in their input order.
pub proof fn lemma_full_ties_keep_input_order(s: Seq<Entry>)
    requires
        forall|i: int, j: int| 0 <= i < s.len() && 0 <= j < s.len() ==> key_of(#[trigger] s[i]) == key_of(#[trigger] s[j]),
    ensures
        ranked_order(s) == s,
    decreases s.len(),
{
    if s.len() > 0 {
        let t = s.drop_last();
        let x = s.last();
        assert forall|i: int, j: int| 0 <= i < t.len() && 0 <= j < t.len() implies key_of(#[trigger] t[i]) == key_of(#[trigger] t[j]) by {
            assert(t[i] == s[i] && t[j] == s[j]);
        }
        lemma_full_ties_keep_input_order(t);
        assert forall|k: int| 0 <= k < t.len() implies !before(x, #[trigger] t[k]) by {
            assert(t[k] == s[k]);
            assert(key_of(s[k]) == key_of(s[s.len() - 1]));
            lemma_lex_irreflexive(key_of(x).3);
        }
        lemma_insert_ranked_at(t, x, t.len() as int);
        assert(t.insert(t.len() as int, x) =~= s);
    }
}

/// Two paths name the same directory, ignoring case.
pub fn same_path(left: &str, right: &str) -> (r: bool)
    ensures
        r == same_path_of(left@, right@),
{
    let l = text::to_lowercase_str(left);
    let r = text::to_lowercase_str(right);
    l == r
}

pub(crate) fn folder_str(candidate: &Candidate) -> (r: Option<&str>)
    ensures
        stage1::opt_view(r) == folder_of(*candidate),
{
    match &candidate.folder {
        Some(folder) => Some(folder.as_str()),
        None => None,
    }
}

/// Stage 1 through `engine`, reusing `scorer` for nucleo.
fn stage_one(query: &str, candidate: &Candidate, engine: Engine, scorer: &mut NucleoScorer) -> (r: Option<u32>)
    requires
        engine == Engine::Nucleo ==> crate::paths::utf8_len(candidate.name@) <= u32::MAX,
    ensures
        match r {
            Some(v) => stage_one_of(query@, *candidate, engine) == Some(v as int),
            None => stage_one_of(query@, *candidate, engine) is None,
        },
{
    match engine {
        Engine::Reference => stage1::score(query, candidate.name.as_str(), folder_str(candidate)),
        Engine::Nucleo => scorer.score(query, candidate.name.as_str(), folder_str(candidate)),
    }
}

pub(crate) fn dispatch_with(query: &str, candidate: &Candidate, typo_min_length: usize, engine: Engine, scorer: &mut NucleoScorer) -> (r: Option<(u32, Stage)>)
    requires
        engine == Engine::Nucleo ==> crate::paths::utf8_len(candidate.name@) <= u32::MAX,
    ensures
        match r {
            Some((v, stage)) => dispatch_of(query@, *candidate, typo_min_length as nat, engine) == Some((v as int, stage)),
            None => dispatch_of(query@, *candidate, typo_min_length as nat, engine) is None,
        },
{
    if let Some(found) = stage_one(query, candidate, engine, scorer) {
        return Some((found, Stage::One));
    }
    match stage2::score(query, candidate.name.as_str(), typo_min_length) {
        Some(found) => Some((found, Stage::Two)),
        None => None,
    }
}

/// Scores one candidate with stage 1, falling back to stage 2 only once
/// stage 1 returned no match at all.
pub fn dispatch(query: &str, candidate: &Candidate, typo_min_length: usize, engine: Engine) -> (r: Option<(u32, Stage)>)
    requires
        engine == Engine::Nucleo ==> crate::paths::utf8_len(candidate.name@) <= u32::MAX,
    ensures
        match r {
            Some((v, stage)) => dispatch_of(query@, *candidate, typo_min_length as nat, engine) == Some((v as int, stage)),
            None => dispatch_of(query@, *candidate, typo_min_length as nat, engine) is None,
        },
{
    let mut scorer = NucleoScorer::new();
    dispatch_with(query, candidate, typo_min_length, engine, &mut scorer)
}

struct Keyed<'a> {
    scored: Scored<'a>,
    name_len: usize,
    path: Vec<char>,
}

spec fn keyed_wf(k: Keyed) -> bool {
    &&& k.name_len == k.scored.candidate.name@.len()
    &&& k.path@ == k.scored.candidate.path@
}

spec fn keyed_entry(k: Keyed) -> Entry {
    entry_of(k.scored)
}

pub(crate) fn lex_less(a: &Vec<char>, b: &Vec<char>) -> (r: bool)
    ensures
        r == lex_lt(a@, b@),
{
    let mut i: usize = 0;
    assert(a@.skip(0) =~= a@);
    assert(b@.skip(0) =~= b@);
    while i < a.len() && i < b.len()
        invariant
            i <= a@.len(),
            i <= b@.len(),
            lex_lt(a@, b@) == lex_lt(a@.skip(i as int), b@.skip(i as int)),
        decreases a@.len() - i,
    {
        let ghost sa = a@.skip(i as int);
        let ghost sb = b@.skip(i as int);
        assert(sa[0] == a@[i as int]);
        assert(sb[0] == b@[i as int]);
        if a[i] != b[i] {
            return a[i] < b[i];
        }
        assert(sa.drop_first() =~= a@.skip(i + 1));
        assert(sb.drop_first() =~= b@.skip(i + 1));
        i += 1;
    }
    assert(a@.skip(0) =~= a@);
    i < b.len()
}

fn keyed_before(a: &Keyed, b: &Keyed) -> (r: bool)
    requires
        keyed_wf(*a),
        keyed_wf(*b),
    ensures
        r == before(keyed_entry(*a), keyed_entry(*b)),
{
    let sa = a.scored.score;
    let sb = b.scored.score;
    if sa != sb {
        return sa > sb;
    }
    let va = a.scored.candidate.last_visit.unix_seconds();
    let vb = b.scored.candidate.last_visit.unix_seconds();
    if va != vb {
        return va > vb;
    }
    if a.name_len != b.name_len {
        return a.name_len < b.name_len;
    }
    lex_less(&a.path, &b.path)
}

fn keyed(scored: Scored) -> (r: Keyed)
    ensures
        keyed_wf(r),
        r.scored == scored,
{
    let name = text::chars_of(scored.candidate.name.as_str());
    let path = text::chars_of(scored.candidate.path.as_str());
    Keyed { scored, name_len: name.len(), path }
}

/// Stable insertion sort in ranking order.
fn sort_ranked<'a>(items: Vec<Keyed<'a>>) -> (r: Vec<Scored<'a>>)
    requires
        forall|i: int| 0 <= i < items@.len() ==> keyed_wf(#[trigger] items@[i]),
    ensures
        r@.map_values(|s: Scored<'a>| entry_of(s)).to_multiset() == items@.map_values(
            |k: Keyed<'a>| keyed_entry(k),
        ).to_multiset(),
        vstd::relations::sorted_by(r@.map_values(|s: Scored<'a>| entry_of(s)), |a: Entry, b: Entry| ranks_le(a, b)),
        r@.map_values(|s: Scored<'a>| entry_of(s)) == ranked_order(items@.map_values(|k: Keyed<'a>| keyed_entry(k))),
{
    let mut sorted: Vec<Keyed<'a>> = Vec::new();
    let mut i: usize = 0;
    assert(sorted@.map_values(|k: Keyed<'a>| keyed_entry(k)) =~= items@.take(0).map_values(|k: Keyed<'a>| keyed_entry(k)));
    while i < items.len()
        invariant
            i <= items@.len(),
            forall|j: int| 0 <= j < items@.len() ==> keyed_wf(#[trigger] items@[j]),
            forall|j: int| 0 <= j < sorted@.len() ==> keyed_wf(#[trigger] sorted@[j]),
            sorted@.map_values(|k: Keyed<'a>| keyed_entry(k)).to_multiset() == items@.take(i as int).map_values(
                |k: Keyed<'a>| keyed_entry(k),
            ).to_multiset(),
            forall|a: int, b: int|
                0 <= a < b < sorted@.len() ==> ranks_le(#[trigger] keyed_entry(sorted@[a]), #[trigger] keyed_entry(sorted@[b])),
            sorted@.map_values(|k: Keyed<'a>| keyed_entry(k)) == ranked_order(items@.take(i as int).map_values(|k: Keyed<'a>| keyed_entry(k))),
        decreases items@.len() - i,
    {
        let x = Keyed { scored: items[i].scored, name_len: items[i].name_len, path: items[i].path.clone() };
        assert(x.path@ =~= items@[i as int].path@);
        let mut p: usize = 0;
        while p < sorted.len() && !keyed_before(&x, &sorted[p])
            invariant
                p <= sorted@.len(),
                keyed_wf(x),
                forall|j: int| 0 <= j < sorted@.len() ==> keyed_wf(#[trigger] sorted@[j]),
                forall|j: int| 0 <= j < p ==> !before(keyed_entry(x), #[trigger] keyed_entry(sorted@[j])),
            decreases sorted@.len() - p,
        {
            p += 1;
        }
        let ghost old_sorted = sorted@;
        let ghost xe = keyed_entry(x);
        proof {
            assert forall|j: int| p <= j < old_sorted.len() implies ranks_le(xe, #[trigger] keyed_entry(old_sorted[j])) by {
                if p < old_sorted.len() {
                    let pe = keyed_entry(old_sorted[p as int]);
                    assert(before(xe, pe));
                    lemma_before_asymmetric(xe, pe);
                    if j > p {
                        let je = keyed_entry(old_sorted[j]);
                        assert(ranks_le(pe, je));
                        if before(je, xe) {
                            lemma_before_transitive(je, xe, pe);
                        }
                    }
                }
            }
        }
        sorted.insert(p, x);
        proof {
            old_sorted.insert_ensures(p as int, x);
            let f = |k: Keyed<'a>| keyed_entry(k);
            assert(sorted@ == old_sorted.insert(p as int, x));
            assert(sorted@.map_values(f) =~= old_sorted.map_values(f).insert(p as int, xe));
            vstd::seq_lib::to_multiset_insert(old_sorted.map_values(f), p as int, xe);
            assert(items@.take(i + 1).map_values(f) =~= items@.take(i as int).map_values(f).push(xe));
            vstd::seq_lib::to_multiset_build(items@.take(i as int).map_values(f), xe);
            let om = old_sorted.map_values(f);
            assert forall|j: int| 0 <= j < p implies !before(xe, #[trigger] om[j]) by {
                assert(om[j] == keyed_entry(old_sorted[j]));
            }
            if p < om.len() {
                assert(om[p as int] == keyed_entry(old_sorted[p as int]));
            }
            lemma_insert_ranked_at(om, xe, p as int);
            let grown = items@.take(i + 1).map_values(f);
            assert(grown.drop_last() =~= items@.take(i as int).map_values(f));
            assert(grown.last() == xe);
            assert forall|a: int, b: int| 0 <= a < b < sorted@.len() implies ranks_le(
                #[trigger] keyed_entry(sorted@[a]),
                #[trigger] keyed_entry(sorted@[b]),
            ) by {
                if a < p && b <= p {
                } else if a < p && b > p {
                    assert(sorted@[b] == old_sorted[b - 1]);
                } else if a == p {
                    assert(sorted@[b] == old_sorted[b - 1]);
                } else {
                    assert(sorted@[a] == old_sorted[a - 1]);
                    assert(sorted@[b] == old_sorted[b - 1]);
                }
            }
        }
        i += 1;
    }
    assert(items@.take(i as int) =~= items@);
    let mut out: Vec<Scored<'a>> = Vec::new();
    let mut j: usize = 0;
    while j < sorted.len()
        invariant
            j <= sorted@.len(),
            out@.len() == j,
            forall|q: int| 0 <= q < j ==> #[trigger] out@[q] == sorted@[q].scored,
        decreases sorted@.len() - j,
    {
        out.push(sorted[j].scored);
        j += 1;
    }
    proof {
        assert(out@.map_values(|s: Scored<'a>| entry_of(s)) =~= sorted@.map_values(|k: Keyed<'a>| keyed_entry(k)));
    }
    out
}

/// Ranks the matching candidates in ranking order, after dropping the
/// missing ones and `current_dir` itself; candidates that tie on every
/// key keep their input order.
pub fn rank<'a>(
    query: &str,
    current_dir: &str,
    candidates: &'a [Candidate],
    typo_min_length: usize,
    engine: Engine,
) -> (r: Vec<Scored<'a>>)
    requires
        engine == Engine::Nucleo ==> forall|i: int| 0 <= i < candidates@.len() ==> crate::paths::utf8_len((#[trigger] candidates@[i]).name@) <= u32::MAX,
    ensures
        r@.map_values(|s: Scored<'a>| entry_of(s)).to_multiset() == pool(query@, current_dir@, candidates@, typo_min_length as nat, engine).to_multiset(),
        vstd::relations::sorted_by(r@.map_values(|s: Scored<'a>| entry_of(s)), |a: Entry, b: Entry| ranks_le(a, b)),
        r@.map_values(|s: Scored<'a>| entry_of(s)) == ranked_order(pool(query@, current_dir@, candidates@, typo_min_length as nat, engine)),
{
    let mut scorer = NucleoScorer::new();
    let mut kept: Vec<Keyed<'a>> = Vec::new();
    let mut i: usize = 0;
    while i < candidates.len()
        invariant
            i <= candidates@.len(),
            engine == Engine::Nucleo ==> forall|j: int| 0 <= j < candidates@.len() ==> crate::paths::utf8_len((#[trigger] candidates@[j]).name@) <= u32::MAX,
            forall|j: int| 0 <= j < kept@.len() ==> keyed_wf(#[trigger] kept@[j]),
            kept@.map_values(|k: Keyed<'a>| keyed_entry(k)) == pool(query@, current_dir@, candidates@.take(i as int), typo_min_length as nat, engine),
        decreases candidates@.len() - i,
    {
        let candidate: &'a Candidate = &candidates[i];
        let ghost before_kept = kept@;
        assert(candidates@.take(i + 1).drop_last() =~= candidates@.take(i as int));
        assert(candidates@.take(i + 1).last() == *candidate);
        if !candidate.missing && !same_path(candidate.path.as_str(), current_dir) {
            if let Some((score, stage)) = dispatch_with(query, candidate, typo_min_length, engine, &mut scorer) {
                let entry = keyed(Scored { candidate, score, stage });
                kept.push(entry);
                assert(kept@.map_values(|k: Keyed<'a>| keyed_entry(k)) =~= before_kept.map_values(|k: Keyed<'a>| keyed_entry(k)).push(keyed_entry(entry)));
            }
        }
        i += 1;
    }
    assert(candidates@.take(i as int) =~= candidates@);
    sort_ranked(kept)
}

/// A ranking sort criterion, in the order the comparator applies them.
#[derive(Debug, Clone, Copy, PartialEq, Eq, Structural)]
pub enum TieBreak {
    Score,
    Recency,
    NameLength,
    Path,
}

/// The first criterion on which `a` and `b` differ; `Path` when only the
/// path (or nothing) tells them apart.
pub open spec fn criterion_of(a: Entry, b: Entry) -> TieBreak {
    let (x, y) = (key_of(a), key_of(b));
    if x.0 != y.0 {
        TieBreak::Score
    } else if x.1 != y.1 {
        TieBreak::Recency
    } else if x.2 != y.2 {
        TieBreak::NameLength
    } else {
        TieBreak::Path
    }
}

/// First criterion on which the winner and the runner-up of an already
/// ranked list differ; `None` when there is no runner-up.
pub fn deciding_criterion(ranked: &[Scored]) -> (r: Option<TieBreak>)
    ensures
        r == (if ranked@.len() < 2 {
            None
        } else {
            Some(criterion_of(entry_of(ranked@[0]), entry_of(ranked@[1])))
        }),
{
    if ranked.len() < 2 {
        return None;
    }
    let winner = ranked[0];
    let runner_up = ranked[1];
    if winner.score != runner_up.score {
        return Some(TieBreak::Score);
    }
    if winner.candidate.last_visit.unix_seconds() != runner_up.candidate.last_visit.unix_seconds() {
        return Some(TieBreak::Recency);
    }
    let wn = text::chars_of(winner.candidate.name.as_str());
    let rn = text::chars_of(runner_up.candidate.name.as_str());
    if wn.len() != rn.len() {
        return Some(TieBreak::NameLength);
    }
    Some(TieBreak::Path)
}


/// Every stage-1 match of a ranking comes before every stage-2 match: the
/// stage-1 floor lies above the stage-2 cap.
pub proof fn lemma_stage_one_before_stage_two<'a>(
    query: Seq<char>,
    current_dir: Seq<char>,
    cs: Seq<Candidate>,
    typo_min_length: nat,
    engine: Engine,
    ranked: Seq<Scored<'a>>,
)
    requires
        ranked.map_values(|s: Scored<'a>| entry_of(s)).to_multiset() == pool(query, current_dir, cs, typo_min_length, engine).to_multiset(),
        vstd::relations::sorted_by(ranked.map_values(|s: Scored<'a>| entry_of(s)), |a: Entry, b: Entry| ranks_le(a, b)),
    ensures
        forall|i: int, j: int| 0 <= i < j < ranked.len() && (#[trigger] ranked[j]).stage == Stage::One ==> (#[trigger] ranked[i]).stage == Stage::One,
{
    let es = ranked.map_values(|s: Scored<'a>| entry_of(s));
    assert forall|i: int, j: int| 0 <= i < j < ranked.len() && (#[trigger] ranked[j]).stage == Stage::One implies (#[trigger] ranked[i]).stage == Stage::One by {
        lemma_ranked_member(query, current_dir, cs, typo_min_length, engine, ranked, i);
        lemma_ranked_member(query, current_dir, cs, typo_min_length, engine, ranked, j);
        lemma_dispatch_ranges(query, *ranked[i].candidate, typo_min_length, engine);
        lemma_dispatch_ranges(query, *ranked[j].candidate, typo_min_length, engine);
        assert(es[i] == entry_of(ranked[i]) && es[j] == entry_of(ranked[j]));
        assert((|a: Entry, b: Entry| ranks_le(a, b))(es[i], es[j]));
    }
}

/// A higher score always ranks first, however recent the weaker match.
pub proof fn lemma_score_beats_recency(a: Entry, b: Entry)
    requires
        a.1 > b.1,
    ensures
        before(a, b),
        !before(b, a),
{
}


/// No two entries share a path.
pub open spec fn distinct_paths(s: Seq<Entry>) -> bool {
    forall|i: int, j: int| 0 <= i < j < s.len() ==> (#[trigger] s[i]).0.path@ != (#[trigger] s[j]).0.path@
}

/// No two candidates share a path.
pub open spec fn distinct_candidate_paths(cs: Seq<Candidate>) -> bool {
    forall|i: int, j: int| 0 <= i < j < cs.len() ==> (#[trigger] cs[i]).path@ != (#[trigger] cs[j]).path@
}

/// `e` is what the pool holds for its candidate.
pub open spec fn pooled(query: Seq<char>, current_dir: Seq<char>, typo_min_length: nat, engine: Engine, e: Entry) -> bool {
    &&& !e.0.missing
    &&& !same_path_of(e.0.path@, current_dir)
    &&& dispatch_of(query, e.0, typo_min_length, engine) == Some((e.1, e.2))
}

proof fn lemma_pool_count(query: Seq<char>, current_dir: Seq<char>, cs: Seq<Candidate>, typo_min_length: nat, engine: Engine, e: Entry)
    ensures
        pool(query, current_dir, cs, typo_min_length, engine).to_multiset().count(e) == if pooled(query, current_dir, typo_min_length, engine, e) {
            cs.to_multiset().count(e.0)
        } else {
            0
        },
    decreases cs.len(),
{
    broadcast use vstd::multiset::group_multiset_axioms;

    if cs.len() == 0 {
        vstd::seq_lib::to_multiset_contains(cs, e.0);
        vstd::seq_lib::to_multiset_contains(pool(query, current_dir, cs, typo_min_length, engine), e);
    } else {
        let rest = pool(query, current_dir, cs.drop_last(), typo_min_length, engine);
        lemma_pool_count(query, current_dir, cs.drop_last(), typo_min_length, engine, e);
        assert(cs.drop_last().push(cs.last()) =~= cs);
        vstd::seq_lib::to_multiset_build(cs.drop_last(), cs.last());
        let c = cs.last();
        if !(c.missing || same_path_of(c.path@, current_dir)) {
            match dispatch_of(query, c, typo_min_length, engine) {
                Some((v, stage)) => {
                    vstd::seq_lib::to_multiset_build(rest, (c, v, stage));
                },
                None => {},
            }
        }
    }
}

proof fn lemma_pool_permutation(
    query: Seq<char>,
    current_dir: Seq<char>,
    cs1: Seq<Candidate>,
    cs2: Seq<Candidate>,
    typo_min_length: nat,
    engine: Engine,
)
    requires
        cs1.to_multiset() == cs2.to_multiset(),
    ensures
        pool(query, current_dir, cs1, typo_min_length, engine).to_multiset() == pool(query, current_dir, cs2, typo_min_length, engine).to_multiset(),
{
    assert forall|e: Entry| #[trigger] pool(query, current_dir, cs1, typo_min_length, engine).to_multiset().count(e)
        == pool(query, current_dir, cs2, typo_min_length, engine).to_multiset().count(e) by {
        lemma_pool_count(query, current_dir, cs1, typo_min_length, engine, e);
        lemma_pool_count(query, current_dir, cs2, typo_min_length, engine, e);
    }
    assert(pool(query, current_dir, cs1, typo_min_length, engine).to_multiset() =~= pool(query, current_dir, cs2, typo_min_length, engine).to_multiset());
}

proof fn lemma_pool_distinct(query: Seq<char>, current_dir: Seq<char>, cs: Seq<Candidate>, typo_min_length: nat, engine: Engine)
    requires
        distinct_candidate_paths(cs),
    ensures
        distinct_paths(pool(query, current_dir, cs, typo_min_length, engine)),
    decreases cs.len(),
{
    if cs.len() > 0 {
        let front = cs.drop_last();
        assert(distinct_candidate_paths(front)) by {
            assert forall|i: int, j: int| 0 <= i < j < front.len() implies (#[trigger] front[i]).path@ != (#[trigger] front[j]).path@ by {
                assert(front[i] == cs[i] && front[j] == cs[j]);
            }
        }
        lemma_pool_distinct(query, current_dir, front, typo_min_length, engine);
        let rest = pool(query, current_dir, front, typo_min_length, engine);
        let p = pool(query, current_dir, cs, typo_min_length, engine);
        if p.len() > rest.len() {
            assert forall|i: int, j: int| 0 <= i < j < p.len() implies (#[trigger] p[i]).0.path@ != (#[trigger] p[j]).0.path@ by {
                if j < rest.len() {
                    assert(p[i] == rest[i] && p[j] == rest[j]);
                } else {
                    assert(p[i] == rest[i]);
                    assert(rest.contains(rest[i]));
                    lemma_pool_member(query, current_dir, front, typo_min_length, engine, rest[i]);
                    let k = choose|k: int| 0 <= k < front.len() && front[k] == rest[i].0;
                    assert(cs[k] == front[k]);
                    assert(p[j].0 == cs[cs.len() - 1]);
                }
            }
        }
    }
}

proof fn lemma_distinct_transfer(s1: Seq<Entry>, s2: Seq<Entry>)
    requires
        s1.to_multiset() == s2.to_multiset(),
        distinct_paths(s2),
    ensures
        distinct_paths(s1),
{
    broadcast use vstd::multiset::group_multiset_axioms;

    assert(s2.no_duplicates()) by {
        assert forall|i: int, j: int| 0 <= i < s2.len() && 0 <= j < s2.len() && i != j implies s2[i] != s2[j] by {
            if i < j {
                assert(s2[i].0.path@ != s2[j].0.path@);
            } else {
                assert(s2[j].0.path@ != s2[i].0.path@);
            }
        }
    }
    s2.lemma_multiset_has_no_duplicates();
    assert forall|x: Entry| s1.to_multiset().contains(x) implies s1.to_multiset().count(x) == 1 by {
        assert(s2.to_multiset().contains(x));
    }
    s1.lemma_multiset_has_no_duplicates_conv();
    assert forall|i: int, j: int| 0 <= i < j < s1.len() implies (#[trigger] s1[i]).0.path@ != (#[trigger] s1[j]).0.path@ by {
        assert(s1[i] != s1[j]);
        vstd::seq_lib::to_multiset_contains(s1, s1[i]);
        vstd::seq_lib::to_multiset_contains(s1, s1[j]);
        assert(s1.contains(s1[i]) && s1.contains(s1[j]));
        vstd::seq_lib::to_multiset_contains(s2, s1[i]);
        vstd::seq_lib::to_multiset_contains(s2, s1[j]);
        let p = choose|p: int| 0 <= p < s2.len() && s2[p] == s1[i];
        let q = choose|q: int| 0 <= q < s2.len() && s2[q] == s1[j];
        if p < q {
            assert(s2[p].0.path@ != s2[q].0.path@);
        } else if q < p {
            assert(s2[q].0.path@ != s2[p].0.path@);
        }
    }
}

proof fn lemma_sorted_unique(a: Seq<Entry>, b: Seq<Entry>)
    requires
        a.to_multiset() == b.to_multiset(),
        vstd::relations::sorted_by(a, |x: Entry, y: Entry| ranks_le(x, y)),
        vstd::relations::sorted_by(b, |x: Entry, y: Entry| ranks_le(x, y)),
        distinct_paths(a),
    ensures
        a == b,
    decreases a.len(),
{
    broadcast use vstd::multiset::group_multiset_axioms;

    vstd::seq_lib::to_multiset_len(a);
    vstd::seq_lib::to_multiset_len(b);
    if a.len() == 0 {
        assert(a =~= b);
    } else {
        let le = |x: Entry, y: Entry| ranks_le(x, y);
        if a[0] != b[0] {
            vstd::seq_lib::to_multiset_contains(b, b[0]);
            vstd::seq_lib::to_multiset_contains(a, b[0]);
            vstd::seq_lib::to_multiset_contains(a, a[0]);
            vstd::seq_lib::to_multiset_contains(b, a[0]);
            assert(b.contains(b[0]));
            assert(a.contains(a[0]));
            let p = choose|p: int| 0 <= p < a.len() && a[p] == b[0];
            let q = choose|q: int| 0 <= q < b.len() && b[q] == a[0];
            assert(p != 0 && q != 0);
            assert(le(a[0], a[p]));
            assert(le(b[0], b[q]));
            assert(a[0].0.path@ != a[p].0.path@);
            assert(key_of(a[0]) != key_of(b[0]));
            lemma_key_order_is_strict_total();
            let r = |x: KeyTuple, y: KeyTuple| key_before(x, y);
            assert(r(key_of(a[0]), key_of(b[0])) || r(key_of(b[0]), key_of(a[0])));
        }
        let a1 = a.drop_first();
        let b1 = b.drop_first();
        assert(a.remove(0) =~= a1);
        assert(b.remove(0) =~= b1);
        vstd::seq_lib::to_multiset_remove(a, 0);
        vstd::seq_lib::to_multiset_remove(b, 0);
        assert(vstd::relations::sorted_by(a1, le)) by {
            assert forall|i: int, j: int| 0 <= i < j < a1.len() implies #[trigger] le(a1[i], a1[j]) by {
                assert(le(a[i + 1], a[j + 1]));
            }
        }
        assert(vstd::relations::sorted_by(b1, le)) by {
            assert forall|i: int, j: int| 0 <= i < j < b1.len() implies #[trigger] le(b1[i], b1[j]) by {
                assert(le(b[i + 1], b[j + 1]));
            }
        }
        assert(distinct_paths(a1)) by {
            assert forall|i: int, j: int| 0 <= i < j < a1.len() implies (#[trigger] a1[i]).0.path@ != (#[trigger] a1[j]).0.path@ by {
                assert(a1[i] == a[i + 1] && a1[j] == a[j + 1]);
            }
        }
        lemma_sorted_unique(a1, b1);
        assert(a =~= b) by {
            assert forall|i: int| 0 <= i < a.len() implies a[i] == b[i] by {
                if i > 0 {
                    assert(a[i] == a1[i - 1] && b[i] == b1[i - 1]);
                }
            }
        }
    }
}

/// The ranking ignores the input order: ranking two orderings of the same
/// candidates, no two sharing a path, gives the same sequence of entries.
pub proof fn lemma_ranking_ignores_input_order<'a, 'b>(
    query: Seq<char>,
    current_dir: Seq<char>,
    cs1: Seq<Candidate>,
    cs2: Seq<Candidate>,
    typo_min_length: nat,
    engine: Engine,
    r1: Seq<Scored<'a>>,
    r2: Seq<Scored<'b>>,
)
    requires
        cs1.to_multiset() == cs2.to_multiset(),
        distinct_candidate_paths(cs1),
        r1.map_values(|s: Scored<'a>| entry_of(s)).to_multiset() == pool(query, current_dir, cs1, typo_min_length, engine).to_multiset(),
        vstd::relations::sorted_by(r1.map_values(|s: Scored<'a>| entry_of(s)), |a: Entry, b: Entry| ranks_le(a, b)),
        r2.map_values(|s: Scored<'b>| entry_of(s)).to_multiset() == pool(query, current_dir, cs2, typo_min_length, engine).to_multiset(),
        vstd::relations::sorted_by(r2.map_values(|s: Scored<'b>| entry_of(s)), |a: Entry, b: Entry| ranks_le(a, b)),
    ensures
        r1.map_values(|s: Scored<'a>| entry_of(s)) == r2.map_values(|s: Scored<'b>| entry_of(s)),
{
    let e1 = r1.map_values(|s: Scored<'a>| entry_of(s));
    let e2 = r2.map_values(|s: Scored<'b>| entry_of(s));
    lemma_pool_permutation(query, current_dir, cs1, cs2, typo_min_length, engine);
    lemma_pool_distinct(query, current_dir, cs1, typo_min_length, engine);
    lemma_distinct_transfer(e1, pool(query, current_dir, cs1, typo_min_length, engine));
    lemma_sorted_unique(e1, e2);
}

} // verus!
