//! The opt-in nucleo stage-1 scorer: each normalized query token
//! is matched against the unnormalized name by nucleo's fuzzy matcher; the token
//! scores are summed, floored, and given the stage-1 folder bonus.
use nucleo_matcher::pattern::{Atom, AtomKind, CaseMatching, Normalization};
use nucleo_matcher::{Config, Matcher, Utf32Str};
use vstd::prelude::*;

use crate::normalize::Normalized;
use crate::stage1::{self, SCORE_FLOOR};

verus! {

#[verifier::external_type_specification]
#[verifier::external_body]
pub struct ExMatcher(Matcher);

/// nucleo's fuzzy score of the needle `token` against the haystack `name`,
/// for an atom built with case ignored, smart normalization, and no escaping,
/// scored by a matcher whose configuration is `Config::DEFAULT`.
pub uninterp spec fn nucleo_token_score(token: Seq<char>, name: Seq<char>) -> Option<u16>;

/// `Matcher::new(Config::DEFAULT)`.
#[verifier::external_body]
fn new_matcher() -> Matcher {
    Matcher::new(Config::DEFAULT)
}

/// `Atom::new(token, CaseMatching::Ignore, Normalization::Smart,
/// AtomKind::Fuzzy, false)` scored by `Atom::score` against `name` (through
/// `Utf32Str::new`). `Atom::score` overwrites the two configuration fields it
/// depends on from the atom, and the scorer's matcher is only ever built with
/// `Config::DEFAULT`, so the score depends on `token` and `name` alone.
/// nucleo asserts that the haystack `Utf32Str::new` builds has at most
/// `u32::MAX` elements: the UTF-8 bytes of a name stored in ASCII form, one
/// `char` per grapheme otherwise, never more than the name's UTF-8 length,
/// which the `requires` bounds.
#[verifier::external_body]
fn atom_score(matcher: &mut Matcher, buffer: &mut Vec<char>, token: &str, name: &str) -> (r: Option<u16>)
    requires
        crate::paths::utf8_len(name@) <= u32::MAX,
    ensures
        r == nucleo_token_score(token@, name@),
{
    let atom = Atom::new(token, CaseMatching::Ignore, Normalization::Smart, AtomKind::Fuzzy, false);
    atom.score(Utf32Str::new(name, buffer), matcher)
}

/// One query token's nucleo score, after normalization of the token.
#[derive(Debug, Clone, PartialEq, Eq)]
pub struct TokenScore {
    pub token: String,
    pub score: u32,
}

/// Every component behind a nucleo stage-1 score, plus the score itself.
#[derive(Debug, Clone, PartialEq, Eq)]
pub struct Breakdown {
    pub tokens: Vec<TokenScore>,
    pub sum: u32,
    pub floored: u32,
    pub folder_bonus: u32,
    pub total: u32,
}

/// The nucleo scores of every token, or `None` when a token is empty or does
/// not match.
pub open spec fn token_scores(tokens: Seq<Seq<char>>, name: Seq<char>) -> Option<Seq<int>>
    decreases tokens.len(),
{
    if tokens.len() == 0 {
        Some(seq![])
    } else {
        match token_scores(tokens.drop_last(), name) {
            None => None,
            Some(scores) => if tokens.last().len() == 0 {
                None
            } else {
                match nucleo_token_score(tokens.last(), name) {
                    None => None,
                    Some(v) => Some(scores.push(v as int)),
                }
            },
        }
    }
}

/// Sum of `scores`, saturating at `u32::MAX`.
pub open spec fn saturating_sum(scores: Seq<int>) -> int
    decreases scores.len(),
{
    if scores.len() == 0 {
        0
    } else {
        stage1::clamp_u32(saturating_sum(scores.drop_last()) + scores.last())
    }
}

/// The floored total plus the folder bonus, saturating.
pub open spec fn floored_total_of(sum: int, bonus: int) -> int {
    stage1::clamp_u32((if sum < SCORE_FLOOR { SCORE_FLOOR as int } else { sum }) + bonus)
}

/// The nucleo stage-1 score of `query` against `name` and its folder.
pub open spec fn score_of(query: Seq<char>, name: Seq<char>, folder: Option<Seq<char>>) -> Option<int> {
    let tokens = stage1::query_tokens(query);
    if tokens.len() == 0 {
        None
    } else {
        match token_scores(tokens, name) {
            None => None,
            Some(scores) => Some(
                floored_total_of(saturating_sum(scores), stage1::folder_bonus_of(tokens, folder)),
            ),
        }
    }
}

/// Every nucleo stage-1 score is at least `SCORE_FLOOR`, as with the
/// reference engine.
pub proof fn lemma_score_at_least_floor(query: Seq<char>, name: Seq<char>, folder: Option<Seq<char>>)
    ensures
        score_of(query, name, folder) matches Some(v) ==> v >= SCORE_FLOOR,
{
}

/// `r` is what `explain` reports for this query, name and folder: `Some`
/// exactly when `score_of` is, with every token's nucleo score, their
/// saturating sum, the floored sum, the folder bonus and the total.
pub open spec fn explained(query: Seq<char>, name: Seq<char>, folder: Option<Seq<char>>, r: Option<Breakdown>) -> bool {
    &&& (r is Some <==> score_of(query, name, folder) is Some)
    &&& (r matches Some(b) ==> {
        let tokens = stage1::query_tokens(query);
        let scores = token_scores(tokens, name)->0;
        &&& score_of(query, name, folder) == Some(b.total as int)
        &&& b.tokens@.len() == tokens.len()
        &&& forall|i: int|
            0 <= i < tokens.len() ==> (#[trigger] b.tokens@[i]).token@ == tokens[i]
                && b.tokens@[i].score == scores[i]
        &&& b.sum == saturating_sum(scores)
        &&& b.floored == (if b.sum < SCORE_FLOOR { SCORE_FLOOR } else { b.sum })
        &&& b.folder_bonus == stage1::folder_bonus_of(tokens, folder)
    })
}

/// Stage-1 scorer backed by nucleo; one instance reuses one `Matcher`
/// allocation across every candidate it scores.
pub struct NucleoScorer {
    matcher: Matcher,
    haystack: Vec<char>,
}

impl Default for NucleoScorer {
    fn default() -> (r: Self)
        ensures
            r.is_fresh(),
    {
        Self::new()
    }
}

impl NucleoScorer {
    /// The scorer has scored nothing yet: its haystack buffer is empty.
    pub closed spec fn is_fresh(&self) -> bool {
        self.haystack@.len() == 0
    }

    /// Builds the scorer and its single `Matcher` with nucleo's default config.
    pub fn new() -> (r: Self)
        ensures
            r.is_fresh(),
    {
        NucleoScorer { matcher: new_matcher(), haystack: Vec::new() }
    }

    /// Stage-1 score of `query` against a candidate `name` and its joined
    /// parent segments; `None` when a token does not match the name.
    pub fn score(&mut self, query: &str, name: &str, folder: Option<&str>) -> (r: Option<u32>)
        requires
            crate::paths::utf8_len(name@) <= u32::MAX,
        ensures
            match r {
                Some(v) => score_of(query@, name@, stage1::opt_view(folder)) == Some(v as int),
                None => score_of(query@, name@, stage1::opt_view(folder)) is None,
            },
    {
        match self.explain(query, name, folder) {
            Some(breakdown) => Some(breakdown.total),
            None => None,
        }
    }

    /// Same match as `score`, reporting each token's nucleo score.
    pub fn explain(&mut self, query: &str, name: &str, folder: Option<&str>) -> (r: Option<Breakdown>)
        requires
            crate::paths::utf8_len(name@) <= u32::MAX,
        ensures
            explained(query@, name@, stage1::opt_view(folder), r),
    {
        let tokens = stage1::normalized_tokens(query);
        let ghost views = stage1::token_views(tokens@);
        if tokens.len() == 0 {
            return None;
        }
        let mut reported: Vec<TokenScore> = Vec::new();
        let mut sum: u32 = 0;
        let mut i: usize = 0;
        while i < tokens.len()
            invariant
                views == stage1::token_views(tokens@),
                views == stage1::query_tokens(query@),
                crate::paths::utf8_len(name@) <= u32::MAX,
                i <= tokens@.len(),
                reported@.len() == i,
                token_scores(views.take(i as int), name@) is Some,
                forall|j: int|
                    0 <= j < i ==> (#[trigger] reported@[j]).token@ == views[j]
                        && reported@[j].score == token_scores(views.take(i as int), name@)->0[j],
                sum == saturating_sum(token_scores(views.take(i as int), name@)->0),
            decreases tokens@.len() - i,
        {
            let ghost before = token_scores(views.take(i as int), name@)->0;
            proof {
                lemma_scores_len(views.take(i as int), name@);
            }
            assert(views.take(i + 1).drop_last() =~= views.take(i as int));
            assert(views[i as int] == tokens@[i as int].spec_chars());
            if tokens[i].is_empty() {
                proof {
                    assert(views.take(i + 1).last() == views[i as int]);
                    assert(token_scores(views.take(i + 1), name@) is None);
                    lemma_scores_prefix(views, name@, (i + 1) as nat);
                }
                return None;
            }
            let text = tokens[i].text();
            let found = match atom_score(&mut self.matcher, &mut self.haystack, text.as_str(), name) {
                Some(found) => found,
                None => {
                    proof {
                        assert(views.take(i + 1).last() == views[i as int]);
                        assert(token_scores(views.take(i + 1), name@) is None);
                        lemma_scores_prefix(views, name@, (i + 1) as nat);
                    }
                    return None;
                },
            };
            let score = found as u32;
            sum = if sum > 0xFFFF_FFFF - score {
                0xFFFF_FFFF
            } else {
                sum + score
            };
            reported.push(TokenScore { token: text, score });
            proof {
                let after = token_scores(views.take(i + 1), name@)->0;
                assert(after == before.push(score as int));
                assert(after.drop_last() =~= before);
            }
            i += 1;
        }
        assert(views.take(i as int) =~= views);
        proof {
            lemma_scores_len(views, name@);
        }
        let folder_bonus = stage1::folder_bonus(&tokens, folder);
        let floored = if sum < SCORE_FLOOR {
            SCORE_FLOOR
        } else {
            sum
        };
        let total = floored_total(sum, folder_bonus);
        Some(Breakdown { tokens: reported, sum, floored, folder_bonus, total })
    }
}

/// The summed token scores raised to `SCORE_FLOOR`, plus the folder bonus,
/// saturating at `u32::MAX`.
pub fn floored_total(sum: u32, folder_bonus: u32) -> (r: u32)
    ensures
        r == floored_total_of(sum as int, folder_bonus as int),
{
    let floored = if sum < SCORE_FLOOR {
        SCORE_FLOOR
    } else {
        sum
    };
    if floored > 0xFFFF_FFFF - folder_bonus {
        0xFFFF_FFFF
    } else {
        floored + folder_bonus
    }
}

/// One score per token.
proof fn lemma_scores_len(tokens: Seq<Seq<char>>, name: Seq<char>)
    ensures
        token_scores(tokens, name) matches Some(scores) ==> scores.len() == tokens.len(),
    decreases tokens.len(),
{
    if tokens.len() > 0 {
        lemma_scores_len(tokens.drop_last(), name);
    }
}

/// A token list fails as soon as one of its prefixes fails.
proof fn lemma_scores_prefix(tokens: Seq<Seq<char>>, name: Seq<char>, n: nat)
    requires
        n <= tokens.len(),
        token_scores(tokens.take(n as int), name) is None,
    ensures
        token_scores(tokens, name) is None,
    decreases tokens.len() - n,
{
    if n < tokens.len() {
        assert(tokens.take((n + 1) as int).drop_last() =~= tokens.take(n as int));
        lemma_scores_prefix(tokens, name, n + 1);
    } else {
        assert(tokens.take(n as int) =~= tokens);
    }
}

} // verus!
