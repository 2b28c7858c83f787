//! Stage 1 of the engine: every query token must be a
//! subsequence of the candidate's name; each token's best placement is found
//! by a two-row dynamic program and scored with fixed per-character bonuses.
use vstd::prelude::*;

use crate::normalize::{self, Normalized};
use crate::text;

verus! {

const TOKEN_BASE: i64 = 10;
const CONSECUTIVE_BONUS: i64 = 8;
const WORD_START_BONUS: i64 = 10;
const NAME_START_BONUS: i64 = 8;
const PREFIX_BONUS: i64 = 10;
const DENSITY_FACTOR: i64 = 10;
const GAP_PENALTY: i64 = 1;
const ORDER_BONUS: i64 = 5;
const FOLDER_BONUS: u32 = 2;

/// Lowest score stage 1 can return; it sits above the 1..3 range of stage 2.
pub const SCORE_FLOOR: u32 = 4;

/// Longest normalized name stage 1 scores: up to this size every component
/// of a token's score, a placement of up to 18 points per character
/// included, fits the breakdown's `i64` fields. A name this long (2^58
/// characters, an exbibyte of memory) is beyond any machine, so names past
/// it, treated as matching nothing, never occur.
pub const MAX_LEN: u64 = 0x0400_0000_0000_0000;

// ---------------------------------------------------------------------------
// The model.
// ---------------------------------------------------------------------------

/// Bonus for the token's first character landing at `i`.
pub open spec fn first_bonus(s: Seq<char>, i: int) -> int {
    (if normalize::word_start(s, i) { 10int } else { 0int }) + (if i == 0 { 8int } else { 0int })
}

/// Bonus for a later token character landing at a word start.
pub open spec fn word_bonus(s: Seq<char>, i: int) -> int {
    if normalize::word_start(s, i) { 10int } else { 0int }
}

/// What moving from a character placed at `j` to the next one at `i > j`
/// adds: the consecutive bonus, or one point off per skipped character.
pub open spec fn step(j: int, i: int) -> int {
    if j + 1 == i { 8int } else { j + 1 - i }
}

/// The larger of two optional `(score, start)` candidates; the first one wins
/// a tie.
pub open spec fn keep_first(first: Option<(int, int)>, second: Option<(int, int)>) -> Option<(int, int)> {
    match (first, second) {
        (None, _) => second,
        (Some(f), None) => first,
        (Some(f), Some(g)) => if g.0 > f.0 { second } else { first },
    }
}

/// Best `(score, start)` of a placement of `t[0..=k]` in the normalized `s`
/// whose last character lands at `i`; among equal scores, the placement whose
/// predecessors sit at the smallest positions.
pub open spec fn best_at(t: Seq<char>, s: Seq<char>, k: nat, i: nat) -> Option<(int, int)>
    decreases k, i + 1,
{
    let c = normalize::normalize_seq(s);
    if k >= t.len() || i >= c.len() || c[i as int] != t[k as int] {
        None
    } else if k == 0 {
        Some((first_bonus(s, i as int), i as int))
    } else {
        match best_pred(t, s, k, i, i) {
            Some(p) => Some((p.0 + word_bonus(s, i as int), p.1)),
            None => None,
        }
    }
}

/// Best predecessor for `t[k]` at `i` among positions `j < m`: the score of
/// `t[0..k]` ending at `j` plus the step from `j` to `i`.
pub open spec fn best_pred(t: Seq<char>, s: Seq<char>, k: nat, i: nat, m: nat) -> Option<(int, int)>
    decreases k, m,
{
    if k == 0 || m == 0 {
        None
    } else {
        let j = (m - 1) as nat;
        let here = match best_at(t, s, (k - 1) as nat, j) {
            Some(p) => Some((p.0 + step(j as int, i as int), p.1)),
            None => None,
        };
        keep_first(best_pred(t, s, k, i, j), here)
    }
}

/// Best placement of the whole token ending at a position below `m`; the
/// smallest end position wins a tie.
pub open spec fn best_end(t: Seq<char>, s: Seq<char>, m: nat) -> Option<(int, int)>
    decreases m,
{
    if m == 0 || t.len() == 0 {
        None
    } else {
        keep_first(best_end(t, s, (m - 1) as nat), best_at(t, s, (t.len() - 1) as nat, (m - 1) as nat))
    }
}

/// The best placement of token `t` in the normalized `s`.
pub open spec fn best_placement_of(t: Seq<char>, s: Seq<char>) -> Option<(int, int)> {
    best_end(t, s, normalize::normalize_seq(s).len())
}

/// `t` is a subsequence of `c`.
pub open spec fn subseq(t: Seq<char>, c: Seq<char>) -> bool
    decreases c.len(),
{
    if t.len() == 0 {
        true
    } else if c.len() == 0 {
        false
    } else if t[0] == c[0] {
        subseq(t.drop_first(), c.drop_first())
    } else {
        subseq(t, c.drop_first())
    }
}

/// `t` is a prefix of `c`.
pub open spec fn is_prefix(t: Seq<char>, c: Seq<char>) -> bool {
    t.len() <= c.len() && c.take(t.len() as int) == t
}

/// One token's contribution: `(length, placement, prefix, density, start)`.
#[verifier::opaque]
pub open spec fn token_match(t: Seq<char>, s: Seq<char>) -> Option<(int, int, int, int, int)> {
    let c = normalize::normalize_seq(s);
    if !subseq(t, c) || t.len() == 0 {
        None
    } else {
        match best_placement_of(t, s) {
            None => None,
            Some(p) => Some(
                (
                    t.len() as int,
                    p.0,
                    if is_prefix(t, c) { 10int } else { 0int },
                    (10 * t.len()) as int / c.len() as int,
                    p.1,
                ),
            ),
        }
    }
}

/// Base plus every bonus of one matched token.
pub open spec fn token_total(m: (int, int, int, int, int)) -> int {
    10 + m.0 + m.1 + m.2 + m.3
}

/// The normalized query tokens.
pub open spec fn query_tokens(query: Seq<char>) -> Seq<Seq<char>> {
    text::words(query).map_values(|w: Seq<char>| normalize::normalize_seq(w))
}

/// Every token matches the name.
pub open spec fn all_match(tokens: Seq<Seq<char>>, s: Seq<char>) -> bool {
    forall|i: int| 0 <= i < tokens.len() ==> (#[trigger] token_match(tokens[i], s)) is Some
}

/// Sum of the token totals.
pub open spec fn sum_totals(tokens: Seq<Seq<char>>, s: Seq<char>) -> int
    decreases tokens.len(),
{
    if tokens.len() == 0 {
        0
    } else {
        sum_totals(tokens.drop_last(), s) + token_total(token_match(tokens.last(), s)->0)
    }
}

/// The token match starts strictly increase in typed order.
pub open spec fn in_order(tokens: Seq<Seq<char>>, s: Seq<char>) -> bool {
    forall|i: int|
        0 <= i < tokens.len() - 1 ==> match_start(#[trigger] token_match(tokens[i], s))
            < match_start(token_match(tokens[i + 1], s))
}

/// Where a matched token starts.
pub open spec fn match_start(m: Option<(int, int, int, int, int)>) -> int {
    match m {
        Some(found) => found.4,
        None => 0,
    }
}

/// Every token is non-empty and a subsequence of the normalized folder.
pub open spec fn folder_matches(tokens: Seq<Seq<char>>, folder: Seq<char>) -> bool {
    forall|i: int|
        0 <= i < tokens.len() ==> (#[trigger] tokens[i]).len() > 0 && subseq(
            tokens[i],
            normalize::normalize_seq(folder),
        )
}

/// The folder bonus `folder` earns for `tokens`.
pub open spec fn folder_bonus_of(tokens: Seq<Seq<char>>, folder: Option<Seq<char>>) -> int {
    match folder {
        Some(f) => if folder_matches(tokens, f) { 2int } else { 0int },
        None => 0int,
    }
}

/// The order bonus.
pub open spec fn order_bonus_of(tokens: Seq<Seq<char>>, s: Seq<char>) -> int {
    if in_order(tokens, s) { 5int } else { 0int }
}

/// `x` clamped into `u32`.
pub open spec fn clamp_u32(x: int) -> int {
    if x > u32::MAX { u32::MAX as int } else { x }
}

/// The normalized name is within the size stage 1 scores (`MAX_LEN`); the
/// query may hold any number of tokens.
pub open spec fn within_limits(query: Seq<char>, name: Seq<char>) -> bool {
    normalize::normalize_seq(name).len() <= MAX_LEN
}

/// Stage-1 score of `query` against `name` and its folder: tokens summed,
/// order bonus, floored at `SCORE_FLOOR`, folder bonus on top.
#[verifier::opaque]
pub open spec fn score_of(query: Seq<char>, name: Seq<char>, folder: Option<Seq<char>>) -> Option<int> {
    let tokens = query_tokens(query);
    if tokens.len() == 0 || !within_limits(query, name) || !all_match(tokens, name) {
        None
    } else {
        let total = sum_totals(tokens, name) + order_bonus_of(tokens, name);
        let floored = clamp_u32(if total < 4 { 4 } else { total });
        Some(clamp_u32(floored + folder_bonus_of(tokens, folder)))
    }
}

/// Every stage-1 score is at least `SCORE_FLOOR`: the floor is applied
/// before the folder bonus, which only adds.
pub proof fn lemma_score_at_least_floor(query: Seq<char>, name: Seq<char>, folder: Option<Seq<char>>)
    ensures
        score_of(query, name, folder) matches Some(v) ==> v >= SCORE_FLOOR,
{
    reveal(score_of);
}

pub open spec fn opt_view(folder: Option<&str>) -> Option<Seq<char>> {
    match folder {
        Some(f) => Some(f@),
        None => None,
    }
}

// ---------------------------------------------------------------------------
// Facts about the model.
// ---------------------------------------------------------------------------

proof fn lemma_best_at_bounds(t: Seq<char>, s: Seq<char>, k: nat, i: nat)
    ensures
        best_at(t, s, k, i) matches Some(p) ==> {
            &&& -(i as int) <= p.0 <= 18 * (k + 1)
            &&& 0 <= p.1 <= i
            &&& k <= i
        },
    decreases k, i + 1,
{
    let c = normalize::normalize_seq(s);
    if k >= t.len() || i >= c.len() || c[i as int] != t[k as int] {
    } else if k == 0 {
    } else {
        lemma_best_pred_bounds(t, s, k, i, i);
    }
}

proof fn lemma_best_pred_bounds(t: Seq<char>, s: Seq<char>, k: nat, i: nat, m: nat)
    requires
        m <= i,
    ensures
        best_pred(t, s, k, i, m) matches Some(p) ==> {
            &&& -(i as int) + 1 <= p.0 <= 18 * k + 8
            &&& 0 <= p.1 < m
            &&& k <= m
        },
    decreases k, m,
{
    if k == 0 || m == 0 {
    } else {
        let j = (m - 1) as nat;
        lemma_best_pred_bounds(t, s, k, i, j);
        lemma_best_at_bounds(t, s, (k - 1) as nat, j);
    }
}

/// Best value of `score(j) + j` over positions `j < m` of the previous row;
/// the smallest position wins a tie. The dynamic program carries it.
pub open spec fn run_best(t: Seq<char>, s: Seq<char>, k: nat, m: nat) -> Option<(int, int)>
    decreases m,
{
    if m == 0 || k == 0 {
        None
    } else {
        let j = (m - 1) as nat;
        let here = match best_at(t, s, (k - 1) as nat, j) {
            Some(p) => Some((p.0 + j, p.1)),
            None => None,
        };
        keep_first(run_best(t, s, k, j), here)
    }
}

pub open spec fn shift(o: Option<(int, int)>, d: int) -> Option<(int, int)> {
    match o {
        Some(p) => Some((p.0 + d, p.1)),
        None => None,
    }
}

proof fn lemma_pred_shift(t: Seq<char>, s: Seq<char>, k: nat, i: nat, m: nat)
    requires
        k >= 1,
        m < i,
    ensures
        best_pred(t, s, k, i, m) == shift(run_best(t, s, k, m), 1 - i),
    decreases m,
{
    if m > 0 {
        lemma_pred_shift(t, s, k, i, (m - 1) as nat);
    }
}

proof fn lemma_run_bounds(t: Seq<char>, s: Seq<char>, k: nat, m: nat)
    requires
        k >= 1,
    ensures
        run_best(t, s, k, m) matches Some(p) ==> 0 <= p.0 <= 18 * k + m && 0 <= p.1 < m,
    decreases m,
{
    if m > 0 {
        lemma_run_bounds(t, s, k, (m - 1) as nat);
        lemma_best_at_bounds(t, s, (k - 1) as nat, (m - 1) as nat);
    }
}

proof fn lemma_subseq_len(t: Seq<char>, c: Seq<char>)
    requires
        subseq(t, c),
    ensures
        t.len() <= c.len(),
    decreases c.len(),
{
    if t.len() == 0 {
    } else if t[0] == c[0] {
        lemma_subseq_len(t.drop_first(), c.drop_first());
    } else {
        lemma_subseq_len(t, c.drop_first());
    }
}

proof fn lemma_best_end_bounds(t: Seq<char>, s: Seq<char>, m: nat)
    ensures
        best_end(t, s, m) matches Some(p) ==> {
            &&& -(m as int) <= p.0 <= 18 * t.len()
            &&& 0 <= p.1 < m
            &&& t.len() <= m
        },
    decreases m,
{
    if m > 0 && t.len() > 0 {
        lemma_best_end_bounds(t, s, (m - 1) as nat);
        lemma_best_at_bounds(t, s, (t.len() - 1) as nat, (m - 1) as nat);
    }
}

// ---------------------------------------------------------------------------
// The implementation.
// ---------------------------------------------------------------------------

/// The best placement of a token: its points and where it starts.
#[derive(Clone, Copy)]
pub struct Placement {
    pub score: i128,
    pub start: usize,
}

pub open spec fn pv(o: Option<Placement>) -> Option<(int, int)> {
    match o {
        Some(p) => Some((p.score as int, p.start as int)),
        None => None,
    }
}

/// The best-scoring placement of `token` in `candidate`, by dynamic
/// programming over both strings.
pub fn best_placement(token: &Normalized, candidate: &Normalized) -> (r: Option<Placement>)
    ensures
        pv(r) == best_placement_of(token.spec_chars(), candidate@),
{
    let ghost t = token.spec_chars();
    let ghost s = candidate@;
    let characters = candidate.chars();
    let tchars = token.chars();
    let n = characters.len();
    if tchars.len() == 0 {
        return None;
    }
    if n == 0 {
        return None;
    }
    let first = tchars[0];
    let mut previous: Vec<Option<Placement>> = Vec::new();
    let mut current: Vec<Option<Placement>> = Vec::new();
    let mut index: usize = 0;
    while index < n
        invariant
            n == characters@.len(),
            characters@ == normalize::normalize_seq(s),
            s == candidate@,
            tchars@ == t,
            t.len() > 0,
            first == t[0],
            index <= n,
            previous@.len() == index,
            current@.len() == index,
            forall|j: int| 0 <= j < index ==> pv(#[trigger] previous@[j]) == best_at(t, s, 0, j as nat),
        decreases n - index,
    {
        let available = characters[index];
        let mut placed: Option<Placement> = None;
        if available == first {
            let mut score: i128 = 0;
            let at_word = candidate.is_word_start(index);
            assert(at_word == normalize::word_start(s, index as int));
            if at_word {
                score += WORD_START_BONUS as i128;
            }
            if index == 0 {
                score += NAME_START_BONUS as i128;
            }
            assert(score == first_bonus(s, index as int));
            placed = Some(Placement { score, start: index });
        }
        proof {
            let c = normalize::normalize_seq(s);
            assert(c[index as int] == available);
            if available == first {
                assert(best_at(t, s, 0, index as nat) == Some((first_bonus(s, index as int), index as int)));
                assert(pv(placed) == Some((first_bonus(s, index as int), index as int)));
            } else {
                assert(best_at(t, s, 0, index as nat) is None);
            }
        }
        previous.push(placed);
        current.push(None);
        index += 1;
    }
    let mut k: usize = 1;
    while k < tchars.len()
        invariant
            n == characters@.len(),
            characters@ == normalize::normalize_seq(s),
            s == candidate@,
            tchars@ == t,
            1 <= k <= t.len(),
            previous@.len() == n,
            current@.len() == n,
            forall|j: int|
                0 <= j < n ==> pv(#[trigger] previous@[j]) == best_at(t, s, (k - 1) as nat, j as nat),
        decreases t.len() - k,
    {
        let wanted = tchars[k];
        let mut running: Option<Placement> = None;
        let mut index: usize = 0;
        while index < n
            invariant
                n == characters@.len(),
                characters@ == normalize::normalize_seq(s),
                s == candidate@,
            s == candidate@,
                tchars@ == t,
                    1 <= k < t.len(),
                wanted == t[k as int],
                index <= n,
                previous@.len() == n,
                current@.len() == n,
                forall|j: int|
                    0 <= j < n ==> pv(#[trigger] previous@[j]) == best_at(t, s, (k - 1) as nat, j as nat),
                forall|j: int| 0 <= j < index ==> pv(#[trigger] current@[j]) == best_at(t, s, k as nat, j as nat),
                pv(running) == run_best(t, s, k as nat, if index == 0 { 0 } else { (index - 1) as nat }),
            decreases n - index,
        {
            let ghost kk = k as nat;
            let ghost ii = index as nat;
            let earlier = if index > 0 { previous[index - 1] } else { None };
            proof {
                if index > 0 {
                    lemma_best_at_bounds(t, s, (kk - 1) as nat, (ii - 1) as nat);
                    lemma_run_bounds(t, s, kk, (ii - 1) as nat);
                }
            }
            if let Some(earlier) = earlier {
                let lifted = earlier.score + GAP_PENALTY as i128 * (index as i128 - 1);
                let replace = match running {
                    None => true,
                    Some(best) => lifted > best.score,
                };
                if replace {
                    running = Some(Placement { score: lifted, start: earlier.start });
                }
            }
            proof {
                if index > 0 {
                    assert(pv(running) == run_best(t, s, kk, ii));
                    lemma_run_bounds(t, s, kk, ii);
                }
            }
            let mut placed: Option<Placement> = None;
            if index > 0 && characters[index] == wanted {
                let mut best = match running {
                    Some(carried) => Some(
                        Placement {
                            score: carried.score - GAP_PENALTY as i128 * (index as i128 - 1),
                            start: carried.start,
                        },
                    ),
                    None => None,
                };
                proof {
                    lemma_pred_shift(t, s, kk, ii, (ii - 1) as nat);
                    assert(pv(best) == shift(run_best(t, s, kk, ii), 1 - ii));
                    assert(best_pred(t, s, kk, ii, (ii - 1) as nat) == shift(
                        run_best(t, s, kk, (ii - 1) as nat),
                        1 - ii,
                    ));
                }
                if let Some(earlier) = earlier {
                    let consecutive = earlier.score + CONSECUTIVE_BONUS as i128;
                    let replace = match best {
                        None => true,
                        Some(found) => consecutive > found.score,
                    };
                    if replace {
                        best = Some(Placement { score: consecutive, start: earlier.start });
                    }
                }
                proof {
                    assert(pv(best) == best_pred(t, s, kk, ii, ii));
                    lemma_best_pred_bounds(t, s, kk, ii, ii);
                }
                if let Some(found) = best {
                    let mut found = found;
                    if candidate.is_word_start(index) {
                        found.score = found.score + WORD_START_BONUS as i128;
                    }
                    placed = Some(found);
                }
            }
            proof {
                assert(pv(placed) == best_at(t, s, kk, ii));
            }
            current.set(index, placed);
            index += 1;
        }
        std::mem::swap(&mut previous, &mut current);
        k += 1;
    }
    let ghost last = (t.len() - 1) as nat;
    let mut result: Option<Placement> = None;
    let mut index: usize = 0;
    while index < n
        invariant
            n == characters@.len(),
            characters@ == normalize::normalize_seq(s),
            s == candidate@,
            t.len() > 0,
            last == t.len() - 1,
            index <= n,
            previous@.len() == n,
            forall|j: int| 0 <= j < n ==> pv(#[trigger] previous@[j]) == best_at(t, s, last, j as nat),
            pv(result) == best_end(t, s, index as nat),
        decreases n - index,
    {
        if let Some(found) = previous[index] {
            let keep = match result {
                Some(kept) => kept.score >= found.score,
                None => false,
            };
            if !keep {
                result = Some(found);
            }
        }
        index += 1;
    }
    result
}

/// Whether `token` is a subsequence of `candidate`.
pub fn is_subsequence(token: &[char], candidate: &[char]) -> (r: bool)
    ensures
        r == subseq(token@, candidate@),
{
    let mut ti: usize = 0;
    let mut ci: usize = 0;
    assert(token@.skip(0) =~= token@);
    assert(candidate@.skip(0) =~= candidate@);
    while ci < candidate.len()
        invariant
            ti <= token.len(),
            ci <= candidate.len(),
            subseq(token@, candidate@) == subseq(token@.skip(ti as int), candidate@.skip(ci as int)),
        decreases candidate.len() - ci,
    {
        if ti == token.len() {
            return true;
        }
        let ghost tt = token@.skip(ti as int);
        let ghost cc = candidate@.skip(ci as int);
        assert(cc.drop_first() =~= candidate@.skip(ci + 1));
        assert(tt.drop_first() =~= token@.skip(ti + 1));
        if token[ti] == candidate[ci] {
            ti += 1;
        }
        ci += 1;
    }
    ti == token.len()
}

/// Whether `candidate` starts with `token`.
fn starts_with(candidate: &[char], token: &[char]) -> (r: bool)
    ensures
        r == is_prefix(token@, candidate@),
{
    if token.len() > candidate.len() {
        return false;
    }
    let mut i: usize = 0;
    while i < token.len()
        invariant
            token.len() <= candidate.len(),
            i <= token.len(),
            forall|j: int| 0 <= j < i ==> token@[j] == candidate@[j],
        decreases token.len() - i,
    {
        if token[i] != candidate[i] {
            assert(candidate@.take(token.len() as int)[i as int] != token@[i as int]);
            return false;
        }
        i += 1;
    }
    assert(candidate@.take(token.len() as int) =~= token@);
    true
}

/// One token's match: its length, placement, prefix and density bonuses,
/// and where its placement starts.
pub struct TokenMatch {
    pub length: i128,
    pub placement: i128,
    pub prefix: i128,
    pub density: i128,
    pub start: usize,
}

pub open spec fn tm_view(m: TokenMatch) -> (int, int, int, int, int) {
    (m.length as int, m.placement as int, m.prefix as int, m.density as int, m.start as int)
}

impl TokenMatch {
    fn total(&self) -> (r: i128)
        requires
            -0x1_0000_0000_0000_0000 <= self.placement <= 18 * 0x1_0000_0000_0000_0000,
            0 <= self.length <= 0x1_0000_0000_0000_0000,
            0 <= self.prefix <= 10,
            0 <= self.density <= 10,
        ensures
            r == token_total(tm_view(*self)),
    {
        TOKEN_BASE as i128 + self.length + self.placement + self.prefix + self.density
    }
}

/// Matches one token against the candidate name.
pub fn match_token(token: &Normalized, candidate: &Normalized) -> (r: Option<TokenMatch>)
    ensures
        match r {
            Some(m) => token_match(token.spec_chars(), candidate@) == Some(tm_view(m))
                && -candidate.spec_chars().len() <= m.placement <= 18 * candidate.spec_chars().len()
                && 1 <= m.length <= candidate.spec_chars().len()
                && 0 <= m.prefix <= 10 && 0 <= m.density <= 10 && m.start < candidate.spec_chars().len(),
            None => token_match(token.spec_chars(), candidate@) is None,
        },
{
    let ghost t = token.spec_chars();
    let ghost s = candidate@;
    reveal(token_match);
    if !is_subsequence(token.chars(), candidate.chars()) || token.is_empty() {
        return None;
    }
    proof {
        lemma_subseq_len(t, normalize::normalize_seq(s));
        lemma_best_end_bounds(t, s, normalize::normalize_seq(s).len());
    }
    let placement = match best_placement(token, candidate) {
        Some(p) => p,
        None => return None,
    };
    let length = token.len() as i128;
    let prefix = if starts_with(candidate.chars(), token.chars()) {
        PREFIX_BONUS as i128
    } else {
        0
    };
    let cl: i128 = candidate.len() as i128;
    let density = DENSITY_FACTOR as i128 * length / cl;
    assert(0 <= density <= 10) by (nonlinear_arith)
        requires
            density == (10 * length as int) / (cl as int),
            0 <= length <= cl,
            cl >= 1,
    ;
    Some(TokenMatch { length, placement: placement.score, prefix, density, start: placement.start })
}

} // verus!

verus! {

/// The normalized characters of each token.
pub open spec fn token_views(tokens: Seq<Normalized>) -> Seq<Seq<char>> {
    tokens.map_values(|n: Normalized| n.spec_chars())
}

/// The normalized whitespace-separated tokens of `query`.
pub fn normalized_tokens(query: &str) -> (r: Vec<Normalized>)
    ensures
        token_views(r@) == query_tokens(query@),
        r@.len() == text::words(query@).len(),
{
    let chars = text::chars_of(query);
    let words = text::split_whitespace(chars.as_slice());
    let ghost all = words@.map_values(|w: Vec<char>| w@);
    let mut tokens: Vec<Normalized> = Vec::new();
    let mut i: usize = 0;
    let n = words.len();
    while i < n
        invariant
            n == all.len(),
            all == text::words(query@),
            i <= n,
            words@.len() == n,
            forall|j: int| i <= j < n ==> (#[trigger] words@[j])@ == all[j],
            tokens@.len() == i,
            forall|j: int| 0 <= j < i ==> (#[trigger] tokens@[j]).spec_chars() == normalize::normalize_seq(all[j]),
        decreases n - i,
    {
        let word = words[i].clone();
        assert(word@ =~= words@[i as int]@);
        tokens.push(Normalized::from_chars(word));
        i += 1;
    }
    assert(token_views(tokens@) =~= query_tokens(query@));
    tokens
}

pub(crate) proof fn lemma_total_step(i: int, total: int, step: int, n: int)
    requires
        0 <= i,
        0 <= n <= MAX_LEN,
        -i * MAX_LEN <= total <= i * (30 + 19 * MAX_LEN),
        11 - n <= step <= 30 + 19 * n,
    ensures
        -(i + 1) * MAX_LEN <= total + step <= (i + 1) * (30 + 19 * MAX_LEN),
{
    assert((i + 1) * MAX_LEN == i * MAX_LEN + MAX_LEN) by (nonlinear_arith);
    assert((i + 1) * (30 + 19 * MAX_LEN) == i * (30 + 19 * MAX_LEN) + (30 + 19 * MAX_LEN))
        by (nonlinear_arith);
}

pub(crate) proof fn lemma_total_bound(i: int)
    requires
        0 <= i <= 0x1_0000_0000_0000_0000,
    ensures
        i * (30 + 19 * MAX_LEN) <= 0x6000_0000_0000_0000_0000_0000_0000_0000,
        -i * MAX_LEN >= -0x6000_0000_0000_0000_0000_0000_0000_0000,
{
    assert(i * (30 + 19 * MAX_LEN) <= 0x1_0000_0000_0000_0000 * (30 + 19 * MAX_LEN)) by (nonlinear_arith)
        requires
            0 <= i <= 0x1_0000_0000_0000_0000,
    ;
    assert(i * MAX_LEN <= 0x1_0000_0000_0000_0000 * MAX_LEN) by (nonlinear_arith)
        requires
            0 <= i <= 0x1_0000_0000_0000_0000,
    ;
    assert(0x1_0000_0000_0000_0000 * (30 + 19 * MAX_LEN) <= 0x6000_0000_0000_0000_0000_0000_0000_0000);
    assert(0x1_0000_0000_0000_0000 * MAX_LEN <= 0x6000_0000_0000_0000_0000_0000_0000_0000);
}

/// Matches every token; `None` as soon as one fails, else the summed token
/// totals and the match starts.
fn match_all(tokens: &Vec<Normalized>, candidate: &Normalized) -> (r: Option<(i128, Vec<usize>)>)
    requires
        candidate.spec_chars().len() <= MAX_LEN,
    ensures
        match r {
            Some((total, starts)) => {
                &&& all_match(token_views(tokens@), candidate@)
                &&& total == sum_totals(token_views(tokens@), candidate@)
                &&& -0x6000_0000_0000_0000_0000_0000_0000_0000 <= total <= 0x6000_0000_0000_0000_0000_0000_0000_0000
                &&& starts@.len() == tokens@.len()
                &&& forall|j: int|
                    0 <= j < starts@.len() ==> #[trigger] starts@[j] as int == match_start(
                        token_match(token_views(tokens@)[j], candidate@),
                    )
            },
            None => !all_match(token_views(tokens@), candidate@),
        },
{
    let ghost views = token_views(tokens@);
    let ghost s = candidate@;
    let mut total: i128 = 0;
    let mut starts: Vec<usize> = Vec::new();
    let count = tokens.len();
    assert(tokens@.len() == count);
    let mut i: usize = 0;
    while i < tokens.len()
        invariant
            views == token_views(tokens@),
            s == candidate@,
            tokens@.len() <= usize::MAX,
            candidate.spec_chars().len() <= MAX_LEN,
            i <= tokens@.len(),
            all_match(views.take(i as int), s),
            total == sum_totals(views.take(i as int), s),
            -(i as int) * MAX_LEN <= total <= (i as int) * (30 + 19 * MAX_LEN),
            starts@.len() == i,
            forall|j: int|
                0 <= j < i ==> #[trigger] starts@[j] as int == match_start(token_match(views[j], s)),
        decreases tokens@.len() - i,
    {
        let matched = match match_token(&tokens[i], candidate) {
            Some(m) => m,
            None => {
                assert(token_match(views[i as int], s) is None);
                return None;
            },
        };
        proof {
            lemma_total_step(i as int, total as int, token_total(tm_view(matched)), candidate.spec_chars().len() as int);
            lemma_total_bound(i + 1);
            assert(views.take(i + 1).drop_last() =~= views.take(i as int));
        }
        total = total + matched.total();
        starts.push(matched.start);
        i += 1;
    }
    assert(views.take(i as int) =~= views);
    proof {
        lemma_total_bound(i as int);
    }
    Some((total, starts))
}

proof fn lemma_order(starts: Seq<usize>, views: Seq<Seq<char>>, s: Seq<char>)
    requires
        starts.len() == views.len(),
        forall|j: int|
            0 <= j < starts.len() ==> #[trigger] starts[j] as int == match_start(token_match(views[j], s)),
    ensures
        (forall|i: int| 0 <= i < starts.len() - 1 ==> #[trigger] starts[i] < starts[i + 1]) == in_order(views, s),
{
    if forall|i: int| 0 <= i < starts.len() - 1 ==> #[trigger] starts[i] < starts[i + 1] {
        assert forall|i: int| 0 <= i < views.len() - 1 implies match_start(
            #[trigger] token_match(views[i], s),
        ) < match_start(token_match(views[i + 1], s)) by {
            assert(starts[i] < starts[i + 1]);
        }
    } else {
        let i = choose|i: int| 0 <= i < starts.len() - 1 && !(#[trigger] starts[i] < starts[i + 1]);
        assert(starts[i] as int == match_start(token_match(views[i], s)));
        assert(starts[i + 1] as int == match_start(token_match(views[i + 1], s)));
    }
}

/// Whether the starts strictly increase, pair by pair.
fn starts_increase(starts: &Vec<usize>) -> (r: bool)
    ensures
        r == (forall|i: int| 0 <= i < starts@.len() - 1 ==> #[trigger] starts@[i] < starts@[i + 1]),
{
    let len = starts.len();
    if len < 2 {
        return true;
    }
    let mut i: usize = 0;
    while i < len - 1
        invariant
            len == starts@.len(),
            len >= 2,
            forall|j: int| 0 <= j < i ==> #[trigger] starts@[j] < starts@[j + 1],
            i <= len - 1,
        decreases len - i,
    {
        if starts[i] >= starts[i + 1] {
            return false;
        }
        i += 1;
    }
    true
}

/// Whether every token is also a subsequence of the joined parent segments.
pub fn matches_folder(tokens: &Vec<Normalized>, folder: &str) -> (r: bool)
    ensures
        r == folder_matches(token_views(tokens@), folder@),
{
    let normalized = Normalized::new(folder);
    let mut i: usize = 0;
    while i < tokens.len()
        invariant
            i <= tokens@.len(),
            normalized@ == folder@,
            forall|j: int|
                0 <= j < i ==> (#[trigger] token_views(tokens@)[j]).len() > 0 && subseq(
                    token_views(tokens@)[j],
                    normalized.spec_chars(),
                ),
        decreases tokens@.len() - i,
    {
        assert(token_views(tokens@)[i as int] == tokens@[i as int].spec_chars());
        if tokens[i].is_empty() || !is_subsequence(tokens[i].chars(), normalized.chars()) {
            return false;
        }
        i += 1;
    }
    true
}

/// The `+2` folder bonus the tokens earn against `folder`.
pub fn folder_bonus(tokens: &Vec<Normalized>, folder: Option<&str>) -> (r: u32)
    ensures
        r == folder_bonus_of(token_views(tokens@), opt_view(folder)),
{
    match folder {
        Some(part) => if matches_folder(tokens, part) {
            FOLDER_BONUS
        } else {
            0
        },
        None => 0,
    }
}

/// Floors the summed total at `SCORE_FLOOR` and adds the folder bonus, both
/// clamped into `u32`.
fn floored_total(total: i128, bonus: u32) -> (r: u32)
    requires
        bonus <= 2,
    ensures
        r == clamp_u32(clamp_u32(if total < 4 { 4 } else { total as int }) + bonus),
{
    let floored: i128 = if total < 4 { 4 } else { total };
    let clamped: u32 = if floored > 0xFFFF_FFFF { 0xFFFF_FFFF } else { floored as u32 };
    if clamped > 0xFFFF_FFFF - bonus {
        0xFFFF_FFFF
    } else {
        clamped + bonus
    }
}

/// Stage-1 score of `query` against a candidate `name` and its joined parent
/// segments. `None` when a query token is not a subsequence of the name.
#[verifier::rlimit(60)]
pub fn score(query: &str, name: &str, folder: Option<&str>) -> (r: Option<u32>)
    ensures
        match r {
            Some(v) => score_of(query@, name@, opt_view(folder)) == Some(v as int),
            None => score_of(query@, name@, opt_view(folder)) is None,
        },
{
    let tokens = normalized_tokens(query);
    if tokens.len() == 0 {
        assert(score_of(query@, name@, opt_view(folder)) is None) by {
            reveal(score_of);
        }
        return None;
    }
    let candidate = Normalized::new(name);
    if candidate.len() as u64 > MAX_LEN {
        assert(score_of(query@, name@, opt_view(folder)) is None) by {
            reveal(score_of);
        }
        return None;
    }
    let (total, starts) = match match_all(&tokens, &candidate) {
        Some(found) => found,
        None => {
            assert(score_of(query@, name@, opt_view(folder)) is None) by {
                reveal(score_of);
            }
            return None;
        },
    };
    proof {
        lemma_total_bound(tokens@.len() as int);
    }
    let ordered = starts_increase(&starts);
    proof {
        lemma_order(starts@, token_views(tokens@), candidate@);
    }
    let with_order = if ordered {
        total + ORDER_BONUS as i128
    } else {
        total
    };
    let bonus = folder_bonus(&tokens, folder);
    let result = floored_total(with_order, bonus);
    proof {
        let tokensv = query_tokens(query@);
        assert(tokensv == token_views(tokens@));
        assert(within_limits(query@, name@));
        assert(all_match(tokensv, name@));
        assert(with_order == sum_totals(tokensv, name@) + order_bonus_of(tokensv, name@));
        assert(bonus == folder_bonus_of(tokensv, opt_view(folder)));
        assert(score_of(query@, name@, opt_view(folder)) == Some(result as int)) by {
            reveal(score_of);
        }
    }
    Some(result)
}

/// One query token's stage-1 contribution, split into base and bonuses.
#[derive(Debug, Clone, PartialEq, Eq)]
pub struct TokenBreakdown {
    pub token: String,
    pub base: i64,
    pub length: i64,
    pub placement: i64,
    pub prefix: i64,
    pub density: i64,
}

/// Every component behind a stage-1 score, plus the score itself.
#[derive(Debug, Clone, PartialEq, Eq)]
pub struct Breakdown {
    pub tokens: Vec<TokenBreakdown>,
    pub order_bonus: i64,
    pub folder_bonus: i64,
    pub total: u32,
}

/// `b` reports token `t`'s match `m` in `s`.
pub open spec fn reports(b: TokenBreakdown, t: Seq<char>, s: Seq<char>) -> bool {
    let m = token_match(t, s)->0;
    &&& b.token@ == t
    &&& b.base == 10
    &&& b.length == m.0
    &&& b.placement == m.1
    &&& b.prefix == m.2
    &&& b.density == m.3
}

/// `r` is what `explain` reports for this query, name and folder: `Some`
/// exactly when `score_of` is, with every token's bonuses, the order and
/// folder bonuses, and the total that `score_of` gives.
pub open spec fn explained(query: Seq<char>, name: Seq<char>, folder: Option<Seq<char>>, r: Option<Breakdown>) -> bool {
    &&& (r is Some <==> score_of(query, name, folder) is Some)
    &&& (r matches Some(b) ==> {
        let tokens = query_tokens(query);
        &&& score_of(query, name, folder) == Some(b.total as int)
        &&& b.tokens@.len() == tokens.len()
        &&& forall|i: int| 0 <= i < tokens.len() ==> reports(#[trigger] b.tokens@[i], tokens[i], name)
        &&& b.order_bonus == order_bonus_of(tokens, name)
        &&& b.folder_bonus == folder_bonus_of(tokens, folder)
        &&& bounded(b)
    })
}

/// The ranges every reported component stays within.
pub open spec fn token_bounded(t: TokenBreakdown) -> bool {
    &&& t.base == 10
    &&& 1 <= t.length <= MAX_LEN
    &&& -(MAX_LEN as int) <= t.placement <= 18 * MAX_LEN
    &&& 0 <= t.prefix <= 10
    &&& 0 <= t.density <= 10
}

/// A breakdown of at most 2^64 tokens, each within range.
pub open spec fn bounded(b: Breakdown) -> bool {
    &&& b.tokens@.len() <= 0x1_0000_0000_0000_0000
    &&& forall|i: int| 0 <= i < b.tokens@.len() ==> token_bounded(#[trigger] b.tokens@[i])
    &&& 0 <= b.order_bonus <= 5
    &&& 0 <= b.folder_bonus <= 2
}

/// Same match as `score`, reporting each token's bonuses; `Some` exactly
/// when `score` is, with `total` equal to what `score` returned.
#[verifier::rlimit(60)]
pub fn explain(query: &str, name: &str, folder: Option<&str>) -> (r: Option<Breakdown>)
    ensures
        explained(query@, name@, opt_view(folder), r),
{
    let tokens = normalized_tokens(query);
    let candidate = Normalized::new(name);
    if candidate.len() as u64 > MAX_LEN {
        assert(score_of(query@, name@, opt_view(folder)) is None) by {
            reveal(score_of);
        }
        return None;
    }
    let ghost views = token_views(tokens@);
    let ghost s = candidate@;
    let mut reported: Vec<TokenBreakdown> = Vec::new();
    let mut starts: Vec<usize> = Vec::new();
    let count = tokens.len();
    assert(tokens@.len() == count);
    let mut i: usize = 0;
    while i < tokens.len()
        invariant
            views == token_views(tokens@),
            views == query_tokens(query@),
            s == candidate@,
            s == name@,
            candidate.spec_chars().len() <= MAX_LEN,
            i <= tokens@.len(),
            reported@.len() == i,
            starts@.len() == i,
            forall|j: int| 0 <= j < i ==> reports(#[trigger] reported@[j], views[j], s),
            forall|j: int| 0 <= j < i ==> token_bounded(#[trigger] reported@[j]),
            tokens@.len() <= usize::MAX,
            forall|j: int|
                0 <= j < i ==> #[trigger] starts@[j] as int == match_start(token_match(views[j], s)),
            forall|j: int| 0 <= j < i ==> (#[trigger] token_match(views[j], s)) is Some,
        decreases tokens@.len() - i,
    {
        let matched = match match_token(&tokens[i], &candidate) {
            Some(m) => m,
            None => {
                assert(views[i as int] == tokens@[i as int].spec_chars());
                assert(token_match(views[i as int], s) is None);
                assert(!all_match(views, s));
                assert(score_of(query@, name@, opt_view(folder)) is None) by {
                    reveal(score_of);
                }
                return None;
            },
        };
        starts.push(matched.start);
        reported.push(
            TokenBreakdown {
                token: tokens[i].text(),
                base: TOKEN_BASE,
                length: matched.length as i64,
                placement: matched.placement as i64,
                prefix: matched.prefix as i64,
                density: matched.density as i64,
            },
        );
        i += 1;
    }
    let total = match score(query, name, folder) {
        Some(total) => total,
        None => return None,
    };
    let ordered = starts_increase(&starts);
    proof {
        lemma_order(starts@, views, s);
    }
    let order_bonus = if ordered {
        ORDER_BONUS
    } else {
        0
    };
    let folder_bonus = folder_bonus(&tokens, folder) as i64;
    Some(Breakdown { tokens: reported, order_bonus, folder_bonus, total })
}

} // verus!
