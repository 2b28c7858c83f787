//! Stage 2 of the engine: typo tolerance for a mono-token
//! query, by optimal string alignment distance against every window of the
//! name whose length is within two of the query's.
use vstd::prelude::*;

use crate::normalize::{self, Normalized};
use crate::text;

verus! {

const WINDOW_SLACK: usize = 2;

/// Largest optimal string alignment distance stage 2 still accepts, for a
/// query of at least `LONG_QUERY_MIN_LEN` normalized characters.
pub const MAX_DISTANCE: usize = 2;

/// Largest distance stage 2 accepts below `LONG_QUERY_MIN_LEN`, where two
/// edits would rewrite half the query.
pub const SHORT_QUERY_MAX_DISTANCE: usize = 1;

/// Query length, in normalized characters, from which `MAX_DISTANCE` applies.
pub const LONG_QUERY_MIN_LEN: usize = 6;

/// Shortest normalized mono-token query stage 2 accepts; the default behind
/// the `typo_min_length` config override.
pub const TYPO_MIN_QUERY_LEN: usize = 4;

/// Highest score stage 2 can return; it sits below `stage1::SCORE_FLOOR`.
pub const SCORE_CAP: u32 = 3;

/// Optimal string alignment distance between the first `i` characters of
/// `l` and the first `j` of `r`: insertions, deletions, substitutions, and
/// transpositions of adjacent characters, no substring edited twice.
pub open spec fn osa(l: Seq<char>, r: Seq<char>, i: nat, j: nat) -> nat
    decreases i + j,
{
    if i == 0 {
        j
    } else if j == 0 {
        i
    } else {
        let cost: nat = if l[i - 1] == r[j - 1] { 0 } else { 1 };
        let edit = min3(osa(l, r, i, (j - 1) as nat) + 1, osa(l, r, (i - 1) as nat, j) + 1, osa(l, r, (i - 1) as nat, (j - 1) as nat) + cost);
        if i > 1 && j > 1 && l[i - 1] == r[j - 2] && l[i - 2] == r[j - 1] {
            min2(edit, osa(l, r, (i - 2) as nat, (j - 2) as nat) + cost)
        } else {
            edit
        }
    }
}

/// The same recurrence with a transposition of adjacent characters always
/// counted as one edit.
pub open spec fn osa_unit_transposition(l: Seq<char>, r: Seq<char>, i: nat, j: nat) -> nat
    decreases i + j,
{
    if i == 0 {
        j
    } else if j == 0 {
        i
    } else {
        let cost: nat = if l[i - 1] == r[j - 1] { 0 } else { 1 };
        let edit = min3(
            osa_unit_transposition(l, r, i, (j - 1) as nat) + 1,
            osa_unit_transposition(l, r, (i - 1) as nat, j) + 1,
            osa_unit_transposition(l, r, (i - 1) as nat, (j - 1) as nat) + cost,
        );
        if i > 1 && j > 1 && l[i - 1] == r[j - 2] && l[i - 2] == r[j - 1] {
            min2(edit, osa_unit_transposition(l, r, (i - 2) as nat, (j - 2) as nat) + 1)
        } else {
            edit
        }
    }
}

/// Charging a transposition one edit gives the same distance: the
/// transposition arm only ever costs nothing when it swaps two equal
/// characters, which the diagonal already aligns at no cost.
pub proof fn lemma_osa_unit_transposition(l: Seq<char>, r: Seq<char>, i: nat, j: nat)
    ensures
        osa(l, r, i, j) == osa_unit_transposition(l, r, i, j),
    decreases i + j,
{
    if i > 0 && j > 0 {
        lemma_osa_unit_transposition(l, r, i, (j - 1) as nat);
        lemma_osa_unit_transposition(l, r, (i - 1) as nat, j);
        lemma_osa_unit_transposition(l, r, (i - 1) as nat, (j - 1) as nat);
        if i > 1 && j > 1 {
            lemma_osa_unit_transposition(l, r, (i - 2) as nat, (j - 2) as nat);
            if l[i - 1] == r[j - 2] && l[i - 2] == r[j - 1] && l[i - 1] == r[j - 1] {
                assert(l[i - 2] == r[j - 2]);
                assert(osa(l, r, (i - 1) as nat, (j - 1) as nat) <= osa(l, r, (i - 2) as nat, (j - 2) as nat));
            }
        }
    }
}

pub open spec fn min2(a: nat, b: nat) -> nat {
    if a <= b { a } else { b }
}

pub open spec fn min3(a: nat, b: nat, c: nat) -> nat {
    min2(min2(a, b), c)
}

/// The distance between two whole sequences.
pub open spec fn distance(l: Seq<char>, r: Seq<char>) -> nat {
    osa(l, r, l.len(), r.len())
}

/// Shortest window length searched.
pub open spec fn shortest_window(q: nat, c: nat) -> nat {
    let s: nat = if q >= 2 { (q - 2) as nat } else { 0 };
    if s <= c { s } else { c }
}

/// Longest window length searched.
pub open spec fn longest_window(q: nat, c: nat) -> nat {
    if q + 2 <= c { q + 2 } else { c }
}

/// Smallest distance from `q` to a window of `c` of length `len` starting
/// below `starts`, or `best` when smaller.
pub open spec fn windows_of_len(q: Seq<char>, c: Seq<char>, len: nat, starts: nat, best: nat) -> nat
    decreases starts,
{
    if starts == 0 {
        best
    } else {
        let start = (starts - 1) as nat;
        min2(windows_of_len(q, c, len, start, best), distance(q, c.subrange(start as int, (start + len) as int)))
    }
}

/// Smallest distance from `q` to a window of `c` whose length lies in
/// `shortest..shortest + count`.
pub open spec fn windows_up_to(q: Seq<char>, c: Seq<char>, count: nat) -> nat
    decreases count,
{
    let shortest = shortest_window(q.len(), c.len());
    if count == 0 {
        if q.len() >= c.len() { q.len() } else { c.len() }
    } else {
        let len = shortest + (count - 1) as nat;
        windows_of_len(q, c, len, (c.len() - len + 1) as nat, windows_up_to(q, c, (count - 1) as nat))
    }
}

/// Best distance over every window of `c` whose length is within two of `q`'s.
pub open spec fn best_window(q: Seq<char>, c: Seq<char>) -> nat {
    let shortest = shortest_window(q.len(), c.len());
    let longest = longest_window(q.len(), c.len());
    windows_up_to(q, c, (longest - shortest + 1) as nat)
}

/// Largest distance accepted for a query of `len` normalized characters.
pub open spec fn max_distance_of(len: nat) -> nat {
    if len < LONG_QUERY_MIN_LEN { SHORT_QUERY_MAX_DISTANCE as nat } else { MAX_DISTANCE as nat }
}

/// The query's single normalized token, when it has exactly one word of at
/// least `min_length` normalized characters.
pub open spec fn eligible(query: Seq<char>, min_length: nat) -> Option<Seq<char>> {
    let words = text::words(query);
    if words.len() != 1 || normalize::normalize_seq(words[0]).len() < min_length {
        None
    } else {
        Some(normalize::normalize_seq(words[0]))
    }
}

/// Both inputs fit the distance table: the token's length plus the window
/// slack, and the name's length plus one, are still `usize` values.
pub open spec fn within_limits(token: Seq<char>, name: Seq<char>) -> bool {
    token.len() < usize::MAX - 1 && normalize::normalize_seq(name).len() < usize::MAX
}

/// The raw best-window distance of an eligible query.
pub open spec fn explain_of(query: Seq<char>, name: Seq<char>, min_length: nat) -> Option<nat> {
    match eligible(query, min_length) {
        None => None,
        Some(t) => if within_limits(t, name) {
            Some(best_window(t, normalize::normalize_seq(name)))
        } else {
            None
        },
    }
}

/// Stage-2 score: `SCORE_CAP - distance` when the distance is accepted.
pub open spec fn score_of(query: Seq<char>, name: Seq<char>, min_length: nat) -> Option<nat> {
    match explain_of(query, name, min_length) {
        None => None,
        Some(d) => {
            let t = eligible(query, min_length)->0;
            if d > max_distance_of(t.len()) {
                None
            } else {
                Some((3 - d) as nat)
            }
        },
    }
}

/// Every stage-2 score lies between 1 and `SCORE_CAP`: the cap less an
/// accepted distance of at most two.
pub proof fn lemma_score_range(query: Seq<char>, name: Seq<char>, min_length: nat)
    ensures
        score_of(query, name, min_length) matches Some(v) ==> 1 <= v <= SCORE_CAP,
{
}

/// The ceiling applied to the query's first normalized token.
pub open spec fn query_max_distance_of(query: Seq<char>) -> nat {
    let words = text::words(query);
    max_distance_of(if words.len() == 0 { 0 } else { normalize::normalize_seq(words[0]).len() })
}

proof fn lemma_osa_bound(l: Seq<char>, r: Seq<char>, i: nat, j: nat)
    ensures
        osa(l, r, i, j) <= if i >= j { i } else { j },
    decreases i + j,
{
    if i > 0 && j > 0 {
        lemma_osa_bound(l, r, (i - 1) as nat, (j - 1) as nat);
    }
}

/// The optimal-string-alignment distance between two character strings:
/// zero between equal strings, the same both ways, at least the difference
/// of their lengths and at most the longer length.
pub fn optimal_string_alignment(left: &[char], right: &[char]) -> (r: usize)
    requires
        left.len() < usize::MAX,
        right.len() < usize::MAX,
    ensures
        r == distance(left@, right@),
        left@ == right@ ==> r == 0,
        r == distance(right@, left@),
        left@.len() - right@.len() <= r,
        right@.len() - left@.len() <= r,
        r <= if left@.len() >= right@.len() { left@.len() } else { right@.len() },
{
    proof {
        lemma_distance_to_itself(left@);
        lemma_distance_symmetric(left@, right@);
        lemma_distance_bounds(left@, right@);
    }
    if left.len() == 0 {
        return right.len();
    }
    if right.len() == 0 {
        return left.len();
    }
    let width = right.len() + 1;
    let mut two_back: Vec<usize> = Vec::new();
    let mut previous: Vec<usize> = Vec::new();
    let mut current: Vec<usize> = Vec::new();
    let mut column: usize = 0;
    while column < width
        invariant
            width == right.len() + 1,
            column <= width,
            two_back@.len() == column,
            current@.len() == column,
            previous@.len() == column,
            forall|j: int| 0 <= j < column ==> #[trigger] previous@[j] == osa(left@, right@, 0, j as nat),
        decreases width - column,
    {
        two_back.push(0);
        previous.push(column);
        current.push(0);
        column += 1;
    }
    let mut row: usize = 1;
    while row <= left.len()
        invariant
            width == right.len() + 1,
            left.len() < usize::MAX,
            right.len() < usize::MAX,
            1 <= row <= left.len() + 1,
            two_back@.len() == width,
            current@.len() == width,
            previous@.len() == width,
            forall|j: int| 0 <= j < width ==> #[trigger] previous@[j] == osa(left@, right@, (row - 1) as nat, j as nat),
            row >= 2 ==> forall|j: int| 0 <= j < width ==> #[trigger] two_back@[j] == osa(left@, right@, (row - 2) as nat, j as nat),
        decreases left.len() + 1 - row,
    {
        current.set(0, row);
        let mut column: usize = 1;
        while column < width
            invariant
                width == right.len() + 1,
                left.len() < usize::MAX,
                right.len() < usize::MAX,
                1 <= row <= left.len(),
                1 <= column <= width,
                two_back@.len() == width,
                current@.len() == width,
                previous@.len() == width,
                forall|j: int| 0 <= j < width ==> #[trigger] previous@[j] == osa(left@, right@, (row - 1) as nat, j as nat),
                row >= 2 ==> forall|j: int| 0 <= j < width ==> #[trigger] two_back@[j] == osa(left@, right@, (row - 2) as nat, j as nat),
                forall|j: int| 0 <= j < column ==> #[trigger] current@[j] == osa(left@, right@, row as nat, j as nat),
            decreases width - column,
        {
            proof {
                lemma_osa_bound(left@, right@, row as nat, (column - 1) as nat);
                lemma_osa_bound(left@, right@, (row - 1) as nat, column as nat);
                lemma_osa_bound(left@, right@, (row - 1) as nat, (column - 1) as nat);
            }
            let cost: usize = if left[row - 1] != right[column - 1] {
                1
            } else {
                0
            };
            let a = current[column - 1] + 1;
            let b = previous[column] + 1;
            let c = previous[column - 1] + cost;
            let mut value = if a <= b { a } else { b };
            value = if value <= c { value } else { c };
            if row > 1 && column > 1 && left[row - 1] == right[column - 2] && left[row - 2]
                == right[column - 1] {
                proof {
                    lemma_osa_bound(left@, right@, (row - 2) as nat, (column - 2) as nat);
                }
                let d = two_back[column - 2] + cost;
                value = if value <= d { value } else { d };
            }
            assert(value == osa(left@, right@, row as nat, column as nat));
            current.set(column, value);
            column += 1;
        }
        std::mem::swap(&mut two_back, &mut previous);
        std::mem::swap(&mut previous, &mut current);
        row += 1;
    }
    previous[right.len()]
}

/// The smallest distance between `query` and any window of `candidate`
/// whose length is within two of the query's.
pub fn best_window_distance(query: &[char], candidate: &[char]) -> (r: usize)
    requires
        query.len() < usize::MAX - 1,
        candidate.len() < usize::MAX,
    ensures
        r == best_window(query@, candidate@),
{
    let ghost q = query@;
    let ghost c = candidate@;
    let shortest = if query.len() >= WINDOW_SLACK {
        query.len() - WINDOW_SLACK
    } else {
        0
    };
    let shortest = if shortest <= candidate.len() {
        shortest
    } else {
        candidate.len()
    };
    let longest = if query.len() + WINDOW_SLACK <= candidate.len() {
        query.len() + WINDOW_SLACK
    } else {
        candidate.len()
    };
    assert(shortest == shortest_window(q.len(), c.len()));
    assert(longest == longest_window(q.len(), c.len()));
    let mut best = if query.len() >= candidate.len() {
        query.len()
    } else {
        candidate.len()
    };
    let mut length = shortest;
    while length <= longest
        invariant
            q == query@,
            c == candidate@,
            query.len() < usize::MAX - 1,
            candidate.len() < usize::MAX,
            shortest == shortest_window(q.len(), c.len()),
            longest == longest_window(q.len(), c.len()),
            shortest <= length <= longest + 1,
            longest <= candidate.len(),
            best == windows_up_to(q, c, (length - shortest) as nat),
        decreases longest + 1 - length,
    {
        let ghost before = best;
        let mut start: usize = 0;
        while start <= candidate.len() - length
            invariant
                q == query@,
                c == candidate@,
                query.len() < usize::MAX - 1,
                candidate.len() < usize::MAX,
                length <= longest,
                longest <= candidate.len(),
                start <= candidate.len() - length + 1,
                best == windows_of_len(q, c, length as nat, start as nat, before as nat),
            decreases candidate.len() - length + 1 - start,
        {
            let window = vstd::slice::slice_subrange(candidate, start, start + length);
            let d = optimal_string_alignment(query, window);
            best = if best <= d {
                best
            } else {
                d
            };
            start += 1;
        }
        assert(best == windows_up_to(q, c, (length + 1 - shortest) as nat));
        length += 1;
    }
    best
}

fn eligible_token(query: &str, min_length: usize) -> (r: Option<Normalized>)
    ensures
        match r {
            Some(t) => eligible(query@, min_length as nat) == Some(t.spec_chars()),
            None => eligible(query@, min_length as nat) is None,
        },
{
    let chars = text::chars_of(query);
    let words = text::split_whitespace(chars.as_slice());
    proof {
        assert(words@.map_values(|w: Vec<char>| w@).len() == words@.len());
    }
    if words.len() != 1 {
        return None;
    }
    assert(words@.map_values(|w: Vec<char>| w@)[0] == words@[0]@);
    let token = Normalized::from_chars(words[0].clone());
    if token.len() < min_length {
        return None;
    }
    Some(token)
}

/// Stage-2 score in `1..=3`, a fallback the caller reaches only once
/// `stage1::score` returned `None`; optimal string alignment distance.
pub fn score(query: &str, name: &str, min_length: usize) -> (r: Option<u32>)
    ensures
        match r {
            Some(v) => score_of(query@, name@, min_length as nat) == Some(v as nat),
            None => score_of(query@, name@, min_length as nat) is None,
        },
        r matches Some(v) ==> 1 <= v <= SCORE_CAP,
{
    let token = match eligible_token(query, min_length) {
        Some(t) => t,
        None => return None,
    };
    let candidate = Normalized::new(name);
    if token.len() >= usize::MAX - 1 || candidate.len() == usize::MAX {
        return None;
    }
    let distance = best_window_distance(token.chars(), candidate.chars());
    if distance > max_distance(token.len()) {
        return None;
    }
    Some(SCORE_CAP - distance as u32)
}

/// Raw best-window distance whenever the query is eligible for stage 2 at
/// all, including the distances `score` rejects as too far.
pub fn explain(query: &str, name: &str, min_length: usize) -> (r: Option<usize>)
    ensures
        match r {
            Some(d) => explain_of(query@, name@, min_length as nat) == Some(d as nat),
            None => explain_of(query@, name@, min_length as nat) is None,
        },
{
    let token = match eligible_token(query, min_length) {
        Some(t) => t,
        None => return None,
    };
    let candidate = Normalized::new(name);
    if token.len() >= usize::MAX - 1 || candidate.len() == usize::MAX {
        return None;
    }
    Some(best_window_distance(token.chars(), candidate.chars()))
}

/// Largest distance `score` accepts for a query of `query_len` normalized
/// characters: 1 below `LONG_QUERY_MIN_LEN`, `MAX_DISTANCE` from there on.
pub fn max_distance(query_len: usize) -> (r: usize)
    ensures
        r == max_distance_of(query_len as nat),
{
    if query_len < LONG_QUERY_MIN_LEN {
        SHORT_QUERY_MAX_DISTANCE
    } else {
        MAX_DISTANCE
    }
}

/// The distance ceiling `score` applies to `query`, measured on its first
/// normalized token; for reports, it ignores `min_length` eligibility.
pub fn query_max_distance(query: &str) -> (r: usize)
    ensures
        r == query_max_distance_of(query@),
{
    let chars = text::chars_of(query);
    let words = text::split_whitespace(chars.as_slice());
    proof {
        assert(words@.map_values(|w: Vec<char>| w@).len() == words@.len());
    }
    if words.len() == 0 {
        return max_distance(0);
    }
    assert(words@.map_values(|w: Vec<char>| w@)[0] == words@[0]@);
    let token = Normalized::from_chars(words[0].clone());
    max_distance(token.len())
}

} // verus!

verus! {

/// The distance from `q` to the window of `c` of length `len` at `start`.
pub open spec fn window_distance(q: Seq<char>, c: Seq<char>, start: int, len: int) -> nat {
    distance(q, c.subrange(start, start + len))
}

/// The window of `c` of length `len` at `start` is one stage 2 searches: its
/// length is within two of `q`'s, clamped to `c`'s length, and it fits in `c`.
pub open spec fn searched_window(q: Seq<char>, c: Seq<char>, start: int, len: int) -> bool {
    &&& shortest_window(q.len(), c.len()) <= len <= longest_window(q.len(), c.len())
    &&& 0 <= start
    &&& start + len <= c.len()
}

proof fn lemma_windows_of_len(q: Seq<char>, c: Seq<char>, len: nat, starts: nat, best: nat)
    requires
        starts + len <= c.len() + 1,
    ensures
        windows_of_len(q, c, len, starts, best) <= best,
        forall|start: int| 0 <= start < starts ==> windows_of_len(q, c, len, starts, best) <= #[trigger] window_distance(q, c, start, len as int),
        windows_of_len(q, c, len, starts, best) == best || exists|start: int|
            0 <= start < starts && windows_of_len(q, c, len, starts, best) == #[trigger] window_distance(q, c, start, len as int),
    decreases starts,
{
    if starts > 0 {
        lemma_windows_of_len(q, c, len, (starts - 1) as nat, best);
        let r = windows_of_len(q, c, len, starts, best);
        let here = window_distance(q, c, starts - 1, len as int);
        if r != best && r != windows_of_len(q, c, len, (starts - 1) as nat, best) {
            assert(r == here);
        }
    }
}

proof fn lemma_windows_up_to(q: Seq<char>, c: Seq<char>, count: nat)
    requires
        count <= longest_window(q.len(), c.len()) - shortest_window(q.len(), c.len()) + 1,
    ensures
        windows_up_to(q, c, count) <= (if q.len() >= c.len() { q.len() } else { c.len() }),
        forall|start: int, len: int|
            shortest_window(q.len(), c.len()) <= len < shortest_window(q.len(), c.len()) + count && 0 <= start && start + len <= c.len()
                ==> windows_up_to(q, c, count) <= #[trigger] window_distance(q, c, start, len),
        windows_up_to(q, c, count) == (if q.len() >= c.len() { q.len() } else { c.len() }) || exists|start: int, len: int|
            shortest_window(q.len(), c.len()) <= len < shortest_window(q.len(), c.len()) + count && 0 <= start && start + len <= c.len()
                && windows_up_to(q, c, count) == #[trigger] window_distance(q, c, start, len),
    decreases count,
{
    if count > 0 {
        let shortest = shortest_window(q.len(), c.len());
        let len = shortest + (count - 1) as nat;
        lemma_windows_up_to(q, c, (count - 1) as nat);
        lemma_windows_of_len(q, c, len, (c.len() - len + 1) as nat, windows_up_to(q, c, (count - 1) as nat));
    }
}

/// Stage 2 measures the closest window: the best-window distance is at most
/// the distance from the query to every window of the name it searches, and
/// it is the distance to one of them.
pub proof fn lemma_best_window_is_closest(q: Seq<char>, c: Seq<char>)
    ensures
        forall|start: int, len: int| #[trigger] searched_window(q, c, start, len) ==> best_window(q, c) <= window_distance(q, c, start, len),
        exists|start: int, len: int| #[trigger] searched_window(q, c, start, len) && best_window(q, c) == window_distance(q, c, start, len),
{
    let shortest = shortest_window(q.len(), c.len());
    let longest = longest_window(q.len(), c.len());
    let count = (longest - shortest + 1) as nat;
    lemma_windows_up_to(q, c, count);
    assert forall|start: int, len: int| #[trigger] searched_window(q, c, start, len) implies best_window(q, c) <= window_distance(q, c, start, len) by {
        assert(window_distance(q, c, start, len) >= best_window(q, c));
    }
    let r = best_window(q, c);
    if r == (if q.len() >= c.len() { q.len() } else { c.len() }) {
        let w = c.subrange(0, shortest as int);
        lemma_osa_bound(q, w, q.len(), w.len());
        assert(searched_window(q, c, 0, shortest as int));
        assert(window_distance(q, c, 0, shortest as int) == distance(q, w));
        assert(r == window_distance(q, c, 0, shortest as int));
    } else {
        let (start, len) = choose|start: int, len: int|
            shortest <= len < shortest + count && 0 <= start && start + len <= c.len() && r == #[trigger] window_distance(q, c, start, len);
        assert(searched_window(q, c, start, len));
    }
}

} // verus!

verus! {

/// The distance from a string to itself is zero.
pub proof fn lemma_distance_to_itself(l: Seq<char>)
    ensures
        distance(l, l) == 0,
{
    lemma_osa_diagonal(l, l.len());
}

proof fn lemma_osa_diagonal(l: Seq<char>, i: nat)
    requires
        i <= l.len(),
    ensures
        osa(l, l, i, i) == 0,
    decreases i,
{
    if i > 0 {
        lemma_osa_diagonal(l, (i - 1) as nat);
    }
}

/// Optimal string alignment is symmetric: aligning `r` against `l` costs
/// what aligning `l` against `r` does.
pub proof fn lemma_distance_symmetric(l: Seq<char>, r: Seq<char>)
    ensures
        distance(l, r) == distance(r, l),
{
    lemma_osa_symmetric(l, r, l.len(), r.len());
}

proof fn lemma_osa_symmetric(l: Seq<char>, r: Seq<char>, i: nat, j: nat)
    ensures
        osa(l, r, i, j) == osa(r, l, j, i),
    decreases i + j,
{
    if i > 0 && j > 0 {
        lemma_osa_symmetric(l, r, i, (j - 1) as nat);
        lemma_osa_symmetric(l, r, (i - 1) as nat, j);
        lemma_osa_symmetric(l, r, (i - 1) as nat, (j - 1) as nat);
        if i > 1 && j > 1 {
            lemma_osa_symmetric(l, r, (i - 2) as nat, (j - 2) as nat);
        }
    }
}

/// The distance lies between the difference of the lengths and the longer
/// length.
pub proof fn lemma_distance_bounds(l: Seq<char>, r: Seq<char>)
    ensures
        l.len() - r.len() <= distance(l, r),
        r.len() - l.len() <= distance(l, r),
        distance(l, r) <= if l.len() >= r.len() { l.len() } else { r.len() },
{
    lemma_osa_lower(l, r, l.len(), r.len());
    lemma_osa_bound(l, r, l.len(), r.len());
}

proof fn lemma_osa_lower(l: Seq<char>, r: Seq<char>, i: nat, j: nat)
    ensures
        i - j <= osa(l, r, i, j),
        j - i <= osa(l, r, i, j),
    decreases i + j,
{
    if i > 0 && j > 0 {
        lemma_osa_lower(l, r, i, (j - 1) as nat);
        lemma_osa_lower(l, r, (i - 1) as nat, j);
        lemma_osa_lower(l, r, (i - 1) as nat, (j - 1) as nat);
        if i > 1 && j > 1 {
            lemma_osa_lower(l, r, (i - 2) as nat, (j - 2) as nat);
        }
    }
}

} // verus!

verus! {

/// The best-window distance never exceeds the longer of the two lengths.
pub(crate) proof fn lemma_best_window_at_most_longer(q: Seq<char>, c: Seq<char>)
    ensures
        best_window(q, c) <= if q.len() >= c.len() { q.len() } else { c.len() },
{
    let shortest = shortest_window(q.len(), c.len());
    let longest = longest_window(q.len(), c.len());
    lemma_windows_up_to(q, c, (longest - shortest + 1) as nat);
}

} // verus!
