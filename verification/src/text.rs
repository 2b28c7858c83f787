//! Character-level helpers shared by every module: conversions between
//! `str`/`String` and `Vec<char>`, whitespace splitting, and the few `char`
//! classifications of the standard library the engine relies on.
use vstd::prelude::*;

verus! {

/// Whether `c` has the Unicode `White_Space` property, which
/// `char::is_whitespace` reports: tab through carriage return, space, next
/// line, no-break space, ogham space mark, en quad through hair space, line
/// and paragraph separators, narrow no-break space, medium mathematical
/// space and ideographic space.
pub open spec fn white_space(c: char) -> bool {
    let u = c as u32;
    ||| 0x09 <= u <= 0x0D
    ||| u == 0x20
    ||| u == 0x85
    ||| u == 0xA0
    ||| u == 0x1680
    ||| 0x2000 <= u <= 0x200A
    ||| u == 0x2028
    ||| u == 0x2029
    ||| u == 0x202F
    ||| u == 0x205F
    ||| u == 0x3000
}

/// `c` is an ASCII character.
pub open spec fn ascii(c: char) -> bool {
    (c as u32) < 0x80
}

/// `c` is an ASCII capital letter.
pub open spec fn ascii_upper(c: char) -> bool {
    'A' <= c && c <= 'Z'
}

/// `c` with an ASCII capital letter turned into its small letter.
pub open spec fn ascii_lowered(c: char) -> char {
    if ascii_upper(c) {
        ((c as u32) + 32) as char
    } else {
        c
    }
}

/// Whether a non-ASCII `c` has the Unicode `Uppercase` property.
pub uninterp spec fn upper_case_table(c: char) -> bool;

/// Whether a non-ASCII `c` has the Unicode `Lowercase` property.
pub uninterp spec fn lower_case_table(c: char) -> bool;

/// The lowercase mapping of a non-ASCII `c`.
pub uninterp spec fn lowercase_table(c: char) -> Seq<char>;

/// The lowercase form of a text holding a non-ASCII character.
pub uninterp spec fn lower_str_table(s: Seq<char>) -> Seq<char>;

/// Whether `c` has the Unicode `Uppercase` property (`char::is_uppercase`):
/// among ASCII characters, exactly the capital letters.
pub open spec fn upper_case(c: char) -> bool {
    if ascii(c) {
        ascii_upper(c)
    } else {
        upper_case_table(c)
    }
}

/// Whether `c` has the Unicode `Lowercase` property (`char::is_lowercase`):
/// among ASCII characters, exactly the small letters.
pub open spec fn lower_case(c: char) -> bool {
    if ascii(c) {
        'a' <= c && c <= 'z'
    } else {
        lower_case_table(c)
    }
}

/// The characters `char::to_lowercase` yields for `c`: an ASCII character
/// lowered alone.
pub open spec fn lowercase_of(c: char) -> Seq<char> {
    if ascii(c) {
        seq![ascii_lowered(c)]
    } else {
        lowercase_table(c)
    }
}

/// What `str::to_lowercase` returns for `s`: an ASCII text has each capital
/// letter lowered and nothing else changed.
pub open spec fn lower_str(s: Seq<char>) -> Seq<char> {
    if forall|i: int| 0 <= i < s.len() ==> ascii(#[trigger] s[i]) {
        s.map_values(|c: char| ascii_lowered(c))
    } else {
        lower_str_table(s)
    }
}

/// `str::to_lowercase`.
#[verifier::external_body]
pub(crate) fn to_lowercase_str(s: &str) -> (r: String)
    ensures
        (forall|i: int| 0 <= i < s@.len() ==> ascii(#[trigger] s@[i])) ==> r@ == s@.map_values(|c: char| ascii_lowered(c)),
        !(forall|i: int| 0 <= i < s@.len() ==> ascii(#[trigger] s@[i])) ==> r@ == lower_str_table(s@),
{
    s.to_lowercase()
}

/// Whether two strings hold the same characters.
pub fn same_str(a: &str, b: &str) -> (r: bool)
    ensures
        r == (a@ == b@),
{
    let x: String = a.to_owned();
    let y: String = b.to_owned();
    x == y
}

/// The characters of `s`, in order.
pub(crate) fn chars_of(s: &str) -> (r: Vec<char>)
    ensures
        r@ == s@,
{
    let mut it = s.chars();
    let mut out: Vec<char> = Vec::new();
    loop
        invariant
            out@ + vstd::std_specs::iter::IteratorSpec::remaining(&it) == s@,
            vstd::std_specs::iter::IteratorSpec::decrease(&it) is Some,
        ensures
            out@ == s@,
        decreases vstd::std_specs::iter::IteratorSpec::decrease(&it)->0,
    {
        match it.next() {
            Some(c) => {
                out.push(c);
            },
            None => {
                break;
            },
        }
    }
    out
}

/// The string made of the characters of `v`, in order.
#[verifier::external_body]
pub(crate) fn string_of(v: &[char]) -> (r: String)
    ensures
        r@ == v@,
{
    v.iter().collect()
}

/// Whether `c` is whitespace, as `char::is_whitespace` answers.
pub(crate) fn is_whitespace(c: char) -> (r: bool)
    ensures
        r == white_space(c),
{
    let u = c as u32;
    (0x09 <= u && u <= 0x0D) || u == 0x20 || u == 0x85 || u == 0xA0 || u == 0x1680 || (0x2000 <= u && u <= 0x200A)
        || u == 0x2028 || u == 0x2029 || u == 0x202F || u == 0x205F || u == 0x3000
}

/// `char::is_uppercase`.
#[verifier::external_body]
pub(crate) fn is_uppercase(c: char) -> (r: bool)
    ensures
        ascii(c) ==> r == ascii_upper(c),
        !ascii(c) ==> r == upper_case_table(c),
{
    c.is_uppercase()
}

/// `char::is_lowercase`.
#[verifier::external_body]
pub(crate) fn is_lowercase(c: char) -> (r: bool)
    ensures
        ascii(c) ==> r == ('a' <= c && c <= 'z'),
        !ascii(c) ==> r == lower_case_table(c),
{
    c.is_lowercase()
}

/// `char::to_lowercase`, collected.
#[verifier::external_body]
pub(crate) fn to_lowercase(c: char) -> (r: Vec<char>)
    ensures
        ascii(c) ==> r@ == seq![ascii_lowered(c)],
        !ascii(c) ==> r@ == lowercase_table(c),
{
    c.to_lowercase().collect()
}

/// The whitespace-separated words of `s`, in order; `str::split_whitespace`.
pub open spec fn words(s: Seq<char>) -> Seq<Seq<char>>
    decreases s.len(),
{
    words_from(s, seq![], seq![])
}

/// Word splitting as a left-to-right scan: `done` holds the finished words,
/// `current` the word being read.
pub open spec fn words_from(rest: Seq<char>, done: Seq<Seq<char>>, current: Seq<char>) -> Seq<
    Seq<char>,
>
    decreases rest.len(),
{
    if rest.len() == 0 {
        if current.len() == 0 {
            done
        } else {
            done.push(current)
        }
    } else if white_space(rest[0]) {
        if current.len() == 0 {
            words_from(rest.drop_first(), done, current)
        } else {
            words_from(rest.drop_first(), done.push(current), seq![])
        }
    } else {
        words_from(rest.drop_first(), done, current.push(rest[0]))
    }
}

/// Splits `s` into its whitespace-separated words.
pub fn split_whitespace(s: &[char]) -> (r: Vec<Vec<char>>)
    ensures
        r@.map_values(|w: Vec<char>| w@) == words(s@),
{
    let mut done: Vec<Vec<char>> = Vec::new();
    let mut current: Vec<char> = Vec::new();
    let mut i: usize = 0;
    assert(s@.skip(0) =~= s@);
    assert(done@.map_values(|w: Vec<char>| w@) =~= Seq::<Seq<char>>::empty());
    assert(current@ =~= Seq::<char>::empty());
    while i < s.len()
        invariant
            i <= s.len(),
            words_from(s@.skip(i as int), done@.map_values(|w: Vec<char>| w@), current@) == words(
                s@,
            ),
        decreases s.len() - i,
    {
        let ghost before = done@.map_values(|w: Vec<char>| w@);
        assert(s@.skip(i as int).drop_first() =~= s@.skip(i + 1));
        assert(s@.skip(i as int)[0] == s[i as int]);
        if is_whitespace(s[i]) {
            if current.len() > 0 {
                let finished = current;
                current = Vec::new();
                done.push(finished);
                assert(done@.map_values(|w: Vec<char>| w@) =~= before.push(finished@));
                assert(current@ =~= seq![]);
            }
        } else {
            current.push(s[i]);
        }
        i += 1;
    }
    assert(s@.skip(i as int).len() == 0);
    if current.len() > 0 {
        let ghost before = done@.map_values(|w: Vec<char>| w@);
        done.push(current);
        assert(done@.map_values(|w: Vec<char>| w@) =~= before.push(current@));
    }
    done
}



/// The decimal digits of `n`, most significant first.
pub open spec fn decimal_of(n: nat) -> Seq<char>
    decreases n,
{
    if n < 10 {
        seq![digit_char(n)]
    } else {
        decimal_of(n / 10).push(digit_char(n % 10))
    }
}

pub open spec fn digit_char(d: nat) -> char {
    if d == 0 { '0' } else if d == 1 { '1' } else if d == 2 { '2' } else if d == 3 { '3' }
    else if d == 4 { '4' } else if d == 5 { '5' } else if d == 6 { '6' } else if d == 7 { '7' }
    else if d == 8 { '8' } else { '9' }
}

fn digit(d: u64) -> (r: char)
    requires
        d < 10,
    ensures
        r == digit_char(d as nat),
{
    if d == 0 { '0' } else if d == 1 { '1' } else if d == 2 { '2' } else if d == 3 { '3' }
    else if d == 4 { '4' } else if d == 5 { '5' } else if d == 6 { '6' } else if d == 7 { '7' }
    else if d == 8 { '8' } else { '9' }
}

/// Appends the decimal digits of `n` to `out`.
pub fn push_decimal(out: &mut Vec<char>, n: u64)
    ensures
        final(out)@ == old(out)@ + decimal_of(n as nat),
    decreases n,
{
    if n < 10 {
        out.push(digit(n));
    } else {
        push_decimal(out, n / 10);
        out.push(digit(n % 10));
    }
}

/// The decimal text of a signed number: a `-` before a negative one.
pub open spec fn signed_decimal_of(n: int) -> Seq<char> {
    if n < 0 { seq!['-'] + decimal_of((-n) as nat) } else { decimal_of(n as nat) }
}

/// The decimal text of a signed number, with a `+` before a non-negative one
/// (Rust's `{:+}`).
pub open spec fn plus_decimal_of(n: int) -> Seq<char> {
    if n < 0 { seq!['-'] + decimal_of((-n) as nat) } else { seq!['+'] + decimal_of(n as nat) }
}

/// Appends the decimal text of `n`, with a sign when negative, or always
/// when `plus` is set.
pub fn push_signed(out: &mut Vec<char>, n: i64, plus: bool)
    ensures
        final(out)@ == old(out)@ + (if plus { plus_decimal_of(n as int) } else { signed_decimal_of(n as int) }),
{
    if n < 0 {
        out.push('-');
        let magnitude: u64 = if n == -0x8000_0000_0000_0000 { 0x8000_0000_0000_0000 } else { (-n) as u64 };
        push_decimal(out, magnitude);
    } else {
        if plus {
            out.push('+');
        }
        push_decimal(out, n as u64);
    }
}

fn wide_digit(d: u128) -> (r: char)
    requires
        d < 10,
    ensures
        r == digit_char(d as nat),
{
    digit(d as u64)
}

/// Appends the decimal digits of the 128-bit `n` to `out`.
pub fn push_wide_decimal(out: &mut Vec<char>, n: u128)
    ensures
        final(out)@ == old(out)@ + decimal_of(n as nat),
    decreases n,
{
    if n < 10 {
        out.push(wide_digit(n));
    } else {
        push_wide_decimal(out, n / 10);
        out.push(wide_digit(n % 10));
    }
}

/// Appends the decimal text of the 128-bit `n`, with a sign when negative.
pub fn push_wide_signed(out: &mut Vec<char>, n: i128)
    ensures
        final(out)@ == old(out)@ + signed_decimal_of(n as int),
{
    if n < 0 {
        out.push('-');
        let magnitude: u128 = if n == i128::MIN { 0x8000_0000_0000_0000_0000_0000_0000_0000 } else { (-n) as u128 };
        push_wide_decimal(out, magnitude);
    } else {
        push_wide_decimal(out, n as u128);
    }
}

/// Appends every character of `s`.
pub fn push_str(out: &mut Vec<char>, s: &str)
    ensures
        final(out)@ == old(out)@ + s@,
{
    let chars = chars_of(s);
    let ghost start = out@;
    let mut i: usize = 0;
    while i < chars.len()
        invariant
            i <= chars@.len(),
            chars@ == s@,
            out@ == start + chars@.take(i as int),
        decreases chars@.len() - i,
    {
        out.push(chars[i]);
        assert(chars@.take(i + 1) =~= chars@.take(i as int).push(chars@[i as int]));
        i += 1;
    }
    assert(chars@.take(i as int) =~= chars@);
}

/// `s` without its leading and trailing whitespace (`str::trim`).
pub open spec fn trim_of(s: Seq<char>) -> Seq<char> {
    trim_end_of(trim_start_of(s))
}

pub open spec fn trim_start_of(s: Seq<char>) -> Seq<char>
    decreases s.len(),
{
    if s.len() > 0 && white_space(s[0]) { trim_start_of(s.drop_first()) } else { s }
}

pub open spec fn trim_end_of(s: Seq<char>) -> Seq<char>
    decreases s.len(),
{
    if s.len() > 0 && white_space(s.last()) { trim_end_of(s.drop_last()) } else { s }
}

/// The value of a decimal digit character.
pub open spec fn digit_value(c: char) -> Option<nat> {
    if '0' <= c && c <= '9' { Some((c as int - '0' as int) as nat) } else { None }
}

/// The value of a run of decimal digits, `None` when a character is not a digit.
pub open spec fn digits_value(s: Seq<char>) -> Option<nat>
    decreases s.len(),
{
    if s.len() == 0 {
        Some(0)
    } else {
        match (digits_value(s.drop_last()), digit_value(s.last())) {
            (Some(v), Some(d)) => Some(v * 10 + d),
            _ => None,
        }
    }
}

/// What `usize::from_str` accepts: an optional `+`, then one or more decimal
/// digits whose value fits in `usize`.
pub open spec fn parse_usize_of(s: Seq<char>) -> Option<nat> {
    let digits = if s.len() > 0 && s[0] == '+' { s.drop_first() } else { s };
    if digits.len() == 0 {
        None
    } else {
        match digits_value(digits) {
            Some(v) => if v <= usize::MAX { Some(v) } else { None },
            None => None,
        }
    }
}

/// `str::trim` on characters.
pub fn trim(s: &[char]) -> (r: Vec<char>)
    ensures
        r@ == trim_of(s@),
{
    let mut start: usize = 0;
    assert(s@.skip(0) =~= s@);
    while start < s.len() && is_whitespace(s[start])
        invariant
            start <= s@.len(),
            trim_start_of(s@) == trim_start_of(s@.skip(start as int)),
        decreases s@.len() - start,
    {
        assert(s@.skip(start as int).drop_first() =~= s@.skip(start + 1));
        start += 1;
    }
    proof {
        if start == 0 {
            assert(s@.skip(0) =~= s@);
        }
    }
    let mut end: usize = s.len();
    let ghost begun = s@.skip(start as int);
    assert(trim_start_of(s@) == begun) by {
        assert(s@.skip(0) =~= s@);
    }
    while end > start && is_whitespace(s[end - 1])
        invariant
            start <= end <= s@.len(),
            begun == s@.skip(start as int),
            trim_end_of(begun) == trim_end_of(s@.subrange(start as int, end as int)),
        decreases end,
    {
        assert(s@.subrange(start as int, end as int).drop_last() =~= s@.subrange(start as int, end - 1));
        end -= 1;
    }
    let mut out: Vec<char> = Vec::new();
    let mut i: usize = start;
    while i < end
        invariant
            start <= i <= end,
            end <= s@.len(),
            out@ == s@.subrange(start as int, i as int),
        decreases end - i,
    {
        out.push(s[i]);
        assert(s@.subrange(start as int, i + 1) =~= s@.subrange(start as int, i as int).push(s@[i as int]));
        i += 1;
    }
    assert(begun =~= s@.subrange(start as int, s@.len() as int));
    out
}

/// `usize::from_str` on characters.
pub fn parse_usize(s: &[char]) -> (r: Option<usize>)
    ensures
        match r {
            Some(v) => parse_usize_of(s@) == Some(v as nat),
            None => parse_usize_of(s@) is None,
        },
{
    let first: usize = if s.len() > 0 && s[0] == '+' { 1 } else { 0 };
    let ghost digits = if s@.len() > 0 && s@[0] == '+' { s@.drop_first() } else { s@ };
    assert(digits =~= s@.skip(first as int));
    if first >= s.len() {
        return None;
    }
    let mut value: usize = 0;
    let mut i: usize = first;
    while i < s.len()
        invariant
            first <= i <= s@.len(),
            first < s@.len(),
            digits == s@.skip(first as int),
            digits == (if s@.len() > 0 && s@[0] == '+' { s@.drop_first() } else { s@ }),
            digits_value(s@.subrange(first as int, i as int)) == Some(value as nat),
        decreases s@.len() - i,
    {
        let c = s[i];
        assert(s@.subrange(first as int, i + 1).drop_last() =~= s@.subrange(first as int, i as int));
        assert(digits[(i - first) as int] == c);
        assert(digits.take((i + 1 - first) as int) =~= s@.subrange(first as int, i + 1));
        if !('0' <= c && c <= '9') {
            proof {
                lemma_digits_prefix(digits, (i - first) as nat);
            }
            return None;
        }
        let d = (c as u32 - '0' as u32) as usize;
        assert(digit_value(c) == Some(d as nat));
        if value > (usize::MAX - d) / 10 {
            proof {
                assert(value * 10 + d > usize::MAX) by (nonlinear_arith)
                    requires
                        value > (usize::MAX - d) / 10,
                        d < 10,
                ;
                assert(digits_value(s@.subrange(first as int, i + 1)) == Some((value * 10 + d) as nat));
                lemma_digits_grow(digits, (i - first) as nat);
            }
            return None;
        }
        assert(value * 10 + d <= usize::MAX) by (nonlinear_arith)
            requires
                value <= (usize::MAX - d) / 10,
                d < 10,
        ;
        value = value * 10 + d;
        i += 1;
    }
    assert(s@.subrange(first as int, i as int) =~= digits);
    Some(value)
}

/// Once a prefix holds a non-digit, the whole run is not a number.
proof fn lemma_digits_prefix(s: Seq<char>, n: nat)
    requires
        n < s.len(),
        digit_value(s[n as int]) is None,
    ensures
        digits_value(s.take(n as int + 1)) is None,
        digits_value(s) is None,
    decreases s.len(),
{
    assert(s.take(n as int + 1).drop_last() =~= s.take(n as int));
    if n + 1 < s.len() {
        lemma_digits_prefix(s.drop_last(), n);
        assert(s.drop_last().take(n as int + 1) =~= s.take(n as int + 1));
    } else {
        assert(s.take(n as int + 1) =~= s);
    }
}

/// A run of digits is worth at least its prefixes.
proof fn lemma_digits_grow(s: Seq<char>, n: nat)
    requires
        n < s.len(),
        digits_value(s.take(n as int + 1)) is Some,
    ensures
        digits_value(s) is None || digits_value(s)->0 >= digits_value(s.take(n as int + 1))->0,
    decreases s.len(),
{
    if n + 1 < s.len() {
        assert(s.drop_last().take(n as int + 1) =~= s.take(n as int + 1));
        lemma_digits_grow(s.drop_last(), n);
        if digits_value(s) is Some {
            assert(digits_value(s)->0 >= digits_value(s.drop_last())->0);
        }
    } else {
        assert(s.take(n as int + 1) =~= s);
    }
}

} // verus!
