//! Normalization: lowercase, canonical decomposition, combining
//! marks dropped, with a map from every normalized character back to the
//! source character it came from.
use unicode_normalization::char::{decompose_canonical, is_combining_mark};
use vstd::prelude::*;

use crate::text;

verus! {

/// The canonical decomposition the Unicode tables give a non-ASCII `c`.
pub uninterp spec fn decomposition_table(c: char) -> Seq<char>;

/// Whether the Unicode tables list a non-ASCII `c` as a combining mark.
pub uninterp spec fn combining_mark_table(c: char) -> bool;

/// The canonical decomposition `unicode_normalization::char::decompose_canonical`
/// produces for `c`: an ASCII character stands for itself.
pub open spec fn decomposition_of(c: char) -> Seq<char> {
    if text::ascii(c) {
        seq![c]
    } else {
        decomposition_table(c)
    }
}

/// Whether `unicode_normalization::char::is_combining_mark` holds of `c`:
/// never of an ASCII character.
pub open spec fn combining_mark(c: char) -> bool {
    !text::ascii(c) && combining_mark_table(c)
}

/// `unicode_normalization::char::decompose_canonical`, collected in the order
/// it emits the characters; an ASCII character has no decomposition and is
/// emitted as is.
#[verifier::external_body]
fn decompose(c: char) -> (r: Vec<char>)
    ensures
        text::ascii(c) ==> r@ == seq![c],
        !text::ascii(c) ==> r@ == decomposition_table(c),
{
    let mut out = Vec::new();
    decompose_canonical(c, |d| out.push(d));
    out
}

/// `unicode_normalization::char::is_combining_mark`; no ASCII character is
/// a combining mark.
#[verifier::external_body]
fn is_mark(c: char) -> (r: bool)
    ensures
        text::ascii(c) ==> !r,
        !text::ascii(c) ==> r == combining_mark_table(c),
{
    is_combining_mark(c)
}

/// The characters of `d` that are not combining marks, in order.
pub open spec fn unmarked(d: Seq<char>) -> Seq<char>
    decreases d.len(),
{
    if d.len() == 0 {
        seq![]
    } else if combining_mark(d.last()) {
        unmarked(d.drop_last())
    } else {
        unmarked(d.drop_last()).push(d.last())
    }
}

/// Decomposes every lowered character and drops the combining marks.
pub open spec fn fold_lowered(ls: Seq<char>) -> Seq<char>
    decreases ls.len(),
{
    if ls.len() == 0 {
        seq![]
    } else {
        fold_lowered(ls.drop_last()) + unmarked(decomposition_of(ls.last()))
    }
}

/// What one source character normalizes to.
pub open spec fn fold_char(c: char) -> Seq<char> {
    fold_lowered(text::lowercase_of(c))
}

/// The normalized form of a whole string: each character folded in turn.
pub open spec fn normalize_seq(s: Seq<char>) -> Seq<char>
    decreases s.len(),
{
    if s.len() == 0 {
        seq![]
    } else {
        normalize_seq(s.drop_last()) + fold_char(s.last())
    }
}

/// For every normalized character, the index of the source character it
/// came from.
pub open spec fn origins_seq(s: Seq<char>) -> Seq<usize>
    decreases s.len(),
{
    if s.len() == 0 {
        seq![]
    } else {
        origins_seq(s.drop_last()) + Seq::new(
            fold_char(s.last()).len(),
            |i: int| (s.len() - 1) as usize,
        )
    }
}

/// The characters after which a word starts.
pub open spec fn is_separator(c: char) -> bool {
    c == '.' || c == '-' || c == '_' || c == '/' || c == '\\' || c == ' ' || c == ':' || c == '('
}

/// An uppercase source letter right after a lowercase one, read through
/// the origin of normalized character `index`.
pub open spec fn camel_hump(s: Seq<char>, index: int) -> bool {
    let origins = origins_seq(s);
    &&& 0 <= index < origins.len()
    &&& origins[index] >= 1
    &&& text::upper_case(s[origins[index] as int])
    &&& text::lower_case(s[origins[index] - 1])
}

/// Index 0, a position right after a separator, or a camel hump.
pub open spec fn word_start(s: Seq<char>, index: int) -> bool {
    let n = normalize_seq(s);
    &&& 0 <= index < n.len()
    &&& (index == 0 || is_separator(n[index - 1]) || camel_hump(s, index))
}

/// The normalized length and the origin map agree, and every origin points
/// into the source.
pub proof fn lemma_origins(s: Seq<char>)
    ensures
        origins_seq(s).len() == normalize_seq(s).len(),
        forall|i: int| 0 <= i < origins_seq(s).len() ==> (#[trigger] origins_seq(s)[i]) < s.len(),
    decreases s.len(),
{
    if s.len() > 0 {
        lemma_origins(s.drop_last());
    }
}

/// Source indices never decrease along the normalized string: the
/// characters a source character folds to stay together and in source
/// order (for any source short enough to index with `usize`).
pub proof fn lemma_origins_nondecreasing(s: Seq<char>)
    requires
        s.len() <= usize::MAX,
    ensures
        forall|i: int, j: int| 0 <= i <= j < origins_seq(s).len() ==> #[trigger] origins_seq(s)[i] <= #[trigger] origins_seq(s)[j],
    decreases s.len(),
{
    if s.len() > 0 {
        let front = s.drop_last();
        lemma_origins_nondecreasing(front);
        lemma_origins(front);
        let o = origins_seq(s);
        let f = origins_seq(front);
        let tail = Seq::new(fold_char(s.last()).len(), |k: int| (s.len() - 1) as usize);
        assert(o == f + tail);
        assert forall|i: int, j: int| 0 <= i <= j < o.len() implies #[trigger] o[i] <= #[trigger] o[j] by {
            if j < f.len() {
                assert(o[i] == f[i] && o[j] == f[j]);
            } else if i < f.len() {
                assert(o[i] == f[i]);
                assert(f[i] < front.len());
                assert(o[j] == tail[j - f.len()]);
            } else {
                assert(o[i] == tail[i - f.len()]);
                assert(o[j] == tail[j - f.len()]);
            }
        }
    }
}

/// Normalization distributes over concatenation.
pub proof fn lemma_normalize_add(a: Seq<char>, b: Seq<char>)
    ensures
        normalize_seq(a + b) == normalize_seq(a) + normalize_seq(b),
    decreases b.len(),
{
    if b.len() == 0 {
        assert(a + b =~= a);
        assert(normalize_seq(a) + normalize_seq(b) =~= normalize_seq(a));
    } else {
        assert((a + b).drop_last() =~= a + b.drop_last());
        lemma_normalize_add(a, b.drop_last());
        assert(normalize_seq(a + b) =~= normalize_seq(a) + normalize_seq(b));
    }
}

/// A lowercased, accent-stripped view of a string, with a map from every
/// normalized character index back to its source character index.
#[derive(Debug, PartialEq, Eq)]
pub struct Normalized {
    chars: Vec<char>,
    origins: Vec<usize>,
    source: Vec<char>,
}

impl View for Normalized {
    type V = Seq<char>;

    /// A normalized string is modelled by the source text it was built from.
    closed spec fn view(&self) -> Seq<char> {
        self.source@
    }
}

impl Normalized {
    #[verifier::type_invariant]
    closed spec fn well_formed(&self) -> bool {
        &&& self.chars@ == normalize_seq(self.source@)
        &&& self.origins@ == origins_seq(self.source@)
    }

    /// The normalized characters of this value, as a sequence.
    pub open spec fn spec_chars(&self) -> Seq<char> {
        normalize_seq(self@)
    }

    /// Lowercases `text`, decomposes it canonically, then drops combining
    /// marks, recording where each surviving character came from.
    pub fn new(text: &str) -> (r: Self)
        ensures
            r@ == text@,
    {
        let source = text::chars_of(text);
        Self::from_chars(source)
    }

    /// `new` on a character vector.
    pub fn from_chars(source: Vec<char>) -> (r: Self)
        ensures
            r@ == source@,
    {
        let mut chars: Vec<char> = Vec::new();
        let mut origins: Vec<usize> = Vec::new();
        let mut index: usize = 0;
        assert(source@.take(0) =~= Seq::<char>::empty());
        while index < source.len()
            invariant
                index <= source.len(),
                chars@ == normalize_seq(source@.take(index as int)),
                origins@ == origins_seq(source@.take(index as int)),
            decreases source.len() - index,
        {
            let source_char = source[index];
            let lowered = text::to_lowercase(source_char);
            let ghost base_chars = chars@;
            let ghost base_origins = origins@;
            let mut li: usize = 0;
            assert(lowered@.take(0) =~= Seq::<char>::empty());
            assert(base_chars + fold_lowered(lowered@.take(0)) =~= base_chars);
            while li < lowered.len()
                invariant
                    li <= lowered.len(),
                    lowered@ == text::lowercase_of(source_char),
                    chars@ == base_chars + fold_lowered(lowered@.take(li as int)),
                    origins@ == base_origins + Seq::new(
                        fold_lowered(lowered@.take(li as int)).len(),
                        |i: int| index,
                    ),
                decreases lowered.len() - li,
            {
                let decomposed = decompose(lowered[li]);
                let ghost mid_chars = chars@;
                let ghost mid_origins = origins@;
                let mut di: usize = 0;
                assert(decomposed@.take(0) =~= Seq::<char>::empty());
                assert(mid_chars + unmarked(decomposed@.take(0)) =~= mid_chars);
                while di < decomposed.len()
                    invariant
                        di <= decomposed.len(),
                        chars@ == mid_chars + unmarked(decomposed@.take(di as int)),
                        origins@ == mid_origins + Seq::new(
                            unmarked(decomposed@.take(di as int)).len(),
                            |i: int| index,
                        ),
                    decreases decomposed.len() - di,
                {
                    let d = decomposed[di];
                    assert(decomposed@.take(di + 1).drop_last() =~= decomposed@.take(di as int));
                    if !is_mark(d) {
                        chars.push(d);
                        origins.push(index);
                    }
                    assert(chars@ =~= mid_chars + unmarked(decomposed@.take(di + 1)));
                    assert(origins@ =~= mid_origins + Seq::new(
                        unmarked(decomposed@.take(di + 1)).len(),
                        |i: int| index,
                    ));
                    di += 1;
                }
                assert(decomposed@.take(di as int) =~= decomposed@);
                assert(lowered@.take(li + 1).drop_last() =~= lowered@.take(li as int));
                assert(chars@ =~= base_chars + fold_lowered(lowered@.take(li + 1)));
                assert(origins@ =~= base_origins + Seq::new(
                    fold_lowered(lowered@.take(li + 1)).len(),
                    |i: int| index,
                ));
                li += 1;
            }
            assert(lowered@.take(li as int) =~= lowered@);
            assert(source@.take(index + 1).drop_last() =~= source@.take(index as int));
            assert(source@.take(index + 1).last() == source_char);
            assert(chars@ =~= normalize_seq(source@.take(index + 1)));
            assert(origins@ =~= origins_seq(source@.take(index + 1)));
            index += 1;
        }
        assert(source@.take(index as int) =~= source@);
        Normalized { chars, origins, source }
    }

    /// The normalized characters.
    pub fn chars(&self) -> (r: &[char])
        ensures
            r@ == self.spec_chars(),
    {
        proof {
            use_type_invariant(self);
        }
        self.chars.as_slice()
    }

    /// The normalized characters as a string.
    pub fn text(&self) -> (r: String)
        ensures
            r@ == self.spec_chars(),
    {
        proof {
            use_type_invariant(self);
        }
        text::string_of(self.chars.as_slice())
    }

    /// Number of normalized characters.
    pub fn len(&self) -> (r: usize)
        ensures
            r == self.spec_chars().len(),
    {
        proof {
            use_type_invariant(self);
        }
        self.chars.len()
    }

    /// True when normalization produced no character at all.
    pub fn is_empty(&self) -> (r: bool)
        ensures
            r == (self.spec_chars().len() == 0),
    {
        proof {
            use_type_invariant(self);
        }
        self.chars.len() == 0
    }

    /// Source character index the normalized character at `index` came from.
    pub fn source_index(&self, index: usize) -> (r: Option<usize>)
        ensures
            r == (if index < self.spec_chars().len() {
                Some(origins_seq(self@)[index as int])
            } else {
                None
            }),
    {
        proof {
            use_type_invariant(self);
            lemma_origins(self@);
        }
        if index < self.origins.len() {
            Some(self.origins[index])
        } else {
            None
        }
    }

    /// True when the source character behind `index` is an uppercase letter
    /// following a lowercase one.
    pub fn is_camel_hump(&self, index: usize) -> (r: bool)
        ensures
            r == camel_hump(self@, index as int),
    {
        proof {
            use_type_invariant(self);
            lemma_origins(self@);
        }
        let origin = match self.source_index(index) {
            Some(origin) => origin,
            None => return false,
        };
        if origin == 0 {
            return false;
        }
        text::is_uppercase(self.source[origin]) && text::is_lowercase(self.source[origin - 1])
    }

    /// True when `index` starts a word: index 0, right after a separator, or
    /// a camelCase hump read on the source string.
    pub fn is_word_start(&self, index: usize) -> (r: bool)
        ensures
            r == word_start(self@, index as int),
    {
        proof {
            use_type_invariant(self);
        }
        if index >= self.chars.len() {
            return false;
        }
        if index == 0 {
            return true;
        }
        let previous = self.chars[index - 1];
        let after_separator = previous == '.' || previous == '-' || previous == '_' || previous
            == '/' || previous == '\\' || previous == ' ' || previous == ':' || previous == '(';
        after_separator || self.is_camel_hump(index)
    }
}

} // verus!
