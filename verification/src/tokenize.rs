//! Unicode word segmentation and case normalization.
//!
//! A text is cut into *word segments* along UAX #29 default word boundaries,
//! segments made only of whitespace are discarded, and every kept segment is
//! canonicalized to uppercase.  The same rule is used when a bag is trained
//! and when a text is scored, so that lookups match.
//!
//! What the outside calls return is abstracted by the uninterpreted spec
//! functions [`word_segments`], [`upper`] and [`whitespace`]; everything the
//! library proves about tokenization is stated over those names.

use vstd::prelude::*;
use vstd::string::StrSliceExecFns;

use unicode_segmentation::UnicodeSegmentation;

verus! {

/// The word segments of a text under Unicode default word-boundary rules,
/// in order of appearance.
pub uninterp spec fn word_segments(s: Seq<char>) -> Seq<Seq<char>>;

/// The uppercase form of a string, as `str::to_uppercase` computes it.
pub uninterp spec fn upper(s: Seq<char>) -> Seq<char>;

/// Whether a character has the Unicode whitespace property.
pub uninterp spec fn whitespace(c: char) -> bool;

/// A segment that holds no non-whitespace character; such segments are
/// discarded by tokenization.
pub open spec fn blank(s: Seq<char>) -> bool {
    forall|i: int| 0 <= i < s.len() ==> whitespace(s[i])
}

/// Whether `seg` survives the whitespace filter and canonicalizes to `key`.
pub open spec fn is_token_for(seg: Seq<char>, key: Seq<char>) -> bool {
    !blank(seg) && upper(seg) == key
}

/// How many segments of `segs` are kept by the whitespace filter and
/// canonicalize to `key`.
pub open spec fn token_count(segs: Seq<Seq<char>>, key: Seq<char>) -> nat
    decreases segs.len(),
{
    if segs.len() == 0 {
        0
    } else {
        token_count(segs.drop_last(), key) + if is_token_for(segs.last(), key) {
            1nat
        } else {
            0nat
        }
    }
}

/// The segments of `s` that survive the whitespace filter, in order.
pub open spec fn kept(s: Seq<Seq<char>>) -> Seq<Seq<char>>
    decreases s.len(),
{
    if s.len() == 0 {
        Seq::empty()
    } else if blank(s.last()) {
        kept(s.drop_last())
    } else {
        kept(s.drop_last()).push(s.last())
    }
}

/// The canonical tokens of a text: its word segments with the blank ones
/// discarded, each mapped to its uppercase form.
pub open spec fn tokens(s: Seq<char>) -> Seq<Seq<char>> {
    kept(word_segments(s)).map_values(|w: Seq<char>| upper(w))
}

/// There are no more kept segments than segments.
pub proof fn lemma_kept_len_le(s: Seq<Seq<char>>)
    ensures
        kept(s).len() <= s.len(),
    decreases s.len(),
{
    if s.len() > 0 {
        lemma_kept_len_le(s.drop_last());
    }
}

/// Extending the prefix by one segment keeps it or not, by blankness.
pub proof fn lemma_kept_take_step(s: Seq<Seq<char>>, i: int)
    requires
        0 <= i < s.len(),
    ensures
        kept(s.take(i + 1)) == if blank(s[i]) {
            kept(s.take(i))
        } else {
            kept(s.take(i)).push(s[i])
        },
{
    assert(s.take(i + 1).drop_last() =~= s.take(i));
    assert(s.take(i + 1).last() == s[i]);
}

/// Relies on `unicode_segmentation::UnicodeSegmentation::split_word_bounds`:
/// it yields the word segments of the string in order; the segments are
/// non-empty substrings whose concatenation is the whole string, so there are
/// at most as many segments as characters, and an empty string has none.
#[verifier::external_body]
pub(crate) fn split_segments(s: &str) -> (r: Vec<String>)
    ensures
        r@.len() == word_segments(s@).len(),
        forall|i: int| 0 <= i < r@.len() ==> r@[i]@ == word_segments(s@)[i],
        r@.len() <= s@.len(),
{
    s.split_word_bounds().map(|w| w.to_string()).collect()
}

/// Relies on `str::to_uppercase`: the result is a function of the characters
/// alone.
#[verifier::external_body]
pub(crate) fn to_upper(s: &str) -> (r: String)
    ensures
        r@ == upper(s@),
{
    s.to_uppercase()
}

/// Relies on `char::is_whitespace`: the result depends on the character's
/// Unicode whitespace property alone.
#[verifier::external_body]
pub(crate) fn char_is_whitespace(c: char) -> (r: bool)
    ensures
        r == whitespace(c),
{
    c.is_whitespace()
}

/// Whether the string holds only whitespace characters (or nothing at all).
pub(crate) fn is_blank(s: &str) -> (r: bool)
    ensures
        r == blank(s@),
{
    let n = s.unicode_len();
    let mut i: usize = 0;
    while i < n
        invariant
            0 <= i <= n,
            n == s@.len(),
            forall|j: int| 0 <= j < i ==> whitespace(s@[j]),
        decreases n - i,
    {
        if !char_is_whitespace(s.get_char(i)) {
            assert(!blank(s@));
            return false;
        }
        i = i + 1;
    }
    true
}

} // verus!
