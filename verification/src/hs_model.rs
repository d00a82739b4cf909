//! The spam/ham classifier.
//!
//! An [`HSModel`] holds one [`BagOfWords`] trained on known ham and one
//! trained on known spam.  A candidate text is tokenized exactly as at
//! training time; every token counted in *both* bags contributes its
//! per-class frequencies to a Naive-Bayes log-odds sum, and tokens unseen
//! in either class are skipped.  The final probability
//! `1 / (1 + e^n)`, with `n` the summed log-odds `ln(1 - p) - ln(p)` of the
//! local spam fractions `p = spam_freq / (spam_freq + ham_freq)`, is
//! algebraically equal to `S / (S + H)` where `S` multiplies
//! `spam_count * ham_total` and `H` multiplies `ham_count * spam_total`
//! over the matched tokens.  This module computes that closed form in exact
//! integer arithmetic, so no rounding, infinity or not-a-number case can
//! arise: the result is an exact rational [`Probability`].

use vstd::prelude::*;
use vstd::arithmetic::mul::lemma_mul_inequality;

use crate::bag_of_words::combined_count;
use crate::bag_of_words::count_in;
use crate::bag_of_words::lemma_count_le_total;
use crate::bag_of_words::sat_total;
use crate::bag_of_words::BagOfWords;
use crate::bignum::BigNat;
use crate::bignum::Rel;
use crate::tokenize;
use crate::tokenize::blank;
use crate::tokenize::upper;
use crate::tokenize::word_segments;

verus! {

/// A word-bag content, as the contracts of [`BagOfWords`] model it.
pub type BagView = Seq<(Seq<char>, u64)>;

/// Whether a segment contributes to the score: it is a word (not blank)
/// and its canonical form is counted in both classes.
pub open spec fn matched(w: Seq<char>, spam: BagView, ham: BagView) -> bool {
    !blank(w) && count_in(spam, upper(w)) > 0 && count_in(ham, upper(w)) > 0
}

/// One segment's factor in the spam weight: its spam count times the ham
/// total, or 1 when the segment is skipped.
pub open spec fn spam_factor(w: Seq<char>, spam: BagView, ham: BagView) -> nat {
    if matched(w, spam, ham) {
        (count_in(spam, upper(w)) * sat_total(ham)) as nat
    } else {
        1
    }
}

/// One segment's factor in the ham weight: its ham count times the spam
/// total, or 1 when the segment is skipped.
pub open spec fn ham_factor(w: Seq<char>, spam: BagView, ham: BagView) -> nat {
    if matched(w, spam, ham) {
        (count_in(ham, upper(w)) * sat_total(spam)) as nat
    } else {
        1
    }
}

/// The spam weight `S` of a text: the product of the spam factors of its
/// segments.
pub open spec fn spam_weight(segs: Seq<Seq<char>>, spam: BagView, ham: BagView) -> nat
    decreases segs.len(),
{
    if segs.len() == 0 {
        1
    } else {
        spam_weight(segs.drop_last(), spam, ham) * spam_factor(segs.last(), spam, ham)
    }
}

/// The ham weight `H` of a text: the product of the ham factors of its
/// segments.
pub open spec fn ham_weight(segs: Seq<Seq<char>>, spam: BagView, ham: BagView) -> nat
    decreases segs.len(),
{
    if segs.len() == 0 {
        1
    } else {
        ham_weight(segs.drop_last(), spam, ham) * ham_factor(segs.last(), spam, ham)
    }
}

/// No segment of the text is counted in both classes: the text carries no
/// evidence either way.
pub open spec fn no_evidence(segs: Seq<Seq<char>>, spam: BagView, ham: BagView) -> bool {
    forall|i: int| 0 <= i < segs.len() ==> !matched(segs[i], spam, ham)
}

/// Both weights are at least 1: every factor is a product of positive
/// numbers or 1.
pub proof fn lemma_weights_pos(segs: Seq<Seq<char>>, spam: BagView, ham: BagView)
    ensures
        spam_weight(segs, spam, ham) >= 1,
        ham_weight(segs, spam, ham) >= 1,
    decreases segs.len(),
{
    if segs.len() > 0 {
        lemma_weights_pos(segs.drop_last(), spam, ham);
        let w = segs.last();
        if matched(w, spam, ham) {
            lemma_count_le_total(ham, upper(w));
            lemma_count_le_total(spam, upper(w));
            lemma_mul_inequality(1, count_in(spam, upper(w)) as int, sat_total(ham) as int);
            lemma_mul_inequality(1, count_in(ham, upper(w)) as int, sat_total(spam) as int);
        }
        lemma_mul_inequality(
            1,
            spam_weight(segs.drop_last(), spam, ham) as int,
            spam_factor(w, spam, ham) as int,
        );
        lemma_mul_inequality(
            1,
            ham_weight(segs.drop_last(), spam, ham) as int,
            ham_factor(w, spam, ham) as int,
        );
    }
}

/// Zero-evidence default: a text none of whose segments is counted in both
/// classes has both weights equal to 1, so its spam probability is exactly
/// one half.
pub proof fn lemma_no_evidence_weights(segs: Seq<Seq<char>>, spam: BagView, ham: BagView)
    requires
        no_evidence(segs, spam, ham),
    ensures
        spam_weight(segs, spam, ham) == 1,
        ham_weight(segs, spam, ham) == 1,
    decreases segs.len(),
{
    if segs.len() > 0 {
        assert(!matched(segs[segs.len() - 1], spam, ham));
        lemma_no_evidence_weights(segs.drop_last(), spam, ham);
    }
}

/// An exact probability: the rational number `num / den`, with
/// `num <= den`, held as arbitrary-precision integers.
#[derive(Debug)]
pub struct Probability {
    num: BigNat,
    den: BigNat,
}

impl View for Probability {
    type V = (nat, nat);

    closed spec fn view(&self) -> (nat, nat) {
        (self.num@, self.den@)
    }
}

impl Probability {
    #[verifier::type_invariant]
    spec fn wf(self) -> bool {
        self.num@ <= self.den@ && self.den@ >= 1
    }

    /// Compares this probability with the rational `a / b` by cross
    /// multiplication.
    pub fn cmp_ratio(&self, a: u64, b: u64) -> (r: Rel)
        requires
            b >= 1,
        ensures
            (r == Rel::Less <==> self@.0 * b < self@.1 * a),
            (r == Rel::Equal <==> self@.0 * b == self@.1 * a),
            (r == Rel::Greater <==> self@.0 * b > self@.1 * a),
    {
        let left = self.num.mul_u64(b);
        let right = self.den.mul_u64(a);
        left.cmp(&right)
    }
}

/// A model of two word bags: one trained on ham, one on spam.
#[derive(Debug)]
pub struct HSModel {
    ham_bow: BagOfWords,
    spam_bow: BagOfWords,
}

impl View for HSModel {
    type V = (BagView, BagView);

    closed spec fn view(&self) -> (BagView, BagView) {
        (self.ham_bow@, self.spam_bow@)
    }
}

impl HSModel {
    /// A model with no training data: both bags empty.
    pub fn new() -> (r: Self)
        ensures
            r@.0.len() == 0,
            r@.1.len() == 0,
    {
        HSModel { ham_bow: BagOfWords::new(), spam_bow: BagOfWords::new() }
    }

    /// Merges more known-spam counts into the model's spam bag.
    pub fn add_spam_bow(self, spam_bow: BagOfWords) -> (r: Self)
        ensures
            r@.0 == self@.0,
            forall|key: Seq<char>|
                count_in(r@.1, key) == combined_count(self@.1, spam_bow@, key),
    {
        let HSModel { ham_bow, spam_bow: own } = self;
        HSModel { ham_bow, spam_bow: own.combine(spam_bow) }
    }

    /// Merges more known-ham counts into the model's ham bag.
    pub fn add_ham_bow(self, ham_bow: BagOfWords) -> (r: Self)
        ensures
            r@.1 == self@.1,
            forall|key: Seq<char>|
                count_in(r@.0, key) == combined_count(self@.0, ham_bow@, key),
    {
        let HSModel { ham_bow: own, spam_bow } = self;
        HSModel { ham_bow: own.combine(ham_bow), spam_bow }
    }

    /// Builds a model from a pre-trained ham bag and spam bag.
    pub fn from_bows(ham_bow: BagOfWords, spam_bow: BagOfWords) -> (r: Self)
        ensures
            forall|key: Seq<char>| count_in(r@.0, key) == count_in(ham_bow@, key),
            forall|key: Seq<char>| count_in(r@.1, key) == count_in(spam_bow@, key),
    {
        HSModel::new().add_ham_bow(ham_bow).add_spam_bow(spam_bow)
    }

    /// The bag trained on known ham.
    pub fn ham_bow(&self) -> (r: &BagOfWords)
        ensures
            r@ == self@.0,
    {
        &self.ham_bow
    }

    /// The bag trained on known spam.
    pub fn spam_bow(&self) -> (r: &BagOfWords)
        ensures
            r@ == self@.1,
    {
        &self.spam_bow
    }

    /// The spam probability of a text: exactly `S / (S + H)` over the
    /// matched tokens, which is the logistic transform `1 / (1 + e^n)` of
    /// the accumulated log-odds.  The result always lies strictly between
    /// 0 and 1, and is exactly one half when no token is counted in both
    /// classes (in particular for empty or entirely unseen text).
    pub fn text_spam_probability(&self, text: &str) -> (r: Probability)
        ensures
            r@.0 == spam_weight(word_segments(text@), self@.1, self@.0),
            r@.1 == spam_weight(word_segments(text@), self@.1, self@.0) + ham_weight(
                word_segments(text@),
                self@.1,
                self@.0,
            ),
            1 <= r@.0 < r@.1,
            no_evidence(word_segments(text@), self@.1, self@.0) ==> r@.0 == 1 && r@.1 == 2,
    {
        let ghost gspam = self.spam_bow@;
        let ghost gham = self.ham_bow@;
        let segs = tokenize::split_segments(text);
        let ghost gsegs = word_segments(text@);
        let n = segs.len();
        let ts: u64 = self.spam_bow.total_word_count();
        let th: u64 = self.ham_bow.total_word_count();
        let mut s_w = BigNat::from_u64(1);
        let mut h_w = BigNat::from_u64(1);
        let mut i: usize = 0;
        proof {
            assert(gsegs.take(0) =~= Seq::<Seq<char>>::empty());
        }
        while i < n
            invariant
                0 <= i <= n,
                n == segs@.len(),
                n == gsegs.len(),
                gsegs == word_segments(text@),
                forall|j: int| 0 <= j < n ==> segs@[j]@ == gsegs[j],
                gspam == self.spam_bow@,
                gham == self.ham_bow@,
                ts == sat_total(gspam),
                th == sat_total(gham),
                s_w@ == spam_weight(gsegs.take(i as int), gspam, gham),
                h_w@ == ham_weight(gsegs.take(i as int), gspam, gham),
            decreases n - i,
        {
            let w = &segs[i];
            proof {
                assert(gsegs.take(i as int + 1).drop_last() =~= gsegs.take(i as int));
                assert(gsegs.take(i as int + 1).last() == gsegs[i as int]);
            }
            if !tokenize::is_blank(w.as_str()) {
                let key = tokenize::to_upper(w.as_str());
                let cs: u64 = self.spam_bow.word_count(&key);
                let ch: u64 = self.ham_bow.word_count(&key);
                if cs > 0 && ch > 0 {
                    let ghost pre_s = s_w@;
                    let ghost pre_h = h_w@;
                    proof {
                        assert(matched(gsegs[i as int], gspam, gham));
                        assert(spam_factor(gsegs[i as int], gspam, gham) == cs * th);
                        assert(ham_factor(gsegs[i as int], gspam, gham) == ch * ts);
                    }
                    s_w = s_w.mul_u64(cs).mul_u64(th);
                    h_w = h_w.mul_u64(ch).mul_u64(ts);
                    proof {
                        assert((pre_s * cs) * th == pre_s * (cs * th as nat)) by (nonlinear_arith);
                        assert((pre_h * ch) * ts == pre_h * (ch * ts as nat)) by (nonlinear_arith);
                    }
                } else {
                    proof {
                        assert(!matched(gsegs[i as int], gspam, gham));
                        assert(spam_factor(gsegs[i as int], gspam, gham) == 1);
                        assert(ham_factor(gsegs[i as int], gspam, gham) == 1);
                    }
                }
            } else {
                proof {
                    assert(blank(gsegs[i as int]));
                    assert(!matched(gsegs[i as int], gspam, gham));
                }
            }
            i = i + 1;
        }
        proof {
            assert(gsegs.take(n as int) =~= gsegs);
            lemma_weights_pos(gsegs, gspam, gham);
            if no_evidence(gsegs, gspam, gham) {
                lemma_no_evidence_weights(gsegs, gspam, gham);
            }
        }
        let den = s_w.add(&h_w);
        Probability { num: s_w, den }
    }
}

} // verus!
