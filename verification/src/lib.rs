//! Rammer is a spam/ham text-classification library.
//!
//! [`BagOfWords`] accumulates how often each Unicode word occurs in a text,
//! after case normalization; bags built from separate texts merge additively,
//! and the merge is commutative and associative, so a training corpus may be
//! folded together in any order.  `HSModel` holds one bag trained on spam
//! and one trained on ham, and scores a candidate text with the Naive-Bayes
//! log-odds combination of the per-word frequencies, computed here in exact
//! integer arithmetic as a rational probability.

use vstd::prelude::*;

mod bag_of_words;
mod bignum;
mod hs_model;
mod tokenize;

pub use bag_of_words::BagOfWords;
pub use bag_of_words::Frequency;
pub use bignum::BigNat;
pub use bignum::Rel;
pub use hs_model::HSModel;
pub use hs_model::Probability;

verus! {

/// Number of times a word occurs in a bag of words.
pub type Count = u64;

/// How many entries of a sequence of classification outcomes are `true`.
pub open spec fn spec_count_true(s: Seq<bool>) -> nat
    decreases s.len(),
{
    if s.len() == 0 {
        0
    } else {
        spec_count_true(s.drop_last()) + if s.last() {
            1nat
        } else {
            0nat
        }
    }
}

/// Counts the correct outcomes of a validation run.
pub fn count_true(flags: &Vec<bool>) -> (r: usize)
    ensures
        r == spec_count_true(flags@),
{
    let n = flags.len();
    let mut r: usize = 0;
    let mut i: usize = 0;
    proof {
        assert(flags@.take(0) =~= Seq::<bool>::empty());
    }
    while i < n
        invariant
            0 <= i <= n,
            n == flags@.len(),
            r == spec_count_true(flags@.take(i as int)),
            r <= i,
        decreases n - i,
    {
        proof {
            assert(flags@.take(i as int + 1).drop_last() =~= flags@.take(i as int));
            assert(flags@.take(i as int + 1).last() == flags@[i as int]);
        }
        if flags[i] {
            r = r + 1;
        }
        i = i + 1;
    }
    proof {
        assert(flags@.take(n as int) =~= flags@);
    }
    r
}

} // verus!
