//! The word-frequency accumulator.
//!
//! A [`BagOfWords`] maps each canonical word (an uppercased, non-blank
//! Unicode word segment) to the number of times it occurred.  Bags built
//! from separate texts merge additively with [`BagOfWords::combine`]; the
//! merge is commutative and associative with the empty bag as identity, so a
//! training corpus may be reduced pairwise in any order.
//!
//! A bag is modelled by its view, a sequence of key/count pairs with
//! distinct keys and strictly positive counts; [`count_in`] reads the count
//! of a key out of that model, with 0 for an absent key.  Counts saturate at
//! `u64::MAX` rather than overflow.

use vstd::prelude::*;
use vstd::pervasive::VecAdditionalExecFns;

use crate::tokenize;
use crate::tokenize::blank;
use crate::tokenize::is_token_for;
use crate::tokenize::token_count;
use crate::tokenize::upper;
use crate::tokenize::word_segments;

verus! {

/// The abstract content of a bag: each stored key with its count.
pub open spec fn entries_view(v: Seq<(String, u64)>) -> Seq<(Seq<char>, u64)> {
    v.map_values(|p: (String, u64)| (p.0@, p.1))
}

/// The count stored for `key`, or 0 when `key` is absent.
pub open spec fn count_in(s: Seq<(Seq<char>, u64)>, key: Seq<char>) -> u64
    decreases s.len(),
{
    if s.len() == 0 {
        0
    } else if s.last().0 == key {
        s.last().1
    } else {
        count_in(s.drop_last(), key)
    }
}

/// No key occurs twice.
pub open spec fn distinct_keys(s: Seq<(Seq<char>, u64)>) -> bool {
    forall|i: int, j: int| 0 <= i < j < s.len() ==> s[i].0 != s[j].0
}

/// A well-formed bag content: distinct keys, every stored count positive.
pub open spec fn wf_entries(s: Seq<(Seq<char>, u64)>) -> bool {
    distinct_keys(s) && (forall|i: int| 0 <= i < s.len() ==> s[i].1 >= 1)
}

/// Saturating addition of two counts.
pub open spec fn sat_add(x: u64, y: u64) -> u64 {
    if x + y > u64::MAX {
        u64::MAX
    } else {
        (x + y) as u64
    }
}

/// The saturating sum of all counts in a bag.
pub open spec fn sat_total(s: Seq<(Seq<char>, u64)>) -> u64
    decreases s.len(),
{
    if s.len() == 0 {
        0
    } else {
        sat_add(sat_total(s.drop_last()), s.last().1)
    }
}

/// The per-key count of the merge of two bags.
pub open spec fn combined_count(
    a: Seq<(Seq<char>, u64)>,
    b: Seq<(Seq<char>, u64)>,
    key: Seq<char>,
) -> u64 {
    sat_add(count_in(a, key), count_in(b, key))
}

/// A frequency map from canonical words to occurrence counts.
#[derive(Debug)]
pub struct BagOfWords {
    entries: Vec<(String, u64)>,
}

impl View for BagOfWords {
    type V = Seq<(Seq<char>, u64)>;

    closed spec fn view(&self) -> Seq<(Seq<char>, u64)> {
        entries_view(self.entries@)
    }
}

/// When `key` is stored at position `i` of a bag with distinct keys, its
/// count is the stored one.
pub proof fn lemma_count_at_index(s: Seq<(Seq<char>, u64)>, i: int, key: Seq<char>)
    requires
        distinct_keys(s),
        0 <= i < s.len(),
        s[i].0 == key,
    ensures
        count_in(s, key) == s[i].1,
    decreases s.len(),
{
    if i == s.len() - 1 {
    } else {
        assert(s.last().0 != key);
        assert(forall|p: int, q: int|
            0 <= p < q < s.drop_last().len() ==> s.drop_last()[p].0 != s.drop_last()[q].0);
        lemma_count_at_index(s.drop_last(), i, key);
    }
}

/// A key stored nowhere has count 0.
pub proof fn lemma_count_absent(s: Seq<(Seq<char>, u64)>, key: Seq<char>)
    requires
        forall|i: int| 0 <= i < s.len() ==> s[i].0 != key,
    ensures
        count_in(s, key) == 0,
    decreases s.len(),
{
    if s.len() > 0 {
        lemma_count_absent(s.drop_last(), key);
    }
}

/// Updating the count stored at one position changes only that key's count.
pub proof fn lemma_count_update(s: Seq<(Seq<char>, u64)>, i: int, v: u64, key: Seq<char>)
    requires
        distinct_keys(s),
        0 <= i < s.len(),
    ensures
        count_in(s.update(i, (s[i].0, v)), key) == if s[i].0 == key {
            v
        } else {
            count_in(s, key)
        },
    decreases s.len(),
{
    let t = s.update(i, (s[i].0, v));
    assert(t.len() == s.len());
    if i == s.len() - 1 {
        assert(t.last() == (s[i].0, v));
        assert(t.drop_last() =~= s.drop_last());
    } else {
        assert(t.last() == s.last());
        assert(s.drop_last()[i] == s[i]);
        assert(t.drop_last() =~= s.drop_last().update(i, (s[i].0, v)));
        assert(forall|p: int, q: int|
            0 <= p < q < s.drop_last().len() ==> s.drop_last()[p].0 != s.drop_last()[q].0);
        lemma_count_update(s.drop_last(), i, v, key);
    }
}

/// No key's count passes the bag's total.
pub proof fn lemma_count_le_total(s: Seq<(Seq<char>, u64)>, key: Seq<char>)
    ensures
        count_in(s, key) <= sat_total(s),
    decreases s.len(),
{
    if s.len() > 0 {
        lemma_count_le_total(s.drop_last(), key);
    }
}

/// One token's count never passes the number of segments.
proof fn lemma_token_count_le(segs: Seq<Seq<char>>, key: Seq<char>)
    ensures
        token_count(segs, key) <= segs.len(),
    decreases segs.len(),
{
    if segs.len() > 0 {
        lemma_token_count_le(segs.drop_last(), key);
    }
}

/// Extending the processed prefix by one segment adds that segment's
/// contribution.
proof fn lemma_token_count_step(segs: Seq<Seq<char>>, i: int, key: Seq<char>)
    requires
        0 <= i < segs.len(),
    ensures
        token_count(segs.take(i + 1), key) == token_count(segs.take(i), key) + if is_token_for(
            segs[i],
            key,
        ) {
            1nat
        } else {
            0nat
        },
{
    assert(segs.take(i + 1).drop_last() =~= segs.take(i));
    assert(segs.take(i + 1).last() == segs[i]);
}

/// Finds the position of `key` among the stored entries.
fn find_index(v: &Vec<(String, u64)>, key: &String) -> (r: Option<usize>)
    ensures
        match r {
            Some(i) => i < v@.len() && v@[i as int].0@ == key@,
            None => forall|i: int| 0 <= i < v@.len() ==> v@[i].0@ != key@,
        },
{
    let mut i: usize = 0;
    while i < v.len()
        invariant
            0 <= i <= v@.len(),
            forall|j: int| 0 <= j < i ==> v@[j].0@ != key@,
        decreases v@.len() - i,
    {
        if v[i].0 == *key {
            return Some(i);
        }
        i = i + 1;
    }
    None
}

impl BagOfWords {
    #[verifier::type_invariant]
    spec fn wf(self) -> bool {
        wf_entries(self@)
    }

    /// An empty bag.
    pub fn new() -> (r: Self)
        ensures
            r@.len() == 0,
    {
        let entries: Vec<(String, u64)> = Vec::new();
        BagOfWords { entries }
    }

    /// Builds a bag from a text: the text is segmented along Unicode word
    /// boundaries, whitespace-only segments are discarded, every kept
    /// segment is uppercased, and each occurrence counts 1.
    pub fn from_text(text: &str) -> (r: Self)
        ensures
            forall|key: Seq<char>|
                count_in(r@, key) == token_count(word_segments(text@), key),
            text@.len() == 0 ==> r@.len() == 0,
    {
        let segs = tokenize::split_segments(text);
        let n = segs.len();
        let ghost gsegs = word_segments(text@);
        let mut entries: Vec<(String, u64)> = Vec::new();
        let mut i: usize = 0;
        proof {
            assert(gsegs.take(0) =~= Seq::<Seq<char>>::empty());
            assert(entries_view(entries@) =~= Seq::<(Seq<char>, u64)>::empty());
        }
        while i < n
            invariant
                0 <= i <= n,
                n == segs@.len(),
                n == gsegs.len(),
                gsegs == word_segments(text@),
                forall|j: int| 0 <= j < n ==> segs@[j]@ == gsegs[j],
                entries@.len() <= i,
                wf_entries(entries_view(entries@)),
                forall|key: Seq<char>|
                    count_in(entries_view(entries@), key) == token_count(
                        gsegs.take(i as int),
                        key,
                    ),
            decreases n - i,
        {
            let w = &segs[i];
            proof {
                lemma_token_count_step(gsegs, i as int, upper(w@));
                lemma_token_count_le(gsegs.take(i as int), upper(w@));
            }
            if !tokenize::is_blank(w.as_str()) {
                let key_s = tokenize::to_upper(w.as_str());
                let ghost pre = entries_view(entries@);
                match find_index(&entries, &key_s) {
                    Some(j) => {
                        let c: u64 = entries[j].1;
                        proof {
                            lemma_count_at_index(pre, j as int, key_s@);
                        }
                        let ks = entries[j].0.clone();
                        entries.set(j, (ks, c + 1));
                        proof {
                            assert(entries_view(entries@) =~= pre.update(
                                j as int,
                                (pre[j as int].0, (c + 1) as u64),
                            ));
                            assert(forall|p: int|
                                0 <= p < pre.len() ==> entries_view(entries@)[p].0 == pre[p].0);
                            assert forall|key: Seq<char>|
                                count_in(entries_view(entries@), key) == token_count(
                                    gsegs.take(i as int + 1),
                                    key,
                                ) by {
                                lemma_count_update(pre, j as int, (c + 1) as u64, key);
                                lemma_token_count_step(gsegs, i as int, key);
                            }
                        }
                    },
                    None => {
                        proof {
                            assert(forall|j: int|
                                0 <= j < pre.len() ==> pre[j].0 != key_s@);
                            lemma_count_absent(pre, key_s@);
                        }
                        entries.push((key_s, 1));
                        proof {
                            assert(entries_view(entries@) =~= pre.push((key_s@, 1u64)));
                            assert(entries_view(entries@).drop_last() =~= pre);
                            assert(entries_view(entries@).last() == (key_s@, 1u64));
                            assert(forall|p: int|
                                0 <= p < pre.len() ==> entries_view(entries@)[p] == pre[p]);
                            assert forall|key: Seq<char>|
                                count_in(entries_view(entries@), key) == token_count(
                                    gsegs.take(i as int + 1),
                                    key,
                                ) by {
                                lemma_token_count_step(gsegs, i as int, key);
                                assert(!blank(gsegs[i as int]));
                                assert(upper(gsegs[i as int]) == key_s@);
                                assert(count_in(pre, key) == token_count(
                                    gsegs.take(i as int),
                                    key,
                                ));
                                if key == key_s@ {
                                    assert(is_token_for(gsegs[i as int], key));
                                    assert(count_in(entries_view(entries@), key) == 1);
                                    assert(token_count(gsegs.take(i as int), key) == 0);
                                } else {
                                    assert(!is_token_for(gsegs[i as int], key));
                                    assert(count_in(entries_view(entries@), key) == count_in(
                                        pre,
                                        key,
                                    ));
                                }
                            }
                        }
                    },
                }
            } else {
                proof {
                    assert forall|key: Seq<char>|
                        count_in(entries_view(entries@), key) == token_count(
                            gsegs.take(i as int + 1),
                            key,
                        ) by {
                        lemma_token_count_step(gsegs, i as int, key);
                    }
                }
            }
            i = i + 1;
        }
        proof {
            assert(gsegs.take(n as int) =~= gsegs);
        }
        BagOfWords { entries }
    }

    /// Merges another bag into this one: counts add key by key, saturating
    /// at `u64::MAX`.  The merge is commutative and associative with the
    /// empty bag as identity (see the combine lemmas), so bags may be
    /// reduced in any order.
    pub fn combine(self, other: Self) -> (r: Self)
        ensures
            forall|key: Seq<char>|
                count_in(r@, key) == combined_count(self@, other@, key),
    {
        proof {
            use_type_invariant(&self);
            use_type_invariant(&other);
        }
        let ghost ga = self@;
        let ghost gb = other@;
        let BagOfWords { entries: mut a } = self;
        let BagOfWords { entries: b } = other;
        let m = b.len();
        let mut i: usize = 0;
        proof {
            assert(entries_view(a@) == ga);
            assert(entries_view(b@) == gb);
            assert(gb.take(0) =~= Seq::<(Seq<char>, u64)>::empty());
        }
        while i < m
            invariant
                0 <= i <= m,
                m == b@.len(),
                entries_view(b@) == gb,
                wf_entries(gb),
                wf_entries(entries_view(a@)),
                forall|key: Seq<char>|
                    count_in(entries_view(a@), key) == combined_count(
                        ga,
                        gb.take(i as int),
                        key,
                    ),
            decreases m - i,
        {
            let v: u64 = b[i].1;
            let ghost pre = entries_view(a@);
            proof {
                assert(gb[i as int] == (b@[i as int].0@, b@[i as int].1));
                assert(gb.take(i as int + 1).drop_last() =~= gb.take(i as int));
                assert(gb.take(i as int + 1).last() == gb[i as int]);
                assert(forall|p: int| 0 <= p < i ==> gb.take(i as int)[p] == gb[p]);
            }
            match find_index(&a, &b[i].0) {
                Some(j) => {
                    let c: u64 = a[j].1;
                    proof {
                        lemma_count_at_index(pre, j as int, gb[i as int].0);
                    }
                    let ks = a[j].0.clone();
                    a.set(j, (ks, c.saturating_add(v)));
                    proof {
                        assert(entries_view(a@) =~= pre.update(
                            j as int,
                            (pre[j as int].0, sat_add(c, v)),
                        ));
                        assert(forall|p: int|
                            0 <= p < pre.len() ==> entries_view(a@)[p].0 == pre[p].0);
                        assert forall|key: Seq<char>|
                            count_in(entries_view(a@), key) == combined_count(
                                ga,
                                gb.take(i as int + 1),
                                key,
                            ) by {
                            lemma_count_update(pre, j as int, sat_add(c, v), key);
                            if key == gb[i as int].0 {
                                lemma_count_absent(gb.take(i as int), key);
                                assert(count_in(gb.take(i as int + 1), key) == v);
                                assert(c == sat_add(count_in(ga, key), 0));
                                assert(count_in(entries_view(a@), key) == sat_add(c, v));
                            } else {
                                assert(count_in(gb.take(i as int + 1), key) == count_in(
                                    gb.take(i as int),
                                    key,
                                ));
                                assert(count_in(entries_view(a@), key) == count_in(pre, key));
                            }
                        }
                    }
                },
                None => {
                    proof {
                        assert(forall|p: int|
                            0 <= p < pre.len() ==> pre[p].0 != gb[i as int].0);
                        lemma_count_absent(pre, gb[i as int].0);
                    }
                    let ks = b[i].0.clone();
                    a.push((ks, v));
                    proof {
                        assert(entries_view(a@) =~= pre.push((gb[i as int].0, v)));
                        assert(entries_view(a@).drop_last() =~= pre);
                        assert(entries_view(a@).last() == (gb[i as int].0, v));
                        assert(forall|p: int|
                            0 <= p < pre.len() ==> entries_view(a@)[p] == pre[p]);
                        assert forall|key: Seq<char>|
                            count_in(entries_view(a@), key) == combined_count(
                                ga,
                                gb.take(i as int + 1),
                                key,
                            ) by {
                            if key == gb[i as int].0 {
                                lemma_count_absent(gb.take(i as int), key);
                                assert(count_in(gb.take(i as int + 1), key) == v);
                                assert(count_in(pre, key) == 0);
                                assert(count_in(ga, key) == 0);
                                assert(count_in(entries_view(a@), key) == v);
                            } else {
                                assert(count_in(gb.take(i as int + 1), key) == count_in(
                                    gb.take(i as int),
                                    key,
                                ));
                                assert(count_in(entries_view(a@), key) == count_in(pre, key));
                            }
                        }
                    }
                },
            }
            i = i + 1;
        }
        proof {
            assert(gb.take(m as int) =~= gb);
        }
        BagOfWords { entries: a }
    }

    /// The stored count of a canonical key, taken exactly as stored (no
    /// segmentation or case normalization): 0 when the key is absent.
    pub fn word_count(&self, key: &String) -> (r: u64)
        ensures
            r == count_in(self@, key@),
    {
        proof {
            use_type_invariant(self);
        }
        match find_index(&self.entries, key) {
            Some(j) => {
                let c: u64 = self.entries[j].1;
                proof {
                    lemma_count_at_index(self@, j as int, key@);
                }
                c
            },
            None => {
                proof {
                    assert(forall|p: int| 0 <= p < self@.len() ==> self@[p].0 != key@);
                    lemma_count_absent(self@, key@);
                }
                0
            },
        }
    }

    /// The sum of all counts in the bag, saturating at `u64::MAX`; the
    /// denominator of every frequency query.  0 exactly for the empty bag.
    pub fn total_word_count(&self) -> (r: u64)
        ensures
            r == sat_total(self@),
    {
        let n = self.entries.len();
        let mut total: u64 = 0;
        let mut i: usize = 0;
        proof {
            assert(self@.take(0) =~= Seq::<(Seq<char>, u64)>::empty());
        }
        while i < n
            invariant
                0 <= i <= n,
                n == self.entries@.len(),
                self@.len() == n,
                self@ == entries_view(self.entries@),
                total == sat_total(self@.take(i as int)),
            decreases n - i,
        {
            let v: u64 = self.entries[i].1;
            proof {
                assert(self@.take(i as int + 1).drop_last() =~= self@.take(i as int));
                assert(self@.take(i as int + 1).last() == self@[i as int]);
                assert(self@[i as int].1 == v);
            }
            total = total.saturating_add(v);
            i = i + 1;
        }
        proof {
            assert(self@.take(n as int) =~= self@);
        }
        total
    }
}

/// Merging is commutative: combining two bags in either order yields, for
/// every key, the same count.  By [`BagOfWords::combine`]'s contract this is
/// exactly key-by-key equality of `combine(a, b)` and `combine(b, a)`.
pub proof fn lemma_combine_commutative(a: Seq<(Seq<char>, u64)>, b: Seq<(Seq<char>, u64)>)
    ensures
        forall|key: Seq<char>|
            combined_count(a, b, key) == combined_count(b, a, key),
{
}

/// Merging is associative: for every key, combining `combine(a, b)` with
/// `c` and combining `a` with `combine(b, c)` store the same count.  The
/// two sides below are those counts by [`BagOfWords::combine`]'s contract.
pub proof fn lemma_combine_associative(
    a: Seq<(Seq<char>, u64)>,
    b: Seq<(Seq<char>, u64)>,
    c: Seq<(Seq<char>, u64)>,
)
    ensures
        forall|key: Seq<char>|
            sat_add(combined_count(a, b, key), count_in(c, key)) == sat_add(
                count_in(a, key),
                combined_count(b, c, key),
            ),
{
}

/// The empty bag is the identity of merging: combining any bag with it
/// leaves every key's count unchanged.
pub proof fn lemma_combine_identity(a: Seq<(Seq<char>, u64)>)
    ensures
        forall|key: Seq<char>|
            combined_count(a, Seq::<(Seq<char>, u64)>::empty(), key) == count_in(a, key),
{
}

/// The per-key count of the sequential left fold of many bags, starting
/// from the empty bag.
pub open spec fn fold_count(ms: Seq<Seq<(Seq<char>, u64)>>, key: Seq<char>) -> u64
    decreases ms.len(),
{
    if ms.len() == 0 {
        0
    } else {
        sat_add(fold_count(ms.drop_last(), key), count_in(ms.last(), key))
    }
}

/// Splitting a reduction anywhere and merging the two halves gives the
/// same count as folding sequentially: tree-shaped (parallel) reduction
/// agrees with the left fold.
pub proof fn lemma_fold_split(
    ms1: Seq<Seq<(Seq<char>, u64)>>,
    ms2: Seq<Seq<(Seq<char>, u64)>>,
    key: Seq<char>,
)
    ensures
        fold_count(ms1 + ms2, key) == sat_add(fold_count(ms1, key), fold_count(ms2, key)),
    decreases ms2.len(),
{
    if ms2.len() == 0 {
        assert(ms1 + ms2 =~= ms1);
    } else {
        lemma_fold_split(ms1, ms2.drop_last(), key);
        assert((ms1 + ms2).drop_last() =~= ms1 + ms2.drop_last());
        assert((ms1 + ms2).last() == ms2.last());
    }
}

/// Removing one bag from a reduction and merging it back in gives the
/// original fold: a bag's position in the reduction does not matter.
proof fn lemma_fold_remove(ms: Seq<Seq<(Seq<char>, u64)>>, i: int, key: Seq<char>)
    requires
        0 <= i < ms.len(),
    ensures
        sat_add(fold_count(ms.remove(i), key), count_in(ms[i], key)) == fold_count(ms, key),
    decreases ms.len(),
{
    if i == ms.len() - 1 {
        assert(ms.remove(i) =~= ms.drop_last());
    } else {
        assert(ms.remove(i).drop_last() =~= ms.drop_last().remove(i));
        assert(ms.remove(i).last() == ms.last());
        lemma_fold_remove(ms.drop_last(), i, key);
    }
}

/// Reordering the bags of a reduction does not change the result: any two
/// sequences holding the same bags (as a multiset) fold to the same count
/// for every key.  Together with [`lemma_fold_split`], a parallel pairwise
/// reduction over any partition and order agrees with the sequential fold.
pub proof fn lemma_fold_permutation(
    ms1: Seq<Seq<(Seq<char>, u64)>>,
    ms2: Seq<Seq<(Seq<char>, u64)>>,
    key: Seq<char>,
)
    requires
        ms1.to_multiset() == ms2.to_multiset(),
    ensures
        fold_count(ms1, key) == fold_count(ms2, key),
    decreases ms1.len(),
{
    ms1.to_multiset_ensures();
    ms2.to_multiset_ensures();
    if ms1.len() == 0 {
        assert(ms2.to_multiset().len() == 0);
        assert(ms2.len() == 0);
    } else {
        let x = ms1.last();
        assert(ms1.to_multiset().contains(x));
        assert(ms2.to_multiset().contains(x));
        assert(ms2.contains(x));
        let j = choose|j: int| 0 <= j < ms2.len() && ms2[j] == x;
        lemma_fold_remove(ms2, j, key);
        assert(ms1.drop_last() =~= ms1.remove(ms1.len() - 1));
        lemma_seq_remove_to_multiset(ms1, ms1.len() - 1);
        lemma_seq_remove_to_multiset(ms2, j);
        assert(ms1.drop_last().to_multiset() == ms2.remove(j).to_multiset());
        lemma_fold_permutation(ms1.drop_last(), ms2.remove(j), key);
    }
}

/// Removing an element removes one occurrence from the sequence's
/// multiset.
proof fn lemma_seq_remove_to_multiset(ms: Seq<Seq<(Seq<char>, u64)>>, i: int)
    requires
        0 <= i < ms.len(),
    ensures
        ms.remove(i).to_multiset() == ms.to_multiset().remove(ms[i]),
{
    vstd::seq_lib::to_multiset_remove(ms, i);
}

impl BagOfWords {
    /// Reduces a collection of bags to one by merging them all, starting
    /// from the empty bag.  By the fold lemmas, splitting or reordering
    /// this reduction cannot change the result.
    pub fn combine_all(maps: Vec<BagOfWords>) -> (r: Self)
        ensures
            forall|key: Seq<char>|
                count_in(r@, key) == fold_count(views_of(maps@), key),
    {
        let ghost orig = views_of(maps@);
        let mut maps = maps;
        let n0 = maps.len();
        let mut acc = BagOfWords::new();
        let mut i: usize = 0;
        proof {
            assert(orig.len() == n0);
            assert(orig.take(0) =~= Seq::<Seq<(Seq<char>, u64)>>::empty());
            assert(acc@.len() == 0);
        }
        while maps.len() > 0
            invariant
                0 <= i,
                i + maps@.len() == orig.len(),
                orig.len() <= usize::MAX,
                views_of(maps@) =~= orig.skip(i as int),
                forall|key: Seq<char>|
                    count_in(acc@, key) == fold_count(orig.take(i as int), key),
            decreases maps@.len(),
        {
            let ghost pre_maps = maps@;
            proof {
                assert forall|q: int| 0 <= q < pre_maps.len() implies #[trigger] pre_maps[q]@
                    == orig[i + q] by {
                    assert(views_of(pre_maps)[q] == pre_maps[q]@);
                    assert(orig.skip(i as int)[q] == orig[i + q]);
                }
            }
            let m = maps.remove(0);
            proof {
                assert(maps@ =~= pre_maps.skip(1));
                assert(m@ == orig[i as int]);
                assert(views_of(maps@) =~= orig.skip(i as int + 1)) by {
                    assert(forall|p: int|
                        0 <= p < maps@.len() ==> #[trigger] views_of(maps@)[p] == maps@[p]@);
                    assert(forall|p: int|
                        0 <= p < maps@.len() ==> maps@[p] == pre_maps[p + 1]);
                    assert(forall|p: int|
                        0 <= p < maps@.len() ==> #[trigger] orig.skip(i as int + 1)[p] == orig[
                            i + 1 + p
                        ]);
                }
            }
            acc = acc.combine(m);
            proof {
                assert(orig.take(i as int + 1).drop_last() =~= orig.take(i as int));
                assert(orig.take(i as int + 1).last() == orig[i as int]);
            }
            i = i + 1;
        }
        proof {
            assert(orig.take(i as int) =~= orig);
        }
        acc
    }
}

/// The abstract contents of a collection of bags.
pub open spec fn views_of(ms: Seq<BagOfWords>) -> Seq<Seq<(Seq<char>, u64)>> {
    ms.map_values(|m: BagOfWords| m@)
}

impl PartialEq for BagOfWords {
    /// Two bags are equal when every key has the same count in both.
    fn eq(&self, other: &Self) -> (r: bool) {
        proof {
            use_type_invariant(self);
            use_type_invariant(other);
        }
        let n = self.entries.len();
        let mut i: usize = 0;
        while i < n
            invariant
                0 <= i <= n,
                n == self.entries@.len(),
                self@ == entries_view(self.entries@),
                other@ == entries_view(other.entries@),
                wf_entries(self@),
                wf_entries(other@),
                forall|p: int|
                    0 <= p < i ==> count_in(other@, #[trigger] self@[p].0) == self@[p].1,
            decreases n - i,
        {
            let ghost key = self@[i as int].0;
            proof {
                assert(self@[i as int].0 == self.entries@[i as int].0@);
                lemma_count_at_index(self@, i as int, key);
            }
            match find_index(&other.entries, &self.entries[i].0) {
                Some(j) => {
                    proof {
                        lemma_count_at_index(other@, j as int, key);
                    }
                    if other.entries[j].1 != self.entries[i].1 {
                        proof {
                            assert(count_in(self@, key) != count_in(other@, key));
                        }
                        return false;
                    }
                },
                None => {
                    proof {
                        assert(forall|p: int|
                            0 <= p < other@.len() ==> #[trigger] other@[p].0 != key);
                        lemma_count_absent(other@, key);
                        assert(count_in(self@, key) >= 1);
                    }
                    return false;
                },
            }
            i = i + 1;
        }
        let m = other.entries.len();
        let mut k: usize = 0;
        while k < m
            invariant
                0 <= k <= m,
                m == other.entries@.len(),
                self@ == entries_view(self.entries@),
                other@ == entries_view(other.entries@),
                wf_entries(self@),
                wf_entries(other@),
                forall|p: int|
                    0 <= p < self@.len() ==> count_in(other@, #[trigger] self@[p].0)
                        == self@[p].1,
                forall|q: int|
                    0 <= q < k ==> count_in(self@, #[trigger] other@[q].0) >= 1,
            decreases m - k,
        {
            let ghost key = other@[k as int].0;
            proof {
                assert(other@[k as int].0 == other.entries@[k as int].0@);
            }
            match find_index(&self.entries, &other.entries[k].0) {
                Some(j) => {
                    proof {
                        lemma_count_at_index(self@, j as int, key);
                        assert(self@[j as int].1 >= 1);
                    }
                },
                None => {
                    proof {
                        assert(forall|p: int|
                            0 <= p < self@.len() ==> #[trigger] self@[p].0 != key);
                        lemma_count_absent(self@, key);
                        lemma_count_at_index(other@, k as int, key);
                        assert(count_in(other@, key) >= 1);
                        assert(count_in(self@, key) != count_in(other@, key));
                    }
                    return false;
                },
            }
            k = k + 1;
        }
        proof {
            assert forall|key: Seq<char>| count_in(self@, key) == count_in(other@, key) by {
                if exists|p: int| 0 <= p < self@.len() && #[trigger] self@[p].0 == key {
                    let p = choose|p: int| 0 <= p < self@.len() && #[trigger] self@[p].0 == key;
                    lemma_count_at_index(self@, p, key);
                } else {
                    assert(forall|p: int| 0 <= p < self@.len() ==> #[trigger] self@[p].0 != key);
                    lemma_count_absent(self@, key);
                    if exists|q: int| 0 <= q < other@.len() && #[trigger] other@[q].0 == key {
                        let q = choose|q: int|
                            0 <= q < other@.len() && #[trigger] other@[q].0 == key;
                        assert(count_in(self@, other@[q].0) >= 1);
                        assert(false);
                    } else {
                        assert(forall|q: int|
                            0 <= q < other@.len() ==> #[trigger] other@[q].0 != key);
                        lemma_count_absent(other@, key);
                    }
                }
            }
        }
        true
    }
}

impl vstd::std_specs::cmp::PartialEqSpecImpl for BagOfWords {
    open spec fn obeys_eq_spec() -> bool {
        true
    }

    open spec fn eq_spec(&self, other: &Self) -> bool {
        forall|key: Seq<char>| count_in(self.view(), key) == count_in(other.view(), key)
    }
}

impl BagOfWords {
    /// The stored contents, for persistence: each canonical word with its
    /// count, in storage order.
    pub fn entries(&self) -> (r: Vec<(String, u64)>)
        ensures
            entries_view(r@) == self@,
            wf_entries(entries_view(r@)),
    {
        proof {
            use_type_invariant(self);
        }
        let n = self.entries.len();
        let mut out: Vec<(String, u64)> = Vec::new();
        let mut i: usize = 0;
        proof {
            assert(entries_view(out@) =~= self@.take(0));
        }
        while i < n
            invariant
                0 <= i <= n,
                n == self.entries@.len(),
                self@ == entries_view(self.entries@),
                out@.len() == i,
                entries_view(out@) == self@.take(i as int),
            decreases n - i,
        {
            let ghost pre = entries_view(out@);
            out.push((self.entries[i].0.clone(), self.entries[i].1));
            proof {
                assert(entries_view(out@) =~= pre.push(self@[i as int]));
                assert(self@.take(i as int + 1) =~= self@.take(i as int).push(self@[i as int]));
            }
            i = i + 1;
        }
        proof {
            assert(self@.take(n as int) =~= self@);
        }
        out
    }

    /// Rebuilds a bag from persisted contents.  Returns `None` exactly
    /// when the data is malformed: a repeated key, or a zero count.
    pub fn from_entries(entries: Vec<(String, u64)>) -> (r: Option<Self>)
        ensures
            match r {
                Some(bag) => wf_entries(entries_view(entries@)) && bag@ == entries_view(
                    entries@,
                ),
                None => !wf_entries(entries_view(entries@)),
            },
    {
        let n = entries.len();
        let mut i: usize = 0;
        while i < n
            invariant
                0 <= i <= n,
                n == entries@.len(),
                forall|p: int| 0 <= p < i ==> entries_view(entries@)[p].1 >= 1,
                forall|p: int, q: int|
                    0 <= p < q < i ==> entries_view(entries@)[p].0 != entries_view(
                        entries@,
                    )[q].0,
            decreases n - i,
        {
            if entries[i].1 == 0 {
                proof {
                    assert(entries_view(entries@)[i as int].1 == 0);
                }
                return None;
            }
            match find_index_before(&entries, i) {
                Some(j) => {
                    proof {
                        assert(entries_view(entries@)[j as int].0 == entries_view(
                            entries@,
                        )[i as int].0);
                        assert(!distinct_keys(entries_view(entries@)));
                    }
                    return None;
                },
                None => {
                },
            }
            i = i + 1;
        }
        Some(BagOfWords { entries })
    }
}

/// Looks among the entries before position `i` for one sharing the key of
/// the entry at `i`.
fn find_index_before(v: &Vec<(String, u64)>, i: usize) -> (r: Option<usize>)
    requires
        i < v@.len(),
    ensures
        match r {
            Some(j) => j < i && v@[j as int].0@ == v@[i as int].0@,
            None => forall|j: int| 0 <= j < i ==> v@[j].0@ != v@[i as int].0@,
        },
{
    let mut j: usize = 0;
    while j < i
        invariant
            0 <= j <= i,
            i < v@.len(),
            forall|p: int| 0 <= p < j ==> v@[p].0@ != v@[i as int].0@,
        decreases i - j,
    {
        if v[j].0 == v[i].0 {
            return Some(j);
        }
        j = j + 1;
    }
    None
}

/// The stored entries as (count, word) rows.
pub open spec fn swapped(s: Seq<(Seq<char>, u64)>) -> Seq<(u64, Seq<char>)> {
    s.map_values(|p: (Seq<char>, u64)| (p.1, p.0))
}

/// The abstract value of a sequence of (count, word) rows.
pub open spec fn pairs_view(v: Seq<(u64, String)>) -> Seq<(u64, Seq<char>)> {
    v.map_values(|p: (u64, String)| (p.0, p.1@))
}

/// Counts never increase along the sequence.
pub open spec fn counts_descending(s: Seq<(u64, Seq<char>)>) -> bool {
    forall|i: int, j: int| 0 <= i < j < s.len() ==> s[i].0 >= s[j].0
}

impl BagOfWords {
    /// The 50 most frequent words, as (count, word) rows in descending
    /// count order: the first 50 rows of the stored entries sorted by
    /// count.  At least 50 distinct words must be stored.
    pub fn top_10_count(&self) -> (r: Vec<(u64, String)>)
        requires
            self@.len() >= 50,
        ensures
            r@.len() == 50,
            exists|sorted: Seq<(u64, Seq<char>)>|
                sorted.to_multiset() == swapped(self@).to_multiset() && counts_descending(
                    sorted,
                ) && pairs_view(r@) == sorted.take(50),
    {
        proof {
            use_type_invariant(self);
        }
        let n = self.entries.len();
        let mut rest: Vec<(u64, String)> = Vec::new();
        let mut i: usize = 0;
        proof {
            assert(pairs_view(rest@) =~= swapped(self@).take(0));
        }
        while i < n
            invariant
                0 <= i <= n,
                n == self.entries@.len(),
                self@ == entries_view(self.entries@),
                swapped(self@).len() == n,
                rest@.len() == i,
                pairs_view(rest@) == swapped(self@).take(i as int),
            decreases n - i,
        {
            let ghost pre = pairs_view(rest@);
            rest.push((self.entries[i].1, self.entries[i].0.clone()));
            proof {
                assert(pairs_view(rest@) =~= pre.push(swapped(self@)[i as int]));
                assert(swapped(self@).take(i as int + 1) =~= swapped(self@).take(
                    i as int,
                ).push(swapped(self@)[i as int]));
            }
            i = i + 1;
        }
        proof {
            assert(swapped(self@).take(n as int) =~= swapped(self@));
        }
        let ghost orig_ms = swapped(self@).to_multiset();
        let mut out: Vec<(u64, String)> = Vec::new();
        proof {
            vstd::multiset::lemma_multiset_empty_len::<(u64, Seq<char>)>(
                pairs_view(out@).to_multiset(),
            );
            pairs_view(out@).to_multiset_ensures();
            assert(pairs_view(out@) =~= Seq::<(u64, Seq<char>)>::empty());
            assert(pairs_view(out@).to_multiset().len() == 0);
            assert(pairs_view(out@).to_multiset().add(pairs_view(rest@).to_multiset())
                =~= pairs_view(rest@).to_multiset());
        }
        while rest.len() > 0
            invariant
                out@.len() + rest@.len() == n,
                counts_descending(pairs_view(out@)),
                forall|p: int, q: int|
                    0 <= p < out@.len() && 0 <= q < rest@.len() ==> pairs_view(out@)[p].0
                        >= pairs_view(rest@)[q].0,
                pairs_view(out@).to_multiset().add(pairs_view(rest@).to_multiset())
                    == orig_ms,
            decreases rest@.len(),
        {
            let mut mx: usize = 0;
            let mut q: usize = 1;
            while q < rest.len()
                invariant
                    rest@.len() > 0,
                    mx < rest@.len(),
                    1 <= q <= rest@.len(),
                    forall|t: int| 0 <= t < q ==> rest@[mx as int].0 >= rest@[t].0,
                decreases rest@.len() - q,
            {
                if rest[q].0 > rest[mx].0 {
                    mx = q;
                }
                q = q + 1;
            }
            let ghost pre_out = pairs_view(out@);
            let ghost pre_rest = pairs_view(rest@);
            let ghost iv = pre_rest[mx as int];
            let item = rest.remove(mx);
            out.push(item);
            proof {
                broadcast use vstd::multiset::group_multiset_axioms;

                assert(pairs_view(out@) =~= pre_out.push(iv));
                assert(pairs_view(rest@) =~= pre_rest.remove(mx as int));
                pre_out.to_multiset_ensures();
                pre_rest.to_multiset_ensures();
                vstd::seq_lib::to_multiset_remove(pre_rest, mx as int);
                assert(pre_out.push(iv).to_multiset() =~= pre_out.to_multiset().insert(iv));
                assert(pre_rest.contains(iv));
                assert(pre_rest.to_multiset().count(iv) > 0);
                assert(pairs_view(out@).to_multiset().add(pairs_view(rest@).to_multiset())
                    =~= orig_ms);
                assert(forall|t: int|
                    0 <= t < pre_rest.len() ==> iv.0 >= #[trigger] pre_rest[t].0);
                assert(forall|p: int|
                    0 <= p < pre_out.len() ==> #[trigger] pairs_view(out@)[p] == pre_out[p]);
                assert(pairs_view(out@)[pre_out.len() as int] == iv);
                assert(forall|t: int|
                    0 <= t < pairs_view(rest@).len() ==> iv.0 >= #[trigger] pairs_view(
                        rest@,
                    )[t].0);
                assert(counts_descending(pairs_view(out@)));
            }
        }
        let ghost full = pairs_view(out@);
        proof {
            broadcast use vstd::multiset::group_multiset_axioms;

            assert(pairs_view(rest@) =~= Seq::<(u64, Seq<char>)>::empty());
            assert(full.to_multiset().add(pairs_view(rest@).to_multiset()) =~= full.to_multiset());
            assert(full.to_multiset() == orig_ms);
            assert(full.len() == n);
        }
        out.truncate(50);
        proof {
            assert(pairs_view(out@) =~= full.take(50));
            assert(counts_descending(full) && full.to_multiset() == swapped(self@).to_multiset()
                && pairs_view(out@) == full.take(50));
        }
        out
    }
}

/// An exact rate of occurrence: `num` occurrences out of `den` counted
/// words.
#[derive(Clone, Copy, Debug)]
pub struct Frequency {
    pub num: u64,
    pub den: u64,
}

impl BagOfWords {
    /// The frequency of one word in the bag: its count divided by the
    /// bag's total count, as an exact fraction in (0, 1].  Returns `None`
    /// exactly when the input is not a single word segment after
    /// whitespace is discarded, or the word's canonical form is absent
    /// (which covers the empty bag).
    pub fn word_frequency(&self, word: &str) -> (r: Option<Frequency>)
        ensures
            match r {
                Some(f) => tokenize::tokens(word@).len() == 1 && count_in(
                    self@,
                    tokenize::tokens(word@)[0],
                ) == f.num && f.den == sat_total(self@) && 1 <= f.num <= f.den,
                None => tokenize::tokens(word@).len() != 1 || count_in(
                    self@,
                    tokenize::tokens(word@)[0],
                ) == 0,
            },
    {
        proof {
            use_type_invariant(self);
        }
        let segs = tokenize::split_segments(word);
        let n = segs.len();
        let ghost gsegs = word_segments(word@);
        let mut kcount: usize = 0;
        let mut first: Option<String> = None;
        let mut i: usize = 0;
        proof {
            assert(gsegs.take(0) =~= Seq::<Seq<char>>::empty());
        }
        while i < n
            invariant
                0 <= i <= n,
                n == segs@.len(),
                n == gsegs.len(),
                gsegs == word_segments(word@),
                forall|j: int| 0 <= j < n ==> segs@[j]@ == gsegs[j],
                kcount == tokenize::kept(gsegs.take(i as int)).len(),
                match first {
                    Some(ks) => kcount >= 1 && ks@ == upper(
                        tokenize::kept(gsegs.take(i as int))[0],
                    ),
                    None => kcount == 0,
                },
            decreases n - i,
        {
            let w = &segs[i];
            proof {
                tokenize::lemma_kept_take_step(gsegs, i as int);
                tokenize::lemma_kept_len_le(gsegs.take(i as int));
            }
            if !tokenize::is_blank(w.as_str()) {
                if kcount == 0 {
                    first = Some(tokenize::to_upper(w.as_str()));
                }
                kcount = kcount + 1;
            }
            i = i + 1;
        }
        proof {
            assert(gsegs.take(n as int) =~= gsegs);
        }
        if kcount != 1 {
            return None;
        }
        match first {
            None => None,
            Some(key_s) => {
                proof {
                    assert(tokenize::tokens(word@)[0] == upper(tokenize::kept(gsegs)[0]));
                }
                let total = self.total_word_count();
                match find_index(&self.entries, &key_s) {
                    Some(j) => {
                        let c: u64 = self.entries[j].1;
                        proof {
                            lemma_count_at_index(self@, j as int, key_s@);
                            lemma_count_le_total(self@, key_s@);
                        }
                        Some(Frequency { num: c, den: total })
                    },
                    None => {
                        proof {
                            assert(forall|p: int|
                                0 <= p < self@.len() ==> self@[p].0 != key_s@);
                            lemma_count_absent(self@, key_s@);
                        }
                        None
                    },
                }
            },
        }
    }
}

} // verus!
