use rammer::BagOfWords;
use rammer::BigNat;
use rammer::HSModel;
use rammer::Rel;

#[test]
fn filter_test() {
    let spam_bow = BagOfWords::from_text("spam spam spam spam ham");
    let ham_bow = BagOfWords::from_text("spam ham");
    let model = HSModel::from_bows(ham_bow, spam_bow);
    assert!(model.text_spam_probability("spam").cmp_ratio(0, 1) != Rel::Less);
    assert!(model.text_spam_probability("spam").cmp_ratio(1, 1) != Rel::Greater);
}

#[test]
fn word_in_both_classes_scores_strictly_inside() {
    let spam_bow = BagOfWords::from_text("spam spam spam spam ham");
    let ham_bow = BagOfWords::from_text("spam ham");
    let model = HSModel::from_bows(ham_bow, spam_bow);
    let p = model.text_spam_probability("spam");
    assert_eq!(p.cmp_ratio(0, 1), Rel::Greater);
    assert_eq!(p.cmp_ratio(1, 1), Rel::Less);
}

#[test]
fn exact_score_of_one_word() {
    // "spam": spam count 4 of 5, ham count 1 of 2, so the probability is
    // (4 * 2) / (4 * 2 + 1 * 5) = 8 / 13.
    let spam_bow = BagOfWords::from_text("spam spam spam spam ham");
    let ham_bow = BagOfWords::from_text("spam ham");
    let model = HSModel::from_bows(ham_bow, spam_bow);
    let p = model.text_spam_probability("spam");
    assert_eq!(p.cmp_ratio(8, 13), Rel::Equal);
}

#[test]
fn unseen_text_scores_one_half() {
    let spam_bow = BagOfWords::from_text("buy now cheap");
    let ham_bow = BagOfWords::from_text("meeting at noon");
    let model = HSModel::from_bows(ham_bow, spam_bow);
    let p = model.text_spam_probability("zebra quartz");
    assert_eq!(p.cmp_ratio(1, 2), Rel::Equal);
}

#[test]
fn empty_text_scores_one_half() {
    let spam_bow = BagOfWords::from_text("buy now cheap");
    let ham_bow = BagOfWords::from_text("meeting at noon");
    let model = HSModel::from_bows(ham_bow, spam_bow);
    let p = model.text_spam_probability("");
    assert_eq!(p.cmp_ratio(1, 2), Rel::Equal);
}

#[test]
fn empty_model_scores_one_half() {
    let model = HSModel::new();
    let p = model.text_spam_probability("anything at all");
    assert_eq!(p.cmp_ratio(1, 2), Rel::Equal);
}

#[test]
fn token_in_one_class_only_is_skipped() {
    // "cheap" is only in the spam bag, so it carries no usable evidence.
    let spam_bow = BagOfWords::from_text("cheap cheap");
    let ham_bow = BagOfWords::from_text("meeting");
    let model = HSModel::from_bows(ham_bow, spam_bow);
    let p = model.text_spam_probability("cheap");
    assert_eq!(p.cmp_ratio(1, 2), Rel::Equal);
}

#[test]
fn builder_order_does_not_matter() {
    let m1 = HSModel::new()
        .add_spam_bow(BagOfWords::from_text("buy now"))
        .add_ham_bow(BagOfWords::from_text("meeting now"));
    let m2 = HSModel::new()
        .add_ham_bow(BagOfWords::from_text("meeting now"))
        .add_spam_bow(BagOfWords::from_text("buy now"));
    assert_eq!(m1.ham_bow(), m2.ham_bow());
    assert_eq!(m1.spam_bow(), m2.spam_bow());
    let p1 = m1.text_spam_probability("buy now");
    let p2 = m2.text_spam_probability("buy now");
    assert_eq!(p1.cmp_ratio(1, 2), p2.cmp_ratio(1, 2));
}

#[test]
fn incremental_training_accumulates() {
    let model = HSModel::new()
        .add_spam_bow(BagOfWords::from_text("buy"))
        .add_spam_bow(BagOfWords::from_text("buy cheap"))
        .add_ham_bow(BagOfWords::from_text("buy meeting"));
    assert_eq!(model.spam_bow().word_count(&"BUY".to_string()), 2u64);
    assert_eq!(model.spam_bow().word_count(&"CHEAP".to_string()), 1u64);
    assert_eq!(model.ham_bow().word_count(&"BUY".to_string()), 1u64);
}

#[test]
fn ham_heavy_word_scores_below_one_half() {
    // "hi": spam 1 of 10, ham 5 of 6: clearly ham-flavoured.
    let spam_bow = BagOfWords::from_text("buy buy buy buy buy buy buy buy buy hi");
    let ham_bow = BagOfWords::from_text("hi hi hi hi hi meeting");
    let model = HSModel::from_bows(ham_bow, spam_bow);
    let p = model.text_spam_probability("hi");
    assert_eq!(p.cmp_ratio(1, 2), Rel::Less);
    // Exactly (1 * 6) / (1 * 6 + 5 * 10) = 6 / 56.
    assert_eq!(p.cmp_ratio(6, 56), Rel::Equal);
}

#[test]
fn count_true_counts() {
    let flags = vec![true, false, true, true, false];
    assert_eq!(rammer::count_true(&flags), 3usize);
    assert_eq!(rammer::count_true(&Vec::new()), 0usize);
}

#[test]
fn bignat_orders_numbers() {
    assert_eq!(BigNat::from_u64(7).cmp(&BigNat::from_u64(9)), Rel::Less);
    assert_eq!(BigNat::from_u64(9).cmp(&BigNat::from_u64(9)), Rel::Equal);
    let big = BigNat::from_u64(u64::MAX).mul_u64(3);
    let same = BigNat::from_u64(u64::MAX)
        .add(&BigNat::from_u64(u64::MAX))
        .add(&BigNat::from_u64(u64::MAX));
    assert_eq!(big.cmp(&same), Rel::Equal);
    assert_eq!(BigNat::from_u64(u64::MAX).cmp(&big), Rel::Less);
}
