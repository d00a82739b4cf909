use rammer::BagOfWords;

fn bag(pairs: Vec<(&str, u64)>) -> BagOfWords {
    let owned: Vec<(String, u64)> = pairs.into_iter().map(|(k, v)| (k.to_string(), v)).collect();
    BagOfWords::from_entries(owned).expect("well-formed entries")
}

#[test]
fn new_bow() {
    let fbow: BagOfWords = BagOfWords::new();
    let bow = bag(vec![]);
    assert_eq!(fbow, bow);
}

#[test]
fn bow_from_empty_string() {
    let fbow: BagOfWords = BagOfWords::from_text("");
    let bow = BagOfWords::new();
    assert_eq!(fbow, bow);
}

#[test]
fn bow_from_one_word() {
    let fbow: BagOfWords = BagOfWords::from_text("hello");
    let bow = bag(vec![("HELLO", 1)]);
    assert_eq!(fbow, bow);
}

#[test]
fn bow_from_2_eq_words() {
    let fbow: BagOfWords = BagOfWords::from_text("hElLo hello");
    let bow = bag(vec![("HELLO", 2)]);
    assert_eq!(fbow, bow);
}

#[test]
fn bow_from_unicode() {
    let fbow: BagOfWords = BagOfWords::from_text("😊");
    let bow = bag(vec![("😊", 1)]);
    assert_eq!(fbow, bow);
}

#[test]
fn bow_2_from_unicode() {
    let fbow: BagOfWords = BagOfWords::from_text("😊 😊");
    let bow = bag(vec![("😊", 2)]);
    assert_eq!(fbow, bow);
}

#[test]
fn bow_2_from_unicode_no_spaces_emoji() {
    let fbow: BagOfWords = BagOfWords::from_text("😊hello😊");
    let bow = bag(vec![("😊", 2), ("HELLO", 1)]);
    assert_eq!(fbow, bow);
}

#[test]
fn bow_from_2_emoji_no_space() {
    let fbow: BagOfWords = BagOfWords::from_text("😊😊");
    let bow = bag(vec![("😊", 2)]);
    assert_eq!(fbow, bow);
}

#[test]
fn combine_empty_bows() {
    let fbow = BagOfWords::combine(BagOfWords::from_text(""), BagOfWords::from_text(""));
    let bow = BagOfWords::new();
    assert_eq!(fbow, bow);
}

#[test]
fn combine_non_empty_with_empty() {
    let fbow = BagOfWords::combine(BagOfWords::from_text("HELLO"), BagOfWords::from_text(""));
    let bow = BagOfWords::from_text("HELLO");
    assert_eq!(fbow, bow);
}

#[test]
fn combine_empty_with_non_empty() {
    let fbow = BagOfWords::combine(BagOfWords::from_text(""), BagOfWords::from_text("HELLO"));
    let bow = BagOfWords::from_text("HELLO");
    assert_eq!(fbow, bow);
}

#[test]
fn combine_both_non_empty() {
    let fbow = BagOfWords::combine(BagOfWords::from_text("HELLO"), BagOfWords::from_text("HELLO"));
    let bow = BagOfWords::from_text("HELLO HELLO");
    assert_eq!(fbow, bow);
}

#[test]
fn combine_both_non_empty_different() {
    let fbow = BagOfWords::combine(
        BagOfWords::from_text("HELLO there beautiful world"),
        BagOfWords::from_text("HELLO"),
    );
    let bow = BagOfWords::from_text("HELLO there beautiful world hello");
    assert_eq!(fbow, bow);
}

#[test]
fn combine_three() {
    let fbow = BagOfWords::new()
        .combine(BagOfWords::from_text("hello there world"))
        .combine(BagOfWords::from_text("hello there world 😊😊😊😊😊"))
        .combine(BagOfWords::from_text("😊😊😊😊😊"));
    let bow: BagOfWords =
        BagOfWords::from_text("hello there world hello there world 😊😊😊😊😊😊😊😊😊😊");
    assert_eq!(fbow, bow);
}

#[test]
fn from_iter() {
    let bowvec: Vec<BagOfWords> = vec![
        BagOfWords::from_text("hello there world"),
        BagOfWords::from_text("hello there world 😊😊😊😊😊"),
        BagOfWords::from_text("😊😊😊😊😊"),
    ];

    let fbow: BagOfWords = BagOfWords::combine_all(bowvec);
    let bow: BagOfWords =
        BagOfWords::from_text("hello there world hello there world 😊😊😊😊😊😊😊😊😊😊");
    assert_eq!(fbow, bow);
}

#[test]
fn combine_is_commutative() {
    let a = BagOfWords::from_text("hello there hello");
    let b = BagOfWords::from_text("there you 😊");
    let a2 = BagOfWords::from_text("hello there hello");
    let b2 = BagOfWords::from_text("there you 😊");
    assert_eq!(a.combine(b), b2.combine(a2));
}

#[test]
fn combine_is_associative() {
    let text1 = "hello there";
    let text2 = "there world world";
    let text3 = "😊 hello 😊";
    let left = BagOfWords::from_text(text1)
        .combine(BagOfWords::from_text(text2))
        .combine(BagOfWords::from_text(text3));
    let right = BagOfWords::from_text(text1)
        .combine(BagOfWords::from_text(text2).combine(BagOfWords::from_text(text3)));
    assert_eq!(left, right);
}

#[test]
fn combine_all_order_independent() {
    let texts = ["hello there", "there world world", "😊 hello 😊", ""];
    let build = |order: Vec<usize>| -> BagOfWords {
        let bags: Vec<BagOfWords> = order.into_iter().map(|i| BagOfWords::from_text(texts[i])).collect();
        BagOfWords::combine_all(bags)
    };
    let a = build(vec![0, 1, 2, 3]);
    let b = build(vec![3, 2, 0, 1]);
    let c = build(vec![2, 1, 3, 0]);
    assert_eq!(a, b);
    assert_eq!(a, c);
}

#[test]
fn case_insensitive_construction() {
    let fbow = BagOfWords::from_text("Hello HELLO hello");
    let bow = bag(vec![("HELLO", 3)]);
    assert_eq!(fbow, bow);
}

#[test]
fn whitespace_only_text_is_empty() {
    let fbow = BagOfWords::from_text(" \t\n  ");
    assert_eq!(fbow, BagOfWords::new());
}

#[test]
fn total_word_count_sums_counts() {
    let bow = BagOfWords::from_text("hello there hello");
    assert_eq!(bow.total_word_count(), 3u64);
    assert_eq!(BagOfWords::new().total_word_count(), 0u64);
}

#[test]
fn word_count_reads_exact_key() {
    let bow = BagOfWords::from_text("hello there hello");
    assert_eq!(bow.word_count(&"HELLO".to_string()), 2u64);
    assert_eq!(bow.word_count(&"hello".to_string()), 0u64);
    assert_eq!(bow.word_count(&"WORLD".to_string()), 0u64);
}

#[test]
fn freq_1() {
    let bow = BagOfWords::from_text("hello hello hello hello");
    let f = bow.word_frequency("hello").unwrap();
    assert_eq!(f.num as f64 / f.den as f64, 1.0f64);
}

#[test]
fn freq_0() {
    let bow = BagOfWords::from_text("hello hello hello hello");
    assert!(bow.word_frequency("there").is_none());
}

#[test]
fn freq_1_of_2() {
    let bow = BagOfWords::from_text("hello there");
    let f = bow.word_frequency("hello").unwrap();
    assert_eq!(f.num as f64 / f.den as f64, 0.5f64);
}

#[test]
fn freq_1_of_5() {
    let bow = BagOfWords::from_text("hello there you cutie pie");
    let f = bow.word_frequency("hello").unwrap();
    assert_eq!(f.num as f64 / f.den as f64, 0.2f64);
}

#[test]
fn freq_phrase_is_miss() {
    let bow = BagOfWords::from_text("hello there");
    assert!(bow.word_frequency("hello there").is_none());
}

#[test]
fn freq_on_empty_bag_is_miss() {
    let bow = BagOfWords::new();
    assert!(bow.word_frequency("hello").is_none());
}

#[test]
fn freq_normalizes_case() {
    let bow = BagOfWords::from_text("hello there");
    let f = bow.word_frequency("HeLLo").unwrap();
    assert_eq!(f.num, 1u64);
    assert_eq!(f.den, 2u64);
}

#[test]
fn top_10_count_takes_fifty_largest() {
    let mut text = String::new();
    for i in 0..55u64 {
        for _ in 0..(i + 1) {
            text.push_str(&format!("w{} ", i));
        }
    }
    let bow = BagOfWords::from_text(&text);
    let top = bow.top_10_count();
    assert_eq!(top.len(), 50);
    assert_eq!(top[0], (55u64, "W54".to_string()));
    assert_eq!(top[49].0, 6u64);
    for k in 1..top.len() {
        assert!(top[k - 1].0 >= top[k].0);
    }
}
