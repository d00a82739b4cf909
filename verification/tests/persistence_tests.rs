use rammer::BagOfWords;
use rammer::HSModel;

#[test]
fn entries_round_trip() {
    let bow = BagOfWords::from_text("hello there hello 😊");
    let rebuilt = BagOfWords::from_entries(bow.entries()).expect("entries are well-formed");
    assert_eq!(bow, rebuilt);
}

#[test]
fn from_entries_rejects_zero_count() {
    let entries = vec![("HELLO".to_string(), 0u64)];
    assert!(BagOfWords::from_entries(entries).is_none());
}

#[test]
fn from_entries_rejects_repeated_key() {
    let entries = vec![("HELLO".to_string(), 1u64), ("HELLO".to_string(), 2u64)];
    assert!(BagOfWords::from_entries(entries).is_none());
}

#[test]
fn json_round_trip_preserves_model_contents() {
    let ham = BagOfWords::from_text("meeting at noon 😊");
    let spam = BagOfWords::from_text("buy buy cheap now");
    let model = HSModel::from_bows(ham, spam);

    let encoded_ham = serde_json::to_string(&model.ham_bow().entries()).unwrap();
    let encoded_spam = serde_json::to_string(&model.spam_bow().entries()).unwrap();

    let decoded_ham: Vec<(String, u64)> = serde_json::from_str(&encoded_ham).unwrap();
    let decoded_spam: Vec<(String, u64)> = serde_json::from_str(&encoded_spam).unwrap();

    let reloaded = HSModel::from_bows(
        BagOfWords::from_entries(decoded_ham).expect("persisted ham bag is well-formed"),
        BagOfWords::from_entries(decoded_spam).expect("persisted spam bag is well-formed"),
    );

    assert_eq!(model.ham_bow(), reloaded.ham_bow());
    assert_eq!(model.spam_bow(), reloaded.spam_bow());
}

#[test]
fn malformed_persisted_data_yields_no_model() {
    let corrupted = "[[\"HELLO\", 0]]";
    let decoded: Vec<(String, u64)> = serde_json::from_str(corrupted).unwrap();
    assert!(BagOfWords::from_entries(decoded).is_none());
}
