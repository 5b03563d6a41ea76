use status_message::store::StatusMessage;

#[test]
fn test_public_feed() {
    let mut contract = StatusMessage::default();

    contract
        .set_status("bob_near".to_string(), "public message".to_string(), 0)
        .unwrap();

    let feed = contract.get_public_feed();
    assert_eq!(1, feed.len());
    assert_eq!("bob_near".to_string(), feed[0].0);
    assert_eq!("public message".to_string(), feed[0].1.message);
}

#[test]
fn test_search_statuses() {
    let mut contract = StatusMessage::default();

    contract
        .set_status("bob_near".to_string(), "Hello world".to_string(), 1)
        .unwrap();
    contract
        .set_status("bob_near".to_string(), "Rust programming".to_string(), 2)
        .unwrap();
    contract
        .set_status("bob_near".to_string(), "Blockchain technology".to_string(), 3)
        .unwrap();

    let results = contract.search_statuses("Rust".to_string());
    assert_eq!(1, results.len());
    assert_eq!("Rust programming".to_string(), results[0].1.message);

    let results2 = contract.search_statuses("o".to_string());
    assert_eq!(3, results2.len());
}

#[test]
fn search_preserves_feed_order() {
    let mut contract = StatusMessage::default();
    contract
        .set_status("bob_near".to_string(), "Hello world".to_string(), 1)
        .unwrap();
    contract
        .set_status("bob_near".to_string(), "Rust programming".to_string(), 2)
        .unwrap();
    contract
        .set_status("bob_near".to_string(), "Blockchain technology".to_string(), 3)
        .unwrap();

    let all_matching = contract.search_statuses("o".to_string());
    assert_eq!(3, all_matching.len());
    assert_eq!("Hello world".to_string(), all_matching[0].1.message);
    assert_eq!("Rust programming".to_string(), all_matching[1].1.message);
    assert_eq!("Blockchain technology".to_string(), all_matching[2].1.message);

    let skipping_first = contract.search_statuses("n".to_string());
    assert_eq!(2, skipping_first.len());
    assert_eq!("Rust programming".to_string(), skipping_first[0].1.message);
    assert_eq!("Blockchain technology".to_string(), skipping_first[1].1.message);
}

#[test]
fn search_empty_keyword_returns_whole_feed() {
    let mut contract = StatusMessage::default();
    contract
        .set_status("alice_near".to_string(), "one".to_string(), 1)
        .unwrap();
    contract
        .set_status("bob_near".to_string(), "two".to_string(), 2)
        .unwrap();
    contract
        .set_status("alice_near".to_string(), "three".to_string(), 3)
        .unwrap();

    let feed = contract.get_public_feed();
    let results = contract.search_statuses("".to_string());
    assert_eq!(feed, results);
}

#[test]
fn search_is_case_sensitive() {
    let mut contract = StatusMessage::default();
    contract
        .set_status("bob_near".to_string(), "Rust programming".to_string(), 1)
        .unwrap();
    assert_eq!(0, contract.search_statuses("rust".to_string()).len());
    assert_eq!(1, contract.search_statuses("Rust".to_string()).len());
}

#[test]
fn history_eviction_keeps_last_ten() {
    let mut contract = StatusMessage::default();
    for i in 1..=11u64 {
        contract
            .set_status("bob_near".to_string(), format!("status {}", i), i)
            .unwrap();
    }

    let history = contract.get_status_history("bob_near".to_string());
    assert_eq!(10, history.len());
    for (k, record) in history.iter().enumerate() {
        assert_eq!(format!("status {}", k + 2), record.message);
    }
    assert_eq!(
        "status 11".to_string(),
        contract.get_status("bob_near".to_string()).unwrap().message
    );
}

#[test]
fn feed_eviction_keeps_last_fifty() {
    let mut contract = StatusMessage::default();
    for i in 1..=51u64 {
        let who = if i % 2 == 0 { "alice_near" } else { "bob_near" };
        contract
            .set_status(who.to_string(), format!("post {}", i), i)
            .unwrap();
    }

    let feed = contract.get_public_feed();
    assert_eq!(50, feed.len());
    assert_eq!("post 2".to_string(), feed[0].1.message);
    assert_eq!("post 51".to_string(), feed[49].1.message);
    for (k, entry) in feed.iter().enumerate() {
        assert_eq!(format!("post {}", k + 2), entry.1.message);
    }
}

#[test]
fn feed_merges_identities_in_insertion_order() {
    let mut contract = StatusMessage::default();
    contract
        .set_status("alice_near".to_string(), "a1".to_string(), 1)
        .unwrap();
    contract
        .set_status("bob_near".to_string(), "b1".to_string(), 2)
        .unwrap();
    contract
        .set_status("alice_near".to_string(), "a2".to_string(), 3)
        .unwrap();

    let feed = contract.get_public_feed();
    assert_eq!(3, feed.len());
    assert_eq!(("alice_near".to_string(), "a1".to_string()), (feed[0].0.clone(), feed[0].1.message.clone()));
    assert_eq!(("bob_near".to_string(), "b1".to_string()), (feed[1].0.clone(), feed[1].1.message.clone()));
    assert_eq!(("alice_near".to_string(), "a2".to_string()), (feed[2].0.clone(), feed[2].1.message.clone()));
}

#[test]
fn deletion_leaves_feed_entries_in_place() {
    let mut contract = StatusMessage::default();
    contract
        .set_status("bob_near".to_string(), "kept in feed".to_string(), 1)
        .unwrap();
    contract.delete_status("bob_near".to_string());

    let feed = contract.get_public_feed();
    assert_eq!(1, feed.len());
    assert_eq!("kept in feed".to_string(), feed[0].1.message);
    assert_eq!(1, contract.search_statuses("kept".to_string()).len());
}
