use mqtt_server::bitset::BitSet;
use mqtt_server::errors::TopicsError;
use mqtt_server::topics_list::listens_to_topic;
use mqtt_server::topics_list::TopicsList;

fn subscribed_ids(table: &TopicsList, topic: &[u8]) -> Vec<usize> {
    table.get_subscribed(topic).iter_ones()
}

#[test]
fn test_listens_to_topic() {
    assert!(listens_to_topic(b"/a/b/c", b"/a/b/c"));
    assert!(listens_to_topic(b"/a/b//c", b"/a/b/c"));
    assert!(listens_to_topic(b"/a/b/c", b"//a/b/c"));
    // A filter that runs out before the topic does not cover it: only a
    // `#` segment matches deeper levels.
    assert!(!listens_to_topic(b"/", b"/a/b/c"));
    assert!(!listens_to_topic(b"/a/+/c", b"/a/b/c/d/e/f"));

    assert!(!listens_to_topic(b"/a/b/c", b"/a/b/d"));
    assert!(!listens_to_topic(b"/a/b/c", b"/"));
    assert!(!listens_to_topic(b"/a/b/c", b"/d"));
}

#[test]
fn test_wildcards() {
    // `#` also covers the parent level.
    assert!(listens_to_topic(b"a/#", b"a"));
    assert!(listens_to_topic(b"a/#", b"a/b"));
    assert!(listens_to_topic(b"a/#", b"a/b/c"));
    assert!(listens_to_topic(b"sensors/+/temp", b"sensors/kitchen/temp"));
    assert!(!listens_to_topic(b"sensors/+/temp", b"sensors/kitchen/pressure"));
    assert!(!listens_to_topic(b"sensors/+/temp", b"sensors/kitchen/temp/extra"));
    assert!(!listens_to_topic(b"a/b/#", b"a/c"));
    assert!(listens_to_topic(b"", b""));
    assert!(!listens_to_topic(b"", b"a"));
}

#[test]
fn test_tree() {
    let mut tree = TopicsList::new();
    tree.insert(b"/a/b", 1).unwrap();
    tree.insert(b"/a/b", 3).unwrap();
    tree.insert(b"/a/b", 4).unwrap();
    tree.insert(b"/a/b", 6).unwrap();
    tree.insert(b"/c/b", 7).unwrap();
    assert_eq!(subscribed_ids(&tree, b"/a/b").as_slice(), [1, 3, 4, 6]);
    assert_eq!(subscribed_ids(&tree, b"/a/b/c").as_slice(), []);
    assert_eq!(subscribed_ids(&tree, b"/a/d").as_slice(), []);
    assert_eq!(subscribed_ids(&tree, b"/c/b").as_slice(), [7]);
    tree.remove(b"/a/b", 6);
    assert_eq!(subscribed_ids(&tree, b"/a/b").as_slice(), [1, 3, 4]);
    tree.remove(b"/a/b", 1);
    tree.remove(b"/a/b", 3);
    tree.remove(b"/a/b", 4);
    assert_eq!(subscribed_ids(&tree, b"/c/b").as_slice(), [7]);
    tree.remove(b"/c/b", 7);
    assert_eq!(subscribed_ids(&tree, b"/c/b").as_slice(), []);
}

#[test]
fn test_cleanup() {
    let mut tree = TopicsList::new();
    tree.insert(b"/a/b", 1).unwrap();
    tree.insert(b"/a/b", 2).unwrap();
    tree.insert(b"/a/b", 3).unwrap();
    tree.insert(b"/c/b", 1).unwrap();
    tree.insert(b"/b/b/c/d", 1).unwrap();
    tree.remove_all_subscriptions(1);
    assert_eq!(subscribed_ids(&tree, b"/a/b").as_slice(), [2, 3]);
    tree.remove(b"/a/b", 2);
    tree.remove(b"/a/b", 3);
    assert!(tree.is_empty());
}

#[test]
fn deeper_topic_has_no_subscribers() {
    let mut tree = TopicsList::new();
    tree.insert(b"sensors/+/temp", 0).unwrap();
    assert!(tree.get_subscribed(b"sensors/kitchen/temp/extra").is_empty());
    assert_eq!(subscribed_ids(&tree, b"sensors/kitchen/temp").as_slice(), [0]);
}

#[test]
fn insert_is_idempotent() {
    let mut tree = TopicsList::new();
    tree.insert(b"x/y", 5).unwrap();
    tree.insert(b"x/y", 5).unwrap();
    assert_eq!(subscribed_ids(&tree, b"x/y").as_slice(), [5]);
    tree.remove(b"x/y", 5);
    assert_eq!(subscribed_ids(&tree, b"x/y").as_slice(), []);
}

#[test]
fn remove_absent_is_noop() {
    let mut tree = TopicsList::new();
    tree.insert(b"x/y", 5).unwrap();
    tree.remove(b"x/z", 5);
    tree.remove(b"x/y", 6);
    assert_eq!(subscribed_ids(&tree, b"x/y").as_slice(), [5]);
}

#[test]
fn over_long_filter_is_rejected() {
    let mut tree = TopicsList::new();
    let long = [b'a'; 65];
    assert_eq!(tree.insert(&long, 0), Err(TopicsError::TopicTooLong));
    let just_fits = [b'a'; 64];
    assert!(tree.insert(&just_fits, 0).is_ok());
}

#[test]
fn full_table_rejects_new_pairs() {
    let mut tree = TopicsList::new();
    for i in 0..64u32 {
        let filter = format!("t/{}", i);
        tree.insert(filter.as_bytes(), 1).unwrap();
    }
    assert_eq!(tree.insert(b"one/more", 1), Err(TopicsError::Full));
    // An already-present pair is still accepted at capacity.
    assert!(tree.insert(b"t/0", 1).is_ok());
}

#[test]
fn bitset_operations() {
    let mut bits = BitSet::new();
    assert!(bits.is_empty());
    assert_eq!(bits.count_ones(), 0);
    bits.set(0);
    bits.set(33);
    bits.set(63);
    assert!(bits.get(0) && bits.get(33) && bits.get(63));
    assert!(!bits.get(1) && !bits.get(32));
    assert_eq!(bits.count_ones(), 3);
    assert_eq!(bits.iter_ones(), vec![0, 33, 63]);
    assert!(!bits.is_empty());
    bits.unset(33);
    assert!(!bits.get(33));
    assert_eq!(bits.count_ones(), 2);
    assert_eq!(bits.iter_ones(), vec![0, 63]);
}
