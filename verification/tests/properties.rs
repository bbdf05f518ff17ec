use epqueue::PQueue;
use epqueue::Priority;

#[test]
fn ascending_extraction_sorted() {
    let mut queue: PQueue<String> = PQueue::new(Priority::Asc);
    queue.bulk_insert_k(vec![5, -1, 3, 3, 0, 12, -7, 5, 2, -1]);
    let keys = queue.bulk_pop_k(10);
    assert_eq!(keys.len(), 10);
    for w in keys.windows(2) {
        assert!(w[0] <= w[1]);
    }
    assert_eq!(queue.len(), 0);
}

#[test]
fn descending_extraction_sorted() {
    let mut queue: PQueue<String> = PQueue::new(Priority::Desc);
    queue.bulk_insert_k(vec![5, -1, 3, 3, 0, 12, -7, 5, 2, -1]);
    let keys = queue.bulk_pop_k(10);
    assert_eq!(keys.len(), 10);
    for w in keys.windows(2) {
        assert!(w[0] >= w[1]);
    }
    assert_eq!(queue.len(), 0);
}

#[test]
fn len_tracks_inserts_and_pops() {
    let mut queue: PQueue<String> = PQueue::new(Priority::Asc);
    for k in [4, 2, 9, 7, 1] {
        queue.insert_k(k);
    }
    assert_eq!(queue.len(), 5);
    queue.pop_k();
    queue.pop_k();
    queue.pop_k();
    assert_eq!(queue.len(), 2);
    queue.pop_k();
    queue.pop_k();
    assert_eq!(queue.len(), 0);
    assert_eq!(queue.pop_k(), None);
    assert_eq!(queue.len(), 0);
}

#[test]
fn peek_twice_stable() {
    let mut queue: PQueue<String> = PQueue::new(Priority::Desc);
    queue.insert_kv(3, String::from("three"));
    queue.insert_kv(8, String::from("eight"));
    let len_before = queue.len();
    let first = queue.top_kv().map(|pair| pair.0);
    let second = queue.top_kv().map(|pair| pair.0);
    assert_eq!(first, Some(8));
    assert_eq!(first, second);
    assert_eq!(queue.len(), len_before);
}

#[test]
fn round_trip_pairs() {
    let mut queue: PQueue<String> = PQueue::new(Priority::Asc);
    queue.bulk_insert_kv(vec![
        (7, String::from("seven")),
        (-3, String::from("minus three")),
        (0, String::from("zero")),
        (11, String::from("eleven")),
    ]);
    let elements = queue.bulk_pop_kv(4);
    assert_eq!(
        elements,
        vec![
            (-3, Some(String::from("minus three"))),
            (0, Some(String::from("zero"))),
            (7, Some(String::from("seven"))),
            (11, Some(String::from("eleven"))),
        ]
    );
    // Asking for more than remains yields only what is left, never an error.
    let nothing = queue.bulk_pop_kv(4);
    assert_eq!(nothing, vec![]);
    assert_eq!(queue.len(), 0);
}

#[test]
fn pop_with_live_peek_returns_no_value() {
    let mut queue: PQueue<String> = PQueue::new(Priority::Asc);
    queue.insert_kv(1, String::from("payload"));
    let peeked = queue.top_kv().unwrap().1.unwrap();
    // The shared view is still alive, so the queue cannot reclaim sole
    // ownership: the key comes back with an absent payload.
    assert_eq!(queue.pop_kv(), Some((1, None)));
    assert_eq!(*peeked, String::from("payload"));
}

#[test]
fn peek_then_pop_share_content() {
    let mut queue: PQueue<String> = PQueue::new(Priority::Asc);
    queue.insert_kv(1, String::from("payload"));
    {
        let peeked = queue.top_kv().unwrap().1.unwrap();
        assert_eq!(*peeked, String::from("payload"));
    }
    // The peek's view is gone, so the pop reclaims the very payload the
    // peek displayed.
    assert_eq!(queue.pop_kv(), Some((1, Some(String::from("payload")))));
}

#[test]
fn draining_sequence_empties_the_queue() {
    let mut queue: PQueue<String> = PQueue::new(Priority::Asc);
    queue.bulk_insert_k(vec![4, 1, 3, 2]);
    let mut drained: Vec<i64> = Vec::new();
    while let Some((key, _)) = queue.next() {
        drained.push(key);
    }
    assert_eq!(drained, vec![1, 2, 3, 4]);
    assert_eq!(queue.len(), 0);
    // The sequence is exhausted for good.
    assert_eq!(queue.next(), None);
}

#[test]
fn equal_keys_all_extracted() {
    let mut queue: PQueue<String> = PQueue::new(Priority::Desc);
    queue.bulk_insert_k(vec![5, 5, 5]);
    assert_eq!(queue.bulk_pop_k(3), vec![5, 5, 5]);
    assert_eq!(queue.len(), 0);
}

#[test]
fn tree_dump_format() {
    let mut queue: PQueue<String> = PQueue::new(Priority::Asc);
    assert_eq!(queue.debug_string(), String::from("empty queue"));
    queue.insert_k(2);
    queue.insert_k(1);
    queue.insert_k(3);
    assert_eq!(
        queue.debug_string(),
        String::from(" - 1, pos: 1\n     - 2, pos: 2\n     - 3, pos: 3")
    );
}
