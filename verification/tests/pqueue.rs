use std::rc::Rc;

use epqueue::PQueue;
use epqueue::Priority;

#[test]
fn length_of_the_queue() {
    let mut queue: PQueue<String> = PQueue::new(Priority::Asc);
    assert_eq!(queue.len(), 0);
    queue.insert_k(0);
    assert_eq!(queue.len(), 1);
}

#[test]
fn insert_key() {
    let mut queue: PQueue<String> = PQueue::new(Priority::Asc);
    queue.insert_k(0);
}

#[test]
fn insert_min_in_correct_order() {
    let mut queue: PQueue<String> = PQueue::new(Priority::Asc);
    queue.insert_k(0);
    queue.insert_k(1);
    queue.insert_k(-2);
    queue.insert_k(3);
    queue.insert_k(-10);
    queue.insert_k(10);
    assert_eq!(queue.key_at(1), -10);
    assert!(vec![queue.key_at(2), queue.key_at(3)].contains(&-2));
    assert!(vec![queue.key_at(2), queue.key_at(3)].contains(&0));
}

#[test]
fn pop_key() {
    let mut queue: PQueue<String> = PQueue::new(Priority::Asc);
    queue.insert_k(0);
    assert_eq!(queue.pop_k(), Some(0));
}

#[test]
fn insert_key_value() {
    let mut queue: PQueue<String> = PQueue::new(Priority::Asc);
    queue.insert_kv(0, String::from("Value on key 0"));
}

#[test]
fn pop_key_value() {
    let mut queue: PQueue<String> = PQueue::new(Priority::Asc);
    queue.insert_kv(0, String::from("Value on key 0"));
    assert_eq!(queue.pop_kv(), Some((0, Some(String::from("Value on key 0")))));
}

#[test]
fn pop_empty_queue() {
    let mut queue: PQueue<String> = PQueue::new(Priority::Asc);
    assert_eq!(queue.pop_kv(), None);
}

#[test]
fn top_key() {
    let mut queue: PQueue<String> = PQueue::new(Priority::Asc);
    assert_eq!(queue.top_k(), None);
    queue.insert_kv(0, String::from("Value on key 0"));
    assert_eq!(queue.top_k(), Some(0));
    assert_eq!(queue.top_k(), Some(0));
}

#[test]
fn top_and_pop_key_value() {
    let mut queue: PQueue<String> = PQueue::new(Priority::Asc);
    queue.insert_kv(0, String::from("Value on key 0"));
    match queue.top_kv() {
        Some((0, Some(rc))) => {
            assert_eq!(Rc::strong_count(&rc), 2);
            assert_eq!((*rc).clone(), String::from("Value on key 0"));
        }
        _ => assert!(false),
    };
    queue.pop_kv();
    assert_eq!(queue.top_kv(), None);
}

#[test]
fn bulk_insert_key() {
    let mut queue: PQueue<String> = PQueue::new(Priority::Desc);
    let keys: Vec<i64> = Vec::from((0..10).collect::<Vec<i64>>());
    queue.bulk_insert_k(keys);
    assert_eq!(queue.len(), 10);
    assert_eq!(queue.top_k(), Some(9));
    assert_eq!(queue.pop_k(), Some(9));
    assert_eq!(queue.pop_k(), Some(8));
    assert_eq!(queue.pop_k(), Some(7));
}

#[test]
fn bulk_insert_key_and_value() {
    let mut queue: PQueue<i8> = PQueue::new(Priority::Desc);
    let keys_and_values = Vec::from(
        (0..10).map(|n: i64| (n, -(n as i8))).collect::<Vec<(i64, i8)>>(),
    );
    queue.bulk_insert_kv(keys_and_values);
    assert_eq!(queue.len(), 10);
    assert_eq!(queue.pop_kv(), Some((9, Some(-9))));
    assert_eq!(queue.pop_kv(), Some((8, Some(-8))));
    assert_eq!(queue.pop_kv(), Some((7, Some(-7))));
    assert_eq!(queue.len(), 7);
}

#[test]
fn bulk_pop_key_and_values() {
    let to_pop = 3;
    let mut queue: PQueue<i8> = PQueue::new(Priority::Desc);
    let keys_and_values = Vec::from(
        (0..10).map(|n: i64| (n, -(n as i8))).collect::<Vec<(i64, i8)>>(),
    );
    queue.bulk_insert_kv(keys_and_values);
    let elements = queue.bulk_pop_kv(to_pop);
    assert_eq!(queue.len(), 10 - to_pop);
    assert_eq!(elements.len(), to_pop);
    assert_eq!(elements, vec![(9, Some(-9)), (8, Some(-8)), (7, Some(-7))]);
}

#[test]
fn bulk_pop_key() {
    let to_pop = 3;
    let mut queue: PQueue<String> = PQueue::new(Priority::Desc);
    let keys: Vec<i64> = Vec::from((0..10).collect::<Vec<i64>>());
    queue.bulk_insert_k(keys);
    let mut elements = queue.bulk_pop_k(to_pop);
    assert_eq!(queue.len(), 10 - to_pop);
    assert_eq!(elements.len(), to_pop);
    assert_eq!(elements, vec![9, 8, 7]);
    elements = queue.bulk_pop_k(10);
    assert_eq!(queue.len(), 0);
    assert_eq!(elements.len(), 10 - to_pop);
    assert_eq!(elements, vec![6, 5, 4, 3, 2, 1, 0]);
}
