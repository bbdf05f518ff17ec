use std::cmp;
use std::rc::Rc;

use epqueue::Item;

#[test]
fn item_ordering() {
    let value = Rc::new(String::from("item!"));
    let item1 = Item {
        key: 2,
        value: Some(value.clone()),
    };
    let item2 = Item {
        key: 3,
        value: Some(value),
    };
    assert_eq!(item1.cmp(&item2), cmp::Ordering::Less);
    assert_eq!(item2.cmp(&item1), cmp::Ordering::Greater);
    assert_eq!(item2.cmp(&item2), cmp::Ordering::Equal);
}

#[test]
fn item_equality() {
    let value1 = String::from("item1!");
    let value2 = String::from("item2!");
    let item1 = Item {
        key: 2,
        value: Some(Rc::new(value1)),
    };
    let item2 = Item {
        key: 2,
        value: Some(Rc::new(value2)),
    };
    assert_eq!(item1, item2);
}

#[test]
fn item_share_data() {
    let value = Rc::new(String::from("item!"));
    let item1 = Item { key: 2, value: Some(value) };
    let item2 = item1.clone();
    assert_eq!(item1, item2);
    assert_eq!(item1.value.unwrap().as_ptr(), item2.value.unwrap().as_ptr());
}

#[test]
fn item_comparison_ignores_value() {
    let item1: Item<String> = Item {
        key: 5,
        value: Some(Rc::new(String::from("left"))),
    };
    let item2: Item<String> = Item { key: 5, value: None };
    assert_eq!(item1, item2);
    assert_eq!(item1.cmp(&item2), cmp::Ordering::Equal);
    assert!(!(item1 < item2));
    assert!(!(item2 < item1));
    assert_eq!(item1.partial_cmp(&item2), Some(cmp::Ordering::Equal));
}
