use bommer::data::Data;
use bommer::item_map::ItemMap;
use bommer::item_set::ItemSet;

fn set(items: &[u128]) -> ItemSet<u128> {
    let mut s = ItemSet::new();
    for i in items {
        s.insert(*i);
    }
    s
}

#[test]
fn set_holds_each_item_once() {
    let mut s = ItemSet::new();
    assert!(s.is_empty());
    assert!(s.insert(3u128));
    assert!(s.insert(5));
    assert!(!s.insert(3));
    assert_eq!(s.len(), 2);
    assert!(s.contains(&3));
    assert!(!s.contains(&4));
    assert_eq!(*s.item_at(0), 3);
    assert_eq!(*s.item_at(1), 5);
}

#[test]
fn set_remove_takes_the_item_out() {
    let mut s = set(&[1, 2, 3]);
    assert!(s.remove(&2));
    assert!(!s.remove(&2));
    assert_eq!(s.len(), 2);
    assert!(s.contains(&1) && s.contains(&3) && !s.contains(&2));
}

#[test]
fn sets_compare_without_order() {
    assert!(set(&[1, 2, 3]).same(&set(&[3, 1, 2])));
    assert!(!set(&[1, 2, 3]).same(&set(&[1, 2])));
    assert!(!set(&[1, 2, 3]).same(&set(&[1, 2, 4])));
    assert!(set(&[]).same(&set(&[])));
    let copy = set(&[7, 8]).duplicate();
    assert!(copy.same(&set(&[7, 8])));
}

#[test]
fn map_stores_the_last_value_of_a_key() {
    let mut m: ItemMap<u128, u128> = ItemMap::new();
    m.insert(1, 10);
    m.insert(2, 20);
    m.insert(1, 11);
    assert_eq!(m.len(), 2);
    assert_eq!(m.get(&1), Some(&11));
    assert_eq!(m.get(&3), None);
    assert_eq!(*m.key_at(0), 1);
    assert_eq!(*m.value_at(0), 11);
    assert_eq!(m.position(&2), Some(1));
    assert!(m.contains_key(&2));
}

#[test]
fn map_remove_and_pop() {
    let mut m: ItemMap<u128, u128> = ItemMap::new();
    m.insert(1, 10);
    m.insert(2, 20);
    m.insert(3, 30);
    assert_eq!(m.remove(&2), Some(20));
    assert_eq!(m.remove(&2), None);
    assert_eq!(m.pop(), Some((3, 30)));
    assert_eq!(m.pop(), Some((1, 10)));
    assert_eq!(m.pop(), None);
    assert_eq!(m.len(), 0);
}

#[test]
fn maps_compare_without_order() {
    let mut a: ItemMap<u128, u128> = ItemMap::new();
    a.insert(1, 10);
    a.insert(2, 20);
    let mut b: ItemMap<u128, u128> = ItemMap::new();
    b.insert(2, 20);
    b.insert(1, 10);
    assert!(a.same(&b));
    b.insert(1, 11);
    assert!(!a.same(&b));
    assert!(a.duplicate().same(&a));
}
