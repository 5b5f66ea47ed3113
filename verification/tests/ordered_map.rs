use protocol::addr::{ChannelId, NodeId};
use protocol::network::Connection;
use protocol::ordered_map::{MapKey, OrderedMap};

fn keys(map: &OrderedMap<u32, &'static str>) -> Vec<u32> {
    (0..map.len()).map(|i| map.key_at(i)).collect()
}

#[test]
fn keys_compare_by_value() {
    assert!(5u32.same(&5));
    assert!(!5u32.same(&6));
    assert!(NodeId(5).same(&NodeId(5)));
    assert!(!NodeId(5).same(&NodeId(6)));
    assert!(ChannelId(5).same(&ChannelId(5)));
    assert!(!ChannelId(5).same(&ChannelId(4)));
    let conn = Connection::from_parts(NodeId(1), 2);
    assert!(conn.same(&Connection::from_parts(NodeId(1), 2)));
    assert!(!conn.same(&Connection::from_parts(NodeId(1), 3)));
    assert!(!conn.same(&Connection::from_parts(NodeId(2), 2)));
}

#[test]
fn new_map_is_empty() {
    let map: OrderedMap<u32, &'static str> = OrderedMap::new();
    assert_eq!(map.len(), 0);
    assert!(map.is_empty());
    assert_eq!(map.get(&1), None);
    assert_eq!(map.position(&1), None);
    assert!(!map.contains_key(&1));
}

#[test]
fn entries_keep_the_order_in_which_they_came() {
    let mut map = OrderedMap::new();
    assert_eq!(map.insert(30, "c"), None);
    assert_eq!(map.insert(10, "a"), None);
    assert_eq!(map.insert(20, "b"), None);
    assert_eq!(keys(&map), vec![30, 10, 20]);
    assert_eq!(map.position(&10), Some(1));
    assert_eq!(map.get(&20), Some(&"b"));
    assert_eq!(map.value_at(0), &"c");
    assert!(!map.is_empty());
}

#[test]
fn insert_for_a_known_key_replaces_the_value_in_its_place() {
    let mut map = OrderedMap::new();
    map.insert(30, "c");
    map.insert(10, "a");
    map.insert(20, "b");
    assert_eq!(map.insert(10, "z"), Some("a"));
    assert_eq!(keys(&map), vec![30, 10, 20]);
    assert_eq!(map.get(&10), Some(&"z"));
    assert_eq!(map.len(), 3);
}

#[test]
fn remove_closes_the_gap() {
    let mut map = OrderedMap::new();
    map.insert(30, "c");
    map.insert(10, "a");
    map.insert(20, "b");
    assert_eq!(map.remove(&10), Some("a"));
    assert_eq!(map.remove(&10), None);
    assert_eq!(keys(&map), vec![30, 20]);
    assert_eq!(map.remove_at(0), (30, "c"));
    assert_eq!(keys(&map), vec![20]);
    // a key that comes back goes to the end
    map.insert(30, "c");
    assert_eq!(keys(&map), vec![20, 30]);
}

#[test]
fn value_can_be_changed_in_place() {
    let mut map: OrderedMap<u32, Vec<u8>> = OrderedMap::new();
    map.insert(1, vec![1]);
    map.insert(2, vec![2]);
    map.value_at_mut(0).push(9);
    *map.value_at_mut(1) = vec![];
    assert_eq!(map.get(&1), Some(&vec![1, 9]));
    assert_eq!(map.get(&2), Some(&vec![]));
    assert_eq!(map.key_at(0), 1);
}
