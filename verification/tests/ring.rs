use hashring::Ring;
use hashring::REPLICAS;

#[test]
fn it_works() {
    let result = 2 + 2;
    assert_eq!(result, 4);
}

#[test]
fn add_item_test() {
    let mut ring = Ring::default();
    ring.add_item(1, String::from("tag:1")).unwrap();
    let node_count = ring.virtual_node_count();
    assert_eq!(node_count, REPLICAS);
}

#[test]
fn remove_item_test() {
    let mut ring = Ring::default();
    ring.add_item(1, String::from("tag:1")).unwrap();
    ring.add_item(2, String::from("tag:2")).unwrap();
    ring.remove_item(String::from("tag:2")).unwrap();

    let node_count = ring.virtual_node_count();
    assert_eq!(node_count, REPLICAS);

    assert!(!ring.contains_node(&String::from("tag:2")));
}

#[test]
fn select_test() {
    let mut ring = Ring::default();
    ring.add_item(1, String::from("tag:1")).unwrap();
    ring.add_item(2, String::from("tag:2")).unwrap();

    let hash1: i32 = 4567;
    let t1 = *ring.select(hash1).unwrap();
    let t2 = *ring.select(hash1).unwrap();
    assert_eq!(t1, t2);

    let hash2: i32 = 65535;
    let t3 = *ring.select(hash2).unwrap();
    let t4 = *ring.select(hash2).unwrap();
    assert_eq!(t3, t4)
}
