use hashring::Ring;
use hashring::RingError;
use hashring::REPLICAS;

#[test]
fn duplicate_tag_rejected() {
    let mut ring = Ring::default();
    ring.add_item(1, String::from("tag:1")).unwrap();
    let r = ring.add_item(2, String::from("tag:1"));
    assert_eq!(r, Err(RingError::DuplicateTag));
    assert_eq!(ring.virtual_node_count(), REPLICAS);
}

#[test]
fn removed_tag_can_be_added_again() {
    let mut ring = Ring::default();
    ring.add_item(1, String::from("tag:1")).unwrap();
    ring.remove_item(String::from("tag:1")).unwrap();
    assert_eq!(ring.virtual_node_count(), 0);
    ring.add_item(3, String::from("tag:1")).unwrap();
    assert_eq!(ring.virtual_node_count(), REPLICAS);
}

#[test]
fn remove_unknown_tag_is_noop() {
    let mut ring: Ring<i32> = Ring::default();
    ring.add_item(1, String::from("tag:1")).unwrap();
    ring.remove_item(String::from("missing")).unwrap();
    assert_eq!(ring.virtual_node_count(), REPLICAS);
    assert!(ring.contains_node(&String::from("tag:1")));
}

#[test]
fn empty_ring_select_is_none() {
    let mut ring: Ring<i32> = Ring::default();
    assert!(ring.select(0).is_none());
    assert!(ring.select(65535).is_none());
    assert!(ring.select(-5).is_none());
}

// The tags "Aa" and "BB" hash identically under the ring's polynomial
// hash, so every virtual position of one collides with the other: each
// bucket holds both tags, in insertion order. The pick inside a bucket
// is the request key modulo the bucket length, so at the bucket stored
// at position 65180 an even key selects the first-added tag and an odd
// key the second-added one.
#[test]
fn collision_tie_break_is_deterministic() {
    let mut ring = Ring::default();
    ring.add_item(1, String::from("Aa")).unwrap();
    ring.add_item(2, String::from("BB")).unwrap();
    assert_eq!(ring.select(65180), Some(&1));
    assert_eq!(ring.select(65179), Some(&2));
    assert_eq!(ring.select(65180), Some(&1));
}

// 65534 exceeds every stored position of these two tags, so selection
// wraps around to the bucket with the smallest stored position.
#[test]
fn wraparound_selects_smallest_position() {
    let mut ring = Ring::default();
    ring.add_item(1, String::from("Aa")).unwrap();
    ring.add_item(2, String::from("BB")).unwrap();
    assert_eq!(ring.select(65534), Some(&1));
}

// Referencing mode: the ring is instantiated with a reference type, so
// it holds only non-owning handles to values that live outside it.
#[test]
fn referencing_mode_borrows_values() {
    let first = String::from("alpha");
    let second = String::from("beta");
    let mut ring: Ring<&String> = Ring::default();
    ring.add_item(&first, String::from("tag:1")).unwrap();
    ring.add_item(&second, String::from("tag:2")).unwrap();
    assert_eq!(ring.virtual_node_count(), 2 * REPLICAS);
    let chosen = *ring.select(4567).unwrap();
    assert!(chosen == &first || chosen == &second);
    ring.remove_item(String::from("tag:1")).unwrap();
    assert_eq!(*ring.select(4567).unwrap(), &second);
}

#[test]
fn negative_key_selects_first_bucket() {
    let mut ring = Ring::default();
    ring.add_item(7, String::from("tag:1")).unwrap();
    let v1 = *ring.select(-3).unwrap();
    assert_eq!(v1, 7);
}
