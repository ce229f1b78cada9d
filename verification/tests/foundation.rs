use ant_core::chunked::split_parts;
use ant_core::collections::{position_of, AddressMap, AddressSet};
use ant_core::text::{decimal, digit, join_items, push_decimal, render_list, same_text};
use ant_core::uint256::U256;
use ant_core::xor::{peer_distance, PeerId};

#[test]
fn numbers_in_decimal() {
    assert_eq!(decimal(0), "0");
    assert_eq!(decimal(u128::MAX), "340282366920938463463374607431768211455");
    assert_eq!(digit(7), '7');
    let mut s = "n=".to_string();
    push_decimal(&mut s, 1_050);
    assert_eq!(s, "n=1050");
}

#[test]
fn lists_as_text() {
    let items = vec!["a".to_string(), "b".to_string()];
    assert_eq!(render_list(&items), "[\"a\", \"b\"]");
    assert_eq!(render_list(&Vec::new()), "[]");
    assert_eq!(join_items(&items, "; "), "a; b");
    assert!(same_text("x", "x"));
    assert!(!same_text("x", "xy"));
}

#[test]
fn wide_numbers() {
    let max = U256::from_be_bytes(&[0xff; 32]);
    let one = U256::from_u128(1);
    assert_eq!(max.wrapping_sum(&one), U256::zero());
    assert_eq!(U256::from_u128(u128::MAX).wrapping_times(2), U256 { hi: 1, lo: u128::MAX - 1 });
    assert!(one.less_than(&max));
    assert!(!max.less_than(&one));
    assert!(U256::zero().is_zero());
    assert_eq!(U256::from_be_bytes(&max.to_be_bytes()), max);
}

#[test]
fn addresses_as_keys() {
    let mut map: AddressMap<u8> = AddressMap::new();
    map.insert([1u8; 32], 1);
    map.insert([2u8; 32], 2);
    map.insert([1u8; 32], 3);
    assert_eq!(map.len(), 2);
    assert_eq!(map.get(&[1u8; 32]), Some(&3));
    assert!(map.contains_key(&[2u8; 32]));
    let mut more: AddressMap<u8> = AddressMap::new();
    more.insert([2u8; 32], 9);
    map.extend(more);
    assert_eq!(map.get(&[2u8; 32]), Some(&9));
    assert_eq!(map.remove(&[1u8; 32]), Some(3));
    assert_eq!(map.remove(&[1u8; 32]), None);
    assert_eq!(*map.key_at(0), [2u8; 32]);
    let mut set = AddressSet::new();
    assert!(set.insert([1u8; 32]));
    assert!(!set.insert([1u8; 32]));
    assert!(set.contains(&[1u8; 32]));
    assert_eq!(set.len(), 1);
    assert_eq!(*set.get(0), [1u8; 32]);
    assert_eq!(set.duplicate().len(), 1);
    assert_eq!(position_of(&vec![[1u8; 32], [2u8; 32]], &[2u8; 32]), Some(1));
}

#[test]
fn parts_make_up_the_whole() {
    let parts = split_parts((0..7).collect::<Vec<i32>>(), 3);
    assert_eq!(parts, vec![vec![0, 1, 2], vec![3, 4, 5], vec![6]]);
    assert_eq!(parts.concat(), (0..7).collect::<Vec<i32>>());
    assert!(split_parts(Vec::<u8>::new(), 3).is_empty());
}

#[test]
fn distances_tell_peers_apart() {
    let target = [7u8; 32];
    let a = PeerId::from_bytes([1u8; 32]);
    let b = PeerId::from_bytes([2u8; 32]);
    assert_ne!(peer_distance(&a, &target), peer_distance(&b, &target));
    assert!(peer_distance(&b, &target).less_than(&peer_distance(&a, &target)));
    assert_eq!(peer_distance(&PeerId::from_bytes(target), &target), U256::zero());
    assert_eq!(a.to_hex(), "01".repeat(32));
}
