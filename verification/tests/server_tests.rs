use std::collections::HashMap;
use std::hash::{DefaultHasher, Hash, Hasher};

use my_consistent_hashing::decimal::decimal_string;
use my_consistent_hashing::ecs::{matching_task_definitions, task_definition_family, task_with_private_ip};
use my_consistent_hashing::exclusives::{Exclusive, RedirectInfo};
use my_consistent_hashing::identity_hasher::{parse_u64, IdentityHasher, IdentityHasherBuilder};
use my_consistent_hashing::ip::{ip_identifier, u128_to_ip};
use my_consistent_hashing::lookup::{locate, node_reply, reply_for_answer};
use my_consistent_hashing::routes::group_by_route;
use my_consistent_hashing::server_transaction::Transaction;
use my_consistent_hashing::text::{pad3_decimal, parse_unsigned_chars, split_chars};
use my_consistent_hashing::vector_consistent_hashing::VectorConsistentHashing;

fn std_hash(text: &str) -> u64 {
    let mut hasher = DefaultHasher::default();
    text.to_string().hash(&mut hasher);
    hasher.finish()
}

#[test]
fn test_decimal_string() {
    assert_eq!(decimal_string(0), "0");
    assert_eq!(decimal_string(7), "7");
    assert_eq!(decimal_string(1000), "1000");
    assert_eq!(decimal_string(u128::MAX), u128::MAX.to_string());
}

#[test]
fn test_vector_ring_add_node() {
    let mut ring = VectorConsistentHashing::new(3);
    let first = ring.add_node("a");
    assert_eq!(first.len(), 3);
    let second = ring.add_node("b");
    assert_eq!(second.len(), 3);
    let entries = ring.entries().clone();
    assert_eq!(entries.len(), 6);
    assert!(entries.windows(2).all(|w| w[0].0 <= w[1].0));
    for (i, t) in second.iter().enumerate() {
        let hash = std_hash(&format!("b-{}", i));
        assert_eq!(t.destination, "b");
        assert_eq!(t.min, hash);
        assert_eq!(ring.hash(&format!("b-{}", i)), hash);
    }
}

#[test]
fn test_vector_ring_first_transaction_points_at_itself() {
    let mut ring = VectorConsistentHashing::new(1);
    let txs = ring.add_node("solo");
    let hash = std_hash("solo-0");
    assert_eq!(txs.len(), 1);
    assert_eq!(txs[0].source, "solo");
    assert_eq!(txs[0].destination, "solo");
    assert_eq!((txs[0].min, txs[0].max), (hash, hash));
}

#[test]
fn test_identity_hasher() {
    let mut hasher = IdentityHasher::default();
    assert_eq!(hasher.finish(), 0);
    hasher.write(b"12345");
    assert_eq!(hasher.finish(), 12345);
    hasher.write(b"+18446744073709551615");
    assert_eq!(hasher.finish(), u64::MAX);
    hasher.write(&[0xff, 0xfe]);
    assert_eq!(hasher.finish(), u64::MAX);
    let fresh = IdentityHasherBuilder.build_hasher();
    assert_eq!(fresh.finish(), 0);
}

#[test]
fn test_parse_u64() {
    assert_eq!(parse_u64(b"0"), Some(0));
    assert_eq!(parse_u64(b"+42"), Some(42));
    assert_eq!(parse_u64(b""), None);
    assert_eq!(parse_u64(b"+"), None);
    assert_eq!(parse_u64(b"-1"), None);
    assert_eq!(parse_u64(b"12a"), None);
    assert_eq!(parse_u64(b"18446744073709551616"), None);
    for text in ["7", "+0", "0042", "18446744073709551615", " 1", "1 "] {
        assert_eq!(parse_u64(text.as_bytes()), text.parse::<u64>().ok());
    }
}

#[test]
fn test_parse_unsigned_chars_as_u32() {
    for text in ["0", "255", "+1", "4294967295", "4294967296", "", "x", "-3", "01"] {
        let chars: Vec<char> = text.chars().collect();
        assert_eq!(parse_unsigned_chars(&chars, u32::MAX as u128), text.parse::<u32>().ok().map(|v| v as u128));
    }
}

#[test]
fn test_pad3_and_split() {
    assert_eq!(pad3_decimal(5).iter().collect::<String>(), format!("{:03}", 5));
    assert_eq!(pad3_decimal(42).iter().collect::<String>(), format!("{:03}", 42));
    assert_eq!(pad3_decimal(1234).iter().collect::<String>(), format!("{:03}", 1234));
    for text in ["a.b", "", ".", "a..b.", "178.12.2.0"] {
        let chars: Vec<char> = text.chars().collect();
        let pieces: Vec<String> = split_chars(&chars, '.').iter().map(|p| p.iter().collect()).collect();
        let expected: Vec<String> = text.split('.').map(|s| s.to_string()).collect();
        assert_eq!(pieces, expected);
    }
}

#[test]
fn test_server_transaction() {
    let t = Transaction::new(1, 2, 10, 20);
    assert!(!t.is_exception());
    assert!(t.in_range(15));
    assert!(!t.in_range(10));
    let w = Transaction::new(1, 2, 20, 10);
    assert!(w.is_exception());
    assert!(w.in_range(25));
    assert!(w.in_range(5));
    assert!(!w.in_range(15));
    assert_eq!(t.route(), (1, 2));
}

#[test]
fn test_server_transaction_equality_ignores_bounds() {
    let a = Transaction::new(1, 2, 10, 20);
    let b = Transaction::new(1, 2, 11, 30);
    let c = Transaction::new(1, 2, 30, 11);
    let d = Transaction::new(1, 3, 10, 20);
    assert!(a == b);
    assert!(a != c);
    assert!(a != d);
}

#[test]
fn test_server_transaction_text() {
    let t = Transaction::new(178012002000, 10000000001, 5, 9);
    assert_eq!(t.display_string(), "source: 178012002000  -  destination: 10000000001  -  range: ]5,9]");
    let w = Transaction::from_parts(1, 2, 9, 5, true);
    assert_eq!(w.display_string(), "source: 1  -  destination: 2  -  range: [0,5] u ]9,..[");
}

#[test]
fn test_u128_to_ip() {
    assert_eq!(u128_to_ip(178012002000), "178.12.2.0");
    assert_eq!(u128_to_ip(10000000001), "10.0.0.1");
    assert_eq!(u128_to_ip(192168001010), "192.168.1.10");
    assert_eq!(u128_to_ip(1002), "2.1");
    assert_eq!(u128_to_ip(1002003), "1.2.3");
    assert_eq!(u128_to_ip(1002003004005), "1.2.3.4.5");
    assert_eq!(u128_to_ip(1002003004005006), "1.2.4.3.5.6");
}

#[test]
fn test_ip_identifier() {
    assert_eq!(ip_identifier("178.12.2.0"), Some(178012002000));
    assert_eq!(ip_identifier("10.0.0.1"), Some(10000000001));
    assert_eq!(ip_identifier("abc"), Some(0));
    assert_eq!(ip_identifier("1.x.3"), Some(1000003));
    assert_eq!(ip_identifier("1234.5"), Some(1234005));
    assert_eq!(ip_identifier("999999.999999.999999.999999"), None);
}

#[test]
fn test_identifier_and_address_round_trip() {
    for ip in ["178.12.2.0", "10.0.0.1", "192.168.1.10", "172.31.255.254"] {
        assert_eq!(u128_to_ip(ip_identifier(ip).unwrap() as u128), ip);
    }
}

#[test]
fn test_task_definition_family() {
    let arn = "arn:aws:ecs:eu-west-3:123456789012:task-definition/leaf:7";
    assert_eq!(task_definition_family(arn), Some("leaf".to_string()));
    assert_eq!(task_definition_family("arn:aws:ecs:eu-west-3:123456789012:task-definition"), None);
    assert_eq!(task_definition_family("a:b:c:d:e:nofamily"), None);
    let arns = vec![
        arn.to_string(),
        "arn:aws:ecs:eu-west-3:123456789012:task-definition/root:1".to_string(),
        "arn:aws:ecs:eu-west-3:123456789012:task-definition/leaf:8".to_string(),
    ];
    let found = matching_task_definitions(&arns, "leaf");
    assert_eq!(found, Some(vec![arns[0].clone(), arns[2].clone()]));
    assert_eq!(matching_task_definitions(&arns, "none"), Some(vec![]));
    let mut broken = arns.clone();
    broken.push("not-an-arn".to_string());
    assert_eq!(matching_task_definitions(&broken, "leaf"), None);
}

#[test]
fn test_task_with_private_ip() {
    let key = Some("privateIPv4Address".to_string());
    let tasks = vec![
        vec![(Some("subnetId".to_string()), Some("subnet-1".to_string()))],
        vec![(None, Some("10.0.0.1".to_string())), (key.clone(), Some("10.0.0.2".to_string()))],
        vec![(key.clone(), Some("10.0.0.2".to_string()))],
    ];
    assert_eq!(task_with_private_ip(&tasks, "10.0.0.2"), Some(1));
    assert_eq!(task_with_private_ip(&tasks, "10.0.0.1"), None);
    assert_eq!(task_with_private_ip(&[].to_vec(), "10.0.0.1"), None);
}

#[test]
fn test_group_by_route() {
    let txs = vec![
        Transaction::new(1, 2, 0, 5),
        Transaction::new(3, 2, 5, 9),
        Transaction::new(1, 2, 9, 12),
        Transaction::new(1, 4, 12, 3),
    ];
    let groups = group_by_route(&txs);
    assert_eq!(groups.len(), 3);
    assert_eq!(groups[0].0, (1, 2));
    assert_eq!(groups[0].1.iter().map(|t| t.max).collect::<Vec<_>>(), vec![5, 12]);
    assert_eq!(groups[1].0, (3, 2));
    assert_eq!(groups[2].0, (1, 4));
    assert!(group_by_route(&vec![]).is_empty());
}

#[test]
fn test_node_reply() {
    let (address, hash) = node_reply((178012002000, 42));
    assert_eq!(address, "178.12.2.0");
    assert_eq!(hash, "42");
}

#[test]
fn test_exclusive_new() {
    let mut keys_hash = HashMap::new();
    keys_hash.insert("k".to_string(), 7u128);
    let mut wb = HashMap::new();
    wb.insert("k".to_string(), "v".to_string());
    let exclusive = Exclusive::new(keys_hash.clone(), wb.clone());
    assert_eq!(exclusive.keys_hash, keys_hash);
    assert_eq!(exclusive.wb, wb);
    let info = RedirectInfo { exclusive, destination: "10.0.0.1".to_string() };
    assert_eq!(info.destination, "10.0.0.1");
}

struct TestLeaf {
    id: usize,
}

impl consistent_hasher::Identifier for TestLeaf {
    fn identify(&self) -> usize {
        self.id
    }
}

#[test]
fn test_locate_on_ldb_ring() {
    let mut ring = consistent_hasher::LDB::new(64, 5);
    assert_eq!(locate(&mut ring, "key"), None);
    ring.add_node(TestLeaf { id: 178012002000 }).unwrap();
    let mut hasher = DefaultHasher::new();
    hasher.write("key".as_bytes());
    let position = hasher.finish() as u128;
    assert_eq!(locate(&mut ring, "key"), Some(("178.12.2.0".to_string(), position.to_string())));
    let mut small = consistent_hasher::LDB::new(64, 5);
    small.add_node(TestLeaf { id: 999 }).unwrap();
    assert_eq!(locate(&mut small, "key"), None);
}

#[test]
fn test_reply_for_answer() {
    assert_eq!(
        reply_for_answer(Ok((10000000001, 7))),
        Some(("10.0.0.1".to_string(), "7".to_string()))
    );
    assert_eq!(reply_for_answer(Ok((999, 7))), None);
    assert_eq!(reply_for_answer(Err(consistent_hasher::ldb::LdbError::NoInstances)), None);
}

#[test]
fn test_hashing_text_into_identity_hasher() {
    let mut hasher = IdentityHasher::default();
    hasher.write("4021".as_bytes());
    hasher.write(&[0xff]);
    assert_eq!(hasher.finish(), 4021);
}

fn ldb_position(node: u128, i: u128) -> u128 {
    let mut hasher = DefaultHasher::new();
    hasher.write_u128(node);
    hasher.write_u128(i);
    hasher.finish() as u128
}

fn key_position(key: &str) -> u128 {
    let mut hasher = DefaultHasher::new();
    hasher.write(key.as_bytes());
    hasher.finish() as u128
}

#[test]
fn test_locate_finds_owner_of_first_position_at_or_after_key() {
    let nodes: [u128; 3] = [10001002003, 20004005006, 30007008009];
    let mut ring = consistent_hasher::LDB::new(64, 5);
    let mut positions: Vec<(u128, u128)> = Vec::new();
    for node in nodes {
        ring.add_node(TestLeaf { id: node as usize }).unwrap();
        for i in 0..5u128 {
            positions.push((ldb_position(node, i), node));
        }
    }
    positions.sort();
    for key in ["alpha", "beta", "gamma", "delta", "epsilon", "zeta", "eta", "theta"] {
        let h = key_position(key);
        let owner = match positions.iter().find(|(p, _)| *p >= h) {
            Some((_, n)) => *n,
            None => positions[0].1,
        };
        assert_eq!(locate(&mut ring, key), Some((u128_to_ip(owner), h.to_string())));
    }
}
