use std::collections::BTreeMap;
use std::hash::{DefaultHasher, Hash, Hasher};

use my_consistent_hashing::consistent_hashing::{ConsistentHashing, ConsistentHashingError};
use my_consistent_hashing::transaction::Transaction;

fn std_hash(text: &str) -> u64 {
    let mut hasher = DefaultHasher::default();
    text.to_string().hash(&mut hasher);
    hasher.finish()
}

type Move = (String, String, u64, u64);

/// A ring kept in a `BTreeMap`, with the same rules, to compare against.
struct Model {
    ring: BTreeMap<u64, String>,
    nodes: Vec<String>,
    count: u32,
}

impl Model {
    fn new(count: u32) -> Self {
        Model { ring: BTreeMap::new(), nodes: Vec::new(), count }
    }

    fn prev(&self, hash: u64) -> (u64, String) {
        if let Some((k, v)) = self.ring.range(..hash).next_back() {
            return (*k, v.clone());
        }
        let (k, v) = self.ring.iter().next_back().unwrap();
        (*k, v.clone())
    }

    fn next(&self, hash: u64) -> (u64, String) {
        if let Some((k, v)) = self.ring.range(hash..).skip(1).next() {
            return (*k, v.clone());
        }
        let (k, v) = self.ring.iter().next().unwrap();
        (*k, v.clone())
    }

    fn add(&mut self, node: &str) -> Option<Vec<Move>> {
        if self.nodes.iter().any(|n| n == node) || self.count == 0 {
            return None;
        }
        self.nodes.push(node.to_string());
        let mut moves = vec![];
        for i in 0..self.count {
            let hash = std_hash(&format!("{}-{}", node, i));
            self.ring.insert(hash, node.to_string());
            let next = self.next(hash);
            if next.1 != node {
                let prev = self.prev(hash);
                moves.push((next.1, node.to_string(), prev.0, hash));
            }
        }
        Some(moves)
    }

    fn remove(&mut self, node: &str) -> Option<Vec<Move>> {
        let pos = self.nodes.iter().position(|n| n == node)?;
        self.nodes.remove(pos);
        let mut seen = std::collections::HashSet::new();
        let mut hashes = vec![];
        let mut moves = vec![];
        for i in 0..self.count {
            let hash = std_hash(&format!("{}-{}", node, i));
            hashes.push(hash);
            if !seen.insert(hash) {
                continue;
            }
            let mut prev = self.prev(hash);
            let mut next = self.next(hash);
            while prev.1 == node {
                seen.insert(prev.0);
                prev = self.prev(prev.0);
            }
            if next.1 == node {
                seen.insert(next.0);
                next = self.next(next.0);
            }
            let last = self.prev(next.0);
            moves.push((node.to_string(), next.1, prev.0, last.0));
        }
        for hash in hashes {
            self.ring.remove(&hash);
        }
        Some(moves)
    }

    fn set_count(&mut self, count: u32) -> Option<Vec<Move>> {
        if count == 0 || count == self.count {
            return None;
        }
        let mut moves = vec![];
        let nodes = self.nodes.clone();
        if (count as i32) - (self.count as i32) > 0 {
            for node in &nodes {
                for i in self.count..count {
                    let hash = std_hash(&format!("{}-{}", node, i));
                    self.ring.insert(hash, node.clone());
                    let prev = self.prev(hash);
                    let next = self.next(hash);
                    if &next.1 != node {
                        moves.push((next.1, node.clone(), prev.0, hash));
                    }
                }
            }
        } else {
            for node in &nodes {
                for i in (count..self.count).rev() {
                    let hash = std_hash(&format!("{}-{}", node, i));
                    let prev = self.prev(hash);
                    let next = self.next(hash);
                    if &next.1 != node {
                        moves.push((node.clone(), next.1, prev.0, hash));
                    }
                    self.ring.remove(&hash);
                }
            }
        }
        self.count = count;
        Some(moves)
    }

    fn state(&self) -> Vec<(u64, String)> {
        self.ring.iter().map(|(k, v)| (*k, v.clone())).collect()
    }
}

fn moves_of(txs: &[Transaction]) -> Vec<Move> {
    txs.iter().map(|t| (t.source.clone(), t.destination.clone(), t.min, t.max)).collect()
}

#[test]
fn test_hash_is_default_hasher_of_string() {
    let ring = ConsistentHashing::new(3);
    for text in ["", "a", "node0-0", "héllo wörld", "127.0.0.1:9000"] {
        assert_eq!(ring.hash(text), std_hash(text));
    }
}

#[test]
fn test_virtual_node_form() {
    let ring = ConsistentHashing::new(3);
    assert_eq!(ring.get_virtual_node_form("node", 0), "node-0");
    assert_eq!(ring.get_virtual_node_form("node", 12), "node-12");
    assert_eq!(ring.get_virtual_node_form("", 4294967295), "-4294967295");
}

#[test]
fn test_new_ring_is_empty() {
    let ring = ConsistentHashing::new(4);
    assert!(ring.get_current_state().is_empty());
    assert_eq!(ring.virtual_nodes_count(), 4);
    assert_eq!(ring.get_node("key"), (None, None));
    assert!(ring.get_previous_node_by_hash(10).is_none());
    assert!(ring.get_next_node_by_hash(10).is_none());
}

#[test]
fn test_add_node_matches_model() {
    let mut ring = ConsistentHashing::new(3);
    let mut model = Model::new(3);
    for i in 0..6 {
        let node = format!("10.0.0.{}", i);
        let txs = ring.add_node(&node).unwrap();
        let moves = model.add(&node).unwrap();
        assert_eq!(moves_of(&txs), moves);
        assert_eq!(ring.get_current_state(), model.state());
    }
    assert_eq!(ring.get_current_state().len(), 18);
}

#[test]
fn test_add_node_transactions_go_to_new_node() {
    let mut ring = ConsistentHashing::new(4);
    ring.add_node("a").unwrap();
    let first = ring.add_node("b").unwrap();
    assert!(!first.is_empty());
    for t in &first {
        assert_eq!(t.destination, "b");
        assert_eq!(t.source, "a");
    }
}

#[test]
fn test_first_node_gives_no_transactions() {
    let mut ring = ConsistentHashing::new(5);
    let txs = ring.add_node("only").unwrap();
    assert!(txs.is_empty());
    assert_eq!(ring.get_current_state().len(), 5);
}

#[test]
fn test_add_node_twice_is_refused() {
    let mut ring = ConsistentHashing::new(2);
    ring.add_node("a").unwrap();
    let before = ring.get_current_state();
    match ring.add_node("a") {
        Err(ConsistentHashingError::NodeAlreadyExists(m)) => assert_eq!(m, "This node already exist"),
        other => panic!("unexpected {:?}", other.map(|v| v.len())),
    }
    assert_eq!(ring.get_current_state(), before);
}

#[test]
fn test_add_node_with_zero_virtual_nodes_is_refused() {
    let mut ring = ConsistentHashing::new(0);
    match ring.add_node("a") {
        Err(ConsistentHashingError::ZeroVirtualNodes(m)) => assert_eq!(m, "Cannot add node with zero virtual nodes"),
        other => panic!("unexpected {:?}", other.map(|v| v.len())),
    }
    assert!(ring.get_current_state().is_empty());
}

#[test]
fn test_remove_missing_node_is_refused() {
    let mut ring = ConsistentHashing::new(2);
    ring.add_node("a").unwrap();
    match ring.remove_node("b") {
        Err(ConsistentHashingError::NodeDoesNotExist(m)) => assert_eq!(m, "This node doesn't exist"),
        other => panic!("unexpected {:?}", other.map(|v| v.len())),
    }
}

#[test]
fn test_remove_node_matches_model() {
    let mut ring = ConsistentHashing::new(4);
    let mut model = Model::new(4);
    for i in 0..5 {
        let node = format!("node{}", i);
        ring.add_node(&node).unwrap();
        model.add(&node).unwrap();
    }
    for i in [2, 0, 4, 1] {
        let node = format!("node{}", i);
        let txs = ring.remove_node(&node).unwrap();
        let moves = model.remove(&node).unwrap();
        assert_eq!(moves_of(&txs), moves);
        assert_eq!(ring.get_current_state(), model.state());
        for t in &txs {
            assert_eq!(t.source, node);
        }
        assert!(ring.get_current_state().iter().all(|(_, owner)| *owner != node));
    }
    assert_eq!(ring.get_current_state().len(), 4);
}

#[test]
fn test_add_then_remove_restores_ring() {
    let mut ring = ConsistentHashing::new(3);
    for i in 0..4 {
        ring.add_node(&format!("n{}", i)).unwrap();
    }
    let before = ring.get_current_state();
    ring.add_node("newcomer").unwrap();
    assert_eq!(ring.get_current_state().len(), before.len() + 3);
    ring.remove_node("newcomer").unwrap();
    assert_eq!(ring.get_current_state(), before);
}

#[test]
fn test_set_virtual_nodes_count_matches_model() {
    let mut ring = ConsistentHashing::new(2);
    let mut model = Model::new(2);
    for i in 0..3 {
        let node = format!("s{}", i);
        ring.add_node(&node).unwrap();
        model.add(&node).unwrap();
    }
    for count in [5, 3, 1, 4] {
        let txs = ring.set_virtual_nodes_count(count).unwrap();
        let moves = model.set_count(count).unwrap();
        assert_eq!(moves_of(&txs), moves);
        assert_eq!(ring.get_current_state(), model.state());
        assert_eq!(ring.virtual_nodes_count(), count);
    }
}

#[test]
fn test_set_virtual_nodes_count_errors() {
    let mut ring = ConsistentHashing::new(2);
    match ring.set_virtual_nodes_count(0) {
        Err(ConsistentHashingError::ZeroVirtualNodes(m)) => assert_eq!(m, "Cannot set virtual nodes count to 0"),
        other => panic!("unexpected {:?}", other.map(|v| v.len())),
    }
    match ring.set_virtual_nodes_count(2) {
        Err(ConsistentHashingError::UnchangedVirtualNodeCount(m)) => {
            assert_eq!(m, "New virtual nodes count is same as current")
        },
        other => panic!("unexpected {:?}", other.map(|v| v.len())),
    }
    assert_eq!(ring.virtual_nodes_count(), 2);
}

#[test]
fn test_get_node_is_first_position_at_or_after_hash() {
    let mut ring = ConsistentHashing::new(3);
    for i in 0..4 {
        ring.add_node(&format!("n{}", i)).unwrap();
    }
    let state = ring.get_current_state();
    for key in ["alpha", "beta", "gamma", "delta", "epsilon", "zeta"] {
        let hash = std_hash(key);
        let expected = state.iter().find(|(k, _)| *k >= hash).unwrap_or(&state[0]);
        let (node, h) = ring.get_node(key);
        assert_eq!(h, Some(hash));
        assert_eq!(node, Some(&expected.1));
        let nodes = ["n0", "n1", "n2", "n3"];
        assert!(nodes.contains(&node.unwrap().as_str()));
    }
}

#[test]
fn test_previous_and_next_by_hash() {
    let mut ring = ConsistentHashing::new(2);
    ring.add_node("x").unwrap();
    ring.add_node("y").unwrap();
    let state = ring.get_current_state();
    let first = &state[0];
    let last = &state[state.len() - 1];
    // below everything: the previous entry wraps to the last
    let (k, v) = ring.get_previous_node_by_hash(0).unwrap();
    assert_eq!((*k, v.clone()), last.clone());
    // an existing position: the next entry is the following one
    let (k, v) = ring.get_next_node_by_hash(state[1].0).unwrap();
    assert_eq!((*k, v.clone()), state[2].clone());
    // from the last position, the next entry wraps to the first
    let (k, _) = ring.get_next_node_by_hash(last.0).unwrap();
    assert_eq!(*k, first.0);
    // from between two positions, the next entry skips the first one at or after
    let between = state[0].0 + 1;
    let (k, _) = ring.get_next_node_by_hash(between).unwrap();
    assert_eq!(*k, state[2].0);
    // the previous entry of a position is the one below it
    let (k, _) = ring.get_previous_node_by_hash(state[2].0).unwrap();
    assert_eq!(*k, state[1].0);
}

#[test]
fn test_previous_and_next_by_name() {
    let mut ring = ConsistentHashing::new(2);
    ring.add_node("x").unwrap();
    ring.add_node("y").unwrap();
    let name = "some-key";
    let hash = std_hash(name);
    assert_eq!(ring.get_previous_node(name), ring.get_previous_node_by_hash(hash));
    assert_eq!(ring.get_next_node(name), ring.get_next_node_by_hash(hash));
}

#[test]
fn test_new_with_nodes() {
    let ring = ConsistentHashing::new_with_nodes(3, vec!["a".to_string(), "b".to_string(), "c".to_string()]);
    let mut one_by_one = ConsistentHashing::new(3);
    for n in ["a", "b", "c"] {
        one_by_one.add_node(n).unwrap();
    }
    assert_eq!(ring.get_current_state(), one_by_one.get_current_state());
    assert_eq!(ring.get_current_state().len(), 9);
}

#[test]
fn test_transaction_ranges() {
    let plain = Transaction::new("a".to_string(), "b".to_string(), 10, 20);
    assert!(!plain.is_exception());
    assert!(!plain.in_range(10));
    assert!(plain.in_range(11));
    assert!(plain.in_range(20));
    assert!(!plain.in_range(21));
    let wrapped = Transaction::new("a".to_string(), "b".to_string(), 20, 10);
    assert!(wrapped.is_exception());
    assert!(wrapped.in_range(0));
    assert!(wrapped.in_range(10));
    assert!(!wrapped.in_range(11));
    assert!(!wrapped.in_range(20));
    assert!(wrapped.in_range(21));
    assert!(wrapped.in_range(u64::MAX));
}

#[test]
fn test_transaction_text() {
    let plain = Transaction::new("a".to_string(), "b".to_string(), 10, 20);
    assert_eq!(plain.display_string(), "source: a  -  destination: b  -  range: ]10,20]");
    let wrapped = Transaction::new("x".to_string(), "y".to_string(), 300, 7);
    assert_eq!(wrapped.display_string(), "source: x  -  destination: y  -  range: [0,7] u ]300,..[");
}

#[test]
fn test_transaction_equality() {
    let a = Transaction::new("a".to_string(), "b".to_string(), 1, 2);
    let b = Transaction::new("a".to_string(), "b".to_string(), 1, 2);
    let c = Transaction::new("a".to_string(), "b".to_string(), 1, 3);
    assert_eq!(a, b);
    assert_ne!(a, c);
}

#[test]
fn test_arrival_range_covers_new_owner() {
    let mut ring = ConsistentHashing::new(1);
    ring.add_node("a").unwrap();
    ring.add_node("b").unwrap();
    let txs = ring.add_node("c").unwrap();
    for t in &txs {
        for probe in [t.min, t.min.wrapping_add(1), t.max, t.max.wrapping_add(1)] {
            let owner = ring
                .get_current_state()
                .iter()
                .find(|(k, _)| *k >= probe)
                .cloned()
                .unwrap_or(ring.get_current_state()[0].clone());
            assert_eq!(t.in_range(probe), owner.0 == t.max);
        }
    }
}

#[test]
fn test_adding_a_node_moves_keys_only_to_it() {
    let mut ring = ConsistentHashing::new(4);
    for i in 0..5 {
        ring.add_node(&format!("n{}", i)).unwrap();
    }
    let keys: Vec<String> = (0..200).map(|i| format!("key{}", i)).collect();
    let before: Vec<String> = keys.iter().map(|k| ring.get_node(k).0.unwrap().clone()).collect();
    ring.add_node("newcomer").unwrap();
    let mut moved = 0;
    for (k, old) in keys.iter().zip(before.iter()) {
        let now = ring.get_node(k).0.unwrap().clone();
        assert!(now == *old || now == "newcomer");
        if now != *old {
            moved += 1;
        }
    }
    assert!(moved > 0);
}

#[test]
fn test_removing_a_node_moves_only_its_keys() {
    let mut ring = ConsistentHashing::new(4);
    for i in 0..5 {
        ring.add_node(&format!("n{}", i)).unwrap();
    }
    let keys: Vec<String> = (0..200).map(|i| format!("key{}", i)).collect();
    let before: Vec<String> = keys.iter().map(|k| ring.get_node(k).0.unwrap().clone()).collect();
    ring.remove_node("n2").unwrap();
    for (k, old) in keys.iter().zip(before.iter()) {
        let now = ring.get_node(k).0.unwrap().clone();
        if old != "n2" {
            assert_eq!(&now, old);
        } else {
            assert_ne!(now, "n2");
        }
    }
}

#[test]
fn test_grow_then_shrink_restores_ring() {
    let mut ring = ConsistentHashing::new(2);
    for i in 0..3 {
        ring.add_node(&format!("g{}", i)).unwrap();
    }
    let before = ring.get_current_state();
    ring.set_virtual_nodes_count(6).unwrap();
    assert_eq!(ring.get_current_state().len(), 18);
    ring.set_virtual_nodes_count(2).unwrap();
    assert_eq!(ring.get_current_state(), before);
    assert_eq!(ring.virtual_nodes_count(), 2);
}

#[test]
fn test_shrink_then_grow_restores_ring() {
    let mut ring = ConsistentHashing::new(5);
    for i in 0..3 {
        ring.add_node(&format!("h{}", i)).unwrap();
    }
    let before = ring.get_current_state();
    ring.set_virtual_nodes_count(1).unwrap();
    assert_eq!(ring.get_current_state().len(), 3);
    ring.set_virtual_nodes_count(5).unwrap();
    assert_eq!(ring.get_current_state(), before);
}

#[test]
fn test_count_change_gives_full_ring() {
    let mut ring = ConsistentHashing::new(1);
    ring.add_node("p").unwrap();
    ring.add_node("q").unwrap();
    ring.set_virtual_nodes_count(4).unwrap();
    let mut expected: Vec<(u64, String)> = Vec::new();
    for node in ["p", "q"] {
        for i in 0..4 {
            expected.push((std_hash(&format!("{}-{}", node, i)), node.to_string()));
        }
    }
    expected.sort();
    assert_eq!(ring.get_current_state(), expected);
}
