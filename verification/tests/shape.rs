use mmpt::layer::Layer;
use mmpt::node::{Branch, Fork, InvalidBranchInsert, Leaf, Node, Root};
use mmpt::trie::{InvalidInsertError, Trie};

fn address(bytes: &[u8]) -> [u8; 32] {
    let mut address = [0u8; 32];
    address[..bytes.len()].copy_from_slice(bytes);
    address
}

fn leaf(bytes: &[u8], payload: &str) -> Leaf<String> {
    Leaf::new(address(bytes), payload.to_string())
}

fn addresses(trie: &Trie<String>) -> Vec<[u8; 32]> {
    let mut walk = trie.clone().into_iter();
    let mut found = Vec::new();
    while let Some(node) = walk.next() {
        match node {
            Node::Data { data, .. } => found.push(data.get_address()),
            _ => panic!("Not the right type of Node"),
        }
    }
    found
}

#[test]
fn new_trie_has_256_empty_slots_at_layer_zero() {
    let trie: Trie<String> = Trie::new();
    assert_eq!(trie.root.get_next().get_layer(), 0);
    for at in 0..=255u8 {
        assert!(trie.get(&at).is_none());
        assert!(!trie.get(&at).is_data());
        assert!(!trie.get(&at).is_fork());
        assert_eq!(trie.get(&at).get_hash(), None);
    }
    let root: Root<String> = Root::new();
    assert_eq!(root.get_next().get_layer(), 0);
    assert!(root.get(&17).is_none());
}

#[test]
fn inserted_leaf_is_found_in_the_slot_of_its_first_byte() {
    let mut trie: Trie<String> = Trie::new();
    let mut key = [0u8; 32];
    key[0] = 77;
    key[1] = 12;
    key[31] = 255;
    trie.add(Leaf::new(key, "X".to_string()));
    match trie.get(&77) {
        Node::Data { data, hash } => {
            assert_eq!(data.get_address(), key);
            assert_eq!(data.get_payload(), "X".to_string());
            assert_eq!(data.nibble, 77);
            assert_eq!(hash, data.get_hash());
        }
        _ => panic!("Not the right type of Node"),
    }
    for at in 0..=255u8 {
        if at != 77 {
            assert!(trie.get(&at).is_none());
        }
    }
}

#[test]
fn two_leaves_under_one_byte_make_a_fork_with_both_one_layer_down() {
    let mut trie: Trie<String> = Trie::new();
    let first = leaf(&[9, 40], "first");
    let second = leaf(&[9, 41], "second");
    trie.add(first.clone());
    trie.add(second.clone());
    match trie.get(&9) {
        Node::Fork { fork, hash } => {
            assert_eq!(hash, fork.get_hash());
            assert_eq!(fork.get_next().get_layer(), 1);
            match fork.get(&40) {
                Node::Data { data, .. } => {
                    assert_eq!(data, first);
                    assert_eq!(data.nibble, 40);
                    assert_eq!(data.get_address(), address(&[9, 40]));
                }
                _ => panic!("Not the right type of Node"),
            }
            match fork.get(&41) {
                Node::Data { data, .. } => {
                    assert_eq!(data, second);
                    assert_eq!(data.nibble, 41);
                }
                _ => panic!("Not the right type of Node"),
            }
            assert!(fork.get(&9).is_none());
        }
        _ => panic!("Wrong node type"),
    }
}

#[test]
fn leaves_that_share_more_bytes_go_down_until_they_part() {
    let mut trie: Trie<String> = Trie::new();
    trie.add(leaf(&[9, 8, 7, 1], "first"));
    trie.add(leaf(&[9, 8, 7, 2], "second"));
    let (index, nibble, node) = trie.traverse(&[9, 8, 7, 2]);
    assert_eq!(index, 3);
    assert_eq!(nibble, Some(2));
    match node {
        Node::Data { data, .. } => {
            assert_eq!(data.get_address(), address(&[9, 8, 7, 2]));
            assert_eq!(data.nibble, 2);
        }
        _ => panic!("Not the right type of Node"),
    }
    let (index, nibble, node) = trie.traverse(&[9, 8, 7]);
    assert_eq!(index, 3);
    assert_eq!(nibble, Some(7));
    match node {
        Node::Fork { fork, .. } => assert_eq!(fork.get_next().get_layer(), 3),
        _ => panic!("Wrong node type"),
    }
    let (index, nibble, node) = trie.traverse(&[9, 8, 6, 2]);
    assert_eq!(index, 2);
    assert_eq!(nibble, Some(6));
    match node {
        Node::Fork { fork, .. } => assert_eq!(fork.get_next().get_layer(), 2),
        _ => panic!("Wrong node type"),
    }
}

#[test]
fn fork_hands_a_leaf_to_its_branch_as_it_is() {
    let mut trie: Trie<String> = Trie::new();
    trie.add(leaf(&[5, 0], "first"));
    trie.add(leaf(&[5, 1], "second"));
    trie.add(leaf(&[5, 7], "third"));
    match trie.get(&5) {
        Node::Fork { fork, .. } => {
            assert!(fork.get(&0).is_data());
            assert!(fork.get(&1).is_data());
            assert!(fork.get(&7).is_none());
            match fork.get(&5) {
                Node::Data { data, .. } => {
                    assert_eq!(data.get_address(), address(&[5, 7]));
                    assert_eq!(data.nibble, 5);
                }
                _ => panic!("Not the right type of Node"),
            }
        }
        _ => panic!("Wrong node type"),
    }
    assert_eq!(addresses(&trie), vec![address(&[5, 0]), address(&[5, 1]), address(&[5, 7])]);
}

#[test]
fn traverse_on_an_empty_trie_ends_at_once() {
    let trie: Trie<String> = Trie::default();
    let (index, nibble, node) = trie.traverse(&[0u8, 1u8, 2u8, 3u8]);
    assert_eq!(index, 0);
    assert_eq!(nibble, Some(0));
    assert!(node.is_none());
    let (index, nibble, node) = trie.traverse(&[200u8]);
    assert_eq!(index, 0);
    assert_eq!(nibble, Some(200));
    assert!(node.is_none());
    let (index, nibble, node) = trie.traverse(&[]);
    assert_eq!(index, 0);
    assert_eq!(nibble, Some(0));
    assert!(node.is_none());
}

#[test]
fn traverse_with_no_bytes_left_returns_the_last_byte_and_the_last_fork() {
    let mut trie: Trie<String> = Trie::new();
    trie.add(leaf(&[9, 8, 1], "first"));
    trie.add(leaf(&[9, 8, 2], "second"));
    let (index, nibble, node) = trie.traverse(&[]);
    assert_eq!(index, 0);
    assert_eq!(nibble, Some(0));
    assert!(node.is_none());
    let (index, nibble, node) = trie.traverse(&[9, 8]);
    assert_eq!(index, 2);
    assert_eq!(nibble, Some(8));
    match node {
        Node::Fork { fork, .. } => {
            assert_eq!(fork.get_next().get_layer(), 2);
            assert!(fork.get(&1).is_data());
            assert!(fork.get(&2).is_data());
        }
        _ => panic!("Wrong node type"),
    }
}

#[test]
fn walk_yields_every_inserted_leaf_once() {
    let mut trie: Trie<String> = Trie::new();
    let mut sent: Vec<[u8; 32]> = Vec::new();
    for first in [0u8, 3, 17, 255] {
        for second in [0u8, 9, 200] {
            let mut key = address(&[first, second]);
            key[31] = first ^ second;
            sent.push(key);
        }
    }
    for (number, key) in sent.iter().enumerate() {
        assert!(trie.try_add(Leaf::new(*key, format!("payload {}", number))).is_ok());
    }
    let mut found = addresses(&trie);
    assert_eq!(found.len(), 12);
    assert_eq!(trie.clone().into_iter().count(), 12);
    found.sort();
    sent.sort();
    assert_eq!(found, sent);
    let mut walk = trie.root.next().iter();
    let mut number = 0;
    while let Some(node) = walk.next() {
        assert!(node.is_data());
        number += 1;
    }
    assert_eq!(number, 12);
    assert!(walk.next().is_none());
}

#[test]
fn walk_yields_payloads_with_their_addresses() {
    let mut trie: Trie<Vec<u8>> = Trie::new();
    trie.add(Leaf::new(address(&[2, 2]), vec![22]));
    trie.add(Leaf::new(address(&[1, 1]), vec![11]));
    trie.add(Leaf::new(address(&[2, 1]), vec![21]));
    let mut walk = trie.into_iter();
    let mut found = Vec::new();
    while let Some(node) = walk.next() {
        if let Node::Data { data, .. } = node {
            found.push((data.get_address(), data.get_payload()));
        }
    }
    assert_eq!(
        found,
        vec![
            (address(&[1, 1]), vec![11u8]),
            (address(&[2, 1]), vec![21u8]),
            (address(&[2, 2]), vec![22u8]),
        ]
    );
}

#[test]
fn same_address_twice_is_refused() {
    let mut trie: Trie<String> = Trie::new();
    assert!(trie.try_add(leaf(&[4, 4], "first")).is_ok());
    let before = trie.root.get_hash();
    let refused = trie.try_add(leaf(&[4, 4], "second"));
    assert!(matches!(refused, Err(InvalidInsertError)));
    assert_eq!(trie.root.get_hash(), before);
    assert_eq!(trie.clone().into_iter().count(), 1);
    assert!(trie.get(&4).is_data());
    assert!(!trie.root.next().accepts(&leaf(&[4, 4], "third")));
    assert!(trie.root.next().accepts(&leaf(&[4, 5], "third")));
    assert!(trie.root.next().accepts(&leaf(&[5, 4], "third")));
}

#[test]
fn leaf_whose_remainder_runs_out_is_refused() {
    let mut branch: Branch<String> = Branch::new(Layer::Zero);
    assert!(branch.try_insert(leaf(&[0, 0], "first")).is_ok());
    assert!(branch.try_insert(leaf(&[0, 1], "second")).is_ok());
    let mut last = [0u8; 32];
    last[31] = 5;
    let before = branch.get_hash();
    let refused = branch.try_insert(Leaf::new(last, "third".to_string()));
    assert!(matches!(refused, Err(InvalidBranchInsert)));
    assert_eq!(branch.get_hash(), before);
    assert_eq!(branch.iter().count(), 2);
    let mut other = [0u8; 32];
    other[2] = 5;
    assert!(branch.try_insert(Leaf::new(other, "fourth".to_string())).is_ok());
    assert_eq!(branch.iter().count(), 3);
}

#[test]
fn errors_say_what_went_wrong() {
    assert_eq!(InvalidBranchInsert.to_string(), "Unable to insert the node into the Branch");
    assert_eq!(InvalidBranchInsert.description(), "Unable to insert the node into the Branch");
    assert_eq!(InvalidInsertError.to_string(), "Unable to insert the node into the Trie");
    assert_eq!(InvalidInsertError.description(), "Unable to insert the node into the Trie");
}

#[test]
fn layers_run_from_0_to_31() {
    assert_eq!(Layer::from(0u8), Layer::Zero);
    assert_eq!(Layer::from(1u8), Layer::One);
    assert_eq!(Layer::from(31u8), Layer::ThirtyOne);
    assert_eq!(Layer::from(32u8), Layer::OutOfRange);
    assert_eq!(Layer::from(255u8), Layer::OutOfRange);
    assert_eq!(Layer::from(17usize), Layer::Seventeen);
    assert_eq!(Layer::from(usize::MAX), Layer::OutOfRange);
    assert_eq!(u8::from(Layer::Zero), 0);
    assert_eq!(u8::from(Layer::ThirtyOne), 31);
    assert_eq!(u8::from(Layer::OutOfRange), 32);
    for depth in 0..=40u8 {
        let layer = Layer::from_u8(depth);
        assert_eq!(layer.to_u8(), depth.min(32));
        assert_eq!(layer == Layer::OutOfRange, depth >= 32);
    }
    let layer: Layer = 3u8.into();
    let depth: u8 = layer.into();
    assert_eq!(depth, 3);
}

#[test]
fn fork_made_of_two_leaves_holds_both() {
    let first = leaf(&[6, 1, 1], "first");
    let second = leaf(&[6, 1, 2], "second");
    let fork = Fork::from((first.clone(), second.clone(), 0));
    assert_eq!(fork.get_next().get_layer(), 1);
    match fork.get(&1) {
        Node::Fork { fork: below, hash } => {
            assert_eq!(hash, below.get_hash());
            assert_eq!(below.get_next().get_layer(), 2);
            assert!(below.get(&1).is_data());
            assert!(below.get(&2).is_data());
            assert_eq!(below.iter().count(), 2);
        }
        _ => panic!("Wrong node type"),
    }
    assert_eq!(fork.iter().count(), 2);
    let mut same: Fork<String> = Fork::new(6, Layer::One);
    same.insert(leaf(&[1, 1, 1], "first").clone());
    assert_eq!(same.iter().count(), 1);
    let deep = Fork::from((first, second, 40));
    assert_eq!(deep.get_next().get_layer(), 32);
}

#[test]
fn clones_are_equal_and_apart() {
    let mut trie: Trie<String> = Trie::new();
    trie.add(leaf(&[1, 2], "first"));
    let copy = trie.clone();
    trie.add(leaf(&[1, 3], "second"));
    assert_ne!(trie, copy);
    assert_eq!(copy.clone().into_iter().count(), 1);
    assert_eq!(trie.clone().into_iter().count(), 2);
    let branch = trie.root.get_next();
    assert_eq!(branch, trie.root.get_next());
    let node = trie.get(&1);
    assert_eq!(node.clone().get_hash(), node.get_hash());
}
