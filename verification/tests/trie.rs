use mmpt::node::{Branch, Leaf, Node, Root};
use mmpt::trie::Trie;

#[test]
fn create_new_empyt_trie() {
    let trie: Trie<Vec<u8>> = Trie::default();
    assert_eq!(trie.root.get_next().get_layer(), 0u8);
}

#[test]
fn insert_node_in_branch() {
    let mut root = Root::default();
    let payload = "Some Data".to_string();
    let new_leaf: Leaf<String> = Leaf::new([0u8; 32], payload);
    root.get_next_mut().insert(new_leaf.clone());
    let leaf = root.get_next().get(&0);
    assert!(leaf.is_data());
    match leaf {
        Node::Data { data, .. } => {
            assert_eq!(data, new_leaf)
        }
        _ => {
            panic!("Not the right type of Node")
        }
    }
}

#[test]
fn add_node_to_trie() {
    let mut trie: Trie<String> = Trie::default();
    let payload = "Some Data".to_string();
    let new_leaf: Leaf<String> = Leaf::new([0u8; 32], payload);
    trie.add(new_leaf.clone());
    let leaf = trie.get(&0);
    assert!(leaf.is_data());
    match leaf {
        Node::Data { data, .. } => {
            assert_eq!(data, new_leaf)
        }
        _ => {
            panic!("Not the right type of Node")
        }
    }
}

#[test]
fn adding_shared_nibble_node_creates_new_branch() {
    let mut branch: Branch<String> = Branch::new(0u8.into());
    let payload = "Some Data".to_string();
    let leaf_1: Leaf<String> = Leaf::new([0u8; 32], payload);
    let mut leaf_2_address = [0u8; 32];
    leaf_2_address[1] = 1;
    let leaf_2_payload = "Some More Data".to_string();
    let leaf_2: Leaf<String> = Leaf::new(leaf_2_address, leaf_2_payload);

    branch.insert(leaf_1.clone());
    branch.insert(leaf_2.clone());

    let node = branch.get(&0);
    assert!(node.is_fork());
    match node {
        Node::Fork { fork, .. } => {
            let fork_leaf_1 = fork.get(&0);
            let fork_leaf_2 = fork.get(&1);
            assert!(fork_leaf_1.is_data());
            assert!(fork_leaf_2.is_data());
            if let Node::Data { data, .. } = fork_leaf_1 {
                assert_eq!(leaf_1, data);
            }

            if let Node::Data { data, .. } = fork_leaf_2 {
                assert_eq!(leaf_2, data);
            }
        }
        _ => {
            panic!("Wrong node type")
        }
    }
}

fn address_with(first: u8, second: u8) -> [u8; 32] {
    let mut address = [0u8; 32];
    address[0] = first;
    address[1] = second;
    address
}

#[test]
fn traverse_trie_to_find_node_that_exists_returns_the_node() {
    let mut trie: Trie<String> = Trie::default();
    let address = address_with(7, 9);
    let leaf: Leaf<String> = Leaf::new(address, "Some Data".to_string());
    trie.add(leaf.clone());
    let (index, nibble, node) = trie.traverse(&address);
    assert_eq!(index, 0);
    assert_eq!(nibble, Some(7));
    match node {
        Node::Data { data, hash } => {
            assert_eq!(data, leaf);
            assert_eq!(data.get_address(), address);
            assert_eq!(data.get_payload(), "Some Data".to_string());
            assert_eq!(hash, leaf.get_hash());
        }
        _ => {
            panic!("Not the right type of Node")
        }
    }
}

#[test]
fn traverse_trie_to_find_node_that_doesnt_exist_returns_none_node() {
    let mut trie: Trie<String> = Trie::default();
    trie.add(Leaf::new(address_with(7, 9), "Some Data".to_string()));
    let (index, nibble, node) = trie.traverse(&address_with(8, 9));
    assert_eq!(index, 0);
    assert_eq!(nibble, Some(8));
    assert!(node.is_none());
}

#[test]
fn traverse_trie_to_find_node_ending_with_shared_nibble_returns_fork() {
    let mut trie: Trie<String> = Trie::default();
    trie.add(Leaf::new(address_with(7, 1), "Some Data".to_string()));
    trie.add(Leaf::new(address_with(7, 2), "Some More Data".to_string()));
    let (index, nibble, node) = trie.traverse(&[7u8]);
    assert_eq!(index, 1);
    assert_eq!(nibble, Some(7));
    assert!(node.is_fork());
    let (index, nibble, node) = trie.traverse(&[7u8, 3u8]);
    assert_eq!(index, 1);
    assert_eq!(nibble, Some(3));
    match node {
        Node::Fork { fork, hash } => {
            assert!(fork.get(&1).is_data());
            assert!(fork.get(&2).is_data());
            assert!(fork.get(&3).is_none());
            assert_eq!(hash, fork.get_hash());
        }
        _ => {
            panic!("Not the right type of Node")
        }
    }
}

fn leaf_at(first: u8, second: u8, payload: &str) -> Leaf<String> {
    Leaf::new(address_with(first, second), payload.to_string())
}

fn address_of(node: Option<Node<String>>) -> [u8; 32] {
    match node {
        Some(Node::Data { data, .. }) => data.get_address(),
        _ => panic!("Not the right type of Node"),
    }
}

#[test]
fn next_on_trie_iterator_of_empty_returns_none() {
    let trie: Trie<String> = Trie::default();
    let mut walk = trie.into_iter();
    assert!(walk.next().is_none());
    assert!(walk.next().is_none());
}

#[test]
fn next_on_trie_iterator_at_end_of_branch_moves_up_one_layer() {
    let mut trie: Trie<String> = Trie::default();
    trie.add(leaf_at(9, 0, "top"));
    trie.add(leaf_at(3, 5, "first below"));
    trie.add(leaf_at(3, 4, "second below"));
    let mut walk = trie.into_iter();
    assert_eq!(address_of(walk.next()), address_with(3, 4));
    assert_eq!(address_of(walk.next()), address_with(3, 5));
    assert_eq!(address_of(walk.next()), address_with(9, 0));
    assert!(walk.next().is_none());
    assert!(walk.next().is_none());
}

#[test]
fn next_on_trie_iterator_at_fork_moves_down_one_layer() {
    let mut trie: Trie<String> = Trie::default();
    trie.add(leaf_at(1, 0, "top"));
    trie.add(leaf_at(3, 200, "first below"));
    trie.add(leaf_at(3, 100, "second below"));
    let mut walk = trie.into_iter();
    assert_eq!(address_of(walk.next()), address_with(1, 0));
    let below = walk.next();
    match &below {
        Some(Node::Data { data, hash }) => {
            assert_eq!(data.nibble, 100);
            assert_eq!(data.get_payload(), "second below".to_string());
            assert_eq!(*hash, data.get_hash());
        }
        _ => panic!("Not the right type of Node"),
    }
    assert_eq!(address_of(below), address_with(3, 100));
    assert_eq!(address_of(walk.next()), address_with(3, 200));
    assert!(walk.next().is_none());
}

#[test]
fn calling_count_on_trie_iterator_returns_count_of_all_data_nodes_in_trie() {
    let mut trie: Trie<String> = Trie::default();
    assert_eq!(trie.clone().into_iter().count(), 0);
    trie.add(leaf_at(1, 0, "a"));
    assert_eq!(trie.clone().into_iter().count(), 1);
    trie.add(leaf_at(3, 200, "b"));
    trie.add(leaf_at(3, 100, "c"));
    trie.add(leaf_at(255, 255, "d"));
    let mut deep = [3u8; 32];
    deep[1] = 100;
    deep[31] = 1;
    trie.add(Leaf::new(deep, "e".to_string()));
    assert_eq!(trie.clone().into_iter().count(), 5);
    let mut walk = trie.into_iter();
    assert!(walk.next().is_some());
    assert!(walk.next().is_some());
    assert_eq!(walk.count(), 3);
}

#[test]
fn calling_count_on_branch_iterator_returns_count_of_all_data_nodes_in_branch_and_all_data_nodes_in_all_forks_in_branch(
) {
    let mut branch: Branch<String> = Branch::new(0u8.into());
    assert_eq!(branch.iter().count(), 0);
    branch.insert(leaf_at(1, 0, "a"));
    branch.insert(leaf_at(2, 0, "b"));
    branch.insert(leaf_at(7, 1, "c"));
    branch.insert(leaf_at(7, 2, "d"));
    branch.insert(leaf_at(8, 1, "e"));
    branch.insert(leaf_at(8, 2, "f"));
    assert_eq!(branch.iter().count(), 6);
    let direct = (0..=255u8).filter(|at| branch.get(at).is_data()).count();
    let mut below = 0;
    for at in 0..=255u8 {
        if let Node::Fork { fork, .. } = branch.get(&at) {
            below += fork.iter().count();
            assert_eq!(fork.iter().count(), fork.clone().into_iter().count());
            assert_eq!(fork.iter().count(), fork.get_next().iter().count());
        }
    }
    assert_eq!(direct, 2);
    assert_eq!(below, 4);
    assert_eq!(branch.iter().count(), direct + below);
    assert_eq!(branch.clone().into_iter().count(), 6);
}
