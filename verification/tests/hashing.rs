use mmpt::hash::{Hasher, Sha256Algorithm};
use mmpt::layer::Layer;
use mmpt::node::{Branch, Fork, Leaf, Node, Root};
use mmpt::payload::Payload;
use mmpt::trie::Trie;
use sha2::{Digest, Sha256};

fn sha256_of(data: &[u8]) -> [u8; 32] {
    let mut out = [0u8; 32];
    out.copy_from_slice(&Sha256::digest(data));
    out
}

const ABC: [u8; 32] = [
    0xba, 0x78, 0x16, 0xbf, 0x8f, 0x01, 0xcf, 0xea, 0x41, 0x41, 0x40, 0xde, 0x5d, 0xae, 0x22, 0x23,
    0xb0, 0x03, 0x61, 0xa3, 0x96, 0x17, 0x7a, 0x9c, 0xb4, 0x10, 0xff, 0x61, 0xf2, 0x00, 0x15, 0xad,
];

const NOTHING: [u8; 32] = [
    0xe3, 0xb0, 0xc4, 0x42, 0x98, 0xfc, 0x1c, 0x14, 0x9a, 0xfb, 0xf4, 0xc8, 0x99, 0x6f, 0xb9, 0x24,
    0x27, 0xae, 0x41, 0xe4, 0x64, 0x9b, 0x93, 0x4c, 0xa4, 0x95, 0x99, 0x1b, 0x78, 0x52, 0xb8, 0x55,
];

#[test]
fn sha256_of_known_messages() {
    assert_eq!(Sha256Algorithm::hash(b"abc"), ABC);
    assert_eq!(Sha256Algorithm::hash(b""), NOTHING);
    assert_ne!(Sha256Algorithm::hash(b"abc").to_vec(), b"abc".to_vec());
}

#[test]
fn hashing_twice_gives_the_same_digest() {
    assert_eq!(Sha256Algorithm::hash(b"some bytes"), Sha256Algorithm::hash(b"some bytes"));
    let first: Leaf<String> = Leaf::new([4u8; 32], "Some Data".to_string());
    let second: Leaf<String> = Leaf::new([4u8; 32], "Some Data".to_string());
    assert_eq!(first.get_hash(), second.get_hash());
    assert_eq!(first.get_hash(), first.get_hash());
    assert_eq!(first, second);
}

#[test]
fn one_changed_byte_changes_the_digest_of_a_leaf() {
    let leaf: Leaf<String> = Leaf::new([4u8; 32], "Some Data".to_string());
    let mut address = [4u8; 32];
    address[17] = 5;
    let other_address: Leaf<String> = Leaf::new(address, "Some Data".to_string());
    let other_payload: Leaf<String> = Leaf::new([4u8; 32], "Some Dbta".to_string());
    assert_ne!(leaf.get_hash(), other_address.get_hash());
    assert_ne!(leaf.get_hash(), other_payload.get_hash());
    assert_ne!(leaf, other_address);
    assert_ne!(leaf, other_payload);
}

#[test]
fn digest_of_a_leaf_is_sha256_of_address_and_payload() {
    let mut address = [0u8; 32];
    address[0] = 200;
    address[31] = 9;
    let leaf: Leaf<String> = Leaf::new(address, "Some Data".to_string());
    let mut bytes = address.to_vec();
    bytes.extend_from_slice(b"Some Data");
    assert_eq!(leaf.get_hash(), sha256_of(&bytes));
    let raw: Leaf<Vec<u8>> = Leaf::new(address, vec![1, 2, 3]);
    let mut bytes = address.to_vec();
    bytes.extend_from_slice(&[1, 2, 3]);
    assert_eq!(raw.get_hash(), sha256_of(&bytes));
}

#[test]
fn concat_and_hash_hashes_both_or_hands_back_the_left() {
    let left = Sha256Algorithm::hash(b"left");
    let right = Sha256Algorithm::hash(b"right");
    let mut both = left.to_vec();
    both.extend_from_slice(&right);
    assert_eq!(Sha256Algorithm::concat_and_hash(&left, Some(&right)), sha256_of(&both));
    assert_eq!(Sha256Algorithm::concat_and_hash(&left, None), left);
    assert_ne!(
        Sha256Algorithm::concat_and_hash(&left, Some(&right)),
        Sha256Algorithm::concat_and_hash(&right, Some(&left))
    );
}

#[test]
fn digest_of_sha256_has_32_bytes() {
    assert_eq!(Sha256Algorithm::hash_size(), 32);
    let digest = Sha256Algorithm::hash(b"abc");
    assert_eq!(Sha256Algorithm::to_bytes(&digest), ABC.to_vec());
    assert_eq!(Sha256Algorithm::to_bytes(&digest).len(), Sha256Algorithm::hash_size());
}

#[test]
fn payloads_encode_to_their_bytes() {
    assert_eq!("Some Data".to_string().encode(), b"Some Data".to_vec());
    assert_eq!("é".to_string().encode(), vec![0xc3, 0xa9]);
    assert_eq!(String::new().encode(), Vec::<u8>::new());
    assert_eq!(vec![0u8, 255, 7].encode(), vec![0u8, 255, 7]);
}

#[test]
fn digest_of_an_empty_branch_is_sha256_of_nothing() {
    let branch: Branch<String> = Branch::new(Layer::Five);
    assert_eq!(branch.get_hash(), NOTHING);
    assert_eq!(branch.get_layer(), 5);
    let fork: Fork<String> = Fork::new(5, Layer::Two);
    assert_eq!(fork.get_next().get_layer(), 2);
    assert_eq!(fork.get_hash(), sha256_of(&NOTHING));
    let root: Root<String> = Root::new();
    assert_eq!(root.get_hash(), sha256_of(&NOTHING));
}

#[test]
fn digest_of_a_branch_is_sha256_of_the_digests_in_its_slots_in_order() {
    let mut branch: Branch<String> = Branch::new(Layer::Zero);
    let mut high = [0u8; 32];
    high[0] = 200;
    let mut low = [0u8; 32];
    low[0] = 3;
    let high_leaf: Leaf<String> = Leaf::new(high, "high".to_string());
    let low_leaf: Leaf<String> = Leaf::new(low, "low".to_string());
    branch.insert(high_leaf.clone());
    assert_eq!(branch.get_hash(), sha256_of(&high_leaf.get_hash()));
    branch.insert(low_leaf.clone());
    let mut both = low_leaf.get_hash().to_vec();
    both.extend_from_slice(&high_leaf.get_hash());
    assert_eq!(branch.get_hash(), sha256_of(&both));
    branch.hash_nibbles();
    assert_eq!(branch.get_hash(), sha256_of(&both));
}

#[test]
fn digest_of_a_fork_is_sha256_of_the_digest_of_its_branch() {
    let mut branch: Branch<String> = Branch::new(Layer::Zero);
    let mut first = [0u8; 32];
    first[1] = 10;
    let mut second = [0u8; 32];
    second[1] = 20;
    let first_leaf: Leaf<String> = Leaf::new(first, "first".to_string());
    let second_leaf: Leaf<String> = Leaf::new(second, "second".to_string());
    branch.insert(second_leaf.clone());
    branch.insert(first_leaf.clone());
    match branch.get(&0) {
        Node::Fork { fork, hash } => {
            let mut both = first_leaf.get_hash().to_vec();
            both.extend_from_slice(&second_leaf.get_hash());
            let below = sha256_of(&both);
            assert_eq!(fork.get_next().get_hash(), below);
            assert_eq!(fork.get_next().get_layer(), 1);
            assert_eq!(fork.get_hash(), sha256_of(&below));
            assert_eq!(hash, sha256_of(&below));
            assert_eq!(branch.get_hash(), sha256_of(&hash));
        }
        _ => panic!("Wrong node type"),
    }
}

#[test]
fn digest_of_the_root_follows_every_insertion() {
    let mut trie: Trie<String> = Trie::new();
    let before = trie.root.get_hash();
    let leaf: Leaf<String> = Leaf::new([1u8; 32], "Some Data".to_string());
    trie.add(leaf.clone());
    let branch_digest = sha256_of(&leaf.get_hash());
    assert_eq!(trie.root.get_next().get_hash(), branch_digest);
    assert_eq!(trie.root.get_hash(), sha256_of(&branch_digest));
    assert_ne!(trie.root.get_hash(), before);
    let mut other: Trie<String> = Trie::new();
    assert_ne!(trie, other);
    other.add(leaf);
    assert_eq!(trie, other);
}

#[test]
fn digest_of_the_root_stays_when_its_branch_is_changed_in_place() {
    let mut root: Root<String> = Root::default();
    let before = root.get_hash();
    root.get_next_mut().insert(Leaf::new([1u8; 32], "Some Data".to_string()));
    assert_eq!(root.get_hash(), before);
    assert!(root.get(&1).is_data());
    assert!(root.next().node(1).is_data());
}

#[test]
fn two_empty_slots_filled_in_either_order_give_the_same_digest() {
    let mut high = [0u8; 32];
    high[0] = 200;
    let mut low = [0u8; 32];
    low[0] = 3;
    let high_leaf: Leaf<String> = Leaf::new(high, "high".to_string());
    let low_leaf: Leaf<String> = Leaf::new(low, "low".to_string());
    let mut one: Branch<String> = Branch::new(Layer::Zero);
    one.insert(high_leaf.clone());
    one.insert(low_leaf.clone());
    let mut other: Branch<String> = Branch::new(Layer::Zero);
    other.insert(low_leaf);
    other.insert(high_leaf);
    assert_eq!(one.get_hash(), other.get_hash());
    assert_eq!(one, other);
    let empty: Branch<String> = Branch::new(Layer::Zero);
    assert_ne!(one, empty);
}
