//! Leaves, forks, branches and the root: the nodes of the trie.

use crate::hash::{Hasher, Sha256Algorithm};
use crate::laws::{
    lemma_inserted_committed, lemma_inserted_consistent, lemma_inserted_wf, lemma_split_wf,
};
use crate::layer::Layer;
use crate::model::{
    branch_digest, concat_hashes, differ, entries_from, left_on_path, on_path, BranchView,
    ForkView, LeafView, NodeView, RootView,
};
use crate::payload::Payload;
use vstd::prelude::*;
use vstd::std_specs::cmp::PartialEqSpecImpl;

verus! {

/// A digest: 32 bytes.
pub type RootHash = [u8; 32];

/// One byte of an address: the index of a slot in a branch.
pub type Nibble = u8;

/// The key of an entry: 32 bytes.
pub type Address = [u8; 32];

/// Says that a branch could not take a leaf.
#[derive(Debug)]
pub struct InvalidBranchInsert;

impl InvalidBranchInsert {
    /// What went wrong, in words.
    pub fn description(&self) -> (text: &'static str)
        ensures
            text@ == "Unable to insert the node into the Branch"@,
    {
        "Unable to insert the node into the Branch"
    }

    /// What went wrong, in words, as a string of its own.
    pub fn to_string(&self) -> (text: String)
        ensures
            text@ == "Unable to insert the node into the Branch"@,
    {
        self.description().to_owned()
    }
}

/// What a slot of a branch holds: a leaf, a fork, or nothing. A leaf and a
/// fork come with their digest.
#[derive(Debug)]
pub enum Node<P: Payload> {
    Data { data: Leaf<P>, hash: RootHash },
    Fork { fork: Fork<P>, hash: RootHash },
    Empty,
}

/// The top of a trie: the branch at depth 0, and a digest over the digest of
/// that branch.
#[derive(Debug)]
pub struct Root<P: Payload> {
    next: Branch<P>,
    hash: RootHash,
}

/// A table of 256 slots, one for each value of a byte, at one depth of the
/// trie, with the digest of the digests in its slots.
#[derive(Debug)]
pub struct Branch<P: Payload> {
    layer: Layer,
    nibbles: Vec<Node<P>>,
    hash: RootHash,
}

/// What stands in a slot in which two or more leaves met: the byte they
/// share, and a branch one layer down that holds them.
#[derive(Debug)]
pub struct Fork<P: Payload> {
    nibble: Nibble,
    next: Box<Branch<P>>,
}

/// An entry: an address and a payload. `nibble` is the byte under which the
/// leaf sits in its branch, and the remainder what is left of the address
/// after that byte.
#[derive(Debug)]
pub struct Leaf<P: Payload> {
    pub nibble: Nibble,
    address: Address,
    remainder: Vec<u8>,
    payload: P,
}

/// A walk over the leaves of a branch that it owns, depth first.
#[derive(Debug)]
pub struct BranchIntoIter<P: Payload> {
    branch: Branch<P>,
    path: Vec<usize>,
}

/// A walk over the leaves of a borrowed branch, depth first.
#[derive(Debug)]
pub struct BranchIterator<'a, P: Payload> {
    branch: &'a Branch<P>,
    path: Vec<usize>,
}

/// A walk over the leaves below a fork that it owns, depth first.
#[derive(Debug)]
pub struct ForkIntoIterator<P: Payload> {
    fork: Fork<P>,
    path: Vec<usize>,
}

/// A walk over the leaves below a borrowed fork, depth first.
#[derive(Debug)]
pub struct ForkIterator<'a, P: Payload> {
    fork: &'a Fork<P>,
    path: Vec<usize>,
}

impl<P: Payload> View for Leaf<P> {
    type V = LeafView;

    closed spec fn view(&self) -> LeafView {
        LeafView {
            nibble: self.nibble,
            address: self.address@,
            remainder: self.remainder@,
            payload: self.payload.encoding(),
        }
    }
}

impl<P: Payload> Node<P> {
    /// The node as a mathematical value.
    pub open spec fn model(&self) -> NodeView
        decreases self,
    {
        match self {
            Node::Data { data, hash } => NodeView::Data { data: data@, hash: hash@ },
            Node::Fork { fork, hash } => NodeView::Fork { fork: fork.model(), hash: hash@ },
            Node::Empty => NodeView::Empty,
        }
    }
}

impl<P: Payload> Fork<P> {
    /// The fork as a mathematical value.
    pub closed spec fn model(&self) -> ForkView
        decreases self,
    {
        ForkView { nibble: self.nibble, next: (*self.next).model() }
    }
}

impl<P: Payload> Branch<P> {
    /// Every branch has the shape of a branch of a trie.
    #[verifier::type_invariant]
    spec fn well_formed(&self) -> bool {
        self.model().wf()
    }

    /// The branch as a mathematical value.
    pub closed spec fn model(&self) -> BranchView
        decreases self,
    {
        BranchView {
            layer: self.layer.index(),
            nibbles: Seq::new(
                self.nibbles.len() as nat,
                |i: int|
                    if 0 <= i < self.nibbles.len() {
                        self.nibbles[i].model()
                    } else {
                        NodeView::Empty
                    },
            ),
            hash: self.hash@,
        }
    }
}

impl<P: Payload> View for Root<P> {
    type V = RootView;

    closed spec fn view(&self) -> RootView {
        RootView { next: self.next.model(), hash: self.hash@ }
    }
}

impl<P: Payload> View for Node<P> {
    type V = NodeView;

    open spec fn view(&self) -> NodeView {
        self.model()
    }
}

impl<P: Payload> View for Fork<P> {
    type V = ForkView;

    open spec fn view(&self) -> ForkView {
        self.model()
    }
}

impl<P: Payload> View for Branch<P> {
    type V = BranchView;

    open spec fn view(&self) -> BranchView {
        self.model()
    }
}

/// Whether a node can stand in the slot at place `at` of a well-formed branch
/// at depth `layer`.
spec fn fits(node: NodeView, at: int, layer: nat) -> bool {
    match node {
        NodeView::Data { data, .. } => data.nibble == at,
        NodeView::Fork { fork, .. } => {
            &&& fork.nibble == at
            &&& fork.next.layer == Layer::below(layer)
            &&& fork.next.wf()
        },
        NodeView::Empty => true,
    }
}

/// A well-formed branch in which one slot gets a node that fits there is well
/// formed, and its model is that of the branch with that slot changed.
proof fn lemma_exchanged<P: Payload>(before: Branch<P>, after: Branch<P>, at: int, node: Node<P>)
    requires
        before.model().wf(),
        0 <= at < 256,
        after.layer == before.layer,
        after.nibbles@ == before.nibbles@.update(at, node),
        fits(node.model(), at, before.model().layer),
    ensures
        after.model().nibbles == before.model().nibbles.update(at, node.model()),
        after.model().layer == before.model().layer,
        after.model().wf(),
{
    assert(after.model().nibbles =~= before.model().nibbles.update(at, node.model()));
    assert forall|i: int| 0 <= i < after.model().nibbles.len() implies fits(
        #[trigger] after.model().nibbles[i],
        i,
        after.model().layer,
    ) by {
        if i != at {
            assert(after.model().nibbles[i] == before.model().nibbles[i]);
        }
    }
}

/// Puts `node` into the slot at place `at`, and returns what the slot held.
fn exchange<P: Payload>(nibbles: &mut Vec<Node<P>>, at: usize, node: Node<P>) -> (held: Node<P>)
    requires
        at < old(nibbles).len(),
    ensures
        held == old(nibbles)@[at as int],
        final(nibbles)@ == old(nibbles)@.update(at as int, node),
    no_unwind
{
    let mut node = node;
    core::mem::swap(&mut nibbles[at], &mut node);
    node
}

/// Adds the 32 bytes of a digest to the end of `bytes`.
fn push_hash(bytes: &mut Vec<u8>, hash: &RootHash)
    ensures
        final(bytes)@ == old(bytes)@ + hash@,
{
    let mut i: usize = 0;
    while i < 32
        invariant
            i <= 32,
            bytes@ == old(bytes)@ + hash@.subrange(0, i as int),
        decreases 32 - i,
    {
        bytes.push(hash[i]);
        i += 1;
    }
}

/// Whether two remainders differ at a place that both have.
fn parts(first: &Vec<u8>, second: &Vec<u8>) -> (yes: bool)
    ensures
        yes == differ(first@, second@),
{
    let mut i: usize = 0;
    while i < first.len() && i < second.len()
        invariant
            forall|k: int| 0 <= k < i ==> first@[k] == second@[k],
            i <= first.len(),
            i <= second.len(),
        decreases first.len() - i,
    {
        if first[i] != second[i] {
            return true;
        }
        i += 1;
    }
    false
}

impl<P: Payload> Leaf<P> {
    /// A leaf for the top of a trie: it sits under the first byte of its
    /// address, and the other 31 bytes are its remainder.
    pub fn new(address: [u8; 32], payload: P) -> (leaf: Leaf<P>)
        ensures
            leaf@ == LeafView::new(address@, payload.encoding()),
            leaf@.consistent(),
            leaf.stored() == payload,
    {
        let nibble: u8 = address[0];
        let mut remainder: Vec<u8> = Vec::with_capacity(31);
        let mut i: usize = 1;
        while i < 32
            invariant
                1 <= i <= 32,
                remainder@ == address@.subrange(1, i as int),
            decreases 32 - i,
        {
            remainder.push(address[i]);
            i += 1;
        }
        Leaf { nibble, address, remainder, payload }
    }

    /// The payload that the leaf holds.
    pub closed spec fn stored(&self) -> P {
        self.payload
    }

    /// A copy of the payload.
    pub fn get_payload(&self) -> (payload: P)
        ensures
            cloned::<P>(self.stored(), payload),
            payload.encoding() == self@.payload,
    {
        let payload = self.payload.clone();
        proof {
            self.payload.clone_keeps_encoding(&payload);
        }
        payload
    }

    /// The address of the leaf.
    pub fn get_address(&self) -> (address: Address)
        ensures
            address@ == self@.address,
    {
        self.address
    }

    /// The digest of the leaf: SHA-256 of its address followed by the
    /// canonical bytes of its payload.
    pub fn get_hash(&self) -> (hash: RootHash)
        ensures
            hash@ == self@.digest(),
    {
        self.hash()
    }

    fn hash(&self) -> (hash: RootHash)
        ensures
            hash@ == self@.digest(),
    {
        let mut to_hash: Vec<u8> = Vec::new();
        push_hash(&mut to_hash, &self.address);
        let mut payload = self.payload.encode();
        to_hash.append(&mut payload);
        Sha256Algorithm::hash(to_hash.as_slice())
    }

    /// The leaf one layer down: the first byte of its remainder becomes its
    /// nibble.
    fn deeper(self) -> (leaf: Leaf<P>)
        requires
            self@.remainder.len() > 0,
        ensures
            leaf@ == self@.deeper(),
    {
        let mut leaf = self;
        let nibble: u8 = leaf.remainder.remove(0);
        leaf.nibble = nibble;
        leaf
    }
}

impl<P: Payload> Clone for Leaf<P> {
    fn clone(&self) -> (copy: Self)
        ensures
            copy@ == self@,
            cloned::<P>(self.stored(), copy.stored()),
    {
        let payload = self.payload.clone();
        proof {
            self.payload.clone_keeps_encoding(&payload);
        }
        let remainder = self.remainder.clone();
        assert(remainder@ =~= self.remainder@);
        Leaf { nibble: self.nibble, address: self.address, remainder, payload }
    }
}

impl<P: Payload> Node<P> {
    /// Whether the slot holds nothing.
    pub fn is_none(&self) -> (yes: bool)
        ensures
            yes == (self@ is Empty),
    {
        match self {
            Node::Empty => true,
            _ => false,
        }
    }

    /// Whether the slot holds a fork.
    pub fn is_fork(&self) -> (yes: bool)
        ensures
            yes == (self@ is Fork),
    {
        match self {
            Node::Fork { .. } => true,
            _ => false,
        }
    }

    /// Whether the slot holds a leaf.
    pub fn is_data(&self) -> (yes: bool)
        ensures
            yes == (self@ is Data),
    {
        match self {
            Node::Data { .. } => true,
            _ => false,
        }
    }

    /// The digest that the node carries; an empty slot has none.
    pub fn get_hash(&self) -> (hash: Option<[u8; 32]>)
        ensures
            match hash {
                Some(h) => self@.hash() == Some(h@),
                None => self@.hash() is None,
            },
    {
        match self {
            Node::Fork { hash, .. } => Some(*hash),
            Node::Data { hash, .. } => Some(*hash),
            Node::Empty => None,
        }
    }
}

impl<P: Payload> Clone for Node<P> {
    fn clone(&self) -> (copy: Self)
        ensures
            copy@ == self@,
        decreases self,
    {
        match self {
            Node::Data { data, hash } => Node::Data { data: data.clone(), hash: *hash },
            Node::Fork { fork, hash } => Node::Fork { fork: fork.clone(), hash: *hash },
            Node::Empty => Node::Empty,
        }
    }
}

impl<P: Payload> Clone for Fork<P> {
    fn clone(&self) -> (copy: Self)
        ensures
            copy@ == self@,
        decreases self,
    {
        let next: Branch<P> = (*self.next).clone();
        Fork { nibble: self.nibble, next: Box::new(next) }
    }
}

impl<P: Payload> Clone for Root<P> {
    fn clone(&self) -> (copy: Self)
        ensures
            copy@ == self@,
    {
        Root { next: self.next.clone(), hash: self.hash }
    }
}

impl<P: Payload> Clone for Branch<P> {
    fn clone(&self) -> (copy: Self)
        ensures
            copy@ == self@,
            copy@.wf(),
        decreases self,
    {
        let mut nibbles: Vec<Node<P>> = Vec::with_capacity(256);
        let mut i: usize = 0;
        while i < self.nibbles.len()
            invariant
                i <= self.nibbles.len(),
                nibbles.len() == i,
                forall|j: int| 0 <= j < i ==> (#[trigger] nibbles[j]).model() == self.nibbles[j].model(),
            decreases self.nibbles.len() - i,
        {
            let node = self.nibbles[i].clone();
            nibbles.push(node);
            i += 1;
        }
        proof {
            use_type_invariant(self);
            let copy = Branch { layer: self.layer, nibbles, hash: self.hash };
            assert(copy.model().nibbles =~= self.model().nibbles);
        }
        Branch { layer: self.layer, nibbles, hash: self.hash }
    }
}

impl<P: Payload> Root<P> {
    /// The root of an empty trie: an empty branch at depth 0.
    pub fn new() -> (root: Root<P>)
        ensures
            root@ == RootView::empty(),
    {
        let next: Branch<P> = Branch::new(Layer::Zero);
        let below: RootHash = next.get_hash();
        let hash = Sha256Algorithm::hash(below.as_slice());
        Root { next, hash }
    }

    /// A copy of the branch of the root.
    pub fn get_next(&self) -> (next: Branch<P>)
        ensures
            next@ == self@.next,
    {
        self.next.clone()
    }

    /// The branch of the root.
    pub fn next(&self) -> (next: &Branch<P>)
        ensures
            next@ == self@.next,
            next@.wf(),
    {
        proof {
            use_type_invariant(&self.next);
        }
        &self.next
    }

    /// The branch of the root, to be changed in place. The digest of the root
    /// is left as it is.
    pub fn get_next_mut(&mut self) -> (next: &mut Branch<P>)
        ensures
            next@ == old(self)@.next,
            final(self)@ == (RootView { next: final(next)@, hash: old(self)@.hash }),
    {
        &mut self.next
    }

    /// The digest of the root.
    pub fn get_hash(&self) -> (hash: RootHash)
        ensures
            hash@ == self@.hash,
    {
        self.hash
    }

    /// A copy of what the slot of `index` holds in the branch of the root.
    pub fn get(&self, index: &u8) -> (node: Node<P>)
        ensures
            self@.next.wf(),
            node@ == self@.next.nibbles[*index as int],
    {
        self.next.get(index)
    }

    /// Puts `leaf` into the branch of the root and makes the digest of the
    /// root anew: SHA-256 of the digest of the branch.
    pub fn insert(&mut self, leaf: Leaf<P>)
        requires
            old(self)@.next.accepts(leaf@),
        ensures
            final(self)@ == old(self)@.inserted(leaf@),
            old(self)@.next.wf(),
            final(self)@.next.wf(),
            final(self)@.next.layer == old(self)@.next.layer,
            old(self)@.next.committed() ==> final(self)@.committed(),
    {
        proof {
            use_type_invariant(&self.next);
            lemma_inserted_wf(old(self)@.next, leaf@);
        }
        self.next.insert(leaf);
        let below: RootHash = self.next.get_hash();
        self.hash = Sha256Algorithm::hash(below.as_slice());
    }
}

impl<P: Payload> Default for Root<P> {
    fn default() -> (root: Self)
        ensures
            root@ == RootView::empty(),
    {
        Self::new()
    }
}

impl<P: Payload> Branch<P> {
    /// A branch at `layer` with 256 empty slots.
    pub fn new(layer: Layer) -> (branch: Branch<P>)
        ensures
            branch@ == BranchView::empty(layer.index()),
            branch@.wf(),
    {
        let mut nibbles: Vec<Node<P>> = Vec::with_capacity(256);
        let mut i: usize = 0;
        while i < 256
            invariant
                i <= 256,
                nibbles.len() == i,
                forall|j: int| 0 <= j < i ==> (#[trigger] nibbles[j]).model() == NodeView::Empty,
            decreases 256 - i,
        {
            nibbles.push(Node::Empty);
            i += 1;
        }
        let hash: RootHash = [0u8; 32];
        proof {
            let branch = Branch { layer, nibbles, hash };
            assert(branch.model().nibbles =~= BranchView::empty(layer.index()).nibbles);
        }
        let mut branch = Branch { layer, nibbles, hash };
        branch.hash_nibbles();
        branch
    }

    /// Puts `leaf` into the slot of its nibble. An empty slot takes it. Where
    /// a leaf sits already, a fork takes the place of both, and both go one
    /// layer down. Where a fork sits, its branch gets the leaf as it is. The
    /// digests on the way are made anew.
    pub fn insert(&mut self, leaf: Leaf<P>)
        requires
            old(self)@.accepts(leaf@),
        ensures
            final(self)@ == old(self)@.inserted(leaf@),
            old(self)@.wf(),
            final(self)@.wf(),
            old(self)@.committed() ==> final(self)@.committed(),
            old(self)@.consistent() && leaf@.consistent() ==> final(self)@.consistent(),
        decreases old(self)@,
    {
        proof {
            use_type_invariant(&*self);
            lemma_inserted_wf(old(self)@, leaf@);
            if old(self)@.committed() {
                lemma_inserted_committed(old(self)@, leaf@);
            }
            if old(self)@.consistent() && leaf@.consistent() {
                lemma_inserted_consistent(old(self)@, leaf@);
            }
        }
        let ghost start = *self;
        let ghost before = old(self).model();
        let ghost added = leaf@;
        let index: usize = leaf.nibble as usize;
        proof {
            assert forall|after: Branch<P>|
                after.layer == start.layer && after.nibbles@ == start.nibbles@.update(
                    index as int,
                    Node::Empty,
                ) implies #[trigger] after.model().wf() by {
                lemma_exchanged(start, after, index as int, Node::Empty);
            }
        }
        let node = exchange(&mut self.nibbles, index, Node::Empty);
        assert(node.model() == before.nibbles[index as int]);
        let ghost taken = *self;
        let replacement = match node {
            Node::Fork { mut fork, hash } => {
                assert(before.nibbles[index as int] == (NodeView::Fork {
                    fork: fork.model(),
                    hash: hash@,
                }));
                assert(fork.model().next.wf());
                fork.insert(leaf);
                let hash = fork.get_hash();
                Node::Fork { fork, hash }
            },
            Node::Data { data, hash } => {
                let fork = Fork::from((leaf, data, self.layer.to_u8() as usize));
                let hash = fork.get_hash();
                Node::Fork { fork, hash }
            },
            Node::Empty => {
                let hash = leaf.get_hash();
                Node::Data { data: leaf, hash }
            },
        };
        proof {
            lemma_exchanged(start, taken, index as int, Node::Empty);
            assert(before.inserted(added).nibbles == before.nibbles.update(
                index as int,
                replacement.model(),
            ));
            assert(fits(replacement.model(), index as int, before.layer));
            assert forall|after: Branch<P>|
                after.layer == taken.layer && after.nibbles@ == taken.nibbles@.update(
                    index as int,
                    replacement,
                ) implies #[trigger] after.model().wf() by {
                lemma_exchanged(taken, after, index as int, replacement);
            }
        }
        exchange(&mut self.nibbles, index, replacement);
        proof {
            lemma_exchanged(taken, *self, index as int, replacement);
            assert(self.model().nibbles =~= before.inserted(added).nibbles);
        }
        self.hash_nibbles();
    }

    /// What the slot at place `at` holds.
    fn slot(&self, at: usize) -> (node: &Node<P>)
        requires
            at < 256,
        ensures
            self@.wf(),
            node@ == self@.nibbles[at as int],
    {
        proof {
            use_type_invariant(self);
        }
        &self.nibbles[at]
    }

    /// What the slot of `nibble` holds.
    pub fn node(&self, nibble: Nibble) -> (node: &Node<P>)
        ensures
            self@.wf(),
            node@ == self@.nibbles[nibble as int],
    {
        proof {
            use_type_invariant(self);
        }
        &self.nibbles[nibble as usize]
    }

    /// Whether the branch can take `leaf`: whether, under the nibble of the
    /// leaf, it finds through any forks an empty slot, or a leaf whose
    /// remainder differs from that of `leaf` at a place that both have.
    pub fn accepts(&self, leaf: &Leaf<P>) -> (yes: bool)
        ensures
            self@.wf(),
            yes == self@.accepts(leaf@),
    {
        proof {
            use_type_invariant(self);
        }
        let mut branch: &Branch<P> = self;
        loop
            invariant
                self@.wf(),
                branch@.wf(),
                self@.accepts(leaf@) == branch@.accepts(leaf@),
            decreases branch@,
        {
            match branch.node(leaf.nibble) {
                Node::Fork { fork, .. } => {
                    assert(fork.model().next.wf());
                    branch = &*fork.next;
                },
                Node::Data { data, .. } => {
                    assert(branch@.accepts(leaf@) == leaf@.parts_from(data@));
                    return parts(&leaf.remainder, &data.remainder);
                },
                Node::Empty => {
                    return true;
                },
            }
        }
    }

    /// Puts `leaf` into the branch if the branch can take it, and says that it
    /// cannot if not; the branch is then as it was.
    pub fn try_insert(&mut self, leaf: Leaf<P>) -> (done: Result<(), InvalidBranchInsert>)
        ensures
            old(self)@.wf(),
            final(self)@.wf(),
            done is Ok <==> old(self)@.accepts(leaf@),
            done is Ok ==> final(self)@ == old(self)@.inserted(leaf@),
            done is Err ==> final(self)@ == old(self)@,
            old(self)@.committed() ==> final(self)@.committed(),
    {
        if self.accepts(&leaf) {
            self.insert(leaf);
            Ok(())
        } else {
            Err(InvalidBranchInsert)
        }
    }

    /// A copy of what the slot of `nibble` holds.
    pub fn get(&self, nibble: &Nibble) -> (node: Node<P>)
        ensures
            self@.wf(),
            node@ == self@.nibbles[*nibble as int],
    {
        proof {
            use_type_invariant(self);
        }
        self.nibbles[*nibble as usize].clone()
    }

    /// The depth of the branch: 0 to 31, or 32 where it is out of range.
    pub fn get_layer(&self) -> (layer: u8)
        ensures
            layer == self@.layer,
    {
        self.layer.to_u8()
    }

    /// The digest of the branch.
    pub fn get_hash(&self) -> (hash: RootHash)
        ensures
            hash@ == self@.hash,
    {
        self.hash
    }

    /// Makes the digest of the branch anew: SHA-256 of the digests in its
    /// slots, in the order of the slots, empty slots left out.
    pub fn hash_nibbles(&mut self)
        ensures
            final(self)@ == (BranchView {
                layer: old(self)@.layer,
                nibbles: old(self)@.nibbles,
                hash: branch_digest(old(self)@.nibbles),
            }),
    {
        proof {
            use_type_invariant(&*self);
        }
        let mut concat: Vec<u8> = Vec::new();
        let mut i: usize = 0;
        while i < self.nibbles.len()
            invariant
                self.model().wf(),
                i <= self.nibbles.len(),
                concat@ == concat_hashes(self.model().nibbles, i as nat),
            decreases self.nibbles.len() - i,
        {
            match &self.nibbles[i] {
                Node::Data { hash, .. } => {
                    push_hash(&mut concat, hash);
                },
                Node::Fork { hash, .. } => {
                    push_hash(&mut concat, hash);
                },
                Node::Empty => {
                    assert(concat@ + Seq::<u8>::empty() =~= concat@);
                },
            }
            i += 1;
        }
        self.hash = Sha256Algorithm::hash(concat.as_slice());
    }
}

impl<P: Payload> Fork<P> {
    /// A fork under `nibble` over an empty branch at `layer`.
    pub fn new(nibble: Nibble, layer: Layer) -> (fork: Fork<P>)
        ensures
            fork@ == (ForkView { nibble, next: BranchView::empty(layer.index()) }),
    {
        Fork { nibble, next: Box::new(Branch::new(layer)) }
    }

    /// A copy of the branch of the fork.
    pub fn get_next(&self) -> (next: Branch<P>)
        ensures
            next@ == self@.next,
    {
        (*self.next).clone()
    }

    /// The branch of the fork.
    pub fn next(&self) -> (next: &Branch<P>)
        ensures
            next@ == self@.next,
            next@.wf(),
    {
        proof {
            use_type_invariant(&*self.next);
        }
        &*self.next
    }

    /// The digest of the fork: SHA-256 of the digest of its branch.
    pub fn get_hash(&self) -> (hash: RootHash)
        ensures
            hash@ == self@.digest(),
    {
        let below: RootHash = self.next.get_hash();
        Sha256Algorithm::hash(below.as_slice())
    }

    /// Puts `leaf`, as it is, into the branch of the fork.
    pub fn insert(&mut self, leaf: Leaf<P>)
        requires
            old(self)@.next.accepts(leaf@),
        ensures
            final(self)@ == (ForkView {
                nibble: old(self)@.nibble,
                next: old(self)@.next.inserted(leaf@),
            }),
            old(self)@.next.wf(),
            final(self)@.next.wf(),
            old(self)@.next.committed() ==> final(self)@.next.committed(),
        decreases old(self)@,
    {
        self.next.insert(leaf);
    }

    /// A copy of what the slot of `index` holds in the branch of the fork.
    pub fn get(&self, index: &u8) -> (node: Node<P>)
        ensures
            self@.next.wf(),
            node@ == self@.next.nibbles[*index as int],
    {
        self.next.get(index)
    }

    /// The fork that takes the place of two leaves that met in one slot of a
    /// branch at depth `i.2`. Both leaves go one layer down; where they meet
    /// again, a fork takes their place there in the same way.
    pub fn from(i: (Leaf<P>, Leaf<P>, usize)) -> (fork: Fork<P>)
        requires
            i.0@.parts_from(i.1@),
        ensures
            fork@ == ForkView::split(i.0@, i.1@, i.2 as nat),
            fork@.next.wf(),
        decreases i.0@.remainder.len() + i.1@.remainder.len(),
    {
        let (first, second, layer) = i;
        let nibble: u8 = first.nibble;
        let below: usize = if layer < 32 {
            layer + 1
        } else {
            32
        };
        let ghost k = choose|k: int|
            0 <= k < first@.remainder.len() && k < second@.remainder.len() && first@.remainder[k]
                != second@.remainder[k];
        let a = first.deeper();
        let b = second.deeper();
        let mut next: Branch<P> = Branch::new(Layer::from(below));
        let ghost empty = next;
        let a_index: usize = a.nibble as usize;
        let b_index: usize = b.nibble as usize;
        if a_index == b_index {
            proof {
                assert(k > 0);
                assert(b@.remainder[k - 1] != a@.remainder[k - 1]);
            }
            let fork = Fork::from((b, a, below));
            let hash = fork.get_hash();
            let node = Node::Fork { fork, hash };
            proof {
                lemma_split_wf(b@, a@, below as nat);
                assert forall|after: Branch<P>|
                    after.layer == empty.layer && after.nibbles@ == empty.nibbles@.update(
                        a_index as int,
                        node,
                    ) implies #[trigger] after.model().wf() by {
                    lemma_exchanged(empty, after, a_index as int, node);
                }
            }
            exchange(&mut next.nibbles, a_index, node);
            proof {
                lemma_exchanged(empty, next, a_index as int, node);
            }
        } else {
            let a_hash = a.get_hash();
            let b_hash = b.get_hash();
            let a_node = Node::Data { data: a, hash: a_hash };
            let b_node = Node::Data { data: b, hash: b_hash };
            proof {
                assert forall|after: Branch<P>|
                    after.layer == empty.layer && after.nibbles@ == empty.nibbles@.update(
                        a_index as int,
                        a_node,
                    ) implies #[trigger] after.model().wf() by {
                    lemma_exchanged(empty, after, a_index as int, a_node);
                }
            }
            exchange(&mut next.nibbles, a_index, a_node);
            let ghost one = next;
            proof {
                lemma_exchanged(empty, one, a_index as int, a_node);
                assert forall|after: Branch<P>|
                    after.layer == one.layer && after.nibbles@ == one.nibbles@.update(
                        b_index as int,
                        b_node,
                    ) implies #[trigger] after.model().wf() by {
                    lemma_exchanged(one, after, b_index as int, b_node);
                }
            }
            exchange(&mut next.nibbles, b_index, b_node);
            proof {
                lemma_exchanged(one, next, b_index as int, b_node);
            }
        }
        assert(next.model().nibbles =~= ForkView::split(i.0@, i.1@, i.2 as nat).next.nibbles);
        next.hash_nibbles();
        proof {
            use_type_invariant(&next);
        }
        Fork { nibble, next: Box::new(next) }
    }
}

/// One step of the walk over the leaves of `branch`, depth first: the next
/// leaf, if one is left, and `path` moved behind it. `path` is read and
/// changed from `depth` on.
fn step<P: Payload>(branch: &Branch<P>, path: &mut Vec<usize>, depth: usize) -> (found: Option<
    Node<P>,
>)
    requires
        on_path(branch@, old(path)@, depth as nat),
    ensures
        on_path(branch@, final(path)@, depth as nat),
        final(path)@.take(depth as int) == old(path)@.take(depth as int),
        final(path)@[depth as int] >= old(path)@[depth as int],
        match found {
            Some(node) => node@ is Data && left_on_path(branch@, old(path)@, depth as nat) == seq![
                node@,
            ] + left_on_path(branch@, final(path)@, depth as nat),
            None => {
                &&& left_on_path(branch@, old(path)@, depth as nat).len() == 0
                &&& left_on_path(branch@, final(path)@, depth as nat).len() == 0
                &&& final(path)@.len() == depth + 1
            },
        },
    decreases branch@,
{
    let ghost start = path@;
    let ghost all = left_on_path(branch@, start, depth as nat);
    let len: usize = path.len();
    let below: usize = depth + 1;
    if len > below {
        let at: usize = path[depth] - 1;
        match branch.slot(at) {
            Node::Fork { fork, .. } => {
                let found = step(fork.next(), path, below);
                assert(path@[depth as int] == start[depth as int]) by {
                    assert(path@.take(depth + 1)[depth as int] == start.take(depth + 1)[depth as int]);
                }
                assert(path@.take(depth as int) =~= path@.take(depth + 1).take(depth as int));
                assert(start.take(depth as int) =~= start.take(depth + 1).take(depth as int));
                match found {
                    Some(node) => {
                        assert(all =~= seq![node@] + left_on_path(branch@, path@, depth as nat));
                        return Some(node);
                    },
                    None => {
                        path.pop();
                        assert(all =~= entries_from(branch@.nibbles, path@[depth as int] as nat));
                    },
                }
            },
            _ => {
                assert(false);
            },
        }
    }
    assert(all =~= entries_from(branch@.nibbles, path@[depth as int] as nat));
    loop
        invariant
            below == depth + 1,
            start == old(path)@,
            depth < start.len(),
            all == left_on_path(branch@, start, depth as nat),
            path@.len() == depth + 1,
            branch@.wf(),
            path@[depth as int] <= 256,
            path@[depth as int] >= start[depth as int],
            path@.take(depth as int) == start.take(depth as int),
            all == entries_from(branch@.nibbles, path@[depth as int] as nat),
        decreases 256 - path@[depth as int],
    {
        let at: usize = path[depth];
        if at >= 256 {
            assert(left_on_path(branch@, path@, depth as nat) =~= all);
            return None;
        }
        let ghost before = path@;
        path.set(depth, at + 1);
        assert(path@.take(depth as int) =~= before.take(depth as int));
        let node = branch.slot(at);
        assert(all == node@.entries() + entries_from(branch@.nibbles, (at + 1) as nat));
        match node {
            Node::Data { .. } => {
                assert(left_on_path(branch@, path@, depth as nat) =~= entries_from(
                    branch@.nibbles,
                    (at + 1) as nat,
                ));
                assert(all =~= seq![node@] + left_on_path(branch@, path@, depth as nat));
                return Some(node.clone());
            },
            Node::Fork { fork, .. } => {
                let ghost shorter = path@;
                path.push(0);
                let ghost longer = path@;
                assert(fork.model().next.wf());
                assert(left_on_path(fork.model().next, longer, (depth + 1) as nat) =~= entries_from(
                    fork.model().next.nibbles,
                    0,
                ));
                let found = step(fork.next(), path, below);
                assert(path@[depth as int] == longer[depth as int]) by {
                    assert(path@.take(depth + 1)[depth as int] == longer.take(depth + 1)[depth as int]);
                }
                assert(path@.take(depth as int) =~= path@.take(depth + 1).take(depth as int));
                assert(longer.take(depth as int) =~= longer.take(depth + 1).take(depth as int));
                assert(longer.take(depth as int) =~= shorter.take(depth as int));
                match found {
                    Some(node) => {
                        assert(all =~= seq![node@] + left_on_path(branch@, path@, depth as nat));
                        return Some(node);
                    },
                    None => {
                        path.pop();
                        assert(path@.take(depth as int) =~= shorter.take(depth as int));
                    },
                }
            },
            Node::Empty => {
                assert(branch@.nibbles[at as int].entries() =~= Seq::<NodeView>::empty());
                assert(all =~= entries_from(branch@.nibbles, (at + 1) as nat));
            },
        }
    }
}

/// The number of leaves that a walk over `branch` has still to come to from
/// the place that `path` marks.
fn count_left<P: Payload>(branch: &Branch<P>, path: &mut Vec<usize>) -> (number: usize)
    requires
        on_path(branch@, old(path)@, 0),
        left_on_path(branch@, old(path)@, 0).len() <= usize::MAX,
    ensures
        number == left_on_path(branch@, old(path)@, 0).len(),
{
    let ghost all = left_on_path(branch@, path@, 0).len();
    let mut number: usize = 0;
    loop
        invariant
            all == left_on_path(branch@, old(path)@, 0).len(),
            on_path(branch@, path@, 0),
            number + left_on_path(branch@, path@, 0).len() == all,
            all <= usize::MAX,
        decreases left_on_path(branch@, path@, 0).len(),
    {
        match step(branch, path, 0) {
            Some(_) => {
                number += 1;
            },
            None => {
                return number;
            },
        }
    }
}

impl<P: Payload> BranchIntoIter<P> {
    /// The walk is at a place in its branch; only while it takes a step does
    /// it hold no place.
    #[verifier::type_invariant]
    spec fn well_formed(&self) -> bool {
        self.path@.len() == 0 || on_path(self.branch@, self.path@, 0)
    }

    /// The leaves that the walk has still to come to, each as the node that
    /// holds it, in the order in which it comes to them.
    pub closed spec fn remaining(&self) -> Seq<NodeView> {
        left_on_path(self.branch@, self.path@, 0)
    }

    /// The next leaf of the branch, as a copy of the node that holds it, or
    /// nothing when the walk has come to all of them.
    pub fn next(&mut self) -> (node: Option<Node<P>>)
        ensures
            match node {
                Some(node) => {
                    &&& node@ is Data
                    &&& old(self).remaining() == seq![node@] + final(self).remaining()
                },
                None => old(self).remaining().len() == 0 && final(self).remaining().len() == 0,
            },
    {
        proof {
            use_type_invariant(&*self);
        }
        if self.path.len() == 0 {
            return None;
        }
        let mut path: Vec<usize> = Vec::new();
        core::mem::swap(&mut self.path, &mut path);
        let found = step(&self.branch, &mut path, 0);
        core::mem::swap(&mut self.path, &mut path);
        found
    }

    /// The number of leaves that the walk has still to come to.
    pub fn count(self) -> (number: usize)
        requires
            self.remaining().len() <= usize::MAX,
        ensures
            number == self.remaining().len(),
    {
        proof {
            use_type_invariant(&self);
        }
        if self.path.len() == 0 {
            return 0;
        }
        let mut path = self.path;
        count_left(&self.branch, &mut path)
    }
}

impl<'a, P: Payload> BranchIterator<'a, P> {
    /// The walk is at a place in its branch; only while it takes a step does
    /// it hold no place.
    #[verifier::type_invariant]
    spec fn well_formed(&self) -> bool {
        self.path@.len() == 0 || on_path(self.branch@, self.path@, 0)
    }

    /// The leaves that the walk has still to come to, each as the node that
    /// holds it, in the order in which it comes to them.
    pub closed spec fn remaining(&self) -> Seq<NodeView> {
        left_on_path(self.branch@, self.path@, 0)
    }

    /// The next leaf of the branch, as a copy of the node that holds it, or
    /// nothing when the walk has come to all of them.
    pub fn next(&mut self) -> (node: Option<Node<P>>)
        ensures
            match node {
                Some(node) => {
                    &&& node@ is Data
                    &&& old(self).remaining() == seq![node@] + final(self).remaining()
                },
                None => old(self).remaining().len() == 0 && final(self).remaining().len() == 0,
            },
    {
        proof {
            use_type_invariant(&*self);
        }
        if self.path.len() == 0 {
            return None;
        }
        let mut path: Vec<usize> = Vec::new();
        core::mem::swap(&mut self.path, &mut path);
        let found = step(self.branch, &mut path, 0);
        core::mem::swap(&mut self.path, &mut path);
        found
    }

    /// The number of leaves that the walk has still to come to.
    pub fn count(self) -> (number: usize)
        requires
            self.remaining().len() <= usize::MAX,
        ensures
            number == self.remaining().len(),
    {
        proof {
            use_type_invariant(&self);
        }
        if self.path.len() == 0 {
            return 0;
        }
        let mut path = self.path;
        count_left(self.branch, &mut path)
    }
}

impl<P: Payload> ForkIntoIterator<P> {
    /// The walk is at a place in its branch; only while it takes a step does
    /// it hold no place.
    #[verifier::type_invariant]
    spec fn well_formed(&self) -> bool {
        self.path@.len() == 0 || on_path(self.fork@.next, self.path@, 0)
    }

    /// The leaves that the walk has still to come to, each as the node that
    /// holds it, in the order in which it comes to them.
    pub closed spec fn remaining(&self) -> Seq<NodeView> {
        left_on_path(self.fork@.next, self.path@, 0)
    }

    /// The next leaf of the fork, as a copy of the node that holds it, or
    /// nothing when the walk has come to all of them.
    pub fn next(&mut self) -> (node: Option<Node<P>>)
        ensures
            match node {
                Some(node) => {
                    &&& node@ is Data
                    &&& old(self).remaining() == seq![node@] + final(self).remaining()
                },
                None => old(self).remaining().len() == 0 && final(self).remaining().len() == 0,
            },
    {
        proof {
            use_type_invariant(&*self);
        }
        if self.path.len() == 0 {
            return None;
        }
        let mut path: Vec<usize> = Vec::new();
        core::mem::swap(&mut self.path, &mut path);
        let found = step(self.fork.next(), &mut path, 0);
        core::mem::swap(&mut self.path, &mut path);
        found
    }

    /// The number of leaves that the walk has still to come to.
    pub fn count(self) -> (number: usize)
        requires
            self.remaining().len() <= usize::MAX,
        ensures
            number == self.remaining().len(),
    {
        proof {
            use_type_invariant(&self);
        }
        if self.path.len() == 0 {
            return 0;
        }
        let mut path = self.path;
        count_left(self.fork.next(), &mut path)
    }
}

impl<'a, P: Payload> ForkIterator<'a, P> {
    /// The walk is at a place in its branch; only while it takes a step does
    /// it hold no place.
    #[verifier::type_invariant]
    spec fn well_formed(&self) -> bool {
        self.path@.len() == 0 || on_path(self.fork@.next, self.path@, 0)
    }

    /// The leaves that the walk has still to come to, each as the node that
    /// holds it, in the order in which it comes to them.
    pub closed spec fn remaining(&self) -> Seq<NodeView> {
        left_on_path(self.fork@.next, self.path@, 0)
    }

    /// The next leaf of the fork, as a copy of the node that holds it, or
    /// nothing when the walk has come to all of them.
    pub fn next(&mut self) -> (node: Option<Node<P>>)
        ensures
            match node {
                Some(node) => {
                    &&& node@ is Data
                    &&& old(self).remaining() == seq![node@] + final(self).remaining()
                },
                None => old(self).remaining().len() == 0 && final(self).remaining().len() == 0,
            },
    {
        proof {
            use_type_invariant(&*self);
        }
        if self.path.len() == 0 {
            return None;
        }
        let mut path: Vec<usize> = Vec::new();
        core::mem::swap(&mut self.path, &mut path);
        let found = step(self.fork.next(), &mut path, 0);
        core::mem::swap(&mut self.path, &mut path);
        found
    }

    /// The number of leaves that the walk has still to come to.
    pub fn count(self) -> (number: usize)
        requires
            self.remaining().len() <= usize::MAX,
        ensures
            number == self.remaining().len(),
    {
        proof {
            use_type_invariant(&self);
        }
        if self.path.len() == 0 {
            return 0;
        }
        let mut path = self.path;
        count_left(self.fork.next(), &mut path)
    }
}

impl<P: Payload> Branch<P> {
    /// A walk over the leaves of the branch, depth first: slot by slot, and
    /// below a fork all of its leaves before the next slot.
    pub fn iter(&self) -> (walk: BranchIterator<'_, P>)
        ensures
            walk.remaining() == self@.entries(),
    {
        proof {
            use_type_invariant(self);
        }
        let mut path: Vec<usize> = Vec::new();
        path.push(0);
        let walk = BranchIterator { branch: self, path };
        assert(walk.remaining() =~= self@.entries());
        walk
    }

    /// A walk over the leaves of the branch, which it takes with it.
    pub fn into_iter(self) -> (walk: BranchIntoIter<P>)
        ensures
            walk.remaining() == self@.entries(),
    {
        proof {
            use_type_invariant(&self);
        }
        let mut path: Vec<usize> = Vec::new();
        path.push(0);
        let walk = BranchIntoIter { branch: self, path };
        assert(walk.remaining() =~= self@.entries());
        walk
    }
}

impl<P: Payload> Fork<P> {
    /// A walk over the leaves below the fork, depth first.
    pub fn iter(&self) -> (walk: ForkIterator<'_, P>)
        ensures
            walk.remaining() == self@.next.entries(),
    {
        proof {
            use_type_invariant(&*self.next);
        }
        let mut path: Vec<usize> = Vec::new();
        path.push(0);
        let walk = ForkIterator { fork: self, path };
        assert(walk.remaining() =~= self@.next.entries());
        walk
    }

    /// A walk over the leaves below the fork, which it takes with it.
    pub fn into_iter(self) -> (walk: ForkIntoIterator<P>)
        ensures
            walk.remaining() == self@.next.entries(),
    {
        proof {
            use_type_invariant(&*self.next);
        }
        let mut path: Vec<usize> = Vec::new();
        path.push(0);
        let walk = ForkIntoIterator { fork: self, path };
        assert(walk.remaining() =~= self@.next.entries());
        walk
    }
}

/// Whether two digests are the same.
fn same_hash(first: &RootHash, second: &RootHash) -> (yes: bool)
    ensures
        yes == (first@ == second@),
{
    let mut i: usize = 0;
    while i < 32
        invariant
            i <= 32,
            forall|k: int| 0 <= k < i ==> first@[k] == second@[k],
        decreases 32 - i,
    {
        if first[i] != second[i] {
            return false;
        }
        i += 1;
    }
    assert(first@ =~= second@);
    true
}

/// Two leaves are equal if their digests are.
impl<P: Payload> PartialEq for Leaf<P> {
    fn eq(&self, other: &Leaf<P>) -> (equal: bool) {
        same_hash(&self.get_hash(), &other.get_hash())
    }
}

impl<P: Payload> PartialEqSpecImpl for Leaf<P> {
    open spec fn obeys_eq_spec() -> bool {
        true
    }

    open spec fn eq_spec(&self, other: &Leaf<P>) -> bool {
        self@.digest() == other@.digest()
    }
}

impl<P: Payload> Eq for Leaf<P> {

}

/// Two forks are equal if their digests are.
impl<P: Payload> PartialEq for Fork<P> {
    fn eq(&self, other: &Fork<P>) -> (equal: bool) {
        same_hash(&self.get_hash(), &other.get_hash())
    }
}

impl<P: Payload> PartialEqSpecImpl for Fork<P> {
    open spec fn obeys_eq_spec() -> bool {
        true
    }

    open spec fn eq_spec(&self, other: &Fork<P>) -> bool {
        self@.digest() == other@.digest()
    }
}

impl<P: Payload> Eq for Fork<P> {

}

/// Two branches are equal if their digests are.
impl<P: Payload> PartialEq for Branch<P> {
    fn eq(&self, other: &Branch<P>) -> (equal: bool) {
        same_hash(&self.hash, &other.hash)
    }
}

impl<P: Payload> PartialEqSpecImpl for Branch<P> {
    open spec fn obeys_eq_spec() -> bool {
        true
    }

    open spec fn eq_spec(&self, other: &Branch<P>) -> bool {
        self@.hash == other@.hash
    }
}

impl<P: Payload> Eq for Branch<P> {

}

/// Two roots are equal if their digests are.
impl<P: Payload> PartialEq for Root<P> {
    fn eq(&self, other: &Root<P>) -> (equal: bool) {
        same_hash(&self.hash, &other.hash)
    }
}

impl<P: Payload> PartialEqSpecImpl for Root<P> {
    open spec fn obeys_eq_spec() -> bool {
        true
    }

    open spec fn eq_spec(&self, other: &Root<P>) -> bool {
        self@.hash == other@.hash
    }
}

impl<P: Payload> Eq for Root<P> {

}

} // verus!
