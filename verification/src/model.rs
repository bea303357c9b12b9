//! The trie as a mathematical value: what the contracts of the library speak of.

use crate::hash::sha256;
use crate::layer::Layer;
use vstd::prelude::*;

verus! {

/// A leaf: an address, the canonical bytes of its payload, the byte under which
/// it sits in its branch, and the bytes that are left to tell it from others.
pub struct LeafView {
    pub nibble: u8,
    pub address: Seq<u8>,
    pub remainder: Seq<u8>,
    pub payload: Seq<u8>,
}

/// What a slot of a branch holds.
pub enum NodeView {
    Data { data: LeafView, hash: Seq<u8> },
    Fork { fork: ForkView, hash: Seq<u8> },
    Empty,
}

/// A fork: the byte that its entries share, and the branch one layer down.
pub struct ForkView {
    pub nibble: u8,
    pub next: BranchView,
}

/// A branch: its depth, its 256 slots and its digest.
pub struct BranchView {
    pub layer: nat,
    pub nibbles: Seq<NodeView>,
    pub hash: Seq<u8>,
}

/// The root: the branch at the top, and a digest over the digest of that branch.
pub struct RootView {
    pub next: BranchView,
    pub hash: Seq<u8>,
}

/// Whether two byte sequences differ at a place that both have.
pub open spec fn differ(first: Seq<u8>, second: Seq<u8>) -> bool {
    exists|k: int| 0 <= k < first.len() && k < second.len() && first[k] != second[k]
}

impl LeafView {
    /// The leaf for the top of a trie: it sits under the first byte of its
    /// address, and the other bytes of the address are its remainder.
    pub open spec fn new(address: Seq<u8>, payload: Seq<u8>) -> LeafView {
        LeafView { nibble: address[0], address, remainder: address.skip(1), payload }
    }

    /// The digest of a leaf: that of its address followed by its payload.
    pub open spec fn digest(self) -> Seq<u8> {
        sha256(self.address + self.payload)
    }

    /// The leaf one layer down: the first byte of the remainder becomes the
    /// byte under which it sits.
    pub open spec fn deeper(self) -> LeafView
        recommends
            self.remainder.len() > 0,
    {
        LeafView {
            nibble: self.remainder[0],
            address: self.address,
            remainder: self.remainder.skip(1),
            payload: self.payload,
        }
    }

    /// The address and the payload bytes of the leaf.
    pub open spec fn entry(self) -> (Seq<u8>, Seq<u8>) {
        (self.address, self.payload)
    }

    /// Whether the leaf is in step with its address: the remainder is the end
    /// of the address, and the nibble is the byte just before it.
    pub open spec fn consistent(self) -> bool {
        &&& self.address.len() == 32
        &&& self.remainder.len() < 32
        &&& self.remainder == self.address.skip(32 - self.remainder.len())
        &&& self.nibble == self.address[31 - self.remainder.len()]
    }

    /// Whether the remainders of two leaves differ at a place that both have.
    pub open spec fn parts_from(self, other: LeafView) -> bool {
        differ(self.remainder, other.remainder)
    }
}

impl NodeView {
    /// The digest that the slot carries, if it holds anything.
    pub open spec fn hash(self) -> Option<Seq<u8>> {
        match self {
            NodeView::Data { hash, .. } => Some(hash),
            NodeView::Fork { hash, .. } => Some(hash),
            NodeView::Empty => None,
        }
    }

    /// The bytes that the slot adds to the digest of its branch.
    pub open spec fn hash_bytes(self) -> Seq<u8> {
        match self {
            NodeView::Data { hash, .. } => hash,
            NodeView::Fork { hash, .. } => hash,
            NodeView::Empty => Seq::empty(),
        }
    }

    /// The leaves below the slot, each as the node that holds it, depth first.
    pub open spec fn entries(self) -> Seq<NodeView>
        decreases self, 0nat,
    {
        match self {
            NodeView::Data { .. } => seq![self],
            NodeView::Fork { fork, .. } => fork.next.entries(),
            NodeView::Empty => Seq::empty(),
        }
    }

    /// The address and the payload bytes of the leaf that the node holds.
    pub open spec fn entry(self) -> (Seq<u8>, Seq<u8>)
        recommends
            self is Data,
    {
        match self {
            NodeView::Data { data, .. } => (data.address, data.payload),
            _ => (Seq::empty(), Seq::empty()),
        }
    }
}

/// The digests of the first `n` slots, those of empty slots left out, one
/// after the other.
pub open spec fn concat_hashes(nibbles: Seq<NodeView>, n: nat) -> Seq<u8>
    decreases n,
{
    if n == 0 {
        Seq::empty()
    } else {
        concat_hashes(nibbles, (n - 1) as nat) + nibbles[n - 1].hash_bytes()
    }
}

/// The leaves below the slots from `from` on, depth first: slot by slot, and
/// below a fork all of its leaves before the next slot.
pub open spec fn entries_from(nibbles: Seq<NodeView>, from: nat) -> Seq<NodeView>
    decreases nibbles, nibbles.len() - from,
{
    if from >= nibbles.len() {
        Seq::empty()
    } else {
        nibbles[from as int].entries() + entries_from(nibbles, from + 1)
    }
}

/// The addresses and payloads of a sequence of leaf nodes.
pub open spec fn pairs(nodes: Seq<NodeView>) -> Seq<(Seq<u8>, Seq<u8>)> {
    Seq::new(nodes.len(), |i: int| nodes[i].entry())
}

/// The digest of a branch with these slots.
pub open spec fn branch_digest(nibbles: Seq<NodeView>) -> Seq<u8> {
    sha256(concat_hashes(nibbles, nibbles.len()))
}

impl ForkView {
    /// The digest of a fork: that of the digest of its branch.
    pub open spec fn digest(self) -> Seq<u8> {
        sha256(self.next.hash)
    }

    /// The fork that takes the place of two leaves that met in one slot of a
    /// branch at depth `layer`: both go one layer down, and as long as they
    /// meet again, one more.
    pub open spec fn split(first: LeafView, second: LeafView, layer: nat) -> ForkView
        recommends
            first.parts_from(second),
        decreases first.remainder.len() + second.remainder.len(),
    {
        let a = first.deeper();
        let b = second.deeper();
        let empty = BranchView::empty(Layer::below(layer)).nibbles;
        let nibbles = if first.remainder.len() > 0 && second.remainder.len() > 0 && a.nibble
            == b.nibble {
            let fork = ForkView::split(b, a, Layer::below(layer));
            empty.update(a.nibble as int, NodeView::Fork { fork, hash: fork.digest() })
        } else {
            empty.update(a.nibble as int, NodeView::Data { data: a, hash: a.digest() }).update(
                b.nibble as int,
                NodeView::Data { data: b, hash: b.digest() },
            )
        };
        ForkView {
            nibble: first.nibble,
            next: BranchView { layer: Layer::below(layer), nibbles, hash: branch_digest(nibbles) },
        }
    }
}

impl BranchView {
    /// The branch at depth `layer` that holds nothing.
    pub open spec fn empty(layer: nat) -> BranchView {
        let nibbles = Seq::new(256, |i: int| NodeView::Empty);
        BranchView { layer, nibbles, hash: branch_digest(nibbles) }
    }

    /// The shape that every branch of a trie has: 256 slots, each leaf and each
    /// fork in the slot of its own byte, each fork over a branch one layer
    /// down that has this shape too.
    pub open spec fn wf(self) -> bool
        decreases self,
    {
        &&& self.nibbles.len() == 256
        &&& self.layer <= 32
        &&& forall|i: int|
            0 <= i < self.nibbles.len() ==> match #[trigger] self.nibbles[i] {
                NodeView::Data { data, hash } => data.nibble == i,
                NodeView::Fork { fork, hash } => {
                    &&& fork.nibble == i
                    &&& fork.next.layer == Layer::below(self.layer)
                    &&& fork.next.wf()
                },
                NodeView::Empty => true,
            }
    }

    /// Whether every digest in the branch is that of what lies below it.
    pub open spec fn committed(self) -> bool
        decreases self,
    {
        &&& self.hash == branch_digest(self.nibbles)
        &&& forall|i: int|
            0 <= i < self.nibbles.len() ==> match #[trigger] self.nibbles[i] {
                NodeView::Data { data, hash } => hash == data.digest(),
                NodeView::Fork { fork, hash } => hash == fork.digest() && fork.next.committed(),
                NodeView::Empty => true,
            }
    }

    /// Whether every leaf in the branch is in step with its address.
    pub open spec fn consistent(self) -> bool
        decreases self,
    {
        forall|i: int|
            0 <= i < self.nibbles.len() ==> match #[trigger] self.nibbles[i] {
                NodeView::Data { data, .. } => data.consistent(),
                NodeView::Fork { fork, .. } => fork.next.consistent(),
                NodeView::Empty => true,
            }
    }

    /// The leaves of the branch, each as the node that holds it, depth first.
    pub open spec fn entries(self) -> Seq<NodeView>
        decreases self, 0nat,
    {
        entries_from(self.nibbles, 0)
    }

    /// The walk along `nibbles` from place `index` on, one byte for each
    /// layer, where `seen` is the last fork that the walk went through, or
    /// empty. A fork takes the walk one layer down. A leaf ends it, and is
    /// what was found. An empty slot ends it too, and so does the end of
    /// `nibbles`: then `seen` is what was found. The result is the place where
    /// the walk ended, the byte there (the last byte after the end of
    /// `nibbles`, 0 if there is none), and what was found.
    pub open spec fn traverse(self, nibbles: Seq<u8>, index: nat, seen: NodeView) -> (
        nat,
        Option<u8>,
        NodeView,
    )
        decreases nibbles.len() - index,
    {
        if index >= nibbles.len() {
            let last = if nibbles.len() == 0 {
                0u8
            } else {
                nibbles.last()
            };
            (nibbles.len(), Some(last), seen)
        } else {
            let node = self.nibbles[nibbles[index as int] as int];
            match node {
                NodeView::Fork { fork, .. } => fork.next.traverse(nibbles, index + 1, node),
                NodeView::Data { .. } => (index, Some(nibbles[index as int]), node),
                NodeView::Empty => (index, Some(nibbles[index as int]), seen),
            }
        }
    }

    /// Whether the branch can take the leaf. Under its byte it finds, through
    /// any forks, an empty slot, or a leaf from which its remainder parts.
    pub open spec fn accepts(self, leaf: LeafView) -> bool
        decreases self,
        when self.nibbles.len() == 256
    {
        match self.nibbles[leaf.nibble as int] {
            NodeView::Data { data, .. } => leaf.parts_from(data),
            NodeView::Fork { fork, .. } => fork.next.accepts(leaf),
            NodeView::Empty => true,
        }
    }

    /// The branch with the leaf in it. An empty slot takes the leaf; a leaf
    /// that is there already makes room in a fork that holds both; a fork
    /// hands the leaf, as it is, to its branch. The digests on the way are
    /// made anew.
    pub open spec fn inserted(self, leaf: LeafView) -> BranchView
        recommends
            self.accepts(leaf),
        decreases self,
        when self.nibbles.len() == 256
    {
        let node = match self.nibbles[leaf.nibble as int] {
            NodeView::Data { data, .. } => {
                let fork = ForkView::split(leaf, data, self.layer);
                NodeView::Fork { fork, hash: fork.digest() }
            },
            NodeView::Fork { fork, .. } => {
                let fork = ForkView { nibble: fork.nibble, next: fork.next.inserted(leaf) };
                NodeView::Fork { fork, hash: fork.digest() }
            },
            NodeView::Empty => NodeView::Data { data: leaf, hash: leaf.digest() },
        };
        let nibbles = self.nibbles.update(leaf.nibble as int, node);
        BranchView { layer: self.layer, nibbles, hash: branch_digest(nibbles) }
    }
}

/// Whether `path`, from its place `depth` on, marks a place in the walk over
/// all leaves of a well-formed branch. `path[depth]` counts the slots of the
/// branch that the walk has entered. A longer path says that the last of them
/// holds a fork, and marks from `depth + 1` on a place in the branch of that
/// fork.
pub open spec fn on_path(branch: BranchView, path: Seq<usize>, depth: nat) -> bool
    decreases path.len() - depth,
{
    &&& depth < path.len()
    &&& branch.wf()
    &&& path[depth as int] <= 256
    &&& depth + 1 < path.len() ==> {
        &&& path[depth as int] >= 1
        &&& branch.nibbles[path[depth as int] - 1] matches NodeView::Fork { fork, .. }
        &&& on_path(fork.next, path, depth + 1)
    }
}

/// The leaves that the walk has still to come to from the place that `path`
/// marks from `depth` on: what is left below the fork that the walk is in, if
/// it is in one, and then the leaves of the slots not yet entered.
pub open spec fn left_on_path(branch: BranchView, path: Seq<usize>, depth: nat) -> Seq<NodeView>
    decreases path.len() - depth,
{
    if depth >= path.len() {
        Seq::empty()
    } else {
        let below = if depth + 1 < path.len() {
            match branch.nibbles[path[depth as int] - 1] {
                NodeView::Fork { fork, .. } => left_on_path(fork.next, path, depth + 1),
                _ => Seq::empty(),
            }
        } else {
            Seq::empty()
        };
        below + entries_from(branch.nibbles, path[depth as int] as nat)
    }
}

impl RootView {
    /// The root of a trie that holds nothing.
    pub open spec fn empty() -> RootView {
        let next = BranchView::empty(0);
        RootView { next, hash: sha256(next.hash) }
    }

    /// The shape of a root: a well-formed branch at depth 0.
    pub open spec fn wf(self) -> bool {
        self.next.wf() && self.next.layer == 0
    }

    /// Whether every digest in the trie is that of what lies below it.
    pub open spec fn committed(self) -> bool {
        self.hash == sha256(self.next.hash) && self.next.committed()
    }

    /// The walk along `nibbles` from the top of the trie.
    pub open spec fn traverse(self, nibbles: Seq<u8>) -> (nat, Option<u8>, NodeView) {
        self.next.traverse(nibbles, 0, NodeView::Empty)
    }

    /// The root with the leaf in its branch, and its digest made anew.
    pub open spec fn inserted(self, leaf: LeafView) -> RootView
        recommends
            self.next.accepts(leaf),
    {
        let next = self.next.inserted(leaf);
        RootView { next, hash: sha256(next.hash) }
    }

    /// The root after the leaves went in one by one, the first of them first.
    pub open spec fn inserted_all(self, leaves: Seq<LeafView>) -> RootView
        recommends
            self.takes(leaves),
        decreases leaves.len(),
    {
        if leaves.len() == 0 {
            self
        } else {
            self.inserted_all(leaves.drop_last()).inserted(leaves.last())
        }
    }

    /// Whether the trie can take the leaves one by one: each of them when
    /// those before it are in.
    pub open spec fn takes(self, leaves: Seq<LeafView>) -> bool
        decreases leaves.len(),
    {
        leaves.len() == 0 || (self.takes(leaves.drop_last()) && self.inserted_all(
            leaves.drop_last(),
        ).next.accepts(leaves.last()))
    }
}

} // verus!
