//! What holds of every trie: laws over the model, each proved from the
//! definitions that the contracts of the library use.

use crate::hash::sha256;
use crate::layer::Layer;
use crate::model::{
    branch_digest, concat_hashes, entries_from, pairs, BranchView, ForkView, LeafView, NodeView,
    RootView,
};
use vstd::prelude::*;

verus! {

/// The digests of empty slots add nothing.
pub proof fn lemma_concat_hashes_empty(nibbles: Seq<NodeView>, n: nat)
    requires
        n <= nibbles.len(),
        forall|i: int| 0 <= i < n ==> nibbles[i] == NodeView::Empty,
    ensures
        concat_hashes(nibbles, n) == Seq::<u8>::empty(),
    decreases n,
{
    if n > 0 {
        lemma_concat_hashes_empty(nibbles, (n - 1) as nat);
        assert(Seq::<u8>::empty() + Seq::<u8>::empty() =~= Seq::<u8>::empty());
    }
}

/// An empty branch is well formed down to the last layer and below, and its
/// digests are in order.
pub proof fn lemma_empty_wf(layer: nat)
    requires
        layer <= 32,
    ensures
        BranchView::empty(layer).wf(),
        BranchView::empty(layer).committed(),
        BranchView::empty(layer).hash == sha256(Seq::<u8>::empty()),
        forall|leaf: LeafView| BranchView::empty(layer).accepts(leaf),
{
    let empty = BranchView::empty(layer);
    lemma_concat_hashes_empty(empty.nibbles, 256);
    assert forall|leaf: LeafView| empty.accepts(leaf) by {
        assert(empty.nibbles[leaf.nibble as int] == NodeView::Empty);
    }
}

/// Two leaves that part still part one layer down, if they sit under one byte
/// there.
pub proof fn lemma_parts_deeper(first: LeafView, second: LeafView)
    requires
        first.parts_from(second),
    ensures
        second.parts_from(first),
        first.remainder.len() > 0,
        second.remainder.len() > 0,
        first.deeper().nibble == second.deeper().nibble ==> second.deeper().parts_from(
            first.deeper(),
        ),
{
    let k = choose|k: int|
        0 <= k < first.remainder.len() && k < second.remainder.len() && first.remainder[k]
            != second.remainder[k];
    assert(second.remainder[k] != first.remainder[k]);
    if first.deeper().nibble == second.deeper().nibble {
        assert(k > 0);
        assert(second.deeper().remainder[k - 1] != first.deeper().remainder[k - 1]);
    }
}

/// The fork made of two leaves that part is well formed, and its digests are
/// in order.
pub proof fn lemma_split_wf(first: LeafView, second: LeafView, layer: nat)
    requires
        first.parts_from(second),
    ensures
        ForkView::split(first, second, layer).nibble == first.nibble,
        ForkView::split(first, second, layer).next.layer == Layer::below(layer),
        ForkView::split(first, second, layer).next.wf(),
        ForkView::split(first, second, layer).next.committed(),
    decreases first.remainder.len() + second.remainder.len(),
{
    lemma_parts_deeper(first, second);
    let a = first.deeper();
    let b = second.deeper();
    let below = Layer::below(layer);
    let next = ForkView::split(first, second, layer).next;
    if a.nibble == b.nibble {
        lemma_split_wf(b, a, below);
        let fork = ForkView::split(b, a, below);
        assert forall|i: int| 0 <= i < next.nibbles.len() implies match #[trigger] next.nibbles[i] {
            NodeView::Data { data, hash } => data.nibble == i && hash == data.digest(),
            NodeView::Fork { fork, hash } => {
                &&& fork.nibble == i
                &&& fork.next.layer == Layer::below(next.layer)
                &&& fork.next.wf()
                &&& hash == fork.digest()
                &&& fork.next.committed()
            },
            NodeView::Empty => true,
        } by {
            if i == a.nibble as int {
                assert(next.nibbles[i] == (NodeView::Fork { fork, hash: fork.digest() }));
            } else {
                assert(next.nibbles[i] == NodeView::Empty);
            }
        }
    } else {
        assert forall|i: int| 0 <= i < next.nibbles.len() implies match #[trigger] next.nibbles[i] {
            NodeView::Data { data, hash } => data.nibble == i && hash == data.digest(),
            NodeView::Fork { fork, hash } => false,
            NodeView::Empty => true,
        } by {
            if i == b.nibble as int {
                assert(next.nibbles[i] == (NodeView::Data { data: b, hash: b.digest() }));
            } else if i == a.nibble as int {
                assert(next.nibbles[i] == (NodeView::Data { data: a, hash: a.digest() }));
            } else {
                assert(next.nibbles[i] == NodeView::Empty);
            }
        }
    }
}

/// A branch stays well formed when it takes a leaf.
pub proof fn lemma_inserted_wf(branch: BranchView, leaf: LeafView)
    requires
        branch.wf(),
        branch.accepts(leaf),
    ensures
        branch.inserted(leaf).wf(),
        branch.inserted(leaf).layer == branch.layer,
        branch.inserted(leaf).hash == branch_digest(branch.inserted(leaf).nibbles),
        forall|i: int|
            0 <= i < 256 && i != leaf.nibble ==> branch.inserted(leaf).nibbles[i]
                == branch.nibbles[i],
    decreases branch,
{
    let after = branch.inserted(leaf);
    let at = leaf.nibble as int;
    match branch.nibbles[at] {
        NodeView::Data { data, .. } => {
            lemma_split_wf(leaf, data, branch.layer);
        },
        NodeView::Fork { fork, .. } => {
            assert(fork.next.wf());
            lemma_inserted_wf(fork.next, leaf);
        },
        NodeView::Empty => {},
    }
    assert forall|i: int| 0 <= i < after.nibbles.len() implies match #[trigger] after.nibbles[i] {
        NodeView::Data { data, hash } => data.nibble == i,
        NodeView::Fork { fork, hash } => {
            &&& fork.nibble == i
            &&& fork.next.layer == Layer::below(after.layer)
            &&& fork.next.wf()
        },
        NodeView::Empty => true,
    } by {
        if i != at {
            assert(after.nibbles[i] == branch.nibbles[i]);
        }
    }
}

/// A branch whose digests are in order keeps them so when it takes a leaf.
pub proof fn lemma_inserted_committed(branch: BranchView, leaf: LeafView)
    requires
        branch.wf(),
        branch.accepts(leaf),
        branch.committed(),
    ensures
        branch.inserted(leaf).committed(),
    decreases branch,
{
    let after = branch.inserted(leaf);
    let at = leaf.nibble as int;
    match branch.nibbles[at] {
        NodeView::Data { data, .. } => {
            lemma_split_wf(leaf, data, branch.layer);
        },
        NodeView::Fork { fork, .. } => {
            assert(fork.next.wf());
            assert(fork.next.committed());
            lemma_inserted_committed(fork.next, leaf);
        },
        NodeView::Empty => {},
    }
    assert forall|i: int| 0 <= i < after.nibbles.len() implies match #[trigger] after.nibbles[i] {
        NodeView::Data { data, hash } => hash == data.digest(),
        NodeView::Fork { fork, hash } => hash == fork.digest() && fork.next.committed(),
        NodeView::Empty => true,
    } by {
        if i != at {
            assert(after.nibbles[i] == branch.nibbles[i]);
        }
    }
}

/// A trie that holds nothing has its branch at depth 0, every one of the 256
/// slots of that branch is empty, and its digests are in order.
pub proof fn lemma_empty_trie()
    ensures
        RootView::empty().next.layer == 0,
        RootView::empty().next.nibbles.len() == 256,
        forall|i: int| 0 <= i < 256 ==> RootView::empty().next.nibbles[i] == NodeView::Empty,
        RootView::empty().wf(),
        RootView::empty().committed(),
{
    lemma_empty_wf(0);
}

/// A leaf that is put into an empty slot of a branch is what that slot holds
/// afterwards, with the digest of the leaf; the other slots are as before.
pub proof fn lemma_insert_into_empty_slot(branch: BranchView, leaf: LeafView)
    requires
        branch.wf(),
        branch.nibbles[leaf.nibble as int] == NodeView::Empty,
    ensures
        branch.accepts(leaf),
        branch.inserted(leaf).nibbles[leaf.nibble as int] == (NodeView::Data {
            data: leaf,
            hash: leaf.digest(),
        }),
        forall|i: int|
            0 <= i < 256 && i != leaf.nibble ==> branch.inserted(leaf).nibbles[i]
                == branch.nibbles[i],
{
}

/// A leaf that is put into an empty trie is found in the slot of its nibble at
/// the top of the trie.
pub proof fn lemma_insert_into_empty_trie(leaf: LeafView)
    ensures
        RootView::empty().next.accepts(leaf),
        RootView::empty().inserted(leaf).next.nibbles[leaf.nibble as int] == (NodeView::Data {
            data: leaf,
            hash: leaf.digest(),
        }),
{
    lemma_empty_wf(0);
    lemma_insert_into_empty_slot(RootView::empty().next, leaf);
}

/// A leaf made for the top of a trie is in step with its address, and it is
/// found in the slot of the first byte of its address when it is put into a
/// trie that holds nothing: with that address, and with its payload.
pub proof fn lemma_round_trip(address: Seq<u8>, payload: Seq<u8>)
    requires
        address.len() == 32,
    ensures
        LeafView::new(address, payload).consistent(),
        RootView::empty().next.accepts(LeafView::new(address, payload)),
        RootView::empty().inserted(LeafView::new(address, payload)).next.nibbles[address[0] as int]
            == (NodeView::Data {
            data: LeafView::new(address, payload),
            hash: sha256(address + payload),
        }),
{
    lemma_insert_into_empty_trie(LeafView::new(address, payload));
}

/// Two leaves under one nibble whose remainders differ in their first byte:
/// the second is accepted after the first, and the slot of their nibble then
/// holds a fork. In the branch of that fork each of the two sits one layer
/// down, in the slot of the first byte of its remainder.
pub proof fn lemma_collision_forks(first: LeafView, second: LeafView, layer: nat)
    requires
        layer <= 32,
        first.nibble == second.nibble,
        first.remainder.len() > 0,
        second.remainder.len() > 0,
        first.remainder[0] != second.remainder[0],
    ensures
        BranchView::empty(layer).accepts(first),
        BranchView::empty(layer).inserted(first).accepts(second),
        ({
            let both = BranchView::empty(layer).inserted(first).inserted(second);
            &&& both.nibbles[first.nibble as int] matches NodeView::Fork { fork, hash }
            &&& hash == fork.digest()
            &&& fork.nibble == first.nibble
            &&& fork.next.layer == Layer::below(layer)
            &&& fork.next.nibbles[first.remainder[0] as int] == (NodeView::Data {
                data: first.deeper(),
                hash: first.deeper().digest(),
            })
            &&& fork.next.nibbles[second.remainder[0] as int] == (NodeView::Data {
                data: second.deeper(),
                hash: second.deeper().digest(),
            })
        }),
{
    lemma_empty_wf(layer);
    let empty = BranchView::empty(layer);
    lemma_insert_into_empty_slot(empty, first);
    let one = empty.inserted(first);
    lemma_inserted_wf(empty, first);
    assert(second.parts_from(first));
    assert(one.accepts(second));
    let fork = ForkView::split(second, first, layer);
    assert(one.inserted(second).nibbles[first.nibble as int] == (NodeView::Fork {
        fork,
        hash: fork.digest(),
    }));
}

/// The fork that takes the place of two leaves that part is a fork over the
/// branch that an empty branch one layer down becomes when it takes the two,
/// each moved one layer down, one after the other.
pub proof fn lemma_split_is_two_insertions(first: LeafView, second: LeafView, layer: nat)
    requires
        first.parts_from(second),
        layer <= 32,
    ensures
        BranchView::empty(Layer::below(layer)).accepts(first.deeper()),
        BranchView::empty(Layer::below(layer)).inserted(first.deeper()).accepts(second.deeper()),
        ForkView::split(first, second, layer).next == BranchView::empty(
            Layer::below(layer),
        ).inserted(first.deeper()).inserted(second.deeper()),
{
    let below = Layer::below(layer);
    let empty = BranchView::empty(below);
    let a = first.deeper();
    let b = second.deeper();
    lemma_parts_deeper(first, second);
    lemma_empty_wf(below);
    lemma_insert_into_empty_slot(empty, a);
    lemma_inserted_wf(empty, a);
    let one = empty.inserted(a);
    if a.nibble == b.nibble {
        assert(one.accepts(b));
        assert(one.inserted(b).nibbles =~= ForkView::split(first, second, layer).next.nibbles);
    } else {
        assert(one.nibbles[b.nibble as int] == NodeView::Empty);
        lemma_insert_into_empty_slot(one, b);
        assert(one.inserted(b).nibbles =~= ForkView::split(first, second, layer).next.nibbles);
    }
}

/// Two leaves made for the top of a trie whose addresses agree in the first
/// byte and differ in the second: when both are put into a trie that holds
/// nothing, the slot of the first byte holds a fork, and the branch of that
/// fork holds each of the two in the slot of the second byte of its address.
pub proof fn lemma_collision_forks_at_top(
    first: Seq<u8>,
    first_payload: Seq<u8>,
    second: Seq<u8>,
    second_payload: Seq<u8>,
)
    requires
        first.len() == 32,
        second.len() == 32,
        first[0] == second[0],
        first[1] != second[1],
    ensures
        RootView::empty().next.accepts(LeafView::new(first, first_payload)),
        RootView::empty().inserted(LeafView::new(first, first_payload)).next.accepts(
            LeafView::new(second, second_payload),
        ),
        ({
            let both = RootView::empty().inserted(LeafView::new(first, first_payload)).inserted(
                LeafView::new(second, second_payload),
            );
            &&& both.next.nibbles[first[0] as int] matches NodeView::Fork { fork, hash }
            &&& hash == fork.digest()
            &&& both.hash == sha256(both.next.hash)
            &&& fork.next.layer == 1
            &&& fork.next.nibbles[first[1] as int] matches NodeView::Data { data, hash }
            &&& data.address == first
            &&& data.payload == first_payload
            &&& hash == sha256(first + first_payload)
            &&& fork.next.nibbles[second[1] as int] matches NodeView::Data { data, hash }
            &&& data.address == second
            &&& data.payload == second_payload
            &&& hash == sha256(second + second_payload)
        }),
{
    lemma_collision_forks(
        LeafView::new(first, first_payload),
        LeafView::new(second, second_payload),
        0,
    );
}

/// A leaf that is in step with its address and has bytes left is in step one
/// layer down.
pub proof fn lemma_deeper_consistent(leaf: LeafView)
    requires
        leaf.consistent(),
        leaf.remainder.len() > 0,
    ensures
        leaf.deeper().consistent(),
        leaf.deeper().address == leaf.address,
        leaf.deeper().payload == leaf.payload,
{
    let below = leaf.deeper();
    assert(below.remainder =~= below.address.skip(32 - below.remainder.len()));
}

/// The fork made of two leaves that are in step with their addresses holds
/// them in step with their addresses.
pub proof fn lemma_split_consistent(first: LeafView, second: LeafView, layer: nat)
    requires
        first.parts_from(second),
        first.consistent(),
        second.consistent(),
    ensures
        ForkView::split(first, second, layer).next.consistent(),
    decreases first.remainder.len() + second.remainder.len(),
{
    lemma_parts_deeper(first, second);
    lemma_deeper_consistent(first);
    lemma_deeper_consistent(second);
    let a = first.deeper();
    let b = second.deeper();
    let next = ForkView::split(first, second, layer).next;
    if a.nibble == b.nibble {
        lemma_split_consistent(b, a, Layer::below(layer));
    }
    assert forall|i: int| 0 <= i < next.nibbles.len() implies match #[trigger] next.nibbles[i] {
        NodeView::Data { data, .. } => data.consistent(),
        NodeView::Fork { fork, .. } => fork.next.consistent(),
        NodeView::Empty => true,
    } by {
        if i != a.nibble && i != b.nibble {
            assert(next.nibbles[i] == NodeView::Empty);
        }
    }
}

/// A branch whose leaves are in step with their addresses keeps them so when
/// it takes a leaf that is.
pub proof fn lemma_inserted_consistent(branch: BranchView, leaf: LeafView)
    requires
        branch.wf(),
        branch.accepts(leaf),
        branch.consistent(),
        leaf.consistent(),
    ensures
        branch.inserted(leaf).consistent(),
    decreases branch,
{
    let after = branch.inserted(leaf);
    let at = leaf.nibble as int;
    match branch.nibbles[at] {
        NodeView::Data { data, .. } => {
            lemma_split_consistent(leaf, data, branch.layer);
        },
        NodeView::Fork { fork, .. } => {
            assert(fork.next.wf());
            lemma_inserted_consistent(fork.next, leaf);
        },
        NodeView::Empty => {},
    }
    assert forall|i: int| 0 <= i < after.nibbles.len() implies match #[trigger] after.nibbles[i] {
        NodeView::Data { data, .. } => data.consistent(),
        NodeView::Fork { fork, .. } => fork.next.consistent(),
        NodeView::Empty => true,
    } by {
        if i != at {
            assert(after.nibbles[i] == branch.nibbles[i]);
        }
    }
}

/// The digest of a leaf is a function of its address and of the bytes of its
/// payload: neither its nibble nor its remainder goes into it.
pub proof fn lemma_leaf_digest(first: LeafView, second: LeafView)
    requires
        first.address == second.address,
        first.payload == second.payload,
    ensures
        first.digest() == second.digest(),
        first.digest() == sha256(first.address + first.payload),
{
}

/// The digests that the first `n` slots carry, those of empty slots left out,
/// in the order of the slots.
pub open spec fn hashes_in_order(nibbles: Seq<NodeView>, n: nat) -> Seq<Seq<u8>>
    decreases n,
{
    if n == 0 {
        Seq::empty()
    } else {
        match nibbles[n - 1].hash() {
            Some(hash) => hashes_in_order(nibbles, (n - 1) as nat).push(hash),
            None => hashes_in_order(nibbles, (n - 1) as nat),
        }
    }
}

/// What is hashed for a branch is its digests in order, one after the other.
pub proof fn lemma_concat_is_flatten(nibbles: Seq<NodeView>, n: nat)
    requires
        n <= nibbles.len(),
    ensures
        concat_hashes(nibbles, n) == hashes_in_order(nibbles, n).flatten(),
    decreases n,
{
    if n == 0 {
        assert(hashes_in_order(nibbles, n).flatten() =~= Seq::<u8>::empty());
    } else {
        let before = (n - 1) as nat;
        lemma_concat_is_flatten(nibbles, before);
        match nibbles[n - 1].hash() {
            Some(hash) => {
                hashes_in_order(nibbles, before).lemma_flatten_push(hash);
            },
            None => {
                assert(concat_hashes(nibbles, before) + Seq::<u8>::empty() =~= concat_hashes(
                    nibbles,
                    before,
                ));
            },
        }
    }
}

/// The digest of a branch depends on nothing but the digests in its slots that
/// are not empty, and their order: two tables of slots with the same digests
/// in the same order have the same digest, wherever the empty slots lie.
pub proof fn lemma_branch_digest_of_hashes(first: Seq<NodeView>, second: Seq<NodeView>)
    requires
        hashes_in_order(first, first.len()) == hashes_in_order(second, second.len()),
    ensures
        branch_digest(first) == branch_digest(second),
{
    lemma_concat_is_flatten(first, first.len());
    lemma_concat_is_flatten(second, second.len());
}

/// Two leaves that go into two different empty slots of a branch give the same
/// branch, and so the same digest, in either order.
pub proof fn lemma_insert_order(branch: BranchView, first: LeafView, second: LeafView)
    requires
        branch.wf(),
        first.nibble != second.nibble,
        branch.nibbles[first.nibble as int] == NodeView::Empty,
        branch.nibbles[second.nibble as int] == NodeView::Empty,
    ensures
        branch.accepts(first),
        branch.accepts(second),
        branch.inserted(first).accepts(second),
        branch.inserted(second).accepts(first),
        branch.inserted(first).inserted(second) == branch.inserted(second).inserted(first),
        branch.inserted(first).inserted(second).hash == branch.inserted(second).inserted(
            first,
        ).hash,
{
    lemma_insert_into_empty_slot(branch, first);
    lemma_insert_into_empty_slot(branch, second);
    lemma_inserted_wf(branch, first);
    lemma_inserted_wf(branch, second);
    let one = branch.inserted(first).inserted(second);
    let other = branch.inserted(second).inserted(first);
    assert(one.nibbles =~= other.nibbles);
}

/// A walk ends at a place in the bytes it was given, or at their end.
pub proof fn lemma_traverse_ends(branch: BranchView, nibbles: Seq<u8>, index: nat, seen: NodeView)
    requires
        index <= nibbles.len(),
    ensures
        index <= branch.traverse(nibbles, index, seen).0 <= nibbles.len(),
        branch.traverse(nibbles, index, seen).1 is Some,
    decreases nibbles.len() - index,
{
    if index < nibbles.len() {
        match branch.nibbles[nibbles[index as int] as int] {
            NodeView::Fork { fork, hash } => {
                lemma_traverse_ends(
                    fork.next,
                    nibbles,
                    index + 1,
                    NodeView::Fork { fork, hash },
                );
            },
            _ => {},
        }
    }
}

/// A walk whose first byte leads to a leaf ends there at once, and that leaf is
/// what it finds.
pub proof fn lemma_traverse_finds_leaf(trie: RootView, nibbles: Seq<u8>)
    requires
        nibbles.len() > 0,
        trie.next.nibbles[nibbles[0] as int] is Data,
    ensures
        trie.traverse(nibbles) == (
            0nat,
            Some(nibbles[0]),
            trie.next.nibbles[nibbles[0] as int],
        ),
{
}

/// A walk that is given the address of the one leaf of a trie finds that leaf.
pub proof fn lemma_traverse_round_trip(address: Seq<u8>, payload: Seq<u8>)
    requires
        address.len() == 32,
    ensures
        RootView::empty().inserted(LeafView::new(address, payload)).traverse(address) == (
            0nat,
            Some(address[0]),
            NodeView::Data {
                data: LeafView::new(address, payload),
                hash: sha256(address + payload),
            },
        ),
{
    lemma_round_trip(address, payload);
    lemma_traverse_finds_leaf(RootView::empty().inserted(LeafView::new(address, payload)), address);
}

/// A walk over a trie that holds nothing ends at place 0 with an empty node,
/// whatever bytes it is given; the byte it reports is the first of them, or 0
/// if there is none.
pub proof fn lemma_traverse_empty(nibbles: Seq<u8>)
    ensures
        RootView::empty().traverse(nibbles) == (
            0nat,
            Some(
                if nibbles.len() == 0 {
                    0u8
                } else {
                    nibbles[0]
                },
            ),
            NodeView::Empty,
        ),
{
}

/// The leaves below the slots from `from` up to `to`, depth first.
pub open spec fn entries_between(nibbles: Seq<NodeView>, from: nat, to: nat) -> Seq<NodeView>
    decreases to - from,
{
    if from >= to || to > nibbles.len() {
        Seq::empty()
    } else {
        nibbles[from as int].entries() + entries_between(nibbles, from + 1, to)
    }
}

/// The leaves from one slot on are those up to a later slot, then those from
/// that slot on.
pub proof fn lemma_entries_split_at(nibbles: Seq<NodeView>, from: nat, to: nat)
    requires
        from <= to <= nibbles.len(),
    ensures
        entries_from(nibbles, from) == entries_between(nibbles, from, to) + entries_from(
            nibbles,
            to,
        ),
    decreases to - from,
{
    if from < to {
        lemma_entries_split_at(nibbles, from + 1, to);
        assert(entries_from(nibbles, from) =~= entries_between(nibbles, from, to) + entries_from(
            nibbles,
            to,
        ));
    } else {
        assert(entries_from(nibbles, from) =~= entries_between(nibbles, from, to) + entries_from(
            nibbles,
            to,
        ));
    }
}

/// The leaves between two slots depend on the slots between them alone.
pub proof fn lemma_entries_between_same(
    first: Seq<NodeView>,
    second: Seq<NodeView>,
    from: nat,
    to: nat,
)
    requires
        to <= first.len(),
        to <= second.len(),
        forall|i: int| from <= i < to ==> first[i] == second[i],
    ensures
        entries_between(first, from, to) == entries_between(second, from, to),
    decreases to - from,
{
    if from < to {
        lemma_entries_between_same(first, second, from + 1, to);
    }
}

/// The leaves from a slot on depend on the slots from there on alone.
pub proof fn lemma_entries_from_same(first: Seq<NodeView>, second: Seq<NodeView>, from: nat)
    requires
        first.len() == second.len(),
        forall|i: int| from <= i < first.len() ==> first[i] == second[i],
    ensures
        entries_from(first, from) == entries_from(second, from),
    decreases first.len() - from,
{
    if from < first.len() {
        lemma_entries_from_same(first, second, from + 1);
    }
}

/// Empty slots hold no leaves.
pub proof fn lemma_entries_of_empty_slots(nibbles: Seq<NodeView>, from: nat, to: nat)
    requires
        from <= to <= nibbles.len(),
        forall|i: int| from <= i < to ==> nibbles[i] == NodeView::Empty,
    ensures
        entries_between(nibbles, from, to) == Seq::<NodeView>::empty(),
    decreases to - from,
{
    if from < to {
        lemma_entries_of_empty_slots(nibbles, from + 1, to);
        assert(nibbles[from as int].entries() + Seq::<NodeView>::empty() =~= Seq::<
            NodeView,
        >::empty());
    }
}

/// The leaves of a table of slots in which one slot has got a new node: those
/// before the slot, those of the new node, and those behind the slot.
pub proof fn lemma_entries_update(nibbles: Seq<NodeView>, at: nat, node: NodeView)
    requires
        at < nibbles.len(),
    ensures
        entries_from(nibbles, 0) == entries_between(nibbles, 0, at) + nibbles[at as int].entries()
            + entries_from(nibbles, at + 1),
        entries_from(nibbles.update(at as int, node), 0) == entries_between(nibbles, 0, at)
            + node.entries() + entries_from(nibbles, at + 1),
{
    let changed = nibbles.update(at as int, node);
    lemma_entries_split_at(nibbles, 0, at);
    lemma_entries_split_at(changed, 0, at);
    lemma_entries_between_same(nibbles, changed, 0, at);
    lemma_entries_from_same(nibbles, changed, at + 1);
    assert(entries_from(nibbles, 0) =~= entries_between(nibbles, 0, at) + nibbles[at as int].entries()
        + entries_from(nibbles, at + 1));
    assert(entries_from(changed, 0) =~= entries_between(nibbles, 0, at) + node.entries()
        + entries_from(nibbles, at + 1));
}

/// Where the leaves of one slot get a new leaf at place `p`, the leaves of the
/// whole table get it at the place that lies as far behind the leaves before
/// that slot.
pub proof fn lemma_pairs_insert(
    before: Seq<NodeView>,
    old_part: Seq<NodeView>,
    new_part: Seq<NodeView>,
    behind: Seq<NodeView>,
    p: int,
    pair: (Seq<u8>, Seq<u8>),
)
    requires
        0 <= p <= old_part.len(),
        pairs(new_part) == pairs(old_part).insert(p, pair),
    ensures
        pairs(before + new_part + behind) == pairs(before + old_part + behind).insert(
            before.len() + p,
            pair,
        ),
{
    let left = pairs(before + new_part + behind);
    let right = pairs(before + old_part + behind).insert(before.len() + p, pair);
    assert(pairs(new_part).len() == old_part.len() + 1);
    assert(new_part.len() == old_part.len() + 1);
    assert(left.len() == right.len());
    assert forall|i: int| 0 <= i < left.len() implies left[i] == right[i] by {
        if i < before.len() {
        } else if i < before.len() + new_part.len() {
            let j = i - before.len();
            assert(left[i] == pairs(new_part)[j]);
            if j < p {
                assert(pairs(old_part).insert(p, pair)[j] == pairs(old_part)[j]);
            } else if j == p {
            } else {
                assert(pairs(old_part).insert(p, pair)[j] == pairs(old_part)[j - 1]);
            }
        } else {
        }
    }
    assert(left =~= right);
}

/// The fork made of two leaves that part holds these two leaves and no other,
/// in one order or the other.
pub proof fn lemma_split_entries(first: LeafView, second: LeafView, layer: nat)
    requires
        first.parts_from(second),
    ensures
        ({
            let found = pairs(ForkView::split(first, second, layer).next.entries());
            found == seq![first.entry(), second.entry()] || found == seq![
                second.entry(),
                first.entry(),
            ]
        }),
    decreases first.remainder.len() + second.remainder.len(),
{
    lemma_parts_deeper(first, second);
    let a = first.deeper();
    let b = second.deeper();
    let below = Layer::below(layer);
    let empty = BranchView::empty(below).nibbles;
    let next = ForkView::split(first, second, layer).next;
    let none = Seq::<NodeView>::empty();
    lemma_entries_of_empty_slots(empty, 0, 256);
    lemma_entries_split_at(empty, 0, 256);
    assert(entries_from(empty, 0) =~= none);
    if a.nibble == b.nibble {
        let fork = ForkView::split(b, a, below);
        let node = NodeView::Fork { fork, hash: fork.digest() };
        lemma_split_entries(b, a, below);
        lemma_entries_update(empty, a.nibble as nat, node);
        lemma_entries_of_empty_slots(empty, 0, a.nibble as nat);
        lemma_entries_of_empty_slots(empty, a.nibble as nat + 1, 256);
        lemma_entries_split_at(empty, a.nibble as nat + 1, 256);
        assert(entries_from(empty, a.nibble as nat + 1) =~= none);
        assert(next.entries() =~= fork.next.entries());
    } else {
        let a_node = NodeView::Data { data: a, hash: a.digest() };
        let b_node = NodeView::Data { data: b, hash: b.digest() };
        let one = empty.update(a.nibble as int, a_node);
        lemma_entries_update(empty, a.nibble as nat, a_node);
        lemma_entries_of_empty_slots(empty, 0, a.nibble as nat);
        lemma_entries_of_empty_slots(empty, a.nibble as nat + 1, 256);
        lemma_entries_split_at(empty, a.nibble as nat + 1, 256);
        assert(entries_from(empty, a.nibble as nat + 1) =~= none);
        assert(entries_from(one, 0) =~= seq![a_node]);
        lemma_entries_update(one, b.nibble as nat, b_node);
        let before = entries_between(one, 0, b.nibble as nat);
        let behind = entries_from(one, b.nibble as nat + 1);
        assert(one[b.nibble as int].entries() =~= none);
        assert(before + none + behind =~= seq![a_node]);
        assert(pairs(seq![b_node]) =~= pairs(none).insert(0, second.entry()));
        lemma_pairs_insert(before, none, seq![b_node], behind, 0, second.entry());
        assert(pairs(seq![a_node]) =~= seq![first.entry()]);
        let found = pairs(next.entries());
        assert(found == seq![first.entry()].insert(before.len() as int, second.entry()));
        if before.len() == 0 {
            assert(found =~= seq![second.entry(), first.entry()]);
        } else {
            assert(before.len() == 1);
            assert(found =~= seq![first.entry(), second.entry()]);
        }
    }
}

/// The leaves of a branch that has taken a leaf are those it had, with the new
/// one at some place `p` among them: none is lost, none is changed in address
/// or payload, none comes twice.
pub proof fn lemma_inserted_entries(branch: BranchView, leaf: LeafView) -> (p: int)
    requires
        branch.wf(),
        branch.accepts(leaf),
    ensures
        0 <= p <= branch.entries().len(),
        pairs(branch.inserted(leaf).entries()) == pairs(branch.entries()).insert(p, leaf.entry()),
    decreases branch,
{
    let at = leaf.nibble as nat;
    let after = branch.inserted(leaf);
    let node = after.nibbles[at as int];
    let none = Seq::<NodeView>::empty();
    lemma_entries_update(branch.nibbles, at, node);
    let before = entries_between(branch.nibbles, 0, at);
    let behind = entries_from(branch.nibbles, at + 1);
    let old_part = branch.nibbles[at as int].entries();
    let new_part = node.entries();
    let q: int;
    match branch.nibbles[at as int] {
        NodeView::Data { data, hash } => {
            lemma_split_entries(leaf, data, branch.layer);
            let found = pairs(new_part);
            assert(pairs(old_part) =~= seq![data.entry()]);
            if found == seq![leaf.entry(), data.entry()] {
                q = 0;
                assert(found =~= pairs(old_part).insert(0, leaf.entry()));
            } else {
                q = 1;
                assert(found =~= pairs(old_part).insert(1, leaf.entry()));
            }
        },
        NodeView::Fork { fork, hash } => {
            assert(fork.next.wf());
            q = lemma_inserted_entries(fork.next, leaf);
        },
        NodeView::Empty => {
            q = 0;
            assert(pairs(new_part) =~= pairs(old_part).insert(0, leaf.entry()));
        },
    }
    lemma_pairs_insert(before, old_part, new_part, behind, q, leaf.entry());
    before.len() + q
}

/// The number of leaves from a slot on: one for a leaf in that slot, the
/// number of leaves in its branch for a fork, none for an empty slot, and the
/// number of leaves from the next slot on.
pub proof fn lemma_entries_count(nibbles: Seq<NodeView>, from: nat)
    requires
        from < nibbles.len(),
    ensures
        entries_from(nibbles, from).len() == entries_from(nibbles, from + 1).len()
            + match nibbles[from as int] {
            NodeView::Data { .. } => 1nat,
            NodeView::Fork { fork, .. } => fork.next.entries().len(),
            NodeView::Empty => 0nat,
        },
{
    let node = nibbles[from as int];
    assert(entries_from(nibbles, from) == node.entries() + entries_from(nibbles, from + 1));
    match node {
        NodeView::Data { .. } => {
            assert(node.entries() =~= seq![node]);
        },
        NodeView::Fork { fork, .. } => {
            assert(node.entries() == fork.next.entries());
        },
        NodeView::Empty => {
            assert(node.entries() =~= Seq::<NodeView>::empty());
        },
    }
}

/// Every node among the leaves of a table of slots holds a leaf.
pub proof fn lemma_entries_are_data(nibbles: Seq<NodeView>, from: nat)
    ensures
        forall|i: int|
            0 <= i < entries_from(nibbles, from).len() ==> (#[trigger] entries_from(
                nibbles,
                from,
            )[i]) is Data,
    decreases nibbles, nibbles.len() - from,
{
    if from < nibbles.len() {
        lemma_entries_are_data(nibbles, from + 1);
        match nibbles[from as int] {
            NodeView::Fork { fork, .. } => {
                lemma_entries_are_data(fork.next.nibbles, 0);
            },
            _ => {},
        }
        let head = nibbles[from as int].entries();
        let tail = entries_from(nibbles, from + 1);
        assert forall|i: int| 0 <= i < entries_from(nibbles, from).len() implies (
        #[trigger] entries_from(nibbles, from)[i]) is Data by {
            if i < head.len() {
                assert(entries_from(nibbles, from)[i] == head[i]);
            } else {
                assert(entries_from(nibbles, from)[i] == tail[i - head.len()]);
            }
        }
    }
}

/// Leaves that a trie takes one by one are all in it afterwards, each once,
/// with its address and its payload, beside those that were in it before; the
/// trie is well formed, and its digests are in order if they were.
pub proof fn lemma_inserted_all(trie: RootView, leaves: Seq<LeafView>)
    requires
        trie.next.wf(),
        trie.takes(leaves),
    ensures
        trie.inserted_all(leaves).next.wf(),
        trie.inserted_all(leaves).next.layer == trie.next.layer,
        trie.committed() ==> trie.inserted_all(leaves).committed(),
        trie.inserted_all(leaves).next.entries().len() == trie.next.entries().len() + leaves.len(),
        pairs(trie.inserted_all(leaves).next.entries()).to_multiset() == pairs(
            trie.next.entries(),
        ).to_multiset().add(leaves.map_values(|leaf: LeafView| leaf.entry()).to_multiset()),
    decreases leaves.len(),
{
    broadcast use vstd::seq_lib::group_to_multiset_ensures;

    let entry = |leaf: LeafView| leaf.entry();
    if leaves.len() == 0 {
        assert(leaves.map_values(entry) =~= Seq::empty());
        assert(pairs(trie.next.entries()).to_multiset().add(
            Seq::<(Seq<u8>, Seq<u8>)>::empty().to_multiset(),
        ) =~= pairs(trie.next.entries()).to_multiset());
    } else {
        let most = leaves.drop_last();
        let last = leaves.last();
        lemma_inserted_all(trie, most);
        let before = trie.inserted_all(most);
        let after = before.inserted(last);
        lemma_inserted_wf(before.next, last);
        if before.next.committed() {
            lemma_inserted_committed(before.next, last);
        }
        let p = lemma_inserted_entries(before.next, last);
        let old_pairs = pairs(before.next.entries());
        let new_pairs = pairs(after.next.entries());
        assert(new_pairs.remove(p) =~= old_pairs);
        assert(new_pairs[p] == last.entry());
        assert(new_pairs.to_multiset() =~= old_pairs.to_multiset().insert(last.entry()));
        assert(leaves.map_values(entry) =~= most.map_values(entry).push(last.entry()));
        assert(new_pairs.to_multiset() =~= pairs(trie.next.entries()).to_multiset().add(
            leaves.map_values(entry).to_multiset(),
        ));
    }
}

/// Leaves that an empty trie takes one by one are its leaves afterwards: as
/// many as went in, each once, with its address and its payload.
pub proof fn lemma_entries_of_insertions(leaves: Seq<LeafView>)
    requires
        RootView::empty().takes(leaves),
    ensures
        RootView::empty().inserted_all(leaves).wf(),
        RootView::empty().inserted_all(leaves).committed(),
        RootView::empty().inserted_all(leaves).next.entries().len() == leaves.len(),
        pairs(RootView::empty().inserted_all(leaves).next.entries()).to_multiset()
            == leaves.map_values(|leaf: LeafView| leaf.entry()).to_multiset(),
{
    broadcast use vstd::seq_lib::group_to_multiset_ensures;

    lemma_empty_trie();
    let empty = RootView::empty();
    lemma_entries_of_empty_slots(empty.next.nibbles, 0, 256);
    lemma_entries_split_at(empty.next.nibbles, 0, 256);
    assert(empty.next.entries() =~= Seq::<NodeView>::empty());
    assert(pairs(empty.next.entries()) =~= Seq::empty());
    lemma_inserted_all(empty, leaves);
    let sent = leaves.map_values(|leaf: LeafView| leaf.entry()).to_multiset();
    assert(Seq::<(Seq<u8>, Seq<u8>)>::empty().to_multiset().add(sent) =~= sent);
}

} // verus!
