//! The trie: insertion, lookup of one slot, and the walk along a prefix.

use crate::model::{NodeView, RootView};
use crate::node::{Branch, BranchIntoIter, Leaf, Nibble, Node, Root};
use crate::payload::Payload;
use vstd::prelude::*;
use vstd::std_specs::cmp::PartialEqSpecImpl;

verus! {

/// Says that a trie could not take a leaf.
#[derive(Debug)]
pub struct InvalidInsertError;

impl InvalidInsertError {
    /// What went wrong, in words.
    pub fn description(&self) -> (text: &'static str)
        ensures
            text@ == "Unable to insert the node into the Trie"@,
    {
        "Unable to insert the node into the Trie"
    }

    /// What went wrong, in words, as a string of its own.
    pub fn to_string(&self) -> (text: String)
        ensures
            text@ == "Unable to insert the node into the Trie"@,
    {
        self.description().to_owned()
    }
}

/// A trie from 32-byte addresses to payloads, with a digest over all of it.
#[derive(Debug)]
pub struct Trie<P: Payload> {
    pub root: Box<Root<P>>,
}

/// A walk over the leaves of a trie that it owns, depth first.
#[derive(Debug)]
pub struct TrieIntoIter<P: Payload> {
    curr_branch: BranchIntoIter<P>,
}

impl<P: Payload> View for Trie<P> {
    type V = RootView;

    open spec fn view(&self) -> RootView {
        (*self.root)@
    }
}

/// What a walk has seen last: a fork, or nothing yet.
spec fn seen_view<P: Payload>(seen: Option<&Node<P>>) -> NodeView {
    match seen {
        Some(node) => node@,
        None => NodeView::Empty,
    }
}

/// A copy of what a walk has seen last.
fn seen_node<P: Payload>(seen: Option<&Node<P>>) -> (node: Node<P>)
    ensures
        node@ == seen_view(seen),
{
    match seen {
        Some(node) => node.clone(),
        None => Node::Empty,
    }
}

impl<P: Payload> Trie<P> {
    /// A trie that holds nothing.
    pub fn new() -> (trie: Trie<P>)
        ensures
            trie@ == RootView::empty(),
    {
        let root: Box<Root<P>> = Box::new(Root::default());
        Trie { root }
    }

    /// Walks from the top of the trie along `nibbles`, one byte for each
    /// layer. A fork takes the walk one layer down; a leaf ends it and is
    /// returned; an empty slot, or the end of `nibbles`, ends it with the last
    /// fork that the walk went through, or with an empty node if there was
    /// none. Returned with the node are the place in `nibbles` where the walk
    /// ended and the byte there.
    pub fn traverse(&self, nibbles: &[u8]) -> (found: (usize, Option<Nibble>, Node<P>))
        ensures
            (found.0 as nat, found.1, found.2@) == self@.traverse(nibbles@),
    {
        let mut branch: &Branch<P> = self.root.next();
        let mut seen: Option<&Node<P>> = None;
        let mut index: usize = 0;
        while index < nibbles.len()
            invariant
                index <= nibbles.len(),
                branch@.wf(),
                self@.traverse(nibbles@) == branch@.traverse(
                    nibbles@,
                    index as nat,
                    seen_view(seen),
                ),
            decreases nibbles.len() - index,
        {
            let nibble: u8 = nibbles[index];
            let node = branch.node(nibble);
            match node {
                Node::Fork { fork, .. } => {
                    branch = fork.next();
                    seen = Some(node);
                },
                Node::Empty => {
                    return (index, Some(nibble), seen_node(seen));
                },
                Node::Data { .. } => {
                    return (index, Some(nibble), node.clone());
                },
            }
            index += 1;
        }
        let last: u8 = if nibbles.len() > 0 {
            nibbles[nibbles.len() - 1]
        } else {
            0
        };
        (nibbles.len(), Some(last), seen_node(seen))
    }

    /// Puts `leaf` into the trie, and makes the digest of the root anew.
    pub fn add(&mut self, leaf: Leaf<P>)
        requires
            old(self)@.next.accepts(leaf@),
        ensures
            final(self)@ == old(self)@.inserted(leaf@),
            old(self)@.next.wf(),
            final(self)@.next.wf(),
            final(self)@.next.layer == old(self)@.next.layer,
            old(self)@.next.committed() ==> final(self)@.committed(),
    {
        self.root.insert(leaf);
    }

    /// Puts `leaf` into the trie if the trie can take it, and says that it
    /// cannot if not; the trie is then as it was.
    pub fn try_add(&mut self, leaf: Leaf<P>) -> (done: Result<(), InvalidInsertError>)
        ensures
            old(self)@.next.wf(),
            final(self)@.next.wf(),
            done is Ok <==> old(self)@.next.accepts(leaf@),
            done is Ok ==> final(self)@ == old(self)@.inserted(leaf@),
            done is Err ==> final(self)@ == old(self)@,
            old(self)@.committed() ==> final(self)@.committed(),
    {
        if self.root.next().accepts(&leaf) {
            self.root.insert(leaf);
            Ok(())
        } else {
            Err(InvalidInsertError)
        }
    }

    /// A copy of what the slot of `nibble` holds at the top of the trie.
    pub fn get(&self, nibble: &u8) -> (node: Node<P>)
        ensures
            self@.next.wf(),
            node@ == self@.next.nibbles[*nibble as int],
    {
        self.root.get(nibble)
    }
}

impl<P: Payload> Trie<P> {
    /// A walk over the leaves of the trie, depth first: slot by slot, and
    /// below a fork all of its leaves before the next slot.
    pub fn into_iter(self) -> (walk: TrieIntoIter<P>)
        ensures
            walk.remaining() == self@.next.entries(),
    {
        TrieIntoIter { curr_branch: self.root.get_next().into_iter() }
    }
}

impl<P: Payload> TrieIntoIter<P> {
    /// The leaves that the walk has still to come to, each as the node that
    /// holds it, in the order in which it comes to them.
    pub closed spec fn remaining(&self) -> Seq<NodeView> {
        self.curr_branch.remaining()
    }

    /// The next leaf of the trie, as a copy of the node that holds it, or
    /// nothing when the walk has come to all of them.
    pub fn next(&mut self) -> (node: Option<Node<P>>)
        ensures
            match node {
                Some(node) => {
                    &&& node@ is Data
                    &&& old(self).remaining() == seq![node@] + final(self).remaining()
                },
                None => old(self).remaining().len() == 0 && final(self).remaining().len() == 0,
            },
    {
        self.curr_branch.next()
    }

    /// The number of leaves that the walk has still to come to.
    pub fn count(self) -> (number: usize)
        requires
            self.remaining().len() <= usize::MAX,
        ensures
            number == self.remaining().len(),
    {
        self.curr_branch.count()
    }
}

impl<P: Payload> Default for Trie<P> {
    fn default() -> (trie: Self)
        ensures
            trie@ == RootView::empty(),
    {
        Self::new()
    }
}

/// Two tries are equal if the digests of their roots are.
impl<P: Payload> PartialEq for Trie<P> {
    fn eq(&self, other: &Trie<P>) -> (equal: bool) {
        *self.root == *other.root
    }
}

impl<P: Payload> PartialEqSpecImpl for Trie<P> {
    open spec fn obeys_eq_spec() -> bool {
        true
    }

    open spec fn eq_spec(&self, other: &Trie<P>) -> bool {
        self@.hash == other@.hash
    }
}

impl<P: Payload> Eq for Trie<P> {

}

impl<P: Payload> Clone for Trie<P> {
    fn clone(&self) -> (copy: Self)
        ensures
            copy@ == self@,
    {
        Trie { root: Box::new((*self.root).clone()) }
    }
}

} // verus!
