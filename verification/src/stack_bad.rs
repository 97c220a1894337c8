use vstd::prelude::*;

verus! {

/// A node of the stack: its item and the node below it.
struct Node<T> {
    next: Option<Box<Node<T>>>,
    data: T,
}

/// The items of a chain of nodes, top first.
spec fn chain_items<T>(node: Option<Box<Node<T>>>) -> Seq<T>
    decreases node,
{
    match node {
        None => Seq::empty(),
        Some(n) => seq![n.data].add(chain_items(n.next)),
    }
}

/// A stack whose head is replaced by compare-and-swap. Run by several
/// threads at once it suffers from the ABA problem; each push and pop here
/// is one atomic step.
pub struct StackBad<T> {
    head: Option<Box<Node<T>>>,
}

impl<T> StackBad<T> {
    /// The items, top first.
    pub closed spec fn items(&self) -> Seq<T> {
        chain_items(self.head)
    }

    /// An empty stack.
    pub fn new() -> (r: Self)
        ensures
            r.items() == Seq::<T>::empty(),
    {
        StackBad { head: None }
    }

    /// Puts `v` on top: the new node points at the old head and becomes
    /// the head.
    pub fn push(&mut self, v: T)
        ensures
            final(self).items() == seq![v].add(old(self).items()),
    {
        let head = self.head.take();
        let node = Box::new(Node { next: head, data: v });
        self.head = Some(node);
    }

    /// Takes the top item off: the head's successor becomes the head. An
    /// empty stack answers `None`.
    pub fn pop(&mut self) -> (r: Option<T>)
        ensures
            old(self).items().len() == 0 ==> r is None && final(self).items() == old(self).items(),
            old(self).items().len() > 0 ==> r == Some(old(self).items()[0]) && final(self).items()
                == old(self).items().drop_first(),
    {
        match self.head.take() {
            None => None,
            Some(node) => {
                let Node { next, data } = *node;
                self.head = next;
                proof {
                    assert(old(self).items() =~= seq![data].add(chain_items(next)));
                    assert(old(self).items().drop_first() =~= chain_items(next));
                }
                Some(data)
            },
        }
    }
}

} // verus!
