use vstd::prelude::*;

verus! {

/// A node of a stack: its item and the node below it.
struct Node<T> {
    next: Option<Box<Node<T>>>,
    data: T,
}

/// The items of a chain of nodes, top first.
spec fn chain_items<T>(node: Option<Box<Node<T>>>) -> Seq<T>
    decreases node,
{
    match node {
        None => Seq::empty(),
        Some(n) => seq![n.data].add(chain_items(n.next)),
    }
}

/// The top of a stack kept as a chain of nodes.
pub struct StackHead<T> {
    head: Option<Box<Node<T>>>,
}

impl<T> StackHead<T> {
    /// The items, top first.
    pub closed spec fn items(&self) -> Seq<T> {
        chain_items(self.head)
    }

    /// An empty stack.
    pub fn new() -> (r: Self)
        ensures
            r.items() == Seq::<T>::empty(),
    {
        StackHead { head: None }
    }

    /// Puts `v` on top.
    pub fn push(&mut self, v: T)
        ensures
            final(self).items() == seq![v].add(old(self).items()),
    {
        let next = self.head.take();
        self.head = Some(Box::new(Node { next, data: v }));
    }

    /// Takes the top item off, or answers `None` on an empty stack.
    pub fn pop(&mut self) -> (r: Option<T>)
        ensures
            old(self).items().len() == 0 ==> r is None && final(self).items() == old(self).items(),
            old(self).items().len() > 0 ==> r == Some(old(self).items()[0]) && final(self).items()
                == old(self).items().drop_first(),
    {
        match self.head.take() {
            None => None,
            Some(node) => {
                let Node { next, data } = *node;
                self.head = next;
                proof {
                    assert(old(self).items() =~= seq![data].add(chain_items(next)));
                    assert(old(self).items().drop_first() =~= chain_items(next));
                }
                Some(data)
            },
        }
    }
}

/// A stack that can be shared: it holds the top of its chain of nodes.
pub struct Stack<T> {
    data: StackHead<T>,
}

impl<T> Stack<T> {
    /// The items, top first.
    pub closed spec fn items(&self) -> Seq<T> {
        self.data.items()
    }

    /// An empty stack.
    pub fn new() -> (r: Self)
        ensures
            r.items() == Seq::<T>::empty(),
    {
        Stack { data: StackHead::new() }
    }

    /// The top of the stack, to push and pop through.
    pub fn get_mut(&mut self) -> (r: &mut StackHead<T>)
        ensures
            r.items() == old(self).items(),
            final(self).items() == final(r).items(),
    {
        &mut self.data
    }
}

/// Law: last in, first out. Popping right after pushing `v` gives back `v`
/// and leaves the items that were there before.
pub proof fn law_pop_after_push<T>(items: Seq<T>, v: T)
    ensures
        seq![v].add(items).len() > 0,
        seq![v].add(items)[0] == v,
        seq![v].add(items).drop_first() == items,
{
    assert(seq![v].add(items).drop_first() =~= items);
}

} // verus!
