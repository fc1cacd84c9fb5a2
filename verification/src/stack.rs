//! A singly linked stack of `i32`.
use vstd::prelude::*;

verus! {

struct Node {
    elem: i32,
    next: Link,
}

enum Link {
    Empty,
    More(Box<Node>),
}

/// A stack: the last element pushed is the first popped.
pub struct List {
    head: Link,
}

/// The elements reachable from `link`, nearest first.
spec fn link_elems(link: Link) -> Seq<i32>
    decreases link,
{
    match link {
        Link::Empty => Seq::empty(),
        Link::More(node) => seq![node.elem] + link_elems(node.next),
    }
}

impl View for List {
    type V = Seq<i32>;

    /// The elements from the top of the stack down.
    closed spec fn view(&self) -> Seq<i32> {
        link_elems(self.head)
    }
}

impl List {
    /// An empty stack.
    pub fn new() -> (list: Self)
        ensures
            list@ == Seq::<i32>::empty(),
    {
        List { head: Link::Empty }
    }

    /// Detaches the whole chain of nodes, leaving the stack empty.
    fn take_head(&mut self) -> (link: Link)
        ensures
            link == old(self).head,
            final(self).head == Link::Empty,
    {
        let mut link = Link::Empty;
        core::mem::swap(&mut self.head, &mut link);
        link
    }

    /// Puts `elem` on top.
    pub fn push(&mut self, elem: i32)
        ensures
            final(self)@ == seq![elem] + old(self)@,
    {
        let new_node = Box::new(Node { elem: elem, next: self.take_head() });
        self.head = Link::More(new_node);
    }

    /// Takes the top element off, or returns `None` when the stack is empty.
    pub fn pop(&mut self) -> (r: Option<i32>)
        ensures
            old(self)@.len() == 0 ==> r is None && final(self)@ == old(self)@,
            old(self)@.len() > 0 ==> r == Some(old(self)@[0]) && final(self)@ == old(self)@.drop_first(),
    {
        match self.take_head() {
            Link::Empty => None,
            Link::More(boxed_node) => {
                let node = *boxed_node;
                self.head = node.next;
                proof {
                    assert(link_elems(old(self).head).drop_first() =~= link_elems(self.head));
                }
                Some(node.elem)
            },
        }
    }
}

/// What `pop` gives back right after `push(x)` is `x`, and the stack is as
/// it was before the push.
pub proof fn lemma_pop_undoes_push(s: Seq<i32>, x: i32)
    ensures
        (seq![x] + s).len() > 0,
        (seq![x] + s)[0] == x,
        (seq![x] + s).drop_first() == s,
{
    assert((seq![x] + s).drop_first() =~= s);
}

} // verus!
