//! A doubly linked list usable from both ends.
//!
//! The nodes live in an arena and link to each other by index: every node
//! knows the node before it and the node after it, and the list knows its
//! first and last node.  Unlinked nodes are kept for reuse.
use vstd::prelude::*;

verus! {

struct Node<T> {
    elem: Option<T>,
    prev: Option<usize>,
    next: Option<usize>,
}

impl<T> Node<T> {
    /// The element of the node, for changing it in place; the links stay.
    fn elem_mut(&mut self) -> (r: Option<&mut T>)
        ensures
            final(self).prev == old(self).prev,
            final(self).next == old(self).next,
            r is Some <==> old(self).elem is Some,
            r is None ==> final(self).elem is None,
            r is Some ==> *r->0 == old(self).elem->0 && final(self).elem == Some(*final(r->0)),
    {
        self.elem.as_mut()
    }
}

/// A double-ended list.
pub struct List<T> {
    nodes: Vec<Node<T>>,
    free: Vec<usize>,
    head: Option<usize>,
    tail: Option<usize>,
    /// The arena indices of the list's nodes, from the front to the back.
    order: Ghost<Seq<usize>>,
}

impl<T> View for List<T> {
    type V = Seq<T>;

    closed spec fn view(&self) -> Seq<T> {
        Self::elems(self.nodes@, self.order@)
    }
}

impl<T> List<T> {
    /// The index of the node before the `k`-th one, if any.
    spec fn link_before(order: Seq<usize>, k: int) -> Option<usize> {
        if k == 0 {
            None
        } else {
            Some(order[k - 1])
        }
    }

    /// The index of the node after the `k`-th one, if any.
    spec fn link_after(order: Seq<usize>, k: int) -> Option<usize> {
        if k + 1 == order.len() {
            None
        } else {
            Some(order[k + 1])
        }
    }

    /// The `k`-th node of the list holds an element and links to its neighbours.
    spec fn node_linked(nodes: Seq<Node<T>>, order: Seq<usize>, k: int) -> bool {
        let i = order[k] as int;
        &&& 0 <= i < nodes.len()
        &&& nodes[i].elem is Some
        &&& nodes[i].prev == Self::link_before(order, k)
        &&& nodes[i].next == Self::link_after(order, k)
    }

    /// The end links of a list with node indices `order`.
    spec fn ends(order: Seq<usize>) -> (Option<usize>, Option<usize>) {
        if order.len() == 0 {
            (None, None)
        } else {
            (Some(order[0]), Some(order.last()))
        }
    }

    /// The links of `nodes` agree with the order `order`, the free list
    /// holds vacant nodes only, and every node is either in the list or free.
    spec fn links_ok(
        nodes: Seq<Node<T>>,
        order: Seq<usize>,
        free: Seq<usize>,
        head: Option<usize>,
        tail: Option<usize>,
    ) -> bool {
        &&& order.no_duplicates()
        &&& free.no_duplicates()
        &&& order.len() + free.len() == nodes.len()
        &&& forall|k: int| 0 <= k < order.len() ==> #[trigger] Self::node_linked(nodes, order, k)
        &&& forall|k: int|
            0 <= k < free.len() ==> #[trigger] free[k] < nodes.len() && nodes[free[k] as int].elem is None
        &&& (head, tail) == Self::ends(order)
    }

    /// The elements of the nodes `order` lists, in that order.
    spec fn elems(nodes: Seq<Node<T>>, order: Seq<usize>) -> Seq<T> {
        Seq::new(order.len(), |k: int| nodes[order[k] as int].elem->0)
    }

    /// The links agree with the order of the nodes, and every node of the
    /// arena is either in the list or free for reuse.
    pub closed spec fn wf(&self) -> bool {
        Self::links_ok(self.nodes@, self.order@, self.free@, self.head, self.tail)
    }

    /// Replacing the element of the `k`-th node, links untouched, keeps the
    /// list well linked and changes just the `k`-th element.
    proof fn lemma_replace_elem(
        nodes: Seq<Node<T>>,
        order: Seq<usize>,
        free: Seq<usize>,
        head: Option<usize>,
        tail: Option<usize>,
        k: int,
    )
        requires
            Self::links_ok(nodes, order, free, head, tail),
            0 <= k < order.len(),
        ensures
            forall|node: Node<T>|
                #![trigger Self::links_ok(nodes.update(order[k] as int, node), order, free, head, tail)]
                #![trigger Self::elems(nodes.update(order[k] as int, node), order)]
                node.prev == nodes[order[k] as int].prev && node.next == nodes[order[k] as int].next
                    && node.elem is Some ==> {
                    &&& Self::links_ok(nodes.update(order[k] as int, node), order, free, head, tail)
                    &&& Self::elems(nodes.update(order[k] as int, node), order) == Self::elems(nodes, order).update(
                        k,
                        node.elem->0,
                    )
                },
    {
        let h = order[k];
        assert(Self::node_linked(nodes, order, k));
        assert forall|node: Node<T>|
            node.prev == nodes[h as int].prev && node.next == nodes[h as int].next
                && node.elem is Some implies {
            &&& #[trigger] Self::links_ok(nodes.update(h as int, node), order, free, head, tail)
            &&& Self::elems(nodes.update(h as int, node), order) == Self::elems(nodes, order).update(k, node.elem->0)
        } by {
            let n2 = nodes.update(h as int, node);
            assert forall|j: int| 0 <= j < order.len() implies #[trigger] Self::node_linked(n2, order, j) by {
                assert(Self::node_linked(nodes, order, j));
                if j != k {
                    assert(order[j] != h);
                }
            }
            assert forall|j: int| 0 <= j < free.len() implies #[trigger] free[j] < n2.len() && n2[free[j] as int].elem
                is None by {
                assert(free[j] < nodes.len() && nodes[free[j] as int].elem is None);
            }
            assert forall|j: int| 0 <= j < order.len() implies Self::elems(n2, order)[j] == Self::elems(nodes, order).update(
                k,
                node.elem->0,
            )[j] by {
                assert(Self::node_linked(nodes, order, j));
                if j != k {
                    assert(order[j] != h);
                }
            }
            assert(Self::elems(n2, order) =~= Self::elems(nodes, order).update(k, node.elem->0));
        }
    }

    /// An empty list.
    pub fn new() -> (list: Self)
        ensures
            list.wf(),
            list@ == Seq::<T>::empty(),
    {
        let list = List {
            nodes: Vec::new(),
            free: Vec::new(),
            head: None,
            tail: None,
            order: Ghost(Seq::empty()),
        };
        assert(list@ =~= Seq::<T>::empty());
        list
    }

    /// Adds `elem` at the front.
    pub fn push_front(&mut self, elem: T)
        requires
            old(self).wf(),
        ensures
            final(self).wf(),
            final(self)@ == seq![elem] + old(self)@,
    {
        let ghost old_order = self.order@;
        let ghost old_view = self@;
        let old_head = self.head;
        let index = self.place_node(Node { elem: Some(elem), prev: None, next: old_head });
        let ghost placed = self.nodes@;
        match old_head {
            Some(h) => {
                proof {
                    assert(Self::node_linked(old(self).nodes@, old_order, 0));
                }
                self.nodes[h].prev = Some(index);
            },
            None => {
                self.tail = Some(index);
            },
        }
        self.head = Some(index);
        self.order = Ghost(seq![index] + old_order);
        proof {
            let order = self.order@;
            let nodes = self.nodes@;
            assert(order.no_duplicates()) by {
                assert forall|a: int, b: int| 0 <= a < order.len() && 0 <= b < order.len() && a != b implies order[a]
                    != order[b] by {
                    if a == 0 {
                        assert(old_order.contains(order[b]));
                    } else if b == 0 {
                        assert(old_order.contains(order[a]));
                    } else {
                        assert(old_order[a - 1] != old_order[b - 1]);
                    }
                }
            }
            assert forall|k: int| 0 <= k < order.len() implies #[trigger] Self::node_linked(nodes, order, k) by {
                if k > 0 {
                    assert(Self::node_linked(old(self).nodes@, old_order, k - 1));
                    assert(old_order[k - 1] != index) by {
                        assert(old_order.contains(old_order[k - 1]));
                    }
                }
            }
            assert forall|k: int| 0 <= k < self.free@.len() implies #[trigger] self.free@[k] < nodes.len()
                && nodes[self.free@[k] as int].elem is None by {
                if old_head is Some {
                    assert(self.free@[k] != old_head->0) by {
                        assert(Self::node_linked(old(self).nodes@, old_order, 0));
                    }
                }
            }
            assert(self@ =~= seq![elem] + old_view) by {
                assert forall|k: int| 1 <= k < order.len() implies self@[k] == old_view[k - 1] by {
                    assert(Self::node_linked(old(self).nodes@, old_order, k - 1));
                    assert(old_order[k - 1] != index) by {
                        assert(old_order.contains(old_order[k - 1]));
                    }
                }
            }
        }
    }

    /// Adds `elem` at the back.
    pub fn push_back(&mut self, elem: T)
        requires
            old(self).wf(),
        ensures
            final(self).wf(),
            final(self)@ == old(self)@.push(elem),
    {
        let ghost old_order = self.order@;
        let ghost old_view = self@;
        let old_tail = self.tail;
        let index = self.place_node(Node { elem: Some(elem), prev: old_tail, next: None });
        match old_tail {
            Some(t) => {
                proof {
                    assert(Self::node_linked(old(self).nodes@, old_order, old_order.len() - 1));
                }
                self.nodes[t].next = Some(index);
            },
            None => {
                self.head = Some(index);
            },
        }
        self.tail = Some(index);
        self.order = Ghost(old_order.push(index));
        proof {
            let order = self.order@;
            let nodes = self.nodes@;
            let n = old_order.len() as int;
            assert(order.no_duplicates()) by {
                assert forall|a: int, b: int| 0 <= a < order.len() && 0 <= b < order.len() && a != b implies order[a]
                    != order[b] by {
                    if a == n {
                        assert(old_order.contains(order[b]));
                    } else if b == n {
                        assert(old_order.contains(order[a]));
                    } else {
                        assert(old_order[a] != old_order[b]);
                    }
                }
            }
            assert forall|k: int| 0 <= k < order.len() implies #[trigger] Self::node_linked(nodes, order, k) by {
                if k < n {
                    assert(Self::node_linked(old(self).nodes@, old_order, k));
                    assert(old_order[k] != index) by {
                        assert(old_order.contains(old_order[k]));
                    }
                }
            }
            assert forall|k: int| 0 <= k < self.free@.len() implies #[trigger] self.free@[k] < nodes.len()
                && nodes[self.free@[k] as int].elem is None by {
                if old_tail is Some {
                    assert(self.free@[k] != old_tail->0) by {
                        assert(Self::node_linked(old(self).nodes@, old_order, n - 1));
                    }
                }
            }
            assert(self@ =~= old_view.push(elem)) by {
                assert forall|k: int| 0 <= k < n implies self@[k] == old_view[k] by {
                    assert(Self::node_linked(old(self).nodes@, old_order, k));
                    assert(old_order[k] != index) by {
                        assert(old_order.contains(old_order[k]));
                    }
                }
            }
        }
    }

    /// Removes the front element and returns it, or `None` when the list is empty.
    pub fn pop_front(&mut self) -> (r: Option<T>)
        requires
            old(self).wf(),
        ensures
            final(self).wf(),
            old(self)@.len() == 0 ==> r is None && final(self)@ == old(self)@,
            old(self)@.len() > 0 ==> r == Some(old(self)@[0]) && final(self)@ == old(self)@.drop_first(),
    {
        let ghost old_order = self.order@;
        let ghost old_view = self@;
        match self.head {
            None => None,
            Some(h) => {
                proof {
                    assert(Self::node_linked(old(self).nodes@, old_order, 0));
                    assert(old_view[0] == old(self).nodes@[h as int].elem->0);
                }
                let elem = self.nodes[h].elem.take();
                let next = self.nodes[h].next.take();
                match next {
                    Some(n) => {
                        proof {
                            assert(Self::node_linked(old(self).nodes@, old_order, 1));
                        }
                        self.nodes[n].prev = None;
                        self.head = Some(n);
                    },
                    None => {
                        self.head = None;
                        self.tail = None;
                    },
                }
                proof {
                    assert forall|k: int| 0 <= k < self.free@.len() implies self.free@[k] != h by {
                        assert(old(self).free@.contains(self.free@[k]));
                    }
                }
                self.free.push(h);
                self.order = Ghost(old_order.drop_first());
                proof {
                    let order = self.order@;
                    let nodes = self.nodes@;
                    assert forall|k: int| 0 <= k < order.len() implies #[trigger] Self::node_linked(nodes, order, k) by {
                        assert(Self::node_linked(old(self).nodes@, old_order, k + 1));
                        assert(old_order[k + 1] != h);
                    }
                    assert forall|k: int| 0 <= k < self.free@.len() implies #[trigger] self.free@[k] < nodes.len()
                        && nodes[self.free@[k] as int].elem is None by {
                        if k < old(self).free@.len() && old_order.len() > 1 {
                            assert(self.free@[k] != old_order[1]) by {
                                assert(Self::node_linked(old(self).nodes@, old_order, 1));
                            }
                        }
                    }
                    assert(self@ =~= old_view.drop_first()) by {
                        assert forall|k: int| 0 <= k < order.len() implies self@[k] == old_view[k + 1] by {
                            assert(Self::node_linked(old(self).nodes@, old_order, k + 1));
                            assert(old_order[k + 1] != h);
                        }
                    }
                }
                elem
            },
        }
    }

    /// Removes the back element and returns it, or `None` when the list is empty.
    pub fn pop_back(&mut self) -> (r: Option<T>)
        requires
            old(self).wf(),
        ensures
            final(self).wf(),
            old(self)@.len() == 0 ==> r is None && final(self)@ == old(self)@,
            old(self)@.len() > 0 ==> r == Some(old(self)@.last()) && final(self)@ == old(self)@.drop_last(),
    {
        let ghost old_order = self.order@;
        let ghost old_view = self@;
        let ghost n = old_order.len() as int;
        match self.tail {
            None => None,
            Some(t) => {
                proof {
                    assert(Self::node_linked(old(self).nodes@, old_order, n - 1));
                    assert(old_view[n - 1] == old(self).nodes@[t as int].elem->0);
                }
                let elem = self.nodes[t].elem.take();
                let prev = self.nodes[t].prev.take();
                match prev {
                    Some(p) => {
                        proof {
                            assert(Self::node_linked(old(self).nodes@, old_order, n - 2));
                        }
                        self.nodes[p].next = None;
                        self.tail = Some(p);
                    },
                    None => {
                        self.head = None;
                        self.tail = None;
                    },
                }
                proof {
                    assert forall|k: int| 0 <= k < self.free@.len() implies self.free@[k] != t by {
                        assert(old(self).free@.contains(self.free@[k]));
                    }
                }
                self.free.push(t);
                self.order = Ghost(old_order.drop_last());
                proof {
                    let order = self.order@;
                    let nodes = self.nodes@;
                    assert forall|k: int| 0 <= k < order.len() implies #[trigger] Self::node_linked(nodes, order, k) by {
                        assert(Self::node_linked(old(self).nodes@, old_order, k));
                        assert(old_order[k] != t);
                    }
                    assert forall|k: int| 0 <= k < self.free@.len() implies #[trigger] self.free@[k] < nodes.len()
                        && nodes[self.free@[k] as int].elem is None by {
                        if k < old(self).free@.len() && n > 1 {
                            assert(self.free@[k] != old_order[n - 2]) by {
                                assert(Self::node_linked(old(self).nodes@, old_order, n - 2));
                            }
                        }
                    }
                    assert(self@ =~= old_view.drop_last()) by {
                        assert forall|k: int| 0 <= k < order.len() implies self@[k] == old_view[k] by {
                            assert(Self::node_linked(old(self).nodes@, old_order, k));
                            assert(old_order[k] != t);
                        }
                    }
                }
                elem
            },
        }
    }

    /// The front element, if any.
    pub fn peek_front(&self) -> (r: Option<&T>)
        requires
            self.wf(),
        ensures
            r is Some <==> self@.len() > 0,
            r is Some ==> *r->0 == self@[0],
    {
        match self.head {
            None => None,
            Some(h) => {
                proof {
                    assert(Self::node_linked(self.nodes@, self.order@, 0));
                }
                self.nodes[h].elem.as_ref()
            },
        }
    }

    /// The back element, if any.
    pub fn peek_back(&self) -> (r: Option<&T>)
        requires
            self.wf(),
        ensures
            r is Some <==> self@.len() > 0,
            r is Some ==> *r->0 == self@.last(),
    {
        match self.tail {
            None => None,
            Some(t) => {
                proof {
                    assert(Self::node_linked(self.nodes@, self.order@, self.order@.len() - 1));
                }
                self.nodes[t].elem.as_ref()
            },
        }
    }

    /// The front element, for changing it in place.
    pub fn peek_front_mut(&mut self) -> (r: Option<&mut T>)
        requires
            old(self).wf(),
        ensures
            final(self).wf(),
            r is Some <==> old(self)@.len() > 0,
            r is None ==> final(self)@ == old(self)@,
            r is Some ==> *r->0 == old(self)@[0] && final(self)@ == old(self)@.update(0, *final(r->0)),
    {
        let ghost old_order = self.order@;
        if self.head.is_none() {
            return None;
        }
        let h = self.head.unwrap();
        proof {
            assert(Self::node_linked(self.nodes@, old_order, 0));
            Self::lemma_replace_elem(self.nodes@, old_order, self.free@, self.head, self.tail, 0);
        }
        self.nodes[h].elem_mut()
    }

    /// The back element, for changing it in place.
    pub fn peek_back_mut(&mut self) -> (r: Option<&mut T>)
        requires
            old(self).wf(),
        ensures
            final(self).wf(),
            r is Some <==> old(self)@.len() > 0,
            r is None ==> final(self)@ == old(self)@,
            r is Some ==> *r->0 == old(self)@.last() && final(self)@ == old(self)@.update(
                old(self)@.len() - 1,
                *final(r->0),
            ),
    {
        let ghost old_order = self.order@;
        if self.tail.is_none() {
            return None;
        }
        let t = self.tail.unwrap();
        proof {
            assert(Self::node_linked(self.nodes@, old_order, old_order.len() - 1));
            Self::lemma_replace_elem(
                self.nodes@,
                old_order,
                self.free@,
                self.head,
                self.tail,
                old_order.len() - 1,
            );
        }
        self.nodes[t].elem_mut()
    }

    /// Turns the list into a consuming iterator over its elements.
    pub fn into_iter(self) -> (iter: IntoIter<T>)
        requires
            self.wf(),
        ensures
            iter.wf(),
            iter@ == self@,
    {
        IntoIter(self)
    }

    /// A borrowing iterator over the elements, from the front to the back.
    pub fn iter(&self) -> (iter: Iter<'_, T>)
        requires
            self.wf(),
        ensures
            iter.wf(),
            iter@ == self@,
    {
        let iter = Iter { list: self, cursor: self.head, visited: Ghost(0) };
        assert(self@.skip(0) =~= self@);
        iter
    }

    /// Puts `node` into a vacant slot of the arena, reusing a free one when
    /// there is one, and returns its index.
    fn place_node(&mut self, node: Node<T>) -> (index: usize)
        requires
            old(self).wf(),
        ensures
            final(self).order@ == old(self).order@,
            final(self).head == old(self).head,
            final(self).tail == old(self).tail,
            !old(self).order@.contains(index),
            index < final(self).nodes@.len(),
            final(self).nodes@ == old(self).nodes@.update(index as int, node) || (index
                == old(self).nodes@.len() && final(self).nodes@ == old(self).nodes@.push(node)),
            final(self).nodes@[index as int] == node,
            final(self).free@.len() + old(self).order@.len() + 1 == final(self).nodes@.len(),
            final(self).free@.no_duplicates(),
            forall|k: int|
                0 <= k < final(self).free@.len() ==> #[trigger] final(self).free@[k] < final(self).nodes@.len()
                    && final(self).free@[k] != index && final(self).nodes@[final(self).free@[k] as int].elem is None,
            forall|j: int|
                0 <= j < old(self).nodes@.len() && j != index ==> final(self).nodes@[j] == old(self).nodes@[j],
    {
        if let Some(index) = self.free.pop() {
            proof {
                let f = old(self).free@;
                assert(f.last() == index);
                assert(self.free@ =~= f.drop_last());
                if old(self).order@.contains(index) {
                    let k = choose|k: int| 0 <= k < old(self).order@.len() && old(self).order@[k] == index;
                    assert(Self::node_linked(old(self).nodes@, old(self).order@, k));
                    assert(old(self).free@[f.len() - 1] == index);
                }
                assert forall|k: int| 0 <= k < self.free@.len() implies self.free@[k] != index by {
                    assert(f[k] == self.free@[k]);
                    assert(f[f.len() - 1] == index);
                }
            }
            self.nodes.set(index, node);
            index
        } else {
            proof {
                if old(self).order@.contains(self.nodes@.len() as usize) {
                    let k = choose|k: int|
                        0 <= k < old(self).order@.len() && old(self).order@[k] == self.nodes@.len() as usize;
                    assert(Self::node_linked(old(self).nodes@, old(self).order@, k));
                }
            }
            self.nodes.push(node);
            self.nodes.len() - 1
        }
    }
}

/// A list consumed element by element, from either end.
pub struct IntoIter<T>(List<T>);

impl<T> View for IntoIter<T> {
    type V = Seq<T>;

    closed spec fn view(&self) -> Seq<T> {
        self.0@
    }
}

impl<T> IntoIter<T> {
    /// The list inside is well linked.
    pub closed spec fn wf(&self) -> bool {
        self.0.wf()
    }

    /// Takes the next element from the front, or `None` when none is left.
    pub fn next(&mut self) -> (r: Option<T>)
        requires
            old(self).wf(),
        ensures
            final(self).wf(),
            old(self)@.len() == 0 ==> r is None && final(self)@ == old(self)@,
            old(self)@.len() > 0 ==> r == Some(old(self)@[0]) && final(self)@ == old(self)@.drop_first(),
            (r, final(self)@) == take_end(old(self)@, true),
    {
        self.0.pop_front()
    }

    /// Takes the next element from the back, or `None` when none is left.
    pub fn next_back(&mut self) -> (r: Option<T>)
        requires
            old(self).wf(),
        ensures
            final(self).wf(),
            old(self)@.len() == 0 ==> r is None && final(self)@ == old(self)@,
            old(self)@.len() > 0 ==> r == Some(old(self)@.last()) && final(self)@ == old(
                self,
            )@.drop_last(),
            (r, final(self)@) == take_end(old(self)@, false),
    {
        self.0.pop_back()
    }
}

/// A borrowing walk over a list, from the front to the back.
pub struct Iter<'a, T> {
    list: &'a List<T>,
    cursor: Option<usize>,
    /// How many elements have been handed out.
    visited: Ghost<int>,
}

impl<'a, T> View for Iter<'a, T> {
    type V = Seq<T>;

    /// The elements not handed out yet.
    closed spec fn view(&self) -> Seq<T> {
        self.list@.skip(self.visited@)
    }
}

impl<'a, T> Iter<'a, T> {
    /// The cursor stands on the first element not handed out yet.
    pub closed spec fn wf(&self) -> bool {
        &&& self.list.wf()
        &&& 0 <= self.visited@ <= self.list.order@.len()
        &&& self.cursor == if self.visited@ < self.list.order@.len() {
            Some(self.list.order@[self.visited@])
        } else {
            None
        }
    }

    /// Hands out the next element, or `None` at the end of the list.
    pub fn next(&mut self) -> (r: Option<&'a T>)
        requires
            old(self).wf(),
        ensures
            final(self).wf(),
            old(self)@.len() == 0 ==> r is None && final(self)@ == old(self)@,
            old(self)@.len() > 0 ==> r is Some && *r->0 == old(self)@[0] && final(self)@ == old(
                self,
            )@.drop_first(),
    {
        match self.cursor {
            None => None,
            Some(i) => {
                let list: &'a List<T> = self.list;
                proof {
                    assert(List::<T>::node_linked(list.nodes@, list.order@, self.visited@));
                }
                let node: &'a Node<T> = &list.nodes[i];
                self.cursor = node.next;
                self.visited = Ghost(self.visited@ + 1);
                proof {
                    assert(self@ =~= old(self)@.drop_first());
                }
                node.elem.as_ref()
            },
        }
    }
}

/// Adding at the front and then taking from the front gives back the element
/// added and leaves the list as it was (so is it for the back).
pub proof fn lemma_each_end_is_a_stack<T>(s: Seq<T>, x: T)
    ensures
        (seq![x] + s)[0] == x,
        (seq![x] + s).drop_first() == s,
        s.push(x).last() == x,
        s.push(x).drop_last() == s,
{
    assert((seq![x] + s).drop_first() =~= s);
    assert(s.push(x).drop_last() =~= s);
}

/// Adding at one end and taking from the other passes the elements through
/// in order: a non-empty list gives up its own first element, and the new
/// one joins behind the rest.
pub proof fn lemma_ends_form_a_queue<T>(s: Seq<T>, x: T)
    requires
        s.len() > 0,
    ensures
        s.push(x)[0] == s[0],
        s.push(x).drop_first() == s.drop_first().push(x),
        (seq![x] + s).last() == s.last(),
        (seq![x] + s).drop_last() == seq![x] + s.drop_last(),
{
    assert(s.push(x).drop_first() =~= s.drop_first().push(x));
    assert((seq![x] + s).drop_last() =~= seq![x] + s.drop_last());
}

/// What one call on a consuming iterator holding `s` hands out, and what is
/// left: `next` (`front`) takes the first element, `next_back` the last one,
/// and both give `None` once nothing is left.
pub open spec fn take_end<T>(s: Seq<T>, front: bool) -> (Option<T>, Seq<T>) {
    if s.len() == 0 {
        (None, s)
    } else if front {
        (Some(s[0]), s.drop_first())
    } else {
        (Some(s.last()), s.drop_last())
    }
}

/// What the calls `ends` (`true` for `next`, `false` for `next_back`), made
/// in order on a consuming iterator holding `s`, hand out, and what is left.
pub open spec fn drain<T>(s: Seq<T>, ends: Seq<bool>) -> (Seq<Option<T>>, Seq<T>)
    decreases ends.len(),
{
    if ends.len() == 0 {
        (Seq::empty(), s)
    } else {
        let (first, rest) = take_end(s, ends[0]);
        let (outs, left) = drain(rest, ends.drop_first());
        (seq![first] + outs, left)
    }
}

/// How many of the calls `ends` take from the front.
pub open spec fn fronts(ends: Seq<bool>) -> nat
    decreases ends.len(),
{
    if ends.len() == 0 {
        0
    } else {
        (if ends[0] {
            1nat
        } else {
            0nat
        }) + fronts(ends.drop_first())
    }
}

/// The position, in a list of `n` elements, of the element that the `k`-th
/// call of `ends` hands out: the next unseen one from its end.
pub open spec fn drained_position(n: int, ends: Seq<bool>, k: int) -> int {
    let from_front = fronts(ends.take(k)) as int;
    if ends[k] {
        from_front
    } else {
        n - 1 - (k - from_front)
    }
}

proof fn lemma_fronts_bounded(ends: Seq<bool>)
    ensures
        fronts(ends) <= ends.len(),
    decreases ends.len(),
{
    if ends.len() > 0 {
        lemma_fronts_bounded(ends.drop_first());
    }
}

proof fn lemma_fronts_take_step(ends: Seq<bool>, k: int)
    requires
        0 <= k < ends.len(),
    ensures
        fronts(ends.take(k + 1)) == (if ends[0] {
            1nat
        } else {
            0nat
        }) + fronts(ends.drop_first().take(k)),
{
    assert(ends.take(k + 1).drop_first() =~= ends.drop_first().take(k));
}

/// Draining a consuming iterator from both ends, in any mix of `next` and
/// `next_back`: as long as elements are left, each call hands out the next
/// unseen element from its end (`drained_position`), and what is left is the
/// middle part not yet handed out.  After as many calls as there are
/// elements, nothing is left, every further call gives `None`, and the
/// elements handed out are exactly the list's elements, each once.
pub proof fn lemma_drain_hands_out_each_element_once<T>(s: Seq<T>, ends: Seq<bool>)
    requires
        ends.len() <= s.len(),
    ensures
        drain(s, ends).0.len() == ends.len(),
        forall|k: int|
            0 <= k < ends.len() ==> (0 <= drained_position(s.len() as int, ends, k) && drained_position(
                s.len() as int,
                ends,
                k,
            ) < s.len() && #[trigger] drain(s, ends).0[k] == Some(s[drained_position(s.len() as int, ends, k)])),
        drain(s, ends).1 == s.subrange(
            fronts(ends) as int,
            s.len() - (ends.len() - fronts(ends)),
        ),
        ends.len() == s.len() ==> {
            &&& drain(s, ends).1.len() == 0
            &&& take_end(drain(s, ends).1, true).0 is None
            &&& take_end(drain(s, ends).1, false).0 is None
            &&& drain(s, ends).0.map_values(|o: Option<T>| o->0).to_multiset() == s.to_multiset()
        },
        (forall|k: int| 0 <= k < ends.len() ==> ends[k]) ==> forall|k: int|
            0 <= k < ends.len() ==> #[trigger] drained_position(s.len() as int, ends, k) == k,
        (forall|k: int| 0 <= k < ends.len() ==> !ends[k]) ==> forall|k: int|
            0 <= k < ends.len() ==> #[trigger] drained_position(s.len() as int, ends, k) == s.len() - 1 - k,
    decreases ends.len(),
{
    broadcast use vstd::seq_lib::lemma_multiset_commutative;

    let n = s.len() as int;
    if ends.len() == 0 {
        assert(s.subrange(0, n) =~= s);
        assert(drain(s, ends).0.map_values(|o: Option<T>| o->0) =~= Seq::<T>::empty());
        if n == 0 {
            assert(s =~= Seq::<T>::empty());
            assert(Seq::<T>::empty().to_multiset() =~= Seq::<T>::empty().to_multiset());
        }
    } else {
        let m = ends.len() as int;
        let tail = ends.drop_first();
        let (first, rest) = take_end(s, ends[0]);
        lemma_drain_hands_out_each_element_once(rest, tail);
        lemma_fronts_bounded(tail);
        let (outs, left) = drain(rest, tail);
        assert forall|k: int| 0 <= k < m implies 0 <= #[trigger] drained_position(n, ends, k) < n
            && drain(s, ends).0[k] == Some(s[drained_position(n, ends, k)]) by {
            lemma_drain_step(s, ends, k);
        }
        if ends[0] {
            assert(left =~= s.subrange(fronts(ends) as int, n - (m - fronts(ends))));
        } else {
            assert(left =~= s.subrange(fronts(ends) as int, n - (m - fronts(ends))));
        }
        if m == n {
            let vals = drain(s, ends).0.map_values(|o: Option<T>| o->0);
            let rest_vals = outs.map_values(|o: Option<T>| o->0);
            assert(vals =~= seq![first->0] + rest_vals);
            if ends[0] {
                assert(s =~= seq![s[0]] + rest);
            } else {
                assert(s =~= rest + seq![s.last()]);
            }
            assert(vals.to_multiset() =~= s.to_multiset());
            assert(left.len() == 0);
        }
        if forall|k: int| 0 <= k < m ==> ends[k] {
            assert forall|k: int| 0 <= k < m implies #[trigger] drained_position(n, ends, k) == k by {
                lemma_all_fronts(ends, k);
            }
        }
        if forall|k: int| 0 <= k < m ==> !ends[k] {
            assert forall|k: int| 0 <= k < m implies #[trigger] drained_position(n, ends, k) == n - 1 - k by {
                lemma_no_fronts(ends, k);
            }
        }
    }
}


proof fn lemma_drain_step<T>(s: Seq<T>, ends: Seq<bool>, k: int)
    requires
        ends.len() <= s.len(),
        0 <= k < ends.len(),
        drain(take_end(s, ends[0]).1, ends.drop_first()).0.len() == ends.len() - 1,
        forall|j: int|
            0 <= j < ends.len() - 1 ==> (0 <= drained_position(s.len() - 1, ends.drop_first(), j)
                && drained_position(s.len() - 1, ends.drop_first(), j) < s.len() - 1
                && #[trigger] drain(take_end(s, ends[0]).1, ends.drop_first()).0[j] == Some(
                take_end(s, ends[0]).1[drained_position(s.len() - 1, ends.drop_first(), j)],
            )),
    ensures
        0 <= drained_position(s.len() as int, ends, k) < s.len(),
        drain(s, ends).0[k] == Some(s[drained_position(s.len() as int, ends, k)]),
{
    let n = s.len() as int;
    let tail = ends.drop_first();
    let rest = take_end(s, ends[0]).1;
    let outs = drain(rest, tail).0;
    assert(drain(s, ends).0 == seq![take_end(s, ends[0]).0] + outs);
    if k > 0 {
        lemma_fronts_take_step(ends, k - 1);
        lemma_fronts_bounded(tail.take(k - 1));
        assert(ends.take(k).drop_first() =~= tail.take(k - 1));
        assert(ends[k] == tail[k - 1]);
        assert(drain(s, ends).0[k] == outs[k - 1]);
        let p = drained_position(n - 1, tail, k - 1);
        assert(outs[k - 1] == Some(rest[p]));
        if ends[0] {
            assert(drained_position(n, ends, k) == p + 1);
        } else {
            assert(drained_position(n, ends, k) == p);
        }
    } else {
        assert(ends.take(0) =~= Seq::<bool>::empty());
    }
}

proof fn lemma_all_fronts(ends: Seq<bool>, k: int)
    requires
        0 <= k <= ends.len(),
        forall|j: int| 0 <= j < ends.len() ==> ends[j],
    ensures
        fronts(ends.take(k)) == k,
    decreases k,
{
    if k > 0 {
        lemma_all_fronts(ends.drop_first(), k - 1);
        assert(ends.take(k).drop_first() =~= ends.drop_first().take(k - 1));
    }
}

proof fn lemma_no_fronts(ends: Seq<bool>, k: int)
    requires
        0 <= k <= ends.len(),
        forall|j: int| 0 <= j < ends.len() ==> !ends[j],
    ensures
        fronts(ends.take(k)) == 0,
    decreases k,
{
    if k > 0 {
        lemma_no_fronts(ends.drop_first(), k - 1);
        assert(ends.take(k).drop_first() =~= ends.drop_first().take(k - 1));
    }
}

} // verus!
