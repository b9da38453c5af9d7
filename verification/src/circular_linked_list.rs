use crate::rendering::{debug_text, list_text, listed};
use crate::traversal::{
    cursor_after, end, following, in_ring, lemma_once_around, lemma_walk_begins, lemma_walk_ended,
    lemma_walk_extends, start, step, yields,
};
use vstd::prelude::*;

verus! {

/// One cell of the ring: a value and the place of the cell that follows it.
pub struct Node<T> {
    pub value: T,
    next: Option<usize>,
}

impl<T> View for Node<T> {
    type V = T;

    /// The value that the cell holds.
    closed spec fn view(&self) -> T {
        self.value
    }
}

impl<T> Node<T> {
    /// The value that the cell holds.
    pub fn value(&self) -> (value: &T)
        ensures
            *value == self@,
    {
        &self.value
    }
}

/// A ring of values. The cells live in one vector and name their successor
/// by its place there, so the ring holds no cycle of ownership.
pub struct CircularLinkedList<T> {
    nodes: Vec<Node<T>>,
    head: Option<usize>,
    tail: Option<usize>,
}

impl<T> View for CircularLinkedList<T> {
    type V = Seq<T>;

    /// The values of the ring, from the head to the tail.
    closed spec fn view(&self) -> Seq<T> {
        self.nodes@.map_values(|n: Node<T>| n.value)
    }
}

/// A place as contracts speak of it.
spec fn place_of(place: Option<usize>) -> Option<int> {
    match place {
        None => None,
        Some(p) => Some(p as int),
    }
}

impl<T> CircularLinkedList<T> {
    /// The place of the head; `None` in an empty ring.
    pub closed spec fn head(self) -> Option<int> {
        place_of(self.head)
    }

    /// The place of the tail; `None` in an empty ring.
    pub closed spec fn tail(self) -> Option<int> {
        place_of(self.tail)
    }

    /// The place that the cell at `place` names as the one that follows it.
    pub closed spec fn link(self, place: int) -> Option<int> {
        place_of(self.nodes@[place].next)
    }

    /// Every ring is closed. Head and tail are both there or both missing;
    /// the head is the first cell and the tail the last; each cell links to
    /// the next one, and the tail links back to the head.
    #[verifier::type_invariant]
    pub open spec fn is_ring(self) -> bool {
        let n = self@.len();
        &&& self.head() == start(n)
        &&& self.tail() == end(n)
        &&& forall|i: int| 0 <= i < n ==> #[trigger] self.link(i) == Some(following(i, n))
    }

    /// The empty ring.
    pub fn new() -> (list: Self)
        ensures
            list@ == Seq::<T>::empty(),
            list.head() is None,
            list.tail() is None,
    {
        CircularLinkedList { nodes: Vec::new(), head: None, tail: None }
    }

    /// Appends `value` behind the tail. The new cell becomes the tail and
    /// links back to the head; the head stays.
    pub fn push(&mut self, value: T)
        ensures
            final(self)@ == old(self)@.push(value),
            final(self).head() == Some(0int),
            old(self).head() is Some ==> final(self).head() == old(self).head(),
            final(self).tail() == Some(old(self)@.len() as int),
            final(self).link(old(self)@.len() as int) == final(self).head(),
            old(self).tail() matches Some(t) ==> final(self).link(t) == final(self).tail(),
            forall|i: int|
                0 <= i < old(self)@.len() - 1 ==> #[trigger] final(self).link(i) == old(self).link(
                    i,
                ),
    {
        proof {
            use_type_invariant(&*self);
        }
        let ghost before = *self;
        let mut ring = CircularLinkedList::new();
        std::mem::swap(self, &mut ring);
        let CircularLinkedList { mut nodes, head, tail } = ring;
        match tail {
            None => {
                nodes.push(Node { value, next: Some(0) });
                assert(nodes@.map_values(|n: Node<T>| n.value) == old(self)@.push(value));
                *self = CircularLinkedList { nodes, head: Some(0), tail: Some(0) };
            },
            Some(t) => {
                let last = nodes.len();
                nodes.push(Node { value, next: head });
                nodes[t].next = Some(last);
                assert(nodes@.map_values(|n: Node<T>| n.value) == old(self)@.push(value));
                assert forall|i: int| 0 <= i <= last implies place_of(#[trigger] nodes@[i].next)
                    == Some(following(i, (last + 1) as nat)) by {
                    if i < t {
                        assert(old(self).link(i) == Some(following(i, last as nat)));
                    }
                }
                *self = CircularLinkedList { nodes, head, tail: Some(last) };
            },
        }
        proof {
            use_type_invariant(&*self);
            assert forall|i: int| 0 <= i < before@.len() - 1 implies #[trigger] self.link(i)
                == before.link(i) by {
                assert(before.link(i) == Some(following(i, before@.len())));
            }
        }
    }

    /// Counts the cells by walking once around the ring: the cost grows
    /// with the ring.
    pub fn len(&self) -> (n: usize)
        ensures
            n == self@.len(),
    {
        proof {
            use_type_invariant(self);
        }
        let mut walk = self.iter_once();
        let mut n: usize = 0;
        loop
            invariant_except_break
                walk.cursor() == if n < self@.len() {
                    Some(n as int)
                } else {
                    None
                },
            invariant
                walk.ring() == self@,
                walk.stops(),
                self@.len() == self.nodes.len(),
                n <= self@.len(),
            ensures
                n == self@.len(),
            decreases self@.len() - n,
        {
            match walk.next() {
                None => {
                    break ;
                },
                Some(_) => {
                    n = n + 1;
                },
            }
        }
        n
    }

    /// Whether the ring has no cell.
    pub fn is_empty(&self) -> (empty: bool)
        ensures
            empty == (self@.len() == 0),
            empty == (self.head() is None),
    {
        proof {
            use_type_invariant(self);
        }
        self.head.is_none()
    }

    /// The ring that holds the values of `items`, the first one at the head.
    pub fn from_iter(items: Vec<T>) -> (list: Self)
        ensures
            list@ == items@,
    {
        let mut list = CircularLinkedList::new();
        for value in source: items.into_iter()
            invariant
                source.seq() == items@,
                list@ == items@.take(source.index()),
        {
            assert(items@.take(source.index() + 1) == items@.take(source.index()).push(value));
            list.push(value);
        }
        list
    }

    /// The values once around, each as its `Debug` writes it, as a list in
    /// square brackets; `None` where the `Debug` of a value fails. An empty
    /// ring always gives its text.
    pub fn debug_string(&self) -> (text: Option<String>) where T: std::fmt::Debug
        ensures
            text matches Some(t) ==> exists|entries: Seq<Seq<char>>|
                entries.len() == self@.len() && t@ == listed(entries),
            self@.len() == 0 ==> text is Some,
    {
        let mut entries: Vec<String> = Vec::new();
        let mut walk = self.iter_once();
        loop
            invariant_except_break
                walk.cursor() == if entries@.len() < self@.len() {
                    Some(entries@.len() as int)
                } else {
                    None
                },
            invariant
                walk.ring() == self@,
                walk.stops(),
                entries@.len() <= self@.len(),
            ensures
                entries@.len() == self@.len(),
            decreases self@.len() - entries@.len(),
        {
            match walk.next() {
                None => {
                    break ;
                },
                Some(node) => {
                    match debug_text(&node.value) {
                        None => {
                            return None;
                        },
                        Some(entry) => {
                            entries.push(entry);
                        },
                    }
                },
            }
        }
        Some(list_text(&entries))
    }

    /// A walk from the head that never ends, unless the ring is empty.
    pub fn iter(&self) -> (walk: CllIter<'_, T>)
        ensures
            walk.ring() == self@,
            walk.cursor() == self.head(),
            walk.cursor() == start(self@.len()),
            walk.tail() == self.tail(),
            !walk.stops(),
    {
        proof {
            use_type_invariant(self);
        }
        CllIter { list: self, cursor: self.head, tail: self.tail, stop: false }
    }

    /// A walk from the head that hands out each cell once and ends behind
    /// the tail.
    pub fn iter_once(&self) -> (walk: CllIter<'_, T>)
        ensures
            walk.ring() == self@,
            walk.cursor() == self.head(),
            walk.cursor() == start(self@.len()),
            walk.tail() == self.tail(),
            walk.stops(),
            walk.yields(self@.len()) == self@,
    {
        proof {
            lemma_once_around(self@, self@.len());
        }
        self.iter().once()
    }
}

/// A walk over a ring: the cell that comes next, the tail of the ring as it
/// was when the walk began, and whether the walk ends behind that tail.
pub struct CllIter<'a, T> {
    list: &'a CircularLinkedList<T>,
    cursor: Option<usize>,
    tail: Option<usize>,
    stop: bool,
}

impl<'a, T> CllIter<'a, T> {
    #[verifier::type_invariant]
    spec fn on_ring(self) -> bool {
        &&& self.list.is_ring()
        &&& self.tail == self.list.tail
        &&& match self.cursor {
            None => true,
            Some(p) => p < self.list.nodes@.len(),
        }
    }

    /// The values of the ring that is walked, from its head to its tail.
    pub closed spec fn ring(self) -> Seq<T> {
        self.list@
    }

    /// The place of the cell that comes next; `None` when the walk is over.
    pub closed spec fn cursor(self) -> Option<int> {
        place_of(self.cursor)
    }

    /// The place of the tail of the ring, as it was when the walk began.
    pub closed spec fn tail(self) -> Option<int> {
        place_of(self.tail)
    }

    /// The place that the cell at `place` of the ring links to.
    pub closed spec fn link(self, place: int) -> Option<int> {
        self.list.link(place)
    }

    /// Whether the walk ends behind the tail.
    pub closed spec fn stops(self) -> bool {
        self.stop
    }

    /// Where the walk stands after its next step: at the end when the step
    /// was from no cell, or from the tail on a walk that stops; else where
    /// the link of the cell under the cursor leads.
    pub open spec fn advanced(self) -> Option<int> {
        match self.cursor() {
            None => None,
            Some(p) => if self.stops() && self.tail() == Some(p) {
                None
            } else {
                self.link(p)
            },
        }
    }

    /// The values of the cells that the next `k` steps hand out.
    pub open spec fn yields(self, k: nat) -> Seq<T> {
        yields(self.ring(), self.cursor(), self.stops(), k)
    }

    /// The same walk, made to end behind the tail.
    pub fn once(self) -> (walk: Self)
        ensures
            walk.ring() == self.ring(),
            walk.cursor() == self.cursor(),
            walk.tail() == self.tail(),
            walk.stops(),
    {
        proof {
            use_type_invariant(&self);
        }
        CllIter { list: self.list, cursor: self.cursor, tail: self.tail, stop: true }
    }

    /// Whether `other` walks the same ring in the same way: the two differ
    /// at most in where they stand.
    pub open spec fn same_course(self, other: Self) -> bool {
        &&& other.ring() == self.ring()
        &&& other.tail() == self.tail()
        &&& other.stops() == self.stops()
    }

    /// Whether `after` is this walk `k` steps on.
    pub open spec fn moved_by(self, after: Self, k: nat) -> bool {
        &&& self.same_course(after)
        &&& after.cursor() == cursor_after(self.ring().len(), self.cursor(), self.stops(), k)
    }

    /// The same walk, handing out a copy of each value in place of the cell.
    pub fn map_copied(self) -> (values: CopiedValues<'a, T>) where T: Copy
        ensures
            values.walk() == self,
    {
        CopiedValues { walk: self }
    }

    /// The same walk, handing out a clone of each value in place of the
    /// cell.
    pub fn map_cloned(self) -> (values: ClonedValues<'a, T>) where T: Clone
        ensures
            values.walk() == self,
    {
        ClonedValues { walk: self }
    }

    /// Hands out the cell under the cursor and moves on: to the cell that
    /// follows, or, on the tail of a walk that stops, to the end.
    pub fn next(&mut self) -> (item: Option<&'a Node<T>>)
        ensures
            in_ring(old(self).ring().len(), old(self).cursor()),
            old(self).same_course(*final(self)),
            final(self).cursor() == old(self).advanced(),
            final(self).cursor() == step(
                old(self).ring().len(),
                old(self).cursor(),
                old(self).stops(),
            ),
            match old(self).cursor() {
                None => item is None,
                Some(p) => item matches Some(node) && node@ == old(self).ring()[p],
            },
    {
        proof {
            use_type_invariant(&*self);
        }
        match self.cursor {
            None => None,
            Some(p) => {
                let list: &'a CircularLinkedList<T> = self.list;
                let node = &list.nodes[p];
                assert(list.link(p as int) == Some(following(p as int, list@.len())));
                let at_tail = match self.tail {
                    Some(t) => t == p,
                    None => false,
                };
                if self.stop && at_tail {
                    self.cursor = None;
                } else {
                    self.cursor = node.next;
                }
                Some(node)
            },
        }
    }
}

impl<'a, T> Clone for CllIter<'a, T> {
    /// A second walk at the same place of the same ring.
    fn clone(&self) -> (walk: Self)
        ensures
            walk == *self,
    {
        proof {
            use_type_invariant(self);
        }
        CllIter { list: self.list, cursor: self.cursor, tail: self.tail, stop: self.stop }
    }
}

/// A walk that hands out copies of the values it passes.
pub struct CopiedValues<'a, T> {
    walk: CllIter<'a, T>,
}

impl<'a, T: Copy> CopiedValues<'a, T> {
    /// The walk over the cells.
    pub closed spec fn walk(self) -> CllIter<'a, T> {
        self.walk
    }

    /// Hands out a copy of the value under the cursor and moves on.
    pub fn next(&mut self) -> (item: Option<T>)
        ensures
            in_ring(old(self).walk().ring().len(), old(self).walk().cursor()),
            old(self).walk().same_course(final(self).walk()),
            final(self).walk().cursor() == old(self).walk().advanced(),
            final(self).walk().cursor() == step(
                old(self).walk().ring().len(),
                old(self).walk().cursor(),
                old(self).walk().stops(),
            ),
            item == match old(self).walk().cursor() {
                None => None,
                Some(p) => Some(old(self).walk().ring()[p]),
            },
    {
        match self.walk.next() {
            None => None,
            Some(node) => Some(node.value),
        }
    }

    /// Makes up to `n` steps and hands out the copies in order: fewer than
    /// `n` where the walk ends before.
    pub fn take(&mut self, n: usize) -> (items: Vec<T>)
        ensures
            items@ == old(self).walk().yields(n as nat),
            old(self).walk().moved_by(final(self).walk(), n as nat),
    {
        proof {
            use_type_invariant(&self.walk);
        }
        let ghost ring = self.walk().ring();
        let ghost from = self.walk().cursor();
        let ghost stops = self.walk().stops();
        proof {
            lemma_walk_begins(ring, from, stops);
        }
        let mut items: Vec<T> = Vec::new();
        let mut i: usize = 0;
        while i < n
            invariant_except_break
                i <= n,
            invariant
                in_ring(ring.len(), from),
                self.walk().ring() == ring,
                self.walk().stops() == stops,
                self.walk().tail() == old(self).walk().tail(),
                self.walk().cursor() == cursor_after(ring.len(), from, stops, i as nat),
                items@ == yields(ring, from, stops, i as nat),
            ensures
                self.walk().cursor() == cursor_after(ring.len(), from, stops, n as nat),
                items@ == yields(ring, from, stops, n as nat),
            decreases n - i,
        {
            proof {
                lemma_walk_extends(ring, from, stops, i as nat);
            }
            match self.next() {
                None => {
                    proof {
                        lemma_walk_ended(ring, from, stops, i as nat, n as nat);
                    }
                    break ;
                },
                Some(value) => {
                    items.push(value);
                    i = i + 1;
                },
            }
        }
        items
    }
}

/// A walk that hands out clones of the values it passes.
pub struct ClonedValues<'a, T> {
    walk: CllIter<'a, T>,
}

impl<'a, T: Clone> ClonedValues<'a, T> {
    /// The walk over the cells.
    pub closed spec fn walk(self) -> CllIter<'a, T> {
        self.walk
    }

    /// Hands out a clone of the value under the cursor and moves on.
    pub fn next(&mut self) -> (item: Option<T>)
        ensures
            in_ring(old(self).walk().ring().len(), old(self).walk().cursor()),
            old(self).walk().same_course(final(self).walk()),
            final(self).walk().cursor() == old(self).walk().advanced(),
            final(self).walk().cursor() == step(
                old(self).walk().ring().len(),
                old(self).walk().cursor(),
                old(self).walk().stops(),
            ),
            match old(self).walk().cursor() {
                None => item is None,
                Some(p) => item matches Some(value) && cloned(old(self).walk().ring()[p], value),
            },
    {
        match self.walk.next() {
            None => None,
            Some(node) => Some(node.value.clone()),
        }
    }

    /// Makes up to `n` steps and hands out the clones in order: fewer than
    /// `n` where the walk ends before.
    pub fn take(&mut self, n: usize) -> (items: Vec<T>)
        ensures
            items@.len() == old(self).walk().yields(n as nat).len(),
            forall|j: int|
                0 <= j < items@.len() ==> cloned(
                    old(self).walk().yields(n as nat)[j],
                    #[trigger] items@[j],
                ),
            old(self).walk().moved_by(final(self).walk(), n as nat),
    {
        proof {
            use_type_invariant(&self.walk);
        }
        let ghost ring = self.walk().ring();
        let ghost from = self.walk().cursor();
        let ghost stops = self.walk().stops();
        proof {
            lemma_walk_begins(ring, from, stops);
        }
        let mut items: Vec<T> = Vec::new();
        let mut i: usize = 0;
        while i < n
            invariant_except_break
                i <= n,
            invariant
                in_ring(ring.len(), from),
                self.walk().ring() == ring,
                self.walk().stops() == stops,
                self.walk().tail() == old(self).walk().tail(),
                self.walk().cursor() == cursor_after(ring.len(), from, stops, i as nat),
                items@.len() == yields(ring, from, stops, i as nat).len(),
                forall|j: int|
                    0 <= j < items@.len() ==> cloned(
                        yields(ring, from, stops, i as nat)[j],
                        #[trigger] items@[j],
                    ),
            ensures
                self.walk().cursor() == cursor_after(ring.len(), from, stops, n as nat),
                items@.len() == yields(ring, from, stops, n as nat).len(),
                forall|j: int|
                    0 <= j < items@.len() ==> cloned(
                        yields(ring, from, stops, n as nat)[j],
                        #[trigger] items@[j],
                    ),
            decreases n - i,
        {
            proof {
                lemma_walk_extends(ring, from, stops, i as nat);
            }
            match self.next() {
                None => {
                    proof {
                        lemma_walk_ended(ring, from, stops, i as nat, n as nat);
                    }
                    break ;
                },
                Some(value) => {
                    items.push(value);
                    i = i + 1;
                },
            }
        }
        items
    }
}

impl<T> Default for CircularLinkedList<T> {
    /// The empty ring.
    fn default() -> (list: Self)
        ensures
            list@ == Seq::<T>::empty(),
            list.head() is None,
            list.tail() is None,
    {
        CircularLinkedList::new()
    }
}

} // verus!
