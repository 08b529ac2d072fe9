use vstd::prelude::*;
use crate::node::{Node, NodeIndex};

verus! {

/// An append-only singly linked list.
///
/// The nodes live in an arena, in the order in which they were appended, and
/// refer to each other by index: `head` and `tail` name the first and the last
/// node, and each node's `next` names the node after it.
#[derive(Debug)]
pub struct SinglyLinkedList<T> {
    nodes: Vec<Node<T>>,
    head: Option<NodeIndex>,
    tail: Option<NodeIndex>,
    length: usize,
}

impl<T> SinglyLinkedList<T> {
    /// The number of nodes the list counts.
    pub closed spec fn spec_len(&self) -> nat {
        self.length as nat
    }

    /// The first node, if any.
    pub closed spec fn spec_head(&self) -> Option<NodeIndex> {
        self.head
    }

    /// The last node, if any.
    pub closed spec fn spec_tail(&self) -> Option<NodeIndex> {
        self.tail
    }

    /// Whether `i` is the handle of a node of this list.
    pub closed spec fn has_node(&self, i: NodeIndex) -> bool {
        i < self.nodes.len()
    }

    /// The node with handle `i`.
    pub closed spec fn spec_node(&self, i: NodeIndex) -> Node<T> {
        self.nodes@[i as int]
    }

    /// The node reached from `from` by following `k` links; `None` once the
    /// chain has ended.
    pub closed spec fn follow(&self, from: Option<NodeIndex>, k: nat) -> Option<NodeIndex>
        decreases k,
    {
        if k == 0 {
            from
        } else {
            match from {
                None => None,
                Some(i) => if i < self.nodes.len() {
                    self.follow(self.nodes@[i as int].next, (k - 1) as nat)
                } else {
                    None
                },
            }
        }
    }

    /// The payloads met when walking the links from `from`, visiting at most
    /// `fuel` nodes.
    pub closed spec fn values_from(&self, from: Option<NodeIndex>, fuel: nat) -> Seq<T>
        decreases fuel,
    {
        match from {
            None => Seq::empty(),
            Some(i) => if fuel == 0 || i >= self.nodes.len() {
                Seq::empty()
            } else {
                seq![self.nodes@[i as int].data] + self.values_from(
                    self.nodes@[i as int].next,
                    (fuel - 1) as nat,
                )
            },
        }
    }

    /// The handle of the node at position `i` of the chain, `None` past its end.
    spec fn position(&self, i: int) -> Option<NodeIndex> {
        if 0 <= i < self.length {
            Some(i as usize)
        } else {
            None
        }
    }

    /// The list is well formed: the arena holds exactly the counted nodes, in
    /// chain order, each linked to the next and the last one to nothing.
    pub closed spec fn wf(&self) -> bool {
        &&& self.nodes.len() == self.length
        &&& self.head == self.position(0)
        &&& self.tail == self.position(self.length - 1)
        &&& forall|i: int|
            0 <= i < self.length ==> (#[trigger] self.nodes@[i]).next == self.position(i + 1)
    }
}

impl<T> View for SinglyLinkedList<T> {
    type V = Seq<T>;

    /// The payloads in the order met when walking the links from the head.
    closed spec fn view(&self) -> Seq<T> {
        self.values_from(self.head, self.nodes.len() as nat)
    }
}

impl<T> SinglyLinkedList<T> {
    /// Walking a well-formed list from position `i` yields the payloads of
    /// the arena from `i` on.
    proof fn lemma_values_from_position(&self, i: nat)
        requires
            self.wf(),
            i <= self.spec_len(),
        ensures
            self.values_from(self.position(i as int), (self.spec_len() - i) as nat)
                == self.nodes@.subrange(i as int, self.length as int).map_values(|n: Node<T>| n.data),
        decreases self.spec_len() - i,
    {
        let rest = self.nodes@.subrange(i as int, self.length as int).map_values(|n: Node<T>| n.data);
        if i == self.spec_len() {
            assert(rest =~= Seq::<T>::empty());
        } else {
            self.lemma_values_from_position(i + 1);
            let later = self.nodes@.subrange(i + 1 as int, self.length as int).map_values(|n: Node<T>| n.data);
            assert(self.nodes@[i as int].next == self.position(i + 1 as int));
            assert(rest =~= seq![self.nodes@[i as int].data] + later);
        }
    }

    /// In a well-formed list the payloads in chain order are those of the
    /// arena.
    proof fn lemma_view_is_arena(&self)
        requires
            self.wf(),
        ensures
            self@ == self.nodes@.map_values(|n: Node<T>| n.data),
    {
        self.lemma_values_from_position(0);
        assert(self.nodes@.subrange(0, self.length as int) =~= self.nodes@);
    }

    /// Following `k` links from position `i` of a well-formed list leads to
    /// position `i + k`.
    proof fn lemma_follow_from_position(&self, i: nat, k: nat)
        requires
            self.wf(),
            i <= self.spec_len(),
        ensures
            self.follow(self.position(i as int), k) == self.position((i + k) as int),
        decreases k,
    {
        if k > 0 && i < self.spec_len() {
            assert(self.nodes@[i as int].next == self.position(i + 1 as int));
            self.lemma_follow_from_position(i + 1, (k - 1) as nat);
        }
    }
}

impl<T> SinglyLinkedList<T> {
    /// `self` is `before` with one node holding `data` appended after its
    /// tail: the new node is the tail, the old tail links to it, the head is
    /// kept once set, and every other node stays as it was.
    pub open spec fn appended(&self, before: Self, data: T) -> bool {
        let t = self.spec_tail()->Some_0;
        &&& self.wf()
        &&& self.spec_len() == before.spec_len() + 1
        &&& self@ == before@.push(data)
        &&& self.spec_tail() is Some
        &&& !before.has_node(t)
        &&& self.has_node(t)
        &&& self.spec_node(t).data == data
        &&& self.spec_node(t).next is None
        &&& before.spec_len() == 0 ==> self.spec_head() == self.spec_tail()
        &&& before.spec_len() > 0 ==> self.spec_head() == before.spec_head()
        &&& forall|i: NodeIndex| #[trigger]
            before.has_node(i) ==> {
                &&& self.has_node(i)
                &&& self.spec_node(i).data == before.spec_node(i).data
                &&& self.spec_node(i).next == if before.spec_tail() == Some(i) {
                    self.spec_tail()
                } else {
                    before.spec_node(i).next
                }
            }
    }

    /// An empty list.
    pub fn new() -> (list: Self)
        ensures
            list.wf(),
            list.spec_len() == 0,
            list.spec_head() is None,
            list.spec_tail() is None,
            list@ == Seq::<T>::empty(),
    {
        SinglyLinkedList { nodes: Vec::new(), head: None, tail: None, length: 0 }
    }

    /// Appends `data` as a new node after the tail.
    pub fn push(&mut self, data: T)
        requires
            old(self).wf(),
            old(self).spec_len() < usize::MAX,
        ensures
            final(self).appended(*old(self), data),
    {
        proof {
            self.lemma_view_is_arena();
        }
        let index: NodeIndex = self.nodes.len();
        self.nodes.push(Node::new(data));
        match self.tail.take() {
            Some(old_tail) => {
                self.nodes[old_tail].next = Some(index);
            },
            None => {
                self.head = Some(index);
            },
        }
        self.tail = Some(index);
        self.length = self.length + 1;
        proof {
            self.lemma_view_is_arena();
            assert(self.nodes@.map_values(|n: Node<T>| n.data) =~= old(self).nodes@.map_values(
                |n: Node<T>| n.data,
            ).push(data));
        }
    }
}

impl<T> SinglyLinkedList<T> {
    /// The number of nodes.
    pub fn len(&self) -> (r: usize)
        ensures
            r == self.spec_len(),
    {
        self.length
    }

    /// The handle of the first node, if any.
    pub fn head(&self) -> (r: Option<NodeIndex>)
        ensures
            r == self.spec_head(),
    {
        self.head
    }

    /// The handle of the last node, if any.
    pub fn tail(&self) -> (r: Option<NodeIndex>)
        ensures
            r == self.spec_tail(),
    {
        self.tail
    }

    /// The node with handle `i`, or `None` where the list has no such node.
    pub fn node(&self, i: NodeIndex) -> (r: Option<&Node<T>>)
        ensures
            self.has_node(i) ==> (r matches Some(n) && *n == self.spec_node(i)),
            !self.has_node(i) ==> r is None,
    {
        if i < self.nodes.len() {
            Some(&self.nodes[i])
        } else {
            None
        }
    }
}

/// `states` are the successive states of a list that starts empty and has the
/// values of `vs` pushed onto it in order: `states[j]` is the list after the
/// first `j` pushes.
pub open spec fn pushes_from_empty<T>(states: Seq<SinglyLinkedList<T>>, vs: Seq<T>) -> bool {
    &&& states.len() == vs.len() + 1
    &&& states[0].wf()
    &&& states[0].spec_len() == 0
    &&& forall|i: int| #![trigger vs[i]] 0 <= i < vs.len() ==> states[i + 1].appended(states[i], vs[i])
}

/// After `j` pushes onto an empty list, the list is well formed, counts `j`
/// nodes, and holds the first `j` pushed values in the order they were pushed.
pub proof fn lemma_pushes_count_and_order<T>(states: Seq<SinglyLinkedList<T>>, vs: Seq<T>)
    requires
        pushes_from_empty(states, vs),
    ensures
        forall|j: int|
            0 <= j <= vs.len() ==> {
                &&& (#[trigger] states[j]).wf()
                &&& states[j].spec_len() == j
                &&& states[j]@ == vs.take(j)
            },
{
    assert forall|j: int| 0 <= j <= vs.len() implies {
        &&& (#[trigger] states[j]).wf()
        &&& states[j].spec_len() == j
        &&& states[j]@ == vs.take(j)
    } by {
        lemma_prefix_of_pushes(states, vs, j);
    }
}

proof fn lemma_prefix_of_pushes<T>(states: Seq<SinglyLinkedList<T>>, vs: Seq<T>, j: int)
    requires
        pushes_from_empty(states, vs),
        0 <= j <= vs.len(),
    ensures
        states[j].wf(),
        states[j].spec_len() == j,
        states[j]@ == vs.take(j),
    decreases j,
{
    if j == 0 {
        states[0].lemma_view_is_arena();
        assert(states[0]@ =~= vs.take(0));
    } else {
        lemma_prefix_of_pushes(states, vs, j - 1);
        assert(states[j].appended(states[j - 1], vs[j - 1]));
        assert(vs.take(j) =~= vs.take(j - 1).push(vs[j - 1]));
    }
}

/// Once the first push has set the head, later pushes keep it: it names the
/// same node, which still holds the first pushed value.
pub proof fn lemma_head_stable<T>(states: Seq<SinglyLinkedList<T>>, vs: Seq<T>)
    requires
        pushes_from_empty(states, vs),
        vs.len() >= 1,
    ensures
        forall|j: int|
            1 <= j <= vs.len() ==> {
                let h = states[1].spec_head()->Some_0;
                &&& states[1].spec_head() is Some
                &&& (#[trigger] states[j]).spec_head() == states[1].spec_head()
                &&& states[j].has_node(h)
                &&& states[j].spec_node(h).data == vs[0]
            },
{
    assert forall|j: int| 1 <= j <= vs.len() implies {
        let h = states[1].spec_head()->Some_0;
        &&& states[1].spec_head() is Some
        &&& (#[trigger] states[j]).spec_head() == states[1].spec_head()
        &&& states[j].has_node(h)
        &&& states[j].spec_node(h).data == vs[0]
    } by {
        lemma_head_kept(states, vs, j);
    }
}

proof fn lemma_head_kept<T>(states: Seq<SinglyLinkedList<T>>, vs: Seq<T>, j: int)
    requires
        pushes_from_empty(states, vs),
        1 <= j <= vs.len(),
    ensures
        states[1].spec_head() is Some,
        states[j].spec_head() == states[1].spec_head(),
        states[j].has_node(states[1].spec_head()->Some_0),
        states[j].spec_node(states[1].spec_head()->Some_0).data == vs[0],
    decreases j,
{
    assert(states[1].appended(states[0], vs[0]));
    if j > 1 {
        lemma_head_kept(states, vs, j - 1);
        lemma_prefix_of_pushes(states, vs, j - 1);
        assert(states[j].appended(states[j - 1], vs[j - 1]));
        assert(states[j - 1].has_node(states[1].spec_head()->Some_0));
    }
}

/// In a list that is not empty the tail links to nothing and is the node
/// reached from the head by `length - 1` links; one link further the chain
/// has ended.
pub proof fn lemma_tail_is_last<T>(list: SinglyLinkedList<T>)
    requires
        list.wf(),
        list.spec_len() >= 1,
    ensures
        list.spec_tail() is Some,
        list.has_node(list.spec_tail()->Some_0),
        list.spec_node(list.spec_tail()->Some_0).next is None,
        list.follow(list.spec_head(), (list.spec_len() - 1) as nat) == list.spec_tail(),
        list.follow(list.spec_head(), list.spec_len()) is None,
{
    list.lemma_follow_from_position(0, (list.spec_len() - 1) as nat);
    list.lemma_follow_from_position(0, list.spec_len());
    assert(list.nodes@[list.length - 1].next == list.position(list.length as int));
}

/// Walking the links from the head meets exactly `length` nodes, and the
/// `k`-th of them holds the `k`-th value of the list.
pub proof fn lemma_traversal<T>(list: SinglyLinkedList<T>)
    requires
        list.wf(),
    ensures
        list@.len() == list.spec_len(),
        forall|k: nat|
            k < list.spec_len() ==> {
                let at = #[trigger] list.follow(list.spec_head(), k);
                &&& at is Some
                &&& list.has_node(at->Some_0)
                &&& list@[k as int] == list.spec_node(at->Some_0).data
            },
        list.follow(list.spec_head(), list.spec_len()) is None,
{
    list.lemma_view_is_arena();
    list.lemma_follow_from_position(0, list.spec_len());
    assert forall|k: nat| k < list.spec_len() implies {
        let at = #[trigger] list.follow(list.spec_head(), k);
        &&& at is Some
        &&& list.has_node(at->Some_0)
        &&& list@[k as int] == list.spec_node(at->Some_0).data
    } by {
        list.lemma_follow_from_position(0, k);
    }
}

} // verus!
