use vstd::prelude::*;

verus! {

/// The link positions of one node: its neighbour towards the front and its
/// neighbour towards the back. A node that is in no list has neither.
pub struct Pointers {
    pub prev: Option<usize>,
    pub next: Option<usize>,
}

impl Pointers {
    /// The link positions of a node that is not linked.
    pub fn new() -> (pointers: Pointers)
        ensures
            pointers.is_clear(),
    {
        Pointers { prev: None, next: None }
    }

    /// Neither neighbour is set.
    pub open spec fn is_clear(&self) -> bool {
        self.prev.is_none() && self.next.is_none()
    }
}

/// A doubly linked list over a table of nodes.
///
/// A node is named by its index in the table. The list records only its two
/// ends; every other link is held in the nodes' own [`Pointers`], so that
/// linking and unlinking touch at most three nodes and move none.
pub struct LinkedList {
    head: Option<usize>,
    tail: Option<usize>,
    nodes: Vec<Pointers>,
    order: Ghost<Seq<usize>>,
}

impl View for LinkedList {
    type V = Seq<usize>;

    /// The linked nodes, from the front of the list to its back.
    closed spec fn view(&self) -> Seq<usize> {
        self.order@
    }
}

/// The nodes met by following `next` links from `cur`, for at most `fuel` steps.
pub open spec fn follow_next(nodes: Seq<Pointers>, cur: Option<usize>, fuel: nat) -> Seq<usize>
    decreases fuel,
{
    match cur {
        Some(n) if fuel > 0 && n < nodes.len() => seq![n] + follow_next(
            nodes,
            nodes[n as int].next,
            (fuel - 1) as nat,
        ),
        _ => Seq::empty(),
    }
}

/// The nodes met by following `prev` links from `cur`, for at most `fuel` steps.
pub open spec fn follow_prev(nodes: Seq<Pointers>, cur: Option<usize>, fuel: nat) -> Seq<usize>
    decreases fuel,
{
    match cur {
        Some(n) if fuel > 0 && n < nodes.len() => seq![n] + follow_prev(
            nodes,
            nodes[n as int].prev,
            (fuel - 1) as nat,
        ),
        _ => Seq::empty(),
    }
}

/// A sequence of distinct numbers below `bound` has at most `bound` members.
pub proof fn lemma_distinct_below_bound(s: Seq<usize>, bound: nat)
    requires
        s.no_duplicates(),
        forall|i: int| 0 <= i < s.len() ==> s[i] < bound,
    ensures
        s.len() <= bound,
    decreases bound,
{
    if bound == 0 {
        if s.len() > 0 {
            assert(s[0] < bound);
        }
    } else {
        let top: usize = (bound - 1) as usize;
        if s.contains(top) {
            let at: int = s.index_of(top);
            let rest = s.remove(at);
            assert forall|i: int| 0 <= i < rest.len() implies rest[i] < bound - 1 by {
                let j: int = if i < at { i } else { i + 1 };
                assert(rest[i] == s[j]);
                assert(s[j] < bound);
                assert(s[j] != s[at]);
            }
            assert(rest.no_duplicates()) by {
                assert forall|i: int, j: int| 0 <= i < rest.len() && 0 <= j < rest.len() && i != j implies rest[i] != rest[j] by {
                    let si: int = if i < at { i } else { i + 1 };
                    let sj: int = if j < at { j } else { j + 1 };
                    assert(rest[i] == s[si] && rest[j] == s[sj]);
                }
            }
            lemma_distinct_below_bound(rest, (bound - 1) as nat);
        } else {
            assert forall|i: int| 0 <= i < s.len() implies s[i] < bound - 1 by {
                assert(s[i] < bound);
                assert(s.contains(s[i]));
            }
            lemma_distinct_below_bound(s, (bound - 1) as nat);
        }
    }
}

impl LinkedList {
    /// The number of nodes in the table, linked or not.
    pub closed spec fn spec_capacity(&self) -> nat {
        self.nodes@.len()
    }

    /// The nodes met on the way from the front end to the back, link by link.
    pub closed spec fn forward(&self) -> Seq<usize> {
        follow_next(self.nodes@, self.head, self.nodes@.len())
    }

    /// The nodes met on the way from the back end to the front, link by link.
    pub closed spec fn backward(&self) -> Seq<usize> {
        follow_prev(self.nodes@, self.tail, self.nodes@.len())
    }

    /// The link positions stored for `node`.
    pub closed spec fn pointers(&self, node: int) -> Pointers {
        self.nodes@[node]
    }

    spec fn prev_at(&self, i: int) -> Option<usize> {
        if i == 0 {
            None
        } else {
            Some(self.order@[i - 1])
        }
    }

    spec fn next_at(&self, i: int) -> Option<usize> {
        if i + 1 == self.order@.len() {
            None
        } else {
            Some(self.order@[i + 1])
        }
    }

    /// The node at position `i` of the list points at its two neighbours.
    spec fn linked_at(&self, i: int) -> bool {
        let n = self.order@[i] as int;
        &&& n < self.nodes@.len()
        &&& self.nodes@[n].prev == self.prev_at(i)
        &&& self.nodes@[n].next == self.next_at(i)
    }

    /// The node `n` of the table points nowhere.
    spec fn unlinked(&self, n: usize) -> bool {
        self.nodes@[n as int].is_clear()
    }

    /// The links form one chain: each node occurs at most once, the two ends
    /// are the first and the last node, neighbours point at each other, and a
    /// node outside the chain points nowhere.
    pub closed spec fn wf(&self) -> bool {
        &&& self.order@.no_duplicates()
        &&& self.head == if self.order@.len() == 0 {
            None
        } else {
            Some(self.order@.first())
        }
        &&& self.tail == if self.order@.len() == 0 {
            None
        } else {
            Some(self.order@.last())
        }
        &&& forall|i: int| 0 <= i < self.order@.len() ==> #[trigger] self.linked_at(i)
        &&& forall|n: usize|
            n < self.nodes@.len() && !self.order@.contains(n) ==> #[trigger] self.unlinked(n)
    }

    /// In a well-formed list every linked node is a node of the table, no node
    /// is linked twice, and there are no more linked nodes than nodes.
    pub proof fn lemma_members(&self)
        requires
            self.wf(),
        ensures
            self@.no_duplicates(),
            forall|i: int| 0 <= i < self@.len() ==> #[trigger] self@[i] < self.spec_capacity(),
            self@.len() <= self.spec_capacity(),
    {
        assert forall|i: int| 0 <= i < self@.len() implies #[trigger] self@[i] < self.spec_capacity() by {
            assert(self.linked_at(i));
        }
        lemma_distinct_below_bound(self@, self.spec_capacity());
    }

    /// In a well-formed list a node that is not linked has clear pointers.
    pub proof fn lemma_unlinked_is_clear(&self, node: usize)
        requires
            self.wf(),
            node < self.spec_capacity(),
            !self@.contains(node),
        ensures
            self.pointers(node as int).is_clear(),
    {
        assert(self.unlinked(node));
    }

    proof fn lemma_follow_next(&self, i: int, fuel: nat)
        requires
            self.wf(),
            0 <= i <= self.order@.len(),
            fuel >= self.order@.len() - i,
        ensures
            follow_next(
                self.nodes@,
                if i < self.order@.len() {
                    Some(self.order@[i])
                } else {
                    None
                },
                fuel,
            ) == self.order@.skip(i),
        decreases self.order@.len() - i,
    {
        if i < self.order@.len() {
            assert(self.linked_at(i));
            self.lemma_follow_next(i + 1, (fuel - 1) as nat);
            assert(self.order@.skip(i) =~= seq![self.order@[i]] + self.order@.skip(i + 1));
        } else {
            assert(self.order@.skip(i) =~= Seq::<usize>::empty());
        }
    }

    proof fn lemma_follow_prev(&self, i: int, fuel: nat)
        requires
            self.wf(),
            0 <= i <= self.order@.len(),
            fuel >= i,
        ensures
            follow_prev(
                self.nodes@,
                if i > 0 {
                    Some(self.order@[i - 1])
                } else {
                    None
                },
                fuel,
            ) == self.order@.take(i).reverse(),
        decreases i,
    {
        if i > 0 {
            assert(self.linked_at(i - 1));
            self.lemma_follow_prev(i - 1, (fuel - 1) as nat);
            assert(self.order@.take(i).reverse() =~= seq![self.order@[i - 1]] + self.order@.take(
                i - 1,
            ).reverse());
        } else {
            assert(self.order@.take(i).reverse() =~= Seq::<usize>::empty());
        }
    }

    /// Walking a well-formed list link by link meets exactly its nodes: from
    /// the front in list order, from the back in the opposite order.
    pub proof fn lemma_traversals(&self)
        requires
            self.wf(),
        ensures
            self.forward() == self@,
            self.backward() == self@.reverse(),
    {
        self.lemma_members();
        self.lemma_follow_next(0, self.nodes@.len());
        assert(self.order@.skip(0) =~= self.order@);
        self.lemma_follow_prev(self.order@.len() as int, self.nodes@.len());
        assert(self.order@.take(self.order@.len() as int) =~= self.order@);
    }

    /// An empty list over an empty table.
    pub fn new() -> (list: LinkedList)
        ensures
            list.wf(),
            list@ == Seq::<usize>::empty(),
            list.spec_capacity() == 0,
    {
        LinkedList { head: None, tail: None, nodes: Vec::new(), order: Ghost(Seq::empty()) }
    }

    /// The number of nodes in the table.
    pub fn capacity(&self) -> (n: usize)
        ensures
            n == self.spec_capacity(),
    {
        self.nodes.len()
    }

    /// Adds one unlinked node to the table and returns its index.
    pub fn add_node(&mut self) -> (node: usize)
        requires
            old(self).wf(),
        ensures
            final(self).wf(),
            final(self)@ == old(self)@,
            node == old(self).spec_capacity(),
            final(self).spec_capacity() == old(self).spec_capacity() + 1,
    {
        let ghost pre = *self;
        let node: usize = self.nodes.len();
        self.nodes.push(Pointers::new());
        proof {
            assert forall|i: int| 0 <= i < self.order@.len() implies #[trigger] self.linked_at(i) by {
                assert(pre.linked_at(i));
            }
            assert forall|n: usize| n < self.nodes@.len() && !self.order@.contains(n) implies #[trigger] self.unlinked(n) by {
                if n < pre.nodes@.len() {
                    assert(pre.unlinked(n));
                }
            }
        }
        node
    }

    /// Links `node` in at the front.
    pub fn push_front(&mut self, node: usize)
        requires
            old(self).wf(),
            node < old(self).spec_capacity(),
            !old(self)@.contains(node),
        ensures
            final(self).wf(),
            final(self)@ == seq![node] + old(self)@,
            final(self).spec_capacity() == old(self).spec_capacity(),
    {
        let ghost pre = *self;
        let old_head = self.head;
        self.nodes[node].prev = None;
        self.nodes[node].next = old_head;
        match old_head {
            Some(h) => {
                proof {
                    assert(pre.linked_at(0));
                }
                self.nodes[h].prev = Some(node);
            },
            None => {
                self.tail = Some(node);
            },
        }
        self.head = Some(node);
        self.order = Ghost(seq![node] + pre.order@);
        proof {
            let order = self.order@;
            assert forall|i: int| 0 <= i < order.len() implies #[trigger] self.linked_at(i) by {
                if i > 0 {
                    assert(pre.linked_at(i - 1));
                    assert(order[i] == pre.order@[i - 1]);
                    assert(pre.order@.contains(order[i]));
                    if i > 1 {
                        assert(pre.linked_at(0));
                        assert(pre.order@[i - 1] != pre.order@[0]);
                    }
                } else if pre.order@.len() > 0 {
                    assert(pre.linked_at(0));
                }
            }
            assert(order.no_duplicates()) by {
                assert forall|i: int, j: int| 0 <= i < order.len() && 0 <= j < order.len() && i != j implies order[i] != order[j] by {
                    if i > 0 {
                        assert(pre.order@.contains(pre.order@[i - 1]));
                    }
                    if j > 0 {
                        assert(pre.order@.contains(pre.order@[j - 1]));
                    }
                }
            }
            assert forall|n: usize| n < self.nodes@.len() && !order.contains(n) implies #[trigger] self.unlinked(n) by {
                assert(order[0] == node);
                if pre.order@.contains(n) {
                    let j: int = pre.order@.index_of(n);
                    assert(order[j + 1] == n);
                }
                assert(pre.unlinked(n));
                if pre.order@.len() > 0 {
                    assert(order[1] == pre.order@[0]);
                }
            }
        }
    }

    /// Unlinks the node at the back and returns it; `None` if the list is empty.
    pub fn pop_back(&mut self) -> (node: Option<usize>)
        requires
            old(self).wf(),
        ensures
            final(self).wf(),
            final(self).spec_capacity() == old(self).spec_capacity(),
            old(self)@.len() == 0 ==> node.is_none() && final(self)@ == old(self)@,
            old(self)@.len() > 0 ==> node == Some(old(self)@.last()) && final(self)@ == old(self)@.drop_last(),
    {
        let ghost pre = *self;
        match self.tail {
            None => None,
            Some(t) => {
                proof {
                    assert(pre.linked_at(pre.order@.len() - 1));
                    if pre.order@.len() > 1 {
                        assert(pre.linked_at(pre.order@.len() - 2));
                    }
                }
                let prev = self.nodes[t].prev;
                self.nodes[t].prev = None;
                self.nodes[t].next = None;
                match prev {
                    Some(p) => {
                        self.nodes[p].next = None;
                    },
                    None => {
                        self.head = None;
                    },
                }
                self.tail = prev;
                self.order = Ghost(pre.order@.drop_last());
                proof {
                    let order = self.order@;
                    assert forall|i: int| 0 <= i < order.len() implies #[trigger] self.linked_at(
                        i,
                    ) by {
                        assert(pre.linked_at(i));
                        assert(order[i] == pre.order@[i]);
                    }
                    assert forall|n: usize| n < self.nodes@.len() && !order.contains(n) implies #[trigger] self.unlinked(n) by {
                        if n != t {
                            if pre.order@.contains(n) {
                                let j: int = pre.order@.index_of(n);
                                assert(order[j] == n);
                            }
                            assert(pre.unlinked(n));
                        }
                    }
                }
                Some(t)
            },
        }
    }

    /// Unlinks `node`, wherever in the list it stands.
    pub fn remove(&mut self, node: usize)
        requires
            old(self).wf(),
            old(self)@.contains(node),
        ensures
            final(self).wf(),
            final(self).spec_capacity() == old(self).spec_capacity(),
            final(self)@ == old(self)@.remove(old(self)@.index_of(node)),
    {
        let ghost pre = *self;
        let ghost at: int = pre.order@.index_of(node);
        proof {
            assert(pre.linked_at(at));
            if at > 0 {
                assert(pre.linked_at(at - 1));
            }
            if at + 1 < pre.order@.len() {
                assert(pre.linked_at(at + 1));
            }
        }
        let prev = self.nodes[node].prev;
        let next = self.nodes[node].next;
        match prev {
            Some(p) => {
                self.nodes[p].next = next;
            },
            None => {
                self.head = next;
            },
        }
        match next {
            Some(n) => {
                self.nodes[n].prev = prev;
            },
            None => {
                self.tail = prev;
            },
        }
        self.nodes[node].prev = None;
        self.nodes[node].next = None;
        self.order = Ghost(pre.order@.remove(at));
        proof {
            let order = self.order@;
            assert forall|i: int| 0 <= i < order.len() implies #[trigger] self.linked_at(i) by {
                let j: int = if i < at {
                    i
                } else {
                    i + 1
                };
                assert(pre.linked_at(j));
                assert(order[i] == pre.order@[j]);
            }
            assert(order.no_duplicates()) by {
                assert forall|i: int, j: int| 0 <= i < order.len() && 0 <= j < order.len() && i != j implies order[i] != order[j] by {
                    let si: int = if i < at {
                        i
                    } else {
                        i + 1
                    };
                    let sj: int = if j < at {
                        j
                    } else {
                        j + 1
                    };
                    assert(order[i] == pre.order@[si] && order[j] == pre.order@[sj]);
                }
            }
            assert forall|n: usize| n < self.nodes@.len() && !order.contains(n) implies #[trigger] self.unlinked(n) by {
                if n != node {
                    if pre.order@.contains(n) {
                        let j: int = pre.order@.index_of(n);
                        let i: int = if j < at {
                            j
                        } else {
                            j - 1
                        };
                        assert(order[i] == n);
                    }
                    assert(pre.unlinked(n));
                }
            }
        }
    }

    /// Whether no node is linked.
    pub fn is_empty(&self) -> (empty: bool)
        requires
            self.wf(),
        ensures
            empty == (self@.len() == 0),
    {
        self.head.is_none()
    }

    /// The number of linked nodes, counted from the front along the `next` links.
    pub fn len(&self) -> (n: usize)
        requires
            self.wf(),
        ensures
            n == self@.len(),
            n == self.forward().len(),
    {
        proof {
            self.lemma_members();
            self.lemma_traversals();
        }
        let capacity: usize = self.nodes.len();
        let mut count: usize = 0;
        let mut cur = self.head;
        while cur.is_some()
            invariant
                self.wf(),
                self.order@.len() <= capacity,
                count <= self.order@.len(),
                cur == if count < self.order@.len() {
                    Some(self.order@[count as int])
                } else {
                    None
                },
            decreases self.order@.len() - count,
        {
            let n: usize = cur.unwrap();
            proof {
                assert(self.linked_at(count as int));
            }
            cur = self.nodes[n].next;
            count = count + 1;
        }
        count
    }

    /// The number of linked nodes, counted from the back along the `prev` links.
    pub fn len_backwards(&self) -> (n: usize)
        requires
            self.wf(),
        ensures
            n == self@.len(),
            n == self.backward().len(),
    {
        proof {
            self.lemma_members();
            self.lemma_traversals();
        }
        let capacity: usize = self.nodes.len();
        let mut count: usize = 0;
        let mut cur = self.tail;
        while cur.is_some()
            invariant
                self.wf(),
                self.order@.len() <= capacity,
                count <= self.order@.len(),
                cur == if count < self.order@.len() {
                    Some(self.order@[self.order@.len() - 1 - count])
                } else {
                    None
                },
            decreases self.order@.len() - count,
        {
            let n: usize = cur.unwrap();
            proof {
                assert(self.linked_at(self.order@.len() - 1 - count));
            }
            cur = self.nodes[n].prev;
            count = count + 1;
        }
        count
    }
}

} // verus!
