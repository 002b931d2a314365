//! A doubly linked list whose nodes live in an arena of slots.
//!
//! Links are slot indices rather than pointers. A ghost sequence `order`
//! records which slot stands at each position, from head to tail; the list's
//! abstract value is the sequence of values read in that order.
use vstd::prelude::*;

verus! {

/// One slot of the arena: a value with its forward and backward links.
struct Node<T> {
    val: T,
    next: Option<usize>,
    prev: Option<usize>,
}

impl<T> Node<T> {
    /// A node holding `t`, linked to nothing.
    fn new(t: T) -> (r: Node<T>)
        ensures
            r.val == t,
            r.next is None,
            r.prev is None,
    {
        Node { val: t, prev: None, next: None }
    }
}

/// An ordered, mutable sequence with append at the tail, indexed lookup
/// from the head and in-place reversal.
pub struct LinkedList<T> {
    length: u32,
    start: Option<usize>,
    end: Option<usize>,
    nodes: Vec<Node<T>>,
    order: Ghost<Seq<usize>>,
}

/// The slot that follows position `i` in `ord`, if any.
pub open spec fn link_after(ord: Seq<usize>, i: int) -> Option<usize> {
    if i + 1 < ord.len() {
        Some(ord[i + 1])
    } else {
        None
    }
}

/// The slot that precedes position `i` in `ord`, if any.
pub open spec fn link_before(ord: Seq<usize>, i: int) -> Option<usize> {
    if i > 0 {
        Some(ord[i - 1])
    } else {
        None
    }
}

/// The first slot of `ord`, if any.
pub open spec fn first_slot(ord: Seq<usize>) -> Option<usize> {
    if ord.len() > 0 {
        Some(ord[0])
    } else {
        None
    }
}

/// The last slot of `ord`, if any.
pub open spec fn last_slot(ord: Seq<usize>) -> Option<usize> {
    if ord.len() > 0 {
        Some(ord.last())
    } else {
        None
    }
}

/// What `get` returns on a list that reads `s`: the value at `index`, or
/// nothing when `index` is negative or past the end.
pub open spec fn lookup<T>(s: Seq<T>, index: int) -> Option<T> {
    if 0 <= index < s.len() {
        Some(s[index])
    } else {
        None
    }
}

/// The value that an optional reference points to.
pub open spec fn deref_opt<T>(r: Option<&T>) -> Option<T> {
    match r {
        Some(v) => Some(*v),
        None => None,
    }
}

impl<T> View for LinkedList<T> {
    type V = Seq<T>;

    /// The values from head to tail.
    closed spec fn view(&self) -> Seq<T> {
        self.order@.map_values(|s: usize| self.nodes@[s as int].val)
    }
}

impl<T> LinkedList<T> {
    /// Well-formedness: `order` is a permutation of the slots, and the links,
    /// head and tail agree with it in both directions.
    pub closed spec fn wf(&self) -> bool {
        let n = self.nodes@.len();
        let ord = self.order@;
        &&& self.length as int == n
        &&& ord.len() == n
        &&& forall|i: int| 0 <= i < n ==> #[trigger] ord[i] < n
        &&& forall|i: int, j: int| 0 <= i < j < n ==> #[trigger] ord[i] != #[trigger] ord[j]
        &&& forall|i: int|
            0 <= i < n ==> #[trigger] self.nodes@[ord[i] as int].next == link_after(ord, i)
        &&& forall|i: int|
            0 <= i < n ==> #[trigger] self.nodes@[ord[i] as int].prev == link_before(ord, i)
        &&& self.start == first_slot(ord)
        &&& self.end == last_slot(ord)
    }

    /// An empty list.
    pub fn new() -> (r: Self)
        ensures
            r.wf(),
            r@ == Seq::<T>::empty(),
    {
        let r = LinkedList { length: 0, start: None, end: None, nodes: Vec::new(), order: Ghost(Seq::empty()) };
        assert(r@ =~= Seq::<T>::empty());
        r
    }

    /// The number of values in the list.
    pub fn len(&self) -> (r: u32)
        requires
            self.wf(),
        ensures
            r as int == self@.len(),
    {
        self.length
    }

    /// Appends `obj` after the current tail.
    pub fn add(&mut self, obj: T)
        requires
            old(self).wf(),
            old(self)@.len() < u32::MAX,
        ensures
            final(self).wf(),
            final(self)@ == old(self)@.push(obj),
    {
        let ghost old_nodes = self.nodes@;
        let ghost ord = self.order@;
        let idx = self.nodes.len();
        let mut node = Node::new(obj);
        node.next = None;
        node.prev = self.end;
        self.nodes.push(node);
        match self.end {
            None => self.start = Some(idx),
            Some(end_idx) => {
                let last = &mut self.nodes[end_idx];
                last.next = Some(idx);
            },
        }
        self.end = Some(idx);
        self.length = self.length + 1;
        self.order = Ghost(ord.push(idx));
        proof {
            let n = ord.len();
            let nord = self.order@;
            assert forall|i: int| 0 <= i < n + 1 implies #[trigger] self.nodes@[nord[i] as int].next
                == link_after(nord, i) by {
                if i < n {
                    assert(nord[i] == ord[i]);
                }
            }
            assert forall|i: int| 0 <= i < n + 1 implies #[trigger] self.nodes@[nord[i] as int].prev
                == link_before(nord, i) by {
                if i < n {
                    assert(nord[i] == ord[i]);
                    assert(old_nodes[ord[i] as int].prev == link_before(ord, i));
                }
            }
            assert forall|i: int, j: int| 0 <= i < j < n + 1 implies #[trigger] nord[i]
                != #[trigger] nord[j] by {
                if j < n {
                    assert(nord[i] == ord[i] && nord[j] == ord[j]);
                } else {
                    assert(nord[i] == ord[i]);
                }
            }
            assert(self@ =~= old(self)@.push(obj));
        }
    }

    /// The value at position `index`, found by walking forward from the head.
    /// A negative or out-of-range index gives `None`.
    pub fn get(&self, index: i32) -> (r: Option<&T>)
        requires
            self.wf(),
        ensures
            deref_opt(r) == lookup(self@, index as int),
    {
        self.get_ith_node(self.start, index, Ghost(0))
    }

    /// Walks `index` links forward from `node`, which stands at position `k`
    /// (or is `None` when `k` is past the end). A negative index gives `None`.
    fn get_ith_node(&self, node: Option<usize>, index: i32, Ghost(k): Ghost<int>) -> (r: Option<&T>)
        requires
            self.wf(),
            0 <= k <= self@.len(),
            node == (if k < self@.len() { Some(self.order@[k]) } else { None::<usize> }),
        ensures
            deref_opt(r) == (if index >= 0 { lookup(self@, k + index) } else { None }),
        decreases self@.len() - k,
    {
        if index < 0 {
            return None;
        }
        match node {
            None => None,
            Some(idx) => {
                proof {
                    assert(self.order@[k] < self.nodes@.len());
                }
                if index == 0 {
                    Some(&self.nodes[idx].val)
                } else {
                    self.get_ith_node(self.nodes[idx].next, index - 1, Ghost(k + 1))
                }
            },
        }
    }

    /// Reverses the list in place: every node swaps its forward and backward
    /// links, then head and tail swap.
    pub fn reverse(&mut self)
        requires
            old(self).wf(),
        ensures
            final(self).wf(),
            final(self)@ == old(self)@.reverse(),
    {
        let ghost old_nodes = self.nodes@;
        let ghost ord = self.order@;
        let ghost n = ord.len() as int;
        let ghost mut k: int = 0;
        let mut current = self.start;
        while current.is_some()
            invariant
                self.nodes@.len() == n,
                self.order@ == ord,
                self.length as int == n,
                self.start == first_slot(ord),
                self.end == last_slot(ord),
                ord.len() == n,
                old_nodes.len() == n,
                forall|i: int| 0 <= i < n ==> #[trigger] ord[i] < n,
                forall|i: int, j: int| 0 <= i < j < n ==> #[trigger] ord[i] != #[trigger] ord[j],
                forall|i: int|
                    0 <= i < n ==> #[trigger] old_nodes[ord[i] as int].next == link_after(ord, i),
                forall|i: int|
                    0 <= i < n ==> #[trigger] old_nodes[ord[i] as int].prev == link_before(ord, i),
                0 <= k <= n,
                current == (if k < n { Some(ord[k]) } else { None::<usize> }),
                forall|i: int| 0 <= i < k ==> {
                    let s = #[trigger] ord[i] as int;
                    &&& self.nodes@[s].next == old_nodes[s].prev
                    &&& self.nodes@[s].prev == old_nodes[s].next
                    &&& self.nodes@[s].val == old_nodes[s].val
                },
                forall|i: int| k <= i < n ==> #[trigger] self.nodes@[ord[i] as int] == old_nodes[ord[i] as int],
            decreases n - k,
        {
            let idx = current.unwrap();
            proof {
                assert(ord[k] < n);
            }
            let ghost before = self.nodes@;
            let node = &mut self.nodes[idx];
            current = node.next;
            let temp = node.prev;
            node.prev = node.next;
            node.next = temp;
            proof {
                assert forall|i: int| 0 <= i < n && i != k implies #[trigger] self.nodes@[ord[i] as int]
                    == before[ord[i] as int] by {
                    if i < k {
                        assert(ord[i] != ord[k]);
                    } else {
                        assert(ord[k] != ord[i]);
                    }
                }
                k = k + 1;
            }
        }
        std::mem::swap(&mut self.start, &mut self.end);
        self.order = Ghost(ord.reverse());
        proof {
            let nord = self.order@;
            assert forall|i: int| 0 <= i < n implies #[trigger] nord[i] == ord[n - 1 - i] by {}
            assert forall|i: int| 0 <= i < n implies #[trigger] nord[i] < n by {
                assert(ord[n - 1 - i] < n);
            }
            assert forall|i: int, j: int| 0 <= i < j < n implies #[trigger] nord[i]
                != #[trigger] nord[j] by {
                assert(nord[i] == ord[n - 1 - i] && nord[j] == ord[n - 1 - j]);
            }
            assert forall|i: int| 0 <= i < n implies #[trigger] self.nodes@[nord[i] as int].next
                == link_after(nord, i) by {
                assert(nord[i] == ord[n - 1 - i]);
                assert(old_nodes[ord[n - 1 - i] as int].prev == link_before(ord, n - 1 - i));
                if i + 1 < n {
                    assert(nord[i + 1] == ord[n - 1 - (i + 1)]);
                }
            }
            assert forall|i: int| 0 <= i < n implies #[trigger] self.nodes@[nord[i] as int].prev
                == link_before(nord, i) by {
                assert(nord[i] == ord[n - 1 - i]);
                assert(old_nodes[ord[n - 1 - i] as int].next == link_after(ord, n - 1 - i));
                if i > 0 {
                    assert(nord[i - 1] == ord[n - 1 - (i - 1)]);
                }
            }
            if n > 0 {
                assert(nord[0] == ord[n - 1]);
                assert(nord[n - 1] == ord[0]);
            }
            assert forall|i: int| 0 <= i < n implies #[trigger] self@[i] == old(self)@.reverse()[i] by {
                assert(nord[i] == ord[n - 1 - i]);
            }
            assert(self@ =~= old(self)@.reverse());
        }
    }
}

impl<T> Default for LinkedList<T> {
    fn default() -> (r: Self)
        ensures
            r.wf(),
            r@ == Seq::<T>::empty(),
    {
        Self::new()
    }
}

/// What a list that reads `base` reads after `add` of each value of `vals`,
/// first to last.
pub open spec fn appended<T>(base: Seq<T>, vals: Seq<T>) -> Seq<T>
    decreases vals.len(),
{
    if vals.len() == 0 {
        base
    } else {
        appended(base, vals.drop_last()).push(vals.last())
    }
}

/// After appending `v0, ..., v(n-1)` to an empty list, the list holds `n`
/// values and `get(i)` gives `vi` for `0 <= i < n` and nothing otherwise.
pub proof fn lemma_get_after_appends<T>(vals: Seq<T>, i: int)
    ensures
        appended(Seq::<T>::empty(), vals).len() == vals.len(),
        lookup(appended(Seq::<T>::empty(), vals), i) == (if 0 <= i < vals.len() {
            Some(vals[i])
        } else {
            None
        }),
    decreases vals.len(),
{
    if vals.len() > 0 {
        lemma_get_after_appends(vals.drop_last(), i);
    }
    assert(appended(Seq::<T>::empty(), vals) =~= vals) by {
        lemma_appended_from_empty(vals);
    }
}

proof fn lemma_appended_from_empty<T>(vals: Seq<T>)
    ensures
        appended(Seq::<T>::empty(), vals) == vals,
    decreases vals.len(),
{
    if vals.len() > 0 {
        lemma_appended_from_empty(vals.drop_last());
        assert(vals.drop_last().push(vals.last()) =~= vals);
    }
}

/// After `reverse` the list holds as many values as before, and `get(i)`
/// gives the value that stood at position `n - 1 - i`.
pub proof fn lemma_get_after_reverse<T>(s: Seq<T>, i: int)
    requires
        0 <= i < s.len(),
    ensures
        s.reverse().len() == s.len(),
        lookup(s.reverse(), i) == Some(s[s.len() - 1 - i]),
{
}

/// Reversing twice gives back the original order.
pub proof fn lemma_reverse_twice<T>(s: Seq<T>)
    ensures
        s.reverse().reverse() == s,
{
    if s.len() > 0 {
        assert(s.reverse().reverse() =~= s);
    }
}

/// Reversing a list of at most one value leaves it as it was.
pub proof fn lemma_reverse_small<T>(s: Seq<T>)
    requires
        s.len() <= 1,
    ensures
        s.reverse() == s,
{
    assert(s.reverse() =~= s);
}

} // verus!
