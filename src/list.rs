use vstd::prelude::*;

verus! {

/// Handle of the sentinel node: the arena slot the ring is anchored at.
pub const SENTINEL: usize = 0;

/// One slot of the arena: a value (absent for the sentinel and for free slots)
/// and the handles of its two neighbours in the ring.
struct Node<T> {
    value: Option<T>,
    prev: usize,
    next: usize,
}

/// A circular doubly-linked list with a sentinel, holding a comparator used by
/// `index_of` and a disposal callback used by `destroy`.
///
/// The disposal callback runs only through `destroy`: a list that is simply
/// dropped releases its nodes and values without calling it, so callers whose
/// values need disposal must end each list with `destroy`.
pub struct List<T, C, D> {
    compare_to: C,
    destroy_data: D,
    nodes: Vec<Node<T>>,
    free: Vec<usize>,
    len: usize,
    order: Ghost<Seq<usize>>,
}

/// On some run, the comparator reported `a` and `b` equal (returned zero).
pub open spec fn reports_equal<T, C: Fn(&T, &T) -> i32>(c: C, a: T, b: T) -> bool {
    call_ensures(c, (&a, &b), 0i32)
}

/// On some run, the comparator reported `a` and `b` unequal (returned non-zero).
pub open spec fn reports_unequal<T, C: Fn(&T, &T) -> i32>(c: C, a: T, b: T) -> bool {
    exists|r: i32| r != 0 && #[trigger] call_ensures(c, (&a, &b), r)
}

/// `r` is an outcome of a front-to-back search for `v` in `s` with the
/// comparator `c`: the first position where `c(v, _)` reported equality, after
/// non-zero reports at every earlier position; `None` when every position
/// reported non-zero.
pub open spec fn search_result<T, C: Fn(&T, &T) -> i32>(
    c: C,
    s: Seq<T>,
    v: T,
    r: Option<usize>,
) -> bool {
    match r {
        Some(i) => {
            &&& i < s.len()
            &&& reports_equal(c, v, s[i as int])
            &&& forall|j: int| 0 <= j < i ==> #[trigger] reports_unequal(c, v, s[j])
        },
        None => forall|j: int| 0 <= j < s.len() ==> #[trigger] reports_unequal(c, v, s[j]),
    }
}

/// The comparator returns zero exactly on equal arguments.
pub open spec fn consistent_with_eq<T, C: Fn(&T, &T) -> i32>(c: C) -> bool {
    forall|a: T, b: T, r: i32| #[trigger] call_ensures(c, (&a, &b), r) ==> (r == 0 <==> a == b)
}

impl<T, C, D> View for List<T, C, D> {
    type V = Seq<T>;

    /// The stored values, front (most recently added) to back.
    closed spec fn view(&self) -> Seq<T> {
        Seq::new(self.order@.len(), |i: int| self.nodes@[self.order@[i] as int].value->Some_0)
    }
}

impl<T, C, D> List<T, C, D> where C: Fn(&T, &T) -> i32, D: Fn(&T) {
    /// The comparator the list was built with.
    pub closed spec fn compare_fn(&self) -> C {
        self.compare_to
    }

    /// The disposal callback the list was built with.
    pub closed spec fn destroy_fn(&self) -> D {
        self.destroy_data
    }

    /// Handles of the real nodes, front to back.
    pub closed spec fn handles(&self) -> Seq<usize> {
        self.order@
    }

    /// The node reached after `k` steps forward from the sentinel, for
    /// `0 <= k <= len + 1`: the sentinel at both ends, the real nodes between.
    pub open spec fn ring_at(&self, k: int) -> usize {
        if 1 <= k <= self.handles().len() {
            self.handles()[k - 1]
        } else {
            SENTINEL
        }
    }

    /// The `next` link stored in the node with handle `h`.
    pub closed spec fn next_link(&self, h: usize) -> usize {
        self.nodes@[h as int].next
    }

    /// The `prev` link stored in the node with handle `h`.
    pub closed spec fn prev_link(&self, h: usize) -> usize {
        self.nodes@[h as int].prev
    }

    /// The ring step from position `k` to `k + 1` is linked both ways.
    spec fn linked(&self, k: int) -> bool {
        &&& self.nodes@[self.ring_at(k) as int].next == self.ring_at(k + 1)
        &&& self.nodes@[self.ring_at(k + 1) as int].prev == self.ring_at(k)
    }

    /// The node with handle `h` is a real node holding a value.
    spec fn live(&self, h: usize) -> bool {
        &&& 1 <= h < self.nodes@.len()
        &&& self.nodes@[h as int].value is Some
    }

    /// The slot `h` is a released slot, ready for reuse.
    spec fn vacant(&self, h: usize) -> bool {
        &&& 1 <= h < self.nodes@.len()
        &&& self.nodes@[h as int].value is None
    }

    /// Well-formedness: the sentinel and the `len` real nodes form one doubly
    /// linked ring; every other slot is on the free list exactly once; both
    /// callbacks accept every argument.
    pub closed spec fn wf(&self) -> bool {
        &&& self.nodes@.len() >= 1
        &&& self.nodes@[SENTINEL as int].value is None
        &&& self.len == self.order@.len()
        &&& self.nodes@.len() == 1 + self.len + self.free@.len()
        &&& forall|i: int| 0 <= i < self.len ==> #[trigger] self.live(self.order@[i])
        &&& forall|i: int, j: int|
            0 <= i < self.len && 0 <= j < self.len && i != j ==> self.order@[i]
                != self.order@[j]
        &&& forall|i: int| 0 <= i < self.free@.len() ==> #[trigger] self.vacant(self.free@[i])
        &&& forall|i: int, j: int|
            0 <= i < self.free@.len() && 0 <= j < self.free@.len() && i != j ==> self.free@[i]
                != self.free@[j]
        &&& forall|k: int| 0 <= k <= self.len ==> #[trigger] self.linked(k)
        &&& forall|a: T, b: T| #[trigger] call_requires(self.compare_to, (&a, &b))
        &&& forall|v: T| #[trigger] call_requires(self.destroy_data, (&v,))
    }

    /// Every position of the ring names a slot of the arena; the inner
    /// positions name real nodes.
    proof fn lemma_ring_at(&self, k: int)
        requires
            self.wf(),
            0 <= k <= self.len + 1,
        ensures
            self.ring_at(k) < self.nodes@.len(),
            1 <= k <= self.len ==> self.live(self.ring_at(k)),
            k == 0 || k == self.len + 1 ==> self.ring_at(k) == SENTINEL,
    {
        if 1 <= k <= self.len {
            assert(self.live(self.order@[k - 1]));
        }
    }

    /// Positions `0..=len` of the ring name pairwise distinct nodes.
    proof fn lemma_ring_distinct(&self, i: int, j: int)
        requires
            self.wf(),
            0 <= i < j <= self.len,
        ensures
            self.ring_at(i) != self.ring_at(j),
    {
        self.lemma_ring_at(j);
        if i >= 1 {
            assert(self.order@[i - 1] != self.order@[j - 1]);
        }
    }

    /// A handle accepted by the accessors names a slot of the arena.
    proof fn lemma_handle_in_ring(&self, h: usize)
        requires
            self.wf(),
            h == SENTINEL || self.handles().contains(h),
        ensures
            h < self.nodes@.len(),
    {
        if h != SENTINEL {
            let i = choose|i: int| 0 <= i < self.order@.len() && self.order@[i] == h;
            assert(self.live(self.order@[i]));
        }
    }

    /// The node reached from `h` by following `next` links `k` times.
    pub open spec fn walk_next(&self, h: usize, k: nat) -> usize
        decreases k,
    {
        if k == 0 {
            h
        } else {
            self.next_link(self.walk_next(h, (k - 1) as nat))
        }
    }

    /// The node reached from `h` by following `prev` links `k` times.
    pub open spec fn walk_prev(&self, h: usize, k: nat) -> usize
        decreases k,
    {
        if k == 0 {
            h
        } else {
            self.prev_link(self.walk_prev(h, (k - 1) as nat))
        }
    }

    proof fn lemma_walk_next_from_sentinel(&self, k: nat)
        requires
            self.wf(),
            k <= self.len + 1,
        ensures
            self.walk_next(SENTINEL, k) == self.ring_at(k as int),
        decreases k,
    {
        if k > 0 {
            self.lemma_walk_next_from_sentinel((k - 1) as nat);
            assert(self.linked(k - 1));
        }
    }

    proof fn lemma_walk_prev_along_ring(&self, j: int, m: nat)
        requires
            self.wf(),
            m <= j <= self.len + 1,
        ensures
            self.walk_prev(self.ring_at(j), m) == self.ring_at(j - m),
        decreases m,
    {
        if m > 0 {
            self.lemma_walk_prev_along_ring(j, (m - 1) as nat);
            assert(self.linked(j - m));
        }
    }

    /// The ring is well linked in both directions: following `next` from the
    /// sentinel visits the stored nodes front to back and comes back to the
    /// sentinel after `len + 1` steps; following `prev` visits the same nodes
    /// in reverse order; and walking back `k` steps after walking forward `k`
    /// steps returns to the sentinel.
    pub proof fn lemma_ring_walks(&self)
        requires
            self.wf(),
        ensures
            forall|k: nat|
                k <= self@.len() + 1 ==> #[trigger] self.walk_next(SENTINEL, k) == self.ring_at(
                    k as int,
                ),
            forall|k: nat|
                k <= self@.len() + 1 ==> #[trigger] self.walk_prev(SENTINEL, k) == self.walk_next(
                    SENTINEL,
                    (self@.len() + 1 - k) as nat,
                ),
            forall|k: nat|
                k <= self@.len() + 1 ==> #[trigger] self.walk_prev(
                    self.walk_next(SENTINEL, k),
                    k,
                ) == SENTINEL,
            self.walk_next(SENTINEL, (self@.len() + 1) as nat) == SENTINEL,
            self.handles().len() == self@.len(),
            forall|i: int, j: int|
                0 <= i < self@.len() && 0 <= j < self@.len() && i != j ==> self.handles()[i]
                    != self.handles()[j],
            forall|i: int| 0 <= i < self@.len() ==> #[trigger] self.handles()[i] != SENTINEL,
    {
        let n = self.len + 1;
        assert forall|k: nat| k <= self@.len() + 1 implies #[trigger] self.walk_next(SENTINEL, k)
            == self.ring_at(k as int) by {
            self.lemma_walk_next_from_sentinel(k);
        }
        assert forall|k: nat| k <= self@.len() + 1 implies #[trigger] self.walk_prev(SENTINEL, k)
            == self.walk_next(SENTINEL, (self@.len() + 1 - k) as nat) by {
            self.lemma_walk_prev_along_ring(n, k);
            self.lemma_walk_next_from_sentinel((n - k) as nat);
        }
        assert forall|k: nat| k <= self@.len() + 1 implies #[trigger] self.walk_prev(
            self.walk_next(SENTINEL, k),
            k,
        ) == SENTINEL by {
            self.lemma_walk_next_from_sentinel(k);
            self.lemma_walk_prev_along_ring(k as int, k);
        }
        self.lemma_walk_next_from_sentinel(n as nat);
        assert forall|i: int| 0 <= i < self@.len() implies #[trigger] self.handles()[i]
            != SENTINEL by {
            assert(self.live(self.order@[i]));
        }
    }

    /// In an empty list the sentinel is linked to itself both ways.
    pub proof fn lemma_empty_ring(&self)
        requires
            self.wf(),
            self@.len() == 0,
        ensures
            self.next_link(SENTINEL) == SENTINEL,
            self.prev_link(SENTINEL) == SENTINEL,
    {
        assert(self.linked(0));
    }

    /// Creates an empty list: the sentinel alone, linked to itself both ways.
    pub fn new(compare_to: C, destroy_data: D) -> (r: Self)
        requires
            forall|a: T, b: T| #[trigger] call_requires(compare_to, (&a, &b)),
            forall|v: T| #[trigger] call_requires(destroy_data, (&v,)),
        ensures
            r.wf(),
            r@ == Seq::<T>::empty(),
            r.handles().len() == 0,
            r.compare_fn() == compare_to,
            r.destroy_fn() == destroy_data,
    {
        let mut nodes: Vec<Node<T>> = Vec::new();
        nodes.push(Node { value: None, prev: SENTINEL, next: SENTINEL });
        let r = List {
            compare_to,
            destroy_data,
            nodes,
            free: Vec::new(),
            len: 0,
            order: Ghost(Seq::empty()),
        };
        proof {
            assert(r.linked(0));
            assert(r@ =~= Seq::<T>::empty());
        }
        r
    }

    /// Inserts `value` right after the sentinel, at the front of the list.
    pub fn add(&mut self, value: T)
        requires
            old(self).wf(),
        ensures
            final(self).wf(),
            final(self).compare_fn() == old(self).compare_fn(),
            final(self).destroy_fn() == old(self).destroy_fn(),
            final(self)@ == seq![value] + old(self)@,
            final(self).handles().len() == final(self)@.len(),
            exists|h: usize|
                h != SENTINEL && !old(self).handles().contains(h) && final(self).handles() == seq![h]
                    + old(self).handles(),
    {
        proof {
            assert(self.linked(0));
            self.lemma_ring_at(1);
        }
        let ghost pre = *self;
        let ghost v = value;
        let first = self.nodes[SENTINEL].next;
        let node = Node { value: Some(value), prev: SENTINEL, next: first };
        // A released slot is reused before the arena grows.
        let slot: usize = match self.free.pop() {
            Some(f) => {
                proof {
                    assert(pre.vacant(pre.free@.last()));
                }
                self.nodes[f] = node;
                f
            },
            None => {
                self.nodes.push(node);
                self.nodes.len() - 1
            },
        };
        // Every slot but the sentinel's holds a live node or is free, so the
        // count of live nodes stays below the arena's length.
        let slots = self.nodes.len();
        proof {
            assert(self.len < slots);
        }
        self.nodes[first].prev = slot;
        self.nodes[SENTINEL].next = slot;
        self.len = self.len + 1;
        self.order = Ghost(seq![slot] + self.order@);
        proof {
            assert(slot != SENTINEL && slot != first);
            assert forall|i: int| 0 <= i < pre.len implies pre.order@[i] != slot by {
                assert(pre.live(pre.order@[i]));
            }
            assert forall|h: int| 0 <= h < self.nodes@.len() implies {
                &&& self.nodes@[h].value == (if h == slot as int {
                    Some(v)
                } else {
                    pre.nodes@[h].value
                })
                &&& self.nodes@[h].next == (if h == SENTINEL as int {
                    slot
                } else if h == slot as int {
                    first
                } else {
                    pre.nodes@[h].next
                })
                &&& self.nodes@[h].prev == (if h == first as int {
                    slot
                } else if h == slot as int {
                    SENTINEL
                } else {
                    pre.nodes@[h].prev
                })
            } by {}
            assert forall|i: int| 0 <= i < self.len implies #[trigger] self.live(
                self.order@[i],
            ) by {
                if i >= 1 {
                    assert(pre.live(pre.order@[i - 1]));
                }
            }
            assert forall|i: int| 0 <= i < self.free@.len() implies #[trigger] self.vacant(
                self.free@[i],
            ) by {
                assert(pre.vacant(pre.free@[i]));
                assert(pre.free@[i] != slot);
            }
            assert forall|k: int| 0 <= k <= self.len implies #[trigger] self.linked(k) by {
                if k >= 2 {
                    assert(pre.linked(k - 1));
                    assert(self.ring_at(k) == pre.ring_at(k - 1));
                    assert(self.ring_at(k + 1) == pre.ring_at(k));
                    pre.lemma_ring_at(k - 1);
                    pre.lemma_ring_at(k);
                    if k <= pre.len {
                        pre.lemma_ring_distinct(1, k);
                    }
                }
            }
            assert forall|i: int| 0 <= i < self.len implies self@[i] == (seq![v] + pre@)[i] by {
                if i >= 1 {
                    assert(pre.live(pre.order@[i - 1]));
                }
            }
            assert(self@ =~= seq![v] + pre@);
            assert(!pre.handles().contains(slot));
        }
    }

    /// Position of the first stored value that the comparator reports equal to
    /// `value`, scanning front to back; `None` if there is none.
    pub fn index_of(&self, value: &T) -> (r: Option<usize>)
        requires
            self.wf(),
        ensures
            search_result(self.compare_fn(), self@, *value, r),
            self@.len() == 0 ==> r is None,
    {
        let mut cur: usize = SENTINEL;
        let mut i: usize = 0;
        while i < self.len
            invariant
                self.wf(),
                i <= self.len,
                cur == self.ring_at(i as int),
                forall|j: int| 0 <= j < i ==> #[trigger] reports_unequal(self.compare_to, *value, self@[j]),
            decreases self.len - i,
        {
            proof {
                assert(self.linked(i as int));
                self.lemma_ring_at(i as int);
                self.lemma_ring_at(i as int + 1);
            }
            cur = self.nodes[cur].next;
            match &self.nodes[cur].value {
                Some(stored) => {
                    let c = (self.compare_to)(value, stored);
                    if c == 0 {
                        return Some(i);
                    }
                    proof {
                        assert(reports_unequal(self.compare_to, *value, self@[i as int]));
                    }
                },
                None => {},
            }
            i = i + 1;
        }
        None
    }

    /// Removes the value at position `index` (0 is the front) and hands it to
    /// the caller; an index past the end leaves the list untouched.
    pub fn remove_index(&mut self, index: usize) -> (r: Option<T>)
        requires
            old(self).wf(),
        ensures
            final(self).wf(),
            final(self).compare_fn() == old(self).compare_fn(),
            final(self).destroy_fn() == old(self).destroy_fn(),
            index < old(self)@.len() ==> r == Some(old(self)@[index as int]) && final(self)@
                == old(self)@.remove(index as int),
            final(self).handles().len() == final(self)@.len(),
            index < old(self)@.len() ==> final(self).handles() == old(self).handles().remove(
                index as int,
            ),
            index >= old(self)@.len() ==> r is None && *final(self) == *old(self),
    {
        if index >= self.len {
            return None;
        }
        let mut cur: usize = SENTINEL;
        let mut k: usize = 0;
        while k <= index
            invariant
                self.wf(),
                index < self.len,
                k <= index + 1,
                cur == self.ring_at(k as int),
            decreases index + 1 - k,
        {
            proof {
                assert(self.linked(k as int));
                self.lemma_ring_at(k as int);
            }
            cur = self.nodes[cur].next;
            k = k + 1;
        }
        proof {
            assert(self.linked(index as int));
            assert(self.linked(index as int + 1));
            self.lemma_ring_at(index as int);
            self.lemma_ring_at(index as int + 1);
            self.lemma_ring_at(index as int + 2);
        }
        let ghost pre = *self;
        let p = self.nodes[cur].prev;
        let n = self.nodes[cur].next;
        self.nodes[p].next = n;
        self.nodes[n].prev = p;
        let value = self.nodes[cur].value.take();
        self.free.push(cur);
        self.len = self.len - 1;
        self.order = Ghost(self.order@.remove(index as int));
        proof {
            let x = index as int;
            assert(self.nodes@.len() == pre.nodes@.len());
            assert forall|h: int| 0 <= h < self.nodes@.len() implies {
                &&& self.nodes@[h].next == (if h == p as int { n } else { pre.nodes@[h].next })
                &&& self.nodes@[h].prev == (if h == n as int { p } else { pre.nodes@[h].prev })
                &&& self.nodes@[h].value == (if h == cur as int { None } else { pre.nodes@[h].value })
            } by {}
            assert forall|i: int| 0 <= i < self.len implies #[trigger] self.live(
                self.order@[i],
            ) by {
                if i < x {
                    assert(pre.live(pre.order@[i]));
                } else {
                    assert(pre.live(pre.order@[i + 1]));
                }
            }
            assert forall|i: int| 0 <= i < self.free@.len() implies #[trigger] self.vacant(
                self.free@[i],
            ) by {
                if i < pre.free@.len() {
                    assert(pre.vacant(pre.free@[i]));
                }
            }
            assert forall|i: int, j: int|
                0 <= i < self.free@.len() && 0 <= j < self.free@.len() && i != j implies
                self.free@[i] != self.free@[j] by {
                if i < pre.free@.len() {
                    assert(pre.vacant(pre.free@[i]));
                }
                if j < pre.free@.len() {
                    assert(pre.vacant(pre.free@[j]));
                }
            }
            assert forall|k: int| 0 <= k <= self.len implies #[trigger] self.linked(k) by {
                pre.lemma_ring_at(x);
                pre.lemma_ring_at(x + 2);
                pre.lemma_ring_at(k);
                if k < x {
                    assert(pre.linked(k));
                    assert(self.ring_at(k) == pre.ring_at(k));
                    assert(self.ring_at(k + 1) == pre.ring_at(k + 1));
                    pre.lemma_ring_distinct(k, x);
                    pre.lemma_ring_at(k + 1);
                    if x + 2 <= pre.len {
                        pre.lemma_ring_distinct(k + 1, x + 2);
                    }
                } else if k == x {
                    assert(self.ring_at(k) == pre.ring_at(x));
                    assert(self.ring_at(k + 1) == pre.ring_at(x + 2));
                } else {
                    assert(pre.linked(k + 1));
                    assert(self.ring_at(k) == pre.ring_at(k + 1));
                    assert(self.ring_at(k + 1) == pre.ring_at(k + 2));
                    pre.lemma_ring_distinct(x, k + 1);
                    pre.lemma_ring_at(k + 1);
                    pre.lemma_ring_at(k + 2);
                    if k + 2 <= pre.len {
                        pre.lemma_ring_distinct(x + 2, k + 2);
                    }
                }
            }
            assert forall|i: int| 0 <= i < self.len implies self@[i] == pre@.remove(x)[i] by {
                if i < x {
                    assert(pre.order@[i] != pre.order@[x]);
                    assert(pre.live(pre.order@[i]));
                } else {
                    assert(pre.order@[i + 1] != pre.order@[x]);
                    assert(pre.live(pre.order@[i + 1]));
                }
            }
            assert(self@ =~= pre@.remove(x));
        }
        value
    }

    /// Hands every stored value, front to back, to the disposal callback, then
    /// releases the list with all its nodes and the sentinel. This is the only
    /// place the disposal callback runs; dropping a list does not call it.
    pub fn destroy(self)
        requires
            self.wf(),
        ensures
            forall|i: int|
                0 <= i < self@.len() ==> #[trigger] call_ensures(
                    self.destroy_fn(),
                    (&self@[i],),
                    (),
                ),
    {
        let mut cur: usize = SENTINEL;
        let mut i: usize = 0;
        while i < self.len
            invariant
                self.wf(),
                i <= self.len,
                cur == self.ring_at(i as int),
                forall|j: int|
                    0 <= j < i ==> #[trigger] call_ensures(self.destroy_data, (&self@[j],), ()),
            decreases self.len - i,
        {
            proof {
                assert(self.linked(i as int));
                self.lemma_ring_at(i as int);
                self.lemma_ring_at(i as int + 1);
            }
            cur = self.nodes[cur].next;
            match &self.nodes[cur].value {
                Some(stored) => {
                    (self.destroy_data)(stored);
                },
                None => {},
            }
            i = i + 1;
        }
    }

    /// The handle that follows `h` in the ring: the front node's for the
    /// sentinel, the sentinel's for the back node.
    pub fn next_of(&self, h: usize) -> (r: usize)
        requires
            self.wf(),
            h == SENTINEL || self.handles().contains(h),
        ensures
            r == self.next_link(h),
            h == SENTINEL ==> r == self.ring_at(1),
            forall|i: int|
                0 <= i < self@.len() && #[trigger] self.handles()[i] == h ==> r == self.ring_at(
                    i + 2,
                ),
    {
        proof {
            self.lemma_handle_in_ring(h);
            assert(self.linked(0));
            assert forall|i: int|
                0 <= i < self@.len() && #[trigger] self.handles()[i] == h implies self.next_link(h)
                == self.ring_at(i + 2) by {
                assert(self.linked(i + 1));
            }
        }
        self.nodes[h].next
    }

    /// The handle that precedes `h` in the ring: the back node's for the
    /// sentinel, the sentinel's for the front node.
    pub fn prev_of(&self, h: usize) -> (r: usize)
        requires
            self.wf(),
            h == SENTINEL || self.handles().contains(h),
        ensures
            r == self.prev_link(h),
            h == SENTINEL ==> r == self.ring_at(self@.len() as int),
            forall|i: int|
                0 <= i < self@.len() && #[trigger] self.handles()[i] == h ==> r == self.ring_at(i),
    {
        proof {
            self.lemma_handle_in_ring(h);
            assert(self.linked(self.len as int));
            assert forall|i: int|
                0 <= i < self@.len() && #[trigger] self.handles()[i] == h implies self.prev_link(h)
                == self.ring_at(i) by {
                assert(self.linked(i));
            }
        }
        self.nodes[h].prev
    }

    /// The value held by the node with handle `h`: none for the sentinel.
    pub fn value_of(&self, h: usize) -> (r: Option<&T>)
        requires
            self.wf(),
            h == SENTINEL || self.handles().contains(h),
        ensures
            h == SENTINEL ==> r is None,
            forall|i: int| 0 <= i < self@.len() && self.handles()[i] == h ==> r == Some(&self@[i]),
    {
        proof {
            self.lemma_handle_in_ring(h);
            assert forall|i: int| 0 <= i < self@.len() && self.handles()[i] == h implies self.nodes@[h as int].value
                == Some(self@[i]) by {
                assert(self.live(self.order@[i]));
            }
        }
        match &self.nodes[h].value {
            Some(v) => Some(v),
            None => None,
        }
    }

    /// Number of stored values.
    pub fn len(&self) -> (r: usize)
        requires
            self.wf(),
        ensures
            r == self@.len(),
    {
        self.len
    }
}

} // verus!
