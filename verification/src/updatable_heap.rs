//! Indexed updatable binary min-heap with O(log n) decrease-key.
//!
//! Elements carry a dense identifier below `capacity`; a dense index map gives
//! the current heap slot of each live identifier, with `capacity` as the
//! sentinel for "absent or already removed". Each identifier occupies at most
//! one live slot. The abstract state is the map from live identifiers to
//! their (key, payload) pairs; `get_and_remove_min` returns an element whose
//! key is no larger than any key left behind.

use vstd::prelude::*;

verus! {

/// Key value standing for "infinitely far"; no real key reaches it.
pub const BIGGEST_NUMBER: i64 = i64::MAX;

/// Largest capacity the heap accepts: child-slot arithmetic `2 * slot + 2`
/// then stays within `usize` on every machine.
pub const MAX_HEAP_CAPACITY: usize = 0x4000_0000;

#[derive(Debug)]
pub struct UpdateableHeapElem<Payload: Default + Clone> {
    pub idx: usize,
    pub ordering_key: i64,
    pub payload: Payload,
}

impl<Payload: Default + Clone> UpdateableHeapElem<Payload> {
    pub fn new(idx: usize, ordering_key: i64, payload: Payload) -> (e: Self)
        ensures
            e.idx == idx,
            e.ordering_key == ordering_key,
            e.payload == payload,
    {
        Self { idx, ordering_key, payload }
    }
}

/// Heap slot of the parent of slot `i`, for `i >= 1`.
pub open spec fn parent_slot(i: int) -> int {
    (i - 1) / 2
}

/// Min-heap order: no element is smaller than its parent.
pub open spec fn heap_ordered<Payload: Default + Clone>(
    d: Seq<UpdateableHeapElem<Payload>>,
) -> bool {
    forall|i: int|
        1 <= i < d.len() ==> (#[trigger] d[i]).ordering_key >= d[parent_slot(i)].ordering_key
}

/// Min-heap order everywhere except that slot `j` may be smaller than its
/// parent; the parent of `j` still bounds the children of `j` from below.
pub open spec fn heap_ordered_except_up<Payload: Default + Clone>(
    d: Seq<UpdateableHeapElem<Payload>>,
    j: int,
) -> bool {
    &&& forall|i: int|
        1 <= i < d.len() && i != j ==> (#[trigger] d[i]).ordering_key
            >= d[parent_slot(i)].ordering_key
    &&& j >= 1 ==> forall|i: int|
        1 <= i < d.len() && parent_slot(i) == j ==> (#[trigger] d[i]).ordering_key
            >= d[parent_slot(j)].ordering_key
}

/// Min-heap order everywhere except that slot `j` may be larger than its
/// children; the parent of `j` still bounds the children of `j` from below.
pub open spec fn heap_ordered_except_down<Payload: Default + Clone>(
    d: Seq<UpdateableHeapElem<Payload>>,
    j: int,
) -> bool {
    &&& forall|i: int|
        1 <= i < d.len() && parent_slot(i) != j ==> (#[trigger] d[i]).ordering_key
            >= d[parent_slot(i)].ordering_key
    &&& j >= 1 ==> forall|i: int|
        1 <= i < d.len() && parent_slot(i) == j ==> (#[trigger] d[i]).ordering_key
            >= d[parent_slot(j)].ordering_key
}

#[derive(Debug)]
pub struct UpdateableHeap<Payload: Default + Clone> {
    data: Vec<UpdateableHeapElem<Payload>>,
    idx_map: Vec<usize>,
    size: usize,
    capacity: usize,
}

impl<Payload: Default + Clone> UpdateableHeap<Payload> {
    pub closed spec fn cap(self) -> nat {
        self.capacity as nat
    }

    pub closed spec fn length(self) -> nat {
        self.data@.len()
    }

    pub closed spec fn live(self, id: usize) -> bool {
        id < self.capacity && self.idx_map@[id as int] < self.data@.len()
    }

    /// The abstract state: each live identifier's key and payload.
    pub closed spec fn contents(self) -> Map<usize, (i64, Payload)> {
        Map::new(
            |id: usize| self.live(id),
            |id: usize|
                (
                    self.data@[self.idx_map@[id as int] as int].ordering_key,
                    self.data@[self.idx_map@[id as int] as int].payload,
                ),
        )
    }

    /// Current heap slot of a live identifier.
    pub closed spec fn slot_of(self, id: usize) -> nat {
        self.idx_map@[id as int] as nat
    }

    /// Index map and element identifiers agree, and the heap order holds.
    pub closed spec fn wf(self) -> bool {
        &&& self.map_wf()
        &&& heap_ordered(self.data@)
    }

    spec fn map_wf(self) -> bool {
        &&& self.size == self.data@.len()
        &&& self.data@.len() <= self.capacity
        &&& self.idx_map@.len() == self.capacity
        &&& self.capacity <= MAX_HEAP_CAPACITY
        &&& forall|i: int|
            0 <= i < self.data@.len() ==> (#[trigger] self.data@[i]).idx < self.capacity
        &&& forall|i: int|
            0 <= i < self.data@.len() ==> self.idx_map@[(#[trigger] self.data@[i]).idx as int] == i
        &&& forall|id: int|
            0 <= id < self.capacity ==> #[trigger] self.idx_map@[id] < self.data@.len()
                || self.idx_map@[id] == self.capacity
        &&& forall|id: int|
            0 <= id < self.capacity && #[trigger] self.idx_map@[id] < self.data@.len()
                ==> self.data@[self.idx_map@[id] as int].idx == id
    }

    pub fn new(capacity: usize) -> (h: Self)
        requires
            capacity <= MAX_HEAP_CAPACITY,
        ensures
            h.wf(),
            h.cap() == capacity,
            h.length() == 0,
            h.contents() == Map::<usize, (i64, Payload)>::empty(),
    {
        let h = Self {
            data: Vec::with_capacity(capacity),
            idx_map: vec![capacity; capacity],
            size: 0,
            capacity,
        };
        proof {
            assert(h.contents() =~= Map::<usize, (i64, Payload)>::empty());
        }
        h
    }

    /// Inserts every identifier `0..capacity` with the infinite key and a
    /// placeholder payload, so that every vertex has a slot before any
    /// decrease-key call.
    pub fn fill(&mut self)
        requires
            old(self).wf(),
            old(self).length() == 0,
        ensures
            final(self).wf(),
            final(self).cap() == old(self).cap(),
            final(self).length() == old(self).cap(),
            forall|id: usize|
                final(self).contents().contains_key(id) <==> (id as nat) < old(self).cap(),
            forall|id: usize| #[trigger]
                final(self).contents().contains_key(id) ==> final(self).contents()[id].0
                    == BIGGEST_NUMBER,
    {
        let capacity = self.capacity;
        let mut i: usize = 0;
        while i < capacity
            invariant
                i <= capacity,
                self.wf(),
                self.cap() == capacity,
                self.length() == i,
                forall|id: usize| self.contents().contains_key(id) <==> id < i,
                forall|id: usize|
                    self.contents().contains_key(id) ==> (#[trigger] self.contents()[id]).0
                        == BIGGEST_NUMBER,
            decreases capacity - i,
        {
            self.insert(UpdateableHeapElem::new(i, BIGGEST_NUMBER, default_payload()));
            i = i + 1;
        }
    }

    /// Appends the element and sifts it up; returns its final slot.
    pub fn insert(&mut self, elem: UpdateableHeapElem<Payload>) -> (r: usize)
        requires
            old(self).wf(),
            (elem.idx as nat) < old(self).cap(),
            !old(self).contents().contains_key(elem.idx),
            old(self).length() < old(self).cap(),
        ensures
            final(self).wf(),
            final(self).cap() == old(self).cap(),
            final(self).length() == old(self).length() + 1,
            final(self).contents() == old(self).contents().insert(
                elem.idx,
                (elem.ordering_key, elem.payload),
            ),
            r as nat == final(self).slot_of(elem.idx),
            (r as nat) < final(self).length(),
    {
        let idx = elem.idx;
        let ghost pre = *self;
        self.data.push(elem);
        self.size = self.size + 1;
        self.idx_map[idx] = self.size - 1;
        proof {
            let j = self.data@.len() - 1;
            assert forall|i: int| 0 <= i < self.data@.len() implies self.idx_map@[(
            #[trigger] self.data@[i]).idx as int] == i by {
                if i < j {
                    assert(pre.data@[i] == self.data@[i]);
                    assert(pre.data@[i].idx != idx) by {
                        if pre.data@[i].idx == idx {
                            assert(pre.live(idx));
                            assert(pre.contents().contains_key(idx));
                        }
                    }
                }
            }
            assert(self.map_wf());
            assert(heap_ordered_except_up(self.data@, j));
            assert(self.contents() =~= pre.contents().insert(
                idx,
                (elem.ordering_key, elem.payload),
            ));
        }
        self.up_fn(self.size - 1)
    }

    /// Lowers the key of a live identifier when `new_val` is strictly smaller
    /// than its current key, overwriting the payload and sifting up; a no-op
    /// on an absent identifier or a key that is not strictly smaller.
    #[verifier::rlimit(100)]
    pub fn decrease_by_idx(&mut self, idx: usize, new_val: i64, payload: Payload) -> (r: usize)
        requires
            old(self).wf(),
            (idx as nat) < old(self).cap(),
        ensures
            final(self).wf(),
            final(self).cap() == old(self).cap(),
            final(self).length() == old(self).length(),
            old(self).contents().contains_key(idx) && new_val < old(self).contents()[idx].0
                ==> final(self).contents() == old(self).contents().insert(idx, (new_val, payload)),
            !(old(self).contents().contains_key(idx) && new_val < old(self).contents()[idx].0) ==> (
            final(self).contents() == old(self).contents() && r == idx),
    {
        let data_idx = self.idx_map[idx];
        if data_idx >= self.capacity {
            return idx;
        }
        assert(data_idx < self.data@.len());
        if self.data[data_idx].ordering_key <= new_val {
            idx
        } else {
            let ghost pre = *self;
            self.data[data_idx].ordering_key = new_val;
            self.data[data_idx].payload = payload;
            proof {
                assert(self.map_wf());
                assert forall|i: int|
                    1 <= i < self.data@.len() && i != data_idx implies (
                #[trigger] self.data@[i]).ordering_key
                    >= self.data@[parent_slot(i)].ordering_key by {
                    assert(pre.data@[i] == self.data@[i]);
                    if parent_slot(i) == data_idx {
                        assert(pre.data@[i].ordering_key >= pre.data@[data_idx as int].ordering_key);
                    }
                }
                assert(heap_ordered_except_up(self.data@, data_idx as int));
                assert(self.contents() =~= pre.contents().insert(idx, (new_val, payload)));
            }
            self.up_fn(data_idx)
        }
    }

    /// Removes and returns an element whose key is minimal: the key of every
    /// element left behind is at least as large.
    #[verifier::rlimit(100)]
    pub fn get_and_remove_min(&mut self) -> (result: UpdateableHeapElem<Payload>)
        requires
            old(self).wf(),
            old(self).length() > 0,
        ensures
            final(self).wf(),
            final(self).cap() == old(self).cap(),
            final(self).length() == old(self).length() - 1,
            old(self).contents().contains_key(result.idx),
            result.ordering_key == old(self).contents()[result.idx].0,
            result.payload == old(self).contents()[result.idx].1,
            old(self).slot_of(result.idx) == 0,
            final(self).contents() == old(self).contents().remove(result.idx),
            forall|id: usize|
                final(self).contents().contains_key(id) ==> result.ordering_key <= (
                #[trigger] final(self).contents()[id]).0,
    {
        proof {
            lemma_heap_root_min(self.data@);
        }
        let ghost pre = *self;
        let last = self.size - 1;
        vec_swap(&mut self.data, 0, last);
        let result = self.data.pop().unwrap();
        self.size = self.size - 1;
        self.idx_map[result.idx] = self.capacity;
        proof {
            assert(result == pre.data@[0]);
            assert(pre.idx_map@[result.idx as int] == 0);
            assert(forall|i: int| 1 <= i < self.data@.len() ==> self.data@[i] == pre.data@[i]);
            assert(self.data@.len() > 0 ==> self.data@[0] == pre.data@[pre.data@.len() - 1]);
        }
        if self.size > 0 {
            let new_head = self.data[0].idx;
            assert(new_head != result.idx) by {
                assert(pre.idx_map@[new_head as int] == pre.data@.len() - 1);
            }
            self.idx_map[new_head] = 0;
            proof {
                let cap = self.capacity as int;
                let len = self.data@.len() as int;
                assert forall|i: int| 0 <= i < len implies self.idx_map@[(
                #[trigger] self.data@[i]).idx as int] == i by {
                    if i > 0 {
                        assert(self.data@[i] == pre.data@[i]);
                        assert(pre.idx_map@[pre.data@[i].idx as int] == i);
                        assert(pre.data@[i].idx != new_head) by {
                            if pre.data@[i].idx == new_head {
                                assert(pre.idx_map@[new_head as int] == i);
                                assert(pre.idx_map@[new_head as int] == pre.data@.len() - 1);
                            }
                        }
                        assert(pre.data@[i].idx != result.idx) by {
                            if pre.data@[i].idx == result.idx {
                                assert(pre.idx_map@[result.idx as int] == i);
                            }
                        }
                    }
                }
                assert forall|id: int| 0 <= id < cap implies #[trigger] self.idx_map@[id] < len
                    || self.idx_map@[id] == cap by {
                    if id != result.idx as int && id != new_head as int {
                        assert(self.idx_map@[id] == pre.idx_map@[id]);
                        if pre.idx_map@[id] < pre.data@.len() {
                            assert(pre.data@[pre.idx_map@[id] as int].idx == id);
                            if pre.idx_map@[id] == pre.data@.len() - 1 {
                                assert(id == new_head as int);
                            } else if pre.idx_map@[id] == 0 {
                                assert(id == result.idx as int);
                            }
                        }
                    }
                }
                assert forall|id: int|
                    0 <= id < cap && #[trigger] self.idx_map@[id] < len implies self.data@[
                self.idx_map@[id] as int].idx == id by {
                    if id == new_head as int {
                    } else {
                        assert(id != result.idx as int);
                        assert(self.idx_map@[id] == pre.idx_map@[id]);
                        assert(pre.data@[pre.idx_map@[id] as int].idx == id);
                        assert(pre.idx_map@[id] != 0);
                    }
                }
                assert(self.map_wf());
                assert forall|i: int|
                    1 <= i < self.data@.len() && parent_slot(i) != 0 implies (
                #[trigger] self.data@[i]).ordering_key
                    >= self.data@[parent_slot(i)].ordering_key by {
                    assert(self.data@[i] == pre.data@[i]);
                    assert(parent_slot(i) >= 1);
                    assert(self.data@[parent_slot(i)] == pre.data@[parent_slot(i)]);
                }
                assert(heap_ordered_except_down(self.data@, 0));
                assert(self.contents() =~= pre.contents().remove(result.idx));
            }
            self.down_fn(0);
        } else {
            proof {
                let cap = self.capacity as int;
                assert forall|id: int| 0 <= id < cap implies #[trigger] self.idx_map@[id]
                    == cap by {
                    if id != result.idx as int {
                        assert(self.idx_map@[id] == pre.idx_map@[id]);
                        if pre.idx_map@[id] < pre.data@.len() {
                            assert(pre.idx_map@[id] == 0);
                            assert(pre.data@[0].idx == id);
                        }
                    }
                }
                assert(self.contents() =~= pre.contents().remove(result.idx));
                assert(self.wf());
            }
        }
        proof {
            assert forall|id: usize|
                self.contents().contains_key(id) implies result.ordering_key <= (
            #[trigger] self.contents()[id]).0 by {
                assert(pre.contents().contains_key(id));
                assert(pre.contents()[id] == self.contents()[id]);
                assert(pre.contents()[id].0 == pre.data@[pre.idx_map@[id as int] as int].ordering_key);
            }
        }
        result
    }

    /// Restores the heap order by sifting the element at `new_elem_idx` down;
    /// returns its final slot. The abstract contents do not change.
    fn down_fn(&mut self, new_elem_idx: usize) -> (r: usize)
        requires
            old(self).map_wf(),
            new_elem_idx < old(self).length(),
            heap_ordered_except_down(old(self).data@, new_elem_idx as int),
        ensures
            final(self).wf(),
            final(self).cap() == old(self).cap(),
            final(self).length() == old(self).length(),
            final(self).contents() == old(self).contents(),
            r < final(self).length(),
    {
        let ghost orig = *self;
        let mut cur = new_elem_idx;
        loop
            invariant
                self.map_wf(),
                cur < self.length(),
                heap_ordered_except_down(self.data@, cur as int),
                self.cap() == orig.cap(),
                self.length() == orig.length(),
                self.contents() == orig.contents(),
            ensures
                self.map_wf(),
                heap_ordered(self.data@),
                self.cap() == orig.cap(),
                self.length() == orig.length(),
                self.contents() == orig.contents(),
                cur < self.length(),
            decreases self.length() - cur,
        {
            let children = self.find_children(cur);

            if children.len() == 0 {
                proof {
                    assert forall|i: int|
                        1 <= i < self.data@.len() implies (#[trigger] self.data@[i]).ordering_key
                        >= self.data@[parent_slot(i)].ordering_key by {
                        if parent_slot(i) == cur {
                            assert(2 * cur + 1 == i || 2 * cur + 2 == i) by {
                                lemma_parent_children(cur as int, i);
                            }
                        }
                    }
                }
                break ;
            }
            let min_children_id = if children.len() == 1 {
                children[0]
            } else {
                if self.data[children[0]].ordering_key < self.data[children[1]].ordering_key {
                    children[0]
                } else {
                    children[1]
                }
            };
            assert(min_children_id == 2 * cur + 1 || min_children_id == 2 * cur + 2);
            assert(parent_slot(min_children_id as int) == cur as int) by {
                lemma_parent_children(cur as int, min_children_id as int);
            }

            if self.data[min_children_id].ordering_key >= self.data[cur].ordering_key {
                proof {
                    assert forall|i: int|
                        1 <= i < self.data@.len() implies (#[trigger] self.data@[i]).ordering_key
                        >= self.data@[parent_slot(i)].ordering_key by {
                        if parent_slot(i) == cur {
                            lemma_parent_children(cur as int, i);
                            assert(i == 2 * cur + 1 || i == 2 * cur + 2);
                            if i != min_children_id {
                                assert(self.data@[i].ordering_key
                                    >= self.data@[min_children_id as int].ordering_key);
                            }
                        }
                    }
                }
                break ;
            }
            let ghost pre = *self;
            let id_child = self.data[min_children_id].idx;
            let id_cur = self.data[cur].idx;
            self.idx_map[id_child] = cur;
            self.idx_map[id_cur] = min_children_id;
            vec_swap(&mut self.data, cur, min_children_id);
            proof {
                lemma_swap_step(pre.data@, self.data@, cur as int, min_children_id as int);
                assert(self.map_wf()) by {
                    assert forall|i: int| 0 <= i < self.data@.len() implies self.idx_map@[(
                    #[trigger] self.data@[i]).idx as int] == i by {
                        if i != cur && i != min_children_id {
                            assert(self.data@[i] == pre.data@[i]);
                            assert(pre.data@[i].idx != id_child && pre.data@[i].idx != id_cur);
                        }
                    }
                }
                assert(heap_ordered_except_down(self.data@, min_children_id as int)) by {
                    assert forall|i: int|
                        1 <= i < self.data@.len() && parent_slot(i) != min_children_id implies (
                    #[trigger] self.data@[i]).ordering_key
                        >= self.data@[parent_slot(i)].ordering_key by {
                        lemma_parent_children(cur as int, i);
                        lemma_parent_children(min_children_id as int, i);
                        if i == min_children_id {
                        } else if parent_slot(i) == cur as int {
                            assert(i == 2 * cur + 1 || i == 2 * cur + 2);
                            assert(self.data@[i] == pre.data@[i]);
                            assert(pre.data@[i].ordering_key
                                >= pre.data@[min_children_id as int].ordering_key);
                        } else if i == cur {
                            assert(parent_slot(cur as int) < cur as int);
                            assert(self.data@[cur as int] == pre.data@[min_children_id as int]);
                            assert(self.data@[parent_slot(cur as int)] == pre.data@[parent_slot(
                                cur as int,
                            )]);
                            assert(pre.data@[min_children_id as int].ordering_key >= pre.data@[
                            parent_slot(cur as int)].ordering_key);
                        } else {
                            assert(self.data@[i] == pre.data@[i]);
                            assert(self.data@[parent_slot(i)] == pre.data@[parent_slot(i)]);
                        }
                    }
                    assert forall|i: int|
                        1 <= i < self.data@.len() && parent_slot(i) == min_children_id implies (
                    #[trigger] self.data@[i]).ordering_key
                        >= self.data@[parent_slot(min_children_id as int)].ordering_key by {
                        assert(self.data@[i] == pre.data@[i]);
                        assert(parent_slot(i) == min_children_id as int && min_children_id as int
                            != cur as int);
                        assert(pre.data@[i].ordering_key
                            >= pre.data@[min_children_id as int].ordering_key);
                    }
                }
                assert(self.contents() =~= pre.contents());
            }
            cur = min_children_id;
        }
        cur
    }

    /// Restores the heap order by sifting the element at `new_elem_idx` up;
    /// returns its final slot. The abstract contents do not change.
    fn up_fn(&mut self, new_elem_idx: usize) -> (r: usize)
        requires
            old(self).map_wf(),
            new_elem_idx < old(self).length(),
            heap_ordered_except_up(old(self).data@, new_elem_idx as int),
        ensures
            final(self).wf(),
            final(self).cap() == old(self).cap(),
            final(self).length() == old(self).length(),
            final(self).contents() == old(self).contents(),
            r < final(self).length(),
            final(self).data@[r as int] == old(self).data@[new_elem_idx as int],
            r as nat == final(self).slot_of(old(self).data@[new_elem_idx as int].idx),
    {
        let ghost orig = *self;
        let ghost moving = self.data@[new_elem_idx as int];
        let mut cur = new_elem_idx;
        loop
            invariant
                self.map_wf(),
                cur < self.length(),
                heap_ordered_except_up(self.data@, cur as int),
                self.cap() == orig.cap(),
                self.length() == orig.length(),
                self.contents() == orig.contents(),
                self.data@[cur as int] == moving,
                self.idx_map@[moving.idx as int] == cur as int,
            ensures
                self.map_wf(),
                heap_ordered(self.data@),
                self.cap() == orig.cap(),
                self.length() == orig.length(),
                self.contents() == orig.contents(),
                cur < self.length(),
                self.data@[cur as int] == moving,
                self.idx_map@[moving.idx as int] == cur as int,
            decreases cur,
        {
            if cur == 0 {
                proof {
                    assert(heap_ordered(self.data@));
                }
                break ;
            }
            let parent_idx = Self::find_parent(cur);
            assert(parent_idx as int == parent_slot(cur as int));
            if self.data[parent_idx].ordering_key <= self.data[cur].ordering_key {
                proof {
                    assert(heap_ordered(self.data@));
                }
                break ;
            }
            let ghost pre = *self;
            let id_parent = self.data[parent_idx].idx;
            let id_cur = self.data[cur].idx;
            self.idx_map[id_parent] = cur;
            self.idx_map[id_cur] = parent_idx;
            vec_swap(&mut self.data, cur, parent_idx);
            proof {
                lemma_swap_step(pre.data@, self.data@, cur as int, parent_idx as int);
                assert(self.map_wf()) by {
                    assert forall|i: int| 0 <= i < self.data@.len() implies self.idx_map@[(
                    #[trigger] self.data@[i]).idx as int] == i by {
                        if i != cur && i != parent_idx {
                            assert(self.data@[i] == pre.data@[i]);
                            assert(pre.data@[i].idx != id_parent && pre.data@[i].idx != id_cur);
                        }
                    }
                }
                assert(heap_ordered_except_up(self.data@, parent_idx as int)) by {
                    assert forall|i: int|
                        1 <= i < self.data@.len() && i != parent_idx implies (
                    #[trigger] self.data@[i]).ordering_key
                        >= self.data@[parent_slot(i)].ordering_key by {
                        if i == cur {
                            assert(self.data@[cur as int] == pre.data@[parent_idx as int]);
                            assert(self.data@[parent_slot(cur as int)]
                                == pre.data@[cur as int]);
                        } else if parent_slot(i) == cur as int {
                            assert(self.data@[i] == pre.data@[i]);
                            assert(pre.data@[i].ordering_key
                                >= pre.data@[parent_slot(cur as int)].ordering_key);
                        } else if parent_slot(i) == parent_idx as int {
                            assert(self.data@[i] == pre.data@[i]);
                            assert(pre.data@[i].ordering_key
                                >= pre.data@[parent_idx as int].ordering_key);
                            assert(pre.data@[parent_idx as int].ordering_key
                                > pre.data@[cur as int].ordering_key);
                        } else {
                            assert(self.data@[i] == pre.data@[i]);
                            assert(self.data@[parent_slot(i)] == pre.data@[parent_slot(i)]);
                        }
                    }
                    if parent_idx >= 1 {
                        assert forall|i: int|
                            1 <= i < self.data@.len() && parent_slot(i) == parent_idx implies (
                        #[trigger] self.data@[i]).ordering_key >= self.data@[parent_slot(
                            parent_idx as int,
                        )].ordering_key by {
                            assert(self.data@[parent_slot(parent_idx as int)] == pre.data@[
                                parent_slot(parent_idx as int)]);
                            if i == cur {
                                assert(self.data@[cur as int] == pre.data@[parent_idx as int]);
                                assert(pre.data@[parent_idx as int].ordering_key
                                    >= pre.data@[parent_slot(parent_idx as int)].ordering_key);
                            } else {
                                assert(self.data@[i] == pre.data@[i]);
                                assert(pre.data@[i].ordering_key
                                    >= pre.data@[parent_idx as int].ordering_key);
                                assert(pre.data@[parent_idx as int].ordering_key
                                    >= pre.data@[parent_slot(parent_idx as int)].ordering_key);
                            }
                        }
                    }
                }
                assert(self.contents() =~= pre.contents());
            }
            cur = parent_idx;
        }
        cur
    }

    fn find_parent(idx: usize) -> (r: usize)
        requires
            1 <= idx <= 2 * MAX_HEAP_CAPACITY,
        ensures
            r as int == parent_slot(idx as int),
    {
        (idx + 1) / 2 - 1
    }

    fn find_children(&self, idx: usize) -> (r: Vec<usize>)
        requires
            self.map_wf(),
            idx < self.length(),
        ensures
            r@.len() == 0 <==> 2 * idx + 1 >= self.length(),
            r@.len() >= 1 ==> r@[0] == 2 * idx + 1,
            r@.len() == 2 <==> 2 * idx + 2 < self.length(),
            r@.len() == 2 ==> r@[1] == 2 * idx + 2,
            r@.len() <= 2,
    {
        let mut result: Vec<usize> = Vec::with_capacity(2);
        let first = (idx + 1) * 2 - 1;
        assert(first == 2 * idx + 1);
        let mut i: usize = 0;
        while i < 2
            invariant
                i <= 2,
                first == 2 * idx + 1,
                idx < self.length(),
                self.map_wf(),
                self.size == self.length(),
                forall|j: int| 0 <= j < result@.len() ==> result@[j] == first + j,
                result@.len() == if i >= 1 && self.length() > first as int {
                    if i == 2 && self.length() > first + 1 as int {
                        2int
                    } else {
                        1int
                    }
                } else {
                    0int
                },
            decreases 2 - i,
        {
            if self.size > first + i {
                result.push(first + i);
            }
            i = i + 1;
        }
        result
    }
}

/// An empty heap holds no live identifier.
pub proof fn lemma_length_zero_empty<Payload: Default + Clone>(h: UpdateableHeap<Payload>)
    requires
        h.length() == 0,
    ensures
        forall|id: usize| !h.contents().contains_key(id),
{
}

/// Relies on `<[T]>::swap`: it exchanges the elements at `a` and `b` and
/// leaves every other slot unchanged.
#[verifier::external_body]
fn vec_swap<T>(v: &mut Vec<T>, a: usize, b: usize)
    requires
        a < old(v)@.len(),
        b < old(v)@.len(),
    ensures
        final(v)@ == old(v)@.update(a as int, old(v)@[b as int]).update(
            b as int,
            old(v)@[a as int],
        ),
{
    v.swap(a, b);
}

/// Relies on `Default::default` for the placeholder payload stored by `fill`;
/// nothing is assumed about the produced value.
#[verifier::external_body]
fn default_payload<P: Default>() -> (r: P)
    ensures
        true,
{
    P::default()
}

/// In a min-heap the root key bounds every key from below.
pub proof fn lemma_heap_root_min<Payload: Default + Clone>(d: Seq<UpdateableHeapElem<Payload>>)
    requires
        heap_ordered(d),
        d.len() > 0,
    ensures
        forall|i: int| 0 <= i < d.len() ==> d[0].ordering_key <= (#[trigger] d[i]).ordering_key,
{
    assert forall|i: int| 0 <= i < d.len() implies d[0].ordering_key <= (
    #[trigger] d[i]).ordering_key by {
        lemma_root_le(d, i);
    }
}

proof fn lemma_root_le<Payload: Default + Clone>(d: Seq<UpdateableHeapElem<Payload>>, i: int)
    requires
        heap_ordered(d),
        0 <= i < d.len(),
    ensures
        d[0].ordering_key <= d[i].ordering_key,
    decreases i,
{
    if i > 0 {
        lemma_root_le(d, parent_slot(i));
    }
}

/// Slot `c` is a child slot of `j` exactly when `c` is `2j + 1` or `2j + 2`.
proof fn lemma_parent_children(j: int, c: int)
    requires
        c >= 1,
    ensures
        parent_slot(c) == j <==> (c == 2 * j + 1 || c == 2 * j + 2),
{
}

/// After swapping two slots, all other slots are unchanged.
proof fn lemma_swap_step<Payload: Default + Clone>(
    pre: Seq<UpdateableHeapElem<Payload>>,
    post: Seq<UpdateableHeapElem<Payload>>,
    a: int,
    b: int,
)
    requires
        0 <= a < pre.len(),
        0 <= b < pre.len(),
        post == pre.update(a, pre[b]).update(b, pre[a]),
    ensures
        post.len() == pre.len(),
        post[a] == pre[b] || a == b,
        post[b] == pre[a],
        forall|i: int| 0 <= i < pre.len() && i != a && i != b ==> post[i] == pre[i],
{
}

/// Popped keys are non-decreasing: when `r1` is a minimal element of a heap
/// state `m`, and the state `m2` seen by the next pop arose by removing `r1`
/// and then changing or adding entries only with keys at least
/// `r1`'s, the next popped element `r2` cannot be smaller, and it is a
/// different identifier whenever `r1`'s identifier was not re-inserted.
pub proof fn lemma_successive_pops<Payload>(
    m: Map<usize, (i64, Payload)>,
    m2: Map<usize, (i64, Payload)>,
    r1_idx: usize,
    r1_key: i64,
    r2_idx: usize,
    r2_key: i64,
)
    requires
        m.contains_key(r1_idx),
        m[r1_idx].0 == r1_key,
        forall|id: usize| m.contains_key(id) ==> r1_key <= (#[trigger] m[id]).0,
        forall|id: usize|
            m2.contains_key(id) ==> (#[trigger] m2[id]).0 >= r1_key || (id != r1_idx
                && m.contains_key(id) && m2[id] == m[id]),
        m2.contains_key(r2_idx),
        m2[r2_idx].0 == r2_key,
    ensures
        r1_key <= r2_key,
        !m2.contains_key(r1_idx) ==> r1_idx != r2_idx,
{
}

} // verus!
