//! A table of entities keyed by small reusable identifiers.
//!
//! The slots are kept in increasing order of identifier, so the table reads
//! both as a map from identifier to item and as a sequence that is walked in
//! a fixed order.

use vstd::prelude::*;

verus! {

/// The identifier of an entity within its kind.
pub type Idx = u16;

/// The number of identifiers there are.
pub const ID_SPACE: usize = 65536;

/// One occupied identifier and what occupies it.
#[derive(Clone, Copy, Debug, PartialEq, Eq, Structural)]
pub struct Slot<T> {
    pub id: Idx,
    pub item: T,
}

/// Entities of one kind, each under its identifier.
#[derive(Clone, Debug, PartialEq, Eq)]
pub struct Table<T> {
    pub slots: Vec<Slot<T>>,
}

/// Whether `id` occurs among `slots`.
pub open spec fn slots_have<T>(slots: Seq<Slot<T>>, id: Idx) -> bool {
    exists|i: int| 0 <= i < slots.len() && #[trigger] slots[i].id == id
}

/// A position of `id` among `slots`, where it occurs.
pub open spec fn slot_of<T>(slots: Seq<Slot<T>>, id: Idx) -> int {
    choose|i: int| 0 <= i < slots.len() && #[trigger] slots[i].id == id
}

/// Whether the identifiers of `slots` strictly increase.
pub open spec fn slots_sorted<T>(slots: Seq<Slot<T>>) -> bool {
    forall|i: int, j: int| 0 <= i < j < slots.len() ==> #[trigger] slots[i].id < #[trigger] slots[j].id
}

/// The map from identifier to item that `slots` stand for.
pub open spec fn slots_map<T>(slots: Seq<Slot<T>>) -> Map<Idx, T> {
    Map::new(|id: Idx| slots_have(slots, id), |id: Idx| slots[slot_of(slots, id)].item)
}

/// In sorted slots an identifier stands at one position only.
pub proof fn lemma_slot_unique<T>(slots: Seq<Slot<T>>, i: int)
    requires
        slots_sorted(slots),
        0 <= i < slots.len(),
    ensures
        slots_have(slots, slots[i].id),
        slot_of(slots, slots[i].id) == i,
        slots_map(slots).contains_key(slots[i].id),
        slots_map(slots)[slots[i].id] == slots[i].item,
{
    let j = slot_of(slots, slots[i].id);
    assert(0 <= j < slots.len() && slots[j].id == slots[i].id);
    if j < i {
        assert(slots[j].id < slots[i].id);
    } else if i < j {
        assert(slots[i].id < slots[j].id);
    }
}

/// In sorted slots the identifier at a position is at least the position.
pub proof fn lemma_slot_at_least<T>(slots: Seq<Slot<T>>, i: int)
    requires
        slots_sorted(slots),
        0 <= i < slots.len(),
    ensures
        slots[i].id >= i,
    decreases i,
{
    if i > 0 {
        lemma_slot_at_least(slots, i - 1);
        assert(slots[i - 1].id < slots[i].id);
    }
}

/// Where `id` stands once the identifier `gone` has been closed up: one
/// lower where it was above `gone`.
pub open spec fn lowered(id: Idx, gone: Idx) -> Idx {
    if id > gone {
        (id - 1) as Idx
    } else {
        id
    }
}

/// The slots with every identifier above `gone` lowered by one.
pub open spec fn slots_closed<T>(slots: Seq<Slot<T>>, gone: Idx) -> Seq<Slot<T>> {
    slots.map_values(|s: Slot<T>| Slot { id: lowered(s.id, gone), item: s.item })
}

/// Whether `id` is the smallest identifier that is not a key of `m`.
pub open spec fn is_lowest_free<T>(m: Map<Idx, T>, id: Idx) -> bool {
    &&& !m.contains_key(id)
    &&& forall|j: Idx| j < id ==> #[trigger] m.contains_key(j)
}

/// The smallest identifier that is not a key of `m`, where there is one.
pub open spec fn first_free<T>(m: Map<Idx, T>) -> Idx {
    choose|id: Idx| is_lowest_free(m, id)
}

/// Whether the keys of `m` are exactly the identifiers below `n`.
pub open spec fn dense<T>(m: Map<Idx, T>, n: nat) -> bool {
    forall|id: Idx| #[trigger] m.contains_key(id) <==> id < n
}

/// The identifiers handed out when `items` are put into `m` one after the
/// other, each under the smallest identifier that is free at its turn.
pub open spec fn allocated_ids<T>(m: Map<Idx, T>, items: Seq<T>) -> Seq<Idx>
    decreases items.len(),
{
    if items.len() == 0 {
        Seq::empty()
    } else {
        seq![first_free(m)] + allocated_ids(m.insert(first_free(m), items[0]), items.drop_first())
    }
}

/// There is one smallest free identifier at most.
pub proof fn lemma_lowest_free_unique<T>(m: Map<Idx, T>, a: Idx, b: Idx)
    requires
        is_lowest_free(m, a),
        is_lowest_free(m, b),
    ensures
        a == b,
        first_free(m) == a,
{
    if a < b {
        assert(m.contains_key(a));
    } else if b < a {
        assert(m.contains_key(b));
    }
    let c = first_free(m);
    assert(is_lowest_free(m, c));
    if a < c {
        assert(m.contains_key(a));
    } else if c < a {
        assert(m.contains_key(c));
    }
}

/// Allocating without releasing counts up from zero: `items.len()`
/// allocations into a table whose keys are the identifiers below `n` hand
/// out `n`, `n + 1`, ... in this order. From the empty table (`n == 0`) the
/// identifiers are `0, 1, ..., items.len() - 1`.
pub proof fn lemma_allocations_count_up<T>(m: Map<Idx, T>, n: nat, items: Seq<T>)
    requires
        dense(m, n),
        n + items.len() <= ID_SPACE,
    ensures
        allocated_ids(m, items).len() == items.len(),
        forall|i: int| 0 <= i < items.len() ==> #[trigger] allocated_ids(m, items)[i] == n + i,
    decreases items.len(),
{
    if items.len() > 0 {
        let id = n as Idx;
        assert(!m.contains_key(id));
        assert(is_lowest_free(m, id));
        lemma_lowest_free_unique(m, id, id);
        let next = m.insert(id, items[0]);
        assert(dense(next, n + 1)) by {
            assert forall|k: Idx| #[trigger] next.contains_key(k) <==> k < n + 1 by {
                assert(m.contains_key(k) <==> k < n);
            }
        }
        lemma_allocations_count_up(next, n + 1, items.drop_first());
        let rest = allocated_ids(next, items.drop_first());
        assert forall|i: int| 0 <= i < items.len() implies #[trigger] allocated_ids(m, items)[i] == n + i by {
            if i > 0 {
                assert(allocated_ids(m, items)[i] == rest[i - 1]);
            }
        }
    }
}

/// The empty table has no keys: its keys are the identifiers below zero.
pub proof fn lemma_empty_is_dense<T>()
    ensures
        dense(Map::<Idx, T>::empty(), 0),
{
}

/// A released identifier is reused before any larger one: after `k` leaves
/// the table, the next allocation returns `k` or something smaller, and `k`
/// itself where every smaller identifier is in use.
pub proof fn lemma_released_id_comes_back<T>(m: Map<Idx, T>, k: Idx, next: Idx)
    requires
        is_lowest_free(m.remove(k), next),
    ensures
        next <= k,
        (forall|j: Idx| j < k ==> #[trigger] m.contains_key(j)) ==> next == k,
{
    if k < next {
        assert(m.remove(k).contains_key(k));
    }
    if forall|j: Idx| j < k ==> #[trigger] m.contains_key(j) {
        if next < k {
            assert(m.contains_key(next));
        }
    }
}

impl<T> View for Table<T> {
    type V = Map<Idx, T>;

    open spec fn view(&self) -> Map<Idx, T> {
        slots_map(self.slots@)
    }
}

impl<T: Copy> Table<T> {
    /// The slots are in strictly increasing order of identifier; so no
    /// identifier occurs twice.
    pub open spec fn wf(&self) -> bool {
        slots_sorted(self.slots@)
    }

    /// Whether every identifier is taken.
    pub open spec fn spec_is_full(&self) -> bool {
        self.slots@.len() >= ID_SPACE
    }

    /// The smallest identifier that is not a key of the table.
    pub open spec fn lowest_free(&self, id: Idx) -> bool {
        is_lowest_free(self@, id)
    }

    /// The empty table.
    pub fn new() -> (t: Table<T>)
        ensures
            t.wf(),
            t.slots@.len() == 0,
            t@ == Map::<Idx, T>::empty(),
    {
        let t = Table { slots: Vec::new() };
        assert(t@ =~= Map::<Idx, T>::empty());
        t
    }

    /// The number of entities in the table.
    pub fn len(&self) -> (n: usize)
        ensures
            n == self.slots@.len(),
    {
        self.slots.len()
    }

    pub fn is_empty(&self) -> (b: bool)
        ensures
            b == (self.slots@.len() == 0),
    {
        self.slots.len() == 0
    }

    /// Whether no identifier is left to hand out.
    #[verifier::when_used_as_spec(spec_is_full)]
    pub fn is_full(&self) -> (b: bool)
        ensures
            b == self.spec_is_full(),
    {
        self.slots.len() >= ID_SPACE
    }

    /// Whether the slots are in order: see `wf`.
    pub fn is_wf(&self) -> (b: bool)
        ensures
            b == self.wf(),
    {
        let mut i: usize = 1;
        while i < self.slots.len()
            invariant
                1 <= i,
                forall|a: int, b: int|
                    0 <= a < b < i && b < self.slots@.len() ==> (#[trigger] self.slots@[a]).id < (
                    #[trigger] self.slots@[b]).id,
            decreases self.slots@.len() - i,
        {
            if self.slots[i - 1].id >= self.slots[i].id {
                assert(!(self.slots@[i - 1].id < self.slots@[i as int].id));
                return false;
            }
            proof {
                assert forall|a: int, b: int| 0 <= a < b < i + 1 && b < self.slots@.len() implies (
                #[trigger] self.slots@[a]).id < (#[trigger] self.slots@[b]).id by {
                    if b == i && a < i - 1 {
                        assert(self.slots@[a].id < self.slots@[i - 1].id);
                    }
                }
            }
            i += 1;
        }
        true
    }

    /// The position of `id` among the slots, if it is a key.
    pub fn position(&self, id: Idx) -> (at: Option<usize>)
        requires
            self.wf(),
        ensures
            match at {
                Some(i) => i < self.slots@.len() && self.slots@[i as int].id == id
                    && self@.contains_key(id),
                None => !self@.contains_key(id),
            },
    {
        let mut i: usize = 0;
        while i < self.slots.len()
            invariant
                i <= self.slots@.len(),
                self.wf(),
                forall|k: int| 0 <= k < i ==> (#[trigger] self.slots@[k]).id != id,
            decreases self.slots@.len() - i,
        {
            if self.slots[i].id == id {
                proof {
                    lemma_slot_unique(self.slots@, i as int);
                }
                return Some(i);
            }
            i += 1;
        }
        None
    }

    /// Whether `id` names an entity of the table.
    pub fn contains_key(&self, id: Idx) -> (b: bool)
        requires
            self.wf(),
        ensures
            b == self@.contains_key(id),
    {
        self.position(id).is_some()
    }

    /// The entity under `id`, if there is one.
    pub fn get(&self, id: Idx) -> (item: Option<T>)
        requires
            self.wf(),
        ensures
            item == (if self@.contains_key(id) {
                Some(self@[id])
            } else {
                None
            }),
    {
        match self.position(id) {
            Some(i) => {
                proof {
                    lemma_slot_unique(self.slots@, i as int);
                }
                Some(self.slots[i].item)
            },
            None => None,
        }
    }

    /// Puts `elem` under the smallest identifier that is not in use and
    /// returns that identifier. Every other entry stays as it was.
    pub fn fit_in(&mut self, elem: T) -> (idx: Idx)
        requires
            old(self).wf(),
            !old(self).spec_is_full(),
        ensures
            final(self).wf(),
            old(self).lowest_free(idx),
            idx == first_free(old(self)@),
            final(self)@ == old(self)@.insert(idx, elem),
            final(self).slots@ == old(self).slots@.insert(idx as int, Slot { id: idx, item: elem }),
            idx <= old(self).slots@.len(),
            forall|k: int| 0 <= k < idx ==> (#[trigger] old(self).slots@[k]).id == k,
    {
        let mut i: usize = 0;
        while i < self.slots.len() && self.slots[i].id as usize == i
            invariant
                i <= self.slots@.len(),
                self.wf(),
                forall|k: int| 0 <= k < i ==> (#[trigger] self.slots@[k]).id == k,
            decreases self.slots@.len() - i,
        {
            i += 1;
        }
        let idx: Idx = i as Idx;
        let ghost before = self.slots@;
        proof {
            assert(i < ID_SPACE);
            if i < before.len() {
                lemma_slot_at_least(before, i as int);
            }
            // Nothing at or after position `i` holds `idx`.
            assert forall|k: int| i <= k < before.len() implies (#[trigger] before[k]).id > idx by {
                lemma_slot_at_least(before, k);
                if k > i {
                    assert(before[i as int].id < before[k].id);
                }
            }
            assert(!slots_have(before, idx));
            assert forall|j: Idx| j < idx implies #[trigger] slots_map(before).contains_key(j) by {
                assert(before[j as int].id == j);
            }
            lemma_lowest_free_unique(slots_map(before), idx, idx);
        }
        self.slots.insert(i, Slot { id: idx, item: elem });
        proof {
            lemma_insert_slot(before, i as int, Slot { id: idx, item: elem });
        }
        idx
    }

    /// Takes the entity under `id` out of the table and returns it; `None`,
    /// and nothing changes, where `id` names none.
    pub fn remove(&mut self, id: Idx) -> (gone: Option<T>)
        requires
            old(self).wf(),
        ensures
            final(self).wf(),
            final(self)@ == old(self)@.remove(id),
            gone == (if old(self)@.contains_key(id) {
                Some(old(self)@[id])
            } else {
                None
            }),
            final(self).slots@ == (if gone.is_some() {
                old(self).slots@.remove(slot_of(old(self).slots@, id))
            } else {
                old(self).slots@
            }),
    {
        match self.position(id) {
            Some(i) => {
                let ghost before = self.slots@;
                proof {
                    lemma_slot_unique(before, i as int);
                }
                let slot = self.slots.remove(i);
                proof {
                    lemma_remove_slot(before, i as int);
                }
                Some(slot.item)
            },
            None => {
                assert(self@ =~= self@.remove(id));
                None
            },
        }
    }

    /// Puts `item` under `id`, in place of what was there.
    pub fn insert(&mut self, id: Idx, item: T)
        requires
            old(self).wf(),
        ensures
            final(self).wf(),
            final(self)@ == old(self)@.insert(id, item),
    {
        let ghost before = self.slots@;
        let mut i: usize = 0;
        while i < self.slots.len() && self.slots[i].id < id
            invariant
                i <= self.slots@.len(),
                before == self.slots@,
                self.wf(),
                forall|k: int| 0 <= k < i ==> (#[trigger] before[k]).id < id,
            decreases self.slots@.len() - i,
        {
            i += 1;
        }
        if i < self.slots.len() && self.slots[i].id == id {
            self.slots.set(i, Slot { id, item });
            proof {
                lemma_update_slot(before, i as int, item);
                assert(self.slots@ =~= before.update(i as int, Slot { id, item }));
            }
        } else {
            proof {
                assert forall|k: int| i <= k < before.len() implies (#[trigger] before[k]).id > id by {
                    if k > i {
                        assert(before[i as int].id < before[k].id);
                    }
                }
                lemma_insert_slot(before, i as int, Slot { id, item });
            }
            self.slots.insert(i, Slot { id, item });
        }
    }

    /// Closes the gap that the unused identifier `gone` leaves: every entity
    /// with a larger identifier moves one identifier down.
    pub fn close_gap(&mut self, gone: Idx)
        requires
            old(self).wf(),
            !old(self)@.contains_key(gone),
        ensures
            final(self).wf(),
            final(self).slots@ == slots_closed(old(self).slots@, gone),
    {
        let ghost before = self.slots@;
        let mut i: usize = 0;
        assert forall|k: int| 0 <= k < before.len() implies (#[trigger] before[k]).id != gone by {
            if before[k].id == gone {
                assert(slots_have(before, gone));
            }
        }
        while i < self.slots.len()
            invariant
                i <= before.len(),
                self.slots@.len() == before.len(),
                forall|k: int| 0 <= k < before.len() ==> (#[trigger] before[k]).id != gone,
                forall|k: int|
                    0 <= k < i ==> #[trigger] self.slots@[k] == (Slot {
                        id: lowered(before[k].id, gone),
                        item: before[k].item,
                    }),
                forall|k: int| i <= k < before.len() ==> #[trigger] self.slots@[k] == before[k],
            decreases before.len() - i,
        {
            let s = self.slots[i];
            if s.id > gone {
                self.slots.set(i, Slot { id: s.id - 1, item: s.item });
            }
            i += 1;
        }
        proof {
            assert(self.slots@ =~= slots_closed(before, gone));
            let after = self.slots@;
            assert forall|a: int, b: int| 0 <= a < b < after.len() implies (#[trigger] after[a]).id < (
            #[trigger] after[b]).id by {
                assert(before[a].id < before[b].id);
                assert(before[a].id != gone && before[b].id != gone);
            }
        }
    }

    /// Replaces the entity under `id` by `item`; nothing changes where `id`
    /// names none.
    pub fn replace(&mut self, id: Idx, item: T) -> (found: bool)
        requires
            old(self).wf(),
        ensures
            final(self).wf(),
            found == old(self)@.contains_key(id),
            final(self)@ == (if found {
                old(self)@.insert(id, item)
            } else {
                old(self)@
            }),
            final(self).slots@.len() == old(self).slots@.len(),
            forall|k: int| 0 <= k < old(self).slots@.len() ==> (#[trigger] final(self).slots@[k]).id == old(self).slots@[k].id,
    {
        match self.position(id) {
            Some(i) => {
                let ghost before = self.slots@;
                self.slots.set(i, Slot { id, item });
                proof {
                    lemma_update_slot(before, i as int, item);
                    assert(self.slots@ =~= before.update(i as int, Slot { id, item }));
                }
                true
            },
            None => false,
        }
    }
}

/// Putting a slot with an unused identifier at its place in the order adds
/// that one entry to the map and keeps the order.
pub proof fn lemma_insert_slot<T>(slots: Seq<Slot<T>>, at: int, slot: Slot<T>)
    requires
        slots_sorted(slots),
        0 <= at <= slots.len(),
        forall|k: int| 0 <= k < at ==> (#[trigger] slots[k]).id < slot.id,
        forall|k: int| at <= k < slots.len() ==> (#[trigger] slots[k]).id > slot.id,
    ensures
        slots_sorted(slots.insert(at, slot)),
        slots_map(slots.insert(at, slot)) == slots_map(slots).insert(slot.id, slot.item),
{
    let after = slots.insert(at, slot);
    assert forall|i: int, j: int| 0 <= i < j < after.len() implies (#[trigger] after[i]).id < (#[trigger] after[j]).id by {
        let oi = if i < at { i } else { i - 1 };
        let oj = if j < at { j } else { j - 1 };
        if i != at && j != at {
            assert(slots[oi].id < slots[oj].id);
        } else if i == at {
            assert(slots[oj].id > slot.id);
        } else {
            assert(slots[oi].id < slot.id);
        }
    }
    let want = slots_map(slots).insert(slot.id, slot.item);
    assert forall|id: Idx| slots_map(after).contains_key(id) <==> want.contains_key(id) by {
        if slots_map(after).contains_key(id) {
            let i = slot_of(after, id);
            assert(0 <= i < after.len() && after[i].id == id);
            if i != at {
                let oi = if i < at { i } else { i - 1 };
                assert(slots[oi].id == id);
            }
        }
        if want.contains_key(id) {
            if id == slot.id {
                assert(after[at].id == id);
            } else {
                let oi = slot_of(slots, id);
                assert(0 <= oi < slots.len() && slots[oi].id == id);
                let i = if oi < at { oi } else { oi + 1 };
                assert(after[i].id == id);
            }
        }
    }
    assert forall|id: Idx| slots_map(after).contains_key(id) implies slots_map(after)[id] == want[id] by {
        let i = slot_of(after, id);
        assert(0 <= i < after.len() && after[i].id == id);
        if i != at {
            let oi = if i < at { i } else { i - 1 };
            assert(slots[oi].id == id);
            lemma_slot_unique(slots, oi);
        }
    }
    assert(slots_map(after) =~= want);
}

/// Taking one slot out takes its entry out of the map and keeps the order.
pub proof fn lemma_remove_slot<T>(slots: Seq<Slot<T>>, at: int)
    requires
        slots_sorted(slots),
        0 <= at < slots.len(),
    ensures
        slots_sorted(slots.remove(at)),
        slots_map(slots.remove(at)) == slots_map(slots).remove(slots[at].id),
{
    let after = slots.remove(at);
    let gone = slots[at].id;
    assert forall|i: int, j: int| 0 <= i < j < after.len() implies (#[trigger] after[i]).id < (#[trigger] after[j]).id by {
        let oi = if i < at { i } else { i + 1 };
        let oj = if j < at { j } else { j + 1 };
        assert(slots[oi].id < slots[oj].id);
    }
    let want = slots_map(slots).remove(gone);
    assert forall|id: Idx| slots_map(after).contains_key(id) <==> want.contains_key(id) by {
        if slots_map(after).contains_key(id) {
            let i = slot_of(after, id);
            assert(0 <= i < after.len() && after[i].id == id);
            let oi = if i < at { i } else { i + 1 };
            assert(slots[oi].id == id);
            if oi < at {
                assert(slots[oi].id < slots[at].id);
            } else {
                assert(slots[at].id < slots[oi].id);
            }
        }
        if want.contains_key(id) {
            let oi = slot_of(slots, id);
            assert(0 <= oi < slots.len() && slots[oi].id == id);
            let i = if oi < at { oi } else { oi - 1 };
            assert(after[i].id == id);
        }
    }
    assert forall|id: Idx| slots_map(after).contains_key(id) implies slots_map(after)[id] == want[id] by {
        let i = slot_of(after, id);
        assert(0 <= i < after.len() && after[i].id == id);
        let oi = if i < at { i } else { i + 1 };
        assert(slots[oi].id == id);
        lemma_slot_unique(slots, oi);
    }
    assert(slots_map(after) =~= want);
}

/// Changing the item of one slot changes that one entry of the map.
pub proof fn lemma_update_slot<T>(slots: Seq<Slot<T>>, at: int, item: T)
    requires
        slots_sorted(slots),
        0 <= at < slots.len(),
    ensures
        slots_sorted(slots.update(at, Slot { id: slots[at].id, item })),
        slots_map(slots.update(at, Slot { id: slots[at].id, item })) == slots_map(slots).insert(
            slots[at].id,
            item,
        ),
{
    let after = slots.update(at, Slot { id: slots[at].id, item });
    assert forall|i: int, j: int| 0 <= i < j < after.len() implies (#[trigger] after[i]).id < (#[trigger] after[j]).id by {
        assert(slots[i].id < slots[j].id);
    }
    let want = slots_map(slots).insert(slots[at].id, item);
    assert forall|id: Idx| slots_map(after).contains_key(id) <==> want.contains_key(id) by {
        if slots_map(after).contains_key(id) {
            let i = slot_of(after, id);
            assert(0 <= i < after.len() && after[i].id == id);
            assert(slots[i].id == id);
        }
        if want.contains_key(id) {
            if id == slots[at].id {
                assert(after[at].id == id);
            } else {
                let oi = slot_of(slots, id);
                assert(0 <= oi < slots.len() && slots[oi].id == id);
                assert(after[oi].id == id);
            }
        }
    }
    assert forall|id: Idx| slots_map(after).contains_key(id) implies slots_map(after)[id] == want[id] by {
        let i = slot_of(after, id);
        assert(0 <= i < after.len() && after[i].id == id);
        assert(slots[i].id == id);
        lemma_slot_unique(slots, i);
        lemma_slot_unique(slots, at);
    }
    assert(slots_map(after) =~= want);
}

} // verus!
