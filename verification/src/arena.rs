//! Storage for the live behaviors of one layer.
//!
//! Behaviors are kept in a generation-checked slot arena.  Every manager
//! refers to a behavior through a `BehaviorId`; when the behavior dies (its
//! component is removed) the id silently stops being live, and each
//! manager's listener list drops the dead entry the next time it scans —
//! the same lazy self-cleaning that a weak reference would give, without
//! shared ownership.

use vstd::prelude::*;

use crate::agent::Agent;

verus! {

/// A generation-checked index into a layer's behavior arena.
#[derive(Clone, Copy, PartialEq, Eq, Structural, Debug)]
pub struct BehaviorId {
    pub index: usize,
    pub generation: u64,
}

/// Everything a layer stores for one live behavior: the behavior itself,
/// its agent, and the id of the component that owns it (the id of the
/// component's first behavior stands for the whole component).
pub struct BehaviorSlot<B> {
    pub behavior: B,
    pub agent: Agent<B>,
    pub component: BehaviorId,
}

struct Slot<B> {
    generation: u64,
    entry: Option<BehaviorSlot<B>>,
}

/// The arena itself: a vector of slots plus a free list of vacant indices.
pub struct BehaviorArena<B> {
    slots: Vec<Slot<B>>,
    free: Vec<usize>,
}

/// Counts the slots of `s` satisfying `p`.
spec fn count_matching<B>(s: Seq<Slot<B>>, p: spec_fn(Slot<B>) -> bool) -> int
    decreases s.len(),
{
    if s.len() == 0 {
        0
    } else {
        count_matching(s.drop_last(), p) + if p(s.last()) {
            1int
        } else {
            0int
        }
    }
}

proof fn lemma_count_nonneg<B>(s: Seq<Slot<B>>, p: spec_fn(Slot<B>) -> bool)
    ensures
        0 <= count_matching(s, p) <= s.len(),
    decreases s.len(),
{
    if s.len() > 0 {
        lemma_count_nonneg(s.drop_last(), p);
    }
}

proof fn lemma_count_update<B>(
    s: Seq<Slot<B>>,
    p: spec_fn(Slot<B>) -> bool,
    i: int,
    v: Slot<B>,
)
    requires
        0 <= i < s.len(),
    ensures
        count_matching(s.update(i, v), p) == count_matching(s, p) - (if p(s[i]) {
            1int
        } else {
            0int
        }) + (if p(v) {
            1int
        } else {
            0int
        }),
    decreases s.len(),
{
    let su = s.update(i, v);
    if i == s.len() - 1 {
        assert(su.drop_last() =~= s.drop_last());
        assert(su.last() == v);
    } else {
        assert(su.drop_last() =~= s.drop_last().update(i, v));
        assert(su.last() == s.last());
        lemma_count_update(s.drop_last(), p, i, v);
    }
}

proof fn lemma_count_push<B>(s: Seq<Slot<B>>, p: spec_fn(Slot<B>) -> bool, v: Slot<B>)
    ensures
        count_matching(s.push(v), p) == count_matching(s, p) + (if p(v) {
            1int
        } else {
            0int
        }),
{
    assert(s.push(v).drop_last() =~= s);
    assert(s.push(v).last() == v);
}

impl<B> BehaviorArena<B> {
    /// Free-list hygiene: every free index names a vacant slot, and no index
    /// appears twice.
    pub closed spec fn wf(self) -> bool {
        &&& forall|k: int|
            0 <= k < self.free@.len() ==> (#[trigger] self.free@[k]) < self.slots@.len()
                && self.slots@[self.free@[k] as int].entry is None
        &&& forall|k1: int, k2: int|
            0 <= k1 < k2 < self.free@.len() ==> self.free@[k1] != self.free@[k2]
    }

    pub closed spec fn slots_len(self) -> int {
        self.slots@.len() as int
    }

    /// Whether a slot currently holds a behavior at this index.
    pub closed spec fn occupied_at(self, index: int) -> bool {
        0 <= index < self.slots@.len() && self.slots@[index].entry is Some
    }

    /// A behavior id is live while its slot is occupied and the generations
    /// agree.
    pub closed spec fn live(self, id: BehaviorId) -> bool {
        &&& id.index < self.slots@.len()
        &&& self.slots@[id.index as int].generation == id.generation
        &&& self.slots@[id.index as int].entry is Some
    }

    /// The stored state of a live behavior.
    pub closed spec fn slot_of(self, id: BehaviorId) -> BehaviorSlot<B> {
        match self.slots@[id.index as int].entry {
            Some(e) => e,
            None => arbitrary(),
        }
    }

    /// A slot whose behavior has been taken out for an invocation and can be
    /// put back.
    pub closed spec fn restorable(self, id: BehaviorId) -> bool {
        &&& id.index < self.slots@.len()
        &&& self.slots@[id.index as int].generation == id.generation
        &&& self.slots@[id.index as int].entry is None
        &&& forall|k: int| 0 <= k < self.free@.len() ==> (#[trigger] self.free@[k]) != id.index
    }

    /// True of a slot holding a behavior whose agent has no pending render
    /// request.
    spec fn clean_pred() -> spec_fn(Slot<B>) -> bool {
        |s: Slot<B>|
            match s.entry {
                Some(e) => !e.agent.render_requested(),
                None => false,
            }
    }

    spec fn live_pred() -> spec_fn(Slot<B>) -> bool {
        |s: Slot<B>| s.entry is Some
    }

    /// How many live behaviors have not requested a render.  Cross-layer
    /// render propagation terminates because each forced render shrinks this
    /// number.
    pub closed spec fn clean_count(self) -> int {
        count_matching(self.slots@, Self::clean_pred())
    }

    /// How many behaviors are live.
    pub closed spec fn live_count(self) -> int {
        count_matching(self.slots@, Self::live_pred())
    }

    /// Both counts stay within the slot count.
    pub proof fn lemma_counts_nonneg(self)
        ensures
            0 <= self.clean_count() <= self.slots_len(),
            0 <= self.live_count() <= self.slots_len(),
    {
        lemma_count_nonneg(self.slots@, Self::clean_pred());
        lemma_count_nonneg(self.slots@, Self::live_pred());
    }

    /// A live id's index is within the slot vector.
    pub proof fn lemma_live_index_bound(self, id: BehaviorId)
        requires
            self.live(id),
        ensures
            0 <= id.index < self.slots_len(),
    {
    }

    /// No id is live at an unoccupied index.
    pub proof fn lemma_vacant_index(self, index: usize, id: BehaviorId)
        requires
            !self.occupied_at(index as int),
            id.index == index,
        ensures
            !self.live(id),
    {
    }

    /// At one index only one generation can be live.
    pub proof fn lemma_live_unique_at_index(self, id1: BehaviorId, id2: BehaviorId)
        requires
            self.live(id1),
            self.live(id2),
            id1.index == id2.index,
        ensures
            id1 == id2,
    {
    }

    pub fn new() -> (r: Self)
        ensures
            r.wf(),
            forall|id: BehaviorId| !r.live(id),
            r.slots_len() == 0,
            r.clean_count() == 0,
            r.live_count() == 0,
    {
        Self { slots: Vec::new(), free: Vec::new() }
    }

    pub fn is_live(&self, id: BehaviorId) -> (r: bool)
        ensures
            r == self.live(id),
    {
        if id.index < self.slots.len() {
            let slot = &self.slots[id.index];
            slot.generation == id.generation && slot.entry.is_some()
        } else {
            false
        }
    }

    pub fn slot_count(&self) -> (r: usize)
        ensures
            r == self.slots_len(),
    {
        self.slots.len()
    }

    /// The live id stored at a raw slot index, if any.
    pub fn id_at(&self, index: usize) -> (r: Option<BehaviorId>)
        requires
            index < self.slots_len(),
        ensures
            match r {
                Some(id) => id.index == index && self.live(id),
                None => !self.occupied_at(index as int),
            },
    {
        let slot = &self.slots[index];
        if slot.entry.is_some() {
            Some(BehaviorId { index, generation: slot.generation })
        } else {
            None
        }
    }

    /// Replaces the slot at `id.index` with `v`, keeping everything else.
    fn put_slot(&mut self, index: usize, v: Slot<B>)
        requires
            index < old(self).slots_len(),
        ensures
            final(self).slots@ == old(self).slots@.update(index as int, v),
            final(self).free@ == old(self).free@,
    {
        let _old = self.slots.remove(index);
        self.slots.insert(index, v);
        proof {
            assert(self.slots@ =~= old(self).slots@.update(index as int, v));
        }
    }

    /// Stores a new behavior and returns its fresh id.
    pub fn insert(&mut self, behavior: B, agent: Agent<B>, component: BehaviorId) -> (id:
        BehaviorId)
        requires
            old(self).wf(),
        ensures
            final(self).wf(),
            final(self).live(id),
            !old(self).live(id),
            final(self).slot_of(id) == (BehaviorSlot { behavior, agent, component }),
            forall|id2: BehaviorId|
                id2 != id ==> final(self).live(id2) == old(self).live(id2),
            forall|id2: BehaviorId|
                id2 != id && old(self).live(id2) ==> final(self).slot_of(id2) == old(
                    self,
                ).slot_of(id2),
            final(self).live_count() == old(self).live_count() + 1,
    {
        let entry = BehaviorSlot { behavior, agent, component };
        let maybe_idx = self.free.pop();
        match maybe_idx {
            Some(idx) => {
                let generation = self.slots[idx].generation;
                let id = BehaviorId { index: idx, generation };
                proof {
                    lemma_count_update(
                        self.slots@,
                        Self::live_pred(),
                        idx as int,
                        Slot { generation, entry: Some(entry) },
                    );
                }
                self.put_slot(idx, Slot { generation, entry: Some(entry) });
                id
            },
            None => {
                let idx = self.slots.len();
                let id = BehaviorId { index: idx, generation: 0 };
                proof {
                    lemma_count_push(
                        self.slots@,
                        Self::live_pred(),
                        Slot { generation: 0, entry: Some(entry) },
                    );
                }
                self.slots.push(Slot { generation: 0, entry: Some(entry) });
                id
            },
        }
    }

    /// Stores the first behavior of a new component; the fresh id stands
    /// for the component itself.
    pub fn insert_root(&mut self, behavior: B, agent: Agent<B>) -> (id: BehaviorId)
        requires
            old(self).wf(),
        ensures
            final(self).wf(),
            final(self).live(id),
            !old(self).live(id),
            final(self).slot_of(id).behavior == behavior,
            final(self).slot_of(id).agent == agent,
            final(self).slot_of(id).component == id,
            forall|id2: BehaviorId|
                id2 != id ==> final(self).live(id2) == old(self).live(id2),
            forall|id2: BehaviorId|
                id2 != id && old(self).live(id2) ==> final(self).slot_of(id2) == old(
                    self,
                ).slot_of(id2),
            final(self).live_count() == old(self).live_count() + 1,
    {
        let maybe_idx = self.free.pop();
        match maybe_idx {
            Some(idx) => {
                let generation = self.slots[idx].generation;
                let id = BehaviorId { index: idx, generation };
                let entry = BehaviorSlot { behavior, agent, component: id };
                proof {
                    lemma_count_update(
                        self.slots@,
                        Self::live_pred(),
                        idx as int,
                        Slot { generation, entry: Some(entry) },
                    );
                }
                self.put_slot(idx, Slot { generation, entry: Some(entry) });
                id
            },
            None => {
                let idx = self.slots.len();
                let id = BehaviorId { index: idx, generation: 0 };
                let entry = BehaviorSlot { behavior, agent, component: id };
                proof {
                    lemma_count_push(
                        self.slots@,
                        Self::live_pred(),
                        Slot { generation: 0, entry: Some(entry) },
                    );
                }
                self.slots.push(Slot { generation: 0, entry: Some(entry) });
                id
            },
        }
    }

    /// Frees a behavior's slot.  Does nothing when the id is already dead.
    pub fn free(&mut self, id: BehaviorId)
        requires
            old(self).wf(),
        ensures
            final(self).wf(),
            !final(self).live(id),
            forall|id2: BehaviorId|
                id2 != id ==> final(self).live(id2) == old(self).live(id2),
            forall|id2: BehaviorId|
                id2 != id && old(self).live(id2) ==> final(self).slot_of(id2) == old(
                    self,
                ).slot_of(id2),
            final(self).slots_len() == old(self).slots_len(),
            final(self).live_count() == old(self).live_count() - (if old(self).live(id) {
                1int
            } else {
                0int
            }),
    {
        if !self.is_live(id) {
            return ;
        }
        let idx = id.index;
        let generation = self.slots[idx].generation;
        proof {
            lemma_count_update(
                self.slots@,
                Self::live_pred(),
                idx as int,
                Slot {
                    generation: if generation < u64::MAX {
                        (generation + 1) as u64
                    } else {
                        generation
                    },
                    entry: None,
                },
            );
        }
        if generation < u64::MAX {
            self.put_slot(idx, Slot { generation: generation + 1, entry: None });
            self.free.push(idx);
        } else {
            // This generation is exhausted; retire the slot for good.
            self.put_slot(idx, Slot { generation, entry: None });
        }
    }

    /// Takes a live behavior out of its slot so it can be invoked; the slot
    /// stays reserved until `restore` puts it back.
    pub fn take(&mut self, id: BehaviorId) -> (r: Option<BehaviorSlot<B>>)
        requires
            old(self).wf(),
        ensures
            final(self).wf(),
            old(self).live(id) ==> r == Some(old(self).slot_of(id)) && final(self).restorable(id),
            !old(self).live(id) ==> r is None && *final(self) == *old(self),
            !final(self).live(id),
            forall|id2: BehaviorId|
                id2 != id ==> final(self).live(id2) == old(self).live(id2),
            forall|id2: BehaviorId|
                id2 != id && old(self).live(id2) ==> final(self).slot_of(id2) == old(
                    self,
                ).slot_of(id2),
            final(self).slots_len() == old(self).slots_len(),
            final(self).live_count() == old(self).live_count() - (if old(self).live(id) {
                1int
            } else {
                0int
            }),
    {
        if !self.is_live(id) {
            return None;
        }
        let idx = id.index;
        let mut slot = self.slots.remove(idx);
        let mut taken: Option<BehaviorSlot<B>> = None;
        core::mem::swap(&mut slot.entry, &mut taken);
        proof {
            lemma_count_update(
                old(self).slots@,
                Self::live_pred(),
                idx as int,
                Slot { generation: id.generation, entry: None },
            );
        }
        self.slots.insert(idx, slot);
        proof {
            assert(self.slots@ =~= old(self).slots@.update(
                idx as int,
                Slot { generation: id.generation, entry: None },
            ));
        }
        taken
    }

    /// Puts a taken behavior back into its reserved slot.
    pub fn restore(&mut self, id: BehaviorId, entry: BehaviorSlot<B>)
        requires
            old(self).wf(),
            old(self).restorable(id),
        ensures
            final(self).wf(),
            final(self).live(id),
            final(self).slot_of(id) == entry,
            forall|id2: BehaviorId|
                id2 != id ==> final(self).live(id2) == old(self).live(id2),
            forall|id2: BehaviorId|
                id2 != id && old(self).live(id2) ==> final(self).slot_of(id2) == old(
                    self,
                ).slot_of(id2),
            final(self).slots_len() == old(self).slots_len(),
            final(self).live_count() == old(self).live_count() + 1,
    {
        let idx = id.index;
        proof {
            lemma_count_update(
                self.slots@,
                Self::live_pred(),
                idx as int,
                Slot { generation: id.generation, entry: Some(entry) },
            );
        }
        self.put_slot(idx, Slot { generation: id.generation, entry: Some(entry) });
    }
    /// Marks a behavior's agent as needing a render; reports whether this
    /// newly dirtied a previously clean behavior.  Dead ids are ignored.
    pub fn request_render_for(&mut self, id: BehaviorId) -> (flipped: bool)
        requires
            old(self).wf(),
        ensures
            final(self).wf(),
            final(self).slots_len() == old(self).slots_len(),
            flipped == (old(self).live(id) && !old(self).slot_of(id).agent.render_requested()),
            forall|id2: BehaviorId| final(self).live(id2) == old(self).live(id2),
            forall|id2: BehaviorId|
                id2 != id && old(self).live(id2) ==> final(self).slot_of(id2) == old(
                    self,
                ).slot_of(id2),
            old(self).live(id) ==> {
                &&& final(self).slot_of(id).behavior == old(self).slot_of(id).behavior
                &&& final(self).slot_of(id).component == old(self).slot_of(id).component
                &&& final(self).slot_of(id).agent.render_requested()
                &&& final(self).slot_of(id).agent.removal_requested() == old(self).slot_of(
                    id,
                ).agent.removal_requested()
                &&& final(self).slot_of(id).agent.pending() == old(self).slot_of(
                    id,
                ).agent.pending()
                &&& final(self).slot_of(id).agent.container_request() == old(self).slot_of(
                    id,
                ).agent.container_request()
                &&& final(self).slot_of(id).agent.changed() == old(self).slot_of(
                    id,
                ).agent.changed()
            },
            !old(self).live(id) ==> *final(self) == *old(self),
            final(self).clean_count() == old(self).clean_count() - (if flipped {
                1int
            } else {
                0int
            }),
            final(self).live_count() == old(self).live_count(),
    {
        if !self.is_live(id) {
            return false;
        }
        let idx = id.index;
        let mut slot = self.slots.remove(idx);
        let mut flipped = false;
        match &mut slot.entry {
            Some(e) => {
                flipped = !e.agent.did_request_render();
                e.agent.request_render();
            },
            None => {},
        }
        proof {
            lemma_count_update(old(self).slots@, Self::clean_pred(), idx as int, slot);
            lemma_count_update(old(self).slots@, Self::live_pred(), idx as int, slot);
        }
        self.slots.insert(idx, slot);
        proof {
            assert(self.slots@ =~= old(self).slots@.update(idx as int, self.slots@[idx as int]));
        }
        flipped
    }

    /// Clears a live behavior's render request, right before it renders.
    pub fn set_rendering_for(&mut self, id: BehaviorId)
        requires
            old(self).wf(),
            old(self).live(id),
        ensures
            final(self).wf(),
            final(self).slots_len() == old(self).slots_len(),
            forall|id2: BehaviorId| final(self).live(id2) == old(self).live(id2),
            forall|id2: BehaviorId|
                id2 != id && old(self).live(id2) ==> final(self).slot_of(id2) == old(
                    self,
                ).slot_of(id2),
            final(self).slot_of(id).behavior == old(self).slot_of(id).behavior,
            final(self).slot_of(id).component == old(self).slot_of(id).component,
            !final(self).slot_of(id).agent.render_requested(),
            final(self).slot_of(id).agent.removal_requested() == old(self).slot_of(
                id,
            ).agent.removal_requested(),
            final(self).slot_of(id).agent.pending() == old(self).slot_of(id).agent.pending(),
            final(self).slot_of(id).agent.container_request() == old(self).slot_of(
                id,
            ).agent.container_request(),
            final(self).slot_of(id).agent.changed() == old(self).slot_of(id).agent.changed(),
    {
        let idx = id.index;
        let mut slot = self.slots.remove(idx);
        match &mut slot.entry {
            Some(e) => {
                e.agent.set_rendering();
            },
            None => {},
        }
        self.slots.insert(idx, slot);
        proof {
            assert(self.slots@ =~= old(self).slots@.update(idx as int, self.slots@[idx as int]));
        }
    }

    /// Whether a live behavior's agent has a render request pending.
    pub fn agent_render_requested(&self, id: BehaviorId) -> (r: bool)
        requires
            self.live(id),
        ensures
            r == self.slot_of(id).agent.render_requested(),
    {
        match &self.slots[id.index].entry {
            Some(e) => e.agent.did_request_render(),
            None => false,
        }
    }

    /// Whether a live behavior's agent has effects pending.
    pub fn agent_changed(&self, id: BehaviorId) -> (r: bool)
        requires
            self.live(id),
        ensures
            r == self.slot_of(id).agent.changed(),
    {
        match &self.slots[id.index].entry {
            Some(e) => e.agent.has_changes(),
            None => false,
        }
    }

    /// Whether a live behavior asked for its component to be removed.
    pub fn agent_removal_requested(&self, id: BehaviorId) -> (r: bool)
        requires
            self.live(id),
        ensures
            r == self.slot_of(id).agent.removal_requested(),
    {
        match &self.slots[id.index].entry {
            Some(e) => e.agent.did_request_removal(),
            None => false,
        }
    }

    /// Whether a live behavior asked for a container change.
    pub fn agent_container_requested(&self, id: BehaviorId) -> (r: bool)
        requires
            self.live(id),
        ensures
            r == (self.slot_of(id).agent.container_request() is Some),
    {
        match &self.slots[id.index].entry {
            Some(e) => e.agent.requested_container_change(),
            None => false,
        }
    }

    /// The component a live behavior belongs to.
    pub fn component_of(&self, id: BehaviorId) -> (r: BehaviorId)
        requires
            self.live(id),
        ensures
            r == self.slot_of(id).component,
    {
        match &self.slots[id.index].entry {
            Some(e) => e.component,
            None => {
                proof {
                    assert(false);
                }
                vstd::pervasive::unreached()
            },
        }
    }

    /// Clears a live behavior's dirty flag after the layer drained it.
    pub fn clear_changes_for(&mut self, id: BehaviorId)
        requires
            old(self).wf(),
            old(self).live(id),
        ensures
            final(self).wf(),
            final(self).slots_len() == old(self).slots_len(),
            forall|id2: BehaviorId| final(self).live(id2) == old(self).live(id2),
            forall|id2: BehaviorId|
                id2 != id && old(self).live(id2) ==> final(self).slot_of(id2) == old(
                    self,
                ).slot_of(id2),
            final(self).slot_of(id).behavior == old(self).slot_of(id).behavior,
            final(self).slot_of(id).component == old(self).slot_of(id).component,
            final(self).slot_of(id).agent.render_requested() == old(self).slot_of(
                id,
            ).agent.render_requested(),
            final(self).slot_of(id).agent.removal_requested() == old(self).slot_of(
                id,
            ).agent.removal_requested(),
            final(self).slot_of(id).agent.pending() == old(self).slot_of(id).agent.pending(),
            final(self).slot_of(id).agent.container_request() == old(self).slot_of(
                id,
            ).agent.container_request(),
            !final(self).slot_of(id).agent.changed(),
    {
        let idx = id.index;
        let mut slot = self.slots.remove(idx);
        match &mut slot.entry {
            Some(e) => {
                e.agent.clear_changes();
            },
            None => {},
        }
        self.slots.insert(idx, slot);
        proof {
            assert(self.slots@ =~= old(self).slots@.update(idx as int, self.slots@[idx as int]));
        }
    }

    /// Drains the queue of components a live behavior asked to add.
    pub fn take_pending_for(&mut self, id: BehaviorId) -> (r: Vec<Vec<B>>)
        requires
            old(self).wf(),
            old(self).live(id),
        ensures
            final(self).wf(),
            final(self).slots_len() == old(self).slots_len(),
            forall|id2: BehaviorId| final(self).live(id2) == old(self).live(id2),
            forall|id2: BehaviorId|
                id2 != id && old(self).live(id2) ==> final(self).slot_of(id2) == old(
                    self,
                ).slot_of(id2),
            r@ == old(self).slot_of(id).agent.pending(),
            final(self).slot_of(id).behavior == old(self).slot_of(id).behavior,
            final(self).slot_of(id).component == old(self).slot_of(id).component,
            final(self).slot_of(id).agent.render_requested() == old(self).slot_of(
                id,
            ).agent.render_requested(),
            final(self).slot_of(id).agent.removal_requested() == old(self).slot_of(
                id,
            ).agent.removal_requested(),
            final(self).slot_of(id).agent.pending() == Seq::<Vec<B>>::empty(),
            final(self).slot_of(id).agent.container_request() == old(self).slot_of(
                id,
            ).agent.container_request(),
            final(self).slot_of(id).agent.changed() == old(self).slot_of(id).agent.changed(),
    {
        let idx = id.index;
        let mut slot = self.slots.remove(idx);
        let mut r: Vec<Vec<B>> = Vec::new();
        match &mut slot.entry {
            Some(e) => {
                r = e.agent.get_components_to_add();
            },
            None => {},
        }
        self.slots.insert(idx, slot);
        proof {
            assert(self.slots@ =~= old(self).slots@.update(idx as int, self.slots@[idx as int]));
        }
        r
    }

    /// Takes a live behavior's container request, clearing it.
    pub fn take_container_request_for(&mut self, id: BehaviorId) -> (r: Option<
        Box<crate::container::Container<B>>,
    >)
        requires
            old(self).wf(),
            old(self).live(id),
        ensures
            final(self).wf(),
            final(self).slots_len() == old(self).slots_len(),
            forall|id2: BehaviorId| final(self).live(id2) == old(self).live(id2),
            forall|id2: BehaviorId|
                id2 != id && old(self).live(id2) ==> final(self).slot_of(id2) == old(
                    self,
                ).slot_of(id2),
            r == old(self).slot_of(id).agent.container_request(),
            final(self).slot_of(id).behavior == old(self).slot_of(id).behavior,
            final(self).slot_of(id).component == old(self).slot_of(id).component,
            final(self).slot_of(id).agent.render_requested() == old(self).slot_of(
                id,
            ).agent.render_requested(),
            final(self).slot_of(id).agent.removal_requested() == old(self).slot_of(
                id,
            ).agent.removal_requested(),
            final(self).slot_of(id).agent.pending() == old(self).slot_of(id).agent.pending(),
            final(self).slot_of(id).agent.container_request() is None,
            final(self).slot_of(id).agent.changed() == old(self).slot_of(id).agent.changed(),
    {
        let idx = id.index;
        let mut slot = self.slots.remove(idx);
        let mut r: Option<Box<crate::container::Container<B>>> = None;
        match &mut slot.entry {
            Some(e) => {
                if e.agent.requested_container_change() {
                    r = Some(e.agent.get_new_container());
                }
            },
            None => {},
        }
        self.slots.insert(idx, slot);
        proof {
            assert(self.slots@ =~= old(self).slots@.update(idx as int, self.slots@[idx as int]));
        }
        r
    }

    /// How many behaviors are currently live.
    pub fn behavior_count(&self) -> (r: usize)
        ensures
            r == self.live_count(),
    {
        let mut count: usize = 0;
        let mut i: usize = 0;
        proof {
            assert(self.slots@.take(0) =~= Seq::<Slot<B>>::empty());
        }
        while i < self.slots.len()
            invariant
                i <= self.slots@.len(),
                count <= i,
                count == count_matching(self.slots@.take(i as int), Self::live_pred()),
            decreases self.slots@.len() - i,
        {
            if self.slots[i].entry.is_some() {
                count = count + 1;
            }
            proof {
                assert(self.slots@.take(i + 1 as int).drop_last() =~= self.slots@.take(i as int));
                assert(self.slots@.take(i + 1 as int).last() == self.slots@[i as int]);
            }
            i = i + 1;
        }
        proof {
            assert(self.slots@.take(self.slots@.len() as int) =~= self.slots@);
        }
        count
    }
}

} // verus!