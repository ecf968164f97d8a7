//! Per-frame update ticks: behaviors that opted in are invoked on every
//! tick, in registration order, with no consumption.

use vstd::prelude::*;

use crate::arena::BehaviorArena;
use crate::arena::BehaviorId;
use crate::listeners::prune_id_list;
use crate::listeners::lemma_seq_add_contains;

verus! {

pub struct UpdateManager {
    behaviors: Vec<BehaviorId>,
}

impl UpdateManager {
    pub closed spec fn listeners(self) -> Seq<BehaviorId> {
        self.behaviors@
    }

    pub fn new() -> (r: UpdateManager)
        ensures
            r.listeners() == Seq::<BehaviorId>::empty(),
    {
        UpdateManager { behaviors: Vec::new() }
    }

    pub fn add_listener(&mut self, id: BehaviorId)
        ensures
            final(self).listeners() == old(self).listeners().push(id),
    {
        self.behaviors.push(id);
    }

    /// Delivers a frame tick: every live listener's update callback runs,
    /// in registration order; dead listeners are pruned without being
    /// invoked.  Updates are never consumable.
    pub fn fire_update<B: crate::component::ComponentBehavior>(
        &mut self,
        arena: &mut BehaviorArena<B>,
    ) -> (r: Ghost<Seq<BehaviorId>>)
        requires
            old(arena).wf(),
        ensures
            r@ == prune_id_list(old(self).listeners(), *old(arena)),
            final(arena).wf(),
            final(arena).slots_len() == old(arena).slots_len(),
            forall|id: BehaviorId| final(arena).live(id) == old(arena).live(id),
            forall|id: BehaviorId|
                old(arena).live(id) && !prune_id_list(old(self).listeners(), *old(arena)).contains(
                    id,
                ) ==> final(arena).slot_of(id) == old(arena).slot_of(id),
            forall|id: BehaviorId|
                old(arena).live(id) ==> final(arena).slot_of(id).component == old(arena).slot_of(
                    id,
                ).component,
            final(self).listeners() == prune_id_list(old(self).listeners(), *old(arena)),
    {
        let ghost arena0 = *arena;
        let ghost l = self.behaviors@;
        let mut kept: Vec<BehaviorId> = Vec::new();
        let mut i: usize = 0;
        proof {
            assert(l.take(0) =~= Seq::<BehaviorId>::empty());
        }
        while i < self.behaviors.len()
            invariant
                i <= l.len(),
                self.behaviors@ == l,
                arena.wf(),
                arena0.wf(),
                arena.slots_len() == arena0.slots_len(),
                forall|id: BehaviorId| arena.live(id) == arena0.live(id),
                forall|id: BehaviorId|
                    arena0.live(id) && !prune_id_list(l.take(i as int), arena0).contains(id)
                        ==> arena.slot_of(id) == arena0.slot_of(id),
                forall|id: BehaviorId|
                    arena0.live(id) ==> arena.slot_of(id).component == arena0.slot_of(
                        id,
                    ).component,
                kept@ == prune_id_list(l.take(i as int), arena0),
            decreases l.len() - i,
        {
            let listener = self.behaviors[i];
            proof {
                assert(l.take(i + 1 as int).drop_last() =~= l.take(i as int));
                assert(l.take(i + 1 as int).last() == l[i as int]);
                lemma_seq_add_contains(prune_id_list(l.take(i as int), arena0), listener);
            }
            if arena.is_live(listener) {
                kept.push(listener);
                proof {
                    assert(prune_id_list(l.take(i + 1 as int), arena0) =~= prune_id_list(
                        l.take(i as int),
                        arena0,
                    ) + seq![listener]);
                }
                let maybe_slot = arena.take(listener);
                match maybe_slot {
                    Some(mut slot) => {
                        slot.behavior.update(&mut slot.agent);
                        arena.restore(listener, slot);
                    },
                    None => {
                        proof {
                            assert(false);
                        }
                    },
                }
            }
            i = i + 1;
        }
        proof {
            assert(l.take(l.len() as int) =~= l);
        }
        self.behaviors = kept;
        Ghost(kept@)
    }
}

} // verus!
