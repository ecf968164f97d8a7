//! Key event delivery for one layer, for the key-down and key-up
//! categories.
//!
//! Region-scoped ("hover") listeners take precedence: when the mouse
//! position is known, the live hover listeners whose region contains it are
//! invoked in order until one consumes the event.  Only if none consumed it
//! are the global listeners tried, in priority order, again until first
//! consumption.  Dead listeners found along the way are pruned without
//! being invoked.

use vstd::prelude::*;

use crate::arena::BehaviorArena;
use crate::arena::BehaviorId;
use crate::listeners::DispatchStep;
use crate::listeners::GlobalListener;
use crate::listeners::RegionListener;
use crate::listeners::consuming_scan;
use crate::listeners::global_candidates;
use crate::listeners::insert_by_priority;
use crate::listeners::prune_global_list;
use crate::listeners::prune_region_list;
use crate::listeners::region_candidates;
use crate::listeners::lemma_region_candidates_none;
use crate::listeners::sorted_desc;
use crate::listeners::lemma_prune_global_pair;
use crate::listeners::lemma_prune_region_pair;
use crate::listeners::trace_ids;
use crate::region::Region;

verus! {

pub struct KeyListenManager {
    hover_down_listeners: Vec<RegionListener>,
    hover_up_listeners: Vec<RegionListener>,
    full_down_listeners: Vec<GlobalListener>,
    full_up_listeners: Vec<GlobalListener>,
}

impl KeyListenManager {
    pub closed spec fn hover_down(self) -> Seq<RegionListener> {
        self.hover_down_listeners@
    }

    pub closed spec fn hover_up(self) -> Seq<RegionListener> {
        self.hover_up_listeners@
    }

    pub closed spec fn full_down(self) -> Seq<GlobalListener> {
        self.full_down_listeners@
    }

    pub closed spec fn full_up(self) -> Seq<GlobalListener> {
        self.full_up_listeners@
    }

    /// Claimed key regions of one category never overlap, and the global
    /// lists are sorted by descending priority.
    pub open spec fn wf(self) -> bool {
        &&& forall|i: int, j: int|
            0 <= i < j < self.hover_down().len() ==> !(#[trigger] self.hover_down()[i]).region
                .intersects((#[trigger] self.hover_down()[j]).region)
        &&& forall|i: int, j: int|
            0 <= i < j < self.hover_up().len() ==> !(#[trigger] self.hover_up()[i]).region
                .intersects((#[trigger] self.hover_up()[j]).region)
        &&& sorted_desc(self.full_down())
        &&& sorted_desc(self.full_up())
    }

    pub fn new() -> (r: KeyListenManager)
        ensures
            r.hover_down() == Seq::<RegionListener>::empty(),
            r.hover_up() == Seq::<RegionListener>::empty(),
            r.full_down() == Seq::<GlobalListener>::empty(),
            r.full_up() == Seq::<GlobalListener>::empty(),
            r.wf(),
    {
        KeyListenManager {
            hover_down_listeners: Vec::new(),
            hover_up_listeners: Vec::new(),
            full_down_listeners: Vec::new(),
            full_up_listeners: Vec::new(),
        }
    }

    /// True when `region` overlaps no claimed key-down region.
    pub fn can_claim_down(&self, region: Region) -> (r: bool)
        ensures
            r == forall|i: int|
                0 <= i < self.hover_down().len() ==> !(#[trigger] self.hover_down()[i]).region
                    .intersects(region),
    {
        let mut i: usize = 0;
        while i < self.hover_down_listeners.len()
            invariant
                i <= self.hover_down().len(),
                forall|k: int|
                    0 <= k < i ==> !(#[trigger] self.hover_down()[k]).region.intersects(region),
            decreases self.hover_down().len() - i,
        {
            if self.hover_down_listeners[i].region.intersects_with(&region) {
                return false;
            }
            i = i + 1;
        }
        true
    }

    /// True when `region` overlaps no claimed key-up region.
    pub fn can_claim_up(&self, region: Region) -> (r: bool)
        ensures
            r == forall|i: int|
                0 <= i < self.hover_up().len() ==> !(#[trigger] self.hover_up()[i]).region
                    .intersects(region),
    {
        let mut i: usize = 0;
        while i < self.hover_up_listeners.len()
            invariant
                i <= self.hover_up().len(),
                forall|k: int|
                    0 <= k < i ==> !(#[trigger] self.hover_up()[k]).region.intersects(region),
            decreases self.hover_up().len() - i,
        {
            if self.hover_up_listeners[i].region.intersects_with(&region) {
                return false;
            }
            i = i + 1;
        }
        true
    }

    /// Registers a region-scoped key-down listener.  Only to be used after
    /// `can_claim_down` confirmed the region is available.
    pub fn add_region_key_down_listener(&mut self, id: BehaviorId, region: Region)
        requires
            forall|i: int|
                0 <= i < old(self).hover_down().len() ==> !(#[trigger] old(
                    self,
                ).hover_down()[i]).region.intersects(region),
            old(self).wf(),
        ensures
            final(self).hover_down() == old(self).hover_down().push(
                (RegionListener { id, region }),
            ),
            final(self).hover_up() == old(self).hover_up(),
            final(self).full_down() == old(self).full_down(),
            final(self).full_up() == old(self).full_up(),
            final(self).wf(),
    {
        self.hover_down_listeners.push(RegionListener { id, region });
        proof {
            let np = self.hover_down();
            assert forall|i: int, j: int|
                0 <= i < j < np.len() implies !(#[trigger] np[i]).region.intersects(
                (#[trigger] np[j]).region) by {
                if j < np.len() - 1 {
                    assert(!(old(self).hover_down()[i]).region.intersects(
                        (old(self).hover_down()[j]).region,
                    ));
                } else {
                    assert(!(old(self).hover_down()[i]).region.intersects(region));
                }
            }
            assert forall|i: int, j: int|
                0 <= i < j < self.hover_up().len() implies !(#[trigger] self.hover_up()[i]).region
                    .intersects((#[trigger] self.hover_up()[j]).region) by {
                assert(!(old(self).hover_up()[i]).region.intersects(
                    (old(self).hover_up()[j]).region,
                ));
            }
        }
    }

    /// Registers a region-scoped key-up listener.  Only to be used after
    /// `can_claim_up` confirmed the region is available.
    pub fn add_region_key_up_listener(&mut self, id: BehaviorId, region: Region)
        requires
            forall|i: int|
                0 <= i < old(self).hover_up().len() ==> !(#[trigger] old(
                    self,
                ).hover_up()[i]).region.intersects(region),
            old(self).wf(),
        ensures
            final(self).hover_up() == old(self).hover_up().push((RegionListener { id, region })),
            final(self).hover_down() == old(self).hover_down(),
            final(self).full_down() == old(self).full_down(),
            final(self).full_up() == old(self).full_up(),
            final(self).wf(),
    {
        self.hover_up_listeners.push(RegionListener { id, region });
        proof {
            let np = self.hover_up();
            assert forall|i: int, j: int|
                0 <= i < j < np.len() implies !(#[trigger] np[i]).region.intersects(
                (#[trigger] np[j]).region) by {
                if j < np.len() - 1 {
                    assert(!(old(self).hover_up()[i]).region.intersects(
                        (old(self).hover_up()[j]).region,
                    ));
                } else {
                    assert(!(old(self).hover_up()[i]).region.intersects(region));
                }
            }
            assert forall|i: int, j: int|
                0 <= i < j < self.hover_down().len() implies !(#[trigger] self.hover_down()[i]).region
                    .intersects((#[trigger] self.hover_down()[j]).region) by {
                assert(!(old(self).hover_down()[i]).region.intersects(
                    (old(self).hover_down()[j]).region,
                ));
            }
        }
    }

    /// Registers a global key-down listener at the given priority.
    pub fn add_global_key_down_listener(&mut self, id: BehaviorId, priority: i8)
        requires
            old(self).wf(),
        ensures
            final(self).wf(),
            final(self).hover_down() == old(self).hover_down(),
            final(self).hover_up() == old(self).hover_up(),
            final(self).full_up() == old(self).full_up(),
            exists|k: int|
                {
                    &&& 0 <= k <= old(self).full_down().len()
                    &&& final(self).full_down() == old(self).full_down().insert(
                        k,
                        (GlobalListener { id, priority }),
                    )
                    &&& forall|i: int|
                        0 <= i < k ==> old(self).full_down()[i].priority >= priority
                    &&& forall|i: int|
                        k <= i < old(self).full_down().len() ==> old(
                            self,
                        ).full_down()[i].priority < priority
                },
    {
        insert_by_priority(&mut self.full_down_listeners, id, priority);
        proof {
            assert forall|i: int, j: int|
                0 <= i < j < self.hover_down().len() implies !(#[trigger] self.hover_down()[i]).region
                    .intersects((#[trigger] self.hover_down()[j]).region) by {
                assert(!(old(self).hover_down()[i]).region.intersects(
                    (old(self).hover_down()[j]).region,
                ));
            }
            assert forall|i: int, j: int|
                0 <= i < j < self.hover_up().len() implies !(#[trigger] self.hover_up()[i]).region
                    .intersects((#[trigger] self.hover_up()[j]).region) by {
                assert(!(old(self).hover_up()[i]).region.intersects(
                    (old(self).hover_up()[j]).region,
                ));
            }
        }
    }

    /// Registers a global key-up listener at the given priority.
    pub fn add_global_key_up_listener(&mut self, id: BehaviorId, priority: i8)
        requires
            old(self).wf(),
        ensures
            final(self).wf(),
            final(self).hover_down() == old(self).hover_down(),
            final(self).hover_up() == old(self).hover_up(),
            final(self).full_down() == old(self).full_down(),
            exists|k: int|
                {
                    &&& 0 <= k <= old(self).full_up().len()
                    &&& final(self).full_up() == old(self).full_up().insert(
                        k,
                        (GlobalListener { id, priority }),
                    )
                    &&& forall|i: int| 0 <= i < k ==> old(self).full_up()[i].priority >= priority
                    &&& forall|i: int|
                        k <= i < old(self).full_up().len() ==> old(self).full_up()[i].priority
                            < priority
                },
    {
        insert_by_priority(&mut self.full_up_listeners, id, priority);
        proof {
            assert forall|i: int, j: int|
                0 <= i < j < self.hover_down().len() implies !(#[trigger] self.hover_down()[i]).region
                    .intersects((#[trigger] self.hover_down()[j]).region) by {
                assert(!(old(self).hover_down()[i]).region.intersects(
                    (old(self).hover_down()[j]).region,
                ));
            }
            assert forall|i: int, j: int|
                0 <= i < j < self.hover_up().len() implies !(#[trigger] self.hover_up()[i]).region
                    .intersects((#[trigger] self.hover_up()[j]).region) by {
                assert(!(old(self).hover_up()[i]).region.intersects(
                    (old(self).hover_up()[j]).region,
                ));
            }
        }
    }

    /// Delivers a key-down event.  Hover listeners whose region holds the
    /// mouse are tried first, in list order, until one consumes the event;
    /// only if none did are the global listeners tried, in priority order,
    /// again until first consumption.  Dead listeners encountered along the
    /// way are pruned without being invoked.  Returns whether the event
    /// was consumed, together with the scan's invocation trace.
    pub fn fire_key_down<B: crate::component::ComponentBehavior>(
        &mut self,
        arena: &mut BehaviorArena<B>,
        keys: &crate::params::KeyInfo,
        mouse_pos: Option<(i32, i32)>,
    ) -> (r: (bool, Ghost<Seq<DispatchStep>>))
        requires
            old(self).wf(),
            old(arena).wf(),
        ensures
            final(self).wf(),
            final(arena).wf(),
            final(arena).slots_len() == old(arena).slots_len(),
            forall|id: BehaviorId| final(arena).live(id) == old(arena).live(id),
            forall|id: BehaviorId|
                old(arena).live(id) && !trace_ids(r.1@).contains(id) ==> final(arena).slot_of(id)
                    == old(arena).slot_of(id),
            forall|id: BehaviorId|
                old(arena).live(id) ==> final(arena).slot_of(id).component == old(arena).slot_of(
                    id,
                ).component,
            consuming_scan(
                region_candidates(old(self).hover_down(), *old(arena), mouse_pos)
                    + global_candidates(old(self).full_down(), *old(arena)),
                r.1@,
                r.0,
            ),
            mouse_pos is Some ==> final(self).hover_down() == prune_region_list(
                old(self).hover_down(),
                *old(arena),
            ),
            mouse_pos is None ==> final(self).hover_down() == old(self).hover_down(),
            (r.0 && r.1@.len() <= region_candidates(
                old(self).hover_down(),
                *old(arena),
                mouse_pos,
            ).len()) ==> final(self).full_down() == old(self).full_down(),
            !(r.0 && r.1@.len() <= region_candidates(
                old(self).hover_down(),
                *old(arena),
                mouse_pos,
            ).len()) ==> final(self).full_down() == prune_global_list(
                old(self).full_down(),
                *old(arena),
            ),
            final(self).hover_up() == old(self).hover_up(),
            final(self).full_up() == old(self).full_up(),
    {
        let ghost arena0 = *arena;
        let ghost h = self.hover_down_listeners@;
        let mut consumed = false;
        let ghost mut trace: Seq<DispatchStep> = Seq::empty();
        if mouse_pos.is_some() {
            let mut kept: Vec<RegionListener> = Vec::new();
            let mut i: usize = 0;
            proof {
                assert(h.take(0) =~= Seq::<RegionListener>::empty());
            }
            while i < self.hover_down_listeners.len()
                invariant
                    i <= h.len(),
                    self.hover_down_listeners@ == h,
                    self.hover_up_listeners@ == old(self).hover_up(),
                    self.full_down_listeners@ == old(self).full_down(),
                    self.full_up_listeners@ == old(self).full_up(),
                    arena.wf(),
                    arena0.wf(),
                    arena.slots_len() == arena0.slots_len(),
                    forall|id: BehaviorId| arena.live(id) == arena0.live(id),
                    forall|id: BehaviorId|
                        arena0.live(id) && !trace_ids(trace).contains(id) ==> arena.slot_of(id)
                            == arena0.slot_of(id),
                    forall|id: BehaviorId|
                        arena0.live(id) ==> arena.slot_of(id).component == arena0.slot_of(
                            id,
                        ).component,
                    kept@ == prune_region_list(h.take(i as int), arena0),
                    consuming_scan(
                        region_candidates(h.take(i as int), arena0, mouse_pos),
                        trace,
                        consumed,
                    ),
                    mouse_pos is Some,
                decreases h.len() - i,
            {
                let listener = self.hover_down_listeners[i];
                proof {
                    assert(h.take(i + 1 as int).drop_last() =~= h.take(i as int));
                    assert(h.take(i + 1 as int).last() == h[i as int]);
                }
                if arena.is_live(listener.id) {
                    kept.push(listener);
                    if !consumed && listener.region.is_inside_opt(mouse_pos) {
                        let maybe_slot = arena.take(listener.id);
                        match maybe_slot {
                            Some(mut slot) => {
                                let c = slot.behavior.key_down(&mut slot.agent, keys);
                                arena.restore(listener.id, slot);
                                proof {
                                    let step = DispatchStep { id: listener.id, consumed: c };
                                    let t2 = trace.push(step);
                                    assert(trace_ids(t2) =~= trace_ids(trace).push(listener.id));
                                    assert forall|id2: BehaviorId|
                                        trace_ids(trace).contains(id2) implies trace_ids(
                                        t2,
                                    ).contains(id2) by {
                                        let m = choose|m: int|
                                            0 <= m < trace_ids(trace).len() && trace_ids(trace)[m]
                                                == id2;
                                        assert(trace_ids(t2)[m] == id2);
                                    }
                                    assert(trace_ids(t2).contains(listener.id)) by {
                                        assert(trace_ids(t2)[t2.len() - 1] == listener.id);
                                    }
                                    trace = t2;
                                }
                                consumed = c;
                            },
                            None => {
                                proof {
                                    assert(false);
                                }
                            },
                        }
                    }
                }
                i = i + 1;
            }
            proof {
                assert(h.take(h.len() as int) =~= h);
            }
            self.hover_down_listeners = kept;
        } else {
            proof {
                lemma_region_candidates_none(h, arena0);
            }
        }
        let ghost hover_cands = region_candidates(h, arena0, mouse_pos);
        let ghost hover_after = self.hover_down_listeners@;
        let ghost g = self.full_down_listeners@;
        if !consumed {
            let mut kept: Vec<GlobalListener> = Vec::new();
            let mut j: usize = 0;
            proof {
                assert(g.take(0) =~= Seq::<GlobalListener>::empty());
                assert(global_candidates(g.take(0), arena0) =~= Seq::<BehaviorId>::empty());
                assert(hover_cands + global_candidates(g.take(0), arena0) =~= hover_cands);
            }
            while j < self.full_down_listeners.len()
                invariant
                    j <= g.len(),
                    self.full_down_listeners@ == g,
                    self.hover_down_listeners@ == hover_after,
                    self.hover_up_listeners@ == old(self).hover_up(),
                    self.full_up_listeners@ == old(self).full_up(),
                    arena.wf(),
                    arena0.wf(),
                    arena.slots_len() == arena0.slots_len(),
                    forall|id: BehaviorId| arena.live(id) == arena0.live(id),
                    forall|id: BehaviorId|
                        arena0.live(id) && !trace_ids(trace).contains(id) ==> arena.slot_of(id)
                            == arena0.slot_of(id),
                    forall|id: BehaviorId|
                        arena0.live(id) ==> arena.slot_of(id).component == arena0.slot_of(
                            id,
                        ).component,
                    kept@ == prune_global_list(g.take(j as int), arena0),
                    consuming_scan(
                        hover_cands + global_candidates(g.take(j as int), arena0),
                        trace,
                        consumed,
                    ),
                    trace.len() >= hover_cands.len(),
                    consumed ==> trace.len() > hover_cands.len(),
                decreases g.len() - j,
            {
                let listener = self.full_down_listeners[j];
                proof {
                    assert(g.take(j + 1 as int).drop_last() =~= g.take(j as int));
                    assert(g.take(j + 1 as int).last() == g[j as int]);
                }
                if arena.is_live(listener.id) {
                    kept.push(listener);
                    if !consumed {
                        let maybe_slot = arena.take(listener.id);
                        match maybe_slot {
                            Some(mut slot) => {
                                let c = slot.behavior.key_down(&mut slot.agent, keys);
                                arena.restore(listener.id, slot);
                                proof {
                                    let step = DispatchStep { id: listener.id, consumed: c };
                                    let t2 = trace.push(step);
                                    assert(trace_ids(t2) =~= trace_ids(trace).push(listener.id));
                                    assert forall|id2: BehaviorId|
                                        trace_ids(trace).contains(id2) implies trace_ids(
                                        t2,
                                    ).contains(id2) by {
                                        let m = choose|m: int|
                                            0 <= m < trace_ids(trace).len() && trace_ids(trace)[m]
                                                == id2;
                                        assert(trace_ids(t2)[m] == id2);
                                    }
                                    assert(trace_ids(t2).contains(listener.id)) by {
                                        assert(trace_ids(t2)[t2.len() - 1] == listener.id);
                                    }
                                    assert((hover_cands + global_candidates(
                                        g.take(j + 1 as int),
                                        arena0,
                                    ))[trace.len() as int] == listener.id);
                                    trace = t2;
                                }
                                consumed = c;
                            },
                            None => {
                                proof {
                                    assert(false);
                                }
                            },
                        }
                    }
                }
                j = j + 1;
            }
            proof {
                assert(g.take(g.len() as int) =~= g);
            }
            self.full_down_listeners = kept;
        } else {
            proof {
                assert(consuming_scan(
                    hover_cands + global_candidates(g, arena0),
                    trace,
                    consumed,
                ));
            }
        }
        proof {
            assert forall|a: int, b: int|
                0 <= a < b < h.len() implies !(#[trigger] h[a]).region.intersects(
                (#[trigger] h[b]).region) by {
                assert(!(old(self).hover_down()[a]).region.intersects(
                    (old(self).hover_down()[b]).region,
                ));
            }
            assert forall|a: int, b: int|
                0 <= a <= b < g.len() implies g[a].priority >= g[b].priority by {
                assert(old(self).full_down()[a].priority >= old(self).full_down()[b].priority);
            }
            assert forall|i: int, j: int|
                0 <= i < j < self.hover_down().len() implies !(#[trigger] self.hover_down()[i]).region
                    .intersects((#[trigger] self.hover_down()[j]).region) by {
                if mouse_pos is Some {
                    lemma_prune_region_pair(h, arena0, i, j);
                } else {
                    assert(!(old(self).hover_down()[i]).region.intersects(
                        (old(self).hover_down()[j]).region,
                    ));
                }
            }
            assert forall|i: int, j: int|
                0 <= i < j < self.hover_up().len() implies !(#[trigger] self.hover_up()[i]).region
                    .intersects((#[trigger] self.hover_up()[j]).region) by {
                assert(!(old(self).hover_up()[i]).region.intersects(
                    (old(self).hover_up()[j]).region,
                ));
            }
            assert(sorted_desc(self.full_down())) by {
                assert forall|i: int, j: int|
                    0 <= i <= j < self.full_down().len() implies self.full_down()[i].priority
                        >= self.full_down()[j].priority by {
                    if self.full_down() == g {
                        assert(g[i].priority >= g[j].priority);
                    } else {
                        lemma_prune_global_pair(g, arena0, i, j);
                    }
                }
            }
            assert(sorted_desc(self.full_up())) by {
                assert forall|i: int, j: int|
                    0 <= i <= j < self.full_up().len() implies self.full_up()[i].priority
                        >= self.full_up()[j].priority by {
                    assert(old(self).full_up()[i].priority >= old(self).full_up()[j].priority);
                }
            }
        }
        (consumed, Ghost(trace))
    }

    /// Delivers a key-up event.  Hover listeners whose region holds the
    /// mouse are tried first, in list order, until one consumes the event;
    /// only if none did are the global listeners tried, in priority order,
    /// again until first consumption.  Dead listeners encountered along the
    /// way are pruned without being invoked.  Returns whether the event
    /// was consumed, together with the scan's invocation trace.
    pub fn fire_key_up<B: crate::component::ComponentBehavior>(
        &mut self,
        arena: &mut BehaviorArena<B>,
        keys: &crate::params::KeyInfo,
        mouse_pos: Option<(i32, i32)>,
    ) -> (r: (bool, Ghost<Seq<DispatchStep>>))
        requires
            old(self).wf(),
            old(arena).wf(),
        ensures
            final(self).wf(),
            final(arena).wf(),
            final(arena).slots_len() == old(arena).slots_len(),
            forall|id: BehaviorId| final(arena).live(id) == old(arena).live(id),
            forall|id: BehaviorId|
                old(arena).live(id) && !trace_ids(r.1@).contains(id) ==> final(arena).slot_of(id)
                    == old(arena).slot_of(id),
            forall|id: BehaviorId|
                old(arena).live(id) ==> final(arena).slot_of(id).component == old(arena).slot_of(
                    id,
                ).component,
            consuming_scan(
                region_candidates(old(self).hover_up(), *old(arena), mouse_pos)
                    + global_candidates(old(self).full_up(), *old(arena)),
                r.1@,
                r.0,
            ),
            mouse_pos is Some ==> final(self).hover_up() == prune_region_list(
                old(self).hover_up(),
                *old(arena),
            ),
            mouse_pos is None ==> final(self).hover_up() == old(self).hover_up(),
            (r.0 && r.1@.len() <= region_candidates(
                old(self).hover_up(),
                *old(arena),
                mouse_pos,
            ).len()) ==> final(self).full_up() == old(self).full_up(),
            !(r.0 && r.1@.len() <= region_candidates(
                old(self).hover_up(),
                *old(arena),
                mouse_pos,
            ).len()) ==> final(self).full_up() == prune_global_list(
                old(self).full_up(),
                *old(arena),
            ),
            final(self).hover_down() == old(self).hover_down(),
            final(self).full_down() == old(self).full_down(),
    {
        let ghost arena0 = *arena;
        let ghost h = self.hover_up_listeners@;
        let mut consumed = false;
        let ghost mut trace: Seq<DispatchStep> = Seq::empty();
        if mouse_pos.is_some() {
            let mut kept: Vec<RegionListener> = Vec::new();
            let mut i: usize = 0;
            proof {
                assert(h.take(0) =~= Seq::<RegionListener>::empty());
            }
            while i < self.hover_up_listeners.len()
                invariant
                    i <= h.len(),
                    self.hover_up_listeners@ == h,
                    self.hover_down_listeners@ == old(self).hover_down(),
                    self.full_up_listeners@ == old(self).full_up(),
                    self.full_down_listeners@ == old(self).full_down(),
                    arena.wf(),
                    arena0.wf(),
                    arena.slots_len() == arena0.slots_len(),
                    forall|id: BehaviorId| arena.live(id) == arena0.live(id),
                    forall|id: BehaviorId|
                        arena0.live(id) && !trace_ids(trace).contains(id) ==> arena.slot_of(id)
                            == arena0.slot_of(id),
                    forall|id: BehaviorId|
                        arena0.live(id) ==> arena.slot_of(id).component == arena0.slot_of(
                            id,
                        ).component,
                    kept@ == prune_region_list(h.take(i as int), arena0),
                    consuming_scan(
                        region_candidates(h.take(i as int), arena0, mouse_pos),
                        trace,
                        consumed,
                    ),
                    mouse_pos is Some,
                decreases h.len() - i,
            {
                let listener = self.hover_up_listeners[i];
                proof {
                    assert(h.take(i + 1 as int).drop_last() =~= h.take(i as int));
                    assert(h.take(i + 1 as int).last() == h[i as int]);
                }
                if arena.is_live(listener.id) {
                    kept.push(listener);
                    if !consumed && listener.region.is_inside_opt(mouse_pos) {
                        let maybe_slot = arena.take(listener.id);
                        match maybe_slot {
                            Some(mut slot) => {
                                let c = slot.behavior.key_up(&mut slot.agent, keys);
                                arena.restore(listener.id, slot);
                                proof {
                                    let step = DispatchStep { id: listener.id, consumed: c };
                                    let t2 = trace.push(step);
                                    assert(trace_ids(t2) =~= trace_ids(trace).push(listener.id));
                                    assert forall|id2: BehaviorId|
                                        trace_ids(trace).contains(id2) implies trace_ids(
                                        t2,
                                    ).contains(id2) by {
                                        let m = choose|m: int|
                                            0 <= m < trace_ids(trace).len() && trace_ids(trace)[m]
                                                == id2;
                                        assert(trace_ids(t2)[m] == id2);
                                    }
                                    assert(trace_ids(t2).contains(listener.id)) by {
                                        assert(trace_ids(t2)[t2.len() - 1] == listener.id);
                                    }
                                    trace = t2;
                                }
                                consumed = c;
                            },
                            None => {
                                proof {
                                    assert(false);
                                }
                            },
                        }
                    }
                }
                i = i + 1;
            }
            proof {
                assert(h.take(h.len() as int) =~= h);
            }
            self.hover_up_listeners = kept;
        } else {
            proof {
                lemma_region_candidates_none(h, arena0);
            }
        }
        let ghost hover_cands = region_candidates(h, arena0, mouse_pos);
        let ghost hover_after = self.hover_up_listeners@;
        let ghost g = self.full_up_listeners@;
        if !consumed {
            let mut kept: Vec<GlobalListener> = Vec::new();
            let mut j: usize = 0;
            proof {
                assert(g.take(0) =~= Seq::<GlobalListener>::empty());
                assert(global_candidates(g.take(0), arena0) =~= Seq::<BehaviorId>::empty());
                assert(hover_cands + global_candidates(g.take(0), arena0) =~= hover_cands);
            }
            while j < self.full_up_listeners.len()
                invariant
                    j <= g.len(),
                    self.full_up_listeners@ == g,
                    self.hover_up_listeners@ == hover_after,
                    self.hover_down_listeners@ == old(self).hover_down(),
                    self.full_down_listeners@ == old(self).full_down(),
                    arena.wf(),
                    arena0.wf(),
                    arena.slots_len() == arena0.slots_len(),
                    forall|id: BehaviorId| arena.live(id) == arena0.live(id),
                    forall|id: BehaviorId|
                        arena0.live(id) && !trace_ids(trace).contains(id) ==> arena.slot_of(id)
                            == arena0.slot_of(id),
                    forall|id: BehaviorId|
                        arena0.live(id) ==> arena.slot_of(id).component == arena0.slot_of(
                            id,
                        ).component,
                    kept@ == prune_global_list(g.take(j as int), arena0),
                    consuming_scan(
                        hover_cands + global_candidates(g.take(j as int), arena0),
                        trace,
                        consumed,
                    ),
                    trace.len() >= hover_cands.len(),
                    consumed ==> trace.len() > hover_cands.len(),
                decreases g.len() - j,
            {
                let listener = self.full_up_listeners[j];
                proof {
                    assert(g.take(j + 1 as int).drop_last() =~= g.take(j as int));
                    assert(g.take(j + 1 as int).last() == g[j as int]);
                }
                if arena.is_live(listener.id) {
                    kept.push(listener);
                    if !consumed {
                        let maybe_slot = arena.take(listener.id);
                        match maybe_slot {
                            Some(mut slot) => {
                                let c = slot.behavior.key_up(&mut slot.agent, keys);
                                arena.restore(listener.id, slot);
                                proof {
                                    let step = DispatchStep { id: listener.id, consumed: c };
                                    let t2 = trace.push(step);
                                    assert(trace_ids(t2) =~= trace_ids(trace).push(listener.id));
                                    assert forall|id2: BehaviorId|
                                        trace_ids(trace).contains(id2) implies trace_ids(
                                        t2,
                                    ).contains(id2) by {
                                        let m = choose|m: int|
                                            0 <= m < trace_ids(trace).len() && trace_ids(trace)[m]
                                                == id2;
                                        assert(trace_ids(t2)[m] == id2);
                                    }
                                    assert(trace_ids(t2).contains(listener.id)) by {
                                        assert(trace_ids(t2)[t2.len() - 1] == listener.id);
                                    }
                                    assert((hover_cands + global_candidates(
                                        g.take(j + 1 as int),
                                        arena0,
                                    ))[trace.len() as int] == listener.id);
                                    trace = t2;
                                }
                                consumed = c;
                            },
                            None => {
                                proof {
                                    assert(false);
                                }
                            },
                        }
                    }
                }
                j = j + 1;
            }
            proof {
                assert(g.take(g.len() as int) =~= g);
            }
            self.full_up_listeners = kept;
        } else {
            proof {
                assert(consuming_scan(
                    hover_cands + global_candidates(g, arena0),
                    trace,
                    consumed,
                ));
            }
        }
        proof {
            assert forall|a: int, b: int|
                0 <= a < b < h.len() implies !(#[trigger] h[a]).region.intersects(
                (#[trigger] h[b]).region) by {
                assert(!(old(self).hover_up()[a]).region.intersects(
                    (old(self).hover_up()[b]).region,
                ));
            }
            assert forall|a: int, b: int|
                0 <= a <= b < g.len() implies g[a].priority >= g[b].priority by {
                assert(old(self).full_up()[a].priority >= old(self).full_up()[b].priority);
            }
            assert forall|i: int, j: int|
                0 <= i < j < self.hover_up().len() implies !(#[trigger] self.hover_up()[i]).region
                    .intersects((#[trigger] self.hover_up()[j]).region) by {
                if mouse_pos is Some {
                    lemma_prune_region_pair(h, arena0, i, j);
                } else {
                    assert(!(old(self).hover_up()[i]).region.intersects(
                        (old(self).hover_up()[j]).region,
                    ));
                }
            }
            assert forall|i: int, j: int|
                0 <= i < j < self.hover_down().len() implies !(#[trigger] self.hover_down()[i]).region
                    .intersects((#[trigger] self.hover_down()[j]).region) by {
                assert(!(old(self).hover_down()[i]).region.intersects(
                    (old(self).hover_down()[j]).region,
                ));
            }
            assert(sorted_desc(self.full_up())) by {
                assert forall|i: int, j: int|
                    0 <= i <= j < self.full_up().len() implies self.full_up()[i].priority
                        >= self.full_up()[j].priority by {
                    if self.full_up() == g {
                        assert(g[i].priority >= g[j].priority);
                    } else {
                        lemma_prune_global_pair(g, arena0, i, j);
                    }
                }
            }
            assert(sorted_desc(self.full_down())) by {
                assert forall|i: int, j: int|
                    0 <= i <= j < self.full_down().len() implies self.full_down()[i].priority
                        >= self.full_down()[j].priority by {
                    assert(old(self).full_down()[i].priority >= old(self).full_down()[j].priority);
                }
            }
        }
        (consumed, Ghost(trace))
    }


    /// Claim exclusivity: two region-scoped claims of the same key
    /// category accepted within one layer never intersect — a conflicting
    /// claim is refused at claim time, so the claim lists stay pairwise
    /// disjoint.
    pub proof fn lemma_claim_exclusivity(self, i: int, j: int)
        requires
            self.wf(),
            0 <= i < j < self.hover_down().len(),
        ensures
            !self.hover_down()[i].region.intersects(self.hover_down()[j].region),
    {
    }
}

} // verus!
