//! Mouse event delivery for one layer.
//!
//! Clicks are not consumable: every region-scoped click listener hears
//! about every click (inside or outside its region) and every global click
//! listener always fires.  Scrolls are consumable like keys: region-scoped
//! listeners under the mouse first, then globals by priority, first
//! consumer wins.  Moves are never consumable; "in/out" listeners fire when
//! containment flips, "area" listeners while either endpoint of the move is
//! inside, global ones always.

use vstd::prelude::*;

use crate::arena::BehaviorArena;
use crate::arena::BehaviorId;
use crate::listeners::DispatchStep;
use crate::listeners::GlobalListener;
use crate::listeners::RegionListener;
use crate::listeners::consuming_scan;
use crate::listeners::global_candidates;
use crate::listeners::insert_by_priority;
use crate::listeners::prune_global_list;
use crate::listeners::prune_id_list;
use crate::listeners::prune_region_list;
use crate::listeners::region_candidates;
use crate::listeners::lemma_region_candidates_none;
use crate::listeners::sorted_desc;
use crate::listeners::area_move_candidates;
use crate::listeners::in_out_candidates;
use crate::listeners::lemma_prune_global_pair;
use crate::listeners::lemma_seq_add_contains;
use crate::listeners::region_listener_ids;
use crate::listeners::ClickKind;
use crate::listeners::ClickStep;
use crate::listeners::area_click_steps;
use crate::listeners::anywhere_click_steps;
use crate::listeners::outside_click_steps;
use crate::listeners::lemma_prune_region_pair;
use crate::listeners::trace_ids;
use crate::params::ClickInfo;
use crate::region::Region;

verus! {

pub struct MouseManager {
    area_click_listeners: Vec<RegionListener>,
    full_click_listeners: Vec<BehaviorId>,
    area_scroll_listeners: Vec<RegionListener>,
    full_scroll_listeners: Vec<GlobalListener>,
    area_move_listeners: Vec<RegionListener>,
    full_move_listeners: Vec<BehaviorId>,
    in_out_move_listeners: Vec<RegionListener>,
}

impl MouseManager {
    pub closed spec fn area_click(self) -> Seq<RegionListener> {
        self.area_click_listeners@
    }

    pub closed spec fn full_click(self) -> Seq<BehaviorId> {
        self.full_click_listeners@
    }

    pub closed spec fn area_scroll(self) -> Seq<RegionListener> {
        self.area_scroll_listeners@
    }

    pub closed spec fn full_scroll(self) -> Seq<GlobalListener> {
        self.full_scroll_listeners@
    }

    pub closed spec fn area_move(self) -> Seq<RegionListener> {
        self.area_move_listeners@
    }

    pub closed spec fn full_move(self) -> Seq<BehaviorId> {
        self.full_move_listeners@
    }

    pub closed spec fn in_out_move(self) -> Seq<RegionListener> {
        self.in_out_move_listeners@
    }

    /// Claimed click and scroll regions never overlap within their
    /// category, and global scroll listeners are sorted by priority.
    /// Move listeners carry no exclusivity.
    pub open spec fn wf(self) -> bool {
        &&& forall|i: int, j: int|
            0 <= i < j < self.area_click().len() ==> !(#[trigger] self.area_click()[i]).region
                .intersects((#[trigger] self.area_click()[j]).region)
        &&& forall|i: int, j: int|
            0 <= i < j < self.area_scroll().len() ==> !(#[trigger] self.area_scroll()[i]).region
                .intersects((#[trigger] self.area_scroll()[j]).region)
        &&& sorted_desc(self.full_scroll())
    }

    pub fn new() -> (r: MouseManager)
        ensures
            r.area_click() == Seq::<RegionListener>::empty(),
            r.full_click() == Seq::<BehaviorId>::empty(),
            r.area_scroll() == Seq::<RegionListener>::empty(),
            r.full_scroll() == Seq::<GlobalListener>::empty(),
            r.area_move() == Seq::<RegionListener>::empty(),
            r.full_move() == Seq::<BehaviorId>::empty(),
            r.in_out_move() == Seq::<RegionListener>::empty(),
            r.wf(),
    {
        MouseManager {
            area_click_listeners: Vec::new(),
            full_click_listeners: Vec::new(),
            area_scroll_listeners: Vec::new(),
            full_scroll_listeners: Vec::new(),
            area_move_listeners: Vec::new(),
            full_move_listeners: Vec::new(),
            in_out_move_listeners: Vec::new(),
        }
    }

    /// True when `region` overlaps no claimed click region.
    pub fn can_claim_click_space(&self, region: Region) -> (r: bool)
        ensures
            r == forall|i: int|
                0 <= i < self.area_click().len() ==> !(#[trigger] self.area_click()[i]).region
                    .intersects(region),
    {
        let mut i: usize = 0;
        while i < self.area_click_listeners.len()
            invariant
                i <= self.area_click().len(),
                forall|k: int|
                    0 <= k < i ==> !(#[trigger] self.area_click()[k]).region.intersects(region),
            decreases self.area_click().len() - i,
        {
            if self.area_click_listeners[i].region.intersects_with(&region) {
                return false;
            }
            i = i + 1;
        }
        true
    }

    /// True when `region` overlaps no claimed scroll region.
    pub fn can_claim_scroll_space(&self, region: Region) -> (r: bool)
        ensures
            r == forall|i: int|
                0 <= i < self.area_scroll().len() ==> !(#[trigger] self.area_scroll()[i]).region
                    .intersects(region),
    {
        let mut i: usize = 0;
        while i < self.area_scroll_listeners.len()
            invariant
                i <= self.area_scroll().len(),
                forall|k: int|
                    0 <= k < i ==> !(#[trigger] self.area_scroll()[k]).region.intersects(region),
            decreases self.area_scroll().len() - i,
        {
            if self.area_scroll_listeners[i].region.intersects_with(&region) {
                return false;
            }
            i = i + 1;
        }
        true
    }

    /// Registers a region-scoped scroll listener.  Only to be used after
    /// `can_claim_scroll_space` confirmed the region is available.
    pub fn add_scroll_space_listener(&mut self, id: BehaviorId, region: Region)
        requires
            old(self).wf(),
            forall|i: int|
                0 <= i < old(self).area_scroll().len() ==> !(#[trigger] old(
                    self,
                ).area_scroll()[i]).region.intersects(region),
        ensures
            final(self).area_scroll() == old(self).area_scroll().push(
                (RegionListener { id, region }),
            ),
            final(self).area_click() == old(self).area_click(),
            final(self).full_click() == old(self).full_click(),
            final(self).full_scroll() == old(self).full_scroll(),
            final(self).area_move() == old(self).area_move(),
            final(self).full_move() == old(self).full_move(),
            final(self).in_out_move() == old(self).in_out_move(),
            final(self).wf(),
    {
        self.area_scroll_listeners.push(RegionListener { id, region });
        proof {
            let np = self.area_scroll();
            assert forall|i: int, j: int|
                0 <= i < j < np.len() implies !(#[trigger] np[i]).region.intersects(
                (#[trigger] np[j]).region) by {
                if j < np.len() - 1 {
                    assert(!(old(self).area_scroll()[i]).region.intersects(
                        (old(self).area_scroll()[j]).region,
                    ));
                } else {
                    assert(!(old(self).area_scroll()[i]).region.intersects(region));
                }
            }
            assert forall|i: int, j: int|
                0 <= i < j < self.area_click().len() implies !(#[trigger] self.area_click()[i]).region
                    .intersects((#[trigger] self.area_click()[j]).region) by {
                assert(!(old(self).area_click()[i]).region.intersects(
                    (old(self).area_click()[j]).region,
                ));
            }
        }
    }

    /// Registers an "area" move listener; it fires while the mouse moves
    /// inside, into or out of its region.
    pub fn add_move_space_listener(&mut self, id: BehaviorId, region: Region)
        requires
            old(self).wf(),
        ensures
            final(self).area_move() == old(self).area_move().push((RegionListener { id, region })),
            final(self).area_click() == old(self).area_click(),
            final(self).full_click() == old(self).full_click(),
            final(self).area_scroll() == old(self).area_scroll(),
            final(self).full_scroll() == old(self).full_scroll(),
            final(self).full_move() == old(self).full_move(),
            final(self).in_out_move() == old(self).in_out_move(),
            final(self).wf(),
    {
        self.area_move_listeners.push(RegionListener { id, region });
        proof {
            assert forall|i: int, j: int|
                0 <= i < j < self.area_click().len() implies !(#[trigger] self.area_click()[i]).region
                    .intersects((#[trigger] self.area_click()[j]).region) by {
                assert(!(old(self).area_click()[i]).region.intersects(
                    (old(self).area_click()[j]).region,
                ));
            }
            assert forall|i: int, j: int|
                0 <= i < j < self.area_scroll().len() implies !(#[trigger] self.area_scroll()[i]).region
                    .intersects((#[trigger] self.area_scroll()[j]).region) by {
                assert(!(old(self).area_scroll()[i]).region.intersects(
                    (old(self).area_scroll()[j]).region,
                ));
            }
        }
    }

    /// Registers a region-scoped click listener.  Only to be used after
    /// `can_claim_click_space` confirmed the region is available.
    pub fn add_click_space_listener(&mut self, id: BehaviorId, region: Region)
        requires
            old(self).wf(),
            forall|i: int|
                0 <= i < old(self).area_click().len() ==> !(#[trigger] old(
                    self,
                ).area_click()[i]).region.intersects(region),
        ensures
            final(self).area_click() == old(self).area_click().push(
                (RegionListener { id, region }),
            ),
            final(self).full_click() == old(self).full_click(),
            final(self).area_scroll() == old(self).area_scroll(),
            final(self).full_scroll() == old(self).full_scroll(),
            final(self).area_move() == old(self).area_move(),
            final(self).full_move() == old(self).full_move(),
            final(self).in_out_move() == old(self).in_out_move(),
            final(self).wf(),
    {
        self.area_click_listeners.push(RegionListener { id, region });
        proof {
            let np = self.area_click();
            assert forall|i: int, j: int|
                0 <= i < j < np.len() implies !(#[trigger] np[i]).region.intersects(
                (#[trigger] np[j]).region) by {
                if j < np.len() - 1 {
                    assert(!(old(self).area_click()[i]).region.intersects(
                        (old(self).area_click()[j]).region,
                    ));
                } else {
                    assert(!(old(self).area_click()[i]).region.intersects(region));
                }
            }
            assert forall|i: int, j: int|
                0 <= i < j < self.area_scroll().len() implies !(#[trigger] self.area_scroll()[i]).region
                    .intersects((#[trigger] self.area_scroll()[j]).region) by {
                assert(!(old(self).area_scroll()[i]).region.intersects(
                    (old(self).area_scroll()[j]).region,
                ));
            }
        }
    }

    /// Registers a global click listener; it hears about every click.
    pub fn add_full_click_listener(&mut self, id: BehaviorId)
        requires
            old(self).wf(),
        ensures
            final(self).full_click() == old(self).full_click().push(id),
            final(self).area_click() == old(self).area_click(),
            final(self).area_scroll() == old(self).area_scroll(),
            final(self).full_scroll() == old(self).full_scroll(),
            final(self).area_move() == old(self).area_move(),
            final(self).full_move() == old(self).full_move(),
            final(self).in_out_move() == old(self).in_out_move(),
            final(self).wf(),
    {
        self.full_click_listeners.push(id);
        proof {
            assert forall|i: int, j: int|
                0 <= i < j < self.area_click().len() implies !(#[trigger] self.area_click()[i]).region
                    .intersects((#[trigger] self.area_click()[j]).region) by {
                assert(!(old(self).area_click()[i]).region.intersects(
                    (old(self).area_click()[j]).region,
                ));
            }
            assert forall|i: int, j: int|
                0 <= i < j < self.area_scroll().len() implies !(#[trigger] self.area_scroll()[i]).region
                    .intersects((#[trigger] self.area_scroll()[j]).region) by {
                assert(!(old(self).area_scroll()[i]).region.intersects(
                    (old(self).area_scroll()[j]).region,
                ));
            }
            assert(sorted_desc(self.full_scroll())) by {
                assert forall|i: int, j: int|
                    0 <= i <= j < self.full_scroll().len() implies self.full_scroll()[i].priority
                        >= self.full_scroll()[j].priority by {
                    assert(old(self).full_scroll()[i].priority >= old(
                        self,
                    ).full_scroll()[j].priority);
                }
            }
        }
    }

    /// Registers a global scroll listener at the given priority.
    pub fn add_full_scroll_listener(&mut self, id: BehaviorId, priority: i8)
        requires
            old(self).wf(),
        ensures
            final(self).wf(),
            final(self).area_click() == old(self).area_click(),
            final(self).full_click() == old(self).full_click(),
            final(self).area_scroll() == old(self).area_scroll(),
            final(self).area_move() == old(self).area_move(),
            final(self).full_move() == old(self).full_move(),
            final(self).in_out_move() == old(self).in_out_move(),
            exists|k: int|
                {
                    &&& 0 <= k <= old(self).full_scroll().len()
                    &&& final(self).full_scroll() == old(self).full_scroll().insert(
                        k,
                        (GlobalListener { id, priority }),
                    )
                    &&& forall|i: int|
                        0 <= i < k ==> old(self).full_scroll()[i].priority >= priority
                    &&& forall|i: int|
                        k <= i < old(self).full_scroll().len() ==> old(
                            self,
                        ).full_scroll()[i].priority < priority
                },
    {
        insert_by_priority(&mut self.full_scroll_listeners, id, priority);
        proof {
            assert forall|i: int, j: int|
                0 <= i < j < self.area_click().len() implies !(#[trigger] self.area_click()[i]).region
                    .intersects((#[trigger] self.area_click()[j]).region) by {
                assert(!(old(self).area_click()[i]).region.intersects(
                    (old(self).area_click()[j]).region,
                ));
            }
            assert forall|i: int, j: int|
                0 <= i < j < self.area_scroll().len() implies !(#[trigger] self.area_scroll()[i]).region
                    .intersects((#[trigger] self.area_scroll()[j]).region) by {
                assert(!(old(self).area_scroll()[i]).region.intersects(
                    (old(self).area_scroll()[j]).region,
                ));
            }
        }
    }

    /// Registers a global move listener; it hears about every mouse move.
    pub fn add_full_move_listener(&mut self, id: BehaviorId)
        requires
            old(self).wf(),
        ensures
            final(self).full_move() == old(self).full_move().push(id),
            final(self).area_click() == old(self).area_click(),
            final(self).full_click() == old(self).full_click(),
            final(self).area_scroll() == old(self).area_scroll(),
            final(self).full_scroll() == old(self).full_scroll(),
            final(self).area_move() == old(self).area_move(),
            final(self).in_out_move() == old(self).in_out_move(),
            final(self).wf(),
    {
        self.full_move_listeners.push(id);
        proof {
            assert forall|i: int, j: int|
                0 <= i < j < self.area_click().len() implies !(#[trigger] self.area_click()[i]).region
                    .intersects((#[trigger] self.area_click()[j]).region) by {
                assert(!(old(self).area_click()[i]).region.intersects(
                    (old(self).area_click()[j]).region,
                ));
            }
            assert forall|i: int, j: int|
                0 <= i < j < self.area_scroll().len() implies !(#[trigger] self.area_scroll()[i]).region
                    .intersects((#[trigger] self.area_scroll()[j]).region) by {
                assert(!(old(self).area_scroll()[i]).region.intersects(
                    (old(self).area_scroll()[j]).region,
                ));
            }
            assert(sorted_desc(self.full_scroll())) by {
                assert forall|i: int, j: int|
                    0 <= i <= j < self.full_scroll().len() implies self.full_scroll()[i].priority
                        >= self.full_scroll()[j].priority by {
                    assert(old(self).full_scroll()[i].priority >= old(
                        self,
                    ).full_scroll()[j].priority);
                }
            }
        }
    }

    /// Registers an "in/out" move listener; it fires when the mouse crosses
    /// the boundary of its region.
    pub fn add_in_out_move_listener(&mut self, id: BehaviorId, region: Region)
        requires
            old(self).wf(),
        ensures
            final(self).in_out_move() == old(self).in_out_move().push(
                (RegionListener { id, region }),
            ),
            final(self).area_click() == old(self).area_click(),
            final(self).full_click() == old(self).full_click(),
            final(self).area_scroll() == old(self).area_scroll(),
            final(self).full_scroll() == old(self).full_scroll(),
            final(self).area_move() == old(self).area_move(),
            final(self).full_move() == old(self).full_move(),
            final(self).wf(),
    {
        self.in_out_move_listeners.push(RegionListener { id, region });
        proof {
            assert forall|i: int, j: int|
                0 <= i < j < self.area_click().len() implies !(#[trigger] self.area_click()[i]).region
                    .intersects((#[trigger] self.area_click()[j]).region) by {
                assert(!(old(self).area_click()[i]).region.intersects(
                    (old(self).area_click()[j]).region,
                ));
            }
            assert forall|i: int, j: int|
                0 <= i < j < self.area_scroll().len() implies !(#[trigger] self.area_scroll()[i]).region
                    .intersects((#[trigger] self.area_scroll()[j]).region) by {
                assert(!(old(self).area_scroll()[i]).region.intersects(
                    (old(self).area_scroll()[j]).region,
                ));
            }
            assert(sorted_desc(self.full_scroll())) by {
                assert forall|i: int, j: int|
                    0 <= i <= j < self.full_scroll().len() implies self.full_scroll()[i].priority
                        >= self.full_scroll()[j].priority by {
                    assert(old(self).full_scroll()[i].priority >= old(
                        self,
                    ).full_scroll()[j].priority);
                }
            }
        }
    }

    /// Delivers a mouse-scroll event.  Region-scoped listeners whose region
    /// holds the mouse are tried first, in list order, until one consumes
    /// the event; only if none did are the global listeners tried, in
    /// priority order, again until first consumption.  Dead listeners are
    /// pruned without being invoked.
    pub fn fire_mouse_scroll<B: crate::component::ComponentBehavior>(
        &mut self,
        arena: &mut BehaviorArena<B>,
        mouse_pos: Option<(i32, i32)>,
        delta: i64,
    ) -> (r: (bool, Ghost<Seq<DispatchStep>>))
        requires
            old(self).wf(),
            old(arena).wf(),
        ensures
            final(self).wf(),
            final(arena).wf(),
            final(arena).slots_len() == old(arena).slots_len(),
            forall|id: BehaviorId| final(arena).live(id) == old(arena).live(id),
            forall|id: BehaviorId|
                old(arena).live(id) && !trace_ids(r.1@).contains(id) ==> final(arena).slot_of(id)
                    == old(arena).slot_of(id),
            forall|id: BehaviorId|
                old(arena).live(id) ==> final(arena).slot_of(id).component == old(arena).slot_of(
                    id,
                ).component,
            consuming_scan(
                region_candidates(old(self).area_scroll(), *old(arena), mouse_pos)
                    + global_candidates(old(self).full_scroll(), *old(arena)),
                r.1@,
                r.0,
            ),
            mouse_pos is Some ==> final(self).area_scroll() == prune_region_list(
                old(self).area_scroll(),
                *old(arena),
            ),
            mouse_pos is None ==> final(self).area_scroll() == old(self).area_scroll(),
            (r.0 && r.1@.len() <= region_candidates(
                old(self).area_scroll(),
                *old(arena),
                mouse_pos,
            ).len()) ==> final(self).full_scroll() == old(self).full_scroll(),
            !(r.0 && r.1@.len() <= region_candidates(
                old(self).area_scroll(),
                *old(arena),
                mouse_pos,
            ).len()) ==> final(self).full_scroll() == prune_global_list(
                old(self).full_scroll(),
                *old(arena),
            ),
            final(self).area_click() == old(self).area_click(),
            final(self).full_click() == old(self).full_click(),
            final(self).area_move() == old(self).area_move(),
            final(self).full_move() == old(self).full_move(),
            final(self).in_out_move() == old(self).in_out_move(),
    {
        let ghost arena0 = *arena;
        let ghost h = self.area_scroll_listeners@;
        let mut consumed = false;
        let ghost mut trace: Seq<DispatchStep> = Seq::empty();
        if mouse_pos.is_some() {
            let mut kept: Vec<RegionListener> = Vec::new();
            let mut i: usize = 0;
            proof {
                assert(h.take(0) =~= Seq::<RegionListener>::empty());
            }
            while i < self.area_scroll_listeners.len()
                invariant
                    i <= h.len(),
                    self.area_scroll_listeners@ == h,
                    self.area_click_listeners@ == old(self).area_click(),
                    self.full_click_listeners@ == old(self).full_click(),
                    self.full_scroll_listeners@ == old(self).full_scroll(),
                    self.area_move_listeners@ == old(self).area_move(),
                    self.full_move_listeners@ == old(self).full_move(),
                    self.in_out_move_listeners@ == old(self).in_out_move(),
                    arena.wf(),
                    arena0.wf(),
                    arena.slots_len() == arena0.slots_len(),
                    forall|id: BehaviorId| arena.live(id) == arena0.live(id),
                    forall|id: BehaviorId|
                        arena0.live(id) && !trace_ids(trace).contains(id) ==> arena.slot_of(id)
                            == arena0.slot_of(id),
                    forall|id: BehaviorId|
                        arena0.live(id) ==> arena.slot_of(id).component == arena0.slot_of(
                            id,
                        ).component,
                    kept@ == prune_region_list(h.take(i as int), arena0),
                    consuming_scan(
                        region_candidates(h.take(i as int), arena0, mouse_pos),
                        trace,
                        consumed,
                    ),
                    mouse_pos is Some,
                decreases h.len() - i,
            {
                let listener = self.area_scroll_listeners[i];
                proof {
                    assert(h.take(i + 1 as int).drop_last() =~= h.take(i as int));
                    assert(h.take(i + 1 as int).last() == h[i as int]);
                }
                if arena.is_live(listener.id) {
                    kept.push(listener);
                    if !consumed && listener.region.is_inside_opt(mouse_pos) {
                        let maybe_slot = arena.take(listener.id);
                        match maybe_slot {
                            Some(mut slot) => {
                                let c = slot.behavior.mouse_scroll(
                                    &mut slot.agent,
                                    mouse_pos,
                                    delta,
                                );
                                arena.restore(listener.id, slot);
                                proof {
                                    let step = DispatchStep { id: listener.id, consumed: c };
                                    let t2 = trace.push(step);
                                    assert(trace_ids(t2) =~= trace_ids(trace).push(listener.id));
                                    assert forall|id2: BehaviorId|
                                        trace_ids(trace).contains(id2) implies trace_ids(
                                        t2,
                                    ).contains(id2) by {
                                        let m = choose|m: int|
                                            0 <= m < trace_ids(trace).len() && trace_ids(trace)[m]
                                                == id2;
                                        assert(trace_ids(t2)[m] == id2);
                                    }
                                    assert(trace_ids(t2).contains(listener.id)) by {
                                        assert(trace_ids(t2)[t2.len() - 1] == listener.id);
                                    }
                                    trace = t2;
                                }
                                consumed = c;
                            },
                            None => {
                                proof {
                                    assert(false);
                                }
                            },
                        }
                    }
                }
                i = i + 1;
            }
            proof {
                assert(h.take(h.len() as int) =~= h);
            }
            self.area_scroll_listeners = kept;
        } else {
            proof {
                lemma_region_candidates_none(h, arena0);
            }
        }
        let ghost hover_cands = region_candidates(h, arena0, mouse_pos);
        let ghost hover_after = self.area_scroll_listeners@;
        let ghost g = self.full_scroll_listeners@;
        if !consumed {
            let mut kept: Vec<GlobalListener> = Vec::new();
            let mut j: usize = 0;
            proof {
                assert(g.take(0) =~= Seq::<GlobalListener>::empty());
                assert(global_candidates(g.take(0), arena0) =~= Seq::<BehaviorId>::empty());
                assert(hover_cands + global_candidates(g.take(0), arena0) =~= hover_cands);
            }
            while j < self.full_scroll_listeners.len()
                invariant
                    j <= g.len(),
                    self.full_scroll_listeners@ == g,
                    self.area_scroll_listeners@ == hover_after,
                    self.area_click_listeners@ == old(self).area_click(),
                    self.full_click_listeners@ == old(self).full_click(),
                    self.area_move_listeners@ == old(self).area_move(),
                    self.full_move_listeners@ == old(self).full_move(),
                    self.in_out_move_listeners@ == old(self).in_out_move(),
                    arena.wf(),
                    arena0.wf(),
                    arena.slots_len() == arena0.slots_len(),
                    forall|id: BehaviorId| arena.live(id) == arena0.live(id),
                    forall|id: BehaviorId|
                        arena0.live(id) && !trace_ids(trace).contains(id) ==> arena.slot_of(id)
                            == arena0.slot_of(id),
                    forall|id: BehaviorId|
                        arena0.live(id) ==> arena.slot_of(id).component == arena0.slot_of(
                            id,
                        ).component,
                    kept@ == prune_global_list(g.take(j as int), arena0),
                    consuming_scan(
                        hover_cands + global_candidates(g.take(j as int), arena0),
                        trace,
                        consumed,
                    ),
                    trace.len() >= hover_cands.len(),
                    consumed ==> trace.len() > hover_cands.len(),
                decreases g.len() - j,
            {
                let listener = self.full_scroll_listeners[j];
                proof {
                    assert(g.take(j + 1 as int).drop_last() =~= g.take(j as int));
                    assert(g.take(j + 1 as int).last() == g[j as int]);
                }
                if arena.is_live(listener.id) {
                    kept.push(listener);
                    if !consumed {
                        let maybe_slot = arena.take(listener.id);
                        match maybe_slot {
                            Some(mut slot) => {
                                let c = slot.behavior.mouse_scroll(
                                    &mut slot.agent,
                                    mouse_pos,
                                    delta,
                                );
                                arena.restore(listener.id, slot);
                                proof {
                                    let step = DispatchStep { id: listener.id, consumed: c };
                                    let t2 = trace.push(step);
                                    assert(trace_ids(t2) =~= trace_ids(trace).push(listener.id));
                                    assert forall|id2: BehaviorId|
                                        trace_ids(trace).contains(id2) implies trace_ids(
                                        t2,
                                    ).contains(id2) by {
                                        let m = choose|m: int|
                                            0 <= m < trace_ids(trace).len() && trace_ids(trace)[m]
                                                == id2;
                                        assert(trace_ids(t2)[m] == id2);
                                    }
                                    assert(trace_ids(t2).contains(listener.id)) by {
                                        assert(trace_ids(t2)[t2.len() - 1] == listener.id);
                                    }
                                    assert((hover_cands + global_candidates(
                                        g.take(j + 1 as int),
                                        arena0,
                                    ))[trace.len() as int] == listener.id);
                                    trace = t2;
                                }
                                consumed = c;
                            },
                            None => {
                                proof {
                                    assert(false);
                                }
                            },
                        }
                    }
                }
                j = j + 1;
            }
            proof {
                assert(g.take(g.len() as int) =~= g);
            }
            self.full_scroll_listeners = kept;
        } else {
            proof {
                assert(consuming_scan(
                    hover_cands + global_candidates(g, arena0),
                    trace,
                    consumed,
                ));
            }
        }
        proof {
            assert forall|a: int, b: int|
                0 <= a < b < h.len() implies !(#[trigger] h[a]).region.intersects(
                (#[trigger] h[b]).region) by {
                assert(!(old(self).area_scroll()[a]).region.intersects(
                    (old(self).area_scroll()[b]).region,
                ));
            }
            assert forall|a: int, b: int|
                0 <= a <= b < g.len() implies g[a].priority >= g[b].priority by {
                assert(old(self).full_scroll()[a].priority >= old(self).full_scroll()[b].priority);
            }
            assert forall|i: int, j: int|
                0 <= i < j < self.area_scroll().len() implies !(#[trigger] self.area_scroll()[i]).region
                    .intersects((#[trigger] self.area_scroll()[j]).region) by {
                if mouse_pos is Some {
                    lemma_prune_region_pair(h, arena0, i, j);
                } else {
                    assert(!(old(self).area_scroll()[i]).region.intersects(
                        (old(self).area_scroll()[j]).region,
                    ));
                }
            }
            assert forall|i: int, j: int|
                0 <= i < j < self.area_click().len() implies !(#[trigger] self.area_click()[i]).region
                    .intersects((#[trigger] self.area_click()[j]).region) by {
                assert(!(old(self).area_click()[i]).region.intersects(
                    (old(self).area_click()[j]).region,
                ));
            }
            assert(sorted_desc(self.full_scroll())) by {
                assert forall|i: int, j: int|
                    0 <= i <= j < self.full_scroll().len() implies self.full_scroll()[i].priority
                        >= self.full_scroll()[j].priority by {
                    if self.full_scroll() == g {
                        assert(g[i].priority >= g[j].priority);
                    } else {
                        lemma_prune_global_pair(g, arena0, i, j);
                    }
                }
            }
        }
        (consumed, Ghost(trace))
    }

    /// Delivers a mouse move.  "In/out" listeners fire when the move
    /// crosses their region boundary, "area" listeners when either end of
    /// the move lies inside their region, global listeners always.  Moves
    /// are never consumable: every interested live listener fires, and dead
    /// listeners are pruned without being invoked.
    pub fn fire_mouse_move<B: crate::component::ComponentBehavior>(
        &mut self,
        arena: &mut BehaviorArena<B>,
        prev_pos: Option<(i32, i32)>,
        next_pos: Option<(i32, i32)>,
    ) -> (r: Ghost<Seq<BehaviorId>>)
        requires
            old(self).wf(),
            old(arena).wf(),
        ensures
            r@ == in_out_candidates(old(self).in_out_move(), *old(arena), prev_pos, next_pos)
                + area_move_candidates(old(self).area_move(), *old(arena), prev_pos, next_pos)
                + prune_id_list(old(self).full_move(), *old(arena)),
            final(self).wf(),
            final(arena).wf(),
            final(arena).slots_len() == old(arena).slots_len(),
            forall|id: BehaviorId| final(arena).live(id) == old(arena).live(id),
            forall|id: BehaviorId|
                old(arena).live(id) && !in_out_candidates(
                    old(self).in_out_move(),
                    *old(arena),
                    prev_pos,
                    next_pos,
                ).contains(id) && !area_move_candidates(
                    old(self).area_move(),
                    *old(arena),
                    prev_pos,
                    next_pos,
                ).contains(id) && !prune_id_list(old(self).full_move(), *old(arena)).contains(id)
                    ==> final(arena).slot_of(id) == old(arena).slot_of(id),
            forall|id: BehaviorId|
                old(arena).live(id) ==> final(arena).slot_of(id).component == old(arena).slot_of(
                    id,
                ).component,
            final(self).in_out_move() == prune_region_list(old(self).in_out_move(), *old(arena)),
            final(self).area_move() == prune_region_list(old(self).area_move(), *old(arena)),
            final(self).full_move() == prune_id_list(old(self).full_move(), *old(arena)),
            final(self).area_click() == old(self).area_click(),
            final(self).full_click() == old(self).full_click(),
            final(self).area_scroll() == old(self).area_scroll(),
            final(self).full_scroll() == old(self).full_scroll(),
    {
        let ghost arena0 = *arena;
        let ghost io = self.in_out_move_listeners@;
        let ghost am = self.area_move_listeners@;
        let ghost fm = self.full_move_listeners@;
        let ghost c1 = in_out_candidates(io, arena0, prev_pos, next_pos);
        let ghost c2 = area_move_candidates(am, arena0, prev_pos, next_pos);
        let ghost mut trace: Seq<BehaviorId> = Seq::empty();
        let mut kept1: Vec<RegionListener> = Vec::new();
        let mut i: usize = 0;
        proof {
            assert(io.take(0) =~= Seq::<RegionListener>::empty());
        }
        while i < self.in_out_move_listeners.len()
            invariant
                i <= io.len(),
                self.in_out_move_listeners@ == io,
                self.area_move_listeners@ == am,
                self.full_move_listeners@ == fm,
                self.area_click_listeners@ == old(self).area_click(),
                self.full_click_listeners@ == old(self).full_click(),
                self.area_scroll_listeners@ == old(self).area_scroll(),
                self.full_scroll_listeners@ == old(self).full_scroll(),
                arena.wf(),
                arena0.wf(),
                arena.slots_len() == arena0.slots_len(),
                forall|id: BehaviorId| arena.live(id) == arena0.live(id),
                forall|id: BehaviorId|
                    arena0.live(id) && !in_out_candidates(
                        io.take(i as int),
                        arena0,
                        prev_pos,
                        next_pos,
                    ).contains(id) ==> arena.slot_of(id) == arena0.slot_of(id),
                forall|id: BehaviorId|
                    arena0.live(id) ==> arena.slot_of(id).component == arena0.slot_of(
                        id,
                    ).component,
                kept1@ == prune_region_list(io.take(i as int), arena0),
                trace == in_out_candidates(io.take(i as int), arena0, prev_pos, next_pos),
            decreases io.len() - i,
        {
            let listener = self.in_out_move_listeners[i];
            proof {
                assert(io.take(i + 1 as int).drop_last() =~= io.take(i as int));
                assert(io.take(i + 1 as int).last() == io[i as int]);
                lemma_seq_add_contains(
                    in_out_candidates(io.take(i as int), arena0, prev_pos, next_pos),
                    listener.id,
                );
            }
            if arena.is_live(listener.id) {
                kept1.push(listener);
                let was_in = listener.region.is_inside_opt(prev_pos);
                let is_in = listener.region.is_inside_opt(next_pos);
                if was_in != is_in {
                    proof {
                        assert(in_out_candidates(io.take(i + 1 as int), arena0, prev_pos, next_pos)
                            =~= in_out_candidates(io.take(i as int), arena0, prev_pos, next_pos)
                            + seq![listener.id]);
                    }
                    let maybe_slot = arena.take(listener.id);
                    match maybe_slot {
                        Some(mut slot) => {
                            slot.behavior.mouse_move(&mut slot.agent, prev_pos, next_pos);
                            arena.restore(listener.id, slot);
                            proof {
                                trace = trace.push(listener.id);
                            }
                        },
                        None => {
                            proof {
                                assert(false);
                            }
                        },
                    }
                }
            }
            i = i + 1;
        }
        proof {
            assert(io.take(io.len() as int) =~= io);
        }
        self.in_out_move_listeners = kept1;
        let mut kept2: Vec<RegionListener> = Vec::new();
        let mut j: usize = 0;
        proof {
            assert(am.take(0) =~= Seq::<RegionListener>::empty());
        }
        while j < self.area_move_listeners.len()
            invariant
                j <= am.len(),
                self.area_move_listeners@ == am,
                self.full_move_listeners@ == fm,
                self.in_out_move_listeners@ == prune_region_list(io, arena0),
                self.area_click_listeners@ == old(self).area_click(),
                self.full_click_listeners@ == old(self).full_click(),
                self.area_scroll_listeners@ == old(self).area_scroll(),
                self.full_scroll_listeners@ == old(self).full_scroll(),
                arena.wf(),
                arena0.wf(),
                arena.slots_len() == arena0.slots_len(),
                forall|id: BehaviorId| arena.live(id) == arena0.live(id),
                forall|id: BehaviorId|
                    arena0.live(id) && !c1.contains(id) && !area_move_candidates(
                        am.take(j as int),
                        arena0,
                        prev_pos,
                        next_pos,
                    ).contains(id) ==> arena.slot_of(id) == arena0.slot_of(id),
                forall|id: BehaviorId|
                    arena0.live(id) ==> arena.slot_of(id).component == arena0.slot_of(
                        id,
                    ).component,
                kept2@ == prune_region_list(am.take(j as int), arena0),
                trace == c1 + area_move_candidates(am.take(j as int), arena0, prev_pos, next_pos),
            decreases am.len() - j,
        {
            let listener = self.area_move_listeners[j];
            proof {
                assert(am.take(j + 1 as int).drop_last() =~= am.take(j as int));
                assert(am.take(j + 1 as int).last() == am[j as int]);
                lemma_seq_add_contains(
                    area_move_candidates(am.take(j as int), arena0, prev_pos, next_pos),
                    listener.id,
                );
            }
            if arena.is_live(listener.id) {
                kept2.push(listener);
                let was_in = listener.region.is_inside_opt(prev_pos);
                let is_in = listener.region.is_inside_opt(next_pos);
                if was_in || is_in {
                    proof {
                        assert(area_move_candidates(
                            am.take(j + 1 as int),
                            arena0,
                            prev_pos,
                            next_pos,
                        ) =~= area_move_candidates(am.take(j as int), arena0, prev_pos, next_pos)
                            + seq![listener.id]);
                    }
                    let maybe_slot = arena.take(listener.id);
                    match maybe_slot {
                        Some(mut slot) => {
                            slot.behavior.mouse_move(&mut slot.agent, prev_pos, next_pos);
                            arena.restore(listener.id, slot);
                            proof {
                                trace = trace.push(listener.id);
                            }
                        },
                        None => {
                            proof {
                                assert(false);
                            }
                        },
                    }
                }
            }
            j = j + 1;
        }
        proof {
            assert(am.take(am.len() as int) =~= am);
        }
        self.area_move_listeners = kept2;
        let mut kept3: Vec<BehaviorId> = Vec::new();
        let mut k: usize = 0;
        proof {
            assert(fm.take(0) =~= Seq::<BehaviorId>::empty());
        }
        while k < self.full_move_listeners.len()
            invariant
                k <= fm.len(),
                self.full_move_listeners@ == fm,
                self.in_out_move_listeners@ == prune_region_list(io, arena0),
                self.area_move_listeners@ == prune_region_list(am, arena0),
                self.area_click_listeners@ == old(self).area_click(),
                self.full_click_listeners@ == old(self).full_click(),
                self.area_scroll_listeners@ == old(self).area_scroll(),
                self.full_scroll_listeners@ == old(self).full_scroll(),
                arena.wf(),
                arena0.wf(),
                arena.slots_len() == arena0.slots_len(),
                forall|id: BehaviorId| arena.live(id) == arena0.live(id),
                forall|id: BehaviorId|
                    arena0.live(id) && !c1.contains(id) && !c2.contains(id) && !prune_id_list(
                        fm.take(k as int),
                        arena0,
                    ).contains(id) ==> arena.slot_of(id) == arena0.slot_of(id),
                forall|id: BehaviorId|
                    arena0.live(id) ==> arena.slot_of(id).component == arena0.slot_of(
                        id,
                    ).component,
                kept3@ == prune_id_list(fm.take(k as int), arena0),
                trace == c1 + c2 + prune_id_list(fm.take(k as int), arena0),
            decreases fm.len() - k,
        {
            let listener = self.full_move_listeners[k];
            proof {
                assert(fm.take(k + 1 as int).drop_last() =~= fm.take(k as int));
                assert(fm.take(k + 1 as int).last() == fm[k as int]);
                lemma_seq_add_contains(prune_id_list(fm.take(k as int), arena0), listener);
            }
            if arena.is_live(listener) {
                kept3.push(listener);
                proof {
                    assert(prune_id_list(fm.take(k + 1 as int), arena0) =~= prune_id_list(
                        fm.take(k as int),
                        arena0,
                    ) + seq![listener]);
                }
                let maybe_slot = arena.take(listener);
                match maybe_slot {
                    Some(mut slot) => {
                        slot.behavior.mouse_move(&mut slot.agent, prev_pos, next_pos);
                        arena.restore(listener, slot);
                        proof {
                            trace = trace.push(listener);
                        }
                    },
                    None => {
                        proof {
                            assert(false);
                        }
                    },
                }
            }
            k = k + 1;
        }
        proof {
            assert(fm.take(fm.len() as int) =~= fm);
        }
        self.full_move_listeners = kept3;
        proof {
            assert forall|a: int, b: int|
                0 <= a < b < self.area_click().len() implies !(#[trigger] self.area_click()[a]).region
                    .intersects((#[trigger] self.area_click()[b]).region) by {
                assert(!(old(self).area_click()[a]).region.intersects(
                    (old(self).area_click()[b]).region,
                ));
            }
            assert forall|a: int, b: int|
                0 <= a < b < self.area_scroll().len() implies !(#[trigger] self.area_scroll()[a]).region
                    .intersects((#[trigger] self.area_scroll()[b]).region) by {
                assert(!(old(self).area_scroll()[a]).region.intersects(
                    (old(self).area_scroll()[b]).region,
                ));
            }
            assert(sorted_desc(self.full_scroll())) by {
                assert forall|a: int, b: int|
                    0 <= a <= b < self.full_scroll().len() implies self.full_scroll()[a].priority
                        >= self.full_scroll()[b].priority by {
                    assert(old(self).full_scroll()[a].priority >= old(
                        self,
                    ).full_scroll()[b].priority);
                }
            }
        }
        Ghost(trace)
    }

    /// Delivers a mouse click at a known position.  Every live region
    /// listener hears it — as a click inside its region when the position
    /// is within, as a click outside otherwise — and every live global
    /// listener hears it unconditionally: clicks are never consumed.
    pub fn fire_mouse_click<B: crate::component::ComponentBehavior>(
        &mut self,
        arena: &mut BehaviorArena<B>,
        mouse_pos: (i32, i32),
        click: ClickInfo,
    ) -> (r: Ghost<Seq<ClickStep>>)
        requires
            old(self).wf(),
            old(arena).wf(),
        ensures
            r@ == area_click_steps(old(self).area_click(), *old(arena), mouse_pos)
                + anywhere_click_steps(old(self).full_click(), *old(arena)),
            final(self).wf(),
            final(arena).wf(),
            final(arena).slots_len() == old(arena).slots_len(),
            forall|id: BehaviorId| final(arena).live(id) == old(arena).live(id),
            forall|id: BehaviorId|
                old(arena).live(id) && !region_listener_ids(
                    prune_region_list(old(self).area_click(), *old(arena)),
                ).contains(id) && !prune_id_list(old(self).full_click(), *old(arena)).contains(id)
                    ==> final(arena).slot_of(id) == old(arena).slot_of(id),
            forall|id: BehaviorId|
                old(arena).live(id) ==> final(arena).slot_of(id).component == old(arena).slot_of(
                    id,
                ).component,
            final(self).area_click() == prune_region_list(old(self).area_click(), *old(arena)),
            final(self).full_click() == prune_id_list(old(self).full_click(), *old(arena)),
            final(self).area_scroll() == old(self).area_scroll(),
            final(self).full_scroll() == old(self).full_scroll(),
            final(self).area_move() == old(self).area_move(),
            final(self).full_move() == old(self).full_move(),
            final(self).in_out_move() == old(self).in_out_move(),
    {
        let ghost arena0 = *arena;
        let ghost ac = self.area_click_listeners@;
        let ghost fc = self.full_click_listeners@;
        let ghost mut trace: Seq<ClickStep> = Seq::empty();
        let mut kept1: Vec<RegionListener> = Vec::new();
        let mut i: usize = 0;
        proof {
            assert(ac.take(0) =~= Seq::<RegionListener>::empty());
        }
        while i < self.area_click_listeners.len()
            invariant
                i <= ac.len(),
                self.area_click_listeners@ == ac,
                self.full_click_listeners@ == fc,
                self.area_scroll_listeners@ == old(self).area_scroll(),
                self.full_scroll_listeners@ == old(self).full_scroll(),
                self.area_move_listeners@ == old(self).area_move(),
                self.full_move_listeners@ == old(self).full_move(),
                self.in_out_move_listeners@ == old(self).in_out_move(),
                arena.wf(),
                arena0.wf(),
                arena.slots_len() == arena0.slots_len(),
                forall|id: BehaviorId| arena.live(id) == arena0.live(id),
                forall|id: BehaviorId|
                    arena0.live(id) && !region_listener_ids(
                        prune_region_list(ac.take(i as int), arena0),
                    ).contains(id) ==> arena.slot_of(id) == arena0.slot_of(id),
                forall|id: BehaviorId|
                    arena0.live(id) ==> arena.slot_of(id).component == arena0.slot_of(
                        id,
                    ).component,
                kept1@ == prune_region_list(ac.take(i as int), arena0),
                trace == area_click_steps(ac.take(i as int), arena0, mouse_pos),
            decreases ac.len() - i,
        {
            let listener = self.area_click_listeners[i];
            proof {
                assert(ac.take(i + 1 as int).drop_last() =~= ac.take(i as int));
                assert(ac.take(i + 1 as int).last() == ac[i as int]);
                lemma_seq_add_contains(
                    region_listener_ids(prune_region_list(ac.take(i as int), arena0)),
                    listener.id,
                );
            }
            if arena.is_live(listener.id) {
                kept1.push(listener);
                proof {
                    assert(prune_region_list(ac.take(i + 1 as int), arena0) =~= prune_region_list(
                        ac.take(i as int),
                        arena0,
                    ) + seq![ac[i as int]]);
                    assert(region_listener_ids(prune_region_list(ac.take(i + 1 as int), arena0))
                        =~= region_listener_ids(prune_region_list(ac.take(i as int), arena0))
                        + seq![listener.id]);
                }
                let maybe_slot = arena.take(listener.id);
                match maybe_slot {
                    Some(mut slot) => {
                        let inside = listener.region.is_inside(mouse_pos);
                        if inside {
                            slot.behavior.mouse_click_inside(&mut slot.agent, mouse_pos, click);
                        } else {
                            slot.behavior.mouse_click_outside(&mut slot.agent, click);
                        }
                        arena.restore(listener.id, slot);
                        proof {
                            trace = trace.push(
                                ClickStep {
                                    id: listener.id,
                                    kind: if inside {
                                        ClickKind::Inside
                                    } else {
                                        ClickKind::Outside
                                    },
                                },
                            );
                            assert(trace =~= area_click_steps(
                                ac.take(i + 1 as int),
                                arena0,
                                mouse_pos,
                            ));
                        }
                    },
                    None => {
                        proof {
                            assert(false);
                        }
                    },
                }
            }
            i = i + 1;
        }
        proof {
            assert(ac.take(ac.len() as int) =~= ac);
        }
        self.area_click_listeners = kept1;
        let mut kept2: Vec<BehaviorId> = Vec::new();
        let mut k: usize = 0;
        proof {
            assert(fc.take(0) =~= Seq::<BehaviorId>::empty());
        }
        while k < self.full_click_listeners.len()
            invariant
                k <= fc.len(),
                self.full_click_listeners@ == fc,
                self.area_click_listeners@ == prune_region_list(ac, arena0),
                self.area_scroll_listeners@ == old(self).area_scroll(),
                self.full_scroll_listeners@ == old(self).full_scroll(),
                self.area_move_listeners@ == old(self).area_move(),
                self.full_move_listeners@ == old(self).full_move(),
                self.in_out_move_listeners@ == old(self).in_out_move(),
                arena.wf(),
                arena0.wf(),
                arena.slots_len() == arena0.slots_len(),
                forall|id: BehaviorId| arena.live(id) == arena0.live(id),
                forall|id: BehaviorId|
                    arena0.live(id) && !region_listener_ids(
                        prune_region_list(ac, arena0),
                    ).contains(id) && !prune_id_list(fc.take(k as int), arena0).contains(id)
                        ==> arena.slot_of(id) == arena0.slot_of(id),
                forall|id: BehaviorId|
                    arena0.live(id) ==> arena.slot_of(id).component == arena0.slot_of(
                        id,
                    ).component,
                kept2@ == prune_id_list(fc.take(k as int), arena0),
                trace == area_click_steps(ac, arena0, mouse_pos) + anywhere_click_steps(
                    fc.take(k as int),
                    arena0,
                ),
            decreases fc.len() - k,
        {
            let listener = self.full_click_listeners[k];
            proof {
                assert(fc.take(k + 1 as int).drop_last() =~= fc.take(k as int));
                assert(fc.take(k + 1 as int).last() == fc[k as int]);
                lemma_seq_add_contains(prune_id_list(fc.take(k as int), arena0), listener);
            }
            if arena.is_live(listener) {
                kept2.push(listener);
                proof {
                    assert(prune_id_list(fc.take(k + 1 as int), arena0) =~= prune_id_list(
                        fc.take(k as int),
                        arena0,
                    ) + seq![listener]);
                }
                let maybe_slot = arena.take(listener);
                match maybe_slot {
                    Some(mut slot) => {
                        slot.behavior.mouse_click_anywhere(&mut slot.agent, click);
                        arena.restore(listener, slot);
                        proof {
                            trace = trace.push(
                                ClickStep { id: listener, kind: ClickKind::Anywhere },
                            );
                        }
                    },
                    None => {
                        proof {
                            assert(false);
                        }
                    },
                }
            }
            k = k + 1;
        }
        proof {
            assert(fc.take(fc.len() as int) =~= fc);
        }
        self.full_click_listeners = kept2;
        proof {
            assert forall|a: int, b: int|
                0 <= a < b < ac.len() implies !(#[trigger] ac[a]).region.intersects(
                (#[trigger] ac[b]).region) by {
                assert(!(old(self).area_click()[a]).region.intersects(
                    (old(self).area_click()[b]).region,
                ));
            }
            assert forall|a: int, b: int|
                0 <= a < b < self.area_click().len() implies !(#[trigger] self.area_click()[a]).region
                    .intersects((#[trigger] self.area_click()[b]).region) by {
                lemma_prune_region_pair(ac, arena0, a, b);
            }
            assert forall|a: int, b: int|
                0 <= a < b < self.area_scroll().len() implies !(#[trigger] self.area_scroll()[a]).region
                    .intersects((#[trigger] self.area_scroll()[b]).region) by {
                assert(!(old(self).area_scroll()[a]).region.intersects(
                    (old(self).area_scroll()[b]).region,
                ));
            }
            assert(sorted_desc(self.full_scroll())) by {
                assert forall|a: int, b: int|
                    0 <= a <= b < self.full_scroll().len() implies self.full_scroll()[a].priority
                        >= self.full_scroll()[b].priority by {
                    assert(old(self).full_scroll()[a].priority >= old(
                        self,
                    ).full_scroll()[b].priority);
                }
            }
        }
        Ghost(trace)
    }

    /// Delivers a mouse click that happened while no position is known
    /// (the mouse is off the canvas): every live region listener hears a
    /// click outside its region, every live global listener hears the
    /// click unconditionally.
    pub fn fire_mouse_click_outside<B: crate::component::ComponentBehavior>(
        &mut self,
        arena: &mut BehaviorArena<B>,
        click: ClickInfo,
    ) -> (r: Ghost<Seq<ClickStep>>)
        requires
            old(self).wf(),
            old(arena).wf(),
        ensures
            r@ == outside_click_steps(old(self).area_click(), *old(arena))
                + anywhere_click_steps(old(self).full_click(), *old(arena)),
            final(self).wf(),
            final(arena).wf(),
            final(arena).slots_len() == old(arena).slots_len(),
            forall|id: BehaviorId| final(arena).live(id) == old(arena).live(id),
            forall|id: BehaviorId|
                old(arena).live(id) && !region_listener_ids(
                    prune_region_list(old(self).area_click(), *old(arena)),
                ).contains(id) && !prune_id_list(old(self).full_click(), *old(arena)).contains(id)
                    ==> final(arena).slot_of(id) == old(arena).slot_of(id),
            forall|id: BehaviorId|
                old(arena).live(id) ==> final(arena).slot_of(id).component == old(arena).slot_of(
                    id,
                ).component,
            final(self).area_click() == prune_region_list(old(self).area_click(), *old(arena)),
            final(self).full_click() == prune_id_list(old(self).full_click(), *old(arena)),
            final(self).area_scroll() == old(self).area_scroll(),
            final(self).full_scroll() == old(self).full_scroll(),
            final(self).area_move() == old(self).area_move(),
            final(self).full_move() == old(self).full_move(),
            final(self).in_out_move() == old(self).in_out_move(),
    {
        let ghost arena0 = *arena;
        let ghost ac = self.area_click_listeners@;
        let ghost fc = self.full_click_listeners@;
        let ghost mut trace: Seq<ClickStep> = Seq::empty();
        let mut kept1: Vec<RegionListener> = Vec::new();
        let mut i: usize = 0;
        proof {
            assert(ac.take(0) =~= Seq::<RegionListener>::empty());
        }
        while i < self.area_click_listeners.len()
            invariant
                i <= ac.len(),
                self.area_click_listeners@ == ac,
                self.full_click_listeners@ == fc,
                self.area_scroll_listeners@ == old(self).area_scroll(),
                self.full_scroll_listeners@ == old(self).full_scroll(),
                self.area_move_listeners@ == old(self).area_move(),
                self.full_move_listeners@ == old(self).full_move(),
                self.in_out_move_listeners@ == old(self).in_out_move(),
                arena.wf(),
                arena0.wf(),
                arena.slots_len() == arena0.slots_len(),
                forall|id: BehaviorId| arena.live(id) == arena0.live(id),
                forall|id: BehaviorId|
                    arena0.live(id) && !region_listener_ids(
                        prune_region_list(ac.take(i as int), arena0),
                    ).contains(id) ==> arena.slot_of(id) == arena0.slot_of(id),
                forall|id: BehaviorId|
                    arena0.live(id) ==> arena.slot_of(id).component == arena0.slot_of(
                        id,
                    ).component,
                kept1@ == prune_region_list(ac.take(i as int), arena0),
                trace == outside_click_steps(ac.take(i as int), arena0),
            decreases ac.len() - i,
        {
            let listener = self.area_click_listeners[i];
            proof {
                assert(ac.take(i + 1 as int).drop_last() =~= ac.take(i as int));
                assert(ac.take(i + 1 as int).last() == ac[i as int]);
                lemma_seq_add_contains(
                    region_listener_ids(prune_region_list(ac.take(i as int), arena0)),
                    listener.id,
                );
            }
            if arena.is_live(listener.id) {
                kept1.push(listener);
                proof {
                    assert(prune_region_list(ac.take(i + 1 as int), arena0) =~= prune_region_list(
                        ac.take(i as int),
                        arena0,
                    ) + seq![ac[i as int]]);
                    assert(region_listener_ids(prune_region_list(ac.take(i + 1 as int), arena0))
                        =~= region_listener_ids(prune_region_list(ac.take(i as int), arena0))
                        + seq![listener.id]);
                }
                let maybe_slot = arena.take(listener.id);
                match maybe_slot {
                    Some(mut slot) => {
                        slot.behavior.mouse_click_outside(&mut slot.agent, click);
                        arena.restore(listener.id, slot);
                        proof {
                            trace = trace.push(
                                ClickStep { id: listener.id, kind: ClickKind::Outside },
                            );
                            assert(trace =~= outside_click_steps(ac.take(i + 1 as int), arena0));
                        }
                    },
                    None => {
                        proof {
                            assert(false);
                        }
                    },
                }
            }
            i = i + 1;
        }
        proof {
            assert(ac.take(ac.len() as int) =~= ac);
        }
        self.area_click_listeners = kept1;
        let mut kept2: Vec<BehaviorId> = Vec::new();
        let mut k: usize = 0;
        proof {
            assert(fc.take(0) =~= Seq::<BehaviorId>::empty());
        }
        while k < self.full_click_listeners.len()
            invariant
                k <= fc.len(),
                self.full_click_listeners@ == fc,
                self.area_click_listeners@ == prune_region_list(ac, arena0),
                self.area_scroll_listeners@ == old(self).area_scroll(),
                self.full_scroll_listeners@ == old(self).full_scroll(),
                self.area_move_listeners@ == old(self).area_move(),
                self.full_move_listeners@ == old(self).full_move(),
                self.in_out_move_listeners@ == old(self).in_out_move(),
                arena.wf(),
                arena0.wf(),
                arena.slots_len() == arena0.slots_len(),
                forall|id: BehaviorId| arena.live(id) == arena0.live(id),
                forall|id: BehaviorId|
                    arena0.live(id) && !region_listener_ids(
                        prune_region_list(ac, arena0),
                    ).contains(id) && !prune_id_list(fc.take(k as int), arena0).contains(id)
                        ==> arena.slot_of(id) == arena0.slot_of(id),
                forall|id: BehaviorId|
                    arena0.live(id) ==> arena.slot_of(id).component == arena0.slot_of(
                        id,
                    ).component,
                kept2@ == prune_id_list(fc.take(k as int), arena0),
                trace == outside_click_steps(ac, arena0) + anywhere_click_steps(
                    fc.take(k as int),
                    arena0,
                ),
            decreases fc.len() - k,
        {
            let listener = self.full_click_listeners[k];
            proof {
                assert(fc.take(k + 1 as int).drop_last() =~= fc.take(k as int));
                assert(fc.take(k + 1 as int).last() == fc[k as int]);
                lemma_seq_add_contains(prune_id_list(fc.take(k as int), arena0), listener);
            }
            if arena.is_live(listener) {
                kept2.push(listener);
                proof {
                    assert(prune_id_list(fc.take(k + 1 as int), arena0) =~= prune_id_list(
                        fc.take(k as int),
                        arena0,
                    ) + seq![listener]);
                }
                let maybe_slot = arena.take(listener);
                match maybe_slot {
                    Some(mut slot) => {
                        slot.behavior.mouse_click_anywhere(&mut slot.agent, click);
                        arena.restore(listener, slot);
                        proof {
                            trace = trace.push(
                                ClickStep { id: listener, kind: ClickKind::Anywhere },
                            );
                        }
                    },
                    None => {
                        proof {
                            assert(false);
                        }
                    },
                }
            }
            k = k + 1;
        }
        proof {
            assert(fc.take(fc.len() as int) =~= fc);
        }
        self.full_click_listeners = kept2;
        proof {
            assert forall|a: int, b: int|
                0 <= a < b < ac.len() implies !(#[trigger] ac[a]).region.intersects(
                (#[trigger] ac[b]).region) by {
                assert(!(old(self).area_click()[a]).region.intersects(
                    (old(self).area_click()[b]).region,
                ));
            }
            assert forall|a: int, b: int|
                0 <= a < b < self.area_click().len() implies !(#[trigger] self.area_click()[a]).region
                    .intersects((#[trigger] self.area_click()[b]).region) by {
                lemma_prune_region_pair(ac, arena0, a, b);
            }
            assert forall|a: int, b: int|
                0 <= a < b < self.area_scroll().len() implies !(#[trigger] self.area_scroll()[a]).region
                    .intersects((#[trigger] self.area_scroll()[b]).region) by {
                assert(!(old(self).area_scroll()[a]).region.intersects(
                    (old(self).area_scroll()[b]).region,
                ));
            }
            assert(sorted_desc(self.full_scroll())) by {
                assert forall|a: int, b: int|
                    0 <= a <= b < self.full_scroll().len() implies self.full_scroll()[a].priority
                        >= self.full_scroll()[b].priority by {
                    assert(old(self).full_scroll()[a].priority >= old(
                        self,
                    ).full_scroll()[b].priority);
                }
            }
        }
        Ghost(trace)
    }

    /// Claim exclusivity for region-scoped mouse claims: accepted click
    /// claims never intersect, and neither do accepted scroll claims.
    pub proof fn lemma_claim_exclusivity(self, i: int, j: int)
        requires
            self.wf(),
            0 <= i < j < self.area_click().len(),
        ensures
            !self.area_click()[i].region.intersects(self.area_click()[j].region),
    {
    }
}

} // verus!
