//! A layer: one z-slice of the screen, owning the live behaviors and one
//! manager per event category, and arbitrating region claims between its
//! behaviors.

use vstd::prelude::*;

use crate::arena::BehaviorArena;
use crate::arena::BehaviorId;
use crate::agent::Agent;
use crate::component::Component;
use crate::component::ComponentBehavior;
use crate::container::Container;
use crate::container::ConsumableEventResult;
use crate::container::EventResult;
use crate::clipboardlistening::ClipboardManager;
use crate::color::Color;
use crate::keylistening::KeyListenManager;
use crate::listeners::DispatchStep;
use crate::listeners::GlobalListener;
use crate::listeners::RegionListener;
use crate::listeners::consuming_scan;
use crate::listeners::global_candidates;
use crate::listeners::region_candidates;
use crate::mouselistening::MouseManager;
use crate::phase::RenderPhaseID;
use crate::region::Region;
use crate::render::PassedRenderAction;
use crate::render::RenderEntry;
use crate::render::entry_matches;
use crate::render::RenderManager;
use crate::render::RenderOpacity;
use crate::render::RenderRequestError;
use crate::render::RenderTrigger;
use crate::render::PlannedRenderAction;
use crate::render::RenderResult;
use crate::render::force_actions;
use crate::render::force_flipped;
use crate::render::force_needs_background;
use crate::render::prune_entries;
use crate::render::predicted_actions;
use crate::render::spec_entire_viewport;
use crate::params::ClickInfo;
use crate::params::ClipboardData;
use crate::params::KeyInfo;
use crate::listeners::scan_consumed;
use crate::listeners::trace_ids;
use crate::listeners::prune_id_list;
use crate::listeners::prune_region_list;
use crate::listeners::region_listener_ids;
use crate::listeners::ClickStep;
use crate::listeners::area_click_steps;
use crate::listeners::anywhere_click_steps;
use crate::listeners::outside_click_steps;
use crate::listeners::in_out_candidates;
use crate::listeners::area_move_candidates;
use crate::update::UpdateManager;

verus! {

pub struct Layer<B> {
    pub(crate) arena: BehaviorArena<B>,
    pub(crate) key_manager: KeyListenManager,
    pub(crate) mouse_manager: MouseManager,
    pub(crate) clipboard_manager: ClipboardManager,
    pub(crate) update_manager: UpdateManager,
    pub(crate) render_manager: RenderManager,
    pub(crate) mouse_pos: Option<(i32, i32)>,
    pub(crate) last_render_actions: Vec<PassedRenderAction>,
}

impl<B> Layer<B> {
    pub closed spec fn arena(self) -> BehaviorArena<B> {
        self.arena
    }

    pub closed spec fn key_manager(self) -> KeyListenManager {
        self.key_manager
    }

    pub closed spec fn mouse_manager(self) -> MouseManager {
        self.mouse_manager
    }

    pub closed spec fn clipboard_manager(self) -> ClipboardManager {
        self.clipboard_manager
    }

    pub closed spec fn update_manager(self) -> UpdateManager {
        self.update_manager
    }

    pub closed spec fn render_manager(self) -> RenderManager {
        self.render_manager
    }

    pub closed spec fn mouse_position(self) -> Option<(i32, i32)> {
        self.mouse_pos
    }

    pub closed spec fn last_rendered(self) -> Seq<PassedRenderAction> {
        self.last_render_actions@
    }

    pub open spec fn wf(self) -> bool {
        &&& self.arena().wf()
        &&& self.key_manager().wf()
        &&& self.mouse_manager().wf()
        &&& self.clipboard_manager().wf()
        &&& self.render_manager().wf()
    }

    /// A fresh, empty layer with the given background color.
    pub fn new(background_color: Option<Color>) -> (r: Layer<B>)
        ensures
            r.wf(),
            forall|id: BehaviorId| !r.arena().live(id),
            r.render_manager().background() == background_color,
            r.render_manager().background_pending(),
            r.render_manager().entries_seq() == Seq::<RenderEntry>::empty(),
            r.mouse_position() is None,
    {
        Layer {
            arena: BehaviorArena::new(),
            key_manager: KeyListenManager::new(),
            mouse_manager: MouseManager::new(),
            clipboard_manager: ClipboardManager::new(),
            update_manager: UpdateManager::new(),
            render_manager: RenderManager::new(background_color),
            mouse_pos: None,
            last_render_actions: Vec::new(),
        }
    }
}

/// The claim interface a behavior sees during `attach`: every region or
/// priority registration it will ever hold is declared through this value,
/// which checks region exclusivity against the layer's managers and
/// registers accepted claims immediately.
pub struct LayerAgent {
    pub(crate) key_manager: KeyListenManager,
    pub(crate) mouse_manager: MouseManager,
    pub(crate) clipboard_manager: ClipboardManager,
    pub(crate) update_manager: UpdateManager,
    pub(crate) render_manager: RenderManager,
    pub(crate) id: BehaviorId,
}

impl LayerAgent {
    pub closed spec fn key_manager(self) -> KeyListenManager {
        self.key_manager
    }

    pub closed spec fn mouse_manager(self) -> MouseManager {
        self.mouse_manager
    }

    pub closed spec fn clipboard_manager(self) -> ClipboardManager {
        self.clipboard_manager
    }

    pub closed spec fn update_manager(self) -> UpdateManager {
        self.update_manager
    }

    pub closed spec fn render_manager(self) -> RenderManager {
        self.render_manager
    }

    /// The id of the behavior currently being attached.
    pub closed spec fn behavior_id(self) -> BehaviorId {
        self.id
    }

    pub open spec fn wf(self) -> bool {
        &&& self.key_manager().wf()
        &&& self.mouse_manager().wf()
        &&& self.clipboard_manager().wf()
        &&& self.render_manager().wf()
    }

    /// Claims a region for rendering.  Fails when the region overlaps an
    /// existing render claim of this layer, or when the phase was never
    /// registered.
    pub fn claim_render_space<P: RenderPhaseID>(
        &mut self,
        region: Region,
        trigger: RenderTrigger,
        opacity: RenderOpacity,
        phase: &P,
    ) -> (r: Result<(), RenderRequestError>)
        requires
            old(self).wf(),
        ensures
            final(self).wf(),
            final(self).behavior_id() == old(self).behavior_id(),
            final(self).key_manager() == old(self).key_manager(),
            final(self).mouse_manager() == old(self).mouse_manager(),
            final(self).clipboard_manager() == old(self).clipboard_manager(),
            final(self).update_manager() == old(self).update_manager(),
            match r {
                Err(RenderRequestError::RegionAlreadyClaimed) => *final(self) == *old(self)
                    && exists|i: int|
                    0 <= i < old(self).render_manager().entries_seq().len() && (#[trigger] old(
                        self,
                    ).render_manager().entries_seq()[i]).region.intersects(region),
                Err(RenderRequestError::UnregisteredRenderPhase) => *final(self) == *old(self)
                    && !old(self).render_manager().phase_store().registered(
                    phase.spec_crate_name(),
                    phase.spec_local_name(),
                ) && (forall|i: int|
                    0 <= i < old(self).render_manager().entries_seq().len() ==> !(#[trigger] old(
                        self,
                    ).render_manager().entries_seq()[i]).region.intersects(region)),
                Ok(_) => {
                    &&& old(self).render_manager().phase_store().registered(
                        phase.spec_crate_name(),
                        phase.spec_local_name(),
                    )
                    &&& forall|i: int|
                        0 <= i < old(self).render_manager().entries_seq().len()
                            ==> !(#[trigger] old(self).render_manager().entries_seq()[i]).region
                            .intersects(region)
                    &&& final(self).render_manager().phase_store() == old(
                        self,
                    ).render_manager().phase_store()
                    &&& final(self).render_manager().background() == old(
                        self,
                    ).render_manager().background()
                    &&& final(self).render_manager().background_pending() == old(
                        self,
                    ).render_manager().background_pending()
                    &&& exists|k: int, ph: usize|
                        {
                            &&& 0 <= k <= old(self).render_manager().entries_seq().len()
                            &&& final(self).render_manager().entries_seq() == old(
                                self,
                            ).render_manager().entries_seq().insert(
                                k,
                                final(self).render_manager().entries_seq()[k],
                            )
                            &&& entry_matches(
                                final(self).render_manager().entries_seq()[k],
                                old(self).behavior_id(),
                                region,
                                trigger,
                                opacity,
                                ph,
                            )
                        }
                },
            },
    {
        if !self.render_manager.can_claim(region) {
            proof {
                let w = choose|i: int|
                    0 <= i < self.render_manager().entries_seq().len() && (
                    #[trigger] self.render_manager().entries_seq()[i]).region.intersects(region);
                assert(old(self).render_manager().entries_seq()[w].region.intersects(region));
            }
            return Err(RenderRequestError::RegionAlreadyClaimed);
        }
        proof {
            assert forall|i: int|
                0 <= i < old(self).render_manager().entries_seq().len() implies !(#[trigger] old(
                self,
            ).render_manager().entries_seq()[i]).region.intersects(region) by {
                assert(!self.render_manager().entries_seq()[i].region.intersects(region));
            }
        }
        let maybe_rank = self.render_manager.phase_index(phase);
        match maybe_rank {
            None => Err(RenderRequestError::UnregisteredRenderPhase),
            Some(rank) => {
                self.render_manager.claim_space(region, trigger, rank, opacity, self.id);
                proof {
                    let k = choose|k: int|
                        {
                            &&& 0 <= k <= old(self).render_manager().entries_seq().len()
                            &&& final(self).render_manager().entries_seq() == old(
                                self,
                            ).render_manager().entries_seq().insert(
                                k,
                                final(self).render_manager().entries_seq()[k],
                            )
                            &&& entry_matches(
                                final(self).render_manager().entries_seq()[k],
                                old(self).behavior_id(),
                                region,
                                trigger,
                                opacity,
                                rank,
                            )
                        };
                }
                Ok(())
            },
        }
    }

    /// Claims a region for hover key-down listening.  Fails iff the region
    /// overlaps an existing key-down claim.
    pub fn claim_key_down_space(&mut self, region: Region) -> (r: Result<(), ()>)
        requires
            old(self).wf(),
        ensures
            final(self).wf(),
            final(self).behavior_id() == old(self).behavior_id(),
            final(self).mouse_manager() == old(self).mouse_manager(),
            final(self).clipboard_manager() == old(self).clipboard_manager(),
            final(self).update_manager() == old(self).update_manager(),
            final(self).render_manager() == old(self).render_manager(),
            r is Err <==> exists|i: int|
                0 <= i < old(self).key_manager().hover_down().len() && (#[trigger] old(
                    self,
                ).key_manager().hover_down()[i]).region.intersects(region),
            r is Err ==> *final(self) == *old(self),
            r is Ok ==> final(self).key_manager().hover_down() == old(
                self,
            ).key_manager().hover_down().push(
                (RegionListener { id: old(self).behavior_id(), region }),
            ) && final(self).key_manager().hover_up() == old(self).key_manager().hover_up()
                && final(self).key_manager().full_down() == old(self).key_manager().full_down()
                && final(self).key_manager().full_up() == old(self).key_manager().full_up(),
    {
        if !self.key_manager.can_claim_down(region) {
            return Err(());
        }
        self.key_manager.add_region_key_down_listener(self.id, region);
        Ok(())
    }

    /// Claims a region for hover key-up listening.  Fails iff the region
    /// overlaps an existing key-up claim.
    pub fn claim_key_up_space(&mut self, region: Region) -> (r: Result<(), ()>)
        requires
            old(self).wf(),
        ensures
            final(self).wf(),
            final(self).behavior_id() == old(self).behavior_id(),
            final(self).mouse_manager() == old(self).mouse_manager(),
            final(self).clipboard_manager() == old(self).clipboard_manager(),
            final(self).update_manager() == old(self).update_manager(),
            final(self).render_manager() == old(self).render_manager(),
            r is Err <==> exists|i: int|
                0 <= i < old(self).key_manager().hover_up().len() && (#[trigger] old(
                    self,
                ).key_manager().hover_up()[i]).region.intersects(region),
            r is Err ==> *final(self) == *old(self),
            r is Ok ==> final(self).key_manager().hover_up() == old(
                self,
            ).key_manager().hover_up().push(
                (RegionListener { id: old(self).behavior_id(), region }),
            ) && final(self).key_manager().hover_down() == old(self).key_manager().hover_down()
                && final(self).key_manager().full_down() == old(self).key_manager().full_down()
                && final(self).key_manager().full_up() == old(self).key_manager().full_up(),
    {
        if !self.key_manager.can_claim_up(region) {
            return Err(());
        }
        self.key_manager.add_region_key_up_listener(self.id, region);
        Ok(())
    }

    /// Claims a region for both key categories at once.  Fails iff the
    /// region overlaps an existing claim of either category.
    pub fn claim_key_listen_space(&mut self, region: Region) -> (r: Result<(), ()>)
        requires
            old(self).wf(),
        ensures
            final(self).wf(),
            final(self).behavior_id() == old(self).behavior_id(),
            final(self).mouse_manager() == old(self).mouse_manager(),
            final(self).clipboard_manager() == old(self).clipboard_manager(),
            final(self).update_manager() == old(self).update_manager(),
            final(self).render_manager() == old(self).render_manager(),
            r is Err <==> (exists|i: int|
                0 <= i < old(self).key_manager().hover_down().len() && (#[trigger] old(
                    self,
                ).key_manager().hover_down()[i]).region.intersects(region)) || (exists|i: int|
                0 <= i < old(self).key_manager().hover_up().len() && (#[trigger] old(
                    self,
                ).key_manager().hover_up()[i]).region.intersects(region)),
            r is Err ==> *final(self) == *old(self),
            r is Ok ==> final(self).key_manager().hover_down() == old(
                self,
            ).key_manager().hover_down().push(
                (RegionListener { id: old(self).behavior_id(), region }),
            ) && final(self).key_manager().hover_up() == old(self).key_manager().hover_up().push(
                (RegionListener { id: old(self).behavior_id(), region }),
            ) && final(self).key_manager().full_down() == old(self).key_manager().full_down()
                && final(self).key_manager().full_up() == old(self).key_manager().full_up(),
    {
        let down_free = self.key_manager.can_claim_down(region);
        let up_free = self.key_manager.can_claim_up(region);
        if !down_free || !up_free {
            return Err(());
        }
        self.key_manager.add_region_key_down_listener(self.id, region);
        self.key_manager.add_region_key_up_listener(self.id, region);
        Ok(())
    }

    /// Registers this behavior as a global key-down listener.
    pub fn make_key_down_listener(&mut self, priority: i8)
        requires
            old(self).wf(),
        ensures
            final(self).wf(),
            final(self).behavior_id() == old(self).behavior_id(),
            final(self).mouse_manager() == old(self).mouse_manager(),
            final(self).clipboard_manager() == old(self).clipboard_manager(),
            final(self).update_manager() == old(self).update_manager(),
            final(self).render_manager() == old(self).render_manager(),
            final(self).key_manager().hover_down() == old(self).key_manager().hover_down(),
            final(self).key_manager().hover_up() == old(self).key_manager().hover_up(),
            final(self).key_manager().full_up() == old(self).key_manager().full_up(),
            exists|k: int|
                {
                    &&& 0 <= k <= old(self).key_manager().full_down().len()
                    &&& final(self).key_manager().full_down() == old(
                        self,
                    ).key_manager().full_down().insert(
                        k,
                        (GlobalListener { id: old(self).behavior_id(), priority }),
                    )
                    &&& forall|i: int|
                        0 <= i < k ==> old(self).key_manager().full_down()[i].priority >= priority
                    &&& forall|i: int|
                        k <= i < old(self).key_manager().full_down().len() ==> old(
                            self,
                        ).key_manager().full_down()[i].priority < priority
                },
    {
        self.key_manager.add_global_key_down_listener(self.id, priority);
    }

    /// Registers this behavior as a global key-up listener.
    pub fn make_key_up_listener(&mut self, priority: i8)
        requires
            old(self).wf(),
        ensures
            final(self).wf(),
            final(self).behavior_id() == old(self).behavior_id(),
            final(self).mouse_manager() == old(self).mouse_manager(),
            final(self).clipboard_manager() == old(self).clipboard_manager(),
            final(self).update_manager() == old(self).update_manager(),
            final(self).render_manager() == old(self).render_manager(),
            final(self).key_manager().hover_down() == old(self).key_manager().hover_down(),
            final(self).key_manager().hover_up() == old(self).key_manager().hover_up(),
            final(self).key_manager().full_down() == old(self).key_manager().full_down(),
            exists|k: int|
                {
                    &&& 0 <= k <= old(self).key_manager().full_up().len()
                    &&& final(self).key_manager().full_up() == old(
                        self,
                    ).key_manager().full_up().insert(
                        k,
                        (GlobalListener { id: old(self).behavior_id(), priority }),
                    )
                    &&& forall|i: int|
                        0 <= i < k ==> old(self).key_manager().full_up()[i].priority >= priority
                    &&& forall|i: int|
                        k <= i < old(self).key_manager().full_up().len() ==> old(
                            self,
                        ).key_manager().full_up()[i].priority < priority
                },
    {
        self.key_manager.add_global_key_up_listener(self.id, priority);
    }

    /// Registers this behavior as a global listener for both key
    /// categories.
    pub fn make_key_listener(&mut self, priority: i8)
        requires
            old(self).wf(),
        ensures
            final(self).wf(),
            final(self).behavior_id() == old(self).behavior_id(),
            final(self).mouse_manager() == old(self).mouse_manager(),
            final(self).clipboard_manager() == old(self).clipboard_manager(),
            final(self).update_manager() == old(self).update_manager(),
            final(self).render_manager() == old(self).render_manager(),
            final(self).key_manager().hover_down() == old(self).key_manager().hover_down(),
            final(self).key_manager().hover_up() == old(self).key_manager().hover_up(),
    {
        self.key_manager.add_global_key_down_listener(self.id, priority);
        self.key_manager.add_global_key_up_listener(self.id, priority);
    }

    /// Claims a region for mouse clicks.  Fails iff the region overlaps an
    /// existing click claim.
    pub fn claim_mouse_click_space(&mut self, region: Region) -> (r: Result<(), ()>)
        requires
            old(self).wf(),
        ensures
            final(self).wf(),
            final(self).behavior_id() == old(self).behavior_id(),
            final(self).key_manager() == old(self).key_manager(),
            final(self).clipboard_manager() == old(self).clipboard_manager(),
            final(self).update_manager() == old(self).update_manager(),
            final(self).render_manager() == old(self).render_manager(),
            r is Err <==> exists|i: int|
                0 <= i < old(self).mouse_manager().area_click().len() && (#[trigger] old(
                    self,
                ).mouse_manager().area_click()[i]).region.intersects(region),
            r is Err ==> *final(self) == *old(self),
            r is Ok ==> final(self).mouse_manager().area_click() == old(
                self,
            ).mouse_manager().area_click().push(
                (RegionListener { id: old(self).behavior_id(), region }),
            ) && final(self).mouse_manager().full_click() == old(self).mouse_manager().full_click()
                && final(self).mouse_manager().area_scroll() == old(
                self,
            ).mouse_manager().area_scroll() && final(self).mouse_manager().full_scroll() == old(
                self,
            ).mouse_manager().full_scroll() && final(self).mouse_manager().area_move() == old(
                self,
            ).mouse_manager().area_move() && final(self).mouse_manager().full_move() == old(
                self,
            ).mouse_manager().full_move() && final(self).mouse_manager().in_out_move() == old(
                self,
            ).mouse_manager().in_out_move(),
    {
        if !self.mouse_manager.can_claim_click_space(region) {
            return Err(());
        }
        self.mouse_manager.add_click_space_listener(self.id, region);
        Ok(())
    }

    /// Claims a region for mouse scrolling.  Fails iff the region overlaps
    /// an existing scroll claim.
    pub fn claim_mouse_scroll_space(&mut self, region: Region) -> (r: Result<(), ()>)
        requires
            old(self).wf(),
        ensures
            final(self).wf(),
            final(self).behavior_id() == old(self).behavior_id(),
            final(self).key_manager() == old(self).key_manager(),
            final(self).clipboard_manager() == old(self).clipboard_manager(),
            final(self).update_manager() == old(self).update_manager(),
            final(self).render_manager() == old(self).render_manager(),
            r is Err <==> exists|i: int|
                0 <= i < old(self).mouse_manager().area_scroll().len() && (#[trigger] old(
                    self,
                ).mouse_manager().area_scroll()[i]).region.intersects(region),
            r is Err ==> *final(self) == *old(self),
            r is Ok ==> final(self).mouse_manager().area_scroll() == old(
                self,
            ).mouse_manager().area_scroll().push(
                (RegionListener { id: old(self).behavior_id(), region }),
            ) && final(self).mouse_manager().full_click() == old(self).mouse_manager().full_click()
                && final(self).mouse_manager().area_click() == old(
                self,
            ).mouse_manager().area_click() && final(self).mouse_manager().full_scroll() == old(
                self,
            ).mouse_manager().full_scroll() && final(self).mouse_manager().area_move() == old(
                self,
            ).mouse_manager().area_move() && final(self).mouse_manager().full_move() == old(
                self,
            ).mouse_manager().full_move() && final(self).mouse_manager().in_out_move() == old(
                self,
            ).mouse_manager().in_out_move(),
    {
        if !self.mouse_manager.can_claim_scroll_space(region) {
            return Err(());
        }
        self.mouse_manager.add_scroll_space_listener(self.id, region);
        Ok(())
    }

    /// Registers this behavior as a global scroll listener.
    pub fn make_mouse_scroll_listener(&mut self, priority: i8)
        requires
            old(self).wf(),
        ensures
            final(self).wf(),
            final(self).behavior_id() == old(self).behavior_id(),
            final(self).key_manager() == old(self).key_manager(),
            final(self).clipboard_manager() == old(self).clipboard_manager(),
            final(self).update_manager() == old(self).update_manager(),
            final(self).render_manager() == old(self).render_manager(),
            final(self).mouse_manager().area_click() == old(self).mouse_manager().area_click(),
            final(self).mouse_manager().full_click() == old(self).mouse_manager().full_click(),
            final(self).mouse_manager().area_scroll() == old(self).mouse_manager().area_scroll(),
            final(self).mouse_manager().area_move() == old(self).mouse_manager().area_move(),
            final(self).mouse_manager().full_move() == old(self).mouse_manager().full_move(),
            final(self).mouse_manager().in_out_move() == old(self).mouse_manager().in_out_move(),
            exists|k: int|
                {
                    &&& 0 <= k <= old(self).mouse_manager().full_scroll().len()
                    &&& final(self).mouse_manager().full_scroll() == old(
                        self,
                    ).mouse_manager().full_scroll().insert(
                        k,
                        (GlobalListener { id: old(self).behavior_id(), priority }),
                    )
                    &&& forall|i: int|
                        0 <= i < k ==> old(self).mouse_manager().full_scroll()[i].priority
                            >= priority
                    &&& forall|i: int|
                        k <= i < old(self).mouse_manager().full_scroll().len() ==> old(
                            self,
                        ).mouse_manager().full_scroll()[i].priority < priority
                },
    {
        self.mouse_manager.add_full_scroll_listener(self.id, priority);
    }

    /// Claims a region for "area" mouse-move listening.  Move claims carry
    /// no exclusivity, so this cannot fail.
    pub fn claim_mouse_move_space(&mut self, region: Region)
        requires
            old(self).wf(),
        ensures
            final(self).wf(),
            final(self).behavior_id() == old(self).behavior_id(),
            final(self).key_manager() == old(self).key_manager(),
            final(self).clipboard_manager() == old(self).clipboard_manager(),
            final(self).update_manager() == old(self).update_manager(),
            final(self).render_manager() == old(self).render_manager(),
            final(self).mouse_manager().area_move() == old(self).mouse_manager().area_move().push(
                (RegionListener { id: old(self).behavior_id(), region }),
            ),
            final(self).mouse_manager().area_click() == old(self).mouse_manager().area_click(),
            final(self).mouse_manager().full_click() == old(self).mouse_manager().full_click(),
            final(self).mouse_manager().area_scroll() == old(self).mouse_manager().area_scroll(),
            final(self).mouse_manager().full_scroll() == old(self).mouse_manager().full_scroll(),
            final(self).mouse_manager().full_move() == old(self).mouse_manager().full_move(),
            final(self).mouse_manager().in_out_move() == old(self).mouse_manager().in_out_move(),
    {
        self.mouse_manager.add_move_space_listener(self.id, region);
    }

    /// Claims a region for "in/out" mouse-move listening.  Move claims
    /// carry no exclusivity, so this cannot fail.
    pub fn claim_mouse_in_out_space(&mut self, region: Region)
        requires
            old(self).wf(),
        ensures
            final(self).wf(),
            final(self).behavior_id() == old(self).behavior_id(),
            final(self).key_manager() == old(self).key_manager(),
            final(self).clipboard_manager() == old(self).clipboard_manager(),
            final(self).update_manager() == old(self).update_manager(),
            final(self).render_manager() == old(self).render_manager(),
            final(self).mouse_manager().in_out_move() == old(
                self,
            ).mouse_manager().in_out_move().push(
                (RegionListener { id: old(self).behavior_id(), region }),
            ),
            final(self).mouse_manager().area_click() == old(self).mouse_manager().area_click(),
            final(self).mouse_manager().full_click() == old(self).mouse_manager().full_click(),
            final(self).mouse_manager().area_scroll() == old(self).mouse_manager().area_scroll(),
            final(self).mouse_manager().full_scroll() == old(self).mouse_manager().full_scroll(),
            final(self).mouse_manager().area_move() == old(self).mouse_manager().area_move(),
            final(self).mouse_manager().full_move() == old(self).mouse_manager().full_move(),
    {
        self.mouse_manager.add_in_out_move_listener(self.id, region);
    }

    /// Registers this behavior as a global mouse-move listener.
    pub fn make_mouse_move_listener(&mut self)
        requires
            old(self).wf(),
        ensures
            final(self).wf(),
            final(self).behavior_id() == old(self).behavior_id(),
            final(self).key_manager() == old(self).key_manager(),
            final(self).clipboard_manager() == old(self).clipboard_manager(),
            final(self).update_manager() == old(self).update_manager(),
            final(self).render_manager() == old(self).render_manager(),
            final(self).mouse_manager().full_move() == old(self).mouse_manager().full_move().push(
                old(self).behavior_id(),
            ),
            final(self).mouse_manager().area_click() == old(self).mouse_manager().area_click(),
            final(self).mouse_manager().full_click() == old(self).mouse_manager().full_click(),
            final(self).mouse_manager().area_scroll() == old(self).mouse_manager().area_scroll(),
            final(self).mouse_manager().full_scroll() == old(self).mouse_manager().full_scroll(),
            final(self).mouse_manager().area_move() == old(self).mouse_manager().area_move(),
            final(self).mouse_manager().in_out_move() == old(self).mouse_manager().in_out_move(),
    {
        self.mouse_manager.add_full_move_listener(self.id);
    }

    /// Registers this behavior as a global click listener.
    pub fn make_mouse_click_listener(&mut self)
        requires
            old(self).wf(),
        ensures
            final(self).wf(),
            final(self).behavior_id() == old(self).behavior_id(),
            final(self).key_manager() == old(self).key_manager(),
            final(self).clipboard_manager() == old(self).clipboard_manager(),
            final(self).update_manager() == old(self).update_manager(),
            final(self).render_manager() == old(self).render_manager(),
            final(self).mouse_manager().full_click() == old(
                self,
            ).mouse_manager().full_click().push(old(self).behavior_id()),
            final(self).mouse_manager().area_click() == old(self).mouse_manager().area_click(),
            final(self).mouse_manager().area_scroll() == old(self).mouse_manager().area_scroll(),
            final(self).mouse_manager().full_scroll() == old(self).mouse_manager().full_scroll(),
            final(self).mouse_manager().area_move() == old(self).mouse_manager().area_move(),
            final(self).mouse_manager().full_move() == old(self).mouse_manager().full_move(),
            final(self).mouse_manager().in_out_move() == old(self).mouse_manager().in_out_move(),
    {
        self.mouse_manager.add_full_click_listener(self.id);
    }

    /// Registers this behavior as a clipboard copy listener.
    pub fn make_copy_listener(&mut self, priority: i8)
        requires
            old(self).wf(),
        ensures
            final(self).wf(),
            final(self).behavior_id() == old(self).behavior_id(),
            final(self).key_manager() == old(self).key_manager(),
            final(self).mouse_manager() == old(self).mouse_manager(),
            final(self).update_manager() == old(self).update_manager(),
            final(self).render_manager() == old(self).render_manager(),
            final(self).clipboard_manager().paste_list() == old(
                self,
            ).clipboard_manager().paste_list(),
            final(self).clipboard_manager().cut_list() == old(self).clipboard_manager().cut_list(),
            exists|k: int|
                {
                    &&& 0 <= k <= old(self).clipboard_manager().copy_list().len()
                    &&& final(self).clipboard_manager().copy_list() == old(
                        self,
                    ).clipboard_manager().copy_list().insert(
                        k,
                        (GlobalListener { id: old(self).behavior_id(), priority }),
                    )
                    &&& forall|i: int|
                        0 <= i < k ==> old(self).clipboard_manager().copy_list()[i].priority
                            >= priority
                    &&& forall|i: int|
                        k <= i < old(self).clipboard_manager().copy_list().len() ==> old(
                            self,
                        ).clipboard_manager().copy_list()[i].priority < priority
                },
    {
        self.clipboard_manager.add_copy_listener(self.id, priority);
    }

    /// Registers this behavior as a clipboard paste listener.
    pub fn make_paste_listener(&mut self, priority: i8)
        requires
            old(self).wf(),
        ensures
            final(self).wf(),
            final(self).behavior_id() == old(self).behavior_id(),
            final(self).key_manager() == old(self).key_manager(),
            final(self).mouse_manager() == old(self).mouse_manager(),
            final(self).update_manager() == old(self).update_manager(),
            final(self).render_manager() == old(self).render_manager(),
            final(self).clipboard_manager().copy_list() == old(
                self,
            ).clipboard_manager().copy_list(),
            final(self).clipboard_manager().cut_list() == old(self).clipboard_manager().cut_list(),
            exists|k: int|
                {
                    &&& 0 <= k <= old(self).clipboard_manager().paste_list().len()
                    &&& final(self).clipboard_manager().paste_list() == old(
                        self,
                    ).clipboard_manager().paste_list().insert(
                        k,
                        (GlobalListener { id: old(self).behavior_id(), priority }),
                    )
                    &&& forall|i: int|
                        0 <= i < k ==> old(self).clipboard_manager().paste_list()[i].priority
                            >= priority
                    &&& forall|i: int|
                        k <= i < old(self).clipboard_manager().paste_list().len() ==> old(
                            self,
                        ).clipboard_manager().paste_list()[i].priority < priority
                },
    {
        self.clipboard_manager.add_paste_listener(self.id, priority);
    }

    /// Registers this behavior as a clipboard cut listener.
    pub fn make_cut_listener(&mut self, priority: i8)
        requires
            old(self).wf(),
        ensures
            final(self).wf(),
            final(self).behavior_id() == old(self).behavior_id(),
            final(self).key_manager() == old(self).key_manager(),
            final(self).mouse_manager() == old(self).mouse_manager(),
            final(self).update_manager() == old(self).update_manager(),
            final(self).render_manager() == old(self).render_manager(),
            final(self).clipboard_manager().copy_list() == old(
                self,
            ).clipboard_manager().copy_list(),
            final(self).clipboard_manager().paste_list() == old(
                self,
            ).clipboard_manager().paste_list(),
            exists|k: int|
                {
                    &&& 0 <= k <= old(self).clipboard_manager().cut_list().len()
                    &&& final(self).clipboard_manager().cut_list() == old(
                        self,
                    ).clipboard_manager().cut_list().insert(
                        k,
                        (GlobalListener { id: old(self).behavior_id(), priority }),
                    )
                    &&& forall|i: int|
                        0 <= i < k ==> old(self).clipboard_manager().cut_list()[i].priority
                            >= priority
                    &&& forall|i: int|
                        k <= i < old(self).clipboard_manager().cut_list().len() ==> old(
                            self,
                        ).clipboard_manager().cut_list()[i].priority < priority
                },
    {
        self.clipboard_manager.add_cut_listener(self.id, priority);
    }

    /// Opts this behavior into per-frame update ticks.
    pub fn make_update_listener(&mut self)
        requires
            old(self).wf(),
        ensures
            final(self).wf(),
            final(self).behavior_id() == old(self).behavior_id(),
            final(self).key_manager() == old(self).key_manager(),
            final(self).mouse_manager() == old(self).mouse_manager(),
            final(self).clipboard_manager() == old(self).clipboard_manager(),
            final(self).render_manager() == old(self).render_manager(),
            final(self).update_manager().listeners() == old(
                self,
            ).update_manager().listeners().push(old(self).behavior_id()),
    {
        self.update_manager.add_listener(self.id);
    }

}

/// How one partial force changes one live behavior's render request:
/// dirty stays dirty; without a background cascade exactly the scan's
/// newly dirtied behaviors join, and with one every behavior holding a
/// claim does.
pub open spec fn partial_forced_agent<B>(
    pre: Layer<B>,
    post: Layer<B>,
    regions: Seq<Region>,
    id: BehaviorId,
) -> bool {
    &&& (pre.arena().slot_of(id).agent.render_requested() ==> post.arena().slot_of(
        id,
    ).agent.render_requested())
    &&& (!force_needs_background(
        pre.render_manager().entries_seq(),
        pre.arena(),
        regions,
        pre.render_manager().background(),
    ) ==> post.arena().slot_of(id).agent.render_requested() == (pre.arena().slot_of(
        id,
    ).agent.render_requested() || force_flipped(
        pre.render_manager().entries_seq(),
        pre.arena(),
        regions,
    ).contains(id)))
    &&& (force_needs_background(
        pre.render_manager().entries_seq(),
        pre.arena(),
        regions,
        pre.render_manager().background(),
    ) ==> post.arena().slot_of(id).agent.render_requested() == (pre.arena().slot_of(
        id,
    ).agent.render_requested() || exists|k: int|
        0 <= k < pre.render_manager().entries_seq().len() && (
        #[trigger] pre.render_manager().entries_seq()[k]).id == id))
}

/// How one partial force transforms a layer: dead claims are pruned, the
/// background repaints when the forced regions are not fully covered by
/// overlapping solid claims, and every live behavior's render request
/// evolves as `partial_forced_agent` says.
pub open spec fn partial_forced<B>(pre: Layer<B>, post: Layer<B>, regions: Seq<Region>) -> bool {
    &&& post.render_manager().entries_seq() == prune_entries(
        pre.render_manager().entries_seq(),
        pre.arena(),
    )
    &&& (force_needs_background(
        pre.render_manager().entries_seq(),
        pre.arena(),
        regions,
        pre.render_manager().background(),
    ) ==> post.render_manager().background_pending())
    &&& (!force_needs_background(
        pre.render_manager().entries_seq(),
        pre.arena(),
        regions,
        pre.render_manager().background(),
    ) ==> post.render_manager().background_pending() == pre.render_manager().background_pending())
    &&& forall|id: BehaviorId|
        #![trigger pre.arena().slot_of(id)]
        pre.arena().live(id) ==> partial_forced_agent(pre, post, regions, id)
}

/// How a full force changes one live behavior's render request: it is
/// set whenever the behavior holds a claim, and never cleared.
pub open spec fn fully_forced_agent<B>(pre: Layer<B>, post: Layer<B>, id: BehaviorId) -> bool {
    post.arena().slot_of(id).agent.render_requested() == (pre.arena().slot_of(
        id,
    ).agent.render_requested() || exists|k: int|
        0 <= k < pre.render_manager().entries_seq().len() && (
        #[trigger] pre.render_manager().entries_seq()[k]).id == id)
}

/// A layer scheduled for a full repaint: the background is pending again
/// and every live behavior holding a claim has a render request, so the
/// next pass repaints everything.
pub open spec fn fully_forced<B>(pre: Layer<B>, post: Layer<B>) -> bool {
    &&& post.render_manager().background_pending()
    &&& forall|id: BehaviorId|
        #![trigger pre.arena().slot_of(id)]
        pre.arena().live(id) ==> fully_forced_agent(pre, post, id)
}

/// A behavior an event cannot disturb: it is not in the event's audience,
/// its agent has nothing pending, and no behavior of its component is in
/// the audience or has asked for removal.  Such a behavior survives the
/// event with its whole slot untouched.
pub open spec fn undisturbed<B>(
    arena: BehaviorArena<B>,
    audience: Seq<BehaviorId>,
    id: BehaviorId,
) -> bool {
    &&& arena.live(id)
    &&& !audience.contains(id)
    &&& !arena.slot_of(id).agent.changed()
    &&& forall|id2: BehaviorId|
        #![trigger arena.slot_of(id2)]
        arena.live(id2) && arena.slot_of(id2).component == arena.slot_of(id).component ==> (
        !audience.contains(id2) && !(arena.slot_of(id2).agent.changed() && arena.slot_of(
            id2,
        ).agent.removal_requested()))
}

/// True when some live behavior of the component `comp` has asked, in its
/// still-undrained agent state, for its component to be removed.
pub open spec fn component_removed<B>(arena: BehaviorArena<B>, comp: BehaviorId) -> bool {
    exists|id2: BehaviorId|
        arena.live(id2) && (#[trigger] arena.slot_of(id2)).component == comp && arena.slot_of(
            id2,
        ).agent.changed() && arena.slot_of(id2).agent.removal_requested()
}

/// Linear membership test over a small id list.
fn contains_id(v: &Vec<BehaviorId>, id: BehaviorId) -> (r: bool)
    ensures
        r == v@.contains(id),
{
    let mut i: usize = 0;
    while i < v.len()
        invariant
            i <= v@.len(),
            forall|k: int| 0 <= k < i ==> v@[k] != id,
        decreases v@.len() - i,
    {
        if v[i] == id {
            return true;
        }
        i = i + 1;
    }
    false
}

impl<B: ComponentBehavior> Layer<B> {
    /// Registers a render phase with this layer.  Registering a duplicate
    /// id is a programming error, excluded by precondition.
    pub fn register_render_phase<P: RenderPhaseID>(&mut self, id: &P)
        requires
            old(self).wf(),
            !old(self).render_manager().phase_store().registered(
                id.spec_crate_name(),
                id.spec_local_name(),
            ),
        ensures
            final(self).wf(),
            final(self).render_manager().phase_store().phase_ids() == old(
                self,
            ).render_manager().phase_store().phase_ids().push(
                (id.spec_crate_name(), id.spec_local_name()),
            ),
            final(self).arena() == old(self).arena(),
            final(self).mouse_position() == old(self).mouse_position(),
    {
        self.render_manager.register_phase(id);
    }

    /// How many behaviors are currently alive in this layer.
    pub fn behavior_count(&self) -> (r: usize)
        ensures
            r == self.arena().live_count(),
    {
        self.arena.behavior_count()
    }

    /// Instantiates one component from its behavior list: every behavior
    /// is stored under a fresh id, then attached exactly once — the
    /// returned ghost sequence records the attached ids, in order.  Each
    /// behavior gets its own fresh agent, which `attach` never sees, so
    /// after attachment every new agent is still in its initial state:
    /// first render pending, nothing else requested.  All new behaviors
    /// belong to one component, named by the first id.
    pub fn add_behaviors(&mut self, behaviors: Vec<B>) -> (r: Ghost<Seq<BehaviorId>>)
        requires
            old(self).wf(),
        ensures
            final(self).wf(),
            final(self).mouse_position() == old(self).mouse_position(),
            final(self).last_rendered() == old(self).last_rendered(),
            final(self).render_manager().background() == old(self).render_manager().background(),
            final(self).render_manager().background_pending() == old(
                self,
            ).render_manager().background_pending(),
            forall|id: BehaviorId|
                old(self).arena().live(id) ==> {
                    &&& final(self).arena().live(id)
                    &&& final(self).arena().slot_of(id) == old(self).arena().slot_of(id)
                },
            final(self).arena().live_count() == old(self).arena().live_count()
                + behaviors@.len(),
            r@.len() == behaviors@.len(),
            forall|t1: int, t2: int| 0 <= t1 < t2 < r@.len() ==> r@[t1] != r@[t2],
            forall|t: int|
                0 <= t < r@.len() ==> {
                    &&& !old(self).arena().live(#[trigger] r@[t])
                    &&& final(self).arena().live(r@[t])
                    &&& final(self).arena().slot_of(r@[t]).component == r@[0]
                    &&& final(self).arena().slot_of(r@[t]).agent.render_requested()
                    &&& !final(self).arena().slot_of(r@[t]).agent.removal_requested()
                    &&& final(self).arena().slot_of(r@[t]).agent.pending() == Seq::<Vec<
                        B,
                    >>::empty()
                    &&& final(self).arena().slot_of(r@[t]).agent.container_request() is None
                    &&& !final(self).arena().slot_of(r@[t]).agent.changed()
                },
    {
        let mut rest = behaviors;
        let mut component_root: Option<BehaviorId> = None;
        let ghost total: int = rest@.len() as int;
        let ghost mut added: int = 0;
        let ghost mut ids: Seq<BehaviorId> = Seq::empty();
        while rest.len() > 0
            invariant
                self.wf(),
                self.mouse_position() == old(self).mouse_position(),
                self.last_rendered() == old(self).last_rendered(),
                self.render_manager().background() == old(self).render_manager().background(),
                self.render_manager().background_pending() == old(
                    self,
                ).render_manager().background_pending(),
                added + rest@.len() == total,
                forall|id: BehaviorId|
                    old(self).arena().live(id) ==> self.arena().live(id) && self.arena().slot_of(
                        id,
                    ) == old(self).arena().slot_of(id),
                self.arena().live_count() == old(self).arena().live_count() + added,
                ids.len() == added,
                component_root matches Some(root) ==> ids.len() > 0 && root == ids[0],
                ids.len() > 0 ==> component_root == Some(ids[0]),
                forall|t1: int, t2: int| 0 <= t1 < t2 < ids.len() ==> ids[t1] != ids[t2],
                forall|t: int|
                    0 <= t < ids.len() ==> {
                        &&& !old(self).arena().live(#[trigger] ids[t])
                        &&& self.arena().live(ids[t])
                        &&& self.arena().slot_of(ids[t]).component == ids[0]
                        &&& self.arena().slot_of(ids[t]).agent.render_requested()
                        &&& !self.arena().slot_of(ids[t]).agent.removal_requested()
                        &&& self.arena().slot_of(ids[t]).agent.pending() == Seq::<Vec<
                            B,
                        >>::empty()
                        &&& self.arena().slot_of(ids[t]).agent.container_request() is None
                        &&& !self.arena().slot_of(ids[t]).agent.changed()
                    },
            decreases rest@.len(),
        {
            let behavior = rest.remove(0);
            let agent = Agent::new();
            let id = match component_root {
                Some(root) => self.arena.insert(behavior, agent, root),
                None => {
                    let id = self.arena.insert_root(behavior, agent);
                    component_root = Some(id);
                    id
                },
            };
            let mut claim_agent = LayerAgent {
                key_manager: KeyListenManager::new(),
                mouse_manager: MouseManager::new(),
                clipboard_manager: ClipboardManager::new(),
                update_manager: UpdateManager::new(),
                render_manager: RenderManager::new(None),
                id,
            };
            core::mem::swap(&mut self.key_manager, &mut claim_agent.key_manager);
            core::mem::swap(&mut self.mouse_manager, &mut claim_agent.mouse_manager);
            core::mem::swap(&mut self.clipboard_manager, &mut claim_agent.clipboard_manager);
            core::mem::swap(&mut self.update_manager, &mut claim_agent.update_manager);
            core::mem::swap(&mut self.render_manager, &mut claim_agent.render_manager);
            let maybe_slot = self.arena.take(id);
            match maybe_slot {
                Some(mut slot) => {
                    slot.behavior.attach(&mut claim_agent);
                    self.arena.restore(id, slot);
                },
                None => {
                    proof {
                        assert(false);
                    }
                },
            }
            core::mem::swap(&mut self.key_manager, &mut claim_agent.key_manager);
            core::mem::swap(&mut self.mouse_manager, &mut claim_agent.mouse_manager);
            core::mem::swap(&mut self.clipboard_manager, &mut claim_agent.clipboard_manager);
            core::mem::swap(&mut self.update_manager, &mut claim_agent.update_manager);
            core::mem::swap(&mut self.render_manager, &mut claim_agent.render_manager);
            proof {
                added = added + 1;
                ids = ids.push(id);
            }
        }
        Ghost(ids)
    }

    /// Hands a component to the layer: it is consumed to produce its
    /// behaviors, which are stored and attached.
    pub fn add_component<C: Component<Behavior = B>>(&mut self, component: C) -> (r: Ghost<
        Seq<BehaviorId>,
    >)
        requires
            old(self).wf(),
        ensures
            final(self).wf(),
            final(self).mouse_position() == old(self).mouse_position(),
            forall|id: BehaviorId|
                old(self).arena().live(id) ==> {
                    &&& final(self).arena().live(id)
                    &&& final(self).arena().slot_of(id) == old(self).arena().slot_of(id)
                },
            forall|t1: int, t2: int| 0 <= t1 < t2 < r@.len() ==> r@[t1] != r@[t2],
            forall|t: int|
                0 <= t < r@.len() ==> {
                    &&& !old(self).arena().live(#[trigger] r@[t])
                    &&& final(self).arena().live(r@[t])
                    &&& final(self).arena().slot_of(r@[t]).component == r@[0]
                    &&& final(self).arena().slot_of(r@[t]).agent.render_requested()
                    &&& !final(self).arena().slot_of(r@[t]).agent.changed()
                },
    {
        let mut component = component;
        let behaviors = component.create_behaviors();
        self.add_behaviors(behaviors)
    }

    /// Applies every deferred lifecycle effect after an event has finished
    /// propagating: container change requests are collected (the first one
    /// found wins and the rest are dropped), components whose behaviors
    /// asked for removal are freed as a whole, and queued new components
    /// are instantiated and attached.
    pub(crate) fn check_agents(&mut self) -> (r: EventResult<B>)
        requires
            old(self).wf(),
        ensures
            final(self).wf(),
            final(self).mouse_position() == old(self).mouse_position(),
            final(self).last_rendered() == old(self).last_rendered(),
            final(self).render_manager().background() == old(self).render_manager().background(),
            final(self).render_manager().background_pending() == old(
                self,
            ).render_manager().background_pending(),
            forall|id: BehaviorId|
                old(self).arena().live(id) && component_removed(
                    old(self).arena(),
                    old(self).arena().slot_of(id).component,
                ) ==> !final(self).arena().live(id),
            forall|id: BehaviorId|
                old(self).arena().live(id) && !component_removed(
                    old(self).arena(),
                    old(self).arena().slot_of(id).component,
                ) ==> {
                    &&& final(self).arena().live(id)
                    &&& final(self).arena().slot_of(id).behavior == old(self).arena().slot_of(
                        id,
                    ).behavior
                    &&& final(self).arena().slot_of(id).component == old(self).arena().slot_of(
                        id,
                    ).component
                },
            (r is Some) == exists|id: BehaviorId|
                old(self).arena().live(id) && (#[trigger] old(self).arena().slot_of(
                    id,
                )).agent.changed() && old(self).arena().slot_of(id).agent.container_request()
                    is Some,
            forall|id: BehaviorId|
                #![trigger old(self).arena().slot_of(id)]
                old(self).arena().live(id) && !old(self).arena().slot_of(id).agent.changed()
                    && !component_removed(
                    old(self).arena(),
                    old(self).arena().slot_of(id).component,
                ) ==> final(self).arena().live(id) && final(self).arena().slot_of(id) == old(
                    self,
                ).arena().slot_of(id),
    {
        let ghost arena0 = self.arena;
        let mut new_container: Option<Box<Container<B>>> = None;
        let mut removal_components: Vec<BehaviorId> = Vec::new();
        let mut components_to_add: Vec<Vec<B>> = Vec::new();
        let slot_total = self.arena.slot_count();
        let mut idx: usize = 0;
        while idx < slot_total
            invariant
                idx <= slot_total,
                slot_total == arena0.slots_len(),
                self.arena.wf(),
                arena0.wf(),
                self.arena.slots_len() == arena0.slots_len(),
                self.key_manager() == old(self).key_manager(),
                self.mouse_manager() == old(self).mouse_manager(),
                self.clipboard_manager() == old(self).clipboard_manager(),
                self.update_manager() == old(self).update_manager(),
                self.render_manager() == old(self).render_manager(),
                self.mouse_position() == old(self).mouse_position(),
                self.last_rendered() == old(self).last_rendered(),
                arena0 == old(self).arena(),
                forall|id: BehaviorId| self.arena().live(id) == arena0.live(id),
                forall|id: BehaviorId|
                    #![trigger arena0.slot_of(id)]
                    arena0.live(id) && id.index >= idx ==> self.arena().slot_of(id)
                        == arena0.slot_of(id),
                forall|id: BehaviorId|
                    #![trigger arena0.slot_of(id)]
                    arena0.live(id) && !arena0.slot_of(id).agent.changed() ==> self.arena().slot_of(
                        id,
                    ) == arena0.slot_of(id),
                forall|id: BehaviorId|
                    #![trigger arena0.slot_of(id)]
                    arena0.live(id) ==> {
                        &&& self.arena().slot_of(id).behavior == arena0.slot_of(id).behavior
                        &&& self.arena().slot_of(id).component == arena0.slot_of(id).component
                        &&& self.arena().slot_of(id).agent.removal_requested() == arena0.slot_of(
                            id,
                        ).agent.removal_requested()
                        &&& self.arena().slot_of(id).agent.render_requested() == arena0.slot_of(
                            id,
                        ).agent.render_requested()
                    },
                (new_container is Some) == exists|id: BehaviorId|
                    arena0.live(id) && id.index < idx && (#[trigger] arena0.slot_of(
                        id,
                    )).agent.changed() && arena0.slot_of(id).agent.container_request() is Some,
                forall|c: BehaviorId|
                    #![trigger removal_components@.contains(c)]
                    removal_components@.contains(c) == exists|id: BehaviorId|
                        arena0.live(id) && id.index < idx && (#[trigger] arena0.slot_of(
                            id,
                        )).agent.changed() && arena0.slot_of(id).agent.removal_requested()
                            && arena0.slot_of(id).component == c,
            decreases slot_total - idx,
        {
            let maybe_id = self.arena.id_at(idx);
            match maybe_id {
                Some(id) => {
                    proof {
                        assert forall|id2: BehaviorId|
                            arena0.live(id2) && id2.index == idx implies id2 == id by {
                            self.arena().lemma_live_unique_at_index(id, id2);
                        }
                        assert(arena0.live(id));
                        assert(self.arena().slot_of(id) == arena0.slot_of(id));
                    }
                    let ghost qualifies = arena0.slot_of(id).agent.changed() && arena0.slot_of(
                        id,
                    ).agent.container_request() is Some;
                    if self.arena.agent_changed(id) {
                        self.arena.clear_changes_for(id);
                        let maybe_container = self.arena.take_container_request_for(id);
                        match maybe_container {
                            Some(c) => {
                                if new_container.is_none() {
                                    new_container = Some(c);
                                }
                            },
                            None => {},
                        }
                        if self.arena.agent_removal_requested(id) {
                            let comp = self.arena.component_of(id);
                            let ghost before = removal_components@;
                            removal_components.push(comp);
                            proof {
                                assert forall|c: BehaviorId|
                                    #[trigger] removal_components@.contains(c) == (before.contains(
                                        c,
                                    ) || c == comp) by {
                                    if removal_components@.contains(c) {
                                        let m = choose|m: int|
                                            0 <= m < removal_components@.len()
                                                && removal_components@[m] == c;
                                        if m < before.len() {
                                            assert(before[m] == c);
                                        }
                                    }
                                    if before.contains(c) {
                                        let m = choose|m: int|
                                            0 <= m < before.len() && before[m] == c;
                                        assert(removal_components@[m] == c);
                                    }
                                    if c == comp {
                                        assert(removal_components@[before.len() as int] == c);
                                    }
                                }
                            }
                        } else {
                            let mut pending = self.arena.take_pending_for(id);
                            while pending.len() > 0
                                invariant
                                    self.arena.wf(),
                                decreases pending@.len(),
                            {
                                let lst = pending.remove(0);
                                components_to_add.push(lst);
                            }
                        }
                    }
                    proof {
                        assert((new_container is Some) == (exists|id2: BehaviorId|
                            arena0.live(id2) && id2.index < idx + 1 && (#[trigger] arena0.slot_of(
                                id2,
                            )).agent.changed() && arena0.slot_of(id2).agent.container_request()
                                is Some)) by {
                            if new_container is Some {
                                if !qualifies {
                                    let w = choose|id2: BehaviorId|
                                        arena0.live(id2) && id2.index < idx && (
                                        #[trigger] arena0.slot_of(id2)).agent.changed()
                                            && arena0.slot_of(id2).agent.container_request()
                                            is Some;
                                    assert(arena0.live(w) && w.index < idx + 1 && arena0.slot_of(
                                        w,
                                    ).agent.changed() && arena0.slot_of(w).agent.container_request()
                                        is Some);
                                } else {
                                    assert(arena0.live(id) && id.index < idx + 1
                                        && arena0.slot_of(id).agent.changed() && arena0.slot_of(
                                        id,
                                    ).agent.container_request() is Some);
                                }
                            }
                        }
                    }
                },
                None => {
                    proof {
                        assert forall|id2: BehaviorId|
                            arena0.live(id2) implies id2.index != idx by {
                            if id2.index == idx {
                                self.arena.lemma_vacant_index(idx, id2);
                            }
                        }
                    }
                },
            }
            idx = idx + 1;
        }
        proof {
            assert forall|id: BehaviorId| arena0.live(id) implies id.index < slot_total by {
                arena0.lemma_live_index_bound(id);
            }
        }
        while components_to_add.len() > 0
            invariant
                self.wf(),
                self.mouse_position() == old(self).mouse_position(),
                self.last_rendered() == old(self).last_rendered(),
                self.render_manager().background() == old(self).render_manager().background(),
                self.render_manager().background_pending() == old(
                    self,
                ).render_manager().background_pending(),
                arena0 == old(self).arena(),
                forall|id: BehaviorId| arena0.live(id) ==> self.arena().live(id),
                forall|id: BehaviorId|
                    #![trigger arena0.slot_of(id)]
                    arena0.live(id) ==> {
                        &&& self.arena().slot_of(id).behavior == arena0.slot_of(id).behavior
                        &&& self.arena().slot_of(id).component == arena0.slot_of(id).component
                    },
                forall|id: BehaviorId|
                    #![trigger arena0.slot_of(id)]
                    arena0.live(id) && !arena0.slot_of(id).agent.changed() ==> self.arena().slot_of(
                        id,
                    ) == arena0.slot_of(id),
                forall|c: BehaviorId|
                    #![trigger removal_components@.contains(c)]
                    removal_components@.contains(c) == exists|id: BehaviorId|
                        arena0.live(id) && (#[trigger] arena0.slot_of(id)).agent.changed()
                            && arena0.slot_of(id).agent.removal_requested() && arena0.slot_of(
                            id,
                        ).component == c,
            decreases components_to_add@.len(),
        {
            let behaviors = components_to_add.remove(0);
            self.add_behaviors(behaviors);
        }
        let ghost arena_b = self.arena;
        let slot_total2 = self.arena.slot_count();
        let mut idx2: usize = 0;
        while idx2 < slot_total2
            invariant
                idx2 <= slot_total2,
                slot_total2 == arena_b.slots_len(),
                self.arena.wf(),
                arena_b.wf(),
                self.arena.slots_len() == arena_b.slots_len(),
                self.key_manager().wf(),
                self.mouse_manager().wf(),
                self.clipboard_manager().wf(),
                self.render_manager().wf(),
                self.mouse_position() == old(self).mouse_position(),
                self.last_rendered() == old(self).last_rendered(),
                self.render_manager().background() == old(self).render_manager().background(),
                self.render_manager().background_pending() == old(
                    self,
                ).render_manager().background_pending(),
                forall|id: BehaviorId|
                    #![trigger self.arena().live(id)]
                    self.arena().live(id) ==> arena_b.live(id) && self.arena().slot_of(id)
                        == arena_b.slot_of(id),
                forall|id: BehaviorId|
                    #![trigger arena_b.live(id)]
                    arena_b.live(id) && !removal_components@.contains(
                        arena_b.slot_of(id).component,
                    ) ==> self.arena().live(id),
                forall|id: BehaviorId|
                    #![trigger arena_b.live(id)]
                    arena_b.live(id) && id.index < idx2 && removal_components@.contains(
                        arena_b.slot_of(id).component,
                    ) ==> !self.arena().live(id),
            decreases slot_total2 - idx2,
        {
            let ghost a_cur = self.arena;
            let maybe_id = self.arena.id_at(idx2);
            match maybe_id {
                Some(id) => {
                    proof {
                        assert(self.arena().live(id));
                        assert(arena_b.live(id));
                        assert(self.arena().slot_of(id) == arena_b.slot_of(id));
                    }
                    let comp = self.arena.component_of(id);
                    let in_list = contains_id(&removal_components, comp);
                    if in_list {
                        self.arena.free(id);
                    }
                    proof {
                        assert forall|id2: BehaviorId|
                            #![trigger arena_b.live(id2)]
                            arena_b.live(id2) && id2.index < idx2 + 1 && removal_components@.contains(
                                arena_b.slot_of(id2).component,
                            ) implies !self.arena().live(id2) by {
                            if id2.index == idx2 {
                                arena_b.lemma_live_unique_at_index(id, id2);
                                assert(id2 == id);
                                assert(in_list);
                            } else {
                                assert(!a_cur.live(id2));
                            }
                        }
                    }
                },
                None => {
                    proof {
                        assert forall|id2: BehaviorId|
                            #![trigger arena_b.live(id2)]
                            arena_b.live(id2) && id2.index < idx2 + 1 && removal_components@.contains(
                                arena_b.slot_of(id2).component,
                            ) implies !self.arena().live(id2) by {
                            if id2.index == idx2 {
                                self.arena.lemma_vacant_index(idx2, id2);
                            } else {
                                assert(!a_cur.live(id2));
                            }
                        }
                    }
                },
            }
            idx2 = idx2 + 1;
        }
        proof {
            assert forall|id: BehaviorId| arena_b.live(id) implies id.index < slot_total2 by {
                arena_b.lemma_live_index_bound(id);
            }
            assert forall|id: BehaviorId|
                old(self).arena().live(id) && component_removed(
                    old(self).arena(),
                    old(self).arena().slot_of(id).component,
                ) implies !self.arena().live(id) by {
                let comp = old(self).arena().slot_of(id).component;
                assert(removal_components@.contains(comp));
                assert(arena_b.live(id) ==> arena_b.slot_of(id).component == comp);
            }
            assert forall|id: BehaviorId|
                #![trigger old(self).arena().slot_of(id)]
                old(self).arena().live(id) && !old(self).arena().slot_of(id).agent.changed()
                    && !component_removed(
                    old(self).arena(),
                    old(self).arena().slot_of(id).component,
                ) implies self.arena().live(id) && self.arena().slot_of(id) == old(
                self,
            ).arena().slot_of(id) by {
                assert(arena_b.live(id));
                assert(arena_b.slot_of(id) == arena0.slot_of(id));
                assert(!removal_components@.contains(arena_b.slot_of(id).component));
                assert(self.arena().live(id));
            }
        }
        new_container
    }
}

impl<B: ComponentBehavior> Layer<B> {
    /// Turns the outcome of a consumable event into the layer's answer: a
    /// requested container change always counts as consumption.
    fn consumable_result(&mut self, consumed: bool) -> (r: ConsumableEventResult<B>)
        requires
            old(self).wf(),
        ensures
            final(self).wf(),
            final(self).mouse_position() == old(self).mouse_position(),
            final(self).last_rendered() == old(self).last_rendered(),
            r.consumed() == (consumed || r.container_request() is Some),
            forall|id: BehaviorId|
                #![trigger old(self).arena().slot_of(id)]
                old(self).arena().live(id) && component_removed(
                    old(self).arena(),
                    old(self).arena().slot_of(id).component,
                ) ==> !final(self).arena().live(id),
            forall|id: BehaviorId|
                #![trigger old(self).arena().slot_of(id)]
                old(self).arena().live(id) && !old(self).arena().slot_of(id).agent.changed()
                    && !component_removed(
                    old(self).arena(),
                    old(self).arena().slot_of(id).component,
                ) ==> final(self).arena().live(id) && final(self).arena().slot_of(id) == old(
                    self,
                ).arena().slot_of(id),
    {
        let normal_result = self.check_agents();
        match normal_result {
            Some(next_container) => ConsumableEventResult::change_container(next_container),
            None => ConsumableEventResult::consume(consumed),
        }
    }

    /// Delivers a key-down event to this layer and applies the deferred
    /// effects it caused.  The scan trace is returned alongside.
    pub fn on_key_down(&mut self, keys: &KeyInfo) -> (r: (
        ConsumableEventResult<B>,
        Ghost<Seq<DispatchStep>>,
    ))
        requires
            old(self).wf(),
        ensures
            final(self).wf(),
            final(self).mouse_position() == old(self).mouse_position(),
            consuming_scan(
                region_candidates(
                    old(self).key_manager().hover_down(),
                    old(self).arena(),
                    old(self).mouse_position(),
                ) + global_candidates(old(self).key_manager().full_down(), old(self).arena()),
                r.1@,
                scan_consumed(r.1@),
            ),
            r.0.consumed() == (scan_consumed(r.1@) || r.0.container_request() is Some),
            forall|id: BehaviorId|
                #![trigger old(self).arena().slot_of(id)]
                undisturbed(
                    old(self).arena(),
                    region_candidates(
                        old(self).key_manager().hover_down(),
                        old(self).arena(),
                        old(self).mouse_position(),
                    ) + global_candidates(old(self).key_manager().full_down(), old(self).arena()),
                    id,
                ) ==> final(self).arena().live(id) && final(self).arena().slot_of(id) == old(
                    self,
                ).arena().slot_of(id),
            forall|id: BehaviorId|
                #![trigger old(self).arena().slot_of(id)]
                old(self).arena().live(id) && (exists|id2: BehaviorId|
                    old(self).arena().live(id2) && !(region_candidates(
                        old(self).key_manager().hover_down(),
                        old(self).arena(),
                        old(self).mouse_position(),
                    ) + global_candidates(old(self).key_manager().full_down(), old(self).arena())).contains(id2) && (
                    #[trigger] old(self).arena().slot_of(id2)).component == old(
                        self,
                    ).arena().slot_of(id).component && old(self).arena().slot_of(
                        id2,
                    ).agent.changed() && old(self).arena().slot_of(id2).agent.removal_requested())
                    ==> !final(self).arena().live(id),
    {
        let ghost aud = region_candidates(
            old(self).key_manager().hover_down(),
            old(self).arena(),
            old(self).mouse_position(),
        ) + global_candidates(old(self).key_manager().full_down(), old(self).arena());
        let mouse_pos = self.mouse_pos;
        let (consumed, trace) = self.key_manager.fire_key_down(&mut self.arena, keys, mouse_pos);
        let ghost mid = *self;
        proof {
            assert forall|id2: BehaviorId|
                old(self).arena().live(id2) && !aud.contains(id2) implies mid.arena().slot_of(
                id2,
            ) == old(self).arena().slot_of(id2) by {
                if trace_ids(trace@).contains(id2) {
                    let m = choose|m: int|
                        0 <= m < trace_ids(trace@).len() && trace_ids(trace@)[m] == id2;
                    assert(trace@[m].id == aud[m]);
                    assert(aud[m] == id2);
                }
            }
            assert forall|id: BehaviorId|
                #![trigger old(self).arena().slot_of(id)]
                undisturbed(old(self).arena(), aud, id) implies {
                &&& mid.arena().live(id)
                &&& mid.arena().slot_of(id) == old(self).arena().slot_of(id)
                &&& !mid.arena().slot_of(id).agent.changed()
                &&& !component_removed(mid.arena(), mid.arena().slot_of(id).component)
            } by {
                assert(mid.arena().slot_of(id) == old(self).arena().slot_of(id));
                assert forall|id2: BehaviorId|
                    mid.arena().live(id2) && (#[trigger] mid.arena().slot_of(id2)).component
                        == mid.arena().slot_of(id).component && mid.arena().slot_of(
                        id2,
                    ).agent.changed() && mid.arena().slot_of(id2).agent.removal_requested()
                        implies false by {
                    assert(mid.arena().slot_of(id2).component == old(self).arena().slot_of(
                        id2,
                    ).component);
                    if !aud.contains(id2) {
                        assert(mid.arena().slot_of(id2) == old(self).arena().slot_of(id2));
                    }
                }
            }
            assert forall|id: BehaviorId|
                #![trigger old(self).arena().slot_of(id)]
                old(self).arena().live(id) && (exists|id2: BehaviorId|
                    old(self).arena().live(id2) && !aud.contains(id2) && (#[trigger] old(
                        self,
                    ).arena().slot_of(id2)).component == old(self).arena().slot_of(id).component
                        && old(self).arena().slot_of(id2).agent.changed() && old(
                        self,
                    ).arena().slot_of(id2).agent.removal_requested()) implies component_removed(
                mid.arena(),
                mid.arena().slot_of(id).component,
            ) by {
                let id2 = choose|id2: BehaviorId|
                    old(self).arena().live(id2) && !aud.contains(id2) && (#[trigger] old(
                        self,
                    ).arena().slot_of(id2)).component == old(self).arena().slot_of(id).component
                        && old(self).arena().slot_of(id2).agent.changed() && old(
                        self,
                    ).arena().slot_of(id2).agent.removal_requested();
                assert(mid.arena().slot_of(id2) == old(self).arena().slot_of(id2));
                assert(mid.arena().slot_of(id).component == old(self).arena().slot_of(
                    id,
                ).component);
            }
        }
        let result = self.consumable_result(consumed);
        proof {
            assert forall|id: BehaviorId|
                #![trigger old(self).arena().slot_of(id)]
                undisturbed(old(self).arena(), aud, id) implies self.arena().live(id)
                && self.arena().slot_of(id) == old(self).arena().slot_of(id) by {
                assert(mid.arena().live(id) && !mid.arena().slot_of(id).agent.changed()
                    && !component_removed(mid.arena(), mid.arena().slot_of(id).component));
            }
        }
        (result, trace)
    }

    /// Delivers a key-up event to this layer and applies the deferred
    /// effects it caused.  The scan trace is returned alongside.
    pub fn on_key_up(&mut self, keys: &KeyInfo) -> (r: (
        ConsumableEventResult<B>,
        Ghost<Seq<DispatchStep>>,
    ))
        requires
            old(self).wf(),
        ensures
            final(self).wf(),
            final(self).mouse_position() == old(self).mouse_position(),
            consuming_scan(
                region_candidates(
                    old(self).key_manager().hover_up(),
                    old(self).arena(),
                    old(self).mouse_position(),
                ) + global_candidates(old(self).key_manager().full_up(), old(self).arena()),
                r.1@,
                scan_consumed(r.1@),
            ),
            r.0.consumed() == (scan_consumed(r.1@) || r.0.container_request() is Some),
            forall|id: BehaviorId|
                #![trigger old(self).arena().slot_of(id)]
                undisturbed(
                    old(self).arena(),
                    region_candidates(
                        old(self).key_manager().hover_up(),
                        old(self).arena(),
                        old(self).mouse_position(),
                    ) + global_candidates(old(self).key_manager().full_up(), old(self).arena()),
                    id,
                ) ==> final(self).arena().live(id) && final(self).arena().slot_of(id) == old(
                    self,
                ).arena().slot_of(id),
            forall|id: BehaviorId|
                #![trigger old(self).arena().slot_of(id)]
                old(self).arena().live(id) && (exists|id2: BehaviorId|
                    old(self).arena().live(id2) && !(region_candidates(
                        old(self).key_manager().hover_up(),
                        old(self).arena(),
                        old(self).mouse_position(),
                    ) + global_candidates(old(self).key_manager().full_up(), old(self).arena())).contains(id2) && (
                    #[trigger] old(self).arena().slot_of(id2)).component == old(
                        self,
                    ).arena().slot_of(id).component && old(self).arena().slot_of(
                        id2,
                    ).agent.changed() && old(self).arena().slot_of(id2).agent.removal_requested())
                    ==> !final(self).arena().live(id),
    {
        let ghost aud = region_candidates(
            old(self).key_manager().hover_up(),
            old(self).arena(),
            old(self).mouse_position(),
        ) + global_candidates(old(self).key_manager().full_up(), old(self).arena());
        let mouse_pos = self.mouse_pos;
        let (consumed, trace) = self.key_manager.fire_key_up(&mut self.arena, keys, mouse_pos);
        let ghost mid = *self;
        proof {
            assert forall|id2: BehaviorId|
                old(self).arena().live(id2) && !aud.contains(id2) implies mid.arena().slot_of(
                id2,
            ) == old(self).arena().slot_of(id2) by {
                if trace_ids(trace@).contains(id2) {
                    let m = choose|m: int|
                        0 <= m < trace_ids(trace@).len() && trace_ids(trace@)[m] == id2;
                    assert(trace@[m].id == aud[m]);
                    assert(aud[m] == id2);
                }
            }
            assert forall|id: BehaviorId|
                #![trigger old(self).arena().slot_of(id)]
                undisturbed(old(self).arena(), aud, id) implies {
                &&& mid.arena().live(id)
                &&& mid.arena().slot_of(id) == old(self).arena().slot_of(id)
                &&& !mid.arena().slot_of(id).agent.changed()
                &&& !component_removed(mid.arena(), mid.arena().slot_of(id).component)
            } by {
                assert(mid.arena().slot_of(id) == old(self).arena().slot_of(id));
                assert forall|id2: BehaviorId|
                    mid.arena().live(id2) && (#[trigger] mid.arena().slot_of(id2)).component
                        == mid.arena().slot_of(id).component && mid.arena().slot_of(
                        id2,
                    ).agent.changed() && mid.arena().slot_of(id2).agent.removal_requested()
                        implies false by {
                    assert(mid.arena().slot_of(id2).component == old(self).arena().slot_of(
                        id2,
                    ).component);
                    if !aud.contains(id2) {
                        assert(mid.arena().slot_of(id2) == old(self).arena().slot_of(id2));
                    }
                }
            }
            assert forall|id: BehaviorId|
                #![trigger old(self).arena().slot_of(id)]
                old(self).arena().live(id) && (exists|id2: BehaviorId|
                    old(self).arena().live(id2) && !aud.contains(id2) && (#[trigger] old(
                        self,
                    ).arena().slot_of(id2)).component == old(self).arena().slot_of(id).component
                        && old(self).arena().slot_of(id2).agent.changed() && old(
                        self,
                    ).arena().slot_of(id2).agent.removal_requested()) implies component_removed(
                mid.arena(),
                mid.arena().slot_of(id).component,
            ) by {
                let id2 = choose|id2: BehaviorId|
                    old(self).arena().live(id2) && !aud.contains(id2) && (#[trigger] old(
                        self,
                    ).arena().slot_of(id2)).component == old(self).arena().slot_of(id).component
                        && old(self).arena().slot_of(id2).agent.changed() && old(
                        self,
                    ).arena().slot_of(id2).agent.removal_requested();
                assert(mid.arena().slot_of(id2) == old(self).arena().slot_of(id2));
                assert(mid.arena().slot_of(id).component == old(self).arena().slot_of(
                    id,
                ).component);
            }
        }
        let result = self.consumable_result(consumed);
        proof {
            assert forall|id: BehaviorId|
                #![trigger old(self).arena().slot_of(id)]
                undisturbed(old(self).arena(), aud, id) implies self.arena().live(id)
                && self.arena().slot_of(id) == old(self).arena().slot_of(id) by {
                assert(mid.arena().live(id) && !mid.arena().slot_of(id).agent.changed()
                    && !component_removed(mid.arena(), mid.arena().slot_of(id).component));
            }
        }
        (result, trace)
    }

    /// Delivers a mouse scroll to this layer and applies the deferred
    /// effects it caused.  The scan trace is returned alongside.
    pub fn on_mouse_scroll(&mut self, delta: i64) -> (r: (
        ConsumableEventResult<B>,
        Ghost<Seq<DispatchStep>>,
    ))
        requires
            old(self).wf(),
        ensures
            final(self).wf(),
            final(self).mouse_position() == old(self).mouse_position(),
            consuming_scan(
                region_candidates(
                    old(self).mouse_manager().area_scroll(),
                    old(self).arena(),
                    old(self).mouse_position(),
                ) + global_candidates(old(self).mouse_manager().full_scroll(), old(self).arena()),
                r.1@,
                scan_consumed(r.1@),
            ),
            r.0.consumed() == (scan_consumed(r.1@) || r.0.container_request() is Some),
            forall|id: BehaviorId|
                #![trigger old(self).arena().slot_of(id)]
                undisturbed(
                    old(self).arena(),
                    region_candidates(
                        old(self).mouse_manager().area_scroll(),
                        old(self).arena(),
                        old(self).mouse_position(),
                    ) + global_candidates(old(self).mouse_manager().full_scroll(), old(self).arena()),
                    id,
                ) ==> final(self).arena().live(id) && final(self).arena().slot_of(id) == old(
                    self,
                ).arena().slot_of(id),
            forall|id: BehaviorId|
                #![trigger old(self).arena().slot_of(id)]
                old(self).arena().live(id) && (exists|id2: BehaviorId|
                    old(self).arena().live(id2) && !(region_candidates(
                        old(self).mouse_manager().area_scroll(),
                        old(self).arena(),
                        old(self).mouse_position(),
                    ) + global_candidates(old(self).mouse_manager().full_scroll(), old(self).arena())).contains(id2) && (
                    #[trigger] old(self).arena().slot_of(id2)).component == old(
                        self,
                    ).arena().slot_of(id).component && old(self).arena().slot_of(
                        id2,
                    ).agent.changed() && old(self).arena().slot_of(id2).agent.removal_requested())
                    ==> !final(self).arena().live(id),
    {
        let ghost aud = region_candidates(
            old(self).mouse_manager().area_scroll(),
            old(self).arena(),
            old(self).mouse_position(),
        ) + global_candidates(old(self).mouse_manager().full_scroll(), old(self).arena());
        let mouse_pos = self.mouse_pos;
        let (consumed, trace) = self.mouse_manager.fire_mouse_scroll(
            &mut self.arena,
            mouse_pos,
            delta,
        );
        let ghost mid = *self;
        proof {
            assert forall|id2: BehaviorId|
                old(self).arena().live(id2) && !aud.contains(id2) implies mid.arena().slot_of(
                id2,
            ) == old(self).arena().slot_of(id2) by {
                if trace_ids(trace@).contains(id2) {
                    let m = choose|m: int|
                        0 <= m < trace_ids(trace@).len() && trace_ids(trace@)[m] == id2;
                    assert(trace@[m].id == aud[m]);
                    assert(aud[m] == id2);
                }
            }
            assert forall|id: BehaviorId|
                #![trigger old(self).arena().slot_of(id)]
                undisturbed(old(self).arena(), aud, id) implies {
                &&& mid.arena().live(id)
                &&& mid.arena().slot_of(id) == old(self).arena().slot_of(id)
                &&& !mid.arena().slot_of(id).agent.changed()
                &&& !component_removed(mid.arena(), mid.arena().slot_of(id).component)
            } by {
                assert(mid.arena().slot_of(id) == old(self).arena().slot_of(id));
                assert forall|id2: BehaviorId|
                    mid.arena().live(id2) && (#[trigger] mid.arena().slot_of(id2)).component
                        == mid.arena().slot_of(id).component && mid.arena().slot_of(
                        id2,
                    ).agent.changed() && mid.arena().slot_of(id2).agent.removal_requested()
                        implies false by {
                    assert(mid.arena().slot_of(id2).component == old(self).arena().slot_of(
                        id2,
                    ).component);
                    if !aud.contains(id2) {
                        assert(mid.arena().slot_of(id2) == old(self).arena().slot_of(id2));
                    }
                }
            }
            assert forall|id: BehaviorId|
                #![trigger old(self).arena().slot_of(id)]
                old(self).arena().live(id) && (exists|id2: BehaviorId|
                    old(self).arena().live(id2) && !aud.contains(id2) && (#[trigger] old(
                        self,
                    ).arena().slot_of(id2)).component == old(self).arena().slot_of(id).component
                        && old(self).arena().slot_of(id2).agent.changed() && old(
                        self,
                    ).arena().slot_of(id2).agent.removal_requested()) implies component_removed(
                mid.arena(),
                mid.arena().slot_of(id).component,
            ) by {
                let id2 = choose|id2: BehaviorId|
                    old(self).arena().live(id2) && !aud.contains(id2) && (#[trigger] old(
                        self,
                    ).arena().slot_of(id2)).component == old(self).arena().slot_of(id).component
                        && old(self).arena().slot_of(id2).agent.changed() && old(
                        self,
                    ).arena().slot_of(id2).agent.removal_requested();
                assert(mid.arena().slot_of(id2) == old(self).arena().slot_of(id2));
                assert(mid.arena().slot_of(id).component == old(self).arena().slot_of(
                    id,
                ).component);
            }
        }
        let result = self.consumable_result(consumed);
        proof {
            assert forall|id: BehaviorId|
                #![trigger old(self).arena().slot_of(id)]
                undisturbed(old(self).arena(), aud, id) implies self.arena().live(id)
                && self.arena().slot_of(id) == old(self).arena().slot_of(id) by {
                assert(mid.arena().live(id) && !mid.arena().slot_of(id).agent.changed()
                    && !component_removed(mid.arena(), mid.arena().slot_of(id).component));
            }
        }
        (result, trace)
    }

    /// Delivers a mouse click to this layer: with a known mouse position
    /// region listeners are told whether the click fell inside or outside
    /// their region; with no known position everyone is told it fell
    /// outside.  Clicks are never consumed.  Behaviors outside the click's
    /// audience with quiet agents and quiet components keep their slots
    /// untouched.
    pub fn on_mouse_click(&mut self, click: ClickInfo) -> (r: (
        EventResult<B>,
        Ghost<Seq<ClickStep>>,
    ))
        requires
            old(self).wf(),
        ensures
            final(self).wf(),
            final(self).mouse_position() == old(self).mouse_position(),
            old(self).mouse_position() matches Some(pos) ==> r.1@ == area_click_steps(
                old(self).mouse_manager().area_click(),
                old(self).arena(),
                pos,
            ) + anywhere_click_steps(old(self).mouse_manager().full_click(), old(self).arena()),
            old(self).mouse_position() is None ==> r.1@ == outside_click_steps(
                old(self).mouse_manager().area_click(),
                old(self).arena(),
            ) + anywhere_click_steps(old(self).mouse_manager().full_click(), old(self).arena()),
            forall|id: BehaviorId|
                #![trigger old(self).arena().slot_of(id)]
                undisturbed(
                    old(self).arena(),
                    region_listener_ids(
                        prune_region_list(
                            old(self).mouse_manager().area_click(),
                            old(self).arena(),
                        ),
                    ) + prune_id_list(old(self).mouse_manager().full_click(), old(self).arena()),
                    id,
                ) ==> final(self).arena().live(id) && final(self).arena().slot_of(id) == old(
                    self,
                ).arena().slot_of(id),
            forall|id: BehaviorId|
                #![trigger old(self).arena().slot_of(id)]
                old(self).arena().live(id) && (exists|id2: BehaviorId|
                    old(self).arena().live(id2) && !(region_listener_ids(
                        prune_region_list(
                            old(self).mouse_manager().area_click(),
                            old(self).arena(),
                        ),
                    ) + prune_id_list(
                        old(self).mouse_manager().full_click(),
                        old(self).arena(),
                    )).contains(id2) && (#[trigger] old(self).arena().slot_of(id2)).component
                        == old(self).arena().slot_of(id).component && old(self).arena().slot_of(
                        id2,
                    ).agent.changed() && old(self).arena().slot_of(id2).agent.removal_requested())
                    ==> !final(self).arena().live(id),
    {
        let ghost aud = region_listener_ids(
            prune_region_list(old(self).mouse_manager().area_click(), old(self).arena()),
        ) + prune_id_list(old(self).mouse_manager().full_click(), old(self).arena());
        let mouse_pos = self.mouse_pos;
        let trace = match mouse_pos {
            Some(pos) => self.mouse_manager.fire_mouse_click(&mut self.arena, pos, click),
            None => self.mouse_manager.fire_mouse_click_outside(&mut self.arena, click),
        };
        let ghost mid = *self;
        proof {
            assert forall|id: BehaviorId|
                #![trigger old(self).arena().slot_of(id)]
                undisturbed(old(self).arena(), aud, id) implies {
                &&& mid.arena().live(id)
                &&& mid.arena().slot_of(id) == old(self).arena().slot_of(id)
                &&& !mid.arena().slot_of(id).agent.changed()
                &&& !component_removed(mid.arena(), mid.arena().slot_of(id).component)
            } by {
                assert(!region_listener_ids(
                    prune_region_list(old(self).mouse_manager().area_click(), old(self).arena()),
                ).contains(id) && !prune_id_list(
                    old(self).mouse_manager().full_click(),
                    old(self).arena(),
                ).contains(id)) by {
                    if region_listener_ids(
                        prune_region_list(
                            old(self).mouse_manager().area_click(),
                            old(self).arena(),
                        ),
                    ).contains(id) {
                        let m = choose|m: int|
                            0 <= m < region_listener_ids(
                                prune_region_list(
                                    old(self).mouse_manager().area_click(),
                                    old(self).arena(),
                                ),
                            ).len() && region_listener_ids(
                                prune_region_list(
                                    old(self).mouse_manager().area_click(),
                                    old(self).arena(),
                                ),
                            )[m] == id;
                        assert(aud[m] == id);
                    }
                    if prune_id_list(
                        old(self).mouse_manager().full_click(),
                        old(self).arena(),
                    ).contains(id) {
                        let m = choose|m: int|
                            0 <= m < prune_id_list(
                                old(self).mouse_manager().full_click(),
                                old(self).arena(),
                            ).len() && prune_id_list(
                                old(self).mouse_manager().full_click(),
                                old(self).arena(),
                            )[m] == id;
                        assert(aud[region_listener_ids(
                            prune_region_list(
                                old(self).mouse_manager().area_click(),
                                old(self).arena(),
                            ),
                        ).len() + m] == id);
                    }
                }
                assert(mid.arena().slot_of(id) == old(self).arena().slot_of(id));
                assert forall|id2: BehaviorId|
                    mid.arena().live(id2) && (#[trigger] mid.arena().slot_of(id2)).component
                        == mid.arena().slot_of(id).component && mid.arena().slot_of(
                        id2,
                    ).agent.changed() && mid.arena().slot_of(id2).agent.removal_requested()
                        implies false by {
                    assert(mid.arena().slot_of(id2).component == old(self).arena().slot_of(
                        id2,
                    ).component);
                    if !aud.contains(id2) {
                        assert(!region_listener_ids(
                            prune_region_list(
                                old(self).mouse_manager().area_click(),
                                old(self).arena(),
                            ),
                        ).contains(id2) && !prune_id_list(
                            old(self).mouse_manager().full_click(),
                            old(self).arena(),
                        ).contains(id2)) by {
                            if region_listener_ids(
                                prune_region_list(
                                    old(self).mouse_manager().area_click(),
                                    old(self).arena(),
                                ),
                            ).contains(id2) {
                                let m = choose|m: int|
                                    0 <= m < region_listener_ids(
                                        prune_region_list(
                                            old(self).mouse_manager().area_click(),
                                            old(self).arena(),
                                        ),
                                    ).len() && region_listener_ids(
                                        prune_region_list(
                                            old(self).mouse_manager().area_click(),
                                            old(self).arena(),
                                        ),
                                    )[m] == id2;
                                assert(aud[m] == id2);
                            }
                            if prune_id_list(
                                old(self).mouse_manager().full_click(),
                                old(self).arena(),
                            ).contains(id2) {
                                let m = choose|m: int|
                                    0 <= m < prune_id_list(
                                        old(self).mouse_manager().full_click(),
                                        old(self).arena(),
                                    ).len() && prune_id_list(
                                        old(self).mouse_manager().full_click(),
                                        old(self).arena(),
                                    )[m] == id2;
                                assert(aud[region_listener_ids(
                                    prune_region_list(
                                        old(self).mouse_manager().area_click(),
                                        old(self).arena(),
                                    ),
                                ).len() + m] == id2);
                            }
                        }
                        assert(mid.arena().slot_of(id2) == old(self).arena().slot_of(id2));
                    }
                }
            }
        }
        let r = self.check_agents();
        proof {
            assert forall|id: BehaviorId|
                #![trigger old(self).arena().slot_of(id)]
                undisturbed(old(self).arena(), aud, id) implies self.arena().live(id)
                && self.arena().slot_of(id) == old(self).arena().slot_of(id) by {
                assert(mid.arena().live(id) && !mid.arena().slot_of(id).agent.changed()
                    && !component_removed(mid.arena(), mid.arena().slot_of(id).component));
            }
            assert forall|id: BehaviorId|
                #![trigger old(self).arena().slot_of(id)]
                old(self).arena().live(id) && (exists|id2: BehaviorId|
                    old(self).arena().live(id2) && !aud.contains(id2) && (#[trigger] old(
                        self,
                    ).arena().slot_of(id2)).component == old(self).arena().slot_of(id).component
                        && old(self).arena().slot_of(id2).agent.changed() && old(
                        self,
                    ).arena().slot_of(id2).agent.removal_requested()) implies !self.arena().live(
                id,
            ) by {
                let id2 = choose|id2: BehaviorId|
                    old(self).arena().live(id2) && !aud.contains(id2) && (#[trigger] old(
                        self,
                    ).arena().slot_of(id2)).component == old(self).arena().slot_of(id).component
                        && old(self).arena().slot_of(id2).agent.changed() && old(
                        self,
                    ).arena().slot_of(id2).agent.removal_requested();
                assert(!region_listener_ids(
                    prune_region_list(old(self).mouse_manager().area_click(), old(self).arena()),
                ).contains(id2) && !prune_id_list(
                    old(self).mouse_manager().full_click(),
                    old(self).arena(),
                ).contains(id2)) by {
                    if region_listener_ids(
                        prune_region_list(
                            old(self).mouse_manager().area_click(),
                            old(self).arena(),
                        ),
                    ).contains(id2) {
                        let m = choose|m: int|
                            0 <= m < region_listener_ids(
                                prune_region_list(
                                    old(self).mouse_manager().area_click(),
                                    old(self).arena(),
                                ),
                            ).len() && region_listener_ids(
                                prune_region_list(
                                    old(self).mouse_manager().area_click(),
                                    old(self).arena(),
                                ),
                            )[m] == id2;
                        assert(aud[m] == id2);
                    }
                    if prune_id_list(
                        old(self).mouse_manager().full_click(),
                        old(self).arena(),
                    ).contains(id2) {
                        let m = choose|m: int|
                            0 <= m < prune_id_list(
                                old(self).mouse_manager().full_click(),
                                old(self).arena(),
                            ).len() && prune_id_list(
                                old(self).mouse_manager().full_click(),
                                old(self).arena(),
                            )[m] == id2;
                        assert(aud[region_listener_ids(
                            prune_region_list(
                                old(self).mouse_manager().area_click(),
                                old(self).arena(),
                            ),
                        ).len() + m] == id2);
                    }
                }
                assert(mid.arena().slot_of(id2) == old(self).arena().slot_of(id2));
                assert(mid.arena().slot_of(id).component == old(self).arena().slot_of(
                    id,
                ).component);
                assert(component_removed(mid.arena(), mid.arena().slot_of(id).component));
            }
        }
        (r, trace)
    }

    /// Delivers a mouse move: move listeners and render triggers are
    /// re-evaluated against the transition, the layer's known mouse
    /// position is updated, and the move counts as consumed when the new
    /// position lies over something this layer drew last frame.
    pub fn on_mouse_move(&mut self, next_mouse_pos: Option<(i32, i32)>) -> (r: (
        ConsumableEventResult<B>,
        Ghost<Seq<BehaviorId>>,
    ))
        requires
            old(self).wf(),
        ensures
            final(self).wf(),
            final(self).mouse_position() == next_mouse_pos,
            r.1@ == in_out_candidates(
                old(self).mouse_manager().in_out_move(),
                old(self).arena(),
                old(self).mouse_position(),
                next_mouse_pos,
            ) + area_move_candidates(
                old(self).mouse_manager().area_move(),
                old(self).arena(),
                old(self).mouse_position(),
                next_mouse_pos,
            ) + prune_id_list(old(self).mouse_manager().full_move(), old(self).arena()),
            r.0.consumed() == ((exists|k: int|
                0 <= k < old(self).last_rendered().len() && (#[trigger] old(
                    self,
                ).last_rendered()[k]).region.contains_opt(next_mouse_pos))
                || r.0.container_request() is Some),
    {
        let prev_mouse_pos = self.mouse_pos;
        let trace = self.mouse_manager.fire_mouse_move(
            &mut self.arena,
            prev_mouse_pos,
            next_mouse_pos,
        );
        self.render_manager.on_mouse_move(&mut self.arena, prev_mouse_pos, next_mouse_pos);
        self.mouse_pos = next_mouse_pos;
        let mut move_result = false;
        let mut k: usize = 0;
        while k < self.last_render_actions.len()
            invariant
                k <= self.last_rendered().len(),
                self.last_rendered() == old(self).last_rendered(),
                move_result == exists|m: int|
                    0 <= m < k && (#[trigger] self.last_rendered()[m]).region.contains_opt(
                        next_mouse_pos,
                    ),
            decreases self.last_rendered().len() - k,
        {
            if self.last_render_actions[k].region.is_inside_opt(next_mouse_pos) {
                move_result = true;
            }
            k = k + 1;
        }
        let result = self.consumable_result(move_result);
        (result, trace)
    }

    /// Delivers a frame tick to the update listeners and applies the
    /// deferred effects it caused.  Behaviors outside the tick's audience
    /// with quiet agents and quiet components keep their slots untouched.
    pub fn on_update(&mut self) -> (r: (EventResult<B>, Ghost<Seq<BehaviorId>>))
        requires
            old(self).wf(),
        ensures
            final(self).wf(),
            final(self).mouse_position() == old(self).mouse_position(),
            r.1@ == prune_id_list(old(self).update_manager().listeners(), old(self).arena()),
            forall|id: BehaviorId|
                #![trigger old(self).arena().slot_of(id)]
                undisturbed(
                    old(self).arena(),
                    prune_id_list(old(self).update_manager().listeners(), old(self).arena()),
                    id,
                ) ==> final(self).arena().live(id) && final(self).arena().slot_of(id) == old(
                    self,
                ).arena().slot_of(id),
            forall|id: BehaviorId|
                #![trigger old(self).arena().slot_of(id)]
                old(self).arena().live(id) && (exists|id2: BehaviorId|
                    old(self).arena().live(id2) && !prune_id_list(
                        old(self).update_manager().listeners(),
                        old(self).arena(),
                    ).contains(id2) && (#[trigger] old(self).arena().slot_of(id2)).component
                        == old(self).arena().slot_of(id).component && old(self).arena().slot_of(
                        id2,
                    ).agent.changed() && old(self).arena().slot_of(id2).agent.removal_requested())
                    ==> !final(self).arena().live(id),
    {
        let trace = self.update_manager.fire_update(&mut self.arena);
        let ghost mid = *self;
        proof {
            let aud = prune_id_list(old(self).update_manager().listeners(), old(self).arena());
            assert forall|id: BehaviorId|
                #![trigger old(self).arena().slot_of(id)]
                undisturbed(old(self).arena(), aud, id) implies {
                &&& mid.arena().live(id)
                &&& mid.arena().slot_of(id) == old(self).arena().slot_of(id)
                &&& !mid.arena().slot_of(id).agent.changed()
                &&& !component_removed(mid.arena(), mid.arena().slot_of(id).component)
            } by {
                assert(mid.arena().slot_of(id) == old(self).arena().slot_of(id));
                assert forall|id2: BehaviorId|
                    mid.arena().live(id2) && (#[trigger] mid.arena().slot_of(id2)).component
                        == mid.arena().slot_of(id).component && mid.arena().slot_of(
                        id2,
                    ).agent.changed() && mid.arena().slot_of(id2).agent.removal_requested()
                        implies false by {
                    assert(mid.arena().slot_of(id2).component == old(self).arena().slot_of(
                        id2,
                    ).component);
                    if !aud.contains(id2) {
                        assert(mid.arena().slot_of(id2) == old(self).arena().slot_of(id2));
                    }
                }
            }
        }
        let r = self.check_agents();
        proof {
            let aud = prune_id_list(old(self).update_manager().listeners(), old(self).arena());
            assert forall|id: BehaviorId|
                #![trigger old(self).arena().slot_of(id)]
                undisturbed(old(self).arena(), aud, id) implies self.arena().live(id)
                && self.arena().slot_of(id) == old(self).arena().slot_of(id) by {
                assert(mid.arena().live(id) && !mid.arena().slot_of(id).agent.changed()
                    && !component_removed(mid.arena(), mid.arena().slot_of(id).component));
            }
            assert forall|id: BehaviorId|
                #![trigger old(self).arena().slot_of(id)]
                old(self).arena().live(id) && (exists|id2: BehaviorId|
                    old(self).arena().live(id2) && !aud.contains(id2) && (#[trigger] old(
                        self,
                    ).arena().slot_of(id2)).component == old(self).arena().slot_of(id).component
                        && old(self).arena().slot_of(id2).agent.changed() && old(
                        self,
                    ).arena().slot_of(id2).agent.removal_requested()) implies !self.arena().live(
                id,
            ) by {
                let id2 = choose|id2: BehaviorId|
                    old(self).arena().live(id2) && !aud.contains(id2) && (#[trigger] old(
                        self,
                    ).arena().slot_of(id2)).component == old(self).arena().slot_of(id).component
                        && old(self).arena().slot_of(id2).agent.changed() && old(
                        self,
                    ).arena().slot_of(id2).agent.removal_requested();
                assert(mid.arena().slot_of(id2) == old(self).arena().slot_of(id2));
                assert(mid.arena().slot_of(id).component == old(self).arena().slot_of(
                    id,
                ).component);
                assert(component_removed(mid.arena(), mid.arena().slot_of(id).component));
            }
        }
        (r, trace)
    }

    /// Asks the copy listeners for clipboard data; first offer wins.
    pub fn on_copy(&mut self) -> (r: (
        Option<ClipboardData>,
        Ghost<Seq<DispatchStep>>,
        Ghost<Seq<Option<ClipboardData>>>,
    ))
        requires
            old(self).wf(),
        ensures
            final(self).wf(),
            consuming_scan(
                global_candidates(old(self).clipboard_manager().copy_list(), old(self).arena()),
                r.1@,
                r.0 is Some,
            ),
            r.2@.len() == r.1@.len(),
            forall|t: int| 0 <= t < r.1@.len() ==> ((#[trigger] r.2@[t]) is Some) == r.1@[t].consumed,
            r.0 == (if scan_consumed(r.1@) {
                r.2@.last()
            } else {
                None::<ClipboardData>
            }),
    {
        self.clipboard_manager.fire_copy_event(&mut self.arena)
    }

    /// Offers pasted data to the paste listeners; first consumer wins.
    pub fn on_paste(&mut self, clipboard: &ClipboardData) -> (r: (bool, Ghost<Seq<DispatchStep>>))
        requires
            old(self).wf(),
        ensures
            final(self).wf(),
            consuming_scan(
                global_candidates(old(self).clipboard_manager().paste_list(), old(self).arena()),
                r.1@,
                r.0,
            ),
    {
        self.clipboard_manager.fire_paste_event(&mut self.arena, clipboard)
    }

    /// Asks the cut listeners for clipboard data; first offer wins.
    pub fn on_cut(&mut self) -> (r: (
        Option<ClipboardData>,
        Ghost<Seq<DispatchStep>>,
        Ghost<Seq<Option<ClipboardData>>>,
    ))
        requires
            old(self).wf(),
        ensures
            final(self).wf(),
            consuming_scan(
                global_candidates(old(self).clipboard_manager().cut_list(), old(self).arena()),
                r.1@,
                r.0 is Some,
            ),
            r.2@.len() == r.1@.len(),
            forall|t: int| 0 <= t < r.1@.len() ==> ((#[trigger] r.2@[t]) is Some) == r.1@[t].consumed,
            r.0 == (if scan_consumed(r.1@) {
                r.2@.last()
            } else {
                None::<ClipboardData>
            }),
    {
        self.clipboard_manager.fire_cut_event(&mut self.arena)
    }

    /// Predicts which regions the next render pass would redraw, without
    /// drawing anything.
    pub fn predict_render(&mut self) -> (r: Vec<PlannedRenderAction>)
        requires
            old(self).wf(),
        ensures
            final(self).wf(),
            final(self).mouse_position() == old(self).mouse_position(),
            final(self).arena() == old(self).arena(),
            r@ == old(self).render_manager().background_actions() + predicted_actions(
                old(self).render_manager().entries_seq(),
                old(self).arena(),
            ),
    {
        self.render_manager.predict_render(&self.arena)
    }

    /// Forces every claim overlapping the given regions to redraw next
    /// pass, reporting the newly caused redraws; claims already dirty
    /// cause nothing, which makes repeating a force yield nothing new.
    pub fn force_partial_render(&mut self, regions: &Vec<Region>) -> (r: Vec<PlannedRenderAction>)
        requires
            old(self).wf(),
        ensures
            final(self).wf(),
            final(self).mouse_position() == old(self).mouse_position(),
            r@ == force_actions(
                old(self).render_manager().entries_seq(),
                old(self).arena(),
                regions@,
            ),
            old(self).arena().clean_count() - final(self).arena().clean_count() >= r@.len(),
            final(self).arena().clean_count() <= old(self).arena().clean_count(),
            final(self).arena().slots_len() == old(self).arena().slots_len(),
            forall|id: BehaviorId| final(self).arena().live(id) == old(self).arena().live(id),
            partial_forced(*old(self), *final(self), regions@),
    {
        let r = self.render_manager.force_partial_render(&mut self.arena, regions);
        proof {
            let pre = *old(self);
            let post = *self;
            assert forall|id: BehaviorId|
                #![trigger pre.arena().slot_of(id)]
                pre.arena().live(id) implies partial_forced_agent(pre, post, regions@, id) by {
                assert(old(self).arena().live(id));
                assert(old(self).arena().slot_of(id) == pre.arena().slot_of(id));
            }
            assert(partial_forced(pre, post, regions@));
        }
        r
    }

    /// Performs the layer's render pass and remembers what was drawn, so
    /// later mouse moves can hit-test against it.  Asking for a container
    /// switch during a render pass is a programming error — switches are
    /// legal only during input and update events — so such a request is
    /// not applied but surfaced to the caller, for the host to abort on.
    pub fn on_render(&mut self, target: &mut B::DrawTarget) -> (r: (RenderResult, EventResult<B>))
        requires
            old(self).wf(),
        ensures
            final(self).wf(),
            final(self).mouse_position() == old(self).mouse_position(),
            old(self).render_manager().background() is Some ==> final(self).last_rendered()
                == seq![(PassedRenderAction { region: spec_entire_viewport() })],
            final(self).render_manager().background() == old(self).render_manager().background(),
            final(self).render_manager().background_pending() == (old(
                self,
            ).render_manager().background_pending() && !(old(self).render_manager().background()
                is Some)),
    {
        let mouse_pos = self.mouse_pos;
        let (render_result, passed) = self.render_manager.render(
            &mut self.arena,
            target,
            mouse_pos,
        );
        self.last_render_actions = passed;
        let container_request = self.check_agents();
        (render_result, container_request)
    }

    /// Schedules a full repaint: every behavior and the background render
    /// on the next pass.
    pub fn force_render(&mut self)
        requires
            old(self).wf(),
        ensures
            final(self).wf(),
            final(self).mouse_position() == old(self).mouse_position(),
            final(self).arena().clean_count() <= old(self).arena().clean_count(),
            fully_forced(*old(self), *final(self)),
    {
        self.render_manager.force_full_render(&mut self.arena);
        proof {
            let pre = *old(self);
            let post = *self;
            assert forall|id: BehaviorId|
                #![trigger pre.arena().slot_of(id)]
                pre.arena().live(id) implies fully_forced_agent(pre, post, id) by {
                assert(old(self).arena().live(id));
                assert(old(self).arena().slot_of(id) == pre.arena().slot_of(id));
            }
            assert(fully_forced(pre, post));
        }
    }
}

} // verus!
