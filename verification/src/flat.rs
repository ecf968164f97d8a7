//! A container holding exactly one layer: a pure passthrough.

use vstd::prelude::*;

use crate::component::ComponentBehavior;
use crate::container::EventResult;
use crate::cursor::Cursor;
use crate::layer::Layer;
use crate::arena::BehaviorId;
use crate::layer::fully_forced;
use crate::listeners::DispatchStep;
use crate::listeners::ClickStep;
use crate::listeners::anywhere_click_steps;
use crate::listeners::area_click_steps;
use crate::listeners::area_move_candidates;
use crate::listeners::consuming_scan;
use crate::listeners::global_candidates;
use crate::listeners::in_out_candidates;
use crate::listeners::outside_click_steps;
use crate::listeners::prune_id_list;
use crate::listeners::region_candidates;
use crate::listeners::scan_consumed;
use crate::render::PassedRenderAction;
use crate::render::spec_entire_viewport;
use crate::params::ClickInfo;
use crate::params::ClipboardData;
use crate::params::KeyInfo;

verus! {

pub struct FlatContainer<B> {
    pub(crate) layer: Layer<B>,
}

impl<B> FlatContainer<B> {
    pub closed spec fn layer(self) -> Layer<B> {
        self.layer
    }

    pub open spec fn wf(self) -> bool {
        self.layer().wf()
    }

    pub fn new(layer: Layer<B>) -> (r: FlatContainer<B>)
        ensures
            r.layer() == layer,
    {
        FlatContainer { layer }
    }

}

impl<B: ComponentBehavior> FlatContainer<B> {
    /// Pure passthrough of a key-down event to the single layer: the
    /// layer's scan trace and container request are returned unchanged.
    pub fn on_key_down(&mut self, keys: &KeyInfo) -> (r: (
        EventResult<B>,
        Ghost<Seq<DispatchStep>>,
    ))
        requires
            old(self).wf(),
        ensures
            final(self).wf(),
            consuming_scan(
                region_candidates(
                    old(self).layer().key_manager().hover_down(),
                    old(self).layer().arena(),
                    old(self).layer().mouse_position(),
                ) + global_candidates(
                    old(self).layer().key_manager().full_down(),
                    old(self).layer().arena(),
                ),
                r.1@,
                scan_consumed(r.1@),
            ),
    {
        let (result, trace) = self.layer.on_key_down(keys);
        (result.as_normal_result(), trace)
    }

    /// Pure passthrough of a key-up event to the single layer: the
    /// layer's scan trace and container request are returned unchanged.
    pub fn on_key_up(&mut self, keys: &KeyInfo) -> (r: (
        EventResult<B>,
        Ghost<Seq<DispatchStep>>,
    ))
        requires
            old(self).wf(),
        ensures
            final(self).wf(),
            consuming_scan(
                region_candidates(
                    old(self).layer().key_manager().hover_up(),
                    old(self).layer().arena(),
                    old(self).layer().mouse_position(),
                ) + global_candidates(
                    old(self).layer().key_manager().full_up(),
                    old(self).layer().arena(),
                ),
                r.1@,
                scan_consumed(r.1@),
            ),
    {
        let (result, trace) = self.layer.on_key_up(keys);
        (result.as_normal_result(), trace)
    }

    /// Pure passthrough of a mouse click to the single layer: the layer's
    /// click trace and container request are returned unchanged.
    pub fn on_mouse_click(&mut self, click: ClickInfo) -> (r: (
        EventResult<B>,
        Ghost<Seq<ClickStep>>,
    ))
        requires
            old(self).wf(),
        ensures
            final(self).wf(),
            old(self).layer().mouse_position() matches Some(pos) ==> r.1@ == area_click_steps(
                old(self).layer().mouse_manager().area_click(),
                old(self).layer().arena(),
                pos,
            ) + anywhere_click_steps(
                old(self).layer().mouse_manager().full_click(),
                old(self).layer().arena(),
            ),
            old(self).layer().mouse_position() is None ==> r.1@ == outside_click_steps(
                old(self).layer().mouse_manager().area_click(),
                old(self).layer().arena(),
            ) + anywhere_click_steps(
                old(self).layer().mouse_manager().full_click(),
                old(self).layer().arena(),
            ),
    {
        self.layer.on_mouse_click(click)
    }

    /// Pure passthrough of a mouse move to the single layer: the layer's
    /// move trace and container request are returned unchanged.
    pub fn on_mouse_move(&mut self, next_mouse_pos: Option<(i32, i32)>) -> (r: (
        EventResult<B>,
        Ghost<Seq<BehaviorId>>,
    ))
        requires
            old(self).wf(),
        ensures
            final(self).wf(),
            final(self).layer().mouse_position() == next_mouse_pos,
            r.1@ == in_out_candidates(
                old(self).layer().mouse_manager().in_out_move(),
                old(self).layer().arena(),
                old(self).layer().mouse_position(),
                next_mouse_pos,
            ) + area_move_candidates(
                old(self).layer().mouse_manager().area_move(),
                old(self).layer().arena(),
                old(self).layer().mouse_position(),
                next_mouse_pos,
            ) + prune_id_list(
                old(self).layer().mouse_manager().full_move(),
                old(self).layer().arena(),
            ),
    {
        let (result, trace) = self.layer.on_mouse_move(next_mouse_pos);
        (result.as_normal_result(), trace)
    }

    /// Pure passthrough of a mouse scroll to the single layer: the
    /// layer's scan trace and container request are returned unchanged.
    pub fn on_mouse_scroll(&mut self, delta: i64) -> (r: (
        EventResult<B>,
        Ghost<Seq<DispatchStep>>,
    ))
        requires
            old(self).wf(),
        ensures
            final(self).wf(),
            consuming_scan(
                region_candidates(
                    old(self).layer().mouse_manager().area_scroll(),
                    old(self).layer().arena(),
                    old(self).layer().mouse_position(),
                ) + global_candidates(
                    old(self).layer().mouse_manager().full_scroll(),
                    old(self).layer().arena(),
                ),
                r.1@,
                scan_consumed(r.1@),
            ),
    {
        let (result, trace) = self.layer.on_mouse_scroll(delta);
        (result.as_normal_result(), trace)
    }

    /// Pure passthrough of a frame tick to the single layer: the layer's
    /// tick trace and container request are returned unchanged.
    pub fn on_update(&mut self) -> (r: (EventResult<B>, Ghost<Seq<BehaviorId>>))
        requires
            old(self).wf(),
        ensures
            final(self).wf(),
            r.1@ == prune_id_list(
                old(self).layer().update_manager().listeners(),
                old(self).layer().arena(),
            ),
    {
        self.layer.on_update()
    }

    /// Pure passthrough of a copy request to the single layer: the
    /// layer's scan trace and offered data are returned unchanged.
    pub fn on_copy(&mut self) -> (r: (
        Option<ClipboardData>,
        Ghost<Seq<DispatchStep>>,
        Ghost<Seq<Option<ClipboardData>>>,
    ))
        requires
            old(self).wf(),
        ensures
            final(self).wf(),
            consuming_scan(
                global_candidates(
                    old(self).layer().clipboard_manager().copy_list(),
                    old(self).layer().arena(),
                ),
                r.1@,
                r.0 is Some,
            ),
            r.2@.len() == r.1@.len(),
            forall|t: int| 0 <= t < r.1@.len() ==> ((#[trigger] r.2@[t]) is Some) == r.1@[t].consumed,
            r.0 == (if scan_consumed(r.1@) {
                r.2@.last()
            } else {
                None::<ClipboardData>
            }),
    {
        self.layer.on_copy()
    }

    /// Pure passthrough of pasted data to the single layer: the layer's
    /// scan trace and consumption answer are returned unchanged.
    pub fn on_paste(&mut self, clipboard: &ClipboardData) -> (r: (bool, Ghost<Seq<DispatchStep>>))
        requires
            old(self).wf(),
        ensures
            final(self).wf(),
            consuming_scan(
                global_candidates(
                    old(self).layer().clipboard_manager().paste_list(),
                    old(self).layer().arena(),
                ),
                r.1@,
                r.0,
            ),
    {
        self.layer.on_paste(clipboard)
    }

    /// Pure passthrough of a cut request to the single layer: the layer's
    /// scan trace and offered data are returned unchanged.
    pub fn on_cut(&mut self) -> (r: (
        Option<ClipboardData>,
        Ghost<Seq<DispatchStep>>,
        Ghost<Seq<Option<ClipboardData>>>,
    ))
        requires
            old(self).wf(),
        ensures
            final(self).wf(),
            consuming_scan(
                global_candidates(
                    old(self).layer().clipboard_manager().cut_list(),
                    old(self).layer().arena(),
                ),
                r.1@,
                r.0 is Some,
            ),
            r.2@.len() == r.1@.len(),
            forall|t: int| 0 <= t < r.1@.len() ==> ((#[trigger] r.2@[t]) is Some) == r.1@[t].consumed,
            r.0 == (if scan_consumed(r.1@) {
                r.2@.last()
            } else {
                None::<ClipboardData>
            }),
    {
        self.layer.on_cut()
    }

    /// Renders the single layer; with no cursor requested, the default
    /// cursor is reported.  A container switch requested during the render
    /// pass is a programming error; it is surfaced, not applied, so the
    /// host can abort.
    pub fn render(&mut self, target: &mut B::DrawTarget) -> (r: (Cursor, EventResult<B>))
        requires
            old(self).wf(),
        ensures
            final(self).wf(),
            old(self).layer().render_manager().background() is Some
                ==> final(self).layer().last_rendered() == seq![
                (PassedRenderAction { region: spec_entire_viewport() }),
            ],
            final(self).layer().render_manager().background() == old(
                self,
            ).layer().render_manager().background(),
            final(self).layer().render_manager().background_pending() == (old(
                self,
            ).layer().render_manager().background_pending() && !(old(
                self,
            ).layer().render_manager().background() is Some)),
    {
        let (result, container_request) = self.layer.on_render(target);
        let cursor = match result.get_cursor() {
            Some(cursor) => cursor,
            None => Cursor::DEFAULT,
        };
        (cursor, container_request)
    }

    /// Schedules a full repaint of the single layer.
    pub fn force_render(&mut self)
        requires
            old(self).wf(),
        ensures
            final(self).wf(),
            fully_forced(old(self).layer(), final(self).layer()),
    {
        self.layer.force_render();
    }
}

} // verus!
