//! The component model: a `Component` is a factory for `ComponentBehavior`s,
//! the independently addressable units of interactive logic that a layer
//! dispatches events to.
//!
//! A behavior that leaves a callback at its default behaves exactly as if it
//! were absent from that event category's dispatch; categories only ever
//! reach behaviors that claimed or registered for them.

use vstd::prelude::*;

use crate::agent::Agent;
use crate::color::Color;
use crate::cursor::Cursor;
use crate::layer::LayerAgent;
use crate::params::ClickInfo;
use crate::params::ClipboardData;
use crate::params::KeyInfo;
use crate::render::PassedRenderAction;

verus! {

/// The draw backend: an opaque handle that render calls pass through to
/// behaviors.  The engine never inspects it; it only clears the background
/// and announces phase transitions.
pub trait RenderBackend {
    /// Fills the whole viewport with `color`.
    fn clear(&mut self, color: &Color);

    /// Announces that rendering switched to the phase with this rank, so
    /// phase-specific batching can start.
    fn begin_phase(&mut self, phase_rank: usize);
}

/// What one behavior reports back from its render callback: the cursor it
/// wants shown while the mouse is over its region, and which sub-regions it
/// actually redrew.
pub struct BehaviorRenderResult {
    cursor: Option<Cursor>,
    actions: Vec<PassedRenderAction>,
}

impl BehaviorRenderResult {
    pub closed spec fn cursor_opt(self) -> Option<Cursor> {
        self.cursor
    }

    pub closed spec fn actions_seq(self) -> Seq<PassedRenderAction> {
        self.actions@
    }

    pub fn with_cursor(cursor: Cursor, actions: Vec<PassedRenderAction>) -> (r:
        BehaviorRenderResult)
        ensures
            r.cursor_opt() == Some(cursor),
            r.actions_seq() == actions@,
    {
        BehaviorRenderResult { cursor: Some(cursor), actions }
    }

    pub fn without_cursor(actions: Vec<PassedRenderAction>) -> (r: BehaviorRenderResult)
        ensures
            r.cursor_opt() is None,
            r.actions_seq() == actions@,
    {
        BehaviorRenderResult { cursor: None, actions }
    }

    pub fn has_cursor(&self) -> (r: bool)
        ensures
            r == (self.cursor_opt() is Some),
    {
        self.cursor.is_some()
    }

    pub fn get_cursor(&self) -> (r: &Option<Cursor>)
        ensures
            *r == self.cursor_opt(),
    {
        &self.cursor
    }

    /// Splits the result into its cursor and its redrawn sub-regions.
    pub fn into_parts(self) -> (r: (Option<Cursor>, Vec<PassedRenderAction>))
        ensures
            r.0 == self.cursor_opt(),
            r.1@ == self.actions_seq(),
    {
        let BehaviorRenderResult { cursor, actions } = self;
        (cursor, actions)
    }
}

/// One interactive unit.  The layer calls `attach` exactly once, right when
/// the behavior is added; during that call the behavior declares all its
/// region and priority claims through the `LayerAgent`.  Afterwards each
/// callback receives the behavior's own `Agent` to request effects through.
///
/// Every callback has a default no-op body, so a behavior implements only
/// the categories it cares about.  A consuming callback returns true to stop
/// the event from reaching listeners of lower precedence.
pub trait ComponentBehavior: Sized {
    /// The concrete draw backend behaviors of this type render to.
    type DrawTarget: RenderBackend;

    /// Declares all of this behavior's claims.  An implementation must
    /// leave the claim interface in a consistent state and must not touch
    /// the background schedule — every claim method of `LayerAgent`
    /// guarantees both on its own, so any sequence of claims satisfies
    /// this contract.
    fn attach(&mut self, agent: &mut LayerAgent)
        requires
            old(agent).wf(),
        ensures
            final(agent).wf(),
            final(agent).render_manager().background() == old(
                agent,
            ).render_manager().background(),
            final(agent).render_manager().background_pending() == old(
                agent,
            ).render_manager().background_pending(),
    ;

    fn key_down(&mut self, agent: &mut Agent<Self>, keys: &KeyInfo) -> bool {
        false
    }

    fn key_up(&mut self, agent: &mut Agent<Self>, keys: &KeyInfo) -> bool {
        false
    }

    fn mouse_click_inside(&mut self, agent: &mut Agent<Self>, mouse_pos: (i32, i32),
        click: ClickInfo) {
    }

    fn mouse_click_outside(&mut self, agent: &mut Agent<Self>, click: ClickInfo) {
    }

    fn mouse_click_anywhere(&mut self, agent: &mut Agent<Self>, click: ClickInfo) {
    }

    fn mouse_move(&mut self, agent: &mut Agent<Self>, old_pos: Option<(i32, i32)>, new_pos: Option<
        (i32, i32),
    >) {
    }

    fn mouse_scroll(&mut self, agent: &mut Agent<Self>, mouse_pos: Option<(i32, i32)>,
        delta: i64) -> bool {
        false
    }

    fn render(&mut self, agent: &mut Agent<Self>, target: &mut Self::DrawTarget)
        -> BehaviorRenderResult {
        BehaviorRenderResult::without_cursor(Vec::new())
    }

    fn get_cursor(&mut self, agent: &mut Agent<Self>) -> Option<Cursor> {
        None
    }

    fn update(&mut self, agent: &mut Agent<Self>) {
    }

    fn on_copy(&mut self, agent: &mut Agent<Self>) -> Option<ClipboardData> {
        None
    }

    fn on_paste(&mut self, agent: &mut Agent<Self>, clipboard: &ClipboardData) -> bool {
        false
    }

    fn on_cut(&mut self, agent: &mut Agent<Self>) -> Option<ClipboardData> {
        None
    }
}

/// An entity-level factory.  Its sole engine-visible contract is to produce
/// the behaviors that make the component interactive.
pub trait Component {
    type Behavior: ComponentBehavior;

    fn create_behaviors(&mut self) -> Vec<Self::Behavior>;
}

} // verus!
