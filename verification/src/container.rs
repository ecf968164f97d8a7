//! The top-level screen abstraction: a container composes one layer (flat)
//! or several stacked layers (layered), and is what the host's event pump
//! drives.  Swapping the active container is itself an effect a behavior
//! requests through its agent; the host applies it between events, never
//! mid-event.

use vstd::prelude::*;

use crate::component::ComponentBehavior;
use crate::cursor::Cursor;
use crate::params::ClickInfo;
use crate::params::ClipboardData;
use crate::params::KeyInfo;
use crate::flat::FlatContainer;
use crate::layered::LayeredContainer;

verus! {

/// What an event leaves behind besides its side effects: the container the
/// host should switch to, if any behavior asked for one.
pub type EventResult<B> = Option<Box<Container<B>>>;

/// The active screen: either a single layer or a back-to-front stack.
pub enum Container<B> {
    Flat(FlatContainer<B>),
    Layered(LayeredContainer<B>),
}

impl<B> Container<B> {
    pub open spec fn wf(self) -> bool {
        match self {
            Container::Flat(f) => f.wf(),
            Container::Layered(l) => l.wf(),
        }
    }
}

impl<B: ComponentBehavior> Container<B> {
    /// Routes a key-down event to the active screen.
    pub fn on_key_down(&mut self, keys: &KeyInfo) -> (r: EventResult<B>)
        requires
            old(self).wf(),
        ensures
            final(self).wf(),
            (*final(self)) is Flat <==> (*old(self)) is Flat,
    {
        match self {
            Container::Flat(f) => f.on_key_down(keys).0,
            Container::Layered(l) => l.on_key_down(keys).0,
        }
    }

    /// Routes a key-up event to the active screen.
    pub fn on_key_up(&mut self, keys: &KeyInfo) -> (r: EventResult<B>)
        requires
            old(self).wf(),
        ensures
            final(self).wf(),
            (*final(self)) is Flat <==> (*old(self)) is Flat,
    {
        match self {
            Container::Flat(f) => f.on_key_up(keys).0,
            Container::Layered(l) => l.on_key_up(keys).0,
        }
    }

    /// Routes a mouse click to the active screen.
    pub fn on_mouse_click(&mut self, click: ClickInfo) -> (r: EventResult<B>)
        requires
            old(self).wf(),
        ensures
            final(self).wf(),
            (*final(self)) is Flat <==> (*old(self)) is Flat,
    {
        match self {
            Container::Flat(f) => f.on_mouse_click(click).0,
            Container::Layered(l) => l.on_mouse_click(click).0,
        }
    }

    /// Routes a mouse move to the active screen.
    pub fn on_mouse_move(&mut self, next_mouse_pos: Option<(i32, i32)>) -> (r: EventResult<B>)
        requires
            old(self).wf(),
        ensures
            final(self).wf(),
            (*final(self)) is Flat <==> (*old(self)) is Flat,
    {
        match self {
            Container::Flat(f) => f.on_mouse_move(next_mouse_pos).0,
            Container::Layered(l) => l.on_mouse_move(next_mouse_pos).0,
        }
    }

    /// Routes a mouse scroll to the active screen.
    pub fn on_mouse_scroll(&mut self, delta: i64) -> (r: EventResult<B>)
        requires
            old(self).wf(),
        ensures
            final(self).wf(),
            (*final(self)) is Flat <==> (*old(self)) is Flat,
    {
        match self {
            Container::Flat(f) => f.on_mouse_scroll(delta).0,
            Container::Layered(l) => l.on_mouse_scroll(delta).0,
        }
    }

    /// Routes a frame tick to the active screen.
    pub fn on_update(&mut self) -> (r: EventResult<B>)
        requires
            old(self).wf(),
        ensures
            final(self).wf(),
            (*final(self)) is Flat <==> (*old(self)) is Flat,
    {
        match self {
            Container::Flat(f) => f.on_update().0,
            Container::Layered(l) => l.on_update().0,
        }
    }

    /// Routes a copy request to the active screen.
    pub fn on_copy(&mut self) -> (r: Option<ClipboardData>)
        requires
            old(self).wf(),
        ensures
            final(self).wf(),
            (*final(self)) is Flat <==> (*old(self)) is Flat,
    {
        match self {
            Container::Flat(f) => f.on_copy().0,
            Container::Layered(l) => l.on_copy().0,
        }
    }

    /// Routes pasted data to the active screen.
    pub fn on_paste(&mut self, clipboard: &ClipboardData) -> (r: bool)
        requires
            old(self).wf(),
        ensures
            final(self).wf(),
            (*final(self)) is Flat <==> (*old(self)) is Flat,
    {
        match self {
            Container::Flat(f) => f.on_paste(clipboard).0,
            Container::Layered(l) => l.on_paste(clipboard).0,
        }
    }

    /// Routes a cut request to the active screen.
    pub fn on_cut(&mut self) -> (r: Option<ClipboardData>)
        requires
            old(self).wf(),
        ensures
            final(self).wf(),
            (*final(self)) is Flat <==> (*old(self)) is Flat,
    {
        match self {
            Container::Flat(f) => f.on_cut().0,
            Container::Layered(l) => l.on_cut().0,
        }
    }

    /// Renders the active screen and reports the cursor to show.  A
    /// container switch requested during the render pass is a programming
    /// error; it is surfaced, not applied, so the host can abort.
    pub fn render(&mut self, target: &mut B::DrawTarget) -> (r: (Cursor, EventResult<B>))
        requires
            old(self).wf(),
        ensures
            final(self).wf(),
            (*final(self)) is Flat <==> (*old(self)) is Flat,
    {
        match self {
            Container::Flat(f) => f.render(target),
            Container::Layered(l) => {
                let (cursor, request, _) = l.render(target);
                (cursor, request)
            },
        }
    }

    /// Schedules a full repaint of the active screen.
    pub fn force_render(&mut self)
        requires
            old(self).wf(),
        ensures
            final(self).wf(),
            (*final(self)) is Flat <==> (*old(self)) is Flat,
    {
        match self {
            Container::Flat(f) => f.force_render(),
            Container::Layered(l) => l.force_render(),
        }
    }
}

/// The outcome of a consumable event at one layer: whether the event was
/// consumed, and whether a container change was requested.
pub struct ConsumableEventResult<B> {
    result: EventResult<B>,
    consumed: bool,
}

impl<B> ConsumableEventResult<B> {
    pub closed spec fn container_request(self) -> Option<Box<Container<B>>> {
        self.result
    }

    pub closed spec fn consumed(self) -> bool {
        self.consumed
    }

    /// A container change counts as consumption.
    pub fn change_container(new_container: Box<Container<B>>) -> (r: Self)
        ensures
            r.container_request() == Some(new_container),
            r.consumed(),
    {
        ConsumableEventResult { result: Some(new_container), consumed: true }
    }

    pub fn dont_consume() -> (r: Self)
        ensures
            r.container_request() is None,
            !r.consumed(),
    {
        Self::consume(false)
    }

    pub fn do_consume() -> (r: Self)
        ensures
            r.container_request() is None,
            r.consumed(),
    {
        Self::consume(true)
    }

    pub fn consume(consumed: bool) -> (r: Self)
        ensures
            r.container_request() is None,
            r.consumed() == consumed,
    {
        ConsumableEventResult { result: None, consumed }
    }

    pub fn requested_container_change(&self) -> (r: bool)
        ensures
            r == (self.container_request() is Some),
    {
        self.result.is_some()
    }

    pub fn is_consumed(&self) -> (r: bool)
        ensures
            r == self.consumed(),
    {
        self.consumed
    }

    /// Hands out the requested container.  Only to be used after
    /// `requested_container_change` returned true.
    pub fn get_next_container(self) -> (r: Box<Container<B>>)
        requires
            self.container_request() is Some,
        ensures
            Some(r) == self.container_request(),
    {
        match self.result {
            Some(c) => c,
            None => {
                proof {
                    assert(false);
                }
                vstd::pervasive::unreached()
            },
        }
    }

    /// Drops the consumption flag, keeping only the container request.
    pub fn as_normal_result(self) -> (r: EventResult<B>)
        ensures
            r == self.container_request(),
    {
        self.result
    }
}

} // verus!
