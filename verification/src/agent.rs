//! The per-behavior mutable channel through which a behavior requests
//! effects (re-render, removal, spawning components, a container switch)
//! and through which the owning layer observes what accumulated during an
//! event.
//!
//! Exactly one agent exists per behavior; they are created together and the
//! layer owns both.  All lifecycle effects recorded here are deferred: the
//! layer applies them only after the current event has finished propagating,
//! so iteration over listener lists is never invalidated mid-dispatch.

use vstd::prelude::*;

use crate::container::Container;

verus! {

pub struct Agent<B> {
    requested_render: bool,
    requested_removal: bool,
    components_to_add: Vec<Vec<B>>,
    new_container: Option<Box<Container<B>>>,
    has_changes: bool,
}

impl<B> Agent<B> {
    /// Whether a re-render of this behavior is pending.
    pub closed spec fn render_requested(self) -> bool {
        self.requested_render
    }

    /// Whether this behavior asked for its component to be removed.
    pub closed spec fn removal_requested(self) -> bool {
        self.requested_removal
    }

    /// The behavior lists of components waiting to be added.
    pub closed spec fn pending(self) -> Seq<Vec<B>> {
        self.components_to_add@
    }

    /// The container this behavior asked to switch to, if any.
    pub closed spec fn container_request(self) -> Option<Box<Container<B>>> {
        self.new_container
    }

    /// The dirty flag: set by every effect request except `request_render`,
    /// so the layer can skip agents with nothing pending.
    pub closed spec fn changed(self) -> bool {
        self.has_changes
    }

    /// A fresh agent.  Every behavior renders its first frame, so the render
    /// request starts out set.
    pub fn new() -> (r: Self)
        ensures
            r.render_requested(),
            !r.removal_requested(),
            r.pending() == Seq::<Vec<B>>::empty(),
            r.container_request() is None,
            !r.changed(),
    {
        Agent {
            requested_render: true,
            requested_removal: false,
            components_to_add: Vec::new(),
            new_container: None,
            has_changes: false,
        }
    }

    /// Requests a re-render of this behavior next frame.  Idempotent.
    pub fn request_render(&mut self)
        ensures
            final(self).render_requested(),
            final(self).removal_requested() == old(self).removal_requested(),
            final(self).pending() == old(self).pending(),
            final(self).container_request() == old(self).container_request(),
            final(self).changed() == old(self).changed(),
    {
        self.requested_render = true;
    }

    /// Asks for this behavior's component to be removed as soon as the
    /// current event is over.
    pub fn remove_this_component(&mut self)
        ensures
            final(self).removal_requested(),
            final(self).changed(),
            final(self).render_requested() == old(self).render_requested(),
            final(self).pending() == old(self).pending(),
            final(self).container_request() == old(self).container_request(),
    {
        self.requested_removal = true;
        self.has_changes = true;
    }

    /// Reserved for removing other components; currently only marks the
    /// agent as changed.
    pub fn remove_other_component(&mut self)
        ensures
            final(self).changed(),
            final(self).render_requested() == old(self).render_requested(),
            final(self).removal_requested() == old(self).removal_requested(),
            final(self).pending() == old(self).pending(),
            final(self).container_request() == old(self).container_request(),
    {
        self.has_changes = true;
    }

    /// Queues the behaviors of a new component, to be attached after the
    /// current event is over.
    pub fn add_component(&mut self, behaviors: Vec<B>)
        ensures
            final(self).pending() == old(self).pending().push(behaviors),
            final(self).changed(),
            final(self).render_requested() == old(self).render_requested(),
            final(self).removal_requested() == old(self).removal_requested(),
            final(self).container_request() == old(self).container_request(),
    {
        self.components_to_add.push(behaviors);
        self.has_changes = true;
    }

    /// Asks to swap the active container.  A behavior that asks twice in one
    /// event keeps only its latest request.
    pub fn change_container(&mut self, new_container: Box<Container<B>>)
        ensures
            final(self).container_request() == Some(new_container),
            final(self).changed(),
            final(self).render_requested() == old(self).render_requested(),
            final(self).removal_requested() == old(self).removal_requested(),
            final(self).pending() == old(self).pending(),
    {
        self.new_container = Some(new_container);
        self.has_changes = true;
    }

    pub fn did_request_render(&self) -> (r: bool)
        ensures
            r == self.render_requested(),
    {
        self.requested_render
    }

    pub fn did_request_removal(&self) -> (r: bool)
        ensures
            r == self.removal_requested(),
    {
        self.requested_removal
    }

    /// Drains the queue of components waiting to be added.
    pub fn get_components_to_add(&mut self) -> (r: Vec<Vec<B>>)
        ensures
            r@ == old(self).pending(),
            final(self).pending() == Seq::<Vec<B>>::empty(),
            final(self).render_requested() == old(self).render_requested(),
            final(self).removal_requested() == old(self).removal_requested(),
            final(self).container_request() == old(self).container_request(),
            final(self).changed() == old(self).changed(),
    {
        let mut drained: Vec<Vec<B>> = Vec::new();
        core::mem::swap(&mut self.components_to_add, &mut drained);
        drained
    }

    pub fn requested_container_change(&self) -> (r: bool)
        ensures
            r == (self.container_request() is Some),
    {
        self.new_container.is_some()
    }

    /// Hands out the requested container and clears the request.  Must only
    /// be called after `requested_container_change` returned true.
    pub fn get_new_container(&mut self) -> (r: Box<Container<B>>)
        requires
            old(self).container_request() is Some,
        ensures
            Some(r) == old(self).container_request(),
            final(self).container_request() is None,
            final(self).render_requested() == old(self).render_requested(),
            final(self).removal_requested() == old(self).removal_requested(),
            final(self).pending() == old(self).pending(),
            final(self).changed() == old(self).changed(),
    {
        let mut taken: Option<Box<Container<B>>> = None;
        core::mem::swap(&mut self.new_container, &mut taken);
        match taken {
            Some(c) => c,
            None => {
                proof {
                    assert(false);
                }
                unreached()
            },
        }
    }

    /// Clears the render request, right before the behavior is rendered.
    pub(crate) fn set_rendering(&mut self)
        ensures
            !final(self).render_requested(),
            final(self).removal_requested() == old(self).removal_requested(),
            final(self).pending() == old(self).pending(),
            final(self).container_request() == old(self).container_request(),
            final(self).changed() == old(self).changed(),
    {
        self.requested_render = false;
    }

    /// Clears the dirty flag once the layer has drained the agent.
    pub(crate) fn clear_changes(&mut self)
        ensures
            !final(self).changed(),
            final(self).render_requested() == old(self).render_requested(),
            final(self).removal_requested() == old(self).removal_requested(),
            final(self).pending() == old(self).pending(),
            final(self).container_request() == old(self).container_request(),
    {
        self.has_changes = false;
    }

    /// Whether any effect besides a render request is pending.
    pub(crate) fn has_changes(&self) -> (r: bool)
        ensures
            r == self.changed(),
    {
        self.has_changes
    }
}

} // verus!
