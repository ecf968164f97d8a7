//! A container stacking several layers.
//!
//! The first layer is the background and the last is the front: rendering
//! runs back to front, so later layers draw over earlier ones, while input
//! events are offered front to back, so the frontmost interested layer wins.

use vstd::prelude::*;

use crate::component::ComponentBehavior;
use crate::container::Container;
use crate::container::EventResult;
use crate::layer::Layer;
use crate::layer::fully_forced;
use crate::layer::partial_forced;
use crate::render::force_actions;
use crate::params::ClickInfo;
use crate::params::ClipboardData;
use crate::params::KeyInfo;
use crate::region::Region;
use crate::render::PlannedRenderAction;
use crate::render::RenderOpacity;
use crate::cursor::Cursor;

verus! {

pub struct LayeredContainer<B> {
    pub(crate) layers: Vec<Layer<B>>,
}

impl<B> LayeredContainer<B> {
    pub closed spec fn layers(self) -> Seq<Layer<B>> {
        self.layers@
    }

    pub open spec fn wf(self) -> bool {
        forall|i: int| 0 <= i < self.layers().len() ==> (#[trigger] self.layers()[i]).wf()
    }

    pub fn new(layers: Vec<Layer<B>>) -> (r: LayeredContainer<B>)
        ensures
            r.layers() == layers@,
    {
        LayeredContainer { layers }
    }

}

/// The shape of a consumable front-to-back layer scan over `n` layers,
/// recorded as one step per offered layer: the layer's index, whether it
/// consumed the event, and the container change it requested.  Layers are
/// offered the event from the front (highest index) backward; no layer is
/// offered the event after one consumed it or requested a container; a
/// requested container wins outright and is the scan's result; and the
/// scan stops early only because of a consumption or a request.
pub open spec fn front_scan<B>(
    n: int,
    trace: Seq<(int, bool, Option<Box<Container<B>>>)>,
    r: Option<Box<Container<B>>>,
) -> bool {
    &&& trace.len() <= n
    &&& forall|t: int| 0 <= t < trace.len() ==> (#[trigger] trace[t]).0 == n - 1 - t
    &&& forall|t: int| 0 <= t < trace.len() - 1 ==> !(#[trigger] trace[t]).1 && trace[t].2 is None
    &&& (trace.len() < n ==> trace.len() > 0 && (trace.last().1 || trace.last().2 is Some))
    &&& r == (if trace.len() > 0 {
        trace.last().2
    } else {
        None
    })
}

/// A full back-to-front sweep over `n` layers: every layer is visited
/// exactly once, in stacking order from the back, and the result is the
/// frontmost container request (the last one met).
pub open spec fn back_sweep<B>(
    n: int,
    trace: Seq<(int, Option<Box<Container<B>>>)>,
    r: Option<Box<Container<B>>>,
) -> bool {
    &&& trace.len() == n
    &&& forall|t: int| 0 <= t < n ==> (#[trigger] trace[t]).0 == t
    &&& (r is Some ==> exists|t: int|
        0 <= t < n && (#[trigger] trace[t]).1 == r && forall|t2: int|
            t < t2 < n ==> (#[trigger] trace[t2]).1 is None)
    &&& (r is None ==> forall|t: int| 0 <= t < n ==> (#[trigger] trace[t]).1 is None)
}

/// A full front-to-back sweep over `n` layers: every layer is visited
/// exactly once, frontmost first, and the result is the first — hence
/// frontmost — container request met.
pub open spec fn front_sweep<B>(
    n: int,
    trace: Seq<(int, Option<Box<Container<B>>>)>,
    r: Option<Box<Container<B>>>,
) -> bool {
    &&& trace.len() == n
    &&& forall|t: int| 0 <= t < n ==> (#[trigger] trace[t]).0 == n - 1 - t
    &&& (r is Some ==> exists|t: int|
        0 <= t < n && (#[trigger] trace[t]).1 == r && forall|t2: int|
            0 <= t2 < t ==> (#[trigger] trace[t2]).1 is None)
    &&& (r is None ==> forall|t: int| 0 <= t < n ==> (#[trigger] trace[t]).1 is None)
}

impl<B: ComponentBehavior> LayeredContainer<B> {
    /// Offers a key-down event to the layers front to back; the first
    /// layer that requests a container change wins outright, otherwise the
    /// first layer that consumes the event stops the scan.
    pub fn on_key_down(&mut self, keys: &KeyInfo) -> (r: (
        EventResult<B>,
        Ghost<Seq<(int, bool, Option<Box<Container<B>>>)>>,
    ))
        requires
            old(self).wf(),
        ensures
            final(self).wf(),
            final(self).layers().len() == old(self).layers().len(),
            old(self).layers().len() == 0 ==> r.0 is None,
            front_scan(old(self).layers().len() as int, r.1@, r.0),
    {
        let ghost n = self.layers@.len();
        let ghost mut trace: Seq<(int, bool, Option<Box<Container<B>>>)> = Seq::empty();
        let mut i: usize = self.layers.len();
        while i > 0
            invariant
                i <= n,
                self.layers@.len() == n,
                n == old(self).layers().len(),
                self.wf(),
                trace.len() == n - i,
                forall|t: int| 0 <= t < trace.len() ==> (#[trigger] trace[t]).0 == n - 1 - t,
                forall|t: int|
                    0 <= t < trace.len() ==> !(#[trigger] trace[t]).1 && trace[t].2 is None,
            decreases i,
        {
            i = i - 1;
            let ghost pre = self.layers@;
            proof {
                assert(self.layers()[i as int].wf());
            }
            let mut layer = self.layers.remove(i);
            let (result, _) = layer.on_key_down(keys);
            self.layers.insert(i, layer);
            proof {
                assert(self.layers@ =~= pre.update(i as int, self.layers@[i as int]));
                assert forall|k: int| 0 <= k < n implies (#[trigger] self.layers@[k]).wf() by {
                    if k != i {
                        assert(self.layers@[k] == pre[k]);
                    }
                }
                trace = trace.push((i as int, result.consumed(), result.container_request()));
            }
            if result.requested_container_change() {
                return (Some(result.get_next_container()), Ghost(trace));
            }
            if result.is_consumed() {
                return (None, Ghost(trace));
            }
        }
        (None, Ghost(trace))
    }

    /// Offers a key-up event to the layers front to back, with the same
    /// precedence as key-down.
    pub fn on_key_up(&mut self, keys: &KeyInfo) -> (r: (
        EventResult<B>,
        Ghost<Seq<(int, bool, Option<Box<Container<B>>>)>>,
    ))
        requires
            old(self).wf(),
        ensures
            final(self).wf(),
            final(self).layers().len() == old(self).layers().len(),
            old(self).layers().len() == 0 ==> r.0 is None,
            front_scan(old(self).layers().len() as int, r.1@, r.0),
    {
        let ghost n = self.layers@.len();
        let ghost mut trace: Seq<(int, bool, Option<Box<Container<B>>>)> = Seq::empty();
        let mut i: usize = self.layers.len();
        while i > 0
            invariant
                i <= n,
                self.layers@.len() == n,
                n == old(self).layers().len(),
                self.wf(),
                trace.len() == n - i,
                forall|t: int| 0 <= t < trace.len() ==> (#[trigger] trace[t]).0 == n - 1 - t,
                forall|t: int|
                    0 <= t < trace.len() ==> !(#[trigger] trace[t]).1 && trace[t].2 is None,
            decreases i,
        {
            i = i - 1;
            let ghost pre = self.layers@;
            proof {
                assert(self.layers()[i as int].wf());
            }
            let mut layer = self.layers.remove(i);
            let (result, _) = layer.on_key_up(keys);
            self.layers.insert(i, layer);
            proof {
                assert(self.layers@ =~= pre.update(i as int, self.layers@[i as int]));
                assert forall|k: int| 0 <= k < n implies (#[trigger] self.layers@[k]).wf() by {
                    if k != i {
                        assert(self.layers@[k] == pre[k]);
                    }
                }
                trace = trace.push((i as int, result.consumed(), result.container_request()));
            }
            if result.requested_container_change() {
                return (Some(result.get_next_container()), Ghost(trace));
            }
            if result.is_consumed() {
                return (None, Ghost(trace));
            }
        }
        (None, Ghost(trace))
    }

    /// Offers a mouse scroll to the layers front to back, with the same
    /// precedence as key events.
    pub fn on_mouse_scroll(&mut self, delta: i64) -> (r: (
        EventResult<B>,
        Ghost<Seq<(int, bool, Option<Box<Container<B>>>)>>,
    ))
        requires
            old(self).wf(),
        ensures
            final(self).wf(),
            final(self).layers().len() == old(self).layers().len(),
            old(self).layers().len() == 0 ==> r.0 is None,
            front_scan(old(self).layers().len() as int, r.1@, r.0),
    {
        let ghost n = self.layers@.len();
        let ghost mut trace: Seq<(int, bool, Option<Box<Container<B>>>)> = Seq::empty();
        let mut i: usize = self.layers.len();
        while i > 0
            invariant
                i <= n,
                self.layers@.len() == n,
                n == old(self).layers().len(),
                self.wf(),
                trace.len() == n - i,
                forall|t: int| 0 <= t < trace.len() ==> (#[trigger] trace[t]).0 == n - 1 - t,
                forall|t: int|
                    0 <= t < trace.len() ==> !(#[trigger] trace[t]).1 && trace[t].2 is None,
            decreases i,
        {
            i = i - 1;
            let ghost pre = self.layers@;
            proof {
                assert(self.layers()[i as int].wf());
            }
            let mut layer = self.layers.remove(i);
            let (result, _) = layer.on_mouse_scroll(delta);
            self.layers.insert(i, layer);
            proof {
                assert(self.layers@ =~= pre.update(i as int, self.layers@[i as int]));
                assert forall|k: int| 0 <= k < n implies (#[trigger] self.layers@[k]).wf() by {
                    if k != i {
                        assert(self.layers@[k] == pre[k]);
                    }
                }
                trace = trace.push((i as int, result.consumed(), result.container_request()));
            }
            if result.requested_container_change() {
                return (Some(result.get_next_container()), Ghost(trace));
            }
            if result.is_consumed() {
                return (None, Ghost(trace));
            }
        }
        (None, Ghost(trace))
    }

    /// Delivers a mouse click to every layer, back to front; clicks are
    /// never consumed, and when several layers request a container change
    /// the frontmost request wins.
    #[verifier::rlimit(60)]
    pub fn on_mouse_click(&mut self, click: ClickInfo) -> (r: (
        EventResult<B>,
        Ghost<Seq<(int, Option<Box<Container<B>>>)>>,
    ))
        requires
            old(self).wf(),
        ensures
            final(self).wf(),
            final(self).layers().len() == old(self).layers().len(),
            old(self).layers().len() == 0 ==> r.0 is None,
            back_sweep(old(self).layers().len() as int, r.1@, r.0),
    {
        let ghost n = self.layers@.len();
        let ghost mut trace: Seq<(int, Option<Box<Container<B>>>)> = Seq::empty();
        let ghost mut tr0: Seq<(int, Option<Box<Container<B>>>)> = Seq::empty();
        let mut next_container: EventResult<B> = None;
        let mut i: usize = 0;
        while i < self.layers.len()
            invariant
                i <= n,
                self.layers@.len() == n,
                n == old(self).layers().len(),
                self.wf(),
                trace.len() == i,
                forall|t: int| 0 <= t < i ==> (#[trigger] trace[t]).0 == t,
                next_container is Some ==> exists|t: int|
                    0 <= t < i && (#[trigger] trace[t]).1 == next_container && forall|t2: int|
                        t < t2 < i ==> (#[trigger] trace[t2]).1 is None,
                next_container is None ==> forall|t: int|
                    0 <= t < i ==> (#[trigger] trace[t]).1 is None,
            decreases n - i,
        {
            let ghost pre = self.layers@;
            proof {
                assert(self.layers()[i as int].wf());
            }
            let mut layer = self.layers.remove(i);
            let (result, _) = layer.on_mouse_click(click);
            self.layers.insert(i, layer);
            proof {
                assert(self.layers@ =~= pre.update(i as int, self.layers@[i as int]));
                assert forall|k: int| 0 <= k < n implies (#[trigger] self.layers@[k]).wf() by {
                    if k != i {
                        assert(self.layers@[k] == pre[k]);
                    }
                }
                tr0 = trace;
                trace = trace.push((i as int, result));
            }
            let ghost req = result;
            let ghost prev_next = next_container;
            match result {
                Some(c) => {
                    next_container = Some(c);
                },
                None => {},
            }
            proof {
                let t_new = trace.len() - 1;
                assert forall|t2: int| 0 <= t2 < t_new implies trace[t2] == tr0[t2] by {}
                if req is Some {
                    assert(trace[t_new].1 == req);
                    assert(next_container == req);
                } else if prev_next is Some {
                    let t_old = choose|t: int|
                        0 <= t < tr0.len() && (#[trigger] tr0[t]).1 == prev_next && forall|
                            t2: int,
                        | t < t2 < tr0.len() ==> (#[trigger] tr0[t2]).1 is None;
                    assert(trace[t_old].1 == prev_next);
                    assert forall|t2: int|
                        t_old < t2 < trace.len() implies (#[trigger] trace[t2]).1 is None by {
                        if t2 < t_new {
                            assert(tr0[t2].1 is None);
                        } else {
                            assert(trace[t2].1 == req);
                        }
                    }
                } else {
                    assert forall|t2: int|
                        0 <= t2 < trace.len() implies (#[trigger] trace[t2]).1 is None by {
                        if t2 < t_new {
                            assert(tr0[t2].1 is None);
                        } else {
                            assert(trace[t2].1 == req);
                        }
                    }
                }
            }
            i = i + 1;
        }
        (next_container, Ghost(trace))
    }

    /// Delivers a mouse move front to back; the first layer that consumes
    /// the move hides the position from the layers behind it, so only the
    /// frontmost hit-testing layer sees the real cursor location, and the
    /// frontmost container request wins.
    #[verifier::rlimit(60)]
    pub fn on_mouse_move(&mut self, next_mouse_pos: Option<(i32, i32)>) -> (r: (
        EventResult<B>,
        Ghost<Seq<(int, Option<(i32, i32)>, bool, Option<Box<Container<B>>>)>>,
    ))
        requires
            old(self).wf(),
        ensures
            final(self).wf(),
            final(self).layers().len() == old(self).layers().len(),
            old(self).layers().len() == 0 ==> r.0 is None,
            old(self).layers().len() > 0 ==> final(self).layers().last().mouse_position()
                == next_mouse_pos,
            forall|k: int|
                0 <= k < final(self).layers().len()
                    ==> ((#[trigger] final(self).layers()[k]).mouse_position() == next_mouse_pos
                    || final(self).layers()[k].mouse_position() is None),
            r.1@.len() == old(self).layers().len(),
            forall|t: int|
                0 <= t < r.1@.len() ==> (#[trigger] r.1@[t]).0 == old(self).layers().len() - 1 - t,
            forall|t: int|
                0 <= t < r.1@.len() ==> (#[trigger] r.1@[t]).1 == (if (exists|t2: int|
                    0 <= t2 < t && (#[trigger] r.1@[t2]).2) {
                    None
                } else {
                    next_mouse_pos
                }),
            r.0 is Some ==> exists|t: int|
                0 <= t < r.1@.len() && (#[trigger] r.1@[t]).3 == r.0 && forall|t2: int|
                    0 <= t2 < t ==> (#[trigger] r.1@[t2]).3 is None,
            r.0 is None ==> forall|t: int| 0 <= t < r.1@.len() ==> (#[trigger] r.1@[t]).3 is None,
    {
        let ghost n = self.layers@.len();
        let ghost mut trace: Seq<(int, Option<(i32, i32)>, bool, Option<Box<Container<B>>>)> =
            Seq::empty();
        let ghost mut tr0m: Seq<(int, Option<(i32, i32)>, bool, Option<Box<Container<B>>>)> =
            Seq::empty();
        let mut next_container: EventResult<B> = None;
        let mut pos = next_mouse_pos;
        let mut i: usize = self.layers.len();
        while i > 0
            invariant
                i <= n,
                self.layers@.len() == n,
                n == old(self).layers().len(),
                self.wf(),
                pos == next_mouse_pos || pos is None,
                i == n ==> pos == next_mouse_pos,
                i < n ==> self.layers@[n - 1].mouse_position() == next_mouse_pos,
                forall|k: int|
                    i <= k < n ==> ((#[trigger] self.layers@[k]).mouse_position()
                        == next_mouse_pos || self.layers@[k].mouse_position() is None),
                trace.len() == n - i,
                forall|t: int| 0 <= t < trace.len() ==> (#[trigger] trace[t]).0 == n - 1 - t,
                pos == (if (exists|t2: int| 0 <= t2 < trace.len() && (#[trigger] trace[t2]).2) {
                    None
                } else {
                    next_mouse_pos
                }),
                forall|t: int|
                    0 <= t < trace.len() ==> (#[trigger] trace[t]).1 == (if (exists|t2: int|
                        0 <= t2 < t && (#[trigger] trace[t2]).2) {
                        None
                    } else {
                        next_mouse_pos
                    }),
                next_container is Some ==> exists|t: int|
                    0 <= t < trace.len() && (#[trigger] trace[t]).3 == next_container && forall|
                        t2: int,
                    | 0 <= t2 < t ==> (#[trigger] trace[t2]).3 is None,
                next_container is None ==> forall|t: int|
                    0 <= t < trace.len() ==> (#[trigger] trace[t]).3 is None,
            decreases i,
        {
            i = i - 1;
            let ghost pre = self.layers@;
            proof {
                assert(self.layers()[i as int].wf());
            }
            let ghost offered = pos;
            let mut layer = self.layers.remove(i);
            let (result, _) = layer.on_mouse_move(pos);
            self.layers.insert(i, layer);
            proof {
                assert(self.layers@ =~= pre.update(i as int, self.layers@[i as int]));
                assert forall|k: int| 0 <= k < n implies (#[trigger] self.layers@[k]).wf() by {
                    if k != i {
                        assert(self.layers@[k] == pre[k]);
                    }
                }
                assert(self.layers@[i as int].mouse_position() == pos);
                assert forall|k: int|
                    i <= k < n implies ((#[trigger] self.layers@[k]).mouse_position()
                        == next_mouse_pos || self.layers@[k].mouse_position() is None) by {
                    if k != i {
                        assert(self.layers@[k] == pre[k]);
                    }
                }
                tr0m = trace;
                trace = trace.push(
                    (i as int, offered, result.consumed(), result.container_request()),
                );
            }
            let ghost req = result.container_request();
            let ghost was_consumed = result.consumed();
            let ghost prev_next = next_container;
            if result.is_consumed() {
                pos = None;
            }
            let requested = result.as_normal_result();
            match requested {
                Some(c) => {
                    if next_container.is_none() {
                        next_container = Some(c);
                    }
                },
                None => {},
            }
            proof {
                let t_new = trace.len() - 1;
                assert forall|t2: int| 0 <= t2 < t_new implies trace[t2] == tr0m[t2] by {}
                assert(trace[t_new].1 == offered);
                assert(trace[t_new].2 == was_consumed);
                assert(trace[t_new].3 == req);
                assert forall|t: int| #![trigger trace[t]]
                    0 <= t <= t_new implies ((exists|t2: int|
                        0 <= t2 < t && (#[trigger] trace[t2]).2) == (exists|t2: int|
                        0 <= t2 < t && (#[trigger] tr0m[t2]).2)) by {
                    if exists|t2: int| 0 <= t2 < t && (#[trigger] trace[t2]).2 {
                        let w = choose|t2: int| 0 <= t2 < t && (#[trigger] trace[t2]).2;
                        assert(tr0m[w].2);
                    }
                    if exists|t2: int| 0 <= t2 < t && (#[trigger] tr0m[t2]).2 {
                        let w = choose|t2: int| 0 <= t2 < t && (#[trigger] tr0m[t2]).2;
                        assert(trace[w].2);
                    }
                }
                assert forall|t: int|
                    0 <= t < trace.len() implies (#[trigger] trace[t]).1 == (if (exists|t2: int|
                        0 <= t2 < t && (#[trigger] trace[t2]).2) {
                        None
                    } else {
                        next_mouse_pos
                    }) by {
                    if t < t_new {
                        assert(tr0m[t].1 == (if (exists|t2: int|
                            0 <= t2 < t && (#[trigger] tr0m[t2]).2) {
                            None
                        } else {
                            next_mouse_pos
                        }));
                        assert(trace[t].1 == tr0m[t].1);
                    } else {
                        assert(trace[t].1 == offered);
                        assert(offered == (if (exists|t2: int|
                            0 <= t2 < t_new && (#[trigger] tr0m[t2]).2) {
                            None
                        } else {
                            next_mouse_pos
                        }));
                    }
                }
                assert(pos == (if (exists|t2: int|
                    0 <= t2 < trace.len() && (#[trigger] trace[t2]).2) {
                    None
                } else {
                    next_mouse_pos
                })) by {
                    if was_consumed {
                        assert(trace[t_new].2);
                    } else {
                        if exists|t2: int| 0 <= t2 < trace.len() && (#[trigger] trace[t2]).2 {
                            let w = choose|t2: int|
                                0 <= t2 < trace.len() && (#[trigger] trace[t2]).2;
                            assert(w < t_new);
                            assert(tr0m[w].2);
                        }
                        if exists|t2: int| 0 <= t2 < tr0m.len() && (#[trigger] tr0m[t2]).2 {
                            let w = choose|t2: int|
                                0 <= t2 < tr0m.len() && (#[trigger] tr0m[t2]).2;
                            assert(trace[w].2);
                        }
                    }
                }
                if prev_next is None && req is Some {
                    assert(trace[t_new].3 == next_container);
                    assert forall|t2: int|
                        0 <= t2 < t_new implies (#[trigger] trace[t2]).3 is None by {
                        assert(tr0m[t2].3 is None);
                    }
                } else if prev_next is Some {
                    let t_old = choose|t: int|
                        0 <= t < tr0m.len() && (#[trigger] tr0m[t]).3 == prev_next && forall|
                            t2: int,
                        | 0 <= t2 < t ==> (#[trigger] tr0m[t2]).3 is None;
                    assert(trace[t_old].3 == next_container);
                    assert forall|t2: int|
                        0 <= t2 < t_old implies (#[trigger] trace[t2]).3 is None by {
                        assert(tr0m[t2].3 is None);
                    }
                } else {
                    assert forall|t2: int|
                        0 <= t2 < trace.len() implies (#[trigger] trace[t2]).3 is None by {
                        if t2 < t_new {
                            assert(tr0m[t2].3 is None);
                        } else {
                            assert(trace[t2].3 == req);
                        }
                    }
                }
            }
        }
        (next_container, Ghost(trace))
    }

    /// Delivers a frame tick to every layer, front to back; the frontmost
    /// container request wins.
    #[verifier::rlimit(60)]
    pub fn on_update(&mut self) -> (r: (
        EventResult<B>,
        Ghost<Seq<(int, Option<Box<Container<B>>>)>>,
    ))
        requires
            old(self).wf(),
        ensures
            final(self).wf(),
            final(self).layers().len() == old(self).layers().len(),
            old(self).layers().len() == 0 ==> r.0 is None,
            front_sweep(old(self).layers().len() as int, r.1@, r.0),
    {
        let ghost n = self.layers@.len();
        let ghost mut trace: Seq<(int, Option<Box<Container<B>>>)> = Seq::empty();
        let ghost mut tr0u: Seq<(int, Option<Box<Container<B>>>)> = Seq::empty();
        let mut next_container: EventResult<B> = None;
        let mut i: usize = self.layers.len();
        while i > 0
            invariant
                i <= n,
                self.layers@.len() == n,
                n == old(self).layers().len(),
                self.wf(),
                trace.len() == n - i,
                forall|t: int| 0 <= t < trace.len() ==> (#[trigger] trace[t]).0 == n - 1 - t,
                next_container is Some ==> exists|t: int|
                    0 <= t < trace.len() && (#[trigger] trace[t]).1 == next_container && forall|
                        t2: int,
                    | 0 <= t2 < t ==> (#[trigger] trace[t2]).1 is None,
                next_container is None ==> forall|t: int|
                    0 <= t < trace.len() ==> (#[trigger] trace[t]).1 is None,
            decreases i,
        {
            i = i - 1;
            let ghost pre = self.layers@;
            proof {
                assert(self.layers()[i as int].wf());
            }
            let mut layer = self.layers.remove(i);
            let (result, _) = layer.on_update();
            self.layers.insert(i, layer);
            proof {
                assert(self.layers@ =~= pre.update(i as int, self.layers@[i as int]));
                assert forall|k: int| 0 <= k < n implies (#[trigger] self.layers@[k]).wf() by {
                    if k != i {
                        assert(self.layers@[k] == pre[k]);
                    }
                }
                tr0u = trace;
                trace = trace.push((i as int, result));
            }
            let ghost req = result;
            let ghost prev_next = next_container;
            match result {
                Some(c) => {
                    if next_container.is_none() {
                        next_container = Some(c);
                    }
                },
                None => {},
            }
            proof {
                let t_new = trace.len() - 1;
                assert forall|t2: int| 0 <= t2 < t_new implies trace[t2] == tr0u[t2] by {}
                if prev_next is None && req is Some {
                    assert(trace[t_new].1 == next_container);
                    assert forall|t2: int|
                        0 <= t2 < t_new implies (#[trigger] trace[t2]).1 is None by {
                        assert(tr0u[t2].1 is None);
                    }
                } else if prev_next is Some {
                    let t_old = choose|t: int|
                        0 <= t < tr0u.len() && (#[trigger] tr0u[t]).1 == prev_next && forall|
                            t2: int,
                        | 0 <= t2 < t ==> (#[trigger] tr0u[t2]).1 is None;
                    assert(trace[t_old].1 == next_container);
                    assert forall|t2: int|
                        0 <= t2 < t_old implies (#[trigger] trace[t2]).1 is None by {
                        assert(tr0u[t2].1 is None);
                    }
                } else {
                    assert forall|t2: int|
                        0 <= t2 < trace.len() implies (#[trigger] trace[t2]).1 is None by {
                        if t2 < t_new {
                            assert(tr0u[t2].1 is None);
                        } else {
                            assert(trace[t2].1 == req);
                        }
                    }
                }
            }
        }
        (next_container, Ghost(trace))
    }

    /// Asks the layers front to back for clipboard data to copy; the first
    /// offer wins.
    pub fn on_copy(&mut self) -> (r: (
        Option<ClipboardData>,
        Ghost<Seq<(int, Option<ClipboardData>)>>,
    ))
        requires
            old(self).wf(),
        ensures
            final(self).wf(),
            final(self).layers().len() == old(self).layers().len(),
            old(self).layers().len() == 0 ==> r.0 is None,
            r.1@.len() <= old(self).layers().len(),
            forall|t: int|
                0 <= t < r.1@.len() ==> (#[trigger] r.1@[t]).0 == old(self).layers().len() - 1
                    - t,
            forall|t: int| 0 <= t < r.1@.len() - 1 ==> (#[trigger] r.1@[t]).1 is None,
            r.0 == (if r.1@.len() > 0 {
                r.1@.last().1
            } else {
                None::<ClipboardData>
            }),
            r.1@.len() < old(self).layers().len() ==> r.1@.len() > 0 && r.1@.last().1 is Some,
    {
        let ghost n = self.layers@.len();
        let ghost mut trace: Seq<(int, Option<ClipboardData>)> = Seq::empty();
        let mut i: usize = self.layers.len();
        while i > 0
            invariant
                i <= n,
                self.layers@.len() == n,
                n == old(self).layers().len(),
                self.wf(),
                trace.len() == n - i,
                forall|t: int| 0 <= t < trace.len() ==> (#[trigger] trace[t]).0 == n - 1 - t,
                forall|t: int| 0 <= t < trace.len() ==> (#[trigger] trace[t]).1 is None,
            decreases i,
        {
            i = i - 1;
            let ghost pre = self.layers@;
            proof {
                assert(self.layers()[i as int].wf());
            }
            let mut layer = self.layers.remove(i);
            let (data, _, _) = layer.on_copy();
            self.layers.insert(i, layer);
            proof {
                assert(self.layers@ =~= pre.update(i as int, self.layers@[i as int]));
                assert forall|k: int| 0 <= k < n implies (#[trigger] self.layers@[k]).wf() by {
                    if k != i {
                        assert(self.layers@[k] == pre[k]);
                    }
                }
                trace = trace.push((i as int, data));
            }
            if data.is_some() {
                return (data, Ghost(trace));
            }
        }
        (None, Ghost(trace))
    }

    /// Offers pasted data to the layers front to back; the first consumer
    /// wins.
    pub fn on_paste(&mut self, clipboard: &ClipboardData) -> (r: (
        bool,
        Ghost<Seq<(int, bool)>>,
    ))
        requires
            old(self).wf(),
        ensures
            final(self).wf(),
            final(self).layers().len() == old(self).layers().len(),
            old(self).layers().len() == 0 ==> r.0 == false,
            r.1@.len() <= old(self).layers().len(),
            forall|t: int|
                0 <= t < r.1@.len() ==> (#[trigger] r.1@[t]).0 == old(self).layers().len() - 1
                    - t,
            forall|t: int| 0 <= t < r.1@.len() - 1 ==> !(#[trigger] r.1@[t]).1,
            r.0 == (r.1@.len() > 0 && r.1@.last().1),
            r.1@.len() < old(self).layers().len() ==> r.1@.len() > 0 && r.1@.last().1,
    {
        let ghost n = self.layers@.len();
        let ghost mut trace: Seq<(int, bool)> = Seq::empty();
        let mut i: usize = self.layers.len();
        while i > 0
            invariant
                i <= n,
                self.layers@.len() == n,
                n == old(self).layers().len(),
                self.wf(),
                trace.len() == n - i,
                forall|t: int| 0 <= t < trace.len() ==> (#[trigger] trace[t]).0 == n - 1 - t,
                forall|t: int| 0 <= t < trace.len() ==> !(#[trigger] trace[t]).1,
            decreases i,
        {
            i = i - 1;
            let ghost pre = self.layers@;
            proof {
                assert(self.layers()[i as int].wf());
            }
            let mut layer = self.layers.remove(i);
            let (consumed, _) = layer.on_paste(clipboard);
            self.layers.insert(i, layer);
            proof {
                assert(self.layers@ =~= pre.update(i as int, self.layers@[i as int]));
                assert forall|k: int| 0 <= k < n implies (#[trigger] self.layers@[k]).wf() by {
                    if k != i {
                        assert(self.layers@[k] == pre[k]);
                    }
                }
                trace = trace.push((i as int, consumed));
            }
            if consumed {
                return (true, Ghost(trace));
            }
        }
        (false, Ghost(trace))
    }

    /// Asks the layers front to back for clipboard data to cut; the first
    /// offer wins.
    pub fn on_cut(&mut self) -> (r: (
        Option<ClipboardData>,
        Ghost<Seq<(int, Option<ClipboardData>)>>,
    ))
        requires
            old(self).wf(),
        ensures
            final(self).wf(),
            final(self).layers().len() == old(self).layers().len(),
            old(self).layers().len() == 0 ==> r.0 is None,
            r.1@.len() <= old(self).layers().len(),
            forall|t: int|
                0 <= t < r.1@.len() ==> (#[trigger] r.1@[t]).0 == old(self).layers().len() - 1
                    - t,
            forall|t: int| 0 <= t < r.1@.len() - 1 ==> (#[trigger] r.1@[t]).1 is None,
            r.0 == (if r.1@.len() > 0 {
                r.1@.last().1
            } else {
                None::<ClipboardData>
            }),
            r.1@.len() < old(self).layers().len() ==> r.1@.len() > 0 && r.1@.last().1 is Some,
    {
        let ghost n = self.layers@.len();
        let ghost mut trace: Seq<(int, Option<ClipboardData>)> = Seq::empty();
        let mut i: usize = self.layers.len();
        while i > 0
            invariant
                i <= n,
                self.layers@.len() == n,
                n == old(self).layers().len(),
                self.wf(),
                trace.len() == n - i,
                forall|t: int| 0 <= t < trace.len() ==> (#[trigger] trace[t]).0 == n - 1 - t,
                forall|t: int| 0 <= t < trace.len() ==> (#[trigger] trace[t]).1 is None,
            decreases i,
        {
            i = i - 1;
            let ghost pre = self.layers@;
            proof {
                assert(self.layers()[i as int].wf());
            }
            let mut layer = self.layers.remove(i);
            let (data, _, _) = layer.on_cut();
            self.layers.insert(i, layer);
            proof {
                assert(self.layers@ =~= pre.update(i as int, self.layers@[i as int]));
                assert forall|k: int| 0 <= k < n implies (#[trigger] self.layers@[k]).wf() by {
                    if k != i {
                        assert(self.layers@[k] == pre[k]);
                    }
                }
                trace = trace.push((i as int, data));
            }
            if data.is_some() {
                return (data, Ghost(trace));
            }
        }
        (None, Ghost(trace))
    }

    /// Schedules a full repaint of every layer.
    pub fn force_render(&mut self)
        requires
            old(self).wf(),
        ensures
            final(self).wf(),
            final(self).layers().len() == old(self).layers().len(),
            forall|k: int|
                0 <= k < old(self).layers().len() ==> fully_forced(
                    #[trigger] old(self).layers()[k],
                    final(self).layers()[k],
                ),
    {
        let ghost n = self.layers@.len();
        let ghost l0 = self.layers@;
        let mut i: usize = 0;
        while i < self.layers.len()
            invariant
                i <= n,
                self.layers@.len() == n,
                n == old(self).layers().len(),
                l0 == old(self).layers(),
                self.wf(),
                forall|k: int| i <= k < n ==> (#[trigger] self.layers@[k]) == l0[k],
                forall|k: int|
                    0 <= k < i ==> fully_forced(l0[k], #[trigger] self.layers@[k]),
            decreases n - i,
        {
            let ghost pre = self.layers@;
            proof {
                assert(self.layers()[i as int].wf());
            }
            let mut layer = self.layers.remove(i);
            layer.force_render();
            self.layers.insert(i, layer);
            proof {
                assert(self.layers@ =~= pre.update(i as int, self.layers@[i as int]));
                assert forall|k: int| 0 <= k < n implies (#[trigger] self.layers@[k]).wf() by {
                    if k != i {
                        assert(self.layers@[k] == pre[k]);
                    }
                }
                assert(pre[i as int] == l0[i as int]);
                assert(fully_forced(l0[i as int], self.layers@[i as int]));
            }
            i = i + 1;
        }
    }

}

/// The forced regions a set of redraw actions propagates toward the
/// front: every action's region.
pub open spec fn forward_regions(acts: Seq<PlannedRenderAction>) -> Seq<Region>
    decreases acts.len(),
{
    if acts.len() == 0 {
        Seq::empty()
    } else {
        forward_regions(acts.drop_last()) + seq![acts.last().region]
    }
}

/// The forced regions a set of redraw actions propagates toward the
/// back: only the regions whose redraw is not fully occluding, since what
/// lies behind an occluding redraw can never show through.
pub open spec fn backward_regions(acts: Seq<PlannedRenderAction>) -> Seq<Region>
    decreases acts.len(),
{
    if acts.len() == 0 {
        Seq::empty()
    } else {
        backward_regions(acts.drop_last()) + if !acts.last().opacity.occludes() {
            seq![acts.last().region]
        } else {
            Seq::empty()
        }
    }
}

/// Opacity-gated backward propagation, soundness half: everything sent
/// backward comes from a non-occluding action.
pub proof fn lemma_backward_regions_sound(acts: Seq<PlannedRenderAction>, k: int)
    requires
        0 <= k < backward_regions(acts).len(),
    ensures
        exists|m: int|
            0 <= m < acts.len() && !(#[trigger] acts[m]).opacity.occludes() && acts[m].region
                == backward_regions(acts)[k],
    decreases acts.len(),
{
    let b = backward_regions(acts);
    if acts.len() > 0 {
        let b0 = backward_regions(acts.drop_last());
        if !acts.last().opacity.occludes() && k == b.len() - 1 {
            assert(b[k] == acts.last().region);
            assert(!acts[acts.len() - 1].opacity.occludes());
        } else {
            assert(k < b0.len());
            lemma_backward_regions_sound(acts.drop_last(), k);
            let m = choose|m: int|
                0 <= m < acts.drop_last().len() && !(#[trigger] acts.drop_last()[m]).opacity.occludes()
                    && acts.drop_last()[m].region == b0[k];
            assert(!acts[m].opacity.occludes() && acts[m].region == b[k]);
        }
    }
}

/// Opacity-gated backward propagation, completeness half: every
/// non-occluding action's region is sent backward.
pub proof fn lemma_backward_regions_complete(acts: Seq<PlannedRenderAction>, m: int)
    requires
        0 <= m < acts.len(),
        !acts[m].opacity.occludes(),
    ensures
        backward_regions(acts).contains(acts[m].region),
    decreases acts.len(),
{
    let b = backward_regions(acts);
    if m == acts.len() - 1 {
        assert(b[b.len() - 1] == acts[m].region);
    } else {
        lemma_backward_regions_complete(acts.drop_last(), m);
        let b0 = backward_regions(acts.drop_last());
        let k = choose|k: int| 0 <= k < b0.len() && b0[k] == acts.drop_last()[m].region;
        assert(b[k] == acts[m].region);
    }
}

/// Every action's region is sent forward.
pub proof fn lemma_forward_regions_complete(acts: Seq<PlannedRenderAction>, m: int)
    requires
        0 <= m < acts.len(),
    ensures
        forward_regions(acts).contains(acts[m].region),
    decreases acts.len(),
{
    let f = forward_regions(acts);
    if m == acts.len() - 1 {
        assert(f[f.len() - 1] == acts[m].region);
    } else {
        lemma_forward_regions_complete(acts.drop_last(), m);
        let f0 = forward_regions(acts.drop_last());
        let k = choose|k: int| 0 <= k < f0.len() && f0[k] == acts.drop_last()[m].region;
        assert(f[k] == acts[m].region);
    }
}

/// Splits a layer's not-yet-processed redraw actions into the regions to
/// propagate toward the front (all of them) and toward the back (the
/// non-occluding ones only).
fn split_propagation(actions: &Vec<PlannedRenderAction>, from: usize) -> (r: (
    Vec<Region>,
    Vec<Region>,
))
    requires
        from <= actions@.len(),
    ensures
        r.0@ == forward_regions(actions@.skip(from as int)),
        r.1@ == backward_regions(actions@.skip(from as int)),
{
    let ghost sub = actions@.skip(from as int);
    let mut fwd: Vec<Region> = Vec::new();
    let mut back: Vec<Region> = Vec::new();
    let mut m: usize = from;
    proof {
        assert(sub.take(0) =~= Seq::<PlannedRenderAction>::empty());
    }
    while m < actions.len()
        invariant
            from <= m <= actions@.len(),
            sub == actions@.skip(from as int),
            fwd@ == forward_regions(sub.take(m - from)),
            back@ == backward_regions(sub.take(m - from)),
        decreases actions@.len() - m,
    {
        proof {
            assert(sub.take(m - from + 1).drop_last() =~= sub.take(m - from));
            assert(sub.take(m - from + 1).last() == sub[m - from]);
            assert(sub[m - from] == actions@[m as int]);
        }
        let action = actions[m];
        fwd.push(action.region);
        if !(action.opacity == RenderOpacity::Solid
            || action.opacity == RenderOpacity::StaticSolidOrNothing) {
            back.push(action.region);
        }
        m = m + 1;
    }
    proof {
        assert(sub.take(actions@.len() - from) =~= sub);
    }
    (fwd, back)
}

/// Total clean count over a stack of layers: the fuel the propagation
/// fixed point burns, since a forced render can only newly dirty a clean
/// behavior once.
pub open spec fn total_clean<B>(layers: Seq<Layer<B>>) -> int
    decreases layers.len(),
{
    if layers.len() == 0 {
        0
    } else {
        total_clean(layers.drop_last()) + layers.last().arena().clean_count()
    }
}

proof fn lemma_total_clean_update<B>(s: Seq<Layer<B>>, i: int, v: Layer<B>)
    requires
        0 <= i < s.len(),
    ensures
        total_clean(s.update(i, v)) == total_clean(s) - s[i].arena().clean_count()
            + v.arena().clean_count(),
    decreases s.len(),
{
    let su = s.update(i, v);
    if i == s.len() - 1 {
        assert(su.drop_last() =~= s.drop_last());
        assert(su.last() == v);
    } else {
        assert(su.drop_last() =~= s.drop_last().update(i, v));
        assert(su.last() == s.last());
        lemma_total_clean_update(s.drop_last(), i, v);
    }
}

proof fn lemma_total_clean_nonneg<B>(s: Seq<Layer<B>>)
    ensures
        total_clean(s) >= 0,
    decreases s.len(),
{
    if s.len() > 0 {
        lemma_total_clean_nonneg(s.drop_last());
        s.last().arena().lemma_counts_nonneg();
    }
}

/// Total count of predicted redraw actions not yet processed by the
/// propagation cursor.
pub open spec fn total_pending(acts: Seq<Vec<PlannedRenderAction>>, idxs: Seq<usize>) -> int
    decreases acts.len(),
{
    if acts.len() == 0 || acts.len() != idxs.len() {
        0
    } else {
        total_pending(acts.drop_last(), idxs.drop_last()) + (acts.last()@.len() - idxs.last())
    }
}

proof fn lemma_total_pending_nonneg(acts: Seq<Vec<PlannedRenderAction>>, idxs: Seq<usize>)
    requires
        acts.len() == idxs.len(),
        forall|k: int| 0 <= k < acts.len() ==> (#[trigger] idxs[k]) <= acts[k]@.len(),
    ensures
        total_pending(acts, idxs) >= 0,
    decreases acts.len(),
{
    if acts.len() > 0 {
        assert forall|k: int|
            0 <= k < acts.drop_last().len() implies (#[trigger] idxs.drop_last()[k])
                <= acts.drop_last()[k]@.len() by {
            assert(idxs.drop_last()[k] == idxs[k]);
            assert(acts.drop_last()[k] == acts[k]);
            assert(idxs[k] <= acts[k]@.len());
        }
        lemma_total_pending_nonneg(acts.drop_last(), idxs.drop_last());
        assert(idxs[acts.len() - 1] <= acts[acts.len() - 1]@.len());
    }
}

proof fn lemma_total_pending_update_act(
    acts: Seq<Vec<PlannedRenderAction>>,
    idxs: Seq<usize>,
    i: int,
    v: Vec<PlannedRenderAction>,
)
    requires
        acts.len() == idxs.len(),
        0 <= i < acts.len(),
    ensures
        total_pending(acts.update(i, v), idxs) == total_pending(acts, idxs) - (acts[i]@.len()
            - idxs[i]) + (v@.len() - idxs[i]),
    decreases acts.len(),
{
    let au = acts.update(i, v);
    if i == acts.len() - 1 {
        assert(au.drop_last() =~= acts.drop_last());
        assert(au.last() == v);
    } else {
        assert(au.drop_last() =~= acts.drop_last().update(i, v));
        assert(au.last() == acts.last());
        lemma_total_pending_update_act(acts.drop_last(), idxs.drop_last(), i, v);
        assert(idxs.drop_last()[i] == idxs[i]);
        assert(acts.drop_last()[i] == acts[i]);
    }
}

proof fn lemma_total_pending_update_idx(
    acts: Seq<Vec<PlannedRenderAction>>,
    idxs: Seq<usize>,
    i: int,
    v: usize,
)
    requires
        acts.len() == idxs.len(),
        0 <= i < acts.len(),
    ensures
        total_pending(acts, idxs.update(i, v)) == total_pending(acts, idxs) + idxs[i] - v,
    decreases acts.len(),
{
    let iu = idxs.update(i, v);
    if i == acts.len() - 1 {
        assert(iu.drop_last() =~= idxs.drop_last());
        assert(iu.last() == v);
    } else {
        assert(iu.drop_last() =~= idxs.drop_last().update(i, v));
        assert(iu.last() == idxs.last());
        lemma_total_pending_update_idx(acts.drop_last(), idxs.drop_last(), i, v);
        assert(idxs.drop_last()[i] == idxs[i]);
        assert(acts.drop_last()[i] == acts[i]);
    }
}

impl<B: ComponentBehavior> LayeredContainer<B> {
    /// One propagation step of the render fixed point, as the stacking
    /// rules demand: the regions of the current layer's unprocessed
    /// redraws are forced on every layer in front of it, and the
    /// non-occluding ones on every layer behind it (nearest first), each
    /// layer's newly caused redraws being appended to its action list.
    /// Returns the earliest layer behind the current one that gained new
    /// actions — the layer the fixed point must revisit — or `None` when
    /// no layer behind did.
    pub fn propagate_step(
        &mut self,
        current: usize,
        regions_front: &Vec<Region>,
        regions_back: &Vec<Region>,
        actions: &mut Vec<Vec<PlannedRenderAction>>,
        indices: &Vec<usize>,
    ) -> (r: Option<usize>)
        requires
            old(self).wf(),
            current < old(self).layers().len(),
            old(actions)@.len() == old(self).layers().len(),
            indices@.len() == old(self).layers().len(),
            forall|k: int|
                0 <= k < indices@.len() ==> (#[trigger] indices@[k]) <= old(actions)@[k]@.len(),
        ensures
            final(self).wf(),
            final(self).layers().len() == old(self).layers().len(),
            final(actions)@.len() == old(actions)@.len(),
            forall|k: int|
                0 <= k < indices@.len() ==> (#[trigger] indices@[k]) <= final(actions)@[k]@.len(),
            final(self).layers()[current as int] == old(self).layers()[current as int],
            final(actions)@[current as int] == old(actions)@[current as int],
            forall|f: int|
                current < f < old(self).layers().len() ==> partial_forced(
                    #[trigger] old(self).layers()[f],
                    final(self).layers()[f],
                    regions_front@,
                ),
            forall|f: int|
                current < f < old(self).layers().len() ==> (#[trigger] final(actions)@[f])@ == old(
                    actions,
                )@[f]@ + force_actions(
                    old(self).layers()[f].render_manager().entries_seq(),
                    old(self).layers()[f].arena(),
                    regions_front@,
                ),
            forall|b: int|
                0 <= b < current ==> partial_forced(
                    #[trigger] old(self).layers()[b],
                    final(self).layers()[b],
                    regions_back@,
                ),
            forall|b: int|
                0 <= b < current ==> (#[trigger] final(actions)@[b])@ == old(actions)@[b]@
                    + force_actions(
                    old(self).layers()[b].render_manager().entries_seq(),
                    old(self).layers()[b].arena(),
                    regions_back@,
                ),
            match r {
                Some(b) => b < current && force_actions(
                    old(self).layers()[b as int].render_manager().entries_seq(),
                    old(self).layers()[b as int].arena(),
                    regions_back@,
                ).len() > 0 && forall|b2: int|
                    0 <= b2 < b ==> force_actions(
                        (#[trigger] old(self).layers()[b2]).render_manager().entries_seq(),
                        old(self).layers()[b2].arena(),
                        regions_back@,
                    ).len() == 0,
                None => forall|b2: int|
                    0 <= b2 < current ==> force_actions(
                        (#[trigger] old(self).layers()[b2]).render_manager().entries_seq(),
                        old(self).layers()[b2].arena(),
                        regions_back@,
                    ).len() == 0,
            },
            2 * total_clean(final(self).layers()) + total_pending(final(actions)@, indices@) <= 2
                * total_clean(old(self).layers()) + total_pending(old(actions)@, indices@),
    {
        let ghost n = self.layers@.len();
        let ghost l0 = self.layers@;
        let ghost a0 = actions@;
        let ghost phi0 = 2 * total_clean(l0) + total_pending(a0, indices@);
        let _layer_count = self.layers.len();
        let mut f = current + 1;
        while f < self.layers.len()
            invariant
                current < f <= n,
                current < n,
                self.layers@.len() == n,
                actions@.len() == n,
                l0.len() == n,
                a0.len() == n,
                indices@.len() == n,
                self.wf(),
                forall|k: int| 0 <= k <= current ==> (#[trigger] self.layers@[k]) == l0[k],
                forall|k: int| 0 <= k <= current ==> (#[trigger] actions@[k]) == a0[k],
                forall|k: int| f <= k < n ==> (#[trigger] self.layers@[k]) == l0[k],
                forall|k: int| f <= k < n ==> (#[trigger] actions@[k]) == a0[k],
                forall|k: int|
                    current < k < f ==> partial_forced(
                        l0[k],
                        #[trigger] self.layers@[k],
                        regions_front@,
                    ),
                forall|k: int|
                    current < k < f ==> (#[trigger] actions@[k])@ == a0[k]@ + force_actions(
                        l0[k].render_manager().entries_seq(),
                        l0[k].arena(),
                        regions_front@,
                    ),
                forall|k: int| 0 <= k < n ==> (#[trigger] indices@[k]) <= actions@[k]@.len(),
                2 * total_clean(self.layers@) + total_pending(actions@, indices@) <= phi0,
            decreases n - f,
        {
            let ghost l_pre = self.layers@;
            let ghost a_pre = actions@;
            let ghost tc_pre = total_clean(self.layers@);
            let ghost tp_pre = total_pending(actions@, indices@);
            proof {
                assert(self.layers()[f as int].wf());
            }
            let mut layer = self.layers.remove(f);
            let mut new_acts = layer.force_partial_render(regions_front);
            self.layers.insert(f, layer);
            proof {
                assert(self.layers@ =~= l_pre.update(f as int, self.layers@[f as int]));
                lemma_total_clean_update(l_pre, f as int, self.layers@[f as int]);
                assert forall|k: int| 0 <= k < n implies (#[trigger] self.layers@[k]).wf() by {
                    if k != f {
                        assert(self.layers@[k] == l_pre[k]);
                    }
                }
                assert(l_pre[f as int] == l0[f as int]);
                assert(partial_forced(l0[f as int], self.layers@[f as int], regions_front@));
                assert(new_acts@ == force_actions(
                    l0[f as int].render_manager().entries_seq(),
                    l0[f as int].arena(),
                    regions_front@,
                ));
            }
            let ghost delta: int = new_acts@.len() as int;
            let mut af = actions.remove(f);
            af.append(&mut new_acts);
            actions.insert(f, af);
            proof {
                assert(actions@ =~= a_pre.update(f as int, actions@[f as int]));
                lemma_total_pending_update_act(a_pre, indices@, f as int, actions@[f as int]);
                assert(actions@[f as int]@.len() == a_pre[f as int]@.len() + delta);
                assert(actions@[f as int]@ == a0[f as int]@ + force_actions(
                    l0[f as int].render_manager().entries_seq(),
                    l0[f as int].arena(),
                    regions_front@,
                ));
                assert(total_clean(self.layers@) <= tc_pre - delta);
                assert(total_pending(actions@, indices@) == tp_pre + delta);
                assert forall|k: int|
                    0 <= k < n implies (#[trigger] indices@[k]) <= actions@[k]@.len() by {
                    if k != f {
                        assert(actions@[k] == a_pre[k]);
                    }
                }
            }
            f = f + 1;
        }
        let mut rewound = false;
        let mut rewind: usize = 0;
        let mut bplus = current;
        while bplus > 0
            invariant
                bplus <= current < n,
                self.layers@.len() == n,
                actions@.len() == n,
                l0.len() == n,
                a0.len() == n,
                indices@.len() == n,
                self.wf(),
                forall|k: int| 0 <= k < bplus ==> (#[trigger] self.layers@[k]) == l0[k],
                forall|k: int| 0 <= k < bplus ==> (#[trigger] actions@[k]) == a0[k],
                self.layers@[current as int] == l0[current as int],
                actions@[current as int] == a0[current as int],
                forall|k: int|
                    current < k < n ==> partial_forced(
                        l0[k],
                        #[trigger] self.layers@[k],
                        regions_front@,
                    ),
                forall|k: int|
                    current < k < n ==> (#[trigger] actions@[k])@ == a0[k]@ + force_actions(
                        l0[k].render_manager().entries_seq(),
                        l0[k].arena(),
                        regions_front@,
                    ),
                forall|k: int|
                    bplus <= k < current ==> partial_forced(
                        l0[k],
                        #[trigger] self.layers@[k],
                        regions_back@,
                    ),
                forall|k: int|
                    bplus <= k < current ==> (#[trigger] actions@[k])@ == a0[k]@ + force_actions(
                        l0[k].render_manager().entries_seq(),
                        l0[k].arena(),
                        regions_back@,
                    ),
                rewound ==> bplus <= rewind < current && force_actions(
                    l0[rewind as int].render_manager().entries_seq(),
                    l0[rewind as int].arena(),
                    regions_back@,
                ).len() > 0 && forall|b2: int|
                    bplus <= b2 < rewind ==> force_actions(
                        (#[trigger] l0[b2]).render_manager().entries_seq(),
                        l0[b2].arena(),
                        regions_back@,
                    ).len() == 0,
                !rewound ==> forall|b2: int|
                    bplus <= b2 < current ==> force_actions(
                        (#[trigger] l0[b2]).render_manager().entries_seq(),
                        l0[b2].arena(),
                        regions_back@,
                    ).len() == 0,
                forall|k: int| 0 <= k < n ==> (#[trigger] indices@[k]) <= actions@[k]@.len(),
                2 * total_clean(self.layers@) + total_pending(actions@, indices@) <= phi0,
            decreases bplus,
        {
            let b = bplus - 1;
            let ghost l_pre = self.layers@;
            let ghost a_pre = actions@;
            let ghost tc_pre = total_clean(self.layers@);
            let ghost tp_pre = total_pending(actions@, indices@);
            proof {
                assert(self.layers()[b as int].wf());
            }
            let mut layer = self.layers.remove(b);
            let mut new_acts = layer.force_partial_render(regions_back);
            self.layers.insert(b, layer);
            proof {
                assert(self.layers@ =~= l_pre.update(b as int, self.layers@[b as int]));
                lemma_total_clean_update(l_pre, b as int, self.layers@[b as int]);
                assert forall|k: int| 0 <= k < n implies (#[trigger] self.layers@[k]).wf() by {
                    if k != b {
                        assert(self.layers@[k] == l_pre[k]);
                    }
                }
                assert(l_pre[b as int] == l0[b as int]);
                assert(partial_forced(l0[b as int], self.layers@[b as int], regions_back@));
                assert(new_acts@ == force_actions(
                    l0[b as int].render_manager().entries_seq(),
                    l0[b as int].arena(),
                    regions_back@,
                ));
            }
            let ghost delta: int = new_acts@.len() as int;
            let num_new = new_acts.len();
            let mut ab = actions.remove(b);
            ab.append(&mut new_acts);
            actions.insert(b, ab);
            proof {
                assert(actions@ =~= a_pre.update(b as int, actions@[b as int]));
                lemma_total_pending_update_act(a_pre, indices@, b as int, actions@[b as int]);
                assert(actions@[b as int]@.len() == a_pre[b as int]@.len() + delta);
                assert(actions@[b as int]@ == a0[b as int]@ + force_actions(
                    l0[b as int].render_manager().entries_seq(),
                    l0[b as int].arena(),
                    regions_back@,
                ));
                assert(total_clean(self.layers@) <= tc_pre - delta);
                assert(total_pending(actions@, indices@) == tp_pre + delta);
                assert forall|k: int|
                    0 <= k < n implies (#[trigger] indices@[k]) <= actions@[k]@.len() by {
                    if k != b {
                        assert(actions@[k] == a_pre[k]);
                    }
                }
            }
            if num_new > 0 {
                rewound = true;
                rewind = b;
            }
            bplus = bplus - 1;
        }
        if rewound {
            Some(rewind)
        } else {
            None
        }
    }

    /// Renders the whole stack.  First every layer predicts its redraws;
    /// then redraw requirements are propagated to a fixed point: each
    /// unprocessed redraw forces the overlapping claims of every layer in
    /// front of it, and — when it is not fully occluding — of every layer
    /// behind it, rewinding to the earliest layer newly dirtied that way.
    /// The fixed point is reached because a forced render can only newly
    /// dirty a previously clean behavior once and never cleans one.  Only
    /// then does every layer actually draw, back to front; the rearmost
    /// requested cursor wins, or the default cursor if none.  A container
    /// switch requested during the draw pass is a programming error; the
    /// frontmost such request is surfaced, not applied, so the host can
    /// abort.  The ghost result records the run: one propagation record
    /// per processed batch of redraw actions (layer, batch, stack before,
    /// stack after), the stack at the fixed point, and one draw record per
    /// layer (index, requested cursor, container request).
    pub fn render(&mut self, target: &mut B::DrawTarget) -> (r: (
        Cursor,
        EventResult<B>,
        Ghost<
            (
                Seq<(int, Seq<PlannedRenderAction>, Seq<Layer<B>>, Seq<Layer<B>>)>,
                Seq<Layer<B>>,
                Seq<(int, Option<Cursor>, Option<Box<Container<B>>>)>,
            ),
        >,
    ))
        requires
            old(self).wf(),
        ensures
            final(self).wf(),
            final(self).layers().len() == old(self).layers().len(),
            // Propagation log: one record per processed batch of redraw
            // actions — which layer they belonged to, the layer stack
            // before and after — showing that the whole batch was forced
            // forward onto every layer in front, and only its
            // non-occluding regions backward onto every layer behind.
            forall|t: int|
                0 <= t < r.2@.0.len() ==> {
                    &&& 0 <= (#[trigger] r.2@.0[t]).0 < old(self).layers().len()
                    &&& r.2@.0[t].2.len() == old(self).layers().len()
                    &&& r.2@.0[t].3.len() == old(self).layers().len()
                    &&& r.2@.0[t].3[r.2@.0[t].0] == r.2@.0[t].2[r.2@.0[t].0]
                    &&& forall|f: int|
                        r.2@.0[t].0 < f < old(self).layers().len() ==> partial_forced(
                            #[trigger] r.2@.0[t].2[f],
                            r.2@.0[t].3[f],
                            forward_regions(r.2@.0[t].1),
                        )
                    &&& forall|b: int|
                        0 <= b < r.2@.0[t].0 ==> partial_forced(
                            #[trigger] r.2@.0[t].2[b],
                            r.2@.0[t].3[b],
                            backward_regions(r.2@.0[t].1),
                        )
                },
            // The records chain: each starts from the stack the previous
            // one produced, and the last one produces the stack every
            // layer draws from.
            forall|t: int| 0 <= t < r.2@.0.len() - 1 ==> (#[trigger] r.2@.0[t + 1]).2 == r.2@.0[t].3,
            r.2@.0.len() > 0 ==> r.2@.0.last().3 == r.2@.1,
            // Draw log: after the fixed point, every layer draws exactly
            // once, back to front.
            r.2@.2.len() == old(self).layers().len(),
            forall|t: int| 0 <= t < r.2@.2.len() ==> (#[trigger] r.2@.2[t]).0 == t,
            // The rearmost requested cursor wins, or the default cursor.
            (exists|t: int| 0 <= t < r.2@.2.len() && (#[trigger] r.2@.2[t]).1 is Some)
                ==> exists|t: int|
                0 <= t < r.2@.2.len() && (#[trigger] r.2@.2[t]).1 == Some(r.0) && forall|t2: int|
                    0 <= t2 < t ==> (#[trigger] r.2@.2[t2]).1 is None,
            (forall|t: int| 0 <= t < r.2@.2.len() ==> (#[trigger] r.2@.2[t]).1 is None) ==> r.0
                == Cursor::DEFAULT,
            // A container switch requested during the draw pass is
            // surfaced: the frontmost such request (the last met).
            r.1 is Some ==> exists|t: int|
                0 <= t < r.2@.2.len() && (#[trigger] r.2@.2[t]).2 == r.1 && forall|t2: int|
                    t < t2 < r.2@.2.len() ==> (#[trigger] r.2@.2[t2]).2 is None,
            r.1 is None ==> forall|t: int| 0 <= t < r.2@.2.len() ==> (#[trigger] r.2@.2[t]).2 is None,
    {
        let ghost n = self.layers@.len();
        let ghost mut plog: Seq<(int, Seq<PlannedRenderAction>, Seq<Layer<B>>, Seq<Layer<B>>)> =
            Seq::empty();
        let mut actions: Vec<Vec<PlannedRenderAction>> = Vec::new();
        let mut indices: Vec<usize> = Vec::new();
        let mut i: usize = 0;
        while i < self.layers.len()
            invariant
                i <= n,
                self.layers@.len() == n,
                n == old(self).layers().len(),
                self.wf(),
                actions@.len() == i,
                indices@.len() == i,
                forall|k: int| 0 <= k < i ==> (#[trigger] indices@[k]) <= actions@[k]@.len(),
            decreases n - i,
        {
            let ghost pre = self.layers@;
            proof {
                assert(self.layers()[i as int].wf());
            }
            let mut layer = self.layers.remove(i);
            let predicted = layer.predict_render();
            self.layers.insert(i, layer);
            proof {
                assert(self.layers@ =~= pre.update(i as int, self.layers@[i as int]));
                assert forall|k: int| 0 <= k < n implies (#[trigger] self.layers@[k]).wf() by {
                    if k != i {
                        assert(self.layers@[k] == pre[k]);
                    }
                }
            }
            actions.push(predicted);
            indices.push(0);
            i = i + 1;
        }
        let mut current: usize = 0;
        while current < self.layers.len()
            invariant
                current <= n,
                self.layers@.len() == n,
                n == old(self).layers().len(),
                self.wf(),
                actions@.len() == n,
                indices@.len() == n,
                forall|k: int| 0 <= k < n ==> (#[trigger] indices@[k]) <= actions@[k]@.len(),
                forall|k: int| 0 <= k < current ==> (#[trigger] indices@[k]) == actions@[k]@.len(),
                forall|t: int|
                    0 <= t < plog.len() ==> {
                        &&& 0 <= (#[trigger] plog[t]).0 < n
                        &&& plog[t].2.len() == n
                        &&& plog[t].3.len() == n
                        &&& plog[t].3[plog[t].0] == plog[t].2[plog[t].0]
                        &&& forall|f: int|
                            plog[t].0 < f < n ==> partial_forced(
                                #[trigger] plog[t].2[f],
                                plog[t].3[f],
                                forward_regions(plog[t].1),
                            )
                        &&& forall|b: int|
                            0 <= b < plog[t].0 ==> partial_forced(
                                #[trigger] plog[t].2[b],
                                plog[t].3[b],
                                backward_regions(plog[t].1),
                            )
                    },
                forall|t: int| 0 <= t < plog.len() - 1 ==> (#[trigger] plog[t + 1]).2 == plog[t].3,
                plog.len() > 0 ==> plog.last().3 == self.layers@,
            decreases 2 * total_clean(self.layers@) + total_pending(actions@, indices@),
                n - current,
        {
            let num = actions[current].len();
            let idxc = indices[current];
            if idxc != num {
                let (regions_front, regions_back) = split_propagation(&actions[current], idxc);
                let ghost tp0 = total_pending(actions@, indices@);
                let ghost idxs_pre = indices@;
                let _dropped = indices.remove(current);
                indices.insert(current, num);
                proof {
                    assert(indices@ =~= idxs_pre.update(current as int, num));
                    lemma_total_pending_update_idx(actions@, idxs_pre, current as int, num);
                    assert(total_pending(actions@, indices@) == tp0 + idxc - num);
                }
                let ghost phi_mark = 2 * total_clean(self.layers@) + total_pending(
                    actions@,
                    indices@,
                );
                let ghost acts_batch = actions@[current as int]@.skip(idxc as int);
                let ghost pre_layers = self.layers@;
                let rewind = self.propagate_step(
                    current,
                    &regions_front,
                    &regions_back,
                    &mut actions,
                    &indices,
                );
                proof {
                    plog = plog.push((current as int, acts_batch, pre_layers, self.layers@));
                }
                proof {
                    lemma_total_clean_nonneg(self.layers@);
                    lemma_total_pending_nonneg(actions@, indices@);
                }
                match rewind {
                    Some(b) => {
                        current = b;
                    },
                    None => {
                        current = current + 1;
                    },
                }
                proof {
                    assert forall|k: int|
                        0 <= k < current implies (#[trigger] indices@[k])
                        == actions@[k]@.len() by {}
                }
            } else {
                proof {
                    lemma_total_clean_nonneg(self.layers@);
                    lemma_total_pending_nonneg(actions@, indices@);
                }
                current = current + 1;
            }
        }
        proof {
            // The fixed point: every predicted and every propagated redraw
            // action has been processed before any layer draws.
            assert(forall|k: int|
                0 <= k < n ==> (#[trigger] indices@[k]) == actions@[k]@.len());
        }
        let ghost fixed_point = self.layers@;
        let ghost mut dlog: Seq<(int, Option<Cursor>, Option<Box<Container<B>>>)> = Seq::empty();
        let ghost mut dlog_pre: Seq<(int, Option<Cursor>, Option<Box<Container<B>>>)> =
            Seq::empty();
        let mut maybe_cursor: Option<Cursor> = None;
        let mut container_request: EventResult<B> = None;
        let mut j: usize = 0;
        while j < self.layers.len()
            invariant
                j <= n,
                self.layers@.len() == n,
                n == old(self).layers().len(),
                self.wf(),
                dlog.len() == j,
                forall|t: int| 0 <= t < j ==> (#[trigger] dlog[t]).0 == t,
                maybe_cursor is Some ==> exists|t: int|
                    0 <= t < j && (#[trigger] dlog[t]).1 == maybe_cursor && forall|t2: int|
                        0 <= t2 < t ==> (#[trigger] dlog[t2]).1 is None,
                maybe_cursor is None ==> forall|t: int|
                    0 <= t < j ==> (#[trigger] dlog[t]).1 is None,
                container_request is Some ==> exists|t: int|
                    0 <= t < j && (#[trigger] dlog[t]).2 == container_request && forall|t2: int|
                        t < t2 < j ==> (#[trigger] dlog[t2]).2 is None,
                container_request is None ==> forall|t: int|
                    0 <= t < j ==> (#[trigger] dlog[t]).2 is None,
            decreases n - j,
        {
            let ghost pre = self.layers@;
            proof {
                assert(self.layers()[j as int].wf());
            }
            let mut layer = self.layers.remove(j);
            let (result, layer_request) = layer.on_render(target);
            self.layers.insert(j, layer);
            proof {
                assert(self.layers@ =~= pre.update(j as int, self.layers@[j as int]));
                assert forall|k: int| 0 <= k < n implies (#[trigger] self.layers@[k]).wf() by {
                    if k != j {
                        assert(self.layers@[k] == pre[k]);
                    }
                }
            }
            let requested = result.get_cursor();
            proof {
                dlog_pre = dlog;
                dlog = dlog.push((j as int, requested, layer_request));
            }
            let ghost prev_cursor = maybe_cursor;
            let ghost prev_request = container_request;
            if maybe_cursor.is_none() {
                match requested {
                    Some(c) => {
                        maybe_cursor = Some(c);
                    },
                    None => {},
                }
            }
            match layer_request {
                Some(c) => {
                    container_request = Some(c);
                },
                None => {},
            }
            proof {
                let t_new = dlog.len() - 1;
                assert forall|t2: int| 0 <= t2 < t_new implies dlog[t2] == dlog_pre[t2] by {}
                if prev_cursor is None && dlog[t_new].1 is Some {
                    assert(dlog[t_new].1 == maybe_cursor);
                    assert forall|t2: int|
                        0 <= t2 < t_new implies (#[trigger] dlog[t2]).1 is None by {
                        assert(dlog_pre[t2].1 is None);
                    }
                } else if prev_cursor is Some {
                    let t_old = choose|t: int|
                        0 <= t < dlog_pre.len() && (#[trigger] dlog_pre[t]).1 == prev_cursor
                            && forall|t2: int| 0 <= t2 < t ==> (#[trigger] dlog_pre[t2]).1 is None;
                    assert(dlog[t_old].1 == maybe_cursor);
                    assert forall|t2: int|
                        0 <= t2 < t_old implies (#[trigger] dlog[t2]).1 is None by {
                        assert(dlog_pre[t2].1 is None);
                    }
                } else {
                    assert forall|t2: int|
                        0 <= t2 < dlog.len() implies (#[trigger] dlog[t2]).1 is None by {
                        if t2 < t_new {
                            assert(dlog_pre[t2].1 is None);
                        }
                    }
                }
                if dlog[t_new].2 is Some {
                    assert(dlog[t_new].2 == container_request);
                } else if prev_request is Some {
                    let t_old = choose|t: int|
                        0 <= t < dlog_pre.len() && (#[trigger] dlog_pre[t]).2 == prev_request
                            && forall|t2: int| t < t2 < dlog_pre.len() ==> (
                            #[trigger] dlog_pre[t2]).2 is None;
                    assert(dlog[t_old].2 == container_request);
                    assert forall|t2: int|
                        t_old < t2 < dlog.len() implies (#[trigger] dlog[t2]).2 is None by {
                        if t2 < t_new {
                            assert(dlog_pre[t2].2 is None);
                        }
                    }
                } else {
                    assert forall|t2: int|
                        0 <= t2 < dlog.len() implies (#[trigger] dlog[t2]).2 is None by {
                        if t2 < t_new {
                            assert(dlog_pre[t2].2 is None);
                        }
                    }
                }
            }
            j = j + 1;
        }
        let cursor = match maybe_cursor {
            Some(cursor) => cursor,
            None => Cursor::DEFAULT,
        };
        (cursor, container_request, Ghost((plog, fixed_point, dlog)))
    }
}

} // verus!
