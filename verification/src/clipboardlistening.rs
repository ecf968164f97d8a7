//! Clipboard event delivery for one layer.
//!
//! Copy, paste and cut listeners are all global, sorted by priority.  A
//! copy or cut scan stops at the first listener that offers data; a paste
//! scan stops at the first listener that consumes the pasted data.

use vstd::prelude::*;

use crate::arena::BehaviorArena;
use crate::arena::BehaviorId;
use crate::params::ClipboardData;
use crate::listeners::DispatchStep;
use crate::listeners::GlobalListener;
use crate::listeners::consuming_scan;
use crate::listeners::global_candidates;
use crate::listeners::insert_by_priority;
use crate::listeners::prune_global_list;
use crate::listeners::lemma_prune_global_pair;
use crate::listeners::scan_consumed;
use crate::listeners::sorted_desc;
use crate::listeners::trace_ids;

verus! {

pub struct ClipboardManager {
    copy_listeners: Vec<GlobalListener>,
    paste_listeners: Vec<GlobalListener>,
    cut_listeners: Vec<GlobalListener>,
}

impl ClipboardManager {
    pub closed spec fn copy_list(self) -> Seq<GlobalListener> {
        self.copy_listeners@
    }

    pub closed spec fn paste_list(self) -> Seq<GlobalListener> {
        self.paste_listeners@
    }

    pub closed spec fn cut_list(self) -> Seq<GlobalListener> {
        self.cut_listeners@
    }

    pub open spec fn wf(self) -> bool {
        &&& sorted_desc(self.copy_list())
        &&& sorted_desc(self.paste_list())
        &&& sorted_desc(self.cut_list())
    }

    pub fn new() -> (r: ClipboardManager)
        ensures
            r.copy_list() == Seq::<GlobalListener>::empty(),
            r.paste_list() == Seq::<GlobalListener>::empty(),
            r.cut_list() == Seq::<GlobalListener>::empty(),
            r.wf(),
    {
        ClipboardManager {
            copy_listeners: Vec::new(),
            paste_listeners: Vec::new(),
            cut_listeners: Vec::new(),
        }
    }

    pub fn add_copy_listener(&mut self, id: BehaviorId, priority: i8)
        requires
            old(self).wf(),
        ensures
            final(self).wf(),
            final(self).paste_list() == old(self).paste_list(),
            final(self).cut_list() == old(self).cut_list(),
            exists|k: int|
                {
                    &&& 0 <= k <= old(self).copy_list().len()
                    &&& final(self).copy_list() == old(self).copy_list().insert(
                        k,
                        (GlobalListener { id, priority }),
                    )
                    &&& forall|i: int| 0 <= i < k ==> old(self).copy_list()[i].priority >= priority
                    &&& forall|i: int|
                        k <= i < old(self).copy_list().len() ==> old(self).copy_list()[i].priority
                            < priority
                },
    {
        insert_by_priority(&mut self.copy_listeners, id, priority);
    }

    pub fn add_paste_listener(&mut self, id: BehaviorId, priority: i8)
        requires
            old(self).wf(),
        ensures
            final(self).wf(),
            final(self).copy_list() == old(self).copy_list(),
            final(self).cut_list() == old(self).cut_list(),
            exists|k: int|
                {
                    &&& 0 <= k <= old(self).paste_list().len()
                    &&& final(self).paste_list() == old(self).paste_list().insert(
                        k,
                        (GlobalListener { id, priority }),
                    )
                    &&& forall|i: int|
                        0 <= i < k ==> old(self).paste_list()[i].priority >= priority
                    &&& forall|i: int|
                        k <= i < old(self).paste_list().len() ==> old(
                            self,
                        ).paste_list()[i].priority < priority
                },
    {
        insert_by_priority(&mut self.paste_listeners, id, priority);
    }

    pub fn add_cut_listener(&mut self, id: BehaviorId, priority: i8)
        requires
            old(self).wf(),
        ensures
            final(self).wf(),
            final(self).copy_list() == old(self).copy_list(),
            final(self).paste_list() == old(self).paste_list(),
            exists|k: int|
                {
                    &&& 0 <= k <= old(self).cut_list().len()
                    &&& final(self).cut_list() == old(self).cut_list().insert(
                        k,
                        (GlobalListener { id, priority }),
                    )
                    &&& forall|i: int| 0 <= i < k ==> old(self).cut_list()[i].priority >= priority
                    &&& forall|i: int|
                        k <= i < old(self).cut_list().len() ==> old(self).cut_list()[i].priority
                            < priority
                },
    {
        insert_by_priority(&mut self.cut_listeners, id, priority);
    }

    /// Asks the copy listeners, in priority order, for data to place on
    /// the clipboard; the first live listener that offers data wins, and
    /// later listeners are not asked.  Dead listeners are pruned without
    /// being invoked.
    pub fn fire_copy_event<B: crate::component::ComponentBehavior>(
        &mut self,
        arena: &mut BehaviorArena<B>,
    ) -> (r: (
        Option<ClipboardData>,
        Ghost<Seq<DispatchStep>>,
        Ghost<Seq<Option<ClipboardData>>>,
    ))
        requires
            old(self).wf(),
            old(arena).wf(),
        ensures
            final(self).wf(),
            final(arena).wf(),
            final(arena).slots_len() == old(arena).slots_len(),
            forall|id: BehaviorId| final(arena).live(id) == old(arena).live(id),
            forall|id: BehaviorId|
                old(arena).live(id) && !trace_ids(r.1@).contains(id) ==> final(arena).slot_of(id)
                    == old(arena).slot_of(id),
            forall|id: BehaviorId|
                old(arena).live(id) ==> final(arena).slot_of(id).component == old(arena).slot_of(
                    id,
                ).component,
            consuming_scan(
                global_candidates(old(self).copy_list(), *old(arena)),
                r.1@,
                r.0 is Some,
            ),
            r.2@.len() == r.1@.len(),
            forall|t: int| 0 <= t < r.1@.len() ==> ((#[trigger] r.2@[t]) is Some) == r.1@[t].consumed,
            r.0 == (if scan_consumed(r.1@) {
                r.2@.last()
            } else {
                None::<ClipboardData>
            }),
            final(self).copy_list() == prune_global_list(old(self).copy_list(), *old(arena)),
            final(self).paste_list() == old(self).paste_list(),
            final(self).cut_list() == old(self).cut_list(),
    {
        let ghost arena0 = *arena;
        let ghost g = self.copy_listeners@;
        let mut result: Option<ClipboardData> = None;
        let ghost mut trace: Seq<DispatchStep> = Seq::empty();
        let ghost mut offers: Seq<Option<ClipboardData>> = Seq::empty();
        let mut kept: Vec<GlobalListener> = Vec::new();
        let mut j: usize = 0;
        proof {
            assert(g.take(0) =~= Seq::<GlobalListener>::empty());
        }
        while j < self.copy_listeners.len()
            invariant
                j <= g.len(),
                self.copy_listeners@ == g,
                self.paste_listeners@ == old(self).paste_list(),
                self.cut_listeners@ == old(self).cut_list(),
                arena.wf(),
                arena0.wf(),
                arena.slots_len() == arena0.slots_len(),
                forall|id: BehaviorId| arena.live(id) == arena0.live(id),
                forall|id: BehaviorId|
                    arena0.live(id) && !trace_ids(trace).contains(id) ==> arena.slot_of(id)
                        == arena0.slot_of(id),
                forall|id: BehaviorId|
                    arena0.live(id) ==> arena.slot_of(id).component == arena0.slot_of(
                        id,
                    ).component,
                kept@ == prune_global_list(g.take(j as int), arena0),
                consuming_scan(
                    global_candidates(g.take(j as int), arena0),
                    trace,
                    result is Some,
                ),
                offers.len() == trace.len(),
                forall|t: int|
                    0 <= t < trace.len() ==> ((#[trigger] offers[t]) is Some) == trace[t].consumed,
                result == (if scan_consumed(trace) {
                    offers.last()
                } else {
                    None::<ClipboardData>
                }),
            decreases g.len() - j,
        {
            let listener = self.copy_listeners[j];
            proof {
                assert(g.take(j + 1 as int).drop_last() =~= g.take(j as int));
                assert(g.take(j + 1 as int).last() == g[j as int]);
            }
            if arena.is_live(listener.id) {
                kept.push(listener);
                if result.is_none() {
                    let maybe_slot = arena.take(listener.id);
                    match maybe_slot {
                        Some(mut slot) => {
                            let d = slot.behavior.on_copy(&mut slot.agent);
                            let got = d.is_some();
                            arena.restore(listener.id, slot);
                            proof {
                                offers = offers.push(d);
                                let step = DispatchStep { id: listener.id, consumed: got };
                                let t2 = trace.push(step);
                                assert(trace_ids(t2) =~= trace_ids(trace).push(listener.id));
                                assert forall|id2: BehaviorId|
                                    trace_ids(trace).contains(id2) implies trace_ids(
                                    t2,
                                ).contains(id2) by {
                                    let m = choose|m: int|
                                        0 <= m < trace_ids(trace).len() && trace_ids(trace)[m]
                                            == id2;
                                    assert(trace_ids(t2)[m] == id2);
                                }
                                assert(trace_ids(t2).contains(listener.id)) by {
                                    assert(trace_ids(t2)[t2.len() - 1] == listener.id);
                                }
                                assert(global_candidates(g.take(j + 1 as int), arena0)[trace.len() as int]
                                    == listener.id);
                                trace = t2;
                            }
                            if got {
                                result = d;
                            }
                        },
                        None => {
                            proof {
                                assert(false);
                            }
                        },
                    }
                }
            }
            j = j + 1;
        }
        proof {
            assert(g.take(g.len() as int) =~= g);
        }
        self.copy_listeners = kept;
        proof {
            assert forall|a: int, b: int|
                0 <= a <= b < g.len() implies g[a].priority >= g[b].priority by {
                assert(old(self).copy_list()[a].priority >= old(self).copy_list()[b].priority);
            }
            assert(sorted_desc(self.copy_list())) by {
                assert forall|a: int, b: int|
                    0 <= a <= b < self.copy_list().len() implies self.copy_list()[a].priority
                        >= self.copy_list()[b].priority by {
                    lemma_prune_global_pair(g, arena0, a, b);
                }
            }
            assert(sorted_desc(self.paste_list())) by {
                assert forall|a: int, b: int|
                    0 <= a <= b < self.paste_list().len() implies self.paste_list()[a].priority
                        >= self.paste_list()[b].priority by {
                    assert(old(self).paste_list()[a].priority >= old(self).paste_list()[b].priority);
                }
            }
            assert(sorted_desc(self.cut_list())) by {
                assert forall|a: int, b: int|
                    0 <= a <= b < self.cut_list().len() implies self.cut_list()[a].priority
                        >= self.cut_list()[b].priority by {
                    assert(old(self).cut_list()[a].priority >= old(self).cut_list()[b].priority);
                }
            }
        }
        (result, Ghost(trace), Ghost(offers))
    }

    /// Offers pasted data to the paste listeners, in priority order, until
    /// one consumes it.  Dead listeners are pruned without being invoked.
    pub fn fire_paste_event<B: crate::component::ComponentBehavior>(
        &mut self,
        arena: &mut BehaviorArena<B>,
        clipboard: &ClipboardData,
    ) -> (r: (bool, Ghost<Seq<DispatchStep>>))
        requires
            old(self).wf(),
            old(arena).wf(),
        ensures
            final(self).wf(),
            final(arena).wf(),
            final(arena).slots_len() == old(arena).slots_len(),
            forall|id: BehaviorId| final(arena).live(id) == old(arena).live(id),
            forall|id: BehaviorId|
                old(arena).live(id) && !trace_ids(r.1@).contains(id) ==> final(arena).slot_of(id)
                    == old(arena).slot_of(id),
            forall|id: BehaviorId|
                old(arena).live(id) ==> final(arena).slot_of(id).component == old(arena).slot_of(
                    id,
                ).component,
            consuming_scan(
                global_candidates(old(self).paste_list(), *old(arena)),
                r.1@,
                r.0,
            ),
            final(self).paste_list() == prune_global_list(old(self).paste_list(), *old(arena)),
            final(self).copy_list() == old(self).copy_list(),
            final(self).cut_list() == old(self).cut_list(),
    {
        let ghost arena0 = *arena;
        let ghost g = self.paste_listeners@;
        let mut result: bool = false;
        let ghost mut trace: Seq<DispatchStep> = Seq::empty();
        let mut kept: Vec<GlobalListener> = Vec::new();
        let mut j: usize = 0;
        proof {
            assert(g.take(0) =~= Seq::<GlobalListener>::empty());
        }
        while j < self.paste_listeners.len()
            invariant
                j <= g.len(),
                self.paste_listeners@ == g,
                self.copy_listeners@ == old(self).copy_list(),
                self.cut_listeners@ == old(self).cut_list(),
                arena.wf(),
                arena0.wf(),
                arena.slots_len() == arena0.slots_len(),
                forall|id: BehaviorId| arena.live(id) == arena0.live(id),
                forall|id: BehaviorId|
                    arena0.live(id) && !trace_ids(trace).contains(id) ==> arena.slot_of(id)
                        == arena0.slot_of(id),
                forall|id: BehaviorId|
                    arena0.live(id) ==> arena.slot_of(id).component == arena0.slot_of(
                        id,
                    ).component,
                kept@ == prune_global_list(g.take(j as int), arena0),
                consuming_scan(
                    global_candidates(g.take(j as int), arena0),
                    trace,
                    result,
                ),
            decreases g.len() - j,
        {
            let listener = self.paste_listeners[j];
            proof {
                assert(g.take(j + 1 as int).drop_last() =~= g.take(j as int));
                assert(g.take(j + 1 as int).last() == g[j as int]);
            }
            if arena.is_live(listener.id) {
                kept.push(listener);
                if !result {
                    let maybe_slot = arena.take(listener.id);
                    match maybe_slot {
                        Some(mut slot) => {
                            let c = slot.behavior.on_paste(&mut slot.agent, clipboard);
                            arena.restore(listener.id, slot);
                            proof {
                                let step = DispatchStep { id: listener.id, consumed: c };
                                let t2 = trace.push(step);
                                assert(trace_ids(t2) =~= trace_ids(trace).push(listener.id));
                                assert forall|id2: BehaviorId|
                                    trace_ids(trace).contains(id2) implies trace_ids(
                                    t2,
                                ).contains(id2) by {
                                    let m = choose|m: int|
                                        0 <= m < trace_ids(trace).len() && trace_ids(trace)[m]
                                            == id2;
                                    assert(trace_ids(t2)[m] == id2);
                                }
                                assert(trace_ids(t2).contains(listener.id)) by {
                                    assert(trace_ids(t2)[t2.len() - 1] == listener.id);
                                }
                                assert(global_candidates(g.take(j + 1 as int), arena0)[trace.len() as int]
                                    == listener.id);
                                trace = t2;
                            }
                            result = c;
                        },
                        None => {
                            proof {
                                assert(false);
                            }
                        },
                    }
                }
            }
            j = j + 1;
        }
        proof {
            assert(g.take(g.len() as int) =~= g);
        }
        self.paste_listeners = kept;
        proof {
            assert forall|a: int, b: int|
                0 <= a <= b < g.len() implies g[a].priority >= g[b].priority by {
                assert(old(self).paste_list()[a].priority >= old(self).paste_list()[b].priority);
            }
            assert(sorted_desc(self.paste_list())) by {
                assert forall|a: int, b: int|
                    0 <= a <= b < self.paste_list().len() implies self.paste_list()[a].priority
                        >= self.paste_list()[b].priority by {
                    lemma_prune_global_pair(g, arena0, a, b);
                }
            }
            assert(sorted_desc(self.copy_list())) by {
                assert forall|a: int, b: int|
                    0 <= a <= b < self.copy_list().len() implies self.copy_list()[a].priority
                        >= self.copy_list()[b].priority by {
                    assert(old(self).copy_list()[a].priority >= old(self).copy_list()[b].priority);
                }
            }
            assert(sorted_desc(self.cut_list())) by {
                assert forall|a: int, b: int|
                    0 <= a <= b < self.cut_list().len() implies self.cut_list()[a].priority
                        >= self.cut_list()[b].priority by {
                    assert(old(self).cut_list()[a].priority >= old(self).cut_list()[b].priority);
                }
            }
        }
        (result, Ghost(trace))
    }

    /// Asks the cut listeners, in priority order, for data to cut to the
    /// clipboard; the first live listener that offers data wins, and later
    /// listeners are not asked.  Dead listeners are pruned without being
    /// invoked.
    pub fn fire_cut_event<B: crate::component::ComponentBehavior>(
        &mut self,
        arena: &mut BehaviorArena<B>,
    ) -> (r: (
        Option<ClipboardData>,
        Ghost<Seq<DispatchStep>>,
        Ghost<Seq<Option<ClipboardData>>>,
    ))
        requires
            old(self).wf(),
            old(arena).wf(),
        ensures
            final(self).wf(),
            final(arena).wf(),
            final(arena).slots_len() == old(arena).slots_len(),
            forall|id: BehaviorId| final(arena).live(id) == old(arena).live(id),
            forall|id: BehaviorId|
                old(arena).live(id) && !trace_ids(r.1@).contains(id) ==> final(arena).slot_of(id)
                    == old(arena).slot_of(id),
            forall|id: BehaviorId|
                old(arena).live(id) ==> final(arena).slot_of(id).component == old(arena).slot_of(
                    id,
                ).component,
            consuming_scan(
                global_candidates(old(self).cut_list(), *old(arena)),
                r.1@,
                r.0 is Some,
            ),
            r.2@.len() == r.1@.len(),
            forall|t: int| 0 <= t < r.1@.len() ==> ((#[trigger] r.2@[t]) is Some) == r.1@[t].consumed,
            r.0 == (if scan_consumed(r.1@) {
                r.2@.last()
            } else {
                None::<ClipboardData>
            }),
            final(self).cut_list() == prune_global_list(old(self).cut_list(), *old(arena)),
            final(self).copy_list() == old(self).copy_list(),
            final(self).paste_list() == old(self).paste_list(),
    {
        let ghost arena0 = *arena;
        let ghost g = self.cut_listeners@;
        let mut result: Option<ClipboardData> = None;
        let ghost mut trace: Seq<DispatchStep> = Seq::empty();
        let ghost mut offers: Seq<Option<ClipboardData>> = Seq::empty();
        let mut kept: Vec<GlobalListener> = Vec::new();
        let mut j: usize = 0;
        proof {
            assert(g.take(0) =~= Seq::<GlobalListener>::empty());
        }
        while j < self.cut_listeners.len()
            invariant
                j <= g.len(),
                self.cut_listeners@ == g,
                self.copy_listeners@ == old(self).copy_list(),
                self.paste_listeners@ == old(self).paste_list(),
                arena.wf(),
                arena0.wf(),
                arena.slots_len() == arena0.slots_len(),
                forall|id: BehaviorId| arena.live(id) == arena0.live(id),
                forall|id: BehaviorId|
                    arena0.live(id) && !trace_ids(trace).contains(id) ==> arena.slot_of(id)
                        == arena0.slot_of(id),
                forall|id: BehaviorId|
                    arena0.live(id) ==> arena.slot_of(id).component == arena0.slot_of(
                        id,
                    ).component,
                kept@ == prune_global_list(g.take(j as int), arena0),
                consuming_scan(
                    global_candidates(g.take(j as int), arena0),
                    trace,
                    result is Some,
                ),
                offers.len() == trace.len(),
                forall|t: int|
                    0 <= t < trace.len() ==> ((#[trigger] offers[t]) is Some) == trace[t].consumed,
                result == (if scan_consumed(trace) {
                    offers.last()
                } else {
                    None::<ClipboardData>
                }),
            decreases g.len() - j,
        {
            let listener = self.cut_listeners[j];
            proof {
                assert(g.take(j + 1 as int).drop_last() =~= g.take(j as int));
                assert(g.take(j + 1 as int).last() == g[j as int]);
            }
            if arena.is_live(listener.id) {
                kept.push(listener);
                if result.is_none() {
                    let maybe_slot = arena.take(listener.id);
                    match maybe_slot {
                        Some(mut slot) => {
                            let d = slot.behavior.on_cut(&mut slot.agent);
                            let got = d.is_some();
                            arena.restore(listener.id, slot);
                            proof {
                                offers = offers.push(d);
                                let step = DispatchStep { id: listener.id, consumed: got };
                                let t2 = trace.push(step);
                                assert(trace_ids(t2) =~= trace_ids(trace).push(listener.id));
                                assert forall|id2: BehaviorId|
                                    trace_ids(trace).contains(id2) implies trace_ids(
                                    t2,
                                ).contains(id2) by {
                                    let m = choose|m: int|
                                        0 <= m < trace_ids(trace).len() && trace_ids(trace)[m]
                                            == id2;
                                    assert(trace_ids(t2)[m] == id2);
                                }
                                assert(trace_ids(t2).contains(listener.id)) by {
                                    assert(trace_ids(t2)[t2.len() - 1] == listener.id);
                                }
                                assert(global_candidates(g.take(j + 1 as int), arena0)[trace.len() as int]
                                    == listener.id);
                                trace = t2;
                            }
                            if got {
                                result = d;
                            }
                        },
                        None => {
                            proof {
                                assert(false);
                            }
                        },
                    }
                }
            }
            j = j + 1;
        }
        proof {
            assert(g.take(g.len() as int) =~= g);
        }
        self.cut_listeners = kept;
        proof {
            assert forall|a: int, b: int|
                0 <= a <= b < g.len() implies g[a].priority >= g[b].priority by {
                assert(old(self).cut_list()[a].priority >= old(self).cut_list()[b].priority);
            }
            assert(sorted_desc(self.cut_list())) by {
                assert forall|a: int, b: int|
                    0 <= a <= b < self.cut_list().len() implies self.cut_list()[a].priority
                        >= self.cut_list()[b].priority by {
                    lemma_prune_global_pair(g, arena0, a, b);
                }
            }
            assert(sorted_desc(self.copy_list())) by {
                assert forall|a: int, b: int|
                    0 <= a <= b < self.copy_list().len() implies self.copy_list()[a].priority
                        >= self.copy_list()[b].priority by {
                    assert(old(self).copy_list()[a].priority >= old(self).copy_list()[b].priority);
                }
            }
            assert(sorted_desc(self.paste_list())) by {
                assert forall|a: int, b: int|
                    0 <= a <= b < self.paste_list().len() implies self.paste_list()[a].priority
                        >= self.paste_list()[b].priority by {
                    assert(old(self).paste_list()[a].priority >= old(self).paste_list()[b].priority);
                }
            }
        }
        (result, Ghost(trace), Ghost(offers))
    }
}

} // verus!
