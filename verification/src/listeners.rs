//! Listener records shared by the per-event managers, and the specification
//! vocabulary for their scans.
//!
//! Every manager keeps either region-scoped listeners (they fire only while
//! the mouse is inside their region, and their regions may not overlap
//! within one category) or global listeners (ordered by priority, higher
//! first, ties in registration order).  A scan over a listener list always
//! prunes entries whose behavior has died, invokes the live candidates in
//! list order, and — for consumable categories — stops invoking at the
//! first listener that consumes the event.

use vstd::prelude::*;

use crate::arena::BehaviorArena;
use crate::arena::BehaviorId;
use crate::region::Region;

verus! {

/// A region-scoped subscription.
#[derive(Clone, Copy, PartialEq, Eq, Structural, Debug)]
pub struct RegionListener {
    pub id: BehaviorId,
    pub region: Region,
}

/// A global subscription with a delivery priority.
#[derive(Clone, Copy, PartialEq, Eq, Structural, Debug)]
pub struct GlobalListener {
    pub id: BehaviorId,
    pub priority: i8,
}

/// The region-scoped listeners whose behavior is still alive, in order.
pub open spec fn prune_region_list<B>(s: Seq<RegionListener>, arena: BehaviorArena<B>) -> Seq<
    RegionListener,
>
    decreases s.len(),
{
    if s.len() == 0 {
        Seq::empty()
    } else {
        prune_region_list(s.drop_last(), arena) + if arena.live(s.last().id) {
            seq![s.last()]
        } else {
            Seq::empty()
        }
    }
}

/// The global listeners whose behavior is still alive, in order.
pub open spec fn prune_global_list<B>(s: Seq<GlobalListener>, arena: BehaviorArena<B>) -> Seq<
    GlobalListener,
>
    decreases s.len(),
{
    if s.len() == 0 {
        Seq::empty()
    } else {
        prune_global_list(s.drop_last(), arena) + if arena.live(s.last().id) {
            seq![s.last()]
        } else {
            Seq::empty()
        }
    }
}

/// The plain ids whose behavior is still alive, in order.
pub open spec fn prune_id_list<B>(s: Seq<BehaviorId>, arena: BehaviorArena<B>) -> Seq<BehaviorId>
    decreases s.len(),
{
    if s.len() == 0 {
        Seq::empty()
    } else {
        prune_id_list(s.drop_last(), arena) + if arena.live(s.last()) {
            seq![s.last()]
        } else {
            Seq::empty()
        }
    }
}

/// The behaviors a region-scoped scan would invoke for a mouse position:
/// the live listeners whose region contains it, in list order.  An unknown
/// position selects nobody.
pub open spec fn region_candidates<B>(
    s: Seq<RegionListener>,
    arena: BehaviorArena<B>,
    pos: Option<(i32, i32)>,
) -> Seq<BehaviorId>
    decreases s.len(),
{
    if s.len() == 0 {
        Seq::empty()
    } else {
        region_candidates(s.drop_last(), arena, pos) + if arena.live(s.last().id)
            && s.last().region.contains_opt(pos) {
            seq![s.last().id]
        } else {
            Seq::empty()
        }
    }
}

/// The behaviors a global scan would invoke: all live listeners, in their
/// priority order.
pub open spec fn global_candidates<B>(s: Seq<GlobalListener>, arena: BehaviorArena<B>) -> Seq<
    BehaviorId,
>
    decreases s.len(),
{
    if s.len() == 0 {
        Seq::empty()
    } else {
        global_candidates(s.drop_last(), arena) + if arena.live(s.last().id) {
            seq![s.last().id]
        } else {
            Seq::empty()
        }
    }
}

/// With no known mouse position, a region-scoped scan has no candidates.
pub proof fn lemma_region_candidates_none<B>(s: Seq<RegionListener>, arena: BehaviorArena<B>)
    ensures
        region_candidates(s, arena, None::<(i32, i32)>) == Seq::<BehaviorId>::empty(),
    decreases s.len(),
{
    if s.len() > 0 {
        lemma_region_candidates_none(s.drop_last(), arena);
        assert(region_candidates(s, arena, None::<(i32, i32)>) =~= Seq::<BehaviorId>::empty());
    }
}

/// Every pruned entry comes from the original list.
pub proof fn lemma_prune_region_member<B>(s: Seq<RegionListener>, arena: BehaviorArena<B>, k: int)
    requires
        0 <= k < prune_region_list(s, arena).len(),
    ensures
        exists|m: int| 0 <= m < s.len() && (#[trigger] s[m]) == prune_region_list(s, arena)[k],
    decreases s.len(),
{
    let p = prune_region_list(s, arena);
    if s.len() > 0 {
        let p0 = prune_region_list(s.drop_last(), arena);
        if arena.live(s.last().id) && k == p.len() - 1 {
            assert(p[k] == s.last());
            assert(s[s.len() - 1] == p[k]);
        } else {
            assert(k < p0.len());
            lemma_prune_region_member(s.drop_last(), arena, k);
            let m = choose|m: int|
                0 <= m < s.drop_last().len() && (#[trigger] s.drop_last()[m]) == p0[k];
            assert(s[m] == p[k]);
        }
    }
}

/// Pruning keeps the pairwise disjointness of a region listener list.
pub proof fn lemma_prune_region_pair<B>(
    s: Seq<RegionListener>,
    arena: BehaviorArena<B>,
    i: int,
    j: int,
)
    requires
        forall|a: int, b: int|
            0 <= a < b < s.len() ==> !(#[trigger] s[a]).region.intersects((#[trigger] s[b]).region),
        0 <= i < j < prune_region_list(s, arena).len(),
    ensures
        !prune_region_list(s, arena)[i].region.intersects(prune_region_list(s, arena)[j].region),
    decreases s.len(),
{
    let p = prune_region_list(s, arena);
    if s.len() > 0 {
        let p0 = prune_region_list(s.drop_last(), arena);
        if arena.live(s.last().id) && j == p.len() - 1 {
            assert(p[j] == s.last());
            lemma_prune_region_member(s.drop_last(), arena, i);
            let m = choose|m: int|
                0 <= m < s.drop_last().len() && (#[trigger] s.drop_last()[m]) == p0[i];
            assert(s[m] == p[i]);
            assert(!s[m].region.intersects(s[s.len() - 1].region));
        } else {
            assert(j < p0.len());
            assert forall|a: int, b: int|
                0 <= a < b < s.drop_last().len() implies !(#[trigger] s.drop_last()[a]).region
                    .intersects((#[trigger] s.drop_last()[b]).region) by {
                assert(s.drop_last()[a] == s[a]);
                assert(s.drop_last()[b] == s[b]);
                assert(!s[a].region.intersects(s[b].region));
            }
            lemma_prune_region_pair(s.drop_last(), arena, i, j);
            assert(p[i] == p0[i]);
            assert(p[j] == p0[j]);
        }
    }
}

/// Every pruned global entry comes from the original list.
pub proof fn lemma_prune_global_member<B>(s: Seq<GlobalListener>, arena: BehaviorArena<B>, k: int)
    requires
        0 <= k < prune_global_list(s, arena).len(),
    ensures
        exists|m: int| 0 <= m < s.len() && (#[trigger] s[m]) == prune_global_list(s, arena)[k],
    decreases s.len(),
{
    let p = prune_global_list(s, arena);
    if s.len() > 0 {
        let p0 = prune_global_list(s.drop_last(), arena);
        if arena.live(s.last().id) && k == p.len() - 1 {
            assert(p[k] == s.last());
            assert(s[s.len() - 1] == p[k]);
        } else {
            assert(k < p0.len());
            lemma_prune_global_member(s.drop_last(), arena, k);
            let m = choose|m: int|
                0 <= m < s.drop_last().len() && (#[trigger] s.drop_last()[m]) == p0[k];
            assert(s[m] == p[k]);
        }
    }
}

/// Pruning keeps a global listener list sorted by descending priority.
pub proof fn lemma_prune_global_pair<B>(
    s: Seq<GlobalListener>,
    arena: BehaviorArena<B>,
    i: int,
    j: int,
)
    requires
        sorted_desc(s),
        0 <= i <= j < prune_global_list(s, arena).len(),
    ensures
        prune_global_list(s, arena)[i].priority >= prune_global_list(s, arena)[j].priority,
    decreases s.len(),
{
    let p = prune_global_list(s, arena);
    if i == j {
    } else if s.len() > 0 {
        let p0 = prune_global_list(s.drop_last(), arena);
        if arena.live(s.last().id) && j == p.len() - 1 {
            assert(p[j] == s.last());
            lemma_prune_global_member(s.drop_last(), arena, i);
            let m = choose|m: int|
                0 <= m < s.drop_last().len() && (#[trigger] s.drop_last()[m]) == p0[i];
            assert(s[m] == p[i]);
            assert(s[m].priority >= s[s.len() - 1].priority);
        } else {
            assert(j < p0.len());
            assert(sorted_desc(s.drop_last())) by {
                assert forall|a: int, b: int|
                    0 <= a <= b < s.drop_last().len() implies s.drop_last()[a].priority
                        >= s.drop_last()[b].priority by {
                    assert(s.drop_last()[a] == s[a]);
                    assert(s.drop_last()[b] == s[b]);
                    assert(s[a].priority >= s[b].priority);
                }
            }
            lemma_prune_global_pair(s.drop_last(), arena, i, j);
            assert(p[i] == p0[i]);
            assert(p[j] == p0[j]);
        }
    }
}

/// The ids of a region listener list, in order.
pub open spec fn region_listener_ids(s: Seq<RegionListener>) -> Seq<BehaviorId> {
    s.map_values(|l: RegionListener| l.id)
}

/// The live "in/out" move listeners whose containment state flips between
/// the two mouse positions, in list order.
pub open spec fn in_out_candidates<B>(
    s: Seq<RegionListener>,
    arena: BehaviorArena<B>,
    old_pos: Option<(i32, i32)>,
    new_pos: Option<(i32, i32)>,
) -> Seq<BehaviorId>
    decreases s.len(),
{
    if s.len() == 0 {
        Seq::empty()
    } else {
        in_out_candidates(s.drop_last(), arena, old_pos, new_pos) + if arena.live(s.last().id)
            && (s.last().region.contains_opt(old_pos) != s.last().region.contains_opt(new_pos)) {
            seq![s.last().id]
        } else {
            Seq::empty()
        }
    }
}

/// The live "area" move listeners with either end of the move inside their
/// region, in list order.
pub open spec fn area_move_candidates<B>(
    s: Seq<RegionListener>,
    arena: BehaviorArena<B>,
    old_pos: Option<(i32, i32)>,
    new_pos: Option<(i32, i32)>,
) -> Seq<BehaviorId>
    decreases s.len(),
{
    if s.len() == 0 {
        Seq::empty()
    } else {
        area_move_candidates(s.drop_last(), arena, old_pos, new_pos) + if arena.live(s.last().id)
            && (s.last().region.contains_opt(old_pos) || s.last().region.contains_opt(new_pos)) {
            seq![s.last().id]
        } else {
            Seq::empty()
        }
    }
}

/// Appending one id to a sequence adds exactly that id to its membership.
pub proof fn lemma_seq_add_contains(s: Seq<BehaviorId>, x: BehaviorId)
    ensures
        forall|y: BehaviorId| #[trigger] (s + seq![x]).contains(y) <==> s.contains(y) || y == x,
{
    assert forall|y: BehaviorId| #[trigger] (s + seq![x]).contains(y) implies s.contains(y) || y
        == x by {
        let m = choose|m: int| 0 <= m < (s + seq![x]).len() && (s + seq![x])[m] == y;
        if m < s.len() {
            assert(s[m] == y);
        }
    }
    assert forall|y: BehaviorId| s.contains(y) || y == x implies #[trigger] (s
        + seq![x]).contains(y) by {
        if s.contains(y) {
            let m = choose|m: int| 0 <= m < s.len() && s[m] == y;
            assert((s + seq![x])[m] == y);
        } else {
            assert((s + seq![x])[s.len() as int] == y);
        }
    }
}

/// Which callback a click scan delivered to a listener: a click inside
/// its region, a click outside it, or the unconditional global callback.
#[derive(Clone, Copy, PartialEq, Eq, Structural)]
pub enum ClickKind {
    Inside,
    Outside,
    Anywhere,
}

/// One invocation in a click scan: who was called, and which callback.
#[derive(Clone, Copy, PartialEq, Eq, Structural)]
pub struct ClickStep {
    pub id: BehaviorId,
    pub kind: ClickKind,
}

/// The invocations a region-scoped click scan performs for a known mouse
/// position: every live listener hears the click exactly once, inside its
/// region when the position is within, outside otherwise, in list order.
pub open spec fn area_click_steps<B>(
    s: Seq<RegionListener>,
    arena: BehaviorArena<B>,
    pos: (i32, i32),
) -> Seq<ClickStep>
    decreases s.len(),
{
    if s.len() == 0 {
        Seq::empty()
    } else {
        area_click_steps(s.drop_last(), arena, pos) + if arena.live(s.last().id) {
            seq![
                ClickStep {
                    id: s.last().id,
                    kind: if s.last().region.contains_point(pos) {
                        ClickKind::Inside
                    } else {
                        ClickKind::Outside
                    },
                },
            ]
        } else {
            Seq::empty()
        }
    }
}

/// The invocations a region-scoped click scan performs when no mouse
/// position is known: every live listener hears the click outside its
/// region, in list order.
pub open spec fn outside_click_steps<B>(s: Seq<RegionListener>, arena: BehaviorArena<B>) -> Seq<
    ClickStep,
>
    decreases s.len(),
{
    if s.len() == 0 {
        Seq::empty()
    } else {
        outside_click_steps(s.drop_last(), arena) + if arena.live(s.last().id) {
            seq![ClickStep { id: s.last().id, kind: ClickKind::Outside }]
        } else {
            Seq::empty()
        }
    }
}

/// The invocations the global half of a click scan performs: every live
/// listener hears the click unconditionally, in list order.
pub open spec fn anywhere_click_steps<B>(s: Seq<BehaviorId>, arena: BehaviorArena<B>) -> Seq<
    ClickStep,
>
    decreases s.len(),
{
    if s.len() == 0 {
        Seq::empty()
    } else {
        anywhere_click_steps(s.drop_last(), arena) + if arena.live(s.last()) {
            seq![ClickStep { id: s.last(), kind: ClickKind::Anywhere }]
        } else {
            Seq::empty()
        }
    }
}

/// The ids a scan's trace says were invoked, in order.
pub open spec fn trace_ids(trace: Seq<DispatchStep>) -> Seq<BehaviorId> {
    trace.map_values(|st: DispatchStep| st.id)
}

/// One invocation in a consumable scan: who was invoked and whether they
/// consumed the event.
#[derive(Clone, Copy, PartialEq, Eq, Structural)]
pub struct DispatchStep {
    pub id: BehaviorId,
    pub consumed: bool,
}

/// The shape of a consumable scan over the candidate list `cands`: the
/// invoked listeners form a prefix of the candidates; nobody is invoked
/// after a consumption; the scan stops early only because of a consumption;
/// and the scan's outcome is its last invocation's outcome.
pub open spec fn consuming_scan(
    cands: Seq<BehaviorId>,
    trace: Seq<DispatchStep>,
    consumed: bool,
) -> bool {
    &&& trace.len() <= cands.len()
    &&& forall|i: int| 0 <= i < trace.len() ==> (#[trigger] trace[i].id) == cands[i]
    &&& forall|i: int| 0 <= i < trace.len() - 1 ==> !(#[trigger] trace[i].consumed)
    &&& consumed == (trace.len() > 0 && trace.last().consumed)
    &&& !consumed ==> trace.len() == cands.len()
}

/// Whether a scan's last invocation consumed the event.
pub open spec fn scan_consumed(trace: Seq<DispatchStep>) -> bool {
    trace.len() > 0 && trace.last().consumed
}

/// Consumption short-circuit: in a well-formed consumable scan, as soon as
/// one listener consumes the event, no further candidate is invoked — the
/// consumer is the last invocation of the scan.
pub proof fn lemma_consumption_short_circuit(
    cands: Seq<BehaviorId>,
    trace: Seq<DispatchStep>,
    consumed: bool,
    i: int,
)
    requires
        consuming_scan(cands, trace, consumed),
        0 <= i < trace.len(),
        trace[i].consumed,
    ensures
        trace.len() == i + 1,
        consumed,
{
    if trace.len() > i + 1 {
        assert(!trace[i].consumed);
    }
    assert(trace.last().consumed);
}

/// Priorities never increase along the list: higher priorities stand first.
pub open spec fn sorted_desc(s: Seq<GlobalListener>) -> bool {
    forall|i: int, j: int| 0 <= i <= j < s.len() ==> s[i].priority >= s[j].priority
}

/// Inserts a global listener into a priority-sorted list: after every
/// listener of equal or higher priority, before every strictly lower one,
/// so higher priorities deliver first and ties keep registration order.
pub(crate) fn insert_by_priority(list: &mut Vec<GlobalListener>, id: BehaviorId, priority: i8)
    requires
        sorted_desc(old(list)@),
    ensures
        sorted_desc(final(list)@),
        exists|k: int|
            {
                &&& 0 <= k <= old(list)@.len()
                &&& final(list)@ == old(list)@.insert(k, (GlobalListener { id, priority }))
                &&& forall|i: int| 0 <= i < k ==> old(list)@[i].priority >= priority
                &&& forall|i: int| k <= i < old(list)@.len() ==> old(list)@[i].priority < priority
            },
{
    let mut k: usize = 0;
    while k < list.len() && list[k].priority >= priority
        invariant
            k <= list@.len(),
            forall|i: int| 0 <= i < k ==> list@[i].priority >= priority,
        decreases list@.len() - k,
    {
        k = k + 1;
    }
    proof {
        assert forall|i: int| k <= i < list@.len() implies list@[i].priority < priority by {
            assert(list@[k as int].priority >= list@[i].priority);
        }
    }
    let ghost before = list@;
    list.insert(k, GlobalListener { id, priority });
    proof {
        let after = list@;
        assert forall|i: int, j: int| 0 <= i <= j < after.len() implies after[i].priority
            >= after[j].priority by {
            if i < k && j < k {
                assert(after[i] == before[i] && after[j] == before[j]);
            } else if i < k && j == k {
                assert(after[i] == before[i]);
            } else if i < k && j > k {
                assert(after[i] == before[i] && after[j] == before[j - 1]);
            } else if i == k && j > k {
                assert(after[j] == before[j - 1]);
            } else if i > k && j > k {
                assert(after[i] == before[i - 1] && after[j] == before[j - 1]);
            }
        }
    }
}

/// Every surviving region listener is alive.
pub proof fn lemma_prune_region_live<B>(s: Seq<RegionListener>, arena: BehaviorArena<B>, k: int)
    requires
        0 <= k < prune_region_list(s, arena).len(),
    ensures
        arena.live(prune_region_list(s, arena)[k].id),
    decreases s.len(),
{
    let p = prune_region_list(s, arena);
    if s.len() > 0 {
        let p0 = prune_region_list(s.drop_last(), arena);
        if arena.live(s.last().id) && k == p.len() - 1 {
            assert(p[k] == s.last());
        } else {
            assert(k < p0.len());
            lemma_prune_region_live(s.drop_last(), arena, k);
            assert(p[k] == p0[k]);
        }
    }
}

/// Every scan candidate is alive.
pub proof fn lemma_region_candidates_live<B>(
    s: Seq<RegionListener>,
    arena: BehaviorArena<B>,
    pos: Option<(i32, i32)>,
    k: int,
)
    requires
        0 <= k < region_candidates(s, arena, pos).len(),
    ensures
        arena.live(region_candidates(s, arena, pos)[k]),
    decreases s.len(),
{
    let c = region_candidates(s, arena, pos);
    if s.len() > 0 {
        let c0 = region_candidates(s.drop_last(), arena, pos);
        if arena.live(s.last().id) && s.last().region.contains_opt(pos) && k == c.len() - 1 {
            assert(c[k] == s.last().id);
        } else {
            assert(k < c0.len());
            lemma_region_candidates_live(s.drop_last(), arena, pos, k);
            assert(c[k] == c0[k]);
        }
    }
}

/// Weak-reference self-cleaning: once a listener's behavior has died, the
/// next scan of its category drops the entry without invoking it — the
/// dead id survives neither in the pruned list nor among the scan's
/// candidates.
pub proof fn lemma_dead_listener_self_cleaning<B>(
    s: Seq<RegionListener>,
    arena: BehaviorArena<B>,
    dead: BehaviorId,
    pos: Option<(i32, i32)>,
)
    requires
        !arena.live(dead),
    ensures
        forall|m: int|
            0 <= m < prune_region_list(s, arena).len() ==> (#[trigger] prune_region_list(
                s,
                arena,
            )[m]).id != dead,
        !region_candidates(s, arena, pos).contains(dead),
{
    assert forall|m: int|
        0 <= m < prune_region_list(s, arena).len() implies (#[trigger] prune_region_list(
        s,
        arena,
    )[m]).id != dead by {
        lemma_prune_region_live(s, arena, m);
    }
    assert forall|m: int|
        0 <= m < region_candidates(s, arena, pos).len() implies (#[trigger] region_candidates(
        s,
        arena,
        pos,
    )[m]) != dead by {
        lemma_region_candidates_live(s, arena, pos, m);
    }
    if region_candidates(s, arena, pos).contains(dead) {
        let m = choose|m: int|
            0 <= m < region_candidates(s, arena, pos).len() && region_candidates(s, arena, pos)[m]
                == dead;
        assert(region_candidates(s, arena, pos)[m] != dead);
    }
}

} // verus!
