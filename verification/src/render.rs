//! Render bookkeeping for one layer: which regions are claimed for
//! rendering, which of them must be redrawn this frame, and how a forced
//! redraw of some area ripples into the claims that overlap it.
//!
//! Claimed render regions within one layer never overlap (enforced at claim
//! time).  Claims are kept sorted by render phase, so multi-pass rendering
//! (background preparation, text batching, overlays) interleaves
//! deterministically across behaviors.

use vstd::prelude::*;

use crate::arena::BehaviorArena;
use crate::arena::BehaviorId;
use crate::color::Color;
use crate::phase::RenderPhaseID;
use crate::phase::RenderPhaseStore;
use crate::region::COORD_LIMIT;
use crate::region::Region;
use crate::component::RenderBackend;
use crate::region::spec_uncovered;

verus! {

/// Negated viewport bound, usable in both executable and spec code.
pub const COORD_LIMIT_NEG: i32 = -1_000_000;

/// The viewport rectangle as a specification value.
pub open spec fn spec_entire_viewport() -> Region {
    Region { min_x: COORD_LIMIT_NEG, min_y: COORD_LIMIT_NEG, max_x: COORD_LIMIT, max_y: COORD_LIMIT }
}

/// What makes a claimed region redraw.
#[derive(Clone, Copy, PartialEq, Eq, Structural, Debug)]
pub enum RenderTrigger {
    /// Only when the behavior itself requests a render.
    Request,
    /// Also whenever the mouse crosses the region's boundary.
    MouseInOut,
    /// Also whenever the mouse moves and either endpoint is inside.
    MouseMoveInside,
    /// Also on every mouse move.
    MouseMove,
    /// On every frame.
    Always,
}

/// A conservative transparency classification, used solely to decide how a
/// redraw propagates across layers, never for actual blending.
#[derive(Clone, Copy, PartialEq, Eq, Structural, Debug)]
pub enum RenderOpacity {
    /// Each pixel in the render area is fully opaque.
    Solid,
    /// Each pixel is fully opaque or fully transparent; which is which only
    /// changes when the viewport changes.
    StaticSolidOrNothing,
    /// Each pixel is fully opaque or fully transparent; which is which can
    /// change at any time.
    DynamicSolidOrNothing,
    /// Each pixel can have any transparency.
    Mixed,
}

impl RenderOpacity {
    /// Whether a redrawn region of this opacity fully hides whatever lies
    /// behind it, so the redraw need not propagate to layers further back.
    pub open spec fn occludes(self) -> bool {
        self == RenderOpacity::Solid || self == RenderOpacity::StaticSolidOrNothing
    }
}

/// A redraw that a layer predicts or is forced to perform: a region
/// together with the opacity of what will be drawn there.
#[derive(Clone, Copy, PartialEq, Eq, Structural, Debug)]
pub struct PlannedRenderAction {
    pub region: Region,
    pub opacity: RenderOpacity,
}

impl PlannedRenderAction {
    pub fn new(region: Region, opacity: RenderOpacity) -> (r: Self)
        ensures
            r == (PlannedRenderAction { region, opacity }),
    {
        PlannedRenderAction { region, opacity }
    }

    pub fn get_region(&self) -> (r: Region)
        ensures
            r == self.region,
    {
        self.region
    }

    pub fn get_opacity(&self) -> (r: RenderOpacity)
        ensures
            r == self.opacity,
    {
        self.opacity
    }
}

/// A region that actually got drawn during a render pass.
#[derive(Clone, Copy, PartialEq, Eq, Structural, Debug)]
pub struct PassedRenderAction {
    pub region: Region,
}

impl PassedRenderAction {
    pub fn new(region: Region) -> (r: Self)
        ensures
            r == (PassedRenderAction { region }),
    {
        PassedRenderAction { region }
    }

    pub fn get_region(&self) -> (r: Region)
        ensures
            r == self.region,
    {
        self.region
    }
}

/// What a whole layer reports from a render pass: the cursor requested by
/// the behavior under the mouse, if any.
pub struct RenderResult {
    cursor: Option<crate::cursor::Cursor>,
}

impl RenderResult {
    pub closed spec fn cursor_opt(self) -> Option<crate::cursor::Cursor> {
        self.cursor
    }

    pub fn new(cursor: Option<crate::cursor::Cursor>) -> (r: Self)
        ensures
            r.cursor_opt() == cursor,
    {
        RenderResult { cursor }
    }

    pub fn with_cursor(cursor: crate::cursor::Cursor) -> (r: Self)
        ensures
            r.cursor_opt() == Some(cursor),
    {
        RenderResult { cursor: Some(cursor) }
    }

    pub fn without_cursor() -> (r: Self)
        ensures
            r.cursor_opt() is None,
    {
        RenderResult { cursor: None }
    }

    /// Hands the requested cursor out.
    pub fn get_cursor(self) -> (r: Option<crate::cursor::Cursor>)
        ensures
            r == self.cursor_opt(),
    {
        self.cursor
    }
}

/// Why a render claim can be rejected.
#[derive(Clone, Copy, PartialEq, Eq, Structural, Debug)]
pub enum RenderRequestError {
    /// The requested region overlaps a region already claimed in this layer.
    RegionAlreadyClaimed,
    /// The requested render phase was never registered with this layer.
    UnregisteredRenderPhase,
}

/// How a freshly accepted claim looks: the given fields, with no redraw
/// history yet.
pub open spec fn entry_matches(
    e: RenderEntry,
    id: BehaviorId,
    region: Region,
    trigger: RenderTrigger,
    opacity: RenderOpacity,
    phase: usize,
) -> bool {
    &&& e.id == id
    &&& e.region == region
    &&& e.trigger == trigger
    &&& e.opacity == opacity
    &&& e.phase == phase
    &&& e.prev_render_actions@ == Seq::<PassedRenderAction>::empty()
}

/// One claimed render region.
#[derive(Clone, PartialEq, Eq, Debug)]
pub struct RenderEntry {
    pub id: BehaviorId,
    pub region: Region,
    pub trigger: RenderTrigger,
    pub opacity: RenderOpacity,
    /// Rank of the claim's render phase in the layer's phase registry.
    pub phase: usize,
    /// The sub-regions this claim actually drew the last time its behavior
    /// rendered, reported again for propagation bookkeeping whenever the
    /// behavior skips a frame.
    pub prev_render_actions: Vec<PassedRenderAction>,
}

pub struct RenderManager {
    entries: Vec<RenderEntry>,
    phases: RenderPhaseStore,
    background_color: Option<Color>,
    render_background: bool,
}

impl RenderManager {
    pub closed spec fn entries_seq(self) -> Seq<RenderEntry> {
        self.entries@
    }

    pub closed spec fn phase_store(self) -> RenderPhaseStore {
        self.phases
    }

    pub closed spec fn background(self) -> Option<Color> {
        self.background_color
    }

    /// Whether the background still needs to be drawn on the next pass.
    pub closed spec fn background_pending(self) -> bool {
        self.render_background
    }

    /// Claimed regions never overlap, claims stay sorted by phase rank, and
    /// every claim names a registered phase.
    pub open spec fn wf(self) -> bool {
        &&& forall|i: int, j: int|
            0 <= i < j < self.entries_seq().len() ==> !(#[trigger] self.entries_seq()[i]).region
                .intersects((#[trigger] self.entries_seq()[j]).region)
        &&& forall|i: int, j: int|
            0 <= i <= j < self.entries_seq().len() ==> (#[trigger] self.entries_seq()[i]).phase
                <= (#[trigger] self.entries_seq()[j]).phase
        &&& forall|i: int|
            0 <= i < self.entries_seq().len() ==> (#[trigger] self.entries_seq()[i]).phase
                < self.phase_store().phase_ids().len()
        &&& self.phase_store().wf()
    }

    pub fn new(background_color: Option<Color>) -> (r: RenderManager)
        ensures
            r.entries_seq() == Seq::<RenderEntry>::empty(),
            r.phase_store().phase_ids() == Seq::<(Seq<char>, Seq<char>)>::empty(),
            r.background() == background_color,
            r.background_pending(),
            r.wf(),
    {
        RenderManager {
            entries: Vec::new(),
            phases: RenderPhaseStore::new(),
            background_color,
            render_background: true,
        }
    }

    /// Registers a render phase at the end of the phase order.  Registering
    /// the same id twice is a programming error, excluded by precondition.
    pub fn register_phase<P: RenderPhaseID>(&mut self, id: &P)
        requires
            old(self).wf(),
            !old(self).phase_store().registered(id.spec_crate_name(), id.spec_local_name()),
        ensures
            final(self).wf(),
            final(self).phase_store().phase_ids() == old(self).phase_store().phase_ids().push(
                (id.spec_crate_name(), id.spec_local_name()),
            ),
            final(self).entries_seq() == old(self).entries_seq(),
            final(self).background() == old(self).background(),
            final(self).background_pending() == old(self).background_pending(),
    {
        self.phases.register(id);
    }

    /// True when the phase id has been registered with this layer.
    pub fn knows_render_phase<P: RenderPhaseID>(&self, id: &P) -> (r: bool)
        ensures
            r == self.phase_store().registered(id.spec_crate_name(), id.spec_local_name()),
    {
        self.phases.knows_render_phase(id)
    }

    /// Looks a phase id up; `Some(rank)` when registered.
    pub fn phase_index<P: RenderPhaseID>(&self, id: &P) -> (r: Option<usize>)
        ensures
            match r {
                Some(i) => i < self.phase_store().phase_ids().len() && self.phase_store()
                    .phase_ids()[i as int] == (id.spec_crate_name(), id.spec_local_name()),
                None => !self.phase_store().registered(id.spec_crate_name(), id.spec_local_name()),
            },
    {
        self.phases.phase_index(id)
    }

    /// True when `region` overlaps no claimed render region.
    pub fn can_claim(&self, region: Region) -> (r: bool)
        ensures
            r == forall|i: int|
                0 <= i < self.entries_seq().len() ==> !(#[trigger] self.entries_seq()[i]).region
                    .intersects(region),
    {
        let mut i: usize = 0;
        while i < self.entries.len()
            invariant
                i <= self.entries_seq().len(),
                forall|k: int|
                    0 <= k < i ==> !(#[trigger] self.entries_seq()[k]).region.intersects(region),
            decreases self.entries_seq().len() - i,
        {
            if self.entries[i].region.intersects_with(&region) {
                return false;
            }
            i = i + 1;
        }
        true
    }

    /// Accepts a render claim, keeping the claims sorted by phase rank; a
    /// claim of a given phase goes after every earlier claim of the same
    /// phase.  Only to be used after `can_claim` and a phase lookup
    /// succeeded.
    pub fn claim_space(
        &mut self,
        region: Region,
        trigger: RenderTrigger,
        phase: usize,
        opacity: RenderOpacity,
        id: BehaviorId,
    )
        requires
            old(self).wf(),
            forall|i: int|
                0 <= i < old(self).entries_seq().len() ==> !(#[trigger] old(
                    self,
                ).entries_seq()[i]).region.intersects(region),
            phase < old(self).phase_store().phase_ids().len(),
        ensures
            final(self).wf(),
            final(self).phase_store() == old(self).phase_store(),
            final(self).background() == old(self).background(),
            final(self).background_pending() == old(self).background_pending(),
            exists|k: int|
                {
                    &&& 0 <= k <= old(self).entries_seq().len()
                    &&& final(self).entries_seq() == old(self).entries_seq().insert(
                        k,
                        final(self).entries_seq()[k],
                    )
                    &&& entry_matches(
                        final(self).entries_seq()[k],
                        id,
                        region,
                        trigger,
                        opacity,
                        phase,
                    )
                    &&& forall|i: int| 0 <= i < k ==> old(self).entries_seq()[i].phase <= phase
                    &&& forall|i: int|
                        k <= i < old(self).entries_seq().len() ==> old(
                            self,
                        ).entries_seq()[i].phase > phase
                },
    {
        let mut k: usize = 0;
        while k < self.entries.len() && self.entries[k].phase <= phase
            invariant
                k <= self.entries_seq().len(),
                forall|i: int| 0 <= i < k ==> self.entries_seq()[i].phase <= phase,
                old(self).wf(),
                *self == *old(self),
            decreases self.entries_seq().len() - k,
        {
            k = k + 1;
        }
        proof {
            assert forall|i: int| k <= i < self.entries@.len() implies self.entries@[i].phase
                > phase by {
                assert(self.entries@[k as int].phase <= self.entries@[i].phase);
            }
        }
        let entry = RenderEntry { id, region, trigger, opacity, phase, prev_render_actions: Vec::new() };
        proof {
            assert(entry.prev_render_actions@ =~= Seq::<PassedRenderAction>::empty());
        }
        let ghost before = self.entries@;
        let ghost kk = k as int;
        self.entries.insert(k, entry);
        proof {
            let after = self.entries@;
            assert(after == before.insert(kk, entry));
            assert(after[kk] == entry);
            assert forall|i: int, j: int| 0 <= i <= j < after.len() implies (
            #[trigger] after[i]).phase <= (#[trigger] after[j]).phase by {
                if i < kk && j < kk {
                    assert(after[i] == before[i] && after[j] == before[j]);
                } else if i < kk && j == kk {
                    assert(after[i] == before[i]);
                } else if i < kk && j > kk {
                    assert(after[i] == before[i] && after[j] == before[j - 1]);
                } else if i == kk && j == kk {
                } else if i == kk && j > kk {
                    assert(after[j] == before[j - 1]);
                } else {
                    assert(after[i] == before[i - 1] && after[j] == before[j - 1]);
                }
            }
            assert forall|i: int, j: int| 0 <= i < j < after.len() implies !(
            #[trigger] after[i]).region.intersects((#[trigger] after[j]).region) by {
                if i < kk && j < kk {
                    assert(after[i] == before[i] && after[j] == before[j]);
                } else if i < kk && j == kk {
                    assert(after[i] == before[i]);
                } else if i < kk && j > kk {
                    assert(after[i] == before[i] && after[j] == before[j - 1]);
                } else if i == kk && j > kk {
                    assert(after[j] == before[j - 1]);
                } else {
                    assert(after[i] == before[i - 1] && after[j] == before[j - 1]);
                }
            }
        }
    }

    /// The action the layer background contributes to a prediction: the
    /// whole viewport, solid when the background color is fully opaque,
    /// mixed otherwise.  Absent or fully transparent backgrounds, and
    /// backgrounds already drawn, contribute nothing.
    pub open spec fn background_actions(self) -> Seq<PlannedRenderAction> {
        match self.background() {
            Some(c) => if self.background_pending() && c.alpha > 0 {
                seq![
                    PlannedRenderAction {
                        region: spec_entire_viewport(),
                        opacity: if c.alpha == 255 {
                            RenderOpacity::Solid
                        } else {
                            RenderOpacity::Mixed
                        },
                    },
                ]
            } else {
                Seq::empty()
            },
            None => Seq::empty(),
        }
    }
}

/// The claims whose behavior is still alive, in order.
pub open spec fn prune_entries<B>(s: Seq<RenderEntry>, arena: BehaviorArena<B>) -> Seq<RenderEntry>
    decreases s.len(),
{
    if s.len() == 0 {
        Seq::empty()
    } else {
        prune_entries(s.drop_last(), arena) + if arena.live(s.last().id) {
            seq![s.last()]
        } else {
            Seq::empty()
        }
    }
}

/// The redraws predicted for the claims alone: one action per live claim
/// whose agent has a render request pending.
pub open spec fn predicted_actions<B>(s: Seq<RenderEntry>, arena: BehaviorArena<B>) -> Seq<
    PlannedRenderAction,
>
    decreases s.len(),
{
    if s.len() == 0 {
        Seq::empty()
    } else {
        predicted_actions(s.drop_last(), arena) + if arena.live(s.last().id) && arena.slot_of(
            s.last().id,
        ).agent.render_requested() {
            seq![PlannedRenderAction { region: s.last().region, opacity: s.last().opacity }]
        } else {
            Seq::empty()
        }
    }
}

/// Whether a mouse move from `old_pos` to `new_pos` makes a claim with this
/// trigger redraw.
pub open spec fn trigger_fires(
    e: RenderEntry,
    old_pos: Option<(i32, i32)>,
    new_pos: Option<(i32, i32)>,
) -> bool {
    match e.trigger {
        RenderTrigger::MouseMove => true,
        RenderTrigger::MouseMoveInside => e.region.contains_opt(old_pos) || e.region.contains_opt(
            new_pos,
        ),
        RenderTrigger::MouseInOut => e.region.contains_opt(old_pos) != e.region.contains_opt(
            new_pos,
        ),
        _ => false,
    }
}

/// Every pruned claim comes from the original list.
pub proof fn lemma_prune_entries_member<B>(s: Seq<RenderEntry>, arena: BehaviorArena<B>, k: int)
    requires
        0 <= k < prune_entries(s, arena).len(),
    ensures
        exists|m: int| 0 <= m < s.len() && (#[trigger] s[m]) == prune_entries(s, arena)[k],
    decreases s.len(),
{
    let p = prune_entries(s, arena);
    if s.len() > 0 {
        let p0 = prune_entries(s.drop_last(), arena);
        if arena.live(s.last().id) && k == p.len() - 1 {
            assert(p[k] == s.last());
            assert(s[s.len() - 1] == p[k]);
        } else {
            assert(k < p0.len());
            lemma_prune_entries_member(s.drop_last(), arena, k);
            let m = choose|m: int|
                0 <= m < s.drop_last().len() && (#[trigger] s.drop_last()[m]) == p0[k];
            assert(s[m] == p[k]);
        }
    }
}

/// Pruning keeps claims pairwise disjoint and phase-sorted.
pub proof fn lemma_prune_entries_pair<B>(
    s: Seq<RenderEntry>,
    arena: BehaviorArena<B>,
    i: int,
    j: int,
)
    requires
        forall|a: int, b: int|
            0 <= a < b < s.len() ==> !(#[trigger] s[a]).region.intersects((#[trigger] s[b]).region),
        forall|a: int, b: int|
            0 <= a <= b < s.len() ==> (#[trigger] s[a]).phase <= (#[trigger] s[b]).phase,
        0 <= i <= j < prune_entries(s, arena).len(),
    ensures
        i < j ==> !prune_entries(s, arena)[i].region.intersects(prune_entries(s, arena)[j].region),
        prune_entries(s, arena)[i].phase <= prune_entries(s, arena)[j].phase,
    decreases s.len(),
{
    let p = prune_entries(s, arena);
    if i == j {
    } else if s.len() > 0 {
        let p0 = prune_entries(s.drop_last(), arena);
        if arena.live(s.last().id) && j == p.len() - 1 {
            assert(p[j] == s.last());
            lemma_prune_entries_member(s.drop_last(), arena, i);
            let m = choose|m: int|
                0 <= m < s.drop_last().len() && (#[trigger] s.drop_last()[m]) == p0[i];
            assert(s[m] == p[i]);
            assert(!s[m].region.intersects(s[s.len() - 1].region));
            assert(s[m].phase <= s[s.len() - 1].phase);
        } else {
            assert(j < p0.len());
            assert forall|a: int, b: int|
                0 <= a < b < s.drop_last().len() implies !(#[trigger] s.drop_last()[a]).region
                    .intersects((#[trigger] s.drop_last()[b]).region) by {
                assert(s.drop_last()[a] == s[a]);
                assert(s.drop_last()[b] == s[b]);
                assert(!s[a].region.intersects(s[b].region));
            }
            assert forall|a: int, b: int|
                0 <= a <= b < s.drop_last().len() implies (#[trigger] s.drop_last()[a]).phase
                    <= (#[trigger] s.drop_last()[b]).phase by {
                assert(s.drop_last()[a] == s[a]);
                assert(s.drop_last()[b] == s[b]);
                assert(s[a].phase <= s[b].phase);
            }
            lemma_prune_entries_pair(s.drop_last(), arena, i, j);
            assert(p[i] == p0[i]);
            assert(p[j] == p0[j]);
        }
    }
}

/// Pruning keeps only claims whose behavior is alive.
pub proof fn lemma_prune_entries_live<B>(s: Seq<RenderEntry>, arena: BehaviorArena<B>, k: int)
    requires
        0 <= k < prune_entries(s, arena).len(),
    ensures
        arena.live(prune_entries(s, arena)[k].id),
    decreases s.len(),
{
    let p = prune_entries(s, arena);
    if s.len() > 0 {
        let p0 = prune_entries(s.drop_last(), arena);
        if arena.live(s.last().id) && k == p.len() - 1 {
            assert(p[k] == s.last());
        } else {
            assert(k < p0.len());
            lemma_prune_entries_live(s.drop_last(), arena, k);
            assert(p[k] == p0[k]);
        }
    }
}

/// Pruning a list whose claims are all alive changes nothing.
pub proof fn lemma_prune_entries_identity<B>(s: Seq<RenderEntry>, arena: BehaviorArena<B>)
    requires
        forall|k: int| 0 <= k < s.len() ==> arena.live((#[trigger] s[k]).id),
    ensures
        prune_entries(s, arena) == s,
    decreases s.len(),
{
    if s.len() > 0 {
        assert forall|k: int|
            0 <= k < s.drop_last().len() implies arena.live(
            (#[trigger] s.drop_last()[k]).id) by {
            assert(s.drop_last()[k] == s[k]);
        }
        lemma_prune_entries_identity(s.drop_last(), arena);
        assert(arena.live(s[s.len() - 1].id));
        assert(prune_entries(s, arena) =~= s);
    } else {
        assert(prune_entries(s, arena) =~= s);
    }
}

/// Pruned claims keep naming registered phases.
pub proof fn lemma_prune_entries_bound<B>(
    s: Seq<RenderEntry>,
    arena: BehaviorArena<B>,
    n: int,
    k: int,
)
    requires
        forall|a: int| 0 <= a < s.len() ==> (#[trigger] s[a]).phase < n,
        0 <= k < prune_entries(s, arena).len(),
    ensures
        prune_entries(s, arena)[k].phase < n,
{
    lemma_prune_entries_member(s, arena, k);
    let m = choose|m: int| 0 <= m < s.len() && (#[trigger] s[m]) == prune_entries(s, arena)[k];
    assert(s[m].phase < n);
}

impl RenderManager {
    /// Predicts, without drawing, which regions a render pass would redraw
    /// right now and with which opacity: the background (when it is still
    /// pending and visible) followed by every live claim with a pending
    /// render request, in phase order.  Dead claims are pruned.
    pub fn predict_render<B>(&mut self, arena: &BehaviorArena<B>) -> (r: Vec<PlannedRenderAction>)
        requires
            old(self).wf(),
        ensures
            final(self).wf(),
            final(self).entries_seq() == prune_entries(old(self).entries_seq(), *arena),
            final(self).phase_store() == old(self).phase_store(),
            final(self).background() == old(self).background(),
            final(self).background_pending() == old(self).background_pending(),
            r@ == old(self).background_actions() + predicted_actions(
                old(self).entries_seq(),
                *arena,
            ),
    {
        let ghost s0 = self.entries@;
        let mut actions: Vec<PlannedRenderAction> = Vec::new();
        if self.render_background {
            match &self.background_color {
                Some(color) => {
                    if color.get_alpha() > 0 {
                        let opacity = if color.get_alpha() == 255 {
                            RenderOpacity::Solid
                        } else {
                            RenderOpacity::Mixed
                        };
                        actions.push(
                            PlannedRenderAction { region: Region::entire_viewport(), opacity },
                        );
                    }
                },
                None => {},
            }
        }
        proof {
            assert(actions@ =~= self.background_actions());
        }
        let ghost bg_part = actions@;
        let mut source: Vec<RenderEntry> = Vec::new();
        core::mem::swap(&mut self.entries, &mut source);
        let mut kept: Vec<RenderEntry> = Vec::new();
        let ghost mut i: int = 0;
        proof {
            assert(s0.take(0) =~= Seq::<RenderEntry>::empty());
            assert(source@.skip(0) =~= s0);
        }
        while source.len() > 0
            invariant
                0 <= i <= s0.len(),
                source@ == s0.skip(i),
                kept@ == prune_entries(s0.take(i), *arena),
                actions@ == bg_part + predicted_actions(s0.take(i), *arena),
            decreases source@.len(),
        {
            proof {
                assert(s0.take(i + 1).drop_last() =~= s0.take(i));
                assert(s0.take(i + 1).last() == s0[i]);
                assert(source@[0] == s0[i]);
            }
            let entry = source.remove(0);
            proof {
                assert(source@ =~= s0.skip(i + 1));
            }
            if arena.is_live(entry.id) {
                if arena.agent_render_requested(entry.id) {
                    actions.push(
                        PlannedRenderAction { region: entry.region, opacity: entry.opacity },
                    );
                }
                kept.push(entry);
            }
            proof {
                i = i + 1;
            }
        }
        proof {
            assert(s0.take(s0.len() as int) =~= s0);
            assert(i == s0.len());
        }
        self.entries = kept;
        proof {
            let p = prune_entries(s0, *arena);
            assert forall|a: int, b: int|
                0 <= a < b < s0.len() implies !(#[trigger] s0[a]).region.intersects(
                (#[trigger] s0[b]).region) by {
                assert(!(old(self).entries_seq()[a]).region.intersects(
                    (old(self).entries_seq()[b]).region,
                ));
            }
            assert forall|a: int, b: int|
                0 <= a <= b < s0.len() implies (#[trigger] s0[a]).phase <= (
                #[trigger] s0[b]).phase by {
                assert(old(self).entries_seq()[a].phase <= old(self).entries_seq()[b].phase);
            }
            assert forall|a: int| 0 <= a < s0.len() implies (#[trigger] s0[a]).phase < old(
                self,
            ).phase_store().phase_ids().len() by {
                assert(old(self).entries_seq()[a].phase < old(self).phase_store().phase_ids().len());
            }
            assert forall|a: int, b: int|
                0 <= a < b < self.entries_seq().len() implies !(#[trigger] self.entries_seq()[a]).region
                    .intersects((#[trigger] self.entries_seq()[b]).region) by {
                lemma_prune_entries_pair(s0, *arena, a, b);
            }
            assert forall|a: int, b: int|
                0 <= a <= b < self.entries_seq().len() implies (#[trigger] self.entries_seq()[a]).phase
                    <= (#[trigger] self.entries_seq()[b]).phase by {
                lemma_prune_entries_pair(s0, *arena, a, b);
            }
            assert forall|a: int|
                0 <= a < self.entries_seq().len() implies (#[trigger] self.entries_seq()[a]).phase
                    < self.phase_store().phase_ids().len() by {
                lemma_prune_entries_bound(
                    s0,
                    *arena,
                    old(self).phase_store().phase_ids().len() as int,
                    a,
                );
            }
        }
        actions
    }

    /// Marks every live claim's behavior as needing a render and schedules
    /// the background for redrawing: the next render pass repaints the
    /// whole layer.  Dead claims are pruned.
    pub fn force_full_render<B>(&mut self, arena: &mut BehaviorArena<B>)
        requires
            old(self).wf(),
            old(arena).wf(),
        ensures
            final(self).wf(),
            final(arena).wf(),
            final(self).entries_seq() == prune_entries(old(self).entries_seq(), *old(arena)),
            final(self).phase_store() == old(self).phase_store(),
            final(self).background() == old(self).background(),
            final(self).background_pending(),
            final(arena).slots_len() == old(arena).slots_len(),
            forall|id: BehaviorId| final(arena).live(id) == old(arena).live(id),
            forall|id: BehaviorId|
                old(arena).live(id) ==> {
                    &&& final(arena).slot_of(id).behavior == old(arena).slot_of(id).behavior
                    &&& final(arena).slot_of(id).component == old(arena).slot_of(id).component
                    &&& final(arena).slot_of(id).agent.removal_requested() == old(arena).slot_of(
                        id,
                    ).agent.removal_requested()
                    &&& final(arena).slot_of(id).agent.pending() == old(arena).slot_of(
                        id,
                    ).agent.pending()
                    &&& final(arena).slot_of(id).agent.container_request() == old(arena).slot_of(
                        id,
                    ).agent.container_request()
                    &&& final(arena).slot_of(id).agent.changed() == old(arena).slot_of(
                        id,
                    ).agent.changed()
                    &&& final(arena).slot_of(id).agent.render_requested() == (old(arena).slot_of(
                        id,
                    ).agent.render_requested() || exists|k: int|
                        0 <= k < old(self).entries_seq().len() && (#[trigger] old(
                            self,
                        ).entries_seq()[k]).id == id)
                },
            final(arena).clean_count() <= old(arena).clean_count(),
    {
        self.render_background = true;
        let ghost s0 = self.entries@;
        let ghost arena0 = *arena;
        let mut source: Vec<RenderEntry> = Vec::new();
        core::mem::swap(&mut self.entries, &mut source);
        let mut kept: Vec<RenderEntry> = Vec::new();
        let ghost mut i: int = 0;
        proof {
            assert(s0.take(0) =~= Seq::<RenderEntry>::empty());
            assert(source@.skip(0) =~= s0);
        }
        while source.len() > 0
            invariant
                0 <= i <= s0.len(),
                source@ == s0.skip(i),
                kept@ == prune_entries(s0.take(i), arena0),
                arena.wf(),
                arena0.wf(),
                arena.slots_len() == arena0.slots_len(),
                arena.clean_count() <= arena0.clean_count(),
                forall|id: BehaviorId| arena.live(id) == arena0.live(id),
                forall|id: BehaviorId|
                    arena0.live(id) ==> {
                        &&& arena.slot_of(id).behavior == arena0.slot_of(id).behavior
                        &&& arena.slot_of(id).component == arena0.slot_of(id).component
                        &&& arena.slot_of(id).agent.removal_requested() == arena0.slot_of(
                            id,
                        ).agent.removal_requested()
                        &&& arena.slot_of(id).agent.pending() == arena0.slot_of(id).agent.pending()
                        &&& arena.slot_of(id).agent.container_request() == arena0.slot_of(
                            id,
                        ).agent.container_request()
                        &&& arena.slot_of(id).agent.changed() == arena0.slot_of(id).agent.changed()
                        &&& arena.slot_of(id).agent.render_requested() == (arena0.slot_of(
                            id,
                        ).agent.render_requested() || exists|k: int|
                            0 <= k < i && (#[trigger] s0[k]).id == id)
                    },
            decreases source@.len(),
        {
            proof {
                assert(s0.take(i + 1).drop_last() =~= s0.take(i));
                assert(s0.take(i + 1).last() == s0[i]);
                assert(source@[0] == s0[i]);
            }
            let entry = source.remove(0);
            proof {
                assert(source@ =~= s0.skip(i + 1));
            }
            if arena.is_live(entry.id) {
                let _ = arena.request_render_for(entry.id);
                kept.push(entry);
            }
            proof {
                i = i + 1;
            }
        }
        proof {
            assert(s0.take(s0.len() as int) =~= s0);
            assert(i == s0.len());
        }
        self.entries = kept;
        proof {
            assert forall|a: int, b: int|
                0 <= a < b < s0.len() implies !(#[trigger] s0[a]).region.intersects(
                (#[trigger] s0[b]).region) by {
                assert(!(old(self).entries_seq()[a]).region.intersects(
                    (old(self).entries_seq()[b]).region,
                ));
            }
            assert forall|a: int, b: int|
                0 <= a <= b < s0.len() implies (#[trigger] s0[a]).phase <= (
                #[trigger] s0[b]).phase by {
                assert(old(self).entries_seq()[a].phase <= old(self).entries_seq()[b].phase);
            }
            assert forall|a: int| 0 <= a < s0.len() implies (#[trigger] s0[a]).phase < old(
                self,
            ).phase_store().phase_ids().len() by {
                assert(old(self).entries_seq()[a].phase < old(self).phase_store().phase_ids().len());
            }
            assert forall|a: int, b: int|
                0 <= a < b < self.entries_seq().len() implies !(#[trigger] self.entries_seq()[a]).region
                    .intersects((#[trigger] self.entries_seq()[b]).region) by {
                lemma_prune_entries_pair(s0, arena0, a, b);
            }
            assert forall|a: int, b: int|
                0 <= a <= b < self.entries_seq().len() implies (#[trigger] self.entries_seq()[a]).phase
                    <= (#[trigger] self.entries_seq()[b]).phase by {
                lemma_prune_entries_pair(s0, arena0, a, b);
            }
            assert forall|a: int|
                0 <= a < self.entries_seq().len() implies (#[trigger] self.entries_seq()[a]).phase
                    < self.phase_store().phase_ids().len() by {
                lemma_prune_entries_bound(
                    s0,
                    arena0,
                    old(self).phase_store().phase_ids().len() as int,
                    a,
                );
            }
        }
    }

    /// Re-evaluates every live claim's trigger against a mouse move and
    /// marks the firing claims' behaviors as needing a render: this is how
    /// purely mouse-reactive visuals get redrawn without their behavior
    /// doing anything.  Dead claims are pruned.
    pub fn on_mouse_move<B>(
        &mut self,
        arena: &mut BehaviorArena<B>,
        old_pos: Option<(i32, i32)>,
        new_pos: Option<(i32, i32)>,
    )
        requires
            old(self).wf(),
            old(arena).wf(),
        ensures
            final(self).wf(),
            final(arena).wf(),
            final(self).entries_seq() == prune_entries(old(self).entries_seq(), *old(arena)),
            final(self).phase_store() == old(self).phase_store(),
            final(self).background() == old(self).background(),
            final(self).background_pending() == old(self).background_pending(),
            final(arena).slots_len() == old(arena).slots_len(),
            forall|id: BehaviorId| final(arena).live(id) == old(arena).live(id),
            forall|id: BehaviorId|
                old(arena).live(id) ==> {
                    &&& final(arena).slot_of(id).behavior == old(arena).slot_of(id).behavior
                    &&& final(arena).slot_of(id).component == old(arena).slot_of(id).component
                    &&& final(arena).slot_of(id).agent.removal_requested() == old(arena).slot_of(
                        id,
                    ).agent.removal_requested()
                    &&& final(arena).slot_of(id).agent.pending() == old(arena).slot_of(
                        id,
                    ).agent.pending()
                    &&& final(arena).slot_of(id).agent.container_request() == old(arena).slot_of(
                        id,
                    ).agent.container_request()
                    &&& final(arena).slot_of(id).agent.changed() == old(arena).slot_of(
                        id,
                    ).agent.changed()
                    &&& final(arena).slot_of(id).agent.render_requested() == (old(arena).slot_of(
                        id,
                    ).agent.render_requested() || exists|k: int|
                        0 <= k < old(self).entries_seq().len() && (#[trigger] old(
                            self,
                        ).entries_seq()[k]).id == id && trigger_fires(
                            old(self).entries_seq()[k],
                            old_pos,
                            new_pos,
                        ))
                },
            final(arena).clean_count() <= old(arena).clean_count(),
    {
        let ghost s0 = self.entries@;
        let ghost arena0 = *arena;
        let mut source: Vec<RenderEntry> = Vec::new();
        core::mem::swap(&mut self.entries, &mut source);
        let mut kept: Vec<RenderEntry> = Vec::new();
        let ghost mut i: int = 0;
        proof {
            assert(s0.take(0) =~= Seq::<RenderEntry>::empty());
            assert(source@.skip(0) =~= s0);
        }
        while source.len() > 0
            invariant
                0 <= i <= s0.len(),
                source@ == s0.skip(i),
                kept@ == prune_entries(s0.take(i), arena0),
                arena.wf(),
                arena0.wf(),
                arena.slots_len() == arena0.slots_len(),
                arena.clean_count() <= arena0.clean_count(),
                forall|id: BehaviorId| arena.live(id) == arena0.live(id),
                forall|id: BehaviorId|
                    arena0.live(id) ==> {
                        &&& arena.slot_of(id).behavior == arena0.slot_of(id).behavior
                        &&& arena.slot_of(id).component == arena0.slot_of(id).component
                        &&& arena.slot_of(id).agent.removal_requested() == arena0.slot_of(
                            id,
                        ).agent.removal_requested()
                        &&& arena.slot_of(id).agent.pending() == arena0.slot_of(id).agent.pending()
                        &&& arena.slot_of(id).agent.container_request() == arena0.slot_of(
                            id,
                        ).agent.container_request()
                        &&& arena.slot_of(id).agent.changed() == arena0.slot_of(id).agent.changed()
                        &&& arena.slot_of(id).agent.render_requested() == (arena0.slot_of(
                            id,
                        ).agent.render_requested() || exists|k: int|
                            0 <= k < i && (#[trigger] s0[k]).id == id && trigger_fires(
                                s0[k],
                                old_pos,
                                new_pos,
                            ))
                    },
            decreases source@.len(),
        {
            proof {
                assert(s0.take(i + 1).drop_last() =~= s0.take(i));
                assert(s0.take(i + 1).last() == s0[i]);
                assert(source@[0] == s0[i]);
            }
            let entry = source.remove(0);
            proof {
                assert(source@ =~= s0.skip(i + 1));
            }
            if arena.is_live(entry.id) {
                let needs_render = match entry.trigger {
                    RenderTrigger::MouseMove => true,
                    RenderTrigger::MouseMoveInside => {
                        let was_in = entry.region.is_inside_opt(old_pos);
                        let is_in = entry.region.is_inside_opt(new_pos);
                        was_in || is_in
                    },
                    RenderTrigger::MouseInOut => {
                        let was_in = entry.region.is_inside_opt(old_pos);
                        let is_in = entry.region.is_inside_opt(new_pos);
                        was_in != is_in
                    },
                    _ => false,
                };
                if needs_render {
                    let _ = arena.request_render_for(entry.id);
                }
                kept.push(entry);
            }
            proof {
                i = i + 1;
            }
        }
        proof {
            assert(s0.take(s0.len() as int) =~= s0);
            assert(i == s0.len());
        }
        self.entries = kept;
        proof {
            assert forall|a: int, b: int|
                0 <= a < b < s0.len() implies !(#[trigger] s0[a]).region.intersects(
                (#[trigger] s0[b]).region) by {
                assert(!(old(self).entries_seq()[a]).region.intersects(
                    (old(self).entries_seq()[b]).region,
                ));
            }
            assert forall|a: int, b: int|
                0 <= a <= b < s0.len() implies (#[trigger] s0[a]).phase <= (
                #[trigger] s0[b]).phase by {
                assert(old(self).entries_seq()[a].phase <= old(self).entries_seq()[b].phase);
            }
            assert forall|a: int| 0 <= a < s0.len() implies (#[trigger] s0[a]).phase < old(
                self,
            ).phase_store().phase_ids().len() by {
                assert(old(self).entries_seq()[a].phase < old(self).phase_store().phase_ids().len());
            }
            assert forall|a: int, b: int|
                0 <= a < b < self.entries_seq().len() implies !(#[trigger] self.entries_seq()[a]).region
                    .intersects((#[trigger] self.entries_seq()[b]).region) by {
                lemma_prune_entries_pair(s0, arena0, a, b);
            }
            assert forall|a: int, b: int|
                0 <= a <= b < self.entries_seq().len() implies (#[trigger] self.entries_seq()[a]).phase
                    <= (#[trigger] self.entries_seq()[b]).phase by {
                lemma_prune_entries_pair(s0, arena0, a, b);
            }
            assert forall|a: int|
                0 <= a < self.entries_seq().len() implies (#[trigger] self.entries_seq()[a]).phase
                    < self.phase_store().phase_ids().len() by {
                lemma_prune_entries_bound(
                    s0,
                    arena0,
                    old(self).phase_store().phase_ids().len() as int,
                    a,
                );
            }
        }
    }

}

/// Whether any of the forced regions overlaps `r`.
pub open spec fn spec_any_intersects(rs: Seq<Region>, r: Region) -> bool {
    exists|i: int| 0 <= i < rs.len() && rs[i].intersects(r)
}

/// The behaviors that forcing the given regions newly dirties, scanning
/// the claims in order: a live claim overlapping a forced region dirties
/// its behavior unless that behavior was already dirty (a behavior with
/// several claims is dirtied at most once).
pub open spec fn force_flipped<B>(
    s: Seq<RenderEntry>,
    arena: BehaviorArena<B>,
    regions: Seq<Region>,
) -> Set<BehaviorId>
    decreases s.len(),
{
    if s.len() == 0 {
        Set::empty()
    } else {
        let rec = force_flipped(s.drop_last(), arena, regions);
        let e = s.last();
        if arena.live(e.id) && spec_any_intersects(regions, e.region) && !(arena.slot_of(
            e.id,
        ).agent.render_requested() || rec.contains(e.id)) {
            rec.insert(e.id)
        } else {
            rec
        }
    }
}

/// The redraw actions a partial force newly causes: one per claim whose
/// behavior it newly dirties, in claim order.
pub open spec fn force_actions<B>(
    s: Seq<RenderEntry>,
    arena: BehaviorArena<B>,
    regions: Seq<Region>,
) -> Seq<PlannedRenderAction>
    decreases s.len(),
{
    if s.len() == 0 {
        Seq::empty()
    } else {
        let rec = force_actions(s.drop_last(), arena, regions);
        let e = s.last();
        if arena.live(e.id) && spec_any_intersects(regions, e.region) && !(arena.slot_of(
            e.id,
        ).agent.render_requested() || force_flipped(s.drop_last(), arena, regions).contains(
            e.id,
        )) {
            rec.push(PlannedRenderAction { region: e.region, opacity: e.opacity })
        } else {
            rec
        }
    }
}

/// The regions of the solid claims that overlap a forced region, collected
/// while a layer with a background scans its claims.
pub open spec fn force_solids<B>(
    s: Seq<RenderEntry>,
    arena: BehaviorArena<B>,
    regions: Seq<Region>,
    bg: bool,
) -> Seq<Region>
    decreases s.len(),
{
    if s.len() == 0 {
        Seq::empty()
    } else {
        let rec = force_solids(s.drop_last(), arena, regions, bg);
        let e = s.last();
        rec + if arena.live(e.id) && spec_any_intersects(regions, e.region) && bg && e.opacity
            == RenderOpacity::Solid {
            seq![e.region]
        } else {
            Seq::empty()
        }
    }
}

/// Whether some forced region is not entirely hidden behind the
/// overlapping solid claims, so the background — and with it everything —
/// must repaint.
pub open spec fn spec_needs_background(regions: Seq<Region>, solids: Seq<Region>) -> bool {
    exists|i: int|
        0 <= i < regions.len() && spec_uncovered(seq![regions[i]], solids).len() > 0
}

/// Whether forcing these regions on a layer with this background cascades
/// into a full repaint: the background exists and some forced region is
/// not fully covered by the overlapping solid claims.
pub open spec fn force_needs_background<B>(
    s: Seq<RenderEntry>,
    arena: BehaviorArena<B>,
    regions: Seq<Region>,
    background: Option<Color>,
) -> bool {
    background is Some && spec_needs_background(
        regions,
        force_solids(s, arena, regions, background is Some),
    )
}

/// Every behavior a partial force newly dirties holds one of the scanned
/// claims.
proof fn lemma_force_flipped_member<B>(
    s: Seq<RenderEntry>,
    arena: BehaviorArena<B>,
    regions: Seq<Region>,
    id: BehaviorId,
)
    requires
        force_flipped(s, arena, regions).contains(id),
    ensures
        exists|k: int| 0 <= k < s.len() && (#[trigger] s[k]).id == id,
    decreases s.len(),
{
    if s.len() > 0 {
        let rec = force_flipped(s.drop_last(), arena, regions);
        let e = s.last();
        if arena.live(e.id) && spec_any_intersects(regions, e.region) && !(arena.slot_of(
            e.id,
        ).agent.render_requested() || rec.contains(e.id)) && id == e.id {
            assert(s[s.len() - 1].id == id);
        } else {
            assert(rec.contains(id));
            lemma_force_flipped_member(s.drop_last(), arena, regions, id);
            let k = choose|k: int| 0 <= k < s.drop_last().len() && (#[trigger] s.drop_last()[k]).id
                == id;
            assert(s[k].id == id);
        }
    }
}

/// A claim whose behavior is alive survives pruning.
proof fn lemma_prune_entries_keeps_live<B>(s: Seq<RenderEntry>, arena: BehaviorArena<B>, k: int)
    requires
        0 <= k < s.len(),
        arena.live(s[k].id),
    ensures
        exists|m: int|
            0 <= m < prune_entries(s, arena).len() && (#[trigger] prune_entries(s, arena)[m])
                == s[k],
    decreases s.len(),
{
    let p = prune_entries(s, arena);
    if k == s.len() - 1 {
        assert(p[p.len() - 1] == s[k]);
    } else {
        assert(s.drop_last()[k] == s[k]);
        lemma_prune_entries_keeps_live(s.drop_last(), arena, k);
        let p0 = prune_entries(s.drop_last(), arena);
        let m = choose|m: int| 0 <= m < p0.len() && (#[trigger] p0[m]) == s.drop_last()[k];
        assert(p[m] == s[k]);
    }
}

impl RenderManager {
    /// Forces every live claim overlapping one of the given regions to
    /// redraw next pass, returning the newly caused redraw actions (claims
    /// already marked dirty cause nothing).  When the layer has a
    /// background and the forced regions are not fully covered by solid
    /// overlapping claims, the background cannot be partially repainted,
    /// so the whole layer is forced instead — those extra redraws are not
    /// reported.  Dead claims are pruned.
    #[verifier::rlimit(100)]
    pub fn force_partial_render<B>(&mut self, arena: &mut BehaviorArena<B>, regions: &Vec<Region>)
        -> (r: Vec<PlannedRenderAction>)
        requires
            old(self).wf(),
            old(arena).wf(),
        ensures
            final(self).wf(),
            final(arena).wf(),
            final(self).entries_seq() == prune_entries(old(self).entries_seq(), *old(arena)),
            final(self).phase_store() == old(self).phase_store(),
            final(self).background() == old(self).background(),
            final(arena).slots_len() == old(arena).slots_len(),
            forall|id: BehaviorId| final(arena).live(id) == old(arena).live(id),
            r@ == force_actions(old(self).entries_seq(), *old(arena), regions@),
            force_needs_background(
                old(self).entries_seq(),
                *old(arena),
                regions@,
                old(self).background(),
            ) ==> final(self).background_pending(),
            !force_needs_background(
                old(self).entries_seq(),
                *old(arena),
                regions@,
                old(self).background(),
            ) ==> final(self).background_pending() == old(self).background_pending(),
            forall|id: BehaviorId|
                #![trigger old(arena).slot_of(id)]
                old(arena).live(id) ==> {
                    &&& final(arena).slot_of(id).behavior == old(arena).slot_of(id).behavior
                    &&& final(arena).slot_of(id).component == old(arena).slot_of(id).component
                    &&& final(arena).slot_of(id).agent.removal_requested() == old(arena).slot_of(
                        id,
                    ).agent.removal_requested()
                    &&& final(arena).slot_of(id).agent.pending() == old(arena).slot_of(
                        id,
                    ).agent.pending()
                    &&& final(arena).slot_of(id).agent.container_request() == old(arena).slot_of(
                        id,
                    ).agent.container_request()
                    &&& final(arena).slot_of(id).agent.changed() == old(arena).slot_of(
                        id,
                    ).agent.changed()
                    &&& (old(arena).slot_of(id).agent.render_requested()
                        ==> final(arena).slot_of(id).agent.render_requested())
                    &&& (!force_needs_background(
                        old(self).entries_seq(),
                        *old(arena),
                        regions@,
                        old(self).background(),
                    ) ==> final(arena).slot_of(id).agent.render_requested()
                        == (old(arena).slot_of(id).agent.render_requested() || force_flipped(
                        old(self).entries_seq(),
                        *old(arena),
                        regions@,
                    ).contains(id)))
                    &&& (force_needs_background(
                        old(self).entries_seq(),
                        *old(arena),
                        regions@,
                        old(self).background(),
                    ) ==> final(arena).slot_of(id).agent.render_requested()
                        == (old(arena).slot_of(id).agent.render_requested() || exists|k: int|
                        0 <= k < old(self).entries_seq().len() && (#[trigger] old(
                            self,
                        ).entries_seq()[k]).id == id))
                },
            old(arena).clean_count() - final(arena).clean_count() >= r@.len(),
            final(arena).clean_count() <= old(arena).clean_count(),
    {
        let ghost s0 = self.entries@;
        let ghost arena0 = *arena;
        let ghost bg = self.background_color is Some;
        let has_bg = self.background_color.is_some();
        let mut solids: Vec<Region> = Vec::new();
        let mut actions: Vec<PlannedRenderAction> = Vec::new();
        let ghost mut flipped: Set<BehaviorId> = Set::empty();
        let mut source: Vec<RenderEntry> = Vec::new();
        core::mem::swap(&mut self.entries, &mut source);
        let mut kept: Vec<RenderEntry> = Vec::new();
        let ghost mut i: int = 0;
        proof {
            assert(s0.take(0) =~= Seq::<RenderEntry>::empty());
            assert(source@.skip(0) =~= s0);
        }
        while source.len() > 0
            invariant
                0 <= i <= s0.len(),
                source@ == s0.skip(i),
                kept@ == prune_entries(s0.take(i), arena0),
                arena.wf(),
                arena0.wf(),
                arena.slots_len() == arena0.slots_len(),
                arena.clean_count() == arena0.clean_count() - actions@.len(),
                forall|id: BehaviorId| arena.live(id) == arena0.live(id),
                actions@ == force_actions(s0.take(i), arena0, regions@),
                flipped == force_flipped(s0.take(i), arena0, regions@),
                solids@ == force_solids(s0.take(i), arena0, regions@, bg),
                bg == (self.background_color is Some),
                has_bg == bg,
                forall|id: BehaviorId| #![trigger arena0.slot_of(id)]
                    arena0.live(id) ==> {
                        &&& arena.slot_of(id).behavior == arena0.slot_of(id).behavior
                        &&& arena.slot_of(id).component == arena0.slot_of(id).component
                        &&& arena.slot_of(id).agent.removal_requested() == arena0.slot_of(
                            id,
                        ).agent.removal_requested()
                        &&& arena.slot_of(id).agent.pending() == arena0.slot_of(id).agent.pending()
                        &&& arena.slot_of(id).agent.container_request() == arena0.slot_of(
                            id,
                        ).agent.container_request()
                        &&& arena.slot_of(id).agent.changed() == arena0.slot_of(id).agent.changed()
                        &&& arena.slot_of(id).agent.render_requested() == (arena0.slot_of(
                            id,
                        ).agent.render_requested() || flipped.contains(id))
                    },
            decreases source@.len(),
        {
            let ghost a_pre = *arena;
            let ghost f_pre = flipped;
            proof {
                assert(s0.take(i + 1).drop_last() =~= s0.take(i));
                assert(s0.take(i + 1).last() == s0[i]);
                assert(source@[0] == s0[i]);
            }
            let entry = source.remove(0);
            proof {
                assert(source@ =~= s0.skip(i + 1));
            }
            let is_live = arena.is_live(entry.id);
            if is_live {
                let mut hit = false;
                let mut rj: usize = 0;
                while rj < regions.len()
                    invariant
                        rj <= regions@.len(),
                        hit == exists|k: int|
                            0 <= k < rj && regions@[k].intersects(entry.region),
                    decreases regions@.len() - rj,
                {
                    if regions[rj].intersects_with(&entry.region) {
                        hit = true;
                    }
                    rj = rj + 1;
                }
                proof {
                    assert(hit == spec_any_intersects(regions@, entry.region));
                }
                if hit {
                    if has_bg && entry.opacity == RenderOpacity::Solid {
                        solids.push(entry.region);
                    }
                    proof {
                        assert(arena.slot_of(entry.id).agent.render_requested() == (arena0.slot_of(
                            entry.id,
                        ).agent.render_requested() || flipped.contains(entry.id)));
                    }
                    let was_clean = arena.request_render_for(entry.id);
                    if was_clean {
                        actions.push(
                            PlannedRenderAction { region: entry.region, opacity: entry.opacity },
                        );
                        proof {
                            flipped = flipped.insert(entry.id);
                        }
                    }
                }
                kept.push(entry);
            }
            proof {
                let pre = s0.take(i);
                let post = s0.take(i + 1);
                assert(post.drop_last() =~= pre);
                assert(post.last() == s0[i]);
                let e = s0[i];
                if arena0.live(e.id) && spec_any_intersects(regions@, e.region) {
                    if !(arena0.slot_of(e.id).agent.render_requested() || force_flipped(
                        pre,
                        arena0,
                        regions@,
                    ).contains(e.id)) {
                        assert(force_actions(post, arena0, regions@) == force_actions(
                            pre,
                            arena0,
                            regions@,
                        ).push((PlannedRenderAction { region: e.region, opacity: e.opacity })));
                        assert(force_flipped(post, arena0, regions@) == force_flipped(
                            pre,
                            arena0,
                            regions@,
                        ).insert(e.id));
                    } else {
                        assert(force_actions(post, arena0, regions@) == force_actions(
                            pre,
                            arena0,
                            regions@,
                        ));
                        assert(force_flipped(post, arena0, regions@) == force_flipped(
                            pre,
                            arena0,
                            regions@,
                        ));
                    }
                } else {
                    assert(force_actions(post, arena0, regions@) == force_actions(
                        pre,
                        arena0,
                        regions@,
                    ));
                    assert(force_flipped(post, arena0, regions@) == force_flipped(
                        pre,
                        arena0,
                        regions@,
                    ));
                }
                assert(solids@ =~= force_solids(post, arena0, regions@, bg));
                assert forall|id: BehaviorId| arena0.live(id) implies {
                    &&& arena.slot_of(id).behavior == arena0.slot_of(id).behavior
                    &&& arena.slot_of(id).component == arena0.slot_of(id).component
                    &&& arena.slot_of(id).agent.removal_requested() == arena0.slot_of(
                        id,
                    ).agent.removal_requested()
                    &&& arena.slot_of(id).agent.pending() == arena0.slot_of(id).agent.pending()
                    &&& arena.slot_of(id).agent.container_request() == arena0.slot_of(
                        id,
                    ).agent.container_request()
                    &&& arena.slot_of(id).agent.changed() == arena0.slot_of(id).agent.changed()
                    &&& arena.slot_of(id).agent.render_requested() == (arena0.slot_of(
                        id,
                    ).agent.render_requested() || flipped.contains(id))
                } by {
                    assert(a_pre.slot_of(id).behavior == arena0.slot_of(id).behavior);
                    assert(a_pre.slot_of(id).component == arena0.slot_of(id).component);
                    assert(a_pre.slot_of(id).agent.removal_requested() == arena0.slot_of(
                        id,
                    ).agent.removal_requested());
                    assert(a_pre.slot_of(id).agent.pending() == arena0.slot_of(id).agent.pending());
                    assert(a_pre.slot_of(id).agent.container_request() == arena0.slot_of(
                        id,
                    ).agent.container_request());
                    assert(a_pre.slot_of(id).agent.changed() == arena0.slot_of(id).agent.changed());
                    assert(a_pre.slot_of(id).agent.render_requested() == (arena0.slot_of(
                        id,
                    ).agent.render_requested() || f_pre.contains(id)));
                }
                i = i + 1;
            }
        }
        proof {
            assert(s0.take(s0.len() as int) =~= s0);
            assert(i == s0.len());
        }
        self.entries = kept;
        proof {
            assert forall|a: int, b: int|
                0 <= a < b < s0.len() implies !(#[trigger] s0[a]).region.intersects(
                (#[trigger] s0[b]).region) by {
                assert(!(old(self).entries_seq()[a]).region.intersects(
                    (old(self).entries_seq()[b]).region,
                ));
            }
            assert forall|a: int, b: int|
                0 <= a <= b < s0.len() implies (#[trigger] s0[a]).phase <= (
                #[trigger] s0[b]).phase by {
                assert(old(self).entries_seq()[a].phase <= old(self).entries_seq()[b].phase);
            }
            assert forall|a: int| 0 <= a < s0.len() implies (#[trigger] s0[a]).phase < old(
                self,
            ).phase_store().phase_ids().len() by {
                assert(old(self).entries_seq()[a].phase < old(self).phase_store().phase_ids().len());
            }
            assert forall|a: int, b: int|
                0 <= a < b < self.entries_seq().len() implies !(#[trigger] self.entries_seq()[a]).region
                    .intersects((#[trigger] self.entries_seq()[b]).region) by {
                lemma_prune_entries_pair(s0, arena0, a, b);
            }
            assert forall|a: int, b: int|
                0 <= a <= b < self.entries_seq().len() implies (#[trigger] self.entries_seq()[a]).phase
                    <= (#[trigger] self.entries_seq()[b]).phase by {
                lemma_prune_entries_pair(s0, arena0, a, b);
            }
            assert forall|a: int|
                0 <= a < self.entries_seq().len() implies (#[trigger] self.entries_seq()[a]).phase
                    < self.phase_store().phase_ids().len() by {
                lemma_prune_entries_bound(
                    s0,
                    arena0,
                    old(self).phase_store().phase_ids().len() as int,
                    a,
                );
            }
        }
        if has_bg {
            let mut needs = false;
            let mut rj: usize = 0;
            while rj < regions.len()
                invariant
                    rj <= regions@.len(),
                    needs == exists|k: int|
                        0 <= k < rj && spec_uncovered(seq![regions@[k]], solids@).len() > 0,
                    solids@ == force_solids(s0, arena0, regions@, bg),
                decreases regions@.len() - rj,
            {
                let uncovered = regions[rj].get_uncovered_regions(&solids);
                if uncovered.len() > 0 {
                    needs = true;
                }
                rj = rj + 1;
            }
            proof {
                assert(needs == spec_needs_background(regions@, solids@));
            }
            if needs {
                let ghost a2 = *arena;
                proof {
                    let p = prune_entries(s0, arena0);
                    assert forall|k: int| 0 <= k < p.len() implies a2.live(
                        (#[trigger] p[k]).id,
                    ) by {
                        lemma_prune_entries_live(s0, arena0, k);
                    }
                }
                let ghost pruned = self.entries@;
                self.force_full_render(arena);
                proof {
                    lemma_prune_entries_identity(prune_entries(s0, arena0), a2);
                    assert forall|id: BehaviorId|
                        #![trigger arena0.slot_of(id)]
                        arena0.live(id) implies arena.slot_of(id).agent.render_requested() == (
                        arena0.slot_of(id).agent.render_requested() || exists|k: int|
                            0 <= k < s0.len() && (#[trigger] s0[k]).id == id) by {
                        if arena.slot_of(id).agent.render_requested() {
                            if !arena0.slot_of(id).agent.render_requested() {
                                if a2.slot_of(id).agent.render_requested() {
                                    // The scan itself dirtied this behavior, so it
                                    // holds one of the scanned claims.
                                    assert(force_flipped(s0, arena0, regions@).contains(id));
                                    lemma_force_flipped_member(s0, arena0, regions@, id);
                                } else {
                                    // The full force dirtied it, so one of the
                                    // surviving claims is its own.
                                    let m = choose|m: int|
                                        0 <= m < pruned.len() && (#[trigger] pruned[m]).id == id;
                                    lemma_prune_entries_member(s0, arena0, m);
                                    let k = choose|k: int|
                                        0 <= k < s0.len() && (#[trigger] s0[k]) == pruned[m];
                                    assert(s0[k].id == id);
                                }
                            }
                        } else {
                            if exists|k: int| 0 <= k < s0.len() && (#[trigger] s0[k]).id == id {
                                let k = choose|k: int|
                                    0 <= k < s0.len() && (#[trigger] s0[k]).id == id;
                                lemma_prune_entries_keeps_live(s0, arena0, k);
                                let m = choose|m: int|
                                    0 <= m < pruned.len() && (#[trigger] pruned[m]) == s0[k];
                                assert(arena.slot_of(id).agent.render_requested());
                            }
                        }
                    }
                }
            }
        }
        actions
    }

}

/// The redrawn sub-regions a claim list reports for propagation
/// bookkeeping: each claim's recorded history, concatenated in claim
/// order.
pub open spec fn reported_actions(s: Seq<RenderEntry>) -> Seq<PassedRenderAction>
    decreases s.len(),
{
    if s.len() == 0 {
        Seq::empty()
    } else {
        reported_actions(s.drop_last()) + s.last().prev_render_actions@
    }
}

/// Two claims that differ at most in their recorded redraw history.
pub open spec fn same_claim(a: RenderEntry, b: RenderEntry) -> bool {
    a.id == b.id && a.region == b.region && a.trigger == b.trigger && a.opacity == b.opacity
        && a.phase == b.phase
}

impl RenderManager {
    /// Performs a render pass: clears the still-pending background, then
    /// walks the live claims in phase order, announcing each phase change
    /// to the draw target, and asks every behavior with a pending render
    /// request to draw (clearing the request first, so only a fresh call
    /// to `request_render` schedules another frame).  Behaviors that skip
    /// the frame re-report their previously drawn sub-regions.  Returns
    /// the cursor requested by the behavior under the mouse and the
    /// regions drawn this pass; with a background the whole viewport is
    /// always reported.  Dead claims are pruned.
    pub fn render<B: crate::component::ComponentBehavior>(
        &mut self,
        arena: &mut BehaviorArena<B>,
        target: &mut B::DrawTarget,
        mouse_pos: Option<(i32, i32)>,
    ) -> (r: (RenderResult, Vec<PassedRenderAction>))
        requires
            old(self).wf(),
            old(arena).wf(),
        ensures
            final(self).wf(),
            final(arena).wf(),
            final(arena).slots_len() == old(arena).slots_len(),
            forall|id: BehaviorId| final(arena).live(id) == old(arena).live(id),
            forall|id: BehaviorId|
                old(arena).live(id) ==> final(arena).slot_of(id).component == old(arena).slot_of(
                    id,
                ).component,
            final(self).phase_store() == old(self).phase_store(),
            final(self).background() == old(self).background(),
            final(self).background_pending() == (old(self).background_pending() && !(old(
                self,
            ).background() is Some)),
            final(self).entries_seq().len() == prune_entries(
                old(self).entries_seq(),
                *old(arena),
            ).len(),
            forall|k: int|
                0 <= k < final(self).entries_seq().len() ==> same_claim(
                    #[trigger] final(self).entries_seq()[k],
                    prune_entries(old(self).entries_seq(), *old(arena))[k],
                ),
            old(self).background() is Some ==> r.1@ == seq![
                (PassedRenderAction { region: spec_entire_viewport() }),
            ],
            !(old(self).background() is Some) ==> r.1@ == reported_actions(
                final(self).entries_seq(),
            ),
            mouse_pos is None ==> r.0.cursor_opt() is None,
    {
        let ghost s0 = self.entries@;
        let ghost arena0 = *arena;
        if self.render_background && self.background_color.is_some() {
            match &self.background_color {
                Some(color) => {
                    let c = *color;
                    target.clear(&c);
                },
                None => {},
            }
            self.render_background = false;
        }
        let has_bg = self.background_color.is_some();
        let mut actions: Vec<PassedRenderAction> = Vec::new();
        if has_bg {
            actions.push(PassedRenderAction { region: Region::entire_viewport() });
        }
        let mut cursor_result: Option<crate::cursor::Cursor> = None;
        let mut previous_phase: Option<usize> = None;
        let mut source: Vec<RenderEntry> = Vec::new();
        core::mem::swap(&mut self.entries, &mut source);
        let mut kept: Vec<RenderEntry> = Vec::new();
        let ghost mut i: int = 0;
        proof {
            assert(s0.take(0) =~= Seq::<RenderEntry>::empty());
            assert(source@.skip(0) =~= s0);
            assert(reported_actions(kept@) =~= Seq::<PassedRenderAction>::empty());
        }
        while source.len() > 0
            invariant
                0 <= i <= s0.len(),
                source@ == s0.skip(i),
                kept@.len() == prune_entries(s0.take(i), arena0).len(),
                forall|k: int|
                    0 <= k < kept@.len() ==> same_claim(
                        #[trigger] kept@[k],
                        prune_entries(s0.take(i), arena0)[k],
                    ),
                arena.wf(),
                arena0.wf(),
                arena.slots_len() == arena0.slots_len(),
                forall|id: BehaviorId| arena.live(id) == arena0.live(id),
                forall|id: BehaviorId|
                    arena0.live(id) ==> arena.slot_of(id).component == arena0.slot_of(
                        id,
                    ).component,
                has_bg ==> actions@ == seq![
                    (PassedRenderAction { region: spec_entire_viewport() }),
                ],
                !has_bg ==> actions@ == reported_actions(kept@),
                mouse_pos is None ==> cursor_result is None,
            decreases source@.len(),
        {
            proof {
                assert(s0.take(i + 1).drop_last() =~= s0.take(i));
                assert(s0.take(i + 1).last() == s0[i]);
                assert(source@[0] == s0[i]);
            }
            let mut entry = source.remove(0);
            proof {
                assert(source@ =~= s0.skip(i + 1));
            }
            if arena.is_live(entry.id) {
                let requested = arena.agent_render_requested(entry.id);
                if requested {
                    let change_phase = match previous_phase {
                        Some(p) => p != entry.phase,
                        None => true,
                    };
                    if change_phase {
                        target.begin_phase(entry.phase);
                        previous_phase = Some(entry.phase);
                    }
                    arena.set_rendering_for(entry.id);
                    let maybe_slot = arena.take(entry.id);
                    match maybe_slot {
                        Some(mut slot) => {
                            let result = slot.behavior.render(&mut slot.agent, target);
                            arena.restore(entry.id, slot);
                            let (cur, acts) = result.into_parts();
                            if mouse_pos.is_some() && entry.region.is_inside_opt(mouse_pos) {
                                cursor_result = cur;
                            }
                            if !has_bg {
                                let ghost a_base = actions@;
                                let mut n: usize = 0;
                                while n < acts.len()
                                    invariant
                                        n <= acts@.len(),
                                        actions@ == a_base + acts@.take(n as int),
                                        mouse_pos is None ==> cursor_result is None,
                                    decreases acts@.len() - n,
                                {
                                    proof {
                                        assert(acts@.take(n + 1 as int) =~= acts@.take(
                                            n as int,
                                        ).push(acts@[n as int]));
                                    }
                                    actions.push(acts[n]);
                                    n = n + 1;
                                }
                                proof {
                                    assert(acts@.take(acts@.len() as int) =~= acts@);
                                }
                                entry.prev_render_actions = acts;
                            }
                        },
                        None => {
                            proof {
                                assert(false);
                            }
                        },
                    }
                } else {
                    if entry.region.is_inside_opt(mouse_pos) {
                        let maybe_slot = arena.take(entry.id);
                        match maybe_slot {
                            Some(mut slot) => {
                                let cur = slot.behavior.get_cursor(&mut slot.agent);
                                arena.restore(entry.id, slot);
                                cursor_result = cur;
                            },
                            None => {
                                proof {
                                    assert(false);
                                }
                            },
                        }
                    }
                    if !has_bg {
                        let ghost a_base = actions@;
                        let ghost stored = entry.prev_render_actions@;
                        let mut n: usize = 0;
                        while n < entry.prev_render_actions.len()
                            invariant
                                n <= stored.len(),
                                entry.prev_render_actions@ == stored,
                                actions@ == a_base + stored.take(n as int),
                                mouse_pos is None ==> cursor_result is None,
                            decreases entry.prev_render_actions@.len() - n,
                        {
                            proof {
                                assert(stored.take(n + 1 as int) =~= stored.take(n as int).push(
                                    stored[n as int],
                                ));
                            }
                            actions.push(entry.prev_render_actions[n]);
                            n = n + 1;
                        }
                        proof {
                            assert(stored.take(stored.len() as int) =~= stored);
                        }
                    }
                }
                let ghost kept_pre = kept@;
                kept.push(entry);
                proof {
                    assert(kept@.drop_last() =~= kept_pre);
                    assert(reported_actions(kept@) == reported_actions(kept_pre)
                        + kept@.last().prev_render_actions@);
                }
            }
            proof {
                i = i + 1;
            }
        }
        proof {
            assert(s0.take(s0.len() as int) =~= s0);
            assert(i == s0.len());
        }
        self.entries = kept;
        proof {
            assert forall|a: int, b: int|
                0 <= a < b < s0.len() implies !(#[trigger] s0[a]).region.intersects(
                (#[trigger] s0[b]).region) by {
                assert(!(old(self).entries_seq()[a]).region.intersects(
                    (old(self).entries_seq()[b]).region,
                ));
            }
            assert forall|a: int, b: int|
                0 <= a <= b < s0.len() implies (#[trigger] s0[a]).phase <= (
                #[trigger] s0[b]).phase by {
                assert(old(self).entries_seq()[a].phase <= old(self).entries_seq()[b].phase);
            }
            assert forall|a: int| 0 <= a < s0.len() implies (#[trigger] s0[a]).phase < old(
                self,
            ).phase_store().phase_ids().len() by {
                assert(old(self).entries_seq()[a].phase < old(self).phase_store().phase_ids().len());
            }
            assert forall|a: int, b: int|
                0 <= a < b < self.entries_seq().len() implies !(#[trigger] self.entries_seq()[a]).region
                    .intersects((#[trigger] self.entries_seq()[b]).region) by {
                lemma_prune_entries_pair(s0, arena0, a, b);
                assert(same_claim(self.entries_seq()[a], prune_entries(s0, arena0)[a]));
                assert(same_claim(self.entries_seq()[b], prune_entries(s0, arena0)[b]));
            }
            assert forall|a: int, b: int|
                0 <= a <= b < self.entries_seq().len() implies (#[trigger] self.entries_seq()[a]).phase
                    <= (#[trigger] self.entries_seq()[b]).phase by {
                lemma_prune_entries_pair(s0, arena0, a, b);
                assert(same_claim(self.entries_seq()[a], prune_entries(s0, arena0)[a]));
                assert(same_claim(self.entries_seq()[b], prune_entries(s0, arena0)[b]));
            }
            assert forall|a: int|
                0 <= a < self.entries_seq().len() implies (#[trigger] self.entries_seq()[a]).phase
                    < self.phase_store().phase_ids().len() by {
                lemma_prune_entries_bound(
                    s0,
                    arena0,
                    old(self).phase_store().phase_ids().len() as int,
                    a,
                );
                assert(same_claim(self.entries_seq()[a], prune_entries(s0, arena0)[a]));
            }
        }
        (RenderResult::new(cursor_result), actions)
    }
}

/// Newly dirtied behaviors only accumulate as the scan walks further
/// through the claim list.
proof fn lemma_force_flipped_prefix<B>(
    s: Seq<RenderEntry>,
    arena: BehaviorArena<B>,
    regions: Seq<Region>,
    i: int,
)
    requires
        0 <= i <= s.len(),
    ensures
        forall|id: BehaviorId|
            force_flipped(s.take(i), arena, regions).contains(id) ==> force_flipped(
                s,
                arena,
                regions,
            ).contains(id),
    decreases s.len() - i,
{
    if i == s.len() {
        assert(s.take(i) =~= s);
    } else {
        assert(s.take(i + 1).drop_last() =~= s.take(i));
        lemma_force_flipped_prefix(s, arena, regions, i + 1);
        assert forall|id: BehaviorId|
            force_flipped(s.take(i), arena, regions).contains(id) implies force_flipped(
            s,
            arena,
            regions,
        ).contains(id) by {
            assert(force_flipped(s.take(i + 1), arena, regions).contains(id));
        }
    }
}

/// Render propagation idempotence for a fully dirtied layer: when every
/// behavior holding a claim already has a render request pending — the
/// state a background cascade or a full force leaves behind — forcing any
/// regions causes no new redraw action.
pub proof fn lemma_fully_dirty_is_fixed_point<B>(
    s: Seq<RenderEntry>,
    arena: BehaviorArena<B>,
    regions: Seq<Region>,
)
    requires
        forall|id: BehaviorId|
            arena.live(id) && (exists|k: int| 0 <= k < s.len() && (#[trigger] s[k]).id == id)
                ==> (#[trigger] arena.slot_of(id)).agent.render_requested(),
    ensures
        force_actions(s, arena, regions) == Seq::<PlannedRenderAction>::empty(),
    decreases s.len(),
{
    if s.len() == 0 {
        assert(force_actions(s, arena, regions) =~= Seq::<PlannedRenderAction>::empty());
    } else {
        assert forall|id: BehaviorId|
            arena.live(id) && (exists|k: int|
                0 <= k < s.drop_last().len() && (#[trigger] s.drop_last()[k]).id == id) implies (
        #[trigger] arena.slot_of(id)).agent.render_requested() by {
            let k = choose|k: int|
                0 <= k < s.drop_last().len() && (#[trigger] s.drop_last()[k]).id == id;
            assert(s[k].id == id);
        }
        lemma_fully_dirty_is_fixed_point(s.drop_last(), arena, regions);
        let e = s.last();
        if arena.live(e.id) {
            assert(s[s.len() - 1].id == e.id);
            assert(arena.slot_of(e.id).agent.render_requested());
        }
        assert(force_actions(s, arena, regions) =~= Seq::<PlannedRenderAction>::empty());
    }
}

/// Render propagation idempotence: once the behaviors a partial force
/// newly dirtied have their render requests set — which is exactly the
/// state a partial force without a background cascade leaves behind (and
/// weaker than what a cascade leaves, covered above) — repeating the same
/// force causes no new redraw action: the fixed point is stable.
pub proof fn lemma_force_partial_idempotent<B>(
    s: Seq<RenderEntry>,
    arena1: BehaviorArena<B>,
    arena2: BehaviorArena<B>,
    regions: Seq<Region>,
)
    requires
        forall|id: BehaviorId| arena2.live(id) == arena1.live(id),
        forall|id: BehaviorId|
            arena1.live(id) ==> ((arena1.slot_of(id).agent.render_requested() || force_flipped(
                s,
                arena1,
                regions,
            ).contains(id)) ==> (#[trigger] arena2.slot_of(id)).agent.render_requested()),
    ensures
        force_actions(s, arena2, regions) == Seq::<PlannedRenderAction>::empty(),
    decreases s.len(),
{
    lemma_force_partial_idempotent_prefix(s, s.len() as int, arena1, arena2, regions);
    assert(s.take(s.len() as int) =~= s);
}

proof fn lemma_force_partial_idempotent_prefix<B>(
    s: Seq<RenderEntry>,
    i: int,
    arena1: BehaviorArena<B>,
    arena2: BehaviorArena<B>,
    regions: Seq<Region>,
)
    requires
        0 <= i <= s.len(),
        forall|id: BehaviorId| arena2.live(id) == arena1.live(id),
        forall|id: BehaviorId|
            arena1.live(id) ==> ((arena1.slot_of(id).agent.render_requested() || force_flipped(
                s,
                arena1,
                regions,
            ).contains(id)) ==> (#[trigger] arena2.slot_of(id)).agent.render_requested()),
    ensures
        force_actions(s.take(i), arena2, regions) == Seq::<PlannedRenderAction>::empty(),
    decreases i,
{
    if i == 0 {
        assert(s.take(0) =~= Seq::<RenderEntry>::empty());
        assert(force_actions(s.take(0), arena2, regions) =~= Seq::<
            PlannedRenderAction,
        >::empty());
    } else {
        lemma_force_partial_idempotent_prefix(s, i - 1, arena1, arena2, regions);
        assert(s.take(i).drop_last() =~= s.take(i - 1));
        assert(s.take(i).last() == s[i - 1]);
        let e = s[i - 1];
        if arena2.live(e.id) && spec_any_intersects(regions, e.region) {
            if !arena1.slot_of(e.id).agent.render_requested() {
                assert(force_flipped(s, arena1, regions).contains(e.id)) by {
                    if !force_flipped(s.take(i - 1), arena1, regions).contains(e.id) {
                        assert(force_flipped(s.take(i), arena1, regions) == force_flipped(
                            s.take(i - 1),
                            arena1,
                            regions,
                        ).insert(e.id));
                    }
                    lemma_force_flipped_prefix(s, arena1, regions, i);
                }
            }
            assert(arena2.slot_of(e.id).agent.render_requested());
        }
        assert(force_actions(s.take(i), arena2, regions) =~= Seq::<
            PlannedRenderAction,
        >::empty());
    }
}

} // verus!
