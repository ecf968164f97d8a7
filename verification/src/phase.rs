//! Render phase identifiers and the per-layer phase registry.
//!
//! A phase id is a pair (namespace, local name) used as an opaque ordering
//! and lookup key, so that independently developed render passes (a text
//! batching pass, say) can be referenced by any layer without coupling.
//! Phases render in registration order.  Registering the same id twice is a
//! programming error and is excluded by precondition.

use vstd::prelude::*;

verus! {

/// An identifier for a render phase: a namespace (conventionally the name of
/// the crate that defines the pass) plus a local name.
pub trait RenderPhaseID {
    spec fn spec_crate_name(&self) -> Seq<char>;

    spec fn spec_local_name(&self) -> Seq<char>;

    fn get_crate_name(&self) -> (r: &str)
        ensures
            r@ == self.spec_crate_name(),
    ;

    fn get_local_name(&self) -> (r: &str)
        ensures
            r@ == self.spec_local_name(),
    ;
}

/// A phase id built from borrowed static strings.
pub struct StaticRenderPhaseID {
    crate_name: &'static str,
    local_name: &'static str,
}

impl StaticRenderPhaseID {
    pub fn new(crate_name: &'static str, local_name: &'static str) -> (r: Self)
        ensures
            r.spec_crate_name() == crate_name@,
            r.spec_local_name() == local_name@,
    {
        Self { crate_name, local_name }
    }
}

impl RenderPhaseID for StaticRenderPhaseID {
    closed spec fn spec_crate_name(&self) -> Seq<char> {
        self.crate_name@
    }

    closed spec fn spec_local_name(&self) -> Seq<char> {
        self.local_name@
    }

    fn get_crate_name(&self) -> (r: &str)
        ensures
            r@ == self.spec_crate_name(),
    {
        self.crate_name
    }

    fn get_local_name(&self) -> (r: &str)
        ensures
            r@ == self.spec_local_name(),
    {
        self.local_name
    }
}

/// A phase id built from owned strings.
pub struct StringRenderPhaseID {
    crate_name: String,
    local_name: String,
}

impl StringRenderPhaseID {
    pub fn new(crate_name: String, local_name: String) -> (r: Self)
        ensures
            r.spec_crate_name() == crate_name@,
            r.spec_local_name() == local_name@,
    {
        Self { crate_name, local_name }
    }
}

impl RenderPhaseID for StringRenderPhaseID {
    closed spec fn spec_crate_name(&self) -> Seq<char> {
        self.crate_name@
    }

    closed spec fn spec_local_name(&self) -> Seq<char> {
        self.local_name@
    }

    fn get_crate_name(&self) -> (r: &str)
        ensures
            r@ == self.spec_crate_name(),
    {
        self.crate_name.as_str()
    }

    fn get_local_name(&self) -> (r: &str)
        ensures
            r@ == self.spec_local_name(),
    {
        self.local_name.as_str()
    }
}

/// The ordered registry of render phases known to one layer.  The position
/// of an id in the registry is the phase's rank: lower ranks render first.
/// The rank is per layer — an id is an opaque ordering key, so two layers
/// that register the same phases in different orders run them in their own
/// registration order.
pub struct RenderPhaseStore {
    ids: Vec<(String, String)>,
}

impl RenderPhaseStore {
    /// The registered ids, in registration order.
    pub closed spec fn phase_ids(self) -> Seq<(Seq<char>, Seq<char>)> {
        self.ids@.map_values(|p: (String, String)| (p.0@, p.1@))
    }

    /// True when the pair is already registered.
    pub open spec fn registered(self, crate_name: Seq<char>, local_name: Seq<char>) -> bool {
        exists|i: int|
            0 <= i < self.phase_ids().len() && self.phase_ids()[i] == (crate_name, local_name)
    }

    /// No id is registered twice.
    pub open spec fn wf(self) -> bool {
        forall|i: int, j: int|
            0 <= i < j < self.phase_ids().len() ==> self.phase_ids()[i] != self.phase_ids()[j]
    }

    pub fn new() -> (r: Self)
        ensures
            r.phase_ids() == Seq::<(Seq<char>, Seq<char>)>::empty(),
            r.wf(),
    {
        let r = Self { ids: Vec::new() };
        proof {
            assert(r.phase_ids() =~= Seq::<(Seq<char>, Seq<char>)>::empty());
        }
        r
    }

    /// Registers a new phase id at the end of the order.  Registering a
    /// duplicate id is a programming error, excluded by precondition.
    pub fn register<P: RenderPhaseID>(&mut self, id: &P)
        requires
            !old(self).registered(id.spec_crate_name(), id.spec_local_name()),
        ensures
            final(self).phase_ids() == old(self).phase_ids().push(
                (id.spec_crate_name(), id.spec_local_name()),
            ),
            old(self).wf() ==> final(self).wf(),
    {
        let crate_name = id.get_crate_name().to_owned();
        let local_name = id.get_local_name().to_owned();
        self.ids.push((crate_name, local_name));
        proof {
            assert(self.phase_ids() =~= old(self).phase_ids().push(
                (id.spec_crate_name(), id.spec_local_name()),
            ));
        }
    }

    /// Looks the id up; `Some(rank)` when registered, `None` otherwise.
    pub fn phase_index<P: RenderPhaseID>(&self, id: &P) -> (r: Option<usize>)
        ensures
            match r {
                Some(i) => i < self.phase_ids().len() && self.phase_ids()[i as int] == (
                    id.spec_crate_name(),
                    id.spec_local_name(),
                ),
                None => !self.registered(id.spec_crate_name(), id.spec_local_name()),
            },
    {
        let crate_name = id.get_crate_name().to_owned();
        let local_name = id.get_local_name().to_owned();
        let mut i: usize = 0;
        while i < self.ids.len()
            invariant
                i <= self.ids.len(),
                crate_name@ == id.spec_crate_name(),
                local_name@ == id.spec_local_name(),
                forall|k: int|
                    0 <= k < i ==> self.phase_ids()[k] != (
                        id.spec_crate_name(),
                        id.spec_local_name(),
                    ),
            decreases self.ids.len() - i,
        {
            let entry = &self.ids[i];
            if entry.0 == crate_name && entry.1 == local_name {
                return Some(i);
            }
            i = i + 1;
        }
        None
    }

    /// True when the id has been registered with this store.
    pub fn knows_render_phase<P: RenderPhaseID>(&self, id: &P) -> (r: bool)
        ensures
            r == self.registered(id.spec_crate_name(), id.spec_local_name()),
    {
        match self.phase_index(id) {
            Some(_) => true,
            None => false,
        }
    }

    /// How many phases have been registered.
    pub fn phase_count(&self) -> (r: usize)
        ensures
            r == self.phase_ids().len(),
    {
        self.ids.len()
    }
}

} // verus!
