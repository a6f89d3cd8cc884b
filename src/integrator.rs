//! Control of the shading recurrence. A path is traced bounce by bounce; at
//! each bounce the caller intersects the current ray with the scene and
//! reports what happened. The path ends when the ray leaves the scene (it
//! then sees the sky), when a surface absorbs it, or when it has scattered
//! `MAX_DEPTH` times. The colour of the path is the product of the
//! attenuations gathered on the way times the sky colour if it escaped, and
//! black otherwise.
use vstd::prelude::*;

verus! {

/// The number of scatterings after which a path carries no more light.
pub const MAX_DEPTH: u32 = 50;

/// What tracing the current ray of a path found.
#[derive(Clone, Copy, Debug, PartialEq, Eq, Structural)]
pub enum Interaction {
    /// The ray hit nothing in the scene.
    Miss,
    /// The ray hit a surface that absorbed it.
    Absorbed,
    /// The ray hit a surface that sent out a new ray.
    Scattered,
}

/// How a path ended.
#[derive(Clone, Copy, Debug, PartialEq, Eq, Structural)]
pub enum PathEnd {
    /// The path scattered `MAX_DEPTH` times: it contributes black.
    Exhausted,
    /// A surface absorbed the path: it contributes black.
    Absorbed,
    /// The path left the scene: it sees the sky gradient.
    Escaped,
}

/// The abstract state of a path: how many times it has scattered, and how
/// it ended, once it has.
pub struct PathView {
    pub depth: nat,
    pub end: Option<PathEnd>,
}

/// The state of a path before its first ray is traced.
pub open spec fn initial_path() -> PathView {
    PathView { depth: 0, end: None }
}

/// The state of a path after the caller reports `event` for its current
/// ray. A path that has ended stays as it is.
pub open spec fn next_path(p: PathView, event: Interaction) -> PathView {
    if p.end is Some {
        p
    } else {
        match event {
            Interaction::Miss => PathView { depth: p.depth, end: Some(PathEnd::Escaped) },
            Interaction::Absorbed => PathView { depth: p.depth, end: Some(PathEnd::Absorbed) },
            Interaction::Scattered => {
                if p.depth + 1 >= MAX_DEPTH {
                    PathView { depth: p.depth + 1, end: Some(PathEnd::Exhausted) }
                } else {
                    PathView { depth: p.depth + 1, end: None }
                }
            },
        }
    }
}

/// The state of a path after the caller has reported `events`, in order.
pub open spec fn run_path(events: Seq<Interaction>) -> PathView
    decreases events.len(),
{
    if events.len() == 0 {
        initial_path()
    } else {
        next_path(run_path(events.drop_last()), events.last())
    }
}

/// The first `n` reports of `events` are all scatterings.
pub open spec fn all_scattered(events: Seq<Interaction>, n: int) -> bool {
    forall|j: int| 0 <= j < n ==> #[trigger] events[j] == Interaction::Scattered
}

/// Report `k` of `events` is `event`, every report before it is a
/// scattering, and it comes within the depth cap.
pub open spec fn stops_at(events: Seq<Interaction>, k: int, event: Interaction) -> bool {
    &&& 0 <= k < events.len()
    &&& k < MAX_DEPTH
    &&& all_scattered(events, k)
    &&& events[k] == event
}

/// How a path ends is decided by the first report that is not a scattering,
/// if it comes within the depth cap: a miss lets the path see the sky, an
/// absorption makes it black. A path whose first `MAX_DEPTH` reports are all
/// scatterings ends exhausted, so no path is traced more than `MAX_DEPTH`
/// times; a path still going on has scattered at every report.
pub proof fn lemma_path_outcome(events: Seq<Interaction>)
    ensures
        run_path(events).end is None <==> (events.len() < MAX_DEPTH && all_scattered(
            events,
            events.len() as int,
        )),
        run_path(events).end is None ==> run_path(events).depth == events.len(),
        run_path(events).end == Some(PathEnd::Escaped) <==> exists|k: int|
            stops_at(events, k, Interaction::Miss),
        run_path(events).end == Some(PathEnd::Absorbed) <==> exists|k: int|
            stops_at(events, k, Interaction::Absorbed),
        run_path(events).end == Some(PathEnd::Exhausted) <==> (events.len() >= MAX_DEPTH
            && all_scattered(events, MAX_DEPTH as int)),
        run_path(events).depth <= MAX_DEPTH,
    decreases events.len(),
{
    if events.len() > 0 {
        let prefix = events.drop_last();
        let n = prefix.len() as int;
        lemma_path_outcome(prefix);
        assert forall|j: int| 0 <= j < n implies #[trigger] events[j] == prefix[j] by {}
        let e = events.last();
        assert(e == events[n]);
        let p = run_path(prefix);
        if p.end is Some {
            // The path had already ended: the new report changes nothing.
            assert(!all_scattered(events, events.len() as int) || events.len() >= MAX_DEPTH) by {
                if events.len() < MAX_DEPTH && all_scattered(events, events.len() as int) {
                    assert(all_scattered(prefix, n));
                }
            }
            if p.end == Some(PathEnd::Escaped) || p.end == Some(PathEnd::Absorbed) {
                let ev = if p.end == Some(PathEnd::Escaped) {
                    Interaction::Miss
                } else {
                    Interaction::Absorbed
                };
                let k = choose|k: int| stops_at(prefix, k, ev);
                assert(stops_at(events, k, ev));
                assert(!all_scattered(events, MAX_DEPTH as int)) by {
                    assert(events[k] != Interaction::Scattered);
                }
                assert forall|k2: int| stops_at(events, k2, Interaction::Miss) implies stops_at(
                    prefix,
                    k2,
                    Interaction::Miss,
                ) by {
                    if k2 == n {
                        assert(all_scattered(prefix, n));
                    }
                }
                assert forall|k2: int| stops_at(events, k2, Interaction::Absorbed) implies stops_at(
                    prefix,
                    k2,
                    Interaction::Absorbed,
                ) by {
                    if k2 == n {
                        assert(all_scattered(prefix, n));
                    }
                }
            } else {
                assert(p.end == Some(PathEnd::Exhausted));
                assert(all_scattered(events, MAX_DEPTH as int));
                assert forall|k2: int, ev: Interaction|
                    ev != Interaction::Scattered implies !stops_at(events, k2, ev) by {
                    if stops_at(events, k2, ev) {
                        assert(events[k2] == Interaction::Scattered);
                    }
                }
            }
        } else {
            // The path was going on: every earlier report was a scattering.
            assert(all_scattered(prefix, n));
            assert(n < MAX_DEPTH);
            match e {
                Interaction::Miss => {
                    assert(stops_at(events, n, Interaction::Miss));
                    assert forall|k2: int| !stops_at(events, k2, Interaction::Absorbed) by {
                        if stops_at(events, k2, Interaction::Absorbed) && k2 < n {
                            assert(prefix[k2] == Interaction::Scattered);
                        }
                    }
                },
                Interaction::Absorbed => {
                    assert(stops_at(events, n, Interaction::Absorbed));
                    assert forall|k2: int| !stops_at(events, k2, Interaction::Miss) by {
                        if stops_at(events, k2, Interaction::Miss) && k2 < n {
                            assert(prefix[k2] == Interaction::Scattered);
                        }
                    }
                },
                Interaction::Scattered => {
                    assert(all_scattered(events, events.len() as int));
                    assert forall|k2: int, ev: Interaction|
                        ev != Interaction::Scattered implies !stops_at(events, k2, ev) by {
                        if stops_at(events, k2, ev) {
                            assert(events[k2] == Interaction::Scattered);
                        }
                    }
                    if events.len() >= MAX_DEPTH {
                        assert(all_scattered(events, MAX_DEPTH as int));
                    }
                },
            }
        }
    }
}

/// The progress of one path through the scene.
pub struct PathState {
    depth: u32,
    end: Option<PathEnd>,
}

impl View for PathState {
    type V = PathView;

    closed spec fn view(&self) -> PathView {
        PathView { depth: self.depth as nat, end: self.end }
    }
}

impl PathState {
    /// A path ends within the depth cap, and only a path that has scattered
    /// `MAX_DEPTH` times ends exhausted.
    pub closed spec fn wf(&self) -> bool {
        &&& self.depth <= MAX_DEPTH
        &&& (self.end is None ==> self.depth < MAX_DEPTH)
        &&& (self.end == Some(PathEnd::Exhausted) <==> self.depth == MAX_DEPTH)
    }

    /// A path whose first ray is still to be traced.
    pub fn start() -> (p: PathState)
        ensures
            p@ == initial_path(),
            p.wf(),
    {
        PathState { depth: 0, end: None }
    }

    /// Whether the current ray still has to be traced: true until the path
    /// has ended.
    pub fn needs_trace(&self) -> (r: bool)
        ensures
            r == (self@.end is None),
    {
        self.end.is_none()
    }

    /// Records what tracing the current ray found.
    pub fn record(&mut self, event: Interaction)
        requires
            old(self).wf(),
        ensures
            final(self)@ == next_path(old(self)@, event),
            final(self).wf(),
    {
        if self.end.is_none() {
            match event {
                Interaction::Miss => {
                    self.end = Some(PathEnd::Escaped);
                },
                Interaction::Absorbed => {
                    self.end = Some(PathEnd::Absorbed);
                },
                Interaction::Scattered => {
                    self.depth = self.depth + 1;
                    if self.depth >= MAX_DEPTH {
                        self.end = Some(PathEnd::Exhausted);
                    }
                },
            }
        }
    }

    /// The number of times the path has scattered.
    pub fn depth(&self) -> (r: u32)
        ensures
            r == self@.depth,
    {
        self.depth
    }

    /// How the path ended, or `None` while it goes on.
    pub fn end(&self) -> (r: Option<PathEnd>)
        ensures
            r == self@.end,
    {
        self.end
    }
}

} // verus!
