use vstd::prelude::*;

verus! {

/// What one bounce of a path met: the scene query found nothing, or the hit
/// material absorbed the ray, or it scattered the ray onward.
#[derive(Clone, Copy, Debug, PartialEq, Eq, Structural)]
pub enum Bounce {
    Miss,
    Absorbed,
    Scattered,
}

/// The two ways a path ends: with the sky gradient (times the attenuation
/// gathered so far), or black.
#[derive(Clone, Copy, Debug, PartialEq, Eq, Structural)]
pub enum PathEnd {
    Sky,
    Black,
}

/// What the integrator does next: query the scene with the current ray, or
/// stop with the given end.
#[derive(Clone, Copy, Debug, PartialEq, Eq, Structural)]
pub enum Next {
    Trace,
    Finish(PathEnd),
}

/// The bounce budget of one sample: how many scatters have been applied, out
/// of at most `max_depth`.
#[derive(Clone, Copy, Debug, PartialEq, Eq, Structural)]
pub struct PathState {
    pub bounces: u32,
    pub max_depth: u32,
}

impl PathState {
    pub open spec fn wf(self) -> bool {
        self.bounces <= self.max_depth
    }

    /// A fresh path: no bounce taken yet.
    pub open spec fn start(max_depth: u32) -> PathState {
        PathState { bounces: 0, max_depth }
    }

    /// The scene is queried while budget is left; otherwise the path ends black.
    pub open spec fn next_spec(self) -> Next {
        if self.bounces < self.max_depth {
            Next::Trace
        } else {
            Next::Finish(PathEnd::Black)
        }
    }

    /// The state after a bounce, and what comes next: a miss ends the path
    /// with the sky, an absorption ends it black, a scatter spends one bounce.
    pub open spec fn record_spec(self, event: Bounce) -> (PathState, Next) {
        match event {
            Bounce::Miss => (self, Next::Finish(PathEnd::Sky)),
            Bounce::Absorbed => (self, Next::Finish(PathEnd::Black)),
            Bounce::Scattered => {
                let s = PathState { bounces: (self.bounces + 1) as u32, max_depth: self.max_depth };
                (s, s.next_spec())
            },
        }
    }

    pub fn new(max_depth: u32) -> (r: PathState)
        ensures
            r == PathState::start(max_depth),
    {
        PathState { bounces: 0, max_depth }
    }

    /// What to do before the next scene query.
    pub fn next(&self) -> (r: Next)
        ensures
            r == self.next_spec(),
    {
        if self.bounces < self.max_depth {
            Next::Trace
        } else {
            Next::Finish(PathEnd::Black)
        }
    }

    /// Takes in what the last scene query and material reported.
    pub fn record(&mut self, event: Bounce) -> (r: Next)
        requires
            old(self).bounces < old(self).max_depth,
        ensures
            (*final(self), r) == old(self).record_spec(event),
            final(self).wf(),
    {
        match event {
            Bounce::Miss => Next::Finish(PathEnd::Sky),
            Bounce::Absorbed => Next::Finish(PathEnd::Black),
            Bounce::Scattered => {
                self.bounces = self.bounces + 1;
                self.next()
            },
        }
    }
}

/// Where a path stands after it has been fed `events`, one per scene query,
/// for as long as it asks for queries; and what it does next.
pub open spec fn run_path(state: PathState, events: Seq<Bounce>) -> (PathState, Next)
    decreases events.len(),
{
    if state.next_spec() != Next::Trace || events.len() == 0 {
        (state, state.next_spec())
    } else {
        let (s, n) = state.record_spec(events[0]);
        if n == Next::Trace {
            run_path(s, events.drop_first())
        } else {
            (s, n)
        }
    }
}

/// With no bounce budget, a path ends black before any scene query, whatever
/// the scene would report.
pub proof fn lemma_zero_depth_is_black(events: Seq<Bounce>)
    ensures
        run_path(PathState::start(0), events) == (PathState::start(0), Next::Finish(
            PathEnd::Black,
        )),
{
}

/// Against a scene with nothing in it every query misses: with any budget
/// above zero the path ends with the sky at the first query, before any
/// attenuation has been applied.
pub proof fn lemma_empty_scene_is_sky(max_depth: u32, events: Seq<Bounce>)
    requires
        max_depth > 0,
        events.len() > 0,
        forall|i: int| 0 <= i < events.len() ==> events[i] == Bounce::Miss,
    ensures
        run_path(PathState::start(max_depth), events) == (PathState::start(max_depth), Next::Finish(
            PathEnd::Sky,
        )),
{
    assert(events[0] == Bounce::Miss);
}

} // verus!
