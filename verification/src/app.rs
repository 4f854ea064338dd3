//! The application builder and its state machine.

use vstd::prelude::*;
use crate::model::{Marker, Registration, State, Records, after_exit};
use crate::store::Store;

verus! {

/// The capability of being a cleanup marker: only a value of such a type can
/// be bound to a state.
pub trait Cleanup {
    /// The marker that the tagged entities carry.
    spec fn marker_spec(&self) -> Marker;

    /// The marker that the tagged entities carry.
    fn marker(&self) -> (m: Marker)
        ensures
            m == self.marker_spec(),
    ;
}

impl Cleanup for Marker {
    open spec fn marker_spec(&self) -> Marker {
        *self
    }

    fn marker(&self) -> (m: Marker) {
        *self
    }
}

/// What one update of the state machine did.
#[derive(Clone, Copy, Debug, PartialEq, Eq, Structural)]
pub enum Step {
    /// No state was left: nothing was queued, or the current state was.
    Idle,
    /// The initial state was entered.
    Entered { state: State },
    /// `exited` was left, its exit handlers ran, and `entered` was entered.
    Moved { exited: State, entered: State },
}

/// An application that brings no engine of its own: an entity store, the
/// current state, and the cleanup registrations.
///
/// Its state machine is simpler than an engine's: the first update does
/// nothing but enter the initial state, the exit handlers of a state run in
/// the order in which they were registered, and the caller spawns what
/// belongs to the state that an update reports as entered.
pub struct App {
    world: Store,
    state: State,
    next: Option<State>,
    started: bool,
    cleanups: Vec<Registration>,
}

/// The model of an application.
pub struct AppView {
    pub world: Records,
    pub state: State,
    pub next: Option<State>,
    pub started: bool,
    pub cleanups: Seq<Registration>,
}

/// What the next update of `a` reports.
pub open spec fn step_of(a: AppView) -> Step {
    if !a.started {
        Step::Entered { state: a.state }
    } else {
        match a.next {
            Some(entered) => if entered != a.state {
                Step::Moved { exited: a.state, entered }
            } else {
                Step::Idle
            },
            None => Step::Idle,
        }
    }
}

/// `a` after its next update. The first update enters the initial state and
/// leaves a queued state queued. Every later one takes the queued state, if
/// there is one: where it differs from the current state, the exit handlers
/// of the current state run and the queued state becomes current.
pub open spec fn after_update(a: AppView) -> AppView {
    if !a.started {
        AppView { started: true, ..a }
    } else {
        match a.next {
            Some(entered) => if entered != a.state {
                AppView {
                    world: after_exit(a.world, a.cleanups, a.state),
                    state: entered,
                    next: None,
                    ..a
                }
            } else {
                AppView { next: None, ..a }
            },
            None => a,
        }
    }
}

impl View for App {
    type V = AppView;

    closed spec fn view(&self) -> AppView {
        AppView {
            world: self.world@,
            state: self.state,
            next: self.next,
            started: self.started,
            cleanups: self.cleanups@,
        }
    }
}

/// Allows using `add_state_cleanup`.
pub trait AddStateCleanup: Sized {
    /// The registrations made so far, oldest first.
    spec fn registrations(&self) -> Seq<Registration>;

    /// Binds `marker` to `variant`: from now on, whenever `variant` is exited,
    /// every entity that carries the marker is despawned with all its
    /// descendants. A second call with the same pair adds a second handler.
    /// Returns the builder, so that calls can be chained.
    fn add_state_cleanup<C: Cleanup>(&mut self, variant: State, marker: C) -> (app: &mut Self)
        ensures
            app.registrations() == old(self).registrations().push(
                Registration { state: variant, marker: marker.marker_spec() },
            ),
            *final(self) == *final(app),
    ;
}

impl App {
    /// The application's invariant: that of its store.
    pub closed spec fn wf(&self) -> bool {
        self.world.wf()
    }

    /// The entity store.
    pub fn world(&self) -> (w: &Store)
        requires
            self.wf(),
        ensures
            w.wf(),
            w@ == self@.world,
    {
        &self.world
    }

    /// The entity store, to spawn into. The application keeps whatever the
    /// caller leaves in it.
    pub fn world_mut(&mut self) -> (w: &mut Store)
        requires
            old(self).wf(),
        ensures
            w.wf(),
            w@ == old(self)@.world,
            final(w).wf() ==> final(self).wf(),
            final(self)@ == (AppView { world: final(w)@, ..old(self)@ }),
    {
        &mut self.world
    }

    /// An application with an empty store that has not yet entered `initial`.
    pub fn new(initial: State) -> (app: App)
        ensures
            app.wf(),
            app@ == (AppView {
                world: Seq::empty(),
                state: initial,
                next: None,
                started: false,
                cleanups: Seq::empty(),
            }),
    {
        App { world: Store::new(), state: initial, next: None, started: false, cleanups: Vec::new() }
    }
}

impl App {
    /// The current state.
    pub fn state(&self) -> (s: State)
        ensures
            s == self@.state,
    {
        self.state
    }

    /// Queues `next` as the state to move to at the next update, in place of
    /// any state queued before.
    pub fn set_next_state(&mut self, next: State)
        ensures
            final(self)@ == (AppView { next: Some(next), ..old(self)@ }),
            old(self).wf() ==> final(self).wf(),
    {
        self.next = Some(next);
    }

    /// Runs the exit handlers of `state`, in the order in which they were
    /// registered: each despawns the live entities that carry its marker,
    /// with all their descendants.
    pub fn run_exit(&mut self, state: State)
        requires
            old(self).wf(),
        ensures
            final(self).wf(),
            final(self)@ == (AppView {
                world: after_exit(old(self)@.world, old(self)@.cleanups, state),
                ..old(self)@
            }),
    {
        let ghost w = self.world@;
        let mut k: usize = 0;
        while k < self.cleanups.len()
            invariant
                self.wf(),
                k <= self.cleanups@.len(),
                self.state == old(self).state,
                self.next == old(self).next,
                self.started == old(self).started,
                self.cleanups == old(self).cleanups,
                self.world@ == after_exit(w, self.cleanups@.take(k as int), state),
            decreases self.cleanups@.len() - k,
        {
            assert(self.cleanups@.take(k + 1).drop_last() =~= self.cleanups@.take(k as int));
            let r = self.cleanups[k];
            if r.state == state {
                self.world.cleanup(r.marker);
            }
            k += 1;
        }
        assert(self.cleanups@.take(k as int) =~= self.cleanups@);
    }

    /// One update of the state machine, as `after_update` describes it. The
    /// result says which state was entered, so that the caller can spawn
    /// what belongs to it.
    pub fn update(&mut self) -> (step: Step)
        requires
            old(self).wf(),
        ensures
            final(self).wf(),
            final(self)@ == after_update(old(self)@),
            step == step_of(old(self)@),
    {
        if !self.started {
            self.started = true;
            return Step::Entered { state: self.state };
        }
        match self.next {
            Some(entered) => {
                self.next = None;
                if entered != self.state {
                    let exited = self.state;
                    self.run_exit(exited);
                    self.state = entered;
                    Step::Moved { exited, entered }
                } else {
                    Step::Idle
                }
            },
            None => Step::Idle,
        }
    }
}

impl AddStateCleanup for App {
    closed spec fn registrations(&self) -> Seq<Registration> {
        self.cleanups@
    }

    fn add_state_cleanup<C: Cleanup>(&mut self, variant: State, marker: C) -> (app: &mut Self)
        ensures
            app@ == (AppView {
                cleanups: old(self)@.cleanups.push(
                    Registration { state: variant, marker: marker.marker_spec() },
                ),
                ..old(self)@
            }),
            old(self).wf() ==> app.wf(),
    {
        self.cleanups.push(Registration { state: variant, marker: marker.marker() });
        self
    }
}

} // verus!
