//! The monitor: the watch configuration and the session state machine that
//! drives the classifier and the debouncer.
//!
//! A session moves `Idle -> Watching -> Terminated` and never back. The
//! embedding program registers the watch, feeds raw events and clock
//! readings in, performs the firings handed back, and invokes the user
//! callback outside the library; per-event provider errors are counted and
//! the pipeline continues, while a registration failure terminates the
//! session before anything can fire.

use vstd::prelude::*;

use crate::debounce::Debouncer;
use crate::debounce::fire_model;
use crate::debounce::put_model;
use crate::event::RawEvent;
use crate::event::classify;

verus! {

/// Where a session stands: watching has either not begun, is under way, or
/// is over for good.
#[derive(Clone, Copy, Debug, PartialEq, Eq, Structural)]
pub enum Phase {
    Idle,
    Watching,
    Terminated,
}

/// The watch configuration: a directory and a debounce interval in
/// milliseconds. Immutable after construction; watching happens through a
/// session made from it.
pub struct Monitor {
    dir: String,
    update_interval: u64,
}

impl Monitor {
    /// The directory to watch.
    pub closed spec fn dir(&self) -> Seq<char> {
        self.dir@
    }

    /// The debounce interval in milliseconds.
    pub closed spec fn interval(&self) -> u64 {
        self.update_interval
    }

    /// A monitor for the given directory and debounce interval in
    /// milliseconds. An interval of zero is valid and degenerate: every
    /// event fires on the next firing pass, with no coalescing window.
    pub fn new(dir: &str, update_interval: u64) -> (m: Monitor)
        ensures
            m.dir() == dir@,
            m.interval() == update_interval,
    {
        Monitor { dir: dir.to_string(), update_interval }
    }

    /// The directory to watch.
    pub fn directory(&self) -> (d: &str)
        ensures
            d@ == self.dir(),
    {
        self.dir.as_str()
    }

    /// The debounce interval in milliseconds.
    pub fn interval_ms(&self) -> (i: u64)
        ensures
            i == self.interval(),
    {
        self.update_interval
    }

    /// A fresh session for this monitor: idle, with nothing pending and no
    /// errors counted.
    pub fn session(&self) -> (s: Session)
        ensures
            s.wf(),
            s.phase() == Phase::Idle,
            s.delay() == self.interval() as int,
            s.pending() == Map::<Seq<char>, int>::empty(),
            s.errors() == 0,
    {
        Session { phase: Phase::Idle, debouncer: Debouncer::new(self.update_interval), event_errors: 0 }
    }
}

/// One watch session: the current phase, the pending per-key deadlines, and
/// a count of per-event provider errors that were absorbed.
pub struct Session {
    phase: Phase,
    debouncer: Debouncer,
    event_errors: u64,
}

impl Session {
    /// Internal well-formedness of the pending map.
    pub closed spec fn wf(&self) -> bool {
        self.debouncer.wf()
    }

    /// The session's phase.
    pub closed spec fn phase(&self) -> Phase {
        self.phase
    }

    /// The debounce delay in milliseconds.
    pub closed spec fn delay(&self) -> int {
        self.debouncer.delay()
    }

    /// The pending map from key to deadline.
    pub closed spec fn pending(&self) -> Map<Seq<char>, int> {
        self.debouncer@
    }

    /// How many per-event provider errors were absorbed.
    pub closed spec fn errors(&self) -> u64 {
        self.event_errors
    }

    /// The session's phase, for the driving loop.
    pub fn current_phase(&self) -> (p: Phase)
        ensures
            p == self.phase(),
    {
        self.phase
    }

    /// How many per-event provider errors were absorbed so far.
    pub fn error_count(&self) -> (n: u64)
        ensures
            n == self.errors(),
    {
        self.event_errors
    }

    /// Watch registration succeeded: the session starts watching.
    pub fn on_registered(&mut self)
        requires
            old(self).wf(),
            old(self).phase() == Phase::Idle,
        ensures
            final(self).wf(),
            final(self).phase() == Phase::Watching,
            final(self).delay() == old(self).delay(),
            final(self).pending() == old(self).pending(),
            final(self).errors() == old(self).errors(),
    {
        self.phase = Phase::Watching;
    }

    /// Watch registration failed: the error is fatal, the session ends
    /// without ever watching and nothing can fire.
    pub fn on_registration_failed(&mut self)
        requires
            old(self).wf(),
            old(self).phase() == Phase::Idle,
        ensures
            final(self).wf(),
            final(self).phase() == Phase::Terminated,
            final(self).delay() == old(self).delay(),
            final(self).pending() == Map::<Seq<char>, int>::empty(),
            final(self).errors() == old(self).errors(),
    {
        self.phase = Phase::Terminated;
        self.debouncer.shutdown();
    }

    /// A raw event arrived at time `now`: if the classifier accepts it, its
    /// path's deadline is reset to `now + delay`; otherwise the event is
    /// dropped and nothing changes.
    pub fn on_raw_event(&mut self, event: &RawEvent, now: u64)
        requires
            old(self).wf(),
            old(self).phase() == Phase::Watching,
            now + old(self).delay() <= u64::MAX,
        ensures
            final(self).wf(),
            final(self).phase() == Phase::Watching,
            final(self).delay() == old(self).delay(),
            final(self).errors() == old(self).errors(),
            final(self).pending() == match event.classified() {
                Some(p) => put_model(old(self).pending(), p, now as int, old(self).delay()),
                None => old(self).pending(),
            },
    {
        match classify(event) {
            Some(path) => self.debouncer.put(path, now),
            None => (),
        }
    }

    /// The provider reported a per-event error: it is absorbed and counted,
    /// and the session keeps watching with its pending deadlines untouched.
    pub fn on_provider_error(&mut self)
        requires
            old(self).wf(),
            old(self).phase() == Phase::Watching,
        ensures
            final(self).wf(),
            final(self).phase() == Phase::Watching,
            final(self).delay() == old(self).delay(),
            final(self).pending() == old(self).pending(),
            final(self).errors() == (if old(self).errors() == u64::MAX {
                u64::MAX
            } else {
                (old(self).errors() + 1) as u64
            }),
    {
        if self.event_errors < u64::MAX {
            self.event_errors = self.event_errors + 1;
        }
    }

    /// A firing pass at time `now`: removes and returns the keys due at
    /// `now`, each exactly once; the user callback is to be invoked once per
    /// returned key, outside the library.
    pub fn on_tick(&mut self, now: u64) -> (fired: Vec<String>)
        requires
            old(self).wf(),
            old(self).phase() == Phase::Watching,
        ensures
            final(self).wf(),
            final(self).phase() == Phase::Watching,
            final(self).delay() == old(self).delay(),
            final(self).errors() == old(self).errors(),
            final(self).pending() == fire_model(old(self).pending(), now as int),
            forall|a: int, b: int| 0 <= a < b < fired@.len() ==> fired@[a]@ != fired@[b]@,
            forall|a: int|
                0 <= a < fired@.len() ==> old(self).pending().dom().contains(
                    #[trigger] fired@[a]@,
                ) && old(self).pending()[fired@[a]@] <= now,
            forall|k: Seq<char>|
                old(self).pending().dom().contains(k) && old(self).pending()[k] <= now ==> (
                exists|a: int| 0 <= a < fired@.len() && #[trigger] fired@[a]@ == k),
    {
        self.debouncer.fire(now)
    }

    /// The earliest pending deadline, or `None` when nothing is pending:
    /// when the driving loop should next make a firing pass.
    pub fn next_deadline(&self) -> (r: Option<u64>)
        requires
            self.wf(),
        ensures
            match r {
                None => self.pending() == Map::<Seq<char>, int>::empty(),
                Some(t) => (exists|k: Seq<char>|
                    self.pending().dom().contains(k) && self.pending()[k] == t as int) && (forall|
                    k: Seq<char>,
                |
                    self.pending().dom().contains(k) ==> self.pending()[k] >= t as int),
            },
    {
        let r = self.debouncer.next_deadline();
        proof {
            match r {
                Some(t) => {
                    let k = choose|k: Seq<char>|
                        self.debouncer@.dom().contains(k) && self.debouncer@[k] == t as int;
                    assert(self.pending().dom().contains(k) && self.pending()[k] == t as int);
                },
                None => {},
            }
        }
        r
    }

    /// The event feed ended: the session terminates, cancelling every
    /// pending deadline without firing it.
    pub fn on_feed_ended(&mut self)
        requires
            old(self).wf(),
            old(self).phase() == Phase::Watching,
        ensures
            final(self).wf(),
            final(self).phase() == Phase::Terminated,
            final(self).delay() == old(self).delay(),
            final(self).pending() == Map::<Seq<char>, int>::empty(),
            final(self).errors() == old(self).errors(),
    {
        self.phase = Phase::Terminated;
        self.debouncer.shutdown();
    }
}

} // verus!
