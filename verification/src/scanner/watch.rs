//! Watching a library: what to do when, so that no change is missed and the
//! server never waits for a scan that will not come.

use vstd::prelude::*;

verus! {

/// How long the library must be quiet before it is scanned again, in seconds. A large file arrives
/// in many writes.
pub const WATCH_DEBOUNCE: u64 = 2;

/// What the watcher does next.
#[derive(Debug, Clone, Copy, PartialEq, Eq, Structural)]
pub enum WatchAction {
    /// Open the index.
    OpenIndex,
    /// Start to watch the library.
    StartWatch,
    /// Bring the index in line with the library.
    Reconcile,
    /// Tell the server that the first scan is over.
    SignalReady,
    /// Wait for a change, for as long as it takes.
    WaitForChange,
    /// Wait for a further change, for `WATCH_DEBOUNCE` at most.
    WaitForQuiet,
    /// End, with nothing wrong.
    Stop,
    /// End: the index could not be opened.
    Fail,
}

/// What came of the last action.
#[derive(Debug, Clone, Copy, PartialEq, Eq, Structural)]
pub enum WatchEvent {
    /// It was done, or a change came.
    Done,
    /// It failed, or the time ran out, or no change can come any more.
    Failed,
}

/// Where the watcher stands.
#[derive(Debug, Clone, Copy, PartialEq, Eq, Structural)]
pub struct Watch {
    /// What is being done.
    pub doing: WatchAction,
    /// Whether the index is open.
    pub opened: bool,
    /// Whether the library is watched.
    pub watching: bool,
    /// Whether the server was told.
    pub ready: bool,
}

/// What follows on an event. The library is watched before it is scanned for the first time, so
/// that a change during the scan is not missed.
pub open spec fn after(w: Watch, e: WatchEvent) -> Watch {
    let ok = e == WatchEvent::Done;
    match w.doing {
        WatchAction::OpenIndex => Watch {
            doing: if ok {
                WatchAction::StartWatch
            } else {
                WatchAction::SignalReady
            },
            opened: ok,
            watching: w.watching,
            ready: w.ready,
        },
        WatchAction::StartWatch => Watch {
            doing: WatchAction::Reconcile,
            opened: w.opened,
            watching: ok,
            ready: w.ready,
        },
        WatchAction::Reconcile => Watch {
            doing: if w.ready {
                WatchAction::WaitForChange
            } else {
                WatchAction::SignalReady
            },
            opened: w.opened,
            watching: w.watching,
            ready: w.ready,
        },
        WatchAction::SignalReady => Watch {
            doing: if !w.opened {
                WatchAction::Fail
            } else if w.watching {
                WatchAction::WaitForChange
            } else {
                WatchAction::Stop
            },
            opened: w.opened,
            watching: w.watching,
            ready: true,
        },
        WatchAction::WaitForChange => Watch {
            doing: if ok {
                WatchAction::WaitForQuiet
            } else {
                WatchAction::Stop
            },
            opened: w.opened,
            watching: w.watching,
            ready: w.ready,
        },
        WatchAction::WaitForQuiet => Watch {
            doing: if ok {
                WatchAction::WaitForQuiet
            } else {
                WatchAction::Reconcile
            },
            opened: w.opened,
            watching: w.watching,
            ready: w.ready,
        },
        WatchAction::Stop | WatchAction::Fail => w,
    }
}

/// Where the watcher starts.
pub open spec fn at_start() -> Watch {
    Watch { doing: WatchAction::OpenIndex, opened: false, watching: false, ready: false }
}

impl Watch {
    /// Where the watcher starts.
    pub fn start() -> (r: Watch)
        ensures
            r == at_start(),
    {
        Watch { doing: WatchAction::OpenIndex, opened: false, watching: false, ready: false }
    }

    /// Takes up what came of the last action, and says what is next.
    pub fn step(&mut self, e: WatchEvent) -> (r: WatchAction)
        ensures
            *final(self) == after(*old(self), e),
            r == final(self).doing,
            old(self).doing == WatchAction::OpenIndex ==> r == if e == WatchEvent::Done {
                WatchAction::StartWatch
            } else {
                WatchAction::SignalReady
            },
            old(self).doing == WatchAction::StartWatch ==> r == WatchAction::Reconcile,
            old(self).doing == WatchAction::Reconcile ==> r == if old(self).ready {
                WatchAction::WaitForChange
            } else {
                WatchAction::SignalReady
            },
            old(self).doing == WatchAction::SignalReady ==> final(self).ready && r == if !old(self).opened {
                WatchAction::Fail
            } else if old(self).watching {
                WatchAction::WaitForChange
            } else {
                WatchAction::Stop
            },
            old(self).doing == WatchAction::WaitForChange ==> r == if e == WatchEvent::Done {
                WatchAction::WaitForQuiet
            } else {
                WatchAction::Stop
            },
            old(self).doing == WatchAction::WaitForQuiet ==> r == if e == WatchEvent::Done {
                WatchAction::WaitForQuiet
            } else {
                WatchAction::Reconcile
            },
    {
        let ok = e == WatchEvent::Done;
        match self.doing {
            WatchAction::OpenIndex => {
                self.opened = ok;
                self.doing = if ok {
                    WatchAction::StartWatch
                } else {
                    WatchAction::SignalReady
                };
            },
            WatchAction::StartWatch => {
                self.watching = ok;
                self.doing = WatchAction::Reconcile;
            },
            WatchAction::Reconcile => {
                self.doing = if self.ready {
                    WatchAction::WaitForChange
                } else {
                    WatchAction::SignalReady
                };
            },
            WatchAction::SignalReady => {
                self.ready = true;
                self.doing = if !self.opened {
                    WatchAction::Fail
                } else if self.watching {
                    WatchAction::WaitForChange
                } else {
                    WatchAction::Stop
                };
            },
            WatchAction::WaitForChange => {
                self.doing = if ok {
                    WatchAction::WaitForQuiet
                } else {
                    WatchAction::Stop
                };
            },
            WatchAction::WaitForQuiet => {
                if !ok {
                    self.doing = WatchAction::Reconcile;
                }
            },
            WatchAction::Stop | WatchAction::Fail => {},
        }
        self.doing
    }
}

/// Where the watcher stands after the first `n` of `events`.
pub open spec fn after_all(events: Seq<WatchEvent>, n: nat) -> Watch
    decreases n,
{
    if n == 0 {
        at_start()
    } else {
        after(after_all(events, (n - 1) as nat), events[n - 1])
    }
}

/// What holds wherever the watcher stands.
pub open spec fn is_sound(w: Watch) -> bool {
    match w.doing {
        WatchAction::OpenIndex => !w.ready && !w.opened && !w.watching,
        WatchAction::StartWatch => !w.ready && w.opened,
        WatchAction::Reconcile => w.opened && (w.ready ==> w.watching),
        WatchAction::SignalReady => !w.ready,
        WatchAction::WaitForChange | WatchAction::WaitForQuiet => w.ready && w.opened && w.watching,
        WatchAction::Stop => w.ready && w.opened,
        WatchAction::Fail => w.ready && !w.opened,
    }
}

proof fn lemma_always_sound(events: Seq<WatchEvent>, n: nat)
    ensures
        is_sound(after_all(events, n)),
    decreases n,
{
    if n > 0 {
        lemma_always_sound(events, (n - 1) as nat);
    }
}

/// The server never waits for ever: after four events, whatever they are, it was told that the
/// first scan is over, also if the index cannot be opened or the library cannot be watched. It is
/// told once.
pub proof fn law_server_is_told_once(events: Seq<WatchEvent>, n: nat)
    requires
        n >= 4,
    ensures
        after_all(events, n).ready,
        after_all(events, n).doing != WatchAction::SignalReady,
    decreases n,
{
    lemma_always_sound(events, n);
    if n > 4 {
        law_server_is_told_once(events, (n - 1) as nat);
    } else {
        lemma_always_sound(events, 1);
        lemma_always_sound(events, 2);
        lemma_always_sound(events, 3);
        reveal_with_fuel(after_all, 5);
    }
}

/// The library is scanned only when it is already watched, or could not be; and it is scanned again
/// only after a change that was followed by quiet. So no change is missed.
pub proof fn law_watch_comes_before_scan(events: Seq<WatchEvent>, n: nat)
    requires
        n > 0,
        after_all(events, n).doing == WatchAction::Reconcile,
    ensures
        after_all(events, n).opened,
        ({
            let before = after_all(events, (n - 1) as nat).doing;
            ||| before == WatchAction::StartWatch
            ||| before == WatchAction::WaitForQuiet && events[n - 1] == WatchEvent::Failed
        }),
{
    lemma_always_sound(events, n);
}

/// A change is scanned for as soon as the library is quiet again, and not before; then the watcher
/// waits for the next.
pub proof fn law_changes_are_scanned_when_it_is_quiet(w: Watch)
    requires
        w.doing == WatchAction::WaitForChange,
        w.ready && w.opened && w.watching,
    ensures
        ({
            let changed = after(w, WatchEvent::Done);
            let again = after(changed, WatchEvent::Done);
            let quiet = after(changed, WatchEvent::Failed);
            &&& changed.doing == WatchAction::WaitForQuiet
            &&& again == changed
            &&& quiet.doing == WatchAction::Reconcile
            &&& forall|e: WatchEvent| #[trigger] after(quiet, e) == w
        }),
{
}

/// An index that cannot be opened ends the watcher, after the server was told; a library that
/// cannot be watched is scanned once.
pub proof fn law_faults_do_not_keep_the_server_waiting(e: WatchEvent, f: WatchEvent)
    ensures
        ({
            let shut = after(at_start(), WatchEvent::Failed);
            &&& shut.doing == WatchAction::SignalReady
            &&& after(shut, e).doing == WatchAction::Fail && after(shut, e).ready
        }),
        ({
            let blind = after(after(at_start(), WatchEvent::Done), WatchEvent::Failed);
            let told = after(blind, e);
            &&& blind.doing == WatchAction::Reconcile
            &&& told.doing == WatchAction::SignalReady
            &&& after(told, f).doing == WatchAction::Stop && after(told, f).ready
        }),
{
}

} // verus!
