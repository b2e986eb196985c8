//! Starting and stopping a gateway, in the foreground or in a background thread.

use vstd::prelude::*;

verus! {

/// What a gateway is doing.
#[derive(Debug, Clone, Copy, PartialEq, Eq, Structural)]
pub enum Activity {
    /// Nothing: it was never started, or it was stopped.
    Idle,
    /// It serves in the foreground of some thread.
    Foreground,
    /// It serves in a background thread.
    Background,
    /// Its background thread ended without being stopped.
    Ended,
}

/// What to do to stop.
#[derive(Debug, PartialEq, Eq)]
pub enum StopAction {
    /// Nothing is running.
    Nothing,
    /// Signal the runs in the foreground to shut down.
    Signal,
    /// Signal the background run to shut down, and wait for its thread.
    SignalAndJoin,
    /// Forget the thread and report that it had ended by itself.
    Report(String),
}

/// The runs of a gateway. Each run has a shutdown signal of its own, made when it begins.
#[derive(Debug)]
pub struct Lifecycle {
    /// Whether there is a background thread that was not stopped.
    background: bool,
    /// Whether the shutdown signal of the background run was given.
    signalled: bool,
    /// The number of runs in the foreground.
    foreground: u64,
}

impl Lifecycle {
    /// There is a background thread that was not stopped.
    pub closed spec fn has_background(&self) -> bool {
        self.background
    }

    /// The shutdown signal of the background run was given.
    pub closed spec fn is_signalled(&self) -> bool {
        self.signalled
    }

    /// The number of runs in the foreground.
    pub closed spec fn foreground_runs(&self) -> nat {
        self.foreground as nat
    }

    /// What the gateway is doing, given whether its background thread has ended.
    pub open spec fn activity_of(&self, ended: bool) -> Activity {
        if self.has_background() {
            if ended {
                Activity::Ended
            } else {
                Activity::Background
            }
        } else if self.foreground_runs() > 0 {
            Activity::Foreground
        } else {
            Activity::Idle
        }
    }

    /// A gateway that was never started.
    pub fn new() -> (r: Self)
        ensures
            !r.has_background(),
            !r.is_signalled(),
            r.foreground_runs() == 0,
    {
        Lifecycle { background: false, signalled: false, foreground: 0 }
    }

    /// What the gateway is doing; `ended` tells whether its background thread has ended.
    pub fn activity(&self, ended: bool) -> (a: Activity)
        ensures
            a == self.activity_of(ended),
    {
        if self.background {
            if ended {
                Activity::Ended
            } else {
                Activity::Background
            }
        } else if self.foreground > 0 {
            Activity::Foreground
        } else {
            Activity::Idle
        }
    }

    /// Whether the gateway is running in the background.
    pub fn is_running(&self, ended: bool) -> (r: bool)
        ensures
            r == (self.activity_of(ended) is Background),
    {
        self.background && !ended
    }

    /// Whether a background thread may be started: not while there is one, ended or not.
    pub fn check_start(&self) -> (r: Result<(), String>)
        ensures
            r is Ok <==> !self.has_background(),
            r matches Err(e) ==> e@ == "gateway is already running"@,
    {
        if self.background {
            Err("gateway is already running".to_string())
        } else {
            Ok(())
        }
    }

    /// What starting leads to.
    pub open spec fn starts(
        self,
        report: Option<Result<String, String>>,
        post: Lifecycle,
        r: Result<String, String>,
    ) -> bool {
        &&& match report {
            Some(first) => r == first,
            None => r matches Err(e) && e@
                == "gateway thread terminated before binding (likely a panic)"@,
        }
        &&& match r {
            Ok(_) => post.has_background() && !post.is_signalled() && post.foreground_runs()
                == self.foreground_runs(),
            Err(_) => post == self,
        }
    }

    /// A background thread was started. Its first report is the address that it bound, or its
    /// error, or nothing at all if it ended before it could report. A thread that came up runs
    /// with a new signal, which nothing has given yet.
    pub fn started(&mut self, report: Option<Result<String, String>>) -> (r: Result<
        String,
        String,
    >)
        ensures
            old(self).starts(report, *final(self), r),
    {
        match report {
            Some(Ok(address)) => {
                self.background = true;
                self.signalled = false;
                Ok(address)
            },
            Some(Err(e)) => Err(e),
            None => Err("gateway thread terminated before binding (likely a panic)".to_string()),
        }
    }

    /// A run in the foreground begins. `false` if there are more than can be counted.
    pub fn enter_foreground(&mut self) -> (r: bool)
        ensures
            r <==> old(self).foreground_runs() < u64::MAX,
            r ==> final(self).foreground_runs() == old(self).foreground_runs() + 1,
            !r ==> *final(self) == *old(self),
            final(self).has_background() == old(self).has_background(),
            final(self).is_signalled() == old(self).is_signalled(),
    {
        if self.foreground < u64::MAX {
            self.foreground = self.foreground + 1;
            true
        } else {
            false
        }
    }

    /// A run in the foreground is over.
    pub fn leave_foreground(&mut self)
        ensures
            final(self).foreground_runs() == if old(self).foreground_runs() > 0 {
                (old(self).foreground_runs() - 1) as nat
            } else {
                0
            },
            final(self).has_background() == old(self).has_background(),
            final(self).is_signalled() == old(self).is_signalled(),
    {
        if self.foreground > 0 {
            self.foreground = self.foreground - 1;
        }
    }

    /// What stopping leads to.
    pub open spec fn stops(self, ended: bool, post: Lifecycle, a: StopAction) -> bool {
        match self.activity_of(ended) {
            Activity::Idle => a == StopAction::Nothing && post == self,
            Activity::Foreground => a == StopAction::Signal && post == self,
            Activity::Background => {
                &&& a == StopAction::SignalAndJoin
                &&& !post.has_background()
                &&& post.is_signalled()
                &&& post.foreground_runs() == self.foreground_runs()
            },
            Activity::Ended => {
                &&& a matches StopAction::Report(e) && e@
                    == "gateway background thread had already terminated (likely a panic)"@
                &&& !post.has_background()
                &&& post.is_signalled() == self.is_signalled()
                &&& post.foreground_runs() == self.foreground_runs()
            },
        }
    }

    /// Stop the gateway; `ended` tells whether its background thread has ended. Nothing happens
    /// if nothing is running. A background thread that ended by itself is reported.
    pub fn stop(&mut self, ended: bool) -> (a: StopAction)
        ensures
            old(self).stops(ended, *final(self), a),
    {
        match self.activity(ended) {
            Activity::Idle => StopAction::Nothing,
            Activity::Foreground => StopAction::Signal,
            Activity::Background => {
                self.background = false;
                self.signalled = true;
                StopAction::SignalAndJoin
            },
            Activity::Ended => {
                self.background = false;
                StopAction::Report(
                    "gateway background thread had already terminated (likely a panic)".to_string(),
                )
            },
        }
    }
}

/// Stopping a gateway that is not running changes nothing: what comes after it, it leaves as if
/// it had not been called.
pub proof fn law_idle_stop_does_nothing(
    before: Lifecycle,
    ended: bool,
    after: Lifecycle,
    a: StopAction,
)
    requires
        before.activity_of(ended) is Idle,
        before.stops(ended, after, a),
    ensures
        a == StopAction::Nothing,
        after == before,
{
}

/// A start carries no signal of an earlier stop: whatever was stopped before, a background
/// gateway that came up is running, and goes on running until it is stopped itself.
pub proof fn law_start_carries_no_signal(
    before: Lifecycle,
    ended: bool,
    stopped: Lifecycle,
    a: StopAction,
    report: Option<Result<String, String>>,
    after: Lifecycle,
    r: Result<String, String>,
)
    requires
        before.stops(ended, stopped, a),
        stopped.starts(report, after, r),
        r is Ok,
    ensures
        !after.is_signalled(),
        after.activity_of(false) is Background,
{
}

/// A gateway that was never started does nothing and may be started.
pub proof fn law_new_gateway_is_idle(
    g: Lifecycle,
    ended: bool,
    a: Activity,
    running: bool,
    start: Result<(), String>,
)
    requires
        call_ensures(Lifecycle::new, (), g),
        call_ensures(Lifecycle::activity, (&g, ended), a),
        call_ensures(Lifecycle::is_running, (&g, ended), running),
        call_ensures(Lifecycle::check_start, (&g,), start),
    ensures
        a == Activity::Idle,
        !running,
        start is Ok,
        g.foreground_runs() == 0,
        !g.has_background(),
{
}

/// What a gateway is said to do: it runs in the background while its thread has not ended, and a
/// second thread may not be started while there is one, ended or not.
pub proof fn law_activity(
    g: &Lifecycle,
    ended: bool,
    a: Activity,
    running: bool,
    start: Result<(), String>,
)
    requires
        call_ensures(Lifecycle::activity, (g, ended), a),
        call_ensures(Lifecycle::is_running, (g, ended), running),
        call_ensures(Lifecycle::check_start, (g,), start),
    ensures
        g.has_background() && !ended ==> a == Activity::Background && running,
        g.has_background() && ended ==> a == Activity::Ended && !running,
        !g.has_background() && g.foreground_runs() > 0 ==> a == Activity::Foreground && !running,
        !g.has_background() && g.foreground_runs() == 0 ==> a == Activity::Idle && !running,
        start is Ok <==> !g.has_background(),
        start matches Err(e) ==> e@ == "gateway is already running"@,
{
}

/// Starting comes to what the thread reports: it runs, unsignalled, if it bound an address, and
/// nothing changes if it did not. A thread that ends without a report is a failure.
pub proof fn law_start_follows_the_report(
    g: &mut Lifecycle,
    report: Option<Result<String, String>>,
    r: Result<String, String>,
)
    requires
        call_ensures(Lifecycle::started, (g, report), r),
    ensures
        report matches Some(first) ==> r == first,
        report is None ==> (r matches Err(e) && e@
            == "gateway thread terminated before binding (likely a panic)"@),
        r is Ok ==> final(g).has_background() && !final(g).is_signalled(),
        r is Err ==> final(g).has_background() == old(g).has_background()
            && final(g).is_signalled() == old(g).is_signalled(),
        final(g).foreground_runs() == old(g).foreground_runs(),
{
}

/// Stopping ends what runs in the background, and says how: by a signal and a wait while the
/// thread runs, by a report if it had ended. It signals runs in the foreground only if nothing
/// runs in the background, and does nothing if nothing runs at all. Afterwards there is no
/// background run, and the runs in the foreground are as many as before.
pub proof fn law_stop(g: &mut Lifecycle, ended: bool, a: StopAction)
    requires
        call_ensures(Lifecycle::stop, (g, ended), a),
    ensures
        a is SignalAndJoin <==> old(g).has_background() && !ended,
        a is Report <==> old(g).has_background() && ended,
        a matches StopAction::Report(e) ==> e@
            == "gateway background thread had already terminated (likely a panic)"@,
        a is Signal <==> !old(g).has_background() && old(g).foreground_runs() > 0,
        a is Nothing <==> !old(g).has_background() && old(g).foreground_runs() == 0,
        !final(g).has_background(),
        final(g).is_signalled() == (old(g).is_signalled() || a is SignalAndJoin),
        final(g).foreground_runs() == old(g).foreground_runs(),
{
}

/// Runs in the foreground are counted as they begin, and do not touch the background.
pub proof fn law_foreground_begins(g: &mut Lifecycle, r: bool)
    requires
        call_ensures(Lifecycle::enter_foreground, (g,), r),
    ensures
        r <==> old(g).foreground_runs() < u64::MAX,
        final(g).foreground_runs() == old(g).foreground_runs() + (if r {
            1int
        } else {
            0int
        }),
        final(g).has_background() == old(g).has_background(),
        final(g).is_signalled() == old(g).is_signalled(),
{
}

/// Runs in the foreground are counted as they end, and do not touch the background.
pub proof fn law_foreground_ends(g: &mut Lifecycle)
    requires
        call_ensures(Lifecycle::leave_foreground, (g,), ()),
    ensures
        old(g).foreground_runs() > 0 ==> final(g).foreground_runs() == old(g).foreground_runs() - 1,
        old(g).foreground_runs() == 0 ==> final(g).foreground_runs() == 0,
        final(g).has_background() == old(g).has_background(),
        final(g).is_signalled() == old(g).is_signalled(),
{
}

} // verus!
