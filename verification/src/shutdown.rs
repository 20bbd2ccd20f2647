//! Cooperative shutdown: one flag that every long-running task watches, and
//! the rules by which signals and failed listeners raise it.

use vstd::prelude::*;

verus! {

/// The shutdown flag: whether the process has been told to shut down.
#[derive(Clone, Copy, Debug, PartialEq, Eq, Structural)]
pub enum InShutdown {
    Yes,
    No,
}

impl InShutdown {
    /// True once shutdown has been requested.
    pub fn is_shutting_down(self) -> (b: bool)
        ensures
            b == (self == InShutdown::Yes),
    {
        match self {
            InShutdown::Yes => true,
            InShutdown::No => false,
        }
    }

    /// The flag after shutdown has been triggered: raised, whatever it was.
    pub open spec fn triggered(self) -> InShutdown {
        InShutdown::Yes
    }

    /// Triggers shutdown. The flag never goes back: on a raised flag this
    /// changes nothing.
    pub fn trigger(&mut self)
        ensures
            *final(self) == old(self).triggered(),
            *final(self) == InShutdown::Yes,
    {
        *self = InShutdown::Yes;
    }
}

/// The signals that end the process.
#[derive(Clone, Copy, Debug, PartialEq, Eq, Structural)]
pub enum Signal {
    Terminate,
    Hangup,
    Interrupt,
}

/// What the task that listens for signals can meet.
#[derive(Clone, Copy, Debug, PartialEq, Eq, Structural)]
pub enum SignalEvent {
    /// The listener for the given signal could not be installed.
    InstallFailed(Signal),
    /// Another task has raised the flag.
    ShutdownSeen,
    /// The given signal has arrived.
    Received(Signal),
    /// Ctrl-C has arrived.
    CtrlC,
    /// Listening for Ctrl-C has failed.
    CtrlCFailed,
}

/// What the task that listens for signals does about an event. In every
/// case it ends.
#[derive(Clone, Copy, Debug, PartialEq, Eq, Structural)]
pub struct SignalVerdict {
    /// Raise the shutdown flag.
    pub trigger_shutdown: bool,
    /// End with the error of the listener that could not be installed.
    pub fail: bool,
}

/// The rule of the signal task: everything but a flag that is raised
/// already raises it, and only a listener that cannot be installed is an
/// error.
pub open spec fn signal_rule(event: SignalEvent) -> SignalVerdict {
    SignalVerdict {
        trigger_shutdown: !(event is ShutdownSeen),
        fail: event is InstallFailed,
    }
}

/// Decides what the signal task does about `event`.
pub fn signal_handler(event: SignalEvent) -> (verdict: SignalVerdict)
    ensures
        verdict == signal_rule(event),
{
    match event {
        SignalEvent::InstallFailed(_) => SignalVerdict { trigger_shutdown: true, fail: true },
        SignalEvent::ShutdownSeen => SignalVerdict { trigger_shutdown: false, fail: false },
        SignalEvent::Received(_) => SignalVerdict { trigger_shutdown: true, fail: false },
        SignalEvent::CtrlC => SignalVerdict { trigger_shutdown: true, fail: false },
        SignalEvent::CtrlCFailed => SignalVerdict { trigger_shutdown: true, fail: false },
    }
}

/// How the wait of the web server ended.
#[derive(Clone, Copy, Debug, PartialEq, Eq, Structural)]
pub enum ServerEvent {
    /// A listener has returned; `failed` tells whether with an error.
    ListenerEnded { failed: bool },
    /// The shutdown flag was raised, and the listeners were told to finish.
    ShutdownSeen,
}

/// Whether the web server raises the shutdown flag when its wait ends with
/// `event`: it does when one of its listeners has failed, and only then.
pub fn server_triggers_shutdown(event: ServerEvent) -> (b: bool)
    ensures
        b == (event == ServerEvent::ListenerEnded { failed: true }),
{
    match event {
        ServerEvent::ListenerEnded { failed } => failed,
        ServerEvent::ShutdownSeen => false,
    }
}

/// The flag after a run of triggers, applied one after the other.
pub open spec fn after_triggers(flag: InShutdown, triggers: nat) -> InShutdown
    decreases triggers,
{
    if triggers == 0 {
        flag
    } else {
        after_triggers(flag.triggered(), (triggers - 1) as nat)
    }
}

/// Shutdown is terminal and triggering is idempotent: once triggered the
/// flag is raised, and any number of further triggers leaves it raised.
pub proof fn lemma_shutdown_is_terminal(flag: InShutdown, triggers: nat)
    ensures
        flag.triggered().triggered() == flag.triggered(),
        triggers > 0 ==> after_triggers(flag, triggers) == InShutdown::Yes,
        after_triggers(InShutdown::Yes, triggers) == InShutdown::Yes,
    decreases triggers,
{
    if triggers > 0 {
        lemma_shutdown_is_terminal(flag.triggered(), (triggers - 1) as nat);
        lemma_shutdown_is_terminal(InShutdown::Yes, (triggers - 1) as nat);
    }
}

} // verus!
