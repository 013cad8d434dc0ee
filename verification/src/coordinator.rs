//! How often a device synchronises: rounds of passes, and the time between them.

use vstd::prelude::*;
use vstd::string::*;

use crate::cloud::CloudError;
use crate::plain::opt_view;
use crate::status::SyncState;
use crate::text::text_eq;

verus! {

/// How many passes a round has at most.
pub const PASSES_PER_ROUND: u8 = 8;

/// How a pass has ended.
#[derive(Debug, Clone, Copy, PartialEq, Eq, Structural)]
pub enum PassOutcome {
    Done { has_more: bool },
    Failed,
}

/// A round of passes: one after the other as long as there is more to be done.
#[derive(Debug, Clone, Copy, PartialEq, Eq, Structural)]
pub struct SyncRound {
    pub left: u8,
    pub completed: bool,
}

impl SyncRound {
    /// A round in which nothing has happened.
    pub fn new() -> (round: Self)
        ensures
            round == (SyncRound { left: PASSES_PER_ROUND, completed: false }),
    {
        SyncRound { left: PASSES_PER_ROUND, completed: false }
    }

    /// Takes note of a pass, and tells whether another one follows: only where there is more to be
    /// done and the round is not used up. A failure ends the round.
    pub fn pass_ended(&mut self, outcome: PassOutcome) -> (again: bool)
        requires
            old(self).left > 0,
        ensures
            final(self).left == old(self).left - 1,
            match outcome {
                PassOutcome::Failed => !again && !final(self).completed,
                PassOutcome::Done { has_more } => final(self).completed && again == (has_more
                    && final(self).left > 0),
            },
    {
        self.left = self.left - 1;
        match outcome {
            PassOutcome::Failed => {
                self.completed = false;
                false
            },
            PassOutcome::Done { has_more } => {
                self.completed = true;
                has_more && self.left > 0
            },
        }
    }

    /// What is shown after the round.
    pub fn status(&self) -> (status: SyncState)
        ensures
            status == if self.completed {
                SyncState::Synced
            } else {
                SyncState::WaitingForDevice
            },
    {
        if self.completed {
            SyncState::Synced
        } else {
            SyncState::WaitingForDevice
        }
    }
}

/// How long to wait for the next round where nothing calls for one, in seconds: half a minute while
/// the window shows, five minutes while it does not.
pub fn safety_delay(visible: bool) -> (seconds: u64)
    ensures
        seconds == if visible {
            30u64
        } else {
            300
        },
{
    if visible {
        30
    } else {
        300
    }
}

/// The time before an activation is tried again, in seconds.
pub open spec fn activation_seconds(retry: int) -> u64 {
    if retry <= 0 {
        5
    } else if retry == 1 {
        15
    } else if retry == 2 {
        30
    } else if retry == 3 {
        60
    } else {
        300
    }
}

/// The time before the changes of others are watched again, in seconds.
pub open spec fn watch_seconds(retry: int) -> u64 {
    if retry <= 0 {
        1
    } else if retry == 1 {
        2
    } else if retry == 2 {
        4
    } else if retry == 3 {
        8
    } else if retry == 4 {
        16
    } else {
        30
    }
}

/// How often something was tried again.
#[derive(Debug, Clone, Copy, PartialEq, Eq, Structural)]
pub struct Retries {
    pub count: u8,
}

impl Retries {
    /// Nothing was tried again.
    pub fn new() -> (retries: Self)
        ensures
            retries.count == 0,
    {
        Retries { count: 0 }
    }

    /// Whatever was tried has worked.
    pub fn worked(&mut self)
        ensures
            final(self).count == 0,
    {
        self.count = 0;
    }

    /// The time before an activation is tried again, in seconds.
    pub fn activation_failed(&mut self) -> (seconds: u64)
        ensures
            seconds == activation_seconds(old(self).count as int),
            final(self).count == (if old(self).count < 4 {
                (old(self).count + 1) as u8
            } else {
                4
            }),
    {
        let seconds: u64 = match self.count {
            0 => 5,
            1 => 15,
            2 => 30,
            3 => 60,
            _ => 300,
        };
        if self.count < 4 {
            self.count = self.count + 1;
        } else {
            self.count = 4;
        }
        seconds
    }

    /// The time before the changes of others are watched again, in seconds.
    pub fn watching_failed(&mut self) -> (seconds: u64)
        ensures
            seconds == watch_seconds(old(self).count as int),
            final(self).count == (if old(self).count < 5 {
                (old(self).count + 1) as u8
            } else {
                5
            }),
    {
        let seconds: u64 = match self.count {
            0 => 1,
            1 => 2,
            2 => 4,
            3 => 8,
            4 => 16,
            _ => 30,
        };
        if self.count < 5 {
            self.count = self.count + 1;
        } else {
            self.count = 5;
        }
        seconds
    }
}

/// The time before the next try never gets shorter, and never exceeds five minutes.
pub proof fn lemma_delays_grow(retry: int, later: int)
    requires
        retry <= later,
    ensures
        activation_seconds(retry) <= activation_seconds(later) <= 300,
        watch_seconds(retry) <= watch_seconds(later) <= 30,
{
}

/// What happens while the changes of others are watched.
#[derive(Debug, Clone, PartialEq, Eq)]
pub enum WatchEvent {
    /// The store tells how far the devices are.
    Signal(String),
    /// The store refuses to tell.
    Refused,
    /// The store has hung up.
    Ended,
    /// Nothing was told for a while.
    Idle { cancelled: bool },
}

/// What is done about it.
#[derive(Debug, Clone, Copy, PartialEq, Eq, Structural)]
pub enum WatchStep {
    /// Listens on.
    Listen,
    /// Calls for a round, and listens on.
    Wake,
    /// Stops listening.
    Stop,
    /// Stops listening, for this reason.
    Fail(CloudError),
}

/// The last signal that was heard.
#[derive(Debug, Clone, PartialEq, Eq)]
pub struct ChangeWatch {
    pub last: Option<String>,
}

impl ChangeWatch {
    /// Nothing was heard yet.
    pub fn new() -> (watch: Self)
        ensures
            watch.last is None,
    {
        ChangeWatch { last: None }
    }

    /// What is done about an event. A signal calls for a round only where it is not the one that
    /// was heard last.
    pub fn heard(&mut self, event: WatchEvent) -> (step: WatchStep)
        ensures
            match event {
                WatchEvent::Signal(signal) => {
                    &&& opt_view(final(self).last) == Some(signal@)
                    &&& step == if opt_view(old(self).last) == Some(signal@) {
                        WatchStep::Listen
                    } else {
                        WatchStep::Wake
                    }
                },
                WatchEvent::Refused => step == WatchStep::Fail(CloudError::Rejected)
                    && *final(self) == *old(self),
                WatchEvent::Ended => step == WatchStep::Fail(CloudError::Connection)
                    && *final(self) == *old(self),
                WatchEvent::Idle { cancelled } => *final(self) == *old(self) && step == if cancelled {
                    WatchStep::Stop
                } else {
                    WatchStep::Listen
                },
            },
    {
        match event {
            WatchEvent::Signal(signal) => {
                let known = match &self.last {
                    Some(last) => text_eq(last.as_str(), signal.as_str()),
                    None => false,
                };
                self.last = Some(signal);
                if known {
                    WatchStep::Listen
                } else {
                    WatchStep::Wake
                }
            },
            WatchEvent::Refused => WatchStep::Fail(CloudError::Rejected),
            WatchEvent::Ended => WatchStep::Fail(CloudError::Connection),
            WatchEvent::Idle { cancelled } => if cancelled {
                WatchStep::Stop
            } else {
                WatchStep::Listen
            },
        }
    }
}

} // verus!
