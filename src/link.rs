//! The capture stream's reconnect policy: a state machine from the current
//! state and what happened to the next state and what to do, with a capped
//! exponential backoff between attempts so a dead device does not spin.
use vstd::prelude::*;

verus! {

/// Wait before the first retry, in milliseconds.
pub const BASE_BACKOFF_MS: u64 = 100;

/// Longest wait between retries, in milliseconds.
pub const MAX_BACKOFF_MS: u64 = 5000;

#[derive(Clone, Copy, Debug, PartialEq, Eq, Structural)]
pub enum LinkState {
    /// Opening the stream; `attempt` counts the failures so far.
    Connecting { attempt: u32 },
    Streaming,
    /// Waiting out the backoff before the next attempt.
    Failed { attempt: u32 },
}

#[derive(Clone, Copy, Debug, PartialEq, Eq, Structural)]
pub enum LinkEvent {
    Opened,
    OpenFailed,
    StreamError,
    BackoffElapsed,
}

#[derive(Clone, Copy, Debug, PartialEq, Eq, Structural)]
pub enum LinkAction {
    OpenStream,
    Wait { millis: u64 },
    Idle,
}

/// Backoff after `attempt` failures: `BASE_BACKOFF_MS` doubled per failure,
/// capped at `MAX_BACKOFF_MS`.
pub open spec fn backoff_ms(attempt: nat) -> nat
    decreases attempt,
{
    if attempt == 0 {
        BASE_BACKOFF_MS as nat
    } else {
        let d = 2 * backoff_ms((attempt - 1) as nat);
        if d > MAX_BACKOFF_MS {
            MAX_BACKOFF_MS as nat
        } else {
            d
        }
    }
}

pub open spec fn bump(attempt: u32) -> u32 {
    if attempt == u32::MAX {
        attempt
    } else {
        (attempt + 1) as u32
    }
}

/// The reconnect policy. A failed open waits and counts the failure; a stream
/// error on a live stream waits the first backoff; a finished wait opens
/// again. Any other event leaves the state as it is and does nothing.
pub open spec fn next_link(s: LinkState, e: LinkEvent) -> (LinkState, LinkAction) {
    match (s, e) {
        (LinkState::Connecting { .. }, LinkEvent::Opened) => (LinkState::Streaming, LinkAction::Idle),
        (LinkState::Connecting { attempt }, LinkEvent::OpenFailed) => (
            LinkState::Failed { attempt: bump(attempt) },
            LinkAction::Wait { millis: backoff_ms(attempt as nat) as u64 },
        ),
        (LinkState::Streaming, LinkEvent::StreamError) => (
            LinkState::Failed { attempt: 0 },
            LinkAction::Wait { millis: BASE_BACKOFF_MS },
        ),
        (LinkState::Failed { attempt }, LinkEvent::BackoffElapsed) => (
            LinkState::Connecting { attempt },
            LinkAction::OpenStream,
        ),
        _ => (s, LinkAction::Idle),
    }
}

proof fn lemma_backoff_bounded(attempt: nat)
    ensures
        BASE_BACKOFF_MS <= backoff_ms(attempt) <= MAX_BACKOFF_MS,
    decreases attempt,
{
    if attempt > 0 {
        lemma_backoff_bounded((attempt - 1) as nat);
    }
}

/// The wait after `attempt` failed opens.
pub fn backoff_for(attempt: u32) -> (r: u64)
    ensures
        r == backoff_ms(attempt as nat),
        BASE_BACKOFF_MS <= r <= MAX_BACKOFF_MS,
{
    let mut d: u64 = BASE_BACKOFF_MS;
    let mut i: u32 = 0;
    while i < attempt
        invariant
            i <= attempt,
            d == backoff_ms(i as nat),
        decreases attempt - i,
    {
        proof {
            lemma_backoff_bounded(i as nat);
        }
        if 2 * d > MAX_BACKOFF_MS {
            d = MAX_BACKOFF_MS;
        } else {
            d = 2 * d;
        }
        i += 1;
    }
    proof {
        lemma_backoff_bounded(attempt as nat);
    }
    d
}

/// One step of the reconnect policy.
pub fn step_link(s: LinkState, e: LinkEvent) -> (r: (LinkState, LinkAction))
    ensures
        r == next_link(s, e),
{
    match (s, e) {
        (LinkState::Connecting { .. }, LinkEvent::Opened) => (LinkState::Streaming, LinkAction::Idle),
        (LinkState::Connecting { attempt }, LinkEvent::OpenFailed) => {
            let next = if attempt == u32::MAX {
                attempt
            } else {
                attempt + 1
            };
            (LinkState::Failed { attempt: next }, LinkAction::Wait { millis: backoff_for(attempt) })
        },
        (LinkState::Streaming, LinkEvent::StreamError) => (
            LinkState::Failed { attempt: 0 },
            LinkAction::Wait { millis: BASE_BACKOFF_MS },
        ),
        (LinkState::Failed { attempt }, LinkEvent::BackoffElapsed) => (
            LinkState::Connecting { attempt },
            LinkAction::OpenStream,
        ),
        _ => (s, LinkAction::Idle),
    }
}

/// Every wait the policy asks for lies between `BASE_BACKOFF_MS` and
/// `MAX_BACKOFF_MS`, so a failing device is retried neither in a tight loop
/// nor never.
pub proof fn lemma_waits_are_bounded(s: LinkState, e: LinkEvent)
    ensures
        next_link(s, e).1 matches LinkAction::Wait { millis } ==> BASE_BACKOFF_MS <= millis
            <= MAX_BACKOFF_MS,
{
    if let LinkState::Connecting { attempt } = s {
        lemma_backoff_bounded(attempt as nat);
    }
}

} // verus!
