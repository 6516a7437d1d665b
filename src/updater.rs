use vstd::prelude::*;

use crate::error::TrendError;
use crate::history::{cents_of, parse_cents, parse_timestamp, timestamp_of};
use crate::sample::Sample;

verus! {

/// Seconds to wait between two cycles.
pub const CYCLE_SECONDS: u64 = 3600;

/// A newest sample younger than this many seconds makes a cycle skip the
/// fetch.
pub const FRESH_SECONDS: i64 = 1800;

/// Where the updater stands within a cycle.
#[derive(Clone, Copy, Debug, PartialEq, Eq, Structural)]
pub enum UpdaterState {
    /// Between cycles, waiting.
    Idle,
    /// Waiting for the store's newest timestamp.
    AwaitLatest,
    /// Waiting for the price source's answer.
    AwaitTicker,
    /// Waiting for a new sample to be written.
    AwaitInsert,
    /// Stopped for good: the request to the price source cannot be set up.
    Stopped,
}

/// What the updater asks of the outside world next.
#[derive(Clone, Copy, Debug, PartialEq, Eq, Structural)]
pub enum UpdaterAction {
    /// Sleep this many seconds, then report `Woke`.
    Sleep(u64),
    /// Ask the store for its newest timestamp, then report `Latest` or
    /// `StoreUnavailable`.
    QueryLatest,
    /// Fetch the current price, then report `Ticker`, `Unreadable`,
    /// `TransferFailed` or `RequestSetupFailed`.
    Fetch,
    /// Write this sample if its timestamp is new, then report `Stored`.
    Insert(Sample),
    /// End the loop.
    Halt,
}

/// What the outside world reports back to the updater.
#[derive(Clone, Debug)]
pub enum UpdaterEvent {
    /// The wait is over.
    Woke,
    /// The store's newest timestamp, if any, and the current time in seconds
    /// since the epoch.
    Latest { newest: Option<u64>, now: i64 },
    /// The store could not be reached or queried.
    StoreUnavailable,
    /// The request to the price source could not even be issued.
    RequestSetupFailed,
    /// The request was issued but did not bring an answer.
    TransferFailed,
    /// The price source's answer is not the object expected.
    Unreadable,
    /// The price source's `vwap` and `timestamp` fields, as sent.
    Ticker { vwap: Vec<u8>, timestamp: Vec<u8> },
    /// The write of a new sample is over, whether it succeeded or not.
    Stored,
}

/// Whether a newest sample at `newest` is recent enough at `now` to skip the
/// fetch.
pub open spec fn is_fresh(newest: Option<u64>, now: i64) -> bool {
    match newest {
        Some(t) => (now as int) - (t as int) < FRESH_SECONDS,
        None => false,
    }
}

/// The sample that the price source's fields give: the volume-weighted mean
/// price in cents and the timestamp.
pub open spec fn ticker_sample(vwap: Seq<u8>, timestamp: Seq<u8>) -> Option<Sample> {
    match (cents_of(vwap), timestamp_of(timestamp)) {
        (Some(p), Some(t)) => Some(Sample { timestamp: t, price_cents: p }),
        _ => None,
    }
}

/// The end of a cycle: back to waiting a full period.
pub open spec fn cycle_over(next: UpdaterState, action: UpdaterAction) -> bool {
    next == UpdaterState::Idle && action == UpdaterAction::Sleep(CYCLE_SECONDS)
}

/// One move of the updater: from `state`, on `event`, to `next`, asking for
/// `action`. A cycle queries the store first and fetches only when the store
/// answered and its newest sample is not fresh; a failed query, a failed
/// transfer or an answer that does not parse ends the cycle without a write;
/// only a request that cannot be set up stops the loop. An event that does
/// not belong to the state ends the cycle.
pub open spec fn step_post(
    state: UpdaterState,
    event: UpdaterEvent,
    next: UpdaterState,
    action: UpdaterAction,
) -> bool {
    match (state, event) {
        (UpdaterState::Stopped, _) => next == UpdaterState::Stopped && action == UpdaterAction::Halt,
        (UpdaterState::Idle, UpdaterEvent::Woke) => next == UpdaterState::AwaitLatest && action
            == UpdaterAction::QueryLatest,
        (UpdaterState::AwaitLatest, UpdaterEvent::Latest { newest, now }) => if is_fresh(newest, now) {
            cycle_over(next, action)
        } else {
            next == UpdaterState::AwaitTicker && action == UpdaterAction::Fetch
        },
        (UpdaterState::AwaitTicker, UpdaterEvent::RequestSetupFailed) => next == UpdaterState::Stopped
            && action == UpdaterAction::Halt,
        (UpdaterState::AwaitTicker, UpdaterEvent::Ticker { vwap, timestamp }) => match ticker_sample(
            vwap@,
            timestamp@,
        ) {
            Some(x) => next == UpdaterState::AwaitInsert && action == UpdaterAction::Insert(x),
            None => cycle_over(next, action),
        },
        _ => cycle_over(next, action),
    }
}

/// Reads the price source's `vwap` and `timestamp` fields into a sample.
pub fn parse_ticker(vwap: &[u8], timestamp: &[u8]) -> (r: Result<Sample, TrendError>)
    ensures
        match ticker_sample(vwap@, timestamp@) {
            Some(x) => r == Ok::<Sample, TrendError>(x),
            None => r == Err::<Sample, TrendError>(TrendError::UpstreamMalformed),
        },
{
    let p = parse_cents(vwap);
    let t = parse_timestamp(timestamp);
    match (p, t) {
        (Some(p), Some(t)) => Ok(Sample { timestamp: t, price_cents: p }),
        _ => Err(TrendError::UpstreamMalformed),
    }
}

/// Whether the newest sample at `newest` is recent enough at `now` that a
/// cycle skips the fetch.
pub fn fresh_enough(newest: Option<u64>, now: i64) -> (r: bool)
    ensures
        r == is_fresh(newest, now),
{
    match newest {
        Some(t) => (now as i128) - (t as i128) < FRESH_SECONDS as i128,
        None => false,
    }
}

/// The first move of the updater: a cycle starts at once, without a wait.
pub fn updater_start() -> (r: (UpdaterState, UpdaterAction))
    ensures
        r == (UpdaterState::AwaitLatest, UpdaterAction::QueryLatest),
{
    (UpdaterState::AwaitLatest, UpdaterAction::QueryLatest)
}

/// The next state and action of the updater after `event` in `state`.
pub fn updater_step(state: UpdaterState, event: UpdaterEvent) -> (r: (UpdaterState, UpdaterAction))
    ensures
        step_post(state, event, r.0, r.1),
{
    let over = (UpdaterState::Idle, UpdaterAction::Sleep(CYCLE_SECONDS));
    match state {
        UpdaterState::Stopped => (UpdaterState::Stopped, UpdaterAction::Halt),
        UpdaterState::Idle => match event {
            UpdaterEvent::Woke => (UpdaterState::AwaitLatest, UpdaterAction::QueryLatest),
            _ => over,
        },
        UpdaterState::AwaitLatest => match event {
            UpdaterEvent::Latest { newest, now } => {
                if fresh_enough(newest, now) {
                    over
                } else {
                    (UpdaterState::AwaitTicker, UpdaterAction::Fetch)
                }
            },
            _ => over,
        },
        UpdaterState::AwaitTicker => match event {
            UpdaterEvent::RequestSetupFailed => (UpdaterState::Stopped, UpdaterAction::Halt),
            UpdaterEvent::Ticker { vwap, timestamp } => {
                match parse_ticker(vwap.as_slice(), timestamp.as_slice()) {
                    Ok(x) => (UpdaterState::AwaitInsert, UpdaterAction::Insert(x)),
                    Err(_) => over,
                }
            },
            _ => over,
        },
        UpdaterState::AwaitInsert => over,
    }
}

/// A cycle that finds a fresh newest sample ends without a fetch: the store
/// is queried, and the next action is the wait for the next cycle.
pub proof fn lemma_fresh_cycle_skips_fetch(
    newest: u64,
    now: i64,
    s1: UpdaterState,
    a1: UpdaterAction,
    s2: UpdaterState,
    a2: UpdaterAction,
)
    requires
        (now as int) - (newest as int) < FRESH_SECONDS,
        step_post(UpdaterState::Idle, UpdaterEvent::Woke, s1, a1),
        step_post(s1, UpdaterEvent::Latest { newest: Some(newest), now }, s2, a2),
    ensures
        a1 == UpdaterAction::QueryLatest,
        a2 == UpdaterAction::Sleep(CYCLE_SECONDS),
        s2 == UpdaterState::Idle,
{
}

/// An answer whose `vwap` does not parse ends the cycle with no write, and
/// the loop goes on to its next cycle.
pub proof fn lemma_bad_price_skips_write(
    vwap: Vec<u8>,
    timestamp: Vec<u8>,
    next: UpdaterState,
    action: UpdaterAction,
)
    requires
        cents_of(vwap@).is_none(),
        step_post(UpdaterState::AwaitTicker, UpdaterEvent::Ticker { vwap, timestamp }, next, action),
    ensures
        next == UpdaterState::Idle,
        action == UpdaterAction::Sleep(CYCLE_SECONDS),
        !(action is Insert),
        action != UpdaterAction::Halt,
{
}

} // verus!
