use bitcoin_trend::error::TrendError;
use bitcoin_trend::sample::Sample;
use bitcoin_trend::updater::{
    fresh_enough, parse_ticker, updater_start, updater_step, UpdaterAction, UpdaterEvent, UpdaterState,
    CYCLE_SECONDS,
};

fn ticker(vwap: &str, timestamp: &str) -> UpdaterEvent {
    UpdaterEvent::Ticker { vwap: vwap.as_bytes().to_vec(), timestamp: timestamp.as_bytes().to_vec() }
}

#[test]
fn first_cycle_starts_at_once() {
    assert_eq!(updater_start(), (UpdaterState::AwaitLatest, UpdaterAction::QueryLatest));
    assert_eq!(
        updater_step(UpdaterState::Idle, UpdaterEvent::Woke),
        (UpdaterState::AwaitLatest, UpdaterAction::QueryLatest)
    );
}

#[test]
fn fresh_store_skips_fetch() {
    let (state, action) = updater_start();
    assert_eq!(action, UpdaterAction::QueryLatest);
    let (state, action) = updater_step(state, UpdaterEvent::Latest { newest: Some(10_000), now: 11_799 });
    assert_eq!((state, action), (UpdaterState::Idle, UpdaterAction::Sleep(CYCLE_SECONDS)));
    assert_eq!(CYCLE_SECONDS, 3600);
}

#[test]
fn stale_or_empty_store_fetches() {
    assert_eq!(
        updater_step(UpdaterState::AwaitLatest, UpdaterEvent::Latest { newest: Some(10_000), now: 11_800 }),
        (UpdaterState::AwaitTicker, UpdaterAction::Fetch)
    );
    assert_eq!(
        updater_step(UpdaterState::AwaitLatest, UpdaterEvent::Latest { newest: None, now: 0 }),
        (UpdaterState::AwaitTicker, UpdaterAction::Fetch)
    );
    assert!(fresh_enough(Some(100), 1899));
    assert!(!fresh_enough(Some(100), 1900));
    assert!(!fresh_enough(None, 0));
    assert!(fresh_enough(Some(18446744073709551615), -9223372036854775808));
}

#[test]
fn bad_price_writes_nothing() {
    let (state, action) = updater_step(UpdaterState::AwaitTicker, ticker("abc", "1600000000"));
    assert_eq!((state, action), (UpdaterState::Idle, UpdaterAction::Sleep(CYCLE_SECONDS)));
    let (state, action) = updater_step(state, UpdaterEvent::Woke);
    assert_eq!((state, action), (UpdaterState::AwaitLatest, UpdaterAction::QueryLatest));
}

#[test]
fn good_ticker_is_inserted() {
    let (state, action) = updater_step(UpdaterState::AwaitTicker, ticker("11234.56", "1600000000"));
    assert_eq!(state, UpdaterState::AwaitInsert);
    assert_eq!(action, UpdaterAction::Insert(Sample { timestamp: 1600000000, price_cents: 1123456 }));
    assert_eq!(
        updater_step(state, UpdaterEvent::Stored),
        (UpdaterState::Idle, UpdaterAction::Sleep(CYCLE_SECONDS))
    );
}

#[test]
fn setup_failure_stops_loop() {
    let r = updater_step(UpdaterState::AwaitTicker, UpdaterEvent::RequestSetupFailed);
    assert_eq!(r, (UpdaterState::Stopped, UpdaterAction::Halt));
    assert_eq!(updater_step(UpdaterState::Stopped, UpdaterEvent::Woke), (UpdaterState::Stopped, UpdaterAction::Halt));
}

#[test]
fn transient_failures_end_cycle() {
    let over = (UpdaterState::Idle, UpdaterAction::Sleep(CYCLE_SECONDS));
    assert_eq!(updater_step(UpdaterState::AwaitTicker, UpdaterEvent::TransferFailed), over);
    assert_eq!(updater_step(UpdaterState::AwaitLatest, UpdaterEvent::StoreUnavailable), over);
    assert_eq!(updater_step(UpdaterState::AwaitInsert, UpdaterEvent::StoreUnavailable), over);
}

#[test]
fn ticker_fields() {
    assert_eq!(parse_ticker(b"1.5", b"77"), Ok(Sample { timestamp: 77, price_cents: 150 }));
    assert_eq!(parse_ticker(b"1.5", b"x"), Err(TrendError::UpstreamMalformed));
    assert_eq!(parse_ticker(b"", b"77"), Err(TrendError::UpstreamMalformed));
}
