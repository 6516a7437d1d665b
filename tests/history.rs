use bitcoin_trend::error::TrendError;
use bitcoin_trend::history::{parse_cents, parse_history, parse_history_line, parse_timestamp};
use bitcoin_trend::sample::Sample;
use bitcoin_trend::store::PriceHistory;

fn s(timestamp: u64, price_cents: u32) -> Sample {
    Sample { timestamp, price_cents }
}

#[test]
fn line_with_price() {
    assert_eq!(parse_history_line(b"1000,123.45"), Ok(s(1000, 12345)));
    assert_eq!(parse_history_line(b"1000,123.456"), Ok(s(1000, 12345)));
    assert_eq!(parse_history_line(b"1000,5"), Ok(s(1000, 500)));
    assert_eq!(parse_history_line(b"1000,.5"), Ok(s(1000, 50)));
    assert_eq!(parse_history_line(b"1000,7."), Ok(s(1000, 700)));
}

#[test]
fn malformed_lines_are_refused() {
    for line in [&b"abc"[..], b"1000", b"x,1.0", b"1000,abc", b"1000,", b",1.0", b"1000,1.2.3", b"-5,1.0", b"1000,."] {
        assert_eq!(parse_history_line(line), Err(TrendError::BootstrapLineMalformed));
    }
}

#[test]
fn timestamps() {
    assert_eq!(parse_timestamp(b"0"), Some(0));
    assert_eq!(parse_timestamp(b"+5"), Some(5));
    assert_eq!(parse_timestamp(b"18446744073709551615"), Some(18446744073709551615));
    assert_eq!(parse_timestamp(b"18446744073709551616"), None);
    assert_eq!(parse_timestamp(b""), None);
    assert_eq!(parse_timestamp(b"+"), None);
    assert_eq!(parse_timestamp(b"12a"), None);
}

#[test]
fn cents() {
    assert_eq!(parse_cents(b"0.01"), Some(1));
    assert_eq!(parse_cents(b"0.29"), Some(29));
    assert_eq!(parse_cents(b"42949672.95"), Some(4294967295));
    assert_eq!(parse_cents(b"42949672.96"), None);
    assert_eq!(parse_cents(b"100000000"), None);
    assert_eq!(parse_cents(b""), None);
}

#[test]
fn malformed_line_is_skipped() {
    let data = b"1000,1.5\nnot a line\n2000,x\n3000,2.25\r\n4000,3\n";
    assert_eq!(parse_history(data), vec![s(1000, 150), s(3000, 225), s(4000, 300)]);
    assert_eq!(parse_history(b""), vec![]);
    assert_eq!(parse_history(b"5,1"), vec![s(5, 100)]);
}

#[test]
fn bootstrap_twice_is_noop() {
    let data = b"1000,1.5\nbad\n2000,2.25\n1000,9\n";
    let mut h = PriceHistory::new();
    assert_eq!(h.bootstrap(data), 2);
    assert_eq!(h.len(), 2);
    assert_eq!(h.bootstrap(data), 0);
    assert_eq!(h.len(), 2);
    assert_eq!(h.samples(), &vec![s(1000, 150), s(2000, 225)]);
}

#[test]
fn bootstrap_skips_filled_store() {
    let mut h = PriceHistory::new();
    h.insert_if_absent(s(1, 1));
    assert_eq!(h.bootstrap(b"1000,1.5\n"), 0);
    assert_eq!(h.samples(), &vec![s(1, 1)]);
}
