use bitcoin_trend::error::TrendError;
use bitcoin_trend::resample::{bucket_width, FALLBACK_PRICE_CENTS};
use bitcoin_trend::sample::Sample;
use bitcoin_trend::store::PriceHistory;

fn s(timestamp: u64, price_cents: u32) -> Sample {
    Sample { timestamp, price_cents }
}

fn history(samples: &[(u64, u32)]) -> PriceHistory {
    let mut h = PriceHistory::new();
    for &(t, p) in samples {
        h.insert_if_absent(s(t, p));
    }
    h
}

#[test]
fn three_samples_in_their_buckets() {
    let h = history(&[(1000, 100), (2000, 200), (3000, 300)]);
    assert_eq!(bucket_width(1000, 3000), 20);
    let r = h.resample(1000, 3000).unwrap();
    assert_eq!(r, vec![s(1000, 100), s(2000, 200), s(3000, 300)]);
}

#[test]
fn empty_store_gives_fallback() {
    let h = PriceHistory::new();
    let r = h.resample(0, 0).unwrap();
    assert_eq!(r, vec![s(0, FALLBACK_PRICE_CENTS)]);
    assert_eq!(FALLBACK_PRICE_CENTS, 439);
}

#[test]
fn reversed_range_is_refused() {
    let h = history(&[(1000, 100)]);
    assert_eq!(h.resample(5, 4), Err(TrendError::InvalidRange));
    assert_eq!(h.len(), 1);
}

#[test]
fn window_reaches_nearest_samples() {
    let h = history(&[(1000, 100), (2000, 200), (5000, 500)]);
    let r = h.resample(1500, 1600).unwrap();
    assert_eq!(r, vec![s(1000, 100), s(2000, 200)]);
}

#[test]
fn window_after_data_uses_end_of_time() {
    let h = history(&[(1000, 100)]);
    let r = h.resample(2000, 3000).unwrap();
    assert_eq!(r, vec![s(1000, 100), s(18446744073709551610, 100)]);
}

#[test]
fn window_before_data_uses_fallback() {
    let h = history(&[(1000, 100), (3000, 300)]);
    let r = h.resample(10, 20).unwrap();
    assert_eq!(r, vec![s(0, FALLBACK_PRICE_CENTS), s(1000, 100)]);
}

#[test]
fn bucket_mean_is_floored() {
    let h = history(&[(100, 10), (101, 21)]);
    let r = h.resample(100, 1099).unwrap();
    assert_eq!(bucket_width(100, 1099), 9);
    assert_eq!(r, vec![s(99, 15), s(18446744073709551609, 21)]);
}

#[test]
fn bucket_keys_increase_and_align() {
    let mut h = PriceHistory::new();
    let mut t: u64 = 0;
    while t < 100000 {
        h.insert_if_absent(s(t, (t % 977) as u32));
        t += 37;
    }
    let (begin, end) = (1234u64, 98765u64);
    let w = bucket_width(begin, end);
    assert_eq!(w, 975);
    let r = h.resample(begin, end).unwrap();
    assert!(r.len() <= 102);
    for i in 0..r.len() {
        assert_eq!(r[i].timestamp % w, 0);
        if i > 0 {
            assert!(r[i - 1].timestamp < r[i].timestamp);
        }
    }
}

#[test]
fn bucket_widths() {
    assert_eq!(bucket_width(0, 0), 1);
    assert_eq!(bucket_width(0, 199), 1);
    assert_eq!(bucket_width(0, 250), 2);
    assert_eq!(bucket_width(0, 18446744073709551615), 184467440737095516);
}

#[test]
fn resample_is_repeatable() {
    let h = history(&[(10, 1), (20, 2), (30, 3)]);
    assert_eq!(h.resample(0, 40), h.resample(0, 40));
}
