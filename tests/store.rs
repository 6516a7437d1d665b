use bitcoin_trend::sample::Sample;
use bitcoin_trend::store::PriceHistory;

#[test]
fn insert_twice_keeps_count() {
    let mut h = PriceHistory::new();
    assert!(h.insert_if_absent(Sample { timestamp: 1000, price_cents: 100 }));
    assert_eq!(h.len(), 1);
    assert!(!h.insert_if_absent(Sample { timestamp: 1000, price_cents: 100 }));
    assert_eq!(h.len(), 1);
    assert!(!h.insert_if_absent(Sample { timestamp: 1000, price_cents: 999 }));
    assert_eq!(h.samples(), &vec![Sample { timestamp: 1000, price_cents: 100 }]);
}

#[test]
fn samples_stay_sorted() {
    let mut h = PriceHistory::new();
    for t in [50u64, 10, 30, 20, 40] {
        h.insert_if_absent(Sample { timestamp: t, price_cents: t as u32 });
    }
    let ts: Vec<u64> = h.samples().iter().map(|x| x.timestamp).collect();
    assert_eq!(ts, vec![10, 20, 30, 40, 50]);
    assert_eq!(h.max_timestamp(), Some(50));
    assert!(h.exists_any());
}

#[test]
fn empty_store_has_no_max() {
    let h = PriceHistory::new();
    assert_eq!(h.max_timestamp(), None);
    assert!(!h.exists_any());
    assert_eq!(h.len(), 0);
}
