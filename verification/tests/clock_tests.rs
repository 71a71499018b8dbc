use std::sync::atomic::{AtomicU64, Ordering};
use std::sync::Arc;
use strata::txn::clock::Hlc;

#[test]
fn test_hlc_causality() {
    let clock1_time = Arc::new(AtomicU64::new(10));
    let c1 = clock1_time.clone();
    let mut hlc1 = Hlc::new_with_clock(0, 0, move || c1.load(Ordering::SeqCst));

    let clock2_time = Arc::new(AtomicU64::new(8));
    let c2 = clock2_time.clone();
    let mut hlc2 = Hlc::new_with_clock(0, 0, move || c2.load(Ordering::SeqCst));

    let ts1 = hlc1.local_event();
    assert_eq!(ts1.physical, 10);
    assert_eq!(ts1.logical, 0);

    let ts2 = hlc1.local_event();
    assert_eq!(ts2.physical, 10);
    assert_eq!(ts2.logical, 1);
    assert!(ts2 > ts1);

    let ts3 = hlc2.receive(ts2);
    assert_eq!(ts3.physical, 10);
    assert_eq!(ts3.logical, 2);
    assert!(ts3 > ts2);

    clock2_time.store(15, Ordering::SeqCst);
    let ts4 = hlc2.local_event();
    assert_eq!(ts4.physical, 15);
    assert_eq!(ts4.logical, 0);
    assert!(ts4 > ts3);
}
