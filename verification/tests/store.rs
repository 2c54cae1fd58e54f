use foyer::{ExistReinsertionPolicy, RatedTicketAdmissionPolicy, ReclaimOutcome, Reclaimer, Store};

fn small_store() -> Store {
    Store::new(512, 4096, 4, Vec::new(), Vec::new())
}

#[test]
fn simple_round_trip() {
    let mut store = small_store();
    assert!(store.insert(1u64, vec![0xAA; 100]));
    assert_eq!(store.lookup(1u64), Some(vec![0xAA; 100]));
    assert!(store.remove(1u64));
    assert_eq!(store.lookup(1u64), None);
}

#[test]
fn overwrite_returns_latest() {
    let mut store = small_store();
    assert!(store.insert(1u64, vec![0x11; 50]));
    assert!(store.insert(1u64, vec![0x22; 50]));
    assert_eq!(store.lookup(1u64), Some(vec![0x22; 50]));
}

#[test]
fn remove_missing_key() {
    let mut store = small_store();
    assert!(!store.remove(42u64));
    assert_eq!(store.lookup(42u64), None);
}

// With region_size = 4096 and align = 512, the data area is 3584 bytes and a
// 400-byte value occupies exactly one 512-byte slot: seven entries per region.
#[test]
fn fill_and_reclaim_oldest() {
    let mut store = small_store();
    for key in 1u64..=28 {
        assert!(store.insert(key, vec![key as u8; 400]));
    }
    // Every region is full; the next insert flushes the last region and then
    // finds no clean region: it reports false rather than blocking.
    assert!(!store.insert(29u64, vec![29; 400]));

    let mut reclaimer = Reclaimer::new(1, None);
    let outcome = reclaimer.handle(&mut store);
    match outcome {
        ReclaimOutcome::Reclaimed { region_id, reinserted, aborted, .. } => {
            // FIFO eviction recycles the oldest region, which held keys 1..=7.
            assert_eq!(region_id, 0);
            assert_eq!(reinserted, 0);
            assert!(!aborted);
        }
        other => panic!("expected a reclaim, got {:?}", other),
    }
    for key in 1u64..=7 {
        assert_eq!(store.lookup(key), None);
    }
    for key in 8u64..=28 {
        assert_eq!(store.lookup(key), Some(vec![key as u8; 400]));
    }
    // The clean pool was replenished: the failed insert now succeeds.
    assert!(store.clean_regions() >= 1);
    assert!(store.insert(29u64, vec![29; 400]));
    assert_eq!(store.lookup(29u64), Some(vec![29; 400]));
}

#[test]
fn exist_reinsertion_rejects_taken_region() {
    let mut store = Store::new(
        512,
        4096,
        4,
        Vec::new(),
        vec![ExistReinsertionPolicy::default()],
    );
    assert!(store.insert(1u64, vec![1; 400]));
    assert!(store.remove(1u64));
    for key in 2u64..=28 {
        assert!(store.insert(key, vec![key as u8; 400]));
    }
    assert!(!store.insert(29u64, vec![29; 400]));

    let mut reclaimer = Reclaimer::new(1, None);
    let outcome = reclaimer.handle(&mut store);
    match outcome {
        ReclaimOutcome::Reclaimed { region_id, reinserted, .. } => {
            assert_eq!(region_id, 0);
            // take_region drops the region's catalog entries before the scan,
            // so the exist policy sees every candidate as absent and rejects
            // it: nothing is reinserted, nothing resurrects the removed key.
            assert_eq!(reinserted, 0);
        }
        other => panic!("expected a reclaim, got {:?}", other),
    }
    assert_eq!(store.lookup(1u64), None);
    for key in 2u64..=7 {
        assert_eq!(store.lookup(key), None);
    }
    for key in 8u64..=28 {
        assert_eq!(store.lookup(key), Some(vec![key as u8; 400]));
    }
}

#[test]
fn reinsertion_readmits_keys_live_elsewhere() {
    // Rate limit of 100 bytes/s, far below one entry's weight.
    let limiter = foyer::RateLimiter::new(100);
    let mut store = Store::new(
        512,
        4096,
        4,
        Vec::new(),
        vec![ExistReinsertionPolicy::default()],
    );
    assert!(store.insert(100u64, vec![0xA1; 400]));
    for key in 1u64..=6 {
        assert!(store.insert(key, vec![key as u8; 400]));
    }
    // Overwriting key 100 lands in the next region with a newer sequence.
    assert!(store.insert(100u64, vec![0xA2; 400]));
    for key in 7u64..=12 {
        assert!(store.insert(key, vec![key as u8; 400]));
    }
    assert!(store.insert(13u64, vec![13; 400]));
    // Two regions are evictable, one is being written, one is clean.
    let mut reclaimer = Reclaimer::new(2, Some(limiter));
    let outcome = reclaimer.handle(&mut store);
    match outcome {
        ReclaimOutcome::Reclaimed { region_id, reinserted, aborted, wait_ms } => {
            assert_eq!(region_id, 0);
            // Key 100 is still live (in the second region), so the exist
            // policy re-admits its old copy; the other candidates lost their
            // catalog entries to take_region and are rejected.
            assert_eq!(reinserted, 1);
            assert!(!aborted);
            // One entry's weight far exceeds the rate: a wait is charged.
            assert!(wait_ms > 0);
        }
        other => panic!("expected a reclaim, got {:?}", other),
    }
    for key in 1u64..=6 {
        assert_eq!(store.lookup(key), None);
    }
    for key in 7u64..=12 {
        assert_eq!(store.lookup(key), Some(vec![key as u8; 400]));
    }
    // The reinserted copy carries a newer sequence than the overwrite, so
    // the old value supersedes it: reinsertion of a key that is live
    // elsewhere resurrects the scanned copy.
    assert_eq!(store.lookup(100u64), Some(vec![0xA1; 400]));
}

#[test]
fn reinsertion_skips_candidates_the_admission_gate_vetoes() {
    // Budget for exactly the fifteen setup inserts (weight 408 each), so the
    // bucket is empty when the reclaimer runs.
    let gate = RatedTicketAdmissionPolicy::new(15 * 408);
    let mut store = Store::new(
        512,
        4096,
        4,
        vec![gate],
        vec![ExistReinsertionPolicy::default()],
    );
    assert!(store.insert(100u64, vec![0xA1; 400]));
    for key in 1u64..=6 {
        assert!(store.insert(key, vec![key as u8; 400]));
    }
    assert!(store.insert(100u64, vec![0xA2; 400]));
    for key in 7u64..=12 {
        assert!(store.insert(key, vec![key as u8; 400]));
    }
    assert!(store.insert(13u64, vec![13; 400]));
    assert_eq!(store.admissions()[0].tokens(), 0);

    let mut reclaimer = Reclaimer::new(2, None);
    let outcome = reclaimer.handle(&mut store);
    match outcome {
        ReclaimOutcome::Reclaimed { region_id, reinserted, aborted, .. } => {
            assert_eq!(region_id, 0);
            // The exist policy accepts key 100's old copy, but the admission
            // gate is empty and vetoes it: the candidate is skipped, the
            // pass keeps going, and nothing aborts.
            assert_eq!(reinserted, 0);
            assert!(!aborted);
        }
        other => panic!("expected a reclaim, got {:?}", other),
    }
    // With nothing reinserted, the newer value survives.
    assert_eq!(store.lookup(100u64), Some(vec![0xA2; 400]));
}

#[test]
fn reinsertion_aborts_when_clean_pool_is_empty() {
    let mut store = Store::new(
        512,
        4096,
        4,
        Vec::new(),
        vec![ExistReinsertionPolicy::default()],
    );
    assert!(store.insert(100u64, vec![0xA1; 400]));
    for key in 1u64..=6 {
        assert!(store.insert(key, vec![key as u8; 400]));
    }
    assert!(store.insert(100u64, vec![0xA2; 400]));
    for key in 7u64..=26 {
        assert!(store.insert(key, vec![key as u8; 400]));
    }
    // All four regions hold data and the writer is full: no clean region.
    assert!(!store.insert(27u64, vec![27; 400]));
    let mut reclaimer = Reclaimer::new(1, None);
    let outcome = reclaimer.handle(&mut store);
    match outcome {
        ReclaimOutcome::Reclaimed { region_id, reinserted, aborted, .. } => {
            assert_eq!(region_id, 0);
            // Key 100's old copy is accepted by the exist policy, but no
            // clean region is available for it: the pass aborts to protect
            // foreground inserts, and the region is reclaimed regardless.
            assert_eq!(reinserted, 0);
            assert!(aborted);
        }
        other => panic!("expected a reclaim, got {:?}", other),
    }
    // The abort kept the newer value in place.
    assert_eq!(store.lookup(100u64), Some(vec![0xA2; 400]));
    assert!(store.clean_regions() >= 1);
}

#[test]
fn corruption_detected_and_dropped() {
    let mut store = small_store();
    assert!(store.insert(1u64, vec![0x5A; 64]));
    assert!(store.insert(2u64, vec![0x66; 64]));
    // Flush so both entries live on the device: entry of key 1 at offset 0,
    // of key 2 at the next 512-byte slot.
    store.close();
    // Flip one byte inside key 1's value area.
    store.corrupt_byte(0, 40);
    assert_eq!(store.lookup(1u64), None);
    // The corrupt entry was dropped, not just skipped.
    assert_eq!(store.lookup(1u64), None);
    assert_eq!(store.lookup(2u64), Some(vec![0x66; 64]));
}

#[test]
fn admission_conjunction_filters() {
    let open_gate = RatedTicketAdmissionPolicy::new(1_000_000);
    let shut_gate = RatedTicketAdmissionPolicy::new(0);
    let mut store = Store::new(512, 4096, 4, vec![open_gate, shut_gate], Vec::new());
    // One closed judge vetoes the insert.
    assert!(!store.insert(1u64, vec![0xAB; 10]));
    assert_eq!(store.lookup(1u64), None);
    assert_eq!(store.metrics().op_insert_filtered, 1);
    // on_drop ran for both policies and debits nothing.
    assert_eq!(store.admissions()[0].tokens(), 1_000_000);
    assert_eq!(store.admissions()[1].tokens(), 0);
}

#[test]
fn admission_debits_each_policy_once() {
    let a = RatedTicketAdmissionPolicy::new(1_000_000);
    let b = RatedTicketAdmissionPolicy::new(500_000);
    let mut store = Store::new(512, 4096, 4, vec![a, b], Vec::new());
    assert!(store.insert(7u64, vec![0xCD; 92])); // weight = 8 + 92 = 100
    assert_eq!(store.metrics().op_insert_inserted, 1);
    assert_eq!(store.admissions()[0].tokens(), 1_000_000 - 100);
    assert_eq!(store.admissions()[1].tokens(), 500_000 - 100);
}

#[test]
fn rated_ticket_exhausts_and_refills() {
    let mut store = Store::new(
        512,
        4096,
        4,
        vec![RatedTicketAdmissionPolicy::new(100)],
        Vec::new(),
    );
    // First insert passes (tokens > 0) and debits past zero.
    assert!(store.insert(1u64, vec![0; 200]));
    assert_eq!(store.admissions()[0].tokens(), 0);
    // Bucket empty: the judge filters the next insert.
    assert!(!store.insert(2u64, vec![0; 10]));
    // A second's worth of time refills the bucket.
    store.admission_refill(1000);
    assert_eq!(store.admissions()[0].tokens(), 100);
    assert!(store.insert(2u64, vec![0; 10]));
}

#[test]
fn total_bytes_tracks_data_holding_regions() {
    let mut store = small_store();
    assert_eq!(store.metrics().total_bytes, 0);
    assert!(store.insert(1u64, vec![0; 400]));
    // One region is now writing.
    assert_eq!(store.metrics().total_bytes, 4096);
    for key in 2u64..=8 {
        assert!(store.insert(key, vec![0; 400]));
    }
    // The first region flushed and sealed, a second one opened.
    assert_eq!(store.metrics().total_bytes, 8192);
    assert_eq!(store.metrics().op_bytes_flush, 3584);
}

#[test]
fn oversized_value_is_dropped_not_split() {
    let mut store = small_store();
    // 4000 + 32 > 3584: no region can ever hold this entry.
    assert!(!store.insert(1u64, vec![0; 4000]));
    assert_eq!(store.lookup(1u64), None);
    assert_eq!(store.metrics().op_insert_dropped, 1);
}

#[test]
fn reclaim_above_threshold_is_a_no_op() {
    let mut store = small_store();
    let mut reclaimer = Reclaimer::new(1, None);
    assert_eq!(reclaimer.handle(&mut store), ReclaimOutcome::AboveThreshold);
}

#[test]
fn reclaim_without_evictable_region_backs_off() {
    let mut store = small_store();
    // Pool of 4, threshold above it, nothing sealed yet.
    let mut reclaimer = Reclaimer::new(10, None);
    assert_eq!(reclaimer.handle(&mut store), ReclaimOutcome::NoEvictable);
}

#[test]
fn clean_pool_stays_stocked_under_steady_load() {
    let mut store = small_store();
    let mut reclaimer = Reclaimer::new(1, None);
    // Steady insertions with the reclaimer keeping pace: whenever the pool
    // runs dry, one reclaim step restores it and the insert goes through.
    for i in 0..120u64 {
        let key = i + 1;
        if !store.insert(key, vec![key as u8; 400]) {
            let outcome = reclaimer.handle(&mut store);
            assert!(matches!(outcome, ReclaimOutcome::Reclaimed { .. }));
            assert!(store.clean_regions() >= 1);
            assert!(store.insert(key, vec![key as u8; 400]));
        }
        reclaimer.handle(&mut store);
    }
}
