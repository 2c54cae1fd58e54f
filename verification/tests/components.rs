use foyer::{
    build_entry, decode_entry, Catalog, CatalogEntry, Config, FifoConfig, FifoHandle, FifoPolicy,
    Handle, Key, Policy, RateLimiter, RatedTicket, Value,
};

#[test]
fn u64_key_codec_round_trip() {
    let key: u64 = 0x1122334455667788;
    assert_eq!(Key::serialized_len(&key), 8);
    assert_eq!(Key::weight(&key), 8);
    let mut buf = vec![0u8; 8];
    Key::write(&key, &mut buf, 0);
    assert_eq!(buf, vec![0x88, 0x77, 0x66, 0x55, 0x44, 0x33, 0x22, 0x11]);
    let back: u64 = Key::read(&buf);
    assert_eq!(back, key);
}

#[test]
fn small_int_codecs_round_trip() {
    let mut buf = vec![0u8; 4];
    Key::write(&0xABCDu16, &mut buf, 1);
    assert_eq!(buf, vec![0, 0xCD, 0xAB, 0]);
    let back: u16 = Key::read(&buf[1..3]);
    assert_eq!(back, 0xABCD);

    let mut buf = vec![0u8; 4];
    Value::write(&0xDEADBEEFu32, &mut buf, 0);
    let back: u32 = Value::read(&buf);
    assert_eq!(back, 0xDEADBEEF);

    let mut buf = vec![0u8; 1];
    Value::write(&0x7Fu8, &mut buf, 0);
    let back: u8 = Value::read(&buf);
    assert_eq!(back, 0x7F);
}

#[test]
fn signed_int_codecs_round_trip() {
    let mut buf = vec![0u8; 8];
    Key::write(&-5i64, &mut buf, 0);
    let back: i64 = Key::read(&buf);
    assert_eq!(back, -5);

    let mut buf = vec![0u8; 4];
    Value::write(&-123456i32, &mut buf, 0);
    let back: i32 = Value::read(&buf);
    assert_eq!(back, -123456);

    let mut buf = vec![0u8; 2];
    Key::write(&-2i16, &mut buf, 0);
    assert_eq!(buf, vec![0xFE, 0xFF]);
    let back: i16 = Key::read(&buf);
    assert_eq!(back, -2);

    let mut buf = vec![0u8; 1];
    Value::write(&-1i8, &mut buf, 0);
    assert_eq!(buf, vec![0xFF]);
    let back: i8 = Value::read(&buf);
    assert_eq!(back, -1);
}

#[test]
fn vec_value_codec_is_identity() {
    let value = vec![1u8, 2, 3, 4, 5];
    assert_eq!(Value::serialized_len(&value), 5);
    assert_eq!(Value::weight(&value), 5);
    let mut buf = vec![0u8; 7];
    Value::write(&value, &mut buf, 1);
    assert_eq!(buf, vec![0, 1, 2, 3, 4, 5, 0]);
    let back: Vec<u8> = Value::read(&buf[1..6]);
    assert_eq!(back, value);
}

#[test]
fn entry_encode_decode_round_trip() {
    let value = vec![9u8; 33];
    let encoded = build_entry(7, &value, 42);
    assert_eq!(encoded.len(), 24 + 8 + 33);
    // magic "FOYE" little-endian
    assert_eq!(&encoded[0..4], &[0x45, 0x59, 0x4F, 0x46]);
    let decoded = decode_entry(&encoded).expect("well-formed entry");
    assert_eq!(decoded.0, 7);
    assert_eq!(decoded.1, value);
    assert_eq!(decoded.2, 42);
}

#[test]
fn entry_decoder_rejects_damage() {
    let value = vec![3u8; 20];
    let good = build_entry(5, &value, 1);

    // too short for a header
    assert!(decode_entry(&good[0..16]).is_none());

    // wrong magic
    let mut bad = good.clone();
    bad[0] ^= 0xFF;
    assert!(decode_entry(&bad).is_none());

    // flipped value byte breaks the checksum
    let mut bad = good.clone();
    bad[40] ^= 0x01;
    assert!(decode_entry(&bad).is_none());

    // flipped key byte breaks the checksum too
    let mut bad = good.clone();
    bad[25] ^= 0x01;
    assert!(decode_entry(&bad).is_none());

    // truncated value no longer matches the length field
    assert!(decode_entry(&good[0..good.len() - 1]).is_none());
}

fn entry(region_id: u32, sequence: u64) -> CatalogEntry {
    CatalogEntry { region_id, offset: 0, len: 64, sequence }
}

#[test]
fn catalog_insert_lookup_remove() {
    let mut catalog = Catalog::new();
    assert_eq!(catalog.len(), 0);
    assert_eq!(catalog.insert(1, entry(0, 1)), None);
    assert_eq!(catalog.lookup(1), Some(entry(0, 1)));
    assert_eq!(catalog.len(), 1);
    assert_eq!(catalog.remove(1), Some(entry(0, 1)));
    assert_eq!(catalog.lookup(1), None);
    assert_eq!(catalog.remove(1), None);
}

#[test]
fn catalog_keeps_newest_sequence_either_order() {
    // In-order: the newer sequence displaces the older.
    let mut catalog = Catalog::new();
    catalog.insert(1, entry(0, 1));
    assert_eq!(catalog.insert(1, entry(1, 2)), Some(entry(0, 1)));
    assert_eq!(catalog.lookup(1), Some(entry(1, 2)));

    // Out-of-order commits: the stale insert is refused.
    let mut catalog = Catalog::new();
    catalog.insert(1, entry(1, 2));
    assert_eq!(catalog.insert(1, entry(0, 1)), None);
    assert_eq!(catalog.lookup(1), Some(entry(1, 2)));
}

#[test]
fn catalog_take_region_sweeps_only_that_region() {
    let mut catalog = Catalog::new();
    catalog.insert(1, entry(0, 1));
    catalog.insert(2, entry(1, 2));
    catalog.insert(3, entry(0, 3));
    let mut taken = catalog.take_region(0);
    taken.sort();
    assert_eq!(taken, vec![(1, entry(0, 1)), (3, entry(0, 3))]);
    assert_eq!(catalog.lookup(1), None);
    assert_eq!(catalog.lookup(3), None);
    assert_eq!(catalog.lookup(2), Some(entry(1, 2)));
}

#[test]
fn fifo_policy_orders_by_registration() {
    let mut policy = FifoPolicy::new(FifoConfig {});
    assert!(policy.insert(FifoHandle::new(3)));
    assert!(policy.insert(FifoHandle::new(1)));
    assert!(policy.insert(FifoHandle::new(2)));
    // duplicates are refused
    assert!(!policy.insert(FifoHandle::new(1)));
    // FIFO ignores recency but reports membership
    assert!(policy.access(&FifoHandle::new(3)));
    assert!(!policy.access(&FifoHandle::new(9)));
    assert_eq!(*policy.eviction_pop().expect("member").index(), 3);
    assert!(policy.remove(&FifoHandle::new(1)));
    assert!(!policy.remove(&FifoHandle::new(1)));
    assert_eq!(*policy.eviction_pop().expect("member").index(), 2);
    assert!(policy.eviction_pop().is_none());
}

fn fifo_config_is_a_config(config: FifoConfig) -> impl Config {
    config
}

#[test]
fn fifo_config_implements_config() {
    let _ = fifo_config_is_a_config(FifoConfig {});
}

#[test]
fn rated_ticket_probes_and_debits() {
    let mut ticket = RatedTicket::new(1000);
    assert_eq!(ticket.tokens(), 1000);
    assert!(ticket.probe());
    ticket.reduce(400);
    assert_eq!(ticket.tokens(), 600);
    // debits saturate at empty
    ticket.reduce(2000);
    assert_eq!(ticket.tokens(), 0);
    assert!(!ticket.probe());
    // refill is capped at one second's worth
    ticket.refill(500);
    assert_eq!(ticket.tokens(), 500);
    ticket.refill(5000);
    assert_eq!(ticket.tokens(), 1000);
}

#[test]
fn rate_limiter_charges_waits_for_overruns() {
    let mut limiter = RateLimiter::new(1000);
    // Within one second's budget: no wait.
    assert_eq!(limiter.consume(400), None);
    assert_eq!(limiter.consume(400), None);
    // The overrun beyond the budget is at most one entry's worth and is
    // charged as wait time at the sustained rate.
    assert_eq!(limiter.consume(400), Some(200));
    // 100 ms pays off 100 bytes of debt; the rest still owes wait.
    limiter.refill(100);
    assert_eq!(limiter.consume(100), Some(200));
    // A full second clears the debt and refills the bucket.
    limiter.refill(1000);
    limiter.refill(1000);
    assert_eq!(limiter.consume(700), None);
}
