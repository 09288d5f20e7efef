use fee_buckets::buckets::{ConfigError, RATE_SCALE};
use fee_buckets::mempool::MempoolBuckets;
use fee_buckets::transactions::Txid;

fn id(n: u128) -> Txid {
    Txid { hi: 0, lo: n }
}

// limits 2, 4, 8, 16 sat/vB
fn mempool() -> MempoolBuckets {
    MempoolBuckets::new(100, 10 * RATE_SCALE).unwrap()
}

#[test]
fn mempool_new_refuses_bad_config() {
    assert_eq!(MempoolBuckets::new(0, 10_000).err(), Some(ConfigError::InvalidBucketConfig));
    assert_eq!(MempoolBuckets::new(5, 500).err(), Some(ConfigError::InvalidBucketConfig));
}

#[test]
fn mempool_starts_empty() {
    assert_eq!(mempool().get_buckets(), &vec![0, 0, 0, 0]);
}

#[test]
fn mempool_add_counts_in_bucket() {
    let mut m = mempool();
    m.add(id(1), 3_000);
    m.add(id(2), 3_500);
    m.add(id(3), 100_000);
    m.add(id(4), 1_001);
    assert_eq!(m.get_buckets(), &vec![1, 2, 0, 1]);
}

#[test]
fn mempool_add_then_remove_restores() {
    let mut m = mempool();
    m.add(id(1), 3_000);
    let before = m.get_buckets().clone();
    m.add(id(2), 9_000);
    assert_eq!(m.get_buckets(), &vec![0, 1, 0, 1]);
    m.remove(&id(2));
    assert_eq!(m.get_buckets(), &before);
    // id 2 is no longer tracked: adding it again counts it again
    m.add(id(2), 20_000);
    assert_eq!(m.get_buckets(), &vec![0, 1, 0, 1]);
}

#[test]
fn mempool_add_idempotent() {
    let mut m = mempool();
    m.add(id(1), 3_000);
    m.add(id(1), 3_000);
    m.add(id(1), 50_000);
    assert_eq!(m.get_buckets(), &vec![0, 1, 0, 0]);
}

#[test]
fn mempool_dust_ignored() {
    let mut m = mempool();
    m.add(id(1), RATE_SCALE as u128);
    m.add(id(2), 0);
    assert_eq!(m.get_buckets(), &vec![0, 0, 0, 0]);
    // a dust add does not track the transaction
    m.add(id(1), 5_000);
    assert_eq!(m.get_buckets(), &vec![0, 0, 1, 0]);
}

#[test]
fn mempool_remove_uses_recorded_bucket() {
    let mut m = mempool();
    m.add(id(1), 3_000);
    m.add(id(2), 17_000);
    m.remove(&id(2));
    assert_eq!(m.get_buckets(), &vec![0, 1, 0, 0]);
    m.remove(&id(2));
    m.remove(&id(9));
    assert_eq!(m.get_buckets(), &vec![0, 1, 0, 0]);
}

#[test]
fn mempool_clear() {
    let mut m = mempool();
    m.add(id(1), 3_000);
    m.add(id(2), 17_000);
    m.clear();
    assert_eq!(m.get_buckets(), &vec![0, 0, 0, 0]);
    m.add(id(1), 3_000);
    assert_eq!(m.get_buckets(), &vec![0, 1, 0, 0]);
}
