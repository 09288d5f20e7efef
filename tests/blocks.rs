use fee_buckets::blocks::{Block, BlocksBuckets};
use fee_buckets::buckets::{ConfigError, RATE_SCALE};
use fee_buckets::transactions::{FeeError, OutPoint, Transaction, Transactions, Txid};

fn id(n: u128) -> Txid {
    Txid { hi: n, lo: 0 }
}

fn tx(n: u128, inputs: Vec<(u128, u32)>, outputs: Vec<u64>, weight: u64) -> Transaction {
    Transaction {
        txid: id(n),
        inputs: inputs.into_iter().map(|(t, vout)| OutPoint { txid: id(t), vout }).collect(),
        output_values: outputs,
        weight,
    }
}

fn coinbase(n: u128) -> Transaction {
    tx(n, vec![(0, u32::MAX)], vec![100_000, 100_000, 100_000], 400)
}

// limits with 100% increment up to 10 sat/vB: 2, 4, 8, 16 sat/vB
fn limits_config() -> (u32, u64) {
    (100, 10 * RATE_SCALE)
}

fn block_one() -> Block {
    // coinbase 1; tx 11 pays 3 sat/vB; tx 12 pays 20 sat/vB
    Block {
        txdata: vec![
            coinbase(1),
            tx(11, vec![(1, 0)], vec![100_000 - 300], 400),
            tx(12, vec![(1, 1)], vec![100_000 - 2000], 400),
        ],
    }
}

fn block_two() -> Block {
    // coinbase 2; tx 21 pays 1 sat/vB; tx 22 spends tx 11 at 5 sat/vB
    Block {
        txdata: vec![
            coinbase(2),
            tx(21, vec![(2, 0)], vec![100_000 - 100], 400),
            tx(22, vec![(11, 0)], vec![100_000 - 300 - 500], 400),
        ],
    }
}

fn block_three() -> Block {
    // coinbase 3; tx 31 spends tx 12 and coinbase 3 at 40 sat/vB
    Block {
        txdata: vec![
            coinbase(3),
            tx(31, vec![(12, 0), (3, 2)], vec![100_000 - 2000 + 100_000 - 4000], 400),
        ],
    }
}

#[test]
fn new_refuses_bad_config() {
    assert_eq!(BlocksBuckets::new(0, 10_000, 2).err(), Some(ConfigError::InvalidBucketConfig));
    assert_eq!(BlocksBuckets::new(10, RATE_SCALE, 2).err(), Some(ConfigError::InvalidBucketConfig));
    assert_eq!(BlocksBuckets::new(10, 10_000, 0).err(), Some(ConfigError::InvalidBucketConfig));
}

#[test]
fn histogram_absent_until_window_full() {
    let (p, upper) = limits_config();
    let mut bb = BlocksBuckets::new(p, upper, 2).unwrap();
    assert!(bb.get_buckets().is_none());
    assert_eq!(bb.add(block_one()), Ok(()));
    assert!(bb.get_buckets().is_none());
    assert_eq!(bb.add(block_two()), Ok(()));
    assert!(bb.get_buckets().is_some());
}

#[test]
fn histogram_of_full_window() {
    let (p, upper) = limits_config();
    let mut bb = BlocksBuckets::new(p, upper, 2).unwrap();
    bb.add(block_one()).unwrap();
    bb.add(block_two()).unwrap();
    // rates: 3, 20, 1, 5 sat/vB; limits 2, 4, 8, 16
    assert_eq!(bb.get_buckets(), &Some(vec![1, 1, 1, 1]));
}

#[test]
fn histogram_cumulative_counts() {
    let (p, upper) = limits_config();
    let mut bb = BlocksBuckets::new(p, upper, 3).unwrap();
    bb.add(block_one()).unwrap();
    bb.add(block_two()).unwrap();
    bb.add(block_three()).unwrap();
    // rates 3, 20, 1, 5, 40 sat/vB; limits 2, 4, 8, 16
    let h = bb.get_buckets().clone().unwrap();
    assert_eq!(h, vec![1, 1, 1, 2]);
    let rates = [3u64, 20, 1, 5, 40];
    for (j, limit) in [2u64, 4, 8].iter().enumerate() {
        let below = rates.iter().filter(|r| *r < limit).count() as u64;
        assert_eq!(h[..=j].iter().sum::<u64>(), below);
    }
}

#[test]
fn histogram_rebuilt_after_eviction() {
    let (p, upper) = limits_config();
    let mut bb = BlocksBuckets::new(p, upper, 2).unwrap();
    bb.add(block_one()).unwrap();
    bb.add(block_two()).unwrap();
    bb.add(block_three()).unwrap();
    // window holds blocks two and three: tx 22 and tx 31 lose their parents in
    // block one; tx 21 pays 1 sat/vB
    assert_eq!(bb.get_buckets(), &Some(vec![1, 0, 0, 0]));
}

#[test]
fn histogram_total_matches_resolved_count() {
    let (p, upper) = limits_config();
    let mut bb = BlocksBuckets::new(p, upper, 3).unwrap();
    bb.add(block_one()).unwrap();
    bb.add(block_two()).unwrap();
    bb.add(block_three()).unwrap();
    let mut all = block_three().txdata;
    all.extend(block_two().txdata);
    all.extend(block_one().txdata);
    let set = Transactions::from_txs(all);
    let resolved = [1u128, 2, 3, 11, 12, 21, 22, 31]
        .iter()
        .filter(|n| set.fee_rate(&id(**n)).is_ok())
        .count() as u64;
    assert_eq!(resolved, 5);
    let total: u64 = bb.get_buckets().as_ref().unwrap().iter().sum();
    assert_eq!(total, resolved);
}

#[test]
fn histogram_reproducible() {
    let (p, upper) = limits_config();
    let mut a = BlocksBuckets::new(p, upper, 2).unwrap();
    let mut b = BlocksBuckets::new(p, upper, 2).unwrap();
    a.add(block_three()).unwrap();
    a.add(block_one()).unwrap();
    a.add(block_two()).unwrap();
    b.add(block_one()).unwrap();
    b.add(block_two()).unwrap();
    assert_eq!(a.get_buckets(), b.get_buckets());
    assert!(a.get_buckets().is_some());
}

#[test]
fn negative_fee_surfaces_and_histogram_stays() {
    let (p, upper) = limits_config();
    let mut bb = BlocksBuckets::new(p, upper, 1).unwrap();
    bb.add(block_one()).unwrap();
    assert!(bb.get_buckets().is_some());
    let bad = Block { txdata: vec![coinbase(4), tx(41, vec![(4, 0)], vec![200_000], 400)] };
    assert_eq!(bb.add(bad), Err(FeeError::NegativeFee));
    assert_eq!(bb.get_buckets(), &Some(vec![0, 0, 0, 0]));
}

#[test]
fn negative_fee_excluded_from_full_window() {
    let (p, upper) = limits_config();
    let mut bb = BlocksBuckets::new(p, upper, 2).unwrap();
    bb.add(block_one()).unwrap();
    let mut two = block_two();
    two.txdata.push(tx(23, vec![(1, 2)], vec![200_000], 400));
    assert_eq!(bb.add(two), Err(FeeError::NegativeFee));
    // rates 3, 20, 1, 5 sat/vB; tx 23 counts nowhere
    assert_eq!(bb.get_buckets(), &Some(vec![1, 1, 1, 1]));
}

#[test]
fn duplicate_txid_across_blocks() {
    // the same transaction in both blocks is counted once
    let (p, upper) = limits_config();
    let mut bb = BlocksBuckets::new(p, upper, 2).unwrap();
    bb.add(block_one()).unwrap();
    bb.add(block_one()).unwrap();
    assert_eq!(bb.get_buckets(), &Some(vec![0, 1, 0, 1]));
}
