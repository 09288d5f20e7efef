use fee_buckets::transactions::{FeeError, OutPoint, Transaction, Transactions, Txid};

fn id(n: u128) -> Txid {
    Txid { hi: n, lo: n * 7 + 1 }
}

fn tx(n: u128, inputs: Vec<(u128, u32)>, outputs: Vec<u64>, weight: u64) -> Transaction {
    Transaction {
        txid: id(n),
        inputs: inputs.into_iter().map(|(t, vout)| OutPoint { txid: id(t), vout }).collect(),
        output_values: outputs,
        weight,
    }
}

fn coinbase() -> Transaction {
    tx(1, vec![(0, u32::MAX)], vec![5000, 3000], 400)
}

#[test]
fn fee_rate_resolved() {
    // 8000 in, 7000 out, 100 vbytes: 10 sat/vB
    let set = Transactions::from_txs(vec![coinbase(), tx(2, vec![(1, 0), (1, 1)], vec![7000], 400)]);
    assert_eq!(set.fee_rate(&id(2)), Ok(10_000));
}

#[test]
fn fee_rate_fractional_vbytes() {
    // 3000 in, 2000 out, weight 561 (140.25 vbytes): 7.130... sat/vB
    let set = Transactions::from_txs(vec![coinbase(), tx(2, vec![(1, 1)], vec![2000], 561)]);
    assert_eq!(set.fee_rate(&id(2)), Ok(4_000_000 / 561));
}

#[test]
fn fee_rate_missing_previous_output() {
    let set = Transactions::from_txs(vec![coinbase()]);
    assert_eq!(set.fee_rate(&id(1)), Err(FeeError::Unresolvable));
}

#[test]
fn fee_rate_vout_out_of_range() {
    let set = Transactions::from_txs(vec![coinbase(), tx(2, vec![(1, 2)], vec![10], 400)]);
    assert_eq!(set.fee_rate(&id(2)), Err(FeeError::Unresolvable));
}

#[test]
fn fee_rate_unknown_txid() {
    let set = Transactions::from_txs(vec![coinbase()]);
    assert_eq!(set.fee_rate(&id(9)), Err(FeeError::Unresolvable));
}

#[test]
fn fee_rate_negative_fee() {
    let set = Transactions::from_txs(vec![coinbase(), tx(2, vec![(1, 1)], vec![4000], 400)]);
    assert_eq!(set.fee_rate(&id(2)), Err(FeeError::NegativeFee));
}

#[test]
fn fee_rate_zero_fee() {
    let set = Transactions::from_txs(vec![coinbase(), tx(2, vec![(1, 1)], vec![3000], 400)]);
    assert_eq!(set.fee_rate(&id(2)), Ok(0));
}

#[test]
fn fee_rate_outputs_beyond_amount_negative_fee() {
    let set =
        Transactions::from_txs(vec![coinbase(), tx(2, vec![(1, 1)], vec![u64::MAX, 1], 400)]);
    assert_eq!(set.fee_rate(&id(2)), Err(FeeError::NegativeFee));
}

#[test]
fn fee_rate_inputs_beyond_amount_small_fee() {
    let big = tx(3, vec![], vec![u64::MAX, 10], 400);
    let set = Transactions::from_txs(vec![big, tx(2, vec![(3, 0), (3, 1)], vec![u64::MAX], 400)]);
    // fee 10 over 100 vbytes: 0.1 sat/vB
    assert_eq!(set.fee_rate(&id(2)), Ok(100));
}

#[test]
fn fee_rate_inputs_overflow() {
    let big = tx(3, vec![], vec![u64::MAX, u64::MAX], 400);
    let set = Transactions::from_txs(vec![big, tx(2, vec![(3, 0), (3, 1)], vec![1], 400)]);
    assert_eq!(set.fee_rate(&id(2)), Err(FeeError::ValueOverflow));
}

#[test]
fn fee_rate_missing_input_before_overflow() {
    let big = tx(3, vec![], vec![u64::MAX, u64::MAX], 400);
    let set =
        Transactions::from_txs(vec![big, tx(2, vec![(3, 0), (3, 1), (8, 0)], vec![1], 400)]);
    assert_eq!(set.fee_rate(&id(2)), Err(FeeError::Unresolvable));
}

#[test]
fn fee_rate_missing_input_before_negative_fee() {
    let set =
        Transactions::from_txs(vec![coinbase(), tx(2, vec![(8, 0)], vec![u64::MAX, 1], 400)]);
    assert_eq!(set.fee_rate(&id(2)), Err(FeeError::Unresolvable));
}

#[test]
fn fee_rate_zero_weight() {
    let set = Transactions::from_txs(vec![coinbase(), tx(2, vec![(1, 0)], vec![10], 0)]);
    assert_eq!(set.fee_rate(&id(2)), Err(FeeError::Unresolvable));
}

#[test]
fn from_txs_last_copy_wins() {
    let first = tx(1, vec![], vec![5000], 400);
    let second = tx(1, vec![], vec![9000], 400);
    let spender = tx(2, vec![(1, 0)], vec![1000], 400);
    let set = Transactions::from_txs(vec![first, spender, second]);
    // 9000 in, 1000 out, 100 vbytes
    assert_eq!(set.fee_rate(&id(2)), Ok(80_000));
}

#[test]
fn fee_rates_lists_resolved_in_order() {
    let set = Transactions::from_txs(vec![
        coinbase(),
        tx(2, vec![(1, 0)], vec![4000], 400),
        tx(3, vec![(7, 0)], vec![1], 400),
        tx(4, vec![(1, 1), (2, 0)], vec![5000], 800),
    ]);
    assert_eq!(set.fee_rates(), (vec![10_000, 10_000], None));
}

#[test]
fn fee_rates_reports_negative_fee() {
    let set = Transactions::from_txs(vec![
        coinbase(),
        tx(2, vec![(1, 1)], vec![4000], 400),
        tx(3, vec![(1, 0)], vec![4000], 400),
        tx(4, vec![(1, 0)], vec![u64::MAX, 1], 400),
    ]);
    assert_eq!(set.fee_rates(), (vec![10_000], Some(FeeError::NegativeFee)));
}

#[test]
fn fee_rates_empty_set() {
    let set = Transactions::from_txs(vec![]);
    assert_eq!(set.fee_rates(), (vec![], None));
}

#[test]
fn duplicate_keeps_fields() {
    let t = tx(2, vec![(1, 0), (1, 1)], vec![7000, 3], 400);
    let d = t.duplicate();
    assert_eq!(d.txid, t.txid);
    assert_eq!(d.inputs, t.inputs);
    assert_eq!(d.output_values, t.output_values);
    assert_eq!(d.weight, t.weight);
}

#[test]
fn lookup_between_ids_sharing_high_half() {
    let a = Txid { hi: 5, lo: 1 };
    let b = Txid { hi: 5, lo: 2 };
    let parent_a = Transaction { txid: a, inputs: vec![], output_values: vec![1000], weight: 400 };
    let parent_b = Transaction { txid: b, inputs: vec![], output_values: vec![9000], weight: 400 };
    let child = Transaction {
        txid: Txid { hi: 6, lo: 0 },
        inputs: vec![OutPoint { txid: b, vout: 0 }],
        output_values: vec![8000],
        weight: 400,
    };
    let set = Transactions::from_txs(vec![parent_a, parent_b, child]);
    // 9000 in, 8000 out, 100 vbytes
    assert_eq!(set.fee_rate(&Txid { hi: 6, lo: 0 }), Ok(10_000));
    assert_eq!(set.fee_rate(&Txid { hi: 5, lo: 3 }), Err(FeeError::Unresolvable));
}
