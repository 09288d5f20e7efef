use vstd::prelude::*;

use std::collections::HashMap;

use crate::buckets::{count_below, RATE_SCALE};

verus! {

broadcast use vstd::std_specs::hash::group_hash_axioms;

/// A transaction identifier: the 32-byte hash, as two 128-bit halves.
#[derive(Debug, Clone, Copy, PartialEq, Eq, Structural, Hash)]
pub struct Txid {
    pub hi: u128,
    pub lo: u128,
}

/// A reference to output `vout` of transaction `txid`.
#[derive(Debug, Clone, Copy, PartialEq, Eq, Structural, Hash)]
pub struct OutPoint {
    pub txid: Txid,
    pub vout: u32,
}

/// What fee resolution reads of a transaction: its identifier, the previous
/// outputs that its inputs spend, the value of each of its outputs (in
/// satoshi), and its weight (four times its size in vbytes).
#[derive(Debug, Clone)]
pub struct Transaction {
    pub txid: Txid,
    pub inputs: Vec<OutPoint>,
    pub output_values: Vec<u64>,
    pub weight: u64,
}

pub struct TransactionView {
    pub txid: Txid,
    pub inputs: Seq<OutPoint>,
    pub output_values: Seq<u64>,
    pub weight: u64,
}

impl View for Transaction {
    type V = TransactionView;

    open spec fn view(&self) -> TransactionView {
        TransactionView {
            txid: self.txid,
            inputs: self.inputs@,
            output_values: self.output_values@,
            weight: self.weight,
        }
    }
}

/// Why a transaction has no fee rate.
#[derive(Debug, Clone, Copy, PartialEq, Eq, Structural)]
pub enum FeeError {
    /// A spent previous output is not in the closed set (or the transaction has no
    /// weight to divide by).
    Unresolvable,
    /// The outputs are worth more than the inputs.
    NegativeFee,
    /// The fee itself (inputs minus outputs) is more than an amount can hold (`u64`).
    ValueOverflow,
}

pub open spec fn views(txs: Seq<Transaction>) -> Seq<TransactionView> {
    txs.map_values(|t: Transaction| t@)
}

pub open spec fn has_txid(set: Seq<TransactionView>, id: Txid) -> bool {
    exists|i: int| 0 <= i < set.len() && set[i].txid == id
}

pub open spec fn unique_txids(set: Seq<TransactionView>) -> bool {
    forall|i: int, j: int| 0 <= i < j < set.len() ==> set[i].txid != set[j].txid
}

/// The position of the transaction with identifier `id` (meaningful when there is one).
pub open spec fn index_of(set: Seq<TransactionView>, id: Txid) -> int {
    choose|i: int| 0 <= i < set.len() && set[i].txid == id
}

/// The value of the previous output `op`, if the closed set holds it.
pub open spec fn prev_value(set: Seq<TransactionView>, op: OutPoint) -> Option<u64> {
    if has_txid(set, op.txid) && (op.vout as int) < set[index_of(set, op.txid)].output_values.len() {
        Some(set[index_of(set, op.txid)].output_values[op.vout as int])
    } else {
        None
    }
}

pub open spec fn values_total(s: Seq<u64>) -> int
    decreases s.len(),
{
    if s.len() == 0 {
        0
    } else {
        values_total(s.drop_last()) + s.last()
    }
}

/// The total value spent by `inputs`, if every previous output is in the set.
pub open spec fn inputs_total(set: Seq<TransactionView>, inputs: Seq<OutPoint>) -> Option<int>
    decreases inputs.len(),
{
    if inputs.len() == 0 {
        Some(0)
    } else {
        match (inputs_total(set, inputs.drop_last()), prev_value(set, inputs.last())) {
            (Some(t), Some(v)) => Some(t + v),
            _ => None,
        }
    }
}

/// Inputs minus outputs.
pub open spec fn absolute_fee_of(set: Seq<TransactionView>, tx: TransactionView) -> Result<
    int,
    FeeError,
> {
    let outputs = values_total(tx.output_values);
    match inputs_total(set, tx.inputs) {
        None => Err(FeeError::Unresolvable),
        Some(inputs) => if inputs < outputs {
            Err(FeeError::NegativeFee)
        } else if inputs - outputs > u64::MAX {
            Err(FeeError::ValueOverflow)
        } else {
            Ok(inputs - outputs)
        },
    }
}

/// The fee rate of `tx` in thousandths of sat/vB: fee / (weight / 4), rounded down.
pub open spec fn fee_rate_of(set: Seq<TransactionView>, tx: TransactionView) -> Result<
    u128,
    FeeError,
> {
    match absolute_fee_of(set, tx) {
        Err(e) => Err(e),
        Ok(fee) => if tx.weight == 0 {
            Err(FeeError::Unresolvable)
        } else {
            Ok((fee * 4 * RATE_SCALE / (tx.weight as int)) as u128)
        },
    }
}

/// The resolved rates of `txs`, in order; a transaction without a rate is left out.
pub open spec fn rates_of(set: Seq<TransactionView>, txs: Seq<TransactionView>) -> Seq<u128>
    decreases txs.len(),
{
    if txs.len() == 0 {
        seq![]
    } else {
        match fee_rate_of(set, txs.last()) {
            Ok(x) => rates_of(set, txs.drop_last()).push(x),
            Err(_) => rates_of(set, txs.drop_last()),
        }
    }
}

/// The first integrity fault (a negative fee, a fee beyond `u64`) among `txs`, in order.
pub open spec fn first_fault(set: Seq<TransactionView>, txs: Seq<TransactionView>) -> Option<
    FeeError,
>
    decreases txs.len(),
{
    if txs.len() == 0 {
        None
    } else {
        match first_fault(set, txs.drop_last()) {
            Some(e) => Some(e),
            None => match fee_rate_of(set, txs.last()) {
                Err(FeeError::NegativeFee) => Some(FeeError::NegativeFee),
                Err(FeeError::ValueOverflow) => Some(FeeError::ValueOverflow),
                _ => None,
            },
        }
    }
}

/// How many of `txs` have a resolved fee rate.
pub open spec fn resolved_count(set: Seq<TransactionView>, txs: Seq<TransactionView>) -> nat
    decreases txs.len(),
{
    if txs.len() == 0 {
        0
    } else if fee_rate_of(set, txs.last()) is Ok {
        resolved_count(set, txs.drop_last()) + 1
    } else {
        resolved_count(set, txs.drop_last())
    }
}

/// The closed set made of `txs`: one entry per identifier, at the place of its
/// first occurrence, holding its last occurrence.
pub open spec fn closed_set(txs: Seq<TransactionView>) -> Seq<TransactionView>
    decreases txs.len(),
{
    if txs.len() == 0 {
        seq![]
    } else {
        let c = closed_set(txs.drop_last());
        let t = txs.last();
        if has_txid(c, t.txid) {
            c.update(index_of(c, t.txid), t)
        } else {
            c.push(t)
        }
    }
}

pub proof fn lemma_index_of(set: Seq<TransactionView>, j: int)
    requires
        unique_txids(set),
        0 <= j < set.len(),
    ensures
        has_txid(set, set[j].txid),
        index_of(set, set[j].txid) == j,
{
    assert(has_txid(set, set[j].txid));
}

/// A rate listed by `rates_of` for each transaction that resolves, and only for those.
pub proof fn lemma_rates_count(set: Seq<TransactionView>, txs: Seq<TransactionView>)
    ensures
        rates_of(set, txs).len() == resolved_count(set, txs),
    decreases txs.len(),
{
    if txs.len() > 0 {
        lemma_rates_count(set, txs.drop_last());
    }
}

/// How many of `txs` have a resolved fee rate below `x`.
pub open spec fn resolved_below(set: Seq<TransactionView>, txs: Seq<TransactionView>, x: u128) -> nat
    decreases txs.len(),
{
    if txs.len() == 0 {
        0
    } else if fee_rate_of(set, txs.last()) matches Ok(r) && r < x {
        resolved_below(set, txs.drop_last(), x) + 1
    } else {
        resolved_below(set, txs.drop_last(), x)
    }
}

/// The rates listed by `rates_of` that are below `x` are those of the transactions
/// whose resolved rate is below `x`.
pub proof fn lemma_rates_below(set: Seq<TransactionView>, txs: Seq<TransactionView>, x: u128)
    ensures
        count_below(rates_of(set, txs), x) == resolved_below(set, txs, x),
    decreases txs.len(),
{
    if txs.len() > 0 {
        lemma_rates_below(set, txs.drop_last(), x);
        let r = rates_of(set, txs.drop_last());
        if fee_rate_of(set, txs.last()) is Ok {
            assert(r.push(fee_rate_of(set, txs.last())->Ok_0).drop_last() =~= r);
        }
    }
}

impl Transaction {
    /// A copy of this transaction.
    pub fn duplicate(&self) -> (r: Transaction)
        ensures
            r@ == self@,
    {
        Transaction {
            txid: self.txid,
            inputs: copy_vec(&self.inputs),
            output_values: copy_vec(&self.output_values),
            weight: self.weight,
        }
    }
}

/// A copy of `v`.
fn copy_vec<T: Copy>(v: &Vec<T>) -> (r: Vec<T>)
    ensures
        r@ == v@,
{
    let mut r: Vec<T> = Vec::new();
    let mut i: usize = 0;
    while i < v.len()
        invariant
            i <= v.len(),
            r@ == v@.subrange(0, i as int),
        decreases v.len() - i,
    {
        r.push(v[i]);
        i = i + 1;
    }
    assert(r@ =~= v@);
    r
}

fn total_of_values(v: &Vec<u64>) -> (r: u128)
    ensures
        r == values_total(v@),
{
    let mut total: u128 = 0;
    let mut i: usize = 0;
    while i < v.len()
        invariant
            i <= v.len(),
            total == values_total(v@.subrange(0, i as int)),
            total <= i * 0xffff_ffff_ffff_ffffu128,
        decreases v.len() - i,
    {
        assert(v@.subrange(0, i + 1).drop_last() =~= v@.subrange(0, i as int));
        assert((i + 1) * 0xffff_ffff_ffff_ffffu128 <= 0x1_0000_0000_0000_0000 * 0xffff_ffff_ffff_ffffu128) by (nonlinear_arith)
            requires
                i < 0x1_0000_0000_0000_0000,
        ;
        total = total + v[i] as u128;
        i = i + 1;
    }
    assert(v@.subrange(0, v.len() as int) =~= v@);
    total
}

/// A closed set of transactions, against which previous outputs are resolved.
pub struct Transactions {
    txs: Vec<Transaction>,
    txs_output_values: Vec<(Txid, Vec<u64>)>,
    /// For each high half of an identifier, the places of the transactions whose
    /// identifier has it.
    index: HashMap<u128, Vec<usize>>,
}

impl View for Transactions {
    type V = Seq<TransactionView>;

    closed spec fn view(&self) -> Seq<TransactionView> {
        views(self.txs@)
    }
}

impl Transactions {
    /// The transactions are held once each, and the output-value table lists the
    /// output values of each, at the same place.
    pub closed spec fn wf(&self) -> bool {
        &&& unique_txids(self@)
        &&& self.txs_output_values.len() == self.txs.len()
        &&& forall|i: int|
            0 <= i < self.txs.len() ==> (#[trigger] self.txs_output_values@[i]).0
                == self.txs@[i].txid && self.txs_output_values@[i].1@
                == self.txs@[i].output_values@
        &&& forall|h: u128, k: int|
            #![trigger self.index@[h]@[k]]
            self.index@.contains_key(h) && 0 <= k < self.index@[h]@.len() ==> self.index@[h]@[k]
                < self.txs.len() && self.txs@[self.index@[h]@[k] as int].txid.hi == h
        &&& forall|i: int|
            0 <= i < self.txs.len() ==> self.index@.contains_key((#[trigger] self.txs@[i]).txid.hi)
                && self.index@[self.txs@[i].txid.hi]@.contains(i as usize)
    }

    /// Builds the closed set of `txs`. Where an identifier occurs more than once, the
    /// copy that comes last in `txs` is kept.
    pub fn from_txs(txs: Vec<Transaction>) -> (r: Transactions)
        ensures
            r.wf(),
            r@ == closed_set(views(txs@)),
    {
        let mut set = Transactions {
            txs: Vec::new(),
            txs_output_values: Vec::new(),
            index: HashMap::new(),
        };
        let mut i: usize = 0;
        proof {
            assert(views(txs@).subrange(0, 0) =~= seq![]);
            assert(set@ =~= seq![]);
        }
        while i < txs.len()
            invariant
                i <= txs.len(),
                set.wf(),
                set@ == closed_set(views(txs@).subrange(0, i as int)),
            decreases txs.len() - i,
        {
            let t = txs[i].duplicate();
            let outs = copy_vec(&t.output_values);
            let id = t.txid;
            let ghost before = set@;
            let found = set.find(&id);
            proof {
                assert(views(txs@).subrange(0, i + 1).drop_last() =~= views(txs@).subrange(
                    0,
                    i as int,
                ));
                assert(views(txs@).subrange(0, i + 1).last() == t@);
            }
            match found {
                Some(j) => {
                    proof {
                        lemma_index_of(before, j as int);
                    }
                    set.txs.set(j, t);
                    set.txs_output_values.set(j, (id, outs));
                    proof {
                        assert(set@ =~= before.update(j as int, views(txs@)[i as int]));
                        assert forall|a: int, b: int| 0 <= a < b < set@.len() implies set@[a].txid
                            != set@[b].txid by {
                            if a != j && b != j {
                                assert(before[a].txid != before[b].txid);
                            }
                        }
                    }
                },
                None => {
                    let n = set.txs.len();
                    let ghost old_index = set.index@;
                    let mut positions = match set.index.get(&id.hi) {
                        Some(v) => copy_vec(v),
                        None => Vec::new(),
                    };
                    let ghost kept = positions@;
                    positions.push(n);
                    set.index.insert(id.hi, positions);
                    set.txs.push(t);
                    set.txs_output_values.push((id, outs));
                    proof {
                        assert(set.txs@[n as int].txid == id);
                        assert forall|h: u128, k: int|
                            set.index@.contains_key(h) && 0 <= k < set.index@[h]@.len() implies
                            #[trigger] set.index@[h]@[k] < set.txs.len()
                            && set.txs@[set.index@[h]@[k] as int].txid.hi == h by {
                            if h != id.hi {
                                assert(old_index.contains_key(h));
                                assert(old_index[h]@[k] == set.index@[h]@[k]);
                            } else if k < kept.len() {
                                assert(old_index.contains_key(h));
                                assert(old_index[h]@[k] == set.index@[h]@[k]);
                            }
                        }
                        assert forall|a: int| 0 <= a < set.txs.len() implies set.index@.contains_key(
                            (#[trigger] set.txs@[a]).txid.hi,
                        ) && set.index@[set.txs@[a].txid.hi]@.contains(a as usize) by {
                            if a < n {
                                let h = set.txs@[a].txid.hi;
                                assert(old_index.contains_key(h));
                                let w = choose|w: int|
                                    0 <= w < old_index[h]@.len() && old_index[h]@[w] == a as usize;
                                if h == id.hi {
                                    assert(set.index@[h]@[w] == a as usize);
                                }
                            } else {
                                assert(set.index@[id.hi]@[kept.len() as int] == n);
                            }
                        }
                        assert(set@ =~= before.push(views(txs@)[i as int]));
                        assert forall|a: int, b: int| 0 <= a < b < set@.len() implies set@[a].txid
                            != set@[b].txid by {
                            if b == set@.len() - 1 {
                                assert(before[a].txid == set@[a].txid);
                            } else {
                                assert(before[a].txid != before[b].txid);
                            }
                        }
                    }
                },
            }
            i = i + 1;
        }
        proof {
            assert(views(txs@).subrange(0, txs.len() as int) =~= views(txs@));
        }
        set
    }

    /// The place of `id` in the set.
    fn find(&self, id: &Txid) -> (r: Option<usize>)
        requires
            self.wf(),
        ensures
            match r {
                Some(j) => j < self@.len() && self@[j as int].txid == *id,
                None => !has_txid(self@, *id),
            },
    {
        match self.index.get(&id.hi) {
            None => {
                proof {
                    if has_txid(self@, *id) {
                        let i = choose|i: int| 0 <= i < self@.len() && self@[i].txid == *id;
                        assert(self.txs@[i].txid.hi == id.hi);
                    }
                }
                None
            },
            Some(positions) => {
                let mut k: usize = 0;
                while k < positions.len()
                    invariant
                        self.wf(),
                        self.index@.contains_key(id.hi),
                        self.index@[id.hi] == *positions,
                        k <= positions.len(),
                        forall|m: int| 0 <= m < k ==> self@[positions@[m] as int].txid != *id,
                    decreases positions.len() - k,
                {
                    let j = positions[k];
                    assert(self.index@[id.hi]@[k as int] == j);
                    if self.txs_output_values[j].0 == *id {
                        return Some(j);
                    }
                    k = k + 1;
                }
                proof {
                    if has_txid(self@, *id) {
                        let i = choose|i: int| 0 <= i < self@.len() && self@[i].txid == *id;
                        assert(self.txs@[i].txid == *id);
                        assert(self.index@[id.hi]@.contains(i as usize));
                        let w = choose|w: int|
                            0 <= w < positions@.len() && positions@[w] == i as usize;
                        assert(self@[positions@[w] as int].txid != *id);
                    }
                }
                None
            },
        }
    }

    /// The value of the previous output `op`, looked up in the output-value table.
    fn prev_output_value(&self, op: &OutPoint) -> (r: Option<u64>)
        requires
            self.wf(),
        ensures
            r == prev_value(self@, *op),
    {
        match self.find(&op.txid) {
            None => None,
            Some(j) => {
                proof {
                    lemma_index_of(self@, j as int);
                }
                let values = &self.txs_output_values[j].1;
                if (op.vout as usize) < values.len() {
                    Some(values[op.vout as usize])
                } else {
                    None
                }
            },
        }
    }

    /// Inputs minus outputs of `tx`, the previous outputs resolved in this set.
    fn absolute_fee(&self, tx: &Transaction) -> (r: Result<u64, FeeError>)
        requires
            self.wf(),
        ensures
            match absolute_fee_of(self@, tx@) {
                Ok(f) => 0 <= f <= u64::MAX && r == Ok::<u64, FeeError>(f as u64),
                Err(e) => r == Err::<u64, FeeError>(e),
            },
    {
        let mut sum_inputs: u128 = 0;
        let mut i: usize = 0;
        while i < tx.inputs.len()
            invariant
                self.wf(),
                i <= tx.inputs.len(),
                inputs_total(self@, tx.inputs@.subrange(0, i as int)) == Some(sum_inputs as int),
                sum_inputs <= i * 0xffff_ffff_ffff_ffffu128,
            decreases tx.inputs.len() - i,
        {
            let ghost prefix = tx.inputs@.subrange(0, i + 1);
            assert(prefix.drop_last() =~= tx.inputs@.subrange(0, i as int));
            match self.prev_output_value(&tx.inputs[i]) {
                None => {
                    proof {
                        lemma_inputs_missing(self@, tx.inputs@, i as int);
                    }
                    return Err(FeeError::Unresolvable);
                },
                Some(v) => {
                    assert((i + 1) * 0xffff_ffff_ffff_ffffu128 <= 0x1_0000_0000_0000_0000
                        * 0xffff_ffff_ffff_ffffu128) by (nonlinear_arith)
                        requires
                            i < 0x1_0000_0000_0000_0000,
                    ;
                    sum_inputs = sum_inputs + v as u128;
                },
            }
            i = i + 1;
        }
        assert(tx.inputs@.subrange(0, tx.inputs.len() as int) =~= tx.inputs@);
        let sum_outputs = total_of_values(&tx.output_values);
        if sum_inputs < sum_outputs {
            Err(FeeError::NegativeFee)
        } else if sum_inputs - sum_outputs > u64::MAX as u128 {
            Err(FeeError::ValueOverflow)
        } else {
            Ok((sum_inputs - sum_outputs) as u64)
        }
    }

    /// Fee rate of `tx`, in thousandths of sat/vB.
    fn rate_of(&self, tx: &Transaction) -> (r: Result<u128, FeeError>)
        requires
            self.wf(),
        ensures
            r == fee_rate_of(self@, tx@),
    {
        let fee = match self.absolute_fee(tx) {
            Ok(f) => f,
            Err(e) => {
                return Err(e);
            },
        };
        if tx.weight == 0 {
            return Err(FeeError::Unresolvable);
        }
        assert(fee as u128 * 4 * 1000 <= 0xffff_ffff_ffff_ffffu128 * 4000) by (nonlinear_arith)
            requires
                fee <= 0xffff_ffff_ffff_ffffu64,
        ;
        let scaled: u128 = fee as u128 * 4 * RATE_SCALE as u128;
        let rate: u128 = scaled / tx.weight as u128;
        proof {
            let f = absolute_fee_of(self@, tx@)->Ok_0;
            assert(f == fee as int);
            assert(scaled as int == f * 4 * RATE_SCALE);
        }
        Ok(rate)
    }

    /// Fee rate, in thousandths of sat/vB, of the transaction `txid` of this set;
    /// `Unresolvable` when the set does not hold it.
    pub fn fee_rate(&self, txid: &Txid) -> (r: Result<u128, FeeError>)
        requires
            self.wf(),
        ensures
            has_txid(self@, *txid) ==> r == fee_rate_of(self@, self@[index_of(self@, *txid)]),
            !has_txid(self@, *txid) ==> r == Err::<u128, FeeError>(FeeError::Unresolvable),
    {
        match self.find(txid) {
            None => Err(FeeError::Unresolvable),
            Some(j) => {
                proof {
                    lemma_index_of(self@, j as int);
                }
                self.rate_of(&self.txs[j])
            },
        }
    }

    /// The resolved fee rates of all transactions of the set, in the set's order,
    /// with the first integrity fault found (a negative fee, an overflow), if any.
    /// A transaction without a rate is left out of the rates.
    pub fn fee_rates(&self) -> (r: (Vec<u128>, Option<FeeError>))
        requires
            self.wf(),
        ensures
            r.0@ == rates_of(self@, self@),
            r.1 == first_fault(self@, self@),
    {
        let mut rates: Vec<u128> = Vec::new();
        let mut fault: Option<FeeError> = None;
        let mut i: usize = 0;
        proof {
            assert(self@.subrange(0, 0) =~= seq![]);
        }
        while i < self.txs.len()
            invariant
                self.wf(),
                i <= self.txs.len(),
                rates@ == rates_of(self@, self@.subrange(0, i as int)),
                fault == first_fault(self@, self@.subrange(0, i as int)),
            decreases self.txs.len() - i,
        {
            assert(self@.subrange(0, i + 1).drop_last() =~= self@.subrange(0, i as int));
            match self.rate_of(&self.txs[i]) {
                Ok(x) => {
                    rates.push(x);
                },
                Err(FeeError::Unresolvable) => {},
                Err(e) => {
                    if fault.is_none() {
                        fault = Some(e);
                    }
                },
            }
            i = i + 1;
        }
        assert(self@.subrange(0, self.txs.len() as int) =~= self@);
        (rates, fault)
    }
}

proof fn lemma_inputs_missing(set: Seq<TransactionView>, inputs: Seq<OutPoint>, i: int)
    requires
        0 <= i < inputs.len(),
        prev_value(set, inputs[i]) is None,
    ensures
        inputs_total(set, inputs) is None,
    decreases inputs.len(),
{
    if i < inputs.len() - 1 {
        lemma_inputs_missing(set, inputs.drop_last(), i);
    }
}

} // verus!
