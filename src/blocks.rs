use vstd::prelude::*;

use std::collections::VecDeque;

use crate::buckets::{
    as_ints, classify, create_buckets_limits, is_limit_list, lemma_sum_bound, lemma_tally_total,
    lemma_tally_cumulative, strictly_increasing, tally, zeros, ConfigError, RATE_SCALE,
};
use crate::transactions::{
    closed_set, first_fault, lemma_rates_below, lemma_rates_count, resolved_below, rates_of, resolved_count, views, FeeError, Transaction,
    TransactionView, Transactions,
};

verus! {

/// A block: its transactions, in order.
#[derive(Debug, Clone)]
pub struct Block {
    pub txdata: Vec<Transaction>,
}

impl View for Block {
    type V = Seq<TransactionView>;

    open spec fn view(&self) -> Seq<TransactionView> {
        views(self.txdata@)
    }
}

pub open spec fn block_views(blocks: Seq<Block>) -> Seq<Seq<TransactionView>> {
    blocks.map_values(|b: Block| b@)
}

/// The transactions of the window, block after block.
pub open spec fn window_txs(window: Seq<Seq<TransactionView>>) -> Seq<TransactionView>
    decreases window.len(),
{
    if window.len() == 0 {
        seq![]
    } else {
        window_txs(window.drop_last()) + window.last()
    }
}

/// The histogram of a full window: the closed set of all its transactions, each
/// resolved rate counted in its bucket. The blocks are walked from the newest to
/// the oldest and a later copy of an identifier replaces an earlier one, so where
/// one transaction stands in several blocks, the copy in the oldest is kept.
/// A transaction without a rate (unresolvable, or showing an integrity fault)
/// counts nowhere.
pub open spec fn window_histogram(limits: Seq<u128>, window: Seq<Seq<TransactionView>>) -> Seq<
    int,
> {
    let set = closed_set(window_txs(window));
    tally(limits, rates_of(set, set))
}

/// The first integrity fault among the transactions of the window's closed set.
pub open spec fn window_fault(window: Seq<Seq<TransactionView>>) -> Option<FeeError> {
    let set = closed_set(window_txs(window));
    first_fault(set, set)
}

/// The window after `block` arrives in a window of at most `capacity` blocks:
/// the newest block first, the oldest evicted when the window was full.
pub open spec fn slide(window: Seq<Seq<TransactionView>>, block: Seq<TransactionView>, capacity: nat) -> Seq<
    Seq<TransactionView>,
> {
    if window.len() >= capacity {
        seq![block] + window.drop_last()
    } else {
        seq![block] + window
    }
}

/// The window after the blocks of `history` (oldest first) arrived one by one in
/// an empty window of `capacity` blocks.
pub open spec fn recent(history: Seq<Seq<TransactionView>>, capacity: nat) -> Seq<
    Seq<TransactionView>,
>
    decreases history.len(),
{
    if history.len() == 0 {
        seq![]
    } else {
        slide(recent(history.drop_last(), capacity), history.last(), capacity)
    }
}

/// The window after a history holds its last `capacity` blocks, newest first.
pub proof fn lemma_recent(history: Seq<Seq<TransactionView>>, capacity: nat)
    requires
        capacity > 0,
    ensures
        recent(history, capacity).len() == if history.len() < capacity {
            history.len()
        } else {
            capacity
        },
        forall|i: int|
            0 <= i < recent(history, capacity).len() ==> #[trigger] recent(history, capacity)[i]
                == history[history.len() - 1 - i],
    decreases history.len(),
{
    if history.len() > 0 {
        let h = history.drop_last();
        lemma_recent(h, capacity);
        let r = recent(history, capacity);
        assert forall|i: int| 0 <= i < r.len() implies #[trigger] r[i] == history[history.len()
            - 1 - i] by {
            if i > 0 {
                assert(r[i] == recent(h, capacity)[i - 1]);
                assert(h[h.len() - 1 - (i - 1)] == history[history.len() - 1 - i]);
            }
        }
    }
}

/// The fee-rate histogram of the last `blocks_to_consider` blocks, rebuilt from
/// scratch each time a block arrives in a full window.
#[derive(Debug)]
pub struct BlocksBuckets {
    last_blocks: VecDeque<Block>,
    buckets: Option<Vec<u64>>,
    buckets_limits: Vec<u128>,
    blocks_to_consider: usize,
}

impl BlocksBuckets {
    /// The bucket limits.
    pub closed spec fn limits(&self) -> Seq<u128> {
        self.buckets_limits@
    }

    /// The blocks of the window, newest first.
    pub closed spec fn window(&self) -> Seq<Seq<TransactionView>> {
        block_views(self.last_blocks@)
    }

    /// The number of blocks the window holds once full.
    pub closed spec fn capacity(&self) -> nat {
        self.blocks_to_consider as nat
    }

    /// The last computed histogram.
    pub closed spec fn histogram(&self) -> Option<Seq<int>> {
        match self.buckets {
            Some(v) => Some(as_ints(v@)),
            None => None,
        }
    }

    pub closed spec fn wf(&self) -> bool {
        &&& self.blocks_to_consider > 0
        &&& self.buckets_limits.len() > 0
        &&& self.last_blocks.len() <= self.blocks_to_consider
        &&& self.histogram() == if self.window().len() == self.capacity() {
            Some(window_histogram(self.limits(), self.window()))
        } else {
            None
        }
    }

    /// An empty window of `blocks_to_consider` blocks, with the bucket limits of
    /// `increment_percent` and `upper_limit` (in thousandths of sat/vB). Refused
    /// when the increment is zero, when the limit does not exceed 1 sat/vB (no
    /// bucket at all), or when the window has no room.
    pub fn new(increment_percent: u32, upper_limit: u64, blocks_to_consider: usize) -> (r: Result<
        Self,
        ConfigError,
    >)
        ensures
            match r {
                Ok(b) => {
                    &&& increment_percent > 0 && upper_limit > RATE_SCALE && blocks_to_consider > 0
                    &&& b.wf()
                    &&& is_limit_list(increment_percent as nat, upper_limit as nat, b.limits())
                    &&& b.window() == Seq::<Seq<TransactionView>>::empty()
                    &&& b.capacity() == blocks_to_consider
                    &&& b.histogram() is None
                },
                Err(e) => (increment_percent == 0 || upper_limit <= RATE_SCALE || blocks_to_consider
                    == 0) && e == ConfigError::InvalidBucketConfig,
            },
    {
        if upper_limit <= RATE_SCALE || blocks_to_consider == 0 {
            return Err(ConfigError::InvalidBucketConfig);
        }
        let buckets_limits = match create_buckets_limits(increment_percent, upper_limit) {
            Ok(b) => b,
            Err(e) => {
                return Err(e);
            },
        };
        proof {
            crate::buckets::lemma_limit_list_shape(
                increment_percent as nat,
                upper_limit as nat,
                buckets_limits@,
            );
        }
        let r = BlocksBuckets {
            last_blocks: VecDeque::new(),
            buckets: None,
            buckets_limits,
            blocks_to_consider,
        };
        assert(r.window() =~= Seq::<Seq<TransactionView>>::empty());
        Ok(r)
    }

    fn full(&self) -> (r: bool)
        ensures
            r == (self.last_blocks@.len() == self.blocks_to_consider),
    {
        self.blocks_to_consider == self.last_blocks.len()
    }

    /// Puts `block` at the front of the window, evicting the oldest block when the
    /// window is full. Once the window is full the histogram is rebuilt from every
    /// resolved rate; an integrity fault found among its transactions (which then
    /// count nowhere) is returned.
    pub fn add(&mut self, block: Block) -> (r: Result<(), FeeError>)
        requires
            old(self).wf(),
        ensures
            final(self).wf(),
            final(self).limits() == old(self).limits(),
            final(self).capacity() == old(self).capacity(),
            final(self).window() == slide(old(self).window(), block@, old(self).capacity()),
            final(self).histogram() == if final(self).window().len() == final(self).capacity() {
                Some(window_histogram(final(self).limits(), final(self).window()))
            } else {
                None
            },
            r == match window_fault(final(self).window()) {
                Some(e) => if final(self).window().len() == final(self).capacity() {
                    Err::<(), FeeError>(e)
                } else {
                    Ok(())
                },
                None => Ok(()),
            },
    {
        let ghost block_view = block@;
        if self.full() {
            self.last_blocks.pop_back();
        }
        self.last_blocks.push_front(block);
        proof {
            assert(self.window() =~= slide(old(self).window(), block_view, old(self).capacity()));
        }
        if self.full() {
            let (buckets, fault) = self.rebuild();
            self.buckets = Some(buckets);
            match fault {
                Some(e) => Err(e),
                None => Ok(()),
            }
        } else {
            self.buckets = None;
            Ok(())
        }
    }

    /// The histogram of the current window.
    fn rebuild(&self) -> (r: (Vec<u64>, Option<FeeError>))
        requires
            self.buckets_limits.len() > 0,
        ensures
            as_ints(r.0@) == window_histogram(self.limits(), self.window()),
            r.1 == window_fault(self.window()),
    {
        let mut all: Vec<Transaction> = Vec::new();
        let mut i: usize = 0;
        proof {
            assert(self.window().subrange(0, 0) =~= Seq::<Seq<TransactionView>>::empty());
            assert(views(all@) =~= seq![]);
        }
        while i < self.last_blocks.len()
            invariant
                i <= self.last_blocks.len(),
                views(all@) == window_txs(self.window().subrange(0, i as int)),
            decreases self.last_blocks.len() - i,
        {
            let b = &self.last_blocks[i];
            let ghost before = views(all@);
            let mut j: usize = 0;
            proof {
                assert(before + b@.subrange(0, 0) =~= before);
            }
            while j < b.txdata.len()
                invariant
                    j <= b.txdata.len(),
                    views(all@) == before + b@.subrange(0, j as int),
                decreases b.txdata.len() - j,
            {
                let t = b.txdata[j].duplicate();
                let ghost prev = all@;
                all.push(t);
                proof {
                    assert(views(all@) =~= views(prev).push(t@));
                    assert(b@.subrange(0, j + 1) =~= b@.subrange(0, j as int).push(b@[j as int]));
                    assert(views(all@) =~= before + b@.subrange(0, j + 1));
                }
                j = j + 1;
            }
            proof {
                let w = self.window().subrange(0, i + 1);
                assert(w.drop_last() =~= self.window().subrange(0, i as int));
                assert(w.last() == b@);
                assert(b@.subrange(0, b@.len() as int) =~= b@);
            }
            i = i + 1;
        }
        proof {
            assert(self.window().subrange(0, self.last_blocks.len() as int) =~= self.window());
        }
        let txs = Transactions::from_txs(all);
        let (rates, fault) = txs.fee_rates();
        (count_rates(&self.buckets_limits, &rates), fault)
    }

    /// The histogram, once the window is full.
    pub fn get_buckets(&self) -> (r: &Option<Vec<u64>>)
        requires
            self.wf(),
        ensures
            match r {
                Some(v) => self.histogram() == Some(as_ints(v@)),
                None => self.histogram() is None,
            },
    {
        &self.buckets
    }
}

/// The rebuilt histogram's counts add up to the number of transactions of the
/// window's closed set whose fee rate resolves.
pub proof fn lemma_histogram_total(limits: Seq<u128>, window: Seq<Seq<TransactionView>>)
    requires
        limits.len() > 0,
    ensures
        window_histogram(limits, window).len() == limits.len(),
        crate::buckets::sum(window_histogram(limits, window)) == resolved_count(
            closed_set(window_txs(window)),
            closed_set(window_txs(window)),
        ),
{
    let set = closed_set(window_txs(window));
    lemma_rates_count(set, set);
    lemma_tally_total(limits, rates_of(set, set));
}

/// The histogram is absent while the window holds fewer blocks than its capacity,
/// and present once it is full: the histogram of the window's blocks.
pub proof fn lemma_histogram_availability(b: BlocksBuckets)
    requires
        b.wf(),
    ensures
        b.window().len() <= b.capacity(),
        b.window().len() < b.capacity() ==> b.histogram() is None,
        b.window().len() == b.capacity() ==> b.histogram() == Some(
            window_histogram(b.limits(), b.window()),
        ),
        b.limits().len() > 0,
{
}

/// Two histograms with the same limits and the same full window of blocks are the
/// same.
pub proof fn lemma_histogram_reproducible(a: BlocksBuckets, b: BlocksBuckets)
    requires
        a.wf(),
        b.wf(),
        a.limits() == b.limits(),
        a.capacity() == b.capacity(),
        a.window() == b.window(),
    ensures
        a.histogram() == b.histogram(),
{
}

/// Two histograms built with the same limits and capacity, each fed at least
/// `capacity` blocks whose last `capacity` are the same and in the same order, hold
/// the same histogram, whatever came before.
pub proof fn lemma_histogram_same_history(
    a: BlocksBuckets,
    b: BlocksBuckets,
    history_a: Seq<Seq<TransactionView>>,
    history_b: Seq<Seq<TransactionView>>,
)
    requires
        a.wf(),
        b.wf(),
        a.limits() == b.limits(),
        a.capacity() == b.capacity(),
        a.window() == recent(history_a, a.capacity()),
        b.window() == recent(history_b, b.capacity()),
        history_a.len() >= a.capacity(),
        history_b.len() >= b.capacity(),
        history_a.subrange(history_a.len() - a.capacity(), history_a.len() as int)
            == history_b.subrange(history_b.len() - b.capacity(), history_b.len() as int),
    ensures
        a.histogram() is Some,
        a.histogram() == b.histogram(),
{
    let k = a.capacity();
    lemma_recent(history_a, k);
    lemma_recent(history_b, k);
    let ra = recent(history_a, k);
    let rb = recent(history_b, k);
    assert forall|i: int| 0 <= i < k implies ra[i] == rb[i] by {
        let sa = history_a.subrange(history_a.len() - k, history_a.len() as int);
        let sb = history_b.subrange(history_b.len() - k, history_b.len() as int);
        assert(sa[k - 1 - i] == sb[k - 1 - i]);
    }
    assert(ra =~= rb);
}

/// With increasing limits, the counts of the first `j + 1` buckets of the rebuilt
/// histogram add up to the number of transactions of the window's closed set whose
/// resolved fee rate is below limit `j` (for any limit but the last).
pub proof fn lemma_histogram_cumulative(
    limits: Seq<u128>,
    window: Seq<Seq<TransactionView>>,
    j: int,
)
    requires
        strictly_increasing(limits),
        0 <= j < limits.len() - 1,
    ensures
        crate::buckets::sum(window_histogram(limits, window).subrange(0, j + 1)) == resolved_below(
            closed_set(window_txs(window)),
            closed_set(window_txs(window)),
            limits[j],
        ),
{
    let set = closed_set(window_txs(window));
    lemma_tally_cumulative(limits, rates_of(set, set), j);
    lemma_rates_below(set, set, limits[j]);
}

/// Counts each rate in its bucket.
fn count_rates(limits: &Vec<u128>, rates: &Vec<u128>) -> (r: Vec<u64>)
    requires
        limits.len() > 0,
    ensures
        as_ints(r@) == tally(limits@, rates@),
{
    let mut counts = zeros(limits.len());
    proof {
        assert(as_ints(counts@) =~= tally(limits@, rates@.subrange(0, 0)));
    }
    let mut i: usize = 0;
    while i < rates.len()
        invariant
            limits.len() > 0,
            i <= rates.len(),
            as_ints(counts@) == tally(limits@, rates@.subrange(0, i as int)),
        decreases rates.len() - i,
    {
        let ghost prefix = rates@.subrange(0, i + 1);
        proof {
            assert(prefix.drop_last() =~= rates@.subrange(0, i as int));
            lemma_tally_total(limits@, rates@.subrange(0, i as int));
        }
        let index = classify(rates[i], limits);
        proof {
            lemma_sum_bound(tally(limits@, rates@.subrange(0, i as int)), index as int);
            assert(as_ints(counts@)[index as int] == counts@[index as int] as int);
        }
        counts.set(index, counts[index] + 1);
        proof {
            assert(as_ints(counts@) =~= tally(limits@, prefix));
        }
        i = i + 1;
    }
    proof {
        assert(rates@.subrange(0, rates.len() as int) =~= rates@);
    }
    counts
}

} // verus!
