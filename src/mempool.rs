use vstd::prelude::*;

use crate::buckets::{
    as_ints, bucket_index, classify, create_buckets_limits, is_limit_list, lemma_sum_bound,
    lemma_sum_update, lemma_sum_zeros, sum, zeros, ConfigError, RATE_SCALE,
};
use crate::transactions::Txid;

verus! {

/// What a mempool histogram holds: one count per bucket, and the bucket that each
/// tracked transaction was counted in.
pub struct MempoolState {
    pub counts: Seq<int>,
    pub members: Map<Txid, nat>,
}

/// The state after `add(txid, rate)`: unchanged for a rate of at most 1 sat/vB, for
/// a transaction already tracked, or when the table cannot grow; otherwise the
/// rate's bucket gains one and the transaction is recorded with that bucket.
pub open spec fn after_add(s: MempoolState, limits: Seq<u128>, txid: Txid, rate: u128) -> MempoolState {
    if rate <= RATE_SCALE || s.members.contains_key(txid) || s.members.dom().len() >= usize::MAX {
        s
    } else {
        let k = bucket_index(limits, rate);
        MempoolState {
            counts: s.counts.update(k, s.counts[k] + 1),
            members: s.members.insert(txid, k as nat),
        }
    }
}

/// The state after `remove(txid)`: the recorded bucket loses one and the entry is
/// dropped; unchanged when the transaction is not tracked.
pub open spec fn after_remove(s: MempoolState, txid: Txid) -> MempoolState {
    if s.members.contains_key(txid) {
        let k = s.members[txid] as int;
        MempoolState { counts: s.counts.update(k, s.counts[k] - 1), members: s.members.remove(txid) }
    } else {
        s
    }
}

/// Per bucket, the number of entries recorded in it.
pub open spec fn entry_tally(n: nat, entries: Seq<(Txid, usize)>) -> Seq<int>
    decreases entries.len(),
{
    if entries.len() == 0 {
        Seq::new(n, |i: int| 0int)
    } else {
        let h = entry_tally(n, entries.drop_last());
        let k = entries.last().1 as int;
        h.update(k, h[k] + 1)
    }
}

proof fn lemma_entry_tally_shape(n: nat, entries: Seq<(Txid, usize)>)
    requires
        forall|i: int| 0 <= i < entries.len() ==> (#[trigger] entries[i]).1 < n,
    ensures
        entry_tally(n, entries).len() == n,
        sum(entry_tally(n, entries)) == entries.len(),
        forall|j: int| 0 <= j < n ==> #[trigger] entry_tally(n, entries)[j] >= 0,
    decreases entries.len(),
{
    if entries.len() == 0 {
        lemma_sum_zeros(n);
    } else {
        let e = entries.drop_last();
        assert forall|i: int| 0 <= i < e.len() implies (#[trigger] e[i]).1 < n by {
            assert(e[i] == entries[i]);
        }
        lemma_entry_tally_shape(n, e);
        let h = entry_tally(n, e);
        let k = entries.last().1 as int;
        lemma_sum_update(h, k, h[k] + 1);
    }
}

proof fn lemma_entry_tally_remove(n: nat, entries: Seq<(Txid, usize)>, i: int)
    requires
        0 <= i < entries.len(),
        forall|m: int| 0 <= m < entries.len() ==> (#[trigger] entries[m]).1 < n,
    ensures
        entry_tally(n, entries.remove(i)) == entry_tally(n, entries).update(
            entries[i].1 as int,
            entry_tally(n, entries)[entries[i].1 as int] - 1,
        ),
    decreases entries.len(),
{
    let k = entries[i].1 as int;
    lemma_entry_tally_shape(n, entries);
    if i == entries.len() - 1 {
        let e = entries.drop_last();
        assert(entries.remove(i) =~= e);
        assert forall|m: int| 0 <= m < e.len() implies (#[trigger] e[m]).1 < n by {
            assert(e[m] == entries[m]);
        }
        lemma_entry_tally_shape(n, e);
        let h = entry_tally(n, e);
        assert(entry_tally(n, entries) == h.update(k, h[k] + 1));
        assert(entry_tally(n, entries).update(k, entry_tally(n, entries)[k] - 1) =~= h);
    } else {
        let e = entries.drop_last();
        assert forall|m: int| 0 <= m < e.len() implies (#[trigger] e[m]).1 < n by {
            assert(e[m] == entries[m]);
        }
        lemma_entry_tally_remove(n, e, i);
        assert(entries.remove(i).drop_last() =~= e.remove(i));
        assert(entries.remove(i).last() == entries.last());
        lemma_entry_tally_shape(n, e);
        assert(entry_tally(n, entries.remove(i)) =~= entry_tally(n, entries).update(
            k,
            entry_tally(n, entries)[k] - 1,
        ));
    }
}

/// The live fee-rate histogram of the mempool, updated one transaction at a time.
pub struct MempoolBuckets {
    buckets: Vec<u64>,
    buckets_limits: Vec<u128>,
    entries: Vec<(Txid, usize)>,
    members: Ghost<Map<Txid, nat>>,
}

impl View for MempoolBuckets {
    type V = MempoolState;

    closed spec fn view(&self) -> MempoolState {
        MempoolState { counts: as_ints(self.buckets@), members: self.members@ }
    }
}

impl MempoolBuckets {
    /// The bucket limits.
    pub closed spec fn limits(&self) -> Seq<u128> {
        self.buckets_limits@
    }

    pub closed spec fn wf(&self) -> bool {
        let n = self.buckets_limits.len() as nat;
        &&& n > 0
        &&& self.buckets.len() == n
        &&& forall|i: int| 0 <= i < self.entries.len() ==> (#[trigger] self.entries@[i]).1 < n
        &&& forall|i: int, j: int|
            0 <= i < j < self.entries.len() ==> self.entries@[i].0 != self.entries@[j].0
        &&& forall|i: int|
            0 <= i < self.entries.len() ==> self.members@.contains_key(
                (#[trigger] self.entries@[i]).0,
            ) && self.members@[self.entries@[i].0] == self.entries@[i].1 as nat
        &&& forall|t: Txid|
            #[trigger] self.members@.contains_key(t) ==> exists|i: int|
                0 <= i < self.entries.len() && self.entries@[i].0 == t
        &&& self.members@.dom().finite()
        &&& self.members@.dom().len() == self.entries.len()
        &&& as_ints(self.buckets@) == entry_tally(n, self.entries@)
    }

    /// An empty histogram over the bucket limits of `increment_percent` and
    /// `upper_limit` (in thousandths of sat/vB). Refused when the increment is zero
    /// or when the limit does not exceed 1 sat/vB (no bucket at all).
    pub fn new(increment_percent: u32, upper_limit: u64) -> (r: Result<Self, ConfigError>)
        ensures
            match r {
                Ok(m) => {
                    &&& increment_percent > 0 && upper_limit > RATE_SCALE
                    &&& m.wf()
                    &&& is_limit_list(increment_percent as nat, upper_limit as nat, m.limits())
                    &&& m@.counts == Seq::new(m.limits().len(), |i: int| 0int)
                    &&& m@.members == Map::<Txid, nat>::empty()
                },
                Err(e) => (increment_percent == 0 || upper_limit <= RATE_SCALE) && e
                    == ConfigError::InvalidBucketConfig,
            },
    {
        if upper_limit <= RATE_SCALE {
            return Err(ConfigError::InvalidBucketConfig);
        }
        let buckets_limits = match create_buckets_limits(increment_percent, upper_limit) {
            Ok(b) => b,
            Err(e) => {
                return Err(e);
            },
        };
        proof {
            crate::buckets::lemma_limit_list_shape(
                increment_percent as nat,
                upper_limit as nat,
                buckets_limits@,
            );
        }
        let buckets = zeros(buckets_limits.len());
        let r = MempoolBuckets {
            buckets,
            buckets_limits,
            entries: Vec::new(),
            members: Ghost(Map::empty()),
        };
        proof {
            assert(as_ints(r.buckets@) =~= entry_tally(r.buckets_limits.len() as nat, r.entries@));
            assert(r@.counts =~= Seq::new(r.limits().len(), |i: int| 0int));
        }
        Ok(r)
    }

    /// The counts, one per bucket.
    pub fn get_buckets(&self) -> (r: &Vec<u64>)
        requires
            self.wf(),
        ensures
            as_ints(r@) == self@.counts,
    {
        &self.buckets
    }

    /// The place of `txid` in the membership table.
    fn find(&self, txid: &Txid) -> (r: Option<usize>)
        requires
            self.wf(),
        ensures
            match r {
                Some(i) => i < self.entries.len() && self.entries@[i as int].0 == *txid,
                None => !self@.members.contains_key(*txid),
            },
    {
        let mut i: usize = 0;
        while i < self.entries.len()
            invariant
                self.wf(),
                i <= self.entries.len(),
                forall|j: int| 0 <= j < i ==> self.entries@[j].0 != *txid,
            decreases self.entries.len() - i,
        {
            if self.entries[i].0 == *txid {
                return Some(i);
            }
            i = i + 1;
        }
        None
    }

    /// Tracks `txid` at `rate` (thousandths of sat/vB): counts it in the rate's
    /// bucket and records that bucket. Nothing changes for a rate of at most
    /// 1 sat/vB or for a transaction already tracked.
    pub fn add(&mut self, txid: Txid, rate: u128)
        requires
            old(self).wf(),
        ensures
            final(self).wf(),
            final(self).limits() == old(self).limits(),
            final(self)@ == after_add(old(self)@, old(self).limits(), txid, rate),
    {
        if rate <= RATE_SCALE as u128 {
            return;
        }
        if self.find(&txid).is_some() {
            return;
        }
        if self.entries.len() == usize::MAX {
            return;
        }
        let ghost n = self.buckets_limits.len() as nat;
        let ghost old_entries = self.entries@;
        let index = classify(rate, &self.buckets_limits);
        proof {
            lemma_entry_tally_shape(n, old_entries);
            lemma_sum_bound(entry_tally(n, old_entries), index as int);
            assert(as_ints(self.buckets@)[index as int] == self.buckets@[index as int] as int);
        }
        let count = self.buckets[index];
        self.buckets.set(index, count + 1);
        self.entries.push((txid, index));
        self.members = Ghost(self.members@.insert(txid, index as nat));
        proof {
            let e = self.entries@;
            assert(e.drop_last() =~= old_entries);
            assert(as_ints(self.buckets@) =~= entry_tally(n, e));
            assert forall|i: int, j: int| 0 <= i < j < e.len() implies e[i].0 != e[j].0 by {
                if j == e.len() - 1 {
                    assert(old(self).members@.contains_key(e[i].0));
                }
            }
            assert forall|t: Txid| #[trigger] self.members@.contains_key(t) implies exists|i: int|
                0 <= i < e.len() && e[i].0 == t by {
                if t == txid {
                    assert(e[e.len() - 1].0 == t);
                } else {
                    assert(old(self).members@.contains_key(t));
                    let i = choose|i: int| 0 <= i < old_entries.len() && old_entries[i].0 == t;
                    assert(e[i].0 == t);
                }
            }
            assert(self.members@.dom() =~= old(self).members@.dom().insert(txid));
            assert(self@.counts =~= old(self)@.counts.update(
                index as int,
                old(self)@.counts[index as int] + 1,
            ));
        }
    }

    /// Stops tracking `txid`: the bucket recorded when it was added loses one.
    /// Nothing changes for a transaction not tracked.
    pub fn remove(&mut self, txid: &Txid)
        requires
            old(self).wf(),
        ensures
            final(self).wf(),
            final(self).limits() == old(self).limits(),
            final(self)@ == after_remove(old(self)@, *txid),
    {
        let i = match self.find(txid) {
            Some(i) => i,
            None => {
                return;
            },
        };
        let ghost n = self.buckets_limits.len() as nat;
        let ghost old_entries = self.entries@;
        let (id, index) = self.entries.remove(i);
        proof {
            lemma_entry_tally_shape(n, old_entries);
            lemma_entry_tally_remove(n, old_entries, i as int);
            lemma_entry_tally_shape(n, self.entries@);
            assert(self.entries@ == old_entries.remove(i as int));
            assert(as_ints(self.buckets@)[index as int] == self.buckets@[index as int] as int);
            assert(entry_tally(n, self.entries@)[index as int] >= 0);
        }
        let count = self.buckets[index];
        self.buckets.set(index, count - 1);
        self.members = Ghost(self.members@.remove(*txid));
        proof {
            let e = self.entries@;
            assert(as_ints(self.buckets@) =~= entry_tally(n, e));
            assert forall|m: int| 0 <= m < e.len() implies self.members@.contains_key(
                (#[trigger] e[m]).0,
            ) && self.members@[e[m].0] == e[m].1 as nat by {
                if m < i {
                    assert(e[m] == old_entries[m]);
                    assert(old_entries[m].0 != old_entries[i as int].0);
                } else {
                    assert(e[m] == old_entries[m + 1]);
                    assert(old_entries[m + 1].0 != old_entries[i as int].0);
                }
            }
            assert forall|t: Txid| #[trigger] self.members@.contains_key(t) implies exists|m: int|
                0 <= m < e.len() && e[m].0 == t by {
                assert(old(self).members@.contains_key(t));
                let m = choose|m: int| 0 <= m < old_entries.len() && old_entries[m].0 == t;
                if m < i {
                    assert(e[m] == old_entries[m]);
                } else {
                    assert(m != i);
                    assert(e[m - 1] == old_entries[m]);
                }
            }
            assert forall|a: int, b: int| 0 <= a < b < e.len() implies e[a].0 != e[b].0 by {
                let a0 = if a < i { a } else { a + 1 };
                let b0 = if b < i { b } else { b + 1 };
                assert(e[a] == old_entries[a0]);
                assert(e[b] == old_entries[b0]);
            }
            assert(self.members@.dom() =~= old(self).members@.dom().remove(*txid));
            assert(self@.counts =~= old(self)@.counts.update(
                index as int,
                old(self)@.counts[index as int] - 1,
            ));
        }
    }

    /// Resets every count to zero and forgets every tracked transaction.
    pub fn clear(&mut self)
        requires
            old(self).wf(),
        ensures
            final(self).wf(),
            final(self).limits() == old(self).limits(),
            final(self)@.counts == Seq::new(old(self).limits().len(), |i: int| 0int),
            final(self)@.members == Map::<Txid, nat>::empty(),
    {
        self.buckets = zeros(self.buckets_limits.len());
        self.entries = Vec::new();
        self.members = Ghost(Map::empty());
        proof {
            assert(as_ints(self.buckets@) =~= entry_tally(
                self.buckets_limits.len() as nat,
                self.entries@,
            ));
            assert(self@.counts =~= Seq::new(old(self).limits().len(), |i: int| 0int));
        }
    }
}

/// Adding a transaction not yet tracked and then removing it gives back the state
/// from before, counts and membership alike.
pub proof fn lemma_add_then_remove(s: MempoolState, limits: Seq<u128>, txid: Txid, rate: u128)
    requires
        limits.len() > 0,
        s.counts.len() == limits.len(),
        !s.members.contains_key(txid),
    ensures
        after_remove(after_add(s, limits, txid, rate), txid) == s,
{
    let a = after_add(s, limits, txid, rate);
    if a != s {
        let k = bucket_index(limits, rate);
        crate::buckets::lemma_bucket_in_range(limits, rate);
        assert(a.members[txid] == k as nat);
        assert(after_remove(a, txid).counts =~= s.counts);
        assert(after_remove(a, txid).members =~= s.members);
    }
}

/// Once a transaction is tracked, adding it again changes nothing, whatever the rate.
pub proof fn lemma_add_idempotent(
    s: MempoolState,
    limits: Seq<u128>,
    txid: Txid,
    rate1: u128,
    rate2: u128,
)
    requires
        after_add(s, limits, txid, rate1).members.contains_key(txid),
    ensures
        after_add(after_add(s, limits, txid, rate1), limits, txid, rate2) == after_add(
            s,
            limits,
            txid,
            rate1,
        ),
{
}

/// A rate of at most 1 sat/vB never changes the state.
pub proof fn lemma_add_dust(s: MempoolState, limits: Seq<u128>, txid: Txid, rate: u128)
    requires
        rate <= RATE_SCALE,
    ensures
        after_add(s, limits, txid, rate) == s,
{
}

/// A histogram has at least one bucket, one count per bucket, and its counts add up
/// to the number of tracked transactions.
pub proof fn lemma_counts_total(m: MempoolBuckets)
    requires
        m.wf(),
    ensures
        m.limits().len() > 0,
        m@.counts.len() == m.limits().len(),
        sum(m@.counts) == m@.members.dom().len(),
{
    lemma_entry_tally_shape(m.buckets_limits.len() as nat, m.entries@);
}

} // verus!
