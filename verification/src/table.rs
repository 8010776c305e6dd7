//! The aggregation table: per-key statistics, keyed by exact byte strings.
//!
//! The table is viewed as a map from key bytes to the `StatsModel` held for
//! that key. Folding a value touches exactly one key's statistics and no
//! other's, and a key, once present, is never removed.

use vstd::map::*;
use vstd::prelude::*;
use vstd::slice::slice_to_vec;

use crate::decimal::Decimal;
use crate::stats::{fold_one, fold_seq, folded_stats, init_stats, StationData, StatsModel};

verus! {

/// Byte-exact equality of two byte strings.
fn bytes_eq(a: &[u8], b: &[u8]) -> (r: bool)
    ensures
        r <==> a@ == b@,
{
    if a.len() != b.len() {
        return false;
    }
    let mut i: usize = 0;
    while i < a.len()
        invariant
            i <= a@.len() == b@.len(),
            forall|j: int| 0 <= j < i ==> a@[j] == b@[j],
        decreases a@.len() - i,
    {
        if a[i] != b[i] {
            assert(a@[i as int] != b@[i as int]);
            return false;
        }
        i = i + 1;
    }
    proof {
        assert(a@ =~= b@);
    }
    true
}

/// Mapping from each distinct key to its statistics. One entry per key,
/// created at the key's first value and never removed.
#[derive(Debug, PartialEq, Eq)]
pub struct AggregationTable {
    keys: Vec<Vec<u8>>,
    stats: Vec<StationData>,
}

impl AggregationTable {
    /// The keys, in order of first sight.
    pub closed spec fn keys_seq(self) -> Seq<Seq<u8>> {
        self.keys@.map_values(|k: Vec<u8>| k@)
    }

    /// The table as a map from key bytes to that key's statistics.
    pub closed spec fn view(self) -> Map<Seq<u8>, StatsModel> {
        Map::new(
            |k: Seq<u8>| exists|i: int| 0 <= i < self.keys@.len() && self.keys@[i]@ == k,
            |k: Seq<u8>|
                self.stats@[choose|i: int|
                    0 <= i < self.keys@.len() && self.keys@[i]@ == k].model(),
        )
    }

    /// Well-formedness: keys are distinct, each key has statistics, and
    /// every count is at least one.
    pub closed spec fn wf(self) -> bool {
        &&& self.keys@.len() == self.stats@.len()
        &&& forall|i: int, j: int|
            0 <= i < j < self.keys@.len() ==> self.keys@[i]@ != self.keys@[j]@
        &&& forall|i: int| 0 <= i < self.stats@.len() ==> (#[trigger] self.stats@[i]).mean.count
            >= 1
    }

    /// The statistics the view holds for the key of entry `i` are entry
    /// `i`'s own.
    proof fn lemma_entry(self, i: int)
        requires
            self.wf(),
            0 <= i < self.keys@.len(),
        ensures
            self@.contains_key(self.keys@[i]@),
            self@[self.keys@[i]@] == self.stats@[i].model(),
    {
        let k = self.keys@[i]@;
        assert(exists|j: int| 0 <= j < self.keys@.len() && self.keys@[j]@ == k);
        let j = choose|j: int| 0 <= j < self.keys@.len() && self.keys@[j]@ == k;
        assert(j == i);
    }

    pub fn new() -> (r: AggregationTable)
        ensures
            r.wf(),
            r@ == Map::<Seq<u8>, StatsModel>::empty(),
            r.keys_seq() == Seq::<Seq<u8>>::empty(),
    {
        let r = AggregationTable { keys: Vec::new(), stats: Vec::new() };
        proof {
            assert(r@ =~= Map::<Seq<u8>, StatsModel>::empty());
            assert(r.keys_seq() =~= Seq::<Seq<u8>>::empty());
        }
        r
    }

    /// Number of distinct keys seen.
    pub fn len(&self) -> (r: usize)
        ensures
            r == self.keys_seq().len(),
    {
        self.keys.len()
    }

    /// The key of entry `i`, in order of first sight.
    pub fn key_at(&self, i: usize) -> (r: &Vec<u8>)
        requires
            self.wf(),
            i < self.keys_seq().len(),
        ensures
            r@ == self.keys_seq()[i as int],
            self@.contains_key(r@),
            self@[r@] == self.stats_seq_at(i as int),
    {
        proof {
            self.lemma_entry(i as int);
        }
        &self.keys[i]
    }

    /// The statistics of entry `i`, as the view holds them.
    pub closed spec fn stats_seq_at(self, i: int) -> StatsModel {
        self.stats@[i].model()
    }

    /// The statistics of entry `i`.
    pub fn stats_at(&self, i: usize) -> (r: &StationData)
        requires
            self.wf(),
            i < self.keys_seq().len(),
        ensures
            r.model() == self@[self.keys_seq()[i as int]],
            r.model() == self.stats_seq_at(i as int),
            r.mean.count >= 1,
    {
        proof {
            self.lemma_entry(i as int);
        }
        &self.stats[i]
    }

    /// Look a key up.
    #[verifier::loop_isolation(false)]
    pub fn get(&self, key: &[u8]) -> (r: Option<&StationData>)
        requires
            self.wf(),
        ensures
            r is Some <==> self@.contains_key(key@),
            r matches Some(sd) ==> sd.model() == self@[key@] && sd.mean.count >= 1,
    {
        let n = self.keys.len();
        let mut i: usize = 0;
        while i < n
            invariant
                self.wf(),
                n == self.keys@.len(),
                i <= n,
                forall|j: int| 0 <= j < i ==> self.keys@[j]@ != key@,
            decreases n - i,
        {
            if bytes_eq(self.keys[i].as_slice(), key) {
                proof {
                    self.lemma_entry(i as int);
                }
                return Some(&self.stats[i]);
            }
            i = i + 1;
        }
        None
    }

    /// Fold one value into the statistics of `key`, creating the key's
    /// entry at its first value.
    ///
    /// Statistics of every other key are untouched: the result is exactly
    /// the old map with this one key's entry replaced (or added). Returns
    /// false, changing nothing, exactly when the key's running sum or count
    /// would overflow.
    #[verifier::loop_isolation(false)]
    pub fn fold_value(&mut self, key: &[u8], value: Decimal) -> (ok: bool)
        requires
            old(self).wf(),
        ensures
            final(self).wf(),
            ok ==> final(self)@ == old(self)@.insert(
                key@,
                if old(self)@.contains_key(key@) {
                    fold_one(old(self)@[key@], value.mantissa as int)
                } else {
                    init_stats(value.mantissa as int)
                },
            ),
            ok ==> final(self).keys_seq() == (if old(self)@.contains_key(key@) {
                old(self).keys_seq()
            } else {
                old(self).keys_seq().push(key@)
            }),
            forall|k: Seq<u8>|
                k != key@ ==> (#[trigger] final(self)@.contains_key(k) <==> old(
                    self,
                )@.contains_key(k)),
            forall|k: Seq<u8>|
                k != key@ && old(self)@.contains_key(k) ==> #[trigger] final(self)@[k] == old(
                    self,
                )@[k],
            !ok ==> *final(self) == *old(self),
            ok <==> (!old(self)@.contains_key(key@) || (i128::MIN <= old(self)@[key@].sum
                + value.mantissa <= i128::MAX && old(self)@[key@].count < u64::MAX)),
    {
        let n = self.keys.len();
        let mut i: usize = 0;
        while i < n
            invariant
                *self == *old(self),
                self.wf(),
                n == self.keys@.len(),
                i <= n,
                forall|j: int| 0 <= j < i ==> self.keys@[j]@ != key@,
            decreases n - i,
        {
            if bytes_eq(self.keys[i].as_slice(), key) {
                proof {
                    self.lemma_entry(i as int);
                }
                let mut sd = self.stats[i];
                let ok = sd.update(value);
                if !ok {
                    return false;
                }
                let ghost pre = *self;
                self.stats[i] = sd;
                proof {
                    assert(self.keys_seq() =~= pre.keys_seq());
                    assert forall|jj: int| 0 <= jj < self.keys@.len() implies self@.contains_key(
                        #[trigger] self.keys@[jj]@,
                    ) && self@[self.keys@[jj]@] == self.stats@[jj].model() by {
                        self.lemma_entry(jj);
                    }
                    assert forall|jj: int| 0 <= jj < pre.keys@.len() implies pre@.contains_key(
                        #[trigger] pre.keys@[jj]@,
                    ) && pre@[pre.keys@[jj]@] == pre.stats@[jj].model() by {
                        pre.lemma_entry(jj);
                    }
                    assert(self@ =~= pre@.insert(
                        key@,
                        fold_one(pre@[key@], value.mantissa as int),
                    ));
                }
                return true;
            }
            i = i + 1;
        }
        let ghost pre = *self;
        self.keys.push(slice_to_vec(key));
        self.stats.push(StationData::new(value));
        proof {
            let ghost n_old = pre.keys@.len() as int;
            assert(self.keys@[n_old]@ == key@);
            assert(self.keys_seq() =~= pre.keys_seq().push(key@));
            assert(!pre@.contains_key(key@));
            let ghost m2 = pre@.insert(key@, init_stats(value.mantissa as int));
            assert forall|k: Seq<u8>| #[trigger] self@.contains_key(k) implies m2.contains_key(k)
                && self@[k] == m2[k] by {
                let i = choose|i: int| 0 <= i < self.keys@.len() && self.keys@[i]@ == k;
                self.lemma_entry(i);
                if i < n_old {
                    assert(pre.keys@[i]@ == k);
                    pre.lemma_entry(i);
                    assert(k != key@);
                    assert(self@[k] == self.stats@[i].model());
                    assert(self.stats@[i] == pre.stats@[i]);
                } else {
                    assert(k == key@);
                    assert(self@[k] == self.stats@[n_old].model());
                }
            }
            assert forall|k: Seq<u8>| #[trigger] m2.contains_key(k) implies self@.contains_key(
                k,
            ) by {
                if k == key@ {
                    assert(self.keys@[n_old]@ == k);
                } else {
                    let i = choose|i: int| 0 <= i < pre.keys@.len() && pre.keys@[i]@ == k;
                    assert(self.keys@[i]@ == k);
                }
            }
            assert(self@ =~= m2);
        }
        true
    }
}

/// The values delivered for key `k`, in delivery order, out of a sequence
/// of decoded `(key, value)` records.
pub open spec fn values_for(pairs: Seq<(Seq<u8>, int)>, k: Seq<u8>) -> Seq<int>
    decreases pairs.len(),
{
    if pairs.len() == 0 {
        Seq::empty()
    } else {
        let r = values_for(pairs.drop_last(), k);
        if pairs.last().0 == k {
            r.push(pairs.last().1)
        } else {
            r
        }
    }
}

/// The table that folding a sequence of decoded records produces, record
/// by record in delivery order.
pub open spec fn table_fold(pairs: Seq<(Seq<u8>, int)>) -> Map<Seq<u8>, StatsModel>
    decreases pairs.len(),
{
    if pairs.len() == 0 {
        Map::empty()
    } else {
        let m = table_fold(pairs.drop_last());
        m.insert(pairs.last().0, folded_stats(m, pairs.last().0, pairs.last().1))
    }
}

/// Key isolation, and per-key correctness of the table: after folding any
/// record stream, a key holds statistics exactly when some record delivered
/// a value for it, and those statistics are precisely the fold of the
/// values delivered for that key alone — records for other keys never
/// touch them.
pub proof fn lemma_table_fold_key(pairs: Seq<(Seq<u8>, int)>, k: Seq<u8>)
    ensures
        table_fold(pairs).contains_key(k) <==> values_for(pairs, k).len() > 0,
        table_fold(pairs).contains_key(k) ==> table_fold(pairs)[k] == fold_seq(
            values_for(pairs, k),
        ),
    decreases pairs.len(),
{
    if pairs.len() > 0 {
        let prefix = pairs.drop_last();
        let (kk, x) = pairs.last();
        lemma_table_fold_key(prefix, k);
        let m = table_fold(prefix);
        let v = values_for(prefix, k);
        if kk == k {
            if v.len() > 0 {
                assert(v.push(x).drop_last() =~= v);
                assert(fold_seq(v.push(x)) == fold_one(fold_seq(v), x));
            } else {
                assert(fold_seq(v.push(x)) == init_stats(x));
            }
        }
    }
}

} // verus!
