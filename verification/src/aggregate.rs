//! Decoding records and folding them into the aggregation table.
//!
//! The aggregator consumes `(key segment, value segment)` pairs: it strips
//! the key's trailing delimiter, parses the value as an exact decimal, and
//! folds it into the per-key statistics. `aggregate` runs the whole
//! pipeline over a byte stream and is proved equal to `agg_from`, a
//! mathematical description of the entire run, including exactly which
//! error ends a run on which inputs.

use vstd::prelude::*;

use crate::decimal::{decimal_mantissa, parse_decimal, parses_to_decimal};
use crate::splitter::{seg_end, split_next, SplitStep, KEY_DELIM, LINE_DELIM};
use crate::splitter::lemma_seg_end;
use crate::stats::{folded_stats, fold_seq, max_seq, min_seq, sum_seq, StatsModel};
use crate::stats::lemma_fold_stats;
use crate::table::{lemma_table_fold_key, table_fold, values_for, AggregationTable};
use vstd::slice::slice_subrange;

verus! {

/// A fatal condition that ends a run.
#[derive(Clone, Copy, Debug, PartialEq, Eq, Structural)]
pub enum AggError {
    /// A key segment stood at the end of the stream with no value bytes
    /// after it.
    MalformedRecord,
    /// A value segment did not denote a decimal value this library admits.
    Decode,
    /// A key's running sum or count left its machine range.
    Overflow,
}

/// A key segment with its one trailing delimiter removed.
pub open spec fn strip_key(k: Seq<u8>) -> Seq<u8> {
    if k.len() > 0 && k.last() == KEY_DELIM {
        k.drop_last()
    } else {
        k
    }
}

/// Effect of one record on the table: parse the value segment, strip the
/// key segment, fold. `Err` names the condition that ends the run.
pub open spec fn push_step(m: Map<Seq<u8>, StatsModel>, key: Seq<u8>, val: Seq<u8>) -> Result<
    Map<Seq<u8>, StatsModel>,
    AggError,
> {
    if !parses_to_decimal(val) {
        Err(AggError::Decode)
    } else {
        let st = folded_stats(m, strip_key(key), decimal_mantissa(val));
        if st.sum < i128::MIN || st.sum > i128::MAX || st.count > u64::MAX {
            Err(AggError::Overflow)
        } else {
            Ok(m.insert(strip_key(key), st))
        }
    }
}

/// The whole run from position `pos` with table `m`: the final table, or
/// the error that ends the run.
pub open spec fn agg_from(s: Seq<u8>, pos: int, m: Map<Seq<u8>, StatsModel>) -> Result<
    Map<Seq<u8>, StatsModel>,
    AggError,
>
    decreases s.len() - pos,
    when 0 <= pos <= s.len()
    via agg_from_decreases
{
    if pos >= s.len() {
        Ok(m)
    } else {
        let ke = seg_end(s, pos, KEY_DELIM);
        if ke >= s.len() {
            Err(AggError::MalformedRecord)
        } else {
            let ve = seg_end(s, ke, LINE_DELIM);
            match push_step(m, s.subrange(pos, ke), s.subrange(ke, ve)) {
                Err(e) => Err(e),
                Ok(m2) => agg_from(s, ve, m2),
            }
        }
    }
}

#[via_fn]
proof fn agg_from_decreases(s: Seq<u8>, pos: int, m: Map<Seq<u8>, StatsModel>) {
    if pos < s.len() {
        lemma_seg_end(s, pos, KEY_DELIM);
        let ke = seg_end(s, pos, KEY_DELIM);
        if ke < s.len() {
            lemma_seg_end(s, ke, LINE_DELIM);
        }
    }
}

/// The decoded records of the stream from `pos` on, as far as the stream
/// is well formed: each record's stripped key with its decoded value, in
/// stream order.
pub open spec fn decoded_records(s: Seq<u8>, pos: int) -> Seq<(Seq<u8>, int)>
    decreases s.len() - pos,
    when 0 <= pos <= s.len()
    via decoded_records_decreases
{
    if pos >= s.len() {
        Seq::empty()
    } else {
        let ke = seg_end(s, pos, KEY_DELIM);
        if ke >= s.len() {
            Seq::empty()
        } else {
            let ve = seg_end(s, ke, LINE_DELIM);
            seq![(strip_key(s.subrange(pos, ke)), decimal_mantissa(s.subrange(ke, ve)))]
                + decoded_records(s, ve)
        }
    }
}

#[via_fn]
proof fn decoded_records_decreases(s: Seq<u8>, pos: int) {
    if pos < s.len() {
        lemma_seg_end(s, pos, KEY_DELIM);
        let ke = seg_end(s, pos, KEY_DELIM);
        if ke < s.len() {
            lemma_seg_end(s, ke, LINE_DELIM);
        }
    }
}

/// A successful run folds exactly the stream's decoded records: continuing
/// from any table that is itself the fold of earlier records yields the
/// fold of those records followed by the stream's.
proof fn lemma_agg_from_is_table_fold(s: Seq<u8>, pos: int, pairs: Seq<(Seq<u8>, int)>)
    requires
        0 <= pos <= s.len(),
        agg_from(s, pos, table_fold(pairs)) is Ok,
    ensures
        agg_from(s, pos, table_fold(pairs)) == Ok::<_, AggError>(
            table_fold(pairs + decoded_records(s, pos)),
        ),
    decreases s.len() - pos,
{
    if pos >= s.len() {
        assert(pairs + decoded_records(s, pos) =~= pairs);
    } else {
        lemma_seg_end(s, pos, KEY_DELIM);
        let ke = seg_end(s, pos, KEY_DELIM);
        assert(ke < s.len());
        lemma_seg_end(s, ke, LINE_DELIM);
        let ve = seg_end(s, ke, LINE_DELIM);
        let key = strip_key(s.subrange(pos, ke));
        let x = decimal_mantissa(s.subrange(ke, ve));
        let rec = (key, x);
        let m = table_fold(pairs);
        let m2 = m.insert(key, folded_stats(m, key, x));
        assert(push_step(m, s.subrange(pos, ke), s.subrange(ke, ve)) == Ok::<_, AggError>(m2));
        assert(pairs.push(rec).drop_last() =~= pairs);
        assert(table_fold(pairs.push(rec)) == m2);
        lemma_agg_from_is_table_fold(s, ve, pairs.push(rec));
        assert(decoded_records(s, pos) == seq![rec] + decoded_records(s, ve));
        assert(pairs + decoded_records(s, pos) =~= pairs.push(rec) + decoded_records(s, ve));
    }
}

/// Per-key correctness of the whole pipeline. When a run over the stream
/// `s` completes with table `m`, then for every key: the key is present
/// exactly when some record delivered a value for it, and its statistics
/// are precisely the fold of the values delivered for that key alone —
/// minimum and maximum are the true extrema over those values, the sum is
/// their exact sum, the count their number, and records for other keys
/// never touch them.
pub proof fn lemma_aggregate_per_key(s: Seq<u8>, m: Map<Seq<u8>, StatsModel>, k: Seq<u8>)
    requires
        agg_from(s, 0, Map::empty()) == Ok::<_, AggError>(m),
    ensures
        m.contains_key(k) <==> values_for(decoded_records(s, 0), k).len() > 0,
        m.contains_key(k) ==> m[k] == fold_seq(values_for(decoded_records(s, 0), k)),
        m.contains_key(k) ==> m[k].min == min_seq(values_for(decoded_records(s, 0), k)),
        m.contains_key(k) ==> m[k].max == max_seq(values_for(decoded_records(s, 0), k)),
        m.contains_key(k) ==> m[k].sum == sum_seq(values_for(decoded_records(s, 0), k)),
        m.contains_key(k) ==> m[k].count == values_for(decoded_records(s, 0), k).len(),
{
    let none: Seq<(Seq<u8>, int)> = Seq::empty();
    assert(table_fold(none) == Map::<Seq<u8>, StatsModel>::empty());
    lemma_agg_from_is_table_fold(s, 0, none);
    assert(none + decoded_records(s, 0) =~= decoded_records(s, 0));
    lemma_table_fold_key(decoded_records(s, 0), k);
    if m.contains_key(k) {
        lemma_fold_stats(values_for(decoded_records(s, 0), k));
    }
}

/// The consuming side of the pipeline: holds the table and folds each
/// delivered record into it; hands the table over once the stream is
/// drained.
pub struct Aggregator {
    table: AggregationTable,
}

impl Aggregator {
    /// The table so far, as a map from key bytes to statistics.
    pub closed spec fn view(self) -> Map<Seq<u8>, StatsModel> {
        self.table@
    }

    pub closed spec fn wf(self) -> bool {
        self.table.wf()
    }

    pub fn new() -> (r: Aggregator)
        ensures
            r.wf(),
            r@ == Map::<Seq<u8>, StatsModel>::empty(),
    {
        Aggregator { table: AggregationTable::new() }
    }

    /// Consume one record: decode the pair and fold the value into its
    /// key's statistics. On an error the table is unchanged and the run is
    /// over.
    pub fn push(&mut self, key: &[u8], val: &[u8]) -> (r: Result<(), AggError>)
        requires
            old(self).wf(),
        ensures
            final(self).wf(),
            r is Ok ==> push_step(old(self)@, key@, val@) == Ok::<_, AggError>(final(self)@),
            r matches Err(e) ==> push_step(old(self)@, key@, val@) == Err::<
                Map<Seq<u8>, StatsModel>,
                _,
            >(e) && final(self)@ == old(self)@,
    {
        let d = match parse_decimal(val) {
            None => {
                return Err(AggError::Decode);
            },
            Some(d) => d,
        };
        let kb: &[u8] = if key.len() > 0 && key[key.len() - 1] == KEY_DELIM {
            slice_subrange(key, 0, key.len() - 1)
        } else {
            slice_subrange(key, 0, key.len())
        };
        proof {
            assert(kb@ =~= strip_key(key@));
        }
        if self.table.fold_value(kb, d) {
            Ok(())
        } else {
            Err(AggError::Overflow)
        }
    }

    /// Hand the completed table to the caller; no further folding can
    /// touch it.
    pub fn finish(self) -> (t: AggregationTable)
        requires
            self.wf(),
        ensures
            t.wf(),
            t@ == self@,
    {
        self.table
    }
}

/// Run the whole pipeline over one byte stream: delimit each record, fold
/// it, and return the completed table, or the first fatal condition. The
/// result is exactly what `agg_from` says of the stream: well-formed input
/// always yields the full table, a stream that ends mid-record is
/// malformed, and an undecodable value segment ends the run.
#[verifier::loop_isolation(false)]
pub fn aggregate(input: &[u8]) -> (r: Result<AggregationTable, AggError>)
    ensures
        r matches Ok(t) ==> agg_from(input@, 0, Map::empty()) == Ok::<_, AggError>(t@) && t.wf(),
        r matches Err(e) ==> agg_from(input@, 0, Map::empty()) == Err::<
            Map<Seq<u8>, StatsModel>,
            _,
        >(e),
{
    let mut agg = Aggregator::new();
    let mut pos: usize = 0;
    while pos < input.len()
        invariant
            agg.wf(),
            pos <= input@.len(),
            agg_from(input@, 0, Map::empty()) == agg_from(input@, pos as int, agg@),
        decreases input@.len() - pos,
    {
        match split_next(input, pos) {
            SplitStep::Done => {
                proof {
                    assert(false);
                }
            },
            SplitStep::Truncated => {
                return Err(AggError::MalformedRecord);
            },
            SplitStep::Record { key_end, val_end } => {
                let key = slice_subrange(input, pos, key_end);
                let val = slice_subrange(input, key_end, val_end);
                match agg.push(key, val) {
                    Ok(()) => {
                        pos = val_end;
                    },
                    Err(e) => {
                        return Err(e);
                    },
                }
            },
        }
    }
    Ok(agg.finish())
}

} // verus!
