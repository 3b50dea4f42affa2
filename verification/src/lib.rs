//! Per-key running statistics over a delimited text buffer.
//!
//! The input is a byte buffer of `<key>;<measurement>` lines. The pipeline
//! splits the buffer into line-aligned partitions, accumulates per-key
//! minimum, maximum, sum and count within each partition, merges the
//! partial results associatively, and projects a key-sorted result sequence.
//! Measurements are fixed-point decimals held as scaled integers.
use vstd::prelude::*;

pub mod agg;
pub mod laws;
pub mod parse;
pub mod project;
pub mod split;
pub mod stats;

verus! {

/// Scaling factor of a measurement: values are held in units of 1/10000.
pub const SCALE: i64 = 10000;

/// Strict bound on the magnitude of a scaled measurement.
pub const MAX_ABS: i64 = 1000000000000000;

/// Runs the whole pipeline over `buf`: split into about `parts` line-aligned
/// partitions, accumulate each, merge the partial aggregates, and project
/// the key-sorted result. Also returns the number of malformed lines.
pub fn run(buf: &[u8], parts: usize) -> (r: (Vec<(Vec<u8>, stats::Stats)>, usize))
    requires
        parts >= 1,
    ensures
        agg::map_of(r.0@) == agg::accumulate(agg::records_of(agg::lines_of(buf@))),
        agg::keys_distinct(r.0@),
        agg::all_wf(r.0@),
        project::sorted_by_key(r.0@),
        r.1 == agg::bad_of(agg::lines_of(buf@)),
{
    let ranges = split::partition(buf, parts);
    let mut total = agg::AggMap::new();
    let mut bad: usize = 0;
    let ghost mut covered: int = 0;
    let n = ranges.len();
    let mut j: usize = 0;
    proof {
        assert(buf@.take(0) =~= Seq::<u8>::empty());
        assert(agg::records_of(agg::lines_of(buf@.take(0))) =~= Seq::<(Seq<u8>, int)>::empty());
    }
    while j < n
        invariant
            j <= n == ranges@.len(),
            split::ranges_wf(ranges@, buf@),
            0 <= covered <= buf@.len(),
            j == 0 ==> covered == 0,
            j > 0 ==> covered == ranges@[j - 1].1,
            total@ == agg::accumulate(agg::records_of(agg::lines_of(buf@.take(covered)))),
            total.wf(),
            bad == agg::bad_of(agg::lines_of(buf@.take(covered))),
        decreases n - j,
    {
        let (lo, hi) = *vstd::slice::slice_index_get(ranges.as_slice(), j);
        let ghost sub = buf@.subrange(lo as int, hi as int);
        proof {
            assert(ranges@[j as int].0 == lo && ranges@[j as int].1 == hi);
            if j > 0 {
                assert(ranges@[j - 1].1 == ranges@[j as int].0);
            }
            assert(lo == covered);
            assert(lo < hi <= buf@.len());
        }
        let (m, b) = agg::AggMap::accumulate_range(buf, lo, hi);
        proof {
            let prefix = buf@.take(covered);
            let whole = buf@.take(hi as int);
            agg::lemma_records_bad_len(agg::lines_of(prefix));
            agg::lemma_records_bad_len(agg::lines_of(sub));
            agg::lemma_lines_count(prefix);
            agg::lemma_lines_count(sub);
            if j == 0 {
                assert(whole.skip(0) =~= whole);
                assert(sub =~= whole);
                laws::lemma_merge_maps_comm(total@, m@);
                agg::lemma_merge_maps_empty(m@);
                assert(agg::merge_maps(total@, m@) == m@);
                assert(agg::bad_of(agg::lines_of(prefix)) == 0);
            } else {
                assert(covered < buf@.len());
                assert(buf@[covered - 1] == parse::NEWLINE);
                assert(whole[covered - 1] == parse::NEWLINE);
                laws::lemma_partition_accumulate(whole, covered);
                assert(whole.take(covered) =~= prefix);
                assert(whole.skip(covered) =~= sub);
            }
            assert forall|k: Seq<u8>|
                total@.dom().contains(k) && #[trigger] m@.dom().contains(k) implies total@[k].count
                + m@[k].count <= u64::MAX by {
                agg::lemma_accumulate_count(agg::records_of(agg::lines_of(prefix)), k);
                agg::lemma_accumulate_count(agg::records_of(agg::lines_of(sub)), k);
                assert(total@[k].count <= covered);
                assert(m@[k].count <= hi - lo);
                assert(covered + (hi - lo) <= usize::MAX);
            }
            assert(bad + b <= hi);
        }
        total.merge(&m);
        bad = bad + b;
        proof {
            covered = hi as int;
        }
        j += 1;
    }
    proof {
        if buf@.len() > 0 {
            assert(ranges@[n - 1].1 == buf@.len());
        }
        assert(buf@.take(buf@.len() as int) =~= buf@);
    }
    let out = total.into_sorted();
    (out, bad)
}

} // verus!
