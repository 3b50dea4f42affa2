//! Laws of the pipeline: the merge reducer is associative and commutative,
//! merging partition aggregates equals aggregating the whole input, the
//! key set of an aggregate is the key set of its records, and each key's
//! statistics are exactly the minimum, maximum, sum and count of its
//! observed values.
use vstd::prelude::*;
use crate::agg::accumulate;
use crate::agg::bad_of;
use crate::agg::lines_of;
use crate::agg::merge_maps;
use crate::agg::lemma_merge_maps_empty;
use crate::agg::lemma_records_of_append;
use crate::agg::records_of;
use crate::agg::upsert;
use crate::parse::NEWLINE;
use crate::split::lemma_lines_split_at;
use crate::stats::SStats;
use crate::stats::stats_add;
use crate::stats::stats_seed;
use crate::stats::stats_union;
use crate::stats::lemma_union_seed;

verus! {

/// The merge rule commutes with one accumulation step on its right operand.
pub proof fn lemma_merge_upsert(
    a: Map<Seq<u8>, SStats>,
    b: Map<Seq<u8>, SStats>,
    k: Seq<u8>,
    v: int,
)
    ensures
        merge_maps(a, upsert(b, k, v)) == upsert(merge_maps(a, b), k, v),
{
    if b.dom().contains(k) {
        if a.dom().contains(k) {
            assert(stats_union(a[k], stats_add(b[k], v)) == stats_add(stats_union(a[k], b[k]), v));
        }
        assert(merge_maps(a, upsert(b, k, v)) =~= upsert(merge_maps(a, b), k, v));
    } else {
        if a.dom().contains(k) {
            lemma_union_seed(a[k], v);
        }
        assert(merge_maps(a, upsert(b, k, v)) =~= upsert(merge_maps(a, b), k, v));
    }
}

/// Accumulating a concatenation of record sequences equals accumulating
/// the pieces and merging: the fact that makes per-partition accumulation
/// followed by a merge equal to one sequential accumulation.
pub proof fn lemma_accumulate_append(r1: Seq<(Seq<u8>, int)>, r2: Seq<(Seq<u8>, int)>)
    ensures
        accumulate(r1 + r2) == merge_maps(accumulate(r1), accumulate(r2)),
    decreases r2.len(),
{
    if r2.len() == 0 {
        assert(r1 + r2 =~= r1);
        lemma_merge_maps_empty(accumulate(r1));
    } else {
        assert((r1 + r2).drop_last() =~= r1 + r2.drop_last());
        lemma_accumulate_append(r1, r2.drop_last());
        assert((r1 + r2).last() == r2.last());
        lemma_merge_upsert(
            accumulate(r1),
            accumulate(r2.drop_last()),
            r2.last().0,
            r2.last().1,
        );
    }
}

/// Cutting the input right after a line terminator and accumulating each
/// side separately, then merging, equals accumulating the whole input; the
/// malformed-line counts add up.
pub proof fn lemma_partition_accumulate(s: Seq<u8>, b: int)
    requires
        0 < b <= s.len(),
        s[b - 1] == NEWLINE,
    ensures
        accumulate(records_of(lines_of(s))) == merge_maps(
            accumulate(records_of(lines_of(s.take(b)))),
            accumulate(records_of(lines_of(s.skip(b)))),
        ),
        bad_of(lines_of(s)) == bad_of(lines_of(s.take(b))) + bad_of(lines_of(s.skip(b))),
    decreases s.len(),
{
    lemma_lines_split_at(s, b);
    lemma_records_of_append(lines_of(s.take(b)), lines_of(s.skip(b)));
    lemma_accumulate_append(records_of(lines_of(s.take(b))), records_of(lines_of(s.skip(b))));
}

/// The merge reducer is commutative.
pub proof fn lemma_merge_maps_comm(a: Map<Seq<u8>, SStats>, b: Map<Seq<u8>, SStats>)
    ensures
        merge_maps(a, b) == merge_maps(b, a),
{
    assert(merge_maps(a, b) =~= merge_maps(b, a));
}

/// The merge reducer is associative.
pub proof fn lemma_merge_maps_assoc(
    a: Map<Seq<u8>, SStats>,
    b: Map<Seq<u8>, SStats>,
    c: Map<Seq<u8>, SStats>,
)
    ensures
        merge_maps(merge_maps(a, b), c) == merge_maps(a, merge_maps(b, c)),
{
    assert(merge_maps(merge_maps(a, b), c) =~= merge_maps(a, merge_maps(b, c)));
}

/// The key set of an aggregate is exactly the key set of its records.
pub proof fn lemma_accumulate_dom(rs: Seq<(Seq<u8>, int)>)
    ensures
        forall|k: Seq<u8>| #[trigger]
            accumulate(rs).dom().contains(k) <==> exists|i: int|
                0 <= i < rs.len() && (#[trigger] rs[i]).0 == k,
    decreases rs.len(),
{
    if rs.len() > 0 {
        lemma_accumulate_dom(rs.drop_last());
        assert forall|k: Seq<u8>| #[trigger] accumulate(rs).dom().contains(k) implies exists|i: int|
            0 <= i < rs.len() && (#[trigger] rs[i]).0 == k by {
            if rs.last().0 == k {
                assert(rs[rs.len() - 1].0 == k);
            } else {
                assert(accumulate(rs.drop_last()).dom().contains(k));
                let i = choose|i: int| 0 <= i < rs.drop_last().len() && (#[trigger] rs.drop_last()[
                    i
                ]).0 == k;
                assert(rs[i].0 == k);
            }
        }
        assert forall|k: Seq<u8>|
            exists|i: int|
                0 <= i < rs.len() && (#[trigger] rs[i]).0 == k implies #[trigger] accumulate(
            rs,
        ).dom().contains(k) by {
            let i = choose|i: int| 0 <= i < rs.len() && (#[trigger] rs[i]).0 == k;
            if i < rs.len() - 1 {
                assert(rs.drop_last()[i].0 == k);
                assert(accumulate(rs.drop_last()).dom().contains(k));
            }
        }
    }
}

/// The values observed for key `k`, in record order.
pub open spec fn values_of(rs: Seq<(Seq<u8>, int)>, k: Seq<u8>) -> Seq<int>
    decreases rs.len(),
{
    if rs.len() == 0 {
        Seq::empty()
    } else {
        values_of(rs.drop_last(), k) + (if rs.last().0 == k {
            seq![rs.last().1]
        } else {
            Seq::empty()
        })
    }
}

/// The least element of a nonempty sequence.
pub open spec fn seq_min(vs: Seq<int>) -> int
    recommends
        vs.len() > 0,
    decreases vs.len(),
{
    if vs.len() <= 1 {
        vs[0]
    } else {
        let m = seq_min(vs.drop_last());
        if vs.last() < m {
            vs.last()
        } else {
            m
        }
    }
}

/// The greatest element of a nonempty sequence.
pub open spec fn seq_max(vs: Seq<int>) -> int
    recommends
        vs.len() > 0,
    decreases vs.len(),
{
    if vs.len() <= 1 {
        vs[0]
    } else {
        let m = seq_max(vs.drop_last());
        if vs.last() > m {
            vs.last()
        } else {
            m
        }
    }
}

/// The sum of a sequence.
pub open spec fn seq_sum(vs: Seq<int>) -> int
    decreases vs.len(),
{
    if vs.len() == 0 {
        0
    } else {
        seq_sum(vs.drop_last()) + vs.last()
    }
}

/// A key outside the aggregate has no observed values.
pub proof fn lemma_values_absent(rs: Seq<(Seq<u8>, int)>, k: Seq<u8>)
    requires
        !accumulate(rs).dom().contains(k),
    ensures
        values_of(rs, k) == Seq::<int>::empty(),
    decreases rs.len(),
{
    if rs.len() > 0 {
        assert(accumulate(rs).dom().contains(rs.last().0));
        lemma_values_absent(rs.drop_last(), k);
        assert(values_of(rs, k) =~= Seq::<int>::empty());
    }
}

/// Exactness: each key's statistics are precisely the minimum, maximum,
/// sum and count of the values observed for it.
pub proof fn lemma_accumulate_exact(rs: Seq<(Seq<u8>, int)>, k: Seq<u8>)
    requires
        accumulate(rs).dom().contains(k),
    ensures
        values_of(rs, k).len() == accumulate(rs)[k].count,
        accumulate(rs)[k].min == seq_min(values_of(rs, k)),
        accumulate(rs)[k].max == seq_max(values_of(rs, k)),
        accumulate(rs)[k].sum == seq_sum(values_of(rs, k)),
    decreases rs.len(),
{
    if rs.len() > 0 {
        let m = accumulate(rs.drop_last());
        let vs = values_of(rs.drop_last(), k);
        if rs.last().0 == k {
            let v = rs.last().1;
            assert(values_of(rs, k) =~= vs.push(v));
            if m.dom().contains(k) {
                lemma_accumulate_exact(rs.drop_last(), k);
                crate::agg::lemma_accumulate_count(rs.drop_last(), k);
                assert(vs.len() >= 1);
                assert(vs.push(v).drop_last() =~= vs);
                assert(seq_sum(vs.push(v)) == seq_sum(vs) + v);
                assert(accumulate(rs)[k] == stats_add(m[k], v));
            } else {
                lemma_values_absent(rs.drop_last(), k);
                assert(values_of(rs, k) =~= seq![v]);
                assert(seq![v].drop_last() =~= Seq::<int>::empty());
                assert(seq_sum(Seq::<int>::empty()) == 0);
                assert(seq_sum(seq![v]) == v);
                assert(accumulate(rs)[k] == stats_seed(v));
            }
        } else {
            assert(values_of(rs, k) =~= vs);
            assert(accumulate(rs).dom().contains(k));
            assert(m.dom().contains(k));
            lemma_accumulate_exact(rs.drop_last(), k);
            assert(accumulate(rs)[k] == m[k]);
        }
    }
}

/// Every element of a nonempty sequence lies between its minimum and
/// maximum, and the sum lies between `len * min` and `len * max`.
pub proof fn lemma_seq_sum_bounds(vs: Seq<int>)
    requires
        vs.len() >= 1,
    ensures
        seq_min(vs) <= seq_max(vs),
        vs.len() * seq_min(vs) <= seq_sum(vs) <= vs.len() * seq_max(vs),
    decreases vs.len(),
{
    if vs.len() == 1 {
        assert(seq_sum(vs) == seq_sum(vs.drop_last()) + vs.last());
        assert(seq_sum(vs.drop_last()) == 0);
        assert(vs.last() == vs[0]);
    } else {
        lemma_seq_sum_bounds(vs.drop_last());
        let n = vs.drop_last().len() as int;
        let mn = seq_min(vs.drop_last());
        let mx = seq_max(vs.drop_last());
        assert(n * mn <= seq_sum(vs.drop_last()) <= n * mx);
        assert((n + 1) * seq_min(vs) <= seq_sum(vs) <= (n + 1) * seq_max(vs)) by (nonlinear_arith)
            requires
                n >= 1,
                mn <= mx,
                n * mn <= seq_sum(vs.drop_last()) <= n * mx,
                seq_sum(vs) == seq_sum(vs.drop_last()) + vs.last(),
                seq_min(vs) <= mn,
                seq_min(vs) <= vs.last(),
                seq_max(vs) >= mx,
                seq_max(vs) >= vs.last(),
                seq_min(vs) == mn || seq_min(vs) == vs.last(),
                seq_max(vs) == mx || seq_max(vs) == vs.last(),
        ;
    }
}

/// The truncated mean of well-formed statistics lies between the minimum
/// and the maximum.
pub proof fn lemma_mean_in_range(st: SStats)
    requires
        st.count >= 1,
        st.count * st.min <= st.sum <= st.count * st.max,
    ensures
        st.min <= st.sum / (st.count as int) <= st.max,
{
    let c = st.count as int;
    vstd::arithmetic::div_mod::lemma_div_is_ordered(c * st.min, st.sum, c);
    vstd::arithmetic::div_mod::lemma_div_is_ordered(st.sum, c * st.max, c);
    vstd::arithmetic::div_mod::lemma_div_multiples_vanish(st.min, c);
    vstd::arithmetic::div_mod::lemma_div_multiples_vanish(st.max, c);
}

/// For every key of an aggregate, the minimum does not exceed the maximum,
/// both equal the extremes of that key's observed values, and the truncated
/// mean lies between them.
pub proof fn lemma_result_stats_bounds(rs: Seq<(Seq<u8>, int)>, k: Seq<u8>)
    requires
        accumulate(rs).dom().contains(k),
    ensures
        accumulate(rs)[k].min == seq_min(values_of(rs, k)),
        accumulate(rs)[k].max == seq_max(values_of(rs, k)),
        accumulate(rs)[k].min <= accumulate(rs)[k].max,
        accumulate(rs)[k].min <= accumulate(rs)[k].sum / (accumulate(rs)[k].count as int)
            <= accumulate(rs)[k].max,
{
    let st = accumulate(rs)[k];
    lemma_accumulate_exact(rs, k);
    crate::agg::lemma_accumulate_count(rs, k);
    lemma_seq_sum_bounds(values_of(rs, k));
    lemma_mean_in_range(st);
}

} // verus!
