//! The aggregate map: per-key statistics accumulated over the lines of one
//! partition, and the merge of two such maps. The model is a `Map` from key
//! byte sequences to `SStats`, built by folding the well-formed records of
//! the partition's lines in file order.
use vstd::prelude::*;
use crate::parse::NEWLINE;
use crate::parse::find_byte;
use crate::parse::first_pos;
use crate::parse::lemma_first_pos_props;
use crate::parse::line_key;
use crate::parse::line_val;
use crate::parse::line_valid;
use crate::parse::lemma_line_valid_len;
use crate::parse::parse_line;
use crate::stats::SStats;
use crate::stats::Stats;
use crate::stats::stats_add;
use crate::stats::stats_seed;
use crate::stats::stats_union;
use crate::stats::stats_wf;
use crate::MAX_ABS;

verus! {

/// The lines of a buffer: maximal runs split at each `NEWLINE` byte, the
/// final line with or without its terminator. An empty buffer has no lines.
pub open spec fn lines_of(s: Seq<u8>) -> Seq<Seq<u8>>
    decreases s.len(),
{
    if s.len() == 0 {
        Seq::empty()
    } else {
        let p = first_pos(s, NEWLINE);
        if 0 <= p && p < s.len() {
            seq![s.take(p)] + lines_of(s.skip(p + 1))
        } else {
            seq![s]
        }
    }
}

/// The records of a sequence of lines: key and scaled value of each valid
/// line, in order; malformed lines contribute nothing.
pub open spec fn records_of(ls: Seq<Seq<u8>>) -> Seq<(Seq<u8>, int)>
    decreases ls.len(),
{
    if ls.len() == 0 {
        Seq::empty()
    } else {
        records_of(ls.drop_last()) + (if line_valid(ls.last()) {
            seq![(line_key(ls.last()), line_val(ls.last()))]
        } else {
            Seq::empty()
        })
    }
}

/// The number of malformed lines.
pub open spec fn bad_of(ls: Seq<Seq<u8>>) -> nat
    decreases ls.len(),
{
    if ls.len() == 0 {
        0
    } else {
        bad_of(ls.drop_last()) + (if line_valid(ls.last()) {
            0nat
        } else {
            1nat
        })
    }
}

/// A buffer has at most as many lines as bytes.
pub proof fn lemma_lines_count(s: Seq<u8>)
    ensures
        lines_of(s).len() <= s.len(),
    decreases s.len(),
{
    if s.len() > 0 {
        lemma_first_pos_props(s, NEWLINE);
        let p = first_pos(s, NEWLINE);
        if 0 <= p && p < s.len() {
            lemma_lines_count(s.skip(p + 1));
        }
    }
}

/// Every line is either a record or malformed.
pub proof fn lemma_records_bad_len(ls: Seq<Seq<u8>>)
    ensures
        records_of(ls).len() + bad_of(ls) == ls.len(),
    decreases ls.len(),
{
    if ls.len() > 0 {
        lemma_records_bad_len(ls.drop_last());
    }
}

pub proof fn lemma_records_of_append(a: Seq<Seq<u8>>, b: Seq<Seq<u8>>)
    ensures
        records_of(a + b) == records_of(a) + records_of(b),
        bad_of(a + b) == bad_of(a) + bad_of(b),
    decreases b.len(),
{
    if b.len() == 0 {
        assert(a + b =~= a);
        assert(records_of(a) + records_of(b) =~= records_of(a));
    } else {
        assert((a + b).drop_last() =~= a + b.drop_last());
        lemma_records_of_append(a, b.drop_last());
        assert((a + b).last() == b.last());
        assert(records_of(a) + records_of(b.drop_last()) + (if line_valid(b.last()) {
            seq![(line_key(b.last()), line_val(b.last()))]
        } else {
            Seq::<(Seq<u8>, int)>::empty()
        }) =~= records_of(a) + records_of(b));
    }
}

/// One accumulation step: seed the key or fold the value in.
pub open spec fn upsert(m: Map<Seq<u8>, SStats>, k: Seq<u8>, v: int) -> Map<Seq<u8>, SStats> {
    if m.dom().contains(k) {
        m.insert(k, stats_add(m[k], v))
    } else {
        m.insert(k, stats_seed(v))
    }
}

/// The aggregate of a record sequence, folded in order.
pub open spec fn accumulate(rs: Seq<(Seq<u8>, int)>) -> Map<Seq<u8>, SStats>
    decreases rs.len(),
{
    if rs.len() == 0 {
        Map::empty()
    } else {
        upsert(accumulate(rs.drop_last()), rs.last().0, rs.last().1)
    }
}

/// The merge of two aggregates: union of the key sets, `stats_union` where
/// both have the key, the lone statistics where only one has it.
pub open spec fn merge_maps(a: Map<Seq<u8>, SStats>, b: Map<Seq<u8>, SStats>) -> Map<
    Seq<u8>,
    SStats,
> {
    Map::new(
        |k: Seq<u8>| a.dom().contains(k) || b.dom().contains(k),
        |k: Seq<u8>|
            if a.dom().contains(k) && b.dom().contains(k) {
                stats_union(a[k], b[k])
            } else if a.dom().contains(k) {
                a[k]
            } else {
                b[k]
            },
    )
}

/// A key's count never exceeds the number of records.
pub proof fn lemma_accumulate_count(rs: Seq<(Seq<u8>, int)>, k: Seq<u8>)
    requires
        accumulate(rs).dom().contains(k),
    ensures
        1 <= accumulate(rs)[k].count <= rs.len(),
    decreases rs.len(),
{
    if rs.len() > 0 {
        let m = accumulate(rs.drop_last());
        if rs.last().0 == k {
            if m.dom().contains(k) {
                lemma_accumulate_count(rs.drop_last(), k);
            }
        } else {
            lemma_accumulate_count(rs.drop_last(), k);
        }
    }
}

/// Every statistics record in an aggregate of in-range values is well formed.
pub proof fn lemma_accumulate_wf(rs: Seq<(Seq<u8>, int)>, k: Seq<u8>)
    requires
        forall|i: int| 0 <= i < rs.len() ==> -MAX_ABS < #[trigger] rs[i].1 < MAX_ABS,
        accumulate(rs).dom().contains(k),
    ensures
        stats_wf(accumulate(rs)[k]),
    decreases rs.len(),
{
    if rs.len() > 0 {
        let m = accumulate(rs.drop_last());
        assert(forall|i: int|
            0 <= i < rs.drop_last().len() ==> -MAX_ABS < #[trigger] rs.drop_last()[i].1 < MAX_ABS);
        if rs.last().0 == k {
            if m.dom().contains(k) {
                lemma_accumulate_wf(rs.drop_last(), k);
                crate::stats::lemma_add_wf(m[k], rs.last().1);
            } else {
                crate::stats::lemma_seed_wf(rs.last().1);
            }
        } else {
            lemma_accumulate_wf(rs.drop_last(), k);
        }
    }
}


/// No two entries carry the same key.
pub open spec fn keys_distinct(es: Seq<(Vec<u8>, Stats)>) -> bool {
    forall|i: int, j: int|
        #![trigger es[i], es[j]]
        0 <= i < j < es.len() ==> es[i].0@ != es[j].0@
}

/// Every entry's statistics record is well formed.
pub open spec fn all_wf(es: Seq<(Vec<u8>, Stats)>) -> bool {
    forall|i: int| 0 <= i < es.len() ==> stats_wf(#[trigger] es[i].1@)
}

/// The map an entry sequence denotes.
pub open spec fn map_of(es: Seq<(Vec<u8>, Stats)>) -> Map<Seq<u8>, SStats>
    decreases es.len(),
{
    if es.len() == 0 {
        Map::empty()
    } else {
        map_of(es.drop_last()).insert(es.last().0@, es.last().1@)
    }
}

pub proof fn lemma_sub_distinct(es: Seq<(Vec<u8>, Stats)>)
    requires
        keys_distinct(es),
        es.len() > 0,
    ensures
        keys_distinct(es.drop_last()),
{
    assert forall|i: int, j: int|
        #![trigger es.drop_last()[i], es.drop_last()[j]]
        0 <= i < j < es.drop_last().len() implies es.drop_last()[i].0@ != es.drop_last()[j].0@ by {
        assert(es.drop_last()[i] == es[i]);
        assert(es.drop_last()[j] == es[j]);
    }
}

pub proof fn lemma_map_of_contains(es: Seq<(Vec<u8>, Stats)>, i: int)
    requires
        0 <= i < es.len(),
    ensures
        map_of(es).dom().contains(es[i].0@),
    decreases es.len(),
{
    if i < es.len() - 1 {
        lemma_map_of_contains(es.drop_last(), i);
        assert(es.drop_last()[i] == es[i]);
    }
}

pub proof fn lemma_map_of_absent(es: Seq<(Vec<u8>, Stats)>, k: Seq<u8>)
    requires
        forall|i: int| #![trigger es[i]] 0 <= i < es.len() ==> es[i].0@ != k,
    ensures
        !map_of(es).dom().contains(k),
    decreases es.len(),
{
    if es.len() > 0 {
        assert forall|i: int| #![trigger es.drop_last()[i]]
            0 <= i < es.drop_last().len() implies es.drop_last()[i].0@ != k by {
            assert(es.drop_last()[i] == es[i]);
        }
        lemma_map_of_absent(es.drop_last(), k);
        assert(es[es.len() - 1].0@ != k);
    }
}

pub proof fn lemma_map_of_index(es: Seq<(Vec<u8>, Stats)>, i: int)
    requires
        keys_distinct(es),
        0 <= i < es.len(),
    ensures
        map_of(es).dom().contains(es[i].0@),
        map_of(es)[es[i].0@] == es[i].1@,
    decreases es.len(),
{
    lemma_map_of_contains(es, i);
    if i < es.len() - 1 {
        lemma_sub_distinct(es);
        lemma_map_of_index(es.drop_last(), i);
        assert(es.drop_last()[i] == es[i]);
        assert(es[i].0@ != es[es.len() - 1].0@);
    }
}

/// Replacing the statistics of entry `i`, key unchanged, inserts into the map.
pub proof fn lemma_map_of_update(es: Seq<(Vec<u8>, Stats)>, i: int, e: (Vec<u8>, Stats))
    requires
        keys_distinct(es),
        0 <= i < es.len(),
        e.0@ == es[i].0@,
    ensures
        map_of(es.update(i, e)) == map_of(es).insert(e.0@, e.1@),
    decreases es.len(),
{
    let k = e.0@;
    if i == es.len() - 1 {
        assert(es.update(i, e).drop_last() =~= es.drop_last());
        assert(es.update(i, e).last() == e);
        assert(map_of(es).insert(k, e.1@) =~= map_of(es.drop_last()).insert(k, e.1@));
    } else {
        lemma_sub_distinct(es);
        assert(es.update(i, e).drop_last() =~= es.drop_last().update(i, e));
        assert(es.drop_last()[i] == es[i]);
        lemma_map_of_update(es.drop_last(), i, e);
        assert(es.update(i, e).last() == es.last());
        let lk = es.last().0@;
        let lv = es.last().1@;
        assert(es[i].0@ != es[es.len() - 1].0@);
        assert(map_of(es.drop_last()).insert(k, e.1@).insert(lk, lv) =~= map_of(
            es.drop_last(),
        ).insert(lk, lv).insert(k, e.1@));
    }
}

/// Copies `buf[lo..hi)` into an owned vector.
pub fn copy_range(buf: &[u8], lo: usize, hi: usize) -> (r: Vec<u8>)
    requires
        lo <= hi <= buf.len(),
    ensures
        r@ == buf@.subrange(lo as int, hi as int),
{
    let s = vstd::slice::slice_subrange(buf, lo, hi);
    vstd::slice::slice_to_vec(s)
}

/// Whether `key` equals the bytes `buf[lo..hi)`.
pub fn keys_match(key: &Vec<u8>, buf: &[u8], lo: usize, hi: usize) -> (r: bool)
    requires
        lo <= hi <= buf.len(),
    ensures
        r == (key@ == buf@.subrange(lo as int, hi as int)),
{
    let ghost s = buf@.subrange(lo as int, hi as int);
    if key.len() != hi - lo {
        proof {
            assert(key@ != s);
        }
        return false;
    }
    let mut i: usize = 0;
    while i < key.len()
        invariant
            key@.len() == hi - lo,
            lo <= hi <= buf.len(),
            i <= key.len(),
            s == buf@.subrange(lo as int, hi as int),
            forall|j: int| 0 <= j < i ==> key@[j] == s[j],
        decreases key.len() - i,
    {
        if key[i] != buf[lo + i] {
            proof {
                assert(s[i as int] == buf@[lo + i]);
                assert(key@ != s);
            }
            return false;
        }
        proof {
            assert(s[i as int] == buf@[lo + i]);
        }
        i += 1;
    }
    proof {
        assert(key@ =~= s);
    }
    true
}

/// An aggregate map: a vector of key/statistics entries with unique keys.
pub struct AggMap {
    pub entries: Vec<(Vec<u8>, Stats)>,
}

impl View for AggMap {
    type V = Map<Seq<u8>, SStats>;

    open spec fn view(&self) -> Map<Seq<u8>, SStats> {
        map_of(self.entries@)
    }
}

impl AggMap {
    pub open spec fn wf(self) -> bool {
        keys_distinct(self.entries@) && all_wf(self.entries@)
    }

    /// The empty aggregate.
    pub fn new() -> (r: AggMap)
        ensures
            r@ == Map::<Seq<u8>, SStats>::empty(),
            r.wf(),
            r.entries@.len() == 0,
    {
        AggMap { entries: Vec::new() }
    }

    /// Index of the entry whose key is `buf[lo..hi)`, if any.
    fn find(&self, buf: &[u8], lo: usize, hi: usize) -> (r: Option<usize>)
        requires
            lo <= hi <= buf.len(),
        ensures
            match r {
                Some(i) => i < self.entries@.len() && self.entries@[i as int].0@ == buf@.subrange(
                    lo as int,
                    hi as int,
                ),
                None => forall|i: int|
                    #![trigger self.entries@[i]]
                    0 <= i < self.entries@.len() ==> self.entries@[i].0@ != buf@.subrange(
                        lo as int,
                        hi as int,
                    ),
            },
    {
        let mut i: usize = 0;
        while i < self.entries.len()
            invariant
                lo <= hi <= buf.len(),
                i <= self.entries@.len(),
                forall|j: int|
                    #![trigger self.entries@[j]]
                    0 <= j < i ==> self.entries@[j].0@ != buf@.subrange(lo as int, hi as int),
            decreases self.entries@.len() - i,
        {
            if keys_match(&self.entries[i].0, buf, lo, hi) {
                return Some(i);
            }
            i += 1;
        }
        None
    }

    /// Applies one record: the key bytes `buf[klo..khi)` observed with
    /// scaled value `v`.
    pub fn record(&mut self, buf: &[u8], klo: usize, khi: usize, v: i64)
        requires
            old(self).wf(),
            klo <= khi <= buf.len(),
            -MAX_ABS < v < MAX_ABS,
            old(self)@.dom().contains(buf@.subrange(klo as int, khi as int)) ==> old(self)@[
                buf@.subrange(klo as int, khi as int)
            ].count + 1 <= u64::MAX,
        ensures
            final(self)@ == upsert(old(self)@, buf@.subrange(klo as int, khi as int), v as int),
            final(self).wf(),
    {
        let ghost k = buf@.subrange(klo as int, khi as int);
        match self.find(buf, klo, khi) {
            Some(i) => {
                proof {
                    lemma_map_of_index(self.entries@, i as int);
                }
                self.entries[i].1.update(v);
                proof {
                    assert(self.entries@ == old(self).entries@.update(
                        i as int,
                        self.entries@[i as int],
                    ));
                    lemma_map_of_update(old(self).entries@, i as int, self.entries@[i as int]);
                    assert forall|a: int, b: int|
                        #![trigger self.entries@[a], self.entries@[b]]
                        0 <= a < b < self.entries@.len() implies self.entries@[a].0@
                        != self.entries@[b].0@ by {
                        assert(old(self).entries@[a].0@ != old(self).entries@[b].0@);
                    }
                    assert forall|a: int| 0 <= a < self.entries@.len() implies stats_wf(
                        #[trigger] self.entries@[a].1@,
                    ) by {
                        if a != i {
                            assert(self.entries@[a] == old(self).entries@[a]);
                        }
                    }
                }
            },
            None => {
                proof {
                    lemma_map_of_absent(self.entries@, k);
                }
                let key = copy_range(buf, klo, khi);
                let st = Stats::new(v);
                self.entries.push((key, st));
                proof {
                    assert(self.entries@.drop_last() =~= old(self).entries@);
                    assert forall|a: int, b: int|
                        #![trigger self.entries@[a], self.entries@[b]]
                        0 <= a < b < self.entries@.len() implies self.entries@[a].0@
                        != self.entries@[b].0@ by {
                        if b < self.entries@.len() - 1 {
                            assert(old(self).entries@[a].0@ != old(self).entries@[b].0@);
                        } else {
                            assert(old(self).entries@[a].0@ != k);
                        }
                    }
                    assert forall|a: int| 0 <= a < self.entries@.len() implies stats_wf(
                        #[trigger] self.entries@[a].1@,
                    ) by {
                        if a < self.entries@.len() - 1 {
                            assert(self.entries@[a] == old(self).entries@[a]);
                        }
                    }
                }
            },
        }
    }
}

/// Merging the empty aggregate changes nothing.
pub proof fn lemma_merge_maps_empty(a: Map<Seq<u8>, SStats>)
    ensures
        merge_maps(a, Map::empty()) == a,
{
    assert(merge_maps(a, Map::empty()) =~= a);
}

/// Folding one more key into the right operand of a merge.
pub proof fn lemma_merge_maps_step(a: Map<Seq<u8>, SStats>, m: Map<Seq<u8>, SStats>, k: Seq<u8>, s: SStats)
    requires
        !m.dom().contains(k),
    ensures
        a.dom().contains(k) ==> merge_maps(a, m.insert(k, s)) == merge_maps(a, m).insert(
            k,
            stats_union(a[k], s),
        ),
        !a.dom().contains(k) ==> merge_maps(a, m.insert(k, s)) == merge_maps(a, m).insert(k, s),
{
    if a.dom().contains(k) {
        assert(merge_maps(a, m.insert(k, s)) =~= merge_maps(a, m).insert(k, stats_union(a[k], s)));
    } else {
        assert(merge_maps(a, m.insert(k, s)) =~= merge_maps(a, m).insert(k, s));
    }
}

impl AggMap {
    /// Index of the entry whose key equals `key`, if any.
    fn find_vec(&self, key: &Vec<u8>) -> (r: Option<usize>)
        ensures
            match r {
                Some(i) => i < self.entries@.len() && self.entries@[i as int].0@ == key@,
                None => forall|i: int|
                    #![trigger self.entries@[i]]
                    0 <= i < self.entries@.len() ==> self.entries@[i].0@ != key@,
            },
    {
        let ks = key.as_slice();
        proof {
            assert(ks@.subrange(0, ks@.len() as int) =~= key@);
        }
        self.find(ks, 0, ks.len())
    }

    /// Merges another aggregate into this one: afterwards this one holds
    /// every key of either, with `stats_union` where both held it.
    pub fn merge(&mut self, other: &AggMap)
        requires
            old(self).wf(),
            other.wf(),
            forall|k: Seq<u8>|
                #![trigger other@[k]]
                old(self)@.dom().contains(k) && other@.dom().contains(k) ==> old(self)@[k].count
                    + other@[k].count <= u64::MAX,
        ensures
            final(self)@ == merge_maps(old(self)@, other@),
            final(self).wf(),
    {
        let ghost a0 = self@;
        proof {
            assert(other.entries@.take(0) =~= Seq::empty());
            lemma_merge_maps_empty(a0);
        }
        let n = other.entries.len();
        let mut j: usize = 0;
        while j < n
            invariant
                j <= n == other.entries@.len(),
                self.wf(),
                other.wf(),
                self@ == merge_maps(a0, map_of(other.entries@.take(j as int))),
                forall|k: Seq<u8>|
                    #![trigger other@[k]]
                    a0.dom().contains(k) && other@.dom().contains(k) ==> a0[k].count
                        + other@[k].count <= u64::MAX,
            decreases n - j,
        {
            let ghost mj = map_of(other.entries@.take(j as int));
            let ghost ok = other.entries@[j as int].0@;
            let ghost ov = other.entries@[j as int].1@;
            proof {
                lemma_map_of_index(other.entries@, j as int);
                assert forall|i: int|
                    #![trigger other.entries@.take(j as int)[i]]
                    0 <= i < j implies other.entries@.take(j as int)[i].0@ != ok by {
                    assert(other.entries@.take(j as int)[i] == other.entries@[i]);
                }
                lemma_map_of_absent(other.entries@.take(j as int), ok);
                assert(other.entries@.take(j + 1).drop_last() =~= other.entries@.take(j as int));
                assert(other.entries@.take(j + 1).last() == other.entries@[j as int]);
                lemma_merge_maps_step(a0, mj, ok, ov);
            }
            match self.find_vec(&other.entries[j].0) {
                Some(i) => {
                    proof {
                        lemma_map_of_index(self.entries@, i as int);
                        assert(self@.dom().contains(ok));
                        assert(a0.dom().contains(ok));
                        assert(self@[ok] == a0[ok]);
                        assert(other@.dom().contains(ok) && other@[ok] == ov);
                        assert(a0[ok].count + other@[ok].count <= u64::MAX);
                    }
                    let ghost before = self.entries@;
                    self.entries[i].1.merge(&other.entries[j].1);
                    proof {
                        assert(self.entries@ == before.update(i as int, self.entries@[i as int]));
                        lemma_map_of_update(before, i as int, self.entries@[i as int]);
                        assert forall|a: int, b: int|
                            #![trigger self.entries@[a], self.entries@[b]]
                            0 <= a < b < self.entries@.len() implies self.entries@[a].0@
                            != self.entries@[b].0@ by {
                            assert(before[a].0@ != before[b].0@);
                        }
                        assert forall|a: int| 0 <= a < self.entries@.len() implies stats_wf(
                            #[trigger] self.entries@[a].1@,
                        ) by {
                            if a != i {
                                assert(self.entries@[a] == before[a]);
                            }
                        }
                        assert(self@ == merge_maps(a0, map_of(other.entries@.take(j + 1))));
                    }
                },
                None => {
                    proof {
                        lemma_map_of_absent(self.entries@, ok);
                        assert(!self@.dom().contains(ok));
                        assert(!a0.dom().contains(ok));
                    }
                    let okey = other.entries[j].0.as_slice();
                    let key = vstd::slice::slice_to_vec(okey);
                    let st = other.entries[j].1.clone();
                    let ghost before = self.entries@;
                    self.entries.push((key, st));
                    proof {
                        assert(self.entries@.drop_last() =~= before);
                        assert forall|a: int, b: int|
                            #![trigger self.entries@[a], self.entries@[b]]
                            0 <= a < b < self.entries@.len() implies self.entries@[a].0@
                            != self.entries@[b].0@ by {
                            if b < self.entries@.len() - 1 {
                                assert(before[a].0@ != before[b].0@);
                            } else {
                                assert(before[a].0@ != ok);
                            }
                        }
                        assert forall|a: int| 0 <= a < self.entries@.len() implies stats_wf(
                            #[trigger] self.entries@[a].1@,
                        ) by {
                            if a < self.entries@.len() - 1 {
                                assert(self.entries@[a] == before[a]);
                            }
                        }
                        assert(self@ == merge_maps(a0, map_of(other.entries@.take(j + 1))));
                    }
                },
            }
            j += 1;
        }
        proof {
            assert(other.entries@.take(n as int) =~= other.entries@);
        }
    }
}

impl AggMap {
    /// The Local Accumulator: folds every record of `buf[lo..hi)` into a
    /// fresh aggregate, in file order, and counts the malformed lines.
    pub fn accumulate_range(buf: &[u8], lo: usize, hi: usize) -> (r: (AggMap, usize))
        requires
            lo <= hi <= buf.len(),
        ensures
            r.0@ == accumulate(records_of(lines_of(buf@.subrange(lo as int, hi as int)))),
            r.0.wf(),
            r.1 == bad_of(lines_of(buf@.subrange(lo as int, hi as int))),
    {
        let ghost sub = buf@.subrange(lo as int, hi as int);
        let mut map = AggMap::new();
        let mut bad: usize = 0;
        let mut cur: usize = lo;
        let ghost mut done: Seq<Seq<u8>> = Seq::empty();
        proof {
            assert(sub.skip(0) =~= sub);
            assert(done + lines_of(sub) =~= lines_of(sub));
            assert(records_of(done) =~= Seq::<(Seq<u8>, int)>::empty());
        }
        while cur < hi
            invariant
                lo <= cur <= hi <= buf.len(),
                sub == buf@.subrange(lo as int, hi as int),
                lines_of(sub) == done + lines_of(sub.skip(cur - lo)),
                map@ == accumulate(records_of(done)),
                map.wf(),
                bad == bad_of(done),
                done.len() + records_of(done).len() <= cur - lo,
            decreases hi - cur,
        {
            let ghost suffix = sub.skip(cur - lo);
            let p = find_byte(buf, cur, hi, NEWLINE);
            let ghost line = buf@.subrange(cur as int, p as int);
            let next: usize = if p < hi {
                p + 1
            } else {
                hi
            };
            proof {
                assert(suffix =~= buf@.subrange(cur as int, hi as int));
                assert(line =~= suffix.take(p - cur));
                if p < hi {
                    assert(suffix.skip(p - cur + 1) =~= sub.skip(next - lo));
                    assert(lines_of(suffix) == seq![line] + lines_of(sub.skip(next - lo)));
                } else {
                    assert(suffix.len() > 0);
                    assert(line =~= suffix);
                    assert(lines_of(suffix) == seq![line]);
                    assert(sub.skip(next - lo) =~= Seq::<u8>::empty());
                }
            }
            let res = parse_line(buf, cur, p);
            let ghost done2 = done.push(line);
            proof {
                assert(done2.drop_last() =~= done);
                assert(done + lines_of(suffix) =~= done2 + lines_of(sub.skip(next - lo)));
            }
            match res {
                Some((k, v)) => {
                    let ghost rs = records_of(done);
                    proof {
                        lemma_line_valid_len(line);
                        assert(records_of(done2) =~= rs.push((line_key(line), line_val(line))));
                        lemma_records_bad_len(done);
                        if accumulate(rs).dom().contains(line_key(line)) {
                            lemma_accumulate_count(rs, line_key(line));
                            assert(accumulate(rs)[line_key(line)].count + 1 <= u64::MAX);
                        }
                    }
                    map.record(buf, cur, k, v);
                    proof {
                        assert(records_of(done2).drop_last() =~= rs);
                        assert(map@ == accumulate(records_of(done2)));
                    }
                },
                None => {
                    proof {
                        lemma_records_bad_len(done);
                        assert(records_of(done2) =~= records_of(done));
                    }
                    bad = bad + 1;
                },
            }
            proof {
                done = done2;
            }
            cur = next;
        }
        proof {
            assert(sub.skip(hi - lo) =~= Seq::<u8>::empty());
            assert(done + lines_of(Seq::<u8>::empty()) =~= done);
            assert(lines_of(sub) == done);
        }
        (map, bad)
    }
}
} // verus!
