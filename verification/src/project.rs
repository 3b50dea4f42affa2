//! Result projection: a deterministic, key-sorted sequence of entries from
//! a final aggregate, ordered by bytewise lexicographic comparison.
use vstd::prelude::*;
use crate::agg::AggMap;
use crate::agg::all_wf;
use crate::agg::keys_distinct;
use crate::agg::map_of;
use crate::stats::Stats;

verus! {

/// Strict bytewise lexicographic order.
pub open spec fn lex_lt(a: Seq<u8>, b: Seq<u8>) -> bool
    decreases a.len(),
{
    if b.len() == 0 {
        false
    } else if a.len() == 0 {
        true
    } else if a[0] < b[0] {
        true
    } else if a[0] > b[0] {
        false
    } else {
        lex_lt(a.drop_first(), b.drop_first())
    }
}

/// Lexicographic order is total on distinct sequences.
pub proof fn lemma_lex_total(a: Seq<u8>, b: Seq<u8>)
    requires
        a != b,
    ensures
        lex_lt(a, b) || lex_lt(b, a),
    decreases a.len(),
{
    if b.len() == 0 {
        assert(a.len() > 0) by {
            if a.len() == 0 {
                assert(a =~= b);
            }
        }
    } else if a.len() == 0 {
    } else if a[0] < b[0] || a[0] > b[0] {
    } else {
        assert(a.drop_first() != b.drop_first()) by {
            if a.drop_first() == b.drop_first() {
                assert(a.drop_first().len() == a.len() - 1);
                assert(b.drop_first().len() == b.len() - 1);
                assert(a.len() == b.len());
                assert forall|j: int| 0 <= j < a.len() implies a[j] == b[j] by {
                    if j > 0 {
                        assert(a.drop_first()[j - 1] == b.drop_first()[j - 1]);
                    }
                }
                assert(a =~= b);
            }
        }
        lemma_lex_total(a.drop_first(), b.drop_first());
    }
}

/// Lexicographic order is transitive.
pub proof fn lemma_lex_trans(a: Seq<u8>, b: Seq<u8>, c: Seq<u8>)
    requires
        lex_lt(a, b),
        lex_lt(b, c),
    ensures
        lex_lt(a, c),
    decreases a.len(),
{
    if a.len() == 0 {
    } else {
        assert(b.len() > 0);
        assert(c.len() > 0);
        if a[0] == b[0] && b[0] == c[0] {
            lemma_lex_trans(a.drop_first(), b.drop_first(), c.drop_first());
        }
    }
}

/// Skipping a common prefix does not change the comparison.
pub proof fn lemma_lex_skip(a: Seq<u8>, b: Seq<u8>, i: int)
    requires
        0 <= i <= a.len(),
        i <= b.len(),
        forall|j: int| 0 <= j < i ==> a[j] == b[j],
    ensures
        lex_lt(a, b) == lex_lt(a.skip(i), b.skip(i)),
    decreases i,
{
    if i == 0 {
        assert(a.skip(0) =~= a);
        assert(b.skip(0) =~= b);
    } else {
        assert(a[0] == b[0]);
        assert forall|j: int| 0 <= j < i - 1 implies a.drop_first()[j] == b.drop_first()[j] by {
            assert(a.drop_first()[j] == a[j + 1]);
            assert(b.drop_first()[j] == b[j + 1]);
        }
        lemma_lex_skip(a.drop_first(), b.drop_first(), i - 1);
        assert(a.drop_first().skip(i - 1) =~= a.skip(i));
        assert(b.drop_first().skip(i - 1) =~= b.skip(i));
    }
}

/// Compares two byte strings in lexicographic order.
pub fn bytes_lt(a: &[u8], b: &[u8]) -> (r: bool)
    ensures
        r == lex_lt(a@, b@),
{
    let n: usize = if a.len() < b.len() {
        a.len()
    } else {
        b.len()
    };
    let mut i: usize = 0;
    while i < n
        invariant
            n <= a@.len(),
            n <= b@.len(),
            n == if a@.len() < b@.len() {
                a@.len()
            } else {
                b@.len()
            },
            i <= n,
            forall|j: int| 0 <= j < i ==> a@[j] == b@[j],
        decreases n - i,
    {
        if a[i] < b[i] {
            proof {
                lemma_lex_skip(a@, b@, i as int);
                assert(a@.skip(i as int)[0] == a@[i as int]);
                assert(b@.skip(i as int)[0] == b@[i as int]);
            }
            return true;
        }
        if a[i] > b[i] {
            proof {
                lemma_lex_skip(a@, b@, i as int);
                assert(a@.skip(i as int)[0] == a@[i as int]);
                assert(b@.skip(i as int)[0] == b@[i as int]);
            }
            return false;
        }
        i += 1;
    }
    proof {
        lemma_lex_skip(a@, b@, n as int);
        if a@.len() == n {
            assert(a@.skip(n as int) =~= Seq::<u8>::empty());
        }
        if b@.len() == n {
            assert(b@.skip(n as int) =~= Seq::<u8>::empty());
        }
    }
    a.len() < b.len()
}

/// Entries are in strictly increasing key order.
pub open spec fn sorted_by_key(es: Seq<(Vec<u8>, Stats)>) -> bool {
    forall|i: int, j: int|
        #![trigger es[i], es[j]]
        0 <= i < j < es.len() ==> lex_lt(es[i].0@, es[j].0@)
}

/// Inserting a fresh key into an entry sequence inserts into its map.
pub proof fn lemma_map_of_insert(es: Seq<(Vec<u8>, Stats)>, p: int, e: (Vec<u8>, Stats))
    requires
        keys_distinct(es),
        0 <= p <= es.len(),
        forall|i: int| #![trigger es[i]] 0 <= i < es.len() ==> es[i].0@ != e.0@,
    ensures
        map_of(es.insert(p, e)) == map_of(es).insert(e.0@, e.1@),
    decreases es.len(),
{
    let k = e.0@;
    es.insert_ensures(p, e);
    if p == es.len() {
        assert(es.insert(p, e) =~= es.push(e));
        assert(es.push(e).drop_last() =~= es);
    } else {
        crate::agg::lemma_sub_distinct(es);
        assert(es.insert(p, e).drop_last() =~= es.drop_last().insert(p, e));
        assert forall|i: int| #![trigger es.drop_last()[i]]
            0 <= i < es.drop_last().len() implies es.drop_last()[i].0@ != k by {
            assert(es.drop_last()[i] == es[i]);
        }
        es.drop_last().insert_ensures(p, e);
        lemma_map_of_insert(es.drop_last(), p, e);
        assert(es.insert(p, e).last() == es.last());
        let lk = es.last().0@;
        let lv = es.last().1@;
        assert(es[es.len() - 1].0@ != k);
        assert(map_of(es.drop_last()).insert(k, e.1@).insert(lk, lv) =~= map_of(
            es.drop_last(),
        ).insert(lk, lv).insert(k, e.1@));
    }
}

impl AggMap {
    /// The Result Projection: the aggregate's entries sorted by key, a
    /// deterministic order for reproducible output. The map they denote is
    /// unchanged.
    pub fn into_sorted(&self) -> (r: Vec<(Vec<u8>, Stats)>)
        requires
            self.wf(),
        ensures
            map_of(r@) == self@,
            keys_distinct(r@),
            all_wf(r@),
            sorted_by_key(r@),
            r@.len() == self.entries@.len(),
    {
        let mut out: Vec<(Vec<u8>, Stats)> = Vec::new();
        let n = self.entries.len();
        let mut i: usize = 0;
        proof {
            assert(self.entries@.take(0) =~= Seq::<(Vec<u8>, Stats)>::empty());
        }
        while i < n
            invariant
                i <= n == self.entries@.len(),
                self.wf(),
                out@.len() == i,
                map_of(out@) == map_of(self.entries@.take(i as int)),
                keys_distinct(out@),
                all_wf(out@),
                sorted_by_key(out@),
                forall|a: int|
                    #![trigger out@[a]]
                    0 <= a < out@.len() ==> exists|b: int|
                        0 <= b < i && out@[a].0@ == (#[trigger] self.entries@[b]).0@,
            decreases n - i,
        {
            let ghost k = self.entries@[i as int].0@;
            proof {
                assert forall|a: int| #![trigger out@[a]] 0 <= a < out@.len() implies out@[a].0@
                    != k by {
                    let b = choose|b: int|
                        0 <= b < i && out@[a].0@ == (#[trigger] self.entries@[b]).0@;
                    assert(self.entries@[b].0@ != self.entries@[i as int].0@);
                }
            }
            let key = vstd::slice::slice_to_vec(self.entries[i].0.as_slice());
            let st = self.entries[i].1.clone();
            let mut p: usize = 0;
            while p < out.len() && bytes_lt(out[p].0.as_slice(), key.as_slice())
                invariant
                    p <= out@.len(),
                    key@ == k,
                    forall|j: int| #![trigger out@[j]] 0 <= j < p ==> lex_lt(out@[j].0@, k),
                decreases out@.len() - p,
            {
                p += 1;
            }
            let ghost out0 = out@;
            proof {
                es_insert_sorted_facts(out0, p as int, k);
            }
            out.insert(p, (key, st));
            proof {
                assert(out@ == out0.insert(p as int, (out@[p as int].0, out@[p as int].1)));
                assert(out@[p as int].0@ == k);
                out0.insert_ensures(p as int, out@[p as int]);
                lemma_map_of_insert(out0, p as int, out@[p as int]);
                assert(self.entries@.take(i + 1).drop_last() =~= self.entries@.take(i as int));
                assert(self.entries@.take(i + 1).last() == self.entries@[i as int]);
                assert(map_of(out@) == map_of(self.entries@.take(i + 1)));
                assert forall|a: int, b: int|
                    #![trigger out@[a], out@[b]]
                    0 <= a < b < out@.len() implies out@[a].0@ != out@[b].0@ && lex_lt(
                    out@[a].0@,
                    out@[b].0@,
                ) by {
                    insert_pair_facts(out0, p as int, out@[p as int], a, b);
                }
                assert forall|a: int| 0 <= a < out@.len() implies stats_wf_at(out@, a) by {
                    if a < p {
                        assert(out@[a] == out0[a]);
                    } else if a > p {
                        assert(out@[a] == out0[a - 1]);
                    }
                }
                assert forall|a: int|
                    #![trigger out@[a]]
                    0 <= a < out@.len() implies exists|b: int|
                    0 <= b < i + 1 && out@[a].0@ == (#[trigger] self.entries@[b]).0@ by {
                    if a < p {
                        assert(out@[a] == out0[a]);
                        let b = choose|b: int|
                            0 <= b < i && out0[a].0@ == (#[trigger] self.entries@[b]).0@;
                        assert(out@[a].0@ == self.entries@[b].0@);
                    } else if a > p {
                        assert(out@[a] == out0[a - 1]);
                        let b = choose|b: int|
                            0 <= b < i && out0[a - 1].0@ == (#[trigger] self.entries@[b]).0@;
                        assert(out@[a].0@ == self.entries@[b].0@);
                    } else {
                        assert(out@[a].0@ == self.entries@[i as int].0@);
                    }
                }
            }
            i += 1;
        }
        proof {
            assert(self.entries@.take(n as int) =~= self.entries@);
        }
        out
    }
}

/// Well-formedness of the statistics of entry `a`.
pub open spec fn stats_wf_at(es: Seq<(Vec<u8>, Stats)>, a: int) -> bool {
    crate::stats::stats_wf(es[a].1@)
}

/// Facts needed before inserting key `k` at position `p` of a sorted,
/// distinct entry sequence with `k` fresh.
proof fn es_insert_sorted_facts(es: Seq<(Vec<u8>, Stats)>, p: int, k: Seq<u8>)
    requires
        0 <= p <= es.len(),
        sorted_by_key(es),
        forall|j: int| #![trigger es[j]] 0 <= j < p ==> lex_lt(es[j].0@, k),
        forall|j: int| #![trigger es[j]] 0 <= j < es.len() ==> es[j].0@ != k,
        p < es.len() ==> !lex_lt(es[p].0@, k),
    ensures
        forall|j: int| #![trigger es[j]] p <= j < es.len() ==> lex_lt(k, es[j].0@),
{
    assert forall|j: int| #![trigger es[j]] p <= j < es.len() implies lex_lt(k, es[j].0@) by {
        lemma_lex_total(es[p].0@, k);
        if j > p {
            lemma_lex_trans(k, es[p].0@, es[j].0@);
        }
    }
}

/// Order and distinctness of a pair of entries after an insertion.
proof fn insert_pair_facts(es: Seq<(Vec<u8>, Stats)>, p: int, e: (Vec<u8>, Stats), a: int, b: int)
    requires
        0 <= p <= es.len(),
        sorted_by_key(es),
        keys_distinct(es),
        forall|j: int| #![trigger es[j]] 0 <= j < p ==> lex_lt(es[j].0@, e.0@),
        forall|j: int| #![trigger es[j]] p <= j < es.len() ==> lex_lt(e.0@, es[j].0@),
        forall|j: int| #![trigger es[j]] 0 <= j < es.len() ==> es[j].0@ != e.0@,
        0 <= a < b < es.len() + 1,
    ensures
        es.insert(p, e)[a].0@ != es.insert(p, e)[b].0@,
        lex_lt(es.insert(p, e)[a].0@, es.insert(p, e)[b].0@),
{
    es.insert_ensures(p, e);
    let x = es.insert(p, e)[a];
    let y = es.insert(p, e)[b];
    if a < p {
        assert(x == es[a]);
    } else if a > p {
        assert(x == es[a - 1]);
    }
    if b < p {
        assert(y == es[b]);
    } else if b > p {
        assert(y == es[b - 1]);
    }
    if a == p {
        assert(lex_lt(x.0@, y.0@));
    } else if b == p {
        assert(lex_lt(x.0@, y.0@));
    } else {
        assert(lex_lt(x.0@, y.0@));
    }
    if lex_lt(x.0@, y.0@) && x.0@ == y.0@ {
        lemma_lex_total(x.0@, x.0@);
    }
    assert(x.0@ != y.0@) by {
        if x.0@ == y.0@ {
            lemma_lex_irrefl(x.0@);
        }
    }
}

/// Lexicographic order is irreflexive.
pub proof fn lemma_lex_irrefl(a: Seq<u8>)
    ensures
        !lex_lt(a, a),
    decreases a.len(),
{
    if a.len() > 0 {
        lemma_lex_irrefl(a.drop_first());
    }
}

} // verus!
