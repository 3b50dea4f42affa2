//! The partition splitter: divides a buffer into contiguous, line-aligned
//! byte ranges, so that independent accumulation over each range sees only
//! whole lines.
use vstd::prelude::*;
use crate::agg::lines_of;
use crate::parse::NEWLINE;
use crate::parse::first_pos;
use crate::parse::lemma_first_pos_props;

verus! {

/// Ranges are adjacent and begin at offset 0.
pub open spec fn contiguous(ranges: Seq<(usize, usize)>) -> bool {
    &&& (forall|i: int| #![trigger ranges[i]] 0 <= i < ranges.len() ==> ranges[i].0 <= ranges[i].1)
    &&& (forall|i: int|
        #![trigger ranges[i]]
        0 <= i < ranges.len() - 1 ==> ranges[i].1 == ranges[i + 1].0)
    &&& (ranges.len() > 0 ==> ranges[0].0 == 0)
}

/// A well-formed partition of `s`: contiguous nonempty ranges that cover
/// `s` exactly once, each ending at a line terminator or at the end.
pub open spec fn ranges_wf(ranges: Seq<(usize, usize)>, s: Seq<u8>) -> bool {
    &&& contiguous(ranges)
    &&& (forall|i: int|
        #![trigger ranges[i]]
        0 <= i < ranges.len() ==> ranges[i].0 < ranges[i].1 <= s.len())
    &&& (s.len() == 0 ==> ranges.len() == 0)
    &&& (s.len() > 0 ==> ranges.len() > 0 && ranges[ranges.len() - 1].1 == s.len())
    &&& (forall|i: int|
        #![trigger ranges[i]]
        0 <= i < ranges.len() ==> (ranges[i].1 == s.len() || s[ranges[i].1 - 1] == NEWLINE))
}

/// The bytes of all ranges, joined in order.
pub open spec fn concat_ranges(s: Seq<u8>, ranges: Seq<(usize, usize)>) -> Seq<u8>
    decreases ranges.len(),
{
    if ranges.len() == 0 {
        Seq::empty()
    } else {
        concat_ranges(s, ranges.drop_last()) + s.subrange(
            ranges.last().0 as int,
            ranges.last().1 as int,
        )
    }
}

pub proof fn lemma_rejoin_prefix(s: Seq<u8>, ranges: Seq<(usize, usize)>)
    requires
        contiguous(ranges),
        forall|i: int| #![trigger ranges[i]] 0 <= i < ranges.len() ==> ranges[i].1 <= s.len(),
        ranges.len() > 0,
    ensures
        concat_ranges(s, ranges) == s.take(ranges.last().1 as int),
    decreases ranges.len(),
{
    if ranges.len() == 1 {
        assert(concat_ranges(s, ranges.drop_last()) + s.subrange(
            ranges.last().0 as int,
            ranges.last().1 as int,
        ) =~= s.take(ranges.last().1 as int));
    } else {
        assert forall|i: int|
            #![trigger ranges.drop_last()[i]]
            0 <= i < ranges.drop_last().len() implies ranges.drop_last()[i]
            == ranges[i] by {}
        lemma_rejoin_prefix(s, ranges.drop_last());
        assert(ranges.drop_last().last() == ranges[ranges.len() - 2]);
        assert(ranges[ranges.len() - 2].1 == ranges.last().0);
        assert(s.take(ranges.last().0 as int) + s.subrange(
            ranges.last().0 as int,
            ranges.last().1 as int,
        ) =~= s.take(ranges.last().1 as int));
    }
}

/// Partitioning never splits the buffer's content: re-joining all ranges
/// of a well-formed partition reproduces the original byte sequence.
pub proof fn lemma_ranges_rejoin(s: Seq<u8>, ranges: Seq<(usize, usize)>)
    requires
        ranges_wf(ranges, s),
    ensures
        concat_ranges(s, ranges) == s,
{
    if s.len() == 0 {
        assert(concat_ranges(s, ranges) =~= s);
    } else {
        lemma_rejoin_prefix(s, ranges);
        assert(s.take(s.len() as int) =~= s);
    }
}

/// Splitting a buffer right after a line terminator splits its lines.
pub proof fn lemma_lines_split_at(s: Seq<u8>, b: int)
    requires
        0 < b <= s.len(),
        s[b - 1] == NEWLINE,
    ensures
        lines_of(s) == lines_of(s.take(b)) + lines_of(s.skip(b)),
    decreases s.len(),
{
    let a = s.take(b);
    let c = s.skip(b);
    if b == s.len() {
        assert(a =~= s);
        assert(lines_of(c) =~= Seq::<Seq<u8>>::empty());
        assert(lines_of(s) + lines_of(c) =~= lines_of(s));
    } else {
        lemma_first_pos_props(s, NEWLINE);
        let p = first_pos(s, NEWLINE);
        assert(p <= b - 1);
        assert forall|j: int| 0 <= j < p implies a[j] != NEWLINE by {
            assert(a[j] == s[j]);
        }
        assert(a[p] == s[p]);
        crate::parse::lemma_first_pos_is(a, NEWLINE, p);
        if p + 1 == b {
            assert(a.skip(p + 1) =~= Seq::<u8>::empty());
            assert(lines_of(a) == seq![a.take(p)] + lines_of(a.skip(p + 1)));
            assert(lines_of(a) =~= seq![a.take(p)]);
            assert(a.take(p) =~= s.take(p));
            assert(s.skip(p + 1) =~= c);
            assert(lines_of(s) == seq![s.take(p)] + lines_of(c));
            assert(lines_of(s) =~= lines_of(a) + lines_of(c));
        } else {
            let s2 = s.skip(p + 1);
            assert(s2[b - p - 2] == s[b - 1]);
            lemma_lines_split_at(s2, b - p - 1);
            assert(s2.take(b - p - 1) =~= a.skip(p + 1));
            assert(s2.skip(b - p - 1) =~= c);
            assert(lines_of(a) == seq![a.take(p)] + lines_of(a.skip(p + 1)));
            assert(a.take(p) =~= s.take(p));
            assert(lines_of(s) == seq![s.take(p)] + (lines_of(a.skip(p + 1)) + lines_of(c)));
            assert(lines_of(s) =~= lines_of(a) + lines_of(c));
        }
    }
}

/// The Partition Splitter: divides `buf` into about `parts` contiguous
/// ranges, each moved forward to the next line terminator so that no line
/// crosses a boundary.
pub fn partition(buf: &[u8], parts: usize) -> (r: Vec<(usize, usize)>)
    requires
        parts >= 1,
    ensures
        ranges_wf(r@, buf@),
{
    let len = buf.len();
    let mut r: Vec<(usize, usize)> = Vec::new();
    if len == 0 {
        return r;
    }
    let chunk: usize = if len / parts >= 1 {
        len / parts
    } else {
        1
    };
    let mut start: usize = 0;
    while start < len
        invariant
            1 <= chunk,
            len == buf@.len(),
            start <= len,
            start == 0 ==> r@.len() == 0,
            start > 0 ==> r@.len() > 0 && r@[0].0 == 0 && r@[r@.len() - 1].1 == start,
            forall|i: int| #![trigger r@[i]] 0 <= i < r@.len() ==> r@[i].0 < r@[i].1 <= len,
            forall|i: int| #![trigger r@[i]] 0 <= i < r@.len() - 1 ==> r@[i].1 == r@[i + 1].0,
            forall|i: int|
                #![trigger r@[i]]
                0 <= i < r@.len() ==> (r@[i].1 == len || buf@[r@[i].1 - 1] == NEWLINE),
        decreases len - start,
    {
        let mut e: usize = if len - start > chunk {
            start + chunk
        } else {
            len
        };
        while e < len && buf[e - 1] != NEWLINE
            invariant
                start < e <= len,
                len == buf@.len(),
            decreases len - e,
        {
            e += 1;
        }
        let ghost r0 = r@;
        r.push((start, e));
        proof {
            assert forall|i: int| #![trigger r@[i]] 0 <= i < r@.len() - 1 implies r@[i].1
                == r@[i + 1].0 by {
                if i < r0.len() - 1 {
                    assert(r0[i] == r@[i] && r0[i + 1] == r@[i + 1]);
                }
            }
        }
        start = e;
    }
    r
}

} // verus!
