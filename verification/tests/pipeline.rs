use keystats::SCALE;
use keystats::agg::AggMap;
use keystats::run;
use keystats::split::partition;
use keystats::stats::Stats;

fn avg_of(st: &Stats) -> f64 {
    st.sum as f64 / st.count as f64 / SCALE as f64
}

fn min_of(st: &Stats) -> f64 {
    st.min as f64 / SCALE as f64
}

fn max_of(st: &Stats) -> f64 {
    st.max as f64 / SCALE as f64
}

#[test]
fn empty_input() {
    let (rows, bad) = run(b"", 4);
    assert_eq!(rows.len(), 0);
    assert_eq!(bad, 0);
}

#[test]
fn three_records() {
    let (rows, bad) = run(b"A;10.0\nB;5.5\nA;20.0\n", 1);
    assert_eq!(bad, 0);
    assert_eq!(rows.len(), 2);
    assert_eq!(rows[0].0, b"A".to_vec());
    assert_eq!(min_of(&rows[0].1), 10.0);
    assert_eq!(max_of(&rows[0].1), 20.0);
    assert_eq!(avg_of(&rows[0].1), 15.0);
    assert_eq!(rows[0].1.count, 2);
    assert_eq!(rows[1].0, b"B".to_vec());
    assert_eq!(min_of(&rows[1].1), 5.5);
    assert_eq!(max_of(&rows[1].1), 5.5);
    assert_eq!(avg_of(&rows[1].1), 5.5);
}

#[test]
fn malformed_line_is_counted_not_fatal() {
    let (rows, bad) = run(b"A;10.0\nBAD\nA;30.0\n", 1);
    assert_eq!(bad, 1);
    assert_eq!(rows.len(), 1);
    assert_eq!(rows[0].0, b"A".to_vec());
    assert_eq!(min_of(&rows[0].1), 10.0);
    assert_eq!(max_of(&rows[0].1), 30.0);
    assert_eq!(avg_of(&rows[0].1), 20.0);
}

#[test]
fn last_line_without_newline() {
    let (rows, bad) = run(b"A;1.0\nA;3.0", 1);
    assert_eq!(bad, 0);
    assert_eq!(rows.len(), 1);
    assert_eq!(min_of(&rows[0].1), 1.0);
    assert_eq!(max_of(&rows[0].1), 3.0);
    assert_eq!(avg_of(&rows[0].1), 2.0);
    assert_eq!(rows[0].1.count, 2);
}

#[test]
fn result_keys_are_distinct_keys_of_wellformed_lines() {
    let input = b"x;1.0\ny;2.0\nx;3.0\nz;4.0\nnot a record\ny;5.0\n";
    let (rows, bad) = run(input, 2);
    assert_eq!(bad, 1);
    let keys: Vec<Vec<u8>> = rows.iter().map(|r| r.0.clone()).collect();
    assert_eq!(keys, vec![b"x".to_vec(), b"y".to_vec(), b"z".to_vec()]);
}

#[test]
fn result_is_sorted_by_key() {
    let (rows, _) = run(b"pear;1.0\napple;2.0\nplum;3.0\nbanana;4.0\n", 3);
    for w in rows.windows(2) {
        assert!(w[0].0 < w[1].0);
    }
    assert_eq!(rows[0].0, b"apple".to_vec());
}

#[test]
fn min_max_average_within_observed_range() {
    let input = b"k;4.5\nk;-2.0\nk;9.25\nk;0.0\n";
    let (rows, _) = run(input, 1);
    let st = &rows[0].1;
    assert!(min_of(st) <= max_of(st));
    assert_eq!(min_of(st), -2.0);
    assert_eq!(max_of(st), 9.25);
    let avg = avg_of(st);
    assert!(min_of(st) <= avg && avg <= max_of(st));
}

#[test]
fn partition_count_does_not_change_result() {
    let input = b"A;1.5\nB;2.5\nA;3.5\nC;-1.0\nB;0.5\nA;2.0\nD;7.75\n";
    let (rows1, bad1) = run(input, 1);
    let (rows4, bad4) = run(input, 4);
    let (rows9, bad9) = run(input, 9);
    assert_eq!(bad1, bad4);
    assert_eq!(bad1, bad9);
    assert_eq!(rows1.len(), rows4.len());
    assert_eq!(rows1.len(), rows9.len());
    for i in 0..rows1.len() {
        assert_eq!(rows1[i].0, rows4[i].0);
        assert_eq!(rows1[i].1.min, rows4[i].1.min);
        assert_eq!(rows1[i].1.max, rows4[i].1.max);
        assert_eq!(rows1[i].1.sum, rows4[i].1.sum);
        assert_eq!(rows1[i].1.count, rows4[i].1.count);
        assert_eq!(rows1[i].0, rows9[i].0);
        assert_eq!(rows1[i].1.sum, rows9[i].1.sum);
    }
}

#[test]
fn partitions_rejoin_to_original_bytes() {
    let input = b"aa;1.0\nbb;2.0\ncc;3.0\ndd;4.0\nee;5.0";
    let ranges = partition(input, 3);
    assert!(ranges.len() >= 1);
    assert_eq!(ranges[0].0, 0);
    assert_eq!(ranges[ranges.len() - 1].1, input.len());
    let mut rejoined: Vec<u8> = Vec::new();
    let mut prev_end = 0;
    for &(lo, hi) in ranges.iter() {
        assert_eq!(lo, prev_end);
        assert!(lo < hi);
        assert!(lo == 0 || input[lo - 1] == b'\n');
        rejoined.extend_from_slice(&input[lo..hi]);
        prev_end = hi;
    }
    assert_eq!(rejoined, input.to_vec());
}

#[test]
fn merge_is_commutative_on_results() {
    let left = b"A;1.0\nB;2.0\nC;3.0\n";
    let right = b"B;4.0\nC;-1.0\nD;8.0\n";
    let (la, _) = AggMap::accumulate_range(left, 0, left.len());
    let (lb, _) = AggMap::accumulate_range(right, 0, right.len());
    let (ra, _) = AggMap::accumulate_range(left, 0, left.len());
    let (rb, _) = AggMap::accumulate_range(right, 0, right.len());
    let mut ab = la;
    ab.merge(&lb);
    let mut ba = rb;
    ba.merge(&ra);
    let sab = ab.into_sorted();
    let sba = ba.into_sorted();
    assert_eq!(sab.len(), sba.len());
    for i in 0..sab.len() {
        assert_eq!(sab[i].0, sba[i].0);
        assert_eq!(sab[i].1.min, sba[i].1.min);
        assert_eq!(sab[i].1.max, sba[i].1.max);
        assert_eq!(sab[i].1.sum, sba[i].1.sum);
        assert_eq!(sab[i].1.count, sba[i].1.count);
    }
}

#[test]
fn merge_is_associative_on_results() {
    let p1 = b"A;1.0\nB;2.0\n";
    let p2 = b"A;3.0\nC;4.0\n";
    let p3 = b"B;5.0\nC;6.0\nA;7.0\n";
    let acc = |b: &[u8]| AggMap::accumulate_range(b, 0, b.len()).0;
    let mut left = acc(p1);
    left.merge(&acc(p2));
    left.merge(&acc(p3));
    let mut mid = acc(p2);
    mid.merge(&acc(p3));
    let mut right = acc(p1);
    right.merge(&mid);
    let sl = left.into_sorted();
    let sr = right.into_sorted();
    assert_eq!(sl.len(), sr.len());
    for i in 0..sl.len() {
        assert_eq!(sl[i].0, sr[i].0);
        assert_eq!(sl[i].1.min, sr[i].1.min);
        assert_eq!(sl[i].1.max, sr[i].1.max);
        assert_eq!(sl[i].1.sum, sr[i].1.sum);
        assert_eq!(sl[i].1.count, sr[i].1.count);
    }
}

#[test]
fn stats_seed_update_merge() {
    let mut a = Stats::new(5 * SCALE);
    assert_eq!(a.min, 5 * SCALE);
    assert_eq!(a.max, 5 * SCALE);
    assert_eq!(a.sum, (5 * SCALE) as i128);
    assert_eq!(a.count, 1);
    a.update(-3 * SCALE);
    assert_eq!(a.min, -3 * SCALE);
    assert_eq!(a.max, 5 * SCALE);
    assert_eq!(a.count, 2);
    let b = Stats::new(11 * SCALE);
    a.merge(&b);
    assert_eq!(a.min, -3 * SCALE);
    assert_eq!(a.max, 11 * SCALE);
    assert_eq!(a.sum, (13 * SCALE) as i128);
    assert_eq!(a.count, 3);
    assert_eq!(a.mean_scaled(10), ((13 * SCALE * 10) / 3) as i128);
}

#[test]
fn empty_key_is_a_valid_key() {
    let (rows, bad) = run(b";3.0\n;5.0\n", 1);
    assert_eq!(bad, 0);
    assert_eq!(rows.len(), 1);
    assert_eq!(rows[0].0, Vec::<u8>::new());
    assert_eq!(rows[0].1.count, 2);
    assert_eq!(avg_of(&rows[0].1), 4.0);
}
