//! Record parsing: the line grammar `<key>;<measurement>` and its verified
//! executable parser. A measurement is a decimal number, optionally signed
//! and fractional, held as an `i64` scaled by `SCALE`.
use vstd::prelude::*;
use crate::MAX_ABS;
use crate::SCALE;

verus! {

/// Strict bound on the integer part of a measurement, so that the scaled
/// value stays strictly below `MAX_ABS`.
pub const INT_LIMIT: i64 = 100000000000;

/// The byte `;` that separates key from measurement.
pub const SEPARATOR: u8 = 59;

/// The byte `.` that separates integer part from fraction.
pub const DOT: u8 = 46;

/// The byte `+`.
pub const PLUS_SIGN: u8 = 43;

/// The byte `-`.
pub const MINUS_SIGN: u8 = 45;

/// The byte `0`.
pub const DIGIT_ZERO: u8 = 48;

/// The byte `9`.
pub const DIGIT_NINE: u8 = 57;

/// The byte that terminates a line.
pub const NEWLINE: u8 = 10;

/// Index of the first occurrence of `b` in `s`, or `s.len()` if absent.
pub open spec fn first_pos(s: Seq<u8>, b: u8) -> int
    decreases s.len(),
{
    if s.len() == 0 {
        0
    } else if s[0] == b {
        0
    } else {
        1 + first_pos(s.drop_first(), b)
    }
}

pub proof fn lemma_first_pos_props(s: Seq<u8>, b: u8)
    ensures
        0 <= first_pos(s, b) <= s.len(),
        first_pos(s, b) < s.len() ==> s[first_pos(s, b)] == b,
        forall|j: int| 0 <= j < first_pos(s, b) ==> s[j] != b,
    decreases s.len(),
{
    if s.len() == 0 {
    } else if s[0] == b {
    } else {
        lemma_first_pos_props(s.drop_first(), b);
        assert forall|j: int| 0 <= j < first_pos(s, b) implies s[j] != b by {
            if j > 0 {
                assert(s.drop_first()[j - 1] == s[j]);
            }
        }
        assert(first_pos(s, b) < s.len() ==> s.drop_first()[first_pos(s, b) - 1] == b);
    }
}

/// Pins `first_pos` from the facts an executable scan establishes.
pub proof fn lemma_first_pos_is(s: Seq<u8>, b: u8, i: int)
    requires
        0 <= i <= s.len(),
        forall|j: int| 0 <= j < i ==> s[j] != b,
        i < s.len() ==> s[i] == b,
    ensures
        first_pos(s, b) == i,
    decreases i,
{
    if s.len() == 0 {
    } else if s[0] == b {
        if i > 0 {
            assert(s[0] != b);
        }
    } else {
        if i == 0 {
            assert(s[0] == b);
        }
        assert forall|j: int| 0 <= j < i - 1 implies s.drop_first()[j] != b by {
            assert(s.drop_first()[j] == s[j + 1]);
        }
        if i - 1 < s.drop_first().len() {
            assert(s.drop_first()[i - 1] == s[i]);
        }
        lemma_first_pos_is(s.drop_first(), b, i - 1);
    }
}

pub open spec fn is_digit(b: u8) -> bool {
    DIGIT_ZERO <= b && b <= DIGIT_NINE
}

pub open spec fn digit_val(b: u8) -> int {
    b - DIGIT_ZERO
}

pub open spec fn all_digits(s: Seq<u8>) -> bool {
    forall|i: int| 0 <= i < s.len() ==> is_digit(s[i])
}

/// Value of a digit string read in base 10.
pub open spec fn digits_val(s: Seq<u8>) -> int
    decreases s.len(),
{
    if s.len() == 0 {
        0
    } else {
        digits_val(s.drop_last()) * 10 + digit_val(s.last())
    }
}

pub open spec fn pow10(n: nat) -> int
    decreases n,
{
    if n == 0 {
        1
    } else {
        10 * pow10((n - 1) as nat)
    }
}

pub proof fn lemma_pow10_small()
    ensures
        pow10(0) == 1,
        pow10(1) == 10,
        pow10(2) == 100,
        pow10(3) == 1000,
        pow10(4) == 10000,
{
    reveal_with_fuel(pow10, 5);
}

pub proof fn lemma_pow10_pos(n: nat)
    ensures
        pow10(n) >= 1,
    decreases n,
{
    if n > 0 {
        lemma_pow10_pos((n - 1) as nat);
    }
}

pub proof fn lemma_digits_val_nonneg(s: Seq<u8>)
    requires
        all_digits(s),
    ensures
        digits_val(s) >= 0,
    decreases s.len(),
{
    if s.len() > 0 {
        assert forall|i: int| 0 <= i < s.drop_last().len() implies is_digit(s.drop_last()[i]) by {
            assert(s.drop_last()[i] == s[i]);
        }
        lemma_digits_val_nonneg(s.drop_last());
    }
}

/// A digit string is worth at least any of its prefixes.
pub proof fn lemma_digits_val_prefix(s: Seq<u8>, i: int)
    requires
        all_digits(s),
        0 <= i <= s.len(),
    ensures
        digits_val(s.take(i)) <= digits_val(s),
    decreases s.len(),
{
    if i == s.len() {
        assert(s.take(i) =~= s);
    } else {
        assert forall|j: int| 0 <= j < s.drop_last().len() implies is_digit(s.drop_last()[j]) by {
            assert(s.drop_last()[j] == s[j]);
        }
        assert(s.take(i) =~= s.drop_last().take(i));
        lemma_digits_val_prefix(s.drop_last(), i);
        lemma_digits_val_nonneg(s.drop_last());
    }
}

/// A string of `n` digits is worth less than `pow10(n)`.
pub proof fn lemma_digits_val_upper(s: Seq<u8>)
    requires
        all_digits(s),
    ensures
        digits_val(s) < pow10(s.len()),
    decreases s.len(),
{
    if s.len() > 0 {
        assert forall|j: int| 0 <= j < s.drop_last().len() implies is_digit(s.drop_last()[j]) by {
            assert(s.drop_last()[j] == s[j]);
        }
        lemma_digits_val_upper(s.drop_last());
    }
}

/// Grammar of an unsigned measurement: `digit+ ('.' digit{1,4})?`, with the
/// integer part below `INT_LIMIT`.
pub open spec fn unsigned_valid(s: Seq<u8>) -> bool {
    let d = first_pos(s, DOT);
    if d == s.len() {
        s.len() > 0 && all_digits(s) && digits_val(s) < INT_LIMIT
    } else {
        0 < d && d < s.len() && all_digits(s.take(d)) && digits_val(s.take(d)) < INT_LIMIT
            && 0 < s.len() - d - 1 <= 4 && all_digits(s.skip(d + 1))
    }
}

/// Scaled value of a valid unsigned measurement.
pub open spec fn unsigned_val(s: Seq<u8>) -> int {
    let d = first_pos(s, DOT);
    if d == s.len() {
        digits_val(s) * SCALE
    } else {
        digits_val(s.take(d)) * SCALE + digits_val(s.skip(d + 1)) * pow10(
            (4 - (s.len() - d - 1)) as nat,
        )
    }
}

/// Grammar of a measurement: an optional sign, then an unsigned measurement.
pub open spec fn number_valid(s: Seq<u8>) -> bool {
    if s.len() > 0 && (s[0] == PLUS_SIGN || s[0] == MINUS_SIGN) {
        unsigned_valid(s.drop_first())
    } else {
        unsigned_valid(s)
    }
}

/// Scaled value of a valid measurement.
pub open spec fn number_val(s: Seq<u8>) -> int {
    if s.len() > 0 && s[0] == MINUS_SIGN {
        -unsigned_val(s.drop_first())
    } else if s.len() > 0 && s[0] == PLUS_SIGN {
        unsigned_val(s.drop_first())
    } else {
        unsigned_val(s)
    }
}

/// A line is valid when it has a separator and the rest is a measurement.
/// The key, everything before the first separator, may be empty.
pub open spec fn line_valid(l: Seq<u8>) -> bool {
    let p = first_pos(l, SEPARATOR);
    p < l.len() && number_valid(l.skip(p + 1))
}

pub open spec fn line_key(l: Seq<u8>) -> Seq<u8> {
    l.take(first_pos(l, SEPARATOR))
}

pub open spec fn line_val(l: Seq<u8>) -> int {
    number_val(l.skip(first_pos(l, SEPARATOR) + 1))
}

pub proof fn lemma_unsigned_val_range(s: Seq<u8>)
    requires
        unsigned_valid(s),
    ensures
        0 <= unsigned_val(s) < MAX_ABS,
{
    lemma_first_pos_props(s, DOT);
    let d = first_pos(s, DOT);
    if d == s.len() {
        lemma_digits_val_nonneg(s);
    } else {
        let f = s.len() - d - 1;
        lemma_digits_val_nonneg(s.take(d));
        lemma_digits_val_nonneg(s.skip(d + 1));
        lemma_digits_val_upper(s.skip(d + 1));
        lemma_pow10_pos((4 - f) as nat);
        lemma_pow10_small();
        let fv = digits_val(s.skip(d + 1));
        assert(fv * pow10((4 - f) as nat) < 10000) by (nonlinear_arith)
            requires
                1 <= f <= 4,
                0 <= fv,
                fv < pow10(f as nat),
                pow10(1) == 10,
                pow10(2) == 100,
                pow10(3) == 1000,
                pow10(4) == 10000,
                pow10((4 - f) as nat) == pow10((4 - f) as nat),
                (f == 1 ==> pow10((4 - f) as nat) == 1000) && (f == 2 ==> pow10((4 - f) as nat)
                    == 100) && (f == 3 ==> pow10((4 - f) as nat) == 10) && (f == 4 ==> pow10(
                    (4 - f) as nat,
                ) == 1),
        ;
    }
}

pub proof fn lemma_number_val_range(s: Seq<u8>)
    requires
        number_valid(s),
    ensures
        -MAX_ABS < number_val(s) < MAX_ABS,
{
    if s.len() > 0 && (s[0] == PLUS_SIGN || s[0] == MINUS_SIGN) {
        lemma_unsigned_val_range(s.drop_first());
    } else {
        lemma_unsigned_val_range(s);
    }
}

/// A valid line holds at least a separator and one measurement byte.
pub proof fn lemma_line_valid_len(l: Seq<u8>)
    requires
        line_valid(l),
    ensures
        l.len() >= 2,
{
    lemma_first_pos_props(l, SEPARATOR);
    let p = first_pos(l, SEPARATOR);
    let n = l.skip(p + 1);
    if n.len() == 0 {
        assert(!unsigned_valid(n));
        assert(!number_valid(n));
    }
}

/// First index of `target` in `buf[lo..hi)`, or `hi` when absent.
pub fn find_byte(buf: &[u8], lo: usize, hi: usize, target: u8) -> (r: usize)
    requires
        lo <= hi <= buf.len(),
    ensures
        lo <= r <= hi,
        r - lo == first_pos(buf@.subrange(lo as int, hi as int), target),
        r < hi ==> buf@[r as int] == target,
        forall|j: int| lo <= j < r ==> buf@[j] != target,
{
    let mut i: usize = lo;
    while i < hi
        invariant
            lo <= i <= hi <= buf.len(),
            forall|j: int| lo <= j < i ==> buf@[j] != target,
        decreases hi - i,
    {
        if buf[i] == target {
            proof {
                let s = buf@.subrange(lo as int, hi as int);
                lemma_first_pos_is(s, target, i - lo);
            }
            return i;
        }
        i += 1;
    }
    proof {
        let s = buf@.subrange(lo as int, hi as int);
        lemma_first_pos_is(s, target, hi - lo);
    }
    hi
}

/// Parses `buf[lo..hi)` as a nonempty digit string worth less than `limit`.
fn parse_digits(buf: &[u8], lo: usize, hi: usize, limit: i64) -> (r: Option<i64>)
    requires
        lo <= hi <= buf.len(),
        1 <= limit <= INT_LIMIT,
    ensures
        ({
            let s = buf@.subrange(lo as int, hi as int);
            match r {
                Some(v) => s.len() > 0 && all_digits(s) && v == digits_val(s) && 0 <= v < limit,
                None => !(s.len() > 0 && all_digits(s) && digits_val(s) < limit),
            }
        }),
{
    let ghost s = buf@.subrange(lo as int, hi as int);
    if lo == hi {
        return None;
    }
    let mut acc: i64 = 0;
    let mut i: usize = lo;
    while i < hi
        invariant
            lo <= i <= hi <= buf.len(),
            1 <= limit <= INT_LIMIT,
            s == buf@.subrange(lo as int, hi as int),
            all_digits(s.take(i - lo)),
            acc == digits_val(s.take(i - lo)),
            0 <= acc < limit,
        decreases hi - i,
    {
        let b = buf[i];
        if !(DIGIT_ZERO <= b && b <= DIGIT_NINE) {
            proof {
                assert(s[i - lo] == b);
            }
            return None;
        }
        let d: i64 = (b - DIGIT_ZERO) as i64;
        acc = acc * 10 + d;
        proof {
            let t = s.take(i + 1 - lo);
            assert(t.drop_last() =~= s.take(i - lo));
            assert(t.last() == s[i - lo]);
            assert(s[i - lo] == b);
            assert(acc == digits_val(t));
            assert forall|j: int| 0 <= j < t.len() implies is_digit(t[j]) by {
                assert(t[j] == s[j]);
            }
        }
        if acc >= limit {
            proof {
                if all_digits(s) {
                    lemma_digits_val_prefix(s, i + 1 - lo);
                }
            }
            return None;
        }
        i += 1;
    }
    proof {
        assert(s.take(hi - lo) =~= s);
    }
    Some(acc)
}

/// Parses `buf[lo..hi)` as a measurement, returning its scaled value.
pub fn parse_number(buf: &[u8], lo: usize, hi: usize) -> (r: Option<i64>)
    requires
        lo <= hi <= buf.len(),
    ensures
        ({
            let s = buf@.subrange(lo as int, hi as int);
            match r {
                Some(v) => number_valid(s) && v == number_val(s) && -MAX_ABS < v < MAX_ABS,
                None => !number_valid(s),
            }
        }),
{
    let ghost s = buf@.subrange(lo as int, hi as int);
    if lo == hi {
        return None;
    }
    let b0 = buf[lo];
    let neg: bool = b0 == MINUS_SIGN;
    let start: usize = if b0 == MINUS_SIGN || b0 == PLUS_SIGN {
        lo + 1
    } else {
        lo
    };
    let ghost u = buf@.subrange(start as int, hi as int);
    proof {
        if start > lo {
            assert(u =~= s.drop_first());
        } else {
            assert(u =~= s);
        }
    }
    let d_abs = find_byte(buf, start, hi, DOT);
    proof {
        assert(buf@.subrange(start as int, d_abs as int) =~= u.take(d_abs - start));
    }
    let int_v = match parse_digits(buf, start, d_abs, INT_LIMIT) {
        Some(v) => v,
        None => {
            proof {
                lemma_first_pos_props(u, DOT);
                if first_pos(u, DOT) == u.len() {
                    assert(u.take(d_abs - start) =~= u);
                }
                assert(!unsigned_valid(u));
            }
            return None;
        },
    };
    let magnitude: i64;
    if d_abs == hi {
        magnitude = int_v * SCALE;
        proof {
            assert(u.take(d_abs - start) =~= u);
            assert(unsigned_valid(u));
            assert(magnitude == unsigned_val(u));
        }
    } else {
        // fractional part after the dot
        let f: usize = hi - d_abs - 1;
        if f == 0 || f > 4 {
            proof {
                assert(!unsigned_valid(u));
            }
            return None;
        }
        proof {
            assert(buf@.subrange(d_abs + 1, hi as int) =~= u.skip(d_abs + 1 - start));
        }
        let frac_v = match parse_digits(buf, d_abs + 1, hi, SCALE) {
            Some(v) => v,
            None => {
                proof {
                    let fr = u.skip(d_abs + 1 - start);
                    lemma_pow10_small();
                    if all_digits(fr) {
                        lemma_digits_val_upper(fr);
                        assert(digits_val(fr) < pow10(f as nat));
                        assert(digits_val(fr) < SCALE);
                    }
                    assert(!unsigned_valid(u));
                }
                return None;
            },
        };
        proof {
            lemma_pow10_small();
            assert(unsigned_valid(u));
        }
        if f == 1 {
            magnitude = int_v * SCALE + frac_v * 1000;
            proof {
                assert(frac_v < 10) by {
                    lemma_digits_val_upper(u.skip(d_abs + 1 - start));
                }
                assert(magnitude == unsigned_val(u));
            }
        } else if f == 2 {
            magnitude = int_v * SCALE + frac_v * 100;
            proof {
                assert(frac_v < 100) by {
                    lemma_digits_val_upper(u.skip(d_abs + 1 - start));
                }
                assert(magnitude == unsigned_val(u));
            }
        } else if f == 3 {
            magnitude = int_v * SCALE + frac_v * 10;
            proof {
                assert(frac_v < 1000) by {
                    lemma_digits_val_upper(u.skip(d_abs + 1 - start));
                }
                assert(magnitude == unsigned_val(u));
            }
        } else {
            magnitude = int_v * SCALE + frac_v;
            proof {
                assert(magnitude == unsigned_val(u));
            }
        }
    }
    proof {
        lemma_unsigned_val_range(u);
    }
    if neg {
        Some(-magnitude)
    } else {
        Some(magnitude)
    }
}

/// Parses one line. On success returns the end of the key (the index of the
/// separator) and the scaled measurement.
pub fn parse_line(buf: &[u8], lo: usize, hi: usize) -> (r: Option<(usize, i64)>)
    requires
        lo <= hi <= buf.len(),
    ensures
        ({
            let l = buf@.subrange(lo as int, hi as int);
            match r {
                Some((k, v)) => line_valid(l) && lo <= k < hi && k - lo == first_pos(l, SEPARATOR)
                    && buf@.subrange(lo as int, k as int) == line_key(l) && v == line_val(l)
                    && -MAX_ABS < v < MAX_ABS,
                None => !line_valid(l),
            }
        }),
{
    let ghost l = buf@.subrange(lo as int, hi as int);
    let sep = find_byte(buf, lo, hi, SEPARATOR);
    if sep == hi {
        proof {
            assert(!line_valid(l));
        }
        return None;
    }
    proof {
        assert(buf@.subrange(sep + 1, hi as int) =~= l.skip(sep + 1 - lo));
    }
    match parse_number(buf, sep + 1, hi) {
        Some(v) => {
            proof {
                assert(buf@.subrange(lo as int, sep as int) =~= l.take(sep - lo));
            }
            Some((sep, v))
        },
        None => {
            proof {
                assert(!line_valid(l));
            }
            None
        },
    }
}

} // verus!
