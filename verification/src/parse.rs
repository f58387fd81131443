//! Record parser: one line of text becomes a `(key, value)` pair, is
//! skipped (empty or comment line), or is rejected as malformed.
//!
//! A data line is `KEY;VALUE`. The key is everything before the first
//! semicolon, verbatim. The value is a decimal literal with an optional
//! leading minus, at most `MAX_INT_DIGITS` integer digits and, after an
//! optional decimal point, one to `FRAC_DIGITS` fractional digits; it is
//! parsed into fixed-point units of `1 / SCALE`.

use vstd::prelude::*;
use crate::stats::{SCALE, VAL_MAX};

verus! {

/// Line terminator.
pub const NL: u8 = 0x0a;

/// Field delimiter (`;`).
pub const SEMI: u8 = 0x3b;

/// Comment marker (`#`).
pub const HASH: u8 = 0x23;

/// Decimal point (`.`).
pub const DOT: u8 = 0x2e;

/// Leading sign (`-`).
pub const MINUS: u8 = 0x2d;

/// Digit zero (`0`).
pub const D0: u8 = 0x30;

/// Largest number of integer digits a value literal may have.
pub const MAX_INT_DIGITS: usize = 14;

/// Largest number of fractional digits a value literal may have.
pub const FRAC_DIGITS: usize = 4;

/// Index of the first occurrence of `b` in `s`, or `s.len()` if absent.
pub open spec fn first_index_of(s: Seq<u8>, b: u8) -> int
    decreases s.len(),
{
    if s.len() == 0 {
        0
    } else if s[0] == b {
        0
    } else {
        1 + first_index_of(s.drop_first(), b)
    }
}

/// What `first_index_of` returns: the position of the first occurrence,
/// with nothing equal to `b` before it, or the length when `b` is absent.
pub proof fn lemma_first_index_of_props(s: Seq<u8>, b: u8)
    ensures
        0 <= first_index_of(s, b) <= s.len(),
        first_index_of(s, b) < s.len() ==> s[first_index_of(s, b)] == b,
        forall|j: int| 0 <= j < first_index_of(s, b) ==> s[j] != b,
    decreases s.len(),
{
    if s.len() == 0 {
    } else if s[0] == b {
    } else {
        lemma_first_index_of_props(s.drop_first(), b);
        assert forall|j: int| 0 <= j < first_index_of(s, b) implies s[j] != b by {
            if j > 0 {
                assert(s.drop_first()[j - 1] == s[j]);
            }
        };
    }
}

/// `b` is an ASCII decimal digit.
pub open spec fn is_digit(b: u8) -> bool {
    D0 <= b && b <= 0x39
}

/// Every byte of `s` is an ASCII decimal digit.
pub open spec fn all_digits(s: Seq<u8>) -> bool {
    forall|i: int| 0 <= i < s.len() ==> is_digit(#[trigger] s[i])
}

/// The number denoted by a sequence of decimal digits, most significant
/// first.
pub open spec fn digits_val(s: Seq<u8>) -> int
    decreases s.len(),
{
    if s.len() == 0 {
        0
    } else {
        digits_val(s.drop_last()) * 10 + (s.last() - D0)
    }
}

/// Ten to the `n`.
pub open spec fn pow10(n: nat) -> int
    decreases n,
{
    if n == 0 {
        1
    } else {
        10 * pow10((n - 1) as nat)
    }
}

/// The powers of ten the parser's bounds need, as numerals.
pub proof fn lemma_pow10_values()
    ensures
        pow10(0) == 1,
        pow10(1) == 10,
        pow10(2) == 100,
        pow10(3) == 1000,
        pow10(4) == 10_000,
        pow10(13) == 10_000_000_000_000,
        pow10(14) == 100_000_000_000_000,
{
    assert(pow10(0) == 1);
    assert(pow10(1) == 10);
    assert(pow10(2) == 100);
    assert(pow10(3) == 1000);
    assert(pow10(4) == 10_000);
    assert(pow10(5) == 100_000);
    assert(pow10(6) == 1_000_000);
    assert(pow10(7) == 10_000_000);
    assert(pow10(8) == 100_000_000);
    assert(pow10(9) == 1_000_000_000);
    assert(pow10(10) == 10_000_000_000);
    assert(pow10(11) == 100_000_000_000);
    assert(pow10(12) == 1_000_000_000_000);
    assert(pow10(13) == 10_000_000_000_000);
    assert(pow10(14) == 100_000_000_000_000);
}

pub proof fn lemma_pow10_pos(n: nat)
    ensures
        pow10(n) >= 1,
    decreases n,
{
    if n > 0 {
        lemma_pow10_pos((n - 1) as nat);
    }
}

pub proof fn lemma_pow10_mono(a: nat, b: nat)
    requires
        a <= b,
    ensures
        pow10(a) <= pow10(b),
    decreases b,
{
    if a < b {
        lemma_pow10_mono(a, (b - 1) as nat);
        lemma_pow10_pos((b - 1) as nat);
    }
}

/// A string of `n` digits denotes a number below ten to the `n`.
pub proof fn lemma_digits_val_bound(s: Seq<u8>)
    requires
        all_digits(s),
    ensures
        0 <= digits_val(s) < pow10(s.len()),
    decreases s.len(),
{
    if s.len() == 0 {
    } else {
        assert(all_digits(s.drop_last())) by {
            assert forall|i: int| 0 <= i < s.len() - 1 implies is_digit(#[trigger] s.drop_last()[i]) by {
                assert(s.drop_last()[i] == s[i]);
            };
        };
        lemma_digits_val_bound(s.drop_last());
        assert(is_digit(s.last()));
        assert(pow10(s.len()) == 10 * pow10((s.len() - 1) as nat));
    }
}

/// Scaling factor that brings `flen` fractional digits to `FRAC_DIGITS`
/// fixed-point digits.
pub open spec fn frac_factor(flen: int) -> int {
    if flen == 1 {
        1000
    } else if flen == 2 {
        100
    } else if flen == 3 {
        10
    } else {
        1
    }
}

/// The value, in fixed-point units, of an unsigned decimal literal, or
/// `None` if the bytes are not such a literal.
pub open spec fn parse_unsigned(s: Seq<u8>) -> Option<int> {
    let d = first_index_of(s, DOT);
    let ip = s.subrange(0, d);
    if !(1 <= ip.len() <= MAX_INT_DIGITS as int && all_digits(ip)) {
        None
    } else if d == s.len() {
        Some(digits_val(ip) * SCALE as int)
    } else {
        let fp = s.subrange(d + 1, s.len() as int);
        if 1 <= fp.len() <= FRAC_DIGITS as int && all_digits(fp) {
            Some(digits_val(ip) * SCALE as int + digits_val(fp) * frac_factor(fp.len() as int))
        } else {
            None
        }
    }
}

/// The value of a possibly signed decimal literal, in fixed-point units.
pub open spec fn parse_value(s: Seq<u8>) -> Option<int> {
    if s.len() >= 1 && s[0] == MINUS {
        match parse_unsigned(s.drop_first()) {
            Some(v) => Some(-v),
            None => None,
        }
    } else {
        parse_unsigned(s)
    }
}

/// Every value the parser accepts has magnitude below `VAL_MAX`.
pub proof fn lemma_parse_unsigned_bound(s: Seq<u8>)
    ensures
        parse_unsigned(s) matches Some(v) ==> 0 <= v < VAL_MAX as int,
{
    if parse_unsigned(s) is Some {
        let d = first_index_of(s, DOT);
        let ip = s.subrange(0, d);
        lemma_digits_val_bound(ip);
        lemma_pow10_mono(ip.len(), MAX_INT_DIGITS as nat);
        lemma_pow10_values();
        if d != s.len() {
            let fp = s.subrange(d + 1, s.len() as int);
            lemma_digits_val_bound(fp);
        }
    }
}

/// Every value the parser accepts has magnitude below `VAL_MAX`.
pub proof fn lemma_parse_value_bound(s: Seq<u8>)
    ensures
        parse_value(s) matches Some(v) ==> -(VAL_MAX as int) < v < VAL_MAX as int,
{
    lemma_parse_unsigned_bound(s);
    if s.len() >= 1 && s[0] == MINUS {
        lemma_parse_unsigned_bound(s.drop_first());
    }
}

/// A line carrying no record: empty, or a comment.
pub open spec fn line_skippable(line: Seq<u8>) -> bool {
    line.len() == 0 || line[0] == HASH
}

/// The record a data line carries: the key before the first semicolon and
/// the parsed value after it. `None` if the line carries none.
pub open spec fn line_record(line: Seq<u8>) -> Option<(Seq<u8>, int)> {
    if line_skippable(line) {
        None
    } else {
        let i = first_index_of(line, SEMI);
        if i == line.len() {
            None
        } else {
            match parse_value(line.subrange(i + 1, line.len() as int)) {
                Some(v) => Some((line.subrange(0, i), v)),
                None => None,
            }
        }
    }
}

/// A line that should have carried a record but does not.
pub open spec fn line_malformed(line: Seq<u8>) -> bool {
    !line_skippable(line) && line_record(line) is None
}

/// What the parser says of one line.
pub enum LineOutcome {
    /// A data line: its key and its fixed-point value.
    Record(Vec<u8>, i64),
    /// An empty or comment line, skipped silently.
    Skip,
    /// A line that parses to no record.
    Malformed,
}

/// Parse the digits `s[from..to]`, most significant first. Returns `None`
/// exactly when some byte in the range is not a digit.
fn parse_digits(s: &[u8], from: usize, to: usize, bound: usize) -> (r: Option<i64>)
    requires
        from <= to <= s@.len(),
        1 <= to - from <= bound,
        bound <= MAX_INT_DIGITS,
    ensures
        match r {
            Some(v) => {
                &&& all_digits(s@.subrange(from as int, to as int))
                &&& v as int == digits_val(s@.subrange(from as int, to as int))
                &&& 0 <= v as int
                &&& (v as int) < pow10((to - from) as nat)
            },
            None => !all_digits(s@.subrange(from as int, to as int)),
        },
{
    proof {
        lemma_pow10_values();
    }
    let mut acc: i64 = 0;
    let mut i: usize = from;
    while i < to
        invariant
            from <= i <= to <= s@.len(),
            to - from <= MAX_INT_DIGITS,
            all_digits(s@.subrange(from as int, i as int)),
            acc as int == digits_val(s@.subrange(from as int, i as int)),
            0 <= acc as int,
            (acc as int) < pow10((i - from) as nat),
            pow10(13) == 10_000_000_000_000,
            pow10(14) == 100_000_000_000_000,
        decreases to - i,
    {
        let c = s[i];
        if c < D0 || c > 0x39 {
            proof {
                assert(s@.subrange(from as int, to as int)[i - from] == s@[i as int]);
            }
            return None;
        }
        proof {
            lemma_pow10_mono((i - from) as nat, 13);
            let pre = s@.subrange(from as int, i as int);
            let cur = s@.subrange(from as int, i + 1);
            assert(cur.drop_last() =~= pre);
            assert(cur.last() == s@[i as int]);
            lemma_digits_val_bound(pre);
            assert(pow10((i + 1 - from) as nat) == 10 * pow10((i - from) as nat));
            assert forall|j: int| 0 <= j < cur.len() implies is_digit(#[trigger] cur[j]) by {
                if j < cur.len() - 1 {
                    assert(cur[j] == pre[j]);
                }
            };
        }
        acc = acc * 10 + (c - D0) as i64;
        i = i + 1;
    }
    Some(acc)
}

/// Parse a possibly signed decimal literal into fixed-point units.
pub fn parse_value_bytes(s: &[u8]) -> (r: Option<i64>)
    ensures
        match r {
            Some(v) => {
                &&& parse_value(s@) == Some(v as int)
                &&& -VAL_MAX < v < VAL_MAX
            },
            None => parse_value(s@) is None,
        },
{
    let n = s.len();
    let off: usize = if n > 0 && s[0] == MINUS {
        1
    } else {
        0
    };
    let ghost u: Seq<u8> = s@.subrange(off as int, n as int);
    proof {
        if off == 1 {
            assert(u =~= s@.drop_first());
        } else {
            assert(u =~= s@);
        }
    }
    // Find the first decimal point at or after `off`.
    let mut d: usize = off;
    while d < n && s[d] != DOT
        invariant
            off <= d <= n,
            n == s@.len(),
            forall|j: int| off <= j < d ==> s@[j] != DOT,
        decreases n - d,
    {
        d = d + 1;
    }
    proof {
        lemma_first_index_of_props(u, DOT);
        assert forall|j: int| 0 <= j < d - off implies u[j] != DOT by {
            assert(u[j] == s@[off + j]);
        };
        if d < n {
            assert(u[d - off] == s@[d as int]);
        }
        assert(first_index_of(u, DOT) == d - off);
        assert(u.subrange(0, d - off) =~= s@.subrange(off as int, d as int));
    }
    let ilen = d - off;
    if ilen < 1 || ilen > MAX_INT_DIGITS {
        return None;
    }
    let iv = match parse_digits(s, off, d, MAX_INT_DIGITS) {
        Some(v) => v,
        None => {
            return None;
        },
    };
    proof {
        lemma_pow10_values();
        lemma_pow10_mono(ilen as nat, 14);
    }
    let whole = iv * SCALE;
    if d == n {
        if off == 1 {
            Some(-whole)
        } else {
            Some(whole)
        }
    } else {
        let flen = n - d - 1;
        if flen < 1 || flen > FRAC_DIGITS {
            return None;
        }
        proof {
            assert(u.subrange((d - off + 1) as int, u.len() as int) =~= s@.subrange(
                d + 1,
                n as int,
            ));
        }
        let fv = match parse_digits(s, d + 1, n, FRAC_DIGITS) {
            Some(v) => v,
            None => {
                return None;
            },
        };
        let factor: i64 = if flen == 1 {
            1000
        } else if flen == 2 {
            100
        } else if flen == 3 {
            10
        } else {
            1
        };
        let v = whole + fv * factor;
        if off == 1 {
            Some(-v)
        } else {
            Some(v)
        }
    }
}

/// Classify one line (terminator stripped): a record, a silent skip, or a
/// malformed line.
pub fn parse_line(line: &[u8]) -> (r: LineOutcome)
    ensures
        match r {
            LineOutcome::Record(k, v) => {
                &&& line_record(line@) == Some((k@, v as int))
                &&& -VAL_MAX < v < VAL_MAX
            },
            LineOutcome::Skip => line_skippable(line@),
            LineOutcome::Malformed => line_malformed(line@),
        },
{
    let n = line.len();
    if n == 0 || line[0] == HASH {
        return LineOutcome::Skip;
    }
    // Find the first semicolon.
    let mut i: usize = 0;
    while i < n && line[i] != SEMI
        invariant
            0 <= i <= n,
            n == line@.len(),
            forall|j: int| 0 <= j < i ==> line@[j] != SEMI,
        decreases n - i,
    {
        i = i + 1;
    }
    proof {
        lemma_first_index_of_props(line@, SEMI);
        assert(first_index_of(line@, SEMI) == i);
    }
    if i == n {
        return LineOutcome::Malformed;
    }
    let rest = &line[i + 1..n];
    match parse_value_bytes(rest) {
        Some(v) => {
            let key = vstd::slice::slice_to_vec(&line[0..i]);
            LineOutcome::Record(key, v)
        },
        None => LineOutcome::Malformed,
    }
}

} // verus!
