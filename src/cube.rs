//! Reading `.cube` color lookup table files.
//!
//! A file is a sequence of lines. A line that starts with `LUT_3D_SIZE `
//! gives the grid size; one that starts with `DOMAIN_MIN ` or `DOMAIN_MAX `
//! gives the input domain (other `DOMAIN_` lines are skipped). Any other line
//! of exactly three numbers is one grid point, red varying fastest; the rest
//! are skipped. Numbers, with or without an exponent (`1.0e-03`), are read
//! as fixed-point values with six decimals (see `lut3d::ONE`); further
//! decimals are dropped.
use vstd::prelude::*;
use vstd::slice::slice_subrange;
use crate::lut3d::{LUT3DContext, Rgb, ONE, MAX_LEVEL, MAX_ENTRY, channel, rgb_bounded, grid_index};

verus! {

/// Why a table could not be read.
#[derive(Clone, Copy, Debug, PartialEq, Eq, Structural)]
pub enum LutError {
    /// The size directive is missing, not a number, or outside `2..=65`.
    InvalidLutSize,
    /// Fewer grid points than the size asks for.
    LutDataTruncated,
    /// A domain directive without three numbers after it.
    InvalidDomain,
}

/// Magnitude bound of a number read from a table file: below 1000.
pub const MAX_VALUE: i64 = 1_000_000_000;

pub open spec fn is_space(c: u8) -> bool {
    c == 32 || (9 <= c <= 13)
}

pub open spec fn is_digit(c: u8) -> bool {
    48 <= c <= 57
}

// ---------------------------------------------------------------------------
// Tokens
// ---------------------------------------------------------------------------

/// The whitespace-separated tokens of `l` from position `i` on, where `start`
/// is where the token under way began, if one is.
pub open spec fn tokens_from(l: Seq<u8>, i: int, start: Option<int>) -> Seq<Seq<u8>>
    decreases l.len() - i,
{
    if i >= l.len() {
        match start {
            Some(s) => seq![l.subrange(s, l.len() as int)],
            None => seq![],
        }
    } else if is_space(l[i]) {
        match start {
            Some(s) => seq![l.subrange(s, i)] + tokens_from(l, i + 1, None),
            None => tokens_from(l, i + 1, None),
        }
    } else {
        tokens_from(l, i + 1, if start is Some { start } else { Some(i) })
    }
}

/// The whitespace-separated tokens of a line.
pub open spec fn tokens(l: Seq<u8>) -> Seq<Seq<u8>> {
    tokens_from(l, 0, None)
}

/// Positions `[start, end)` of the tokens of `line`.
fn split_tokens(line: &[u8]) -> (r: Vec<(usize, usize)>)
    ensures
        r@.len() == tokens(line@).len(),
        forall|k: int|
            0 <= k < r@.len() ==> ((#[trigger] r@[k]).0 <= r@[k].1 && r@[k].1 <= line@.len())
                && tokens(line@)[k] == line@.subrange(r@[k].0 as int, r@[k].1 as int),
{
    let mut r: Vec<(usize, usize)> = Vec::new();
    let ghost mut acc: Seq<Seq<u8>> = seq![];
    let mut start: Option<usize> = None;
    let mut i: usize = 0;
    let n = line.len();
    while i < n
        invariant
            n == line@.len(),
            i <= n,
            tokens(line@) == acc + tokens_from(
                line@,
                i as int,
                match start {
                    Some(s) => Some(s as int),
                    None => None,
                },
            ),
            match start {
                Some(s) => s < i,
                None => true,
            },
            r@.len() == acc.len(),
            forall|k: int|
                0 <= k < r@.len() ==> ((#[trigger] r@[k]).0 <= r@[k].1 && r@[k].1 <= line@.len()) && acc[k]
                    == line@.subrange(r@[k].0 as int, r@[k].1 as int),
        decreases n - i,
    {
        if line[i] == 32 || (9 <= line[i] && line[i] <= 13) {
            if let Some(s) = start {
                let ghost old_acc = acc;
                proof {
                    assert(acc + tokens_from(line@, i as int, Some(s as int)) == (acc + seq![
                        line@.subrange(s as int, i as int),
                    ]) + tokens_from(line@, i + 1, None));
                    acc = acc + seq![line@.subrange(s as int, i as int)];
                }
                let ghost old_r = r@;
                r.push((s, i));
                assert forall|k: int| 0 <= k < r@.len() implies (r@[k].0 <= r@[k].1 && r@[k].1
                    <= line@.len()) && acc[k] == line@.subrange(r@[k].0 as int, r@[k].1 as int) by {
                    if k < old_r.len() {
                        assert(r@[k] == old_r[k]);
                        assert(acc[k] == old_acc[k]);
                        assert(old_r[k].0 <= old_r[k].1 && old_r[k].1 <= line@.len() && old_acc[k]
                            == line@.subrange(old_r[k].0 as int, old_r[k].1 as int));
                    } else {
                        assert(r@[k] == (s, i));
                    }
                }
            }
            start = None;
        } else {
            if start.is_none() {
                start = Some(i);
            }
        }
        i = i + 1;
    }
    if let Some(s) = start {
        let ghost old_acc = acc;
        proof {
            assert(acc + tokens_from(line@, i as int, Some(s as int)) == acc + seq![
                line@.subrange(s as int, n as int),
            ]);
            acc = acc + seq![line@.subrange(s as int, n as int)];
        }
        let ghost old_r = r@;
        r.push((s, n));
        assert forall|k: int| 0 <= k < r@.len() implies (r@[k].0 <= r@[k].1 && r@[k].1
            <= line@.len()) && acc[k] == line@.subrange(r@[k].0 as int, r@[k].1 as int) by {
            if k < old_r.len() {
                assert(r@[k] == old_r[k]);
                assert(acc[k] == old_acc[k]);
                assert(old_r[k].0 <= old_r[k].1 && old_r[k].1 <= line@.len() && old_acc[k]
                    == line@.subrange(old_r[k].0 as int, old_r[k].1 as int));
            } else {
                assert(r@[k] == (s, n));
            }
        }
    } else {
        assert(acc + tokens_from(line@, i as int, None) =~= acc);
    }
    assert(tokens(line@) == acc);
    r
}

// ---------------------------------------------------------------------------
// Numbers
// ---------------------------------------------------------------------------

pub open spec fn all_digits(s: Seq<u8>) -> bool {
    forall|i: int| 0 <= i < s.len() ==> is_digit(#[trigger] s[i])
}

/// The value of a string of decimal digits.
pub open spec fn digits_value(s: Seq<u8>) -> int
    decreases s.len(),
{
    if s.len() == 0 {
        0
    } else {
        digits_value(s.drop_last()) * 10 + (s.last() - 48)
    }
}

/// Position of the first `.` in `s` at or after `i`, or the length.
pub open spec fn dot_index(s: Seq<u8>, i: int) -> int
    decreases s.len() - i,
{
    if i >= s.len() {
        s.len() as int
    } else if s[i] == 46 {
        i
    } else {
        dot_index(s, i + 1)
    }
}

/// Position of the first `e` or `E` in `s` at or after `i`, or the length.
pub open spec fn exp_index(s: Seq<u8>, i: int) -> int
    decreases s.len() - i,
{
    if i >= s.len() {
        s.len() as int
    } else if s[i] == 101 || s[i] == 69 {
        i
    } else {
        exp_index(s, i + 1)
    }
}

/// An exponent `[+-]digits`.
pub open spec fn exp_value(ex: Seq<u8>) -> Option<int> {
    let signed = ex.len() > 0 && (ex[0] == 45 || ex[0] == 43);
    let digits = if signed {
        ex.subrange(1, ex.len() as int)
    } else {
        ex
    };
    if digits.len() > 0 && all_digits(digits) {
        Some(
            if ex[0] == 45 {
                -digits_value(digits)
            } else {
                digits_value(digits)
            },
        )
    } else {
        None
    }
}

/// The number formed by the first `q` digits of `d`, reading zeros past its
/// end: `d` read with the decimal point after position `q`, rounded down.
pub open spec fn pad_value(d: Seq<u8>, q: int) -> int
    decreases q,
{
    if q <= 0 {
        0
    } else {
        pad_value(d, q - 1) * 10 + (if q - 1 < d.len() {
            d[q - 1] - 48
        } else {
            0
        })
    }
}

/// A number `[+-]digits[.digits][(e|E)[+-]digits]` (at least one mantissa
/// digit, below 1000 in magnitude) in fixed point with six decimals, further
/// decimals dropped; `None` for any other token.
pub open spec fn decimal_value(t: Seq<u8>) -> Option<int> {
    let signed = t.len() > 0 && (t[0] == 45 || t[0] == 43);
    let neg = t.len() > 0 && t[0] == 45;
    let body = if signed {
        t.subrange(1, t.len() as int)
    } else {
        t
    };
    let x = exp_index(body, 0);
    let mant = body.subrange(0, x);
    let e = if x < body.len() {
        exp_value(body.subrange(x + 1, body.len() as int))
    } else {
        Some(0int)
    };
    let d = dot_index(mant, 0);
    let ip = mant.subrange(0, d);
    let fp = if d < mant.len() {
        mant.subrange(d + 1, mant.len() as int)
    } else {
        seq![]
    };
    match e {
        Some(e) => {
            let mag = pad_value(ip + fp, ip.len() + e + 6);
            if all_digits(ip) && all_digits(fp) && ip.len() + fp.len() > 0 && mag < MAX_VALUE {
                Some(
                    if neg {
                        -mag
                    } else {
                        mag
                    },
                )
            } else {
                None
            }
        },
        None => None,
    }
}

pub proof fn lemma_digits_prefix(s: Seq<u8>, k: int)
    requires
        0 <= k <= s.len(),
        all_digits(s),
    ensures
        0 <= digits_value(s.subrange(0, k)) <= digits_value(s),
    decreases s.len() - k,
{
    if k < s.len() {
        lemma_digits_prefix(s, k + 1);
        let p = s.subrange(0, k + 1);
        assert(p.drop_last() =~= s.subrange(0, k));
        assert(is_digit(p[k]));
    } else {
        assert(s.subrange(0, k) =~= s);
        lemma_digits_nonneg(s);
    }
}

pub proof fn lemma_digits_nonneg(s: Seq<u8>)
    requires
        all_digits(s),
    ensures
        digits_value(s) >= 0,
    decreases s.len(),
{
    if s.len() > 0 {
        let p = s.drop_last();
        assert(all_digits(p)) by {
            assert forall|i: int| 0 <= i < p.len() implies is_digit(#[trigger] p[i]) by {
                assert(p[i] == s[i]);
            }
        }
        lemma_digits_nonneg(p);
        assert(is_digit(s[s.len() - 1]));
    }
}

/// The value of the digit string `s[from..to]`, when it is all digits and
/// below `limit`.
fn parse_digits(s: &[u8], from: usize, to: usize, limit: u32) -> (r: Option<u32>)
    requires
        from <= to <= s@.len(),
        1 <= limit <= 1000,
    ensures
        r == (if all_digits(s@.subrange(from as int, to as int)) && digits_value(
            s@.subrange(from as int, to as int),
        ) < limit {
            Some(digits_value(s@.subrange(from as int, to as int)) as u32)
        } else {
            None
        }),
{
    let ghost full = s@.subrange(from as int, to as int);
    let mut acc: u32 = 0;
    let mut k: usize = from;
    while k < to
        invariant
            from <= k <= to <= s@.len(),
            full == s@.subrange(from as int, to as int),
            all_digits(s@.subrange(from as int, k as int)),
            acc == digits_value(s@.subrange(from as int, k as int)),
            acc < limit,
            1 <= limit <= 1000,
        decreases to - k,
    {
        let c = s[k];
        let ghost pre = s@.subrange(from as int, k as int);
        let ghost next = s@.subrange(from as int, k + 1);
        assert(next.drop_last() =~= pre);
        assert(full[k - from] == c);
        if c < 48 || c > 57 {
            assert(!all_digits(full));
            return None;
        }
        acc = acc * 10 + (c - 48) as u32;
        assert(all_digits(next)) by {
            assert forall|i: int| 0 <= i < next.len() implies is_digit(#[trigger] next[i]) by {
                if i < next.len() - 1 {
                    assert(next[i] == pre[i]);
                }
            }
        }
        if acc >= limit {
            proof {
                assert(all_digits(full) ==> digits_value(full) >= acc) by {
                    if all_digits(full) {
                        lemma_digits_prefix(full, k + 1 - from);
                        assert(full.subrange(0, k + 1 - from) =~= next);
                    }
                }
            }
            return None;
        }
        k = k + 1;
    }
    assert(s@.subrange(from as int, k as int) =~= full);
    Some(acc)
}

pub open spec fn pow10(k: nat) -> int
    decreases k,
{
    if k == 0 {
        1
    } else {
        10 * pow10((k - 1) as nat)
    }
}

/// Exponents are read up to this magnitude (2^70); a larger one leaves no
/// digit in range, or every digit out of it.
pub const EXP_CAP: u128 = 0x40_0000_0000_0000_0000;

proof fn lemma_pow10_grows(k: nat)
    ensures
        pow10(k) >= 1,
        k >= 9 ==> pow10(k) >= 1_000_000_000,
    decreases k,
{
    if k > 0 {
        lemma_pow10_grows((k - 1) as nat);
        if k == 9 {
            reveal_with_fuel(pow10, 10);
        }
    }
}

proof fn lemma_pad_nonneg(d: Seq<u8>, q: int)
    requires
        all_digits(d),
    ensures
        pad_value(d, q) >= 0,
    decreases q,
{
    if q > 0 {
        lemma_pad_nonneg(d, q - 1);
        if q - 1 < d.len() {
            assert(is_digit(d[q - 1]));
        }
    }
}

/// More digits never make a smaller number.
proof fn lemma_pad_monotone(d: Seq<u8>, a: int, b: int)
    requires
        all_digits(d),
        a <= b,
    ensures
        pad_value(d, a) <= pad_value(d, b),
    decreases b - a,
{
    if a < b {
        lemma_pad_monotone(d, a, b - 1);
        lemma_pad_nonneg(d, b - 1);
        if 0 <= b - 1 < d.len() {
            assert(is_digit(d[b - 1]));
        }
    }
}

/// Past the last digit, each further position multiplies by ten.
proof fn lemma_pad_tail(d: Seq<u8>, b: int)
    requires
        b >= d.len(),
    ensures
        pad_value(d, b) == pad_value(d, d.len() as int) * pow10((b - d.len()) as nat),
    decreases b - d.len(),
{
    if b > d.len() {
        lemma_pad_tail(d, b - 1);
        let k = (b - d.len()) as nat;
        let p = pad_value(d, d.len() as int);
        assert(pow10(k) == 10 * pow10((k - 1) as nat));
        assert(pad_value(d, b) == pad_value(d, b - 1) * 10);
        assert(p * pow10((k - 1) as nat) * 10 == p * (10 * pow10((k - 1) as nat)))
            by (nonlinear_arith);
    }
}

/// Whether `t[from..to]` is all digits.
fn all_digits_in(t: &[u8], from: usize, to: usize) -> (r: bool)
    requires
        from <= to <= t@.len(),
    ensures
        r == all_digits(t@.subrange(from as int, to as int)),
{
    let mut k: usize = from;
    while k < to
        invariant
            from <= k <= to <= t@.len(),
            forall|i: int| from <= i < k ==> is_digit(#[trigger] t@[i]),
        decreases to - k,
    {
        if t[k] < 48 || t[k] > 57 {
            assert(t@.subrange(from as int, to as int)[k - from] == t@[k as int]);
            return false;
        }
        k = k + 1;
    }
    assert forall|i: int| 0 <= i < to - from implies is_digit(
        #[trigger] t@.subrange(from as int, to as int)[i],
    ) by {
        assert(t@.subrange(from as int, to as int)[i] == t@[from + i]);
    }
    true
}

/// An exponent with its magnitude capped at `EXP_CAP`.
pub open spec fn capped(e: int) -> int {
    if e >= EXP_CAP {
        EXP_CAP as int
    } else if e <= -EXP_CAP {
        -EXP_CAP
    } else {
        e
    }
}

/// Reads `t[from..]` as an exponent; see `exp_value`. The result is capped.
fn parse_exponent(t: &[u8], from: usize) -> (r: Option<i128>)
    requires
        from <= t@.len(),
    ensures
        match r {
            None => exp_value(t@.subrange(from as int, t@.len() as int)) is None,
            Some(e) => exp_value(t@.subrange(from as int, t@.len() as int)) matches Some(v) && e
                == capped(v),
        },
{
    let n = t.len();
    let ghost ex = t@.subrange(from as int, n as int);
    let esigned = from < n && (t[from] == 45 || t[from] == 43);
    let eneg = from < n && t[from] == 45;
    let ds: usize = if esigned { from + 1 } else { from };
    let ghost digits = t@.subrange(ds as int, n as int);
    assert(digits =~= if esigned {
        ex.subrange(1, ex.len() as int)
    } else {
        ex
    });
    if ds >= n {
        return None;
    }
    if !all_digits_in(t, ds, n) {
        return None;
    }
    proof {
        lemma_digits_nonneg(digits);
    }
    let mut acc: u128 = 0;
    let mut k: usize = ds;
    while k < n
        invariant
            ds <= k <= n,
            n == t@.len(),
            digits == t@.subrange(ds as int, n as int),
            all_digits(digits),
            acc == (if digits_value(t@.subrange(ds as int, k as int)) < EXP_CAP {
                digits_value(t@.subrange(ds as int, k as int))
            } else {
                EXP_CAP as int
            }),
        decreases n - k,
    {
        let c = t[k];
        let ghost pre = t@.subrange(ds as int, k as int);
        let ghost next = t@.subrange(ds as int, k + 1);
        assert(next.drop_last() =~= pre);
        assert(digits[k - ds] == c);
        assert(is_digit(digits[k - ds]));
        assert(all_digits(pre)) by {
            assert forall|i: int| 0 <= i < pre.len() implies is_digit(#[trigger] pre[i]) by {
                assert(pre[i] == digits[i]);
            }
        }
        proof {
            lemma_digits_nonneg(pre);
        }
        acc = if acc >= EXP_CAP {
            EXP_CAP
        } else {
            let v = acc * 10 + (c - 48) as u128;
            if v >= EXP_CAP {
                EXP_CAP
            } else {
                v
            }
        };
        k = k + 1;
    }
    assert(t@.subrange(ds as int, k as int) =~= digits);
    Some(
        if eneg {
            -(acc as i128)
        } else {
            acc as i128
        },
    )
}

/// The digits `t[start..d]` followed by `t[fstart..x]`.
pub open spec fn joined(t: Seq<u8>, start: int, d: int, fstart: int, x: int) -> Seq<u8> {
    t.subrange(start, d) + t.subrange(fstart, x)
}

/// `pad_value` of the joined digits at `q`, when below `MAX_VALUE`. When `q`
/// lies ten or more places past the digits, a result means they are all zero.
fn scaled_digits(t: &[u8], start: usize, d: usize, fstart: usize, x: usize, q: i128) -> (r:
    Option<i64>)
    requires
        start <= d <= fstart <= x <= t@.len(),
        all_digits(joined(t@, start as int, d as int, fstart as int, x as int)),
        q > 0,
    ensures
        ({
            let dg = joined(t@, start as int, d as int, fstart as int, x as int);
            match r {
                Some(v) => v == pad_value(dg, q as int) && 0 <= v < MAX_VALUE && (q > dg.len() + 9
                    ==> pad_value(dg, dg.len() as int) == 0),
                None => pad_value(dg, q as int) >= MAX_VALUE,
            }
        }),
{
    let ghost dg = joined(t@, start as int, d as int, fstart as int, x as int);
    let ipl = d - start;
    let m = ipl + (x - fstart);
    assert(dg.len() == m);
    let lim: usize = if q < m as i128 { q as usize } else { m };
    let mut acc: i64 = 0;
    let mut j: usize = 0;
    while j < lim
        invariant
            j <= lim <= m,
            lim <= q,
            m == dg.len(),
            ipl == d - start,
            start <= d <= fstart <= x <= t@.len(),
            m == ipl + (x - fstart),
            dg == joined(t@, start as int, d as int, fstart as int, x as int),
            all_digits(dg),
            acc == pad_value(dg, j as int),
            0 <= acc < MAX_VALUE,
        decreases lim - j,
    {
        let c = if j < ipl {
            assert(dg[j as int] == t@[start + j]);
            t[start + j]
        } else {
            assert(dg[j as int] == t@[fstart + (j - ipl)]);
            t[fstart + (j - ipl)]
        };
        assert(is_digit(dg[j as int]));
        acc = acc * 10 + (c - 48) as i64;
        if acc >= MAX_VALUE {
            proof {
                lemma_pad_monotone(dg, j + 1, q as int);
            }
            return None;
        }
        j = j + 1;
    }
    if q <= m as i128 {
        return Some(acc);
    }
    proof {
        lemma_pad_tail(dg, q as int);
        lemma_pad_nonneg(dg, m as int);
    }
    assert(j == m);
    if acc == 0 {
        assert(pad_value(dg, dg.len() as int) == 0);
        assert(pad_value(dg, dg.len() as int) * pow10((q - dg.len()) as nat) == 0);
        assert(pad_value(dg, q as int) == 0);
        return Some(0);
    }
    let z: i128 = q - (m as i128);
    let mut k: i128 = 0;
    while k < z
        invariant
            0 <= k <= z,
            z == q - m,
            m == dg.len(),
            dg == joined(t@, start as int, d as int, fstart as int, x as int),
            all_digits(dg),
            acc == pad_value(dg, m + k),
            1 <= acc < MAX_VALUE,
            acc >= pow10(k as nat),
        decreases z - k,
    {
        assert(pad_value(dg, m + k + 1) == pad_value(dg, m + k) * 10);
        acc = acc * 10;
        if acc >= MAX_VALUE {
            proof {
                lemma_pad_monotone(dg, m + k + 1, q as int);
            }
            return None;
        }
        k = k + 1;
    }
    proof {
        lemma_pow10_grows(z as nat);
    }
    Some(acc)
}

/// Reading the digits at a capped position `qe` gives the value at the true
/// position `qt`: the two agree, or `qe` lies so far past the digits that
/// the value is out of range or zero at both.
proof fn lemma_capped_scale(dg: Seq<u8>, qe: int, qt: int)
    requires
        all_digits(dg),
        0 < qe <= qt,
        qe == qt || qe > dg.len() + 9,
    ensures
        pad_value(dg, qe) >= MAX_VALUE ==> pad_value(dg, qt) >= MAX_VALUE,
        pad_value(dg, qe) < MAX_VALUE && (qe > dg.len() + 9 ==> pad_value(dg, dg.len() as int)
            == 0) ==> pad_value(dg, qt) == pad_value(dg, qe),
{
    lemma_pad_monotone(dg, qe, qt);
    if qe != qt {
        lemma_pad_tail(dg, qt);
        lemma_pad_tail(dg, qe);
        if pad_value(dg, dg.len() as int) == 0 {
            assert(pad_value(dg, dg.len() as int) * pow10((qt - dg.len()) as nat) == 0);
            assert(pad_value(dg, dg.len() as int) * pow10((qe - dg.len()) as nat) == 0);
        }
    }
}

/// Reads a number token; see `decimal_value`.
#[verifier::rlimit(100)]
pub fn parse_decimal(t: &[u8]) -> (r: Option<i64>)
    ensures
        match r {
            Some(v) => decimal_value(t@) == Some(v as int) && -MAX_VALUE < v < MAX_VALUE,
            None => decimal_value(t@) is None,
        },
{
    let n = t.len();
    let signed = n > 0 && (t[0] == 45 || t[0] == 43);
    let neg = n > 0 && t[0] == 45;
    let start: usize = if signed { 1 } else { 0 };
    let ghost body = if signed {
        t@.subrange(1, n as int)
    } else {
        t@
    };
    assert(body =~= t@.subrange(start as int, n as int));
    // The exponent marker.
    let mut x: usize = start;
    while x < n && t[x] != 101 && t[x] != 69
        invariant
            start <= x <= n,
            n == t@.len(),
            body == t@.subrange(start as int, n as int),
            exp_index(body, 0) == exp_index(body, x - start),
        decreases n - x,
    {
        assert(body[x - start] == t@[x as int]);
        x = x + 1;
    }
    assert(exp_index(body, 0) == x - start) by {
        if x < n {
            assert(body[x - start] == t@[x as int]);
        }
    }
    let ghost mant = body.subrange(0, x - start);
    assert(mant =~= t@.subrange(start as int, x as int));
    let ghost e_spec: Option<int> = if x < n {
        exp_value(body.subrange(x - start + 1, body.len() as int))
    } else {
        Some(0int)
    };
    let e_exec: i128 = if x < n {
        assert(body.subrange(x - start + 1, body.len() as int) =~= t@.subrange(x + 1, n as int));
        match parse_exponent(t, x + 1) {
            None => {
                return None;
            },
            Some(e) => e,
        }
    } else {
        0
    };
    let ghost e_true: int = match e_spec {
        Some(e) => e,
        None => 0,
    };
    assert(e_spec == Some(e_true));
    assert(e_exec == capped(e_true));
    // The decimal point.
    let mut d: usize = start;
    while d < x && t[d] != 46
        invariant
            start <= d <= x <= n,
            n == t@.len(),
            mant == t@.subrange(start as int, x as int),
            dot_index(mant, 0) == dot_index(mant, d - start),
        decreases x - d,
    {
        assert(mant[d - start] == t@[d as int]);
        d = d + 1;
    }
    assert(dot_index(mant, 0) == d - start) by {
        if d < x {
            assert(mant[d - start] == t@[d as int]);
        }
    }
    let ghost ip = mant.subrange(0, d - start);
    assert(ip =~= t@.subrange(start as int, d as int));
    let fstart: usize = if d < x { d + 1 } else { x };
    let ghost fp = if d < mant.len() {
        mant.subrange(d - start + 1, mant.len() as int)
    } else {
        seq![]
    };
    assert(fp =~= t@.subrange(fstart as int, x as int));
    if !all_digits_in(t, start, d) || !all_digits_in(t, fstart, x) {
        return None;
    }
    let ipl = d - start;
    let m = ipl + (x - fstart);
    if m == 0 {
        return None;
    }
    let ghost dg = ip + fp;
    assert(dg == joined(t@, start as int, d as int, fstart as int, x as int));
    assert(all_digits(dg)) by {
        assert forall|i: int| 0 <= i < dg.len() implies is_digit(#[trigger] dg[i]) by {
            if i < ip.len() {
                assert(dg[i] == ip[i]);
            } else {
                assert(dg[i] == fp[i - ip.len()]);
            }
        }
    }
    let ghost q_true = ip.len() + e_true + 6;
    let ghost mag = pad_value(dg, q_true);
    assert(decimal_value(t@) == (if mag < MAX_VALUE {
        Some(
            if neg {
                -mag
            } else {
                mag
            },
        )
    } else {
        None
    }));
    let q_exec: i128 = (ipl as i128) + e_exec + 6;
    if q_exec <= 0 {
        assert(q_true <= 0);
        assert(mag == 0);
        return Some(0);
    }
    assert(q_exec <= q_true);
    assert(q_exec == q_true || q_exec > m + 9);
    let v = scaled_digits(t, start, d, fstart, x, q_exec);
    proof {
        lemma_capped_scale(dg, q_exec as int, q_true);
    }
    match v {
        None => {
            assert(mag >= MAX_VALUE);
            None
        },
        Some(a) => Some(
            if neg {
                -a
            } else {
                a
            },
        ),
    }
}

// ---------------------------------------------------------------------------
// Lines
// ---------------------------------------------------------------------------

/// The line starts with `LUT_3D_SIZE ` (with the space).
pub open spec fn is_size_line(l: Seq<u8>) -> bool {
    &&& l.len() >= 12
    &&& l[0] == 76 && l[1] == 85 && l[2] == 84 && l[3] == 95 && l[4] == 51 && l[5] == 68
    &&& l[6] == 95 && l[7] == 83 && l[8] == 73 && l[9] == 90 && l[10] == 69 && l[11] == 32
}

/// The line starts with `DOMAIN_`.
pub open spec fn is_domain_line(l: Seq<u8>) -> bool {
    &&& l.len() >= 7
    &&& l[0] == 68 && l[1] == 79 && l[2] == 77 && l[3] == 65 && l[4] == 73 && l[5] == 78
    &&& l[6] == 95
}

/// The line starts with `DOMAIN_MIN ` (with the space).
pub open spec fn is_min_line(l: Seq<u8>) -> bool {
    is_domain_line(l) && l.len() >= 11 && l[7] == 77 && l[8] == 73 && l[9] == 78 && l[10] == 32
}

/// The line starts with `DOMAIN_MAX ` (with the space).
pub open spec fn is_max_line(l: Seq<u8>) -> bool {
    is_domain_line(l) && l.len() >= 11 && l[7] == 77 && l[8] == 65 && l[9] == 88 && l[10] == 32
}

/// Three number tokens from position `at` on, as a color.
pub open spec fn decimal_triple(toks: Seq<Seq<u8>>, at: int) -> Option<Rgb> {
    match (decimal_value(toks[at]), decimal_value(toks[at + 1]), decimal_value(toks[at + 2])) {
        (Some(r), Some(g), Some(b)) => Some(Rgb { r: r as i64, g: g as i64, b: b as i64 }),
        _ => None,
    }
}

/// The size that a size directive's tokens give, when it is a number in `2..=65`.
pub open spec fn size_directive(toks: Seq<Seq<u8>>) -> Option<int> {
    if toks.len() == 2 && toks[1].len() > 0 && all_digits(toks[1]) && 2 <= digits_value(toks[1])
        <= MAX_LEVEL {
        Some(digits_value(toks[1]))
    } else {
        None
    }
}

/// What has been read of a table file so far.
pub struct ScanModel {
    /// The grid size, 0 until a size directive is read.
    pub size: int,
    pub min: Rgb,
    pub max: Rgb,
    /// The grid points read, in file order.
    pub rows: Seq<Rgb>,
    /// The first error met; nothing is read after it.
    pub error: Option<LutError>,
}

pub open spec fn initial_scan() -> ScanModel {
    ScanModel {
        size: 0,
        min: Rgb { r: 0, g: 0, b: 0 },
        max: Rgb { r: ONE, g: ONE, b: ONE },
        rows: seq![],
        error: None,
    }
}

/// The effect of one line.
pub open spec fn scan_line(st: ScanModel, l: Seq<u8>) -> ScanModel {
    let toks = tokens(l);
    if st.error is Some || toks.len() == 0 {
        st
    } else if is_size_line(l) {
        match size_directive(toks) {
            Some(n) => ScanModel { size: n, ..st },
            None => ScanModel { error: Some(LutError::InvalidLutSize), ..st },
        }
    } else if is_domain_line(l) {
        if is_min_line(l) || is_max_line(l) {
            match if toks.len() >= 4 {
                decimal_triple(toks, 1)
            } else {
                None
            } {
                Some(v) => if is_min_line(l) {
                    ScanModel { min: v, ..st }
                } else {
                    ScanModel { max: v, ..st }
                },
                None => ScanModel { error: Some(LutError::InvalidDomain), ..st },
            }
        } else {
            st
        }
    } else if toks.len() == 3 {
        match decimal_triple(toks, 0) {
            Some(v) => ScanModel { rows: st.rows.push(v), ..st },
            None => st,
        }
    } else {
        st
    }
}

/// The effect of the lines of `t` from position `i` on, where the line under
/// way began at `ls`. Lines end at a newline; a last line without one counts.
pub open spec fn scan_from(t: Seq<u8>, i: int, ls: int, st: ScanModel) -> ScanModel
    decreases t.len() - i,
{
    if i >= t.len() {
        if ls < t.len() {
            scan_line(st, t.subrange(ls, t.len() as int))
        } else {
            st
        }
    } else if t[i] == 10 {
        scan_from(t, i + 1, i + 1, scan_line(st, t.subrange(ls, i)))
    } else {
        scan_from(t, i + 1, ls, st)
    }
}

/// What a whole file says.
pub open spec fn scan_cube(t: Seq<u8>) -> ScanModel {
    scan_from(t, 0, 0, initial_scan())
}

/// Why the file `st` describes gives no table, if it gives none.
pub open spec fn cube_error(st: ScanModel) -> Option<LutError> {
    if st.error is Some {
        st.error
    } else if st.size == 0 {
        Some(LutError::InvalidLutSize)
    } else if st.rows.len() < st.size * st.size * st.size {
        Some(LutError::LutDataTruncated)
    } else {
        None
    }
}

/// A stored component: the value read, times the domain's extent on that axis.
pub open spec fn scale_component(v: int, lo: int, hi: int) -> int {
    v * (hi - lo) / (ONE as int)
}

/// `lut` is the table that the file `t` describes: its size, and each grid
/// point the row of the same rank, rescaled by the domain.
pub open spec fn cube_table(t: Seq<u8>, lut: &LUT3DContext) -> bool {
    let st = scan_cube(t);
    &&& lut.wf()
    &&& lut.lutsize == st.size
    &&& forall|m: int, ch: int|
        0 <= m < lut.lut@.len() && 0 <= ch < 3 ==> #[trigger] channel(lut.lut@[m], ch)
            == scale_component(channel(st.rows[m], ch), channel(st.min, ch), channel(st.max, ch))
}

pub open spec fn value_bounded(c: Rgb) -> bool {
    &&& -MAX_VALUE < c.r < MAX_VALUE
    &&& -MAX_VALUE < c.g < MAX_VALUE
    &&& -MAX_VALUE < c.b < MAX_VALUE
}

/// Reading state of a table file.
struct CubeScan {
    size: usize,
    min: Rgb,
    max: Rgb,
    rows: Vec<Rgb>,
    error: Option<LutError>,
}

impl CubeScan {
    spec fn model(&self) -> ScanModel {
        ScanModel {
            size: self.size as int,
            min: self.min,
            max: self.max,
            rows: self.rows@,
            error: self.error,
        }
    }

    spec fn bounded(&self) -> bool {
        &&& self.size == 0 || 2 <= self.size <= MAX_LEVEL
        &&& value_bounded(self.min)
        &&& value_bounded(self.max)
        &&& forall|m: int| 0 <= m < self.rows@.len() ==> value_bounded(#[trigger] self.rows@[m])
    }

    fn scan_line(&mut self, line: &[u8])
        requires
            old(self).bounded(),
        ensures
            final(self).bounded(),
            final(self).model() == scan_line(old(self).model(), line@),
    {
        if self.error.is_some() {
            return;
        }
        let toks = split_tokens(line);
        let ghost tk = tokens(line@);
        if toks.len() == 0 {
            return;
        }
        if line_is_size(line) {
            if toks.len() == 2 {
                let t1 = slice_subrange(line, toks[1].0, toks[1].1);
                assert(t1@ == tk[1]);
                assert(t1@.subrange(0, t1@.len() as int) =~= t1@);
                proof {
                    if all_digits(t1@) {
                        lemma_digits_nonneg(t1@);
                    }
                }
                if t1.len() > 0 {
                    match parse_digits(t1, 0, t1.len(), 66) {
                        Some(v) => {
                            if v >= 2 {
                                self.size = v as usize;
                                return;
                            }
                        },
                        None => {},
                    }
                }
            }
            self.error = Some(LutError::InvalidLutSize);
        } else if line_is_domain(line) {
            let is_min = line_is_min(line);
            if is_min || line_is_max(line) {
                let v = if toks.len() >= 4 {
                    decimal_triple_at(line, &toks, 1)
                } else {
                    None
                };
                match v {
                    Some(c) => {
                        if is_min {
                            self.min = c;
                        } else {
                            self.max = c;
                        }
                    },
                    None => {
                        self.error = Some(LutError::InvalidDomain);
                    },
                }
            }
        } else if toks.len() == 3 {
            if let Some(c) = decimal_triple_at(line, &toks, 0) {
                self.rows.push(c);
                assert(forall|m: int|
                    0 <= m < self.rows@.len() ==> value_bounded(#[trigger] self.rows@[m]));
            }
        }
    }
}

fn line_is_size(l: &[u8]) -> (r: bool)
    ensures
        r == is_size_line(l@),
{
    l.len() >= 12 && l[0] == 76 && l[1] == 85 && l[2] == 84 && l[3] == 95 && l[4] == 51 && l[5]
        == 68 && l[6] == 95 && l[7] == 83 && l[8] == 73 && l[9] == 90 && l[10] == 69 && l[11]
        == 32
}

fn line_is_domain(l: &[u8]) -> (r: bool)
    ensures
        r == is_domain_line(l@),
{
    l.len() >= 7 && l[0] == 68 && l[1] == 79 && l[2] == 77 && l[3] == 65 && l[4] == 73 && l[5]
        == 78 && l[6] == 95
}

fn line_is_min(l: &[u8]) -> (r: bool)
    ensures
        r == is_min_line(l@),
{
    line_is_domain(l) && l.len() >= 11 && l[7] == 77 && l[8] == 73 && l[9] == 78 && l[10] == 32
}

fn line_is_max(l: &[u8]) -> (r: bool)
    ensures
        r == is_max_line(l@),
{
    line_is_domain(l) && l.len() >= 11 && l[7] == 77 && l[8] == 65 && l[9] == 88 && l[10] == 32
}

/// Reads tokens `at`, `at + 1` and `at + 2` of `line` as a color.
fn decimal_triple_at(line: &[u8], toks: &Vec<(usize, usize)>, at: usize) -> (r: Option<Rgb>)
    requires
        at + 3 <= toks@.len(),
        toks@.len() == tokens(line@).len(),
        forall|k: int|
            0 <= k < toks@.len() ==> ((#[trigger] toks@[k]).0 <= toks@[k].1 && toks@[k].1
                <= line@.len()) && tokens(line@)[k] == line@.subrange(
                toks@[k].0 as int,
                toks@[k].1 as int,
            ),
    ensures
        r == decimal_triple(tokens(line@), at as int),
        r matches Some(c) ==> value_bounded(c),
{
    let ghost tk = tokens(line@);
    let nt = toks.len();
    let a = slice_subrange(line, toks[at].0, toks[at].1);
    let b = slice_subrange(line, toks[at + 1].0, toks[at + 1].1);
    let c = slice_subrange(line, toks[at + 2].0, toks[at + 2].1);
    assert(a@ == tk[at as int]);
    assert(b@ == tk[at + 1]);
    assert(c@ == tk[at + 2]);
    match (parse_decimal(a), parse_decimal(b), parse_decimal(c)) {
        (Some(r), Some(g), Some(b)) => Some(Rgb { r, g, b }),
        _ => None,
    }
}

/// `v * (hi - lo)` in fixed point, rounded down: a value read from the file
/// rescaled by the domain's extent.
fn scale_value(v: i64, lo: i64, hi: i64) -> (r: i64)
    requires
        -MAX_VALUE < v < MAX_VALUE,
        -MAX_VALUE < lo < MAX_VALUE,
        -MAX_VALUE < hi < MAX_VALUE,
    ensures
        r == scale_component(v as int, lo as int, hi as int),
        -MAX_ENTRY <= r <= MAX_ENTRY,
{
    let w = hi - lo;
    assert(-2_000_000_000_000_000_000 < v * w < 2_000_000_000_000_000_000) by (nonlinear_arith)
        requires -1_000_000_000 < v < 1_000_000_000, -2_000_000_000 < w < 2_000_000_000;
    let p = v * w;
    let r = if p >= 0 {
        p / ONE
    } else {
        let q = (-p) / ONE;
        let rem = (-p) % ONE;
        proof {
            vstd::arithmetic::div_mod::lemma_fundamental_div_mod(-p as int, ONE as int);
        }
        if rem == 0 {
            proof {
                vstd::arithmetic::div_mod::lemma_fundamental_div_mod_converse(
                    p as int,
                    ONE as int,
                    -q,
                    0,
                );
            }
            -q
        } else {
            proof {
                vstd::arithmetic::div_mod::lemma_fundamental_div_mod_converse(
                    p as int,
                    ONE as int,
                    -q - 1,
                    ONE - rem,
                );
            }
            -q - 1
        }
    };
    assert(-MAX_ENTRY <= r <= MAX_ENTRY) by (nonlinear_arith)
        requires
            r == p as int / 1_000_000,
            -2_000_000_000_000_000_000 < p < 2_000_000_000_000_000_000,
    ;
    r
}

/// Reads a `.cube` table from the file's bytes.
///
/// The result is the table that `scan_cube` describes, each value rescaled by
/// the domain's extent; `InvalidLutSize` when the size directive is missing
/// or invalid, `InvalidDomain` for a malformed domain directive, and
/// `LutDataTruncated` when fewer than `size^3` grid points are given. Lines
/// that are not three numbers, nor a directive, are skipped; grid points
/// beyond `size^3` are ignored.
pub fn parse_cube(text: &[u8]) -> (r: Result<LUT3DContext, LutError>)
    ensures
        match r {
            Ok(lut) => cube_error(scan_cube(text@)) is None && cube_table(text@, &lut),
            Err(e) => cube_error(scan_cube(text@)) == Some(e),
        },
{
    let mut st = CubeScan {
        size: 0,
        min: Rgb { r: 0, g: 0, b: 0 },
        max: Rgb { r: ONE, g: ONE, b: ONE },
        rows: Vec::new(),
        error: None,
    };
    assert(st.model() == initial_scan());
    let n = text.len();
    let mut i: usize = 0;
    let mut ls: usize = 0;
    while i < n
        invariant
            n == text@.len(),
            ls <= i <= n,
            st.bounded(),
            scan_cube(text@) == scan_from(text@, i as int, ls as int, st.model()),
        decreases n - i,
    {
        if text[i] == 10 {
            let line = slice_subrange(text, ls, i);
            st.scan_line(line);
            ls = i + 1;
        }
        i = i + 1;
    }
    if ls < n {
        let line = slice_subrange(text, ls, n);
        st.scan_line(line);
    }
    assert(scan_cube(text@) == st.model());
    if let Some(e) = st.error {
        return Err(e);
    }
    if st.size == 0 {
        return Err(LutError::InvalidLutSize);
    }
    let size = st.size;
    proof {
        crate::lut3d::lemma_cube_fits(size as int);
    }
    let total = size * size * size;
    if st.rows.len() < total {
        return Err(LutError::LutDataTruncated);
    }
    let mut lut: Vec<Rgb> = Vec::new();
    let mut m: usize = 0;
    while m < total
        invariant
            m <= total <= st.rows@.len(),
            lut@.len() == m,
            st.bounded(),
            forall|k: int| 0 <= k < m ==> rgb_bounded(#[trigger] lut@[k]),
            forall|k: int, ch: int|
                0 <= k < m && 0 <= ch < 3 ==> #[trigger] channel(lut@[k], ch) == scale_component(
                    channel(st.rows@[k], ch),
                    channel(st.min, ch),
                    channel(st.max, ch),
                ),
        decreases total - m,
    {
        let v = st.rows[m];
        let c = Rgb {
            r: scale_value(v.r, st.min.r, st.max.r),
            g: scale_value(v.g, st.min.g, st.max.g),
            b: scale_value(v.b, st.min.b, st.max.b),
        };
        lut.push(c);
        m = m + 1;
    }
    Ok(LUT3DContext { lut, lutsize: size })
}

/// Reading a table file whose domain is the default one (`0..=1` on every
/// axis), then looking up each grid point `(i, j, k)`, gives back the grid
/// point written at rank `i + n*j + n*n*k` of the file: red fastest, then
/// green, then blue.
pub proof fn lemma_cube_round_trip(t: Seq<u8>, lut: &LUT3DContext)
    requires
        cube_table(t, lut),
        scan_cube(t).min == (Rgb { r: 0, g: 0, b: 0 }),
        scan_cube(t).max == (Rgb { r: ONE, g: ONE, b: ONE }),
    ensures
        forall|i: int, j: int, k: int|
            0 <= i < lut.lutsize && 0 <= j < lut.lutsize && 0 <= k < lut.lutsize ==> #[trigger] lut.at(
                i,
                j,
                k,
            ) == scan_cube(t).rows[grid_index(lut.lutsize as int, i, j, k)],
{
    let st = scan_cube(t);
    let n = lut.lutsize as int;
    assert forall|i: int, j: int, k: int|
        0 <= i < n && 0 <= j < n && 0 <= k < n implies #[trigger] lut.at(i, j, k) == st.rows[grid_index(
        n,
        i,
        j,
        k,
    )] by {
        let m = grid_index(n, i, j, k);
        crate::lut3d::lemma_grid_index_bound(n, i, j, k);
        let v = st.rows[m];
        let c = lut.lut@[m];
        assert forall|ch: int| 0 <= ch < 3 implies channel(c, ch) == channel(v, ch) by {
            assert(channel(c, ch) == scale_component(channel(v, ch), 0, ONE as int));
            vstd::arithmetic::div_mod::lemma_div_multiples_vanish(channel(v, ch), ONE as int);
        }
        assert(channel(c, 0) == channel(v, 0));
        assert(channel(c, 1) == channel(v, 1));
        assert(channel(c, 2) == channel(v, 2));
    }
}

} // verus!
