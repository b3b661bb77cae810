//! Invocation arguments: the flags `-a` (show all), `-v` (verbose) and
//! `-N%` (a fixed percentage cutoff), then the query, then word-source paths.

use vstd::prelude::*;
use crate::alignment::{find_from, lemma_find_from_bounds};
use crate::select::{Threshold, UNITS_PER_PERCENT};
use crate::text::chars_of;

verus! {

/// What can go wrong with the arguments.
#[derive(PartialEq, Eq, Structural, Clone, Copy, Debug)]
pub enum ArgError {
    /// No argument was left for the query.
    MissingQuery,
    /// The text between `-` and `%` is not a decimal number.
    NotANumber,
    /// The number between `-` and `%` is above 100.
    NotAPercentage,
}

/// Most fraction digits of a cutoff that count; later ones are dropped.
pub const FRACTION_DIGITS: usize = 9;

pub open spec fn is_digit(c: char) -> bool {
    '0' <= c <= '9'
}

pub open spec fn all_digits(s: Seq<char>) -> bool {
    forall|i: int| 0 <= i < s.len() ==> is_digit(#[trigger] s[i])
}

/// The value of a string of decimal digits.
pub open spec fn digits_value(s: Seq<char>) -> int
    decreases s.len(),
{
    if s.len() == 0 {
        0
    } else {
        digits_value(s.drop_last()) * 10 + (s.last() as int - '0' as int)
    }
}

pub open spec fn pow10(n: nat) -> int
    decreases n,
{
    if n == 0 {
        1
    } else {
        10 * pow10((n - 1) as nat)
    }
}

/// Fraction digits as billionths: the first nine digits, padded with zeros.
pub open spec fn fraction_units(f: Seq<char>) -> int {
    let k = if f.len() < FRACTION_DIGITS { f.len() } else { FRACTION_DIGITS as nat };
    digits_value(f.take(k as int)) * pow10((FRACTION_DIGITS - k) as nat)
}

/// The position of the decimal point in `m`, or `m.len()`.
pub open spec fn point_of(m: Seq<char>) -> int {
    find_from(m, 0, '.')
}

/// Digits, then optionally a point and more digits, with one digit at least.
pub open spec fn is_decimal(m: Seq<char>) -> bool {
    let p = point_of(m);
    &&& all_digits(m.take(p))
    &&& p < m.len() ==> all_digits(m.skip(p + 1))
    &&& (if p < m.len() { m.len() >= 2 } else { m.len() >= 1 })
}

/// The value of a decimal in billionths, fraction digits past the ninth dropped.
pub open spec fn decimal_units(m: Seq<char>) -> int {
    let p = point_of(m);
    digits_value(m.take(p)) * UNITS_PER_PERCENT + if p < m.len() {
        fraction_units(m.skip(p + 1))
    } else {
        0
    }
}

/// `arg` has the shape of a cutoff flag: at least three characters, the
/// first `-` and the last `%`.
pub open spec fn is_threshold_shape(arg: Seq<char>) -> bool {
    arg.len() >= 3 && arg[0] == '-' && arg[arg.len() - 1] == '%'
}

/// The text of a cutoff flag between `-` and `%`.
pub open spec fn threshold_body(arg: Seq<char>) -> Seq<char> {
    arg.subrange(1, arg.len() - 1)
}

/// What a cutoff flag gives.
pub open spec fn threshold_result(arg: Seq<char>) -> Result<Threshold, ArgError> {
    let m = threshold_body(arg);
    if !is_decimal(m) {
        Err(ArgError::NotANumber)
    } else if decimal_units(m) > 100 * UNITS_PER_PERCENT {
        Err(ArgError::NotAPercentage)
    } else {
        Ok(Threshold { units: decimal_units(m) as u64 })
    }
}

proof fn lemma_digits_value_push(s: Seq<char>, k: int)
    requires
        0 <= k < s.len(),
    ensures
        digits_value(s.take(k + 1)) == digits_value(s.take(k)) * 10 + (s[k] as int - '0' as int),
{
    assert(s.take(k + 1).drop_last() =~= s.take(k));
}

proof fn lemma_digits_value_nonneg(s: Seq<char>)
    requires
        all_digits(s),
    ensures
        digits_value(s) >= 0,
    decreases s.len(),
{
    if s.len() > 0 {
        lemma_digits_value_nonneg(s.drop_last());
    }
}

proof fn lemma_digits_value_bound(s: Seq<char>)
    requires
        all_digits(s),
    ensures
        digits_value(s) < pow10(s.len()),
    decreases s.len(),
{
    if s.len() > 0 {
        lemma_digits_value_bound(s.drop_last());
    }
}

/// The value of the digits of `m` from `from` to `to`, capped at `cap`;
/// `None` when one of them is not a digit.
fn digits_capped(m: &Vec<char>, from: usize, to: usize, cap: u64) -> (r: Option<u64>)
    requires
        from <= to <= m@.len(),
        cap <= 1_000_000_000,
    ensures
        r is Some <==> all_digits(m@.subrange(from as int, to as int)),
        r matches Some(v) ==> v as int == if digits_value(m@.subrange(from as int, to as int)) < cap {
            digits_value(m@.subrange(from as int, to as int))
        } else {
            cap as int
        },
{
    let mut acc: u64 = 0;
    let mut i: usize = from;
    while i < to
        invariant
            from <= i <= to <= m@.len(),
            cap <= 1_000_000_000,
            all_digits(m@.subrange(from as int, i as int)),
            acc as int == if digits_value(m@.subrange(from as int, i as int)) < cap {
                digits_value(m@.subrange(from as int, i as int))
            } else {
                cap as int
            },
        decreases to - i,
    {
        let c = m[i];
        if !('0' <= c && c <= '9') {
            proof {
                assert(m@.subrange(from as int, to as int)[i - from] == c);
            }
            return None;
        }
        let d = (c as u32 - '0' as u32) as u64;
        proof {
            let s = m@.subrange(from as int, i as int + 1);
            assert(s.drop_last() =~= m@.subrange(from as int, i as int));
            lemma_digits_value_nonneg(s.drop_last());
        }
        let next = acc * 10 + d;
        acc = if next < cap { next } else { cap };
        i = i + 1;
        proof {
            let s = m@.subrange(from as int, i as int);
            assert forall|k: int| 0 <= k < s.len() implies is_digit(#[trigger] s[k]) by {
                if k < s.len() - 1 {
                    assert(s[k] == m@.subrange(from as int, i - 1)[k]);
                }
            }
        }
    }
    Some(acc)
}

proof fn lemma_pow10_mono(a: nat, b: nat)
    requires
        a <= b,
    ensures
        1 <= pow10(a) <= pow10(b),
    decreases b,
{
    if b > a {
        lemma_pow10_mono(a, (b - 1) as nat);
    } else if a > 0 {
        lemma_pow10_mono((a - 1) as nat, (a - 1) as nat);
    }
}

/// The characters of `a` between the first and the last.
fn inner_chars(a: &Vec<char>) -> (r: Vec<char>)
    requires
        a@.len() >= 2,
    ensures
        r@ == a@.subrange(1, a@.len() - 1),
{
    let mut r: Vec<char> = Vec::new();
    let mut i: usize = 1;
    while i < a.len() - 1
        invariant
            1 <= i <= a@.len() - 1,
            a@.len() >= 2,
            r@ == a@.subrange(1, i as int),
        decreases a@.len() - i,
    {
        r.push(a[i]);
        i = i + 1;
        proof {
            assert(r@ =~= a@.subrange(1, i as int));
        }
    }
    r
}

/// The position of the first `.` in `m`, or `m.len()`.
fn point_in(m: &Vec<char>) -> (r: usize)
    ensures
        r == point_of(m@),
        r <= m@.len(),
{
    proof {
        lemma_find_from_bounds(m@, 0, '.');
    }
    let mut k: usize = 0;
    while k < m.len()
        invariant
            k <= m@.len(),
            find_from(m@, 0, '.') == find_from(m@, k as int, '.'),
        decreases m@.len() - k,
    {
        if m[k] == '.' {
            return k;
        }
        k = k + 1;
    }
    k
}

/// Whether `arg` has the shape of a cutoff flag, `-N%`.
pub fn is_threshold_flag(arg: &Vec<char>) -> (r: bool)
    ensures
        r == is_threshold_shape(arg@),
{
    arg.len() >= 3 && arg[0] == '-' && arg[arg.len() - 1] == '%'
}

/// Reads the cutoff of a flag `-N%`: `N` is digits with at most one point
/// and at least one digit, read exactly to the ninth fraction digit, and at
/// most 100.
pub fn parse_threshold(arg: &Vec<char>) -> (r: Result<Threshold, ArgError>)
    requires
        is_threshold_shape(arg@),
    ensures
        r == threshold_result(arg@),
        r matches Ok(t) ==> t.wf(),
{
    let m = inner_chars(arg);
    let ghost ms = m@;
    let p = point_in(&m);
    let len = m.len();
    proof {
        assert(ms =~= threshold_body(arg@));
        assert(ms.take(p as int) =~= ms.subrange(0, p as int));
    }
    let has_point = p < len;
    if (has_point && len < 2) || len < 1 {
        return Err(ArgError::NotANumber);
    }
    let whole = match digits_capped(&m, 0, p, 101) {
        Some(v) => v,
        None => {
            return Err(ArgError::NotANumber);
        },
    };
    let mut frac: u64 = 0;
    if has_point {
        proof {
            assert(ms.skip(p + 1) =~= ms.subrange(p + 1, len as int));
        }
        if digits_capped(&m, p + 1, len, 1).is_none() {
            return Err(ArgError::NotANumber);
        }
        let avail = len - (p + 1);
        let k = if avail < FRACTION_DIGITS { avail } else { FRACTION_DIGITS };
        let ghost f = ms.skip(p + 1);
        proof {
            assert(f.take(k as int) =~= ms.subrange(p + 1, p + 1 + k));
            assert(all_digits(f.take(k as int)));
            lemma_digits_value_bound(f.take(k as int));
            lemma_digits_value_nonneg(f.take(k as int));
            lemma_pow10_mono(k as nat, 9);
            reveal_with_fuel(pow10, 10);
            assert(pow10(9) == 1_000_000_000);
        }
        match digits_capped(&m, p + 1, p + 1 + k, 1_000_000_000) {
            Some(v) => {
                frac = v;
            },
            None => {
                return Err(ArgError::NotANumber);
            },
        }
        proof {
            assert(pow10(0) == 1);
            assert(frac as int == digits_value(f.take(k as int)));
            assert(frac as int == digits_value(f.take(k as int)) * pow10(0));
        }
        let mut t: usize = k;
        while t < FRACTION_DIGITS
            invariant
                k <= t <= FRACTION_DIGITS,
                frac as int == digits_value(f.take(k as int)) * pow10((t - k) as nat),
                frac < pow10(t as nat),
                digits_value(f.take(k as int)) >= 0,
            decreases FRACTION_DIGITS - t,
        {
            proof {
                lemma_pow10_mono(t as nat, 8);
                reveal_with_fuel(pow10, 9);
                assert(pow10(8) == 100_000_000);
                let dv = digits_value(f.take(k as int));
                let pw = pow10((t - k) as nat);
                assert(pow10((t + 1 - k) as nat) == 10 * pw);
                assert(dv * pw * 10 == dv * (10 * pw)) by (nonlinear_arith);
            }
            frac = frac * 10;
            t = t + 1;
        }
    }
    if whole >= 101 {
        return Err(ArgError::NotAPercentage);
    }
    let units = whole * UNITS_PER_PERCENT + frac;
    if units > 100 * UNITS_PER_PERCENT {
        return Err(ArgError::NotAPercentage);
    }
    Ok(Threshold { units })
}

/// `a` is the flag `-a`.
pub open spec fn is_all_flag(a: Seq<char>) -> bool {
    a.len() == 2 && a[0] == '-' && a[1] == 'a'
}

/// `a` is the flag `-v`.
pub open spec fn is_verbose_flag(a: Seq<char>) -> bool {
    a.len() == 2 && a[0] == '-' && a[1] == 'v'
}

/// Reads flags from position `i` on, with what earlier flags set: the
/// position of the query and the settings, or the first error. A later
/// cutoff flag replaces an earlier one.
pub open spec fn scan_flags(
    args: Seq<Seq<char>>,
    i: int,
    all: bool,
    verbose: bool,
    threshold: Option<Threshold>,
) -> Result<(int, bool, bool, Option<Threshold>), ArgError>
    decreases args.len() - i,
{
    if i < 0 || i >= args.len() {
        Err(ArgError::MissingQuery)
    } else if is_all_flag(args[i]) {
        scan_flags(args, i + 1, true, verbose, threshold)
    } else if is_verbose_flag(args[i]) {
        scan_flags(args, i + 1, all, true, threshold)
    } else if is_threshold_shape(args[i]) {
        match threshold_result(args[i]) {
            Ok(t) => scan_flags(args, i + 1, all, verbose, Some(t)),
            Err(e) => Err(e),
        }
    } else {
        Ok((i, all, verbose, threshold))
    }
}

/// What an invocation asks for. An empty `files` means the default word list.
pub struct Invocation {
    pub query: String,
    pub all: bool,
    pub verbose: bool,
    pub threshold: Option<Threshold>,
    pub files: Vec<String>,
}

pub open spec fn views_of(v: Seq<String>) -> Seq<Seq<char>> {
    v.map_values(|s: String| s@)
}

/// `r` is what reading `args` gives: the query and the settings that the
/// flags before it make, and the paths after it; or the first error.
pub open spec fn parse_outcome(args: Seq<String>, r: Result<Invocation, ArgError>) -> bool {
    match (r, scan_flags(views_of(args), 0, false, false, None)) {
        (Ok(inv), Ok((q, a, v, t))) => {
            &&& inv.query@ == args[q]@
            &&& inv.all == a
            &&& inv.verbose == v
            &&& inv.threshold == t
            &&& views_of(inv.files@) == views_of(args.skip(q + 1))
        },
        (Err(e), Err(f)) => e == f,
        _ => false,
    }
}

/// Reads the arguments that follow the program name: flags, the query, then
/// the paths of the word sources.
pub fn parse_args(args: Vec<String>) -> (r: Result<Invocation, ArgError>)
    ensures
        parse_outcome(args@, r),
        r matches Ok(inv) ==> (inv.threshold matches Some(t) ==> t.wf()),
{
    let ghost orig = args@;
    let ghost views = views_of(orig);
    let mut rest = args;
    let mut all = false;
    let mut verbose = false;
    let mut threshold: Option<Threshold> = None;
    let ghost mut i: int = 0;
    loop
        invariant
            0 <= i <= orig.len(),
            orig == args@,
            views == views_of(orig),
            rest@ == orig.skip(i),
            scan_flags(views, 0, false, false, None) == scan_flags(views, i, all, verbose, threshold),
            threshold matches Some(t) ==> t.wf(),
        decreases rest@.len(),
    {
        if rest.len() == 0 {
            return Err(ArgError::MissingQuery);
        }
        let arg = rest.remove(0);
        assert(arg == orig[i]);
        assert(views[i] == arg@);
        let a = chars_of(arg.as_str());
        if a.len() == 2 && a[0] == '-' && a[1] == 'a' {
            all = true;
        } else if a.len() == 2 && a[0] == '-' && a[1] == 'v' {
            verbose = true;
        } else if is_threshold_flag(&a) {
            match parse_threshold(&a) {
                Ok(t) => {
                    threshold = Some(t);
                },
                Err(e) => {
                    return Err(e);
                },
            }
        } else {
            proof {
                assert(rest@ =~= orig.skip(i + 1));
                assert(views_of(rest@) =~= views_of(orig.skip(i + 1)));
            }
            return Ok(Invocation { query: arg, all, verbose, threshold, files: rest });
        }
        proof {
            i = i + 1;
            assert(rest@ =~= orig.skip(i));
        }
    }
}

} // verus!
