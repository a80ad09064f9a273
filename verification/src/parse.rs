//! Parsers for the command-line arguments.
//!
//! A raster size is written `"400x600"`: two decimal numbers around a
//! separator character, each with an optional leading `+`.  A plane point
//! is written `"1.25,-0.0625"`: two signed decimals around a comma, each an
//! optional sign, a mantissa with at most one point, and an optional
//! exponent part (`"2.5e-3"`).  A coordinate is accepted exactly when its
//! value is a whole number of millionths (the fixed-point resolution) in
//! the range the library admits: the fraction digits, less the exponent,
//! may not outrun six.

use vstd::prelude::*;

use crate::plane::{ComplexPoint, COORD_LIMIT};

verus! {

/// `c` is one of the decimal digits `'0'` to `'9'`.
pub open spec fn is_dec_digit(c: char) -> bool {
    48 <= c as u32 <= 57
}

/// Numeric value of the decimal digit `c`.
pub open spec fn digit_val(c: char) -> int {
    c as u32 - 48
}

/// Every character of `s` is a decimal digit.
pub open spec fn all_dec_digits(s: Seq<char>) -> bool {
    forall|j: int| 0 <= j < s.len() ==> is_dec_digit(#[trigger] s[j])
}

/// Value of `s` read as a decimal numeral, the empty sequence reading as 0.
pub open spec fn dec_val(s: Seq<char>) -> int
    decreases s.len(),
{
    if s.len() == 0 {
        0
    } else {
        10 * dec_val(s.drop_last()) + digit_val(s.last())
    }
}

/// Index of the first occurrence of `sep` in `s`, or -1 if there is none.
pub open spec fn sep_index(s: Seq<char>, sep: char) -> int
    decreases s.len(),
{
    if s.len() == 0 {
        -1
    } else if s[0] == sep {
        0
    } else if sep_index(s.drop_first(), sep) == -1 {
        -1
    } else {
        1 + sep_index(s.drop_first(), sep)
    }
}

/// What stands before the first occurrence of `sep` in `s`.
pub open spec fn left_of(s: Seq<char>, sep: char) -> Seq<char> {
    s.subrange(0, sep_index(s, sep))
}

/// What stands after the first occurrence of `sep` in `s`.
pub open spec fn right_of(s: Seq<char>, sep: char) -> Seq<char> {
    s.subrange(sep_index(s, sep) + 1, s.len() as int)
}

/// `s` with one leading `+` removed: the unsigned parser accepts an
/// optional plus sign, as `usize::from_str` does.
pub open spec fn unsigned_body(s: Seq<char>) -> Seq<char> {
    if s.len() > 0 && s[0] == '+' {
        s.drop_first()
    } else {
        s
    }
}

/// `s` is an optional `+` and then a nonempty run of decimal digits whose
/// value fits a `usize`.
pub open spec fn parses_as_number(s: Seq<char>) -> bool {
    1 <= unsigned_body(s).len() && all_dec_digits(unsigned_body(s)) && dec_val(
        unsigned_body(s),
    ) <= usize::MAX
}

/// A numeral's value is never negative.
proof fn lemma_dec_val_nonneg(s: Seq<char>)
    requires
        all_dec_digits(s),
    ensures
        0 <= dec_val(s),
    decreases s.len(),
{
    if s.len() > 0 {
        assert forall|j: int| 0 <= j < s.drop_last().len() implies is_dec_digit(
            #[trigger] s.drop_last()[j],
        ) by {
            assert(s.drop_last()[j] == s[j]);
        }
        lemma_dec_val_nonneg(s.drop_last());
    }
}

/// Reading only a prefix of a numeral never reads a larger value.
proof fn lemma_dec_val_prefix_le(s: Seq<char>, i: int)
    requires
        all_dec_digits(s),
        0 <= i <= s.len(),
    ensures
        dec_val(s.subrange(0, i)) <= dec_val(s),
    decreases s.len(),
{
    if i == s.len() {
        assert(s.subrange(0, i) =~= s);
    } else {
        let t = s.drop_last();
        assert forall|j: int| 0 <= j < t.len() implies is_dec_digit(
            #[trigger] t[j],
        ) by {
            assert(t[j] == s[j]);
        }
        assert(s.subrange(0, i) =~= t.subrange(0, i));
        lemma_dec_val_prefix_le(t, i);
        lemma_dec_val_nonneg(t);
    }
}

/// When the first occurrence of `sep` in `s` stands at `i`, `sep_index`
/// finds exactly that index.
proof fn lemma_sep_index_of_first(s: Seq<char>, sep: char, i: int)
    requires
        0 <= i < s.len(),
        s[i] == sep,
        forall|j: int| 0 <= j < i ==> s[j] != sep,
    ensures
        sep_index(s, sep) == i,
    decreases s.len(),
{
    if i > 0 {
        let t = s.drop_first();
        assert(t[i - 1] == s[i]);
        assert forall|j: int| 0 <= j < i - 1 implies #[trigger] t[j] != sep by {
            assert(t[j] == s[j + 1]);
        }
        lemma_sep_index_of_first(t, sep, i - 1);
    }
}

/// When `sep` occurs nowhere in `s`, `sep_index` reports -1.
proof fn lemma_sep_index_none(s: Seq<char>, sep: char)
    requires
        forall|j: int| 0 <= j < s.len() ==> s[j] != sep,
    ensures
        sep_index(s, sep) == -1,
    decreases s.len(),
{
    if s.len() > 0 {
        let t = s.drop_first();
        assert forall|j: int| 0 <= j < t.len() implies #[trigger] t[j] != sep by {
            assert(t[j] == s[j + 1]);
        }
        lemma_sep_index_none(t, sep);
    }
}

/// Index of the first occurrence of `sep` in `s`, if there is one.
fn find_sep(s: &str, sep: char) -> (r: Option<usize>)
    ensures
        r matches Some(i) ==> i < s@.len() && s@[i as int] == sep && i as int
            == sep_index(s@, sep),
        r is None ==> sep_index(s@, sep) == -1,
{
    let n = s.unicode_len();
    let mut i: usize = 0;
    while i < n
        invariant
            i <= n,
            n == s@.len(),
            forall|j: int| 0 <= j < i ==> s@[j] != sep,
        decreases n - i,
    {
        let c = s.get_char(i);
        if c == sep {
            proof {
                lemma_sep_index_of_first(s@, sep, i as int);
            }
            return Some(i);
        }
        i = i + 1;
    }
    proof {
        lemma_sep_index_none(s@, sep);
    }
    None
}

/// Read `s` as a decimal numeral with an optional leading `+`.  `None` when
/// `s` holds anything else, has no digit, or its value does not fit a
/// `usize`.
pub fn parse_number(s: &str) -> (r: Option<usize>)
    ensures
        r is Some <==> parses_as_number(s@),
        r matches Some(v) ==> v == dec_val(unsigned_body(s@)),
{
    let n = s.unicode_len();
    let mut start: usize = 0;
    if n > 0 && s.get_char(0) == '+' {
        start = 1;
    }
    let t = s.substring_char(start, n);
    let tn = n - start;
    proof {
        assert(t@ =~= unsigned_body(s@));
    }
    if tn == 0 {
        return None;
    }
    let mut acc: usize = 0;
    let mut i: usize = 0;
    while i < tn
        invariant
            i <= tn,
            tn == t@.len(),
            1 <= tn,
            t@ == unsigned_body(s@),
            all_dec_digits(t@.subrange(0, i as int)),
            acc == dec_val(t@.subrange(0, i as int)),
        decreases tn - i,
    {
        let c = t.get_char(i);
        let code = c as u32;
        if code < 48 || code > 57 {
            return None;
        }
        let d = (code - 48) as usize;
        if acc > (usize::MAX - d) / 10 {
            proof {
                let prefix = t@.subrange(0, i as int + 1);
                assert(prefix.drop_last() =~= t@.subrange(0, i as int));
                assert(prefix.last() == t@[i as int]);
                assert(dec_val(prefix) > usize::MAX);
                if all_dec_digits(t@) {
                    lemma_dec_val_prefix_le(t@, i as int + 1);
                }
            }
            return None;
        }
        acc = acc * 10 + d;
        proof {
            let prefix = t@.subrange(0, i as int + 1);
            assert(prefix.drop_last() =~= t@.subrange(0, i as int));
            assert(prefix.last() == t@[i as int]);
        }
        i = i + 1;
    }
    proof {
        assert(t@.subrange(0, tn as int) =~= t@);
    }
    Some(acc)
}

/// `10^n`.
pub open spec fn pow10(n: nat) -> int
    decreases n,
{
    if n == 0 {
        1
    } else {
        10 * pow10((n - 1) as nat)
    }
}

proof fn lemma_pow10_pos(n: nat)
    ensures
        1 <= pow10(n),
    decreases n,
{
    if n > 0 {
        lemma_pow10_pos((n - 1) as nat);
    }
}

proof fn lemma_pow10_mono(a: nat, b: nat)
    requires
        a <= b,
    ensures
        pow10(a) <= pow10(b),
    decreases b,
{
    if a < b {
        lemma_pow10_mono(a, (b - 1) as nat);
        lemma_pow10_pos((b - 1) as nat);
    }
}

/// A numeral of `n` digits reads below `10^n`.
proof fn lemma_dec_val_upper(s: Seq<char>)
    requires
        all_dec_digits(s),
    ensures
        dec_val(s) < pow10(s.len()),
    decreases s.len(),
{
    if s.len() > 0 {
        let t = s.drop_last();
        assert forall|j: int| 0 <= j < t.len() implies is_dec_digit(
            #[trigger] t[j],
        ) by {
            assert(t[j] == s[j]);
        }
        lemma_dec_val_upper(t);
    }
}

/// `s` with a leading sign character removed.
pub open spec fn signless(s: Seq<char>) -> Seq<char> {
    if s.len() > 0 && (s[0] == '-' || s[0] == '+') {
        s.drop_first()
    } else {
        s
    }
}

/// `s` carries a leading minus sign.
pub open spec fn is_negative(s: Seq<char>) -> bool {
    s.len() > 0 && s[0] == '-'
}

/// `c` introduces the exponent part of a decimal.
pub open spec fn is_exp_marker(c: char) -> bool {
    c == 'e' || c == 'E'
}

/// Index of the first exponent marker in `s`, or -1 if there is none.
pub open spec fn marker_index(s: Seq<char>) -> int
    decreases s.len(),
{
    if s.len() == 0 {
        -1
    } else if is_exp_marker(s[0]) {
        0
    } else if marker_index(s.drop_first()) == -1 {
        -1
    } else {
        1 + marker_index(s.drop_first())
    }
}

/// The mantissa: what stands before the first exponent marker.
pub open spec fn mantissa_of(t: Seq<char>) -> Seq<char> {
    if marker_index(t) < 0 {
        t
    } else {
        t.subrange(0, marker_index(t))
    }
}

/// The exponent text: what stands after the first exponent marker.
pub open spec fn exponent_of(t: Seq<char>) -> Seq<char> {
    t.subrange(marker_index(t) + 1, t.len() as int)
}

/// The mantissa is digits with at most one point and at least one digit.
pub open spec fn mant_valid(m: Seq<char>) -> bool {
    if sep_index(m, '.') < 0 {
        1 <= m.len() && all_dec_digits(m)
    } else {
        1 <= left_of(m, '.').len() + right_of(m, '.').len() && all_dec_digits(
            left_of(m, '.'),
        ) && all_dec_digits(right_of(m, '.'))
    }
}

/// All the mantissa's digits read as one numeral, the point dropped.
pub open spec fn mant_digits(m: Seq<char>) -> int {
    if sep_index(m, '.') < 0 {
        dec_val(m)
    } else {
        dec_val(left_of(m, '.')) * pow10(right_of(m, '.').len()) + dec_val(
            right_of(m, '.'),
        )
    }
}

/// How many digits of the mantissa stand after the point.
pub open spec fn mant_frac_len(m: Seq<char>) -> int {
    if sep_index(m, '.') < 0 {
        0
    } else {
        right_of(m, '.').len() as int
    }
}

/// The exponent text is an optional sign and then at least one digit.
pub open spec fn exp_text_valid(es: Seq<char>) -> bool {
    1 <= signless(es).len() && all_dec_digits(signless(es))
}

/// Signed value of the exponent text.
pub open spec fn exp_text_val(es: Seq<char>) -> int {
    if is_negative(es) {
        -dec_val(signless(es))
    } else {
        dec_val(signless(es))
    }
}

/// The exponent of the sign-stripped coordinate text, 0 when none is
/// written.
pub open spec fn exp_val_of(t: Seq<char>) -> int {
    if marker_index(t) < 0 {
        0
    } else {
        exp_text_val(exponent_of(t))
    }
}

/// By how many decimal places the mantissa's digits are shifted left when
/// the value is expressed in millionths: six, less the fraction digits,
/// plus the written exponent.
pub open spec fn coord_shift(t: Seq<char>) -> int {
    6 - mant_frac_len(mantissa_of(t)) + exp_val_of(t)
}

/// `s` is a signed decimal the library can represent: an optional sign, a
/// mantissa of digits with at most one point, an optional exponent part,
/// and a decimal shift that is not negative, so that the value is a whole
/// number of millionths.
pub open spec fn coord_valid(s: Seq<char>) -> bool {
    let t = signless(s);
    mant_valid(mantissa_of(t)) && (marker_index(t) >= 0 ==> exp_text_valid(
        exponent_of(t),
    )) && 0 <= coord_shift(t)
}

/// Magnitude of the coordinate written in `s`, in fixed-point units: the
/// mantissa's digits shifted left by the decimal shift.
pub open spec fn coord_magnitude(s: Seq<char>) -> int {
    let t = signless(s);
    mant_digits(mantissa_of(t)) * pow10(coord_shift(t) as nat)
}

/// Signed value of the coordinate written in `s`, in fixed-point units.
pub open spec fn coord_val(s: Seq<char>) -> int {
    if is_negative(s) {
        -coord_magnitude(s)
    } else {
        coord_magnitude(s)
    }
}

/// Read `s` as a run of decimal digits, the empty run reading as 0.
fn parse_digits(s: &str) -> (r: Option<u64>)
    ensures
        r is Some <==> all_dec_digits(s@) && dec_val(s@) <= u64::MAX,
        r matches Some(v) ==> v == dec_val(s@),
{
    let n = s.unicode_len();
    let mut acc: u64 = 0;
    let mut i: usize = 0;
    while i < n
        invariant
            i <= n,
            n == s@.len(),
            all_dec_digits(s@.subrange(0, i as int)),
            acc == dec_val(s@.subrange(0, i as int)),
        decreases n - i,
    {
        let c = s.get_char(i);
        let code = c as u32;
        if code < 48 || code > 57 {
            return None;
        }
        let d = (code - 48) as u64;
        if acc > (u64::MAX - d) / 10 {
            proof {
                let prefix = s@.subrange(0, i as int + 1);
                assert(prefix.drop_last() =~= s@.subrange(0, i as int));
                assert(prefix.last() == s@[i as int]);
                assert(dec_val(prefix) > u64::MAX);
                if all_dec_digits(s@) {
                    lemma_dec_val_prefix_le(s@, i as int + 1);
                }
            }
            return None;
        }
        acc = acc * 10 + d;
        proof {
            let prefix = s@.subrange(0, i as int + 1);
            assert(prefix.drop_last() =~= s@.subrange(0, i as int));
            assert(prefix.last() == s@[i as int]);
        }
        i = i + 1;
    }
    proof {
        assert(s@.subrange(0, n as int) =~= s@);
    }
    Some(acc)
}

/// The empty string.
fn empty_str() -> (r: &'static str)
    ensures
        r@.len() == 0,
{
    proof {
        reveal_strlit("");
    }
    ""
}

/// When the first exponent marker in `s` stands at `i`, `marker_index`
/// finds exactly that index.
proof fn lemma_marker_index_of_first(s: Seq<char>, i: int)
    requires
        0 <= i < s.len(),
        is_exp_marker(s[i]),
        forall|j: int| 0 <= j < i ==> !is_exp_marker(#[trigger] s[j]),
    ensures
        marker_index(s) == i,
    decreases s.len(),
{
    if i > 0 {
        let t = s.drop_first();
        assert(t[i - 1] == s[i]);
        assert forall|j: int| 0 <= j < i - 1 implies !is_exp_marker(
            #[trigger] t[j],
        ) by {
            assert(t[j] == s[j + 1]);
        }
        lemma_marker_index_of_first(t, i - 1);
    }
}

/// When no exponent marker occurs in `s`, `marker_index` reports -1.
proof fn lemma_marker_index_none(s: Seq<char>)
    requires
        forall|j: int| 0 <= j < s.len() ==> !is_exp_marker(#[trigger] s[j]),
    ensures
        marker_index(s) == -1,
    decreases s.len(),
{
    if s.len() > 0 {
        let t = s.drop_first();
        assert forall|j: int| 0 <= j < t.len() implies !is_exp_marker(
            #[trigger] t[j],
        ) by {
            assert(t[j] == s[j + 1]);
        }
        lemma_marker_index_none(t);
    }
}

/// Index of the first exponent marker in `s`, if there is one.
fn find_marker(s: &str) -> (r: Option<usize>)
    ensures
        r matches Some(i) ==> i < s@.len() && is_exp_marker(s@[i as int]) && i
            as int == marker_index(s@),
        r is None ==> marker_index(s@) == -1,
{
    let n = s.unicode_len();
    let mut i: usize = 0;
    while i < n
        invariant
            i <= n,
            n == s@.len(),
            forall|j: int| 0 <= j < i ==> !is_exp_marker(#[trigger] s@[j]),
        decreases n - i,
    {
        let c = s.get_char(i);
        if c == 'e' || c == 'E' {
            proof {
                lemma_marker_index_of_first(s@, i as int);
            }
            return Some(i);
        }
        i = i + 1;
    }
    proof {
        lemma_marker_index_none(s@);
    }
    None
}

/// Whether every character of `s` is a decimal digit.
fn all_digits_check(s: &str) -> (r: bool)
    ensures
        r == all_dec_digits(s@),
{
    let n = s.unicode_len();
    let mut i: usize = 0;
    while i < n
        invariant
            i <= n,
            n == s@.len(),
            forall|j: int| 0 <= j < i ==> is_dec_digit(#[trigger] s@[j]),
        decreases n - i,
    {
        let code = s.get_char(i) as u32;
        if code < 48 || code > 57 {
            assert(!is_dec_digit(s@[i as int]));
            return false;
        }
        i = i + 1;
    }
    true
}

/// Read `s` as a run of decimal digits into 128 bits, the empty run
/// reading as 0.
fn parse_digits_u128(s: &str) -> (r: Option<u128>)
    ensures
        r is Some <==> all_dec_digits(s@) && dec_val(s@) <= u128::MAX,
        r matches Some(v) ==> v == dec_val(s@),
{
    let n = s.unicode_len();
    let mut acc: u128 = 0;
    let mut i: usize = 0;
    while i < n
        invariant
            i <= n,
            n == s@.len(),
            all_dec_digits(s@.subrange(0, i as int)),
            acc == dec_val(s@.subrange(0, i as int)),
        decreases n - i,
    {
        let c = s.get_char(i);
        let code = c as u32;
        if code < 48 || code > 57 {
            return None;
        }
        let d = (code - 48) as u128;
        if acc > (u128::MAX - d) / 10 {
            proof {
                let prefix = s@.subrange(0, i as int + 1);
                assert(prefix.drop_last() =~= s@.subrange(0, i as int));
                assert(prefix.last() == s@[i as int]);
                assert(dec_val(prefix) > u128::MAX);
                if all_dec_digits(s@) {
                    lemma_dec_val_prefix_le(s@, i as int + 1);
                }
            }
            return None;
        }
        acc = acc * 10 + d;
        proof {
            let prefix = s@.subrange(0, i as int + 1);
            assert(prefix.drop_last() =~= s@.subrange(0, i as int));
            assert(prefix.last() == s@[i as int]);
        }
        i = i + 1;
    }
    proof {
        assert(s@.subrange(0, n as int) =~= s@);
    }
    Some(acc)
}

/// `10^e`, for the small shifts the coordinate range admits.
fn pow10_u128(e: usize) -> (r: u128)
    requires
        e <= 19,
    ensures
        r == pow10(e as nat),
{
    let mut r: u128 = 1;
    let mut i: usize = 0;
    while i < e
        invariant
            i <= e <= 19,
            r == pow10(i as nat),
        decreases e - i,
    {
        proof {
            lemma_pow10_mono(i as nat, 18);
            assert(pow10(18) == 1_000_000_000_000_000_000) by {
                reveal_with_fuel(pow10, 19);
            }
            assert(pow10((i + 1) as nat) == 10 * pow10(i as nat));
        }
        r = r * 10;
        i = i + 1;
    }
    r
}

/// Scaling a magnitude by a positive power never shrinks it.
proof fn lemma_scale_keeps_lower(m: int, p: int)
    by (nonlinear_arith)
    requires
        0 <= m,
        1 <= p,
    ensures
        m <= m * p,
{
}

/// The mantissa's numeral is at least its integer part's and at least its
/// fraction part's, and never negative.
proof fn lemma_mant_digits_bounds(m: Seq<char>)
    requires
        mant_valid(m),
    ensures
        0 <= mant_digits(m),
        sep_index(m, '.') < 0 ==> mant_digits(m) == dec_val(m),
        sep_index(m, '.') >= 0 ==> dec_val(left_of(m, '.')) <= mant_digits(m)
            && dec_val(right_of(m, '.')) <= mant_digits(m),
{
    if sep_index(m, '.') < 0 {
        lemma_dec_val_nonneg(m);
    } else {
        let ip = left_of(m, '.');
        let fp = right_of(m, '.');
        lemma_dec_val_nonneg(ip);
        lemma_dec_val_nonneg(fp);
        lemma_pow10_pos(fp.len());
        lemma_scale_keeps_lower(dec_val(ip), pow10(fp.len()));
        vstd::arithmetic::mul::lemma_mul_nonnegative(dec_val(ip), pow10(fp.len()));
    }
}

/// A valid coordinate's magnitude is at least its mantissa's numeral and
/// never negative.
proof fn lemma_magnitude_at_least_mantissa(s: Seq<char>)
    requires
        coord_valid(s),
    ensures
        mant_digits(mantissa_of(signless(s))) <= coord_magnitude(s),
        0 <= coord_magnitude(s),
{
    let t = signless(s);
    let m = mantissa_of(t);
    lemma_mant_digits_bounds(m);
    lemma_pow10_pos(coord_shift(t) as nat);
    lemma_scale_keeps_lower(mant_digits(m), pow10(coord_shift(t) as nat));
    vstd::arithmetic::mul::lemma_mul_nonnegative(
        mant_digits(m),
        pow10(coord_shift(t) as nat),
    );
}

/// A valid coordinate with a nonzero mantissa and a shift of twenty or
/// more lies far outside the accepted range.
proof fn lemma_magnitude_of_big_shift(s: Seq<char>)
    requires
        coord_valid(s),
        1 <= mant_digits(mantissa_of(signless(s))),
        20 <= coord_shift(signless(s)),
    ensures
        COORD_LIMIT < coord_magnitude(s),
{
    let t = signless(s);
    let sh = coord_shift(t) as nat;
    lemma_pow10_mono(20, sh);
    assert(pow10(20) == 100_000_000_000_000_000_000) by {
        reveal_with_fuel(pow10, 21);
    }
    assert(pow10(sh) <= mant_digits(mantissa_of(t)) * pow10(sh))
        by (nonlinear_arith)
        requires
            1 <= mant_digits(mantissa_of(t)),
            0 <= pow10(sh),
    ;
}

/// A mantissa whose integer part is nonzero and whose fraction runs to
/// twenty or more digits reads far outside the accepted range.
proof fn lemma_mant_digits_of_long_fraction(m: Seq<char>)
    requires
        mant_valid(m),
        0 <= sep_index(m, '.'),
        1 <= dec_val(left_of(m, '.')),
        20 <= right_of(m, '.').len(),
    ensures
        100_000_000_000_000_000_000 <= mant_digits(m),
{
    let ip = left_of(m, '.');
    let fp = right_of(m, '.');
    lemma_pow10_mono(20, fp.len());
    assert(pow10(20) == 100_000_000_000_000_000_000) by {
        reveal_with_fuel(pow10, 21);
    }
    assert(pow10(fp.len()) <= dec_val(ip) * pow10(fp.len()))
        by (nonlinear_arith)
        requires
            1 <= dec_val(ip),
            0 <= pow10(fp.len()),
    ;
    lemma_dec_val_nonneg(fp);
}

/// A coordinate whose mantissa digits all read zero has magnitude zero,
/// whatever its shift.
proof fn lemma_zero_digits_zero_magnitude(s: Seq<char>)
    requires
        ({
            let m = mantissa_of(signless(s));
            if sep_index(m, '.') < 0 {
                dec_val(m) == 0
            } else {
                dec_val(left_of(m, '.')) == 0 && dec_val(right_of(m, '.')) == 0
            }
        }),
    ensures
        coord_magnitude(s) == 0,
{
    let t = signless(s);
    let m = mantissa_of(t);
    if sep_index(m, '.') >= 0 {
        vstd::arithmetic::mul::lemma_mul_basics(pow10(right_of(m, '.').len()));
    }
    vstd::arithmetic::mul::lemma_mul_basics(pow10(coord_shift(t) as nat));
}

/// Read `s` as a signed decimal coordinate, e.g. `"-1.25"` or `"2.5e-3"`.
/// `None` when `s` is not such a decimal, when its value is not a whole
/// number of millionths (the fraction outruns the exponent), or when its
/// magnitude is beyond what the library accepts.
#[verifier::rlimit(100)]
pub fn parse_coord(s: &str) -> (r: Option<i64>)
    ensures
        r is Some <==> coord_valid(s@) && coord_magnitude(s@) <= COORD_LIMIT,
        r matches Some(v) ==> v == coord_val(s@) && -COORD_LIMIT <= v
            <= COORD_LIMIT,
{
    let n = s.unicode_len();
    let mut neg = false;
    let mut start: usize = 0;
    if n > 0 {
        let c0 = s.get_char(0);
        if c0 == '-' {
            neg = true;
            start = 1;
        } else if c0 == '+' {
            start = 1;
        }
    }
    let t = s.substring_char(start, n);
    let tn = n - start;
    proof {
        assert(t@ =~= signless(s@));
        assert(neg == is_negative(s@));
    }
    let marker = find_marker(t);
    let (mant, es): (&str, &str) = match marker {
        Some(e) => (t.substring_char(0, e), t.substring_char(e + 1, tn)),
        None => (t, empty_str()),
    };
    proof {
        if marker is Some {
            assert(mant@ =~= mantissa_of(t@));
            assert(es@ =~= exponent_of(t@));
        } else {
            assert(mant@ =~= mantissa_of(t@));
        }
    }
    let mn = mant.unicode_len();
    let dot = find_sep(mant, '.');
    let (ip, fp): (&str, &str) = match dot {
        Some(d) => (mant.substring_char(0, d), mant.substring_char(d + 1, mn)),
        None => (mant, empty_str()),
    };
    proof {
        if dot is Some {
            assert(ip@ =~= left_of(mant@, '.'));
            assert(fp@ =~= right_of(mant@, '.'));
        }
    }
    let ipn = ip.unicode_len();
    let fpn = fp.unicode_len();
    if ipn == 0 && fpn == 0 {
        return None;
    }
    if !all_digits_check(ip) {
        return None;
    }
    if !all_digits_check(fp) {
        return None;
    }
    let ipv: u64 = match parse_digits(ip) {
        Some(v) => v,
        None => {
            proof {
                if coord_valid(s@) {
                    lemma_mant_digits_bounds(mant@);
                    lemma_magnitude_at_least_mantissa(s@);
                }
            }
            return None;
        },
    };
    let fpv: u64 = match parse_digits(fp) {
        Some(v) => v,
        None => {
            proof {
                if coord_valid(s@) {
                    lemma_mant_digits_bounds(mant@);
                    lemma_magnitude_at_least_mantissa(s@);
                }
            }
            return None;
        },
    };
    proof {
        lemma_mant_digits_bounds(mant@);
    }
    let shift_i: i128;
    match marker {
        None => {
            shift_i = 6 - fpn as i128;
        },
        Some(_) => {
            let en = es.unicode_len();
            let mut eneg = false;
            let mut es_start: usize = 0;
            if en > 0 {
                let e0 = es.get_char(0);
                if e0 == '-' {
                    eneg = true;
                    es_start = 1;
                } else if e0 == '+' {
                    es_start = 1;
                }
            }
            let eb = es.substring_char(es_start, en);
            proof {
                assert(eb@ =~= signless(es@));
                assert(eneg == is_negative(es@));
            }
            if en - es_start == 0 {
                return None;
            }
            if !all_digits_check(eb) {
                return None;
            }
            match parse_digits_u128(eb) {
                None => {
                    // the exponent numeral is beyond 128 bits
                    if eneg {
                        return None;
                    }
                    if ipv == 0 && fpv == 0 {
                        proof {
                            lemma_zero_digits_zero_magnitude(s@);
                        }
                        return Some(0);
                    }
                    proof {
                        if coord_valid(s@) {
                            lemma_magnitude_of_big_shift(s@);
                        }
                    }
                    return None;
                },
                Some(ev) => {
                    if eneg {
                        if ev > 1_000_000_000_000_000_000_000 {
                            return None;
                        }
                        shift_i = 6 - fpn as i128 - ev as i128;
                    } else {
                        if ev > 1_000_000_000_000_000_000_000 {
                            if ipv == 0 && fpv == 0 {
                                proof {
                                    lemma_zero_digits_zero_magnitude(s@);
                                }
                                return Some(0);
                            }
                            proof {
                                if coord_valid(s@) {
                                    lemma_magnitude_of_big_shift(s@);
                                }
                            }
                            return None;
                        }
                        shift_i = 6 - fpn as i128 + ev as i128;
                    }
                },
            }
        },
    }
    proof {
        assert(shift_i == coord_shift(t@));
    }
    if shift_i < 0 {
        return None;
    }
    if shift_i >= 20 {
        if ipv == 0 && fpv == 0 {
            proof {
                lemma_zero_digits_zero_magnitude(s@);
            }
            return Some(0);
        }
        proof {
            if coord_valid(s@) {
                lemma_magnitude_of_big_shift(s@);
            }
        }
        return None;
    }
    let shift_u: usize = shift_i as usize;
    let dval: u128;
    if fpn >= 20 {
        if ipv > 0 {
            proof {
                if coord_valid(s@) {
                    lemma_mant_digits_of_long_fraction(mant@);
                    lemma_magnitude_at_least_mantissa(s@);
                }
            }
            return None;
        }
        dval = fpv as u128;
        proof {
            vstd::arithmetic::mul::lemma_mul_basics(
                pow10(right_of(mant@, '.').len()),
            );
        }
    } else {
        let p = pow10_u128(fpn);
        proof {
            lemma_pow10_mono(fpn as nat, 19);
            assert(pow10(19) == 10_000_000_000_000_000_000) by {
                reveal_with_fuel(pow10, 20);
            }
            assert((ipv as int) * (p as int) <= 0xffff_ffff_ffff_ffff
                * 10_000_000_000_000_000_000) by (nonlinear_arith)
                requires
                    0 <= ipv as int <= 0xffff_ffff_ffff_ffff,
                    0 <= p as int <= 10_000_000_000_000_000_000,
            ;
            vstd::arithmetic::mul::lemma_mul_nonnegative(ipv as int, p as int);
        }
        dval = (ipv as u128) * p + (fpv as u128);
    }
    proof {
        assert(dval == mant_digits(mantissa_of(t@)));
    }
    if dval > COORD_LIMIT as u128 {
        proof {
            if coord_valid(s@) {
                lemma_magnitude_at_least_mantissa(s@);
            }
        }
        return None;
    }
    let psh = pow10_u128(shift_u);
    proof {
        lemma_pow10_mono(shift_u as nat, 19);
        assert(pow10(19) == 10_000_000_000_000_000_000) by {
            reveal_with_fuel(pow10, 20);
        }
        assert((dval as int) * (psh as int) <= 9_223_372_036_850_775_807
            * 10_000_000_000_000_000_000) by (nonlinear_arith)
            requires
                0 <= dval as int <= 9_223_372_036_850_775_807,
                0 <= psh as int <= 10_000_000_000_000_000_000,
        ;
        vstd::arithmetic::mul::lemma_mul_nonnegative(dval as int, psh as int);
    }
    let mag: u128 = dval * psh;
    if mag > COORD_LIMIT as u128 {
        return None;
    }
    let v: i64 = if neg {
        -(mag as i64)
    } else {
        mag as i64
    };
    Some(v)
}


/// Read `s` as a plane point: two fixed-point decimals around the first
/// comma, the real part before it and the imaginary part after it.
pub fn parse_complex(s: &str) -> (r: Option<ComplexPoint>)
    ensures
        r is Some <==> 0 <= sep_index(s@, ',') && coord_valid(left_of(s@, ','))
            && coord_magnitude(left_of(s@, ',')) <= COORD_LIMIT && coord_valid(
            right_of(s@, ','),
        ) && coord_magnitude(right_of(s@, ',')) <= COORD_LIMIT,
        r matches Some(c) ==> c.real == coord_val(left_of(s@, ',')) && c.imag
            == coord_val(right_of(s@, ',')) && c.in_range(),
{
    match find_sep(s, ',') {
        None => None,
        Some(i) => {
            let n = s.unicode_len();
            let left = s.substring_char(0, i);
            let right = s.substring_char(i + 1, n);
            proof {
                assert(left@ =~= left_of(s@, ','));
                assert(right@ =~= right_of(s@, ','));
            }
            match (parse_coord(left), parse_coord(right)) {
                (Some(a), Some(b)) => Some(ComplexPoint { real: a, imag: b }),
                _ => None,
            }
        },
    }
}

/// Read `s` as a pair of decimal numbers around the first occurrence of
/// `separator`, e.g. `"400x600"` with separator `'x'`.  `None` when the
/// separator is absent or either side is not a number.
pub fn parse_pair(s: &str, separator: char) -> (r: Option<(usize, usize)>)
    ensures
        r is Some <==> 0 <= sep_index(s@, separator) && parses_as_number(
            left_of(s@, separator),
        ) && parses_as_number(right_of(s@, separator)),
        r matches Some(p) ==> p.0 == dec_val(unsigned_body(left_of(s@, separator)))
            && p.1 == dec_val(unsigned_body(right_of(s@, separator))),
{
    match find_sep(s, separator) {
        None => None,
        Some(i) => {
            let n = s.unicode_len();
            let left = s.substring_char(0, i);
            let right = s.substring_char(i + 1, n);
            proof {
                assert(left@ =~= left_of(s@, separator));
                assert(right@ =~= right_of(s@, separator));
            }
            match (parse_number(left), parse_number(right)) {
                (Some(a), Some(b)) => Some((a, b)),
                _ => None,
            }
        },
    }
}

} // verus!
