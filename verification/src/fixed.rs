//! Fixed-point amounts and lenient decimal parsing.
//!
//! Every numeric field a position snapshot carries (size, entry price,
//! unrealized PnL, margin, notional value) arrives as a decimal string.
//! The library reads such a string as a signed fixed-point amount with
//! eight decimal places: the `i64` value `v` stands for `v / SCALE`.
//!
//! Reading is deliberately lenient: a string that is not a plain decimal
//! numeral (optional sign, digits, at most one point), or whose magnitude
//! does not fit, is read as zero. A zero size means "no open position",
//! so malformed provider data degrades to "closed" instead of failing.
//! Fractional digits beyond the eighth are ignored; exponent notation is
//! not recognized and is therefore read as zero.

use vstd::prelude::*;
use vstd::string::*;

verus! {

/// An `i64` fixed-point amount `v` stands for the rational `v / SCALE`.
pub const SCALE: i64 = 100_000_000;

/// Largest integer part whose scaled value can still fit in an `i64`.
const MAX_INT_PART: u64 = 92_233_720_368;

pub open spec fn is_digit(c: char) -> bool {
    48 <= c as u32 && c as u32 <= 57
}

pub open spec fn digit_val(c: char) -> int {
    c as u32 - 48
}

pub open spec fn all_digits(s: Seq<char>) -> bool {
    forall|i: int| 0 <= i < s.len() ==> is_digit(#[trigger] s[i])
}

/// Value of a digit string read as a base-10 number.
pub open spec fn digits_val(s: Seq<char>) -> int
    decreases s.len(),
{
    if s.len() == 0 {
        0
    } else {
        digits_val(s.drop_last()) * 10 + digit_val(s.last())
    }
}

pub open spec fn pow10(n: nat) -> int
    decreases n,
{
    if n == 0 {
        1
    } else {
        10 * pow10((n - 1) as nat)
    }
}

/// Index of the first `'.'` in `s`, or `s.len()` if there is none.
pub open spec fn dot_pos(s: Seq<char>) -> int
    decreases s.len(),
{
    if s.len() == 0 {
        0
    } else if s[0] == '.' {
        0
    } else {
        1 + dot_pos(s.drop_first())
    }
}

pub open spec fn int_part(s: Seq<char>) -> Seq<char> {
    s.take(dot_pos(s))
}

pub open spec fn frac_part(s: Seq<char>) -> Seq<char> {
    if dot_pos(s) == s.len() {
        Seq::empty()
    } else {
        s.skip(dot_pos(s) + 1)
    }
}

/// A body is a plain decimal numeral: digits with at most one point
/// between them and at least one digit overall.
pub open spec fn body_valid(s: Seq<char>) -> bool {
    &&& all_digits(int_part(s))
    &&& all_digits(frac_part(s))
    &&& int_part(s).len() + frac_part(s).len() >= 1
}

/// Scaled value of a fractional digit string; digits beyond the eighth
/// are ignored.
pub open spec fn frac_val(s: Seq<char>) -> int {
    if s.len() >= 8 {
        digits_val(s.take(8))
    } else {
        digits_val(s) * pow10((8 - s.len()) as nat)
    }
}

/// Magnitude of a body, scaled by `SCALE`.
pub open spec fn body_mag(s: Seq<char>) -> int {
    digits_val(int_part(s)) * (SCALE as int) + frac_val(frac_part(s))
}

pub open spec fn has_sign(s: Seq<char>) -> bool {
    s.len() > 0 && (s[0] == '-' || s[0] == '+')
}

pub open spec fn body_of(s: Seq<char>) -> Seq<char> {
    if has_sign(s) {
        s.drop_first()
    } else {
        s
    }
}

pub open spec fn is_negative(s: Seq<char>) -> bool {
    s.len() > 0 && s[0] == '-'
}

/// A decimal numeral with an optional single leading sign.
pub open spec fn is_decimal(s: Seq<char>) -> bool {
    body_valid(body_of(s))
}

pub open spec fn decimal_mag(s: Seq<char>) -> int {
    body_mag(body_of(s))
}

/// Lenient fixed-point reading of a numeric field: a malformed or
/// out-of-range string is read as zero.
pub open spec fn parse_fixed_spec(s: Seq<char>) -> i64 {
    if is_decimal(s) && decimal_mag(s) <= i64::MAX {
        if is_negative(s) {
            (-decimal_mag(s)) as i64
        } else {
            decimal_mag(s) as i64
        }
    } else {
        0
    }
}

/// Absolute value of an amount above `i64::MIN`.
pub open spec fn abs64(v: i64) -> i64 {
    if v < 0 {
        (0 - v) as i64
    } else {
        v
    }
}

pub fn abs_amount(v: i64) -> (r: i64)
    requires
        v > i64::MIN,
    ensures
        r == abs64(v),
        r >= 0,
{
    if v < 0 {
        0 - v
    } else {
        v
    }
}

pub proof fn lemma_digits_val_nonneg(s: Seq<char>)
    requires
        all_digits(s),
    ensures
        digits_val(s) >= 0,
    decreases s.len(),
{
    if s.len() > 0 {
        assert(all_digits(s.drop_last()));
        lemma_digits_val_nonneg(s.drop_last());
    }
}

/// A digit string is worth at least any of its prefixes.
pub proof fn lemma_digits_val_prefix(s: Seq<char>, k: int)
    requires
        all_digits(s),
        0 <= k <= s.len(),
    ensures
        digits_val(s.take(k)) <= digits_val(s),
    decreases s.len(),
{
    if k == s.len() {
        assert(s.take(k) =~= s);
    } else {
        assert(all_digits(s.drop_last()));
        assert(s.drop_last().take(k) =~= s.take(k));
        lemma_digits_val_prefix(s.drop_last(), k);
        lemma_digits_val_nonneg(s.drop_last());
    }
}

/// A digit string of length `n` is worth less than `10^n`.
pub proof fn lemma_digits_val_bound(s: Seq<char>)
    requires
        all_digits(s),
    ensures
        digits_val(s) < pow10(s.len()),
    decreases s.len(),
{
    if s.len() > 0 {
        assert(all_digits(s.drop_last()));
        lemma_digits_val_bound(s.drop_last());
    }
}

pub proof fn lemma_pow10_pos(n: nat)
    ensures
        pow10(n) >= 1,
    decreases n,
{
    if n > 0 {
        lemma_pow10_pos((n - 1) as nat);
    }
}

pub proof fn lemma_pow10_le(a: nat, b: nat)
    requires
        a <= b,
    ensures
        pow10(a) <= pow10(b),
    decreases b,
{
    if a < b {
        lemma_pow10_le(a, (b - 1) as nat);
        lemma_pow10_pos((b - 1) as nat);
    }
}

/// Reading one more digit multiplies the value by ten and adds it.
pub proof fn lemma_digits_val_snoc(s: Seq<char>, a: int, i: int)
    requires
        0 <= a <= i < s.len(),
    ensures
        digits_val(s.subrange(a, i + 1)) == digits_val(s.subrange(a, i)) * 10 + digit_val(s[i]),
{
    assert(s.subrange(a, i + 1).drop_last() =~= s.subrange(a, i));
    assert(s.subrange(a, i + 1).last() == s[i]);
}

/// If no `'.'` stands among the first `k` characters, the first dot is
/// no earlier than `k`.
proof fn lemma_dot_pos_ge(s: Seq<char>, k: int)
    requires
        0 <= k <= s.len(),
        forall|j: int| 0 <= j < k ==> s[j] != '.',
    ensures
        dot_pos(s) >= k,
    decreases k,
{
    lemma_dot_pos_props(s);
    if k > 0 {
        assert(s[0] != '.');
        assert forall|j: int| 0 <= j < k - 1 implies s.drop_first()[j] != '.' by {
            assert(s.drop_first()[j] == s[j + 1]);
        }
        lemma_dot_pos_ge(s.drop_first(), k - 1);
        assert(dot_pos(s) == 1 + dot_pos(s.drop_first()));
    }
}

/// Exact position of the first dot.
proof fn lemma_dot_pos_at(s: Seq<char>, k: int)
    requires
        0 <= k <= s.len(),
        forall|j: int| 0 <= j < k ==> s[j] != '.',
        k < s.len() ==> s[k] == '.',
    ensures
        dot_pos(s) == k,
    decreases k,
{
    if s.len() == 0 {
    } else if k == 0 {
    } else {
        assert(s[0] != '.');
        lemma_dot_pos_at(s.drop_first(), k - 1);
    }
}

/// A digit is never a dot.
proof fn lemma_digit_not_dot(c: char)
    requires
        is_digit(c),
    ensures
        c != '.',
{
    assert('.' as u32 == 46);
}

/// The first dot lies within the string and really is a dot.
proof fn lemma_dot_pos_props(s: Seq<char>)
    ensures
        0 <= dot_pos(s) <= s.len(),
        dot_pos(s) < s.len() ==> s[dot_pos(s)] == '.',
        forall|j: int| 0 <= j < dot_pos(s) ==> s[j] != '.',
    decreases s.len(),
{
    if s.len() > 0 && s[0] != '.' {
        lemma_dot_pos_props(s.drop_first());
        assert forall|j: int| 0 <= j < dot_pos(s) implies s[j] != '.' by {
            if j > 0 {
                assert(s.drop_first()[j - 1] == s[j]);
            }
        }
    }
}

/// A body whose character after the first dot region is not a digit is
/// not a numeral: `d` is the dot's position, `k > d` the offender's.
proof fn lemma_invalid_frac_char(body: Seq<char>, d: int, k: int)
    requires
        0 <= d < k < body.len(),
        forall|j: int| 0 <= j < d ==> is_digit(#[trigger] body[j]),
        body[d] == '.',
        !is_digit(body[k]),
    ensures
        !body_valid(body),
{
    assert forall|j: int| 0 <= j < d implies body[j] != '.' by {
        lemma_digit_not_dot(body[j]);
    }
    lemma_dot_pos_at(body, d);
    assert(frac_part(body)[k - d - 1] == body[k]);
}

/// A body with a non-digit, non-dot character after `k` leading digits
/// is not a numeral.
proof fn lemma_invalid_char(body: Seq<char>, k: int)
    requires
        0 <= k < body.len(),
        forall|j: int| 0 <= j < k ==> is_digit(#[trigger] body[j]),
        !is_digit(body[k]),
        body[k] != '.',
    ensures
        !body_valid(body),
{
    assert forall|j: int| 0 <= j < k implies body[j] != '.' by {
        lemma_digit_not_dot(body[j]);
    }
    lemma_dot_pos_ge(body, k);
    lemma_dot_pos_props(body);
    assert(dot_pos(body) > k);
    assert(int_part(body)[k] == body[k]);
}

pub proof fn lemma_frac_val_nonneg(s: Seq<char>)
    requires
        all_digits(s),
    ensures
        frac_val(s) >= 0,
{
    if s.len() >= 8 {
        assert(all_digits(s.take(8)));
        lemma_digits_val_nonneg(s.take(8));
    } else {
        lemma_digits_val_nonneg(s);
        lemma_pow10_pos((8 - s.len()) as nat);
        vstd::arithmetic::mul::lemma_mul_nonnegative(digits_val(s), pow10((8 - s.len()) as nat));
    }
}

/// Once the integer digits read so far outgrow the representable range,
/// the whole string reads as zero, whatever follows.
proof fn lemma_int_overflow(s: Seq<char>, start: int, i: int)
    requires
        0 <= start <= i < s.len(),
        start == if has_sign(s) { 1int } else { 0int },
        forall|j: int| start <= j <= i ==> is_digit(#[trigger] s[j]),
        digits_val(s.subrange(start, i + 1)) > MAX_INT_PART,
    ensures
        parse_fixed_spec(s) == 0,
{
    let body = body_of(s);
    assert(body =~= s.skip(start));
    if is_decimal(s) {
        let k = i - start + 1;
        assert forall|j: int| 0 <= j < k implies body[j] != '.' by {
            assert(body[j] == s[j + start]);
            lemma_digit_not_dot(body[j]);
        }
        lemma_dot_pos_ge(body, k);
        lemma_dot_pos_props(body);
        assert(int_part(body).take(k) =~= s.subrange(start, i + 1));
        lemma_digits_val_prefix(int_part(body), k);
        lemma_frac_val_nonneg(frac_part(body));
        assert(digits_val(int_part(body)) * (SCALE as int) >= (MAX_INT_PART + 1) * (SCALE as int))
            by {
            vstd::arithmetic::mul::lemma_mul_inequality(
                MAX_INT_PART as int + 1,
                digits_val(int_part(body)),
                SCALE as int,
            );
        }
        assert(decimal_mag(s) > i64::MAX);
    }
}

fn pow10_u64(n: u64) -> (r: u64)
    requires
        n <= 8,
    ensures
        r == pow10(n as nat),
        r <= 100_000_000,
{
    proof {
        reveal_with_fuel(pow10, 9);
    }
    match n {
        0 => 1,
        1 => 10,
        2 => 100,
        3 => 1_000,
        4 => 10_000,
        5 => 100_000,
        6 => 1_000_000,
        7 => 10_000_000,
        _ => 100_000_000,
    }
}

/// Index of the first non-digit character at or after `from`.
fn scan_digits(s: &str, from: usize, n: usize) -> (e: usize)
    requires
        n == s@.len(),
        from <= n,
    ensures
        from <= e <= n,
        forall|j: int| from <= j < e ==> is_digit(#[trigger] s@[j]),
        e < n ==> !is_digit(s@[e as int]),
    decreases n - from,
{
    if from < n {
        let c = s.get_char(from);
        let x = c as u32;
        if 48 <= x && x <= 57 {
            return scan_digits(s, from + 1, n);
        }
    }
    from
}

/// Read a numeric field leniently, as `parse_fixed_spec` says: a
/// malformed or out-of-range string yields zero, never an error.
#[verifier::loop_isolation(false)]
#[verifier::rlimit(100)]
#[verifier::spinoff_prover]
pub fn parse_fixed(s: &str) -> (r: i64)
    ensures
        r == parse_fixed_spec(s@),
{
    let n = s.unicode_len();
    let mut start: usize = 0;
    let mut neg = false;
    if n > 0 {
        let c0 = s.get_char(0);
        if c0 == '-' {
            neg = true;
            start = 1;
        } else if c0 == '+' {
            start = 1;
        }
    }
    let ghost body = body_of(s@);
    proof {
        assert(neg == is_negative(s@));
        assert(start as int == if has_sign(s@) { 1int } else { 0int });
        assert(body =~= s@.skip(start as int));
    }
    let idend = scan_digits(s, start, n);
    let ghost dotrel = idend as int - start as int;
    proof {
        assert forall|j: int| 0 <= j < dotrel implies is_digit(#[trigger] body[j]) by {
            assert(body[j] == s@[j + start]);
        }
    }
    let mut fstart = idend;
    if idend < n {
        let c = s.get_char(idend);
        if c != '.' {
            proof {
                assert(body[dotrel] == s@[idend as int]);
                lemma_invalid_char(body, dotrel);
            }
            return 0;
        }
        fstart = idend + 1;
    }
    proof {
        assert forall|j: int| 0 <= j < dotrel implies body[j] != '.' by {
            lemma_digit_not_dot(body[j]);
        }
        if idend < n {
            assert(body[dotrel] == s@[idend as int]);
        }
        lemma_dot_pos_at(body, dotrel);
        assert(int_part(body) =~= s@.subrange(start as int, idend as int));
    }
    let fend = scan_digits(s, fstart, n);
    if fend < n {
        proof {
            if idend < n {
                assert(body[fend - start] == s@[fend as int]);
                assert forall|j: int| dotrel < j < fend - start implies is_digit(
                    #[trigger] body[j],
                ) by {
                    assert(body[j] == s@[j + start]);
                }
                lemma_invalid_frac_char(body, dotrel, fend as int - start as int);
            } else {
                assert(false);
            }
        }
        return 0;
    }
    proof {
        assert(frac_part(body) =~= s@.subrange(fstart as int, n as int));
    }
    let flen = n - fstart;
    if idend == start && flen == 0 {
        proof {
            assert(int_part(body).len() + frac_part(body).len() == 0);
        }
        return 0;
    }
    let mut ip: u64 = 0;
    let mut i = start;
    while i < idend
        invariant
            start <= i <= idend,
            ip <= MAX_INT_PART,
            ip == digits_val(s@.subrange(start as int, i as int)),
        decreases idend - i,
    {
        let c = s.get_char(i);
        let x = c as u32;
        proof {
            assert(is_digit(s@[i as int]));
            lemma_digits_val_snoc(s@, start as int, i as int);
        }
        let t = ip * 10 + ((x - 48) as u64);
        if t > MAX_INT_PART {
            proof {
                lemma_int_overflow(s@, start as int, i as int);
            }
            return 0;
        }
        ip = t;
        i = i + 1;
    }
    let fcap = if flen > 8 {
        8usize
    } else {
        flen
    };
    let mut facc: u64 = 0;
    let mut k: usize = 0;
    while k < fcap
        invariant
            0 <= k <= fcap,
            facc < 100_000_000,
            facc == digits_val(s@.subrange(fstart as int, fstart as int + k as int)),
        decreases fcap - k,
    {
        let c = s.get_char(fstart + k);
        let x = c as u32;
        proof {
            let sub = s@.subrange(fstart as int, fstart as int + k as int);
            assert(is_digit(s@[fstart as int + k as int]));
            assert forall|j: int| 0 <= j < sub.len() implies is_digit(#[trigger] sub[j]) by {
                assert(sub[j] == s@[fstart + j]);
            }
            lemma_digits_val_bound(sub);
            lemma_pow10_le(sub.len() as nat, 7);
            assert(pow10(7) == 10_000_000) by {
                reveal_with_fuel(pow10, 8);
            }
            lemma_digits_val_snoc(s@, fstart as int, fstart as int + k as int);
        }
        facc = facc * 10 + ((x - 48) as u64);
        k = k + 1;
    }
    let mult = pow10_u64(8 - (fcap as u64));
    proof {
        vstd::arithmetic::mul::lemma_mul_upper_bound(
            facc as int,
            99_999_999,
            mult as int,
            100_000_000,
        );
    }
    let fr = (facc as u128) * (mult as u128);
    proof {
        assert(fr == frac_val(frac_part(body))) by {
            if flen >= 8 {
                assert(frac_part(body).take(8) =~= s@.subrange(fstart as int, fstart as int + 8));
                assert(pow10(0) == 1);
            }
        }
    }
    let mag = (ip as u128) * (SCALE as u128) + fr;
    proof {
        let ipart = int_part(body);
        let fpart = frac_part(body);
        assert forall|j: int| 0 <= j < ipart.len() implies is_digit(#[trigger] ipart[j]) by {
            assert(ipart[j] == s@[start + j]);
        }
        assert forall|j: int| 0 <= j < fpart.len() implies is_digit(#[trigger] fpart[j]) by {
            assert(fpart[j] == s@[fstart + j]);
        }
        assert(is_decimal(s@));
        assert(decimal_mag(s@) == mag);
    }
    if mag > i64::MAX as u128 {
        return 0;
    }
    let m = mag as i64;
    if neg {
        -m
    } else {
        m
    }
}


/// The character of one digit.
pub open spec fn digit_char(n: nat) -> char
    recommends
        n < 10,
{
    if n == 0 {
        '0'
    } else if n == 1 {
        '1'
    } else if n == 2 {
        '2'
    } else if n == 3 {
        '3'
    } else if n == 4 {
        '4'
    } else if n == 5 {
        '5'
    } else if n == 6 {
        '6'
    } else if n == 7 {
        '7'
    } else if n == 8 {
        '8'
    } else {
        '9'
    }
}

/// Decimal digits of `n`, most significant first.
pub open spec fn dec_str(n: nat) -> Seq<char>
    decreases n,
{
    if n < 10 {
        seq![digit_char(n)]
    } else {
        dec_str(n / 10) + seq![digit_char(n % 10)]
    }
}

/// The low `width` digits of `n`, zero-padded.
pub open spec fn pad_str(n: nat, width: nat) -> Seq<char>
    decreases width,
{
    if width == 0 {
        Seq::empty()
    } else {
        pad_str(n / 10, (width - 1) as nat) + seq![digit_char(n % 10)]
    }
}

/// Fractional digits of `f` at `width` places, trailing zeros dropped.
pub open spec fn trim_frac_str(f: nat, width: nat) -> Seq<char>
    decreases width,
{
    if width == 0 {
        Seq::empty()
    } else if f % 10 == 0 {
        trim_frac_str(f / 10, (width - 1) as nat)
    } else {
        pad_str(f, width)
    }
}

fn digit_str(d: u64) -> (r: &'static str)
    requires
        d < 10,
    ensures
        r@ == seq![digit_char(d as nat)],
{
    proof {
        reveal_strlit("0");
        reveal_strlit("1");
        reveal_strlit("2");
        reveal_strlit("3");
        reveal_strlit("4");
        reveal_strlit("5");
        reveal_strlit("6");
        reveal_strlit("7");
        reveal_strlit("8");
        reveal_strlit("9");
    }
    let r: &'static str = match d {
        0 => "0",
        1 => "1",
        2 => "2",
        3 => "3",
        4 => "4",
        5 => "5",
        6 => "6",
        7 => "7",
        8 => "8",
        _ => "9",
    };
    proof {
        assert(r@ =~= seq![digit_char(d as nat)]);
    }
    r
}

/// Append the decimal digits of `n`.
pub fn push_dec(out: &mut String, n: u64)
    ensures
        final(out)@ == old(out)@ + dec_str(n as nat),
    decreases n,
{
    if n < 10 {
        out.append(digit_str(n));
        proof {
            assert(out@ =~= old(out)@ + dec_str(n as nat));
        }
    } else {
        push_dec(out, n / 10);
        out.append(digit_str(n % 10));
        proof {
            assert(out@ =~= old(out)@ + dec_str(n as nat));
        }
    }
}

/// Append the low `width` digits of `n`, zero-padded.
pub fn push_pad(out: &mut String, n: u64, width: u64)
    ensures
        final(out)@ == old(out)@ + pad_str(n as nat, width as nat),
    decreases width,
{
    if width == 0 {
        proof {
            assert(out@ =~= old(out)@ + pad_str(n as nat, 0));
        }
    } else {
        push_pad(out, n / 10, width - 1);
        out.append(digit_str(n % 10));
        proof {
            assert(out@ =~= old(out)@ + pad_str(n as nat, width as nat));
        }
    }
}

/// Append the fractional digits of `f`, trailing zeros dropped.
fn push_trim_frac(out: &mut String, f: u64, width: u64)
    ensures
        final(out)@ == old(out)@ + trim_frac_str(f as nat, width as nat),
    decreases width,
{
    if width == 0 {
        proof {
            assert(out@ =~= old(out)@ + trim_frac_str(f as nat, 0));
        }
    } else if f % 10 == 0 {
        push_trim_frac(out, f / 10, width - 1);
    } else {
        push_pad(out, f, width);
    }
}

/// A fixed-point amount rendered exactly: integer digits, then any
/// fractional digits with trailing zeros dropped.
pub open spec fn fixed_trim_str(v: i64) -> Seq<char>
    recommends
        v > i64::MIN,
{
    let m = abs64(v) as nat;
    let sign: Seq<char> = if v < 0 {
        seq!['-']
    } else {
        Seq::empty()
    };
    if m % (SCALE as nat) == 0 {
        sign + dec_str(m / (SCALE as nat))
    } else {
        sign + dec_str(m / (SCALE as nat)) + seq!['.'] + trim_frac_str(m % (SCALE as nat), 8)
    }
}

/// Render a fixed-point amount exactly, as `fixed_trim_str` says.
pub fn render_fixed_trim(v: i64) -> (r: String)
    requires
        v > i64::MIN,
    ensures
        r@ == fixed_trim_str(v),
{
    proof {
        reveal_strlit("-");
        reveal_strlit(".");
    }
    let mut out = String::new();
    if v < 0 {
        out.append("-");
    }
    let m = abs_amount(v) as u64;
    let ip = m / (SCALE as u64);
    let f = m % (SCALE as u64);
    push_dec(&mut out, ip);
    if f > 0 {
        out.append(".");
        push_trim_frac(&mut out, f, 8);
    }
    proof {
        assert(out@ =~= fixed_trim_str(v));
    }
    out
}

/// A non-negative scaled magnitude rounded half up to `dec` decimal
/// places and written with exactly `dec` fractional digits.
pub open spec fn mag_dec_str(m: nat, dec: nat) -> Seq<char>
    recommends
        1 <= dec <= 8,
{
    let u = pow10((8 - dec) as nat);
    let r = (m + u / 2) / u;
    dec_str((r / pow10(dec)) as nat) + seq!['.'] + pad_str((r % pow10(dec)) as nat, dec)
}

/// Append a rounded magnitude, as `mag_dec_str` says.
pub fn push_mag_dec(out: &mut String, m: u64, dec: u64)
    requires
        1 <= dec <= 8,
    ensures
        final(out)@ == old(out)@ + mag_dec_str(m as nat, dec as nat),
{
    proof {
        reveal_strlit(".");
        lemma_pow10_pos((8 - dec) as nat);
        lemma_pow10_pos(dec as nat);
    }
    let unit = pow10_u64(8 - dec);
    let half = unit / 2;
    let r_wide = ((m as u128) + (half as u128)) / (unit as u128);
    proof {
        if unit == 1 {
            vstd::arithmetic::div_mod::lemma_div_basics(m as int);
            assert(r_wide == m);
        } else {
            assert(pow10(1) == 10) by {
                reveal_with_fuel(pow10, 2);
            }
            lemma_pow10_le(1, (8 - dec) as nat);
            vstd::arithmetic::div_mod::lemma_div_is_ordered(
                m as int + half as int,
                u64::MAX as int + u64::MAX as int,
                unit as int,
            );
            vstd::arithmetic::div_mod::lemma_div_is_ordered_by_denominator(
                u64::MAX as int + u64::MAX as int,
                10,
                unit as int,
            );
        }
    }
    let r = r_wide as u64;
    let p = pow10_u64(dec);
    push_dec(out, r / p);
    out.append(".");
    push_pad(out, r % p, dec);
    proof {
        assert(out@ =~= old(out)@ + mag_dec_str(m as nat, dec as nat));
    }
}

/// A fixed-point amount rounded half away from zero to `dec` decimal
/// places, with its sign.
pub open spec fn fixed_dec_str(v: i64, dec: nat) -> Seq<char>
    recommends
        1 <= dec <= 8,
        v > i64::MIN,
{
    if v < 0 {
        seq!['-'] + mag_dec_str(abs64(v) as nat, dec)
    } else {
        mag_dec_str(v as nat, dec)
    }
}

/// Render a rounded fixed-point amount, as `fixed_dec_str` says.
pub fn render_fixed_dec(v: i64, dec: u64) -> (r: String)
    requires
        v > i64::MIN,
        1 <= dec <= 8,
    ensures
        r@ == fixed_dec_str(v, dec as nat),
{
    proof {
        reveal_strlit("-");
    }
    let mut out = String::new();
    if v < 0 {
        out.append("-");
    }
    let m = abs_amount(v) as u64;
    push_mag_dec(&mut out, m, dec);
    proof {
        assert(out@ =~= fixed_dec_str(v, dec as nat));
    }
    out
}

} // verus!
