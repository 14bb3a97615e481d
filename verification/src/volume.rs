//! Volume levels. wpctl prints a volume as a decimal fraction of full scale
//! ("0.75", "1.50"); the library holds a finite level exactly, as a whole
//! number of millionths, so that percentages are computed without rounding
//! error. Every token that `str::parse::<f64>` accepts is read as a level:
//! negative levels, infinities and NaN included.
use vstd::prelude::*;

use crate::text::{
    all_digits, digit_value, digits_value, find_char, index_of, is_digit, lemma_digits_value_prefix, slice,
};

verus! {

/// A volume level, as a fraction of full scale.
#[derive(Clone, Copy, Debug, PartialEq, Eq, Structural)]
pub enum Volume {
    /// A finite level in millionths, truncated toward zero: 1.0 (100%) is
    /// one million, -0.5 is minus half a million.
    Level(i64),
    /// An infinite level, or a finite one whose millionths lie beyond
    /// `i64`, with its sign. Any such level shows the same percentage
    /// (`i32::MAX` or `i32::MIN`) and the same slider position as the
    /// infinity of its sign.
    Saturated { negative: bool },
    /// NaN.
    NotANumber,
}

/// The full-scale volume, 1.0.
pub open spec fn full_scale() -> Volume {
    Volume::Level(1_000_000)
}

/// The integer part and the fraction part of an unsigned decimal number.
pub open spec fn split_decimal(d: Seq<char>) -> (Seq<char>, Seq<char>) {
    match index_of(d, '.') {
        Some(i) => (d.take(i), d.skip(i + 1)),
        None => (d, Seq::empty()),
    }
}

/// Whether a token starts with a minus sign, and the token without its sign.
pub open spec fn split_sign(s: Seq<char>) -> (bool, Seq<char>) {
    if s.len() > 0 && s[0] == '+' {
        (false, s.drop_first())
    } else if s.len() > 0 && s[0] == '-' {
        (true, s.drop_first())
    } else {
        (false, s)
    }
}

/// The code of `c` in lower case, for ASCII letters.
pub open spec fn ascii_lower(c: char) -> u32 {
    if 'A' <= c && c <= 'Z' {
        ((c as u32) + 32) as u32
    } else {
        c as u32
    }
}

/// `s` equals the lower-case word `w` but for the case of its letters.
pub open spec fn eq_ignore_case(s: Seq<char>, w: Seq<char>) -> bool {
    s.len() == w.len() && forall|i: int|
        0 <= i < s.len() ==> ascii_lower(#[trigger] s[i]) == w[i] as u32
}

pub open spec fn is_exp_mark(c: char) -> bool {
    c == 'e' || c == 'E'
}

/// The index of the first `e` or `E`.
pub open spec fn exp_mark(d: Seq<char>) -> Option<int> {
    if exists|i: int| 0 <= i < d.len() && is_exp_mark(#[trigger] d[i]) {
        Some(
            choose|i: int|
                0 <= i < d.len() && is_exp_mark(#[trigger] d[i]) && forall|j: int|
                    0 <= j < i ==> !is_exp_mark(#[trigger] d[j]),
        )
    } else {
        None
    }
}

/// An exponent: an optional sign and one or more digits.
pub open spec fn parse_exponent(x: Seq<char>) -> Option<int> {
    let (neg, digits) = split_sign(x);
    if digits.len() > 0 && all_digits(digits) {
        Some(
            if neg {
                -(digits_value(digits) as int)
            } else {
                digits_value(digits) as int
            },
        )
    } else {
        None
    }
}

pub open spec fn zeros(k: nat) -> Seq<char> {
    Seq::new(k, |i: int| '0')
}

/// The first `n` digits of `d`, padded with zeros when `d` is shorter.
pub open spec fn padded_prefix(d: Seq<char>, n: int) -> Seq<char> {
    if n <= 0 {
        Seq::empty()
    } else if n <= d.len() {
        d.take(n)
    } else {
        d + zeros((n - d.len()) as nat)
    }
}

/// The millionths (truncated) of `int_part.frac × 10^e`: the number that
/// the digits before the seventh place after the shifted point make.
pub open spec fn micros_of(int_part: Seq<char>, frac: Seq<char>, e: int) -> nat {
    digits_value(padded_prefix(int_part + frac, int_part.len() + e + 6))
}

/// How `str::parse::<f64>` reads a token, in volume terms (`None` where
/// it fails): an optional sign, then `inf`, `infinity` or `nan` in any case,
/// or digits with at most one `.` (at least one digit in all) and an
/// optional exponent (`e` or `E`, an optional sign, digits).
pub open spec fn read_number(s: Seq<char>) -> Option<Volume> {
    let (neg, d) = split_sign(s);
    if eq_ignore_case(d, "nan"@) {
        Some(Volume::NotANumber)
    } else if eq_ignore_case(d, "inf"@) || eq_ignore_case(d, "infinity"@) {
        Some(Volume::Saturated { negative: neg })
    } else {
        let (m, e) = match exp_mark(d) {
            Some(i) => (d.take(i), parse_exponent(d.skip(i + 1))),
            None => (d, Some(0int)),
        };
        let (ip, fp) = split_decimal(m);
        if !(all_digits(ip) && all_digits(fp) && ip.len() + fp.len() > 0) || e is None {
            None
        } else {
            let micros = micros_of(ip, fp, e->0);
            if micros > i64::MAX {
                Some(Volume::Saturated { negative: neg })
            } else if neg {
                Some(Volume::Level((-micros) as i64))
            } else {
                Some(Volume::Level(micros as i64))
            }
        }
    }
}

/// `p`, held to the range of `i32`.
pub open spec fn clamp_i32(p: int) -> i32 {
    if p > i32::MAX {
        i32::MAX
    } else if p < i32::MIN {
        i32::MIN
    } else {
        p as i32
    }
}

/// The percentage of `m` millionths, rounded to the nearest whole number,
/// halves away from zero.
pub open spec fn rounded_percent(m: int) -> int {
    if m >= 0 {
        (m + 5000) / 10000
    } else {
        -((-m + 5000) / 10000)
    }
}

/// The volume in percent, rounded to the nearest whole number (halves away
/// from zero) and held to the range of `i32`, as a saturating float-to-int
/// conversion holds it: infinities go to the ends of the range and NaN to 0.
pub open spec fn percent_of(v: Volume) -> i32 {
    match v {
        Volume::Level(m) => clamp_i32(rounded_percent(m as int)),
        Volume::Saturated { negative } => if negative {
            i32::MIN
        } else {
            i32::MAX
        },
        Volume::NotANumber => 0,
    }
}

impl Volume {
    /// Reads a number token as a volume (see `read_number`).
    pub fn read(v: &Vec<char>) -> (r: Option<Volume>)
        ensures
            r == read_number(v@),
    {
        let (neg, d) = split_sign_of(v);
        if eq_ignore_case_of(&d, "nan") {
            return Some(Volume::NotANumber);
        }
        if eq_ignore_case_of(&d, "inf") || eq_ignore_case_of(&d, "infinity") {
            return Some(Volume::Saturated { negative: neg });
        }
        let ghost dd = d@;
        proof {
            lemma_exp_mark(dd);
        }
        let (m, e) = match exp_mark_of(&d) {
            Some(i) => {
                let x = slice(&d, i + 1, d.len());
                assert(x@ =~= dd.skip(i + 1));
                let m = slice(&d, 0, i);
                assert(m@ =~= dd.take(i as int));
                (m, parse_exponent_of(&x))
            },
            None => {
                let m = slice(&d, 0, d.len());
                assert(m@ =~= dd);
                (m, Some((false, 0u128)))
            },
        };
        let (ip, fp) = split_decimal_of(&m);
        if !(digits_only(&ip) && digits_only(&fp) && (ip.len() > 0 || fp.len() > 0)) {
            return None;
        }
        let (eneg, emag) = match e {
            Some(x) => x,
            None => {
                return None;
            },
        };
        let ghost et: int = match exp_mark(dd) {
            Some(i) => parse_exponent(dd.skip(i + 1))->0,
            None => 0int,
        };
        match micros_of_exec(&ip, &fp, eneg, emag, Ghost(et)) {
            None => Some(Volume::Saturated { negative: neg }),
            Some(micros) => {
                if micros > i64::MAX as u64 {
                    Some(Volume::Saturated { negative: neg })
                } else if neg {
                    Some(Volume::Level(-(micros as i64)))
                } else {
                    Some(Volume::Level(micros as i64))
                }
            },
        }
    }

    /// The volume in percent (see `percent_of`).
    pub fn percent(&self) -> (p: i32)
        ensures
            p == percent_of(*self),
    {
        match *self {
            Volume::Level(m) => {
                let a: i128 = if m >= 0 {
                    m as i128
                } else {
                    -(m as i128)
                };
                let q: i128 = (a + 5000) / 10000;
                let p: i128 = if m >= 0 {
                    q
                } else {
                    -q
                };
                if p > i32::MAX as i128 {
                    i32::MAX
                } else if p < i32::MIN as i128 {
                    i32::MIN
                } else {
                    p as i32
                }
            },
            Volume::Saturated { negative } => if negative {
                i32::MIN
            } else {
                i32::MAX
            },
            Volume::NotANumber => 0,
        }
    }
}

/// `split_decimal` on a vector.
fn split_decimal_of(d: &Vec<char>) -> (r: (Vec<char>, Vec<char>))
    ensures
        r.0@ == split_decimal(d@).0,
        r.1@ == split_decimal(d@).1,
{
    match find_char(d, '.') {
        Some(i) => (slice(d, 0, i), slice(d, i + 1, d.len())),
        None => {
            let f: Vec<char> = Vec::new();
            assert(Seq::<char>::empty() =~= f@);
            assert(d@.subrange(0, d@.len() as int) =~= d@);
            (slice(d, 0, d.len()), f)
        },
    }
}

fn split_sign_of(v: &Vec<char>) -> (r: (bool, Vec<char>))
    ensures
        (r.0, r.1@) == split_sign(v@),
{
    if v.len() > 0 && v[0] == '+' {
        let d = slice(v, 1, v.len());
        assert(d@ =~= v@.drop_first());
        (false, d)
    } else if v.len() > 0 && v[0] == '-' {
        let d = slice(v, 1, v.len());
        assert(d@ =~= v@.drop_first());
        (true, d)
    } else {
        let d = slice(v, 0, v.len());
        assert(d@ =~= v@);
        (false, d)
    }
}

fn ascii_lower_of(c: char) -> (r: u32)
    ensures
        r == ascii_lower(c),
{
    if 'A' <= c && c <= 'Z' {
        (c as u32) + 32
    } else {
        c as u32
    }
}

fn eq_ignore_case_of(v: &Vec<char>, w: &str) -> (r: bool)
    ensures
        r == eq_ignore_case(v@, w@),
{
    let wv = crate::text::chars_of(w);
    if v.len() != wv.len() {
        return false;
    }
    let mut i: usize = 0;
    while i < v.len()
        invariant
            v.len() == wv.len(),
            wv@ == w@,
            i <= v.len(),
            forall|j: int| 0 <= j < i ==> ascii_lower(#[trigger] v@[j]) == wv@[j] as u32,
        decreases v.len() - i,
    {
        if ascii_lower_of(v[i]) != wv[i] as u32 {
            assert(ascii_lower(v@[i as int]) != w@[i as int] as u32);
            return false;
        }
        i += 1;
    }
    true
}

/// What `exp_mark` returns: the first `e` or `E`, or nothing.
pub proof fn lemma_exp_mark(d: Seq<char>)
    ensures
        match exp_mark(d) {
            Some(i) => 0 <= i < d.len() && is_exp_mark(d[i]) && forall|j: int|
                0 <= j < i ==> !is_exp_mark(d[j]),
            None => forall|j: int| 0 <= j < d.len() ==> !is_exp_mark(d[j]),
        },
{
    if exists|i: int| 0 <= i < d.len() && is_exp_mark(#[trigger] d[i]) {
        let i = choose|i: int| 0 <= i < d.len() && is_exp_mark(#[trigger] d[i]);
        lemma_first_exp_mark(d, i);
    }
}

proof fn lemma_first_exp_mark(d: Seq<char>, i: int)
    requires
        0 <= i < d.len(),
        is_exp_mark(d[i]),
    ensures
        exists|k: int|
            0 <= k < d.len() && is_exp_mark(#[trigger] d[k]) && forall|j: int|
                0 <= j < k ==> !is_exp_mark(#[trigger] d[j]),
    decreases i,
{
    if exists|j: int| 0 <= j < i && is_exp_mark(#[trigger] d[j]) {
        let j = choose|j: int| 0 <= j < i && is_exp_mark(#[trigger] d[j]);
        lemma_first_exp_mark(d, j);
    }
}

fn exp_mark_of(d: &Vec<char>) -> (r: Option<usize>)
    ensures
        match r {
            Some(i) => exp_mark(d@) == Some(i as int),
            None => exp_mark(d@) is None,
        },
{
    proof {
        lemma_exp_mark(d@);
    }
    let mut i: usize = 0;
    while i < d.len()
        invariant
            i <= d.len(),
            forall|j: int| 0 <= j < i ==> !is_exp_mark(#[trigger] d@[j]),
        decreases d.len() - i,
    {
        if d[i] == 'e' || d[i] == 'E' {
            proof {
                if exp_mark(d@) is Some {
                    let m = exp_mark(d@)->0;
                    if m > i {
                        assert(is_exp_mark(d@[i as int]));
                    }
                }
            }
            return Some(i);
        }
        i += 1;
    }
    None
}

fn digits_only(v: &Vec<char>) -> (r: bool)
    ensures
        r == all_digits(v@),
{
    let mut i: usize = 0;
    while i < v.len()
        invariant
            i <= v.len(),
            forall|j: int| 0 <= j < i ==> is_digit(#[trigger] v@[j]),
        decreases v.len() - i,
    {
        if !('0' <= v[i] && v[i] <= '9') {
            assert(!is_digit(v@[i as int]));
            return false;
        }
        i += 1;
    }
    true
}

/// The bound at which exponent magnitudes are held: beyond it, every
/// exponent gives the same reading.
pub const EXP_CAP: u128 = 0x2_0000_0000_0000_0000;

/// `n`, or `EXP_CAP` when `n` is larger.
pub open spec fn capped(n: int) -> int {
    if n > EXP_CAP {
        EXP_CAP as int
    } else {
        n
    }
}

/// The magnitude of `e`, capped at `EXP_CAP`.
pub open spec fn capped_magnitude(e: int) -> int {
    capped(if e < 0 {
        -e
    } else {
        e
    })
}

/// `parse_exponent`, with the magnitude capped at `EXP_CAP`.
fn parse_exponent_of(x: &Vec<char>) -> (r: Option<(bool, u128)>)
    ensures
        match r {
            Some((neg, mag)) => parse_exponent(x@) matches Some(e) && mag as int == capped_magnitude(e) && (neg ==> e <= 0) && (!neg ==> e >= 0),
            None => parse_exponent(x@) is None,
        },
{
    let (neg, digits) = split_sign_of(x);
    if digits.len() == 0 || !digits_only(&digits) {
        return None;
    }
    let mut acc: u128 = 0;
    let mut i: usize = 0;
    while i < digits.len()
        invariant
            i <= digits.len(),
            all_digits(digits@),
            acc as int == capped(digits_value(digits@.take(i as int)) as int),
        decreases digits.len() - i,
    {
        let c = digits[i];
        assert(is_digit(digits@[i as int]));
        let dv = (c as u32 - '0' as u32) as u128;
        assert(digits@.take(i + 1).drop_last() =~= digits@.take(i as int));
        let ghost prev = digits_value(digits@.take(i as int));
        assert(digits_value(digits@.take(i + 1)) == prev * 10 + dv);
        if acc < EXP_CAP {
            let next = acc * 10 + dv;
            acc = if next > EXP_CAP {
                EXP_CAP
            } else {
                next
            };
        } else {
            assert(prev * 10 + dv >= EXP_CAP) by (nonlinear_arith)
                requires
                    prev >= EXP_CAP,
            ;
        }
        i += 1;
    }
    assert(digits@.take(digits.len() as int) =~= digits@);
    Some((neg, acc))
}

pub open spec fn pow10(k: nat) -> nat
    decreases k,
{
    if k == 0 {
        1
    } else {
        10 * pow10((k - 1) as nat)
    }
}

proof fn lemma_pow10_ge(k: nat)
    requires
        k >= 20,
    ensures
        pow10(k) > u64::MAX,
    decreases k,
{
    if k == 20 {
        reveal_with_fuel(pow10, 21);
    } else {
        lemma_pow10_ge((k - 1) as nat);
    }
}

proof fn lemma_zeros_value(d: Seq<char>, k: nat)
    ensures
        digits_value(d + zeros(k)) == digits_value(d) * pow10(k),
    decreases k,
{
    if k == 0 {
        assert(d + zeros(0) =~= d);
        assert(pow10(0) == 1);
    } else {
        let km = (k - 1) as nat;
        assert(pow10(k) == 10 * pow10(km));
        lemma_zeros_value(d, km);
        assert((d + zeros(k)).drop_last() =~= d + zeros((k - 1) as nat));
        assert((d + zeros(k)).last() == '0');
        assert(digit_value('0') == 0);
        assert(digits_value(d + zeros(k)) == digits_value(d + zeros((k - 1) as nat)) * 10
            + digit_value('0'));
        assert(digits_value(d) * pow10(k) == digits_value(d) * pow10((k - 1) as nat) * 10)
            by (nonlinear_arith)
            requires
                pow10(k) == 10 * pow10((k - 1) as nat),
        ;
    }
}

proof fn lemma_all_zero_value(d: Seq<char>)
    requires
        forall|i: int| 0 <= i < d.len() ==> d[i] == '0',
    ensures
        digits_value(d) == 0,
    decreases d.len(),
{
    if d.len() > 0 {
        lemma_all_zero_value(d.drop_last());
    }
}

proof fn lemma_nonzero_value(d: Seq<char>, k: int)
    requires
        all_digits(d),
        0 <= k < d.len(),
        d[k] != '0',
    ensures
        digits_value(d) >= 1,
    decreases d.len(),
{
    if k < d.len() - 1 {
        lemma_nonzero_value(d.drop_last(), k);
    }
}

/// `micros_of` for an exponent given by sign and capped magnitude, or
/// `None` when it exceeds `u64::MAX`.
fn micros_of_exec(ip: &Vec<char>, fp: &Vec<char>, eneg: bool, emag: u128, Ghost(e): Ghost<int>) -> (r:
    Option<u64>)
    requires
        all_digits(ip@),
        all_digits(fp@),
        emag as int == capped_magnitude(e),
        eneg ==> e <= 0,
        !eneg ==> e >= 0,
    ensures
        match r {
            Some(m) => micros_of(ip@, fp@, e) == m,
            None => micros_of(ip@, fp@, e) > u64::MAX,
        },
{
    let mut dig = slice(ip, 0, ip.len());
    crate::text::push_all(&mut dig, fp);
    let ghost dd = ip@ + fp@;
    assert(dig@ =~= dd);
    assert(all_digits(dd)) by {
        assert forall|j: int| 0 <= j < dd.len() implies is_digit(#[trigger] dd[j]) by {
            if j < ip@.len() {
                assert(dd[j] == ip@[j]);
            } else {
                assert(dd[j] == fp@[j - ip@.len()]);
            }
        }
    }
    let ghost n: int = ip@.len() + e + 6;
    let count: i128 = if eneg {
        ip.len() as i128 - emag as i128 + 6
    } else {
        ip.len() as i128 + emag as i128 + 6
    };
    assert(count <= 0 ==> n <= 0);
    assert(count >= dig.len() + 20 ==> n >= dig.len() + 20);
    assert(0 < count < dig.len() + 20 ==> count == n);
    let ghost p = padded_prefix(dd, n);
    if count <= 0 {
        assert(p =~= Seq::<char>::empty());
        return Some(0);
    }
    let len = dig.len();
    if count >= len as i128 + 20 {
        let ghost k = ((n - dd.len()) as nat);
        assert(p =~= dd + zeros(k));
        proof {
            lemma_zeros_value(dd, k);
        }
        let mut i: usize = 0;
        while i < len
            invariant
                i <= len,
                len == dig.len(),
                dig@ == dd,
                dd == ip@ + fp@,
                n == ip@.len() + e + 6,
                all_digits(dd),
                k >= 20,
                p == dd + zeros(k),
                p == padded_prefix(dd, n),
                digits_value(p) == digits_value(dd) * pow10(k),
                forall|j: int| 0 <= j < i ==> dd[j] == '0',
            decreases len - i,
        {
            if dig[i] != '0' {
                proof {
                    lemma_nonzero_value(dd, i as int);
                    lemma_pow10_ge(k);
                    assert(digits_value(dd) * pow10(k) >= pow10(k)) by (nonlinear_arith)
                        requires
                            digits_value(dd) >= 1,
                    ;
                    assert(micros_of(ip@, fp@, e) == digits_value(p));
                }
                return None;
            }
            i += 1;
        }
        proof {
            lemma_all_zero_value(dd);
            assert(digits_value(dd) * pow10(k) == 0) by (nonlinear_arith)
                requires
                    digits_value(dd) == 0,
            ;
            assert(micros_of(ip@, fp@, e) == digits_value(p));
        }
        return Some(0);
    }
    let ghost c = count as int;
    assert(p.len() == c);
    let mut acc: u64 = 0;
    let mut k: i128 = 0;
    while k < count
        invariant
            0 <= k <= count,
            count == n,
            c == n,
            p == padded_prefix(dd, n),
            p.len() == c,
            dig@ == dd,
            dd == ip@ + fp@,
            n == ip@.len() + e + 6,
            all_digits(dd),
            acc == digits_value(p.take(k as int)),
        decreases count - k,
    {
        let ch = if k < dig.len() as i128 {
            dig[k as usize]
        } else {
            '0'
        };
        assert(p[k as int] == ch);
        assert(is_digit(ch));
        assert(p.take(k + 1).drop_last() =~= p.take(k as int));
        let dv = (ch as u32 - '0' as u32) as u64;
        assert(digits_value(p.take(k + 1)) == acc * 10 + dv);
        k += 1;
        let next = match acc.checked_mul(10) {
            Some(x) => x.checked_add(dv),
            None => None,
        };
        match next {
            Some(x) => {
                acc = x;
            },
            None => {
                proof {
                    lemma_digits_value_prefix(p, k as int);
                }
                return None;
            },
        }
    }
    assert(p.take(c) =~= p);
    Some(acc)
}

/// A louder level never shows a smaller percentage, and full scale shows
/// as 100%.
pub proof fn law_percent_is_monotone(a: i64, b: i64)
    requires
        a <= b,
    ensures
        percent_of(Volume::Level(a)) <= percent_of(Volume::Level(b)),
        percent_of(full_scale()) == 100,
{
    let ai = a as int;
    let bi = b as int;
    assert(rounded_percent(ai) <= rounded_percent(bi)) by (nonlinear_arith)
        requires
            ai <= bi,
            rounded_percent(ai) == (if ai >= 0 {
                (ai + 5000) / 10000
            } else {
                -((-ai + 5000) / 10000)
            }),
            rounded_percent(bi) == (if bi >= 0 {
                (bi + 5000) / 10000
            } else {
                -((-bi + 5000) / 10000)
            }),
    ;
}

} // verus!
