//! Comma-separated fields and decimal numbers in text rows.

use crate::plane::BOUND;
use vstd::prelude::*;
use vstd::string::*;

verus! {

/// The fields of `s` split at `sep`, as completed fields and the field in
/// progress.
pub open spec fn split_acc(s: Seq<char>, sep: char) -> (Seq<Seq<char>>, Seq<char>)
    decreases s.len(),
{
    if s.len() == 0 {
        (Seq::empty(), Seq::empty())
    } else {
        let (done, cur) = split_acc(s.drop_last(), sep);
        if s.last() == sep {
            (done.push(cur), Seq::empty())
        } else {
            (done, cur.push(s.last()))
        }
    }
}

/// The fields of `s` between separators: one more than the separators.
pub open spec fn fields(s: Seq<char>, sep: char) -> Seq<Seq<char>> {
    split_acc(s, sep).0.push(split_acc(s, sep).1)
}

/// Splits `s` at every occurrence of `sep`.
pub fn split_fields(s: &str, sep: char) -> (r: Vec<String>)
    ensures
        r@.map_values(|f: String| f@) == fields(s@, sep),
{
    let n = s.unicode_len();
    let mut out: Vec<String> = Vec::new();
    let mut start: usize = 0;
    let mut i: usize = 0;
    while i < n
        invariant
            n == s@.len(),
            start <= i <= n,
            out@.map_values(|f: String| f@) == split_acc(s@.take(i as int), sep).0,
            s@.subrange(start as int, i as int) == split_acc(s@.take(i as int), sep).1,
        decreases n - i,
    {
        let c = s.get_char(i);
        proof {
            assert(s@.take(i + 1).drop_last() =~= s@.take(i as int));
            assert(s@.take(i + 1).last() == c);
        }
        if c == sep {
            let piece = s.substring_char(start, i).to_owned();
            let ghost before = out@;
            out.push(piece);
            proof {
                assert(out@.map_values(|f: String| f@) =~= before.map_values(|f: String| f@).push(
                    piece@,
                ));
                assert(s@.subrange(i + 1, i + 1) =~= Seq::<char>::empty());
            }
            start = i + 1;
        } else {
            proof {
                assert(s@.subrange(start as int, i + 1) =~= s@.subrange(start as int, i as int).push(c));
            }
        }
        i = i + 1;
    }
    let last = s.substring_char(start, n).to_owned();
    let ghost before = out@;
    out.push(last);
    proof {
        assert(s@.take(n as int) =~= s@);
        assert(out@.map_values(|f: String| f@) =~= before.map_values(|f: String| f@).push(last@));
    }
    out
}

/// `s` without the `'#'` characters that lead it.
pub open spec fn strip_hashes(s: Seq<char>) -> Seq<char>
    decreases s.len(),
{
    if s.len() > 0 && s[0] == '#' {
        strip_hashes(s.drop_first())
    } else {
        s
    }
}

/// Drops the `'#'` characters at the start of `s`.
pub fn trim_hashes(s: &str) -> (r: &str)
    ensures
        r@ == strip_hashes(s@),
{
    let n = s.unicode_len();
    let mut i: usize = 0;
    proof {
        assert(s@.subrange(0, n as int) =~= s@);
    }
    while i < n && s.get_char(i) == '#'
        invariant
            n == s@.len(),
            i <= n,
            strip_hashes(s@) == strip_hashes(s@.subrange(i as int, n as int)),
        decreases n - i,
    {
        proof {
            assert(s@.subrange(i as int, n as int).drop_first() =~= s@.subrange(i + 1, n as int));
        }
        i = i + 1;
    }
    s.substring_char(i, n)
}

pub open spec fn is_digit(c: char) -> bool {
    '0' <= c <= '9'
}

pub open spec fn digit_value(c: char) -> int {
    c as int - '0' as int
}

/// All characters of `s` are decimal digits.
pub open spec fn all_digits(s: Seq<char>) -> bool {
    forall|i: int| 0 <= i < s.len() ==> is_digit(#[trigger] s[i])
}

/// The number that the digits of `s` write.
pub open spec fn digits_value(s: Seq<char>) -> int
    decreases s.len(),
{
    if s.len() == 0 {
        0
    } else {
        digits_value(s.drop_last()) * 10 + digit_value(s.last())
    }
}

/// The first `k` digits of the fraction `f`, padded with zeros: the
/// fraction in units of `10^-k`, rounded toward zero.
pub open spec fn frac_value(f: Seq<char>, k: int) -> int
    decreases k,
{
    if k <= 0 {
        0
    } else {
        frac_value(f, k - 1) * 10 + if k - 1 < f.len() {
            digit_value(f[k - 1])
        } else {
            0
        }
    }
}

/// Number of decimal places kept by `parse_fixed`.
pub const PLACES: usize = 6;

/// Unit scale of `parse_fixed`: the number of units in one.
pub const SCALE: i64 = 1000000;

/// `s` without its sign, if it has one.
pub open spec fn unsigned_part(s: Seq<char>) -> Seq<char> {
    if s.len() > 0 && (s[0] == '-' || s[0] == '+') {
        s.drop_first()
    } else {
        s
    }
}

pub open spec fn is_negative(s: Seq<char>) -> bool {
    s.len() > 0 && s[0] == '-'
}

/// `u` is `digits[.digits]` with at least one digit.
pub open spec fn decimal_form(u: Seq<char>) -> bool {
    let parts = fields(u, '.');
    &&& parts.len() <= 2
    &&& all_digits(parts[0])
    &&& parts.len() == 2 ==> all_digits(parts[1])
    &&& parts[0].len() > 0 || (parts.len() == 2 && parts[1].len() > 0)
}

/// The value that a decimal text writes, in units of `1 / SCALE`, with the
/// digits past the sixth decimal place dropped.
pub open spec fn decimal_units(s: Seq<char>) -> int {
    let parts = fields(unsigned_part(s), '.');
    let frac = if parts.len() == 2 { parts[1] } else { Seq::empty() };
    let v = digits_value(parts[0]) * SCALE + frac_value(frac, PLACES as int);
    if is_negative(s) { -v } else { v }
}

/// The value `parse_fixed` reads from `s`.
pub open spec fn fixed_value(s: Seq<char>) -> Option<i64> {
    if decimal_form(unsigned_part(s)) && -BOUND <= decimal_units(s) <= BOUND {
        Some(decimal_units(s) as i64)
    } else {
        None
    }
}

/// Reads a decimal number such as `-122.4194` in units of `1 / SCALE`:
/// `None` when the text is not an optionally signed decimal, or its value
/// lies beyond `BOUND` units either way.
pub fn parse_fixed(s: &str) -> (r: Option<i64>)
    ensures
        r == fixed_value(s@),
{
    let n = s.unicode_len();
    let negative = n > 0 && s.get_char(0) == '-';
    let signed = n > 0 && (s.get_char(0) == '-' || s.get_char(0) == '+');
    let u = if signed { s.substring_char(1, n) } else { s.substring_char(0, n) };
    proof {
        assert(u@ =~= unsigned_part(s@));
    }
    let parts = split_fields(u, '.');
    let ghost ps = parts@.map_values(|f: String| f@);
    assert(parts@.len() == ps.len());
    if parts.len() > 2 {
        return None;
    }
    assert(ps[0] == parts@[0]@);
    let whole_text = parts[0].as_str();
    let frac_text = if parts.len() == 2 { parts[1].as_str() } else { "" };
    proof {
        reveal_strlit("");
        if parts@.len() == 2 {
            assert(ps[1] == parts@[1]@);
        }
    }
    let ghost frac_seq = frac_text@;
    if whole_text.unicode_len() == 0 && frac_text.unicode_len() == 0 {
        return None;
    }
    let whole = match digits_capped(whole_text) {
        None => return None,
        Some(w) => w,
    };
    let frac = match frac_units(frac_text) {
        None => return None,
        Some(f) => f,
    };
    if parts.len() == 1 {
        proof {
            assert(frac_seq =~= Seq::<char>::empty());
            lemma_frac_empty(PLACES as int);
        }
    }
    proof {
        assert(ps =~= fields(unsigned_part(s@), '.'));
        assert(frac_seq == (if ps.len() == 2 { ps[1] } else { Seq::<char>::empty() }));
        lemma_frac_nonneg(frac_seq, PLACES as int);
    }
    if whole > CAP {
        proof {
            let dv = digits_value(ps[0]);
            assert(dv * SCALE >= (CAP + 1) * SCALE) by (nonlinear_arith)
                requires
                    dv >= CAP + 1,
            ;
        }
        return None;
    }
    proof {
        assert(whole * SCALE <= CAP * SCALE) by (nonlinear_arith)
            requires
                0 <= whole <= CAP,
        ;
    }
    let v = whole * SCALE + frac;
    assert(whole == digits_value(ps[0]));
    assert(v == digits_value(ps[0]) * SCALE + frac_value(frac_seq, PLACES as int));
    if v > BOUND {
        return None;
    }
    if negative {
        Some(-v)
    } else {
        Some(v)
    }
}

/// Any integer part above this many units of one puts a value beyond `BOUND`.
const CAP: i64 = 1073;

/// The value of a string of digits, or `CAP + 1` when it exceeds `CAP`;
/// `None` when a character is not a digit.
fn digits_capped(t: &str) -> (r: Option<i64>)
    ensures
        r is Some <==> all_digits(t@),
        r matches Some(v) ==> (if digits_value(t@) <= CAP { v == digits_value(t@) } else {
            v == CAP + 1
        }),
        r matches Some(v) ==> 0 <= v <= CAP + 1,
{
    let n = t.unicode_len();
    let mut i: usize = 0;
    let mut v: i64 = 0;
    while i < n
        invariant
            n == t@.len(),
            i <= n,
            all_digits(t@.take(i as int)),
            0 <= v <= CAP + 1,
            digits_value(t@.take(i as int)) <= CAP ==> v == digits_value(t@.take(i as int)),
            digits_value(t@.take(i as int)) > CAP ==> v == CAP + 1,
            digits_value(t@.take(i as int)) >= 0,
        decreases n - i,
    {
        let c = t.get_char(i);
        proof {
            assert(t@.take(i + 1).drop_last() =~= t@.take(i as int));
            assert(t@.take(i + 1).last() == c);
        }
        if !('0' <= c && c <= '9') {
            proof {
                assert(!all_digits(t@)) by {
                    assert(t@[i as int] == c);
                }
            }
            return None;
        }
        let d = (c as u32 - '0' as u32) as i64;
        if v > CAP || v * 10 + d > CAP {
            v = CAP + 1;
        } else {
            v = v * 10 + d;
        }
        i = i + 1;
    }
    proof {
        assert(t@.take(n as int) =~= t@);
    }
    Some(v)
}

/// The fraction's first `PLACES` digits, padded with zeros; `None` when a
/// character is not a digit.
fn frac_units(t: &str) -> (r: Option<i64>)
    ensures
        r is Some <==> all_digits(t@),
        r matches Some(v) ==> v == frac_value(t@, PLACES as int) && 0 <= v < SCALE,
{
    let n = t.unicode_len();
    let mut i: usize = 0;
    while i < n
        invariant
            n == t@.len(),
            i <= n,
            all_digits(t@.take(i as int)),
        decreases n - i,
    {
        let c = t.get_char(i);
        if !('0' <= c && c <= '9') {
            proof {
                assert(!all_digits(t@)) by {
                    assert(t@[i as int] == c);
                }
            }
            return None;
        }
        proof {
            assert forall|j: int| 0 <= j < i + 1 implies is_digit(#[trigger] t@.take(i + 1)[j]) by {
                if j < i {
                    assert(t@.take(i + 1)[j] == t@.take(i as int)[j]);
                }
            }
        }
        i = i + 1;
    }
    proof {
        assert(t@.take(n as int) =~= t@);
    }
    let mut v: i64 = 0;
    let mut k: usize = 0;
    proof {
        lemma_pow10_small();
    }
    while k < PLACES
        invariant
            n == t@.len(),
            all_digits(t@),
            k <= PLACES,
            v == frac_value(t@, k as int),
            0 <= v < pow10(k as int),
            forall|j: int| 0 <= j <= PLACES ==> #[trigger] pow10(j) <= SCALE,
            pow10(PLACES as int) == SCALE,
        decreases PLACES - k,
    {
        let d: i64 = if k < n {
            (t.get_char(k) as u32 - '0' as u32) as i64
        } else {
            0
        };
        proof {
            if k < n {
                assert(is_digit(t@[k as int]));
            }
            assert(pow10(k + 1) == pow10(k as int) * 10);
            assert(v * 10 + d < pow10(k + 1)) by (nonlinear_arith)
                requires
                    0 <= v < pow10(k as int),
                    0 <= d <= 9,
                    pow10(k + 1) == pow10(k as int) * 10,
            ;
        }
        v = v * 10 + d;
        k = k + 1;
    }
    Some(v)
}

pub open spec fn pow10(k: int) -> int
    decreases k,
{
    if k <= 0 {
        1
    } else {
        pow10(k - 1) * 10
    }
}

proof fn lemma_pow10_small()
    ensures
        forall|j: int| 0 <= j <= PLACES ==> #[trigger] pow10(j) <= SCALE,
        pow10(PLACES as int) == SCALE,
{
    assert(pow10(0) == 1);
    assert(pow10(1) == 10);
    assert(pow10(2) == 100);
    assert(pow10(3) == 1000);
    assert(pow10(4) == 10000);
    assert(pow10(5) == 100000);
    assert(pow10(6) == 1000000);
    assert forall|j: int| 0 <= j <= PLACES implies #[trigger] pow10(j) <= SCALE by {
        if j == 0 {
        } else if j == 1 {
        } else if j == 2 {
        } else if j == 3 {
        } else if j == 4 {
        } else if j == 5 {
        } else {
        }
    }
}

proof fn lemma_frac_empty(k: int)
    ensures
        frac_value(Seq::<char>::empty(), k) == 0,
    decreases k,
{
    if k > 0 {
        lemma_frac_empty(k - 1);
    }
}

proof fn lemma_frac_nonneg(f: Seq<char>, k: int)
    requires
        all_digits(f),
    ensures
        frac_value(f, k) >= 0,
    decreases k,
{
    if k > 0 {
        lemma_frac_nonneg(f, k - 1);
        if k - 1 < f.len() {
            assert(is_digit(f[k - 1]));
        }
    }
}

} // verus!
