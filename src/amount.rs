use vstd::prelude::*;

verus! {

/// Largest whole-unit part whose value in minor units stays within `i64`.
pub const WHOLE_LIMIT: u64 = 922337203685477;

/// Whether a byte is an ASCII decimal digit.
pub open spec fn is_digit(b: u8) -> bool {
    48 <= b <= 57
}

/// Whether every byte is an ASCII decimal digit.
pub open spec fn all_digits(s: Seq<u8>) -> bool {
    forall|i: int| 0 <= i < s.len() ==> is_digit(#[trigger] s[i])
}

/// The number that a string of decimal digits spells.
pub open spec fn digits_value(s: Seq<u8>) -> int
    decreases s.len(),
{
    if s.len() == 0 {
        0
    } else {
        digits_value(s.drop_last()) * 10 + (s.last() as int - 48)
    }
}

/// The position of the first `.` at or after `i`, or the length when there is none.
pub open spec fn first_dot_from(s: Seq<u8>, i: int) -> int
    decreases s.len() - i,
{
    if i < 0 || i >= s.len() {
        s.len() as int
    } else if s[i] == 46 {
        i
    } else {
        first_dot_from(s, i + 1)
    }
}

/// The factor that brings a fraction of `len` digits to four decimal places.
pub open spec fn fraction_scale(len: int) -> int {
    if len == 1 {
        1000
    } else if len == 2 {
        100
    } else if len == 3 {
        10
    } else {
        1
    }
}

/// The value in minor units of an unsigned decimal: digits, optionally
/// followed by `.` and at most four digits, with at least one digit in all
/// (so `5`, `5.`, `.5` and `5.25` are read, `.` and the empty text are not).
pub open spec fn unsigned_amount(s: Seq<u8>) -> Option<int> {
    let d = first_dot_from(s, 0);
    let whole = s.subrange(0, d);
    let frac = if d < s.len() {
        s.subrange(d + 1, s.len() as int)
    } else {
        Seq::empty()
    };
    if all_digits(whole) && all_digits(frac) && frac.len() <= 4 && whole.len() + frac.len()
        >= 1 {
        Some(digits_value(whole) * 10000 + digits_value(frac) * fraction_scale(frac.len() as int))
    } else {
        None
    }
}

/// The value in minor units of a decimal amount, with an optional leading `-`.
pub open spec fn amount_value(s: Seq<u8>) -> Option<int> {
    if s.len() > 0 && s[0] == 45 {
        match unsigned_amount(s.drop_first()) {
            Some(v) => Some(-v),
            None => None,
        }
    } else {
        unsigned_amount(s)
    }
}

/// A longer string of digits never spells a smaller number than its prefix.
proof fn lemma_digits_prefix(s: Seq<u8>, k: int)
    requires
        all_digits(s),
        0 <= k <= s.len(),
    ensures
        digits_value(s) >= digits_value(s.subrange(0, k)),
        digits_value(s) >= 0,
    decreases s.len(),
{
    if s.len() > 0 {
        let p = s.drop_last();
        assert(all_digits(p)) by {
            assert forall|i: int| 0 <= i < p.len() implies is_digit(#[trigger] p[i]) by {
                assert(p[i] == s[i]);
            }
        }
        assert(is_digit(s[s.len() - 1]));
        if k == s.len() {
            assert(s.subrange(0, k) =~= s);
            lemma_digits_prefix(p, 0);
        } else {
            assert(p.subrange(0, k) =~= s.subrange(0, k));
            lemma_digits_prefix(p, k);
        }
    } else {
        assert(s.subrange(0, k) =~= s);
    }
}

/// One more digit at the end of a prefix.
proof fn lemma_digits_extend(t: Seq<u8>, a: int, b: int)
    requires
        0 <= a <= b < t.len(),
    ensures
        digits_value(t.subrange(a, b + 1)) == digits_value(t.subrange(a, b)) * 10 + (
        t[b] as int - 48),
{
    assert(t.subrange(a, b + 1).drop_last() =~= t.subrange(a, b));
}

/// Parses the unsigned decimal that starts at `start`.
fn parse_unsigned(s: &[u8], start: usize) -> (r: Option<u64>)
    requires
        start <= s@.len(),
    ensures
        ({
            let t = s@.subrange(start as int, s@.len() as int);
            match unsigned_amount(t) {
                Some(v) => if v <= i64::MAX {
                    r == Some(v as u64)
                } else {
                    r is None
                },
                None => r is None,
            }
        }),
        r matches Some(m) ==> m <= i64::MAX,
        unsigned_amount(s@.subrange(start as int, s@.len() as int)) matches Some(v) ==> v >= 0,
{
    let ghost t = s@.subrange(start as int, s@.len() as int);
    proof {
        lemma_unsigned_nonnegative(t);
    }
    let n = s.len();
    let mut i: usize = start;
    let mut whole: u64 = 0;
    while i < n && s[i] != 46
        invariant
            n == s@.len(),
            start <= i <= n,
            t == s@.subrange(start as int, n as int),
            whole as int == digits_value(t.subrange(0, i - start)),
            whole <= WHOLE_LIMIT,
            all_digits(t.subrange(0, i - start)),
            first_dot_from(t, 0) == first_dot_from(t, i - start),
        decreases n - i,
    {
        let b = s[i];
        let ghost j = i - start;
        let ghost d = first_dot_from(t, 0);
        assert(t[j] == b);
        if b < 48 || b > 57 {
            proof {
                assert(first_dot_from(t, j) == first_dot_from(t, j + 1));
                lemma_dot_after(t, j + 1);
                assert(t.subrange(0, d)[j] == b);
            }
            return None;
        }
        let digit = (b - 48) as u64;
        proof {
            lemma_digits_extend(t, 0, j);
            assert(all_digits(t.subrange(0, j + 1))) by {
                assert forall|k: int| 0 <= k < j + 1 implies is_digit(
                    #[trigger] t.subrange(0, j + 1)[k],
                ) by {
                    if k < j {
                        assert(t.subrange(0, j + 1)[k] == t.subrange(0, j)[k]);
                    }
                }
            }
        }
        if whole > (WHOLE_LIMIT - digit) / 10 {
            proof {
                assert(first_dot_from(t, j) == first_dot_from(t, j + 1));
                lemma_dot_after(t, j + 1);
                assert(whole * 10 + digit > WHOLE_LIMIT) by (nonlinear_arith)
                    requires
                        whole > (WHOLE_LIMIT - digit) / 10,
                        digit <= 9,
                ;
                if unsigned_amount(t) is Some {
                    lemma_digits_prefix(t.subrange(0, d), j + 1);
                    assert(t.subrange(0, d).subrange(0, j + 1) =~= t.subrange(0, j + 1));
                    let frac = if d < t.len() {
                        t.subrange(d + 1, t.len() as int)
                    } else {
                        Seq::empty()
                    };
                    lemma_digits_prefix(frac, 0);
                }
            }
            return None;
        }
        whole = whole * 10 + digit;
        proof {
            assert(first_dot_from(t, j) == first_dot_from(t, j + 1));
        }
        i += 1;
    }
    let ghost d = i - start;
    proof {
        lemma_dot_found(t, d);
    }
    if i == n {
        if i == start {
            return None;
        }
        proof {
            assert(t.subrange(0, d) =~= t.subrange(0, i - start));
            assert(digits_value(Seq::<u8>::empty()) == 0);
            assert(all_digits(Seq::<u8>::empty()));
        }
        return Some(whole * 10000);
    }
    let mut k: usize = i + 1;
    let mut frac: u64 = 0;
    while k < n
        invariant
            n == s@.len(),
            start <= i < n,
            d == i - start,
            d == first_dot_from(t, 0),
            i + 1 <= k <= n,
            k - (i + 1) <= 4,
            t == s@.subrange(start as int, n as int),
            frac as int == digits_value(t.subrange(d + 1, k - start)),
            k - (i + 1) <= 3 ==> frac < 1000,
            k - (i + 1) <= 2 ==> frac < 100,
            k - (i + 1) <= 1 ==> frac < 10,
            k - (i + 1) == 0 ==> frac == 0,
            frac < 10000,
            all_digits(t.subrange(d + 1, k - start)),
        decreases n - k,
    {
        let b = s[k];
        let ghost j = k - start;
        assert(t[j] == b);
        if b < 48 || b > 57 {
            proof {
                assert(t.subrange(d + 1, t.len() as int)[j - d - 1] == b);
            }
            return None;
        }
        if k - (i + 1) == 4 {
            return None;
        }
        proof {
            lemma_digits_extend(t, d + 1, j);
            assert(all_digits(t.subrange(d + 1, j + 1))) by {
                assert forall|m: int| 0 <= m < j + 1 - (d + 1) implies is_digit(
                    #[trigger] t.subrange(d + 1, j + 1)[m],
                ) by {
                    if m < j - (d + 1) {
                        assert(t.subrange(d + 1, j + 1)[m] == t.subrange(d + 1, j)[m]);
                    }
                }
            }
        }
        frac = frac * 10 + (b - 48) as u64;
        k += 1;
    }
    let count = k - (i + 1);
    if count == 0 && i == start {
        return None;
    }
    proof {
        assert(t.subrange(d + 1, k - start) =~= t.subrange(d + 1, t.len() as int));
        assert(t.subrange(0, d) =~= t.subrange(0, i - start));
    }
    let scale: u64 = if count == 1 {
        1000
    } else if count == 2 {
        100
    } else if count == 3 {
        10
    } else {
        1
    };
    let value: u64 = whole * 10000 + frac * scale;
    if value > i64::MAX as u64 {
        return None;
    }
    Some(value)
}

/// The value of a well-formed unsigned decimal is never negative.
proof fn lemma_unsigned_nonnegative(t: Seq<u8>)
    ensures
        unsigned_amount(t) matches Some(v) ==> v >= 0,
{
    let d = first_dot_from(t, 0);
    if unsigned_amount(t) is Some {
        lemma_digits_prefix(t.subrange(0, d), 0);
        let frac = if d < t.len() {
            t.subrange(d + 1, t.len() as int)
        } else {
            Seq::empty()
        };
        lemma_digits_prefix(frac, 0);
    }
}

/// Every position before the first `.` holds some other byte.
proof fn lemma_dot_after(t: Seq<u8>, i: int)
    requires
        0 <= i <= t.len(),
    ensures
        i <= first_dot_from(t, i) <= t.len(),
        first_dot_from(t, i) < t.len() ==> t[first_dot_from(t, i)] == 46,
    decreases t.len() - i,
{
    if i < t.len() && t[i] != 46 {
        lemma_dot_after(t, i + 1);
    }
}

/// Where the scan of the whole part stops is the first `.`.
proof fn lemma_dot_found(t: Seq<u8>, d: int)
    requires
        0 <= d <= t.len(),
        first_dot_from(t, 0) == first_dot_from(t, d),
        d == t.len() || t[d] == 46,
    ensures
        first_dot_from(t, 0) == d,
{
}

/// Parses a decimal amount with up to four fractional digits, optionally
/// negative, into minor units; `None` when the text is not such an amount
/// or its value does not fit.
pub fn parse_amount(s: &[u8]) -> (r: Option<i64>)
    ensures
        match amount_value(s@) {
            Some(v) => if -i64::MAX <= v <= i64::MAX {
                r == Some(v as i64)
            } else {
                r is None
            },
            None => r is None,
        },
{
    if s.len() > 0 && s[0] == 45 {
        proof {
            assert(s@.subrange(1, s@.len() as int) =~= s@.drop_first());
        }
        match parse_unsigned(s, 1) {
            Some(m) => Some(-(m as i64)),
            None => None,
        }
    } else {
        proof {
            assert(s@.subrange(0, s@.len() as int) =~= s@);
        }
        match parse_unsigned(s, 0) {
            Some(m) => Some(m as i64),
            None => None,
        }
    }
}


/// The decimal digits of `n`, most significant first, without leading zeros
/// (a single `0` for zero).
pub open spec fn digits_of(n: nat) -> Seq<u8>
    decreases n,
{
    if n < 10 {
        seq![(48 + n) as u8]
    } else {
        digits_of(n / 10).push((48 + n % 10) as u8)
    }
}

/// The digits with their trailing zeros removed.
pub open spec fn trim_zeros(s: Seq<u8>) -> Seq<u8>
    decreases s.len(),
{
    if s.len() > 0 && s.last() == 48 {
        trim_zeros(s.drop_last())
    } else {
        s
    }
}

/// The four digits of a fraction below 10000, zero-padded on the left.
pub open spec fn four_digits(f: nat) -> Seq<u8> {
    seq![
        (48 + f / 1000) as u8,
        (48 + f / 100 % 10) as u8,
        (48 + f / 10 % 10) as u8,
        (48 + f % 10) as u8,
    ]
}

/// The text of an amount in minor units: an optional `-`, the whole units,
/// and, when the fraction is not zero, `.` and its digits without trailing zeros.
pub open spec fn amount_text(v: int) -> Seq<u8> {
    let m = if v < 0 {
        -v
    } else {
        v
    };
    let sign = if v < 0 {
        seq![45u8]
    } else {
        Seq::<u8>::empty()
    };
    let whole = digits_of((m / 10000) as nat);
    let frac = (m % 10000) as nat;
    if frac == 0 {
        sign + whole
    } else {
        sign + whole + seq![46u8] + trim_zeros(four_digits(frac))
    }
}

/// Appends the decimal digits of `n`.
fn push_digits(out: &mut Vec<u8>, n: u128)
    ensures
        final(out)@ == old(out)@ + digits_of(n as nat),
    decreases n,
{
    if n >= 10 {
        push_digits(out, n / 10);
    }
    out.push((48 + n % 10) as u8);
    proof {
        if n >= 10 {
            assert(final(out)@ =~= old(out)@ + digits_of(n as nat));
        } else {
            assert(final(out)@ =~= old(out)@ + digits_of(n as nat));
        }
    }
}

/// Writes an amount in minor units as decimal text, in ASCII.
pub fn format_amount(v: i128) -> (r: Vec<u8>)
    ensures
        r@ == amount_text(v as int),
{
    let m: u128 = if v < 0 {
        (-(v + 1)) as u128 + 1
    } else {
        v as u128
    };
    let mut out: Vec<u8> = Vec::new();
    if v < 0 {
        out.push(45);
    }
    let ghost sign = out@;
    push_digits(&mut out, m / 10000);
    let f = m % 10000;
    if f == 0 {
        return out;
    }
    out.push(46);
    let mut digits: Vec<u8> = Vec::new();
    digits.push((48 + f / 1000) as u8);
    digits.push((48 + f / 100 % 10) as u8);
    digits.push((48 + f / 10 % 10) as u8);
    digits.push((48 + f % 10) as u8);
    assert(digits@ =~= four_digits(f as nat));
    while digits.len() > 0 && digits[digits.len() - 1] == 48
        invariant
            trim_zeros(digits@) == trim_zeros(four_digits(f as nat)),
        decreases digits.len(),
    {
        let ghost before = digits@;
        digits.pop();
        assert(digits@ =~= before.drop_last());
    }
    let ghost head = out@;
    let n = digits.len();
    let mut i: usize = 0;
    while i < n
        invariant
            n == digits@.len(),
            i <= n,
            out@ == head + digits@.subrange(0, i as int),
        decreases n - i,
    {
        out.push(digits[i]);
        i += 1;
        assert(out@ =~= head + digits@.subrange(0, i as int));
    }
    assert(digits@.subrange(0, n as int) =~= digits@);
    assert(trim_zeros(digits@) == digits@);
    assert(out@ =~= amount_text(v as int));
    out
}

} // verus!
