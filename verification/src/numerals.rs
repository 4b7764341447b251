use vstd::prelude::*;

use crate::fixed::{Fixed, VALUE_LIMIT_MILLI};

verus! {

/// Whether a byte is an ASCII decimal digit.
pub open spec fn is_digit(b: u8) -> bool {
    48 <= b <= 57
}

/// Ten to the power `n`.
pub open spec fn pow10(n: nat) -> int
    decreases n,
{
    if n == 0 {
        1
    } else {
        10 * pow10((n - 1) as nat)
    }
}

/// The number a string of ASCII digits stands for, most significant first.
pub open spec fn digits_val(s: Seq<u8>) -> int
    decreases s.len(),
{
    if s.len() == 0 {
        0
    } else {
        digits_val(s.drop_last()) * 10 + (s.last() - 48)
    }
}

/// Whether every byte of `s` is an ASCII decimal digit.
pub open spec fn all_digits(s: Seq<u8>) -> bool {
    forall|i: int| 0 <= i < s.len() ==> is_digit(s[i])
}

/// The canonical decimal rendering of `n`: no leading zero except for the
/// single digit of zero itself.
pub open spec fn dec_digits(n: nat) -> Seq<u8>
    decreases n,
{
    if n < 10 {
        seq![(48 + n) as u8]
    } else {
        dec_digits(n / 10).push((48 + n % 10) as u8)
    }
}

/// The three-digit zero-padded rendering of `n < 1000`.
pub open spec fn dec3(n: int) -> Seq<u8> {
    seq![(48 + n / 100) as u8, (48 + (n / 10) % 10) as u8, (48 + n % 10) as u8]
}

/// The two-digit zero-padded rendering of `n < 100`.
pub open spec fn dec2(n: int) -> Seq<u8> {
    seq![(48 + n / 10) as u8, (48 + n % 10) as u8]
}

/// A digit string stands for a non-negative number below `pow10` of its
/// length.
pub proof fn lemma_digits_val_bounds(s: Seq<u8>)
    requires
        all_digits(s),
    ensures
        0 <= digits_val(s) < pow10(s.len()),
    decreases s.len(),
{
    if s.len() > 0 {
        assert(all_digits(s.drop_last()));
        lemma_digits_val_bounds(s.drop_last());
    }
}

/// Dropping trailing digits never increases the number a digit string
/// stands for.
pub proof fn lemma_digits_val_prefix_le(s: Seq<u8>, k: int)
    requires
        all_digits(s),
        0 <= k <= s.len(),
    ensures
        digits_val(s.take(k)) <= digits_val(s),
    decreases s.len(),
{
    if k == s.len() {
        assert(s.take(k) =~= s);
    } else {
        assert(all_digits(s.drop_last()));
        assert(s.take(k) =~= s.drop_last().take(k));
        lemma_digits_val_prefix_le(s.drop_last(), k);
        assert(all_digits(s.take(k)));
        lemma_digits_val_bounds(s.take(k));
        lemma_digits_val_bounds(s.drop_last());
    }
}

/// The canonical rendering is made of ASCII digits and never starts with a
/// zero unless it is the single digit zero.
pub proof fn lemma_dec_digits_shape(n: nat)
    ensures
        dec_digits(n).len() >= 1,
        all_digits(dec_digits(n)),
        n >= 10 ==> dec_digits(n)[0] != 48,
        n < 10 ==> dec_digits(n) =~= seq![(48 + n) as u8],
    decreases n,
{
    if n >= 10 {
        lemma_dec_digits_shape(n / 10);
        assert(dec_digits(n) =~= dec_digits(n / 10).push((48 + n % 10) as u8));
    }
}

/// The canonical rendering stands for the number it was made from.
pub proof fn lemma_dec_digits_val(n: nat)
    ensures
        digits_val(dec_digits(n)) == n,
    decreases n,
{
    if n < 10 {
        let s = seq![(48 + n) as u8];
        assert(s.drop_last() =~= Seq::<u8>::empty());
        assert(digits_val(s) == digits_val(s.drop_last()) * 10 + (s.last() - 48));
    } else {
        lemma_dec_digits_val(n / 10);
        assert(dec_digits(n).drop_last() =~= dec_digits(n / 10));
    }
}

/// Renders `n` in decimal, most significant digit first.
pub fn fmt_u64(n: u64) -> (r: Vec<u8>)
    ensures
        r@ == dec_digits(n as nat),
    decreases n,
{
    if n < 10 {
        let mut v: Vec<u8> = Vec::new();
        v.push(48 + (n as u8));
        proof {
            assert(v@ =~= dec_digits(n as nat));
        }
        v
    } else {
        let mut v = fmt_u64(n / 10);
        v.push(48 + ((n % 10) as u8));
        v
    }
}

/// Renders `n < 1000` as exactly three digits, zero padded.
pub fn fmt_3(n: u64) -> (r: Vec<u8>)
    requires
        n < 1000,
    ensures
        r@ == dec3(n as int),
{
    let mut v: Vec<u8> = Vec::new();
    v.push(48 + ((n / 100) as u8));
    v.push(48 + (((n / 10) % 10) as u8));
    v.push(48 + ((n % 10) as u8));
    proof {
        assert(v@ =~= dec3(n as int));
    }
    v
}

/// Renders `n < 100` as exactly two digits, zero padded.
pub fn fmt_2(n: u64) -> (r: Vec<u8>)
    requires
        n < 100,
    ensures
        r@ == dec2(n as int),
{
    let mut v: Vec<u8> = Vec::new();
    v.push(48 + ((n / 10) as u8));
    v.push(48 + ((n % 10) as u8));
    proof {
        assert(v@ =~= dec2(n as int));
    }
    v
}

/// The rendering of a fixed-point value with all three fractional digits:
/// an optional minus sign, the whole units, a dot, and the padded
/// thousandths of the magnitude.
pub open spec fn fixed3_bytes(m: int) -> Seq<u8> {
    let a = if m < 0 {
        -m
    } else {
        m
    };
    (if m < 0 {
        seq![45u8]
    } else {
        Seq::<u8>::empty()
    }) + dec_digits((a / 1000) as nat) + seq![46u8] + dec3(a % 1000)
}

/// The rendering of a fixed-point value cut to two fractional digits, the
/// magnitude rounded half away from zero.
pub open spec fn fixed2_bytes(m: int) -> Seq<u8> {
    let a = if m < 0 {
        -m
    } else {
        m
    };
    let c = (a + 5) / 10;
    (if m < 0 {
        seq![45u8]
    } else {
        Seq::<u8>::empty()
    }) + dec_digits((c / 100) as nat) + seq![46u8] + dec2(c % 100)
}

/// The widest magnitude, in thousandths, that the fixed-point renderers
/// accept; derived statistics stay well inside it.
pub const FMT_LIMIT_MILLI: i64 = 100_000_000_000_000_000;

/// Renders a fixed-point value with its full three fractional digits.
pub fn fmt_fixed3(v: Fixed) -> (r: Vec<u8>)
    requires
        -FMT_LIMIT_MILLI <= v.milli <= FMT_LIMIT_MILLI,
    ensures
        r@ == fixed3_bytes(v.milli as int),
{
    let mut out: Vec<u8> = Vec::new();
    let a: i64 = if v.milli < 0 {
        out.push(45);
        -v.milli
    } else {
        v.milli
    };
    let units = fmt_u64((a / 1000) as u64);
    let mut k: usize = 0;
    while k < units.len()
        invariant
            0 <= k <= units@.len(),
            out@ == (if v.milli < 0 {
                seq![45u8]
            } else {
                Seq::<u8>::empty()
            }) + units@.take(k as int),
        decreases units@.len() - k,
    {
        out.push(units[k]);
        k = k + 1;
        proof {
            assert(units@.take(k as int) =~= units@.take(k - 1).push(units@[k - 1]));
        }
    }
    out.push(46);
    let frac = fmt_3((a % 1000) as u64);
    out.push(frac[0]);
    out.push(frac[1]);
    out.push(frac[2]);
    proof {
        assert(units@.take(units@.len() as int) =~= units@);
        assert(out@ =~= fixed3_bytes(v.milli as int));
    }
    out
}

/// Renders a fixed-point value with two fractional digits, rounding the
/// magnitude half away from zero.
pub fn fmt_fixed2(v: Fixed) -> (r: Vec<u8>)
    requires
        -FMT_LIMIT_MILLI <= v.milli <= FMT_LIMIT_MILLI,
    ensures
        r@ == fixed2_bytes(v.milli as int),
{
    let mut out: Vec<u8> = Vec::new();
    let a: i64 = if v.milli < 0 {
        out.push(45);
        -v.milli
    } else {
        v.milli
    };
    let c: i64 = (a + 5) / 10;
    let units = fmt_u64((c / 100) as u64);
    let mut k: usize = 0;
    while k < units.len()
        invariant
            0 <= k <= units@.len(),
            out@ == (if v.milli < 0 {
                seq![45u8]
            } else {
                Seq::<u8>::empty()
            }) + units@.take(k as int),
        decreases units@.len() - k,
    {
        out.push(units[k]);
        k = k + 1;
        proof {
            assert(units@.take(k as int) =~= units@.take(k - 1).push(units@[k - 1]));
        }
    }
    out.push(46);
    let frac = fmt_2((c % 100) as u64);
    out.push(frac[0]);
    out.push(frac[1]);
    proof {
        assert(units@.take(units@.len() as int) =~= units@);
        assert(out@ =~= fixed2_bytes(v.milli as int));
    }
    out
}

/// One more than the largest power of ten is positive.
pub proof fn lemma_pow10_pos(n: nat)
    ensures
        pow10(n) >= 1,
    decreases n,
{
    if n > 0 {
        lemma_pow10_pos((n - 1) as nat);
    }
}

/// The index of the first occurrence of `b` in `s`, or `s.len()` when `b`
/// does not occur.
pub open spec fn find_byte(s: Seq<u8>, b: u8) -> int
    decreases s.len(),
{
    if s.len() == 0 {
        0
    } else if s[0] == b {
        0
    } else {
        1 + find_byte(s.drop_first(), b)
    }
}

/// What `find_byte` returns: an in-range index, the byte there where it is
/// in range, and nothing equal to `b` before it.
pub proof fn lemma_find_byte(s: Seq<u8>, b: u8)
    ensures
        0 <= find_byte(s, b) <= s.len(),
        find_byte(s, b) < s.len() ==> s[find_byte(s, b)] == b,
        forall|i: int| 0 <= i < find_byte(s, b) ==> s[i] != b,
    decreases s.len(),
{
    if s.len() > 0 && s[0] != b {
        lemma_find_byte(s.drop_first(), b);
        assert forall|i: int| 0 <= i < find_byte(s, b) implies s[i] != b by {
            if i > 0 {
                assert(s.drop_first()[i - 1] == s[i]);
            }
        }
    }
}

/// `find_byte` is the one index with no occurrence before it that either
/// holds `b` or is the length.
pub proof fn lemma_find_byte_at(s: Seq<u8>, b: u8, j: int)
    requires
        0 <= j <= s.len(),
        forall|i: int| 0 <= i < j ==> s[i] != b,
        j < s.len() ==> s[j] == b,
    ensures
        find_byte(s, b) == j,
{
    lemma_find_byte(s, b);
}

/// How many digits a numeral body holds: all its bytes less the dot, if
/// one is there.
pub open spec fn numeral_digit_count(body: Seq<u8>) -> int {
    body.len() - (if find_byte(body, 46) < body.len() {
        1int
    } else {
        0int
    })
}

/// Whether `body` (a candidate numeral with any sign already removed) is
/// digits with at most one dot among them and at least one digit.
pub open spec fn numeral_shape(body: Seq<u8>) -> bool {
    let d = find_byte(body, 46);
    &&& numeral_digit_count(body) >= 1
    &&& forall|i: int| 0 <= i < body.len() && i != d ==> is_digit(body[i])
}

/// The thousandths that a fraction digit string stands for; digits past
/// the third are cut off.
pub open spec fn frac_milli(fp: Seq<u8>) -> int {
    if fp.len() >= 3 {
        digits_val(fp.take(3))
    } else {
        digits_val(fp) * pow10((3 - fp.len()) as nat)
    }
}

/// The thousandths that a well-shaped numeral body stands for.
pub open spec fn numeral_milli(body: Seq<u8>) -> int {
    let d = find_byte(body, 46);
    let ip = body.take(d);
    let fp = if d < body.len() {
        body.skip(d + 1)
    } else {
        Seq::<u8>::empty()
    };
    digits_val(ip) * 1000 + frac_milli(fp)
}

/// The thousandths that a byte string stands for as a decimal numeral: an
/// optional sign, digits, at most one dot, at least one digit, three
/// fractional digits kept, magnitude at most `VALUE_LIMIT_MILLI`.
pub open spec fn spec_parse_milli(s: Seq<u8>) -> Option<int> {
    let neg = s.len() > 0 && s[0] == 45;
    let body = if s.len() > 0 && (s[0] == 43 || s[0] == 45) {
        s.drop_first()
    } else {
        s
    };
    if !numeral_shape(body) {
        None
    } else {
        let m = numeral_milli(body);
        if m > VALUE_LIMIT_MILLI {
            None
        } else if neg {
            Some(-m)
        } else {
            Some(m)
        }
    }
}

/// The fixed-point value that a byte string stands for, if any.
pub open spec fn spec_parse_fixed(s: Seq<u8>) -> Option<Fixed> {
    match spec_parse_milli(s) {
        Some(m) => Some(Fixed { milli: m as i64 }),
        None => None,
    }
}

/// Parses a decimal numeral with an optional sign and at most one dot into
/// a fixed-point value; fraction digits past the third are cut off, and a
/// magnitude above the representable range is refused.
#[verifier::rlimit(100)]
pub fn parse_fixed(s: &[u8]) -> (r: Option<Fixed>)
    ensures
        r == spec_parse_fixed(s@),
        r matches Some(f) ==> f.wf(),
{
    let n: usize = s.len();
    let mut i0: usize = 0;
    let mut neg = false;
    if n > 0 && (s[0] == 43 || s[0] == 45) {
        neg = s[0] == 45;
        i0 = 1;
    }
    let ghost body = s@.skip(i0 as int);
    proof {
        lemma_find_byte(body, 46);
        assert(forall|t: int| 0 <= t < body.len() ==> body[t] == s@[t + i0]);
    }
    let ghost d = find_byte(body, 46);

    let mut j: usize = i0;
    let mut acc: i64 = 0;
    while j < n && 48 <= s[j] && s[j] <= 57
        invariant
            i0 <= j <= n,
            n == s@.len(),
            i0 <= 1,
            (i0 == 1) == (s@.len() > 0 && (s@[0] == 43 || s@[0] == 45)),
            neg == (s@.len() > 0 && s@[0] == 45),
            body == s@.skip(i0 as int),
            d == find_byte(body, 46),
            forall|t: int| i0 <= t < j ==> is_digit(s@[t]),
            acc == digits_val(s@.subrange(i0 as int, j as int)),
            0 <= acc <= 10_000_009,
        decreases n - j,
    {
        if acc > 1_000_000 {
            proof {
                lemma_parse_overflow(s@, i0 as int, j as int, neg);
            }
            return None;
        }
        acc = acc * 10 + ((s[j] - 48) as i64);
        j = j + 1;
        proof {
            let p = s@.subrange(i0 as int, j - 1);
            let q = s@.subrange(i0 as int, j as int);
            assert(q =~= p.push(s@[j - 1]));
            assert(q.drop_last() =~= p);
        }
    }

    let ghost ip = body.take(d);
    let mut fmilli: i64 = 0;
    let ghost fp = if d < body.len() {
        body.skip(d + 1)
    } else {
        Seq::<u8>::empty()
    };

    if j < n {
        if s[j] != 46 {
            proof {
                // the byte at j is neither a digit nor the dot, so the
                // numeral shape fails
                lemma_body_skip(s@, i0 as int);
                lemma_find_byte(body, 46);
                if numeral_shape(body) {
                    assert(body[j - i0] == s@[j as int]);
                    assert(d != j - i0);
                    assert(is_digit(body[j - i0]));
                }
            }
            return None;
        }
        proof {
            lemma_find_byte_at(body, 46, j - i0);
        }
        let mut k: usize = j + 1;
        let mut facc: i64 = 0;
        let mut fcount: usize = 0;
        while k < n
            invariant
                i0 <= j < k <= n,
                j + 1 <= k,
                n == s@.len(),
                i0 <= 1,
                (i0 == 1) == (s@.len() > 0 && (s@[0] == 43 || s@[0] == 45)),
                neg == (s@.len() > 0 && s@[0] == 45),
                body == s@.skip(i0 as int),
                d == j - i0,
                d == find_byte(body, 46),
                s@[j as int] == 46,
                forall|t: int| i0 <= t < j ==> is_digit(s@[t]),
                forall|t: int| j < t < k ==> is_digit(s@[t]),
                fcount == if k - j - 1 <= 3 {
                    (k - j - 1) as usize
                } else {
                    3usize
                },
                facc == digits_val(s@.subrange(j as int + 1, j as int + 1 + fcount as int)),
                0 <= facc <= 999,
            decreases n - k,
        {
            let c = s[k];
            if c < 48 || c > 57 {
                proof {
                    lemma_body_skip(s@, i0 as int);
                    if numeral_shape(body) {
                        assert(body[k - i0] == s@[k as int]);
                        assert(k - i0 != d);
                        assert(is_digit(body[k - i0]));
                    }
                }
                return None;
            }
            if fcount < 3 {
                facc = facc * 10 + ((c - 48) as i64);
                fcount = fcount + 1;
                proof {
                    let p = s@.subrange(j as int + 1, j as int + fcount as int);
                    let q = s@.subrange(j as int + 1, j as int + 1 + fcount as int);
                    assert(q =~= p.push(s@[j + fcount as int]));
                    assert(q.drop_last() =~= p);
                    assert(all_digits(q));
                    lemma_digits_val_bounds(q);
                    reveal_with_fuel(pow10, 4);
                }
            }
            k = k + 1;
        }
        proof {
            assert(fp =~= s@.subrange(j as int + 1, n as int));
            if fp.len() >= 3 {
                assert(fcount == 3);
                assert(fp.take(3) =~= s@.subrange(j as int + 1, j as int + 4));
            } else {
                assert(fcount == fp.len());
                assert(fp =~= s@.subrange(j as int + 1, j as int + 1 + fcount as int));
            }
        }
        proof {
            reveal_with_fuel(pow10, 4);
            assert(pow10(0) == 1);
            assert(pow10(1) == 10);
            assert(pow10(2) == 100);
            assert(pow10(3) == 1000);
        }
        if fcount == 3 {
            fmilli = facc;
            proof {
                assert(fp.len() >= 3);
                assert(digits_val(fp.take(3)) == facc);
                assert(frac_milli(fp) == fmilli);
            }
        } else if fcount == 2 {
            fmilli = facc * 10;
            proof {
                assert(fp.len() == 2);
                assert(digits_val(fp) == facc);
                assert(frac_milli(fp) == digits_val(fp) * pow10(1));
                assert(frac_milli(fp) == fmilli);
            }
        } else if fcount == 1 {
            fmilli = facc * 100;
            proof {
                assert(fp.len() == 1);
                assert(digits_val(fp) == facc);
                assert(frac_milli(fp) == digits_val(fp) * pow10(2));
                assert(frac_milli(fp) == fmilli);
            }
        } else {
            fmilli = 0;
            proof {
                assert(fp.len() == 0);
                assert(digits_val(fp) == 0);
                assert(frac_milli(fp) == digits_val(fp) * pow10(3));
                assert(frac_milli(fp) == fmilli);
            }
        }
    } else {
        proof {
            lemma_find_byte_at(body, 46, body.len() as int);
            assert(fp =~= Seq::<u8>::empty());
        }
    }

    let int_digits: usize = j - i0;
    let frac_digits: usize = if j < n {
        n - j - 1
    } else {
        0
    };
    if int_digits == 0 && frac_digits == 0 {
        proof {
            lemma_body_skip(s@, i0 as int);
            assert(numeral_digit_count(body) == 0);
        }
        return None;
    }

    proof {
        lemma_body_skip(s@, i0 as int);
        assert(ip =~= s@.subrange(i0 as int, j as int));
        assert forall|i: int| 0 <= i < body.len() && i != d implies is_digit(body[i]) by {
            assert(body[i] == s@[i + i0]);
        }
        assert(numeral_shape(body));
        assert(frac_milli(fp) == fmilli);
        assert(numeral_milli(body) == acc * 1000 + fmilli);
    }

    let milli: i64 = acc * 1000 + fmilli;
    if milli > VALUE_LIMIT_MILLI {
        return None;
    }
    let m: i64 = if neg {
        -milli
    } else {
        milli
    };
    Some(Fixed { milli: m })
}

/// A parsed value always lies inside the representable range.
pub proof fn lemma_parse_milli_range(s: Seq<u8>)
    ensures
        spec_parse_milli(s) matches Some(m) ==> -VALUE_LIMIT_MILLI <= m <= VALUE_LIMIT_MILLI,
{
    let body = if s.len() > 0 && (s[0] == 43 || s[0] == 45) {
        s.drop_first()
    } else {
        s
    };
    if numeral_shape(body) {
        lemma_find_byte(body, 46);
        let d = find_byte(body, 46);
        let ip = body.take(d);
        assert(all_digits(ip));
        lemma_digits_val_bounds(ip);
        let fp = if d < body.len() {
            body.skip(d + 1)
        } else {
            Seq::<u8>::empty()
        };
        assert(frac_milli(fp) >= 0) by {
            if fp.len() >= 3 {
                assert(all_digits(fp.take(3)));
                lemma_digits_val_bounds(fp.take(3));
            } else {
                assert(all_digits(fp));
                lemma_digits_val_bounds(fp);
                lemma_pow10_pos((3 - fp.len()) as nat);
            }
        }
        assert(numeral_milli(body) >= 0);
    }
}

/// The candidate numeral body (the input less its sign) is the input
/// skipped past the sign position.
proof fn lemma_body_skip(s: Seq<u8>, i0: int)
    requires
        0 <= i0 <= 1,
        (i0 == 1) == (s.len() > 0 && (s[0] == 43 || s[0] == 45)),
    ensures
        s.skip(i0) == if s.len() > 0 && (s[0] == 43 || s[0] == 45) {
            s.drop_first()
        } else {
            s
        },
{
    if i0 == 1 {
        assert(s.skip(1) =~= s.drop_first());
    } else {
        assert(s.skip(0) =~= s);
    }
}

/// When an integer-part prefix already stands for more than a million
/// units, the whole numeral is out of range or ill shaped either way.
proof fn lemma_parse_overflow(s: Seq<u8>, i0: int, j: int, neg: bool)
    requires
        0 <= i0 <= j <= s.len(),
        i0 <= 1,
        forall|t: int| i0 <= t < j ==> is_digit(s[t]),
        digits_val(s.subrange(i0, j)) > 1_000_000,
        i0 == 1 ==> s.len() > 0 && (s[0] == 43 || s[0] == 45),
        i0 == 0 ==> !(s.len() > 0 && (s[0] == 43 || s[0] == 45)),
        neg == (s.len() > 0 && s[0] == 45),
    ensures
        spec_parse_milli(s) is None,
{
    let body = if s.len() > 0 && (s[0] == 43 || s[0] == 45) {
        s.drop_first()
    } else {
        s
    };
    assert(forall|t: int| 0 <= t < body.len() ==> body[t] == s[t + i0]);
    if numeral_shape(body) {
        lemma_find_byte(body, 46);
        let d = find_byte(body, 46);
        // digits occupy body positions up to j - i0, so the dot is not
        // among them
        assert(d >= j - i0) by {
            if d < j - i0 {
                assert(is_digit(body[d]));
            }
        }
        let ip = body.take(d);
        assert(all_digits(ip));
        lemma_digits_val_prefix_le(ip, j - i0);
        assert(ip.take(j - i0) =~= s.subrange(i0, j));
        assert(digits_val(ip) > 1_000_000);
        let fp = if d < body.len() {
            body.skip(d + 1)
        } else {
            Seq::<u8>::empty()
        };
        assert(frac_milli(fp) >= 0) by {
            if fp.len() >= 3 {
                assert(all_digits(fp.take(3)));
                lemma_digits_val_bounds(fp.take(3));
            } else {
                assert(all_digits(fp));
                lemma_digits_val_bounds(fp);
                lemma_pow10_pos((3 - fp.len()) as nat);
            }
        }
        assert(numeral_milli(body) > VALUE_LIMIT_MILLI);
    }
}

/// The rendering of a millisecond timestamp as seconds with three
/// fractional digits.
pub open spec fn ts_bytes(ms: int) -> Seq<u8> {
    dec_digits((ms / 1000) as nat) + seq![46u8] + dec3(ms % 1000)
}

/// Every canonical decimal rendering is made of ASCII bytes.
pub proof fn lemma_dec_digits_ascii(n: nat)
    ensures
        forall|i: int| 0 <= i < dec_digits(n).len() ==> #[trigger] dec_digits(n)[i] < 128,
{
    lemma_dec_digits_shape(n);
    assert forall|i: int| 0 <= i < dec_digits(n).len() implies #[trigger] dec_digits(n)[i]
        < 128 by {
        assert(is_digit(dec_digits(n)[i]));
    }
}

/// A timestamp rendering is made of ASCII bytes.
pub proof fn lemma_ts_bytes_ascii(ms: int)
    requires
        ms >= 0,
    ensures
        forall|i: int| 0 <= i < ts_bytes(ms).len() ==> #[trigger] ts_bytes(ms)[i] < 128,
{
    lemma_dec_digits_ascii((ms / 1000) as nat);
    assert forall|i: int| 0 <= i < ts_bytes(ms).len() implies #[trigger] ts_bytes(ms)[i]
        < 128 by {
        let d = dec_digits((ms / 1000) as nat);
        if i < d.len() {
            assert(ts_bytes(ms)[i] == d[i]);
        }
    }
}

/// A two-decimal rendering is made of ASCII bytes.
pub proof fn lemma_fixed2_bytes_ascii(m: int)
    ensures
        forall|i: int| 0 <= i < fixed2_bytes(m).len() ==> #[trigger] fixed2_bytes(m)[i] < 128,
{
    let a = if m < 0 {
        -m
    } else {
        m
    };
    let c = (a + 5) / 10;
    lemma_dec_digits_ascii((c / 100) as nat);
    assert forall|i: int| 0 <= i < fixed2_bytes(m).len() implies #[trigger] fixed2_bytes(m)[i]
        < 128 by {
        let sgn: Seq<u8> = if m < 0 {
            seq![45u8]
        } else {
            Seq::<u8>::empty()
        };
        let d = dec_digits((c / 100) as nat);
        if i >= sgn.len() && i < sgn.len() + d.len() {
            assert(fixed2_bytes(m)[i] == d[i - sgn.len()]);
        }
    }
}

/// Appends all bytes of `s` to `out`.
pub fn push_all(out: &mut Vec<u8>, s: &[u8])
    ensures
        final(out)@ == old(out)@ + s@,
{
    let n: usize = s.len();
    let mut k: usize = 0;
    proof {
        assert(old(out)@ + s@.take(0) =~= old(out)@);
    }
    while k < n
        invariant
            0 <= k <= n,
            n == s@.len(),
            out@ == old(out)@ + s@.take(k as int),
        decreases n - k,
    {
        out.push(s[k]);
        k = k + 1;
        proof {
            assert(old(out)@ + s@.take(k as int) =~= (old(out)@ + s@.take(k - 1)).push(
                s@[k - 1],
            ));
        }
    }
    proof {
        assert(s@.take(n as int) =~= s@);
    }
}

/// Renders a millisecond timestamp as seconds with three fractional
/// digits.
pub fn fmt_timestamp_bytes(ms: u64) -> (r: Vec<u8>)
    ensures
        r@ == ts_bytes(ms as int),
{
    let mut out = fmt_u64(ms / 1000);
    out.push(46);
    let frac = fmt_3(ms % 1000);
    push_all(&mut out, frac.as_slice());
    proof {
        assert(out@ =~= ts_bytes(ms as int));
    }
    out
}

} // verus!
