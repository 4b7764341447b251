use vstd::prelude::*;

use crate::numerals::{find_byte, is_digit, lemma_find_byte, lemma_find_byte_at};

verus! {

/// Whether a byte is ASCII whitespace as the library trims it: space,
/// tab, line feed or carriage return.
pub open spec fn is_ws(b: u8) -> bool {
    b == 32 || b == 9 || b == 10 || b == 13
}

/// Whether a byte can be part of a numeral: an ASCII digit, a dot or a
/// minus sign.
pub open spec fn is_numchar(b: u8) -> bool {
    is_digit(b) || b == 46 || b == 45
}

/// `s` with every leading byte satisfying `drop` removed.
pub open spec fn ltrim_by(s: Seq<u8>, drop: spec_fn(u8) -> bool) -> Seq<u8>
    decreases s.len(),
{
    if s.len() > 0 && drop(s[0]) {
        ltrim_by(s.drop_first(), drop)
    } else {
        s
    }
}

/// `s` with every trailing byte satisfying `drop` removed.
pub open spec fn rtrim_by(s: Seq<u8>, drop: spec_fn(u8) -> bool) -> Seq<u8>
    decreases s.len(),
{
    if s.len() > 0 && drop(s.last()) {
        rtrim_by(s.drop_last(), drop)
    } else {
        s
    }
}

/// `s` with every leading and trailing byte satisfying `drop` removed.
pub open spec fn trim_by(s: Seq<u8>, drop: spec_fn(u8) -> bool) -> Seq<u8> {
    rtrim_by(ltrim_by(s, drop), drop)
}

/// `s` with surrounding ASCII whitespace removed.
pub open spec fn trim_spec(s: Seq<u8>) -> Seq<u8> {
    trim_by(s, |b: u8| is_ws(b))
}

/// `s` with every surrounding byte that cannot be part of a numeral
/// removed.
pub open spec fn strip_spec(s: Seq<u8>) -> Seq<u8> {
    trim_by(s, |b: u8| !is_numchar(b))
}

/// Removing leading bytes is taking the suffix from the first kept byte.
proof fn lemma_ltrim_by_at(s: Seq<u8>, drop: spec_fn(u8) -> bool, a: int)
    requires
        0 <= a <= s.len(),
        forall|i: int| 0 <= i < a ==> drop(s[i]),
        a < s.len() ==> !drop(s[a]),
    ensures
        ltrim_by(s, drop) == s.skip(a),
    decreases a,
{
    if a == 0 {
        assert(s.skip(0) =~= s);
    } else {
        let t = s.drop_first();
        assert(forall|i: int| 0 <= i < a - 1 ==> drop(t[i]));
        lemma_ltrim_by_at(t, drop, a - 1);
        assert(t.skip(a - 1) =~= s.skip(a));
    }
}

/// Removing trailing bytes is taking the prefix up to the last kept byte.
pub proof fn lemma_rtrim_by_at(s: Seq<u8>, drop: spec_fn(u8) -> bool, b: int)
    requires
        0 <= b <= s.len(),
        forall|i: int| b <= i < s.len() ==> drop(s[i]),
        b > 0 ==> !drop(s[b - 1]),
    ensures
        rtrim_by(s, drop) == s.take(b),
    decreases s.len(),
{
    if b == s.len() {
        if s.len() > 0 {
            assert(!drop(s.last()));
        }
        assert(s.take(b) =~= s);
    } else {
        let t = s.drop_last();
        assert(drop(s.last()));
        lemma_rtrim_by_at(t, drop, b);
        assert(t.take(b) =~= s.take(b));
    }
}

/// Copies the byte range `[a, b)` of `s` into a fresh vector.
pub fn copy_range(s: &[u8], a: usize, b: usize) -> (r: Vec<u8>)
    requires
        a <= b <= s@.len(),
    ensures
        r@ == s@.subrange(a as int, b as int),
{
    let mut out: Vec<u8> = Vec::new();
    let mut k: usize = a;
    while k < b
        invariant
            a <= k <= b <= s@.len(),
            out@ == s@.subrange(a as int, k as int),
        decreases b - k,
    {
        out.push(s[k]);
        k = k + 1;
        proof {
            assert(s@.subrange(a as int, k as int) =~= s@.subrange(a as int, k - 1).push(
                s@[k - 1],
            ));
        }
    }
    out
}

/// Removes surrounding ASCII whitespace.
pub fn trim_bytes(s: &[u8]) -> (r: Vec<u8>)
    ensures
        r@ == trim_spec(s@),
{
    let n: usize = s.len();
    let mut a: usize = 0;
    while a < n && (s[a] == 32 || s[a] == 9 || s[a] == 10 || s[a] == 13)
        invariant
            0 <= a <= n,
            n == s@.len(),
            forall|i: int| 0 <= i < a ==> is_ws(s@[i]),
        decreases n - a,
    {
        a = a + 1;
    }
    let mut b: usize = n;
    while b > a && (s[b - 1] == 32 || s[b - 1] == 9 || s[b - 1] == 10 || s[b - 1] == 13)
        invariant
            a <= b <= n,
            n == s@.len(),
            forall|i: int| b <= i < n ==> is_ws(s@[i]),
        decreases b,
    {
        b = b - 1;
    }
    proof {
        let drop = |x: u8| is_ws(x);
        lemma_ltrim_by_at(s@, drop, a as int);
        let t = s@.skip(a as int);
        lemma_rtrim_by_at(t, drop, b - a);
        assert(t.take(b - a) =~= s@.subrange(a as int, b as int));
    }
    copy_range(s, a, b)
}

/// Removes surrounding bytes that cannot be part of a numeral, as the
/// fallback scan of the classifier strips a token.
pub fn strip_token(s: &[u8]) -> (r: Vec<u8>)
    ensures
        r@ == strip_spec(s@),
{
    let n: usize = s.len();
    let mut a: usize = 0;
    while a < n && !(48 <= s[a] && s[a] <= 57 || s[a] == 46 || s[a] == 45)
        invariant
            0 <= a <= n,
            n == s@.len(),
            forall|i: int| 0 <= i < a ==> !is_numchar(s@[i]),
        decreases n - a,
    {
        a = a + 1;
    }
    let mut b: usize = n;
    while b > a && !(48 <= s[b - 1] && s[b - 1] <= 57 || s[b - 1] == 46 || s[b - 1] == 45)
        invariant
            a <= b <= n,
            n == s@.len(),
            forall|i: int| b <= i < n ==> !is_numchar(s@[i]),
        decreases b,
    {
        b = b - 1;
    }
    proof {
        let drop = |x: u8| !is_numchar(x);
        lemma_ltrim_by_at(s@, drop, a as int);
        let t = s@.skip(a as int);
        lemma_rtrim_by_at(t, drop, b - a);
        assert(t.take(b - a) =~= s@.subrange(a as int, b as int));
    }
    copy_range(s, a, b)
}

/// The byte with ASCII letters folded to lower case.
pub open spec fn lower_byte(b: u8) -> u8 {
    if 65 <= b <= 90 {
        (b + 32) as u8
    } else {
        b
    }
}

/// The byte string with ASCII letters folded to lower case.
pub open spec fn lower(s: Seq<u8>) -> Seq<u8> {
    s.map_values(|b: u8| lower_byte(b))
}

/// Folds ASCII letters to lower case.
pub fn lower_bytes(s: &[u8]) -> (r: Vec<u8>)
    ensures
        r@ == lower(s@),
{
    let n: usize = s.len();
    let mut out: Vec<u8> = Vec::new();
    let mut k: usize = 0;
    while k < n
        invariant
            0 <= k <= n,
            n == s@.len(),
            out@.len() == k,
            forall|i: int| 0 <= i < k ==> out@[i] == lower_byte(s@[i]),
        decreases n - k,
    {
        let c = s[k];
        if 65 <= c && c <= 90 {
            out.push(c + 32);
        } else {
            out.push(c);
        }
        k = k + 1;
    }
    proof {
        assert(out@ =~= lower(s@));
    }
    out
}

/// Whether the bytes of `nee` stand at position `i` of `hay`.
pub open spec fn has_sub_at(hay: Seq<u8>, nee: Seq<u8>, i: int) -> bool {
    0 <= i && i + nee.len() <= hay.len() && hay.subrange(i, i + nee.len()) == nee
}

/// Whether `nee` occurs contiguously anywhere in `hay`.
pub open spec fn contains_sub(hay: Seq<u8>, nee: Seq<u8>) -> bool {
    exists|i: int| has_sub_at(hay, nee, i)
}

/// Whether the byte string `nee` occurs contiguously in `hay`.
pub fn contains_bytes(hay: &[u8], nee: &[u8]) -> (r: bool)
    ensures
        r == contains_sub(hay@, nee@),
{
    let hn: usize = hay.len();
    let nn: usize = nee.len();
    if nn > hn {
        proof {
            assert(forall|i: int| !has_sub_at(hay@, nee@, i));
        }
        return false;
    }
    let mut i: usize = 0;
    while i <= hn - nn
        invariant
            0 <= i <= hn - nn + 1,
            nn <= hn,
            hn == hay@.len(),
            nn == nee@.len(),
            forall|t: int| 0 <= t < i ==> !has_sub_at(hay@, nee@, t),
        decreases hn + 1 - nn - i,
    {
        let mut j: usize = 0;
        let mut ok = true;
        while j < nn
            invariant
                0 <= j <= nn,
                i + nn <= hn,
                hn == hay@.len(),
                nn == nee@.len(),
                ok ==> forall|t: int| 0 <= t < j ==> hay@[i + t] == nee@[t],
                !ok ==> !has_sub_at(hay@, nee@, i as int),
                !ok ==> nn > 0,
            decreases nn - j,
        {
            if hay[i + j] != nee[j] {
                proof {
                    if has_sub_at(hay@, nee@, i as int) {
                        assert(hay@.subrange(i as int, i + nn)[j as int] == hay@[i + j]);
                    }
                }
                ok = false;
                j = nn;
            } else {
                j = j + 1;
            }
        }
        if ok {
            proof {
                assert(hay@.subrange(i as int, i + nn) =~= nee@);
                assert(has_sub_at(hay@, nee@, i as int));
            }
            return true;
        }
        i = i + 1;
    }
    proof {
        assert forall|t: int| !has_sub_at(hay@, nee@, t) by {
            if 0 <= t && t + nee@.len() <= hay@.len() {
                assert(t < i);
            }
        }
    }
    false
}

/// Whether two byte strings hold the same bytes.
pub fn eq_bytes(a: &[u8], b: &[u8]) -> (r: bool)
    ensures
        r == (a@ == b@),
{
    let n: usize = a.len();
    if b.len() != n {
        return false;
    }
    let mut k: usize = 0;
    while k < n
        invariant
            0 <= k <= n,
            n == a@.len() == b@.len(),
            forall|i: int| 0 <= i < k ==> a@[i] == b@[i],
        decreases n - k,
    {
        if a[k] != b[k] {
            return false;
        }
        k = k + 1;
    }
    proof {
        assert(a@ =~= b@);
    }
    true
}

/// The parts of `s` between occurrences of `sep`: one more part than
/// separators, parts may be empty, the separator is kept in none.
pub open spec fn split_at_byte(s: Seq<u8>, sep: u8) -> Seq<Seq<u8>>
    decreases s.len(),
{
    let d = find_byte(s, sep);
    if 0 <= d < s.len() {
        seq![s.take(d)] + split_at_byte(s.skip(d + 1), sep)
    } else {
        seq![s]
    }
}

/// Splitting yields one part more than there are separators, and a part
/// for at least every byte less the separators.
pub proof fn lemma_split_count(s: Seq<u8>, sep: u8)
    ensures
        1 <= split_at_byte(s, sep).len() <= s.len() + 1,
    decreases s.len(),
{
    lemma_find_byte(s, sep);
    let d = find_byte(s, sep);
    if 0 <= d < s.len() {
        lemma_split_count(s.skip(d + 1), sep);
    }
}

/// The byte strings that a sequence of byte vectors holds.
pub open spec fn byte_views(vs: Seq<Vec<u8>>) -> Seq<Seq<u8>> {
    Seq::new(vs.len(), |i: int| vs[i]@)
}

/// Splits `s` at every occurrence of `sep`.
pub fn split_bytes(s: &[u8], sep: u8) -> (r: Vec<Vec<u8>>)
    ensures
        byte_views(r@) == split_at_byte(s@, sep),
        r@.len() >= 1,
{
    let n: usize = s.len();
    let mut out: Vec<Vec<u8>> = Vec::new();
    let mut start: usize = 0;
    let mut k: usize = 0;
    proof {
        assert(s@.skip(0) =~= s@);
        assert(byte_views(out@) + split_at_byte(s@, sep) =~= split_at_byte(s@, sep));
    }
    while k < n
        invariant
            0 <= start <= k <= n,
            n == s@.len(),
            forall|t: int| start <= t < k ==> s@[t] != sep,
            split_at_byte(s@, sep) == byte_views(out@) + split_at_byte(
                s@.skip(start as int),
                sep,
            ),
        decreases n - k,
    {
        if s[k] == sep {
            let tok = copy_range(s, start, k);
            let ghost rest = s@.skip(start as int);
            out.push(tok);
            proof {
                assert(forall|t: int|
                    0 <= t < rest.len() ==> rest[t] == s@[t + start]);
                lemma_find_byte_at(rest, sep, k - start);
                assert(rest.take(k - start) =~= s@.subrange(start as int, k as int));
                assert(rest.skip(k - start + 1) =~= s@.skip(k + 1));
                assert(byte_views(out@) =~= byte_views(out@.drop_last()) + seq![tok@]);
                assert(byte_views(out@) + split_at_byte(s@.skip(k + 1), sep) =~= (byte_views(
                    out@.drop_last(),
                ) + seq![tok@]) + split_at_byte(s@.skip(k + 1), sep));
                assert((byte_views(out@.drop_last()) + seq![tok@]) + split_at_byte(
                    s@.skip(k + 1),
                    sep,
                ) =~= byte_views(out@.drop_last()) + (seq![tok@] + split_at_byte(
                    s@.skip(k + 1),
                    sep,
                )));
            }
            start = k + 1;
        }
        k = k + 1;
    }
    let tok = copy_range(s, start, n);
    let ghost rest = s@.skip(start as int);
    out.push(tok);
    proof {
        assert(forall|t: int| 0 <= t < rest.len() ==> rest[t] == s@[t + start]);
        lemma_find_byte_at(rest, sep, rest.len() as int);
        assert(rest =~= s@.subrange(start as int, n as int));
        assert(split_at_byte(rest, sep) =~= seq![rest]);
        assert(byte_views(out@) =~= byte_views(out@.drop_last()) + seq![tok@]);
        assert(byte_views(out@) =~= byte_views(out@.drop_last()) + split_at_byte(rest, sep));
    }
    out
}

/// The index of the first ASCII whitespace byte in `s`, or `s.len()` when
/// there is none.
pub open spec fn find_ws_idx(s: Seq<u8>) -> int
    decreases s.len(),
{
    if s.len() == 0 {
        0
    } else if is_ws(s[0]) {
        0
    } else {
        1 + find_ws_idx(s.drop_first())
    }
}

/// What `find_ws_idx` returns: an in-range index, whitespace there where
/// it is in range, and no whitespace before it.
pub proof fn lemma_find_ws(s: Seq<u8>)
    ensures
        0 <= find_ws_idx(s) <= s.len(),
        find_ws_idx(s) < s.len() ==> is_ws(s[find_ws_idx(s)]),
        forall|i: int| 0 <= i < find_ws_idx(s) ==> !is_ws(s[i]),
    decreases s.len(),
{
    if s.len() > 0 && !is_ws(s[0]) {
        lemma_find_ws(s.drop_first());
        assert forall|i: int| 0 <= i < find_ws_idx(s) implies !is_ws(s[i]) by {
            if i > 0 {
                assert(s.drop_first()[i - 1] == s[i]);
            }
        }
    }
}

/// `find_ws_idx` is the one index with no whitespace before it that
/// either holds whitespace or is the length.
pub proof fn lemma_find_ws_at(s: Seq<u8>, j: int)
    requires
        0 <= j <= s.len(),
        forall|i: int| 0 <= i < j ==> !is_ws(s[i]),
        j < s.len() ==> is_ws(s[j]),
    ensures
        find_ws_idx(s) == j,
{
    lemma_find_ws(s);
}

/// The maximal whitespace-free runs of `s`, in order: what splitting on
/// whitespace yields, with no empty token.
pub open spec fn split_ws(s: Seq<u8>) -> Seq<Seq<u8>>
    decreases s.len(),
{
    if s.len() == 0 {
        Seq::<Seq<u8>>::empty()
    } else if is_ws(s[0]) {
        split_ws(s.drop_first())
    } else {
        let e = find_ws_idx(s);
        if 1 <= e <= s.len() {
            seq![s.take(e)] + split_ws(s.skip(e))
        } else {
            Seq::<Seq<u8>>::empty()
        }
    }
}

/// Splits `s` at runs of ASCII whitespace, yielding the non-empty tokens
/// in order.
pub fn split_ws_bytes(s: &[u8]) -> (r: Vec<Vec<u8>>)
    ensures
        byte_views(r@) == split_ws(s@),
{
    let n: usize = s.len();
    let mut out: Vec<Vec<u8>> = Vec::new();
    let mut k: usize = 0;
    proof {
        assert(s@.skip(0) =~= s@);
        assert(byte_views(out@) + split_ws(s@) =~= split_ws(s@));
    }
    while k < n
        invariant
            0 <= k <= n,
            n == s@.len(),
            split_ws(s@) == byte_views(out@) + split_ws(s@.skip(k as int)),
        decreases n - k,
    {
        if s[k] == 32 || s[k] == 9 || s[k] == 10 || s[k] == 13 {
            proof {
                assert(s@.skip(k as int).drop_first() =~= s@.skip(k + 1));
            }
            k = k + 1;
        } else {
            let start = k;
            let mut e: usize = k;
            while e < n && !(s[e] == 32 || s[e] == 9 || s[e] == 10 || s[e] == 13)
                invariant
                    start <= e <= n,
                    n == s@.len(),
                    forall|t: int| start <= t < e ==> !is_ws(s@[t]),
                decreases n - e,
            {
                e = e + 1;
            }
            let tok = copy_range(s, start, e);
            let ghost rest = s@.skip(start as int);
            out.push(tok);
            proof {
                assert(forall|t: int| 0 <= t < rest.len() ==> rest[t] == s@[t + start]);
                lemma_find_ws_at(rest, e - start);
                assert(rest.take(e - start) =~= s@.subrange(start as int, e as int));
                assert(rest.skip(e - start) =~= s@.skip(e as int));
                assert(split_ws(rest) == seq![tok@] + split_ws(s@.skip(e as int)));
                assert(byte_views(out@) =~= byte_views(out@.drop_last()) + seq![tok@]);
                assert((byte_views(out@.drop_last()) + seq![tok@]) + split_ws(s@.skip(e as int))
                    =~= byte_views(out@.drop_last()) + (seq![tok@] + split_ws(s@.skip(e as int))));
            }
            k = e;
        }
    }
    proof {
        assert(s@.skip(n as int) =~= Seq::<u8>::empty());
        assert(byte_views(out@) + split_ws(s@.skip(n as int)) =~= byte_views(out@));
    }
    out
}

/// What a byte string decodes to under lossy UTF-8 decoding: invalid
/// sequences become replacement characters, so the result depends on the
/// bytes alone.
pub uninterp spec fn lossy_utf8(bytes: Seq<u8>) -> Seq<char>;

/// The characters that a pure-ASCII byte string stands for, byte by byte.
pub open spec fn ascii_chars(s: Seq<u8>) -> Seq<char> {
    s.map_values(|b: u8| b as char)
}

/// Whether every byte of `s` is ASCII.
pub open spec fn all_ascii(s: Seq<u8>) -> bool {
    forall|i: int| 0 <= i < s.len() ==> s[i] < 128
}

/// Relies on String::from_utf8_lossy: the decoding is a function of the
/// bytes alone, and ASCII bytes, being valid UTF-8, decode to themselves.
#[verifier::external_body]
pub(crate) fn bytes_to_text(bytes: &Vec<u8>) -> (r: String)
    ensures
        r@ == lossy_utf8(bytes@),
        all_ascii(bytes@) ==> r@ == ascii_chars(bytes@),
{
    String::from_utf8_lossy(bytes.as_slice()).into_owned()
}

/// Renders a millisecond timestamp as seconds with three fractional
/// digits, as the log lines carry it.
pub fn format_timestamp(ms: u64) -> (r: String)
    ensures
        r@ == ascii_chars(crate::numerals::ts_bytes(ms as int)),
{
    let bytes = crate::numerals::fmt_timestamp_bytes(ms);
    proof {
        crate::numerals::lemma_dec_digits_shape(((ms as int) / 1000) as nat);
        assert(all_ascii(bytes@)) by {
            assert(forall|i: int|
                0 <= i < bytes@.len() ==> #[trigger] bytes@[i] < 128);
        }
    }
    bytes_to_text(&bytes)
}

} // verus!
