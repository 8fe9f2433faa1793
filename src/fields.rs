//! Byte-level helpers for the comma-separated record format: splitting on a
//! separator, trimming ASCII whitespace and reading decimal numbers.
use vstd::prelude::*;

verus! {

pub open spec fn is_space(b: u8) -> bool {
    (9 <= b && b <= 13) || b == 32
}

pub open spec fn is_digit(b: u8) -> bool {
    48 <= b && b <= 57
}

pub open spec fn all_digits(s: Seq<u8>) -> bool {
    forall|i: int| 0 <= i < s.len() ==> is_digit(#[trigger] s[i])
}

/// The number written by a sequence of decimal digits, most significant first.
pub open spec fn digits_value(s: Seq<u8>) -> nat
    decreases s.len(),
{
    if s.len() == 0 {
        0
    } else {
        digits_value(s.drop_last()) * 10 + (s.last() - 48) as nat
    }
}

/// The pieces of `s` between occurrences of `sep`; there is always at least one.
pub open spec fn split_on(s: Seq<u8>, sep: u8) -> Seq<Seq<u8>>
    decreases s.len(),
{
    if s.len() == 0 {
        seq![Seq::empty()]
    } else {
        let prev = split_on(s.drop_last(), sep);
        if s.last() == sep {
            prev.push(Seq::empty())
        } else {
            prev.update(prev.len() - 1, prev.last().push(s.last()))
        }
    }
}

pub open spec fn trim_start(s: Seq<u8>) -> Seq<u8>
    decreases s.len(),
{
    if s.len() > 0 && is_space(s[0]) {
        trim_start(s.drop_first())
    } else {
        s
    }
}

pub open spec fn trim_end(s: Seq<u8>) -> Seq<u8>
    decreases s.len(),
{
    if s.len() > 0 && is_space(s.last()) {
        trim_end(s.drop_last())
    } else {
        s
    }
}

/// `s` without its leading and trailing ASCII whitespace.
pub open spec fn trim(s: Seq<u8>) -> Seq<u8> {
    trim_end(trim_start(s))
}

pub proof fn lemma_split_on_len(s: Seq<u8>, sep: u8)
    ensures
        split_on(s, sep).len() >= 1,
    decreases s.len(),
{
    if s.len() > 0 {
        lemma_split_on_len(s.drop_last(), sep);
    }
}

/// Splits `s[lo..hi]` on `sep`, returning the bounds of each piece.
pub fn split_range(s: &[u8], lo: usize, hi: usize, sep: u8) -> (r: Vec<(usize, usize)>)
    requires
        lo <= hi <= s@.len(),
    ensures
        r@.len() == split_on(s@.subrange(lo as int, hi as int), sep).len(),
        forall|k: int|
            0 <= k < r@.len() ==> {
                &&& lo <= (#[trigger] r@[k]).0 <= r@[k].1 <= hi
                &&& s@.subrange(r@[k].0 as int, r@[k].1 as int) == split_on(
                    s@.subrange(lo as int, hi as int),
                    sep,
                )[k]
            },
{
    let mut r: Vec<(usize, usize)> = Vec::new();
    let mut start: usize = lo;
    let mut i: usize = lo;
    assert(s@.subrange(lo as int, lo as int) =~= Seq::<u8>::empty());
    while i < hi
        invariant
            lo <= start <= i <= hi <= s@.len(),
            r@.len() + 1 == split_on(s@.subrange(lo as int, i as int), sep).len(),
            forall|k: int|
                0 <= k < r@.len() ==> {
                    &&& lo <= (#[trigger] r@[k]).0 <= r@[k].1 <= start
                    &&& s@.subrange(r@[k].0 as int, r@[k].1 as int) == split_on(
                        s@.subrange(lo as int, i as int),
                        sep,
                    )[k]
                },
            s@.subrange(start as int, i as int) == split_on(
                s@.subrange(lo as int, i as int),
                sep,
            ).last(),
        decreases hi - i,
    {
        let ghost prefix = s@.subrange(lo as int, i as int);
        let ghost next = s@.subrange(lo as int, i + 1);
        assert(next.drop_last() =~= prefix);
        assert(next.last() == s@[i as int]);
        proof {
            lemma_split_on_len(prefix, sep);
        }
        if s[i] == sep {
            r.push((start, i));
            start = i + 1;
            assert(s@.subrange(start as int, i + 1) =~= Seq::<u8>::empty());
        } else {
            assert(s@.subrange(start as int, i + 1) =~= s@.subrange(start as int, i as int).push(
                s@[i as int],
            ));
        }
        i = i + 1;
    }
    r.push((start, i));
    r
}


/// Narrows `s[lo..hi]` to its trimmed part.
pub fn trim_range(s: &[u8], lo: usize, hi: usize) -> (r: (usize, usize))
    requires
        lo <= hi <= s@.len(),
    ensures
        lo <= r.0 <= r.1 <= hi,
        s@.subrange(r.0 as int, r.1 as int) == trim(s@.subrange(lo as int, hi as int)),
{
    let mut a: usize = lo;
    while a < hi && (s[a] == 32 || (9 <= s[a] && s[a] <= 13))
        invariant
            lo <= a <= hi <= s@.len(),
            trim_start(s@.subrange(lo as int, hi as int)) == trim_start(
                s@.subrange(a as int, hi as int),
            ),
        decreases hi - a,
    {
        assert(s@.subrange(a as int, hi as int).drop_first() =~= s@.subrange(a + 1, hi as int));
        a = a + 1;
    }
    assert(trim_start(s@.subrange(a as int, hi as int)) == s@.subrange(a as int, hi as int));
    let mut b: usize = hi;
    while b > a && (s[b - 1] == 32 || (9 <= s[b - 1] && s[b - 1] <= 13))
        invariant
            lo <= a <= b <= hi <= s@.len(),
            trim(s@.subrange(lo as int, hi as int)) == trim_end(s@.subrange(a as int, b as int)),
        decreases b - a,
    {
        assert(s@.subrange(a as int, b as int).drop_last() =~= s@.subrange(a as int, b - 1));
        b = b - 1;
    }
    (a, b)
}

pub proof fn lemma_digits_value_prefix(s: Seq<u8>, k: int)
    requires
        0 <= k <= s.len(),
        all_digits(s),
    ensures
        digits_value(s.subrange(0, k)) <= digits_value(s),
    decreases s.len(),
{
    if k < s.len() {
        assert(s.drop_last() =~= s.subrange(0, s.len() - 1));
        assert(s.drop_last().subrange(0, k) =~= s.subrange(0, k));
        assert(is_digit(s[s.len() - 1]));
        lemma_digits_value_prefix(s.drop_last(), k);
    } else {
        assert(s.subrange(0, k) =~= s);
    }
}

/// Reads `s[lo..hi]` as decimal digits, provided their value is at most `limit`.
/// An empty range reads as zero.
pub fn parse_digits(s: &[u8], lo: usize, hi: usize, limit: u64) -> (r: Option<u64>)
    requires
        lo <= hi <= s@.len(),
    ensures
        r == (if all_digits(s@.subrange(lo as int, hi as int)) && digits_value(
            s@.subrange(lo as int, hi as int),
        ) <= limit {
            Some(digits_value(s@.subrange(lo as int, hi as int)) as u64)
        } else {
            None::<u64>
        }),
{
    let ghost t = s@.subrange(lo as int, hi as int);
    let mut acc: u64 = 0;
    let mut i: usize = lo;
    assert(t.subrange(0, 0) =~= Seq::<u8>::empty());
    while i < hi
        invariant
            lo <= i <= hi <= s@.len(),
            t == s@.subrange(lo as int, hi as int),
            all_digits(t.subrange(0, i - lo)),
            acc == digits_value(t.subrange(0, i - lo)),
            acc <= limit,
        decreases hi - i,
    {
        let c = s[i];
        assert(t[i - lo] == c);
        if c < 48 || c > 57 {
            assert(!is_digit(t[i - lo]));
            return None;
        }
        let d = (c - 48) as u64;
        let ghost p = t.subrange(0, i + 1 - lo);
        assert(p.drop_last() =~= t.subrange(0, i - lo));
        assert(digits_value(p) == acc * 10 + d);
        assert(all_digits(p));
        if acc <= limit / 10 {
            assert(acc * 10 <= limit) by (nonlinear_arith)
                requires
                    acc <= limit / 10,
            ;
        }
        if acc > limit / 10 || d > limit - acc * 10 {
            assert(acc * 10 + d > limit) by (nonlinear_arith)
                requires
                    acc > limit / 10 || acc * 10 + d > limit,
                    d <= 9,
            ;
            proof {
                if all_digits(t) {
                    lemma_digits_value_prefix(t, i + 1 - lo);
                }
            }
            return None;
        }
        acc = acc * 10 + d;
        i = i + 1;
    }
    assert(t.subrange(0, hi - lo) =~= t);
    Some(acc)
}


pub open spec fn pow10(n: nat) -> nat
    decreases n,
{
    if n == 0 {
        1
    } else {
        10 * pow10((n - 1) as nat)
    }
}

pub proof fn lemma_digits_value_bound(s: Seq<u8>)
    requires
        all_digits(s),
    ensures
        digits_value(s) < pow10(s.len()),
    decreases s.len(),
{
    if s.len() > 0 {
        let d = s.drop_last();
        assert(all_digits(d)) by {
            assert forall|i: int| 0 <= i < d.len() implies is_digit(#[trigger] d[i]) by {
                assert(d[i] == s[i]);
            }
        }
        lemma_digits_value_bound(d);
        assert(is_digit(s[s.len() - 1]));
        let v = digits_value(d);
        let p = pow10(d.len());
        let last = (s.last() - 48) as nat;
        assert(v * 10 + last < p * 10) by (nonlinear_arith)
            requires
                v < p,
                last <= 9,
        ;
    }
}

/// An unsigned decimal integer with an optional leading `+`.
pub open spec fn unsigned_value(t: Seq<u8>) -> Option<nat> {
    let body = if t.len() > 0 && t[0] == 43 {
        t.drop_first()
    } else {
        t
    };
    if body.len() > 0 && all_digits(body) {
        Some(digits_value(body))
    } else {
        None
    }
}

/// What one unit of the last fractional digit is worth, in thousandths,
/// for a fraction of `k` digits.
pub open spec fn frac_scale(k: nat) -> nat {
    if k == 0 {
        1000
    } else if k == 1 {
        100
    } else if k == 2 {
        10
    } else {
        1
    }
}

/// The first three fractional digits, or all of them when there are fewer.
pub open spec fn kept_fraction(fp: Seq<u8>) -> Seq<u8> {
    if fp.len() <= 3 {
        fp
    } else {
        fp.take(3)
    }
}

/// The magnitude in thousandths of `digits`, `digits.`, `digits.digits` or
/// `.digits`; fractional digits past the third are dropped, which truncates
/// toward zero.
pub open spec fn fixed_magnitude(body: Seq<u8>) -> Option<nat> {
    let parts = split_on(body, 46);
    let ip = parts[0];
    let fp = if parts.len() == 2 {
        parts[1]
    } else {
        Seq::empty()
    };
    let kept = kept_fraction(fp);
    if parts.len() <= 2 && all_digits(ip) && all_digits(fp) && ip.len() + fp.len() > 0 {
        Some(digits_value(ip) * 1000 + digits_value(kept) * frac_scale(kept.len()))
    } else {
        None
    }
}

/// A decimal number with an optional sign, in thousandths, when it fits an `i64`.
pub open spec fn fixed_value(t: Seq<u8>) -> Option<int> {
    let neg = t.len() > 0 && t[0] == 45;
    let body = if t.len() > 0 && (t[0] == 45 || t[0] == 43) {
        t.drop_first()
    } else {
        t
    };
    match fixed_magnitude(body) {
        Some(m) => if m <= i64::MAX {
            Some(
                if neg {
                    -m
                } else {
                    m as int
                },
            )
        } else {
            None
        },
        None => None,
    }
}

/// Reads `s[lo..hi]` as an unsigned integer no greater than `limit`.
pub fn parse_unsigned(s: &[u8], lo: usize, hi: usize, limit: u64) -> (r: Option<u64>)
    requires
        lo <= hi <= s@.len(),
    ensures
        r == (match unsigned_value(s@.subrange(lo as int, hi as int)) {
            Some(v) => if v <= limit {
                Some(v as u64)
            } else {
                None
            },
            None => None,
        }),
{
    let ghost t = s@.subrange(lo as int, hi as int);
    let mut a: usize = lo;
    if lo < hi && s[lo] == 43 {
        a = lo + 1;
        assert(t.drop_first() =~= s@.subrange(a as int, hi as int));
    } else {
        assert(t =~= s@.subrange(a as int, hi as int));
    }
    if a == hi {
        return None;
    }
    parse_digits(s, a, hi, limit)
}

/// Whether `s[lo..hi]` holds decimal digits only.
pub fn digits_only(s: &[u8], lo: usize, hi: usize) -> (r: bool)
    requires
        lo <= hi <= s@.len(),
    ensures
        r == all_digits(s@.subrange(lo as int, hi as int)),
{
    let mut i: usize = lo;
    while i < hi
        invariant
            lo <= i <= hi <= s@.len(),
            forall|k: int| lo <= k < i ==> is_digit(#[trigger] s@[k]),
        decreases hi - i,
    {
        if s[i] < 48 || s[i] > 57 {
            assert(!is_digit(s@.subrange(lo as int, hi as int)[i - lo]));
            return false;
        }
        i = i + 1;
    }
    assert forall|k: int| 0 <= k < hi - lo implies is_digit(#[trigger] s@.subrange(lo as int, hi as int)[k]) by {
        assert(s@.subrange(lo as int, hi as int)[k] == s@[lo + k]);
    }
    true
}

/// Reads `s[lo..hi]` as a signed decimal number in thousandths.
pub fn parse_fixed(s: &[u8], lo: usize, hi: usize) -> (r: Option<i64>)
    requires
        lo <= hi <= s@.len(),
    ensures
        r == (match fixed_value(s@.subrange(lo as int, hi as int)) {
            Some(v) => Some(v as i64),
            None => None,
        }),
{
    let ghost t = s@.subrange(lo as int, hi as int);
    let neg = lo < hi && s[lo] == 45;
    let mut a: usize = lo;
    if lo < hi && (s[lo] == 45 || s[lo] == 43) {
        a = lo + 1;
        assert(t.drop_first() =~= s@.subrange(a as int, hi as int));
    } else {
        assert(t =~= s@.subrange(a as int, hi as int));
    }
    let ghost body = s@.subrange(a as int, hi as int);
    let parts = split_range(s, a, hi, 46);
    proof {
        lemma_split_on_len(body, 46);
    }
    if parts.len() > 2 {
        return None;
    }
    let (ia, ib) = parts[0];
    let (fa, fb) = if parts.len() == 2 {
        parts[1]
    } else {
        (hi, hi)
    };
    assert(s@.subrange(hi as int, hi as int) =~= Seq::<u8>::empty());
    let ghost ip = s@.subrange(ia as int, ib as int);
    let ghost fp = s@.subrange(fa as int, fb as int);
    if ib == ia && fb == fa {
        return None;
    }
    if !digits_only(s, fa, fb) {
        return None;
    }
    let kb = if fb - fa > 3 {
        fa + 3
    } else {
        fb
    };
    let ghost kept = s@.subrange(fa as int, kb as int);
    assert(kept == kept_fraction(fp));
    assert(all_digits(kept)) by {
        assert forall|i: int| 0 <= i < kept.len() implies is_digit(#[trigger] kept[i]) by {
            assert(kept[i] == fp[i]);
        }
    }
    let iv = match parse_digits(s, ia, ib, 9223372036854775) {
        Some(v) => v,
        None => {
            proof {
                if all_digits(ip) {
                    assert(digits_value(ip) * 1000 > i64::MAX) by (nonlinear_arith)
                        requires
                            digits_value(ip) > 9223372036854775,
                    ;
                }
            }
            return None;
        },
    };
    proof {
        lemma_digits_value_bound(kept);
        assert(pow10(0) == 1);
        assert(pow10(1) == 10);
        assert(pow10(2) == 100);
        assert(pow10(3) == 1000);
    }
    let fv = match parse_digits(s, fa, kb, 999) {
        Some(v) => v,
        None => {
            return None;
        },
    };
    let scale: u64 = if kb - fa == 0 {
        1000
    } else if kb - fa == 1 {
        100
    } else if kb - fa == 2 {
        10
    } else {
        1
    };
    proof {
        assert(fv == digits_value(kept));
        assert(kept.len() == kb - fa);
        if kb - fa == 0 {
            assert(fv < 1);
            assert(fv * scale <= 999) by (nonlinear_arith)
                requires
                    fv < 1,
                    scale == 1000,
            ;
        } else if kb - fa == 1 {
            assert(fv * scale <= 999) by (nonlinear_arith)
                requires
                    fv < 10,
                    scale == 100,
            ;
        } else if kb - fa == 2 {
            assert(fv * scale <= 999) by (nonlinear_arith)
                requires
                    fv < 100,
                    scale == 10,
            ;
        } else {
            assert(kb - fa == 3);
            assert(fv * scale <= 999) by (nonlinear_arith)
                requires
                    fv < 1000,
                    scale == 1,
            ;
        }
    }
    let mag: u64 = iv * 1000 + fv * scale;
    if mag > 9223372036854775807 {
        return None;
    }
    if neg {
        Some(-(mag as i64))
    } else {
        Some(mag as i64)
    }
}


/// The decimal digits of `n`, most significant first, without leading zeros.
pub open spec fn digits_of(n: nat) -> Seq<u8>
    decreases n,
{
    if n < 10 {
        seq![(48 + n) as u8]
    } else {
        digits_of(n / 10).push((48 + n % 10) as u8)
    }
}

/// Three decimal digits for `r < 1000`, with leading zeros.
pub open spec fn frac3(r: nat) -> Seq<u8> {
    seq![(48 + r / 100) as u8, (48 + (r / 10) % 10) as u8, (48 + r % 10) as u8]
}

/// A number in thousandths written with a sign when negative and three
/// fractional digits.
pub open spec fn fixed_text(v: int) -> Seq<u8> {
    let m = (if v < 0 {
        -v
    } else {
        v
    }) as nat;
    let body = digits_of(m / 1000) + seq![46u8] + frac3(m % 1000);
    if v < 0 {
        seq![45u8] + body
    } else {
        body
    }
}

pub open spec fn has_no(s: Seq<u8>, b: u8) -> bool {
    forall|i: int| 0 <= i < s.len() ==> s[i] != b
}

pub proof fn lemma_digits_of(n: nat)
    ensures
        digits_of(n).len() > 0,
        all_digits(digits_of(n)),
        digits_value(digits_of(n)) == n,
    decreases n,
{
    if n >= 10 {
        lemma_digits_of(n / 10);
        let s = digits_of(n);
        assert(s.drop_last() =~= digits_of(n / 10));
        assert(s.last() == (48 + n % 10) as u8);
        assert(digits_value(s) == digits_value(digits_of(n / 10)) * 10 + n % 10);
        assert((n / 10) * 10 + n % 10 == n);
        assert(all_digits(s)) by {
            assert forall|i: int| 0 <= i < s.len() implies is_digit(#[trigger] s[i]) by {
                if i < s.len() - 1 {
                    assert(s[i] == digits_of(n / 10)[i]);
                }
            }
        }
    } else {
        assert(digits_of(n).drop_last() =~= Seq::<u8>::empty());
        assert(digits_value(digits_of(n)) == digits_value(Seq::<u8>::empty()) * 10 + n);
    }
}

pub proof fn lemma_frac3(r: nat)
    requires
        r < 1000,
    ensures
        all_digits(frac3(r)),
        digits_value(frac3(r)) == r,
{
    let s = frac3(r);
    let a = r / 100;
    let b = (r / 10) % 10;
    let c = r % 10;
    assert(a < 10 && b < 10 && c < 10);
    let s2 = seq![(48 + a) as u8, (48 + b) as u8];
    let s1 = seq![(48 + a) as u8];
    assert(s.drop_last() =~= s2);
    assert(s2.drop_last() =~= s1);
    assert(s1.drop_last() =~= Seq::<u8>::empty());
    assert(s1.last() == (48 + a) as u8);
    assert(digits_value(s1.drop_last()) == 0);
    assert(digits_value(s1) == a);
    assert(digits_value(s2) == a * 10 + b);
    assert(digits_value(s) == (a * 10 + b) * 10 + c);
    assert(a * 100 + b * 10 + c == r) by (nonlinear_arith)
        requires
            a == r / 100,
            b == (r / 10) % 10,
            c == r % 10,
            r < 1000,
    ;
}

pub proof fn lemma_split_no_sep(b: Seq<u8>, sep: u8)
    requires
        has_no(b, sep),
    ensures
        split_on(b, sep) == seq![b],
    decreases b.len(),
{
    if b.len() > 0 {
        lemma_split_no_sep(b.drop_last(), sep);
        assert(b.last() != sep);
        assert(b.drop_last().push(b.last()) =~= b);
        assert(seq![b.drop_last()].update(0, b) =~= seq![b]);
    } else {
        assert(b =~= Seq::<u8>::empty());
    }
}

/// Splitting `a`, a separator and a piece without separators gives the
/// pieces of `a` followed by that piece.
pub proof fn lemma_split_after_sep(a: Seq<u8>, b: Seq<u8>, sep: u8)
    requires
        has_no(b, sep),
    ensures
        split_on(a.push(sep) + b, sep) == split_on(a, sep).push(b),
    decreases b.len(),
{
    let c = a.push(sep) + b;
    if b.len() == 0 {
        assert(c =~= a.push(sep));
        assert(c.drop_last() =~= a);
        assert(c.last() == sep);
        assert(b =~= Seq::<u8>::empty());
    } else {
        let d = b.drop_last();
        lemma_split_after_sep(a, d, sep);
        assert(c.drop_last() =~= a.push(sep) + d);
        assert(c.last() == b.last());
        lemma_split_on_len(a, sep);
        assert(b.last() != sep);
        assert(d.push(b.last()) =~= b);
        let prev = split_on(a, sep).push(d);
        assert(prev.last() == d);
        assert(prev.update(prev.len() - 1, b) =~= split_on(a, sep).push(b));
    }
}

pub proof fn lemma_trim_unchanged(t: Seq<u8>)
    requires
        t.len() == 0 || (!is_space(t[0]) && !is_space(t.last())),
    ensures
        trim(t) == t,
{
}

pub proof fn lemma_unsigned_round_trip(n: nat)
    ensures
        unsigned_value(digits_of(n)) == Some(n),
        digits_of(n).len() > 0,
        is_digit(digits_of(n)[0]),
        is_digit(digits_of(n).last()),
{
    lemma_digits_of(n);
    let s = digits_of(n);
    assert(is_digit(s[0]));
    assert(is_digit(s[s.len() - 1]));
}

pub proof fn lemma_fixed_value_range(t: Seq<u8>)
    requires
        fixed_value(t) is Some,
    ensures
        -i64::MAX <= fixed_value(t)->0 <= i64::MAX,
{
}

pub proof fn lemma_fixed_round_trip(v: int)
    requires
        -i64::MAX <= v <= i64::MAX,
    ensures
        fixed_value(fixed_text(v)) == Some(v),
        fixed_text(v).len() > 0,
        !is_space(fixed_text(v)[0]),
        is_digit(fixed_text(v).last()),
        has_no(fixed_text(v), 44),
{
    let m = (if v < 0 {
        -v
    } else {
        v
    }) as nat;
    let ip = digits_of(m / 1000);
    let fp = frac3(m % 1000);
    let body = ip + seq![46u8] + fp;
    let t = fixed_text(v);
    lemma_unsigned_round_trip(m / 1000);
    lemma_digits_of(m / 1000);
    lemma_frac3(m % 1000);
    assert(body =~= ip.push(46u8) + fp);
    assert(has_no(fp, 46));
    lemma_split_after_sep(ip, fp, 46);
    assert(has_no(ip, 46));
    lemma_split_no_sep(ip, 46);
    assert(split_on(body, 46) =~= seq![ip, fp]);
    if v < 0 {
        assert(t.drop_first() =~= body);
    }
    assert(body[0] == ip[0]);
    assert(body.last() == fp[2]);
    assert(m / 1000 * 1000 + m % 1000 == m);
    assert(is_digit(ip[0]));
    let parts = split_on(body, 46);
    assert(parts.len() == 2 && parts[0] == ip && parts[1] == fp);
    assert(fp.len() == 3);
    assert(frac_scale(fp.len()) == 1);
    assert(digits_value(ip) == m / 1000);
    assert(digits_value(fp) == m % 1000);
    assert(kept_fraction(fp) == fp);
    assert(digits_value(ip) * 1000 + digits_value(fp) * frac_scale(fp.len()) == m) by (nonlinear_arith)
        requires
            digits_value(ip) == m / 1000,
            digits_value(fp) == m % 1000,
            frac_scale(fp.len()) == 1,
            m / 1000 * 1000 + m % 1000 == m,
    ;
    assert(fixed_magnitude(body) == Some(m));
    if v < 0 {
        assert(t[0] == 45);
    } else {
        assert(t =~= body);
        assert(t[0] != 45 && t[0] != 43);
    }
    assert(has_no(t, 44)) by {
        assert forall|i: int| 0 <= i < t.len() implies t[i] != 44 by {
            if v < 0 && i == 0 {
            } else {
                let j = if v < 0 {
                    i - 1
                } else {
                    i
                };
                assert(t[i] == body[j]);
                if j < ip.len() {
                    assert(body[j] == ip[j]);
                } else if j > ip.len() {
                    assert(body[j] == fp[j - ip.len() - 1]);
                }
            }
        }
    }
}


/// The pieces `fs` joined by `sep`.
pub open spec fn join(fs: Seq<Seq<u8>>, sep: u8) -> Seq<u8>
    decreases fs.len(),
{
    if fs.len() == 0 {
        Seq::empty()
    } else if fs.len() == 1 {
        fs[0]
    } else {
        join(fs.drop_last(), sep).push(sep) + fs.last()
    }
}

/// Pieces without separators come back from their join one by one.
pub proof fn lemma_split_join(fs: Seq<Seq<u8>>, sep: u8)
    requires
        fs.len() >= 1,
        forall|k: int| 0 <= k < fs.len() ==> has_no(#[trigger] fs[k], sep),
    ensures
        split_on(join(fs, sep), sep) == fs,
    decreases fs.len(),
{
    if fs.len() == 1 {
        lemma_split_no_sep(fs[0], sep);
        assert(seq![fs[0]] =~= fs);
    } else {
        let d = fs.drop_last();
        assert forall|k: int| 0 <= k < d.len() implies has_no(#[trigger] d[k], sep) by {
            assert(d[k] == fs[k]);
        }
        lemma_split_join(d, sep);
        assert(has_no(fs[fs.len() - 1], sep));
        lemma_split_after_sep(join(d, sep), fs.last(), sep);
        assert(d.push(fs.last()) =~= fs);
    }
}

/// Appends the decimal digits of `n`.
pub fn push_digits(out: &mut Vec<u8>, n: u64)
    ensures
        final(out)@ == old(out)@ + digits_of(n as nat),
    decreases n,
{
    if n >= 10 {
        push_digits(out, n / 10);
    }
    out.push(48 + (n % 10) as u8);
    if n < 10 {
        assert(final(out)@ =~= old(out)@ + digits_of(n as nat));
    } else {
        assert(final(out)@ =~= old(out)@ + digits_of(n as nat));
    }
}

/// Appends `v`, in thousandths, as `fixed_text` writes it.
pub fn push_fixed(out: &mut Vec<u8>, v: i64)
    ensures
        final(out)@ == old(out)@ + fixed_text(v as int),
{
    let ghost start = out@;
    let m: u64 = if v < 0 {
        (-(v as i128)) as u64
    } else {
        v as u64
    };
    if v < 0 {
        out.push(45);
    }
    push_digits(out, m / 1000);
    out.push(46);
    let r = m % 1000;
    out.push(48 + (r / 100) as u8);
    out.push(48 + ((r / 10) % 10) as u8);
    out.push(48 + (r % 10) as u8);
    assert(out@ =~= start + fixed_text(v as int));
}


/// The fractional part of `r` thousandths (`r < 1000`) as float formatting
/// writes it: nothing when it is zero, else a point and the digits without
/// trailing zeros.
pub open spec fn short_fraction(r: nat) -> Seq<u8> {
    if r == 0 {
        Seq::empty()
    } else if r % 100 == 0 {
        seq![46u8, (48 + r / 100) as u8]
    } else if r % 10 == 0 {
        seq![46u8, (48 + r / 100) as u8, (48 + (r / 10) % 10) as u8]
    } else {
        seq![46u8] + frac3(r)
    }
}

/// A number in thousandths written as the shortest decimal: `5`, `-20`,
/// `-45.5`, `-14.27`, `0.001`.
pub open spec fn short_fixed_text(v: int) -> Seq<u8> {
    let m = (if v < 0 {
        -v
    } else {
        v
    }) as nat;
    let body = digits_of(m / 1000) + short_fraction(m % 1000);
    if v < 0 {
        seq![45u8] + body
    } else {
        body
    }
}

/// Appends `v`, in thousandths, as `short_fixed_text` writes it.
pub fn push_short_fixed(out: &mut Vec<u8>, v: i64)
    ensures
        final(out)@ == old(out)@ + short_fixed_text(v as int),
{
    let ghost start = out@;
    let m: u64 = if v < 0 {
        (-(v as i128)) as u64
    } else {
        v as u64
    };
    if v < 0 {
        out.push(45);
    }
    push_digits(out, m / 1000);
    let r = m % 1000;
    if r != 0 {
        out.push(46);
        out.push(48 + (r / 100) as u8);
        if r % 100 != 0 {
            out.push(48 + ((r / 10) % 10) as u8);
            if r % 10 != 0 {
                out.push(48 + (r % 10) as u8);
            }
        }
    }
    assert(out@ =~= start + short_fixed_text(v as int));
}

} // verus!
