//! Reading the data of a pressed button: fields split on a separator, and
//! decimal numbers read as `usize::from_str` reads them.

use vstd::prelude::*;
use vstd::string::StringSliceAdditionalSpecFns;

verus! {

/// Index of the last `sep` in `s`, or -1.
pub open spec fn last_sep(s: Seq<u8>, sep: u8) -> int
    decreases s.len(),
{
    if s.len() == 0 {
        -1
    } else if s.last() == sep {
        s.len() - 1
    } else {
        last_sep(s.drop_last(), sep)
    }
}

/// The fields of `s` between the separators `sep`, as `str::split` gives them.
pub open spec fn split(s: Seq<u8>, sep: u8) -> Seq<Seq<u8>>
    decreases s.len(),
{
    let i = last_sep(s, sep);
    if i < 0 || i >= s.len() {
        seq![s]
    } else {
        split(s.subrange(0, i), sep).push(s.subrange(i + 1, s.len() as int))
    }
}

pub open spec fn is_digit(b: u8) -> bool {
    48 <= b <= 57
}

/// The value of a string of decimal digits.
pub open spec fn digits_value(s: Seq<u8>) -> nat
    decreases s.len(),
{
    if s.len() == 0 {
        0
    } else {
        digits_value(s.drop_last()) * 10 + (s.last() - 48) as nat
    }
}

/// `s` without a leading `+`.
pub open spec fn unsigned_part(s: Seq<u8>) -> Seq<u8> {
    if s.len() > 0 && s[0] == 43 {
        s.subrange(1, s.len() as int)
    } else {
        s
    }
}

pub open spec fn all_digits(d: Seq<u8>) -> bool {
    forall|i: int| 0 <= i < d.len() ==> is_digit(#[trigger] d[i])
}

/// What `usize::from_str` gives: an optional `+`, then one or more ASCII
/// digits whose value fits in `usize`.
pub open spec fn parse_usize(s: Seq<u8>) -> Option<usize> {
    let d = unsigned_part(s);
    if d.len() > 0 && all_digits(d) && digits_value(d) <= usize::MAX {
        Some(digits_value(d) as usize)
    } else {
        None
    }
}

proof fn lemma_last_sep(s: Seq<u8>, sep: u8)
    ensures
        -1 <= last_sep(s, sep) < s.len(),
        last_sep(s, sep) >= 0 ==> s[last_sep(s, sep)] == sep,
        forall|j: int| last_sep(s, sep) < j < s.len() ==> #[trigger] s[j] != sep,
    decreases s.len(),
{
    if s.len() > 0 && s.last() != sep {
        lemma_last_sep(s.drop_last(), sep);
        assert forall|j: int| last_sep(s, sep) < j < s.len() implies #[trigger] s[j] != sep by {
            if j < s.len() - 1 {
                assert(s.drop_last()[j] == s[j]);
            }
        }
    }
}

proof fn lemma_last_sep_prefix(s: Seq<u8>, sep: u8, n: int)
    requires
        0 <= n < s.len(),
    ensures
        last_sep(s.subrange(0, n + 1), sep) == if s[n] == sep {
            n
        } else {
            last_sep(s.subrange(0, n), sep)
        },
{
    assert(s.subrange(0, n + 1).drop_last() =~= s.subrange(0, n));
}

/// Splits `s` on `sep`: the field `k` is `s[r[k].0..r[k].1]`.
pub fn split_ranges(s: &[u8], sep: u8) -> (r: Vec<(usize, usize)>)
    ensures
        r@.len() == split(s@, sep).len(),
        forall|k: int|
            0 <= k < r@.len() ==> (#[trigger] r@[k]).0 <= r@[k].1 <= s@.len() && s@.subrange(
                r@[k].0 as int,
                r@[k].1 as int,
            ) == split(s@, sep)[k],
{
    let mut r: Vec<(usize, usize)> = Vec::new();
    let mut start: usize = 0;
    let mut i: usize = 0;
    while i < s.len()
        invariant
            i <= s@.len(),
            start <= i,
            split(s@.subrange(0, i as int), sep).len() == r@.len() + 1,
            forall|k: int|
                0 <= k < r@.len() ==> (#[trigger] r@[k]).0 <= r@[k].1 <= i && s@.subrange(
                    r@[k].0 as int,
                    r@[k].1 as int,
                ) == split(s@.subrange(0, i as int), sep)[k],
            s@.subrange(start as int, i as int) == split(s@.subrange(0, i as int), sep).last(),
            last_sep(s@.subrange(0, i as int), sep) == start - 1,
        decreases s@.len() - i,
    {
        let ghost p = s@.subrange(0, i as int);
        let ghost q = s@.subrange(0, i + 1);
        proof {
            lemma_last_sep_prefix(s@, sep, i as int);
            lemma_last_sep(p, sep);
            assert(q.subrange(0, i as int) =~= p);
        }
        if s[i] == sep {
            proof {
                assert(split(q, sep) == split(p, sep).push(q.subrange(i + 1, i + 1)));
                assert(s@.subrange(start as int, i as int) == split(q, sep)[r@.len() as int]);
            }
            r.push((start, i));
            start = i + 1;
            proof {
                assert(s@.subrange(start as int, i + 1) =~= Seq::<u8>::empty());
            }
        } else {
            proof {
                let j = last_sep(p, sep);
                if j >= 0 {
                    assert(q.subrange(0, j) =~= p.subrange(0, j));
                    assert(split(q, sep) == split(p.subrange(0, j), sep).push(q.subrange(j + 1, i + 1)));
                    assert(split(p, sep) == split(p.subrange(0, j), sep).push(p.subrange(j + 1, i as int)));
                    assert(q.subrange(j + 1, i + 1) =~= s@.subrange(start as int, i + 1));
                } else {
                    assert(split(q, sep) == seq![q]);
                    assert(split(p, sep) == seq![p]);
                    assert(q =~= s@.subrange(start as int, i + 1));
                }
                assert forall|k: int| 0 <= k < r@.len() implies (#[trigger] r@[k]).0 <= r@[k].1 <= i + 1
                    && s@.subrange(r@[k].0 as int, r@[k].1 as int) == split(q, sep)[k] by {
                    if j >= 0 {
                        assert(split(p, sep)[k] == split(p.subrange(0, j), sep)[k]);
                    }
                }
            }
        }
        i += 1;
    }
    proof {
        assert(s@.subrange(0, i as int) =~= s@);
    }
    r.push((start, i));
    r
}

/// Whether `s[lo..hi]` holds the bytes of `lit`.
pub fn field_is(s: &[u8], lo: usize, hi: usize, lit: &str) -> (b: bool)
    requires
        lo <= hi <= s@.len(),
    ensures
        b == (s@.subrange(lo as int, hi as int) == lit.spec_bytes()),
{
    let l = lit.as_bytes();
    if hi - lo != l.len() {
        return false;
    }
    let mut i: usize = 0;
    while i < l.len()
        invariant
            lo <= hi <= s@.len(),
            hi - lo == l@.len(),
            l@ == lit.spec_bytes(),
            i <= l@.len(),
            forall|j: int| 0 <= j < i ==> s@[lo + j] == l@[j],
        decreases l@.len() - i,
    {
        if s[lo + i] != l[i] {
            proof {
                assert(s@.subrange(lo as int, hi as int)[i as int] != l@[i as int]);
            }
            return false;
        }
        i += 1;
    }
    proof {
        assert(s@.subrange(lo as int, hi as int) =~= l@);
    }
    true
}

/// Reads `s[lo..hi]` as `usize::from_str` does.
pub fn parse_usize_at(s: &[u8], lo: usize, hi: usize) -> (r: Option<usize>)
    requires
        lo <= hi <= s@.len(),
    ensures
        r == parse_usize(s@.subrange(lo as int, hi as int)),
{
    let ghost f = s@.subrange(lo as int, hi as int);
    let start = if lo < hi && s[lo] == 43 {
        lo + 1
    } else {
        lo
    };
    let ghost d = s@.subrange(start as int, hi as int);
    proof {
        if lo < hi && s@[lo as int] == 43 {
            assert(d =~= f.subrange(1, f.len() as int));
        } else {
            assert(d =~= f);
        }
    }
    if start >= hi {
        return None;
    }
    let mut v: usize = 0;
    let mut i: usize = start;
    while i < hi
        invariant
            lo <= start <= i <= hi <= s@.len(),
            d == s@.subrange(start as int, hi as int),
            f == s@.subrange(lo as int, hi as int),
            d == unsigned_part(f),
            forall|j: int| start <= j < i ==> is_digit(#[trigger] s@[j]),
            v == digits_value(s@.subrange(start as int, i as int)),
        decreases hi - i,
    {
        let b = s[i];
        if b < 48 || b > 57 {
            proof {
                assert(d[i - start] == b);
                assert(!is_digit(d[i - start]));
                assert(!all_digits(d));
            }
            return None;
        }
        let ghost p = s@.subrange(start as int, i + 1);
        proof {
            assert(p.drop_last() =~= s@.subrange(start as int, i as int));
        }
        let digit = (b - 48) as usize;
        if v > (usize::MAX - digit) / 10 {
            proof {
                assert(v * 10 + digit > usize::MAX) by (nonlinear_arith)
                    requires
                        v > (usize::MAX - digit) / 10,
                        digit <= 9,
                ;
                assert(p.last() == b);
                assert(digits_value(p) == digits_value(p.drop_last()) * 10 + (p.last() - 48) as nat);
                assert(digits_value(p) > usize::MAX);
                lemma_digits_grow(d, (i + 1 - start) as int);
                assert(d.subrange(0, i + 1 - start) =~= p);
            }
            return None;
        }
        v = v * 10 + digit;
        i += 1;
    }
    proof {
        assert(s@.subrange(start as int, i as int) =~= d);
        assert forall|j: int| 0 <= j < d.len() implies is_digit(#[trigger] d[j]) by {
            assert(d[j] == s@[start + j]);
        }
        assert(all_digits(d));
    }
    Some(v)
}

/// The `n` numbers of a button's data made of the field `tag` and `n`
/// decimal fields, all separated by `sep`; `None` for any other data.
pub open spec fn tagged_numbers(data: Seq<u8>, tag: Seq<u8>, sep: u8, n: nat) -> Option<Seq<usize>> {
    let f = split(data, sep);
    if f.len() == n + 1 && f[0] == tag && forall|k: int| 1 <= k <= n ==> #[trigger] parse_usize(f[k]) is Some {
        Some(Seq::new(n, |k: int| parse_usize(f[k + 1])->Some_0))
    } else {
        None
    }
}

/// Reads a button's data as `tagged_numbers` says.
pub fn parse_tagged(data: &str, tag: &str, sep: u8, n: usize) -> (r: Option<Vec<usize>>)
    requires
        n < usize::MAX,
    ensures
        match r {
            Some(v) => tagged_numbers(data.spec_bytes(), tag.spec_bytes(), sep, n as nat) == Some(v@),
            None => tagged_numbers(data.spec_bytes(), tag.spec_bytes(), sep, n as nat) is None,
        },
{
    let b = data.as_bytes();
    let ghost f = split(b@, sep);
    let ranges = split_ranges(b, sep);
    if ranges.len() != n + 1 {
        return None;
    }
    let (lo, hi) = ranges[0];
    if !field_is(b, lo, hi, tag) {
        return None;
    }
    let mut v: Vec<usize> = Vec::new();
    let mut k: usize = 1;
    while k <= n
        invariant
            b@ == data.spec_bytes(),
            f == split(b@, sep),
            ranges@.len() == n + 1,
            f.len() == n + 1,
            f[0] == tag.spec_bytes(),
            forall|j: int|
                0 <= j < ranges@.len() ==> (#[trigger] ranges@[j]).0 <= ranges@[j].1 <= b@.len()
                    && b@.subrange(ranges@[j].0 as int, ranges@[j].1 as int) == f[j],
            1 <= k <= n + 1,
            n < usize::MAX,
            v@.len() == k - 1,
            forall|j: int| 1 <= j < k ==> #[trigger] parse_usize(f[j]) is Some,
            forall|j: int| 0 <= j < v@.len() ==> v@[j] == parse_usize(f[j + 1])->Some_0,
        decreases n + 1 - k,
    {
        let (lo, hi) = ranges[k];
        match parse_usize_at(b, lo, hi) {
            Some(x) => {
                v.push(x);
            },
            None => {
                return None;
            },
        }
        k += 1;
    }
    proof {
        assert(v@ =~= Seq::new(n as nat, |j: int| parse_usize(f[j + 1])->Some_0));
    }
    Some(v)
}

/// A string of digits is worth at least any of its prefixes.
proof fn lemma_digits_grow(s: Seq<u8>, n: int)
    requires
        0 <= n <= s.len(),
    ensures
        digits_value(s.subrange(0, n)) <= digits_value(s),
    decreases s.len() - n,
{
    if n < s.len() {
        lemma_digits_grow(s, n + 1);
        let p = s.subrange(0, n + 1);
        assert(p.drop_last() =~= s.subrange(0, n));
        assert(digits_value(p) == digits_value(p.drop_last()) * 10 + (p.last() - 48) as nat);
    } else {
        assert(s.subrange(0, n) =~= s);
    }
}

} // verus!
