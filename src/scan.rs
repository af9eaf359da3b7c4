//! Scanning text held as characters: trimming, searching, splitting, numbers.
//!
//! A piece of the text is a range `lo..hi` of positions.

use vstd::prelude::*;

verus! {

/// Unicode `White_Space`, the set that `char::is_whitespace` tests.
pub open spec fn is_ws(c: char) -> bool {
    ||| c == ' '
    ||| ('\u{9}' <= c && c <= '\u{d}')
    ||| c == '\u{85}'
    ||| c == '\u{a0}'
    ||| c == '\u{1680}'
    ||| ('\u{2000}' <= c && c <= '\u{200a}')
    ||| c == '\u{2028}'
    ||| c == '\u{2029}'
    ||| c == '\u{202f}'
    ||| c == '\u{205f}'
    ||| c == '\u{3000}'
}

pub fn is_whitespace(c: char) -> (r: bool)
    ensures
        r == is_ws(c),
{
    c == ' ' || ('\u{9}' <= c && c <= '\u{d}') || c == '\u{85}' || c == '\u{a0}' || c
        == '\u{1680}' || ('\u{2000}' <= c && c <= '\u{200a}') || c == '\u{2028}' || c
        == '\u{2029}' || c == '\u{202f}' || c == '\u{205f}' || c == '\u{3000}'
}

/// `s` starts with exactly `k` whitespace characters.
pub open spec fn is_lead(s: Seq<char>, k: int) -> bool {
    0 <= k <= s.len() && (forall|j: int| 0 <= j < k ==> is_ws(#[trigger] s[j])) && (k == s.len()
        || !is_ws(s[k]))
}

/// `s` ends with exactly `k` whitespace characters.
pub open spec fn is_trail(s: Seq<char>, k: int) -> bool {
    0 <= k <= s.len() && (forall|j: int| s.len() - k <= j < s.len() ==> is_ws(#[trigger] s[j])) && (
    k == s.len() || !is_ws(s[s.len() - 1 - k]))
}

/// The number of leading whitespace characters of `s`.
pub open spec fn lead(s: Seq<char>) -> int {
    choose|k: int| is_lead(s, k)
}

/// The number of trailing whitespace characters of `s`.
pub open spec fn trail(s: Seq<char>) -> int {
    choose|k: int| is_trail(s, k)
}

/// `s` without leading and trailing whitespace.
pub open spec fn trim(s: Seq<char>) -> Seq<char> {
    let t = s.subrange(lead(s), s.len() as int);
    t.subrange(0, t.len() - trail(t))
}

pub proof fn lemma_lead(s: Seq<char>, k: int)
    requires
        0 <= k <= s.len(),
        forall|j: int| 0 <= j < k ==> is_ws(#[trigger] s[j]),
        k == s.len() || !is_ws(s[k]),
    ensures
        lead(s) == k,
{
    assert(is_lead(s, k));
    let l = lead(s);
    if l < k {
        assert(is_ws(s[l]));
    } else if l > k {
        assert(is_ws(s[k]));
    }
}

pub proof fn lemma_trail(s: Seq<char>, k: int)
    requires
        0 <= k <= s.len(),
        forall|j: int| s.len() - k <= j < s.len() ==> is_ws(#[trigger] s[j]),
        k == s.len() || !is_ws(s[s.len() - 1 - k]),
    ensures
        trail(s) == k,
{
    assert(is_trail(s, k));
    let l = trail(s);
    if l < k {
        assert(is_ws(s[s.len() - 1 - l]));
    } else if l > k {
        assert(is_ws(s[s.len() - 1 - k]));
    }
}

/// The range of `s[lo..hi]` without its leading and trailing whitespace.
pub fn trim_range(s: &Vec<char>, lo: usize, hi: usize) -> (r: (usize, usize))
    requires
        lo <= hi <= s@.len(),
    ensures
        lo <= r.0 <= r.1 <= hi,
        s@.subrange(r.0 as int, r.1 as int) == trim(s@.subrange(lo as int, hi as int)),
{
    let ghost p = s@.subrange(lo as int, hi as int);
    let mut a = lo;
    while a < hi && is_whitespace(s[a])
        invariant
            lo <= a <= hi <= s@.len(),
            forall|j: int| lo <= j < a ==> is_ws(#[trigger] s@[j]),
        decreases hi - a,
    {
        a = a + 1;
    }
    proof {
        assert forall|j: int| 0 <= j < a - lo implies is_ws(#[trigger] p[j]) by {
            assert(p[j] == s@[lo + j]);
        }
        lemma_lead(p, a - lo);
    }
    let ghost t = p.subrange(a - lo, p.len() as int);
    let mut b = hi;
    while b > a && is_whitespace(s[b - 1])
        invariant
            lo <= a <= b <= hi <= s@.len(),
            forall|j: int| b <= j < hi ==> is_ws(#[trigger] s@[j]),
        decreases b - a,
    {
        b = b - 1;
    }
    proof {
        assert forall|j: int| t.len() - (hi - b) <= j < t.len() implies is_ws(#[trigger] t[j]) by {
            assert(t[j] == s@[a + j]);
        }
        if hi - b != t.len() {
            assert(t[t.len() - 1 - (hi - b)] == s@[b - 1]);
        }
        lemma_trail(t, hi - b);
        assert(s@.subrange(a as int, b as int) =~= trim(p));
    }
    (a, b)
}

/// `pat` occurs in `s` at position `i`.
pub open spec fn occurs_at(s: Seq<char>, pat: Seq<char>, i: int) -> bool {
    0 <= i && i + pat.len() <= s.len() && s.subrange(i, i + pat.len()) == pat
}

/// `pat` occurs in `s` at position `i` and nowhere before.
pub open spec fn occurs_first(s: Seq<char>, pat: Seq<char>, i: int) -> bool {
    occurs_at(s, pat, i) && forall|j: int| 0 <= j < i ==> !occurs_at(s, pat, j)
}

/// The first position of `pat` in `s`, if any.
pub open spec fn find(s: Seq<char>, pat: Seq<char>) -> Option<int> {
    if exists|i: int| occurs_at(s, pat, i) {
        Some(choose|i: int| occurs_first(s, pat, i))
    } else {
        None
    }
}

pub proof fn lemma_find_first(s: Seq<char>, pat: Seq<char>, i: int)
    requires
        occurs_at(s, pat, i),
        forall|j: int| 0 <= j < i ==> !occurs_at(s, pat, j),
    ensures
        find(s, pat) == Some(i),
{
    assert(occurs_first(s, pat, i));
    let k = choose|k: int| occurs_first(s, pat, k);
    if k < i {
    } else if k > i {
    }
}

pub proof fn lemma_find_none(s: Seq<char>, pat: Seq<char>)
    requires
        forall|j: int| 0 <= j ==> !occurs_at(s, pat, j),
    ensures
        find(s, pat) is None,
{
}

fn matches_at(s: &Vec<char>, lo: usize, hi: usize, pat: &Vec<char>, i: usize) -> (r: bool)
    requires
        lo <= i <= hi <= s@.len(),
    ensures
        r == occurs_at(s@.subrange(lo as int, hi as int), pat@, i - lo),
{
    if pat.len() > hi - i {
        return false;
    }
    let mut k: usize = 0;
    while k < pat.len()
        invariant
            lo <= i <= hi <= s@.len(),
            pat@.len() <= hi - i,
            k <= pat@.len(),
            forall|j: int| 0 <= j < k ==> s@[i + j] == pat@[j],
        decreases pat.len() - k,
    {
        if s[i + k] != pat[k] {
            assert(s@.subrange(lo as int, hi as int).subrange(i - lo, i - lo + pat@.len())[k as int]
                != pat@[k as int]);
            return false;
        }
        k = k + 1;
    }
    assert(s@.subrange(lo as int, hi as int).subrange(i - lo, i - lo + pat@.len()) =~= pat@);
    true
}

/// The first position of `pat` in `s[lo..hi]`, as a position in `s`.
pub fn find_in(s: &Vec<char>, lo: usize, hi: usize, pat: &Vec<char>) -> (r: Option<usize>)
    requires
        lo <= hi <= s@.len(),
    ensures
        match find(s@.subrange(lo as int, hi as int), pat@) {
            Some(i) => r == Some((lo + i) as usize),
            None => r is None,
        },
        r matches Some(i) ==> lo <= i && i + pat@.len() <= hi && find(
            s@.subrange(lo as int, hi as int),
            pat@,
        ) == Some(i - lo),
{
    let ghost p = s@.subrange(lo as int, hi as int);
    let mut i = lo;
    while i <= hi
        invariant
            lo <= i <= hi + 1,
            hi <= s@.len(),
            p == s@.subrange(lo as int, hi as int),
            forall|j: int| 0 <= j < i - lo ==> !occurs_at(p, pat@, j),
        decreases hi + 1 - i,
    {
        if matches_at(s, lo, hi, pat, i) {
            proof {
                lemma_find_first(p, pat@, i - lo);
            }
            return Some(i);
        }
        if i == hi {
            proof {
                assert forall|j: int| 0 <= j implies !occurs_at(p, pat@, j) by {
                    if j > p.len() {
                    }
                }
                lemma_find_none(p, pat@);
            }
            return None;
        }
        i = i + 1;
    }
    proof {
        lemma_find_none(p, pat@);
    }
    None
}


/// The pieces of `s` between occurrences of `pat`, as `str::split` gives them.
pub open spec fn split(s: Seq<char>, pat: Seq<char>) -> Seq<Seq<char>>
    decreases s.len(),
{
    match find(s, pat) {
        Some(i) => if pat.len() > 0 && 0 <= i && i + pat.len() <= s.len() {
            seq![s.subrange(0, i)] + split(s.subrange(i + pat.len(), s.len() as int), pat)
        } else {
            seq![s]
        },
        None => seq![s],
    }
}

/// The pieces that the ranges `rs` pick out of `s`.
pub open spec fn pieces(s: Seq<char>, rs: Seq<(usize, usize)>) -> Seq<Seq<char>> {
    rs.map_values(|r: (usize, usize)| s.subrange(r.0 as int, r.1 as int))
}

pub open spec fn ranges_within(rs: Seq<(usize, usize)>, lo: int, hi: int) -> bool {
    forall|k: int| 0 <= k < rs.len() ==> lo <= (#[trigger] rs[k]).0 <= rs[k].1 <= hi
}

proof fn lemma_find_valid(s: Seq<char>, pat: Seq<char>)
    requires
        find(s, pat) is Some,
    ensures
        occurs_first(s, pat, find(s, pat)->0),
{
    let i = choose|i: int| occurs_at(s, pat, i);
    assert(occurs_at(s, pat, i));
    lemma_least_occurrence(s, pat, i);
}

proof fn lemma_least_occurrence(s: Seq<char>, pat: Seq<char>, i: int)
    requires
        occurs_at(s, pat, i),
    ensures
        exists|k: int| occurs_first(s, pat, k),
    decreases i,
{
    if forall|j: int| 0 <= j < i ==> !occurs_at(s, pat, j) {
        assert(occurs_first(s, pat, i));
    } else {
        let j = choose|j: int| 0 <= j < i && occurs_at(s, pat, j);
        lemma_least_occurrence(s, pat, j);
    }
}

/// The ranges of the pieces of `s[lo..hi]` between occurrences of `pat`.
pub fn split_ranges(s: &Vec<char>, lo: usize, hi: usize, pat: &Vec<char>) -> (r: Vec<(usize, usize)>)
    requires
        lo <= hi <= s@.len(),
        pat@.len() > 0,
    ensures
        pieces(s@, r@) == split(s@.subrange(lo as int, hi as int), pat@),
        ranges_within(r@, lo as int, hi as int),
{
    let mut r: Vec<(usize, usize)> = Vec::new();
    let mut cur = lo;
    loop
        invariant
            lo <= cur <= hi <= s@.len(),
            pat@.len() > 0,
            split(s@.subrange(lo as int, hi as int), pat@) == pieces(s@, r@) + split(
                s@.subrange(cur as int, hi as int),
                pat@,
            ),
            ranges_within(r@, lo as int, hi as int),
        decreases hi - cur,
    {
        let ghost t = s@.subrange(cur as int, hi as int);
        let ghost before = r@;
        match find_in(s, cur, hi, pat) {
            Some(i) => {
                proof {
                    lemma_find_valid(t, pat@);
                    assert(t.subrange(0, i - cur) =~= s@.subrange(cur as int, i as int));
                    assert(t.subrange(i - cur + pat@.len(), t.len() as int) =~= s@.subrange(
                        i + pat@.len(),
                        hi as int,
                    ));
                }
                r.push((cur, i));
                proof {
                    assert(pieces(s@, r@) =~= pieces(s@, before).push(s@.subrange(cur as int, i as int)));
                    assert(pieces(s@, before) + split(t, pat@) =~= pieces(s@, r@) + split(
                        s@.subrange(i + pat@.len(), hi as int),
                        pat@,
                    ));
                }
                cur = i + pat.len();
            },
            None => {
                r.push((cur, hi));
                proof {
                    assert(pieces(s@, r@) =~= pieces(s@, before).push(t));
                    assert(split(t, pat@) == seq![t]);
                    assert(pieces(s@, before) + split(t, pat@) =~= pieces(s@, r@));
                }
                return r;
            },
        }
    }
}

/// The lines of `s`, as `str::lines` gives them: split at `\n`, a `\r` before
/// it dropped, no line after a final `\n`.
pub open spec fn lines(s: Seq<char>) -> Seq<Seq<char>> {
    let ps = split(s, seq!['\n']);
    let n = if ps.last().len() == 0 {
        ps.len() - 1
    } else {
        ps.len() as int
    };
    Seq::new(
        n as nat,
        |k: int|
            if k < ps.len() - 1 && ps[k].len() > 0 && ps[k].last() == '\r' {
                ps[k].drop_last()
            } else {
                ps[k]
            },
    )
}

pub proof fn lemma_split_nonempty(s: Seq<char>, pat: Seq<char>)
    ensures
        split(s, pat).len() >= 1,
    decreases s.len(),
{
    match find(s, pat) {
        Some(i) => if pat.len() > 0 && 0 <= i && i + pat.len() <= s.len() {
            lemma_split_nonempty(s.subrange(i + pat.len(), s.len() as int), pat);
        },
        None => {},
    }
}

/// The ranges of the lines of `s[lo..hi]`.
pub fn line_ranges(s: &Vec<char>, lo: usize, hi: usize) -> (r: Vec<(usize, usize)>)
    requires
        lo <= hi <= s@.len(),
    ensures
        pieces(s@, r@) == lines(s@.subrange(lo as int, hi as int)),
        ranges_within(r@, lo as int, hi as int),
{
    let mut nl: Vec<char> = Vec::new();
    nl.push('\n');
    assert(nl@ =~= seq!['\n']);
    let ps = split_ranges(s, lo, hi, &nl);
    let ghost pm = split(s@.subrange(lo as int, hi as int), seq!['\n']);
    proof {
        lemma_split_nonempty(s@.subrange(lo as int, hi as int), seq!['\n']);
        assert(pieces(s@, ps@)[ps@.len() - 1] == pm.last());
    }
    let last = ps[ps.len() - 1];
    let n = if last.0 == last.1 {
        ps.len() - 1
    } else {
        ps.len()
    };
    let mut r: Vec<(usize, usize)> = Vec::new();
    let mut k: usize = 0;
    while k < n
        invariant
            k <= n <= ps@.len(),
            pieces(s@, ps@) == pm,
            ranges_within(ps@, lo as int, hi as int),
            hi <= s@.len(),
            r@.len() == k,
            ranges_within(r@, lo as int, hi as int),
            forall|j: int| 0 <= j < k ==> #[trigger] s@.subrange(r@[j].0 as int, r@[j].1 as int) == (
            if j < pm.len() - 1 && pm[j].len() > 0 && pm[j].last() == '\r' {
                pm[j].drop_last()
            } else {
                pm[j]
            }),
        decreases n - k,
    {
        let (a, b) = ps[k];
        assert(pm[k as int] == s@.subrange(a as int, b as int));
        if k + 1 < ps.len() && a < b && s[b - 1] == '\r' {
            assert(s@.subrange(a as int, b - 1) =~= pm[k as int].drop_last());
            r.push((a, b - 1));
        } else {
            r.push((a, b));
        }
        k = k + 1;
    }
    assert(pieces(s@, r@) =~= lines(s@.subrange(lo as int, hi as int)));
    r
}

/// The pieces of `ls` joined with `sep`.
pub open spec fn join_with(ls: Seq<Seq<char>>, sep: char) -> Seq<char>
    decreases ls.len(),
{
    if ls.len() == 0 {
        Seq::empty()
    } else if ls.len() == 1 {
        ls[0]
    } else {
        join_with(ls.drop_last(), sep) + seq![sep] + ls.last()
    }
}

/// Relies on `String::from_iter` over `char`s: the string of the characters, in order.
#[verifier::external_body]
pub fn string_of_chars(cs: &[char]) -> (r: String)
    ensures
        r@ == cs@,
{
    cs.iter().collect()
}

/// The ranges `rs[from..]` of `s`, joined with `sep`.
pub fn join_ranges(s: &Vec<char>, rs: &Vec<(usize, usize)>, from: usize, sep: char) -> (r: String)
    requires
        from <= rs@.len(),
        ranges_within(rs@, 0, s@.len() as int),
    ensures
        r@ == join_with(pieces(s@, rs@).subrange(from as int, rs@.len() as int), sep),
{
    let mut out: Vec<char> = Vec::new();
    let mut k = from;
    while k < rs.len()
        invariant
            from <= k <= rs@.len(),
            ranges_within(rs@, 0, s@.len() as int),
            out@ == join_with(pieces(s@, rs@).subrange(from as int, k as int), sep),
        decreases rs.len() - k,
    {
        let ghost before = out@;
        if k > from {
            out.push(sep);
        }
        let (a, b) = rs[k];
        let mut i = a;
        while i < b
            invariant
                a <= i <= b <= s@.len(),
                out@ == (if k > from { before + seq![sep] } else { before }) + s@.subrange(a as int, i as int),
            decreases b - i,
        {
            out.push(s[i]);
            assert(s@.subrange(a as int, i + 1) =~= s@.subrange(a as int, i as int).push(s@[i as int]));
            i = i + 1;
        }
        proof {
            let ps = pieces(s@, rs@);
            let sub = ps.subrange(from as int, k + 1);
            assert(sub.drop_last() =~= ps.subrange(from as int, k as int));
            assert(sub.last() == s@.subrange(a as int, b as int));
            if k == from {
                assert(sub.len() == 1);
                assert(out@ =~= sub[0]);
            } else {
                assert(out@ =~= join_with(sub.drop_last(), sep) + seq![sep] + sub.last());
            }
        }
        k = k + 1;
    }
    string_of_chars(out.as_slice())
}

pub open spec fn is_digit(c: char) -> bool {
    '0' <= c && c <= '9'
}

/// The number that the decimal digits `s` spell.
pub open spec fn digits_value(s: Seq<char>) -> nat
    decreases s.len(),
{
    if s.len() == 0 {
        0
    } else {
        digits_value(s.drop_last()) * 10 + ((s.last() as u32) - 48) as nat
    }
}

pub open spec fn all_digits(d: Seq<char>) -> bool {
    forall|i: int| 0 <= i < d.len() ==> is_digit(#[trigger] d[i])
}

/// `s` without a leading `+` (unless that is all of it).
pub open spec fn unsigned_part(s: Seq<char>) -> Seq<char> {
    if s.len() > 1 && s[0] == '+' {
        s.drop_first()
    } else {
        s
    }
}

/// What `u64::from_str` gives: an optional `+`, then one or more decimal
/// digits whose value fits.
pub open spec fn parse_u64(s: Seq<char>) -> Option<u64> {
    let d = unsigned_part(s);
    if d.len() > 0 && all_digits(d) && digits_value(d) <= u64::MAX {
        Some(digits_value(d) as u64)
    } else {
        None
    }
}

proof fn lemma_digits_grow(s: Seq<char>, k: int)
    requires
        0 <= k <= s.len(),
        forall|i: int| 0 <= i < s.len() ==> is_digit(#[trigger] s[i]),
    ensures
        digits_value(s.subrange(0, k)) <= digits_value(s),
    decreases s.len() - k,
{
    if k < s.len() {
        lemma_digits_grow(s, k + 1);
        let t = s.subrange(0, k + 1);
        assert(t.drop_last() =~= s.subrange(0, k));
    } else {
        assert(s.subrange(0, k) =~= s);
    }
}

/// Parses `s[lo..hi]` as `u64::from_str` does.
pub fn parse_u64_range(s: &Vec<char>, lo: usize, hi: usize) -> (r: Option<u64>)
    requires
        lo <= hi <= s@.len(),
    ensures
        r == parse_u64(s@.subrange(lo as int, hi as int)),
{
    let ghost t = s@.subrange(lo as int, hi as int);
    let start = if hi - lo > 1 && s[lo] == '+' {
        lo + 1
    } else {
        lo
    };
    let ghost d = s@.subrange(start as int, hi as int);
    assert(d =~= unsigned_part(t));
    if start == hi {
        return None;
    }
    let mut v: u64 = 0;
    let mut i = start;
    while i < hi
        invariant
            lo <= start <= i <= hi <= s@.len(),
            start < hi,
            t == s@.subrange(lo as int, hi as int),
            d == s@.subrange(start as int, hi as int),
            d == unsigned_part(t),
            forall|j: int| start <= j < i ==> is_digit(#[trigger] s@[j]),
            v as nat == digits_value(s@.subrange(start as int, i as int)),
        decreases hi - i,
    {
        let c = s[i];
        if !('0' <= c && c <= '9') {
            proof {
                assert(d[i - start] == s@[i as int]);
                assert(!is_digit(d[i - start]));
                assert(!all_digits(d));
                assert(parse_u64(t) is None);
            }
            return None;
        }
        proof {
            let u = s@.subrange(start as int, i + 1);
            assert(u.drop_last() =~= s@.subrange(start as int, i as int));
        }
        let dv = (c as u32 - 48) as u64;
        let next = match v.checked_mul(10) {
            Some(x) => x.checked_add(dv),
            None => None,
        };
        match next {
            Some(x) => {
                v = x;
            },
            None => {
                proof {
                    let u = s@.subrange(start as int, i + 1);
                    assert(digits_value(u) == v * 10 + dv);
                    assert(digits_value(u) > u64::MAX);
                    if all_digits(d) {
                        lemma_digits_grow(d, i + 1 - start);
                        assert(d.subrange(0, i + 1 - start) =~= u);
                        assert(digits_value(d) > u64::MAX);
                    }
                    assert(parse_u64(t) is None);
                }
                return None;
            },
        }
        i = i + 1;
    }
    assert(s@.subrange(start as int, hi as int) =~= d);
    Some(v)
}

/// `s` has a non-whitespace run of exactly `k` characters at its start.
pub open spec fn is_word(s: Seq<char>, k: int) -> bool {
    0 <= k <= s.len() && (forall|j: int| 0 <= j < k ==> !is_ws(#[trigger] s[j])) && (k == s.len()
        || is_ws(s[k]))
}

/// The first whitespace-separated word of `s`, if any.
pub open spec fn first_word(s: Seq<char>) -> Option<Seq<char>> {
    let t = s.subrange(lead(s), s.len() as int);
    if t.len() == 0 {
        None
    } else {
        Some(t.subrange(0, choose|k: int| is_word(t, k)))
    }
}

/// The range of the first word of `s[lo..hi]`, if any.
pub fn first_word_range(s: &Vec<char>, lo: usize, hi: usize) -> (r: Option<(usize, usize)>)
    requires
        lo <= hi <= s@.len(),
    ensures
        match first_word(s@.subrange(lo as int, hi as int)) {
            Some(w) => r matches Some(p) && lo <= p.0 <= p.1 <= hi && s@.subrange(p.0 as int, p.1 as int) == w,
            None => r is None,
        },
{
    let ghost p = s@.subrange(lo as int, hi as int);
    let mut a = lo;
    while a < hi && is_whitespace(s[a])
        invariant
            lo <= a <= hi <= s@.len(),
            forall|j: int| lo <= j < a ==> is_ws(#[trigger] s@[j]),
        decreases hi - a,
    {
        a = a + 1;
    }
    proof {
        assert forall|j: int| 0 <= j < a - lo implies is_ws(#[trigger] p[j]) by {
            assert(p[j] == s@[lo + j]);
        }
        lemma_lead(p, a - lo);
    }
    let ghost t = p.subrange(a - lo, p.len() as int);
    if a == hi {
        return None;
    }
    let mut b = a;
    while b < hi && !is_whitespace(s[b])
        invariant
            lo <= a <= b <= hi <= s@.len(),
            forall|j: int| a <= j < b ==> !is_ws(#[trigger] s@[j]),
        decreases hi - b,
    {
        b = b + 1;
    }
    proof {
        assert forall|j: int| 0 <= j < b - a implies !is_ws(#[trigger] t[j]) by {
            assert(t[j] == s@[a + j]);
        }
        if b < hi {
            assert(t[b - a] == s@[b as int]);
        }
        assert(is_word(t, b - a));
        let k = choose|k: int| is_word(t, k);
        if k < b - a {
            assert(!is_ws(t[k]));
        } else if k > b - a {
            assert(is_ws(t[b - a]));
        }
        assert(s@.subrange(a as int, b as int) =~= t.subrange(0, b - a));
    }
    Some((a, b))
}


/// The whitespace-separated words of `s`, as `str::split_whitespace` gives them.
pub open spec fn words(s: Seq<char>) -> Seq<Seq<char>>
    decreases s.len(),
{
    let a = lead(s);
    if 0 <= a < s.len() {
        let t = s.subrange(a, s.len() as int);
        let k = choose|k: int| is_word(t, k);
        if 0 < k <= t.len() {
            seq![t.subrange(0, k)] + words(t.subrange(k, t.len() as int))
        } else {
            Seq::empty()
        }
    } else {
        Seq::empty()
    }
}

/// The ranges of the words of `s[lo..hi]`.
pub fn word_ranges(s: &Vec<char>, lo: usize, hi: usize) -> (r: Vec<(usize, usize)>)
    requires
        lo <= hi <= s@.len(),
    ensures
        pieces(s@, r@) == words(s@.subrange(lo as int, hi as int)),
        ranges_within(r@, lo as int, hi as int),
{
    let mut r: Vec<(usize, usize)> = Vec::new();
    let mut cur = lo;
    loop
        invariant
            lo <= cur <= hi <= s@.len(),
            words(s@.subrange(lo as int, hi as int)) == pieces(s@, r@) + words(s@.subrange(cur as int, hi as int)),
            ranges_within(r@, lo as int, hi as int),
        decreases hi - cur,
    {
        let ghost p = s@.subrange(cur as int, hi as int);
        let mut a = cur;
        while a < hi && is_whitespace(s[a])
            invariant
                cur <= a <= hi <= s@.len(),
                forall|j: int| cur <= j < a ==> is_ws(#[trigger] s@[j]),
            decreases hi - a,
        {
            a = a + 1;
        }
        proof {
            assert forall|j: int| 0 <= j < a - cur implies is_ws(#[trigger] p[j]) by {
                assert(p[j] == s@[cur + j]);
            }
            lemma_lead(p, a - cur);
        }
        if a == hi {
            assert(words(p) =~= Seq::<Seq<char>>::empty());
            assert(pieces(s@, r@) + words(p) =~= pieces(s@, r@));
            return r;
        }
        let ghost t = p.subrange(a - cur, p.len() as int);
        let mut b = a;
        while b < hi && !is_whitespace(s[b])
            invariant
                cur <= a <= b <= hi <= s@.len(),
                forall|j: int| a <= j < b ==> !is_ws(#[trigger] s@[j]),
            decreases hi - b,
        {
            b = b + 1;
        }
        proof {
            assert forall|j: int| 0 <= j < b - a implies !is_ws(#[trigger] t[j]) by {
                assert(t[j] == s@[a + j]);
            }
            if b < hi {
                assert(t[b - a] == s@[b as int]);
            }
            assert(is_word(t, b - a));
            let k = choose|k: int| is_word(t, k);
            if k < b - a {
                assert(!is_ws(t[k]));
            } else if k > b - a {
                assert(is_ws(t[b - a]));
            }
            assert(!is_ws(s@[a as int]));
            assert(b > a);
            assert(t.subrange(0, b - a) =~= s@.subrange(a as int, b as int));
            assert(t.subrange(b - a, t.len() as int) =~= s@.subrange(b as int, hi as int));
        }
        let ghost before = r@;
        r.push((a, b));
        proof {
            assert(pieces(s@, r@) =~= pieces(s@, before).push(s@.subrange(a as int, b as int)));
            assert(pieces(s@, before) + words(p) =~= pieces(s@, r@) + words(s@.subrange(b as int, hi as int)));
        }
        cur = b;
    }
}

/// What `u8::from_str` gives.
pub open spec fn parse_u8(s: Seq<char>) -> Option<u8> {
    match parse_u64(s) {
        Some(v) => if v <= 255 {
            Some(v as u8)
        } else {
            None
        },
        None => None,
    }
}

/// Parses `s[lo..hi]` as `u8::from_str` does.
pub fn parse_u8_range(s: &Vec<char>, lo: usize, hi: usize) -> (r: Option<u8>)
    requires
        lo <= hi <= s@.len(),
    ensures
        r == parse_u8(s@.subrange(lo as int, hi as int)),
{
    match parse_u64_range(s, lo, hi) {
        Some(v) => if v <= 255 {
            Some(v as u8)
        } else {
            None
        },
        None => None,
    }
}

/// Whether `s[lo..hi]` starts with `pat`.
pub fn starts_with_range(s: &Vec<char>, lo: usize, hi: usize, pat: &str) -> (r: bool)
    requires
        lo <= hi <= s@.len(),
    ensures
        r == pat@.is_prefix_of(s@.subrange(lo as int, hi as int)),
{
    let n = pat.unicode_len();
    if hi - lo < n {
        return false;
    }
    let mut i: usize = 0;
    while i < n
        invariant
            i <= n,
            n == pat@.len(),
            lo + n <= hi <= s@.len(),
            forall|j: int| 0 <= j < i ==> pat@[j] == s@[lo + j],
        decreases n - i,
    {
        if pat.get_char(i) != s[lo + i] {
            assert(s@.subrange(lo as int, hi as int)[i as int] == s@[lo + i]);
            return false;
        }
        i = i + 1;
    }
    assert(pat@ =~= s@.subrange(lo as int, hi as int).subrange(0, n as int));
    true
}

/// Relies on `str::chars`, collected: the characters of `t`, in order.
#[verifier::external_body]
pub fn chars_of(t: &str) -> (r: Vec<char>)
    ensures
        r@ == t@,
{
    t.chars().collect()
}


/// The string of `s[lo..hi]`.
pub fn range_string(s: &Vec<char>, lo: usize, hi: usize) -> (r: String)
    requires
        lo <= hi <= s@.len(),
    ensures
        r@ == s@.subrange(lo as int, hi as int),
{
    let mut out: Vec<char> = Vec::new();
    let mut i = lo;
    while i < hi
        invariant
            lo <= i <= hi <= s@.len(),
            out@ == s@.subrange(lo as int, i as int),
        decreases hi - i,
    {
        out.push(s[i]);
        assert(s@.subrange(lo as int, i + 1) =~= s@.subrange(lo as int, i as int).push(s@[i as int]));
        i = i + 1;
    }
    string_of_chars(out.as_slice())
}

} // verus!
