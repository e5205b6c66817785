//! Decimal rendering of integers and the reading of a requested allocation
//! size out of an allocator error report.
use vstd::prelude::*;
use vstd::string::*;

verus! {

/// The ASCII character of a decimal digit.
pub open spec fn digit_char(d: nat) -> char {
    if d == 0 { '0' }
    else if d == 1 { '1' }
    else if d == 2 { '2' }
    else if d == 3 { '3' }
    else if d == 4 { '4' }
    else if d == 5 { '5' }
    else if d == 6 { '6' }
    else if d == 7 { '7' }
    else if d == 8 { '8' }
    else { '9' }
}

/// The decimal notation of `n`, most significant digit first, without
/// leading zeros (zero itself is `"0"`).
pub open spec fn decimal(n: nat) -> Seq<char>
    decreases n,
{
    if n < 10 {
        seq![digit_char(n)]
    } else {
        decimal(n / 10) + seq![digit_char(n % 10)]
    }
}

fn digit_str(d: usize) -> (s: &'static str)
    requires
        d < 10,
    ensures
        s@ == seq![digit_char(d as nat)],
{
    if d == 0 {
        proof { reveal_strlit("0"); }
        "0"
    } else if d == 1 {
        proof { reveal_strlit("1"); }
        "1"
    } else if d == 2 {
        proof { reveal_strlit("2"); }
        "2"
    } else if d == 3 {
        proof { reveal_strlit("3"); }
        "3"
    } else if d == 4 {
        proof { reveal_strlit("4"); }
        "4"
    } else if d == 5 {
        proof { reveal_strlit("5"); }
        "5"
    } else if d == 6 {
        proof { reveal_strlit("6"); }
        "6"
    } else if d == 7 {
        proof { reveal_strlit("7"); }
        "7"
    } else if d == 8 {
        proof { reveal_strlit("8"); }
        "8"
    } else {
        proof { reveal_strlit("9"); }
        "9"
    }
}

/// Renders `n` in decimal, as `n.to_string()` does.
pub fn decimal_string(n: usize) -> (s: String)
    ensures
        s@ == decimal(n as nat),
{
    let mut s = String::from_str(digit_str(n % 10));
    let mut m: usize = n / 10;
    while m > 0
        invariant
            decimal(n as nat) == (if m == 0 { Seq::<char>::empty() } else { decimal(m as nat) }) + s@,
        decreases m,
    {
        let d = String::from_str(digit_str(m % 10));
        s = d.concat(s.as_str());
        assert(decimal(m as nat) == (if m / 10 == 0 { Seq::<char>::empty() } else { decimal((m / 10) as nat) }) + seq![digit_char((m % 10) as nat)]);
        m = m / 10;
    }
    assert(decimal(n as nat) == s@);
    s
}


/// `pat` occurs in `s` starting at index `i`.
pub open spec fn occurs_at(s: Seq<u8>, pat: Seq<u8>, i: int) -> bool {
    0 <= i && i + pat.len() <= s.len() && s.subrange(i, i + pat.len()) == pat
}

/// The first index at or after `i` where `pat` occurs in `s`.
pub open spec fn find_from(s: Seq<u8>, pat: Seq<u8>, i: int) -> Option<int>
    decreases s.len() - i,
{
    if i < 0 || i + pat.len() > s.len() {
        None
    } else if occurs_at(s, pat, i) {
        Some(i)
    } else if i >= s.len() {
        None
    } else {
        find_from(s, pat, i + 1)
    }
}

/// The first index where `pat` occurs in `s`, as `str::find` gives it.
pub open spec fn find_first(s: Seq<u8>, pat: Seq<u8>) -> Option<int> {
    find_from(s, pat, 0)
}

/// Every byte of `d` is an ASCII decimal digit.
pub open spec fn all_digits(d: Seq<u8>) -> bool {
    forall|i: int| 0 <= i < d.len() ==> 48 <= #[trigger] d[i] <= 57
}

/// The number that the ASCII digits `d` denote.
pub open spec fn digits_value(d: Seq<u8>) -> nat
    decreases d.len(),
{
    if d.len() == 0 {
        0
    } else {
        digits_value(d.drop_last()) * 10 + (d.last() - 48) as nat
    }
}

/// What `s.parse::<usize>()` yields: an optional `+`, then one or more
/// digits whose value fits in a `usize`.
pub open spec fn parse_usize(s: Seq<u8>) -> Option<usize> {
    let d = if s.len() > 0 && s[0] == 43u8 { s.drop_first() } else { s };
    if d.len() == 0 || !all_digits(d) || digits_value(d) > usize::MAX {
        None
    } else {
        Some(digits_value(d) as usize)
    }
}

/// The bytes of `"size: "`.
pub open spec fn size_tag() -> Seq<u8> {
    seq![115u8, 105u8, 122u8, 101u8, 58u8, 32u8]
}

/// The allocation size that an allocator error report names: the number
/// between the first `"size: "` and the next `,` after it.
pub open spec fn requested_bytes(text: Seq<u8>) -> Option<usize> {
    match find_first(text, size_tag()) {
        None => None,
        Some(i) => {
            let rest = text.subrange(i + 6, text.len() as int);
            match find_first(rest, seq![44u8]) {
                None => None,
                Some(j) => parse_usize(rest.subrange(0, j)),
            }
        },
    }
}

proof fn lemma_find_from_shift(s: Seq<u8>, pat: Seq<u8>, base: int, i: int)
    requires
        0 <= base <= s.len(),
        0 <= i,
    ensures
        find_from(s.subrange(base, s.len() as int), pat, i) == (match find_from(s, pat, base + i) {
            None => None,
            Some(k) => Some(k - base),
        }),
    decreases s.len() - base - i,
{
    let t = s.subrange(base, s.len() as int);
    if i + pat.len() > t.len() || i >= t.len() {
        if i + pat.len() <= t.len() {
            assert(t.subrange(i, i + pat.len()) =~= s.subrange(base + i, base + i + pat.len()));
        }
    } else {
        assert(t.subrange(i, i + pat.len()) =~= s.subrange(base + i, base + i + pat.len()));
        if !occurs_at(t, pat, i) {
            lemma_find_from_shift(s, pat, base, i + 1);
        }
    }
}

proof fn lemma_digits_prefix_le(d: Seq<u8>, k: int)
    requires
        0 <= k <= d.len(),
    ensures
        digits_value(d.subrange(0, k)) <= digits_value(d),
    decreases d.len(),
{
    if k < d.len() {
        assert(d.drop_last().subrange(0, k) =~= d.subrange(0, k));
        lemma_digits_prefix_le(d.drop_last(), k);
    } else {
        assert(d.subrange(0, k) =~= d);
    }
}

/// Searches `s` for `pat` from index `from` on.
fn find_bytes(s: &[u8], from: usize, pat: &[u8]) -> (r: Option<usize>)
    requires
        from <= s@.len(),
    ensures
        r matches Some(k) ==> find_from(s@, pat@, from as int) == Some(k as int)
            && occurs_at(s@, pat@, k as int) && from <= k,
        r is None ==> find_from(s@, pat@, from as int) is None,
{
    let mut i = from;
    let slen = s.len();
    while i <= slen && pat.len() <= slen - i
        invariant
            slen == s@.len(),
            from <= i,
            find_from(s@, pat@, from as int) == find_from(s@, pat@, i as int),
        decreases s@.len() - i,
    {
        let mut k: usize = 0;
        let mut same = true;
        while k < pat.len()
            invariant
                i + pat@.len() <= s@.len(),
                slen == s@.len(),
                i <= s@.len(),
                k <= pat@.len(),
                same <==> (forall|t: int| 0 <= t < k ==> s@[i + t] == pat@[t]),
            decreases pat@.len() - k,
        {
            if s[i + k] != pat[k] {
                same = false;
            }
            k = k + 1;
        }
        if same {
            assert(s@.subrange(i as int, i + pat@.len()) =~= pat@);
            return Some(i);
        }
        assert(!occurs_at(s@, pat@, i as int)) by {
            if occurs_at(s@, pat@, i as int) {
                assert forall|t: int| 0 <= t < pat@.len() implies s@[i + t] == #[trigger] pat@[t] by {
                    assert(s@.subrange(i as int, i + pat@.len())[t] == s@[i + t]);
                }
            }
        }
        i = i + 1;
    }
    None
}

/// Reads `s[lo..hi]` as `str::parse::<usize>` does.
fn parse_usize_range(s: &[u8], lo: usize, hi: usize) -> (r: Option<usize>)
    requires
        lo <= hi <= s@.len(),
    ensures
        r == parse_usize(s@.subrange(lo as int, hi as int)),
{
    let ghost whole = s@.subrange(lo as int, hi as int);
    let mut start = lo;
    if lo < hi && s[lo] == 43u8 {
        start = lo + 1;
    }
    let ghost d = s@.subrange(start as int, hi as int);
    assert(d =~= (if whole.len() > 0 && whole[0] == 43u8 { whole.drop_first() } else { whole }));
    if start == hi {
        return None;
    }
    let mut value: usize = 0;
    let mut k = start;
    while k < hi
        invariant
            lo <= start <= k <= hi <= s@.len(),
            d == s@.subrange(start as int, hi as int),
            whole == s@.subrange(lo as int, hi as int),
            d =~= (if whole.len() > 0 && whole[0] == 43u8 { whole.drop_first() } else { whole }),
            d.len() > 0,
            all_digits(s@.subrange(start as int, k as int)),
            value as nat == digits_value(s@.subrange(start as int, k as int)),
        decreases hi - k,
    {
        let c = s[k];
        assert(d.subrange(0, k - start) =~= s@.subrange(start as int, k as int));
        assert(s@.subrange(start as int, k + 1).drop_last() =~= s@.subrange(start as int, k as int));
        if c < 48u8 || c > 57u8 {
            assert(d[k - start] == c);
            assert(!all_digits(d));
            return None;
        }
        let digit = (c - 48u8) as usize;
        if value > (usize::MAX - digit) / 10 {
            proof {
                assert(digits_value(s@.subrange(start as int, k + 1)) > usize::MAX) by (nonlinear_arith)
                    requires
                        digits_value(s@.subrange(start as int, k + 1)) == value * 10 + digit,
                        value > (usize::MAX - digit) / 10,
                        digit <= 9;
                if all_digits(d) {
                    assert(d.subrange(0, k + 1 - start) =~= s@.subrange(start as int, k + 1));
                    lemma_digits_prefix_le(d, k + 1 - start);
                    assert(digits_value(d) > usize::MAX);
                }
            }
            return None;
        }
        assert(value * 10 + digit <= usize::MAX) by (nonlinear_arith)
            requires
                value <= (usize::MAX - digit) / 10,
                digit <= 9;
        value = value * 10 + digit;
        k = k + 1;
    }
    assert(s@.subrange(start as int, k as int) =~= d);
    Some(value)
}

/// The allocation size named in an allocator error report, read the way the
/// out-of-memory message of [`crate::FastRPError`] reads it: the digits
/// between the first `"size: "` and the following `,`.
pub fn requested_bytes_in(text: &str) -> (r: Option<usize>)
    ensures
        r == requested_bytes(text.spec_bytes()),
{
    let b = text.as_bytes();
    let blen = b.len();
    let tag: [u8; 6] = [115u8, 105u8, 122u8, 101u8, 58u8, 32u8];
    let comma: [u8; 1] = [44u8];
    let tag_slice = tag.as_slice();
    assert(tag_slice@ =~= size_tag());
    assert(tag_slice@.len() == 6);
    match find_bytes(b, 0, tag_slice) {
        None => None,
        Some(i) => {
            assert(i + 6 <= blen);
            let start = i + 6;
            let ghost rest = b@.subrange(start as int, b@.len() as int);
            match find_bytes(b, start, comma.as_slice()) {
                None => {
                    proof { lemma_find_from_shift(b@, seq![44u8], start as int, 0); assert(comma@ =~= seq![44u8]); }
                    None
                },
                Some(e) => {
                    proof {
                        assert(comma@ =~= seq![44u8]);
                        lemma_find_from_shift(b@, seq![44u8], start as int, 0);
                        assert(rest.subrange(0, e - start) =~= b@.subrange(start as int, e as int));
                    }
                    parse_usize_range(b, start, e)
                },
            }
        },
    }
}

} // verus!
