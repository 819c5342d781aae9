//! Verified text helpers: substring search, quote trimming, decimal
//! parsing and formatting, and path-separator collapsing. These carry the
//! header-resolution and request-formatting logic of the download engine.

use vstd::prelude::*;

verus! {

/// Relies on String::push: appends exactly the given character.
#[verifier::external_body]
pub(crate) fn push_char(s: &mut String, c: char)
    ensures
        final(s)@ == old(s)@.push(c),
{
    s.push(c);
}

/// The pattern occurs in `s` starting at position `i`.
pub open spec fn contains_at(s: Seq<char>, pat: Seq<char>, i: int) -> bool {
    &&& 0 <= i
    &&& i + pat.len() <= s.len()
    &&& s.subrange(i, i + pat.len() as int) == pat
}

/// Position of the leftmost occurrence of `pat` in `s` at or after `from`.
pub open spec fn first_match_from(s: Seq<char>, pat: Seq<char>, from: int) -> Option<int>
    decreases s.len() + 1 - from
    when 0 <= from <= s.len() + 1
{
    if from + pat.len() > s.len() {
        None
    } else if contains_at(s, pat, from) {
        Some(from)
    } else {
        first_match_from(s, pat, from + 1)
    }
}

fn match_at(s: &str, pat: &str, i: usize, s_len: usize, pat_len: usize) -> (r: bool)
    requires
        s_len == s@.len(),
        pat_len == pat@.len(),
        i + pat_len <= s_len,
    ensures
        r == contains_at(s@, pat@, i as int),
{
    let mut j: usize = 0;
    while j < pat_len
        invariant
            s_len == s@.len(),
            pat_len == pat@.len(),
            i + pat_len <= s_len,
            j <= pat_len,
            forall|k: int| 0 <= k < j ==> s@[i + k] == pat@[k],
        decreases pat_len - j,
    {
        if s.get_char(i + j) != pat.get_char(j) {
            proof {
                assert(s@.subrange(i as int, i + pat@.len() as int)[j as int] == s@[i + j]);
            }
            return false;
        }
        j += 1;
    }
    proof {
        assert(s@.subrange(i as int, i + pat@.len() as int) =~= pat@);
    }
    true
}

/// Find the leftmost occurrence of `pat` in `s` at or after `from`.
pub fn find_from(s: &str, pat: &str, from: usize) -> (r: Option<usize>)
    requires
        from <= s@.len(),
    ensures
        match r {
            Some(i) => first_match_from(s@, pat@, from as int) == Some(i as int),
            None => first_match_from(s@, pat@, from as int) is None,
        },
{
    let s_len: usize = s.unicode_len();
    let pat_len: usize = pat.unicode_len();
    if pat_len == 0 {
        proof {
            assert(s@.subrange(from as int, from as int) =~= pat@);
        }
        return Some(from);
    }
    if pat_len > s_len {
        proof {
            assert(first_match_from(s@, pat@, from as int) is None);
        }
        return None;
    }
    let last_start: usize = s_len - pat_len;
    let mut i: usize = from;
    while i <= last_start
        invariant
            s_len == s@.len(),
            pat_len == pat@.len(),
            1 <= pat_len <= s_len,
            last_start == s_len - pat_len,
            from <= i <= s_len,
            first_match_from(s@, pat@, from as int) == first_match_from(s@, pat@, i as int),
        decreases s_len - i,
    {
        if match_at(s, pat, i, s_len, pat_len) {
            return Some(i);
        }
        i += 1;
    }
    proof {
        assert(first_match_from(s@, pat@, i as int) is None);
    }
    None
}

/// `s` with every leading and trailing double-quote character removed.
pub open spec fn trim_quotes(s: Seq<char>) -> Seq<char>
    decreases s.len(),
{
    if s.len() == 0 {
        s
    } else if s[0] == '"' {
        trim_quotes(s.drop_first())
    } else if s[s.len() - 1] == '"' {
        trim_quotes(s.drop_last())
    } else {
        s
    }
}

#[verifier::rlimit(60)]
proof fn lemma_trim_quotes_range(s: Seq<char>, a: int, b: int)
    requires
        0 <= a <= b <= s.len(),
        forall|j: int| 0 <= j < a ==> s[j] == '"',
        forall|j: int| b <= j < s.len() ==> s[j] == '"',
        a == b || (s[a] != '"' && s[b - 1] != '"'),
    ensures
        trim_quotes(s) == s.subrange(a, b),
    decreases s.len(),
{
    if s.len() == 0 {
        assert(trim_quotes(s) =~= s.subrange(a, b));
    } else if s[0] == '"' {
        let t = s.drop_first();
        if a > 0 {
            lemma_trim_quotes_range(t, a - 1, b - 1);
            assert(t.subrange(a - 1, b - 1) =~= s.subrange(a, b));
        } else {
            // a == 0 and s[0] is a quote, so a == b and the whole of s is quotes
            assert(a == b);
            lemma_trim_quotes_range(t, 0, 0);
            assert(t.subrange(0, 0) =~= s.subrange(a, b));
        }
    } else if s[s.len() - 1] == '"' {
        assert(a == 0);
        let t = s.drop_last();
        assert(b < s.len());
        assert(b != 0) by {
            if b == 0 {
                assert(s[0] == '"');
            }
        }
        lemma_trim_quotes_range(t, 0, b);
        assert(t.subrange(0, b) =~= s.subrange(a, b));
    } else {
        assert(a == 0);
        assert(b == s.len()) by {
            if b < s.len() {
                assert(s[s.len() - 1] == '"');
            }
        }
        assert(s.subrange(a, b) =~= s);
    }
}

/// Strip all leading and trailing double quotes from `s`.
pub fn trim_quotes_str(s: &str) -> (r: String)
    ensures
        r@ == trim_quotes(s@),
{
    let s_len: usize = s.unicode_len();
    let mut a: usize = 0;
    while a < s_len && s.get_char(a) == '"'
        invariant
            s_len == s@.len(),
            a <= s_len,
            forall|j: int| 0 <= j < a ==> s@[j] == '"',
        decreases s_len - a,
    {
        a += 1;
    }
    let mut b: usize = s_len;
    while b > a && s.get_char(b - 1) == '"'
        invariant
            s_len == s@.len(),
            a <= b <= s_len,
            forall|j: int| 0 <= j < a ==> s@[j] == '"',
            forall|j: int| b <= j < s@.len() ==> s@[j] == '"',
        decreases b,
    {
        b -= 1;
    }
    proof {
        lemma_trim_quotes_range(s@, a as int, b as int);
    }
    let piece: &str = s.substring_char(a, b);
    String::from_str(piece)
}

/// A decimal digit.
pub open spec fn is_digit_char(c: char) -> bool {
    '0' as int <= c as int <= '9' as int
}

/// The numeric value of a digit sequence read in base ten.
pub open spec fn digits_value(s: Seq<char>) -> int
    decreases s.len(),
{
    if s.len() == 0 {
        0
    } else {
        digits_value(s.drop_last()) * 10 + (s[s.len() - 1] as int - '0' as int)
    }
}

/// What a decimal parse of `s` yields: the value, when `s` is a non-empty
/// run of digits whose value fits in a `u64`; nothing otherwise.
pub open spec fn spec_parse_u64(s: Seq<char>) -> Option<u64> {
    if s.len() > 0 && (forall|i: int| 0 <= i < s.len() ==> is_digit_char(#[trigger] s[i]))
        && digits_value(s) <= u64::MAX {
        Some(digits_value(s) as u64)
    } else {
        None
    }
}

proof fn lemma_digits_value_nonneg(s: Seq<char>)
    requires
        forall|i: int| 0 <= i < s.len() ==> is_digit_char(#[trigger] s[i]),
    ensures
        digits_value(s) >= 0,
    decreases s.len(),
{
    if s.len() > 0 {
        lemma_digits_value_nonneg(s.drop_last());
    }
}

proof fn lemma_digits_value_prefix_le(s: Seq<char>, j: int)
    requires
        0 <= j <= s.len(),
        forall|i: int| 0 <= i < s.len() ==> is_digit_char(#[trigger] s[i]),
    ensures
        digits_value(s) >= digits_value(s.subrange(0, j)),
    decreases s.len() - j,
{
    if j == s.len() {
        assert(s.subrange(0, j) =~= s);
    } else {
        lemma_digits_value_prefix_le(s, j + 1);
        let p = s.subrange(0, j + 1);
        assert(p.drop_last() =~= s.subrange(0, j));
        lemma_digits_value_nonneg(s.subrange(0, j));
        assert(digits_value(p) == digits_value(s.subrange(0, j)) * 10 + (s[j] as int
            - '0' as int));
    }
}

/// Parse `s` as a base-ten `u64`: digits only, no sign, no overflow.
pub fn parse_u64_decimal(s: &str) -> (r: Option<u64>)
    ensures
        r == spec_parse_u64(s@),
{
    let s_len: usize = s.unicode_len();
    if s_len == 0 {
        return None;
    }
    let mut val: u64 = 0;
    let mut i: usize = 0;
    while i < s_len
        invariant
            s_len == s@.len(),
            s_len > 0,
            i <= s_len,
            forall|k: int| 0 <= k < i ==> is_digit_char(#[trigger] s@[k]),
            val == digits_value(s@.subrange(0, i as int)),
        decreases s_len - i,
    {
        let c: char = s.get_char(i);
        let cu: u32 = c as u32;
        if cu < 48 || cu > 57 {
            return None;
        }
        let d: u64 = (cu - 48) as u64;
        let ghost prefix = s@.subrange(0, i as int);
        let ghost next_prefix = s@.subrange(0, i as int + 1);
        proof {
            assert(next_prefix.drop_last() =~= prefix);
            assert(digits_value(next_prefix) == digits_value(prefix) * 10 + d);
        }
        if val > (u64::MAX - d) / 10 {
            proof {
                let m = u64::MAX as int;
                vstd::arithmetic::div_mod::lemma_fundamental_div_mod(m - d, 10);
                assert(val as int * 10 >= ((m - d) / 10 + 1) * 10) by (nonlinear_arith)
                    requires
                        val as int >= (m - d) / 10 + 1,
                ;
                assert(digits_value(next_prefix) > m);
                if forall|k: int| 0 <= k < s@.len() ==> is_digit_char(#[trigger] s@[k]) {
                    lemma_digits_value_prefix_le(s@, i as int + 1);
                }
            }
            return None;
        }
        proof {
            let m = u64::MAX as int;
            vstd::arithmetic::div_mod::lemma_fundamental_div_mod(m - d, 10);
            assert(val as int * 10 + d <= m) by (nonlinear_arith)
                requires
                    val as int <= (m - d) / 10,
                    m - d == 10 * ((m - d) / 10) + (m - d) % 10,
                    0 <= (m - d) % 10 < 10,
            ;
        }
        val = val * 10 + d;
        i += 1;
    }
    proof {
        assert(s@.subrange(0, s_len as int) =~= s@);
    }
    Some(val)
}

/// The character for one decimal digit.
pub open spec fn digit_char(d: int) -> char {
    if d == 0 {
        '0'
    } else if d == 1 {
        '1'
    } else if d == 2 {
        '2'
    } else if d == 3 {
        '3'
    } else if d == 4 {
        '4'
    } else if d == 5 {
        '5'
    } else if d == 6 {
        '6'
    } else if d == 7 {
        '7'
    } else if d == 8 {
        '8'
    } else {
        '9'
    }
}

/// The canonical base-ten rendering of `n`: no sign, no leading zero
/// except for zero itself.
pub open spec fn dec_digits(n: int) -> Seq<char>
    decreases n
    when n >= 0
{
    if n < 10 {
        seq![digit_char(n)]
    } else {
        dec_digits(n / 10).push(digit_char(n % 10))
    }
}

/// The decimal rendering of `n` is a non-empty digit run that reads back
/// as `n` itself.
pub proof fn lemma_dec_digits_value(n: int)
    requires
        n >= 0,
    ensures
        dec_digits(n).len() >= 1,
        forall|i: int| 0 <= i < dec_digits(n).len() ==> is_digit_char(#[trigger] dec_digits(n)[i]),
        digits_value(dec_digits(n)) == n,
    decreases n,
{
    if n < 10 {
        assert(dec_digits(n) == seq![digit_char(n)]);
        assert(digits_value(Seq::<char>::empty()) == 0);
        assert(seq![digit_char(n)].drop_last() =~= Seq::<char>::empty());
        assert(digits_value(seq![digit_char(n)]) == digits_value(
            seq![digit_char(n)].drop_last(),
        ) * 10 + (digit_char(n) as int - '0' as int));
    } else {
        lemma_dec_digits_value(n / 10);
        let s = dec_digits(n / 10);
        let c = digit_char(n % 10);
        assert(s.push(c).drop_last() =~= s);
        assert(digits_value(s.push(c)) == digits_value(s) * 10 + (c as int - '0' as int));
        vstd::arithmetic::div_mod::lemma_fundamental_div_mod(n, 10);
        assert forall|i: int| 0 <= i < s.push(c).len() implies is_digit_char(
            #[trigger] s.push(c)[i],
        ) by {
            if i < s.len() {
                assert(s.push(c)[i] == s[i]);
            }
        }
    }
}

fn digit_char_exec(d: u64) -> (c: char)
    requires
        d < 10,
    ensures
        c == digit_char(d as int),
{
    if d == 0 {
        '0'
    } else if d == 1 {
        '1'
    } else if d == 2 {
        '2'
    } else if d == 3 {
        '3'
    } else if d == 4 {
        '4'
    } else if d == 5 {
        '5'
    } else if d == 6 {
        '6'
    } else if d == 7 {
        '7'
    } else if d == 8 {
        '8'
    } else {
        '9'
    }
}

/// Render `n` in base ten.
pub fn u64_to_decimal(n: u64) -> (r: String)
    ensures
        r@ == dec_digits(n as int),
    decreases n,
{
    let d: u64 = n % 10;
    let c: char = digit_char_exec(d);
    if n < 10 {
        let mut s = String::new();
        push_char(&mut s, c);
        proof {
            assert(s@ =~= seq![digit_char(n as int)]);
        }
        s
    } else {
        let mut s = u64_to_decimal(n / 10);
        push_char(&mut s, c);
        s
    }
}

/// `s` with each doubled path separator replaced by a single one, found
/// by one left-to-right scan over non-overlapping pairs.
pub open spec fn collapse_slashes(s: Seq<char>) -> Seq<char>
    decreases s.len(),
{
    if s.len() == 0 {
        s
    } else if s.len() >= 2 && s[0] == '/' && s[1] == '/' {
        seq!['/'] + collapse_slashes(s.subrange(2, s.len() as int))
    } else {
        seq![s[0]] + collapse_slashes(s.drop_first())
    }
}

/// Collapse doubled path separators in `s`.
pub fn collapse_slashes_str(s: &str) -> (r: String)
    ensures
        r@ == collapse_slashes(s@),
{
    let s_len: usize = s.unicode_len();
    let mut out = String::new();
    let mut i: usize = 0;
    proof {
        assert(s@.subrange(0, s_len as int) =~= s@);
        assert(out@ + collapse_slashes(s@) =~= collapse_slashes(s@));
    }
    while i < s_len
        invariant
            s_len == s@.len(),
            i <= s_len,
            collapse_slashes(s@) == out@ + collapse_slashes(s@.subrange(i as int, s_len as int)),
        decreases s_len - i,
    {
        let ghost tail = s@.subrange(i as int, s_len as int);
        let ghost out0 = out@;
        let c: char = s.get_char(i);
        if c == '/' && i + 1 < s_len && s.get_char(i + 1) == '/' {
            let ghost rest = s@.subrange(i as int + 2, s_len as int);
            push_char(&mut out, '/');
            proof {
                assert(tail.subrange(2, tail.len() as int) =~= rest);
                assert(tail[0] == '/' && tail[1] == '/');
                assert(collapse_slashes(tail) == seq!['/'] + collapse_slashes(rest));
                assert(out0 + (seq!['/'] + collapse_slashes(rest)) =~= out0.push('/')
                    + collapse_slashes(rest));
            }
            i += 2;
        } else {
            let ghost rest = s@.subrange(i as int + 1, s_len as int);
            push_char(&mut out, c);
            proof {
                assert(tail.drop_first() =~= rest);
                assert(tail[0] == c);
                if tail.len() >= 2 && tail[0] == '/' && tail[1] == '/' {
                    assert(s@[i as int + 1] == '/');
                    assert(false);
                }
                assert(collapse_slashes(tail) == seq![c] + collapse_slashes(rest));
                assert(out0 + (seq![c] + collapse_slashes(rest)) =~= out0.push(c)
                    + collapse_slashes(rest));
            }
            i += 1;
        }
    }
    proof {
        assert(s@.subrange(s_len as int, s_len as int) =~= Seq::<char>::empty());
        assert(collapse_slashes(Seq::<char>::empty()) =~= Seq::<char>::empty());
        assert(out@ + Seq::<char>::empty() =~= out@);
    }
    out
}

/// Position of the rightmost occurrence of `c` in `s`.
pub open spec fn last_match_char(s: Seq<char>, c: char) -> Option<int>
    decreases s.len(),
{
    if s.len() == 0 {
        None
    } else if s[s.len() - 1] == c {
        Some(s.len() - 1)
    } else {
        last_match_char(s.drop_last(), c)
    }
}

/// Find the rightmost occurrence of `c` in `s`.
pub fn rfind_char(s: &str, c: char) -> (r: Option<usize>)
    ensures
        match r {
            Some(i) => i < s@.len() && last_match_char(s@, c) == Some(i as int),
            None => last_match_char(s@, c) is None,
        },
{
    let s_len: usize = s.unicode_len();
    let mut b: usize = s_len;
    proof {
        assert(s@.subrange(0, s_len as int) =~= s@);
    }
    while b > 0
        invariant
            s_len == s@.len(),
            b <= s_len,
            last_match_char(s@, c) == last_match_char(s@.subrange(0, b as int), c),
        decreases b,
    {
        let ghost pre = s@.subrange(0, b as int);
        proof {
            assert(pre.drop_last() =~= s@.subrange(0, b as int - 1));
        }
        if s.get_char(b - 1) == c {
            return Some(b - 1);
        }
        b -= 1;
    }
    proof {
        assert(s@.subrange(0, 0) =~= Seq::<char>::empty());
    }
    None
}

} // verus!
