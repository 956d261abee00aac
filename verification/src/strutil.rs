use vstd::prelude::*;
use vstd::string::{StrSliceExecFns, StringExecFns};

verus! {

// Small verified helpers over strings, which Verus views as `Seq<char>`.

/// Whether `n` occurs as a contiguous run inside `h`.
pub open spec fn contains_seq(h: Seq<char>, n: Seq<char>) -> bool {
    exists|i: int| 0 <= i <= h.len() - n.len() && #[trigger] h.subrange(i, i + n.len()) == n
}

/// Relies on String::push: appends exactly one character at the end.
#[verifier::external_body]
pub fn push_char(s: &mut String, c: char)
    ensures
        final(s)@ == old(s)@.push(c),
{
    s.push(c);
}

/// Whether two strings hold the same characters.
pub fn str_eq(a: &str, b: &str) -> (r: bool)
    ensures
        r == (a@ == b@),
{
    let alen = a.unicode_len();
    let blen = b.unicode_len();
    if alen != blen {
        return false;
    }
    let mut i: usize = 0;
    while i < alen
        invariant
            0 <= i <= alen,
            alen == a@.len(),
            alen == b@.len(),
            forall|j: int| 0 <= j < i ==> a@[j] == b@[j],
        decreases alen - i,
    {
        if a.get_char(i) != b.get_char(i) {
            return false;
        }
        i = i + 1;
    }
    proof {
        assert(a@ =~= b@);
    }
    true
}

/// Whether `n` occurs in `h` starting at character position `at`.
fn match_at(h: &str, n: &str, at: usize, nlen: usize) -> (r: bool)
    requires
        nlen == n@.len(),
        at + nlen <= h@.len(),
        h@.len() <= usize::MAX,
    ensures
        r == (h@.subrange(at as int, at + n@.len()) == n@),
{
    let mut j: usize = 0;
    while j < nlen
        invariant
            0 <= j <= nlen,
            nlen == n@.len(),
            at + nlen <= h@.len(),
            h@.len() <= usize::MAX,
            forall|k: int| 0 <= k < j ==> h@[at + k] == n@[k],
        decreases nlen - j,
    {
        if h.get_char(at + j) != n.get_char(j) {
            proof {
                assert(h@.subrange(at as int, at + n@.len())[j as int] == h@[at + j]);
            }
            return false;
        }
        j = j + 1;
    }
    proof {
        assert(h@.subrange(at as int, at + n@.len()) =~= n@);
    }
    true
}

/// Whether the characters of `n` occur as a contiguous run inside `h`.
pub fn contains_sub(h: &str, n: &str) -> (r: bool)
    ensures
        r == contains_seq(h@, n@),
{
    let hlen = h.unicode_len();
    let nlen = n.unicode_len();
    if nlen > hlen {
        return false;
    }
    if nlen == 0 {
        proof {
            assert(h@.subrange(0, 0 + n@.len() as int) =~= n@);
        }
        return true;
    }
    let mut i: usize = 0;
    while i <= hlen - nlen
        invariant
            0 <= i <= hlen - nlen + 1,
            1 <= nlen <= hlen,
            hlen == h@.len(),
            nlen == n@.len(),
            forall|k: int| 0 <= k < i ==> #[trigger] h@.subrange(k, k + n@.len()) != n@,
        decreases hlen - i,
    {
        if match_at(h, n, i, nlen) {
            return true;
        }
        i = i + 1;
    }
    false
}

/// The characters of `s` with ASCII blanks and tabs removed.
pub open spec fn without_blanks(s: Seq<char>) -> Seq<char> {
    s.filter(|c: char| c != ' ' && c != '\t')
}

/// A copy of `s` without ASCII blank and tab characters.
pub fn strip_blanks(s: &str) -> (r: String)
    ensures
        r@ == without_blanks(s@),
{
    let len = s.unicode_len();
    let mut out = String::new();
    let mut i: usize = 0;
    while i < len
        invariant
            0 <= i <= len,
            len == s@.len(),
            out@ == without_blanks(s@.subrange(0, i as int)),
        decreases len - i,
    {
        let c = s.get_char(i);
        proof {
            reveal(Seq::filter);
            let sub = s@.subrange(0, i + 1);
            assert(sub.drop_last() =~= s@.subrange(0, i as int));
            assert(sub.last() == s@[i as int]);
        }
        if c != ' ' && c != '\t' {
            push_char(&mut out, c);
        }
        i = i + 1;
    }
    proof {
        assert(s@.subrange(0, s@.len() as int) =~= s@);
    }
    out
}

/// Whether two characters are equal up to ASCII letter case.
pub open spec fn char_eq_ignore_ascii_case(a: char, b: char) -> bool {
    a == b || ('A' <= a <= 'Z' && b as int == a as int + 32) || ('A' <= b <= 'Z' && a as int == b
        as int + 32)
}

/// Whether two strings are equal up to ASCII letter case.
pub open spec fn eq_ignore_ascii_case_seq(a: Seq<char>, b: Seq<char>) -> bool {
    a.len() == b.len() && forall|i: int|
        0 <= i < a.len() ==> char_eq_ignore_ascii_case(#[trigger] a[i], b[i])
}

fn char_eq_nocase(a: char, b: char) -> (r: bool)
    ensures
        r == char_eq_ignore_ascii_case(a, b),
{
    if a == b {
        return true;
    }
    let au = a as u32;
    let bu = b as u32;
    if 65 <= au && au <= 90 && bu == au + 32 {
        return true;
    }
    if 65 <= bu && bu <= 90 && au == bu + 32 {
        return true;
    }
    false
}

/// Whether two strings hold the same characters up to ASCII letter case.
pub fn str_eq_ignore_ascii_case(a: &str, b: &str) -> (r: bool)
    ensures
        r == eq_ignore_ascii_case_seq(a@, b@),
{
    let alen = a.unicode_len();
    let blen = b.unicode_len();
    if alen != blen {
        return false;
    }
    let mut i: usize = 0;
    while i < alen
        invariant
            0 <= i <= alen,
            alen == a@.len(),
            alen == b@.len(),
            forall|j: int| 0 <= j < i ==> char_eq_ignore_ascii_case(#[trigger] a@[j], b@[j]),
        decreases alen - i,
    {
        if !char_eq_nocase(a.get_char(i), b.get_char(i)) {
            return false;
        }
        i = i + 1;
    }
    true
}

/// `h` with every non-overlapping occurrence of `n`, leftmost first,
/// replaced by `t`; `h` itself when `n` is empty.
pub open spec fn replace_seq(h: Seq<char>, n: Seq<char>, t: Seq<char>) -> Seq<char>
    decreases h.len(),
{
    if n.len() == 0 || h.len() < n.len() {
        h
    } else if h.subrange(0, n.len() as int) == n {
        t + replace_seq(h.skip(n.len() as int), n, t)
    } else {
        seq![h[0]] + replace_seq(h.skip(1), n, t)
    }
}

/// A copy of `h` with every non-overlapping occurrence of `n`, leftmost
/// first, replaced by `t`.
pub fn replace_all(h: &str, n: &str, t: &str) -> (r: String)
    ensures
        r@ == replace_seq(h@, n@, t@),
{
    let hlen = h.unicode_len();
    let nlen = n.unicode_len();
    let mut out = String::new();
    if nlen == 0 {
        let mut i: usize = 0;
        while i < hlen
            invariant
                0 <= i <= hlen,
                hlen == h@.len(),
                n@.len() == 0,
                out@ == h@.subrange(0, i as int),
            decreases hlen - i,
        {
            let c = h.get_char(i);
            push_char(&mut out, c);
            proof {
                assert(out@ =~= h@.subrange(0, i + 1));
            }
            i = i + 1;
        }
        proof {
            assert(h@.subrange(0, h@.len() as int) =~= h@);
        }
        return out;
    }
    proof {
        assert(h@.skip(0) =~= h@);
        assert(Seq::<char>::empty() + replace_seq(h@, n@, t@) =~= replace_seq(h@, n@, t@));
    }
    let mut i: usize = 0;
    while i < hlen
        invariant
            0 <= i <= hlen,
            hlen == h@.len(),
            nlen == n@.len(),
            1 <= nlen,
            h@.len() <= usize::MAX,
            replace_seq(h@, n@, t@) == out@ + replace_seq(h@.skip(i as int), n@, t@),
        decreases hlen - i,
    {
        if nlen <= hlen - i && match_at(h, n, i, nlen) {
            proof {
                let rest = h@.skip(i as int);
                assert(rest.subrange(0, n@.len() as int) =~= h@.subrange(i as int, i + n@.len()));
                assert(rest.skip(n@.len() as int) =~= h@.skip(i + nlen));
            }
            out.append(t);
            i = i + nlen;
        } else {
            let c = h.get_char(i);
            proof {
                let rest = h@.skip(i as int);
                if nlen <= hlen - i {
                    assert(rest.subrange(0, n@.len() as int) =~= h@.subrange(
                        i as int,
                        i + n@.len(),
                    ));
                }
                assert(rest[0] == h@[i as int]);
                assert(rest.skip(1) =~= h@.skip(i + 1));
                assert(out@.push(h@[i as int]) =~= out@ + seq![h@[i as int]]);
            }
            push_char(&mut out, c);
            i = i + 1;
        }
    }
    proof {
        assert(h@.skip(i as int) =~= Seq::<char>::empty());
        assert(out@ + Seq::<char>::empty() =~= out@);
    }
    out
}

pub open spec fn is_blank_char(c: char) -> bool {
    c == ' ' || c == '\t' || c == '\n' || c == '\r'
}

/// `s` without its leading run of blank characters.
pub open spec fn trim_start_seq(s: Seq<char>) -> Seq<char>
    decreases s.len(),
{
    if s.len() > 0 && is_blank_char(s[0]) {
        trim_start_seq(s.skip(1))
    } else {
        s
    }
}

/// `s` without its trailing run of blank characters.
pub open spec fn trim_end_seq(s: Seq<char>) -> Seq<char>
    decreases s.len(),
{
    if s.len() > 0 && is_blank_char(s.last()) {
        trim_end_seq(s.drop_last())
    } else {
        s
    }
}

/// `s` without leading and trailing blank characters.
pub open spec fn trim_seq(s: Seq<char>) -> Seq<char> {
    trim_end_seq(trim_start_seq(s))
}

fn is_blank_exec(c: char) -> (r: bool)
    ensures
        r == is_blank_char(c),
{
    c == ' ' || c == '\t' || c == '\n' || c == '\r'
}

/// A copy of `s` without leading and trailing ASCII blank characters.
pub fn trim_blank(s: &str) -> (r: String)
    ensures
        r@ == trim_seq(s@),
{
    let len = s.unicode_len();
    proof {
        assert(s@.skip(0) =~= s@);
    }
    let mut start: usize = 0;
    while start < len && is_blank_exec(s.get_char(start))
        invariant
            0 <= start <= len,
            len == s@.len(),
            trim_start_seq(s@) == trim_start_seq(s@.skip(start as int)),
        decreases len - start,
    {
        proof {
            assert(s@.skip(start as int)[0] == s@[start as int]);
            assert(s@.skip(start as int).skip(1) =~= s@.skip(start + 1));
        }
        start = start + 1;
    }
    proof {
        if start < len {
            assert(s@.skip(start as int)[0] == s@[start as int]);
        }
        assert(trim_start_seq(s@) == s@.skip(start as int));
    }
    proof {
        assert(s@.subrange(start as int, len as int) =~= s@.skip(start as int));
    }
    let mut end: usize = len;
    while end > start && is_blank_exec(s.get_char(end - 1))
        invariant
            start <= end <= len,
            len == s@.len(),
            trim_start_seq(s@) == s@.skip(start as int),
            trim_end_seq(s@.skip(start as int)) == trim_end_seq(
                s@.subrange(start as int, end as int),
            ),
        decreases end,
    {
        proof {
            let cur = s@.subrange(start as int, end as int);
            assert(cur.last() == s@[end - 1]);
            assert(cur.drop_last() =~= s@.subrange(start as int, end - 1));
        }
        end = end - 1;
    }
    proof {
        let cur = s@.subrange(start as int, end as int);
        if end > start {
            assert(cur.last() == s@[end - 1]);
        }
        assert(trim_seq(s@) == s@.subrange(start as int, end as int));
    }
    let mut out = String::new();
    proof {
        assert(s@.subrange(start as int, start as int) =~= Seq::<char>::empty());
    }
    let mut i: usize = start;
    while i < end
        invariant
            start <= i <= end <= len,
            len == s@.len(),
            out@ == s@.subrange(start as int, i as int),
        decreases end - i,
    {
        let c = s.get_char(i);
        push_char(&mut out, c);
        proof {
            assert(out@ =~= s@.subrange(start as int, i + 1));
        }
        i = i + 1;
    }
    proof {
        assert(out@ == trim_seq(s@));
    }
    out
}

/// Ten to the power `n`.
pub open spec fn pow10(n: int) -> int
    decreases n,
{
    if n <= 0 {
        1
    } else {
        10 * pow10(n - 1)
    }
}

pub proof fn lemma_pow10_pos(n: int)
    ensures
        pow10(n) >= 1,
    decreases n,
{
    if n > 0 {
        lemma_pow10_pos(n - 1);
    }
}

pub proof fn lemma_pow10_mono(a: int, b: int)
    requires
        a <= b,
    ensures
        pow10(a) <= pow10(b),
    decreases b - a,
{
    if a < b {
        lemma_pow10_mono(a, b - 1);
        lemma_pow10_pos(b - 1);
    }
}

pub proof fn lemma_pow10_value_8()
    ensures
        pow10(8) == 100000000,
{
    assert(pow10(0) == 1);
    assert(pow10(1) == 10);
    assert(pow10(2) == 100);
    assert(pow10(3) == 1000);
    assert(pow10(4) == 10000);
    assert(pow10(5) == 100000);
    assert(pow10(6) == 1000000);
    assert(pow10(7) == 10000000);
}

pub open spec fn is_ascii_digit(c: char) -> bool {
    '0' <= c <= '9'
}

/// The value of a decimal digit character.
pub open spec fn digit_val(c: char) -> int {
    c as int - 48
}

pub open spec fn all_digits(s: Seq<char>) -> bool {
    forall|i: int| 0 <= i < s.len() ==> is_ascii_digit(#[trigger] s[i])
}

/// The value of a run of decimal digit characters, most significant first.
pub open spec fn digits_value(s: Seq<char>) -> int
    decreases s.len(),
{
    if s.len() == 0 {
        0
    } else {
        digits_value(s.drop_last()) * 10 + digit_val(s.last())
    }
}

/// Reads the `n` characters of `s` starting at `start` as a decimal number;
/// `None` when one of them is not a digit.
pub fn parse_digits(s: &str, start: usize, n: usize) -> (r: Option<u32>)
    requires
        start + n <= s@.len(),
        s@.len() <= usize::MAX,
        n <= 8,
    ensures
        match r {
            Some(v) => all_digits(s@.subrange(start as int, start + n)) && v == digits_value(
                s@.subrange(start as int, start + n),
            ),
            None => !all_digits(s@.subrange(start as int, start + n)),
        },
{
    let mut acc: u32 = 0;
    let mut i: usize = 0;
    while i < n
        invariant
            0 <= i <= n,
            n <= 8,
            start + n <= s@.len(),
            s@.len() <= usize::MAX,
            all_digits(s@.subrange(start as int, start + i)),
            acc == digits_value(s@.subrange(start as int, start + i)),
            acc < pow10(i as int),
        decreases n - i,
    {
        let c = s.get_char(start + i);
        let cu = c as u32;
        proof {
            let sub = s@.subrange(start as int, start + i + 1);
            assert(sub.drop_last() =~= s@.subrange(start as int, start + i));
            assert(sub.last() == s@[start + i]);
            lemma_pow10_value_8();
            lemma_pow10_mono(i + 1, 8);
        }
        if cu < 48 || cu > 57 {
            proof {
                let sub = s@.subrange(start as int, start + n);
                assert(sub[i as int] == s@[start + i]);
            }
            return None;
        }
        acc = acc * 10 + (cu - 48);
        i = i + 1;
    }
    proof {
        assert(s@.subrange(start as int, start + i) =~= s@.subrange(start as int, start + n));
    }
    Some(acc)
}

/// The decimal digit character for a value below ten.
pub open spec fn digit_char(d: int) -> char {
    if d == 0 {
        '0'
    } else if d == 1 {
        '1'
    } else if d == 2 {
        '2'
    } else if d == 3 {
        '3'
    } else if d == 4 {
        '4'
    } else if d == 5 {
        '5'
    } else if d == 6 {
        '6'
    } else if d == 7 {
        '7'
    } else if d == 8 {
        '8'
    } else {
        '9'
    }
}

fn digit_char_exec(d: u32) -> (c: char)
    requires
        d <= 9,
    ensures
        c == digit_char(d as int),
{
    if d == 0 {
        '0'
    } else if d == 1 {
        '1'
    } else if d == 2 {
        '2'
    } else if d == 3 {
        '3'
    } else if d == 4 {
        '4'
    } else if d == 5 {
        '5'
    } else if d == 6 {
        '6'
    } else if d == 7 {
        '7'
    } else if d == 8 {
        '8'
    } else {
        '9'
    }
}

/// The decimal digits of `v` written with exactly `width` digits
/// (most significant first), for values that fit in that width.
pub open spec fn fixed_digits(v: int, width: int) -> Seq<char>
    decreases width,
{
    if width <= 0 {
        Seq::empty()
    } else {
        fixed_digits(v / 10, width - 1).push(digit_char(v % 10))
    }
}

pub proof fn lemma_fixed_digits_len(v: int, width: int)
    requires
        width >= 0,
    ensures
        fixed_digits(v, width).len() == width,
    decreases width,
{
    if width > 0 {
        lemma_fixed_digits_len(v / 10, width - 1);
    }
}

/// Appends `v` to `s` as exactly `width` decimal digits.
pub fn push_fixed_digits(s: &mut String, v: u32, width: u32)
    requires
        width <= 9,
        v < pow10(width as int),
    ensures
        final(s)@ == old(s)@ + fixed_digits(v as int, width as int),
    decreases width,
{
    if width == 0 {
        proof {
            assert(old(s)@ =~= old(s)@ + fixed_digits(v as int, 0));
        }
        return;
    }
    proof {
        lemma_pow10_pos(width - 1);
        vstd::arithmetic::div_mod::lemma_fundamental_div_mod(v as int, 10);
        vstd::arithmetic::div_mod::lemma_mod_bound(v as int, 10);
    }
    push_fixed_digits(s, v / 10, width - 1);
    let d = digit_char_exec(v % 10);
    push_char(s, d);
    proof {
        assert(final(s)@ =~= old(s)@ + fixed_digits(v as int, width as int));
    }
}

} // verus!
