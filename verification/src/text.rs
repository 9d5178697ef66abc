//! Verified text utilities shared by the pipeline: character-level string
//! equality, substring search, path-segment extraction, and decimal parsing
//! and rendering of book ids.

use vstd::prelude::*;

verus! {

/// True iff the two string slices hold the same characters.
pub fn str_eq(a: &str, b: &str) -> (r: bool)
    ensures
        r == (a@ == b@),
{
    let alen = a.unicode_len();
    let blen = b.unicode_len();
    if alen != blen {
        return false;
    }
    let mut i: usize = 0;
    while i < alen
        invariant
            alen == a@.len(),
            blen == b@.len(),
            alen == blen,
            i <= alen,
            forall|j: int| 0 <= j < i ==> a@[j] == b@[j],
        decreases alen - i,
    {
        if a.get_char(i) != b.get_char(i) {
            return false;
        }
        i += 1;
    }
    proof {
        assert(a@ =~= b@);
    }
    true
}

/// The characters of `pat` stand in `s` starting at position `i`.
pub open spec fn matches_at(s: Seq<char>, pat: Seq<char>, i: int) -> bool {
    &&& 0 <= i
    &&& i + pat.len() <= s.len()
    &&& s.subrange(i, i + pat.len() as int) == pat
}

/// `pat` occurs somewhere in `s`.
pub open spec fn has_substring(s: Seq<char>, pat: Seq<char>) -> bool {
    exists|i: int| matches_at(s, pat, i)
}

/// True iff `pat` occurs as a contiguous substring of `s`.
pub fn contains_substr(s: &str, pat: &str) -> (r: bool)
    ensures
        r == has_substring(s@, pat@),
{
    let slen = s.unicode_len();
    let plen = pat.unicode_len();
    if plen > slen {
        return false;
    }
    if plen == 0 {
        proof {
            assert(s@.subrange(0, 0) =~= pat@);
            assert(matches_at(s@, pat@, 0));
        }
        return true;
    }
    let mut i: usize = 0;
    while i <= slen - plen
        invariant
            slen == s@.len(),
            plen == pat@.len(),
            plen <= slen,
            0 < plen,
            i + plen <= slen + 1,
            forall|j: int| 0 <= j < i ==> !matches_at(s@, pat@, j),
        decreases slen + 1 - plen - i,
    {
        let window = s.substring_char(i, i + plen);
        if str_eq(window, pat) {
            proof {
                assert(matches_at(s@, pat@, i as int));
            }
            return true;
        }
        i += 1;
    }
    proof {
        assert(forall|j: int| j >= i ==> !matches_at(s@, pat@, j));
    }
    false
}

/// The character `c` occurs in `s`.
pub open spec fn has_char(s: Seq<char>, c: char) -> bool {
    exists|i: int| 0 <= i < s.len() && s[i] == c
}

/// The characters of `s` after the last occurrence of `c`; all of `s` when
/// `c` does not occur.
pub open spec fn tail_after_last(s: Seq<char>, c: char) -> Seq<char>
    decreases s.len(),
{
    if s.len() == 0 {
        s
    } else if s.last() == c {
        Seq::<char>::empty()
    } else {
        tail_after_last(s.drop_last(), c).push(s.last())
    }
}

pub proof fn lemma_tail_after_last_at(s: Seq<char>, c: char, k: int)
    requires
        0 <= k < s.len(),
        s[k] == c,
        forall|j: int| k < j < s.len() ==> s[j] != c,
    ensures
        tail_after_last(s, c) == s.subrange(k + 1, s.len() as int),
    decreases s.len(),
{
    if k == s.len() - 1 {
        assert(tail_after_last(s, c) =~= s.subrange(k + 1, s.len() as int));
    } else {
        let d = s.drop_last();
        assert(forall|j: int| k < j < d.len() ==> d[j] != c);
        lemma_tail_after_last_at(d, c, k);
        assert(tail_after_last(s, c) =~= s.subrange(k + 1, s.len() as int));
    }
}

pub proof fn lemma_tail_after_last_absent(s: Seq<char>, c: char)
    requires
        !has_char(s, c),
    ensures
        tail_after_last(s, c) == s,
    decreases s.len(),
{
    if s.len() > 0 {
        let d = s.drop_last();
        assert(!has_char(d, c));
        lemma_tail_after_last_absent(d, c);
        assert(tail_after_last(s, c) =~= s);
    }
}

/// The characters of `s` after the last occurrence of `sep`; all of `s` when
/// `sep` does not occur. This is how a bare filename is read off a source
/// locator: the part after the last path separator.
pub fn tail_after_last_char(s: &str, sep: char) -> (r: String)
    ensures
        r@ == tail_after_last(s@, sep),
{
    let len = s.unicode_len();
    let mut i: usize = len;
    while i > 0
        invariant
            len == s@.len(),
            i <= len,
            forall|j: int| i <= j < len ==> s@[j] != sep,
        decreases i,
    {
        if s.get_char(i - 1) == sep {
            let r = s.substring_char(i, len);
            proof {
                lemma_tail_after_last_at(s@, sep, i - 1);
            }
            return String::from_str(r);
        }
        i -= 1;
    }
    proof {
        lemma_tail_after_last_absent(s@, sep);
    }
    String::from_str(s)
}

/// The characters of `s` before the first occurrence of `c`; all of `s` when
/// `c` does not occur.
pub open spec fn head_before_first(s: Seq<char>, c: char) -> Seq<char>
    decreases s.len(),
{
    if s.len() == 0 {
        s
    } else if s.first() == c {
        Seq::<char>::empty()
    } else {
        seq![s.first()] + head_before_first(s.drop_first(), c)
    }
}

/// The characters of `s` after the first occurrence of `c`; empty when `c`
/// does not occur.
pub open spec fn tail_after_first(s: Seq<char>, c: char) -> Seq<char>
    decreases s.len(),
{
    if s.len() == 0 {
        s
    } else if s.first() == c {
        s.drop_first()
    } else {
        tail_after_first(s.drop_first(), c)
    }
}

pub proof fn lemma_head_before_first_at(s: Seq<char>, c: char, k: int)
    requires
        0 <= k < s.len(),
        s[k] == c,
        forall|j: int| 0 <= j < k ==> s[j] != c,
    ensures
        head_before_first(s, c) == s.subrange(0, k),
        tail_after_first(s, c) == s.subrange(k + 1, s.len() as int),
    decreases s.len(),
{
    if k == 0 {
        assert(head_before_first(s, c) =~= s.subrange(0, 0));
        assert(tail_after_first(s, c) =~= s.subrange(1, s.len() as int));
    } else {
        let d = s.drop_first();
        assert(d[k - 1] == c);
        assert(forall|j: int| 0 <= j < k - 1 ==> d[j] != c);
        lemma_head_before_first_at(d, c, k - 1);
        assert(head_before_first(s, c) =~= s.subrange(0, k));
        assert(tail_after_first(s, c) =~= s.subrange(k + 1, s.len() as int));
    }
}

pub proof fn lemma_head_before_first_absent(s: Seq<char>, c: char)
    requires
        !has_char(s, c),
    ensures
        head_before_first(s, c) == s,
    decreases s.len(),
{
    if s.len() > 0 {
        let d = s.drop_first();
        assert(!has_char(d, c)) by {
            assert(forall|i: int| 0 <= i < d.len() ==> d[i] == s[i + 1] && s[i + 1] != c);
        }
        lemma_head_before_first_absent(d, c);
        assert(head_before_first(s, c) =~= s);
    }
}

/// Position of the first occurrence of `c` in `s`, if any.
pub fn find_char(s: &str, c: char) -> (r: Option<usize>)
    ensures
        match r {
            Some(i) => i < s@.len() && s@[i as int] == c && (forall|j: int|
                0 <= j < i ==> s@[j] != c),
            None => !has_char(s@, c),
        },
{
    let len = s.unicode_len();
    let mut i: usize = 0;
    while i < len
        invariant
            len == s@.len(),
            i <= len,
            forall|j: int| 0 <= j < i ==> s@[j] != c,
        decreases len - i,
    {
        if s.get_char(i) == c {
            return Some(i);
        }
        i += 1;
    }
    None
}

/// `c` is a decimal digit.
pub open spec fn is_digit(c: char) -> bool {
    '0' as int <= c as int && c as int <= '9' as int
}

/// Numeric value of a decimal digit.
pub open spec fn digit_val(c: char) -> int {
    c as int - '0' as int
}

/// Every character of `s` is a decimal digit.
pub open spec fn all_digits(s: Seq<char>) -> bool {
    forall|i: int| 0 <= i < s.len() ==> is_digit(s[i])
}

/// Value of a string of decimal digits, most significant first.
pub open spec fn digits_val(s: Seq<char>) -> int
    decreases s.len(),
{
    if s.len() == 0 {
        0
    } else {
        digits_val(s.drop_last()) * 10 + digit_val(s.last())
    }
}

proof fn lemma_digits_val_nonneg(s: Seq<char>)
    requires
        all_digits(s),
    ensures
        digits_val(s) >= 0,
    decreases s.len(),
{
    if s.len() > 0 {
        assert(all_digits(s.drop_last()));
        lemma_digits_val_nonneg(s.drop_last());
    }
}

proof fn lemma_digits_val_prefix_grows(s: Seq<char>, i: int)
    requires
        all_digits(s),
        0 <= i <= s.len(),
    ensures
        digits_val(s) >= digits_val(s.subrange(0, i)),
    decreases s.len() - i,
{
    if i < s.len() {
        let p = s.subrange(0, i);
        let q = s.subrange(0, i + 1);
        assert(q.drop_last() =~= p);
        assert(all_digits(p));
        lemma_digits_val_nonneg(p);
        lemma_digits_val_prefix_grows(s, i + 1);
    } else {
        assert(s.subrange(0, i) =~= s);
    }
}

/// The digit-only part of `s`: with a leading sign stripped.
pub open spec fn dec_body(s: Seq<char>) -> Seq<char> {
    if s.len() > 0 && (s[0] == '-' || s[0] == '+') {
        s.subrange(1, s.len() as int)
    } else {
        s
    }
}

/// `s` is negative decimal notation: a leading minus sign.
pub open spec fn dec_negative(s: Seq<char>) -> bool {
    s.len() > 0 && s[0] == '-'
}

/// Signed value denoted by `s`, meaningful only when `is_dec_i32(s)`.
pub open spec fn dec_val(s: Seq<char>) -> int {
    if dec_negative(s) {
        -digits_val(dec_body(s))
    } else {
        digits_val(dec_body(s))
    }
}

/// `s` is a decimal numeral that a 32-bit signed integer can hold: an
/// optional sign, then at least one digit, and a value in range.
pub open spec fn is_dec_i32(s: Seq<char>) -> bool {
    &&& dec_body(s).len() > 0
    &&& all_digits(dec_body(s))
    &&& i32::MIN <= dec_val(s) <= i32::MAX
}

/// Parses `s` as a decimal 32-bit signed integer: an optional `+` or `-`
/// sign, then one or more digits, nothing else, and no overflow.
pub fn parse_i32(s: &str) -> (r: Option<i32>)
    ensures
        r is Some <==> is_dec_i32(s@),
        r is Some ==> r->Some_0 == dec_val(s@),
{
    let len = s.unicode_len();
    if len == 0 {
        return None;
    }
    let first = s.get_char(0);
    let negative = first == '-';
    let signed = negative || first == '+';
    let start: usize = if signed {
        1
    } else {
        0
    };
    if start == len {
        return None;
    }
    let bound: u64 = if negative {
        2147483648
    } else {
        2147483647
    };
    let ghost body = dec_body(s@);
    proof {
        assert(body =~= s@.subrange(start as int, len as int));
    }
    let mut acc: u64 = 0;
    let mut i: usize = start;
    while i < len
        invariant
            len == s@.len(),
            start <= i <= len,
            start < len,
            body == dec_body(s@),
            body == s@.subrange(start as int, len as int),
            all_digits(s@.subrange(start as int, i as int)),
            acc == digits_val(s@.subrange(start as int, i as int)),
            acc <= bound,
            negative == dec_negative(s@),
            bound == if negative { 2147483648int } else { 2147483647int },
        decreases len - i,
    {
        let c = s.get_char(i);
        let u = c as u32;
        if u < 48 || u > 57 {
            proof {
                assert(body[i - start] == s@[i as int]);
                assert(!is_digit(body[i - start]));
                assert(!all_digits(body));
            }
            return None;
        }
        let d = (u - 48) as u64;
        let next = acc * 10 + d;
        proof {
            assert(s@.subrange(start as int, i + 1).drop_last() =~= s@.subrange(
                start as int,
                i as int,
            ));
        }
        if next > bound {
            proof {
                if is_dec_i32(s@) {
                    assert(body.subrange(0, i + 1 - start) =~= s@.subrange(start as int, i + 1));
                    assert(digits_val(s@.subrange(start as int, i + 1)) == next);
                    lemma_digits_val_prefix_grows(body, i + 1 - start);
                    assert(digits_val(body) >= next > bound);
                    assert(false);
                }
            }
            return None;
        }
        acc = next;
        i += 1;
    }
    proof {
        assert(s@.subrange(start as int, len as int) =~= body);
    }
    if negative {
        let v = -(acc as i64);
        Some(v as i32)
    } else {
        Some(acc as i32)
    }
}

/// The decimal digits of a nonnegative number, most significant first.
pub open spec fn dec_digits(n: int) -> Seq<char>
    decreases n,
{
    if n <= 0 {
        seq!['0']
    } else if n < 10 {
        seq![digit_char(n)]
    } else {
        dec_digits(n / 10).push(digit_char(n % 10))
    }
}

/// The digit character for a value between 0 and 9.
pub open spec fn digit_char(d: int) -> char {
    if d == 0 {
        '0'
    } else if d == 1 {
        '1'
    } else if d == 2 {
        '2'
    } else if d == 3 {
        '3'
    } else if d == 4 {
        '4'
    } else if d == 5 {
        '5'
    } else if d == 6 {
        '6'
    } else if d == 7 {
        '7'
    } else if d == 8 {
        '8'
    } else {
        '9'
    }
}

/// Decimal notation for a 32-bit signed integer.
pub open spec fn dec_str(n: int) -> Seq<char> {
    if n < 0 {
        seq!['-'] + dec_digits(-n)
    } else {
        dec_digits(n)
    }
}

proof fn lemma_dec_digits_val(n: int)
    requires
        n >= 0,
    ensures
        all_digits(dec_digits(n)),
        digits_val(dec_digits(n)) == n,
        dec_digits(n).len() > 0,
    decreases n,
{
    if n >= 10 {
        lemma_dec_digits_val(n / 10);
        assert(dec_digits(n).drop_last() =~= dec_digits(n / 10));
    } else {
        let s = dec_digits(n);
        assert(s.len() == 1);
        assert(digits_val(s.drop_last()) == 0);
        assert(digits_val(s) == digit_val(s.last()));
    }
}

/// Rendering an integer in decimal and parsing the numeral back yields the
/// same integer.
pub proof fn lemma_render_parse_round_trip(n: i32)
    ensures
        is_dec_i32(dec_str(n as int)),
        dec_val(dec_str(n as int)) == n as int,
{
    if n < 0 {
        lemma_dec_digits_val(-(n as int));
        assert(dec_body(dec_str(n as int)) =~= dec_digits(-(n as int)));
    } else {
        lemma_dec_digits_val(n as int);
        assert(is_digit(dec_digits(n as int)[0]));
        assert(dec_body(dec_str(n as int)) =~= dec_digits(n as int));
    }
}

/// Appends the decimal digits of `n` to `out`.
fn push_dec_u32(n: u32, out: &mut String)
    ensures
        final (out)@ == old(out)@ + dec_digits(n as int),
    decreases n,
{
    if n >= 10 {
        push_dec_u32(n / 10, out);
    }
    let d = n % 10;
    let ds: &str = match d {
        0 => "0",
        1 => "1",
        2 => "2",
        3 => "3",
        4 => "4",
        5 => "5",
        6 => "6",
        7 => "7",
        8 => "8",
        _ => "9",
    };
    proof {
        reveal_strlit("0");
        reveal_strlit("1");
        reveal_strlit("2");
        reveal_strlit("3");
        reveal_strlit("4");
        reveal_strlit("5");
        reveal_strlit("6");
        reveal_strlit("7");
        reveal_strlit("8");
        reveal_strlit("9");
        assert(ds@ =~= seq![digit_char(d as int)]);
        if n >= 10 {
            assert(dec_digits(n as int) =~= dec_digits(n as int / 10).push(
                digit_char(n as int % 10),
            ));
        }
        assert(old(out)@ + dec_digits(n as int) =~= if n >= 10 {
            (old(out)@ + dec_digits(n as int / 10)) + ds@
        } else {
            old(out)@ + ds@
        });
    }
    out.append(ds);
}

/// Decimal rendering of a 32-bit signed integer, as `format!` writes it.
pub fn render_i32(n: i32) -> (r: String)
    ensures
        r@ == dec_str(n as int),
{
    let mut out = String::new();
    if n < 0 {
        out.append("-");
        let mag = (-(n as i64)) as u32;
        push_dec_u32(mag, &mut out);
        proof {
            reveal_strlit("-");
            assert(out@ =~= dec_str(n as int));
        }
    } else {
        push_dec_u32(n as u32, &mut out);
        proof {
            assert(out@ =~= dec_str(n as int));
        }
    }
    out
}

} // verus!
