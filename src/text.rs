//! Text helpers: decimal numbers, URL path segments and string comparison.
use vstd::prelude::*;
use vstd::string::*;

verus! {

/// Whether `c` is one of `0` to `9`.
pub open spec fn is_digit(c: char) -> bool {
    '0' <= c && c <= '9'
}

/// The value of the decimal digit `c`.
pub open spec fn digit_value(c: char) -> nat {
    (c as nat - '0' as nat) as nat
}

/// The decimal digit whose value is `d`.
pub open spec fn digit_char(d: nat) -> char
    recommends
        d < 10,
{
    (d + '0' as nat) as char
}

/// The value of a string of decimal digits, most significant first.
pub open spec fn digits_value(s: Seq<char>) -> nat
    decreases s.len(),
{
    if s.len() == 0 {
        0
    } else {
        digits_value(s.drop_last()) * 10 + digit_value(s.last())
    }
}

/// Whether every character of `s` is a decimal digit.
pub open spec fn all_digits(s: Seq<char>) -> bool {
    forall|i: int| 0 <= i < s.len() ==> is_digit(#[trigger] s[i])
}

/// `s` read as an unsigned 32-bit decimal number: one or more digits and
/// nothing else, with a value that fits.
pub open spec fn parse_u32_spec(s: Seq<char>) -> Option<u32> {
    if s.len() > 0 && all_digits(s) && digits_value(s) <= u32::MAX {
        Some(digits_value(s) as u32)
    } else {
        None
    }
}

/// The shortest decimal representation of `n`.
pub open spec fn decimal(n: nat) -> Seq<char>
    decreases n,
{
    if n < 10 {
        seq![digit_char(n)]
    } else {
        decimal(n / 10).push(digit_char(n % 10))
    }
}

/// What follows the last `/` of `s`, or all of `s` where it holds none.
pub open spec fn last_segment(s: Seq<char>) -> Seq<char>
    decreases s.len(),
{
    if s.len() == 0 {
        s
    } else if s.last() == '/' {
        Seq::empty()
    } else {
        last_segment(s.drop_last()).push(s.last())
    }
}

/// Appends the decimal representation of `n` to `out`.
pub fn push_decimal(out: &mut String, n: u32)
    ensures
        final(out)@ == old(out)@ + decimal(n as nat),
    decreases n,
{
    if n >= 10 {
        push_decimal(out, n / 10);
    }
    let d: usize = (n % 10) as usize;
    proof {
        reveal_strlit("0123456789");
    }
    let digit = "0123456789".substring_char(d, d + 1);
    proof {
        assert(digit@ =~= seq![digit_char(d as nat)]);
    }
    out.append(digit);
    proof {
        if n >= 10 {
            assert(final(out)@ =~= old(out)@ + decimal(n as nat));
        } else {
            assert(final(out)@ =~= old(out)@ + decimal(n as nat));
        }
    }
}

/// Whether two strings hold the same characters.
pub fn text_eq(a: &str, b: &str) -> (r: bool)
    ensures
        r == (a@ == b@),
{
    let n = a.unicode_len();
    let m = b.unicode_len();
    if n != m {
        return false;
    }
    let mut i: usize = 0;
    while i < n
        invariant
            n == a@.len(),
            m == b@.len(),
            n == m,
            i <= n,
            forall|j: int| 0 <= j < i ==> a@[j] == b@[j],
        decreases n - i,
    {
        if a.get_char(i) != b.get_char(i) {
            return false;
        }
        i = i + 1;
    }
    assert(a@ =~= b@);
    true
}

/// Reads `s` as an unsigned 32-bit decimal number.
pub fn parse_u32(s: &str) -> (r: Option<u32>)
    ensures
        r == parse_u32_spec(s@),
{
    let n = s.unicode_len();
    if n == 0 {
        return None;
    }
    let mut value: u64 = 0;
    let mut i: usize = 0;
    while i < n
        invariant
            n == s@.len(),
            0 < n,
            i <= n,
            all_digits(s@.subrange(0, i as int)),
            value as nat == digits_value(s@.subrange(0, i as int)),
            value <= u32::MAX,
        decreases n - i,
    {
        let c = s.get_char(i);
        assert(s@.subrange(0, i as int + 1).drop_last() =~= s@.subrange(0, i as int));
        if !('0' <= c && c <= '9') {
            assert(!is_digit(s@[i as int]));
            assert(!all_digits(s@));
            return None;
        }
        let d: u64 = (c as u64) - ('0' as u64);
        let next: u64 = value * 10 + d;
        assert(all_digits(s@.subrange(0, i as int + 1)));
        if next > 0xffff_ffff {
            proof {
                if all_digits(s@) {
                    lemma_prefix_value_monotone(s@, i as int + 1);
                }
            }
            return None;
        }
        value = next;
        i = i + 1;
    }
    assert(s@.subrange(0, n as int) =~= s@);
    Some(value as u32)
}

proof fn lemma_prefix_value_monotone(s: Seq<char>, k: int)
    requires
        0 <= k <= s.len(),
        all_digits(s),
    ensures
        digits_value(s.subrange(0, k)) <= digits_value(s),
    decreases s.len() - k,
{
    if k < s.len() {
        lemma_prefix_value_monotone(s, k + 1);
        assert(s.subrange(0, k + 1).drop_last() =~= s.subrange(0, k));
        let x = digits_value(s.subrange(0, k));
        let d = digit_value(s[k]);
        assert(s.subrange(0, k + 1).last() == s[k]);
        assert(digits_value(s.subrange(0, k + 1)) == x * 10 + d);
        assert(x <= x * 10 + d) by (nonlinear_arith);
    } else {
        assert(s.subrange(0, k) =~= s);
    }
}

/// What follows the last `/` of `s`.
pub fn last_path_segment(s: &str) -> (r: &str)
    ensures
        r@ == last_segment(s@),
{
    let n = s.unicode_len();
    let mut start: usize = 0;
    let mut i: usize = 0;
    while i < n
        invariant
            n == s@.len(),
            start <= i <= n,
            last_segment(s@.subrange(0, i as int)) == s@.subrange(start as int, i as int),
        decreases n - i,
    {
        let c = s.get_char(i);
        let ghost pre = s@.subrange(0, i as int + 1);
        assert(pre.drop_last() =~= s@.subrange(0, i as int));
        if c == '/' {
            start = i + 1;
            assert(s@.subrange(start as int, i as int + 1) =~= Seq::<char>::empty());
        } else {
            assert(s@.subrange(start as int, i as int + 1) =~= s@.subrange(
                start as int,
                i as int,
            ).push(c));
        }
        i = i + 1;
    }
    assert(s@.subrange(0, n as int) =~= s@);
    s.substring_char(start, n)
}

} // verus!
