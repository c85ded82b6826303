//! Characters of strings, white space, and decimal numerals.
use vstd::prelude::*;

verus! {

/// The characters of a string, in order.
pub fn chars_of(s: &str) -> (r: Vec<char>)
    ensures
        r@ == s@,
{
    let mut out: Vec<char> = Vec::new();
    for c in it: s.chars()
        invariant
            it.seq() == s@,
            out@ == s@.take(it.index() as int),
    {
        out.push(c);
        assert(out@ =~= s@.take(it.index() + 1));
    }
    assert(out@ =~= s@);
    out
}


/// The characters with the Unicode property White_Space, those that
/// `char::is_whitespace` accepts.
pub open spec fn is_white_space(c: char) -> bool {
    let u = c as u32;
    ||| 0x09 <= u <= 0x0d
    ||| u == 0x20
    ||| u == 0x85
    ||| u == 0xa0
    ||| u == 0x1680
    ||| 0x2000 <= u <= 0x200a
    ||| u == 0x2028
    ||| u == 0x2029
    ||| u == 0x202f
    ||| u == 0x205f
    ||| u == 0x3000
}

pub fn white_space(c: char) -> (b: bool)
    ensures
        b == is_white_space(c),
{
    let u = c as u32;
    (0x09 <= u && u <= 0x0d) || u == 0x20 || u == 0x85 || u == 0xa0 || u == 0x1680 || (0x2000 <= u
        && u <= 0x200a) || u == 0x2028 || u == 0x2029 || u == 0x202f || u == 0x205f || u == 0x3000
}

/// An ASCII decimal digit.
pub open spec fn is_digit(c: char) -> bool {
    '0' <= c && c <= '9'
}

/// Value of a string of ASCII decimal digits.
pub open spec fn digits_value(t: Seq<char>) -> nat
    decreases t.len(),
{
    if t.len() == 0 {
        0
    } else {
        10 * digits_value(t.drop_last()) + ((t.last() as u32) - ('0' as u32)) as nat
    }
}

/// The numeral without its optional leading `+`.
pub open spec fn unsigned_digits(t: Seq<char>) -> Seq<char> {
    if t.len() > 0 && t[0] == '+' {
        t.skip(1)
    } else {
        t
    }
}

pub open spec fn all_digits(d: Seq<char>) -> bool {
    forall|i: int| 0 <= i < d.len() ==> is_digit(#[trigger] d[i])
}

/// What `str::parse::<u32>` gives for `t`: an optional leading `+` followed
/// by at least one ASCII digit, of value at most `u32::MAX`.
pub open spec fn parse_u32(t: Seq<char>) -> Option<u32> {
    let d = unsigned_digits(t);
    if d.len() == 0 || !all_digits(d) {
        None
    } else if digits_value(d) > u32::MAX {
        None
    } else {
        Some(digits_value(d) as u32)
    }
}

proof fn lemma_digits_value_step(t: Seq<char>, k: int)
    requires
        0 <= k < t.len(),
    ensures
        digits_value(t.take(k + 1)) == 10 * digits_value(t.take(k)) + ((t[k] as u32) - ('0' as u32)) as nat,
{
    assert(t.take(k + 1).drop_last() =~= t.take(k));
}

proof fn lemma_digits_value_prefix(t: Seq<char>, k: int)
    requires
        0 <= k <= t.len(),
        forall|i: int| 0 <= i < t.len() ==> is_digit(#[trigger] t[i]),
    ensures
        digits_value(t.take(k)) <= digits_value(t),
    decreases t.len() - k,
{
    if k < t.len() {
        lemma_digits_value_prefix(t, k + 1);
        lemma_digits_value_step(t, k);
    } else {
        assert(t.take(k) =~= t);
    }
}

/// Parses `s[start..end]` as `str::parse::<u32>` does.
pub fn parse_u32_at(s: &Vec<char>, start: usize, end: usize) -> (r: Option<u32>)
    requires
        start <= end <= s@.len(),
    ensures
        r == parse_u32(s@.subrange(start as int, end as int)),
{
    let ghost t = s@.subrange(start as int, end as int);
    let mut i = start;
    if start < end && s[start] == '+' {
        i = start + 1;
    }
    let ghost d = s@.subrange(i as int, end as int);
    proof {
        if start < end && s@[start as int] == '+' {
            assert(d =~= t.skip(1));
        } else {
            assert(d =~= t);
        }
    }
    if i == end {
        return None;
    }
    let mut acc: u64 = 0;
    let mut overflow = false;
    let mut k = i;
    proof {
        assert(d.take(0) =~= Seq::<char>::empty());
    }
    while k < end
        invariant
            start <= i <= k <= end,
            end <= s@.len(),
            d == s@.subrange(i as int, end as int),
            t == s@.subrange(start as int, end as int),
            d == unsigned_digits(t),
            forall|j: int| 0 <= j < k - i ==> is_digit(#[trigger] d[j]),
            !overflow ==> acc == digits_value(d.take(k - i)) && acc <= u32::MAX,
            overflow ==> digits_value(d.take(k - i)) > u32::MAX,
        decreases end - k,
    {
        let c = s[k];
        if !('0' <= c && c <= '9') {
            proof {
                assert(d.len() == end - i);
                assert(!is_digit(d[k - i]));
            }
            return None;
        }
        proof {
            assert(d[k - i] == c);
            lemma_digits_value_step(d, k - i);
        }
        if !overflow {
            let next = acc * 10 + (c as u64 - '0' as u64);
            if next > 0xffff_ffff {
                overflow = true;
            } else {
                acc = next;
            }
        }
        k = k + 1;
    }
    proof {
        assert(d.take(d.len() as int) =~= d);
    }
    if overflow {
        None
    } else {
        Some(acc as u32)
    }
}


/// The ASCII digit of value `d`.
pub open spec fn digit_char(d: nat) -> char {
    ((d + 48) as u32) as char
}

/// Decimal numeral of `n`, without leading zeros.
pub open spec fn decimal(n: nat) -> Seq<char>
    decreases n,
{
    if n < 10 {
        seq![digit_char(n)]
    } else {
        decimal(n / 10).push(digit_char(n % 10))
    }
}

/// Appends the digit `d` (below ten).
pub fn push_digit(s: &mut String, d: u64)
    requires
        d < 10,
    ensures
        final(s)@ == old(s)@.push(digit_char(d as nat)),
{
    let lit = match d {
        0 => "0",
        1 => "1",
        2 => "2",
        3 => "3",
        4 => "4",
        5 => "5",
        6 => "6",
        7 => "7",
        8 => "8",
        _ => "9",
    };
    proof {
        reveal_strlit("0");
        reveal_strlit("1");
        reveal_strlit("2");
        reveal_strlit("3");
        reveal_strlit("4");
        reveal_strlit("5");
        reveal_strlit("6");
        reveal_strlit("7");
        reveal_strlit("8");
        reveal_strlit("9");
        assert(lit@ =~= seq![digit_char(d as nat)]);
    }
    s.append(lit);
}

/// Appends the decimal numeral of `n`.
pub fn push_decimal(s: &mut String, n: u64)
    ensures
        final(s)@ == old(s)@ + decimal(n as nat),
    decreases n,
{
    if n >= 10 {
        push_decimal(s, n / 10);
        push_digit(s, n % 10);
        proof {
            assert(old(s)@ + decimal(n as nat) =~= old(s)@ + decimal((n / 10) as nat) + seq![digit_char((n % 10) as nat)]);
        }
    } else {
        push_digit(s, n);
        proof {
            assert(old(s)@ + decimal(n as nat) =~= old(s)@.push(digit_char(n as nat)));
        }
    }
}


/// A decimal numeral is a non-empty string of digits that reads back as its
/// number.
pub proof fn lemma_decimal_digits(n: nat)
    ensures
        decimal(n).len() >= 1,
        all_digits(decimal(n)),
        forall|i: int| 0 <= i < decimal(n).len() ==> !is_white_space(#[trigger] decimal(n)[i]),
        digits_value(decimal(n)) == n,
    decreases n,
{
    let d = (n % 10) as nat;
    assert((digit_char(d) as u32) == d + 48);
    assert(('0' as u32) == 48);
    assert(((digit_char(d) as u32) - ('0' as u32)) as nat == d);
    assert(digits_value(decimal(n)) == 10 * digits_value(decimal(n).drop_last()) + ((decimal(n).last() as u32) - ('0' as u32)) as nat);
    if n < 10 {
        assert(decimal(n).drop_last() =~= Seq::<char>::empty());
        assert(decimal(n).last() == digit_char(n));
        assert(n % 10 == n);
    }
    if n >= 10 {
        assert(n == 10 * (n / 10) + n % 10) by (nonlinear_arith);
        assert(decimal(n).last() == digit_char(d));
        lemma_decimal_digits(n / 10);
        let prev = decimal(n / 10);
        assert(decimal(n).drop_last() =~= prev);
        assert forall|i: int| 0 <= i < decimal(n).len() implies is_digit(#[trigger] decimal(n)[i]) && !is_white_space(decimal(n)[i]) by {
            if i < prev.len() {
                assert(decimal(n)[i] == prev[i]);
                assert(is_digit(prev[i]));
                assert(!is_white_space(prev[i]));
            }
        }
    }
}

/// A decimal numeral parses back to its number.
pub proof fn lemma_parse_decimal(n: nat)
    requires
        n <= u32::MAX,
    ensures
        parse_u32(decimal(n)) == Some(n as u32),
{
    lemma_decimal_digits(n);
    assert(is_digit(decimal(n)[0]));
    assert(unsigned_digits(decimal(n)) == decimal(n));
}

} // verus!
