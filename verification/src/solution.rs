//! Decimal value of a binary word, read as unsigned or as two's complement.
use vstd::prelude::*;
use vstd::arithmetic::power2::{lemma2_to64, lemma_pow2_strictly_increases, lemma_pow2_unfold, pow2};
use crate::text::chars_of;

verus! {

/// Value of the word `s` (most significant character first) in which the
/// character `one` stands for the bit 1 and any other character for 0.
pub open spec fn word_value(s: Seq<char>, one: char) -> nat
    decreases s.len(),
{
    if s.len() == 0 {
        0
    } else {
        2 * word_value(s.drop_last(), one) + if s.last() == one { 1nat } else { 0nat }
    }
}

/// A 32-bit pattern read as a signed `i32`.
pub open spec fn wrap_i32(u: int) -> int {
    if u < 0x8000_0000 {
        u
    } else {
        u - 0x1_0000_0000
    }
}

/// The word is negative: read as signed and its leading character is `'1'`.
pub open spec fn is_negative_word(s: Seq<char>, signed: bool) -> bool {
    signed && s[0] == '1'
}

/// Magnitude of a negative word: its inverted bits plus one.
pub open spec fn negative_magnitude(s: Seq<char>) -> int {
    word_value(s, '0') as int + 1
}

/// The value `bin_todeci` gives to the word `s`.
pub open spec fn decoded_value(s: Seq<char>, signed: bool) -> int {
    if is_negative_word(s, signed) {
        -wrap_i32(negative_magnitude(s))
    } else {
        wrap_i32(word_value(s, '1') as int)
    }
}

/// The words that `bin_todeci` decodes without overflow.
pub open spec fn decodable(s: Seq<char>, signed: bool) -> bool {
    &&& s.len() > 0
    &&& is_negative_word(s, signed) ==> negative_magnitude(s) < 0x1_0000_0000
        && negative_magnitude(s) != 0x8000_0000
    &&& !is_negative_word(s, signed) ==> word_value(s, '1') < 0x1_0000_0000
}

proof fn lemma_word_value_prefix(s: Seq<char>, one: char, k: int)
    requires
        0 <= k <= s.len(),
    ensures
        word_value(s.take(k), one) <= word_value(s, one),
    decreases s.len() - k,
{
    if k < s.len() {
        lemma_word_value_prefix(s, one, k + 1);
        assert(s.take(k + 1).drop_last() =~= s.take(k));
    } else {
        assert(s.take(k) =~= s);
    }
}

/// Value of the prefix of length `k + 1` from the prefix of length `k`.
proof fn lemma_word_value_step(s: Seq<char>, one: char, k: int)
    requires
        0 <= k < s.len(),
    ensures
        word_value(s.take(k + 1), one) == 2 * word_value(s.take(k), one) + if s[k] == one {
            1nat
        } else {
            0nat
        },
{
    assert(s.take(k + 1).drop_last() =~= s.take(k));
}

/// Value of `s` counting the characters equal to `one`, computed most
/// significant character first.
fn word_value_of(s: &Vec<char>, one: char) -> (r: u64)
    requires
        word_value(s@, one) < 0x1_0000_0000,
    ensures
        r == word_value(s@, one),
{
    let mut acc: u64 = 0;
    let mut k: usize = 0;
    proof {
        assert(s@.take(0) =~= Seq::<char>::empty());
    }
    while k < s.len()
        invariant
            k <= s@.len(),
            word_value(s@, one) < 0x1_0000_0000,
            acc == word_value(s@.take(k as int), one),
        decreases s@.len() - k,
    {
        proof {
            lemma_word_value_step(s@, one, k as int);
            lemma_word_value_prefix(s@, one, k + 1);
        }
        acc = 2 * acc + if s[k] == one { 1 } else { 0 };
        k = k + 1;
    }
    proof {
        assert(s@.take(s@.len() as int) =~= s@);
    }
    acc
}

/// Decimal value of the binary word `nbr` (most significant character
/// first; `'1'` is a one bit, any other character a zero bit). Unsigned
/// words, and signed words that start with `'0'`, give the word's value
/// read as a 32-bit pattern; a signed word that starts with `'1'` gives the
/// negation of its two's complement (its inverted bits plus one).
pub fn bin_todeci(nbr: String, signed: bool) -> (n: i32)
    requires
        decodable(nbr@, signed),
    ensures
        n == decoded_value(nbr@, signed),
{
    let bin = chars_of(nbr.as_str());
    let negatif = bin[0] == '1';
    if signed && negatif {
        let m = word_value_of(&bin, '0') + 1;
        if m < 0x8000_0000 {
            -(m as i32)
        } else {
            (0x1_0000_0000u64 - m) as i32
        }
    } else {
        let u = word_value_of(&bin, '1');
        if u < 0x8000_0000 {
            u as i32
        } else {
            (u as i64 - 0x1_0000_0000i64) as i32
        }
    }
}


/// Value of `s` counting the characters equal to `one`, when it is below
/// 2^32; `None` when it is not.
fn bounded_word_value(s: &Vec<char>, one: char) -> (r: Option<u64>)
    ensures
        match r {
            Some(v) => v == word_value(s@, one) && v < 0x1_0000_0000,
            None => word_value(s@, one) >= 0x1_0000_0000,
        },
{
    let mut acc: u64 = 0;
    let mut k: usize = 0;
    proof {
        assert(s@.take(0) =~= Seq::<char>::empty());
    }
    while k < s.len()
        invariant
            k <= s@.len(),
            acc == word_value(s@.take(k as int), one),
            acc < 0x1_0000_0000,
        decreases s@.len() - k,
    {
        proof {
            lemma_word_value_step(s@, one, k as int);
        }
        let next: u64 = 2 * acc + if s[k] == one { 1 } else { 0 };
        if next >= 0x1_0000_0000 {
            proof {
                lemma_word_value_prefix(s@, one, k + 1);
            }
            return None;
        }
        acc = next;
        k = k + 1;
    }
    proof {
        assert(s@.take(s@.len() as int) =~= s@);
    }
    Some(acc)
}

/// Whether `bin_todeci` decodes the word: it is not empty, and its value
/// (for a signed word that starts with `'1'`, its inverted bits plus one)
/// is below 2^32, and is not 2^31 for such a negative word.
pub fn word_is_decodable(nbr: &str, signed: bool) -> (b: bool)
    ensures
        b == decodable(nbr@, signed),
{
    let bin = chars_of(nbr);
    if bin.len() == 0 {
        return false;
    }
    if signed && bin[0] == '1' {
        match bounded_word_value(&bin, '0') {
            Some(v) => v + 1 < 0x1_0000_0000 && v + 1 != 0x8000_0000,
            None => false,
        }
    } else {
        bounded_word_value(&bin, '1').is_some()
    }
}

/// The word holds only the characters `'0'` and `'1'`.
pub open spec fn is_binary_word(s: Seq<char>) -> bool {
    forall|i: int| 0 <= i < s.len() ==> #[trigger] s[i] == '0' || s[i] == '1'
}

proof fn lemma_word_values_complement(s: Seq<char>)
    requires
        is_binary_word(s),
    ensures
        word_value(s, '0') + word_value(s, '1') + 1 == pow2(s.len()),
        word_value(s, '1') < pow2(s.len()),
    decreases s.len(),
{
    if s.len() == 0 {
        lemma2_to64();
    } else {
        let d = s.drop_last();
        assert(is_binary_word(d)) by {
            assert forall|i: int| 0 <= i < d.len() implies #[trigger] d[i] == '0' || d[i] == '1' by {
                assert(d[i] == s[i]);
            }
        }
        lemma_word_values_complement(d);
        lemma_pow2_unfold(s.len());
        assert(s.last() == s[s.len() - 1]);
    }
}

proof fn lemma_word_value_leading_one(s: Seq<char>)
    requires
        s.len() > 0,
        s[0] == '1',
    ensures
        word_value(s, '1') >= pow2((s.len() - 1) as nat),
    decreases s.len(),
{
    if s.len() == 1 {
        lemma2_to64();
        assert(s.drop_last().len() == 0);
    } else {
        let d = s.drop_last();
        assert(d[0] == '1');
        lemma_word_value_leading_one(d);
        lemma_pow2_unfold((s.len() - 1) as nat);
    }
}

/// For a word of at most 31 characters `'0'` and `'1'`, the unsigned
/// reading is the word's binary value and the signed reading is the two's
/// complement one: the binary value minus 2^len when the leading bit is 1.
pub proof fn law_twos_complement(s: Seq<char>)
    requires
        0 < s.len() <= 31,
        is_binary_word(s),
    ensures
        decodable(s, false),
        decodable(s, true),
        decoded_value(s, false) == word_value(s, '1'),
        decoded_value(s, true) == word_value(s, '1') as int - if s[0] == '1' {
            pow2(s.len()) as int
        } else {
            0
        },
{
    lemma_word_values_complement(s);
    lemma2_to64();
    if s.len() < 31 {
        lemma_pow2_strictly_increases(s.len(), 31);
    }
    if s[0] == '1' {
        lemma_word_value_leading_one(s);
        lemma_pow2_unfold(s.len());
        if s.len() - 1 < 30 {
            lemma_pow2_strictly_increases((s.len() - 1) as nat, 30);
        }
    }
}

/// Read as unsigned, appending a bit to a word doubles its value and adds
/// the bit, as long as the value stays below 2^31; the empty word is worth
/// 0. Together these fix the unsigned reading of every word of zeros and
/// ones below 2^31, most significant bit first.
pub proof fn law_appending_a_bit(s: Seq<char>, c: char)
    requires
        c == '0' || c == '1',
        word_value(s.push(c), '1') < 0x8000_0000,
    ensures
        decoded_value(s.push(c), false) == 2 * decoded_value(s, false) + if c == '1' {
            1int
        } else {
            0int
        },
        decoded_value(Seq::<char>::empty(), false) == 0,
{
    assert(s.push(c).drop_last() =~= s);
    assert(s.push(c).last() == c);
}

} // verus!
