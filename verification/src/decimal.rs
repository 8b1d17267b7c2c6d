//! Unsigned decimal numbers as they appear on the wire: one or more ASCII
//! digits, most significant first, without sign or separators.

use vstd::prelude::*;
use vstd::string::*;

verus! {

/// Whether `c` is one of the ten ASCII digits.
pub open spec fn is_digit(c: char) -> bool {
    '0' <= c && c <= '9'
}

/// The number a digit stands for; zero for any other character.
pub open spec fn digit_value(c: char) -> nat {
    if is_digit(c) {
        (c as int - '0' as int) as nat
    } else {
        0
    }
}

/// The digit that writes `d`, for `d` below ten.
pub open spec fn digit_char(d: nat) -> char
    recommends
        d < 10,
{
    (d + '0' as nat) as char
}

/// Whether every character of `s` is a digit.
pub open spec fn all_digits(s: Seq<char>) -> bool {
    forall|i: int| 0 <= i < s.len() ==> is_digit(#[trigger] s[i])
}

/// The number that the digits of `s` write in base ten; zero for the empty
/// sequence.
pub open spec fn decimal_value(s: Seq<char>) -> nat
    decreases s.len(),
{
    if s.len() == 0 {
        0
    } else {
        decimal_value(s.drop_last()) * 10 + digit_value(s.last())
    }
}

/// The shortest decimal text of `n`: no leading zeros, and `"0"` for zero.
pub open spec fn decimal_text(n: nat) -> Seq<char>
    decreases n,
{
    if n < 10 {
        seq![digit_char(n)]
    } else {
        decimal_text(n / 10).push(digit_char(n % 10))
    }
}

/// What a segment denotes as a 64-bit number: `Some` exactly when it is a
/// non-empty run of digits whose value fits.
pub open spec fn parse_decimal(s: Seq<char>) -> Option<u64> {
    if s.len() > 0 && all_digits(s) && decimal_value(s) <= u64::MAX {
        Some(decimal_value(s) as u64)
    } else {
        None
    }
}

/// A digit character and its value determine each other.
pub proof fn lemma_digit_char_value(d: nat)
    requires
        d < 10,
    ensures
        is_digit(digit_char(d)),
        digit_value(digit_char(d)) == d,
{
}

/// The value of a prefix never exceeds the value of the whole.
pub proof fn lemma_prefix_value(s: Seq<char>, k: int)
    requires
        0 <= k <= s.len(),
    ensures
        decimal_value(s.take(k)) <= decimal_value(s),
    decreases s.len(),
{
    if k == s.len() {
        assert(s.take(k) =~= s);
    } else {
        lemma_prefix_value(s.drop_last(), k);
        assert(s.drop_last().take(k) =~= s.take(k));
    }
}

/// The text of a number is a non-empty run of digits that writes the number.
pub proof fn lemma_decimal_text(n: nat)
    ensures
        decimal_text(n).len() > 0,
        all_digits(decimal_text(n)),
        decimal_value(decimal_text(n)) == n,
    decreases n,
{
    if n < 10 {
        lemma_digit_char_value(n);
        let t = decimal_text(n);
        assert(t.drop_last() =~= Seq::<char>::empty());
        assert(decimal_value(t.drop_last()) == 0);
    } else {
        lemma_decimal_text(n / 10);
        lemma_digit_char_value(n % 10);
        let t = decimal_text(n);
        assert(t.drop_last() =~= decimal_text(n / 10));
    }
}

/// Reading back the text of a 64-bit number gives the number.
pub proof fn lemma_parse_decimal_text(n: u64)
    ensures
        parse_decimal(decimal_text(n as nat)) == Some(n),
{
    lemma_decimal_text(n as nat);
}

/// Reads the characters of `s` from `lo` up to `hi` as one decimal number.
pub fn read_decimal(s: &str, lo: usize, hi: usize) -> (r: Option<u64>)
    requires
        is_ascii(s),
        lo <= hi <= s@.len(),
    ensures
        r == parse_decimal(s@.subrange(lo as int, hi as int)),
{
    let ghost seg = s@.subrange(lo as int, hi as int);
    if lo == hi {
        return None;
    }
    let mut acc: u64 = 0;
    let mut i: usize = lo;
    while i < hi
        invariant
            is_ascii(s),
            lo <= i <= hi <= s@.len(),
            seg == s@.subrange(lo as int, hi as int),
            all_digits(seg.take(i - lo)),
            acc == decimal_value(seg.take(i - lo)),
        decreases hi - i,
    {
        let b: u8 = s.get_ascii(i);
        let ghost next = seg.take(i - lo + 1);
        proof {
            assert(seg[i - lo] == s@[i as int]);
            assert(next.drop_last() =~= seg.take(i - lo));
            assert(next.last() == s@[i as int]);
        }
        if b < '0' as u8 || b > '9' as u8 {
            assert(!is_digit(seg[i - lo]));
            return None;
        }
        let d: u64 = (b - '0' as u8) as u64;
        assert(d == digit_value(s@[i as int]));
        let shifted: u64 = match acc.checked_mul(10) {
            Some(v) => v,
            None => {
                proof {
                    lemma_prefix_value(seg, i - lo + 1);
                }
                return None;
            },
        };
        acc = match shifted.checked_add(d) {
            Some(v) => v,
            None => {
                proof {
                    lemma_prefix_value(seg, i - lo + 1);
                }
                return None;
            },
        };
        i = i + 1;
    }
    assert(seg.take(i - lo) =~= seg);
    Some(acc)
}

/// The one-character text of a digit.
fn digit_str(d: u64) -> (r: &'static str)
    requires
        d < 10,
    ensures
        r@ == seq![digit_char(d as nat)],
{
    proof {
        reveal_strlit("0");
        reveal_strlit("1");
        reveal_strlit("2");
        reveal_strlit("3");
        reveal_strlit("4");
        reveal_strlit("5");
        reveal_strlit("6");
        reveal_strlit("7");
        reveal_strlit("8");
        reveal_strlit("9");
    }
    let r = match d {
        0 => "0",
        1 => "1",
        2 => "2",
        3 => "3",
        4 => "4",
        5 => "5",
        6 => "6",
        7 => "7",
        8 => "8",
        _ => "9",
    };
    assert(r@ =~= seq![digit_char(d as nat)]);
    r
}

/// Appends the decimal text of `n` to `out`.
pub fn push_decimal(out: &mut String, n: u64)
    ensures
        final(out)@ == old(out)@ + decimal_text(n as nat),
    decreases n,
{
    if n >= 10 {
        push_decimal(out, n / 10);
    }
    out.append(digit_str(n % 10));
    assert(out@ =~= old(out)@ + decimal_text(n as nat));
}

} // verus!
