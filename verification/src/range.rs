//! The `Range` request header, restricted to a single byte range:
//!
//! ```text
//! Range           = "bytes=" byte-range-spec
//! byte-range-spec = [ 1*DIGIT ] "-" [ 1*DIGIT ]
//! ```

use crate::decimal::{
    decimal_text, is_digit, lemma_decimal_text, parse_decimal, push_decimal, read_decimal,
};
use crate::text::{
    find_sole_separator, lemma_split_joined, lemma_split_twice, sole_separator_at, split_pair,
    starts_with,
};
use std::str::FromStr;
use vstd::prelude::*;
use vstd::string::*;

verus! {

/// A byte range as a client asks for it.
///
/// With both bounds it is the closed range from `start` to `end`; with only
/// `start`, everything from there on; with only `end`, a suffix of the
/// resource. The two numbers are kept as written and never interpreted
/// against a resource's length.
#[derive(Clone, Copy, Debug, PartialEq, Eq, Structural)]
pub struct ByteRange {
    /// Start of the range
    pub start: Option<u64>,
    /// End of the range
    pub end: Option<u64>,
}

/// The unit and the `=` that open every `Range` value.
pub open spec fn range_prefix() -> Seq<char> {
    seq!['b', 'y', 't', 'e', 's', '=']
}

/// What one side of the `-` denotes: an empty segment is an absent bound, a
/// decimal number is that bound, and anything else denotes nothing.
pub open spec fn parse_bound(s: Seq<char>) -> Option<Option<u64>> {
    if s.len() == 0 {
        Some(None)
    } else {
        match parse_decimal(s) {
            Some(v) => Some(Some(v)),
            None => None,
        }
    }
}

/// How one side of the `-` is written: nothing for an absent bound.
pub open spec fn bound_text(b: Option<u64>) -> Seq<char> {
    match b {
        Some(v) => decimal_text(v as nat),
        None => Seq::empty(),
    }
}

impl ByteRange {
    /// With both bounds present the range does not end before it starts.
    pub open spec fn well_formed(&self) -> bool {
        self.start is Some && self.end is Some ==> self.start->0 <= self.end->0
    }

    /// The wire string of this range.
    pub open spec fn wire_text(&self) -> Seq<char> {
        range_prefix() + bound_text(self.start) + seq!['-'] + bound_text(self.end)
    }

    /// The range that a field value denotes, or `None` where it is malformed.
    ///
    /// A value is well-formed when it opens with `bytes=`, the rest holds
    /// exactly one `-`, each side of it is empty or a decimal number that
    /// fits in 64 bits, and an end, where both are given, is not below the
    /// start. In particular `bytes=-` is well-formed and has neither bound.
    pub open spec fn parse_text(s: Seq<char>) -> Option<ByteRange> {
        if !range_prefix().is_prefix_of(s) {
            None
        } else {
            match split_pair(s.skip(6), '-') {
                None => None,
                Some((first, last)) => match (parse_bound(first), parse_bound(last)) {
                    (Some(start), Some(end)) => {
                        let range = ByteRange { start, end };
                        if range.well_formed() {
                            Some(range)
                        } else {
                            None
                        }
                    },
                    _ => None,
                },
            }
        }
    }
}

/// Reads the characters of `s` from `lo` up to `hi` as one side of the `-`.
fn read_bound(s: &str, lo: usize, hi: usize) -> (r: Option<Option<u64>>)
    requires
        is_ascii(s),
        lo <= hi <= s@.len(),
    ensures
        r == parse_bound(s@.subrange(lo as int, hi as int)),
{
    if lo == hi {
        Some(None)
    } else {
        match read_decimal(s, lo, hi) {
            Some(v) => Some(Some(v)),
            None => None,
        }
    }
}

impl FromStr for ByteRange {
    type Err = ();

    /// Parses one `Range` field value.
    ///
    /// Every malformed value gives the same error: a missing `bytes=`, no
    /// `-` or more than one, a bound that is not a decimal number or does not
    /// fit in 64 bits, or an end below the start.
    fn from_str(s: &str) -> (r: Result<ByteRange, ()>)
        ensures
            r == match ByteRange::parse_text(s@) {
                Some(range) => Ok::<ByteRange, ()>(range),
                None => Err(()),
            },
            r matches Ok(range) ==> range.well_formed(),
    {
        if !s.is_ascii() {
            proof {
                if ByteRange::parse_text(s@) is Some {
                    lemma_well_formed_is_ascii(s@);
                }
            }
            return Err(());
        }
        proof {
            reveal_strlit("bytes=");
            assert("bytes="@ =~= range_prefix());
        }
        if !starts_with(s, "bytes=") {
            return Err(());
        }
        let n = s.as_bytes().len();
        proof {
            vstd::utf8::is_ascii_chars_encode_utf8(s@);
            assert(s@.skip(6) =~= s@.subrange(6, n as int));
        }
        let i = match find_sole_separator(s, 6, n, '-' as u8) {
            Some(i) => i,
            None => {
                return Err(());
            },
        };
        let start = match read_bound(s, 6, i) {
            Some(b) => b,
            None => {
                return Err(());
            },
        };
        let end = match read_bound(s, i + 1, n) {
            Some(b) => b,
            None => {
                return Err(());
            },
        };
        if let Some(first) = start {
            if let Some(last) = end {
                if last < first {
                    return Err(());
                }
            }
        }
        Ok(ByteRange { start, end })
    }
}

impl ByteRange {
    /// Appends the wire string of this range to `f`.
    pub fn fmt(&self, f: &mut String)
        ensures
            final(f)@ == old(f)@ + self.wire_text(),
    {
        proof {
            reveal_strlit("bytes=");
            reveal_strlit("-");
            assert("bytes="@ =~= range_prefix());
            assert("-"@ =~= seq!['-']);
        }
        f.append("bytes=");
        if let Some(v) = self.start {
            push_decimal(f, v);
        }
        f.append("-");
        if let Some(v) = self.end {
            push_decimal(f, v);
        }
        assert(f@ =~= old(f)@ + self.wire_text());
    }

    /// The wire string of this range.
    pub fn to_string(&self) -> (r: String)
        ensures
            r@ == self.wire_text(),
    {
        let mut out = String::new();
        self.fmt(&mut out);
        assert(out@ =~= self.wire_text());
        out
    }
}

/// A segment that denotes a bound holds no `-`.
pub proof fn lemma_bound_has_no_hyphen(s: Seq<char>)
    requires
        parse_bound(s) is Some,
    ensures
        !s.contains('-'),
{
    if s.contains('-') {
        let i = choose|i: int| 0 <= i < s.len() && s[i] == '-';
        assert(is_digit(s[i]));
    }
}

/// A written bound reads back as itself.
pub proof fn lemma_bound_text(b: Option<u64>)
    ensures
        parse_bound(bound_text(b)) == Some(b),
{
    if let Some(v) = b {
        lemma_decimal_text(v as nat);
    }
}

/// The grammar, read forwards: `bytes=`, a bound, `-` and a bound in a row
/// denote the range of the two bounds where the end is not below the start,
/// and nothing where it is.
pub proof fn lemma_joined_bounds(first: Seq<char>, last: Seq<char>)
    requires
        parse_bound(first) is Some,
        parse_bound(last) is Some,
    ensures
        ({
            let range = ByteRange { start: parse_bound(first)->0, end: parse_bound(last)->0 };
            ByteRange::parse_text(range_prefix() + first + seq!['-'] + last)
                == if range.well_formed() {
                Some(range)
            } else {
                None
            }
        }),
{
    let s = range_prefix() + first + seq!['-'] + last;
    lemma_bound_has_no_hyphen(first);
    lemma_bound_has_no_hyphen(last);
    lemma_split_joined(first, last, '-');
    assert(s.subrange(0, 6) =~= range_prefix());
    assert(s.skip(6) =~= first + seq!['-'] + last);
}

/// The grammar, read backwards: every well-formed value is `bytes=`, the
/// text of its start, `-` and the text of its end in a row. The two texts
/// are returned.
pub proof fn lemma_parsed_shape(s: Seq<char>) -> (parts: (Seq<char>, Seq<char>))
    requires
        ByteRange::parse_text(s) is Some,
    ensures
        s == range_prefix() + parts.0 + seq!['-'] + parts.1,
        parse_bound(parts.0) == Some(ByteRange::parse_text(s)->0.start),
        parse_bound(parts.1) == Some(ByteRange::parse_text(s)->0.end),
{
    let rest = s.skip(6);
    let k = choose|k: int| sole_separator_at(rest, '-', k);
    let parts = (rest.take(k), rest.skip(k + 1));
    assert(s =~= range_prefix() + parts.0 + seq!['-'] + parts.1) by {
        assert(s.subrange(0, 6) == range_prefix());
        assert(rest[k] == '-');
    }
    parts
}

/// Parsing what was written gives the range back, for every range that
/// does not end before it starts.
pub proof fn lemma_write_then_parse(range: ByteRange)
    requires
        range.well_formed(),
    ensures
        ByteRange::parse_text(range.wire_text()) == Some(range),
{
    lemma_bound_text(range.start);
    lemma_bound_text(range.end);
    lemma_joined_bounds(bound_text(range.start), bound_text(range.end));
}

/// A range written with its end below its start is malformed.
pub proof fn lemma_inverted_range_rejected(start: u64, end: u64)
    requires
        end < start,
    ensures
        ByteRange::parse_text((ByteRange { start: Some(start), end: Some(end) }).wire_text())
            is None,
{
    lemma_bound_text(Some(start));
    lemma_bound_text(Some(end));
    lemma_joined_bounds(bound_text(Some(start)), bound_text(Some(end)));
}

/// Every range that a field value denotes is well-formed.
pub proof fn lemma_parsed_is_well_formed(s: Seq<char>)
    ensures
        ByteRange::parse_text(s) matches Some(range) ==> range.well_formed(),
{
}

/// A value with a `-` at two places, as every list of several ranges has,
/// is malformed.
pub proof fn lemma_second_hyphen_rejected(s: Seq<char>, i: int, j: int)
    requires
        0 <= i < j < s.len(),
        s[i] == '-',
        s[j] == '-',
    ensures
        ByteRange::parse_text(s) is None,
{
    if range_prefix().is_prefix_of(s) {
        assert(i >= 6) by {
            if i < 6 {
                assert(s.subrange(0, 6)[i] == s[i]);
            }
        }
        let rest = s.skip(6);
        assert(rest[i - 6] == s[i]);
        assert(rest[j - 6] == s[j]);
        lemma_split_twice(rest, '-', i - 6, j - 6);
    }
}

/// Every well-formed value is made of ASCII characters alone.
pub proof fn lemma_well_formed_is_ascii(s: Seq<char>)
    requires
        ByteRange::parse_text(s) is Some,
    ensures
        vstd::utf8::is_ascii_chars(s),
{
    let (first, last) = lemma_parsed_shape(s);
    let k = 6 + first.len();
    assert forall|i: int| 0 <= i < s.len() implies '\0' <= #[trigger] s[i] <= '\u{7f}' by {
        if 6 <= i < k {
            assert(is_digit(first[i - 6]));
        } else if i > k {
            assert(is_digit(last[i - k - 1]));
        }
    }
}

} // verus!
