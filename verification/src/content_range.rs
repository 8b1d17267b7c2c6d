//! The `Content-Range` response header in bytes:
//!
//! ```text
//! Content-Range      = "bytes " content-range-resp "/" ( 1*DIGIT / "*" )
//! content-range-resp = ( 1*DIGIT "-" 1*DIGIT ) / "*"
//! ```

use crate::decimal::{
    decimal_text, is_digit, lemma_decimal_text, parse_decimal, push_decimal, read_decimal,
};
use crate::text::{
    find_sole_separator, lemma_split_joined, sole_separator_at, split_pair, starts_with,
};
use std::str::FromStr;
use vstd::prelude::*;
use vstd::string::*;

verus! {

/// What a server says of the range it delivers.
#[derive(Clone, Copy, Debug, PartialEq, Eq, Structural)]
#[allow(inconsistent_fields)]
pub enum ContentRangeSpec {
    /// Range request was satisfied
    Satisfied {
        /// First byte of the range
        first_byte: u64,
        /// Last byte of the range
        last_byte: u64,
        /// Total length of the instance, can be omitted if unknown
        instance_length: Option<u64>,
    },
    /// Range request was not satisfied
    Unsatisfied {
        /// Total length of the instance
        instance_length: u64,
    },
}

/// The unit and the space that open every `Content-Range` value.
pub open spec fn content_range_prefix() -> Seq<char> {
    seq!['b', 'y', 't', 'e', 's', ' ']
}

/// The one-character segment that stands for "unknown" or "no range".
pub open spec fn star() -> Seq<char> {
    seq!['*']
}

/// What the segment after the `/` denotes: `*` is an unknown length, a
/// decimal number is that length, and anything else denotes nothing.
pub open spec fn parse_length(s: Seq<char>) -> Option<Option<u64>> {
    if s == star() {
        Some(None)
    } else {
        match parse_decimal(s) {
            Some(v) => Some(Some(v)),
            None => None,
        }
    }
}

/// How an instance length is written: `*` where it is unknown.
pub open spec fn length_text(length: Option<u64>) -> Seq<char> {
    match length {
        Some(v) => decimal_text(v as nat),
        None => star(),
    }
}

impl ContentRangeSpec {
    /// The wire string of this value.
    pub open spec fn wire_text(&self) -> Seq<char> {
        match *self {
            ContentRangeSpec::Satisfied { first_byte, last_byte, instance_length } => {
                content_range_prefix() + decimal_text(first_byte as nat) + seq!['-']
                    + decimal_text(last_byte as nat) + seq!['/'] + length_text(instance_length)
            },
            ContentRangeSpec::Unsatisfied { instance_length } => {
                content_range_prefix() + star() + seq!['/'] + decimal_text(instance_length as nat)
            },
        }
    }

    /// What a field value denotes, or `None` where it is malformed.
    ///
    /// A value is well-formed when it opens with `bytes ` and the rest holds
    /// exactly one `/`. What follows the `/` is `*` or a decimal length. What
    /// precedes it is either `*`, which needs a length after the `/`, or two
    /// decimal numbers around exactly one `-`. Neither of the two may be
    /// left out, and the last byte may lie before the first.
    pub open spec fn parse_text(s: Seq<char>) -> Option<ContentRangeSpec> {
        if !content_range_prefix().is_prefix_of(s) {
            None
        } else {
            match split_pair(s.skip(6), '/') {
                None => None,
                Some((resp, total)) => match parse_length(total) {
                    None => None,
                    Some(instance_length) => if resp == star() {
                        match instance_length {
                            Some(length) => Some(
                                ContentRangeSpec::Unsatisfied { instance_length: length },
                            ),
                            None => None,
                        }
                    } else {
                        match split_pair(resp, '-') {
                            None => None,
                            Some((first, last)) => match (
                                parse_decimal(first),
                                parse_decimal(last),
                            ) {
                                (Some(first_byte), Some(last_byte)) => Some(
                                    ContentRangeSpec::Satisfied {
                                        first_byte,
                                        last_byte,
                                        instance_length,
                                    },
                                ),
                                _ => None,
                            },
                        }
                    },
                },
            }
        }
    }
}

/// Whether the characters of `s` from `lo` up to `hi` are a single `*`.
fn is_star(s: &str, lo: usize, hi: usize) -> (r: bool)
    requires
        is_ascii(s),
        lo <= hi <= s@.len(),
    ensures
        r == (s@.subrange(lo as int, hi as int) == star()),
{
    let ghost seg = s@.subrange(lo as int, hi as int);
    if hi - lo != 1 {
        assert(seg.len() != star().len());
        return false;
    }
    let b = s.get_ascii(lo);
    proof {
        assert(seg[0] == s@[lo as int]);
        assert('\0' <= s@[lo as int] <= '\u{7f}');
        if b == '*' as u8 {
            assert(seg =~= star());
        }
    }
    b == '*' as u8
}

impl FromStr for ContentRangeSpec {
    type Err = ();

    /// Parses one `Content-Range` field value.
    ///
    /// Every malformed value gives the same error: a missing `bytes `, no
    /// `/` or more than one, a length that is neither `*` nor a decimal
    /// number, `*` on both sides of the `/`, or a range that is not two
    /// decimal numbers around one `-`, each fitting in 64 bits.
    fn from_str(s: &str) -> (r: Result<ContentRangeSpec, ()>)
        ensures
            r == match ContentRangeSpec::parse_text(s@) {
                Some(spec) => Ok::<ContentRangeSpec, ()>(spec),
                None => Err(()),
            },
    {
        if !s.is_ascii() {
            proof {
                if ContentRangeSpec::parse_text(s@) is Some {
                    lemma_well_formed_is_ascii(s@);
                }
            }
            return Err(());
        }
        proof {
            reveal_strlit("bytes ");
            assert("bytes "@ =~= content_range_prefix());
        }
        if !starts_with(s, "bytes ") {
            return Err(());
        }
        let n = s.as_bytes().len();
        proof {
            vstd::utf8::is_ascii_chars_encode_utf8(s@);
            assert(s@.skip(6) =~= s@.subrange(6, n as int));
        }
        let slash = match find_sole_separator(s, 6, n, '/' as u8) {
            Some(i) => i,
            None => {
                return Err(());
            },
        };
        let instance_length = if is_star(s, slash + 1, n) {
            None
        } else {
            match read_decimal(s, slash + 1, n) {
                Some(v) => Some(v),
                None => {
                    return Err(());
                },
            }
        };
        if is_star(s, 6, slash) {
            return match instance_length {
                Some(length) => Ok(ContentRangeSpec::Unsatisfied { instance_length: length }),
                None => Err(()),
            };
        }
        let hyphen = match find_sole_separator(s, 6, slash, '-' as u8) {
            Some(i) => i,
            None => {
                return Err(());
            },
        };
        let first_byte = match read_decimal(s, 6, hyphen) {
            Some(v) => v,
            None => {
                return Err(());
            },
        };
        let last_byte = match read_decimal(s, hyphen + 1, slash) {
            Some(v) => v,
            None => {
                return Err(());
            },
        };
        proof {
            let resp = s@.subrange(6, slash as int);
            assert(resp.subrange(0, hyphen - 6) =~= s@.subrange(6, hyphen as int));
            assert(resp.subrange(hyphen - 6 + 1, resp.len() as int) =~= s@.subrange(
                hyphen + 1,
                slash as int,
            ));
        }
        Ok(ContentRangeSpec::Satisfied { first_byte, last_byte, instance_length })
    }
}

impl ContentRangeSpec {
    /// Appends the wire string of this value to `f`.
    pub fn fmt(&self, f: &mut String)
        ensures
            final(f)@ == old(f)@ + self.wire_text(),
    {
        proof {
            reveal_strlit("bytes ");
            reveal_strlit("bytes */");
            reveal_strlit("-");
            reveal_strlit("/");
            reveal_strlit("*");
        }
        match self {
            ContentRangeSpec::Satisfied { first_byte, last_byte, instance_length } => {
                f.append("bytes ");
                push_decimal(f, *first_byte);
                f.append("-");
                push_decimal(f, *last_byte);
                f.append("/");
                if let Some(v) = instance_length {
                    push_decimal(f, *v);
                } else {
                    f.append("*");
                }
            },
            ContentRangeSpec::Unsatisfied { instance_length } => {
                f.append("bytes */");
                push_decimal(f, *instance_length);
            },
        }
        assert(f@ =~= old(f)@ + self.wire_text());
    }

    /// The wire string of this value.
    pub fn to_string(&self) -> (r: String)
        ensures
            r@ == self.wire_text(),
    {
        let mut out = String::new();
        self.fmt(&mut out);
        assert(out@ =~= self.wire_text());
        out
    }
}

/// A decimal number holds none of `-`, `/` and `*`.
pub proof fn lemma_number_has_no_mark(s: Seq<char>)
    requires
        parse_decimal(s) is Some,
    ensures
        !s.contains('-'),
        !s.contains('/'),
        !s.contains('*'),
{
    if s.contains('-') {
        let i = choose|i: int| 0 <= i < s.len() && s[i] == '-';
        assert(is_digit(s[i]));
    }
    if s.contains('/') {
        let i = choose|i: int| 0 <= i < s.len() && s[i] == '/';
        assert(is_digit(s[i]));
    }
    if s.contains('*') {
        let i = choose|i: int| 0 <= i < s.len() && s[i] == '*';
        assert(is_digit(s[i]));
    }
}

/// A segment that denotes a length holds no `/`.
pub proof fn lemma_length_has_no_slash(s: Seq<char>)
    requires
        parse_length(s) is Some,
    ensures
        !s.contains('/'),
{
    if s == star() {
        if s.contains('/') {
            let i = choose|i: int| 0 <= i < s.len() && s[i] == '/';
            assert(s[i] == '*');
        }
    } else {
        lemma_number_has_no_mark(s);
    }
}

/// A written length reads back as itself.
pub proof fn lemma_length_text(length: Option<u64>)
    ensures
        parse_length(length_text(length)) == Some(length),
{
    if let Some(v) = length {
        lemma_decimal_text(v as nat);
        lemma_number_has_no_mark(decimal_text(v as nat));
        assert(star()[0] == '*');
    }
}

/// The grammar of a satisfied range, read forwards: `bytes `, a number, `-`,
/// a number, `/` and a length in a row denote just these three, in whatever
/// order the two numbers stand.
pub proof fn lemma_joined_satisfied(first: Seq<char>, last: Seq<char>, total: Seq<char>)
    requires
        parse_decimal(first) is Some,
        parse_decimal(last) is Some,
        parse_length(total) is Some,
    ensures
        ContentRangeSpec::parse_text(
            content_range_prefix() + first + seq!['-'] + last + seq!['/'] + total,
        ) == Some(
            ContentRangeSpec::Satisfied {
                first_byte: parse_decimal(first)->0,
                last_byte: parse_decimal(last)->0,
                instance_length: parse_length(total)->0,
            },
        ),
{
    let resp = first + seq!['-'] + last;
    let s = content_range_prefix() + first + seq!['-'] + last + seq!['/'] + total;
    lemma_number_has_no_mark(first);
    lemma_number_has_no_mark(last);
    lemma_length_has_no_slash(total);
    assert(!resp.contains('/')) by {
        if resp.contains('/') {
            let i = choose|i: int| 0 <= i < resp.len() && resp[i] == '/';
            if i < first.len() {
                assert(first[i] == '/');
            } else if i > first.len() {
                assert(last[i - first.len() - 1] == '/');
            }
        }
    }
    assert(resp.len() >= 3);
    assert(s.subrange(0, 6) =~= content_range_prefix());
    assert(s.skip(6) =~= resp + seq!['/'] + total);
    lemma_split_joined(resp, total, '/');
    lemma_split_joined(first, last, '-');
}

/// The grammar of an unsatisfied range, read forwards: `bytes */` and a
/// length denote that length where it is a number, and nothing where it is
/// `*`.
pub proof fn lemma_joined_unsatisfied(total: Seq<char>)
    requires
        parse_length(total) is Some,
    ensures
        ContentRangeSpec::parse_text(content_range_prefix() + star() + seq!['/'] + total)
            == match parse_length(total)->0 {
            Some(length) => Some(ContentRangeSpec::Unsatisfied { instance_length: length }),
            None => None,
        },
{
    let s = content_range_prefix() + star() + seq!['/'] + total;
    lemma_length_has_no_slash(star());
    lemma_length_has_no_slash(total);
    assert(s.subrange(0, 6) =~= content_range_prefix());
    assert(s.skip(6) =~= star() + seq!['/'] + total);
    lemma_split_joined(star(), total, '/');
}

/// The grammar of a satisfied range, read backwards: a value that denotes
/// one is `bytes `, the text of its first byte, `-`, the text of its last
/// byte, `/` and the text of its length in a row. The three texts are
/// returned.
pub proof fn lemma_satisfied_shape(s: Seq<char>) -> (parts: (Seq<char>, Seq<char>, Seq<char>))
    requires
        ContentRangeSpec::parse_text(s) matches Some(spec) && spec is Satisfied,
    ensures
        s == content_range_prefix() + parts.0 + seq!['-'] + parts.1 + seq!['/'] + parts.2,
        ContentRangeSpec::parse_text(s) == Some(
            ContentRangeSpec::Satisfied {
                first_byte: parse_decimal(parts.0)->0,
                last_byte: parse_decimal(parts.1)->0,
                instance_length: parse_length(parts.2)->0,
            },
        ),
        parse_decimal(parts.0) is Some,
        parse_decimal(parts.1) is Some,
        parse_length(parts.2) is Some,
{
    let rest = s.skip(6);
    let k = choose|k: int| sole_separator_at(rest, '/', k);
    let resp = rest.take(k);
    let j = choose|j: int| sole_separator_at(resp, '-', j);
    let parts = (resp.take(j), resp.skip(j + 1), rest.skip(k + 1));
    assert(s =~= content_range_prefix() + parts.0 + seq!['-'] + parts.1 + seq!['/'] + parts.2)
        by {
        assert(s.subrange(0, 6) == content_range_prefix());
        assert(rest[k] == '/');
        assert(resp[j] == '-');
    }
    parts
}

/// The grammar of an unsatisfied range, read backwards: a value that
/// denotes one is `bytes */` and the text of its length, which is returned.
pub proof fn lemma_unsatisfied_shape(s: Seq<char>) -> (total: Seq<char>)
    requires
        ContentRangeSpec::parse_text(s) matches Some(spec) && spec is Unsatisfied,
    ensures
        s == content_range_prefix() + star() + seq!['/'] + total,
        ContentRangeSpec::parse_text(s) == Some(
            ContentRangeSpec::Unsatisfied { instance_length: parse_decimal(total)->0 },
        ),
        parse_decimal(total) is Some,
{
    let rest = s.skip(6);
    let k = choose|k: int| sole_separator_at(rest, '/', k);
    let total = rest.skip(k + 1);
    assert(s =~= content_range_prefix() + star() + seq!['/'] + total) by {
        assert(s.subrange(0, 6) == content_range_prefix());
        assert(rest[k] == '/');
        assert(rest.take(k) == star());
    }
    total
}

/// Parsing what was written gives the value back, for every value.
pub proof fn lemma_write_then_parse(spec: ContentRangeSpec)
    ensures
        ContentRangeSpec::parse_text(spec.wire_text()) == Some(spec),
{
    match spec {
        ContentRangeSpec::Satisfied { first_byte, last_byte, instance_length } => {
            lemma_decimal_text(first_byte as nat);
            lemma_decimal_text(last_byte as nat);
            lemma_length_text(instance_length);
            lemma_joined_satisfied(
                decimal_text(first_byte as nat),
                decimal_text(last_byte as nat),
                length_text(instance_length),
            );
        },
        ContentRangeSpec::Unsatisfied { instance_length } => {
            lemma_length_text(Some(instance_length));
            lemma_joined_unsatisfied(decimal_text(instance_length as nat));
        },
    }
}

/// A range whose last byte lies before its first is accepted as written.
pub proof fn lemma_inverted_range_accepted(
    first_byte: u64,
    last_byte: u64,
    instance_length: Option<u64>,
)
    requires
        last_byte < first_byte,
    ensures
        ContentRangeSpec::parse_text(
            (ContentRangeSpec::Satisfied { first_byte, last_byte, instance_length }).wire_text(),
        ) == Some(ContentRangeSpec::Satisfied { first_byte, last_byte, instance_length }),
{
    lemma_write_then_parse(ContentRangeSpec::Satisfied { first_byte, last_byte, instance_length });
}

/// An unknown length is accepted after a range and refused after `*`.
pub proof fn lemma_unknown_length(first: Seq<char>, last: Seq<char>)
    requires
        parse_decimal(first) is Some,
        parse_decimal(last) is Some,
    ensures
        ContentRangeSpec::parse_text(
            content_range_prefix() + first + seq!['-'] + last + seq!['/'] + star(),
        ) == Some(
            ContentRangeSpec::Satisfied {
                first_byte: parse_decimal(first)->0,
                last_byte: parse_decimal(last)->0,
                instance_length: None,
            },
        ),
        ContentRangeSpec::parse_text(content_range_prefix() + star() + seq!['/'] + star())
            is None,
{
    lemma_joined_satisfied(first, last, star());
    lemma_joined_unsatisfied(star());
}

/// Every well-formed value is made of ASCII characters alone.
pub proof fn lemma_well_formed_is_ascii(s: Seq<char>)
    requires
        ContentRangeSpec::parse_text(s) is Some,
    ensures
        vstd::utf8::is_ascii_chars(s),
{
    if ContentRangeSpec::parse_text(s)->0 is Satisfied {
        let (first, last, total) = lemma_satisfied_shape(s);
        let j = 6 + first.len();
        let k = j + 1 + last.len();
        assert forall|i: int| 0 <= i < s.len() implies '\0' <= #[trigger] s[i] <= '\u{7f}' by {
            if 6 <= i < j {
                assert(is_digit(first[i - 6]));
            } else if j < i < k {
                assert(is_digit(last[i - j - 1]));
            } else if i > k {
                if total != star() {
                    assert(is_digit(total[i - k - 1]));
                }
            }
        }
    } else {
        let total = lemma_unsatisfied_shape(s);
        assert forall|i: int| 0 <= i < s.len() implies '\0' <= #[trigger] s[i] <= '\u{7f}' by {
            if i > 7 {
                assert(is_digit(total[i - 8]));
            }
        }
    }
}

} // verus!
