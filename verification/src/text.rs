//! Cutting a field value at a separator that must occur exactly once, and
//! the scanning primitives that do so on ASCII text.

use vstd::prelude::*;
use vstd::string::*;

verus! {

/// Whether `sep` stands at position `i` of `s` and nowhere else in `s`.
pub open spec fn sole_separator_at(s: Seq<char>, sep: char, i: int) -> bool {
    &&& 0 <= i < s.len()
    &&& s[i] == sep
    &&& forall|j: int| 0 <= j < s.len() && j != i ==> (#[trigger] s[j]) != sep
}

/// The two segments on either side of `sep`, when `sep` occurs in `s`
/// exactly once; `None` when it is absent or occurs more often.
///
/// Splitting at every occurrence yields one segment more than there are
/// occurrences, so this is `Some` exactly when such a split has two segments.
pub open spec fn split_pair(s: Seq<char>, sep: char) -> Option<(Seq<char>, Seq<char>)> {
    if exists|i: int| sole_separator_at(s, sep, i) {
        let i = choose|i: int| sole_separator_at(s, sep, i);
        Some((s.take(i), s.skip(i + 1)))
    } else {
        None
    }
}

/// A sole separator is found where it stands.
pub proof fn lemma_split_at(s: Seq<char>, sep: char, i: int)
    requires
        sole_separator_at(s, sep, i),
    ensures
        split_pair(s, sep) == Some((s.take(i), s.skip(i + 1))),
{
    let k = choose|k: int| sole_separator_at(s, sep, k);
    assert(k == i) by {
        if k != i {
            assert(s[k] != sep);
        }
    }
}

/// Two segments free of `sep`, joined by it, split back into themselves.
pub proof fn lemma_split_joined(a: Seq<char>, b: Seq<char>, sep: char)
    requires
        !a.contains(sep),
        !b.contains(sep),
    ensures
        split_pair(a + seq![sep] + b, sep) == Some((a, b)),
{
    let s = a + seq![sep] + b;
    let i = a.len() as int;
    assert forall|j: int| 0 <= j < s.len() && j != i implies (#[trigger] s[j]) != sep by {
        if j < i {
            assert(s[j] == a[j]);
        } else {
            assert(s[j] == b[j - i - 1]);
        }
    }
    assert(sole_separator_at(s, sep, i));
    lemma_split_at(s, sep, i);
    assert(s.take(i) =~= a);
    assert(s.skip(i + 1) =~= b);
}

/// Text with `sep` at two places does not split in two.
pub proof fn lemma_split_twice(s: Seq<char>, sep: char, i: int, j: int)
    requires
        0 <= i < j < s.len(),
        s[i] == sep,
        s[j] == sep,
    ensures
        split_pair(s, sep) is None,
{
    if exists|k: int| sole_separator_at(s, sep, k) {
        let k = choose|k: int| sole_separator_at(s, sep, k);
        if k == i {
            assert(s[j] != sep);
        } else {
            assert(s[i] != sep);
        }
    }
}

/// The first position from `lo` up to `hi` that holds `sep`, or `hi` when
/// there is none.
pub(crate) fn find_byte(s: &str, lo: usize, hi: usize, sep: u8) -> (r: usize)
    requires
        is_ascii(s),
        lo <= hi <= s@.len(),
    ensures
        lo <= r <= hi,
        forall|j: int| lo <= j < r ==> (#[trigger] s@[j]) as u8 != sep,
        r < hi ==> s@[r as int] as u8 == sep,
{
    let mut i: usize = lo;
    while i < hi
        invariant
            is_ascii(s),
            lo <= i <= hi <= s@.len(),
            forall|j: int| lo <= j < i ==> (#[trigger] s@[j]) as u8 != sep,
        decreases hi - i,
    {
        if s.get_ascii(i) == sep {
            return i;
        }
        i = i + 1;
    }
    i
}

/// Where the one `sep` between `lo` and `hi` stands, if there is exactly one.
pub(crate) fn find_sole_separator(s: &str, lo: usize, hi: usize, sep: u8) -> (r: Option<usize>)
    requires
        is_ascii(s),
        lo <= hi <= s@.len(),
        sep < 128,
    ensures
        match r {
            Some(i) => lo <= i < hi && split_pair(s@.subrange(lo as int, hi as int), sep as char)
                == Some((s@.subrange(lo as int, i as int), s@.subrange(i + 1, hi as int))),
            None => split_pair(s@.subrange(lo as int, hi as int), sep as char) is None,
        },
{
    let ghost seg = s@.subrange(lo as int, hi as int);
    let ghost c = sep as char;
    proof {
        assert forall|j: int| lo <= j < hi implies ((#[trigger] s@[j]) == c <==> s@[j] as u8
            == sep) by {
            assert('\0' <= s@[j] <= '\u{7f}');
        }
    }
    let i = find_byte(s, lo, hi, sep);
    if i == hi {
        proof {
            if exists|k: int| sole_separator_at(seg, c, k) {
                let k = choose|k: int| sole_separator_at(seg, c, k);
                assert(seg[k] == s@[lo + k]);
            }
        }
        return None;
    }
    let j = find_byte(s, i + 1, hi, sep);
    if j < hi {
        proof {
            assert(seg[i - lo] == s@[i as int]);
            assert(seg[j - lo] == s@[j as int]);
            lemma_split_twice(seg, c, i - lo, j - lo);
        }
        return None;
    }
    proof {
        assert(seg[i - lo] == s@[i as int]);
        assert forall|k: int| 0 <= k < seg.len() && k != i - lo implies (#[trigger] seg[k])
            != c by {
            assert(seg[k] == s@[lo + k]);
        }
        lemma_split_at(seg, c, i - lo);
        assert(seg.take(i - lo) =~= s@.subrange(lo as int, i as int));
        assert(seg.skip(i - lo + 1) =~= s@.subrange(i + 1, hi as int));
    }
    Some(i)
}

/// Whether `s` begins with `prefix`.
pub(crate) fn starts_with(s: &str, prefix: &str) -> (r: bool)
    requires
        is_ascii(s),
        is_ascii(prefix),
    ensures
        r == prefix@.is_prefix_of(s@),
{
    proof {
        vstd::utf8::is_ascii_chars_encode_utf8(s@);
        vstd::utf8::is_ascii_chars_encode_utf8(prefix@);
    }
    let n = prefix.as_bytes().len();
    if s.as_bytes().len() < n {
        return false;
    }
    let mut i: usize = 0;
    while i < n
        invariant
            is_ascii(s),
            is_ascii(prefix),
            n == prefix@.len(),
            n <= s@.len(),
            i <= n,
            forall|j: int| 0 <= j < i ==> s@[j] == prefix@[j],
        decreases n - i,
    {
        if s.get_ascii(i) != prefix.get_ascii(i) {
            assert(s@[i as int] != prefix@[i as int]);
            assert(s@.subrange(0, n as int)[i as int] == s@[i as int]);
            return false;
        }
        assert('\0' <= s@[i as int] <= '\u{7f}');
        assert('\0' <= prefix@[i as int] <= '\u{7f}');
        i = i + 1;
    }
    assert(prefix@ =~= s@.subrange(0, n as int));
    true
}

} // verus!
