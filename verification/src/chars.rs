//! Character-level helpers for the text the library handles: equality of
//! strings, whitespace trimming, byte-order-mark stripping, and the file
//! extension check. Trimming covers the ASCII whitespace characters.

use vstd::prelude::*;

verus! {

/// The whitespace characters the library trims around identifiers and fields.
pub open spec fn is_space(c: char) -> bool {
    c == ' ' || c == '\t' || c == '\n' || c == '\r' || c == '\u{000B}' || c == '\u{000C}'
}

/// `s` without its leading whitespace.
pub open spec fn trim_front(s: Seq<char>) -> Seq<char>
    decreases s.len(),
{
    if s.len() > 0 && is_space(s[0]) {
        trim_front(s.drop_first())
    } else {
        s
    }
}

/// `s` without its trailing whitespace.
pub open spec fn trim_back(s: Seq<char>) -> Seq<char>
    decreases s.len(),
{
    if s.len() > 0 && is_space(s[s.len() - 1]) {
        trim_back(s.drop_last())
    } else {
        s
    }
}

/// `s` without leading or trailing whitespace.
pub open spec fn trimmed(s: Seq<char>) -> Seq<char> {
    trim_back(trim_front(s))
}

/// `s` without any leading byte-order marks.
pub open spec fn strip_boms(s: Seq<char>) -> Seq<char>
    decreases s.len(),
{
    if s.len() > 0 && s[0] == '\u{feff}' {
        strip_boms(s.drop_first())
    } else {
        s
    }
}

/// How a header field is normalized before comparison: leading byte-order
/// marks stripped, then whitespace trimmed on both sides.
pub open spec fn normalized(s: Seq<char>) -> Seq<char> {
    trimmed(strip_boms(s))
}

fn is_space_char(c: char) -> (r: bool)
    ensures
        r == is_space(c),
{
    c == ' ' || c == '\t' || c == '\n' || c == '\r' || c == '\u{000B}' || c == '\u{000C}'
}

/// Character-for-character string equality.
pub fn str_eq(a: &str, b: &str) -> (r: bool)
    ensures
        r == (a@ == b@),
{
    let an = a.unicode_len();
    let bn = b.unicode_len();
    if an != bn {
        return false;
    }
    let mut i: usize = 0;
    while i < an
        invariant
            i <= an,
            an == a@.len(),
            an == b@.len(),
            forall|k: int| 0 <= k < i ==> a@[k] == b@[k],
        decreases an - i,
    {
        if a.get_char(i) != b.get_char(i) {
            return false;
        }
        i = i + 1;
    }
    proof {
        assert(a@ =~= b@);
    }
    true
}

/// The whitespace-trimmed copy of `s`.
pub fn trim_str(s: &str) -> (r: String)
    ensures
        r@ == trimmed(s@),
{
    let n = s.unicode_len();
    proof {
        assert(s@.skip(0) =~= s@);
    }
    let mut start: usize = 0;
    while start < n && is_space_char(s.get_char(start))
        invariant
            start <= n,
            n == s@.len(),
            trim_front(s@) == trim_front(s@.skip(start as int)),
        decreases n - start,
    {
        proof {
            let x = s@.skip(start as int);
            assert(x.len() > 0 && is_space(x[0]));
            assert(x.drop_first() =~= s@.skip(start as int + 1));
        }
        start = start + 1;
    }
    proof {
        let x = s@.skip(start as int);
        if start < n {
            assert(!is_space(x[0]));
        }
        assert(trim_front(s@) == x);
        assert(x =~= s@.subrange(start as int, n as int));
    }
    let mut end: usize = n;
    while end > start && is_space_char(s.get_char(end - 1))
        invariant
            start <= end <= n,
            n == s@.len(),
            trim_front(s@) == s@.subrange(start as int, n as int),
            trim_back(s@.subrange(start as int, n as int)) == trim_back(
                s@.subrange(start as int, end as int),
            ),
        decreases end,
    {
        proof {
            let y = s@.subrange(start as int, end as int);
            assert(y.len() > 0 && is_space(y[y.len() - 1]));
            assert(y.drop_last() =~= s@.subrange(start as int, end as int - 1));
        }
        end = end - 1;
    }
    proof {
        let y = s@.subrange(start as int, end as int);
        if end > start {
            assert(!is_space(y[y.len() - 1]));
        }
        assert(trimmed(s@) == y);
    }
    let t = s.substring_char(start, end);
    t.to_owned()
}

/// True when the trimmed form of `s` is empty.
pub fn trimmed_is_empty(s: &str) -> (r: bool)
    ensures
        r == (trimmed(s@).len() == 0),
{
    let t = trim_str(s);
    t.as_str().is_empty()
}

/// The copy of `s` with leading byte-order marks removed.
pub fn strip_boms_str(s: &str) -> (r: String)
    ensures
        r@ == strip_boms(s@),
{
    let n = s.unicode_len();
    proof {
        assert(s@.skip(0) =~= s@);
    }
    let mut start: usize = 0;
    while start < n && s.get_char(start) == '\u{feff}'
        invariant
            start <= n,
            n == s@.len(),
            strip_boms(s@) == strip_boms(s@.skip(start as int)),
        decreases n - start,
    {
        proof {
            let x = s@.skip(start as int);
            assert(x.len() > 0 && x[0] == '\u{feff}');
            assert(x.drop_first() =~= s@.skip(start as int + 1));
        }
        start = start + 1;
    }
    proof {
        let x = s@.skip(start as int);
        if start < n {
            assert(x[0] != '\u{feff}');
        }
        assert(strip_boms(s@) == x);
    }
    let t = s.substring_char(start, n);
    proof {
        assert(s@.subrange(start as int, n as int) =~= s@.skip(start as int));
    }
    t.to_owned()
}

/// The normalized form of a header field: byte-order marks stripped, then
/// trimmed.
pub fn normalize_field(s: &str) -> (r: String)
    ensures
        r@ == normalized(s@),
{
    let stripped = strip_boms_str(s);
    trim_str(stripped.as_str())
}

/// The file name ends in `.csv`, compared without regard to letter case.
pub open spec fn has_csv_extension(s: Seq<char>) -> bool {
    &&& s.len() >= 4
    &&& s[s.len() - 4] == '.'
    &&& (s[s.len() - 3] == 'c' || s[s.len() - 3] == 'C')
    &&& (s[s.len() - 2] == 's' || s[s.len() - 2] == 'S')
    &&& (s[s.len() - 1] == 'v' || s[s.len() - 1] == 'V')
}

pub fn ends_with_csv(s: &str) -> (r: bool)
    ensures
        r == has_csv_extension(s@),
{
    let n = s.unicode_len();
    if n < 4 {
        return false;
    }
    let dot = s.get_char(n - 4);
    let c1 = s.get_char(n - 3);
    let c2 = s.get_char(n - 2);
    let c3 = s.get_char(n - 1);
    dot == '.' && (c1 == 'c' || c1 == 'C') && (c2 == 's' || c2 == 'S') && (c3 == 'v' || c3 == 'V')
}

} // verus!
