//! Character-level helpers on strings: equality, fragment extraction and
//! decimal index parsing, each proved against a direct specification over
//! `Seq<char>`.

use vstd::prelude::*;
use vstd::string::StrSliceExecFns;

verus! {

/// Compares two strings character by character.
pub fn str_eq(a: &str, b: &str) -> (r: bool)
    ensures
        r == (a@ == b@),
{
    let la = a.unicode_len();
    let lb = b.unicode_len();
    if la != lb {
        return false;
    }
    let mut i: usize = 0;
    while i < la
        invariant
            la == a@.len(),
            lb == b@.len(),
            la == lb,
            i <= la,
            forall|j: int| 0 <= j < i ==> a@[j] == b@[j],
        decreases la - i,
    {
        if a.get_char(i) != b.get_char(i) {
            return false;
        }
        i += 1;
    }
    proof {
        assert(a@ =~= b@);
    }
    true
}

/// The position of the first occurrence of `c` in `s` at or after `from`,
/// or the length of `s` if there is none.
pub open spec fn spec_find_char(s: Seq<char>, from: int, c: char) -> int
    decreases s.len() - from,
{
    if from < 0 || from >= s.len() {
        s.len() as int
    } else if s[from] == c {
        from
    } else {
        spec_find_char(s, from + 1, c)
    }
}

pub open spec fn first_hash(s: Seq<char>) -> int {
    spec_find_char(s, 0, '#')
}

/// The document part of a location: everything before the first `#`.
pub open spec fn spec_doc_part(s: Seq<char>) -> Seq<char> {
    s.subrange(0, first_hash(s))
}

/// The fragment of a location: everything after the first `#`, or empty.
pub open spec fn spec_fragment(s: Seq<char>) -> Seq<char> {
    if first_hash(s) == s.len() {
        Seq::empty()
    } else {
        s.subrange(first_hash(s) + 1, s.len() as int)
    }
}

/// The found position is past `from`, within bounds, holds `c`, and nothing
/// before it at or after `from` does.
pub proof fn lemma_find_char_bounds(s: Seq<char>, from: int, c: char)
    requires
        0 <= from <= s.len(),
    ensures
        from <= spec_find_char(s, from, c) <= s.len(),
        spec_find_char(s, from, c) < s.len() ==> s[spec_find_char(s, from, c)] == c,
        forall|j: int| from <= j < spec_find_char(s, from, c) ==> s[j] != c,
    decreases s.len() - from,
{
    if from < s.len() && s[from] != c {
        lemma_find_char_bounds(s, from + 1, c);
    }
}

/// Finds the first occurrence of `c` in `s` at or after `from` as a runtime
/// index, or `s`'s length if there is none.
pub fn find_char_from(s: &str, from: usize, c: char) -> (r: usize)
    requires
        from <= s@.len(),
    ensures
        r == spec_find_char(s@, from as int, c),
        from <= r <= s@.len(),
        r < s@.len() ==> s@[r as int] == c,
        forall|j: int| from <= j < r ==> s@[j] != c,
{
    proof {
        lemma_find_char_bounds(s@, from as int, c);
    }
    let n = s.unicode_len();
    let mut i: usize = from;
    while i < n
        invariant
            n == s@.len(),
            from <= i <= n,
            forall|j: int| from <= j < i ==> s@[j] != c,
            spec_find_char(s@, from as int, c) <= n,
            i <= spec_find_char(s@, from as int, c),
            spec_find_char(s@, from as int, c) < n ==> s@[spec_find_char(
                s@,
                from as int,
                c,
            )] == c,
            forall|j: int|
                from <= j < spec_find_char(s@, from as int, c) ==> s@[j] != c,
        decreases n - i,
    {
        if s.get_char(i) == c {
            proof {
                assert(spec_find_char(s@, from as int, c) <= i);
            }
            return i;
        }
        proof {
            if spec_find_char(s@, from as int, c) == i {
                assert(s@[i as int] == c);
            }
        }
        i += 1;
    }
    n
}

/// Extracts the fragment of a location string: everything after the first
/// `#`, or the empty string when there is no `#`.
pub fn fragment_of(s: &str) -> (r: String)
    ensures
        r@ == spec_fragment(s@),
{
    let n = s.unicode_len();
    let h = find_char_from(s, 0, '#');
    if h == n {
        let empty = String::new();
        proof {
            assert(empty@ =~= spec_fragment(s@));
        }
        empty
    } else {
        let sub = s.substring_char(h + 1, n);
        sub.to_owned()
    }
}

/// The numeric value of a sequence of decimal digits, or `None` if `s` is
/// empty or holds a non-digit.
pub open spec fn spec_parse_index(s: Seq<char>) -> Option<int>
    decreases s.len(),
{
    if s.len() == 0 {
        None
    } else if !('0' <= s.last() && s.last() <= '9') {
        None
    } else if s.len() == 1 {
        Some(s.last() as int - '0' as int)
    } else {
        match spec_parse_index(s.drop_last()) {
            None => None,
            Some(v) => Some(v * 10 + (s.last() as int - '0' as int)),
        }
    }
}

proof fn lemma_parse_index_nonneg(s: Seq<char>)
    ensures
        match spec_parse_index(s) {
            Some(v) => v >= 0,
            None => true,
        },
    decreases s.len(),
{
    if s.len() > 1 {
        lemma_parse_index_nonneg(s.drop_last());
    }
}

/// Parses a string of decimal digits as an index, rejecting empty strings,
/// non-digits and values that do not fit the platform's index type.
pub fn parse_index(s: &str) -> (r: Option<usize>)
    ensures
        match r {
            Some(v) => spec_parse_index(s@) == Some(v as int),
            None => spec_parse_index(s@) is None || (match spec_parse_index(s@) {
                Some(v) => v > usize::MAX,
                None => false,
            }),
        },
{
    let n = s.unicode_len();
    if n == 0 {
        return None;
    }
    let mut i: usize = 0;
    let mut acc: usize = 0;
    while i < n
        invariant
            n == s@.len(),
            0 < n,
            0 <= i <= n,
            i == 0 ==> acc == 0,
            spec_parse_index(s@.subrange(0, i as int)) == if i == 0 {
                None::<int>
            } else {
                Some(acc as int)
            },
        decreases n - i,
    {
        let c = s.get_char(i);
        if !('0' <= c && c <= '9') {
            proof {
                lemma_parse_prefix_bad(s@, i as int);
            }
            return None;
        }
        let d: usize = (c as u32 as usize) - ('0' as u32 as usize);
        proof {
            assert(s@.subrange(0, i + 1).drop_last() =~= s@.subrange(0, i as int));
            assert(s@.subrange(0, i + 1).last() == s@[i as int]);
        }
        if acc > (usize::MAX - d) / 10 {
            proof {
                let q = ((usize::MAX - d) / 10) as int;
                vstd::arithmetic::div_mod::lemma_fundamental_div_mod(
                    (usize::MAX - d) as int,
                    10,
                );
                assert(acc * 10 >= q * 10 + 10) by (nonlinear_arith)
                    requires
                        acc as int > q,
                ;
                assert(acc * 10 + d > usize::MAX);
                lemma_parse_from_prefix_grows(s@, i as int, acc as int);
            }
            return None;
        }
        acc = acc * 10 + d;
        i += 1;
    }
    proof {
        assert(s@.subrange(0, n as int) =~= s@);
    }
    Some(acc)
}

/// If position `i` is not a digit, the whole string does not parse as an
/// index.
proof fn lemma_parse_prefix_bad(s: Seq<char>, i: int)
    requires
        0 <= i < s.len(),
        !('0' <= s[i] && s[i] <= '9'),
    ensures
        spec_parse_index(s) is None,
    decreases s.len() - i,
{
    if i == s.len() - 1 {
    } else {
        lemma_parse_prefix_bad(s.drop_last(), i);
    }
}

/// Once a parsed prefix overflows the index type, the whole string parses to
/// a value above it or not at all.
proof fn lemma_parse_from_prefix_grows(s: Seq<char>, i: int, acc: int)
    requires
        0 < i < s.len(),
        spec_parse_index(s.subrange(0, i)) == Some(acc),
        acc >= 0,
        ('0' <= s[i] && s[i] <= '9') ==> acc * 10 + (s[i] as int - '0' as int) > usize::MAX,
    ensures
        spec_parse_index(s) is None || (match spec_parse_index(s) {
            Some(v) => v > usize::MAX,
            None => false,
        }),
    decreases s.len() - i,
{
    if !('0' <= s[i] && s[i] <= '9') {
        lemma_parse_prefix_bad(s, i);
    } else if i + 1 == s.len() {
        assert(s.subrange(0, i) =~= s.drop_last());
    } else {
        assert(s.subrange(0, i + 1).drop_last() =~= s.subrange(0, i));
        assert(s.subrange(0, i + 1).last() == s[i]);
        let next = acc * 10 + (s[i] as int - '0' as int);
        assert(spec_parse_index(s.subrange(0, i + 1)) == Some(next));
        assert(next * 10 >= next + 9 * next) by (nonlinear_arith);
        lemma_parse_from_prefix_grows(s, i + 1, next);
    }
}

} // verus!
