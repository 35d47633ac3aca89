//! Character-level helpers shared by the scanner, the runner and the logger.
//!
//! Matching policy: comparisons are case-insensitive over ASCII only; letters
//! outside ASCII are compared as they are.  This keeps the match rule exact
//! and platform-independent, which matters because the process-table scan
//! decides when commands fire.

use vstd::prelude::*;

verus! {

/// ASCII lowercase of one character: `'A'..='Z'` map to `'a'..='z'`,
/// everything else is unchanged.
pub open spec fn lower_char(c: char) -> char {
    if 65 <= c as u32 && c as u32 <= 90 {
        ((c as u32 + 32) as u8) as char
    } else {
        c
    }
}

/// ASCII lowercase of a character sequence.
pub open spec fn lower(s: Seq<char>) -> Seq<char> {
    s.map_values(|c: char| lower_char(c))
}

/// `needle` occurs in `hay` starting at position `i`.
pub open spec fn is_match_at(hay: Seq<char>, needle: Seq<char>, i: int) -> bool {
    &&& 0 <= i
    &&& i + needle.len() <= hay.len()
    &&& hay.subrange(i, i + needle.len()) == needle
}

/// `needle` occurs somewhere in `hay` (the empty needle occurs everywhere).
pub open spec fn seq_contains(hay: Seq<char>, needle: Seq<char>) -> bool {
    exists|i: int| is_match_at(hay, needle, i)
}

/// Every character is ASCII whitespace (space, tab, newline, carriage return).
pub open spec fn is_blank_seq(s: Seq<char>) -> bool {
    forall|i: int| 0 <= i < s.len() ==> is_space_char(s[i])
}

/// ASCII whitespace, the only whitespace this crate's trimming rule knows.
pub open spec fn is_space_char(c: char) -> bool {
    c == ' ' || c == '\t' || c == '\n' || c == '\r'
}

/// Lowercase one character, ASCII-only.
pub fn to_lower_char(c: char) -> (r: char)
    ensures
        r == lower_char(c),
{
    let u = c as u32;
    if 65 <= u && u <= 90 {
        ((u + 32) as u8) as char
    } else {
        c
    }
}

/// The characters of `s`, ASCII-lowercased, as a vector.
pub fn chars_lower(s: &str) -> (v: Vec<char>)
    ensures
        v@ == lower(s@),
{
    let n = s.unicode_len();
    let mut v: Vec<char> = Vec::new();
    let mut i: usize = 0;
    while i < n
        invariant
            n == s@.len(),
            i <= n,
            v@.len() == i,
            forall|j: int| 0 <= j < i ==> v@[j] == lower_char(s@[j]),
        decreases n - i,
    {
        let c = s.get_char(i);
        v.push(to_lower_char(c));
        i = i + 1;
    }
    assert(v@ =~= lower(s@));
    v
}

/// Whether `needle` occurs in `hay` as a contiguous run.
pub fn contains_sub(hay: &Vec<char>, needle: &Vec<char>) -> (r: bool)
    ensures
        r == seq_contains(hay@, needle@),
{
    if needle.len() == 0 {
        assert(is_match_at(hay@, needle@, 0)) by {
            assert(hay@.subrange(0, 0) =~= needle@);
        }
        return true;
    }
    if needle.len() > hay.len() {
        assert(forall|i: int| !is_match_at(hay@, needle@, i));
        return false;
    }
    let last = hay.len() - needle.len();
    let mut i: usize = 0;
    loop
        invariant
            1 <= needle@.len() <= hay@.len() <= usize::MAX,
            last == hay@.len() - needle@.len(),
            i <= last + 1,
            forall|k: int| 0 <= k < i ==> !is_match_at(hay@, needle@, k),
        ensures
            (i <= last && is_match_at(hay@, needle@, i as int)) || (i == last + 1
                && forall|k: int| 0 <= k < i ==> !is_match_at(hay@, needle@, k)),
        decreases last + 1 - i,
    {
        if i > last {
            break;
        }
        let mut j: usize = 0;
        let mut hit = true;
        while j < needle.len()
            invariant
                needle@.len() <= hay@.len() <= usize::MAX,
                i + needle@.len() <= hay@.len(),
                j <= needle@.len(),
                hit ==> forall|t: int| 0 <= t < j ==> hay@[i + t] == needle@[t],
                !hit ==> !is_match_at(hay@, needle@, i as int),
            decreases needle@.len() - j,
        {
            if hay[i + j] != needle[j] {
                proof {
                    let k = i as int;
                    if is_match_at(hay@, needle@, k) {
                        assert(hay@.subrange(k, k + needle@.len())[j as int] == needle@[j as int]);
                    }
                }
                hit = false;
                j = needle.len();
            } else {
                j = j + 1;
            }
        }
        if hit {
            proof {
                let k = i as int;
                assert(hay@.subrange(k, k + needle@.len()) =~= needle@);
            }
            break;
        }
        i = i + 1;
    }
    if i <= last {
        true
    } else {
        proof {
            if seq_contains(hay@, needle@) {
                let w = choose|k: int| is_match_at(hay@, needle@, k);
                assert(!is_match_at(hay@, needle@, w));
            }
        }
        false
    }
}

/// The characters of `v` from `lo` (inclusive) to `hi` (exclusive), copied
/// out as a new vector.
pub fn subvec(v: &Vec<char>, lo: usize, hi: usize) -> (r: Vec<char>)
    requires
        lo <= hi <= v@.len(),
    ensures
        r@ == v@.subrange(lo as int, hi as int),
{
    let mut r: Vec<char> = Vec::new();
    let mut i: usize = lo;
    while i < hi
        invariant
            lo <= i <= hi <= v@.len(),
            r@.len() == i - lo,
            forall|j: int| 0 <= j < r@.len() ==> r@[j] == v@[lo + j],
        decreases hi - i,
    {
        r.push(v[i]);
        i = i + 1;
    }
    assert(r@ =~= v@.subrange(lo as int, hi as int));
    r
}

/// Whether `s` is empty or consists only of ASCII whitespace.
///
/// This is the rule by which an all-whitespace command string is rejected
/// before anything is handed to a shell, and by which an all-whitespace
/// configuration file counts as empty.
pub fn is_blank(s: &str) -> (r: bool)
    ensures
        r == is_blank_seq(s@),
{
    let n = s.unicode_len();
    let mut i: usize = 0;
    while i < n
        invariant
            n == s@.len(),
            i <= n,
            forall|j: int| 0 <= j < i ==> is_space_char(s@[j]),
        decreases n - i,
    {
        let c = s.get_char(i);
        if !(c == ' ' || c == '\t' || c == '\n' || c == '\r') {
            return false;
        }
        i = i + 1;
    }
    true
}

} // verus!
