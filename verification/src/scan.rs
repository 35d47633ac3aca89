//! Process-presence scanner.
//!
//! The reconciler hands this module one process-table snapshot per cycle (the
//! text a process-listing command printed) and asks, per configured
//! executable, whether a matching process line is present.  The match rule is
//! the crate's fixed policy: ASCII-case-insensitive substring match within a
//! single line, ignoring lines that mention the process-listing helper
//! `grep` so a search command never matches itself.

use vstd::prelude::*;
use crate::text::{chars_lower, contains_sub, is_match_at, lower, seq_contains, subvec};

verus! {

/// The word whose presence disqualifies a line from matching.
pub open spec fn grep_word() -> Seq<char> {
    seq!['g', 'r', 'e', 'p']
}

/// `[lo, hi)` is a maximal newline-free segment of `s`: a line.
pub open spec fn is_line_at(s: Seq<char>, lo: int, hi: int) -> bool {
    &&& 0 <= lo <= hi <= s.len()
    &&& (lo == 0 || s[lo - 1] == '\n')
    &&& (hi == s.len() || s[hi] == '\n')
    &&& forall|k: int| lo <= k < hi ==> s[k] != '\n'
}

/// A line of `s` (given lowercased) matches the lowercased needle `exe`:
/// the needle occurs in the line and the line does not mention `grep`.
pub open spec fn line_matches(s: Seq<char>, lo: int, hi: int, exe: Seq<char>) -> bool {
    &&& is_line_at(s, lo, hi)
    &&& !seq_contains(s.subrange(lo, hi), grep_word())
    &&& seq_contains(s.subrange(lo, hi), exe)
}

/// The executable named `exe` counts as running in the process-table text
/// `ps`: some line of the lowercased text contains the lowercased name and
/// does not contain `grep`.
pub open spec fn spec_is_running(exe: Seq<char>, ps: Seq<char>) -> bool {
    exists|lo: int, hi: int| line_matches(lower(ps), lo, hi, lower(exe))
}

/// Whether a process named `executable` appears in the process-table text.
///
/// Matching is ASCII-case-insensitive and per line; lines containing `grep`
/// are skipped so that the listing of a search command is not mistaken for
/// the process itself.
pub fn is_executable_running(executable: &str, ps_output: &str) -> (r: bool)
    ensures
        r == spec_is_running(executable@, ps_output@),
{
    let exe = chars_lower(executable);
    let out = chars_lower(ps_output);
    let grep: Vec<char> = vec!['g', 'r', 'e', 'p'];
    proof {
        assert(grep@ =~= grep_word());
    }
    let len = out.len();
    let mut start: usize = 0;
    let mut pos: usize = 0;
    while pos < len
        invariant
            out@ == lower(ps_output@),
            exe@ == lower(executable@),
            grep@ == grep_word(),
            len == out@.len(),
            start <= pos <= len,
            start == 0 || out@[start - 1] == '\n',
            forall|k: int| start <= k < pos ==> out@[k] != '\n',
            forall|lo: int, hi: int|
                line_matches(out@, lo, hi, exe@) ==> hi >= start,
        decreases len - pos,
    {
        if out[pos] == '\n' {
            let line = subvec(&out, start, pos);
            if !contains_sub(&line, &grep) && contains_sub(&line, &exe) {
                assert(line_matches(out@, start as int, pos as int, exe@));
                return true;
            }
            proof {
                lemma_line_unique(out@, start as int, pos as int);
            }
            start = pos + 1;
        }
        pos = pos + 1;
    }
    let line = subvec(&out, start, len);
    if !contains_sub(&line, &grep) && contains_sub(&line, &exe) {
        assert(line_matches(out@, start as int, len as int, exe@));
        return true;
    }
    proof {
        lemma_line_unique(out@, start as int, len as int);
        if spec_is_running(executable@, ps_output@) {
            let (lo, hi) = choose|lo: int, hi: int| line_matches(out@, lo, hi, exe@);
            assert(!line_matches(out@, lo, hi, exe@));
        }
    }
    false
}

/// A maximal newline-free segment is determined by any point it covers: if
/// `[lo, hi)` is a line and `hi` lies in `[start, pos]`, where `start` opens
/// a line that is newline-free up to `pos`, then `(lo, hi) == (start, pos)`.
proof fn lemma_line_unique(s: Seq<char>, start: int, pos: int)
    requires
        0 <= start <= pos <= s.len(),
        start == 0 || s[start - 1] == '\n',
        pos == s.len() || s[pos] == '\n',
        forall|k: int| start <= k < pos ==> s[k] != '\n',
    ensures
        forall|lo: int, hi: int|
            is_line_at(s, lo, hi) && start <= hi <= pos ==> lo == start && hi == pos,
{
    assert forall|lo: int, hi: int|
        is_line_at(s, lo, hi) && start <= hi <= pos implies lo == start && hi == pos by {
        if hi < pos {
            assert(s[hi] != '\n');
        }
        if lo < start {
            assert(s[start - 1] == '\n');
            assert(lo <= start - 1 < hi);
        }
        if lo > start {
            assert(s[lo - 1] != '\n');
        }
    }
}

} // verus!
