//! Extraction of bracketed id mentions from thought bodies.
//!
//! A mention is a nonempty run of identifier characters (letters, digits,
//! underscore, hyphen) enclosed in square brackets. Mentions are read left
//! to right, and the scan resumes after each closing bracket.

use vstd::prelude::*;
use vstd::string::StrSliceExecFns;

use crate::ids::ThoughtID;
use crate::ids::id_views;

verus! {

/// A character of the mention identifier grammar.
pub open spec fn is_ident_char(c: char) -> bool {
    ||| ('a' as u32) <= (c as u32) <= ('z' as u32)
    ||| ('A' as u32) <= (c as u32) <= ('Z' as u32)
    ||| ('0' as u32) <= (c as u32) <= ('9' as u32)
    ||| c == '_'
    ||| c == '-'
}

/// Executable check for [`is_ident_char`].
fn ident_char(c: char) -> (r: bool)
    ensures
        r == is_ident_char(c),
{
    let x = c as u32;
    (97 <= x && x <= 122) || (65 <= x && x <= 90) || (48 <= x && x <= 57) || x == 95 || x == 45
}

/// The end of the run of identifier characters starting at `k`.
pub open spec fn run_end(s: Seq<char>, k: int) -> int
    decreases s.len() - k,
    when 0 <= k <= s.len()
{
    if k >= s.len() {
        k
    } else if is_ident_char(s[k]) {
        run_end(s, k + 1)
    } else {
        k
    }
}

/// The run starting at `k` stays within bounds, holds identifier
/// characters only, and ends at the first character that breaks it.
pub proof fn lemma_run_end(s: Seq<char>, k: int)
    requires
        0 <= k <= s.len(),
    ensures
        k <= run_end(s, k) <= s.len(),
        forall|m: int| k <= m < run_end(s, k) ==> is_ident_char(#[trigger] s[m]),
        run_end(s, k) < s.len() ==> !is_ident_char(s[run_end(s, k)]),
    decreases s.len() - k,
{
    if k < s.len() && is_ident_char(s[k]) {
        lemma_run_end(s, k + 1);
    }
}

/// The mentions found from position `i` on: the contents of each
/// bracketed nonempty identifier run, in order of appearance.
pub open spec fn mentions_from(s: Seq<char>, i: int) -> Seq<Seq<char>>
    decreases s.len() - i,
    when 0 <= i <= s.len()
    via mentions_from_decreases
{
    if i >= s.len() {
        Seq::empty()
    } else if s[i] == '[' {
        let j = run_end(s, i + 1);
        if i + 1 < j && j < s.len() && s[j] == ']' {
            seq![s.subrange(i + 1, j)] + mentions_from(s, j + 1)
        } else {
            mentions_from(s, i + 1)
        }
    } else {
        mentions_from(s, i + 1)
    }
}

#[via_fn]
proof fn mentions_from_decreases(s: Seq<char>, i: int) {
    if 0 <= i < s.len() && s[i] == '[' {
        lemma_run_end(s, i + 1);
    }
}

/// The mentions of a whole body.
pub open spec fn spec_mentions(s: Seq<char>) -> Seq<Seq<char>> {
    mentions_from(s, 0)
}

/// Scans a body for bracketed mentions and returns the ids they name, in
/// order of appearance.
pub fn extract_mentions(s: &str) -> (r: Vec<ThoughtID>)
    ensures
        id_views(r@) == spec_mentions(s@),
{
    let n = s.unicode_len();
    let mut out: Vec<ThoughtID> = Vec::new();
    let mut i: usize = 0;
    proof {
        assert(id_views(out@) + mentions_from(s@, 0) =~= spec_mentions(s@));
    }
    while i < n
        invariant
            0 <= i <= n,
            n == s@.len(),
            id_views(out@) + mentions_from(s@, i as int) == spec_mentions(s@),
        decreases n - i,
    {
        if s.get_char(i) == '[' {
            let mut j = i + 1;
            while j < n && ident_char(s.get_char(j))
                invariant
                    i + 1 <= j <= n,
                    n == s@.len(),
                    run_end(s@, i as int + 1) == run_end(s@, j as int),
                decreases n - j,
            {
                j = j + 1;
            }
            proof {
                assert(run_end(s@, i as int + 1) == j as int);
            }
            if j > i + 1 && j < n && s.get_char(j) == ']' {
                let token = s.substring_char(i + 1, j);
                let ghost prevv = id_views(out@);
                out.push(ThoughtID::new(token.to_owned()));
                proof {
                    assert(id_views(out@) =~= prevv.push(s@.subrange(i as int + 1, j as int)));
                    assert(mentions_from(s@, i as int) =~= seq![
                        s@.subrange(i as int + 1, j as int),
                    ] + mentions_from(s@, j as int + 1));
                    assert(id_views(out@) + mentions_from(s@, j as int + 1) =~= prevv
                        + mentions_from(s@, i as int));
                }
                i = j + 1;
            } else {
                proof {
                    assert(mentions_from(s@, i as int) == mentions_from(s@, i as int + 1));
                }
                i = i + 1;
            }
        } else {
            proof {
                assert(mentions_from(s@, i as int) == mentions_from(s@, i as int + 1));
            }
            i = i + 1;
        }
    }
    proof {
        assert(mentions_from(s@, n as int) =~= Seq::<Seq<char>>::empty());
        assert(id_views(out@) =~= id_views(out@) + mentions_from(s@, n as int));
    }
    out
}

} // verus!
