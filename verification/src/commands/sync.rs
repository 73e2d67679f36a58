//! `sync`: the checks around pulling an exported `.env` file.
use vstd::prelude::*;
use crate::text::{chars_of, trim, trim_bounds};

verus! {

/// Whether text is empty once trimmed. An empty export is refused: writing
/// it would truncate the target and look like success.
pub fn is_blank(content: &str) -> (r: bool)
    ensures
        r == (trim(content@).len() == 0),
{
    let cs = chars_of(content);
    let (a, b) = trim_bounds(&cs, 0, cs.len());
    assert(cs@.subrange(0, cs@.len() as int) =~= content@);
    a == b
}

/// The line feeds in `s`.
pub open spec fn newlines(s: Seq<char>) -> nat
    decreases s.len(),
{
    if s.len() == 0 {
        0
    } else {
        newlines(s.drop_last()) + if s.last() == '\n' { 1nat } else { 0nat }
    }
}

/// The number of lines `str::lines` yields: one per line feed, plus one when
/// text follows the last line feed.
pub open spec fn line_count_of(s: Seq<char>) -> nat {
    newlines(s) + if s.len() > 0 && s.last() != '\n' { 1nat } else { 0nat }
}

proof fn lemma_newlines_bound(s: Seq<char>)
    ensures
        newlines(s) <= s.len(),
    decreases s.len(),
{
    if s.len() > 0 {
        lemma_newlines_bound(s.drop_last());
    }
}

pub fn line_count(content: &str) -> (r: usize)
    ensures
        r == line_count_of(content@),
{
    let cs = chars_of(content);
    let n = cs.len();
    let mut count: usize = 0;
    let mut i: usize = 0;
    while i < n
        invariant
            n == cs@.len(),
            cs@ == content@,
            i <= n,
            count == newlines(cs@.take(i as int)),
            count <= i,
        decreases n - i,
    {
        assert(cs@.take(i + 1).drop_last() =~= cs@.take(i as int));
        if cs[i] == '\n' {
            count = count + 1;
        }
        i = i + 1;
    }
    assert(cs@.take(n as int) =~= cs@);
    if n > 0 && cs[n - 1] != '\n' {
        proof {
            lemma_newlines_bound(cs@.drop_last());
        }
        count + 1
    } else {
        count
    }
}

} // verus!
