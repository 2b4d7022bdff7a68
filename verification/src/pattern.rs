//! Patterns and substring matching.
//!
//! A [`Pattern`] is the matcher the scan operations take: an exact literal
//! or a single character, each matching exactly one sequence of characters.
//! [`match_at`] and [`first_match`] give matching its meaning over
//! character sequences, and the executable search functions are proved
//! against them.

use crate::text::chars_of_str;
use vstd::prelude::*;

verus! {

/// A matcher for scan operations: an exact literal or a single character.
pub enum Pattern {
    /// Matches exactly this sequence of characters.
    Lit(Vec<char>),
    /// Matches exactly this one character.
    Ch(char),
}

impl Pattern {
    /// The sequence of characters this pattern matches.
    pub open spec fn chars(&self) -> Seq<char> {
        match self {
            Pattern::Lit(v) => v@,
            Pattern::Ch(c) => seq![*c],
        }
    }

    /// A pattern matching the characters of `s` exactly.
    pub fn lit(s: &str) -> (p: Pattern)
        ensures
            p.chars() == s@,
    {
        Pattern::Lit(chars_of_str(s))
    }

    /// A pattern matching the single character `c`.
    pub fn ch(c: char) -> (p: Pattern)
        ensures
            p.chars() == seq![c],
    {
        Pattern::Ch(c)
    }

    /// The number of characters this pattern matches.
    pub fn len(&self) -> (n: usize)
        ensures
            n == self.chars().len(),
    {
        match self {
            Pattern::Lit(v) => v.len(),
            Pattern::Ch(_) => 1,
        }
    }

    /// The character at position `j` of what this pattern matches.
    fn char_at(&self, j: usize) -> (c: char)
        requires
            j < self.chars().len(),
        ensures
            c == self.chars()[j as int],
    {
        match self {
            Pattern::Lit(v) => v[j],
            Pattern::Ch(c) => *c,
        }
    }
}

/// `pat` matches in `hay` at position `i`: the characters of `hay` from
/// `i` on begin with exactly the characters of `pat`.
pub open spec fn match_at(hay: Seq<char>, pat: Seq<char>, i: int) -> bool {
    &&& 0 <= i
    &&& i + pat.len() <= hay.len()
    &&& hay.subrange(i, i + pat.len() as int) == pat
}

/// The first position at or after `from` where `pat` matches in `hay`,
/// if any.
pub open spec fn first_match_from(hay: Seq<char>, pat: Seq<char>, from: int) -> Option<int>
    decreases hay.len() + 1 - from,
    when 0 <= from
{
    if from + pat.len() > hay.len() {
        None
    } else if match_at(hay, pat, from) {
        Some(from)
    } else {
        first_match_from(hay, pat, from + 1)
    }
}

/// The first position where `pat` matches in `hay`, if any.  An empty
/// pattern matches at position zero.
pub open spec fn first_match(hay: Seq<char>, pat: Seq<char>) -> Option<int> {
    first_match_from(hay, pat, 0)
}

/// When no match lies before `i`, the search of the whole haystack and
/// the search from `i` agree.
proof fn lemma_first_match_shift(hay: Seq<char>, pat: Seq<char>, i: int)
    requires
        0 <= i,
        forall|k: int| 0 <= k < i ==> !match_at(hay, pat, k),
    ensures
        first_match(hay, pat) == first_match_from(hay, pat, i),
    decreases i,
{
    if i > 0 {
        lemma_first_match_shift(hay, pat, i - 1);
    }
}

/// When no match lies before `i`, a match at `i` is the first match, and
/// if `pat` cannot fit into `hay` at `i` there is no match at all.
pub proof fn lemma_first_match_found(hay: Seq<char>, pat: Seq<char>, i: int)
    requires
        0 <= i,
        forall|k: int| 0 <= k < i ==> !match_at(hay, pat, k),
    ensures
        match_at(hay, pat, i) ==> first_match(hay, pat) == Some(i),
        i + pat.len() > hay.len() ==> first_match(hay, pat) is None,
{
    lemma_first_match_shift(hay, pat, i);
}

/// A found first match is a match, and nothing before it matches.
pub proof fn lemma_first_match_is_match(hay: Seq<char>, pat: Seq<char>, i: int)
    requires
        first_match(hay, pat) == Some(i),
    ensures
        match_at(hay, pat, i),
        forall|k: int| 0 <= k < i ==> !match_at(hay, pat, k),
{
    lemma_fmf_is_match(hay, pat, 0, i);
}

proof fn lemma_fmf_is_match(hay: Seq<char>, pat: Seq<char>, from: int, i: int)
    requires
        0 <= from,
        first_match_from(hay, pat, from) == Some(i),
    ensures
        from <= i,
        match_at(hay, pat, i),
        forall|k: int| from <= k < i ==> !match_at(hay, pat, k),
    decreases hay.len() + 1 - from,
{
    if from + pat.len() <= hay.len() && !match_at(hay, pat, from) {
        lemma_fmf_is_match(hay, pat, from + 1, i);
    }
}

/// Whether the characters of `line` from `start` on begin with exactly
/// the characters of `p`.
#[verifier::loop_isolation(false)]
fn match_here(line: &Vec<char>, start: usize, p: &Pattern) -> (b: bool)
    requires
        start + p.chars().len() <= line@.len(),
    ensures
        b == (line@.subrange(start as int, start + p.chars().len() as int) == p.chars()),
{
    let n = line.len();
    let plen = p.len();
    let ghost piece = line@.subrange(start as int, start + p.chars().len() as int);
    let mut j: usize = 0;
    while j < plen
        invariant
            j <= plen,
            forall|m: int| 0 <= m < j ==> line@[start + m] == p.chars()[m],
        decreases plen - j,
    {
        proof {
            assert(start + j < n);
        }
        if line[start + j] != p.char_at(j) {
            proof {
                assert(piece[j as int] == line@[start + j]);
            }
            return false;
        }
        j = j + 1;
    }
    proof {
        assert(piece =~= p.chars());
    }
    true
}

/// Whether `p` matches at the very start of the unread suffix
/// `line[cur..]`.
pub(crate) fn check_match_at(line: &Vec<char>, cur: usize, p: &Pattern) -> (b: bool)
    requires
        cur <= line@.len(),
    ensures
        b == match_at(line@.subrange(cur as int, line@.len() as int), p.chars(), 0),
{
    let ghost rest = line@.subrange(cur as int, line@.len() as int);
    let plen = p.len();
    if plen > line.len() - cur {
        proof {
            assert(!match_at(rest, p.chars(), 0));
        }
        false
    } else {
        let b = match_here(line, cur, p);
        proof {
            assert(rest.subrange(0, p.chars().len() as int) =~= line@.subrange(
                cur as int,
                cur + p.chars().len() as int,
            ));
        }
        b
    }
}

/// The first position in the unread suffix `line[cur..]` where `p`
/// matches, if any.
#[verifier::loop_isolation(false)]
pub(crate) fn find_in_rest(line: &Vec<char>, cur: usize, p: &Pattern) -> (r: Option<usize>)
    requires
        cur <= line@.len(),
    ensures
        ({
            let rest = line@.subrange(cur as int, line@.len() as int);
            match r {
                Some(i) => {
                    &&& first_match(rest, p.chars()) == Some(i as int)
                    &&& i + p.chars().len() <= rest.len()
                },
                None => first_match(rest, p.chars()) is None,
            }
        }),
{
    let ghost rest = line@.subrange(cur as int, line@.len() as int);
    let plen = p.len();
    let rest_len = line.len() - cur;
    if plen > rest_len {
        proof {
            lemma_first_match_found(rest, p.chars(), 0);
        }
        return None;
    }
    if plen == 0 {
        proof {
            assert(rest.subrange(0, 0) =~= p.chars());
            lemma_first_match_found(rest, p.chars(), 0);
        }
        return Some(0);
    }
    let mut i: usize = 0;
    while i <= rest_len - plen
        invariant
            i <= rest_len - plen + 1,
            forall|k: int| 0 <= k < i ==> !match_at(rest, p.chars(), k),
        decreases rest_len - plen + 1 - i,
    {
        if match_here(line, cur + i, p) {
            proof {
                assert(rest.subrange(i as int, i + p.chars().len() as int) =~= line@.subrange(
                    (cur + i) as int,
                    cur + i + p.chars().len() as int,
                ));
                lemma_first_match_found(rest, p.chars(), i as int);
            }
            return Some(i);
        }
        proof {
            assert(rest.subrange(i as int, i + p.chars().len() as int) =~= line@.subrange(
                (cur + i) as int,
                cur + i + p.chars().len() as int,
            ));
        }
        i = i + 1;
    }
    proof {
        lemma_first_match_found(rest, p.chars(), i as int);
    }
    None
}

} // verus!
