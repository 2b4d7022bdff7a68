//! Conversions between text types and verified character copying.
//!
//! The scanner works over sequences of characters, so the cursor is a
//! character index and can never sit inside a multi-byte encoding.  These
//! helpers move between `&str` / `String` at the crate's boundary and the
//! `Vec<char>` representation the scanner uses internally.

use vstd::prelude::*;
use vstd::std_specs::iter::IteratorSpec;

verus! {

broadcast use vstd::string::axiom_spec_iter, vstd::string::next_postcondition;

/// The characters of `s`, in order.
pub(crate) fn chars_of_str(s: &str) -> (v: Vec<char>)
    ensures
        v@ == s@,
{
    let mut it = s.chars();
    let mut v: Vec<char> = Vec::new();
    proof {
        assert(v@ + it.remaining() =~= s@);
    }
    loop
        invariant
            it.obeys_prophetic_iter_laws(),
            it.decrease() is Some,
            v@ + it.remaining() == s@,
        ensures
            v@ == s@,
        decreases it.decrease().unwrap(),
    {
        let ghost prev = it.remaining();
        let ghost sofar = v@;
        match it.next() {
            Some(c) => {
                v.push(c);
                proof {
                    assert(v@ + it.remaining() =~= sofar + prev);
                }
            },
            None => {
                proof {
                    assert(v@ + it.remaining() =~= v@);
                }
                break;
            },
        }
    }
    v
}

/// The characters of `v`, as an owned string.
///
/// Relies on `String`'s `FromIterator<char>`: collecting an iterator of
/// characters yields the string of exactly those characters, in order.
#[verifier::external_body]
pub(crate) fn string_of_chars(v: &[char]) -> (s: String)
    ensures
        s@ == v@,
{
    v.iter().collect()
}

/// A copy of `line[from..to]`.
pub(crate) fn copy_range(line: &Vec<char>, from: usize, to: usize) -> (v: Vec<char>)
    requires
        from <= to <= line@.len(),
    ensures
        v@ == line@.subrange(from as int, to as int),
{
    let mut v: Vec<char> = Vec::new();
    let mut k: usize = from;
    while k < to
        invariant
            from <= k <= to <= line@.len(),
            v@ == line@.subrange(from as int, k as int),
        decreases to - k,
    {
        v.push(line[k]);
        proof {
            assert(v@ =~= line@.subrange(from as int, (k + 1) as int));
        }
        k = k + 1;
    }
    v
}

/// The text `line[from..to]`, as an owned string.
pub(crate) fn string_of_range(line: &Vec<char>, from: usize, to: usize) -> (s: String)
    requires
        from <= to <= line@.len(),
    ensures
        s@ == line@.subrange(from as int, to as int),
{
    let v = copy_range(line, from, to);
    string_of_chars(v.as_slice())
}

} // verus!
