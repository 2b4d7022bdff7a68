//! Parsing text into typed values.
//!
//! [`FromText`] is the capability the typed scan operations need from a
//! target type: a specification of which character sequences parse and to
//! what model, and an executable parser proved against it.  The crate
//! implements it for `String` (the identity parse) and for `u32` (decimal
//! notation, with an optional leading plus sign and overflow rejected).

use crate::text::string_of_chars;
use vstd::prelude::*;

verus! {

/// A type the typed scan operations can parse a line's text into.
///
/// `Model` is the mathematical value a parsed result stands for,
/// [`FromText::text_parse`] says which character sequences parse and to
/// which model, and [`FromText::models`] says when a parsed value stands
/// for a model.
pub trait FromText: Sized {
    /// The mathematical value a parsed result stands for.
    type Model;

    /// The model that `s` parses to, or `None` when `s` does not parse.
    spec fn text_parse(s: Seq<char>) -> Option<Self::Model>;

    /// Whether this value stands for the model `m`.
    spec fn models(&self, m: Self::Model) -> bool;

    /// Parse `v` into a value, or report that it does not parse.
    fn from_text(v: &[char]) -> (r: Option<Self>)
        ensures
            match Self::text_parse(v@) {
                Some(m) => r matches Some(t) && t.models(m),
                None => r is None,
            },
    ;
}

impl FromText for String {
    type Model = Seq<char>;

    /// Every character sequence parses to itself.
    open spec fn text_parse(s: Seq<char>) -> Option<Seq<char>> {
        Some(s)
    }

    open spec fn models(&self, m: Seq<char>) -> bool {
        self@ == m
    }

    fn from_text(v: &[char]) -> (r: Option<String>) {
        Some(string_of_chars(v))
    }
}

/// Whether `c` is a decimal digit.
pub open spec fn is_digit(c: char) -> bool {
    '0' as u32 <= c as u32 <= '9' as u32
}

/// The value of the decimal digit `c`.
pub open spec fn digit_val(c: char) -> int {
    c as u32 - '0' as u32
}

/// Whether every character of `s` is a decimal digit.
pub open spec fn all_digits(s: Seq<char>) -> bool {
    forall|i: int| 0 <= i < s.len() ==> is_digit(s[i])
}

/// The value of `s` read as a decimal numeral.
pub open spec fn dec_val(s: Seq<char>) -> int
    decreases s.len(),
{
    if s.len() == 0 {
        0
    } else {
        dec_val(s.drop_last()) * 10 + digit_val(s.last())
    }
}

/// The digits of a numeral: `s` with one leading plus sign removed, if
/// one is there.
pub open spec fn u32_digits(s: Seq<char>) -> Seq<char> {
    if s.len() > 0 && s[0] == '+' {
        s.subrange(1, s.len() as int)
    } else {
        s
    }
}

/// Whether `s` is decimal notation for a `u32`: at least one digit after
/// an optional leading plus sign, all digits, and a value within range.
pub open spec fn u32_text_valid(s: Seq<char>) -> bool {
    let d = u32_digits(s);
    &&& d.len() > 0
    &&& all_digits(d)
    &&& dec_val(d) <= u32::MAX
}

/// The value `s` denotes when it is decimal notation for a `u32`.
pub open spec fn u32_text_val(s: Seq<char>) -> int {
    dec_val(u32_digits(s))
}

/// A decimal numeral's value is never negative.
proof fn lemma_dec_val_nonneg(s: Seq<char>)
    requires
        all_digits(s),
    ensures
        dec_val(s) >= 0,
    decreases s.len(),
{
    if s.len() > 0 {
        lemma_dec_val_nonneg(s.drop_last());
        assert(dec_val(s.drop_last()) * 10 >= 0) by (nonlinear_arith)
            requires dec_val(s.drop_last()) >= 0;
    }
}

/// Extending a numeral by one digit multiplies its value by ten and adds
/// the digit.
proof fn lemma_dec_val_extend(s: Seq<char>, i: int)
    requires
        0 <= i < s.len(),
    ensures
        dec_val(s.subrange(0, i + 1)) == dec_val(s.subrange(0, i)) * 10 + digit_val(s[i]),
{
    let t = s.subrange(0, i + 1);
    assert(t.drop_last() =~= s.subrange(0, i));
    assert(t.last() == s[i]);
}

/// A numeral's value is at least the value of any of its prefixes.
proof fn lemma_dec_val_prefix_le(s: Seq<char>, i: int)
    requires
        all_digits(s),
        0 <= i <= s.len(),
    ensures
        dec_val(s.subrange(0, i)) <= dec_val(s),
    decreases s.len() - i,
{
    if i == s.len() {
        assert(s.subrange(0, i) =~= s);
    } else {
        lemma_dec_val_extend(s, i);
        let v = dec_val(s.subrange(0, i));
        lemma_dec_val_nonneg(s.subrange(0, i));
        assert(v * 10 >= v) by (nonlinear_arith)
            requires v >= 0;
        lemma_dec_val_prefix_le(s, i + 1);
    }
}

/// Parse `v` as decimal notation for a `u32`: an optional leading plus
/// sign, then at least one digit, rejecting any other character and any
/// value above `u32::MAX`.
#[verifier::loop_isolation(false)]
pub fn parse_u32(v: &[char]) -> (r: Option<u32>)
    ensures
        match r {
            Some(x) => u32_text_valid(v@) && x == u32_text_val(v@),
            None => !u32_text_valid(v@),
        },
{
    let n = v.len();
    let start: usize = if n > 0 && v[0] == '+' {
        1
    } else {
        0
    };
    let ghost d = u32_digits(v@);
    proof {
        assert(d =~= v@.subrange(start as int, n as int));
    }
    if n == start {
        return None;
    }
    let mut i: usize = start;
    let mut acc: u32 = 0;
    while i < n
        invariant
            start <= i <= n,
            all_digits(d.subrange(0, i - start)),
            acc == dec_val(d.subrange(0, i - start)),
        decreases n - i,
    {
        let c = v[i];
        let cu = c as u32;
        if cu < '0' as u32 || cu > '9' as u32 {
            proof {
                assert(d[i - start] == c);
                assert(!all_digits(d));
            }
            return None;
        }
        let dg = cu - '0' as u32;
        proof {
            assert(d[i - start] == c);
            assert(d.subrange(0, i + 1 - start).drop_last() =~= d.subrange(0, i - start));
            lemma_dec_val_extend(d, i - start);
        }
        if acc > (u32::MAX - dg) / 10 {
            proof {
                let q = (u32::MAX - dg) / 10;
                assert(acc * 10 + dg > u32::MAX) by (nonlinear_arith)
                    requires
                        acc > q,
                        q == (u32::MAX - dg) / 10,
                        dg <= 9;
                if all_digits(d) {
                    lemma_dec_val_prefix_le(d, i + 1 - start);
                }
            }
            return None;
        }
        proof {
            let q = (u32::MAX - dg) / 10;
            assert(acc * 10 + dg <= u32::MAX) by (nonlinear_arith)
                requires
                    acc <= q,
                    q == (u32::MAX - dg) / 10,
                    dg <= u32::MAX;
        }
        acc = acc * 10 + dg;
        i = i + 1;
    }
    proof {
        assert(d.subrange(0, (n - start) as int) =~= d);
    }
    Some(acc)
}

impl FromText for u32 {
    type Model = u32;

    /// The character sequences that parse are exactly decimal notation
    /// for a `u32`, to the value they denote.
    open spec fn text_parse(s: Seq<char>) -> Option<u32> {
        if u32_text_valid(s) {
            Some(u32_text_val(s) as u32)
        } else {
            None
        }
    }

    open spec fn models(&self, m: u32) -> bool {
        *self == m
    }

    fn from_text(v: &[char]) -> (r: Option<u32>) {
        parse_u32(v)
    }
}

} // verus!
