//! The mathematical model of a scanner.
//!
//! A scanner over an in-memory source is modelled by a [`ScanState`]: the
//! whole source text, the position of the next unread character of the
//! source, the currently buffered line (if any), and the cursor within that
//! line.  [`canonical`] describes the refill loop that every operation runs
//! first: it either leaves a line with unread characters in place, or reads
//! lines (skipping empty ones) until one is found or the source is drained.

use vstd::prelude::*;

verus! {

/// The abstract state of a scanner: the source text, the refill position,
/// the buffered line and the cursor within it.
#[verifier::ext_equal]
pub ghost struct ScanState {
    /// The whole source text.
    pub src: Seq<char>,
    /// Index into `src` of the first character not yet moved into a line.
    pub pos: int,
    /// The currently buffered line, without its terminating newline.
    pub line: Option<Seq<char>>,
    /// Index into the buffered line of the first unread character.
    pub cur: int,
}

/// Well-formedness of a scanner state: the refill position lies within the
/// source, the cursor lies within the buffered line, a buffered line holds
/// no newline, and the cursor is zero when no line is buffered.
pub open spec fn st_wf(s: ScanState) -> bool {
    &&& 0 <= s.pos <= s.src.len()
    &&& match s.line {
        Some(l) => {
            &&& 0 <= s.cur <= l.len()
            &&& forall|i: int| 0 <= i < l.len() ==> l[i] != '\n'
        },
        None => s.cur == 0,
    }
}

/// The state of a scanner freshly bound to `src`: nothing read, no line
/// buffered.
pub open spec fn initial(src: Seq<char>) -> ScanState {
    ScanState { src: src, pos: 0, line: None, cur: 0 }
}

/// A state is ready when a line is buffered and the cursor has not reached
/// its end: the next read can be served from the buffered line.
pub open spec fn ready(s: ScanState) -> bool {
    &&& s.line is Some
    &&& s.cur < s.line.unwrap().len()
}

/// The unread suffix of the buffered line, from the cursor to its end.
pub open spec fn remainder(s: ScanState) -> Seq<char> {
    s.line.unwrap().subrange(s.cur, s.line.unwrap().len() as int)
}

/// The index of the newline that ends the line starting at `pos`, or the
/// length of the source when the final line has no terminator.
pub open spec fn line_end(src: Seq<char>, pos: int) -> int
    decreases src.len() - pos,
    when 0 <= pos <= src.len()
{
    if pos == src.len() {
        pos
    } else if src[pos] == '\n' {
        pos
    } else {
        line_end(src, pos + 1)
    }
}

/// What reading lines from `pos` onward yields: the first line with at
/// least one character (empty lines are passed over), together with the
/// position just past its terminator; or `None` when only empty lines
/// remain before the end of the source.
pub open spec fn next_content(src: Seq<char>, pos: int) -> Option<(Seq<char>, int)>
    decreases src.len() - pos,
    when 0 <= pos <= src.len()
    via next_content_decreases
{
    if pos == src.len() {
        None
    } else {
        let e = line_end(src, pos);
        let l = src.subrange(pos, e);
        let np = if e < src.len() { e + 1 } else { e };
        if l.len() > 0 {
            Some((l, np))
        } else {
            next_content(src, np)
        }
    }
}

#[via_fn]
proof fn next_content_decreases(src: Seq<char>, pos: int) {
    lemma_line_end_bounds(src, pos);
}

/// The canonical form of a state: the state the refill loop leaves behind.
/// A ready state is untouched; otherwise the buffered line (if any) is
/// dropped and lines are read until a non-empty one arrives, or the source
/// is drained and the scanner is left exhausted.
pub open spec fn canonical(s: ScanState) -> ScanState {
    if ready(s) {
        s
    } else {
        match next_content(s.src, s.pos) {
            Some(entry) => ScanState { src: s.src, pos: entry.1, line: Some(entry.0), cur: 0 },
            None => ScanState { src: s.src, pos: s.src.len() as int, line: None, cur: 0 },
        }
    }
}

/// Bounds on [`line_end`]: it lies between `pos` and the source's length,
/// it points at a newline unless it is the source's length, and no earlier
/// character from `pos` on is a newline.
pub proof fn lemma_line_end_bounds(src: Seq<char>, pos: int)
    requires
        0 <= pos <= src.len(),
    ensures
        pos <= line_end(src, pos) <= src.len(),
        line_end(src, pos) < src.len() ==> src[line_end(src, pos)] == '\n',
        forall|i: int| pos <= i < line_end(src, pos) ==> src[i] != '\n',
    decreases src.len() - pos,
{
    if pos < src.len() && src[pos] != '\n' {
        lemma_line_end_bounds(src, pos + 1);
    }
}

/// What [`next_content`] yields is a non-empty line free of newlines, and
/// its position lies strictly beyond `pos` and within the source.
pub proof fn lemma_next_content_props(src: Seq<char>, pos: int)
    requires
        0 <= pos <= src.len(),
    ensures
        match next_content(src, pos) {
            Some(entry) => {
                &&& entry.0.len() > 0
                &&& (forall|i: int| 0 <= i < entry.0.len() ==> entry.0[i] != '\n')
                &&& pos < entry.1 <= src.len()
            },
            None => true,
        },
    decreases src.len() - pos,
{
    if pos < src.len() {
        lemma_line_end_bounds(src, pos);
        let e = line_end(src, pos);
        let l = src.subrange(pos, e);
        let np: int = if e < src.len() { e + 1 } else { e };
        if l.len() == 0 {
            lemma_next_content_props(src, np);
        } else {
            assert(forall|i: int| 0 <= i < l.len() ==> l[i] == src[pos + i] && l[i] != '\n');
        }
    }
}

/// The canonical form of a well-formed state is well-formed, is ready
/// whenever it still buffers a line, is fully drained otherwise, leaves
/// the source unchanged, and is a fixed point of [`canonical`].
pub proof fn lemma_canonical_props(s: ScanState)
    requires
        st_wf(s),
    ensures
        st_wf(canonical(s)),
        canonical(s).line is Some ==> ready(canonical(s)),
        canonical(s).line is None ==> canonical(s).pos == s.src.len() && canonical(s).cur == 0,
        canonical(s).src == s.src,
        canonical(canonical(s)) == canonical(s),
{
    if !ready(s) {
        lemma_next_content_props(s.src, s.pos);
    }
}

/// The unread tail of the source: everything at or after the refill
/// position.
pub open spec fn tail(s: ScanState) -> Seq<char> {
    s.src.subrange(s.pos, s.src.len() as int)
}

/// Reading lines from `pos` onward sees only the tail of the source:
/// it yields the same line as reading the tail from its start, with the
/// position shifted by `pos`.
pub proof fn lemma_next_content_shift(src: Seq<char>, pos: int)
    requires
        0 <= pos <= src.len(),
    ensures
        ({
            let t = src.subrange(pos, src.len() as int);
            match (next_content(src, pos), next_content(t, 0)) {
                (Some(a), Some(b)) => a.0 == b.0 && a.1 - pos == b.1,
                (None, None) => true,
                _ => false,
            }
        }),
    decreases src.len() - pos,
{
    let t = src.subrange(pos, src.len() as int);
    if pos < src.len() {
        lemma_line_end_bounds(src, pos);
        let e = line_end(src, pos);
        lemma_line_end_first(t, 0, e - pos);
        assert(src.subrange(pos, e) =~= t.subrange(0, e - pos));
        let l = src.subrange(pos, e);
        let np: int = if e < src.len() {
            e + 1
        } else {
            e
        };
        let npt: int = if e - pos < t.len() {
            e - pos + 1
        } else {
            e - pos
        };
        if l.len() == 0 {
            lemma_next_content_shift(src, np);
            lemma_next_content_shift(t, npt);
            assert(src.subrange(np, src.len() as int) =~= t.subrange(npt, t.len() as int));
        }
    }
}

/// Two scanners that agree on the buffered line, the cursor, and the
/// unread tail of the source cannot be told apart: their canonical forms
/// again agree on all three.  Every operation's result and consumption
/// are functions of the canonical line and cursor alone, and leave the
/// tail untouched, so such scanners behave identically under every
/// sequence of operations.
pub proof fn lemma_same_view_same_canonical(s1: ScanState, s2: ScanState)
    requires
        st_wf(s1),
        st_wf(s2),
        s1.line == s2.line,
        s1.cur == s2.cur,
        tail(s1) == tail(s2),
    ensures
        canonical(s1).line == canonical(s2).line,
        canonical(s1).cur == canonical(s2).cur,
        tail(canonical(s1)) == tail(canonical(s2)),
{
    lemma_canonical_props(s1);
    lemma_canonical_props(s2);
    if !ready(s1) {
        lemma_next_content_shift(s1.src, s1.pos);
        lemma_next_content_shift(s2.src, s2.pos);
        lemma_next_content_props(s1.src, s1.pos);
        lemma_next_content_props(s2.src, s2.pos);
        match (next_content(s1.src, s1.pos), next_content(s2.src, s2.pos)) {
            (Some(a), Some(b)) => {
                assert(tail(canonical(s1)) =~= tail(s1).subrange(
                    a.1 - s1.pos,
                    tail(s1).len() as int,
                ));
                assert(tail(canonical(s2)) =~= tail(s2).subrange(
                    b.1 - s2.pos,
                    tail(s2).len() as int,
                ));
            },
            (None, None) => {
                assert(tail(canonical(s1)) =~= Seq::<char>::empty());
                assert(tail(canonical(s2)) =~= Seq::<char>::empty());
            },
            _ => {},
        }
    }
}

/// A source consisting of one line with no terminating newline yields the
/// same line as the same source with a terminating newline, and in both
/// cases the refill position afterwards equals the whole source's length.
/// After that first refill the two scanners agree on the buffered line,
/// the cursor, and the (empty) unread tail, so by
/// [`lemma_same_view_same_canonical`] they behave identically under every
/// following operation: trailing-newline stripping is transparent.
pub proof fn lemma_trailing_newline_transparent(s: Seq<char>)
    requires
        s.len() > 0,
        forall|i: int| 0 <= i < s.len() ==> s[i] != '\n',
    ensures
        next_content(s, 0) == Some((s, s.len() as int)),
        next_content(s.push('\n'), 0) == Some((s, s.push('\n').len() as int)),
        canonical(initial(s)) == (ScanState { src: s, pos: s.len() as int, line: Some(s), cur: 0 }),
        canonical(initial(s.push('\n'))) == (ScanState {
            src: s.push('\n'),
            pos: s.push('\n').len() as int,
            line: Some(s),
            cur: 0,
        }),
        tail(canonical(initial(s))) == Seq::<char>::empty(),
        tail(canonical(initial(s.push('\n')))) == Seq::<char>::empty(),
{
    lemma_line_end_first(s, 0, s.len() as int);
    assert(s.subrange(0, s.len() as int) =~= s);

    let t = s.push('\n');
    lemma_line_end_first(t, 0, s.len() as int);
    assert(t.subrange(0, s.len() as int) =~= s);

    assert(tail(canonical(initial(s))) =~= Seq::<char>::empty());
    assert(tail(canonical(initial(t))) =~= Seq::<char>::empty());
}

/// [`line_end`] finds exactly the first newline at or after `pos`.
pub proof fn lemma_line_end_first(src: Seq<char>, pos: int, e: int)
    requires
        0 <= pos <= e <= src.len(),
        forall|i: int| pos <= i < e ==> src[i] != '\n',
        e < src.len() ==> src[e] == '\n',
    ensures
        line_end(src, pos) == e,
    decreases e - pos,
{
    if pos < e {
        lemma_line_end_first(src, pos + 1, e);
    }
}

} // verus!
