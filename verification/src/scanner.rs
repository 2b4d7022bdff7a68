//! The scanner: line buffering, cursor tracking, and scan operations.
//!
//! [`LineReadScanner`] owns a source text and buffers one line of it at a
//! time.  Every operation first runs the refill loop ([`canonical`] over
//! the abstract state), then works on the unread suffix of the buffered
//! line.  The [`Scanner`] trait carries the full contract of each
//! operation, stated by a transition predicate over [`ScanState`].

use crate::parse::FromText;
use crate::pattern::{check_match_at, find_in_rest, first_match, match_at, Pattern};
use crate::state::{
    canonical, initial, lemma_canonical_props, lemma_line_end_bounds, lemma_line_end_first,
    line_end, next_content, ready, remainder, st_wf, ScanState,
};
use crate::text::{chars_of_str, copy_range, string_of_chars, string_of_range};
use vstd::prelude::*;

verus! {

/// What reading one physical line does to the abstract state: at the end
/// of the source the buffered line becomes `None`; otherwise the text up
/// to the next newline becomes the buffered line and the refill position
/// moves past that newline.  The cursor is reset either way.
pub(crate) open spec fn read_line_post(pre: ScanState, post: ScanState) -> bool {
    &&& post.src == pre.src
    &&& post.cur == 0
    &&& (if pre.pos == pre.src.len() {
        &&& post.line is None
        &&& post.pos == pre.pos
    } else {
        let e = line_end(pre.src, pre.pos);
        &&& post.line == Some(pre.src.subrange(pre.pos, e))
        &&& post.pos == (if e < pre.src.len() {
            e + 1
        } else {
            e
        })
    })
}

/// One physical read from a non-ready state leaves the canonical form
/// unchanged, strictly advances the refill position while source remains,
/// and yields no line only at the end of the source.
proof fn lemma_canonical_read_step(pre: ScanState, post: ScanState)
    requires
        st_wf(pre),
        !ready(pre),
        read_line_post(pre, post),
    ensures
        canonical(post) == canonical(pre),
        pre.pos < pre.src.len() ==> post.pos > pre.pos,
        post.line is None ==> post.pos == pre.src.len(),
{
    if pre.pos == pre.src.len() {
        assert(canonical(post) == canonical(pre));
    } else {
        lemma_line_end_bounds(pre.src, pre.pos);
        let e = line_end(pre.src, pre.pos);
        let l = pre.src.subrange(pre.pos, e);
        if l.len() > 0 {
            assert(ready(post));
            assert(canonical(pre) == post);
        } else {
            assert(!ready(post));
            assert(next_content(pre.src, pre.pos) == next_content(post.src, post.pos));
            match next_content(pre.src, pre.pos) {
                Some(entry) => {
                    assert(canonical(post) == canonical(pre));
                },
                None => {
                    assert(canonical(post) == canonical(pre));
                },
            }
        }
    }
}

/// The transition of an availability check: the state becomes canonical
/// and the answer says whether a line is buffered then.
pub open spec fn has_next_post(pre: ScanState, post: ScanState, r: bool) -> bool {
    &&& post == canonical(pre)
    &&& r == (canonical(pre).line is Some)
}

/// The transition of a match at the start of the unread suffix: at the
/// end of input the result is an error with an empty payload; on a match
/// at position zero the cursor advances by the matched length, which is
/// returned; otherwise nothing changes and the error carries the whole
/// unread suffix.
pub open spec fn expect_post(
    pre: ScanState,
    post: ScanState,
    pat: Seq<char>,
    r: Result<usize, String>,
) -> bool {
    let c = canonical(pre);
    if c.line is None {
        &&& post == c
        &&& r matches Err(e) && e@ == Seq::<char>::empty()
    } else {
        let rest = remainder(c);
        if match_at(rest, pat, 0) {
            &&& post == (ScanState { src: c.src, pos: c.pos, line: c.line, cur: c.cur + pat.len() })
            &&& r matches Ok(n) && n == pat.len()
        } else {
            &&& post == c
            &&& r matches Err(e) && e@ == rest
        }
    }
}

/// The transition of a single-character read: when a line is available
/// its first unread character is returned and the cursor moves past it;
/// at the end of input the result is an error with an empty payload and
/// the scanner is left exhausted.
pub open spec fn next_post(pre: ScanState, post: ScanState, r: Result<char, String>) -> bool {
    let c = canonical(pre);
    if c.line is Some {
        &&& post == (ScanState { src: c.src, pos: c.pos, line: c.line, cur: c.cur + 1 })
        &&& r matches Ok(ch) && ch == remainder(c)[0]
    } else {
        &&& post == c
        &&& r matches Err(e) && e@ == Seq::<char>::empty()
    }
}

/// The transition of a fixed-length copy: as many characters as fit are
/// copied from the unread suffix over the front of the destination, whose
/// tail is left as it was; the cursor advances by the copied count and
/// the destination's total length is returned.
pub open spec fn scan_str_post(
    pre: ScanState,
    post: ScanState,
    dst0: Seq<char>,
    dst1: Seq<char>,
    r: Result<usize, String>,
) -> bool {
    let c = canonical(pre);
    if c.line is None {
        &&& post == c
        &&& dst1 == dst0
        &&& r matches Err(e) && e@ == Seq::<char>::empty()
    } else {
        let rest = remainder(c);
        let end = if dst0.len() <= rest.len() {
            dst0.len() as int
        } else {
            rest.len() as int
        };
        &&& post == (ScanState { src: c.src, pos: c.pos, line: c.line, cur: c.cur + end })
        &&& dst1 == rest.subrange(0, end) + dst0.subrange(end, dst0.len() as int)
        &&& r matches Ok(n) && n == dst0.len()
    }
}

/// The transition of a copy up to a delimiter: when the delimiter occurs
/// in the unread suffix, the text before its first occurrence is copied
/// (as far as it fits), the cursor advances past the whole match, and the
/// destination's total length is returned; when it does not occur,
/// nothing changes and the error carries the whole unread suffix.
pub open spec fn scan_str_to_post(
    pre: ScanState,
    post: ScanState,
    dst0: Seq<char>,
    dst1: Seq<char>,
    pat: Seq<char>,
    r: Result<usize, String>,
) -> bool {
    let c = canonical(pre);
    if c.line is None {
        &&& post == c
        &&& dst1 == dst0
        &&& r matches Err(e) && e@ == Seq::<char>::empty()
    } else {
        let rest = remainder(c);
        match first_match(rest, pat) {
            Some(i) => {
                let end = if dst0.len() <= i {
                    dst0.len() as int
                } else {
                    i
                };
                &&& post == (ScanState {
                    src: c.src,
                    pos: c.pos,
                    line: c.line,
                    cur: c.cur + i + pat.len(),
                })
                &&& dst1 == rest.subrange(0, end) + dst0.subrange(end, dst0.len() as int)
                &&& r matches Ok(n) && n == dst0.len()
            },
            None => {
                &&& post == c
                &&& dst1 == dst0
                &&& r matches Err(e) && e@ == rest
            },
        }
    }
}

/// The transition of a typed scan of the whole unread suffix: the line is
/// discarded whether or not the text parses; the result carries the
/// parsed value, or the offending text when it does not parse, or an
/// empty payload at the end of input.
pub open spec fn scan_post<T: FromText>(
    pre: ScanState,
    post: ScanState,
    r: Result<T, String>,
) -> bool {
    let c = canonical(pre);
    if c.line is None {
        &&& post == c
        &&& r matches Err(e) && e@ == Seq::<char>::empty()
    } else {
        let rest = remainder(c);
        &&& post == (ScanState { src: c.src, pos: c.pos, line: None, cur: 0 })
        &&& match T::text_parse(rest) {
            Some(m) => r matches Ok(t) && t.models(m),
            None => r matches Err(e) && e@ == rest,
        }
    }
}

/// The transition of a typed scan up to a delimiter: when the delimiter
/// occurs in the unread suffix, the cursor advances past the whole match
/// and the text before it is parsed; the error carries that text when it
/// does not parse.  When the delimiter does not occur, nothing changes
/// and the error carries the whole unread suffix.
pub open spec fn scan_to_post<T: FromText>(
    pre: ScanState,
    post: ScanState,
    pat: Seq<char>,
    r: Result<T, String>,
) -> bool {
    let c = canonical(pre);
    if c.line is None {
        &&& post == c
        &&& r matches Err(e) && e@ == Seq::<char>::empty()
    } else {
        let rest = remainder(c);
        match first_match(rest, pat) {
            Some(i) => {
                let tok = rest.subrange(0, i);
                &&& post == (ScanState {
                    src: c.src,
                    pos: c.pos,
                    line: c.line,
                    cur: c.cur + i + pat.len(),
                })
                &&& match T::text_parse(tok) {
                    Some(m) => r matches Ok(t) && t.models(m),
                    None => r matches Err(e) && e@ == tok,
                }
            },
            None => {
                &&& post == c
                &&& r matches Err(e) && e@ == rest
            },
        }
    }
}

/// The scanning interface: every operation restores the canonical state
/// first and then behaves as its transition predicate states over the
/// abstract [`ScanState`].
pub trait Scanner: Sized {
    /// The abstract state of this scanner.
    spec fn st(&self) -> ScanState;

    /// The scanner's invariant.
    spec fn inv(&self) -> bool;

    /// Match `p` at the very start of the unread suffix, advancing past
    /// it and returning the matched length on success.
    fn expect(&mut self, p: &Pattern) -> (r: Result<usize, String>)
        requires
            old(self).inv(),
        ensures
            final(self).inv(),
            expect_post(old(self).st(), final(self).st(), p.chars(), r),
    ;

    /// Whether another character can be read, refilling lines as needed.
    fn has_next(&mut self) -> (r: bool)
        requires
            old(self).inv(),
        ensures
            final(self).inv(),
            has_next_post(old(self).st(), final(self).st(), r),
    ;

    /// Read the next character of the current line.
    fn next(&mut self) -> (r: Result<char, String>)
        requires
            old(self).inv(),
        ensures
            final(self).inv(),
            next_post(old(self).st(), final(self).st(), r),
    ;

    /// Copy characters from the unread suffix over the front of
    /// `result`, as many as fit, returning `result`'s total length.
    fn scan_str(&mut self, result: &mut Vec<char>) -> (r: Result<usize, String>)
        requires
            old(self).inv(),
        ensures
            final(self).inv(),
            scan_str_post(old(self).st(), final(self).st(), old(result)@, final(result)@, r),
    ;

    /// Copy the text before the first occurrence of `next` over the
    /// front of `result`, as far as it fits, and advance past the match.
    fn scan_str_to(&mut self, result: &mut Vec<char>, next: &Pattern) -> (r: Result<usize, String>)
        requires
            old(self).inv(),
        ensures
            final(self).inv(),
            scan_str_to_post(
                old(self).st(),
                final(self).st(),
                old(result)@,
                final(result)@,
                next.chars(),
                r,
            ),
    ;

    /// Parse the whole unread suffix as a `T`, discarding the line.
    fn scan<T: FromText>(&mut self) -> (r: Result<T, String>)
        requires
            old(self).inv(),
        ensures
            final(self).inv(),
            scan_post::<T>(old(self).st(), final(self).st(), r),
    ;

    /// Parse the text before the first occurrence of `next` as a `T`,
    /// advancing past the match.
    fn scan_to<T: FromText>(&mut self, next: &Pattern) -> (r: Result<T, String>)
        requires
            old(self).inv(),
        ensures
            final(self).inv(),
            scan_to_post::<T>(old(self).st(), final(self).st(), next.chars(), r),
    ;
}

/// A scanner over an in-memory source text, buffering one line at a time.
pub struct LineReadScanner {
    input: Vec<char>,
    read_pos: usize,
    cur_line: Option<Vec<char>>,
    cur_pos: usize,
}

impl LineReadScanner {
    /// A scanner bound to the source text `input`.
    pub fn new(input: Vec<char>) -> (s: LineReadScanner)
        ensures
            s.inv(),
            s.st() == initial(input@),
    {
        LineReadScanner { input, read_pos: 0, cur_line: None, cur_pos: 0 }
    }

    /// Read the next physical line from the source, stripping at most one
    /// trailing newline; at the end of the source, buffer no line.
    fn read_line(&mut self)
        requires
            old(self).inv(),
        ensures
            final(self).inv(),
            read_line_post(old(self).st(), final(self).st()),
    {
        let n = self.input.len();
        if self.read_pos == n {
            self.cur_line = None;
            self.cur_pos = 0;
            return;
        }
        let mut j = self.read_pos;
        while j < n && self.input[j] != '\n'
            invariant
                self == old(self),
                self.read_pos <= j <= n,
                n == self.input@.len(),
                forall|m: int| self.read_pos <= m < j ==> self.input@[m] != '\n',
            decreases n - j,
        {
            j = j + 1;
        }
        proof {
            lemma_line_end_first(self.input@, self.read_pos as int, j as int);
        }
        let line = copy_range(&self.input, self.read_pos, j);
        self.cur_line = Some(line);
        self.read_pos = if j < n {
            j + 1
        } else {
            j
        };
        self.cur_pos = 0;
    }

    /// Restore the canonical state: while the buffered line is absent or
    /// fully read, read on, skipping empty lines, until a line with
    /// unread characters arrives or the source is drained.
    fn advance_line(&mut self)
        requires
            old(self).inv(),
        ensures
            final(self).inv(),
            final(self).st() == canonical(old(self).st()),
    {
        proof {
            lemma_canonical_props(old(self).st());
        }
        loop
            invariant
                self.inv(),
                canonical(self.st()) == canonical(old(self).st()),
            ensures
                self.inv(),
                self.st() == canonical(old(self).st()),
            decreases self.input@.len() - self.read_pos,
        {
            let is_ready = match &self.cur_line {
                Some(line) => self.cur_pos < line.len(),
                None => false,
            };
            if is_ready {
                proof {
                    assert(ready(self.st()));
                    assert(canonical(self.st()) == self.st());
                }
                break;
            }
            let ghost pre = self.st();
            self.read_line();
            proof {
                lemma_canonical_read_step(pre, self.st());
            }
            if self.cur_line.is_none() {
                proof {
                    assert(self.st() == canonical(self.st()));
                }
                break;
            }
        }
    }
}

impl Scanner for LineReadScanner {
    closed spec fn st(&self) -> ScanState {
        ScanState {
            src: self.input@,
            pos: self.read_pos as int,
            line: match self.cur_line {
                Some(l) => Some(l@),
                None => None,
            },
            cur: self.cur_pos as int,
        }
    }

    open spec fn inv(&self) -> bool {
        st_wf(self.st())
    }

    fn expect(&mut self, p: &Pattern) -> (r: Result<usize, String>) {
        proof {
            lemma_canonical_props(old(self).st());
        }
        self.advance_line();
        let ghost c = self.st();
        match &self.cur_line {
            None => Err(String::new()),
            Some(line) => {
                let llen = line.len();
                if check_match_at(line, self.cur_pos, p) {
                    let n = p.len();
                    self.cur_pos = self.cur_pos + n;
                    Ok(n)
                } else {
                    Err(string_of_range(line, self.cur_pos, llen))
                }
            },
        }
    }

    fn has_next(&mut self) -> (r: bool) {
        proof {
            lemma_canonical_props(old(self).st());
        }
        self.advance_line();
        self.cur_line.is_some()
    }

    fn next(&mut self) -> (r: Result<char, String>) {
        proof {
            lemma_canonical_props(old(self).st());
        }
        self.advance_line();
        let ghost c = self.st();
        match &self.cur_line {
            None => Err(String::new()),
            Some(line) => {
                // the length bound keeps the cursor step below from overflowing
                let _llen = line.len();
                let ch = line[self.cur_pos];
                self.cur_pos = self.cur_pos + 1;
                proof {
                    assert(remainder(c)[0] == ch);
                }
                Ok(ch)
            },
        }
    }

    #[verifier::loop_isolation(false)]
    fn scan_str(&mut self, result: &mut Vec<char>) -> (r: Result<usize, String>) {
        proof {
            lemma_canonical_props(old(self).st());
        }
        self.advance_line();
        let ghost c = self.st();
        match &self.cur_line {
            None => Err(String::new()),
            Some(line) => {
                let ghost rest = remainder(c);
                let llen = line.len();
                let rlen = result.len();
                let rest_len = llen - self.cur_pos;
                let end = if rlen < rest_len {
                    rlen
                } else {
                    rest_len
                };
                let mut k: usize = 0;
                while k < end
                    invariant
                        k <= end,
                        result@ == rest.subrange(0, k as int) + old(result)@.subrange(
                            k as int,
                            rlen as int,
                        ),
                    decreases end - k,
                {
                    result.set(k, line[self.cur_pos + k]);
                    proof {
                        assert(line@[c.cur + k] == rest[k as int]);
                        assert(result@ =~= rest.subrange(0, (k + 1) as int) + old(
                            result,
                        )@.subrange((k + 1) as int, rlen as int));
                    }
                    k = k + 1;
                }
                self.cur_pos = self.cur_pos + end;
                Ok(rlen)
            },
        }
    }

    #[verifier::loop_isolation(false)]
    fn scan_str_to(&mut self, result: &mut Vec<char>, next: &Pattern) -> (r: Result<
        usize,
        String,
    >) {
        proof {
            lemma_canonical_props(old(self).st());
        }
        self.advance_line();
        let ghost c = self.st();
        match &self.cur_line {
            None => Err(String::new()),
            Some(line) => {
                let ghost rest = remainder(c);
                let llen = line.len();
                match find_in_rest(line, self.cur_pos, next) {
                    None => Err(string_of_range(line, self.cur_pos, llen)),
                    Some(i) => {
                        let rlen = result.len();
                        let end = if rlen < i {
                            rlen
                        } else {
                            i
                        };
                        let mut k: usize = 0;
                        while k < end
                            invariant
                                k <= end,
                                result@ == rest.subrange(0, k as int) + old(result)@.subrange(
                                    k as int,
                                    rlen as int,
                                ),
                            decreases end - k,
                        {
                            result.set(k, line[self.cur_pos + k]);
                            proof {
                                assert(line@[c.cur + k] == rest[k as int]);
                                assert(result@ =~= rest.subrange(0, (k + 1) as int) + old(
                                    result,
                                )@.subrange((k + 1) as int, rlen as int));
                            }
                            k = k + 1;
                        }
                        let plen = next.len();
                        self.cur_pos = self.cur_pos + i + plen;
                        Ok(rlen)
                    },
                }
            },
        }
    }

    fn scan<T: FromText>(&mut self) -> (r: Result<T, String>) {
        proof {
            lemma_canonical_props(old(self).st());
        }
        self.advance_line();
        let ghost c = self.st();
        let rest_vec: Option<Vec<char>> = match &self.cur_line {
            None => None,
            Some(line) => Some(copy_range(line, self.cur_pos, line.len())),
        };
        match rest_vec {
            None => Err(String::new()),
            Some(rest_vec) => {
                self.cur_line = None;
                self.cur_pos = 0;
                let parsed: Option<T> = T::from_text(rest_vec.as_slice());
                match parsed {
                    Some(t) => Ok(t),
                    None => Err(string_of_chars(rest_vec.as_slice())),
                }
            },
        }
    }

    fn scan_to<T: FromText>(&mut self, next: &Pattern) -> (r: Result<T, String>) {
        proof {
            lemma_canonical_props(old(self).st());
        }
        self.advance_line();
        let ghost c = self.st();
        match &self.cur_line {
            None => Err(String::new()),
            Some(line) => {
                let ghost rest = remainder(c);
                let llen = line.len();
                match find_in_rest(line, self.cur_pos, next) {
                    None => Err(string_of_range(line, self.cur_pos, llen)),
                    Some(i) => {
                        let tok = copy_range(line, self.cur_pos, self.cur_pos + i);
                        proof {
                            assert(tok@ =~= rest.subrange(0, i as int));
                        }
                        let plen = next.len();
                        self.cur_pos = self.cur_pos + i + plen;
                        let parsed: Option<T> = T::from_text(tok.as_slice());
                        match parsed {
                            Some(t) => Ok(t),
                            None => Err(string_of_chars(tok.as_slice())),
                        }
                    },
                }
            },
        }
    }
}

/// A scanner over the in-memory text `input`.
pub fn scan_str(input: &str) -> (s: LineReadScanner)
    ensures
        s.inv(),
        s.st() == initial(input@),
{
    LineReadScanner::new(chars_of_str(input))
}

/// Two availability checks in a row return the same answer, and the
/// second one changes nothing: any line-skipping happens at the first.
pub proof fn lemma_has_next_idempotent(
    s0: ScanState,
    s1: ScanState,
    r1: bool,
    s2: ScanState,
    r2: bool,
)
    requires
        st_wf(s0),
        has_next_post(s0, s1, r1),
        has_next_post(s1, s2, r2),
    ensures
        s2 == s1,
        r2 == r1,
{
    lemma_canonical_props(s0);
}

/// When the scanner reports a line buffered, the cursor lies strictly
/// before the line's end: something is left to read.  The cursor is a
/// character index, so it can never sit inside a multi-byte character.
pub proof fn lemma_buffered_implies_unread(pre: ScanState, post: ScanState, r: bool)
    requires
        st_wf(pre),
        has_next_post(pre, post, r),
        r,
    ensures
        post.line is Some,
        0 <= post.cur < post.line.unwrap().len(),
{
    lemma_canonical_props(pre);
}

/// A failed single-character read leaves the scanner exhausted for good:
/// the whole source is consumed, and any later availability check fails
/// and changes nothing.
pub proof fn lemma_next_failure_exhausts(
    pre: ScanState,
    post: ScanState,
    r: Result<char, String>,
    post2: ScanState,
    r2: bool,
)
    requires
        st_wf(pre),
        next_post(pre, post, r),
        r is Err,
        has_next_post(post, post2, r2),
    ensures
        post.line is None,
        post.pos == pre.src.len(),
        r2 == false,
        post2 == post,
{
    lemma_canonical_props(pre);
}

/// A successful scan up to a delimiter consumes the delimiter occurrence
/// it matched: the occurrence begins at offset `i` of the old unread
/// suffix, the new cursor stands past its end, and the new unread suffix
/// is exactly the text after the match, so a following search, which
/// starts at the cursor, can never see that occurrence again.
pub proof fn lemma_scan_to_consumes_delimiter<T: FromText>(
    pre: ScanState,
    post: ScanState,
    pat: Seq<char>,
    r: Result<T, String>,
    i: int,
)
    requires
        st_wf(pre),
        scan_to_post::<T>(pre, post, pat, r),
        canonical(pre).line is Some,
        first_match(remainder(canonical(pre)), pat) == Some(i),
    ensures
        post.line == canonical(pre).line,
        post.cur == canonical(pre).cur + i + pat.len(),
        pat.len() > 0 ==> post.cur > canonical(pre).cur + i,
        remainder(post) == remainder(canonical(pre)).subrange(
            i + pat.len() as int,
            remainder(canonical(pre)).len() as int,
        ),
{
    let c = canonical(pre);
    let rest = remainder(c);
    lemma_canonical_props(pre);
    crate::pattern::lemma_first_match_is_match(rest, pat, i);
    assert(remainder(post) =~= rest.subrange(i + pat.len() as int, rest.len() as int));
}

} // verus!
