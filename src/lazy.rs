use crate::cursor::{
    advance, first_not_before, lemma_advance_concat, lemma_advance_from_line_start,
    lemma_advance_line, lemma_line_monotone, lemma_locate, lemma_position_of_all,
    lemma_position_of_prefix, lemma_position_of_step, locate, position_of,
};
use crate::position::{push_char, Position};
use crate::source::{end_item, CharSource};
use crate::span::Span;
use vstd::prelude::*;

verus! {

/// What looking up `pos` gives in a text `s` that starts at `p` and ends
/// with `failure`: the index of the character at `pos`; nothing where `pos`
/// comes before the text, is no character's boundary, or lies past a text
/// that ends cleanly; the error where it lies past a text that fails.
pub open spec fn lookup<E>(p: Position, s: Seq<char>, failure: Option<E>, pos: Position) -> Option<Result<usize, E>> {
    if pos.precedes(p) {
        None
    } else if pos.precedes(advance(p, s)) {
        let k = locate(p, s, pos);
        if position_of(p, s, k) == pos {
            Some(Ok(k as usize))
        } else {
            None
        }
    } else {
        end_item(failure)
    }
}

/// Where reading one line of a text `s` that starts at `p` stops, from
/// index `i` on line `line`: just past the first character that moves the
/// cursor off that line, or at the end of the text.
pub open spec fn line_end(p: Position, s: Seq<char>, i: int, line: int) -> int
    decreases s.len() - i,
{
    if i < 0 || i >= s.len() {
        s.len() as int
    } else if position_of(p, s, i + 1).line != line {
        i + 1
    } else {
        line_end(p, s, i + 1, line)
    }
}

/// The position `e` is no later than the beginning of the line after
/// `line`.
pub open spec fn ends_by_line(e: Position, line: int) -> bool {
    e.line <= line || (e.line == line + 1 && e.column == 0)
}

/// What reading index `i` of a text `s` that ends with `failure` gives.
pub open spec fn char_at<E>(s: Seq<char>, failure: Option<E>, i: int) -> Option<Result<char, E>> {
    if 0 <= i < s.len() {
        Some(Ok(s[i]))
    } else {
        end_item(failure)
    }
}

/// What looking up the character at `pos` gives in a text `s` that starts
/// at `p` and ends with `failure`.
pub open spec fn char_lookup<E>(p: Position, s: Seq<char>, failure: Option<E>, pos: Position) -> Option<Result<char, E>> {
    match lookup(p, s, failure, pos) {
        Some(Ok(k)) => Some(Ok(s[k as int])),
        Some(Err(e)) => Some(Err(e)),
        None => None,
    }
}

/// The later of two positions.
pub open spec fn later(a: Position, b: Position) -> Position {
    if a.precedes(b) {
        b
    } else {
        a
    }
}

/// What iterating over a text `s` that ends with `failure` gives, from index
/// `i` at position `pos` up to the bound `end`: the characters met before
/// reaching `end`, or the error where the text fails first.
pub open spec fn drained<E>(s: Seq<char>, failure: Option<E>, i: int, pos: Position, end: Position) -> Result<Seq<char>, E>
    decreases s.len() - i,
{
    if !pos.precedes(end) {
        Ok(Seq::empty())
    } else if 0 <= i < s.len() {
        match drained(s, failure, i + 1, pos.next_spec(s[i]), end) {
            Ok(t) => Ok(seq![s[i]] + t),
            Err(e) => Err(e),
        }
    } else {
        match failure {
            Some(e) => Err(e),
            None => Ok(Seq::empty()),
        }
    }
}

/// Whether iterating over a text `s` from index `i` at position `pos` runs
/// past the text's end before reaching the bound `end`.
pub open spec fn runs_out(s: Seq<char>, i: int, pos: Position, end: Position) -> bool
    decreases s.len() - i,
{
    if !pos.precedes(end) {
        false
    } else if 0 <= i < s.len() {
        runs_out(s, i + 1, pos.next_spec(s[i]), end)
    } else {
        true
    }
}

/// Whether iterating over `span` in a text `s` that starts at `p` runs past
/// the text's end before reaching the span's end.
pub open spec fn span_runs_out<E>(p: Position, s: Seq<char>, failure: Option<E>, span: Span) -> bool {
    match lookup(p, s, failure, later(p, span.start)) {
        Some(Ok(k)) => runs_out(s, k as int, later(p, span.start), span.end),
        _ => false,
    }
}

/// `t` preceded by the characters `a`, or the error of `t`.
pub open spec fn prepend<E>(a: Seq<char>, t: Result<Seq<char>, E>) -> Result<Seq<char>, E> {
    match t {
        Ok(u) => Ok(a + u),
        Err(e) => Err(e),
    }
}

/// Where an iterator starts after looking up its first position.
pub open spec fn step_of<E>(found: Option<Result<usize, E>>) -> Step<E> {
    match found {
        Some(Ok(i)) => Step::At(i),
        Some(Err(e)) => Step::Failed(e),
        None => Step::Done,
    }
}

/// What draining an iterator over `span` gives, in a text `s` that starts
/// at `p` and ends with `failure`.
pub open spec fn span_text<E>(p: Position, s: Seq<char>, failure: Option<E>, span: Span) -> Result<Seq<char>, E> {
    let q = later(p, span.start);
    match lookup(p, s, failure, q) {
        Some(Ok(k)) => drained(s, failure, k as int, q, span.end),
        Some(Err(e)) => if q.precedes(span.end) {
            Err(e)
        } else {
            Ok(Seq::empty())
        },
        None => Ok(Seq::empty()),
    }
}

/// An error is given once: where looking up a position gives the source's
/// error, the same lookup once that error is handed out gives nothing.
pub proof fn lemma_error_once<E>(p: Position, s: Seq<char>, failure: Option<E>, pos: Position)
    requires
        char_lookup(p, s, failure, pos) matches Some(Err(_)),
    ensures
        char_lookup(p, s, None::<E>, pos) is None,
{
}

proof fn lemma_drain_upto<E>(p: Position, s: Seq<char>, failure: Option<E>, i: int, n: int)
    requires
        0 <= i <= n <= s.len(),
        forall|j: int| i <= j < n ==> #[trigger] position_of(p, s, j).precedes(position_of(p, s, n)),
    ensures
        drained(s, failure, i, position_of(p, s, i), position_of(p, s, n)) == Ok::<Seq<char>, E>(s.subrange(i, n)),
    decreases n - i,
{
    if i == n {
        assert(s.subrange(i, n) =~= Seq::<char>::empty());
    } else {
        lemma_position_of_step(p, s, i);
        lemma_drain_upto(p, s, failure, i + 1, n);
        assert(seq![s[i]] + s.subrange(i + 1, n) =~= s.subrange(i, n));
    }
}

/// What an iteration that runs past the end of a text that ends with
/// `failure` gives there.
pub open spec fn end_text<E>(failure: Option<E>) -> Result<Seq<char>, E> {
    match failure {
        Some(e) => Err(e),
        None => Ok(Seq::empty()),
    }
}

/// Without carriage returns, and below the last line, positions never go
/// backwards along a text.
proof fn lemma_positions_monotone(p: Position, s: Seq<char>, i: int, j: int)
    requires
        0 <= i <= j <= s.len(),
        forall|x: int| 0 <= x < s.len() ==> #[trigger] s[x] != '\r',
        advance(p, s).line < usize::MAX,
    ensures
        position_of(p, s, i).not_after(position_of(p, s, j)),
    decreases j - i,
{
    if i < j {
        lemma_positions_monotone(p, s, i, j - 1);
        lemma_position_of_step(p, s, j - 1);
        lemma_position_of_all(p, s);
        lemma_line_monotone(p, s, j - 1, s.len() as int);
        position_of(p, s, j - 1).lemma_next_not_before(s[j - 1]);
    }
}

proof fn lemma_drain_monotone<E>(p: Position, s: Seq<char>, failure: Option<E>, i: int, end: Position) -> (m: int)
    requires
        0 <= i <= s.len(),
    ensures
        i <= m <= s.len(),
        forall|j: int| i <= j < m ==> #[trigger] position_of(p, s, j).precedes(end),
        m < s.len() ==> !position_of(p, s, m).precedes(end),
        drained(s, failure, i, position_of(p, s, i), end) == if m == s.len() && position_of(p, s, m).precedes(end) {
            prepend(s.subrange(i, m), end_text(failure))
        } else {
            Ok(s.subrange(i, m))
        },
    decreases s.len() - i,
{
    if !position_of(p, s, i).precedes(end) {
        assert(s.subrange(i, i) =~= Seq::<char>::empty());
        i
    } else if i < s.len() {
        lemma_position_of_step(p, s, i);
        let m = lemma_drain_monotone(p, s, failure, i + 1, end);
        assert(seq![s[i]] + s.subrange(i + 1, m) =~= s.subrange(i, m));
        match end_text(failure) {
            Ok(u) => {
                assert(seq![s[i]] + (s.subrange(i + 1, m) + u) =~= s.subrange(i, m) + u);
            },
            Err(_) => {},
        }
        m
    } else {
        assert(s.subrange(i, i) =~= Seq::<char>::empty());
        match end_text(failure) {
            Ok(u) => {
                assert(s.subrange(i, i) + u =~= u);
            },
            Err(_) => {},
        }
        i
    }
}

/// Iterating over a span gives exactly the characters whose positions fall
/// in it, in order, then the text's error where the text fails before the
/// span's end. This holds where the span's start (or the text's start, if
/// later) is the position of a character, and the text, whose indices are
/// `usize` values, holds no carriage return and stays below the last line.
pub proof fn lemma_span_exact<E>(p: Position, s: Seq<char>, failure: Option<E>, span: Span)
    requires
        forall|x: int| 0 <= x < s.len() ==> #[trigger] s[x] != '\r',
        advance(p, s).line < usize::MAX,
        s.len() <= usize::MAX,
        lookup(p, s, failure, later(p, span.start)) matches Some(Ok(_)),
    ensures
        exists|k: int, m: int|
            {
                &&& 0 <= k <= m <= s.len()
                &&& forall|i: int|
                    0 <= i < s.len() ==> ((k <= i < m) <==> (span.start.not_after(#[trigger] position_of(p, s, i))
                        && position_of(p, s, i).precedes(span.end)))
                &&& span_text(p, s, failure, span) == if m == s.len() && advance(p, s).precedes(span.end) {
                    prepend(s.subrange(k, m), end_text(failure))
                } else {
                    Ok(s.subrange(k, m))
                }
            },
{
    let q = later(p, span.start);
    let k = locate(p, s, q);
    lemma_locate(p, s, q, 0);
    lemma_position_of_all(p, s);
    assert(position_of(p, s, k) == q);
    assert(k < s.len());
    assert(span_text(p, s, failure, span) == drained(s, failure, k, q, span.end));
    let m = lemma_drain_monotone(p, s, failure, k, span.end);
    assert(s.take(0) =~= Seq::<char>::empty());
    assert forall|i: int|
        0 <= i < s.len() implies ((k <= i < m) <==> (span.start.not_after(#[trigger] position_of(p, s, i))
            && position_of(p, s, i).precedes(span.end))) by {
        lemma_in_span(p, s, span, k, m, i);
    }
}

/// Where no character of the text stands at or after the span's start (or
/// the text's start, if later), iterating over the span gives no character:
/// nothing, or the text's error where the text fails before the span's end.
/// This holds where the text holds no carriage return and stays below the
/// last line.
pub proof fn lemma_span_past_text<E>(p: Position, s: Seq<char>, failure: Option<E>, span: Span)
    requires
        forall|x: int| 0 <= x < s.len() ==> #[trigger] s[x] != '\r',
        advance(p, s).line < usize::MAX,
        forall|k: int| 0 <= k < s.len() ==> #[trigger] position_of(p, s, k).precedes(later(p, span.start)),
    ensures
        forall|i: int|
            0 <= i < s.len() ==> !(span.start.not_after(#[trigger] position_of(p, s, i))
                && position_of(p, s, i).precedes(span.end)),
        span_text(p, s, failure, span) == if later(p, span.start).precedes(span.end) && !later(
            p,
            span.start,
        ).precedes(advance(p, s)) {
            end_text(failure)
        } else {
            Ok(Seq::empty())
        },
{
    let q = later(p, span.start);
    assert(s.take(0) =~= Seq::<char>::empty());
    lemma_position_of_all(p, s);
    assert forall|i: int|
        0 <= i < s.len() implies !(span.start.not_after(#[trigger] position_of(p, s, i))
            && position_of(p, s, i).precedes(span.end)) by {
        lemma_positions_monotone(p, s, 0, i);
        assert(position_of(p, s, i).precedes(q));
    }
    if q.precedes(advance(p, s)) {
        lemma_locate(p, s, q, s.len() as int);
        assert(first_not_before(p, s, q, s.len() as int));
    }
}

proof fn lemma_in_span(p: Position, s: Seq<char>, span: Span, k: int, m: int, i: int)
    requires
        forall|x: int| 0 <= x < s.len() ==> #[trigger] s[x] != '\r',
        advance(p, s).line < usize::MAX,
        0 <= k <= m <= s.len(),
        0 <= i < s.len(),
        position_of(p, s, k) == later(p, span.start),
        forall|j: int| 0 <= j < k ==> #[trigger] position_of(p, s, j).precedes(later(p, span.start)),
        forall|j: int| k <= j < m ==> #[trigger] position_of(p, s, j).precedes(span.end),
        m < s.len() ==> !position_of(p, s, m).precedes(span.end),
        position_of(p, s, 0) == p,
    ensures
        (k <= i < m) <==> (span.start.not_after(position_of(p, s, i)) && position_of(p, s, i).precedes(span.end)),
{
    lemma_positions_monotone(p, s, 0, i);
    if i < k {
        assert(position_of(p, s, i).precedes(later(p, span.start)));
    } else {
        lemma_positions_monotone(p, s, k, i);
        if m <= i {
            lemma_positions_monotone(p, s, m, i);
        }
    }
}

/// State of an [`Iter`].
pub enum Step<E> {
    /// The next character to give is at this index of the text.
    At(usize),
    /// The source failed; this error is given next, then nothing.
    Failed(E),
    /// Nothing more is given.
    Done,
}

/// Iterator over the characters of a [`Buffer`], from a position up to an
/// exclusive bound.
///
/// It is created by [`Buffer::iter`], [`Buffer::iter_from`] or
/// [`Buffer::iter_span`] and driven by [`Iter::next`] on the same buffer,
/// which reads the source as far as the iteration goes.
pub struct Iter<E> {
    step: Step<E>,
    pos: Position,
    end: Position,
}

impl<E> Iter<E> {
    /// The iterator's state.
    pub closed spec fn step(&self) -> Step<E> {
        self.step
    }

    /// Position of the next character.
    pub closed spec fn position(&self) -> Position {
        self.pos
    }

    /// Position where the iteration stops.
    pub closed spec fn bound(&self) -> Position {
        self.end
    }

    /// What the rest of the iteration gives over a text `s` that ends with
    /// `failure`.
    pub open spec fn rest(&self, s: Seq<char>, failure: Option<E>) -> Result<Seq<char>, E> {
        match self.step() {
            Step::At(i) => drained(s, failure, i as int, self.position(), self.bound()),
            Step::Failed(e) => if self.position().precedes(self.bound()) {
                Err(e)
            } else {
                Ok(Seq::empty())
            },
            Step::Done => Ok(Seq::empty()),
        }
    }

    /// The iterator walks the text `s` that starts at `p`: its position is
    /// that of the character it gives next.
    pub open spec fn tracks(&self, p: Position, s: Seq<char>) -> bool {
        self.step() matches Step::At(i) ==> i <= s.len() && self.position() == position_of(p, s, i as int)
    }

    /// Whether the rest of the iteration runs past the end of the text `s`
    /// before reaching the bound.
    pub open spec fn runs_out(&self, s: Seq<char>) -> bool {
        match self.step() {
            Step::At(i) => runs_out(s, i as int, self.position(), self.bound()),
            _ => false,
        }
    }

    /// How many characters of `s` are left to give, at most.
    pub open spec fn left(&self, s: Seq<char>) -> int {
        match self.step() {
            Step::At(i) => if i < s.len() {
                s.len() - i
            } else {
                0
            },
            _ => 0,
        }
    }

    /// Give the next character of `buffer`, or the error where its source
    /// fails first; `None` once the bound or the end of the text is reached.
    pub fn next<S: CharSource<Error = E>>(&mut self, buffer: &mut Buffer<S>) -> (r: Option<Result<char, E>>)
        requires
            old(buffer).wf(),
        ensures
            final(buffer).wf(),
            final(buffer).start() == old(buffer).start(),
            final(buffer).content() == old(buffer).content(),
            old(buffer).consumed().is_prefix_of(final(buffer).consumed()),
            r matches Some(Err(_)) ==> final(self).step() is Done,
            (r matches Some(Err(_)) && old(self).step() is At) ==> final(buffer).failure() is None,
            !(r matches Some(Err(_)) && old(self).step() is At) ==> final(buffer).failure() == old(
                buffer,
            ).failure(),
            !old(self).position().precedes(old(self).bound()) ==> r is None && *final(self) == *old(self),
            !old(self).position().precedes(old(self).bound()) ==> *final(buffer) == *old(buffer),
            (old(self).step() matches Step::At(i) && i < old(buffer).consumed().len()) ==> *final(buffer)
                == *old(buffer),
            old(self).position().precedes(old(self).bound()) ==> match old(self).step() {
                Step::At(i) => r == char_at(old(buffer).content(), old(buffer).failure(), i as int),
                Step::Failed(e) => r == Some(Err::<char, E>(e)),
                Step::Done => r is None,
            },
            r matches Some(Ok(c)) ==> {
                &&& old(self).step() matches Step::At(i)
                &&& i < final(buffer).consumed().len() <= usize::MAX
                &&& final(self).step() == Step::<E>::At((i + 1) as usize)
                &&& final(self).position() == old(self).position().next_spec(c)
                &&& final(self).bound() == old(self).bound()
            },
            r is None ==> final(self).rest(old(buffer).content(), old(buffer).failure()) == old(self).rest(
                old(buffer).content(),
                old(buffer).failure(),
            ),
            !(old(self).step() is At) ==> *final(buffer) == *old(buffer),
            old(self).tracks(old(buffer).start(), old(buffer).content()) ==> final(self).tracks(
                old(buffer).start(),
                old(buffer).content(),
            ),
            old(self).tracks(old(buffer).start(), old(buffer).content()) && old(self).position().precedes(
                old(self).bound(),
            ) ==> final(buffer).consumed() == old(buffer).consumed() || ends_by_line(
                advance(final(buffer).start(), final(buffer).consumed()),
                old(self).bound().line as int,
            ),
            (old(self).step() matches Step::At(i) && i >= old(buffer).content().len()
                && old(self).position().precedes(old(self).bound()))
                ==> final(buffer).consumed() == final(buffer).content(),
    {
        if !self.pos.before(&self.end) {
            return None;
        }
        let mut step = Step::Done;
        std::mem::swap(&mut step, &mut self.step);
        match step {
            Step::At(i) => {
                let ghost p = buffer.start();
                let ghost text = buffer.content();
                let r = buffer.get(i);
                proof {
                    if old(self).tracks(p, text) {
                        lemma_position_of_all(p, text);
                        if i < text.len() {
                            lemma_position_of_step(p, text, i as int);
                        }
                    }
                }
                match r {
                    Some(Ok(c)) => {
                        self.pos = self.pos.next(c);
                        self.step = Step::At(i + 1);
                        Some(Ok(c))
                    },
                    Some(Err(e)) => Some(Err(e)),
                    None => None,
                }
            },
            Step::Failed(e) => Some(Err(e)),
            Step::Done => None,
        }
    }
}
/// State of the error that ends the source, as far as the buffer knows it.
pub enum Fault<E> {
    /// The source has not failed.
    Clear,
    /// The source failed with this error, which nobody has been given yet.
    Pending(E),
    /// The source failed and its error has been given out.
    Reported,
}

/// Lazy character buffer that fills up on demand.
///
/// The buffer wraps a character source and gives access to its characters
/// by position. It reads the source one full line at a time, only as far as
/// a request needs, keeps everything it has read, and never reads past an
/// error.
pub struct Buffer<S: CharSource> {
    source: S,
    fault: Fault<S::Error>,
    /// Characters read so far.
    data: Vec<char>,
    /// Index in `data` of the first character of each buffered line.
    lines: Vec<usize>,
    /// Span of the characters read so far.
    span: Span,
}

impl<S: CharSource> Buffer<S> {
    /// Position of the first character of the buffer.
    pub closed spec fn start(&self) -> Position {
        self.span.start
    }

    /// The characters read from the source so far.
    pub closed spec fn consumed(&self) -> Seq<char> {
        self.data@
    }

    /// The whole text: what was read so far, then what the source will still
    /// give.
    pub closed spec fn content(&self) -> Seq<char> {
        match self.fault {
            Fault::Clear => self.data@ + self.source.pending(),
            _ => self.data@,
        }
    }

    /// The error that ends the text and that nobody has been given yet.
    pub closed spec fn failure(&self) -> Option<S::Error> {
        match self.fault {
            Fault::Clear => self.source.failure(),
            Fault::Pending(e) => Some(e),
            Fault::Reported => None,
        }
    }

    /// Whether the buffer holds the whole text, and nothing is left to read
    /// from the source.
    closed spec fn complete(&self) -> bool {
        !(self.fault is Clear) || (self.source.pending().len() == 0 && self.source.failure() is None)
    }

    /// The internal invariant of the buffer.
    pub closed spec fn wf(&self) -> bool {
        let start = self.span.start;
        &&& self.span.end == advance(start, self.data@)
        &&& self.lines@.len() == self.span.end.line - start.line + 1
        &&& self.lines@[0] == 0
        &&& forall|k: int|
            0 < k < self.lines@.len() ==> {
                &&& 0 < #[trigger] self.lines@[k] <= self.data@.len()
                &&& self.data@[self.lines@[k] - 1] == '\n'
                &&& position_of(start, self.data@, self.lines@[k] - 1).line == start.line + k - 1
            }
        &&& (self.fault is Clear && self.data@.len() != self.lines@.last()) ==> self.source.pending().len() == 0
    }

    /// Create a new empty buffer over `input`, whose first character stands
    /// at `position`.
    pub fn new(input: S, position: Position) -> (r: Buffer<S>)
        ensures
            r.wf(),
            r.start() == position,
            r.consumed() == Seq::<char>::empty(),
            r.content() == input.pending(),
            r.failure() == input.failure(),
    {
        let mut lines: Vec<usize> = Vec::new();
        lines.push(0);
        let r = Buffer { source: input, fault: Fault::Clear, data: Vec::new(), lines, span: Span::at(position) };
        proof {
            assert(r.data@ + r.source.pending() =~= r.source.pending());
        }
        r
    }

    /// Get the span of the entire buffered data.
    pub fn span(&self) -> (r: Span)
        requires
            self.wf(),
        ensures
            r.start == self.start(),
            r.end == advance(self.start(), self.consumed()),
    {
        self.span
    }

    /// Read the next line from the source and add it to the buffer: pull
    /// characters until one moves the cursor to a new line, then record where
    /// that line starts. Returns `true` if a whole line has been added,
    /// `false` where the source ended or failed first, or had already failed;
    /// in that last case nothing is pulled.
    fn read_line(&mut self) -> (r: bool)
        requires
            old(self).wf(),
        ensures
            final(self).wf(),
            final(self).start() == old(self).start(),
            final(self).content() == old(self).content(),
            final(self).failure() == old(self).failure(),
            old(self).consumed().is_prefix_of(final(self).consumed()),
            r ==> final(self).consumed().len() > old(self).consumed().len(),
            !r ==> final(self).complete(),
            old(self).fault is Clear ==> ({
                let j = line_end(
                    old(self).start(),
                    old(self).content(),
                    old(self).consumed().len() as int,
                    old(self).span.end.line as int,
                );
                &&& final(self).consumed() == old(self).content().take(j)
                &&& r == (position_of(old(self).start(), old(self).content(), j).line != old(self).span.end.line)
            }),
            !(old(self).fault is Clear) ==> !r && *final(self) == *old(self),
            r ==> final(self).lines@ == old(self).lines@.push(final(self).consumed().len() as usize),
            r ==> final(self).span.end == (Position { line: (old(self).span.end.line + 1) as usize, column: 0 }),
            !r ==> final(self).lines@ == old(self).lines@,
            !r ==> final(self).span.end.line == old(self).span.end.line,
    {
        match &self.fault {
            Fault::Clear => {},
            _ => {
                return false;
            },
        }
        let line = self.span.end.line;
        let ghost start = self.span.start;
        let ghost old_data = self.data@;
        let ghost text = self.data@ + self.source.pending();
        proof {
            lemma_advance_line(start, self.data@);
            assert(self.data@ =~= text.take(self.data@.len() as int));
        }
        while line == self.span.end.line
            invariant
                self.fault is Clear,
                self.span.start == start,
                start == old(self).span.start,
                old(self).fault is Clear,
                text == old(self).content(),
                self.lines@.len() == line - start.line + 1,
                self.lines@.len() > 0 && self.lines@[0] == 0,
                self.span.end == advance(start, self.data@),
                self.data@ + self.source.pending() == text,
                self.source.failure() == old(self).source.failure(),
                old_data.is_prefix_of(self.data@),
                self.lines@ == old(self).lines@,
                line == old(self).span.end.line,
                old_data == old(self).data@,
                self.data@.len() <= text.len(),
                self.data@ == text.take(self.data@.len() as int),
                self.span.end.line == line ==> line_end(start, text, self.data@.len() as int, line as int)
                    == line_end(start, text, old_data.len() as int, line as int),
                self.span.end.line != line ==> self.data@.len() == line_end(start, text, old_data.len() as int, line as int),
                self.span.end.line == line || {
                    &&& self.data@.len() > 0
                    &&& self.data@.last() == '\n'
                    &&& advance(start, self.data@.drop_last()).line == line
                    &&& self.span.end.line == line + 1
                },
                forall|k: int|
                    0 < k < self.lines@.len() ==> {
                        &&& 0 < #[trigger] self.lines@[k] <= self.data@.len()
                        &&& self.data@[self.lines@[k] - 1] == '\n'
                        &&& position_of(start, self.data@, self.lines@[k] - 1).line == start.line + k - 1
                    },
            decreases self.source.pending().len(),
        {
            match self.source.pull() {
                Some(Ok(c)) => {
                    let ghost before = self.data@;
                    self.data.push(c);
                    self.span.push(c);
                    proof {
                        assert(self.data@.drop_last() =~= before);
                        advance(start, before).lemma_next_not_before(c);
                        assert(self.data@ + self.source.pending() =~= text);
                        assert(self.data@ =~= text.take(self.data@.len() as int));
                        lemma_position_of_prefix(start, self.data@, self.source.pending(), self.data@.len() as int);
                        lemma_position_of_all(start, self.data@);
                        assert forall|k: int| 0 < k < self.lines@.len() implies
                            position_of(start, self.data@, #[trigger] self.lines@[k] - 1)
                                == position_of(start, before, self.lines@[k] - 1) by {
                            assert(self.data@ =~= before + seq![c]);
                            lemma_position_of_prefix(start, before, seq![c], self.lines@[k] - 1);
                        }
                    }
                },
                Some(Err(e)) => {
                    proof {
                        self.lemma_read_all(text, line as int, old_data);
                    }
                    self.fault = Fault::Pending(e);
                    return false;
                },
                None => {
                    proof {
                        self.lemma_read_all(text, line as int, old_data);
                    }
                    return false;
                },
            }
        }
        proof {
            let n = self.data@.len() as int;
            assert(self.data@.take(n - 1) =~= self.data@.drop_last());
            lemma_position_of_prefix(start, self.data@, self.source.pending(), n);
            lemma_position_of_all(start, self.data@);
            assert(self.data@ + self.source.pending() =~= text);
        }
        self.lines.push(self.data.len());
        true
    }

    /// Once the source has nothing left, what was read is the whole text,
    /// and reading the line stopped at its end.
    proof fn lemma_read_all(&self, text: Seq<char>, line: int, from: Seq<char>)
        requires
            self.data@ + self.source.pending() == text,
            self.source.pending().len() == 0,
            self.span.end == advance(self.span.start, self.data@),
            self.span.end.line == line,
            line_end(self.span.start, text, self.data@.len() as int, line) == line_end(
                self.span.start,
                text,
                from.len() as int,
                line,
            ),
        ensures
            self.data@ == text,
            text.take(line_end(self.span.start, text, from.len() as int, line)) == text,
            position_of(self.span.start, text, line_end(self.span.start, text, from.len() as int, line)).line
                == line,
    {
        assert(self.data@ =~= text);
        assert(text.take(text.len() as int) =~= text);
        lemma_position_of_all(self.span.start, text);
    }

    /// The error that nobody was given yet, handed out once.
    fn take_error(&mut self) -> (r: Option<S::Error>)
        requires
            old(self).wf(),
            old(self).complete(),
        ensures
            final(self).wf(),
            final(self).complete(),
            r == old(self).failure(),
            final(self).failure() is None,
            final(self).start() == old(self).start(),
            final(self).content() == old(self).content(),
            final(self).consumed() == old(self).consumed(),
    {
        let mut fault = Fault::Reported;
        std::mem::swap(&mut fault, &mut self.fault);
        match fault {
            Fault::Pending(e) => Some(e),
            other => {
                self.fault = other;
                None
            },
        }
    }

    /// Get the character at index `i` of the text, reading the source as far
    /// as needed.
    fn get(&mut self, i: usize) -> (r: Option<Result<char, S::Error>>)
        requires
            old(self).wf(),
        ensures
            final(self).wf(),
            final(self).start() == old(self).start(),
            final(self).content() == old(self).content(),
            old(self).consumed().is_prefix_of(final(self).consumed()),
            r == char_at(old(self).content(), old(self).failure(), i as int),
            r matches Some(Ok(_)) ==> i < final(self).consumed().len() <= usize::MAX,
            r matches Some(Err(_)) ==> final(self).failure() is None,
            !(r matches Some(Err(_))) ==> final(self).failure() == old(self).failure(),
            i < old(self).consumed().len() ==> *final(self) == *old(self),
            old(self).consumed().len() <= i < old(self).content().len() ==> ends_by_line(
                advance(final(self).start(), final(self).consumed()),
                position_of(old(self).start(), old(self).content(), i as int).line as int,
            ),
            i >= old(self).content().len() ==> final(self).consumed() == final(self).content(),
    {
        let mut more = true;
        while more && i >= self.data.len()
            invariant
                self.wf(),
                self.start() == old(self).start(),
                self.content() == old(self).content(),
                self.failure() == old(self).failure(),
                old(self).consumed().is_prefix_of(self.consumed()),
                !more ==> self.complete(),
                i < old(self).consumed().len() ==> *self == *old(self),
                (i as int) < self.content().len() && self.consumed() != old(self).consumed() ==> ends_by_line(
                    self.span.end,
                    position_of(self.start(), self.content(), i as int).line as int,
                ),
            decreases self.content().len() - self.consumed().len(), if more { 1int } else { 0int },
        {
            proof {
                if (i as int) < self.content().len() {
                    self.lemma_end_line_at_most(i as int);
                }
            }
            more = self.read_line();
        }
        proof {
            self.lemma_content_not_before_end();
        }
        if i < self.data.len() {
            proof {
                assert(self.data@.len() == self.data.len());
                assert(self.content()[i as int] == self.data@[i as int]);
            }
            Some(Ok(self.data[i]))
        } else {
            proof {
                assert(self.content() =~= self.data@);
            }
            match self.take_error() {
                Some(e) => Some(Err(e)),
                None => None,
            }
        }
    }

    /// Before index `i` is read, the buffer ends on a line no later than
    /// the one of character `i`.
    proof fn lemma_end_line_at_most(&self, i: int)
        requires
            self.wf(),
            self.consumed().len() <= i <= self.content().len(),
        ensures
            self.span.end.line <= position_of(self.start(), self.content(), i).line,
    {
        let n = self.data@.len() as int;
        self.lemma_content_not_before_end();
        let s = self.content();
        assert(self.data@ + s.subrange(n, s.len() as int) =~= s);
        lemma_position_of_prefix(self.span.start, self.data@, s.subrange(n, s.len() as int), n);
        lemma_position_of_all(self.span.start, self.data@);
        lemma_line_monotone(self.span.start, s, n, i);
    }

    /// The text is at least as far as what was read, and where the reading
    /// stopped short of it, it stopped at the beginning of a line.
    proof fn lemma_content_not_before_end(&self)
        requires
            self.wf(),
        ensures
            self.content().len() >= self.consumed().len(),
            self.consumed().is_prefix_of(self.content()),
            self.content() == self.consumed() ==> advance(self.start(), self.content()) == self.span.end,
            self.consumed().len() == 0 ==> self.span.end == self.start(),
            self.content() != self.consumed() && self.consumed().len() > 0 ==> self.span.end.not_after(
                advance(self.start(), self.content()),
            ),
    {
        let start = self.span.start;
        let rest = self.content().subrange(self.data@.len() as int, self.content().len() as int);
        lemma_advance_line(start, self.data@);
        match self.fault {
            Fault::Clear => {
                assert(self.content().subrange(0, self.data@.len() as int) =~= self.data@);
                assert(self.content() =~= self.data@ + rest);
                if self.source.pending().len() == 0 {
                    assert(self.content() =~= self.data@);
                } else if self.lines@.len() > 1 {
                    let k = self.lines@.len() - 1;
                    let i = self.lines@[k];
                    assert(0 < i <= self.data@.len());
                    assert(i == self.data@.len());
                    lemma_position_of_step(start, self.data@, i - 1);
                    lemma_position_of_all(start, self.data@);
                } else {
                    assert(self.lines@.last() == self.lines@[0]);
                }
                lemma_advance_concat(start, self.data@, rest);
                if self.content() != self.consumed() && self.data@.len() > 0 {
                    lemma_advance_from_line_start(self.span.end, rest);
                }
            },
            _ => {},
        }
        if self.data@.len() == 0 {
            assert(self.data@ =~= Seq::<char>::empty());
        }
    }

    /// Get the index of the character at `pos`, reading the source as far as
    /// needed.
    ///
    /// Returns `None` where `pos` comes before the buffer's start, where the
    /// source ends cleanly before `pos`, or where no character starts at
    /// `pos` (past the end of its line, or inside a tab). Returns the source's
    /// error, once, where the source fails before `pos`.
    pub fn index_at(&mut self, pos: Position) -> (r: Option<Result<usize, S::Error>>)
        requires
            old(self).wf(),
        ensures
            final(self).wf(),
            final(self).start() == old(self).start(),
            final(self).content() == old(self).content(),
            old(self).consumed().is_prefix_of(final(self).consumed()),
            r == lookup(old(self).start(), old(self).content(), old(self).failure(), pos),
            r matches Some(Err(_)) ==> final(self).failure() is None,
            !(r matches Some(Err(_))) ==> final(self).failure() == old(self).failure(),
            r matches Some(Ok(i)) ==> i < final(self).consumed().len(),
            pos.precedes(old(self).start()) ==> *final(self) == *old(self),
            pos.precedes(advance(old(self).start(), old(self).consumed())) ==> *final(self) == *old(self),
            final(self).consumed() == old(self).consumed() || ends_by_line(
                advance(final(self).start(), final(self).consumed()),
                pos.line as int,
            ),
            r matches Some(Err(_)) ==> final(self).consumed() == final(self).content(),
            r matches Some(Ok(i)) ==> position_of(old(self).start(), old(self).content(), i as int) == pos,
            !pos.precedes(old(self).start()) ==> pos.precedes(advance(final(self).start(), final(self).consumed()))
                || final(self).consumed() == final(self).content(),
    {
        if pos.before(&self.span.start) {
            return None;
        }
        let mut more = true;
        while more && !pos.before(&self.span.end)
            invariant
                self.wf(),
                self.start() == old(self).start(),
                self.content() == old(self).content(),
                self.failure() == old(self).failure(),
                old(self).consumed().is_prefix_of(self.consumed()),
                !more ==> self.complete(),
                pos.precedes(advance(old(self).start(), old(self).consumed())) ==> *self == *old(self),
                self.consumed() == old(self).consumed() || ends_by_line(self.span.end, pos.line as int),
            decreases self.content().len() - self.consumed().len(), if more { 1int } else { 0int },
        {
            more = self.read_line();
        }
        let ghost start = self.span.start;
        let ghost data = self.data@;
        let ghost content = self.content();
        proof {
            self.lemma_content_not_before_end();
        }
        if !pos.before(&self.span.end) {
            proof {
                assert(content =~= data);
            }
            return match self.take_error() {
                Some(e) => Some(Err(e)),
                None => None,
            };
        }
        // line of `pos`, counted from the first line of the buffer.
        let relative_line = pos.line - self.span.start.line;
        let mut i = self.lines[relative_line];
        let n = self.data.len();
        // a virtual cursor at the beginning of that line.
        let mut cursor = if relative_line == 0 {
            self.span.start
        } else {
            Position::new(pos.line, 0)
        };
        proof {
            if relative_line == 0 {
                assert(data.take(0) =~= Seq::<char>::empty());
            } else {
                let k = relative_line as int;
                lemma_position_of_step(start, data, i - 1);
                assert forall|j: int| 0 <= j < i implies #[trigger] position_of(start, data, j).precedes(pos) by {
                    lemma_line_monotone(start, data, j, i - 1);
                }
            }
            lemma_position_of_all(start, data);
        }
        while cursor.before(&pos)
            invariant
                self.wf(),
                self.span.start == start,
                self.data@ == data,
                0 <= i <= data.len(),
                data.len() == n,
                cursor == position_of(start, data, i as int),
                pos.precedes(advance(start, data)),
                position_of(start, data, data.len() as int) == advance(start, data),
                forall|j: int| 0 <= j < i ==> #[trigger] position_of(start, data, j).precedes(pos),
            decreases data.len() - i,
        {
            proof {
                lemma_position_of_step(start, data, i as int);
            }
            cursor = cursor.next(self.data[i]);
            i = i + 1;
        }
        proof {
            assert(first_not_before(start, data, pos, i as int));
            assert forall|j: int| 0 <= j <= i implies position_of(start, content, j) == position_of(start, data, j) by {
                lemma_position_of_prefix(start, data, content.subrange(data.len() as int, content.len() as int), j);
                assert(data + content.subrange(data.len() as int, content.len() as int) =~= content);
            }
            assert(first_not_before(start, content, pos, i as int));
            if data.len() > 0 && content != data {
                assert(pos.precedes(advance(start, content)));
            }
            lemma_locate(start, content, pos, i as int);
        }
        if cursor == pos {
            Some(Ok(i))
        } else {
            None
        }
    }

    /// Get the character at `pos`, reading the source as far as needed.
    ///
    /// Returns `None` where `pos` comes before the buffer's start, where the
    /// source ends cleanly before `pos`, or where no character starts at
    /// `pos`. Returns the source's error, once, where the source fails before
    /// `pos`.
    pub fn at(&mut self, pos: Position) -> (r: Option<Result<char, S::Error>>)
        requires
            old(self).wf(),
        ensures
            final(self).wf(),
            final(self).start() == old(self).start(),
            final(self).content() == old(self).content(),
            old(self).consumed().is_prefix_of(final(self).consumed()),
            r == char_lookup(old(self).start(), old(self).content(), old(self).failure(), pos),
            r matches Some(Err(_)) ==> final(self).failure() is None,
            !(r matches Some(Err(_))) ==> final(self).failure() == old(self).failure(),
            pos.precedes(old(self).start()) ==> *final(self) == *old(self),
            pos.precedes(advance(old(self).start(), old(self).consumed())) ==> *final(self) == *old(self),
            final(self).consumed() == old(self).consumed() || ends_by_line(
                advance(final(self).start(), final(self).consumed()),
                pos.line as int,
            ),
            r matches Some(Err(_)) ==> final(self).consumed() == final(self).content(),
            !pos.precedes(old(self).start()) ==> pos.precedes(advance(final(self).start(), final(self).consumed()))
                || final(self).consumed() == final(self).content(),
    {
        match self.index_at(pos) {
            Some(Ok(i)) => self.get(i),
            Some(Err(e)) => Some(Err(e)),
            None => None,
        }
    }

    /// An iterator over the characters of the buffer from its start, with no
    /// bound.
    pub fn iter(&self) -> (r: Iter<S::Error>)
        requires
            self.wf(),
        ensures
            r.step() == Step::<S::Error>::At(0),
            r.position() == self.start(),
            r.bound() == Position::end_spec(),
            r.tracks(self.start(), self.content()),
    {
        proof {
            assert(self.content().take(0) =~= Seq::<char>::empty());
        }
        Iter { step: Step::At(0), pos: self.span.start, end: Position::end() }
    }

    /// The later of the buffer's start and `pos`.
    fn clamp(&self, pos: Position) -> (r: Position)
        ensures
            r == later(self.start(), pos),
    {
        if self.span.start.before(&pos) {
            pos
        } else {
            self.span.start
        }
    }

    /// An iterator over the characters of the buffer from `pos`, or from the
    /// buffer's start where `pos` comes before it, with no bound.
    pub fn iter_from(&mut self, pos: Position) -> (r: Iter<S::Error>)
        requires
            old(self).wf(),
        ensures
            final(self).wf(),
            final(self).start() == old(self).start(),
            final(self).content() == old(self).content(),
            old(self).consumed().is_prefix_of(final(self).consumed()),
            ({
                let found = lookup(old(self).start(), old(self).content(), old(self).failure(), later(old(self).start(), pos));
                &&& r.step() == step_of(found)
                &&& found matches Some(Err(_)) ==> final(self).failure() is None
                &&& found matches Some(Err(_)) ==> final(self).consumed() == final(self).content()
                &&& !(found matches Some(Err(_))) ==> final(self).failure() == old(self).failure()
            }),
            r.position() == later(old(self).start(), pos),
            r.bound() == Position::end_spec(),
            r.tracks(old(self).start(), old(self).content()),
            final(self).consumed() == old(self).consumed() || ends_by_line(
                advance(final(self).start(), final(self).consumed()),
                later(old(self).start(), pos).line as int,
            ),
    {
        let pos = self.clamp(pos);
        let found = self.index_at(pos);
        Iter { step: Self::step_from(found), pos, end: Position::end() }
    }

    /// An iterator over the characters of the buffer in `span`, from its start
    /// or from the buffer's start where the span's start comes before it.
    pub fn iter_span(&mut self, span: Span) -> (r: Iter<S::Error>)
        requires
            old(self).wf(),
        ensures
            final(self).wf(),
            final(self).start() == old(self).start(),
            final(self).content() == old(self).content(),
            old(self).consumed().is_prefix_of(final(self).consumed()),
            ({
                let found = lookup(
                    old(self).start(),
                    old(self).content(),
                    old(self).failure(),
                    later(old(self).start(), span.start),
                );
                &&& r.step() == step_of(found)
                &&& found matches Some(Err(_)) ==> final(self).failure() is None
                &&& found matches Some(Err(_)) ==> final(self).consumed() == final(self).content()
                &&& !(found matches Some(Err(_))) ==> final(self).failure() == old(self).failure()
            }),
            r.position() == later(old(self).start(), span.start),
            r.bound() == span.end,
            r.tracks(old(self).start(), old(self).content()),
            final(self).consumed() == old(self).consumed() || ends_by_line(
                advance(final(self).start(), final(self).consumed()),
                later(old(self).start(), span.start).line as int,
            ),
    {
        let pos = self.clamp(span.start);
        let found = self.index_at(pos);
        Iter { step: Self::step_from(found), pos, end: span.end }
    }

    fn step_from(found: Option<Result<usize, S::Error>>) -> (r: Step<S::Error>)
        ensures
            r == step_of(found),
    {
        match found {
            Some(Ok(i)) => Step::At(i),
            Some(Err(e)) => Step::Failed(e),
            None => Step::Done,
        }
    }
}

impl<E> Iter<E> {
    /// Drain the iterator into a string: the characters it gives, in order,
    /// or the first error it gives.
    pub fn into_string<S: CharSource<Error = E>>(self, buffer: &mut Buffer<S>) -> (r: Result<String, E>)
        requires
            old(buffer).wf(),
        ensures
            final(buffer).wf(),
            final(buffer).start() == old(buffer).start(),
            final(buffer).content() == old(buffer).content(),
            old(buffer).consumed().is_prefix_of(final(buffer).consumed()),
            r matches Ok(t) ==> self.rest(old(buffer).content(), old(buffer).failure()) == Ok::<Seq<char>, E>(t@),
            r matches Err(e) ==> self.rest(old(buffer).content(), old(buffer).failure()) == Err::<Seq<char>, E>(e),
            self.tracks(old(buffer).start(), old(buffer).content()) ==> final(buffer).consumed()
                == old(buffer).consumed() || ends_by_line(
                advance(final(buffer).start(), final(buffer).consumed()),
                self.bound().line as int,
            ),
            self.runs_out(old(buffer).content()) ==> final(buffer).consumed() == final(buffer).content(),
            match (r, self.step()) {
                (Ok(t), Step::At(i)) => t@.len() > 0 ==> i + t@.len() <= final(buffer).consumed().len(),
                _ => true,
            },
    {
        let ghost content = buffer.content();
        let ghost outcome = self.rest(content, buffer.failure());
        let mut it = self;
        let mut text = String::new();
        proof {
            assert(text@ + Seq::<char>::empty() =~= text@);
            match outcome {
                Ok(u) => assert(text@ + u =~= u),
                Err(_) => {},
            }
        }
        loop
            invariant
                buffer.wf(),
                buffer.start() == old(buffer).start(),
                buffer.content() == content,
                content == old(buffer).content(),
                outcome == self.rest(old(buffer).content(), old(buffer).failure()),
                it.bound() == self.bound(),
                self.tracks(old(buffer).start(), content) ==> it.tracks(old(buffer).start(), content),
                self.tracks(old(buffer).start(), content) ==> buffer.consumed() == old(buffer).consumed()
                    || ends_by_line(advance(buffer.start(), buffer.consumed()), self.bound().line as int),
                self.runs_out(content) == it.runs_out(content),
                self.step() matches Step::At(i0) ==> it.step() == Step::<E>::At((i0 + text@.len()) as usize),
                self.step() matches Step::At(i0) ==> text@.len() > 0 ==> i0 + text@.len() <= buffer.consumed().len(),
                old(buffer).consumed().is_prefix_of(buffer.consumed()),
                outcome == prepend(text@, it.rest(content, buffer.failure())),
            decreases it.left(content),
        {
            let ghost before = it;
            let ghost failure = buffer.failure();
            match it.next(buffer) {
                Some(Ok(c)) => {
                    proof {
                        let i = before.step()->At_0 as int;
                        match drained(content, failure, i + 1, before.position().next_spec(c), before.bound()) {
                            Ok(u) => assert(text@.push(c) + u =~= text@ + (seq![c] + u)),
                            Err(_) => {},
                        }
                    }
                    push_char(&mut text, c);
                },
                Some(Err(e)) => {
                    return Err(e);
                },
                None => {
                    proof {
                        assert(text@ + Seq::<char>::empty() =~= text@);
                    }
                    return Ok(text);
                },
            }
        }
    }

}

impl<S: CharSource> Buffer<S> {
    /// The characters of `span`, as [`Buffer::iter_span`] gives them, in a
    /// string; or the first error met.
    pub fn string_in(&mut self, span: Span) -> (r: Result<String, S::Error>)
        requires
            old(self).wf(),
        ensures
            final(self).wf(),
            final(self).start() == old(self).start(),
            final(self).content() == old(self).content(),
            old(self).consumed().is_prefix_of(final(self).consumed()),
            r matches Ok(t) ==> span_text(old(self).start(), old(self).content(), old(self).failure(), span)
                == Ok::<Seq<char>, S::Error>(t@),
            r matches Err(e) ==> span_text(old(self).start(), old(self).content(), old(self).failure(), span)
                == Err::<Seq<char>, S::Error>(e),
            later(old(self).start(), span.start).not_after(span.end) ==> final(self).consumed()
                == old(self).consumed() || ends_by_line(
                advance(final(self).start(), final(self).consumed()),
                span.end.line as int,
            ),
            span_runs_out(old(self).start(), old(self).content(), old(self).failure(), span)
                ==> final(self).consumed() == final(self).content(),
            match (r, lookup(old(self).start(), old(self).content(), old(self).failure(), later(old(self).start(), span.start))) {
                (Ok(t), Some(Ok(k))) => t@.len() > 0 ==> k + t@.len() <= final(self).consumed().len(),
                _ => true,
            },
    {
        let it = self.iter_span(span);
        it.into_string(self)
    }

    /// What the buffer has read is the beginning of the text: characters
    /// are kept once read, and the source gives each one once, in order.
    pub proof fn lemma_consumed_prefix(&self)
        requires
            self.wf(),
        ensures
            self.consumed().is_prefix_of(self.content()),
    {
        self.lemma_content_not_before_end();
    }

    /// The buffer fills one whole line at a time: what it has read is empty,
    /// ends with a new line, or is the whole text.
    pub proof fn lemma_whole_lines(&self)
        requires
            self.wf(),
        ensures
            self.consumed() == self.content() || self.consumed().len() == 0 || self.consumed().last() == '\n',
    {
        lemma_advance_line(self.span.start, self.data@);
        match self.fault {
            Fault::Clear => {
                if self.source.pending().len() == 0 {
                    assert(self.content() =~= self.data@);
                } else if self.lines@.len() > 1 {
                    assert(self.lines@[self.lines@.len() - 1] > 0);
                } else {
                    assert(self.lines@.last() == self.lines@[0]);
                }
            },
            _ => {},
        }
    }

    /// Round trip: draining an iterator over the buffer's span gives back
    /// exactly the characters read so far, in order, wherever every one of
    /// them stands before the end of the span.
    pub proof fn lemma_round_trip(&self)
        requires
            self.wf(),
            forall|j: int|
                0 <= j < self.consumed().len() ==> #[trigger] position_of(self.start(), self.consumed(), j).precedes(
                    advance(self.start(), self.consumed()),
                ),
        ensures
            span_text(
                self.start(),
                self.content(),
                self.failure(),
                Span { start: self.start(), end: advance(self.start(), self.consumed()) },
            ) == Ok::<Seq<char>, S::Error>(self.consumed()),
    {
        let p = self.start();
        let s = self.content();
        let d = self.consumed();
        let n = d.len() as int;
        self.lemma_content_not_before_end();
        assert(s.subrange(0, n) =~= d);
        assert(d + s.subrange(n, s.len() as int) =~= s);
        assert forall|j: int| 0 <= j <= n implies position_of(p, s, j) == position_of(p, d, j) by {
            lemma_position_of_prefix(p, d, s.subrange(n, s.len() as int), j);
        }
        lemma_position_of_all(p, d);
        assert(d.take(0) =~= Seq::<char>::empty());
        if n == 0 {
            assert(d =~= Seq::<char>::empty());
        } else {
            assert(position_of(p, d, 0).precedes(advance(p, d)));
            assert(p.precedes(advance(p, s)));
            assert(first_not_before(p, s, p, 0));
            lemma_locate(p, s, p, 0);
            assert forall|j: int| 0 <= j < n implies #[trigger] position_of(p, s, j).precedes(position_of(p, s, n)) by {
                assert(position_of(p, d, j).precedes(advance(p, d)));
            }
            lemma_drain_upto(p, s, self.failure(), 0, n);
        }
    }
}

} // verus!
