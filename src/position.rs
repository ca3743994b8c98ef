use vstd::prelude::*;
use vstd::string::StringExecFns;

verus! {

/// Number of columns between two tab stops.
pub const TAB_WIDTH: usize = 8;

/// Whether `c` is a control code: general category `Cc` of Unicode.
pub open spec fn is_control(c: char) -> bool {
    (c as u32) <= 0x1f || (0x7f <= (c as u32) && (c as u32) <= 0x9f)
}

/// One more than `n`, staying at the largest `usize`.
pub open spec fn inc_sat(n: usize) -> usize {
    if n == usize::MAX {
        usize::MAX
    } else {
        (n + 1) as usize
    }
}

/// The next tab stop strictly after column `n`, staying at the largest `usize`.
pub open spec fn tab_stop(n: usize) -> usize {
    let t = (n / 8) * 8 + 8;
    if t > usize::MAX {
        usize::MAX
    } else {
        t as usize
    }
}

/// Position in a source text: a zero-based line and column.
///
/// Positions are ordered line first, then column. The largest position,
/// [`Position::end`], stands past the end of any real content.
#[derive(Clone, Copy, PartialEq, Eq, Structural, Hash, Default, Debug, Ord)]
pub struct Position {
    /// Line number, starting at `0`.
    pub line: usize,
    /// Column number, starting at `0`.
    pub column: usize,
}

impl Position {
    /// `self` comes strictly before `other`.
    pub open spec fn precedes(self, other: Position) -> bool {
        self.line < other.line || (self.line == other.line && self.column < other.column)
    }

    /// `self` comes before `other` or equals it.
    pub open spec fn not_after(self, other: Position) -> bool {
        self.precedes(other) || self == other
    }

    /// The position of the cursor after reading `c` at `self`.
    pub open spec fn next_spec(self, c: char) -> Position {
        if c == '\n' {
            Position { line: inc_sat(self.line), column: 0 }
        } else if c == '\r' {
            Position { line: self.line, column: 0 }
        } else if c == '\t' {
            Position { line: self.line, column: tab_stop(self.column) }
        } else if is_control(c) {
            self
        } else {
            Position { line: self.line, column: inc_sat(self.column) }
        }
    }

    /// Create a new position given a line and column, both starting at `0`.
    pub fn new(line: usize, column: usize) -> (r: Position)
        ensures
            r.line == line,
            r.column == column,
    {
        Position { line, column }
    }

    /// The largest position.
    pub open spec fn end_spec() -> Position {
        Position { line: usize::MAX, column: usize::MAX }
    }

    /// The largest position, `(usize::MAX, usize::MAX)`.
    pub fn end() -> (r: Position)
        ensures
            r == Position::end_spec(),
            forall|p: Position| #[trigger] p.not_after(r),
    {
        Position { line: usize::MAX, column: usize::MAX }
    }

    /// Move to the next column. A column already at its maximum stays there.
    pub fn next_column(&self) -> (r: Position)
        ensures
            r.line == self.line,
            r.column == inc_sat(self.column),
    {
        let column = if self.column == usize::MAX {
            usize::MAX
        } else {
            self.column + 1
        };
        Position { line: self.line, column }
    }

    /// Move to the beginning of the line.
    pub fn reset_column(&self) -> (r: Position)
        ensures
            r.line == self.line,
            r.column == 0,
    {
        Position { line: self.line, column: 0 }
    }

    /// Move to the beginning of the next line. A line already at its maximum
    /// stays there.
    pub fn next_line(&self) -> (r: Position)
        ensures
            r.line == inc_sat(self.line),
            r.column == 0,
    {
        let line = if self.line == usize::MAX {
            usize::MAX
        } else {
            self.line + 1
        };
        Position { line, column: 0 }
    }

    /// The tab stop that follows `self`'s column.
    fn next_tab_stop(&self) -> (r: Position)
        ensures
            r.line == self.line,
            r.column == tab_stop(self.column),
    {
        let column = if self.column / TAB_WIDTH < usize::MAX / TAB_WIDTH {
            (self.column / TAB_WIDTH) * TAB_WIDTH + TAB_WIDTH
        } else {
            usize::MAX
        };
        assert(column == tab_stop(self.column)) by (nonlinear_arith)
            requires
                self.column / 8 < usize::MAX / 8 ==> column == (self.column / 8) * 8 + 8,
                self.column / 8 >= usize::MAX / 8 ==> column == usize::MAX,
        ;
        Position { line: self.line, column }
    }

    /// Move to the position that follows the character `c`.
    ///
    /// A new line `\n` moves to the beginning of the next line, a carriage
    /// return `\r` to the beginning of the current line, and a tab `\t` to the
    /// next tab stop, one every 8 columns. Any other control character has no
    /// width. Every other character takes one column. A field already at its
    /// maximum stays there.
    pub fn next(&self, c: char) -> (r: Position)
        ensures
            r == self.next_spec(c),
    {
        if c == '\n' {
            self.next_line()
        } else if c == '\r' {
            self.reset_column()
        } else if c == '\t' {
            self.next_tab_stop()
        } else if is_control_char(c) {
            *self
        } else {
            self.next_column()
        }
    }

    /// Whether `self` comes strictly before `other`.
    pub fn before(&self, other: &Position) -> (r: bool)
        ensures
            r == self.precedes(*other),
    {
        self.line < other.line || (self.line == other.line && self.column < other.column)
    }
}

/// Whether `c` is a control code.
pub fn is_control_char(c: char) -> (r: bool)
    ensures
        r == is_control(c),
{
    let n = c as u32;
    n <= 0x1f || (0x7f <= n && n <= 0x9f)
}

impl PartialOrd for Position {
    fn partial_cmp(&self, other: &Position) -> (r: Option<core::cmp::Ordering>) {
        if self.line < other.line {
            Some(core::cmp::Ordering::Less)
        } else if self.line > other.line {
            Some(core::cmp::Ordering::Greater)
        } else if self.column < other.column {
            Some(core::cmp::Ordering::Less)
        } else if self.column > other.column {
            Some(core::cmp::Ordering::Greater)
        } else {
            Some(core::cmp::Ordering::Equal)
        }
    }
}

impl vstd::std_specs::cmp::PartialOrdSpecImpl for Position {
    open spec fn obeys_partial_cmp_spec() -> bool {
        true
    }

    open spec fn partial_cmp_spec(&self, other: &Position) -> Option<core::cmp::Ordering> {
        if self.precedes(*other) {
            Some(core::cmp::Ordering::Less)
        } else if other.precedes(*self) {
            Some(core::cmp::Ordering::Greater)
        } else {
            Some(core::cmp::Ordering::Equal)
        }
    }
}

} // verus!

verus! {

impl Position {
    /// Reading a character never moves the cursor to an earlier line, and
    /// only a carriage return, or a new line on the last line, moves it
    /// backwards.
    pub proof fn lemma_next_not_before(self, c: char)
        ensures
            self.line <= self.next_spec(c).line,
            c != '\r' && (c == '\n' ==> self.line < usize::MAX) ==> self.not_after(self.next_spec(c)),
            self.next_spec(c).line != self.line ==> c == '\n' && self.next_spec(c).line == self.line + 1,
    {
    }
}

} // verus!

verus! {

/// A new line moves to column 0 of the next line, whatever the column.
pub proof fn lemma_newline(p: Position)
    requires
        p.line < usize::MAX,
    ensures
        p.next_spec('\n') == (Position { line: (p.line + 1) as usize, column: 0 }),
{
}

/// A tab moves to the smallest multiple of 8 that is greater than the
/// column.
pub proof fn lemma_tab(p: Position)
    requires
        (p.column / 8) * 8 + 8 <= usize::MAX,
    ensures
        p.next_spec('\t').line == p.line,
        p.next_spec('\t').column > p.column,
        p.next_spec('\t').column % 8 == 0,
        forall|m: int| p.column < m && #[trigger] (m % 8) == 0 ==> p.next_spec('\t').column <= m,
{
    let c = p.column as int;
    let t = (c / 8) * 8 + 8;
    assert(t > c && t % 8 == 0) by (nonlinear_arith)
        requires
            t == (c / 8) * 8 + 8,
            c >= 0,
    ;
    assert forall|m: int| c < m && #[trigger] (m % 8) == 0 implies t <= m by {
        assert(t <= m) by (nonlinear_arith)
            requires
                c < m,
                m % 8 == 0,
                t == (c / 8) * 8 + 8,
                c >= 0,
        ;
    }
}

/// A control character other than a new line, a carriage return or a tab
/// leaves the cursor where it is, however often it is read.
pub proof fn lemma_control_no_width(p: Position, c: char)
    requires
        is_control(c),
        c != '\n',
        c != '\r',
        c != '\t',
    ensures
        p.next_spec(c) == p,
        p.next_spec(c).next_spec(c) == p,
{
}

/// No position comes after the end position.
pub proof fn lemma_end_is_greatest(p: Position)
    ensures
        p.not_after(Position::end_spec()),
        Position::end_spec().not_after(Position::end_spec()),
{
}

} // verus!

verus! {

/// Relies on `String::push`: it appends `c` at the end of `s`.
#[verifier::external_body]
pub(crate) fn push_char(s: &mut String, c: char)
    ensures
        final(s)@ == old(s)@.push(c),
{
    s.push(c)
}

/// The decimal digit for `d`.
pub open spec fn digit(d: nat) -> char {
    seq!['0', '1', '2', '3', '4', '5', '6', '7', '8', '9'][d as int]
}

/// The decimal notation of `n`.
pub open spec fn decimal(n: nat) -> Seq<char>
    decreases n,
{
    if n < 10 {
        seq![digit(n)]
    } else {
        decimal(n / 10).push(digit(n % 10))
    }
}

/// How a line or column shows: counted from 1, or `[end]` at its maximum.
pub open spec fn field_text(n: usize) -> Seq<char> {
    if n == usize::MAX {
        "[end]"@
    } else {
        decimal((n + 1) as nat)
    }
}

/// Append the decimal notation of `n` to `s`.
fn push_decimal(s: &mut String, n: usize)
    ensures
        final(s)@ == old(s)@ + decimal(n as nat),
    decreases n,
{
    if n >= 10 {
        push_decimal(s, n / 10);
    }
    let digits = ['0', '1', '2', '3', '4', '5', '6', '7', '8', '9'];
    proof {
        assert(digits@ == seq!['0', '1', '2', '3', '4', '5', '6', '7', '8', '9']);
    }
    push_char(s, digits[n % 10]);
    proof {
        if n < 10 {
            assert(old(s)@ + decimal(n as nat) =~= old(s)@.push(digit(n as nat)));
        } else {
            assert(old(s)@ + decimal(n as nat) =~= (old(s)@ + decimal((n / 10) as nat)).push(digit((n % 10) as nat)));
        }
    }
}

/// Append how the line or column `n` shows to `s`.
fn push_field(s: &mut String, n: usize)
    ensures
        final(s)@ == old(s)@ + field_text(n),
{
    if n == usize::MAX {
        s.append("[end]");
    } else {
        push_decimal(s, n + 1);
    }
}

impl Position {
    /// The position as text, counted from 1: `line {line} column {column}`,
    /// with `[end]` for a field at its maximum.
    pub fn to_string(&self) -> (r: String)
        ensures
            r@ == "line "@ + field_text(self.line) + " column "@ + field_text(self.column),
    {
        let mut s = String::new();
        s.append("line ");
        push_field(&mut s, self.line);
        s.append(" column ");
        push_field(&mut s, self.column);
        s
    }

    /// The position as a short text, counted from 1: `{line}:{column}`, with
    /// `[end]` for a field at its maximum.
    pub fn to_short_string(&self) -> (r: String)
        ensures
            r@ == field_text(self.line) + ":"@ + field_text(self.column),
    {
        let mut s = String::new();
        push_field(&mut s, self.line);
        s.append(":");
        push_field(&mut s, self.column);
        s
    }
}

} // verus!
