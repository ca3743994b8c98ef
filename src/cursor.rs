use crate::position::{is_control, Position};
use vstd::prelude::*;

verus! {

/// The cursor position after reading the characters of `s` from `p`.
pub open spec fn advance(p: Position, s: Seq<char>) -> Position
    decreases s.len(),
{
    if s.len() == 0 {
        p
    } else {
        advance(p, s.drop_last()).next_spec(s.last())
    }
}

/// The position of the character at index `i` of a text `s` that starts at `p`.
pub open spec fn position_of(p: Position, s: Seq<char>, i: int) -> Position {
    advance(p, s.take(i))
}

/// The position after a character is where reading it moves the cursor.
pub proof fn lemma_position_of_step(p: Position, s: Seq<char>, i: int)
    requires
        0 <= i < s.len(),
    ensures
        position_of(p, s, i + 1) == position_of(p, s, i).next_spec(s[i]),
{
    assert(s.take(i + 1).drop_last() =~= s.take(i));
}

/// The position just past the last character is the end of the text.
pub proof fn lemma_position_of_all(p: Position, s: Seq<char>)
    ensures
        position_of(p, s, s.len() as int) == advance(p, s),
{
    assert(s.take(s.len() as int) =~= s);
}

/// Positions in a text do not depend on what follows them.
pub proof fn lemma_position_of_prefix(p: Position, s: Seq<char>, t: Seq<char>, i: int)
    requires
        0 <= i <= s.len(),
    ensures
        position_of(p, s + t, i) == position_of(p, s, i),
{
    assert((s + t).take(i) =~= s.take(i));
}

/// Reading never moves the cursor to an earlier line.
pub proof fn lemma_advance_line(p: Position, s: Seq<char>)
    ensures
        p.line <= advance(p, s).line,
    decreases s.len(),
{
    if s.len() > 0 {
        lemma_advance_line(p, s.drop_last());
        advance(p, s.drop_last()).lemma_next_not_before(s.last());
    }
}

/// Lines never go down along a text.
pub proof fn lemma_line_monotone(p: Position, s: Seq<char>, i: int, j: int)
    requires
        0 <= i <= j <= s.len(),
    ensures
        position_of(p, s, i).line <= position_of(p, s, j).line,
    decreases j - i,
{
    if i < j {
        lemma_line_monotone(p, s, i, j - 1);
        lemma_position_of_step(p, s, j - 1);
        position_of(p, s, j - 1).lemma_next_not_before(s[j - 1]);
    }
}

/// From the beginning of a line, reading never moves the cursor backwards.
pub proof fn lemma_advance_from_line_start(p: Position, s: Seq<char>)
    requires
        p.column == 0,
    ensures
        p.not_after(advance(p, s)),
{
    lemma_advance_line(p, s);
}

} // verus!

verus! {

/// Reading two texts in a row is reading the first, then the second from
/// where the first ended.
pub proof fn lemma_advance_concat(p: Position, s: Seq<char>, t: Seq<char>)
    ensures
        advance(p, s + t) == advance(advance(p, s), t),
    decreases t.len(),
{
    if t.len() == 0 {
        assert(s + t =~= s);
    } else {
        assert((s + t).drop_last() =~= s + t.drop_last());
        lemma_advance_concat(p, s, t.drop_last());
    }
}

/// Index `k` of a text `s` that starts at `p` is the first whose position
/// is not before `pos`. The text's length counts as an index, at the end
/// position.
pub open spec fn first_not_before(p: Position, s: Seq<char>, pos: Position, k: int) -> bool {
    &&& 0 <= k <= s.len()
    &&& pos.not_after(position_of(p, s, k))
    &&& forall|j: int| 0 <= j < k ==> #[trigger] position_of(p, s, j).precedes(pos)
}

/// The first index of `s` whose position is not before `pos`.
pub open spec fn locate(p: Position, s: Seq<char>, pos: Position) -> int {
    choose|k: int| first_not_before(p, s, pos, k)
}

proof fn lemma_first_from(p: Position, s: Seq<char>, pos: Position, i: int)
    requires
        0 <= i <= s.len(),
        forall|j: int| 0 <= j < i ==> #[trigger] position_of(p, s, j).precedes(pos),
        pos.not_after(advance(p, s)),
    ensures
        exists|k: int| first_not_before(p, s, pos, k),
    decreases s.len() - i,
{
    lemma_position_of_all(p, s);
    if pos.not_after(position_of(p, s, i)) {
        assert(first_not_before(p, s, pos, i));
    } else {
        lemma_first_from(p, s, pos, i + 1);
    }
}

/// Where the end of a text is not before `pos`, `locate` finds the one
/// index that is first not before it.
pub proof fn lemma_locate(p: Position, s: Seq<char>, pos: Position, k: int)
    requires
        pos.not_after(advance(p, s)),
    ensures
        first_not_before(p, s, pos, locate(p, s, pos)),
        first_not_before(p, s, pos, k) ==> k == locate(p, s, pos),
{
    lemma_first_from(p, s, pos, 0);
    let l = locate(p, s, pos);
    if first_not_before(p, s, pos, k) {
        if k < l {
            assert(position_of(p, s, k).precedes(pos));
        } else if l < k {
            assert(position_of(p, s, l).precedes(pos));
        }
    }
}

} // verus!

verus! {

/// Reading characters that are not control characters (so no tab and no
/// new line) moves the cursor one column per character, on the same line.
pub proof fn lemma_plain_text(p: Position, s: Seq<char>)
    requires
        forall|i: int| 0 <= i < s.len() ==> !is_control(#[trigger] s[i]),
        p.column + s.len() <= usize::MAX,
    ensures
        advance(p, s) == (Position { line: p.line, column: (p.column + s.len()) as usize }),
    decreases s.len(),
{
    if s.len() > 0 {
        let t = s.drop_last();
        assert forall|i: int| 0 <= i < t.len() implies !is_control(#[trigger] t[i]) by {
            assert(t[i] == s[i]);
        }
        lemma_plain_text(p, t);
        assert(!is_control(s[s.len() - 1]));
    }
}

} // verus!
