//! What holds of the tape model whatever is done to it.
use vstd::prelude::*;
use crate::tape::Tape;
use crate::tape::magnitude;
use crate::tape::pred;
use crate::tape::succ;

verus! {

/// A single move of the pointer.
pub enum Move {
    Left,
    Right,
}

impl Tape {
    /// The tape after `k` increments of the cell under the pointer.
    pub open spec fn inc_n(self, k: nat) -> Tape
        decreases k,
    {
        if k == 0 {
            self
        } else {
            self.inc_n((k - 1) as nat).inc()
        }
    }

    /// The tape after the moves of `moves`, made from first to last.
    pub open spec fn shift(self, moves: Seq<Move>) -> Tape
        decreases moves.len(),
    {
        if moves.len() == 0 {
            self
        } else {
            match moves.last() {
                Move::Left => self.shift(moves.drop_last()).move_left(),
                Move::Right => self.shift(moves.drop_last()).move_right(),
            }
        }
    }

    /// Every position that `self` has allocated is allocated in `later`.
    pub open spec fn within(self, later: Tape) -> bool {
        self.left.len() <= later.left.len() && self.right.len() <= later.right.len()
    }
}

/// Writing a cell changes that cell and nothing else.
pub proof fn lemma_write(t: Tape, value: u8)
    requires
        t.wf(),
    ensures
        t.write(value).wf(),
        t.write(value).pointer == t.pointer,
        t.write(value).current() == value,
        t.write(value).left.len() == t.left.len(),
        t.write(value).right.len() == t.right.len(),
        forall|p: int| p != t.pointer ==> t.write(value).cell(p) == t.cell(p),
        t.write(t.current()) == t,
        forall|other: u8| t.write(other).write(value) == t.write(value),
{
    assert(t.write(t.current()).left =~= t.left);
    assert(t.write(t.current()).right =~= t.right);
    assert forall|other: u8| t.write(other).write(value) == t.write(value) by {
        assert(t.write(other).write(value).left =~= t.write(value).left);
        assert(t.write(other).write(value).right =~= t.write(value).right);
    }
}

/// A move changes no cell, keeps every allocated position allocated, and
/// leaves the pointer on an allocated cell one position away.
pub proof fn lemma_move(t: Tape)
    requires
        t.wf(),
    ensures
        t.move_left().wf(),
        t.move_right().wf(),
        t.move_left().pointer == t.pointer - 1,
        t.move_right().pointer == t.pointer + 1,
        t.within(t.move_left()),
        t.within(t.move_right()),
        forall|p: int| t.move_left().cell(p) == t.cell(p),
        forall|p: int| t.move_right().cell(p) == t.cell(p),
{
}

/// How the two halves grow under a move. A move left lengthens the left
/// half by one zero cell when the new position lies further from the
/// origin than that half is long, on either side of the origin, and not
/// otherwise. A move right lengthens the right half by one zero cell when
/// the new position lies beyond it, and not otherwise. What a half held it
/// keeps, and neither move touches the other half or the origin.
pub proof fn lemma_move_growth(t: Tape)
    ensures
        t.move_left().left.len() == if magnitude(t.pointer - 1) > t.left.len() {
            t.left.len() + 1
        } else {
            t.left.len()
        },
        t.move_left().left.take(t.left.len() as int) == t.left,
        magnitude(t.pointer - 1) > t.left.len() ==> t.move_left().left.last() == 0,
        t.move_left().right == t.right,
        t.move_left().origin == t.origin,
        t.move_right().right.len() == if t.pointer + 1 > t.right.len() {
            t.right.len() + 1
        } else {
            t.right.len()
        },
        t.move_right().right.take(t.right.len() as int) == t.right,
        t.pointer + 1 > t.right.len() ==> t.move_right().right.last() == 0,
        t.move_right().left == t.left,
        t.move_right().origin == t.origin,
{
    assert(t.move_left().left.take(t.left.len() as int) =~= t.left);
    assert(t.move_right().right.take(t.right.len() as int) =~= t.right);
}

/// An increment followed by a decrement, or the other way round, restores
/// the tape.
pub proof fn lemma_inc_dec(t: Tape)
    requires
        t.wf(),
    ensures
        t.inc().dec() == t,
        t.dec().inc() == t,
{
    lemma_write(t, succ(t.current()));
    lemma_write(t, pred(t.current()));
    lemma_write(t, t.current());
    assert(pred(succ(t.current())) == t.current());
    assert(succ(pred(t.current())) == t.current());
}

/// After `k` increments the cell under the pointer holds its old value
/// plus `k`, modulo 256, and nothing else has changed. Starting from 0 the
/// cell holds `k % 256`; 256 increments restore the tape.
pub proof fn lemma_inc_n(t: Tape, k: nat)
    requires
        t.wf(),
    ensures
        t.inc_n(k) == t.write(((t.current() + k) % 256) as u8),
        t.inc_n(k).current() == (t.current() + k) % 256,
        t.current() == 0 ==> t.inc_n(k).current() == k % 256,
        k == 256 ==> t.inc_n(k) == t,
    decreases k,
{
    lemma_write(t, ((t.current() + k) % 256) as u8);
    if k == 0 {
    } else {
        let j = (k - 1) as nat;
        lemma_inc_n(t, j);
        lemma_write(t, ((t.current() + j) % 256) as u8);
        assert(succ(((t.current() + j) % 256) as u8) == ((t.current() + k) % 256) as u8);
    }
}

/// Moving the pointer about changes no cell and gives up no cell: every
/// position allocated before is allocated after, and every position holds
/// the value it held before.
pub proof fn lemma_shift(t: Tape, moves: Seq<Move>)
    requires
        t.wf(),
    ensures
        t.shift(moves).wf(),
        t.within(t.shift(moves)),
        forall|p: int| t.allocated(p) ==> t.shift(moves).allocated(p),
        forall|p: int| t.shift(moves).cell(p) == t.cell(p),
    decreases moves.len(),
{
    if moves.len() > 0 {
        lemma_shift(t, moves.drop_last());
        lemma_move(t.shift(moves.drop_last()));
    }
}

/// A value written to a cell is found there again when the pointer comes
/// back, whatever moves it made in between.
pub proof fn lemma_revisit(t: Tape, value: u8, moves: Seq<Move>)
    requires
        t.wf(),
        t.write(value).shift(moves).pointer == t.pointer,
    ensures
        t.write(value).shift(moves).current() == value,
{
    lemma_write(t, value);
    lemma_shift(t.write(value), moves);
}

} // verus!
