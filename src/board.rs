use crate::dice::{Dice, DiceError};
use vstd::prelude::*;

verus! {

/// A board of `N` columns; each column is empty or holds exactly one die.
///
/// The slots are private, so a column changes only through `insert`
/// (empty to occupied) and `strike_multi` (occupied to empty).
pub struct Board<const N: usize> {
    cols: [Option<Dice>; N],
}

impl<const N: usize> View for Board<N> {
    type V = Seq<Option<Dice>>;

    /// The slots in column order.
    closed spec fn view(&self) -> Seq<Option<Dice>> {
        self.cols@
    }
}

/// `n` empty slots.
pub open spec fn empty_slots(n: nat) -> Seq<Option<Dice>> {
    Seq::new(n, |i: int| None)
}

/// What `insert(col, _)` returns on slots `s`.
pub open spec fn insert_outcome(s: Seq<Option<Dice>>, col: int) -> Result<(), DiceError> {
    if col >= s.len() {
        Err(DiceError::InvalidColumn)
    } else if s[col] is Some {
        Err(DiceError::ColumnOccupied)
    } else {
        Ok(())
    }
}

/// The slots after `insert(col, d)` on slots `s`: unchanged unless the placement succeeds.
pub open spec fn after_insert(s: Seq<Option<Dice>>, col: int, d: Dice) -> Seq<Option<Dice>> {
    if insert_outcome(s, col) is Ok {
        s.update(col, Some(d))
    } else {
        s
    }
}

/// The dice held in slots `s`, in slot order.
pub open spec fn dice_in(s: Seq<Option<Dice>>) -> Seq<Dice>
    decreases s.len(),
{
    if s.len() == 0 {
        Seq::empty()
    } else {
        let rest = dice_in(s.drop_last());
        match s.last() {
            Some(d) => rest.push(d),
            None => rest,
        }
    }
}

/// The end of the range that `strike_multi(col, count)` scans on `n` slots:
/// `col + count`, clamped to `n`.
pub open spec fn strike_end(n: int, col: int, count: int) -> int {
    if col + count <= n {
        col + count
    } else {
        n
    }
}

/// What `strike_multi(col, count)` returns on slots `s`: the dice in columns
/// `col` up to `min(len, col + count)`, in column order; nothing when `col` is
/// past the end.
pub open spec fn struck_dice(s: Seq<Option<Dice>>, col: int, count: int) -> Seq<Dice> {
    if col >= s.len() {
        Seq::empty()
    } else {
        dice_in(s.subrange(col, strike_end(s.len() as int, col, count)))
    }
}

/// The slots after `strike_multi(col, count)` on slots `s`: every column in
/// `col .. col + count` is empty, the others are unchanged.
pub open spec fn after_strike(s: Seq<Option<Dice>>, col: int, count: int) -> Seq<Option<Dice>> {
    Seq::new(s.len(), |i: int| if col <= i < col + count { None } else { s[i] })
}

/// A run of slots never holds more dice than it has slots.
pub proof fn lemma_dice_in_len(s: Seq<Option<Dice>>)
    ensures
        dice_in(s).len() <= s.len(),
    decreases s.len(),
{
    if s.len() > 0 {
        lemma_dice_in_len(s.drop_last());
    }
}

/// What one slot adds to the score: its die's value, or nothing when empty.
pub open spec fn slot_value(x: Option<Dice>) -> nat {
    match x {
        Some(d) => d.value as nat,
        None => 0,
    }
}

/// The sum of the values of the dice held in slots `s`.
pub open spec fn score_of(s: Seq<Option<Dice>>) -> nat
    decreases s.len(),
{
    if s.len() == 0 {
        0
    } else {
        score_of(s.drop_last()) + slot_value(s.last())
    }
}

/// Whether every slot of `s` holds a die.
pub open spec fn all_occupied(s: Seq<Option<Dice>>) -> bool {
    forall|i: int| 0 <= i < s.len() ==> #[trigger] s[i] is Some
}

/// Each slot adds at most the largest face value.
pub proof fn lemma_score_bound(s: Seq<Option<Dice>>)
    ensures
        score_of(s) <= u8::MAX * s.len(),
    decreases s.len(),
{
    if s.len() > 0 {
        lemma_score_bound(s.drop_last());
    }
}

impl<const N: usize> Board<N> {
    /// Every board's view has exactly `N` slots.
    pub proof fn lemma_len(&self)
        ensures
            self@.len() == N,
    {
    }

    /// A board with every column empty.
    pub fn new() -> (b: Self)
        ensures
            b@ == empty_slots(N as nat),
    {
        let b = Board { cols: [None; N] };
        assert(b@ =~= empty_slots(N as nat));
        b
    }

    /// Places `die` in column `col`. Fails, leaving the board as it was, with
    /// `InvalidColumn` when `col >= N` and with `ColumnOccupied` when the column
    /// already holds a die.
    pub fn insert(&mut self, col: usize, die: Dice) -> (r: Result<(), DiceError>)
        ensures
            r == insert_outcome(old(self)@, col as int),
            final(self)@ == after_insert(old(self)@, col as int, die),
    {
        if col >= N {
            return Err(DiceError::InvalidColumn);
        }
        if self.cols[col].is_some() {
            return Err(DiceError::ColumnOccupied);
        }
        self.cols[col] = Some(die);
        Ok(())
    }
    /// Empties the columns from `col` up to, not including, `min(N, col + count)`
    /// and returns the dice taken, in column order. Empty columns in that range
    /// are skipped; when `col >= N` nothing is taken.
    pub fn strike_multi(&mut self, col: usize, count: usize) -> (r: Vec<Dice>)
        ensures
            r@ == struck_dice(old(self)@, col as int, count as int),
            final(self)@ == after_strike(old(self)@, col as int, count as int),
            r@.len() <= count,
            col < N ==> r@.len() <= N - col,
            col >= N ==> r@.len() == 0,
    {
        let ghost s0 = self@;
        let mut struck: Vec<Dice> = Vec::new();
        if col >= N {
            assert(self@ =~= after_strike(s0, col as int, count as int));
            return struck;
        }
        let end: usize = if count >= N - col {
            N
        } else {
            col + count
        };
        let mut i: usize = col;
        while i < end
            invariant
                col <= i <= end <= N,
                end == strike_end(N as int, col as int, count as int),
                s0.len() == N,
                struck@ == dice_in(s0.subrange(col as int, i as int)),
                self@ == Seq::new(N as nat, |j: int| if col <= j < i { None } else { s0[j] }),
            decreases end - i,
        {
            assert(s0.subrange(col as int, i + 1).drop_last() =~= s0.subrange(col as int, i as int));
            if let Some(d) = self.cols[i] {
                self.cols[i] = None;
                struck.push(d);
            }
            i = i + 1;
            assert(self@ =~= Seq::new(N as nat, |j: int| if col <= j < i { None } else { s0[j] }));
        }
        assert(self@ =~= after_strike(s0, col as int, count as int));
        proof {
            lemma_dice_in_len(s0.subrange(col as int, end as int));
        }
        struck
    }
    /// Whether every column holds a die.
    pub fn is_full(&self) -> (r: bool)
        ensures
            r == all_occupied(self@),
    {
        let mut i: usize = 0;
        while i < N
            invariant
                i <= N,
                self@.len() == N,
                forall|j: int| 0 <= j < i ==> #[trigger] self@[j] is Some,
            decreases N - i,
        {
            if self.cols[i].is_none() {
                return false;
            }
            i = i + 1;
        }
        true
    }

    /// The sum of the values of the dice on the board. The capacity must be
    /// small enough that a board full of the largest faces still fits in a `u32`.
    pub fn score(&self) -> (r: u32)
        requires
            N * u8::MAX <= u32::MAX,
        ensures
            r == score_of(self@),
    {
        let mut sum: u32 = 0;
        let mut i: usize = 0;
        while i < N
            invariant
                i <= N,
                N * u8::MAX <= u32::MAX,
                self@.len() == N,
                sum == score_of(self@.subrange(0, i as int)),
            decreases N - i,
        {
            let ghost prefix = self@.subrange(0, i + 1);
            assert(prefix.drop_last() =~= self@.subrange(0, i as int));
            proof {
                lemma_score_bound(prefix);
                assert(u8::MAX * prefix.len() <= u8::MAX * N) by (nonlinear_arith)
                    requires
                        prefix.len() <= N,
                ;
            }
            if let Some(d) = self.cols[i] {
                sum = sum + d.value as u32;
            }
            i = i + 1;
        }
        assert(self@.subrange(0, N as int) =~= self@);
        sum
    }
}

} // verus!
