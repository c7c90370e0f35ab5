//! Facts about sequences of board operations, stated over the same spec
//! functions that the operations' contracts use.
use crate::board::{
    after_insert, after_strike, all_occupied, dice_in, empty_slots, insert_outcome, score_of,
    slot_value, struck_dice, Board,
};
use crate::dice::{Dice, DiceError};
use vstd::prelude::*;

verus! {

/// The slots after inserting each `(column, die)` of `ops` in turn into slots `s`,
/// whatever each insert returned.
pub open spec fn apply_inserts(s: Seq<Option<Dice>>, ops: Seq<(usize, Dice)>) -> Seq<
    Option<Dice>,
>
    decreases ops.len(),
{
    if ops.len() == 0 {
        s
    } else {
        let (col, d) = ops.last();
        after_insert(apply_inserts(s, ops.drop_last()), col as int, d)
    }
}

/// Whether some insert of `ops` names column `j`.
pub open spec fn column_named(ops: Seq<(usize, Dice)>, j: int) -> bool {
    exists|k: int| 0 <= k < ops.len() && (#[trigger] ops[k]).0 == j
}

/// Replacing one slot changes the score by the difference of the two slots' values.
pub proof fn lemma_score_update(s: Seq<Option<Dice>>, i: int, x: Option<Dice>)
    requires
        0 <= i < s.len(),
    ensures
        score_of(s.update(i, x)) + slot_value(s[i]) == score_of(s) + slot_value(x),
    decreases s.len(),
{
    if i == s.len() - 1 {
        assert(s.update(i, x).drop_last() =~= s.drop_last());
    } else {
        assert(s.update(i, x).drop_last() =~= s.drop_last().update(i, x));
        lemma_score_update(s.drop_last(), i, x);
    }
}

/// Once a die `d` has been placed in column `col`, a second placement there
/// is refused with `ColumnOccupied` and leaves `d` where it was.
pub proof fn lemma_insert_twice<const N: usize>(b: Board<N>, col: usize, d: Dice, d2: Dice)
    requires
        col < N,
        b@[col as int] is None,
    ensures
        insert_outcome(b@, col as int) == Ok::<(), DiceError>(()),
        insert_outcome(after_insert(b@, col as int, d), col as int) == Err::<(), DiceError>(
            DiceError::ColumnOccupied,
        ),
        after_insert(after_insert(b@, col as int, d), col as int, d2) == after_insert(
            b@,
            col as int,
            d,
        ),
        after_insert(after_insert(b@, col as int, d), col as int, d2)[col as int] == Some(d),
{
    b.lemma_len();
}

/// A placement in a column past the end is refused with `InvalidColumn` and
/// changes neither the slots, nor the score, nor fullness.
pub proof fn lemma_insert_out_of_range<const N: usize>(b: Board<N>, col: usize, d: Dice)
    requires
        col >= N,
    ensures
        insert_outcome(b@, col as int) == Err::<(), DiceError>(DiceError::InvalidColumn),
        after_insert(b@, col as int, d) == b@,
        score_of(after_insert(b@, col as int, d)) == score_of(b@),
        all_occupied(after_insert(b@, col as int, d)) == all_occupied(b@),
{
    b.lemma_len();
}

/// Placing `d` in an empty column `c` and then striking one column from `c`
/// hands back exactly `[d]`, empties the column again so that a new placement
/// there succeeds, and restores the slots as they were.
pub proof fn lemma_insert_strike_round_trip<const N: usize>(b: Board<N>, c: usize, d: Dice)
    requires
        c < N,
        b@[c as int] is None,
    ensures
        struck_dice(after_insert(b@, c as int, d), c as int, 1) == seq![d],
        after_strike(after_insert(b@, c as int, d), c as int, 1)[c as int] is None,
        after_strike(after_insert(b@, c as int, d), c as int, 1) == b@,
        insert_outcome(after_strike(after_insert(b@, c as int, d), c as int, 1), c as int)
            == Ok::<(), DiceError>(()),
{
    b.lemma_len();
    let s1 = after_insert(b@, c as int, d);
    let run = s1.subrange(c as int, c + 1);
    assert(run.drop_last() =~= Seq::<Option<Dice>>::empty());
    assert(dice_in(run.drop_last()) =~= Seq::<Dice>::empty());
    assert(dice_in(run) =~= seq![d]);
    assert(after_strike(s1, c as int, 1) =~= b@);
}

/// A successful placement of `d` raises the score by exactly `d.value`.
pub proof fn lemma_score_insert<const N: usize>(b: Board<N>, col: usize, d: Dice)
    requires
        insert_outcome(b@, col as int) is Ok,
    ensures
        score_of(after_insert(b@, col as int, d)) == score_of(b@) + d.value,
{
    lemma_score_update(b@, col as int, Some(d));
}

/// Striking the single column `col` that holds `d` lowers the score by exactly
/// `d.value`.
pub proof fn lemma_score_strike<const N: usize>(b: Board<N>, col: usize, d: Dice)
    requires
        col < N,
        b@[col as int] == Some(d),
    ensures
        score_of(after_strike(b@, col as int, 1)) + d.value == score_of(b@),
{
    b.lemma_len();
    assert(after_strike(b@, col as int, 1) =~= b@.update(col as int, None));
    lemma_score_update(b@, col as int, None);
}

/// A run of inserts keeps the number of slots.
pub proof fn lemma_inserts_keep_len(s: Seq<Option<Dice>>, ops: Seq<(usize, Dice)>)
    ensures
        apply_inserts(s, ops).len() == s.len(),
    decreases ops.len(),
{
    if ops.len() > 0 {
        lemma_inserts_keep_len(s, ops.drop_last());
    }
}

/// After a run of inserts, a column holds a die exactly when it held one before
/// or some insert of the run named it.
pub proof fn lemma_inserts_occupy(s: Seq<Option<Dice>>, ops: Seq<(usize, Dice)>, j: int)
    requires
        0 <= j < s.len(),
    ensures
        apply_inserts(s, ops).len() == s.len(),
        apply_inserts(s, ops)[j] is Some <==> (s[j] is Some || column_named(ops, j)),
    decreases ops.len(),
{
    if ops.len() > 0 {
        let init = ops.drop_last();
        lemma_inserts_occupy(s, init, j);
        if column_named(ops, j) && !column_named(init, j) {
            let k = choose|k: int| 0 <= k < ops.len() && (#[trigger] ops[k]).0 == j;
            assert(k == ops.len() - 1) by {
                if k < ops.len() - 1 {
                    assert(init[k] == ops[k]);
                }
            }
        }
        if column_named(init, j) {
            let k = choose|k: int| 0 <= k < init.len() && (#[trigger] init[k]).0 == j;
            assert(ops[k] == init[k]);
        }
        if ops.last().0 == j {
            assert(ops[ops.len() - 1].0 == j);
        }
    }
}

/// Starting from an empty board and making only placements, the board is full
/// exactly when the placements named every column `0 .. N`.
pub proof fn lemma_full_iff_all_columns_placed<const N: usize>(ops: Seq<(usize, Dice)>)
    ensures
        all_occupied(apply_inserts(empty_slots(N as nat), ops)) <==> forall|j: int|
            0 <= j < N ==> #[trigger] column_named(ops, j),
{
    let s = empty_slots(N as nat);
    let t = apply_inserts(s, ops);
    lemma_inserts_keep_len(s, ops);
    if all_occupied(t) {
        assert forall|j: int| 0 <= j < N implies #[trigger] column_named(ops, j) by {
            lemma_inserts_occupy(s, ops, j);
            assert(t[j] is Some);
        }
    }
    if forall|j: int| 0 <= j < N ==> #[trigger] column_named(ops, j) {
        assert forall|i: int| 0 <= i < t.len() implies #[trigger] t[i] is Some by {
            lemma_inserts_occupy(s, ops, i);
            assert(column_named(ops, i));
        }
    }
}

} // verus!
