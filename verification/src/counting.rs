//! Counting the cells of a board that satisfy a fixed predicate: mines,
//! marked mines, unrevealed cells. The counts drive the board invariant
//! (exactly `mine_count` mines), the win check, and the termination
//! measure of the flood reveal.
use vstd::prelude::*;

use crate::field::{Field, FieldStatus, FieldType};

verus! {

pub open spec fn is_mine(f: Field) -> bool {
    f.field_type == FieldType::Mine
}

pub open spec fn is_marked_mine(f: Field) -> bool {
    f.field_type == FieldType::Mine && f.is_marked
}

pub open spec fn is_unrevealed(f: Field) -> bool {
    f.field_status == FieldStatus::Unrevealed
}

pub open spec fn count_mines(s: Seq<Field>) -> int
    decreases s.len(),
{
    if s.len() == 0 {
        0
    } else {
        count_mines(s.drop_last()) + (if is_mine(s.last()) {
            1int
        } else {
            0int
        })
    }
}

pub open spec fn count_marked_mines(s: Seq<Field>) -> int
    decreases s.len(),
{
    if s.len() == 0 {
        0
    } else {
        count_marked_mines(s.drop_last()) + (if is_marked_mine(s.last()) {
            1int
        } else {
            0int
        })
    }
}

pub open spec fn count_unrevealed(s: Seq<Field>) -> int
    decreases s.len(),
{
    if s.len() == 0 {
        0
    } else {
        count_unrevealed(s.drop_last()) + (if is_unrevealed(s.last()) {
            1int
        } else {
            0int
        })
    }
}

pub proof fn lemma_count_marked_mines_bounds(s: Seq<Field>)
    ensures
        0 <= count_marked_mines(s) <= s.len(),
    decreases s.len(),
{
    if s.len() > 0 {
        lemma_count_marked_mines_bounds(s.drop_last());
    }
}

pub proof fn lemma_count_unrevealed_bounds(s: Seq<Field>)
    ensures
        0 <= count_unrevealed(s) <= s.len(),
    decreases s.len(),
{
    if s.len() > 0 {
        lemma_count_unrevealed_bounds(s.drop_last());
    }
}

pub proof fn lemma_count_mines_push(s: Seq<Field>, f: Field)
    ensures
        count_mines(s.push(f)) == count_mines(s) + (if is_mine(f) {
            1int
        } else {
            0int
        }),
{
    assert(s.push(f).drop_last() =~= s);
}

pub proof fn lemma_count_mines_update(s: Seq<Field>, i: int, f: Field)
    requires
        0 <= i < s.len(),
    ensures
        count_mines(s.update(i, f)) == count_mines(s) - (if is_mine(s[i]) {
            1int
        } else {
            0int
        }) + (if is_mine(f) {
            1int
        } else {
            0int
        }),
    decreases s.len(),
{
    let t = s.update(i, f);
    if i == s.len() - 1 {
        assert(t.drop_last() =~= s.drop_last());
    } else {
        assert(t.drop_last() =~= s.drop_last().update(i, f));
        lemma_count_mines_update(s.drop_last(), i, f);
    }
}

pub proof fn lemma_count_unrevealed_update(s: Seq<Field>, i: int, f: Field)
    requires
        0 <= i < s.len(),
    ensures
        count_unrevealed(s.update(i, f)) == count_unrevealed(s) - (if is_unrevealed(s[i]) {
            1int
        } else {
            0int
        }) + (if is_unrevealed(f) {
            1int
        } else {
            0int
        }),
    decreases s.len(),
{
    let t = s.update(i, f);
    if i == s.len() - 1 {
        assert(t.drop_last() =~= s.drop_last());
    } else {
        assert(t.drop_last() =~= s.drop_last().update(i, f));
        lemma_count_unrevealed_update(s.drop_last(), i, f);
    }
}

pub proof fn lemma_count_mines_congruent(s1: Seq<Field>, s2: Seq<Field>)
    requires
        s1.len() == s2.len(),
        forall|i: int| 0 <= i < s1.len() ==> is_mine(#[trigger] s2[i]) == is_mine(s1[i]),
    ensures
        count_mines(s2) == count_mines(s1),
    decreases s1.len(),
{
    if s1.len() > 0 {
        lemma_count_mines_congruent(s1.drop_last(), s2.drop_last());
        assert(is_mine(s2[s1.len() - 1]) == is_mine(s1[s1.len() - 1]));
    }
}

pub proof fn lemma_count_marked_mines_congruent(s1: Seq<Field>, s2: Seq<Field>)
    requires
        s1.len() == s2.len(),
        forall|i: int| 0 <= i < s1.len() ==> is_marked_mine(#[trigger] s2[i]) == is_marked_mine(
            s1[i],
        ),
    ensures
        count_marked_mines(s2) == count_marked_mines(s1),
    decreases s1.len(),
{
    if s1.len() > 0 {
        lemma_count_marked_mines_congruent(s1.drop_last(), s2.drop_last());
        assert(is_marked_mine(s2[s1.len() - 1]) == is_marked_mine(s1[s1.len() - 1]));
    }
}

} // verus!
