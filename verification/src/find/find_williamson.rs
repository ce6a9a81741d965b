//! The count of the sign quadruples that a predicate accepts, the first
//! index being fixed.

use vstd::prelude::*;
use vstd::arithmetic::power::pow;
use crate::find::enumeration::{
    accepted,
    always,
    branches,
    counted,
    depth,
    leaves,
    legal_before,
    lemma_accepted_len,
    lemma_always_keeps_all,
    lemma_branches_grow,
    lemma_observed_concat,
    lemma_observed_one,
    lemma_visited,
    observed,
    start,
    total_on,
    visited,
};
use crate::sequences::symmetries::SequenceType;
use crate::sequences::williamson::{
    QuadSeq,
    Row,
    admissible_rows,
    legal_row,
    legal_table,
    lemma_admissible_legal,
    quadruplets,
};

verus! {

/// Counts the sign quadruples of length `size` that `condition` accepts
/// among those with the identity at index 0 and any row of the table at
/// every other index.
pub fn find<F: Fn(&QuadSeq) -> bool>(size: usize, condition: F) -> (res: usize)
    requires
        total_on(condition, size as nat, SequenceType::WilliamsonType),
        pow(
            admissible_rows(SequenceType::WilliamsonType).len() as int,
            depth(size as nat, true),
        ) <= usize::MAX,
    ensures
        counted(
            condition,
            visited(size as nat, true, admissible_rows(SequenceType::WilliamsonType)),
            res as int,
        ),
        always(condition) ==> res == pow(
            admissible_rows(SequenceType::WilliamsonType).len() as int,
            depth(size as nat, true),
        ),
{
    let seqtype = SequenceType::WilliamsonType;
    let mut will = QuadSeq::new(size);
    if size > 0 {
        will.set_sequence_value(&(1i8, 1i8, 1i8, 1i8), 0);
    }
    let table = quadruplets(seqtype);
    proof {
        lemma_admissible_legal(seqtype);
        lemma_visited(size as nat, true, table@, seqtype);
        assert(will@ =~= start(size as nat, true));
    }
    let count = find_recursive(&will, size, 1, &table, Ghost(seqtype), &condition);
    proof {
        if always(condition) {
            let visit = visited(size as nat, true, table@);
            let trace = choose|trace: Seq<(QuadSeq, bool)>|
                observed(condition, visit, trace) && count == accepted(trace).len();
            lemma_always_keeps_all(condition, visit, accepted(trace));
        }
    }
    count
}

/// Counts, with the entries before `index` settled, the ways of filling
/// the others from `table` that `condition` accepts. Each branch works on a
/// copy of its own.
fn find_recursive<F: Fn(&QuadSeq) -> bool>(
    will: &QuadSeq,
    size: usize,
    index: usize,
    table: &Vec<Row>,
    Ghost(seqtype): Ghost<SequenceType>,
    condition: &F,
) -> (count: usize)
    requires
        will@.len() == size,
        legal_before(will@, index as nat, seqtype),
        legal_table(table@, seqtype),
        total_on(*condition, size as nat, seqtype),
        leaves(will@, index as nat, table@).len() <= usize::MAX,
    ensures
        counted(*condition, leaves(will@, index as nat, table@), count as int),
    decreases size - index,
{
    if index >= size {
        let answer = condition(will);
        proof {
            lemma_observed_one(*condition, *will, answer);
            let trace = seq![(*will, answer)];
            assert(leaves(will@, index as nat, table@) =~= seq![will@]);
            assert(observed(*condition, leaves(will@, index as nat, table@), trace));
        }
        if answer {
            return 1;
        }
        return 0;
    }
    let ghost mut trace = Seq::<(QuadSeq, bool)>::empty();
    let mut count: usize = 0;
    let mut j: usize = 0;
    while j < table.len()
        invariant
            j <= table@.len(),
            index < size,
            will@.len() == size,
            legal_before(will@, index as nat, seqtype),
            legal_table(table@, seqtype),
            total_on(*condition, size as nat, seqtype),
            leaves(will@, index as nat, table@).len() <= usize::MAX,
            observed(*condition, branches(will@, index as nat, table@, j as nat), trace),
            count == accepted(trace).len(),
        decreases table@.len() - j,
    {
        let mut will1 = will.clone();
        will1.set_sequence_value(&table[j], index);
        proof {
            assert(legal_row(table@[j as int], seqtype));
            assert forall|i: int| 0 <= i < index + 1 && i < will1@.len() implies legal_row(
                #[trigger] will1@[i],
                seqtype,
            ) by {
                if i < index {
                    assert(will1@[i] == will@[i]);
                }
            }
            lemma_branches_grow(will@, index as nat, table@, (j + 1) as nat);
            assert(will1@ == will@.update(index as int, table@[j as int]));
        }
        let below = find_recursive(&will1, size, index + 1, table, Ghost(seqtype), condition);
        proof {
            let sub = choose|sub: Seq<(QuadSeq, bool)>|
                observed(*condition, leaves(will1@, (index + 1) as nat, table@), sub) && below
                    == accepted(sub).len();
            lemma_observed_concat(
                *condition,
                branches(will@, index as nat, table@, j as nat),
                trace,
                leaves(will1@, (index + 1) as nat, table@),
                sub,
            );
            lemma_accepted_len(trace + sub);
            trace = trace + sub;
        }
        count += below;
        j += 1;
    }
    proof {
        assert(observed(*condition, leaves(will@, index as nat, table@), trace));
    }
    count
}

} // verus!
