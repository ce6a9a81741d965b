//! The count of the quadruples over the four-symbol alphabet that a
//! predicate accepts, the first index being fixed, with or without a
//! symmetry imposed during the search.

use vstd::prelude::*;
use vstd::arithmetic::power::pow;
use crate::find::enumeration::{
    accepted,
    always,
    branches,
    counted,
    depth,
    leaves,
    legal_before,
    lemma_accepted_len,
    lemma_always_keeps_all,
    lemma_branches_grow,
    lemma_leaves_agree,
    lemma_observed_concat,
    lemma_observed_one,
    lemma_visited,
    observed,
    start,
    total_on,
    visited,
};
use crate::sequences::symmetries::{SequenceType, Symmetry, narrow, narrowed};
use crate::sequences::williamson::{
    QuadSeq,
    Row,
    admissible_rows,
    legal_row,
    legal_table,
    lemma_admissible_legal,
    quadruplets,
};

verus! {

/// The rows that a symmetry leaves of a table of legal rows are legal.
pub proof fn lemma_narrowed_legal(table: Seq<Row>, symmetry: Option<Symmetry>, seqtype: SequenceType)
    requires
        legal_table(table, seqtype),
    ensures
        legal_table(narrowed(table, symmetry), seqtype),
{
    let left = narrowed(table, symmetry);
    assert forall|j: int| 0 <= j < left.len() implies legal_row(#[trigger] left[j], seqtype) by {
        match symmetry {
            Some(s) => {
                assert(left.contains(left[j]));
                table.lemma_filter_contains_rev(s.admitted(), left[j]);
                let i = choose|i: int| 0 <= i < table.len() && table[i] == left[j];
                assert(legal_row(table[i], seqtype));
            },
            None => {},
        }
    }
}

/// Counts the quadruples of length `size` over the four-symbol alphabet
/// that `condition` accepts among those with the identity at index 0 and,
/// at every other index, any row of the table that `symmetry` admits.
pub fn find<F: Fn(&QuadSeq) -> bool>(size: usize, symmetry: Option<Symmetry>, condition: F) -> (res:
    usize)
    requires
        total_on(condition, size as nat, SequenceType::QuaternionType),
        pow(
            narrowed(admissible_rows(SequenceType::QuaternionType), symmetry).len() as int,
            depth(size as nat, true),
        ) <= usize::MAX,
    ensures
        counted(
            condition,
            visited(
                size as nat,
                true,
                narrowed(admissible_rows(SequenceType::QuaternionType), symmetry),
            ),
            res as int,
        ),
        always(condition) ==> res == pow(
            narrowed(admissible_rows(SequenceType::QuaternionType), symmetry).len() as int,
            depth(size as nat, true),
        ),
{
    let seqtype = SequenceType::QuaternionType;
    let mut count: usize = 0;
    let mut pqs = QuadSeq::new(size);
    if size > 0 {
        pqs.set_sequence_value(&(1i8, 1i8, 1i8, 1i8), 0);
    }
    let table = narrow(quadruplets(seqtype), &symmetry);
    proof {
        lemma_admissible_legal(seqtype);
        lemma_narrowed_legal(admissible_rows(seqtype), symmetry, seqtype);
        lemma_visited(size as nat, true, table@, seqtype);
        assert(pqs@ =~= start(size as nat, true));
    }

    find_recursive(&mut pqs, size, 1, &table, Ghost(seqtype), &condition, &mut count);

    proof {
        if always(condition) {
            let visit = visited(size as nat, true, table@);
            let trace = choose|trace: Seq<(QuadSeq, bool)>|
                observed(condition, visit, trace) && count == accepted(trace).len();
            lemma_always_keeps_all(condition, visit, accepted(trace));
        }
    }
    count
}

/// Adds to `count`, with the entries before `index` settled, the number of
/// ways of filling the others from `table` that `condition` accepts.
fn find_recursive<F: Fn(&QuadSeq) -> bool>(
    pqs: &mut QuadSeq,
    size: usize,
    index: usize,
    table: &Vec<Row>,
    Ghost(seqtype): Ghost<SequenceType>,
    condition: &F,
    count: &mut usize,
)
    requires
        old(pqs)@.len() == size,
        legal_before(old(pqs)@, index as nat, seqtype),
        legal_table(table@, seqtype),
        total_on(*condition, size as nat, seqtype),
        *old(count) + leaves(old(pqs)@, index as nat, table@).len() <= usize::MAX,
    ensures
        final(pqs)@.len() == size,
        forall|i: int| 0 <= i < index && i < size ==> final(pqs)@[i] == old(pqs)@[i],
        counted(
            *condition,
            leaves(old(pqs)@, index as nat, table@),
            *final(count) - *old(count),
        ),
    decreases size - index,
{
    let ghost prefix = pqs@;
    let ghost before = *count;
    if index >= size {
        let answer = condition(pqs);
        let ghost asked = *pqs;
        proof {
            lemma_observed_one(*condition, asked, answer);
            let trace = seq![(asked, answer)];
            assert(leaves(prefix, index as nat, table@) =~= seq![prefix]);
            assert(observed(*condition, leaves(prefix, index as nat, table@), trace));
        }
        if answer {
            *count += 1;
        }
        return ;
    }
    let ghost mut trace = Seq::<(QuadSeq, bool)>::empty();
    let mut j: usize = 0;
    while j < table.len()
        invariant
            j <= table@.len(),
            index < size,
            pqs@.len() == size,
            prefix.len() == size,
            forall|i: int| 0 <= i < index ==> pqs@[i] == prefix[i],
            legal_before(prefix, index as nat, seqtype),
            legal_table(table@, seqtype),
            total_on(*condition, size as nat, seqtype),
            before + leaves(prefix, index as nat, table@).len() <= usize::MAX,
            observed(*condition, branches(prefix, index as nat, table@, j as nat), trace),
            *count == before + accepted(trace).len(),
        decreases table@.len() - j,
    {
        pqs.set_sequence_value(&table[j], index);
        let ghost here = pqs@;
        let ghost held = *count;
        let ghost next = prefix.update(index as int, table@[j as int]);
        proof {
            assert(legal_row(table@[j as int], seqtype));
            assert forall|i: int| 0 <= i < index + 1 && i < here.len() implies legal_row(
                #[trigger] here[i],
                seqtype,
            ) by {
                if i < index {
                    assert(here[i] == prefix[i]);
                }
            }
            lemma_branches_grow(prefix, index as nat, table@, (j + 1) as nat);
            lemma_leaves_agree(here, next, (index + 1) as nat, table@);
            lemma_accepted_len(trace);
        }
        find_recursive(pqs, size, index + 1, table, Ghost(seqtype), condition, count);
        proof {
            let sub = choose|sub: Seq<(QuadSeq, bool)>|
                observed(*condition, leaves(here, (index + 1) as nat, table@), sub) && *count
                    - held == accepted(sub).len();
            lemma_observed_concat(
                *condition,
                branches(prefix, index as nat, table@, j as nat),
                trace,
                leaves(next, (index + 1) as nat, table@),
                sub,
            );
            trace = trace + sub;
        }
        j += 1;
    }
    proof {
        assert(observed(*condition, leaves(prefix, index as nat, table@), trace));
    }
}

} // verus!
