//! The search for all quadruples that a predicate accepts, and their
//! reduction up to equivalence.

use vstd::prelude::*;
use vstd::string::*;
use vstd::arithmetic::power::pow;
use crate::find::enumeration::{
    always,
    accepted,
    branches,
    collected,
    depth,
    leaves,
    legal_before,
    lemma_accepted_legal,
    lemma_always_keeps_all,
    lemma_leaves_agree,
    lemma_observed_concat,
    lemma_observed_one,
    lemma_visited,
    observed,
    outcome,
    start,
    total_on,
    visited,
};
use crate::sequences::equivalence::{
    N,
    generate_equivalence_class,
    lemma_minimum_canonical,
    will_less_than,
};
use crate::sequences::orbit::{
    covered,
    is_canonical,
    is_class_of,
    lemma_class_size,
    reachable,
    reduced,
    seeds_of,
    total_size,
};
use crate::sequences::order::{is_minimum, lemma_quad_irreflexive, lemma_quad_transitive, quad_less};
use crate::sequences::symmetries::SequenceType;
use crate::sequences::transform::all_legal;
use crate::sequences::williamson::{
    QuadSeq,
    Row,
    SequenceTag,
    admissible_rows,
    column,
    legal,
    legal_row,
    legal_table,
    lemma_admissible_legal,
    lemma_columns_tell,
    quadruplets,
    raw_lines,
    views,
};

verus! {

/// Tests whether `seq2` begins with the entries of `seq1`: for two
/// sequences of one length, whether they hold the same entries.
pub fn equals(seq1: &Vec<i8>, seq2: &Vec<i8>) -> (res: bool)
    requires
        seq1@.len() <= seq2@.len(),
    ensures
        res == (seq1@ == seq2@.take(seq1@.len() as int)),
{
    let mut index: usize = 0;
    while index < seq1.len()
        invariant
            index <= seq1@.len(),
            seq1@.len() <= seq2@.len(),
            forall|i: int| 0 <= i < index ==> seq1@[i] == seq2@[i],
        decreases seq1@.len() - index,
    {
        if seq1[index] != seq2[index] {
            assert(seq2@.take(seq1@.len() as int)[index as int] != seq1@[index as int]);
            return false;
        }
        index += 1;
    }
    assert(seq1@ =~= seq2@.take(seq1@.len() as int));
    true
}

/// Tests whether `set` holds a quadruple with the same four sequences as
/// `seq`.
pub fn contains(set: &Vec<QuadSeq>, seq: &QuadSeq) -> (res: bool)
    ensures
        res == views(set@).contains(seq@),
{
    let (a1, b1, c1, d1) = seq.sequences();
    let mut index: usize = 0;
    while index < set.len()
        invariant
            index <= set@.len(),
            a1@ == column(seq@, SequenceTag::X),
            b1@ == column(seq@, SequenceTag::Y),
            c1@ == column(seq@, SequenceTag::Z),
            d1@ == column(seq@, SequenceTag::W),
            forall|i: int| 0 <= i < index ==> views(set@)[i] != seq@,
        decreases set@.len() - index,
    {
        let elm = &set[index];
        if elm.size() == seq.size() {
            let (a2, b2, c2, d2) = elm.sequences();
            assert(a2@.take(a1@.len() as int) =~= a2@ && b2@.take(b1@.len() as int) =~= b2@
                && c2@.take(c1@.len() as int) =~= c2@ && d2@.take(d1@.len() as int) =~= d2@);
            if equals(&a1, &a2) && equals(&b1, &b2) && equals(&c1, &c2) && equals(&d1, &d2) {
                proof {
                    lemma_columns_tell(seq@, elm@);
                    assert(views(set@)[index as int] == seq@);
                }
                return true;
            }
        }
        index += 1;
    }
    false
}

/// Finds the least quadruple of a class in the lexicographic order.
pub fn find_minimum(class: &Vec<QuadSeq>) -> (res: QuadSeq)
    requires
        class@.len() > 0,
        forall|i: int| 0 <= i < class@.len() ==> (#[trigger] class@[i])@.len() == class@[0]@.len(),
    ensures
        is_minimum(views(class@), res@),
{
    let mut mini: usize = 0;
    let mut index: usize = 1;
    proof {
        lemma_quad_irreflexive(class@[0]@);
    }
    while index < class.len()
        invariant
            1 <= index <= class@.len(),
            mini < index,
            forall|i: int| 0 <= i < class@.len() ==> (#[trigger] class@[i])@.len() == class@[0]@.len(),
            forall|i: int| 0 <= i < index ==> !quad_less((#[trigger] class@[i])@, class@[mini as int]@),
        decreases class@.len() - index,
    {
        let elm = &class[index];
        let best = &class[mini];
        assert(class@[index as int]@.len() == class@[0]@.len());
        assert(class@[mini as int]@.len() == class@[0]@.len());
        if will_less_than(elm, best) {
            proof {
                lemma_quad_irreflexive(elm@);
                assert forall|i: int| 0 <= i < index + 1 implies !quad_less(
                    (#[trigger] class@[i])@,
                    elm@,
                ) by {
                    if i < index && quad_less(class@[i]@, elm@) {
                        lemma_quad_transitive(class@[i]@, elm@, best@);
                    }
                }
            }
            mini = index;
        }
        index += 1;
    }
    let res = class[mini].clone();
    proof {
        assert(views(class@)[mini as int] == res@);
        assert forall|i: int| 0 <= i < views(class@).len() implies !quad_less(
            #[trigger] views(class@)[i],
            res@,
        ) by {
            assert(!quad_less(class@[i]@, class@[mini as int]@));
        }
    }
    res
}

/// Whether `classes` holds, in order, the classes of `seeds`.
pub open spec fn classes_of(
    classes: Seq<Vec<QuadSeq>>,
    seeds: Seq<Seq<Row>>,
    seqtype: SequenceType,
) -> bool {
    &&& classes.len() == seeds.len()
    &&& forall|k: int|
        0 <= k < classes.len() ==> is_class_of(views((#[trigger] classes[k])@), seeds[k], seqtype)
            && all_legal(views(classes[k]@), seqtype, seeds[k].len())
}

/// Tests whether one of `classes` holds a quadruple with the same four
/// sequences as `seq`.
fn in_some_class(classes: &Vec<Vec<QuadSeq>>, seq: &QuadSeq) -> (res: bool)
    ensures
        res == exists|k: int|
            0 <= k < classes@.len() && views((#[trigger] classes@[k])@).contains(seq@),
{
    let mut index: usize = 0;
    while index < classes.len()
        invariant
            index <= classes@.len(),
            forall|k: int| 0 <= k < index ==> !views((#[trigger] classes@[k])@).contains(seq@),
        decreases classes@.len() - index,
    {
        if contains(&classes[index], seq) {
            return true;
        }
        index += 1;
    }
    false
}

/// Reduces a list of quadruples up to equivalence: the representative of
/// the class of each quadruple that starts a class, in the order of the
/// list.
pub fn reduce_to_equivalence(sequences: &Vec<QuadSeq>, seqtype: SequenceType) -> (res: Vec<QuadSeq>)
    requires
        forall|i: int|
            0 <= i < sequences@.len() ==> legal((#[trigger] sequences@[i])@, seqtype)
                && sequences@[i]@.len() < N,
    ensures
        reduced(views(sequences@), seqtype, views(res@)),
{
    let (representatives, _) = reduce_with_count(sequences, seqtype);
    representatives
}

/// Reduces a list of quadruples up to equivalence and counts the
/// quadruples covered: the representative of the class of each quadruple
/// that starts a class, in the order of the list, and the sum of the sizes
/// of these classes.
pub fn reduce_with_count(sequences: &Vec<QuadSeq>, seqtype: SequenceType) -> (res: (
    Vec<QuadSeq>,
    usize,
))
    requires
        forall|i: int|
            0 <= i < sequences@.len() ==> legal((#[trigger] sequences@[i])@, seqtype)
                && sequences@[i]@.len() < N,
    ensures
        reduced(views(sequences@), seqtype, views(res.0@)),
        res.1 == total_size(seeds_of(views(sequences@), seqtype), seqtype),
{
    let mut classes: Vec<Vec<QuadSeq>> = Vec::new();
    let ghost list = views(sequences@);

    let mut index: usize = 0;
    while index < sequences.len()
        invariant
            index <= sequences@.len(),
            list == views(sequences@),
            forall|i: int|
                0 <= i < sequences@.len() ==> legal((#[trigger] sequences@[i])@, seqtype)
                    && sequences@[i]@.len() < N,
            classes_of(classes@, seeds_of(list.take(index as int), seqtype), seqtype),
        decreases sequences@.len() - index,
    {
        let seq = &sequences[index];
        let ghost seeds = seeds_of(list.take(index as int), seqtype);
        let new_seq = !in_some_class(&classes, seq);
        proof {
            assert(list.take(index + 1).drop_last() =~= list.take(index as int));
            assert(list.take(index + 1).last() == seq@);
            if covered(seeds, seq@, seqtype) {
                let k = choose|k: int|
                    0 <= k < seeds.len() && reachable(#[trigger] seeds[k], seq@, seqtype);
                assert(views(classes@[k]@).contains(seq@));
            }
            if !new_seq {
                let k = choose|k: int|
                    0 <= k < classes@.len() && views((#[trigger] classes@[k])@).contains(seq@);
                assert(reachable(seeds[k], seq@, seqtype));
            }
            assert(new_seq == !covered(seeds, seq@, seqtype));
        }
        if new_seq {
            let new_class = generate_equivalence_class(seq, seqtype);
            classes.push(new_class);
        }
        index += 1;
    }
    assert(list.take(index as int) =~= list);

    let ghost seeds = seeds_of(list, seqtype);
    let mut res: Vec<QuadSeq> = Vec::new();
    let mut k: usize = 0;
    while k < classes.len()
        invariant
            k <= classes@.len(),
            classes_of(classes@, seeds, seqtype),
            res@.len() == k,
            forall|j: int|
                0 <= j < k ==> is_canonical(seeds[j], #[trigger] views(res@)[j], seqtype),
        decreases classes@.len() - k,
    {
        let class = &classes[k];
        proof {
            assert(is_class_of(views(class@), seeds[k as int], seqtype));
            assert forall|i: int| 0 <= i < class@.len() implies (#[trigger] class@[i])@.len()
                == class@[0]@.len() by {
                assert(views(class@)[i].len() == seeds[k as int].len());
                assert(views(class@)[0].len() == seeds[k as int].len());
            }
        }
        let mini = find_minimum(class);
        proof {
            lemma_minimum_canonical(views(class@), seeds[k as int], mini@, seqtype);
        }
        let ghost before = views(res@);
        res.push(mini);
        assert(views(res@) =~= before.push(mini@));
        k += 1;
    }

    // the classes are emptied into one list, last class first, whose length
    // is the count
    let mut members: Vec<QuadSeq> = Vec::new();
    assert(seeds.take(classes@.len() as int) =~= seeds);
    loop
        invariant_except_break
            classes@.len() <= seeds.len(),
            classes_of(classes@, seeds.take(classes@.len() as int), seqtype),
            members@.len() + total_size(seeds.take(classes@.len() as int), seqtype) == total_size(
                seeds,
                seqtype,
            ),
        ensures
            members@.len() == total_size(seeds, seqtype),
        decreases classes@.len(),
    {
        let ghost held = classes@;
        match classes.pop() {
            Some(mut class) => {
                proof {
                    let left = held.len() - 1;
                    assert(class == held[left]);
                    assert(is_class_of(views(class@), seeds.take(held.len() as int)[left], seqtype));
                    lemma_class_size(views(class@), seeds[left], seqtype);
                    assert(seeds.take(held.len() as int).drop_last() =~= seeds.take(left));
                    assert(seeds.take(held.len() as int).last() == seeds[left]);
                    assert forall|j: int| 0 <= j < classes@.len() implies is_class_of(
                        views((#[trigger] classes@[j])@),
                        seeds.take(left)[j],
                        seqtype,
                    ) && all_legal(views(classes@[j]@), seqtype, seeds.take(left)[j].len()) by {
                        assert(classes@[j] == held[j]);
                        assert(is_class_of(
                            views(held[j]@),
                            seeds.take(held.len() as int)[j],
                            seqtype,
                        ));
                    }
                }
                members.append(&mut class);
            },
            None => {
                assert(seeds.take(0).len() == 0);
                break ;
            },
        }
    }
    (res, members.len())
}

/// Finds the quadruples of length `size` of the kind `seqtype` that
/// `condition` accepts, in the order of the search, which tries every row
/// of the table at every index. With `fix_first` the search is confined to
/// the quadruples with the identity at index 0.
pub fn search<F: Fn(&QuadSeq) -> bool>(
    size: usize,
    seqtype: SequenceType,
    fix_first: bool,
    condition: F,
) -> (res: Vec<QuadSeq>)
    requires
        total_on(condition, size as nat, seqtype),
    ensures
        outcome(condition, visited(size as nat, fix_first, admissible_rows(seqtype)), views(res@)),
        forall|i: int|
            0 <= i < res@.len() ==> legal(#[trigger] views(res@)[i], seqtype) && views(
                res@,
            )[i].len() == size,
        always(condition) ==> views(res@) == visited(
            size as nat,
            fix_first,
            admissible_rows(seqtype),
        ) && res@.len() == pow(
            admissible_rows(seqtype).len() as int,
            depth(size as nat, fix_first),
        ),
{
    let mut will = QuadSeq::new(size);
    let mut index: usize = 0;
    if fix_first {
        index = 1;
        if size > 0 {
            will.set_sequence_value(&(1i8, 1i8, 1i8, 1i8), 0);
        }
    }
    let table = quadruplets(seqtype);
    let mut result: Vec<QuadSeq> = Vec::new();
    let ghost visit = visited(size as nat, fix_first, admissible_rows(seqtype));
    proof {
        lemma_admissible_legal(seqtype);
        lemma_visited(size as nat, fix_first, admissible_rows(seqtype), seqtype);
        assert(will@ =~= start(size as nat, fix_first));
    }

    find_recursive(&mut will, size, index, &table, Ghost(seqtype), &condition, &mut result);

    proof {
        let trace = choose|trace: Seq<(QuadSeq, bool)>|
            observed(condition, visit, trace) && views(result@) == Seq::<Seq<Row>>::empty()
                + accepted(trace);
        assert(views(result@) =~= accepted(trace));
        lemma_accepted_legal(visit, trace, seqtype, size as nat);
        if always(condition) {
            lemma_always_keeps_all(condition, visit, views(result@));
        }
    }
    result
}

/// Finds the quadruples of length `size` of the kind `seqtype` that
/// `condition` accepts, every index being searched.
pub fn find_aux<F: Fn(&QuadSeq) -> bool>(size: usize, seqtype: SequenceType, condition: F) -> (res:
    Vec<QuadSeq>)
    requires
        total_on(condition, size as nat, seqtype),
    ensures
        outcome(condition, visited(size as nat, false, admissible_rows(seqtype)), views(res@)),
        forall|i: int|
            0 <= i < res@.len() ==> legal(#[trigger] views(res@)[i], seqtype) && views(
                res@,
            )[i].len() == size,
        always(condition) ==> views(res@) == visited(size as nat, false, admissible_rows(seqtype))
            && res@.len() == pow(admissible_rows(seqtype).len() as int, size as nat),
{
    search(size, seqtype, false, condition)
}

/// Visits, with the entries before `index` settled, every way of filling
/// the others from `table`, and appends to `sequences` the complete
/// quadruples that `condition` accepts.
fn find_recursive<F: Fn(&QuadSeq) -> bool>(
    will: &mut QuadSeq,
    size: usize,
    index: usize,
    table: &Vec<Row>,
    Ghost(seqtype): Ghost<SequenceType>,
    condition: &F,
    sequences: &mut Vec<QuadSeq>,
)
    requires
        old(will)@.len() == size,
        legal_before(old(will)@, index as nat, seqtype),
        legal_table(table@, seqtype),
        total_on(*condition, size as nat, seqtype),
    ensures
        final(will)@.len() == size,
        forall|i: int| 0 <= i < index && i < size ==> final(will)@[i] == old(will)@[i],
        collected(
            *condition,
            leaves(old(will)@, index as nat, table@),
            views(old(sequences)@),
            views(final(sequences)@),
        ),
    decreases size - index,
{
    let ghost prefix = will@;
    let ghost start = views(sequences@);
    if index >= size {
        let answer = condition(will);
        let ghost asked = *will;
        if answer {
            sequences.push(will.clone());
        }
        proof {
            lemma_observed_one(*condition, asked, answer);
            let trace = seq![(asked, answer)];
            assert(leaves(prefix, index as nat, table@) =~= seq![prefix]);
            assert(views(sequences@) =~= start + accepted(trace));
            assert(observed(*condition, leaves(prefix, index as nat, table@), trace));
        }
        return ;
    }
    let ghost mut trace = Seq::<(QuadSeq, bool)>::empty();
    let mut j: usize = 0;
    proof {
        assert(views(sequences@) =~= start + accepted(trace));
    }
    while j < table.len()
        invariant
            j <= table@.len(),
            index < size,
            will@.len() == size,
            prefix.len() == size,
            forall|i: int| 0 <= i < index ==> will@[i] == prefix[i],
            legal_before(prefix, index as nat, seqtype),
            legal_table(table@, seqtype),
            total_on(*condition, size as nat, seqtype),
            observed(*condition, branches(prefix, index as nat, table@, j as nat), trace),
            views(sequences@) == start + accepted(trace),
        decreases table@.len() - j,
    {
        will.set_sequence_value(&table[j], index);
        let ghost here = will@;
        let ghost held = views(sequences@);
        proof {
            assert(legal_row(table@[j as int], seqtype));
            assert forall|i: int| 0 <= i < index + 1 && i < here.len() implies legal_row(
                #[trigger] here[i],
                seqtype,
            ) by {
                if i < index {
                    assert(here[i] == prefix[i]);
                }
            }
        }
        find_recursive(will, size, index + 1, table, Ghost(seqtype), condition, sequences);
        proof {
            let next = prefix.update(index as int, table@[j as int]);
            let below = choose|below: Seq<(QuadSeq, bool)>|
                observed(*condition, leaves(here, (index + 1) as nat, table@), below) && views(
                    sequences@,
                ) == held + accepted(below);
            lemma_leaves_agree(here, next, (index + 1) as nat, table@);
            lemma_observed_concat(
                *condition,
                branches(prefix, index as nat, table@, j as nat),
                trace,
                leaves(next, (index + 1) as nat, table@),
                below,
            );
            assert(views(sequences@) =~= start + accepted(trace + below));
            trace = trace + below;
        }
        j += 1;
    }
    proof {
        assert(observed(*condition, leaves(prefix, index as nat, table@), trace));
    }
}

/// Whether `text` lists the representatives of the classes of the
/// quadruples of length `size` of the kind `seqtype` that a run of `f` over
/// the search accepts, one to a line.
pub open spec fn found_text<F: Fn(&QuadSeq) -> bool>(
    f: F,
    size: nat,
    seqtype: SequenceType,
    text: Seq<char>,
) -> bool {
    exists|found: Seq<Seq<Row>>, reps: Seq<Seq<Row>>|
        outcome(f, visited(size, false, admissible_rows(seqtype)), found) && #[trigger] reduced(
            found,
            seqtype,
            reps,
        ) && text == raw_lines(reps)
}

/// Finds the quadruples of length `size` of the kind `seqtype` that
/// `condition` accepts and reduces them up to equivalence: the text of the
/// representative of each class, one to a line.
pub fn find<F: Fn(&QuadSeq) -> bool>(size: usize, seqtype: SequenceType, condition: F) -> (res:
    String)
    requires
        size < N,
        total_on(condition, size as nat, seqtype),
    ensures
        found_text(condition, size as nat, seqtype, res@),
{
    let sequences = find_aux(size, seqtype, condition);
    proof {
        assert forall|i: int| 0 <= i < sequences@.len() implies legal(
            (#[trigger] sequences@[i])@,
            seqtype,
        ) && sequences@[i]@.len() < N by {
            assert(legal(views(sequences@)[i], seqtype));
        }
    }
    let representatives = reduce_to_equivalence(&sequences, seqtype);

    let mut text = String::new();
    let mut index: usize = 0;
    assert(views(representatives@).take(0).len() == 0);
    while index < representatives.len()
        invariant
            index <= representatives@.len(),
            text@ == raw_lines(views(representatives@).take(index as int)),
        decreases representatives@.len() - index,
    {
        let line = representatives[index].to_string_raw();
        text.append(line.as_str());
        text.append("\n");
        proof {
            let list = views(representatives@);
            assert(list.take(index + 1).drop_last() =~= list.take(index as int));
            assert(list.take(index + 1).last() == representatives@[index as int]@);
        }
        index += 1;
    }
    proof {
        assert(views(representatives@).take(index as int) =~= views(representatives@));
        assert(reduced(views(sequences@), seqtype, views(representatives@)));
    }
    text
}

} // verus!
