//! What each equivalence makes of a quadruple of sequences.

use vstd::prelude::*;
use crate::sequences::arithmetic::is_coprime;
use crate::sequences::symmetries::{Equivalence, SequenceType};
use crate::sequences::williamson::{Row, SequenceTag, entry, legal, legal_row, with_entry};

verus! {

/// Two of the four sequences, the first coming before the second among A, B,
/// C, D.
pub type Couple = (SequenceTag, SequenceTag);

/// The couple of sequences at place `i` of the order AB, AC, AD, BC, BD, CD.
pub open spec fn couple_at(i: int) -> Couple {
    if i == 0 {
        (SequenceTag::X, SequenceTag::Y)
    } else if i == 1 {
        (SequenceTag::X, SequenceTag::Z)
    } else if i == 2 {
        (SequenceTag::X, SequenceTag::W)
    } else if i == 3 {
        (SequenceTag::Y, SequenceTag::Z)
    } else if i == 4 {
        (SequenceTag::Y, SequenceTag::W)
    } else {
        (SequenceTag::Z, SequenceTag::W)
    }
}

/// The six couples of sequences, in the order AB, AC, AD, BC, BD, CD.
pub open spec fn couples() -> Seq<Couple> {
    Seq::new(6, |i: int| couple_at(i))
}

/// The sequence at place `j` of the order A, B, C, D.
pub open spec fn tag_at(j: int) -> SequenceTag {
    if j == 0 {
        SequenceTag::X
    } else if j == 1 {
        SequenceTag::Y
    } else if j == 2 {
        SequenceTag::Z
    } else {
        SequenceTag::W
    }
}

/// The four sequences, in the order A, B, C, D.
pub open spec fn tags() -> Seq<SequenceTag> {
    Seq::new(4, |j: int| tag_at(j))
}

/// The pairs of an element of `first` and an element of `second`, those with
/// the same element of `first` following each other.
pub open spec fn product_of(first: Seq<Couple>, second: Seq<Couple>) -> Seq<(Couple, Couple)> {
    Seq::new(
        first.len() * second.len(),
        |i: int| (first[i / second.len() as int], second[i % second.len() as int]),
    )
}

/// The opposite of `value`.
pub open spec fn opposite(value: i8) -> i8 {
    (-value) as i8
}

/// `s` with every entry negated.
pub open spec fn negated_seq(s: Seq<i8>) -> Seq<i8> {
    Seq::new(s.len(), |i: int| opposite(s[i]))
}

/// `s` with the last entry of every block of `frequency` entries negated.
pub open spec fn alt_negated_seq(s: Seq<i8>, frequency: int) -> Seq<i8> {
    Seq::new(
        s.len(),
        |i: int| if i % frequency == frequency - 1 { opposite(s[i]) } else { s[i] },
    )
}

/// The entries of `s` at the indices 0, k, 2k, ... taken modulo its length.
pub open spec fn permuted_seq(s: Seq<i8>, k: int) -> Seq<i8> {
    Seq::new(s.len(), |i: int| s[(i * k) % s.len() as int])
}

/// `row` with the values of the two named sequences exchanged.
pub open spec fn swap_row(row: Row, tag1: SequenceTag, tag2: SequenceTag) -> Row {
    with_entry(with_entry(row, tag1, entry(row, tag2)), tag2, entry(row, tag1))
}

/// `row` with the value of the named sequence negated.
pub open spec fn negate_row(row: Row, tag: SequenceTag) -> Row {
    with_entry(row, tag, opposite(entry(row, tag)))
}

/// `row` with its four values negated.
pub open spec fn opposite_row(row: Row) -> Row {
    (opposite(row.0), opposite(row.1), opposite(row.2), opposite(row.3))
}

/// The quadruple `q` with the two named sequences exchanged.
pub open spec fn swapped(q: Seq<Row>, tag1: SequenceTag, tag2: SequenceTag) -> Seq<Row> {
    Seq::new(q.len(), |i: int| swap_row(q[i], tag1, tag2))
}

/// The quadruple `q` after the exchange `first` and then the exchange
/// `second`; `q` itself where the two are the same couple.
pub open spec fn double_swapped(q: Seq<Row>, first: Couple, second: Couple) -> Seq<Row> {
    if first == second {
        q
    } else {
        swapped(swapped(q, first.0, first.1), second.0, second.1)
    }
}

/// The quadruple `q` with its four sequences shifted cyclically by `offset`.
pub open spec fn rotated(q: Seq<Row>, offset: int) -> Seq<Row> {
    Seq::new(q.len(), |i: int| q[(i + offset) % q.len() as int])
}

/// The quadruple `q` with the named sequence shifted cyclically by `offset`.
pub open spec fn rotated_one(q: Seq<Row>, tag: SequenceTag, offset: int) -> Seq<Row> {
    Seq::new(
        q.len(),
        |i: int| with_entry(q[i], tag, entry(q[(i + offset) % q.len() as int], tag)),
    )
}

/// The quadruple `q` with its four sequences read backwards.
pub open spec fn reversed(q: Seq<Row>) -> Seq<Row> {
    Seq::new(q.len(), |i: int| q[q.len() - 1 - i])
}

/// The quadruple `q` with the named sequence negated.
pub open spec fn negated_one(q: Seq<Row>, tag: SequenceTag) -> Seq<Row> {
    Seq::new(q.len(), |i: int| negate_row(q[i], tag))
}

/// The quadruple `q` with the two named sequences negated.
pub open spec fn negated_two(q: Seq<Row>, tag1: SequenceTag, tag2: SequenceTag) -> Seq<Row> {
    Seq::new(q.len(), |i: int| negate_row(negate_row(q[i], tag1), tag2))
}

/// The quadruple `q` with the entries at the odd indices negated in all four
/// sequences.
pub open spec fn alternated(q: Seq<Row>) -> Seq<Row> {
    Seq::new(q.len(), |i: int| if i % 2 == 1 { opposite_row(q[i]) } else { q[i] })
}

/// The quadruple whose entries at index i are those of `q` at index i * k
/// modulo the length.
pub open spec fn permuted(q: Seq<Row>, k: int) -> Seq<Row> {
    Seq::new(q.len(), |i: int| q[(i * k) % q.len() as int])
}

/// The integers from 1 to `upto` that are coprime to `n`, in increasing
/// order.
pub open spec fn coprimes_upto(n: nat, upto: nat) -> Seq<usize>
    decreases upto,
{
    if upto == 0 {
        Seq::<usize>::empty()
    } else if is_coprime(n as int, upto as int) {
        coprimes_upto(n, (upto - 1) as nat).push(upto as usize)
    } else {
        coprimes_upto(n, (upto - 1) as nat)
    }
}

/// The positive integers coprime to the length `n` that stand for the
/// automorphisms of a sequence of that length, in increasing order: those
/// from 1 to `n`, and 1 alone for the length 0.
pub open spec fn coprimes_of(n: nat) -> Seq<usize> {
    coprimes_upto(n, if n == 0 { 1 } else { n })
}

/// Reorder: `q`, then `q` after each of the six exchanges of two sequences.
pub open spec fn reorder_images(q: Seq<Row>) -> Seq<Seq<Row>> {
    seq![q] + Seq::new(6, |i: int| swapped(q, couples()[i].0, couples()[i].1))
}

/// Double reorder: `q`, then `q` after each of the 36 successions of two
/// exchanges.
pub open spec fn double_reorder_images(q: Seq<Row>) -> Seq<Seq<Row>> {
    seq![q] + Seq::new(36, |i: int| double_swapped(q, couples()[i / 6], couples()[i % 6]))
}

/// Half shift: `q` alone where its length is odd; else `q`, then `q` with
/// each of the four sequences in turn shifted by half the length.
pub open spec fn half_shift_images(q: Seq<Row>) -> Seq<Seq<Row>> {
    if q.len() % 2 == 1 {
        seq![q]
    } else {
        seq![q] + Seq::new(4, |j: int| rotated_one(q, tags()[j], q.len() as int / 2))
    }
}

/// Uniform shift: `q`, then `q` shifted by each offset from 1 to its length
/// less 1.
pub open spec fn shift_images(q: Seq<Row>) -> Seq<Seq<Row>> {
    seq![q] + Seq::new(if q.len() == 0 { 0 } else { (q.len() - 1) as nat }, |j: int| rotated(q, j + 1))
}

/// Reverse: `q` and `q` read backwards.
pub open spec fn reverse_images(q: Seq<Row>) -> Seq<Seq<Row>> {
    seq![q, reversed(q)]
}

/// Negate: `q`, then `q` with each of the four sequences in turn negated.
pub open spec fn negate_images(q: Seq<Row>) -> Seq<Seq<Row>> {
    seq![q] + Seq::new(4, |j: int| negated_one(q, tags()[j]))
}

/// Double negate: `q`, then `q` with each of the six couples of sequences
/// in turn negated.
pub open spec fn double_negate_images(q: Seq<Row>) -> Seq<Seq<Row>> {
    seq![q] + Seq::new(6, |i: int| negated_two(q, couples()[i].0, couples()[i].1))
}

/// Alternated negation: `q` and `q` with every second entry negated.
pub open spec fn alternated_images(q: Seq<Row>) -> Seq<Seq<Row>> {
    seq![q, alternated(q)]
}

/// Alternated negation for even lengths: `q` alone where its length is odd.
pub open spec fn even_alternated_images(q: Seq<Row>) -> Seq<Seq<Row>> {
    if q.len() % 2 == 1 {
        seq![q]
    } else {
        seq![q, alternated(q)]
    }
}

/// Automorphism: for each k coprime to the length, in increasing order, `q`
/// with its indices multiplied by k. The first is 1, which gives `q`.
pub open spec fn automorphism_images(q: Seq<Row>) -> Seq<Seq<Row>> {
    let ks = coprimes_of(q.len());
    Seq::new(ks.len(), |j: int| permuted(q, ks[j] as int))
}

/// The quadruples that the equivalence `e` makes of `q`.
pub open spec fn images(e: Equivalence, q: Seq<Row>) -> Seq<Seq<Row>> {
    match e {
        Equivalence::Reorder => reorder_images(q),
        Equivalence::DoubleReorder => double_reorder_images(q),
        Equivalence::UniformHalfShift => half_shift_images(q),
        Equivalence::UniformShift => shift_images(q),
        Equivalence::Reverse => reverse_images(q),
        Equivalence::Negate => negate_images(q),
        Equivalence::DoubleNegate => double_negate_images(q),
        Equivalence::AlternatedNegation => alternated_images(q),
        Equivalence::EvenAlternatedNegation => even_alternated_images(q),
        Equivalence::Automorphism => automorphism_images(q),
    }
}

/// Whether no entry of `q` is the least `i8`, which has no opposite.
pub open spec fn negatable(q: Seq<Row>) -> bool {
    forall|i: int|
        0 <= i < q.len() ==> (#[trigger] q[i]).0 > i8::MIN && q[i].1 > i8::MIN && q[i].2 > i8::MIN
            && q[i].3 > i8::MIN
}

/// Whether the four sequences of `q` are the same.
pub open spec fn four_equal(q: Seq<Row>) -> bool {
    forall|i: int|
        0 <= i < q.len() ==> (#[trigger] q[i]).0 == q[i].1 && q[i].1 == q[i].2 && q[i].2 == q[i].3
}

/// Exchanging sequences of a quadruple of four equal sequences changes
/// nothing: every image under reorder and double reorder is the quadruple
/// itself.
pub proof fn lemma_reorder_of_four_equal(q: Seq<Row>)
    requires
        four_equal(q),
    ensures
        forall|i: int| 0 <= i < reorder_images(q).len() ==> #[trigger] reorder_images(q)[i] == q,
        forall|i: int|
            0 <= i < double_reorder_images(q).len() ==> #[trigger] double_reorder_images(q)[i] == q,
{
    assert forall|tag1: SequenceTag, tag2: SequenceTag| #[trigger] swapped(q, tag1, tag2) == q by {
        assert forall|k: int| 0 <= k < q.len() implies swapped(q, tag1, tag2)[k] == q[k] by {
            assert(q[k].0 == q[k].1 && q[k].1 == q[k].2 && q[k].2 == q[k].3);
        }
        assert(swapped(q, tag1, tag2) =~= q);
    }
    assert forall|i: int| 0 <= i < reorder_images(q).len() implies #[trigger] reorder_images(q)[i]
        == q by {
        if i > 0 {
            assert(reorder_images(q)[i] == swapped(q, couples()[i - 1].0, couples()[i - 1].1));
        }
    }
    assert forall|i: int| 0 <= i < double_reorder_images(q).len() implies #[trigger] double_reorder_images(
        q,
    )[i] == q by {
        if i > 0 {
            let (first, second) = (couples()[(i - 1) / 6], couples()[(i - 1) % 6]);
            assert(double_reorder_images(q)[i] == double_swapped(q, first, second));
            assert(swapped(q, first.0, first.1) == q);
            assert(swapped(q, second.0, second.1) == q);
        }
    }
}

/// Whether every quadruple of `list` is legal for `seqtype` and of length
/// `n`.
pub open spec fn all_legal(list: Seq<Seq<Row>>, seqtype: SequenceType, n: nat) -> bool {
    forall|i: int| 0 <= i < list.len() ==> legal(#[trigger] list[i], seqtype) && list[i].len() == n
}

proof fn lemma_swapped_legal(q: Seq<Row>, tag1: SequenceTag, tag2: SequenceTag, seqtype: SequenceType)
    requires
        legal(q, seqtype),
    ensures
        legal(swapped(q, tag1, tag2), seqtype),
{
    let r = swapped(q, tag1, tag2);
    assert forall|k: int| 0 <= k < r.len() implies legal_row(#[trigger] r[k], seqtype) by {
        assert(legal_row(q[k], seqtype));
    }
}

proof fn lemma_double_swapped_legal(q: Seq<Row>, first: Couple, second: Couple, seqtype: SequenceType)
    requires
        legal(q, seqtype),
    ensures
        legal(double_swapped(q, first, second), seqtype),
        double_swapped(q, first, second).len() == q.len(),
{
    lemma_swapped_legal(q, first.0, first.1, seqtype);
    lemma_swapped_legal(swapped(q, first.0, first.1), second.0, second.1, seqtype);
}

proof fn lemma_rotated_legal(q: Seq<Row>, offset: int, seqtype: SequenceType)
    requires
        legal(q, seqtype),
        0 <= offset,
    ensures
        legal(rotated(q, offset), seqtype),
{
    let r = rotated(q, offset);
    let n = q.len() as int;
    assert forall|k: int| 0 <= k < r.len() implies legal_row(#[trigger] r[k], seqtype) by {
        assert(legal_row(q[(k + offset) % n], seqtype));
    }
}

proof fn lemma_rotated_one_legal(q: Seq<Row>, tag: SequenceTag, offset: int, seqtype: SequenceType)
    requires
        legal(q, seqtype),
        0 <= offset,
    ensures
        legal(rotated_one(q, tag, offset), seqtype),
{
    let r = rotated_one(q, tag, offset);
    let n = q.len() as int;
    assert forall|k: int| 0 <= k < r.len() implies legal_row(#[trigger] r[k], seqtype) by {
        assert(legal_row(q[k], seqtype));
        assert(legal_row(q[(k + offset) % n], seqtype));
    }
}

proof fn lemma_reversed_legal(q: Seq<Row>, seqtype: SequenceType)
    requires
        legal(q, seqtype),
    ensures
        legal(reversed(q), seqtype),
{
    let r = reversed(q);
    assert forall|k: int| 0 <= k < r.len() implies legal_row(#[trigger] r[k], seqtype) by {
        assert(legal_row(q[q.len() - 1 - k], seqtype));
    }
}

proof fn lemma_negated_one_legal(q: Seq<Row>, tag: SequenceTag, seqtype: SequenceType)
    requires
        legal(q, seqtype),
    ensures
        legal(negated_one(q, tag), seqtype),
{
    let r = negated_one(q, tag);
    assert forall|k: int| 0 <= k < r.len() implies legal_row(#[trigger] r[k], seqtype) by {
        assert(legal_row(q[k], seqtype));
    }
}

proof fn lemma_negated_two_legal(q: Seq<Row>, tag1: SequenceTag, tag2: SequenceTag, seqtype: SequenceType)
    requires
        legal(q, seqtype),
    ensures
        legal(negated_two(q, tag1, tag2), seqtype),
{
    let r = negated_two(q, tag1, tag2);
    assert forall|k: int| 0 <= k < r.len() implies legal_row(#[trigger] r[k], seqtype) by {
        assert(legal_row(q[k], seqtype));
        assert(legal_row(negate_row(q[k], tag1), seqtype));
    }
}

proof fn lemma_alternated_legal(q: Seq<Row>, seqtype: SequenceType)
    requires
        legal(q, seqtype),
    ensures
        legal(alternated(q), seqtype),
{
    let r = alternated(q);
    assert forall|k: int| 0 <= k < r.len() implies legal_row(#[trigger] r[k], seqtype) by {
        assert(legal_row(q[k], seqtype));
    }
}

proof fn lemma_permuted_legal(q: Seq<Row>, k: int, seqtype: SequenceType)
    requires
        legal(q, seqtype),
        0 <= k,
    ensures
        legal(permuted(q, k), seqtype),
{
    let r = permuted(q, k);
    let n = q.len() as int;
    assert forall|i: int| 0 <= i < r.len() implies legal_row(#[trigger] r[i], seqtype) by {
        assert(0 <= i * k) by (nonlinear_arith)
            requires
                0 <= i,
                0 <= k,
        ;
        assert(legal_row(q[(i * k) % n], seqtype));
    }
}

/// Every equivalence makes legal quadruples of the length of `q` out of a
/// legal quadruple `q`.
pub proof fn lemma_images_legal(e: Equivalence, q: Seq<Row>, seqtype: SequenceType)
    requires
        legal(q, seqtype),
    ensures
        all_legal(images(e, q), seqtype, q.len()),
{
    let list = images(e, q);
    assert forall|i: int| 0 <= i < list.len() implies legal(#[trigger] list[i], seqtype)
        && list[i].len() == q.len() by {
        match e {
            Equivalence::Reorder => {
                if i > 0 {
                    lemma_swapped_legal(q, couples()[i - 1].0, couples()[i - 1].1, seqtype);
                }
            },
            Equivalence::DoubleReorder => {
                if i > 0 {
                    lemma_double_swapped_legal(
                        q,
                        couples()[(i - 1) / 6],
                        couples()[(i - 1) % 6],
                        seqtype,
                    );
                }
            },
            Equivalence::UniformHalfShift => {
                if i > 0 {
                    lemma_rotated_one_legal(q, tags()[i - 1], q.len() as int / 2, seqtype);
                }
            },
            Equivalence::UniformShift => {
                if i > 0 {
                    lemma_rotated_legal(q, i, seqtype);
                }
            },
            Equivalence::Reverse => {
                lemma_reversed_legal(q, seqtype);
            },
            Equivalence::Negate => {
                if i > 0 {
                    lemma_negated_one_legal(q, tags()[i - 1], seqtype);
                }
            },
            Equivalence::DoubleNegate => {
                if i > 0 {
                    lemma_negated_two_legal(q, couples()[i - 1].0, couples()[i - 1].1, seqtype);
                }
            },
            Equivalence::AlternatedNegation => {
                lemma_alternated_legal(q, seqtype);
            },
            Equivalence::EvenAlternatedNegation => {
                lemma_alternated_legal(q, seqtype);
            },
            Equivalence::Automorphism => {
                let ks = coprimes_of(q.len());
                lemma_permuted_legal(q, ks[i] as int, seqtype);
            },
        }
    }
}

} // verus!
