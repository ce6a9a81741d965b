//! The equivalences between quadruples of sequences, the classes that they
//! generate and the representative of a class.

use vstd::prelude::*;
use crate::sequences::arithmetic::{
    is_coprime,
    lemma_coprime_step,
    lemma_coprime_symmetric,
    lemma_coprime_zero,
};
use crate::find::find_unique::{contains, find_minimum};
use crate::sequences::inverse::lemma_members_count;
use crate::sequences::orbit::{
    closed,
    is_canonical,
    is_class_of,
    lemma_bounded_by_universe,
    lemma_closed_holds_reachable,
    lemma_reachable_legal,
    lemma_reachable_self,
    lemma_reachable_step,
    lemma_reachable_transitive,
    reachable,
    seeds_of,
    step,
    total_size,
    universe,
};
use crate::sequences::order::{first_difference, is_minimum, lex_less, quad_less};
use crate::sequences::symmetries::{Equivalence, SequenceType};
use crate::sequences::transform::{
    Couple,
    all_legal,
    alt_negated_seq,
    alternated,
    alternated_images,
    automorphism_images,
    coprimes_of,
    coprimes_upto,
    couples,
    double_negate_images,
    double_reorder_images,
    double_swapped,
    even_alternated_images,
    half_shift_images,
    images,
    lemma_images_legal,
    negatable,
    negate_images,
    negated_one,
    negated_seq,
    negated_two,
    permuted,
    permuted_seq,
    product_of,
    reorder_images,
    reverse_images,
    reversed,
    rotated,
    rotated_one,
    shift_images,
    swapped,
    tags,
};
use crate::sequences::williamson::{QuadSeq, Row, SequenceTag, column, legal, legal_row, views};
use itertools::Itertools;

verus! {

/// Tests whether two numbers are coprime.
pub fn coprime(a: usize, b: usize) -> (res: bool)
    ensures
        res == is_coprime(a as int, b as int),
{
    let mut a = a;
    let mut b = b;
    let ghost (a0, b0) = (a as int, b as int);
    if b < a {
        proof {
            lemma_coprime_symmetric(a as int, b as int);
        }
        let kept = a;
        a = b;
        b = kept;
    }
    while b != 0
        invariant
            is_coprime(a as int, b as int) == is_coprime(a0, b0),
        decreases b,
    {
        proof {
            lemma_coprime_step(a as int, b as int);
        }
        let remainder = a % b;
        a = b;
        b = remainder;
    }
    proof {
        lemma_coprime_zero(a as int);
    }
    a == 1
}

/// The bound of the lengths for which the integers coprime to the length
/// are provided.
pub const N: usize = 101;

/// The positive integers coprime to `n` that stand for the automorphisms
/// of a sequence of length `n`, in increasing order: those from 1 to `n`,
/// and 1 alone for the length 0.
pub fn coprimes(n: usize) -> (res: Vec<usize>)
    requires
        n < N,
    ensures
        res@ == coprimes_of(n as nat),
{
    let upto = if n == 0 { 1 } else { n };
    let mut res: Vec<usize> = Vec::new();
    let mut j: usize = 1;
    while j <= upto
        invariant
            1 <= j <= upto + 1,
            upto <= N,
            res@ == coprimes_upto(n as nat, (j - 1) as nat),
        decreases upto + 1 - j,
    {
        if coprime(n, j) {
            res.push(j);
        }
        j += 1;
    }
    res
}

/// Tests whether `seq1` comes before `seq2` in the lexicographic order.
pub fn seq_less_than(seq1: &Vec<i8>, seq2: &Vec<i8>) -> (res: bool)
    requires
        seq1@.len() <= seq2@.len(),
    ensures
        res == lex_less(seq1@, seq2@),
{
    let mut index: usize = 0;
    while index < seq1.len()
        invariant
            index <= seq1@.len(),
            seq1@.len() <= seq2@.len(),
            forall|j: int| 0 <= j < index ==> seq1@[j] == seq2@[j],
        decreases seq1@.len() - index,
    {
        if seq1[index] < seq2[index] {
            assert(first_difference(seq1@, seq2@, index as int));
            return true;
        } else if seq1[index] > seq2[index] {
            assert(first_difference(seq1@, seq2@, index as int));
            assert(forall|i: int| first_difference(seq1@, seq2@, i) ==> i == index);
            return false;
        } else {
            index += 1;
        }
    }

    false
}

/// How two sequences of one length compare.
pub enum Comp {
    LT,
    EQUAL,
    GT,
}

/// Compares two sequences of one length in the lexicographic order.
fn will_less_than_aux(seq1: &Vec<i8>, seq2: &Vec<i8>) -> (res: Comp)
    requires
        seq1@.len() == seq2@.len(),
    ensures
        res is LT <==> lex_less(seq1@, seq2@),
        res is EQUAL <==> seq1@ == seq2@,
        res is GT <==> lex_less(seq2@, seq1@),
{
    let mut index: usize = 0;
    while index < seq1.len()
        invariant
            index <= seq1@.len(),
            seq1@.len() == seq2@.len(),
            forall|j: int| 0 <= j < index ==> seq1@[j] == seq2@[j],
        decreases seq1@.len() - index,
    {
        if seq1[index] < seq2[index] {
            assert(first_difference(seq1@, seq2@, index as int));
            assert(forall|i: int| first_difference(seq2@, seq1@, i) ==> i == index);
            return Comp::LT;
        } else if seq1[index] > seq2[index] {
            assert(first_difference(seq2@, seq1@, index as int));
            assert(forall|i: int| first_difference(seq1@, seq2@, i) ==> i == index);
            return Comp::GT;
        } else {
            index += 1;
        }
    }
    assert(seq1@ =~= seq2@);
    Comp::EQUAL
}

/// Tests whether the quadruple `will1` comes before `will2`: the sequences A
/// decide, then B, then C, then D.
pub fn will_less_than(will1: &QuadSeq, will2: &QuadSeq) -> (res: bool)
    requires
        will1@.len() == will2@.len(),
    ensures
        res == quad_less(will1@, will2@),
{
    let (a1, b1, c1, d1) = will1.sequences();
    let (a2, b2, c2, d2) = will2.sequences();
    match will_less_than_aux(&a1, &a2) {
        Comp::LT => true,
        Comp::GT => false,
        Comp::EQUAL => match will_less_than_aux(&b1, &b2) {
            Comp::LT => true,
            Comp::GT => false,
            Comp::EQUAL => match will_less_than_aux(&c1, &c2) {
                Comp::LT => true,
                Comp::GT => false,
                Comp::EQUAL => seq_less_than(&d1, &d2),
            },
        },
    }
}

/// Appends a quadruple to a list.
fn push_quad(list: &mut Vec<QuadSeq>, quad: QuadSeq)
    ensures
        final(list)@ == old(list)@.push(quad),
        views(final(list)@) == views(old(list)@).push(quad@),
{
    list.push(quad);
    assert(views(list@) =~= views(old(list)@).push(quad@));
}

/// The six couples of sequences.
fn couples_list() -> (res: Vec<Couple>)
    ensures
        res@ == couples(),
{
    let res = vec![
        (SequenceTag::X, SequenceTag::Y),
        (SequenceTag::X, SequenceTag::Z),
        (SequenceTag::X, SequenceTag::W),
        (SequenceTag::Y, SequenceTag::Z),
        (SequenceTag::Y, SequenceTag::W),
        (SequenceTag::Z, SequenceTag::W),
    ];
    assert(res@ =~= couples());
    res
}

/// The four sequences.
fn tags_list() -> (res: Vec<SequenceTag>)
    ensures
        res@ == tags(),
{
    let res = vec![SequenceTag::X, SequenceTag::Y, SequenceTag::Z, SequenceTag::W];
    assert(res@ =~= tags());
    res
}

/// The pairs of an element of `first` and an element of `second`, as
/// `itertools::Itertools::cartesian_product` yields them: all pairs with
/// the first element of `first`, in the order of `second`, then those with
/// its second element, and so on.
#[verifier::external_body]
fn product(first: &Vec<Couple>, second: &Vec<Couple>) -> (res: Vec<(Couple, Couple)>)
    requires
        first@.len() * second@.len() <= usize::MAX,
    ensures
        res@ == product_of(first@, second@),
{
    first.iter().copied().cartesian_product(second.iter().copied()).collect()
}

/// The index `offset` places after `index` in a periodic sequence of length
/// `size`.
fn shifted(index: usize, offset: usize, size: usize) -> (res: usize)
    requires
        index < size,
        offset <= size,
    ensures
        res == (index + offset) % (size as int),
{
    let rest = size - offset;
    if index < rest {
        proof {
            vstd::arithmetic::div_mod::lemma_small_mod((index + offset) as nat, size as nat);
        }
        index + offset
    } else {
        proof {
            vstd::arithmetic::div_mod::lemma_mod_multiples_vanish(
                1,
                index + offset - size,
                size as int,
            );
            vstd::arithmetic::div_mod::lemma_small_mod(
                (index + offset - size) as nat,
                size as nat,
            );
        }
        index - rest
    }
}

/// Exchanges the two named sequences of `will`.
fn swap(will: &mut QuadSeq, seqtag1: SequenceTag, seqtag2: SequenceTag)
    requires
        seqtag1.position() < seqtag2.position(),
    ensures
        final(will)@ == swapped(old(will)@, seqtag1, seqtag2),
{
    let seq1 = will.sequence(seqtag1);
    let seq2 = will.sequence(seqtag2);

    will.set_sequence(&seq2, &seqtag1);
    will.set_sequence(&seq1, &seqtag2);
    assert(will@ =~= swapped(old(will)@, seqtag1, seqtag2));
}

/// Reorders the sequences A, B, C, D: the quadruple itself, then the
/// quadruple after each exchange of two of its sequences.
pub fn equivalent_reorder(seq: &QuadSeq, seqtype: SequenceType) -> (res: Vec<QuadSeq>)
    ensures
        views(res@) == reorder_images(seq@),
        legal(seq@, seqtype) ==> all_legal(views(res@), seqtype, seq@.len()),
{
    let mut res: Vec<QuadSeq> = Vec::new();
    push_quad(&mut res, seq.clone());

    let couple_list = couples_list();
    let mut i: usize = 0;
    assert(views(res@) =~= reorder_images(seq@).take(1));
    while i < couple_list.len()
        invariant
            i <= 6,
            couple_list@ == couples(),
            views(res@) == reorder_images(seq@).take(i + 1),
        decreases 6 - i,
    {
        let mut new_seq = seq.clone();
        let couple = couple_list[i];
        swap(&mut new_seq, couple.0, couple.1);
        push_quad(&mut res, new_seq);
        assert(views(res@) =~= reorder_images(seq@).take(i + 2));
        i += 1;
    }
    assert(reorder_images(seq@).take(7) =~= reorder_images(seq@));
    proof {
        if legal(seq@, seqtype) {
            lemma_images_legal(Equivalence::Reorder, seq@, seqtype);
        }
    }
    res
}

/// Exchanges two sequences and then two sequences again: the quadruple
/// itself, then the quadruple after each of the 36 successions of two
/// exchanges, the succession of an exchange and itself leaving it as it is.
pub fn equivalent_double_reorder(seq: &QuadSeq, seqtype: SequenceType) -> (res: Vec<QuadSeq>)
    ensures
        views(res@) == double_reorder_images(seq@),
        legal(seq@, seqtype) ==> all_legal(views(res@), seqtype, seq@.len()),
{
    let mut res: Vec<QuadSeq> = Vec::new();
    push_quad(&mut res, seq.clone());

    let couple_list = couples_list();
    assert(couple_list@.len() == 6);
    let pairs = product(&couple_list, &couple_list);
    let mut i: usize = 0;
    assert(views(res@) =~= double_reorder_images(seq@).take(1));
    while i < pairs.len()
        invariant
            i <= 36,
            pairs@.len() == 36,
            pairs@ == product_of(couples(), couples()),
            views(res@) == double_reorder_images(seq@).take(i + 1),
        decreases 36 - i,
    {
        let mut new_seq = seq.clone();
        let (couple1, couple2) = pairs[i];
        let (seq11, seq12) = couple1;
        let (seq21, seq22) = couple2;
        assert(couple1 == couples()[i as int / 6] && couple2 == couples()[i as int % 6]);
        if !(seq11 == seq21 && seq12 == seq22) {
            swap(&mut new_seq, seq11, seq12);
            swap(&mut new_seq, seq21, seq22);
        }
        assert(new_seq@ == double_swapped(seq@, couple1, couple2));
        push_quad(&mut res, new_seq);
        assert(views(res@) =~= double_reorder_images(seq@).take(i + 2));
        i += 1;
    }
    assert(double_reorder_images(seq@).take(37) =~= double_reorder_images(seq@));
    proof {
        if legal(seq@, seqtype) {
            lemma_images_legal(Equivalence::DoubleReorder, seq@, seqtype);
        }
    }
    res
}

/// Where the length is even, shifts the entries of one of A, B, C, D
/// cyclically by half the length: the quadruple itself, then the quadruple
/// with each sequence in turn shifted. Where the length is odd, the
/// quadruple alone.
pub fn equivalent_uniform_half_shift(seq: &QuadSeq, seqtype: SequenceType) -> (res: Vec<QuadSeq>)
    ensures
        views(res@) == half_shift_images(seq@),
        legal(seq@, seqtype) ==> all_legal(views(res@), seqtype, seq@.len()),
{
    let mut res: Vec<QuadSeq> = Vec::new();
    push_quad(&mut res, seq.clone());
    proof {
        if legal(seq@, seqtype) {
            lemma_images_legal(Equivalence::UniformHalfShift, seq@, seqtype);
        }
    }
    if seq.size() % 2 == 1 {
        assert(views(res@) =~= half_shift_images(seq@));
        return res;
    }
    let size = seq.size();
    let offset = size / 2;
    let tag_list = tags_list();
    let mut j: usize = 0;
    assert(views(res@) =~= half_shift_images(seq@).take(1));
    while j < tag_list.len()
        invariant
            j <= 4,
            tag_list@ == tags(),
            size == seq@.len(),
            size % 2 == 0,
            offset == size / 2,
            views(res@) == half_shift_images(seq@).take(j + 1),
        decreases 4 - j,
    {
        let tag = tag_list[j];
        let mut s = seq.clone();
        let tag_seq = seq.sequence(tag);

        let mut index: usize = 0;
        while index < size
            invariant
                index <= size,
                size == seq@.len(),
                offset == size / 2,
                    tag_seq@ == column(seq@, tag),
                s@.len() == size,
                forall|i: int| 0 <= i < index ==> s@[i] == rotated_one(seq@, tag, offset as int)[i],
                forall|i: int| index <= i < size ==> s@[i] == seq@[i],
            decreases size - index,
        {
            s.set_single_value(tag_seq[shifted(index, offset, size)], &tag, index);
            index += 1;
        }
        assert(s@ =~= rotated_one(seq@, tag, offset as int));
        push_quad(&mut res, s);
        assert(views(res@) =~= half_shift_images(seq@).take(j + 2));
        j += 1;
    }
    assert(half_shift_images(seq@).take(5) =~= half_shift_images(seq@));
    res
}

/// Shifts the entries of A, B, C and D cyclically by the same offset: the
/// quadruple itself, then the quadruple shifted by each offset from 1 to the
/// length less 1.
pub fn equivalent_uniform_shift(seq: &QuadSeq, seqtype: SequenceType) -> (res: Vec<QuadSeq>)
    ensures
        views(res@) == shift_images(seq@),
        legal(seq@, seqtype) ==> all_legal(views(res@), seqtype, seq@.len()),
{
    let mut res: Vec<QuadSeq> = Vec::new();
    push_quad(&mut res, seq.clone());
    let size = seq.size();

    let mut offset: usize = 1;
    assert(views(res@) =~= shift_images(seq@).take(1));
    while offset < size
        invariant
            1 <= offset,
            offset <= size || offset == 1,
            size == seq@.len(),
            views(res@) == shift_images(seq@).take(offset as int),
        decreases size - offset,
    {
        let mut s = QuadSeq::new(size);
        let mut index: usize = 0;
        while index < size
            invariant
                index <= size,
                offset < size,
                size == seq@.len(),
                    s@.len() == size,
                forall|i: int| 0 <= i < index ==> s@[i] == rotated(seq@, offset as int)[i],
            decreases size - index,
        {
            s.set_sequence_value(&seq.values(shifted(index, offset, size)), index);
            index += 1;
        }
        assert(s@ =~= rotated(seq@, offset as int));
        push_quad(&mut res, s);
        assert(views(res@) =~= shift_images(seq@).take(offset + 1));
        offset += 1;
    }
    assert(shift_images(seq@).len() == offset);
    assert(shift_images(seq@).take(offset as int) =~= shift_images(seq@));
    proof {
        if legal(seq@, seqtype) {
            lemma_images_legal(Equivalence::UniformShift, seq@, seqtype);
        }
    }
    res
}

/// Reverses every sequence: the quadruple itself and the quadruple read
/// backwards.
pub fn equivalent_reverse(seq: &QuadSeq, seqtype: SequenceType) -> (res: Vec<QuadSeq>)
    ensures
        views(res@) == reverse_images(seq@),
        legal(seq@, seqtype) ==> all_legal(views(res@), seqtype, seq@.len()),
{
    let mut res: Vec<QuadSeq> = Vec::new();
    push_quad(&mut res, seq.clone());
    let size = seq.size();

    let mut s = QuadSeq::new(size);
    let mut index: usize = 0;
    while index < size
        invariant
            index <= size,
            size == seq@.len(),
            s@.len() == size,
            forall|i: int| 0 <= i < index ==> s@[i] == reversed(seq@)[i],
        decreases size - index,
    {
        s.set_sequence_value(&seq.values(size - 1 - index), index);
        index += 1;
    }
    assert(s@ =~= reversed(seq@));
    push_quad(&mut res, s);
    assert(views(res@) =~= reverse_images(seq@));
    proof {
        if legal(seq@, seqtype) {
            lemma_images_legal(Equivalence::Reverse, seq@, seqtype);
        }
    }
    res
}

/// Whether no entry of `s` is the least `i8`, which has no opposite.
pub open spec fn negatable_seq(s: Seq<i8>) -> bool {
    forall|i: int| 0 <= i < s.len() ==> #[trigger] s[i] > i8::MIN
}

/// The sequence with every entry negated.
pub fn negated(seq: &Vec<i8>) -> (res: Vec<i8>)
    requires
        negatable_seq(seq@),
    ensures
        res@ == negated_seq(seq@),
{
    let mut s: Vec<i8> = Vec::new();
    let mut i: usize = 0;
    while i < seq.len()
        invariant
            i <= seq@.len(),
            negatable_seq(seq@),
            s@ == negated_seq(seq@).take(i as int),
        decreases seq@.len() - i,
    {
        s.push(-seq[i]);
        assert(s@ =~= negated_seq(seq@).take(i + 1));
        i += 1;
    }
    assert(negated_seq(seq@).take(i as int) =~= negated_seq(seq@));
    s
}

/// The sequence with the last entry of every block of `frequency` entries
/// negated.
pub fn alt_negated(seq: &Vec<i8>, frequency: usize) -> (res: Vec<i8>)
    requires
        frequency > 0,
        negatable_seq(seq@),
    ensures
        res@ == alt_negated_seq(seq@, frequency as int),
{
    let mut s: Vec<i8> = Vec::new();
    let mut count: usize = 0;
    while count < seq.len()
        invariant
            count <= seq@.len(),
            frequency > 0,
            negatable_seq(seq@),
            s@ == alt_negated_seq(seq@, frequency as int).take(count as int),
        decreases seq@.len() - count,
    {
        if count % frequency == frequency - 1 {
            s.push(-seq[count]);
        } else {
            s.push(seq[count]);
        }
        assert(s@ =~= alt_negated_seq(seq@, frequency as int).take(count + 1));
        count += 1;
    }
    assert(alt_negated_seq(seq@, frequency as int).take(count as int) =~= alt_negated_seq(
        seq@,
        frequency as int,
    ));
    s
}

proof fn lemma_columns_negatable(q: Seq<Row>)
    requires
        negatable(q),
    ensures
        negatable_seq(column(q, SequenceTag::X)),
        negatable_seq(column(q, SequenceTag::Y)),
        negatable_seq(column(q, SequenceTag::Z)),
        negatable_seq(column(q, SequenceTag::W)),
{
    assert forall|i: int| 0 <= i < q.len() implies #[trigger] column(q, SequenceTag::X)[i]
        > i8::MIN by {
        assert(q[i].0 > i8::MIN);
    }
    assert forall|i: int| 0 <= i < q.len() implies #[trigger] column(q, SequenceTag::Y)[i]
        > i8::MIN by {
        assert(q[i].1 > i8::MIN);
    }
    assert forall|i: int| 0 <= i < q.len() implies #[trigger] column(q, SequenceTag::Z)[i]
        > i8::MIN by {
        assert(q[i].2 > i8::MIN);
    }
    assert forall|i: int| 0 <= i < q.len() implies #[trigger] column(q, SequenceTag::W)[i]
        > i8::MIN by {
        assert(q[i].3 > i8::MIN);
    }
}

/// Negates all the entries of one of A, B, C, D: the quadruple itself,
/// then the quadruple with each sequence in turn negated.
pub fn equivalent_negate(seq: &QuadSeq, seqtype: SequenceType) -> (res: Vec<QuadSeq>)
    requires
        negatable(seq@),
    ensures
        views(res@) == negate_images(seq@),
        legal(seq@, seqtype) ==> all_legal(views(res@), seqtype, seq@.len()),
{
    proof {
        lemma_columns_negatable(seq@);
    }
    let (a, b, c, d) = seq.sequences();
    let (nega_a, nega_b, nega_c, nega_d) = (negated(&a), negated(&b), negated(&c), negated(&d));

    let mut res: Vec<QuadSeq> = Vec::new();
    push_quad(&mut res, seq.clone());
    let tag_list = tags_list();
    let mut j: usize = 0;
    assert(views(res@) =~= negate_images(seq@).take(1));
    while j < tag_list.len()
        invariant
            j <= 4,
            tag_list@ == tags(),
            a@ == column(seq@, SequenceTag::X),
            b@ == column(seq@, SequenceTag::Y),
            c@ == column(seq@, SequenceTag::Z),
            d@ == column(seq@, SequenceTag::W),
            nega_a@ == negated_seq(a@),
            nega_b@ == negated_seq(b@),
            nega_c@ == negated_seq(c@),
            nega_d@ == negated_seq(d@),
            views(res@) == negate_images(seq@).take(j + 1),
        decreases 4 - j,
    {
        let tag = tag_list[j];
        let quad = match tag {
            SequenceTag::X => (&nega_a, &b, &c, &d),
            SequenceTag::Y => (&a, &nega_b, &c, &d),
            SequenceTag::Z => (&a, &b, &nega_c, &d),
            SequenceTag::W => (&a, &b, &c, &nega_d),
        };
        let mut new_seq = QuadSeq::new(seq.size());
        new_seq.set_all_values(quad);
        assert(new_seq@ =~= negated_one(seq@, tag));
        push_quad(&mut res, new_seq);
        assert(views(res@) =~= negate_images(seq@).take(j + 2));
        j += 1;
    }
    assert(negate_images(seq@).take(5) =~= negate_images(seq@));
    proof {
        if legal(seq@, seqtype) {
            lemma_images_legal(Equivalence::Negate, seq@, seqtype);
        }
    }
    res
}

/// Negates two of the sequences A, B, C, D: the quadruple itself, then the
/// quadruple with each couple of sequences in turn negated.
pub fn equivalent_double_negate(seq: &QuadSeq, seqtype: SequenceType) -> (res: Vec<QuadSeq>)
    requires
        negatable(seq@),
    ensures
        views(res@) == double_negate_images(seq@),
        legal(seq@, seqtype) ==> all_legal(views(res@), seqtype, seq@.len()),
{
    proof {
        lemma_columns_negatable(seq@);
    }
    let (a, b, c, d) = seq.sequences();
    let (nega_a, nega_b, nega_c, nega_d) = (negated(&a), negated(&b), negated(&c), negated(&d));

    let mut res: Vec<QuadSeq> = Vec::new();
    push_quad(&mut res, seq.clone());
    let couple_list = couples_list();
    let mut i: usize = 0;
    assert(views(res@) =~= double_negate_images(seq@).take(1));
    while i < couple_list.len()
        invariant
            i <= 6,
            couple_list@ == couples(),
            a@ == column(seq@, SequenceTag::X),
            b@ == column(seq@, SequenceTag::Y),
            c@ == column(seq@, SequenceTag::Z),
            d@ == column(seq@, SequenceTag::W),
            nega_a@ == negated_seq(a@),
            nega_b@ == negated_seq(b@),
            nega_c@ == negated_seq(c@),
            nega_d@ == negated_seq(d@),
            views(res@) == double_negate_images(seq@).take(i + 1),
        decreases 6 - i,
    {
        let tag_couple = couple_list[i];
        let quad = match tag_couple {
            (SequenceTag::X, SequenceTag::Y) => (&nega_a, &nega_b, &c, &d),
            (SequenceTag::X, SequenceTag::Z) => (&nega_a, &b, &nega_c, &d),
            (SequenceTag::X, SequenceTag::W) => (&nega_a, &b, &c, &nega_d),
            (SequenceTag::Y, SequenceTag::Z) => (&a, &nega_b, &nega_c, &d),
            (SequenceTag::Y, SequenceTag::W) => (&a, &nega_b, &c, &nega_d),
            _ => (&a, &b, &nega_c, &nega_d),
        };
        let mut s = QuadSeq::new(seq.size());
        s.set_all_values(quad);
        assert(s@ =~= negated_two(seq@, tag_couple.0, tag_couple.1));
        push_quad(&mut res, s);
        assert(views(res@) =~= double_negate_images(seq@).take(i + 2));
        i += 1;
    }
    assert(double_negate_images(seq@).take(7) =~= double_negate_images(seq@));
    proof {
        if legal(seq@, seqtype) {
            lemma_images_legal(Equivalence::DoubleNegate, seq@, seqtype);
        }
    }
    res
}

/// The quadruple with the entries at the odd indices negated.
fn alternate(seq: &QuadSeq) -> (res: QuadSeq)
    requires
        negatable(seq@),
    ensures
        res@ == alternated(seq@),
{
    proof {
        lemma_columns_negatable(seq@);
    }
    let frequency: usize = 2;
    let (a, b, c, d) = seq.sequences();
    let (alt_a, alt_b, alt_c, alt_d) = (
        alt_negated(&a, frequency),
        alt_negated(&b, frequency),
        alt_negated(&c, frequency),
        alt_negated(&d, frequency),
    );
    let mut s = QuadSeq::new(seq.size());
    s.set_all_values((&alt_a, &alt_b, &alt_c, &alt_d));
    assert(s@ =~= alternated(seq@));
    s
}

/// Multiplies every other entry of A, B, C and D by -1: the quadruple
/// itself and the quadruple with the entries at the odd indices negated.
pub fn equivalent_alternated_negation(seq: &QuadSeq, seqtype: SequenceType) -> (res: Vec<QuadSeq>)
    requires
        negatable(seq@),
    ensures
        views(res@) == alternated_images(seq@),
        legal(seq@, seqtype) ==> all_legal(views(res@), seqtype, seq@.len()),
{
    let s = alternate(seq);
    let mut res: Vec<QuadSeq> = Vec::new();
    push_quad(&mut res, seq.clone());
    push_quad(&mut res, s);
    assert(views(res@) =~= alternated_images(seq@));
    proof {
        if legal(seq@, seqtype) {
            lemma_images_legal(Equivalence::AlternatedNegation, seq@, seqtype);
        }
    }
    res
}

/// Where the length is even, multiplies every other entry of A, B, C and D
/// by -1: the quadruple itself and the quadruple with the entries at the odd
/// indices negated. Where the length is odd, the quadruple alone.
pub fn equivalent_even_alternated_negation(seq: &QuadSeq, seqtype: SequenceType) -> (res: Vec<
    QuadSeq,
>)
    requires
        negatable(seq@),
    ensures
        views(res@) == even_alternated_images(seq@),
        legal(seq@, seqtype) ==> all_legal(views(res@), seqtype, seq@.len()),
{
    proof {
        if legal(seq@, seqtype) {
            lemma_images_legal(Equivalence::EvenAlternatedNegation, seq@, seqtype);
        }
    }
    let mut res: Vec<QuadSeq> = Vec::new();
    if seq.size() % 2 == 1 {
        push_quad(&mut res, seq.clone());
        assert(views(res@) =~= even_alternated_images(seq@));
        return res;
    }
    let s = alternate(seq);
    push_quad(&mut res, seq.clone());
    push_quad(&mut res, s);
    assert(views(res@) =~= even_alternated_images(seq@));
    res
}

/// Permutes the entries of `seq` by the automorphism of the cyclic group
/// that multiplies by `coprime`.
fn permute(seq: &Vec<i8>, coprime: usize) -> (res: Vec<i8>)
    requires
        seq@.len() * coprime <= usize::MAX,
    ensures
        res@ == permuted_seq(seq@, coprime as int),
{
    let n = seq.len();
    let mut result: Vec<i8> = Vec::new();
    let mut index: usize = 0;
    while index < n
        invariant
            index <= n,
            n == seq@.len(),
            n * coprime <= usize::MAX,
            result@ == permuted_seq(seq@, coprime as int).take(index as int),
        decreases n - index,
    {
        assert(index * coprime <= n * coprime) by (nonlinear_arith)
            requires
                index <= n,
        ;
        result.push(seq[index * coprime % n]);
        assert(result@ =~= permuted_seq(seq@, coprime as int).take(index + 1));
        index += 1;
    }
    assert(permuted_seq(seq@, coprime as int).take(index as int) =~= permuted_seq(
        seq@,
        coprime as int,
    ));
    result
}

/// The integers of `coprimes_upto(n, upto)` lie between 1 and `upto`.
pub proof fn lemma_coprimes_bounded(n: nat, upto: nat)
    requires
        upto <= usize::MAX,
    ensures
        forall|j: int|
            0 <= j < coprimes_upto(n, upto).len() ==> 1 <= #[trigger] coprimes_upto(n, upto)[j]
                <= upto,
    decreases upto,
{
    if upto > 0 {
        lemma_coprimes_bounded(n, (upto - 1) as nat);
        let shorter = coprimes_upto(n, (upto - 1) as nat);
        assert forall|j: int| 0 <= j < coprimes_upto(n, upto).len() implies 1
            <= #[trigger] coprimes_upto(n, upto)[j] <= upto by {
            if j < shorter.len() {
                assert(coprimes_upto(n, upto)[j] == shorter[j]);
            }
        }
    }
}

/// Applies an automorphism of the cyclic group to the indices of the
/// entries of A, B, C and D: for each integer coprime to the length, the
/// quadruple with its indices multiplied by it.
pub fn equivalent_automorphism(seq: &QuadSeq, seqtype: SequenceType) -> (res: Vec<QuadSeq>)
    requires
        seq@.len() < N,
    ensures
        views(res@) == automorphism_images(seq@),
        legal(seq@, seqtype) ==> all_legal(views(res@), seqtype, seq@.len()),
{
    let mut result: Vec<QuadSeq> = Vec::new();
    let size = seq.size();
    let ks = coprimes(size);
    proof {
        lemma_coprimes_bounded(size as nat, if size == 0 { 1 } else { size as nat });
    }

    let mut j: usize = 0;
    assert(views(result@) =~= automorphism_images(seq@).take(0));
    while j < ks.len()
        invariant
            j <= ks@.len(),
            size == seq@.len(),
            size < N,
            ks@ == coprimes_of(size as nat),
            forall|i: int| 0 <= i < ks@.len() ==> 1 <= #[trigger] ks@[i] <= N,
            views(result@) == automorphism_images(seq@).take(j as int),
        decreases ks@.len() - j,
    {
        let k = ks[j];
        let mut will = QuadSeq::new(size);
        let (a, b, c, d) = seq.sequences();
        assert(size * k <= usize::MAX) by (nonlinear_arith)
            requires
                size < 101,
                k <= 101,
        ;
        let (pa, pb, pc, pd) = (permute(&a, k), permute(&b, k), permute(&c, k), permute(&d, k));
        will.set_all_values((&pa, &pb, &pc, &pd));
        assert(will@ =~= permuted(seq@, k as int)) by {
            assert forall|i: int| 0 <= i < size implies will@[i] == permuted(seq@, k as int)[i] by {
                assert(0 <= i * k) by (nonlinear_arith)
                    requires
                        0 <= i,
                        0 <= k,
                ;
            }
        }
        push_quad(&mut result, will);
        assert(views(result@) =~= automorphism_images(seq@).take(j + 1));
        j += 1;
    }
    assert(automorphism_images(seq@).take(j as int) =~= automorphism_images(seq@));
    proof {
        if legal(seq@, seqtype) {
            lemma_images_legal(Equivalence::Automorphism, seq@, seqtype);
        }
    }
    result
}

/// Applies one equivalence to a quadruple.
pub fn apply_equivalence(equivalence: &Equivalence, seq: &QuadSeq, seqtype: SequenceType) -> (res:
    Vec<QuadSeq>)
    requires
        negatable(seq@),
        seq@.len() < N,
    ensures
        views(res@) == images(*equivalence, seq@),
        legal(seq@, seqtype) ==> all_legal(views(res@), seqtype, seq@.len()),
{
    match equivalence {
        Equivalence::Reorder => equivalent_reorder(seq, seqtype),
        Equivalence::DoubleReorder => equivalent_double_reorder(seq, seqtype),
        Equivalence::UniformHalfShift => equivalent_uniform_half_shift(seq, seqtype),
        Equivalence::UniformShift => equivalent_uniform_shift(seq, seqtype),
        Equivalence::Reverse => equivalent_reverse(seq, seqtype),
        Equivalence::Negate => equivalent_negate(seq, seqtype),
        Equivalence::DoubleNegate => equivalent_double_negate(seq, seqtype),
        Equivalence::AlternatedNegation => equivalent_alternated_negation(seq, seqtype),
        Equivalence::EvenAlternatedNegation => equivalent_even_alternated_negation(seq, seqtype),
        Equivalence::Automorphism => equivalent_automorphism(seq, seqtype),
    }
}

/// Whether one equivalence of `seqtype` makes `q` of a quadruple of `class`.
pub open spec fn one_step_from(class: Seq<Seq<Row>>, q: Seq<Row>, seqtype: SequenceType) -> bool {
    exists|e: int| 0 <= e < class.len() && #[trigger] step(class[e], q, seqtype)
}

/// Whether `new` holds, once each, quadruples outside `class` that one
/// equivalence of `seqtype` makes of a quadruple of `class`.
pub open spec fn fresh(class: Seq<Seq<Row>>, new: Seq<Seq<Row>>, seqtype: SequenceType) -> bool {
    &&& new.no_duplicates()
    &&& forall|i: int|
        0 <= i < new.len() ==> !class.contains(#[trigger] new[i]) && one_step_from(
            class,
            new[i],
            seqtype,
        )
}

/// Whether `longer` holds every quadruple of `shorter`.
pub open spec fn extends(shorter: Seq<Seq<Row>>, longer: Seq<Seq<Row>>) -> bool {
    forall|i: int| 0 <= i < shorter.len() ==> longer.contains(#[trigger] shorter[i])
}

/// Whether `class` and `new` hold between them what the first `count`
/// equivalences of `seqtype` make of `member`.
pub open spec fn handled(
    class: Seq<Seq<Row>>,
    new: Seq<Seq<Row>>,
    member: Seq<Row>,
    seqtype: SequenceType,
    count: int,
) -> bool {
    forall|g: int, i: int|
        0 <= g < count && 0 <= i < images(seqtype.generators()[g], member).len() ==> {
            let q = #[trigger] images(seqtype.generators()[g], member)[i];
            class.contains(q) || new.contains(q)
        }
}

proof fn lemma_legal_negatable(q: Seq<Row>, seqtype: SequenceType)
    requires
        legal(q, seqtype),
    ensures
        negatable(q),
{
    assert forall|i: int| 0 <= i < q.len() implies (#[trigger] q[i]).0 > i8::MIN && q[i].1
        > i8::MIN && q[i].2 > i8::MIN && q[i].3 > i8::MIN by {
        assert(legal_row(q[i], seqtype));
    }
}

proof fn lemma_handled_extends(
    class: Seq<Seq<Row>>,
    new: Seq<Seq<Row>>,
    longer: Seq<Seq<Row>>,
    member: Seq<Row>,
    seqtype: SequenceType,
    count: int,
)
    requires
        handled(class, new, member, seqtype, count),
        extends(new, longer),
    ensures
        handled(class, longer, member, seqtype, count),
{
    assert forall|g: int, i: int|
        0 <= g < count && 0 <= i < images(seqtype.generators()[g], member).len() implies {
        let q = #[trigger] images(seqtype.generators()[g], member)[i];
        class.contains(q) || longer.contains(q)
    } by {
        let q = images(seqtype.generators()[g], member)[i];
        if new.contains(q) {
            let k = choose|k: int| 0 <= k < new.len() && new[k] == q;
            assert(longer.contains(new[k]));
        }
    }
}

/// Stages in `new` the quadruples of `outs` that neither `class` nor `new`
/// holds yet.
fn add_images(class: &Vec<QuadSeq>, new: &mut Vec<QuadSeq>, outs: &Vec<QuadSeq>, seqtype: SequenceType)
    requires
        fresh(views(class@), views(old(new)@), seqtype),
        forall|i: int|
            0 <= i < outs@.len() ==> one_step_from(views(class@), #[trigger] views(outs@)[i], seqtype),
    ensures
        fresh(views(class@), views(final(new)@), seqtype),
        extends(views(old(new)@), views(final(new)@)),
        forall|i: int|
            0 <= i < outs@.len() ==> views(class@).contains(#[trigger] views(outs@)[i]) || views(
                final(new)@,
            ).contains(views(outs@)[i]),
{
    let mut index: usize = 0;
    while index < outs.len()
        invariant
            index <= outs@.len(),
            fresh(views(class@), views(new@), seqtype),
            extends(views(old(new)@), views(new@)),
            forall|i: int|
                0 <= i < outs@.len() ==> one_step_from(
                    views(class@),
                    #[trigger] views(outs@)[i],
                    seqtype,
                ),
            forall|i: int|
                0 <= i < index ==> views(class@).contains(#[trigger] views(outs@)[i]) || views(
                    new@,
                ).contains(views(outs@)[i]),
        decreases outs@.len() - index,
    {
        let equ = &outs[index];
        assert(equ@ == views(outs@)[index as int]);
        if !contains(class, equ) && !contains(new, equ) {
            let ghost before = views(new@);
            push_quad(new, equ.clone());
            proof {
                let after = views(new@);
                assert(after == before.push(equ@));
                assert forall|i: int| 0 <= i < before.len() implies after.contains(
                    #[trigger] before[i],
                ) by {
                    assert(after[i] == before[i]);
                }
                assert(after[before.len() as int] == equ@);
                assert forall|i: int| 0 <= i < views(old(new)@).len() implies after.contains(
                    #[trigger] views(old(new)@)[i],
                ) by {
                    let y = views(old(new)@)[i];
                    assert(before.contains(y));
                    let k = choose|k: int| 0 <= k < before.len() && before[k] == y;
                    assert(after[k] == y);
                }
                assert forall|i: int| 0 <= i < index + 1 implies views(class@).contains(
                    #[trigger] views(outs@)[i],
                ) || after.contains(views(outs@)[i]) by {
                    let y = views(outs@)[i];
                    if i < index && before.contains(y) {
                        let k = choose|k: int| 0 <= k < before.len() && before[k] == y;
                        assert(after[k] == y);
                    }
                }
            }
        }
        index += 1;
    }
}

/// Stages in `new` what the equivalences make of one member of `class`.
fn add_member(
    class: &Vec<QuadSeq>,
    new: &mut Vec<QuadSeq>,
    member: usize,
    equivalences: &Vec<Equivalence>,
    seqtype: SequenceType,
)
    requires
        member < class@.len(),
        legal(class@[member as int]@, seqtype),
        class@[member as int]@.len() < N,
        equivalences@ == seqtype.generators(),
        fresh(views(class@), views(old(new)@), seqtype),
    ensures
        fresh(views(class@), views(final(new)@), seqtype),
        extends(views(old(new)@), views(final(new)@)),
        handled(
            views(class@),
            views(final(new)@),
            class@[member as int]@,
            seqtype,
            seqtype.generators().len() as int,
        ),
{
    let seq = &class[member];
    proof {
        lemma_legal_negatable(seq@, seqtype);
    }
    let mut g: usize = 0;
    while g < equivalences.len()
        invariant
            g <= equivalences@.len(),
            member < class@.len(),
            seq@ == class@[member as int]@,
            negatable(seq@),
            seq@.len() < N,
            equivalences@ == seqtype.generators(),
            fresh(views(class@), views(new@), seqtype),
            extends(views(old(new)@), views(new@)),
            handled(views(class@), views(new@), seq@, seqtype, g as int),
        decreases equivalences@.len() - g,
    {
        let outs = apply_equivalence(&equivalences[g], seq, seqtype);
        let ghost before = views(new@);
        proof {
            assert forall|i: int| 0 <= i < outs@.len() implies one_step_from(
                views(class@),
                #[trigger] views(outs@)[i],
                seqtype,
            ) by {
                assert(images(seqtype.generators()[g as int], seq@)[i] == views(outs@)[i]);
                assert(views(class@)[member as int] == seq@);
                assert(step(views(class@)[member as int], views(outs@)[i], seqtype));
            }
        }
        add_images(class, new, &outs, seqtype);
        proof {
            let after = views(new@);
            lemma_handled_extends(views(class@), before, after, seq@, seqtype, g as int);
            assert forall|i: int| 0 <= i < views(old(new)@).len() implies after.contains(
                #[trigger] views(old(new)@)[i],
            ) by {
                let y = views(old(new)@)[i];
                assert(before.contains(y));
                let k = choose|k: int| 0 <= k < before.len() && before[k] == y;
                assert(after.contains(before[k]));
            }
            assert forall|h: int, i: int|
                0 <= h < g + 1 && 0 <= i < images(seqtype.generators()[h], seq@).len() implies {
                let q = #[trigger] images(seqtype.generators()[h], seq@)[i];
                views(class@).contains(q) || after.contains(q)
            } by {
                if h == g {
                    assert(images(seqtype.generators()[h], seq@)[i] == views(outs@)[i]);
                }
            }
        }
        g += 1;
    }
}

/// Scans every member of `class` and every equivalence, and stages what
/// they lead to outside `class`.
fn collect_new(class: &Vec<QuadSeq>, equivalences: &Vec<Equivalence>, seqtype: SequenceType) -> (new:
    Vec<QuadSeq>)
    requires
        forall|e: int|
            0 <= e < class@.len() ==> legal((#[trigger] class@[e])@, seqtype) && class@[e]@.len() < N,
        equivalences@ == seqtype.generators(),
    ensures
        fresh(views(class@), views(new@), seqtype),
        forall|e: int|
            0 <= e < class@.len() ==> handled(
                views(class@),
                views(new@),
                (#[trigger] class@[e])@,
                seqtype,
                seqtype.generators().len() as int,
            ),
{
    let mut new: Vec<QuadSeq> = Vec::new();
    let mut e: usize = 0;
    while e < class.len()
        invariant
            e <= class@.len(),
            forall|e: int|
                0 <= e < class@.len() ==> legal((#[trigger] class@[e])@, seqtype) && class@[e]@.len()
                    < N,
            equivalences@ == seqtype.generators(),
            fresh(views(class@), views(new@), seqtype),
            forall|d: int|
                0 <= d < e ==> handled(
                    views(class@),
                    views(new@),
                    (#[trigger] class@[d])@,
                    seqtype,
                    seqtype.generators().len() as int,
                ),
        decreases class@.len() - e,
    {
        let ghost before = views(new@);
        add_member(class, &mut new, e, equivalences, seqtype);
        proof {
            assert forall|d: int| 0 <= d < e implies handled(
                views(class@),
                views(new@),
                (#[trigger] class@[d])@,
                seqtype,
                seqtype.generators().len() as int,
            ) by {
                lemma_handled_extends(
                    views(class@),
                    before,
                    views(new@),
                    class@[d]@,
                    seqtype,
                    seqtype.generators().len() as int,
                );
            }
        }
        e += 1;
    }
    new
}

/// Whether `class` holds `seed` first and then, once each, quadruples that
/// the equivalences of `seqtype` lead to from `seed`.
pub open spec fn within_class(class: Seq<Seq<Row>>, seed: Seq<Row>, seqtype: SequenceType) -> bool {
    &&& class.len() > 0
    &&& class[0] == seed
    &&& class.no_duplicates()
    &&& forall|i: int| 0 <= i < class.len() ==> reachable(seed, #[trigger] class[i], seqtype)
}

proof fn lemma_saturated(class: Seq<Seq<Row>>, seed: Seq<Row>, seqtype: SequenceType)
    requires
        within_class(class, seed, seqtype),
        forall|e: int|
            0 <= e < class.len() ==> handled(
                class,
                Seq::<Seq<Row>>::empty(),
                #[trigger] class[e],
                seqtype,
                seqtype.generators().len() as int,
            ),
    ensures
        is_class_of(class, seed, seqtype),
{
    let nothing = Seq::<Seq<Row>>::empty();
    assert forall|g: int, e: int, i: int|
        0 <= g < seqtype.generators().len() && 0 <= e < class.len() && 0 <= i < images(
            seqtype.generators()[g],
            class[e],
        ).len() implies class.contains(#[trigger] images(seqtype.generators()[g], class[e])[i]) by {
        assert(handled(class, nothing, class[e], seqtype, seqtype.generators().len() as int));
        let q = images(seqtype.generators()[g], class[e])[i];
        assert(class.contains(q) || nothing.contains(q));
    }
    assert(closed(class, seqtype));
    assert forall|q: Seq<Row>| class.contains(q) <==> reachable(seed, q, seqtype) by {
        if reachable(seed, q, seqtype) {
            assert(class[0] == seed);
            lemma_closed_holds_reachable(class, seed, q, seqtype);
        }
        if class.contains(q) {
            let i = choose|i: int| 0 <= i < class.len() && class[i] == q;
            assert(reachable(seed, class[i], seqtype));
        }
    }
}

proof fn lemma_grown(
    class: Seq<Seq<Row>>,
    new: Seq<Seq<Row>>,
    seed: Seq<Row>,
    seqtype: SequenceType,
)
    requires
        legal(seed, seqtype),
        within_class(class, seed, seqtype),
        fresh(class, new, seqtype),
    ensures
        within_class(class + new, seed, seqtype),
        all_legal(class + new, seqtype, seed.len()),
        universe(seed.len(), seqtype).finite(),
        (class + new).len() <= universe(seed.len(), seqtype).len(),
{
    let all = class + new;
    assert forall|i: int| 0 <= i < all.len() implies reachable(seed, #[trigger] all[i], seqtype) by {
        if i >= class.len() {
            let q = new[i - class.len()];
            assert(all[i] == q);
            assert(one_step_from(class, q, seqtype));
            let e = choose|e: int| 0 <= e < class.len() && #[trigger] step(class[e], q, seqtype);
            assert(reachable(seed, class[e], seqtype));
            lemma_reachable_step(seed, class[e], q, seqtype);
        } else {
            assert(all[i] == class[i]);
        }
    }
    assert forall|i: int, j: int| 0 <= i < class.len() && 0 <= j < new.len() implies class[i]
        != new[j] by {
        assert(!class.contains(new[j]));
    }
    vstd::seq_lib::lemma_no_dup_in_concat(class, new);
    assert forall|i: int| 0 <= i < all.len() implies legal(#[trigger] all[i], seqtype)
        && all[i].len() == seed.len() by {
        lemma_reachable_legal(seed, all[i], seqtype);
    }
    lemma_bounded_by_universe(all, seed.len(), seqtype);
}

/// Generates the equivalence class of `seq`: `seq` first, then, once each,
/// the other quadruples that the equivalences of `seqtype` lead to from it.
pub fn generate_equivalence_class(seq: &QuadSeq, seqtype: SequenceType) -> (res: Vec<QuadSeq>)
    requires
        legal(seq@, seqtype),
        seq@.len() < N,
    ensures
        is_class_of(views(res@), seq@, seqtype),
        all_legal(views(res@), seqtype, seq@.len()),
{
    let mut class: Vec<QuadSeq> = Vec::new();
    push_quad(&mut class, seq.clone());
    let equivalences = seqtype.equivalences();
    proof {
        lemma_reachable_self(seq@, seqtype);
        assert(views(class@) =~= seq![seq@]);
        assert(fresh(views(class@), Seq::<Seq<Row>>::empty(), seqtype));
        lemma_grown(views(class@), Seq::<Seq<Row>>::empty(), seq@, seqtype);
        assert(views(class@) + Seq::<Seq<Row>>::empty() =~= views(class@));
    }

    loop
        invariant_except_break
            universe(seq@.len(), seqtype).finite(),
            class@.len() <= universe(seq@.len(), seqtype).len(),
        invariant
            legal(seq@, seqtype),
            seq@.len() < N,
            equivalences@ == seqtype.generators(),
            within_class(views(class@), seq@, seqtype),
            all_legal(views(class@), seqtype, seq@.len()),
        ensures
            is_class_of(views(class@), seq@, seqtype),
        decreases universe(seq@.len(), seqtype).len() - class@.len(),
    {
        proof {
            assert forall|e: int| 0 <= e < class@.len() implies legal(
                (#[trigger] class@[e])@,
                seqtype,
            ) && class@[e]@.len() < N by {
                assert(legal(views(class@)[e], seqtype));
            }
        }
        let new = collect_new(&class, &equivalences, seqtype);

        if new.len() == 0 {
            proof {
                assert(views(new@) =~= Seq::<Seq<Row>>::empty());
                assert forall|e: int| 0 <= e < views(class@).len() implies handled(
                    views(class@),
                    Seq::<Seq<Row>>::empty(),
                    #[trigger] views(class@)[e],
                    seqtype,
                    seqtype.generators().len() as int,
                ) by {
                    assert(handled(
                        views(class@),
                        views(new@),
                        class@[e]@,
                        seqtype,
                        seqtype.generators().len() as int,
                    ));
                }
                lemma_saturated(views(class@), seq@, seqtype);
            }
            break ;
        } else {
            let ghost before = views(class@);
            proof {
                lemma_grown(before, views(new@), seq@, seqtype);
            }
            let mut index: usize = 0;
            while index < new.len()
                invariant
                    index <= new@.len(),
                    views(class@) == before + views(new@).take(index as int),
                decreases new@.len() - index,
            {
                push_quad(&mut class, new[index].clone());
                assert(views(class@) =~= before + views(new@).take(index + 1));
                index += 1;
            }
            assert(views(new@).take(index as int) =~= views(new@));
            assert(views(class@).len() == class@.len());
        }
    }

    class
}

/// Generates the representative of the class of `seq`: the least quadruple
/// of the class in the lexicographic order.
pub fn generate_canonical_representative(seq: &QuadSeq, seqtype: SequenceType) -> (res: QuadSeq)
    requires
        legal(seq@, seqtype),
        seq@.len() < N,
    ensures
        is_canonical(seq@, res@, seqtype),
{
    let set = generate_equivalence_class(seq, seqtype);
    proof {
        assert forall|i: int| 0 <= i < set@.len() implies (#[trigger] set@[i])@.len()
            == set@[0]@.len() by {
            assert(views(set@)[i].len() == seq@.len());
            assert(views(set@)[0].len() == seq@.len());
        }
    }
    let mini = find_minimum(&set);
    proof {
        lemma_minimum_canonical(views(set@), seq@, mini@, seqtype);
    }
    mini
}

/// The least quadruple of the class of `seed` is its representative.
pub proof fn lemma_minimum_canonical(
    class: Seq<Seq<Row>>,
    seed: Seq<Row>,
    r: Seq<Row>,
    seqtype: SequenceType,
)
    requires
        is_class_of(class, seed, seqtype),
        is_minimum(class, r),
    ensures
        is_canonical(seed, r, seqtype),
{
    assert forall|q: Seq<Row>| reachable(seed, q, seqtype) implies !quad_less(q, r) by {
        assert(class.contains(q));
        let i = choose|i: int| 0 <= i < class.len() && class[i] == q;
        assert(!quad_less(class[i], r));
    }
}

/// Whether the equivalences of `seqtype` lead to `q` from a quadruple of
/// `list`.
pub open spec fn reached_from_some(list: Seq<Seq<Row>>, q: Seq<Row>, seqtype: SequenceType) -> bool {
    exists|i: int| 0 <= i < list.len() && reachable(#[trigger] list[i], q, seqtype)
}

/// Generates, once each, the quadruples of the classes of those of
/// `quad_seq_list`: as many as the sizes of the classes that its quadruples
/// start add up to.
pub fn generate_equivalent_quad_seqs(quad_seq_list: &Vec<QuadSeq>, seqtype: SequenceType) -> (res:
    Vec<QuadSeq>)
    requires
        forall|i: int|
            0 <= i < quad_seq_list@.len() ==> legal((#[trigger] quad_seq_list@[i])@, seqtype)
                && quad_seq_list@[i]@.len() < N,
    ensures
        views(res@).no_duplicates(),
        forall|q: Seq<Row>|
            views(res@).contains(q) <==> reached_from_some(views(quad_seq_list@), q, seqtype),
        res@.len() == total_size(seeds_of(views(quad_seq_list@), seqtype), seqtype),
{
    let mut result: Vec<QuadSeq> = Vec::new();
    let ghost list = views(quad_seq_list@);

    let mut index: usize = 0;
    while index < quad_seq_list.len()
        invariant
            index <= quad_seq_list@.len(),
            list == views(quad_seq_list@),
            forall|i: int|
                0 <= i < quad_seq_list@.len() ==> legal((#[trigger] quad_seq_list@[i])@, seqtype)
                    && quad_seq_list@[i]@.len() < N,
            views(result@).no_duplicates(),
            forall|q: Seq<Row>|
                views(result@).contains(q) <==> reached_from_some(
                    list.take(index as int),
                    q,
                    seqtype,
                ),
        decreases quad_seq_list@.len() - index,
    {
        let quad_seq = &quad_seq_list[index];
        let ghost seen = list.take(index as int);
        let ghost more = list.take(index + 1);
        let ghost before = views(result@);
        assert(more[index as int] == quad_seq@);
        if contains(&result, quad_seq) {
            proof {
                let k = choose|k: int|
                    0 <= k < seen.len() && reachable(#[trigger] seen[k], quad_seq@, seqtype);
                assert forall|q: Seq<Row>| before.contains(q) <==> reached_from_some(
                    more,
                    q,
                    seqtype,
                ) by {
                    if reached_from_some(more, q, seqtype) {
                        let i = choose|i: int|
                            0 <= i < more.len() && reachable(#[trigger] more[i], q, seqtype);
                        if i == index {
                            lemma_reachable_transitive(seen[k], quad_seq@, q, seqtype);
                        } else {
                            assert(reachable(seen[i], q, seqtype));
                        }
                        assert(reached_from_some(seen, q, seqtype));
                    }
                    if before.contains(q) {
                        let i = choose|i: int|
                            0 <= i < seen.len() && reachable(#[trigger] seen[i], q, seqtype);
                        assert(reachable(more[i], q, seqtype));
                    }
                }
            }
            index += 1;
            continue ;
        }
        let class = generate_equivalence_class(quad_seq, seqtype);
        let mut e: usize = 0;
        while e < class.len()
            invariant
                e <= class@.len(),
                views(result@).no_duplicates(),
                forall|q: Seq<Row>|
                    views(result@).contains(q) <==> before.contains(q) || views(class@).take(
                        e as int,
                    ).contains(q),
            decreases class@.len() - e,
        {
            let elm = &class[e];
            let ghost current = views(result@);
            assert(views(class@).take(e + 1) =~= views(class@).take(e as int).push(elm@));
            let added = !contains(&result, elm);
            if added {
                push_quad(&mut result, elm.clone());
            }
            proof {
                let shorter = views(class@).take(e as int);
                let longer = views(class@).take(e + 1);
                assert forall|q: Seq<Row>| views(result@).contains(q) <==> before.contains(q)
                    || longer.contains(q) by {
                    vstd::seq_lib::lemma_seq_contains_after_push(shorter, elm@, q);
                    assert(current.contains(q) <==> before.contains(q) || shorter.contains(q));
                    if added {
                        vstd::seq_lib::lemma_seq_contains_after_push(current, elm@, q);
                    } else {
                        assert(views(result@) == current);
                    }
                }
            }
            e += 1;
        }
        proof {
            assert(views(class@).take(e as int) =~= views(class@));
            assert forall|q: Seq<Row>| views(result@).contains(q) <==> reached_from_some(
                more,
                q,
                seqtype,
            ) by {
                if reached_from_some(more, q, seqtype) {
                    let i = choose|i: int|
                        0 <= i < more.len() && reachable(#[trigger] more[i], q, seqtype);
                    if i < index {
                        assert(reachable(seen[i], q, seqtype));
                        assert(reached_from_some(seen, q, seqtype));
                    }
                }
                if before.contains(q) {
                    let i = choose|i: int|
                        0 <= i < seen.len() && reachable(#[trigger] seen[i], q, seqtype);
                    assert(reachable(more[i], q, seqtype));
                }
                if views(class@).contains(q) {
                    assert(reachable(more[index as int], q, seqtype));
                }
            }
        }
        index += 1;
    }
    assert(list.take(index as int) =~= list);
    proof {
        assert forall|i: int| 0 <= i < list.len() implies legal(#[trigger] list[i], seqtype)
            && list[i].len() <= usize::MAX by {
            assert(legal(quad_seq_list@[i]@, seqtype));
        }
        lemma_members_count(list, seqtype, views(result@));
    }
    result
}

} // verus!
