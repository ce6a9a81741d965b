//! Every equivalence can be undone by an equivalence of the same kind, so
//! that the classes of a kind of object do not overlap.

use vstd::prelude::*;
use crate::sequences::arithmetic::{
    divides,
    is_coprime,
    lemma_coprime_symmetric,
    lemma_inverse,
    lemma_multiply_back,
    lemma_shift_back,
};
use crate::sequences::equivalence::reached_from_some;
use crate::sequences::orbit::{
    class_set,
    covered,
    is_class_of,
    lemma_universe_finite,
    total_size,
    universe,
    lemma_reachable_legal,
    lemma_reachable_self,
    lemma_reachable_step,
    lemma_reachable_transitive,
    reachable,
    reachable_in,
    seeds_of,
    step,
};
use crate::sequences::symmetries::{Equivalence, SequenceType};
use crate::sequences::transform::{
    Couple,
    alternated,
    coprimes_of,
    coprimes_upto,
    couple_at,
    couples,
    double_swapped,
    images,
    negated_one,
    negated_two,
    permuted,
    reversed,
    rotated,
    rotated_one,
    swapped,
    tag_at,
    tags,
};
use crate::sequences::williamson::{Row, SequenceTag, legal, legal_row};

verus! {

/// Exchanging the same two sequences twice changes nothing.
pub proof fn lemma_swap_twice(q: Seq<Row>, tag1: SequenceTag, tag2: SequenceTag)
    ensures
        swapped(swapped(q, tag1, tag2), tag1, tag2) == q,
{
    assert(swapped(swapped(q, tag1, tag2), tag1, tag2) =~= q);
}

/// A succession of two exchanges is undone by the two in the other order.
pub proof fn lemma_double_swap_back(q: Seq<Row>, first: Couple, second: Couple)
    ensures
        double_swapped(double_swapped(q, first, second), second, first) == q,
{
    if first != second {
        let middle = swapped(q, first.0, first.1);
        lemma_swap_twice(middle, second.0, second.1);
        lemma_swap_twice(q, first.0, first.1);
    }
}

/// A shift by `offset` is undone by the shift by the rest of the length.
pub proof fn lemma_rotate_back(q: Seq<Row>, offset: int)
    requires
        0 <= offset <= q.len(),
    ensures
        rotated(rotated(q, offset), q.len() - offset) == q,
{
    let n = q.len() as int;
    let there = rotated(q, offset);
    let back = rotated(there, n - offset);
    assert forall|i: int| 0 <= i < n implies back[i] == q[i] by {
        lemma_shift_back(i, n - offset, n);
        let j = (i + (n - offset)) % n;
        assert(back[i] == there[j]);
        assert(there[j] == q[(j + offset) % n]);
    }
    assert(back =~= q);
}

/// Shifting one sequence of even length by half the length twice changes
/// nothing.
pub proof fn lemma_half_shift_twice(q: Seq<Row>, tag: SequenceTag)
    requires
        q.len() % 2 == 0,
    ensures
        rotated_one(rotated_one(q, tag, q.len() as int / 2), tag, q.len() as int / 2) == q,
{
    let n = q.len() as int;
    let half = n / 2;
    let there = rotated_one(q, tag, half);
    let back = rotated_one(there, tag, half);
    assert forall|i: int| 0 <= i < n implies back[i] == q[i] by {
        lemma_shift_back(i, half, n);
        let j = (i + half) % n;
        assert(0 <= j < n);
        assert((j + half) % n == i);
    }
    assert(back =~= q);
}

/// Reading backwards twice changes nothing.
pub proof fn lemma_reverse_twice(q: Seq<Row>)
    ensures
        reversed(reversed(q)) == q,
{
    assert(reversed(reversed(q)) =~= q);
}

/// Negating the same sequence of a legal quadruple twice changes nothing.
pub proof fn lemma_negate_twice(q: Seq<Row>, tag: SequenceTag, seqtype: SequenceType)
    requires
        legal(q, seqtype),
    ensures
        negated_one(negated_one(q, tag), tag) == q,
{
    let back = negated_one(negated_one(q, tag), tag);
    assert forall|i: int| 0 <= i < q.len() implies back[i] == q[i] by {
        assert(legal_row(q[i], seqtype));
    }
    assert(back =~= q);
}

/// Negating the same two sequences of a legal quadruple twice changes
/// nothing.
pub proof fn lemma_double_negate_twice(
    q: Seq<Row>,
    tag1: SequenceTag,
    tag2: SequenceTag,
    seqtype: SequenceType,
)
    requires
        legal(q, seqtype),
        tag1 != tag2,
    ensures
        negated_two(negated_two(q, tag1, tag2), tag1, tag2) == q,
{
    let back = negated_two(negated_two(q, tag1, tag2), tag1, tag2);
    assert forall|i: int| 0 <= i < q.len() implies back[i] == q[i] by {
        assert(legal_row(q[i], seqtype));
    }
    assert(back =~= q);
}

/// Negating every second entry of a legal quadruple twice changes nothing.
pub proof fn lemma_alternate_twice(q: Seq<Row>, seqtype: SequenceType)
    requires
        legal(q, seqtype),
    ensures
        alternated(alternated(q)) == q,
{
    let back = alternated(alternated(q));
    assert forall|i: int| 0 <= i < q.len() implies back[i] == q[i] by {
        assert(legal_row(q[i], seqtype));
    }
    assert(back =~= q);
}

/// Multiplying the indices by `k` is undone by multiplying them by an
/// inverse of `k` modulo the length.
pub proof fn lemma_permute_back(q: Seq<Row>, k: int, inv: int)
    requires
        0 <= k,
        0 <= inv,
        q.len() > 0,
        (k * inv) % (q.len() as int) == 1int % (q.len() as int),
    ensures
        permuted(permuted(q, k), inv) == q,
{
    let n = q.len() as int;
    let there = permuted(q, k);
    let back = permuted(there, inv);
    assert forall|i: int| 0 <= i < n implies back[i] == q[i] by {
        lemma_multiply_back(i, k, inv, n);
        let j = (i * inv) % n;
        assert(0 <= j < n);
        assert(back[i] == there[j]);
        assert(there[j] == q[(j * k) % n]);
    }
    assert(back =~= q);
}

/// Where `coprimes_upto(n, upto)` stands an integer, and which integers
/// stand in it.
pub proof fn lemma_coprimes_hold(n: nat, upto: nat, j: nat) -> (place: int)
    requires
        1 <= j <= upto,
        upto <= usize::MAX,
        is_coprime(n as int, j as int),
    ensures
        0 <= place < coprimes_upto(n, upto).len(),
        coprimes_upto(n, upto)[place] == j,
    decreases upto,
{
    if j == upto {
        coprimes_upto(n, (upto - 1) as nat).len() as int
    } else {
        lemma_coprimes_hold(n, (upto - 1) as nat, j)
    }
}

/// The integers of `coprimes_upto(n, upto)` are coprime to `n` and lie
/// between 1 and `upto`.
pub proof fn lemma_coprimes_are(n: nat, upto: nat, place: int)
    requires
        0 <= place < coprimes_upto(n, upto).len(),
        upto <= usize::MAX,
    ensures
        1 <= coprimes_upto(n, upto)[place] <= upto,
        is_coprime(n as int, coprimes_upto(n, upto)[place] as int),
    decreases upto,
{
    if upto > 0 {
        let shorter = coprimes_upto(n, (upto - 1) as nat);
        if place < shorter.len() {
            lemma_coprimes_are(n, (upto - 1) as nat, place);
        }
    }
}

proof fn lemma_reorder_back(p: Seq<Row>, i: int) -> (j: int)
    requires
        0 <= i < images(Equivalence::Reorder, p).len(),
    ensures
        0 <= j < images(Equivalence::Reorder, images(Equivalence::Reorder, p)[i]).len(),
        images(Equivalence::Reorder, images(Equivalence::Reorder, p)[i])[j] == p,
{
    if i > 0 {
        lemma_swap_twice(p, couple_at(i - 1).0, couple_at(i - 1).1);
    }
    i
}

proof fn lemma_double_reorder_back(p: Seq<Row>, i: int) -> (j: int)
    requires
        0 <= i < images(Equivalence::DoubleReorder, p).len(),
    ensures
        0 <= j < images(
            Equivalence::DoubleReorder,
            images(Equivalence::DoubleReorder, p)[i],
        ).len(),
        images(Equivalence::DoubleReorder, images(Equivalence::DoubleReorder, p)[i])[j] == p,
{
    if i == 0 {
        0
    } else {
        let first = (i - 1) / 6;
        let second = (i - 1) % 6;
        lemma_double_swap_back(p, couple_at(first), couple_at(second));
        let j = 1 + second * 6 + first;
        assert((j - 1) / 6 == second && (j - 1) % 6 == first);
        assert(couples()[first] == couple_at(first) && couples()[second] == couple_at(second));
        j
    }
}

proof fn lemma_half_shift_back(p: Seq<Row>, i: int) -> (j: int)
    requires
        0 <= i < images(Equivalence::UniformHalfShift, p).len(),
    ensures
        0 <= j < images(
            Equivalence::UniformHalfShift,
            images(Equivalence::UniformHalfShift, p)[i],
        ).len(),
        images(Equivalence::UniformHalfShift, images(Equivalence::UniformHalfShift, p)[i])[j] == p,
{
    if i > 0 {
        lemma_half_shift_twice(p, tag_at(i - 1));
        assert(tags()[i - 1] == tag_at(i - 1));
    }
    i
}

proof fn lemma_uniform_shift_back(p: Seq<Row>, i: int) -> (j: int)
    requires
        0 <= i < images(Equivalence::UniformShift, p).len(),
    ensures
        0 <= j < images(Equivalence::UniformShift, images(Equivalence::UniformShift, p)[i]).len(),
        images(Equivalence::UniformShift, images(Equivalence::UniformShift, p)[i])[j] == p,
{
    if i == 0 {
        0
    } else {
        lemma_rotate_back(p, i);
        let j = p.len() - i;
        let there = rotated(p, i);
        assert(images(Equivalence::UniformShift, p)[i] == there);
        assert(images(Equivalence::UniformShift, there)[j] == rotated(there, j));
        j
    }
}

proof fn lemma_automorphism_back(p: Seq<Row>, i: int) -> (j: int)
    requires
        0 <= i < images(Equivalence::Automorphism, p).len(),
        p.len() <= usize::MAX,
    ensures
        0 <= j < images(Equivalence::Automorphism, images(Equivalence::Automorphism, p)[i]).len(),
        images(Equivalence::Automorphism, images(Equivalence::Automorphism, p)[i])[j] == p,
{
    let n = p.len();
    let ks = coprimes_of(n);
    let k = ks[i] as int;
    let there = permuted(p, k);
    assert(images(Equivalence::Automorphism, p)[i] == there);
    assert(there.len() == n);
    if n == 0 {
        assert(there =~= p);
        assert(images(Equivalence::Automorphism, there)[i] =~= p);
        i
    } else {
        lemma_coprimes_are(n, n, i);
        let inv = lemma_inverse(k, n as int);
        lemma_coprime_symmetric(n as int, inv);
        let j = lemma_coprimes_hold(n, n, inv as nat);
        lemma_permute_back(p, k, inv);
        assert(images(Equivalence::Automorphism, there)[j] == permuted(there, ks[j] as int));
        j
    }
}

/// What an equivalence makes of a legal quadruple, the same equivalence
/// makes the quadruple of.
pub proof fn lemma_image_back(e: Equivalence, p: Seq<Row>, i: int, seqtype: SequenceType) -> (j:
    int)
    requires
        legal(p, seqtype),
        p.len() <= usize::MAX,
        0 <= i < images(e, p).len(),
    ensures
        0 <= j < images(e, images(e, p)[i]).len(),
        images(e, images(e, p)[i])[j] == p,
{
    match e {
        Equivalence::Reorder => lemma_reorder_back(p, i),
        Equivalence::DoubleReorder => lemma_double_reorder_back(p, i),
        Equivalence::UniformHalfShift => lemma_half_shift_back(p, i),
        Equivalence::UniformShift => lemma_uniform_shift_back(p, i),
        Equivalence::Reverse => {
            lemma_reverse_twice(p);
            i
        },
        Equivalence::Negate => {
            if i > 0 {
                lemma_negate_twice(p, tag_at(i - 1), seqtype);
                assert(tags()[i - 1] == tag_at(i - 1));
            }
            i
        },
        Equivalence::DoubleNegate => {
            if i > 0 {
                lemma_double_negate_twice(p, couple_at(i - 1).0, couple_at(i - 1).1, seqtype);
                assert(couples()[i - 1] == couple_at(i - 1));
            }
            i
        },
        Equivalence::AlternatedNegation => {
            lemma_alternate_twice(p, seqtype);
            i
        },
        Equivalence::EvenAlternatedNegation => {
            lemma_alternate_twice(p, seqtype);
            i
        },
        Equivalence::Automorphism => lemma_automorphism_back(p, i),
    }
}

/// Where an equivalence of `seqtype` makes `q` of a legal quadruple `p`,
/// one makes `p` of `q`.
pub proof fn lemma_step_back(p: Seq<Row>, q: Seq<Row>, seqtype: SequenceType)
    requires
        legal(p, seqtype),
        p.len() <= usize::MAX,
        step(p, q, seqtype),
    ensures
        step(q, p, seqtype),
{
    let (g, i) = choose|g: int, i: int|
        0 <= g < seqtype.generators().len() && 0 <= i < images(seqtype.generators()[g], p).len()
            && #[trigger] images(seqtype.generators()[g], p)[i] == q;
    let j = lemma_image_back(seqtype.generators()[g], p, i, seqtype);
    assert(images(seqtype.generators()[g], q)[j] == p);
}

proof fn lemma_chain_back(seed: Seq<Row>, q: Seq<Row>, seqtype: SequenceType, steps: nat)
    requires
        legal(seed, seqtype),
        seed.len() <= usize::MAX,
        reachable_in(seed, q, seqtype, steps),
    ensures
        reachable(q, seed, seqtype),
    decreases steps,
{
    if steps == 0 {
        lemma_reachable_self(seed, seqtype);
    } else {
        let p = choose|p: Seq<Row>|
            reachable_in(seed, p, seqtype, (steps - 1) as nat) && #[trigger] step(p, q, seqtype);
        lemma_chain_back(seed, p, seqtype, (steps - 1) as nat);
        assert(reachable(seed, p, seqtype));
        lemma_reachable_legal(seed, p, seqtype);
        lemma_step_back(p, q, seqtype);
        lemma_reachable_self(q, seqtype);
        lemma_reachable_step(q, q, p, seqtype);
        lemma_reachable_transitive(q, p, seed, seqtype);
    }
}

/// Where the equivalences lead from a legal quadruple to another, they lead
/// back: to be in the class of a quadruple is a symmetric relation.
pub proof fn lemma_reachable_symmetric(seed: Seq<Row>, q: Seq<Row>, seqtype: SequenceType)
    requires
        legal(seed, seqtype),
        seed.len() <= usize::MAX,
        reachable(seed, q, seqtype),
    ensures
        reachable(q, seed, seqtype),
{
    let steps = choose|steps: nat| reachable_in(seed, q, seqtype, steps);
    lemma_chain_back(seed, q, seqtype, steps);
}

/// The class of a member of the class of a legal quadruple holds the same
/// quadruples as that class.
pub proof fn lemma_class_of_member(
    class: Seq<Seq<Row>>,
    seed: Seq<Row>,
    member: Seq<Row>,
    member_class: Seq<Seq<Row>>,
    seqtype: SequenceType,
)
    requires
        legal(seed, seqtype),
        seed.len() <= usize::MAX,
        is_class_of(class, seed, seqtype),
        class.contains(member),
        is_class_of(member_class, member, seqtype),
    ensures
        forall|q: Seq<Row>| member_class.contains(q) <==> class.contains(q),
{
    lemma_reachable_symmetric(seed, member, seqtype);
    assert forall|q: Seq<Row>| member_class.contains(q) <==> class.contains(q) by {
        if member_class.contains(q) {
            lemma_reachable_transitive(seed, member, q, seqtype);
        }
        if class.contains(q) {
            lemma_reachable_transitive(member, seed, q, seqtype);
        }
    }
}

/// Whether every quadruple of `list` is legal for `seqtype` and no longer
/// than an index can count.
pub open spec fn legal_list(list: Seq<Seq<Row>>, seqtype: SequenceType) -> bool {
    forall|i: int|
        0 <= i < list.len() ==> legal(#[trigger] list[i], seqtype) && list[i].len() <= usize::MAX
}

/// The quadruples that start a class are quadruples of the list, and none
/// of them is in the class of one before it.
pub proof fn lemma_seeds_apart(list: Seq<Seq<Row>>, seqtype: SequenceType)
    ensures
        forall|k: int|
            0 <= k < seeds_of(list, seqtype).len() ==> list.contains(
                #[trigger] seeds_of(list, seqtype)[k],
            ),
        forall|k1: int, k2: int|
            0 <= k1 < k2 < seeds_of(list, seqtype).len() ==> !reachable(
                #[trigger] seeds_of(list, seqtype)[k1],
                #[trigger] seeds_of(list, seqtype)[k2],
                seqtype,
            ),
    decreases list.len(),
{
    if list.len() > 0 {
        let shorter = list.drop_last();
        let before = seeds_of(shorter, seqtype);
        let seeds = seeds_of(list, seqtype);
        lemma_seeds_apart(shorter, seqtype);
        assert forall|k: int| 0 <= k < seeds.len() implies list.contains(#[trigger] seeds[k]) by {
            if k < before.len() {
                assert(shorter.contains(before[k]));
                let i = choose|i: int| 0 <= i < shorter.len() && shorter[i] == before[k];
                assert(list[i] == before[k]);
            } else {
                assert(list[list.len() - 1] == seeds[k]);
            }
        }
        assert forall|k1: int, k2: int| 0 <= k1 < k2 < seeds.len() implies !reachable(
            #[trigger] seeds[k1],
            #[trigger] seeds[k2],
            seqtype,
        ) by {
            if k2 >= before.len() {
                assert(!covered(before, list.last(), seqtype));
                assert(seeds[k1] == before[k1]);
            }
        }
    }
}

/// Every quadruple of the list is in the class of one of those that start a
/// class.
pub proof fn lemma_every_input_covered(list: Seq<Seq<Row>>, seqtype: SequenceType, i: int)
    requires
        0 <= i < list.len(),
    ensures
        covered(seeds_of(list, seqtype), list[i], seqtype),
    decreases list.len(),
{
    let shorter = list.drop_last();
    let before = seeds_of(shorter, seqtype);
    let seeds = seeds_of(list, seqtype);
    if i < list.len() - 1 {
        lemma_every_input_covered(shorter, seqtype, i);
        let k = choose|k: int| 0 <= k < before.len() && reachable(#[trigger] before[k], list[i], seqtype);
        assert(seeds[k] == before[k]);
    } else if covered(before, list.last(), seqtype) {
    } else {
        lemma_reachable_self(list.last(), seqtype);
        assert(seeds[seeds.len() - 1] == list.last());
    }
}

/// The classes of the quadruples that start a class do not overlap: a
/// quadruple is in the class of at most one of them. With
/// `lemma_every_input_covered`, every quadruple of a list of legal
/// quadruples belongs to exactly one class.
pub proof fn lemma_classes_apart(
    list: Seq<Seq<Row>>,
    seqtype: SequenceType,
    q: Seq<Row>,
    k1: int,
    k2: int,
)
    requires
        legal_list(list, seqtype),
        0 <= k1 < seeds_of(list, seqtype).len(),
        0 <= k2 < seeds_of(list, seqtype).len(),
        reachable(seeds_of(list, seqtype)[k1], q, seqtype),
        reachable(seeds_of(list, seqtype)[k2], q, seqtype),
    ensures
        k1 == k2,
{
    let seeds = seeds_of(list, seqtype);
    lemma_seeds_apart(list, seqtype);
    if k1 != k2 {
        let (low, high) = if k1 < k2 { (k1, k2) } else { (k2, k1) };
        assert(list.contains(seeds[high]));
        let i = choose|i: int| 0 <= i < list.len() && list[i] == seeds[high];
        assert(legal(list[i], seqtype));
        lemma_reachable_symmetric(seeds[high], q, seqtype);
        lemma_reachable_transitive(seeds[low], q, seeds[high], seqtype);
    }
}

/// The quadruples that the classes of `seeds` cover.
pub open spec fn covered_set(seeds: Seq<Seq<Row>>, seqtype: SequenceType) -> Set<Seq<Row>> {
    Set::new(|q: Seq<Row>| covered(seeds, q, seqtype))
}

proof fn lemma_covered_prefix(list: Seq<Seq<Row>>, seqtype: SequenceType, k: nat)
    requires
        legal_list(list, seqtype),
        k <= seeds_of(list, seqtype).len(),
    ensures
        covered_set(seeds_of(list, seqtype).take(k as int), seqtype).finite(),
        covered_set(seeds_of(list, seqtype).take(k as int), seqtype).len() == total_size(
            seeds_of(list, seqtype).take(k as int),
            seqtype,
        ),
    decreases k,
{
    let seeds = seeds_of(list, seqtype);
    let upto = seeds.take(k as int);
    if k == 0 {
        assert(covered_set(upto, seqtype) =~= Set::<Seq<Row>>::empty());
    } else {
        let fewer = seeds.take(k - 1);
        let seed = seeds[k - 1];
        let before = covered_set(fewer, seqtype);
        let class = class_set(seed, seqtype);
        lemma_covered_prefix(list, seqtype, (k - 1) as nat);
        lemma_seeds_apart(list, seqtype);
        assert(list.contains(seed));
        let i = choose|i: int| 0 <= i < list.len() && list[i] == seed;
        assert(legal(list[i], seqtype));
        lemma_universe_finite(seed.len(), seqtype);
        assert forall|q: Seq<Row>| class.contains(q) implies universe(
            seed.len(),
            seqtype,
        ).contains(q) by {
            lemma_reachable_legal(seed, q, seqtype);
        }
        assert(class.subset_of(universe(seed.len(), seqtype)));
        vstd::set_lib::lemma_len_subset(class, universe(seed.len(), seqtype));
        assert forall|q: Seq<Row>| before.contains(q) implies !class.contains(q) by {
            if class.contains(q) {
                let j = choose|j: int|
                    0 <= j < fewer.len() && reachable(#[trigger] fewer[j], q, seqtype);
                assert(fewer[j] == seeds[j]);
                lemma_classes_apart(list, seqtype, q, j, k - 1);
            }
        }
        assert(before.disjoint(class));
        assert forall|q: Seq<Row>| covered_set(upto, seqtype).contains(q) <==> before.contains(q)
            || class.contains(q) by {
            if covered(upto, q, seqtype) {
                let j = choose|j: int|
                    0 <= j < upto.len() && reachable(#[trigger] upto[j], q, seqtype);
                if j < k - 1 {
                    assert(reachable(fewer[j], q, seqtype));
                }
            }
            if before.contains(q) {
                let j = choose|j: int|
                    0 <= j < fewer.len() && reachable(#[trigger] fewer[j], q, seqtype);
                assert(reachable(upto[j], q, seqtype));
            }
            if class.contains(q) {
                assert(reachable(upto[k - 1], q, seqtype));
            }
        }
        assert(covered_set(upto, seqtype) =~= before + class);
        vstd::set_lib::lemma_set_disjoint_lens(before, class);
        assert(upto.drop_last() =~= fewer);
        assert(upto.last() == seed);
    }
}

/// The sum of the sizes of the classes that the quadruples of a list of
/// legal quadruples start is the number of quadruples that these classes
/// cover, no quadruple being counted twice; it is no less than the number
/// of different quadruples of the list.
pub proof fn lemma_count_is_covered(list: Seq<Seq<Row>>, seqtype: SequenceType)
    requires
        legal_list(list, seqtype),
    ensures
        covered_set(seeds_of(list, seqtype), seqtype).finite(),
        covered_set(seeds_of(list, seqtype), seqtype).len() == total_size(
            seeds_of(list, seqtype),
            seqtype,
        ),
        list.to_set().len() <= total_size(seeds_of(list, seqtype), seqtype),
{
    let seeds = seeds_of(list, seqtype);
    lemma_covered_prefix(list, seqtype, seeds.len());
    assert(seeds.take(seeds.len() as int) =~= seeds);
    assert forall|q: Seq<Row>| list.to_set().contains(q) implies covered_set(
        seeds,
        seqtype,
    ).contains(q) by {
        let i = choose|i: int| 0 <= i < list.len() && list[i] == q;
        lemma_every_input_covered(list, seqtype, i);
    }
    assert(list.to_set().subset_of(covered_set(seeds, seqtype)));
    vstd::set_lib::lemma_len_subset(list.to_set(), covered_set(seeds, seqtype));
}

/// A list that holds, once each, the quadruples that the equivalences lead
/// to from those of a list of legal quadruples is as long as the sum of the
/// sizes of the classes.
pub proof fn lemma_members_count(
    list: Seq<Seq<Row>>,
    seqtype: SequenceType,
    members: Seq<Seq<Row>>,
)
    requires
        legal_list(list, seqtype),
        members.no_duplicates(),
        forall|q: Seq<Row>| members.contains(q) <==> reached_from_some(list, q, seqtype),
    ensures
        members.len() == total_size(seeds_of(list, seqtype), seqtype),
{
    let seeds = seeds_of(list, seqtype);
    lemma_count_is_covered(list, seqtype);
    lemma_seeds_apart(list, seqtype);
    assert forall|q: Seq<Row>| members.to_set().contains(q) <==> covered_set(
        seeds,
        seqtype,
    ).contains(q) by {
        if reached_from_some(list, q, seqtype) {
            let i = choose|i: int| 0 <= i < list.len() && reachable(#[trigger] list[i], q, seqtype);
            lemma_every_input_covered(list, seqtype, i);
            let k = choose|k: int|
                0 <= k < seeds.len() && reachable(#[trigger] seeds[k], list[i], seqtype);
            lemma_reachable_transitive(seeds[k], list[i], q, seqtype);
        }
        if covered(seeds, q, seqtype) {
            let k = choose|k: int| 0 <= k < seeds.len() && reachable(#[trigger] seeds[k], q, seqtype);
            assert(list.contains(seeds[k]));
            let i = choose|i: int| 0 <= i < list.len() && list[i] == seeds[k];
            assert(reachable(list[i], q, seqtype));
        }
    }
    assert(members.to_set() =~= covered_set(seeds, seqtype));
    members.unique_seq_to_set();
}

/// The list of the integers coprime to a length begins with 1.
pub proof fn lemma_coprimes_begin(n: nat, upto: nat)
    requires
        1 <= upto <= usize::MAX,
    ensures
        coprimes_upto(n, upto).len() >= 1,
        coprimes_upto(n, upto)[0] == 1,
    decreases upto,
{
    if upto == 1 {
        assert forall|d: int| d >= 2 implies !(#[trigger] divides(d, n as int) && divides(d, 1)) by {
            vstd::arithmetic::div_mod::lemma_small_mod(1, d as nat);
        }
        assert(coprimes_upto(n, 0).len() == 0);
    } else {
        lemma_coprimes_begin(n, (upto - 1) as nat);
    }
}

/// Every equivalence lists the quadruple itself among what it makes of it.
pub proof fn lemma_images_hold_input(e: Equivalence, q: Seq<Row>)
    requires
        q.len() <= usize::MAX,
    ensures
        images(e, q).contains(q),
{
    match e {
        Equivalence::Automorphism => {
            let upto: nat = if q.len() == 0 { 1 } else { q.len() };
            lemma_coprimes_begin(q.len(), upto);
            let n = q.len() as int;
            assert forall|i: int| 0 <= i < n implies permuted(q, 1)[i] == q[i] by {
                assert(i * 1 == i);
                vstd::arithmetic::div_mod::lemma_small_mod(i as nat, n as nat);
            }
            assert(permuted(q, 1) =~= q);
            assert(images(e, q)[0] == q);
        },
        _ => {
            assert(images(e, q)[0] == q);
        },
    }
}

} // verus!
