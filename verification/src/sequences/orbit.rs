//! The quadruples that the equivalences of a kind of object lead to from a
//! given one.

use vstd::prelude::*;
use vstd::set_lib::{lemma_len_subset, lemma_set_subset_finite};
use crate::sequences::order::quad_less;
use crate::sequences::symmetries::SequenceType;
use crate::sequences::transform::{all_legal, images, lemma_images_legal};
use crate::sequences::williamson::{Row, legal, legal_row};

verus! {

/// Whether one of the equivalences of `seqtype` makes `q` of `p`.
pub open spec fn step(p: Seq<Row>, q: Seq<Row>, seqtype: SequenceType) -> bool {
    exists|g: int, i: int|
        0 <= g < seqtype.generators().len() && 0 <= i < images(seqtype.generators()[g], p).len()
            && #[trigger] images(seqtype.generators()[g], p)[i] == q
}

/// Whether `steps` successive equivalences of `seqtype` lead from `seed` to
/// `q`.
pub open spec fn reachable_in(seed: Seq<Row>, q: Seq<Row>, seqtype: SequenceType, steps: nat) -> bool
    decreases steps,
{
    if steps == 0 {
        q == seed
    } else {
        exists|p: Seq<Row>|
            reachable_in(seed, p, seqtype, (steps - 1) as nat) && #[trigger] step(p, q, seqtype)
    }
}

/// Whether some succession of equivalences of `seqtype` leads from `seed` to
/// `q`.
pub open spec fn reachable(seed: Seq<Row>, q: Seq<Row>, seqtype: SequenceType) -> bool {
    exists|steps: nat| reachable_in(seed, q, seqtype, steps)
}

/// Whether no equivalence of `seqtype` leads out of `class`.
pub open spec fn closed(class: Seq<Seq<Row>>, seqtype: SequenceType) -> bool {
    forall|g: int, e: int, i: int|
        0 <= g < seqtype.generators().len() && 0 <= e < class.len() && 0 <= i < images(
            seqtype.generators()[g],
            class[e],
        ).len() ==> class.contains(#[trigger] images(seqtype.generators()[g], class[e])[i])
}

/// Whether `class` is the equivalence class of `seed`: it holds, once each
/// and `seed` first, the quadruples that the equivalences of `seqtype` lead
/// to from `seed`.
pub open spec fn is_class_of(class: Seq<Seq<Row>>, seed: Seq<Row>, seqtype: SequenceType) -> bool {
    &&& class.len() > 0
    &&& class[0] == seed
    &&& class.no_duplicates()
    &&& forall|q: Seq<Row>| class.contains(q) <==> reachable(seed, q, seqtype)
}

/// Whether `r` is the representative of the class of `seed`: the least of
/// the quadruples that the equivalences of `seqtype` lead to from `seed`.
pub open spec fn is_canonical(seed: Seq<Row>, r: Seq<Row>, seqtype: SequenceType) -> bool {
    &&& reachable(seed, r, seqtype)
    &&& forall|q: Seq<Row>| reachable(seed, q, seqtype) ==> !quad_less(q, r)
}

/// Whether the class of one of `seeds` holds `q`.
pub open spec fn covered(seeds: Seq<Seq<Row>>, q: Seq<Row>, seqtype: SequenceType) -> bool {
    exists|k: int| 0 <= k < seeds.len() && reachable(#[trigger] seeds[k], q, seqtype)
}

/// The quadruples of `list` that start a class: each one that the classes
/// of those before it do not hold.
pub open spec fn seeds_of(list: Seq<Seq<Row>>, seqtype: SequenceType) -> Seq<Seq<Row>>
    decreases list.len(),
{
    if list.len() == 0 {
        Seq::<Seq<Row>>::empty()
    } else {
        let seeds = seeds_of(list.drop_last(), seqtype);
        if covered(seeds, list.last(), seqtype) {
            seeds
        } else {
            seeds.push(list.last())
        }
    }
}

/// The quadruples of the class of `seed`.
pub open spec fn class_set(seed: Seq<Row>, seqtype: SequenceType) -> Set<Seq<Row>> {
    Set::new(|q: Seq<Row>| reachable(seed, q, seqtype))
}

/// The number of quadruples of the class of `seed`.
pub open spec fn class_size(seed: Seq<Row>, seqtype: SequenceType) -> nat {
    class_set(seed, seqtype).len()
}

/// The sum of the sizes of the classes of `seeds`.
pub open spec fn total_size(seeds: Seq<Seq<Row>>, seqtype: SequenceType) -> nat
    decreases seeds.len(),
{
    if seeds.len() == 0 {
        0
    } else {
        total_size(seeds.drop_last(), seqtype) + class_size(seeds.last(), seqtype)
    }
}

/// A list that is the class of `seed` is as long as the class is large.
pub proof fn lemma_class_size(class: Seq<Seq<Row>>, seed: Seq<Row>, seqtype: SequenceType)
    requires
        is_class_of(class, seed, seqtype),
    ensures
        class_set(seed, seqtype).finite(),
        class.len() == class_size(seed, seqtype),
{
    class.unique_seq_to_set();
    vstd::seq_lib::seq_to_set_is_finite(class);
    assert(class.to_set() =~= class_set(seed, seqtype));
}

/// Whether `reps` holds, in order, the representatives of the classes that
/// the quadruples of `list` start.
pub open spec fn reduced(list: Seq<Seq<Row>>, seqtype: SequenceType, reps: Seq<Seq<Row>>) -> bool {
    &&& reps.len() == seeds_of(list, seqtype).len()
    &&& forall|k: int|
        0 <= k < reps.len() ==> is_canonical(seeds_of(list, seqtype)[k], #[trigger] reps[k], seqtype)
}

/// A quadruple is reached from itself.
pub proof fn lemma_reachable_self(seed: Seq<Row>, seqtype: SequenceType)
    ensures
        reachable(seed, seed, seqtype),
{
    assert(reachable_in(seed, seed, seqtype, 0));
}

/// What one more equivalence makes of a quadruple that is reached from
/// `seed` is reached from `seed`.
pub proof fn lemma_reachable_step(seed: Seq<Row>, p: Seq<Row>, q: Seq<Row>, seqtype: SequenceType)
    requires
        reachable(seed, p, seqtype),
        step(p, q, seqtype),
    ensures
        reachable(seed, q, seqtype),
{
    let steps = choose|steps: nat| reachable_in(seed, p, seqtype, steps);
    assert(reachable_in(seed, q, seqtype, steps + 1));
}

proof fn lemma_reachable_chain(
    seed: Seq<Row>,
    member: Seq<Row>,
    q: Seq<Row>,
    seqtype: SequenceType,
    steps: nat,
)
    requires
        reachable(seed, member, seqtype),
        reachable_in(member, q, seqtype, steps),
    ensures
        reachable(seed, q, seqtype),
    decreases steps,
{
    if steps > 0 {
        let p = choose|p: Seq<Row>|
            reachable_in(member, p, seqtype, (steps - 1) as nat) && #[trigger] step(p, q, seqtype);
        lemma_reachable_chain(seed, member, p, seqtype, (steps - 1) as nat);
        lemma_reachable_step(seed, p, q, seqtype);
    }
}

/// What is reached from a quadruple that is reached from `seed` is reached
/// from `seed`: the class of a member of a class holds nothing outside that
/// class.
pub proof fn lemma_reachable_transitive(
    seed: Seq<Row>,
    member: Seq<Row>,
    q: Seq<Row>,
    seqtype: SequenceType,
)
    requires
        reachable(seed, member, seqtype),
        reachable(member, q, seqtype),
    ensures
        reachable(seed, q, seqtype),
{
    let steps = choose|steps: nat| reachable_in(member, q, seqtype, steps);
    lemma_reachable_chain(seed, member, q, seqtype, steps);
}

proof fn lemma_closed_holds_chain(
    class: Seq<Seq<Row>>,
    seed: Seq<Row>,
    q: Seq<Row>,
    seqtype: SequenceType,
    steps: nat,
)
    requires
        closed(class, seqtype),
        class.contains(seed),
        reachable_in(seed, q, seqtype, steps),
    ensures
        class.contains(q),
    decreases steps,
{
    if steps > 0 {
        let p = choose|p: Seq<Row>|
            reachable_in(seed, p, seqtype, (steps - 1) as nat) && #[trigger] step(p, q, seqtype);
        lemma_closed_holds_chain(class, seed, p, seqtype, (steps - 1) as nat);
        let e = choose|e: int| 0 <= e < class.len() && class[e] == p;
        let (g, i) = choose|g: int, i: int|
            0 <= g < seqtype.generators().len() && 0 <= i < images(seqtype.generators()[g], p).len()
                && #[trigger] images(seqtype.generators()[g], p)[i] == q;
        assert(class.contains(images(seqtype.generators()[g], class[e])[i]));
    }
}

/// A class that no equivalence leads out of holds all that is reached from
/// its members.
pub proof fn lemma_closed_holds_reachable(
    class: Seq<Seq<Row>>,
    seed: Seq<Row>,
    q: Seq<Row>,
    seqtype: SequenceType,
)
    requires
        closed(class, seqtype),
        class.contains(seed),
        reachable(seed, q, seqtype),
    ensures
        class.contains(q),
{
    let steps = choose|steps: nat| reachable_in(seed, q, seqtype, steps);
    lemma_closed_holds_chain(class, seed, q, seqtype, steps);
}

/// A class holds its seed, and the class of a member of a class holds
/// nothing outside that class.
pub proof fn lemma_class_stable(
    class: Seq<Seq<Row>>,
    seed: Seq<Row>,
    member: Seq<Row>,
    member_class: Seq<Seq<Row>>,
    seqtype: SequenceType,
)
    requires
        is_class_of(class, seed, seqtype),
        class.contains(member),
        is_class_of(member_class, member, seqtype),
    ensures
        class.contains(seed),
        forall|q: Seq<Row>| member_class.contains(q) ==> class.contains(q),
{
    lemma_reachable_self(seed, seqtype);
    assert forall|q: Seq<Row>| member_class.contains(q) implies class.contains(q) by {
        lemma_reachable_transitive(seed, member, q, seqtype);
    }
}

/// One equivalence makes a legal quadruple of the same length of a legal
/// quadruple.
pub proof fn lemma_step_legal(p: Seq<Row>, q: Seq<Row>, seqtype: SequenceType)
    requires
        legal(p, seqtype),
        step(p, q, seqtype),
    ensures
        legal(q, seqtype),
        q.len() == p.len(),
{
    let (g, i) = choose|g: int, i: int|
        0 <= g < seqtype.generators().len() && 0 <= i < images(seqtype.generators()[g], p).len()
            && #[trigger] images(seqtype.generators()[g], p)[i] == q;
    lemma_images_legal(seqtype.generators()[g], p, seqtype);
}

proof fn lemma_chain_legal(seed: Seq<Row>, q: Seq<Row>, seqtype: SequenceType, steps: nat)
    requires
        legal(seed, seqtype),
        reachable_in(seed, q, seqtype, steps),
    ensures
        legal(q, seqtype),
        q.len() == seed.len(),
    decreases steps,
{
    if steps > 0 {
        let p = choose|p: Seq<Row>|
            reachable_in(seed, p, seqtype, (steps - 1) as nat) && #[trigger] step(p, q, seqtype);
        lemma_chain_legal(seed, p, seqtype, (steps - 1) as nat);
        lemma_step_legal(p, q, seqtype);
    }
}

/// What is reached from a legal quadruple is legal and of its length.
pub proof fn lemma_reachable_legal(seed: Seq<Row>, q: Seq<Row>, seqtype: SequenceType)
    requires
        legal(seed, seqtype),
        reachable(seed, q, seqtype),
    ensures
        legal(q, seqtype),
        q.len() == seed.len(),
{
    let steps = choose|steps: nat| reachable_in(seed, q, seqtype, steps);
    lemma_chain_legal(seed, q, seqtype, steps);
}

/// The legal quadruples of length `n`.
pub open spec fn universe(n: nat, seqtype: SequenceType) -> Set<Seq<Row>> {
    Set::new(|q: Seq<Row>| q.len() == n && legal(q, seqtype))
}

spec fn words(m: nat, seqtype: SequenceType) -> Set<Seq<i8>> {
    Set::new(
        |w: Seq<i8>| w.len() == m && forall|i: int| 0 <= i < m ==> seqtype.symbol(#[trigger] w[i]),
    )
}

spec fn extended(set: Set<Seq<i8>>, value: i8) -> Set<Seq<i8>> {
    set.map(|w: Seq<i8>| w.push(value))
}

proof fn lemma_words_finite(m: nat, seqtype: SequenceType)
    ensures
        words(m, seqtype).finite(),
    decreases m,
{
    if m == 0 {
        assert forall|w: Seq<i8>| words(0, seqtype).contains(w) implies w == Seq::<i8>::empty() by {
            assert(w =~= Seq::<i8>::empty());
        }
        assert(words(0, seqtype) =~= set![Seq::<i8>::empty()]);
    } else {
        let shorter = words((m - 1) as nat, seqtype);
        lemma_words_finite((m - 1) as nat, seqtype);
        shorter.lemma_map_finite(|w: Seq<i8>| w.push(-2i8));
        shorter.lemma_map_finite(|w: Seq<i8>| w.push(-1i8));
        shorter.lemma_map_finite(|w: Seq<i8>| w.push(1i8));
        shorter.lemma_map_finite(|w: Seq<i8>| w.push(2i8));
        let all = extended(shorter, -2i8).union(extended(shorter, -1i8)).union(
            extended(shorter, 1i8),
        ).union(extended(shorter, 2i8));
        assert(all.finite());
        assert forall|w: Seq<i8>| words(m, seqtype).contains(w) implies all.contains(w) by {
            let head = w.drop_last();
            let value = w.last();
            assert(w =~= head.push(value));
            assert(seqtype.symbol(w[m - 1]));
            assert forall|i: int| 0 <= i < m - 1 implies seqtype.symbol(#[trigger] head[i]) by {
                assert(seqtype.symbol(w[i]));
            }
            assert(shorter.contains(head));
            assert(extended(shorter, value).contains(w));
        }
        assert(words(m, seqtype).subset_of(all));
        lemma_set_subset_finite(all, words(m, seqtype));
    }
}

spec fn flat(q: Seq<Row>) -> Seq<i8> {
    Seq::new(
        4 * q.len(),
        |j: int|
            if j % 4 == 0 {
                q[j / 4].0
            } else if j % 4 == 1 {
                q[j / 4].1
            } else if j % 4 == 2 {
                q[j / 4].2
            } else {
                q[j / 4].3
            },
    )
}

spec fn unflat(w: Seq<i8>) -> Seq<Row> {
    Seq::new((w.len() / 4) as nat, |i: int| (w[4 * i], w[4 * i + 1], w[4 * i + 2], w[4 * i + 3]))
}

/// There are finitely many legal quadruples of a given length.
pub proof fn lemma_universe_finite(n: nat, seqtype: SequenceType)
    ensures
        universe(n, seqtype).finite(),
{
    let source = words(4 * n, seqtype);
    lemma_words_finite(4 * n, seqtype);
    source.lemma_map_finite(|w: Seq<i8>| unflat(w));
    let all = source.map(|w: Seq<i8>| unflat(w));
    assert forall|q: Seq<Row>| universe(n, seqtype).contains(q) implies all.contains(q) by {
        let w = flat(q);
        assert forall|j: int| 0 <= j < 4 * n implies seqtype.symbol(#[trigger] w[j]) by {
            assert(legal_row(q[j / 4], seqtype));
        }
        assert(source.contains(w));
        assert(unflat(w) =~= q);
    }
    assert(universe(n, seqtype).subset_of(all));
    lemma_set_subset_finite(all, universe(n, seqtype));
}

/// A list without repetition of legal quadruples of length `n` is no longer
/// than there are such quadruples.
pub proof fn lemma_bounded_by_universe(list: Seq<Seq<Row>>, n: nat, seqtype: SequenceType)
    requires
        list.no_duplicates(),
        all_legal(list, seqtype, n),
    ensures
        universe(n, seqtype).finite(),
        list.len() <= universe(n, seqtype).len(),
{
    lemma_universe_finite(n, seqtype);
    list.unique_seq_to_set();
    assert forall|q: Seq<Row>| list.to_set().contains(q) implies universe(n, seqtype).contains(
        q,
    ) by {
        let i = choose|i: int| 0 <= i < list.len() && list[i] == q;
        assert(legal(list[i], seqtype));
    }
    assert(list.to_set().subset_of(universe(n, seqtype)));
    lemma_len_subset(list.to_set(), universe(n, seqtype));
}

} // verus!
