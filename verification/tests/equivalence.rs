use perfect_sequences::find::find_unique::{
    contains, equals, find_minimum, reduce_to_equivalence, reduce_with_count,
};
use perfect_sequences::sequences::equivalence::{
    alt_negated, apply_equivalence, coprime, coprimes, equivalent_alternated_negation,
    equivalent_automorphism, equivalent_double_negate, equivalent_double_reorder,
    equivalent_even_alternated_negation, equivalent_negate, equivalent_reorder,
    equivalent_reverse, equivalent_uniform_half_shift, equivalent_uniform_shift,
    generate_canonical_representative, generate_equivalence_class,
    generate_equivalent_quad_seqs, negated, seq_less_than, will_less_than,
};
use perfect_sequences::sequences::symmetries::{Equivalence, SequenceType};
use perfect_sequences::sequences::williamson::{QuadSeq, SequenceTag};

fn quad(a: &[i8], b: &[i8], c: &[i8], d: &[i8]) -> QuadSeq {
    let mut q = QuadSeq::new(a.len());
    q.set_all_values((&a.to_vec(), &b.to_vec(), &c.to_vec(), &d.to_vec()));
    q
}

fn columns(q: &QuadSeq) -> [Vec<i8>; 4] {
    let (a, b, c, d) = q.sequences();
    [a, b, c, d]
}

const W: SequenceType = SequenceType::WilliamsonType;
const Q: SequenceType = SequenceType::QuaternionType;

#[test]
fn quadruple_accessors() {
    let mut q = QuadSeq::new(3);
    assert_eq!(q.size(), 3);
    assert_eq!(q.values(1), (0, 0, 0, 0));
    q.set_sequence_value(&(1, -1, 1, -1), 1);
    assert_eq!(q.values(1), (1, -1, 1, -1));
    q.set_single_value(2, &SequenceTag::Z, 0);
    assert_eq!(q.values(0), (0, 0, 2, 0));
    q.set_sequence(&vec![5, 6, 7], &SequenceTag::W);
    assert_eq!(q.sequence(SequenceTag::W), vec![5, 6, 7]);
    assert_eq!(q.sequence(SequenceTag::X), vec![0, 1, 0]);
    let copy = q.clone();
    assert_eq!(copy, q);
    assert_eq!(columns(&q), [vec![0, 1, 0], vec![0, -1, 0], vec![2, 1, 0], vec![5, 6, 7]]);
}

#[test]
fn raw_text_of_a_quadruple() {
    let q = quad(&[1, -1], &[1, 1], &[-1, -1], &[2, -2]);
    assert_eq!(q.to_string_raw(), "1 -1 ; 1 1 ; -1 -1 ; 2 -2 ");
    assert_eq!(QuadSeq::new(0).to_string_raw(), "; ; ; ");
}

#[test]
fn raw_texts_of_different_quadruples_differ() {
    let list = vec![
        quad(&[1, -1], &[1, 1], &[1, 1], &[1, 1]),
        quad(&[1], &[-1], &[1], &[1]),
        quad(&[1, 1], &[-1, 1], &[1, 1], &[1, 1]),
        quad(&[11], &[1], &[1], &[1]),
        quad(&[1, 1], &[1, 1], &[1, 1], &[1, 1]),
        QuadSeq::new(0),
        QuadSeq::new(1),
        QuadSeq::new(2),
        quad(&[-1, 1], &[1, 1], &[1, 1], &[1, 1]),
    ];
    for i in 0..list.len() {
        for j in 0..i {
            assert_ne!(list[i].to_string_raw(), list[j].to_string_raw());
        }
    }
}

#[test]
fn verify_checks_the_alphabet() {
    let signs = quad(&[1, -1], &[1, 1], &[-1, -1], &[1, -1]);
    assert!(signs.verify(W));
    assert!(signs.verify(Q));
    let wide = quad(&[1, -2], &[1, 1], &[-1, 2], &[1, -1]);
    assert!(!wide.verify(W));
    assert!(wide.verify(Q));
    assert!(!QuadSeq::new(1).verify(W));
    assert!(!QuadSeq::new(1).verify(Q));
    assert!(QuadSeq::new(0).verify(W));
    assert_eq!(W.alphabet(), vec![-1, 1]);
    assert_eq!(Q.alphabet(), vec![-2, -1, 1, 2]);
    assert!(W.is_symbol(-1) && !W.is_symbol(0) && !W.is_symbol(2));
    assert!(Q.is_symbol(-2) && !Q.is_symbol(0) && !Q.is_symbol(3));
}

#[test]
fn coprime_pairs() {
    assert!(coprime(1, 1));
    assert!(coprime(1, 0));
    assert!(coprime(0, 1));
    assert!(!coprime(0, 0));
    assert!(!coprime(0, 5));
    assert!(coprime(9, 4));
    assert!(coprime(4, 9));
    assert!(!coprime(12, 18));
    assert!(!coprime(7, 7));
    assert!(coprime(100, 99));
}

#[test]
fn coprimes_of_small_lengths() {
    assert_eq!(coprimes(0), vec![1]);
    assert_eq!(coprimes(1), vec![1]);
    assert_eq!(coprimes(2), vec![1]);
    assert_eq!(coprimes(6), vec![1, 5]);
    assert_eq!(coprimes(7), vec![1, 2, 3, 4, 5, 6]);
    assert_eq!(coprimes(12), vec![1, 5, 7, 11]);
    assert_eq!(coprimes(100).len(), 40);
}

#[test]
fn lexicographic_order_on_sequences() {
    assert!(seq_less_than(&vec![-1, 1], &vec![1, -1]));
    assert!(!seq_less_than(&vec![1, -1], &vec![-1, 1]));
    assert!(!seq_less_than(&vec![1, -1], &vec![1, -1]));
    assert!(seq_less_than(&vec![1, -1, -1], &vec![1, -1, 1]));
    assert!(!seq_less_than(&vec![], &vec![]));
    assert!(equals(&vec![1, 2], &vec![1, 2]));
    assert!(!equals(&vec![1, 2], &vec![1, 3]));
    assert!(equals(&vec![1, 2], &vec![1, 2, 3]));
    assert!(!equals(&vec![1, 2], &vec![2, 2, 3]));
    assert!(equals(&vec![], &vec![]));
}

#[test]
fn lexicographic_order_on_quadruples() {
    let low = quad(&[1, 1], &[-1, 1], &[1, 1], &[1, 1]);
    let high = quad(&[1, 1], &[1, -1], &[-1, -1], &[-1, -1]);
    assert!(will_less_than(&low, &high));
    assert!(!will_less_than(&high, &low));
    assert!(!will_less_than(&low, &low));
    // only D differs
    let d_low = quad(&[1, 1], &[1, 1], &[1, 1], &[-1, 1]);
    let d_high = quad(&[1, 1], &[1, 1], &[1, 1], &[1, -1]);
    assert!(will_less_than(&d_low, &d_high));
    assert!(!will_less_than(&d_high, &d_low));
    // A decides even where B points the other way
    let a_low = quad(&[-1, 1], &[1, 1], &[1, 1], &[1, 1]);
    let a_high = quad(&[1, -1], &[-1, -1], &[1, 1], &[1, 1]);
    assert!(will_less_than(&a_low, &a_high));
}

#[test]
fn reorder_lists_the_six_exchanges() {
    let q = quad(&[1, 1], &[1, -1], &[-1, 1], &[-1, -1]);
    let res = equivalent_reorder(&q, W);
    assert_eq!(res.len(), 7);
    assert_eq!(res[0], q);
    let (a, b, c, d) = q.sequences();
    assert_eq!(columns(&res[1]), [b.clone(), a.clone(), c.clone(), d.clone()]);
    assert_eq!(columns(&res[2]), [c.clone(), b.clone(), a.clone(), d.clone()]);
    assert_eq!(columns(&res[3]), [d.clone(), b.clone(), c.clone(), a.clone()]);
    assert_eq!(columns(&res[4]), [a.clone(), c.clone(), b.clone(), d.clone()]);
    assert_eq!(columns(&res[5]), [a.clone(), d.clone(), c.clone(), b.clone()]);
    assert_eq!(columns(&res[6]), [a.clone(), b.clone(), d.clone(), c.clone()]);
}

#[test]
fn double_reorder_lists_the_thirty_six_successions() {
    let q = quad(&[1, 1], &[1, -1], &[-1, 1], &[-1, -1]);
    let res = equivalent_double_reorder(&q, W);
    assert_eq!(res.len(), 37);
    assert_eq!(res[0], q);
    let (a, b, c, d) = q.sequences();
    // AB then AB: left as it is
    assert_eq!(res[1], q);
    // AB then AC: first B A C D, then C A B D
    assert_eq!(columns(&res[2]), [c.clone(), a.clone(), b.clone(), d.clone()]);
    // AC then AB: first C B A D, then B C A D
    assert_eq!(columns(&res[1 + 6]), [b.clone(), c.clone(), a.clone(), d.clone()]);
    // AB then CD
    assert_eq!(columns(&res[1 + 5]), [b.clone(), a.clone(), d.clone(), c.clone()]);
    // CD then CD: left as it is
    assert_eq!(res[36], q);
    // CD then BD: first A B D C, then A C D B
    assert_eq!(columns(&res[1 + 5 * 6 + 4]), [a.clone(), c.clone(), d.clone(), b.clone()]);
    let pairs_on_the_diagonal = (0..6).filter(|i| res[1 + 7 * i] == q).count();
    assert_eq!(pairs_on_the_diagonal, 6);
}

#[test]
fn reorders_of_four_equal_sequences_return_the_seed() {
    let s = [1i8, -1, -1, 1, -1];
    let q = quad(&s, &s, &s, &s);
    let single = equivalent_reorder(&q, W);
    assert_eq!(single.len(), 7);
    for image in &single {
        assert_eq!(*image, q);
    }
    let double = equivalent_double_reorder(&q, W);
    assert_eq!(double.len(), 37);
    for image in &double {
        assert_eq!(*image, q);
    }
}

#[test]
fn half_shift_of_even_length() {
    let q = quad(&[1, 2, -1, -2], &[1, 1, -1, -1], &[2, 1, 2, -1], &[-1, -2, -2, 1]);
    let res = equivalent_uniform_half_shift(&q, Q);
    assert_eq!(res.len(), 5);
    assert_eq!(res[0], q);
    let (a, b, c, d) = q.sequences();
    assert_eq!(columns(&res[1]), [vec![-1, -2, 1, 2], b.clone(), c.clone(), d.clone()]);
    assert_eq!(columns(&res[2]), [a.clone(), vec![-1, -1, 1, 1], c.clone(), d.clone()]);
    assert_eq!(columns(&res[3]), [a.clone(), b.clone(), vec![2, -1, 2, 1], d.clone()]);
    assert_eq!(columns(&res[4]), [a.clone(), b.clone(), c.clone(), vec![-2, 1, -1, -2]]);
}

#[test]
fn half_shift_of_odd_length_is_the_seed_alone() {
    let q = quad(&[1, 1, -1], &[1, -1, -1], &[1, 1, 1], &[-1, 1, -1]);
    let res = equivalent_uniform_half_shift(&q, W);
    assert_eq!(res, vec![q]);
}

#[test]
fn half_shift_twice_is_the_identity() {
    let q = quad(
        &[1, -1, -1, 1, 1, 1],
        &[1, 1, -1, -1, 1, -1],
        &[-1, 1, 1, 1, -1, 1],
        &[-1, -1, -1, 1, 1, -1],
    );
    let once = equivalent_uniform_half_shift(&q, W);
    assert_eq!(once.len(), 5);
    for tag in 1..5 {
        assert_ne!(once[tag], q);
        let twice = equivalent_uniform_half_shift(&once[tag], W);
        assert_eq!(twice[tag], q);
    }
}

#[test]
fn uniform_shift_lists_every_offset() {
    let q = quad(&[1, 1, -1], &[1, -1, -1], &[1, 1, 1], &[-1, 1, -1]);
    let res = equivalent_uniform_shift(&q, W);
    assert_eq!(res.len(), 3);
    assert_eq!(res[0], q);
    assert_eq!(res[1], quad(&[1, -1, 1], &[-1, -1, 1], &[1, 1, 1], &[1, -1, -1]));
    assert_eq!(res[2], quad(&[-1, 1, 1], &[-1, 1, -1], &[1, 1, 1], &[-1, -1, 1]));
    assert_eq!(equivalent_uniform_shift(&QuadSeq::new(0), W), vec![QuadSeq::new(0)]);
    let one = quad(&[1], &[-1], &[1], &[-1]);
    assert_eq!(equivalent_uniform_shift(&one, W), vec![one.clone()]);
}

#[test]
fn reverse_reads_backwards() {
    let q = quad(&[1, 1, -1], &[1, -1, -1], &[1, 1, 1], &[-1, 1, -1]);
    let res = equivalent_reverse(&q, W);
    assert_eq!(res.len(), 2);
    assert_eq!(res[0], q);
    assert_eq!(res[1], quad(&[-1, 1, 1], &[-1, -1, 1], &[1, 1, 1], &[-1, 1, -1]));
}

#[test]
fn negations_of_sequences() {
    assert_eq!(negated(&vec![1, -1, 2, 0, -127]), vec![-1, 1, -2, 0, 127]);
    assert_eq!(alt_negated(&vec![1, 1, 1, 1, 1], 2), vec![1, -1, 1, -1, 1]);
    assert_eq!(alt_negated(&vec![1, 1, 1, 1, 1, 1, 1], 3), vec![1, 1, -1, 1, 1, -1, 1]);
    assert_eq!(alt_negated(&vec![1, -1, 2], 1), vec![-1, 1, -2]);
}

#[test]
fn negate_lists_the_input_and_each_sequence_negated() {
    let q = quad(&[1, 1], &[1, -1], &[-1, 1], &[-1, -1]);
    let res = equivalent_negate(&q, W);
    assert_eq!(res.len(), 5);
    assert_eq!(res[0], q);
    assert_eq!(res[1], quad(&[-1, -1], &[1, -1], &[-1, 1], &[-1, -1]));
    assert_eq!(res[2], quad(&[1, 1], &[-1, 1], &[-1, 1], &[-1, -1]));
    assert_eq!(res[3], quad(&[1, 1], &[1, -1], &[1, -1], &[-1, -1]));
    assert_eq!(res[4], quad(&[1, 1], &[1, -1], &[-1, 1], &[1, 1]));
}

#[test]
fn double_negate_lists_the_input_and_each_couple_negated() {
    let q = quad(&[1, 2], &[1, -1], &[-2, 1], &[-1, -1]);
    let res = equivalent_double_negate(&q, Q);
    assert_eq!(res.len(), 7);
    assert_eq!(res[0], q);
    assert_eq!(res[1], quad(&[-1, -2], &[-1, 1], &[-2, 1], &[-1, -1]));
    assert_eq!(res[2], quad(&[-1, -2], &[1, -1], &[2, -1], &[-1, -1]));
    assert_eq!(res[3], quad(&[-1, -2], &[1, -1], &[-2, 1], &[1, 1]));
    assert_eq!(res[4], quad(&[1, 2], &[-1, 1], &[2, -1], &[-1, -1]));
    assert_eq!(res[5], quad(&[1, 2], &[-1, 1], &[-2, 1], &[1, 1]));
    assert_eq!(res[6], quad(&[1, 2], &[1, -1], &[2, -1], &[1, 1]));
}

#[test]
fn every_equivalence_lists_the_input() {
    let all = [
        Equivalence::Reorder,
        Equivalence::DoubleReorder,
        Equivalence::UniformHalfShift,
        Equivalence::UniformShift,
        Equivalence::Reverse,
        Equivalence::Negate,
        Equivalence::DoubleNegate,
        Equivalence::AlternatedNegation,
        Equivalence::EvenAlternatedNegation,
        Equivalence::Automorphism,
    ];
    let inputs = [
        quad(&[1, 1, -1, 1], &[1, -1, -1, -1], &[1, 1, 1, -1], &[-1, 1, -1, 1]),
        quad(&[1, 2, -1], &[1, -1, -2], &[2, 2, 1], &[-1, 1, -2]),
        quad(&[1], &[1], &[1], &[1]),
        QuadSeq::new(0),
    ];
    for equivalence in &all {
        for input in &inputs {
            let images = apply_equivalence(equivalence, input, Q);
            assert!(images.contains(input), "{equivalence:?}");
        }
    }
}

#[test]
fn alternated_negation_negates_odd_indices() {
    let q = quad(&[1, 1, -1], &[1, -1, -1], &[1, 1, 1], &[-1, 1, -1]);
    let res = equivalent_alternated_negation(&q, W);
    assert_eq!(res.len(), 2);
    assert_eq!(res[0], q);
    assert_eq!(res[1], quad(&[1, -1, -1], &[1, 1, -1], &[1, -1, 1], &[-1, -1, -1]));
    // for even lengths only
    assert_eq!(equivalent_even_alternated_negation(&q, W), vec![q.clone()]);
    let even = quad(&[1, 1], &[1, -1], &[-1, 1], &[-1, -1]);
    let res = equivalent_even_alternated_negation(&even, W);
    assert_eq!(res, vec![even.clone(), quad(&[1, -1], &[1, 1], &[-1, -1], &[-1, 1])]);
}

#[test]
fn automorphism_multiplies_the_indices() {
    let q = quad(&[1, 2, -1, -2, 1], &[1, 1, -1, -1, 2], &[2, 1, 2, -1, -1], &[-1, -2, -2, 1, 1]);
    let res = equivalent_automorphism(&q, Q);
    assert_eq!(res.len(), 4);
    assert_eq!(res[0], q);
    // k = 2: indices 0 2 4 1 3
    assert_eq!(
        res[1],
        quad(&[1, -1, 1, 2, -2], &[1, -1, 2, 1, -1], &[2, 2, -1, 1, -1], &[-1, -2, 1, -2, 1])
    );
    // k = 4: indices 0 4 3 2 1
    assert_eq!(
        res[3],
        quad(&[1, 1, -2, -1, 2], &[1, 2, -1, -1, 1], &[2, -1, -1, 2, 1], &[-1, 1, 1, -2, -2])
    );
    assert_eq!(equivalent_automorphism(&QuadSeq::new(0), W), vec![QuadSeq::new(0)]);
}

#[test]
fn every_equivalence_keeps_quadruples_legal() {
    let all = [
        Equivalence::Reorder,
        Equivalence::DoubleReorder,
        Equivalence::UniformHalfShift,
        Equivalence::UniformShift,
        Equivalence::Reverse,
        Equivalence::Negate,
        Equivalence::DoubleNegate,
        Equivalence::AlternatedNegation,
        Equivalence::EvenAlternatedNegation,
        Equivalence::Automorphism,
    ];
    let signs = quad(&[1, 1, -1, 1], &[1, -1, -1, -1], &[1, 1, 1, -1], &[-1, 1, -1, 1]);
    let wide = quad(&[1, 2, -1, 1], &[1, -1, -2, -1], &[2, 2, 1, -1], &[-1, 1, -2, 1]);
    for equivalence in &all {
        for image in apply_equivalence(equivalence, &signs, W) {
            assert!(image.verify(W));
            assert_eq!(image.size(), 4);
        }
        for image in apply_equivalence(equivalence, &wide, Q) {
            assert!(image.verify(Q));
            assert_eq!(image.size(), 4);
        }
    }
}

#[test]
fn equivalences_of_each_kind() {
    assert_eq!(W.equivalences().len(), 6);
    assert_eq!(Q.equivalences().len(), 7);
    assert!(W.equivalences().contains(&Equivalence::Automorphism));
    assert!(Q.equivalences().contains(&Equivalence::DoubleReorder));
}

#[test]
fn class_contains_its_seed_first_and_no_duplicates() {
    let q = quad(&[1, 1, -1], &[1, -1, -1], &[1, 1, 1], &[-1, 1, -1]);
    let class = generate_equivalence_class(&q, W);
    assert_eq!(class[0], q);
    assert!(contains(&class, &q));
    for i in 0..class.len() {
        assert!(class[i].verify(W));
        for j in 0..i {
            assert_ne!(class[i], class[j]);
        }
    }
}

#[test]
fn class_of_length_one() {
    let q = quad(&[1], &[1], &[1], &[1]);
    let class = generate_equivalence_class(&q, W);
    // every choice of four signs is reached by negations
    assert_eq!(class.len(), 16);
    let class = generate_equivalence_class(&q, Q);
    // two signs at a time: the eight quadruples with an even number of -1
    assert_eq!(class.len(), 8);
}

#[test]
fn class_is_closed_under_every_equivalence() {
    let q = quad(&[1, 1], &[1, -1], &[1, 1], &[-1, 1]);
    for seqtype in [W, Q] {
        let class = generate_equivalence_class(&q, seqtype);
        for member in &class {
            for equivalence in seqtype.equivalences() {
                for image in apply_equivalence(&equivalence, member, seqtype) {
                    assert!(contains(&class, &image));
                }
            }
        }
    }
}

#[test]
fn class_of_a_member_is_the_same_class() {
    let q = quad(&[1, 1, -1], &[1, -1, -1], &[1, 1, 1], &[-1, 1, -1]);
    let class = generate_equivalence_class(&q, W);
    let member = &class[class.len() / 2];
    let again = generate_equivalence_class(member, W);
    assert_eq!(again.len(), class.len());
    for element in &again {
        assert!(contains(&class, element));
    }
}

#[test]
fn canonical_representative_is_the_least_member() {
    let q = quad(&[1, -1], &[1, 1], &[1, 1], &[-1, 1]);
    let class = generate_equivalence_class(&q, W);
    let least = generate_canonical_representative(&q, W);
    assert!(contains(&class, &least));
    for member in &class {
        assert!(!will_less_than(member, &least));
    }
    for member in class.iter().take(5) {
        assert_eq!(generate_canonical_representative(member, W), least);
    }
    assert_eq!(find_minimum(&class), least);
    // negations reach the quadruple of all -1 from any quadruple of length 1
    let one = quad(&[1], &[-1], &[1], &[1]);
    assert_eq!(generate_canonical_representative(&one, W), quad(&[-1], &[-1], &[-1], &[-1]));
}

#[test]
fn find_minimum_of_a_list() {
    let list = vec![
        quad(&[1, 1], &[1, 1], &[1, 1], &[1, 1]),
        quad(&[-1, 1], &[1, 1], &[1, 1], &[1, 1]),
        quad(&[-1, 1], &[1, 1], &[-1, 1], &[1, 1]),
        quad(&[1, -1], &[-1, -1], &[-1, -1], &[-1, -1]),
    ];
    assert_eq!(find_minimum(&list), list[2]);
    assert_eq!(find_minimum(&vec![list[0].clone()]), list[0]);
}

#[test]
fn equivalent_quadruples_of_a_list() {
    let first = quad(&[1, 1], &[1, 1], &[1, 1], &[1, 1]);
    let second = quad(&[1, -1], &[1, 1], &[1, 1], &[1, 1]);
    let class_first = generate_equivalence_class(&first, W);
    let class_second = generate_equivalence_class(&second, W);
    assert!(!contains(&class_first, &second));
    let all = generate_equivalent_quad_seqs(&vec![first.clone(), second.clone(), first.clone()], W);
    assert_eq!(all.len(), class_first.len() + class_second.len());
    for element in class_first.iter().chain(class_second.iter()) {
        assert!(contains(&all, element));
    }
    for i in 0..all.len() {
        for j in 0..i {
            assert_ne!(all[i], all[j]);
        }
    }
    assert_eq!(generate_equivalent_quad_seqs(&vec![], W), Vec::<QuadSeq>::new());
}

#[test]
fn reduction_gives_one_representative_for_each_class() {
    let first = quad(&[1, 1], &[1, 1], &[1, 1], &[1, 1]);
    let second = quad(&[1, -1], &[1, 1], &[1, 1], &[1, 1]);
    let class_first = generate_equivalence_class(&first, W);
    let class_second = generate_equivalence_class(&second, W);
    let mut raw = Vec::new();
    raw.push(class_first[class_first.len() - 1].clone());
    raw.push(class_second[1].clone());
    raw.push(first.clone());
    raw.push(class_second[0].clone());
    raw.push(class_first[1].clone());
    let reps = reduce_to_equivalence(&raw, W);
    assert_eq!(
        reps,
        vec![
            generate_canonical_representative(&first, W),
            generate_canonical_representative(&second, W)
        ]
    );
    // every input belongs to the class of exactly one representative
    for input in &raw {
        let holding = reps
            .iter()
            .filter(|rep| contains(&generate_equivalence_class(rep, W), input))
            .count();
        assert_eq!(holding, 1);
    }
    assert_eq!(reduce_to_equivalence(&vec![], W), Vec::<QuadSeq>::new());
}

#[test]
fn reduction_counts_the_quadruples_covered() {
    let first = quad(&[1, 1], &[1, 1], &[1, 1], &[1, 1]);
    let second = quad(&[1, -1], &[1, 1], &[1, 1], &[1, 1]);
    let class_first = generate_equivalence_class(&first, W);
    let class_second = generate_equivalence_class(&second, W);
    let raw = vec![
        class_first[1].clone(),
        second.clone(),
        first.clone(),
        class_second[class_second.len() - 1].clone(),
        second.clone(),
    ];
    let (reps, count) = reduce_with_count(&raw, W);
    assert_eq!(reps, reduce_to_equivalence(&raw, W));
    assert_eq!(reps.len(), 2);
    // the sum of the sizes of the two classes
    assert_eq!(count, class_first.len() + class_second.len());
    // the number of different quadruples in the classes of all inputs
    assert_eq!(count, generate_equivalent_quad_seqs(&raw, W).len());
    // no less than the number of different inputs
    assert!(count >= 4);
    assert_eq!(reduce_with_count(&vec![], W), (Vec::<QuadSeq>::new(), 0));
    let one = quad(&[1], &[-1], &[1], &[1]);
    assert_eq!(reduce_with_count(&vec![one], W).1, 16);
}
