use perfect_sequences::find::find_unique::{find, find_aux, reduce_to_equivalence};
use perfect_sequences::find::find_williamson;
use perfect_sequences::find_naive;
use perfect_sequences::sequences::symmetries::{narrow, SequenceType, Symmetry};
use perfect_sequences::sequences::williamson::{quadruplets, QuadSeq, SequenceTag};

const W: SequenceType = SequenceType::WilliamsonType;
const Q: SequenceType = SequenceType::QuaternionType;

fn every(_: &QuadSeq) -> bool {
    true
}

fn none(_: &QuadSeq) -> bool {
    false
}

fn sums_to_zero(q: &QuadSeq) -> bool {
    let (a, b, c, d) = q.sequences();
    let total: i32 = a.iter().chain(&b).chain(&c).chain(&d).map(|v| *v as i32).sum();
    total == 0
}

#[test]
fn table_of_sign_rows() {
    assert_eq!(
        quadruplets(W),
        vec![
            (-1, -1, -1, -1),
            (-1, -1, 1, 1),
            (-1, 1, -1, 1),
            (-1, 1, 1, -1),
            (1, -1, -1, 1),
            (1, -1, 1, -1),
            (1, 1, -1, -1),
            (1, 1, 1, 1),
        ]
    );
}

#[test]
fn table_of_four_symbol_rows() {
    let table = quadruplets(Q);
    assert_eq!(table.len(), 128);
    assert_eq!(table[0], (-2, -2, -2, -2));
    assert_eq!(table[1], (-2, -2, -2, -1));
    assert_eq!(table[2], (-2, -2, -1, -2));
    assert_eq!(table[127], (2, 2, 2, 2));
    for row in &table {
        let negative = [row.0, row.1, row.2, row.3].iter().filter(|v| **v < 0).count();
        assert_eq!(negative % 2, 0);
    }
    for i in 1..table.len() {
        assert!(table[i - 1] < table[i]);
    }
    assert!(table.contains(&(1, 1, 1, 1)));
}

#[test]
fn symmetry_narrows_the_table() {
    let symmetry = Symmetry { first: SequenceTag::X, second: SequenceTag::Y };
    assert!(symmetry.allows(&(1, 1, -1, -1)));
    assert!(!symmetry.allows(&(1, -1, 1, -1)));
    assert_eq!(
        narrow(quadruplets(W), &Some(symmetry)),
        vec![(-1, -1, -1, -1), (-1, -1, 1, 1), (1, 1, -1, -1), (1, 1, 1, 1)]
    );
    assert_eq!(narrow(quadruplets(W), &None), quadruplets(W));
    let other = Symmetry { first: SequenceTag::Z, second: SequenceTag::W };
    assert_eq!(narrow(quadruplets(Q), &Some(other)).len(), 32);
}

#[test]
fn search_of_length_one_returns_the_table() {
    let found = find_aux(1, W, every);
    assert_eq!(found.len(), 8);
    let table = quadruplets(W);
    for (quadruple, row) in found.iter().zip(&table) {
        assert_eq!(quadruple.size(), 1);
        assert_eq!(quadruple.values(0), *row);
    }
}

#[test]
fn search_visits_every_assignment() {
    assert_eq!(find_aux(0, W, every).len(), 1);
    assert_eq!(find_aux(2, W, every).len(), 64);
    assert_eq!(find_aux(3, W, every).len(), 512);
    assert_eq!(find_aux(1, Q, every).len(), 128);
    assert_eq!(find_aux(2, W, none).len(), 0);
}

#[test]
fn search_results_come_in_the_order_of_the_table() {
    let found = find_aux(2, W, every);
    let table = quadruplets(W);
    for (place, quadruple) in found.iter().enumerate() {
        assert_eq!(quadruple.values(0), table[place / 8]);
        assert_eq!(quadruple.values(1), table[place % 8]);
    }
    for i in 0..found.len() {
        for j in 0..i {
            assert_ne!(found[i], found[j]);
        }
    }
}

#[test]
fn search_keeps_what_the_predicate_accepts() {
    let all = find_aux(2, W, every);
    let kept = find_aux(2, W, sums_to_zero);
    let expected: Vec<QuadSeq> = all.into_iter().filter(|q| sums_to_zero(q)).collect();
    assert!(!expected.is_empty());
    assert_eq!(kept, expected);
    let with_closure = find_aux(2, W, |q: &QuadSeq| q.values(0) == q.values(1));
    assert_eq!(with_closure.len(), 8);
}

#[test]
fn count_with_the_first_index_fixed() {
    assert_eq!(find_williamson::find(0, every), 1);
    assert_eq!(find_williamson::find(1, every), 1);
    assert_eq!(find_williamson::find(2, every), 8);
    assert_eq!(find_williamson::find(3, every), 64);
    assert_eq!(find_williamson::find(4, every), 512);
    assert_eq!(find_williamson::find(3, none), 0);
}

#[test]
fn count_sees_the_identity_at_index_zero() {
    let starts_with_identity = |q: &QuadSeq| q.values(0) == (1, 1, 1, 1);
    assert_eq!(find_williamson::find(3, starts_with_identity), 64);
    let expected = find_aux(3, W, |q: &QuadSeq| q.values(0) == (1, 1, 1, 1) && sums_to_zero(q)).len();
    assert_eq!(find_williamson::find(3, sums_to_zero), expected);
}

#[test]
fn count_over_the_four_symbol_alphabet() {
    assert_eq!(find_naive::find(0, None, every), 1);
    assert_eq!(find_naive::find(1, None, every), 1);
    assert_eq!(find_naive::find(2, None, every), 128);
    assert_eq!(find_naive::find(2, None, none), 0);
    let symmetry = Symmetry { first: SequenceTag::X, second: SequenceTag::W };
    assert_eq!(find_naive::find(2, Some(symmetry), every), 32);
    assert_eq!(find_naive::find(3, Some(symmetry), every), 32 * 32);
    let respects = |q: &QuadSeq| q.sequence(SequenceTag::X) == q.sequence(SequenceTag::W);
    assert_eq!(find_naive::find(3, Some(symmetry), respects), 32 * 32);
}

#[test]
fn pipeline_lists_one_representative_to_a_line() {
    let text = find(1, W, every);
    let found = find_aux(1, W, every);
    let reps = reduce_to_equivalence(&found, W);
    let expected: String = reps.iter().map(|q| q.to_string_raw() + "\n").collect();
    assert_eq!(text, expected);
    // negations lead from any quadruple of signs of length 1 to any other
    assert_eq!(text, "-1 ; -1 ; -1 ; -1 \n");
    assert_eq!(find(2, W, none), "");
}

#[test]
fn pipeline_for_the_four_symbol_kind() {
    let text = find(1, Q, every);
    let lines: Vec<&str> = text.lines().collect();
    let found = find_aux(1, Q, every);
    let reps = reduce_to_equivalence(&found, Q);
    assert_eq!(lines.len(), reps.len());
    for (line, rep) in lines.iter().zip(&reps) {
        assert_eq!(*line, rep.to_string_raw());
    }
    assert!(!reps.is_empty());
}
