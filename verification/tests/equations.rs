use perfect_sequences::sequences::decimal::decimal_string;
use perfect_sequences::sequences::equations::{
    equations_crosscorrelation, generate_equation_from, generate_equations, AddType, OpType,
};
use perfect_sequences::sequences::rowsum::Quad;
use perfect_sequences::sequences::symmetries::SequenceType;
use perfect_sequences::sequences::williamson::{tag_to_string, SequenceTag};

/// Splits the text into its equations: the coefficient of each variable
/// (numbered from 1) and the right-hand side.
fn parse_equations(text: &str) -> Vec<(Vec<(i64, usize)>, i64)> {
    let mut equations = Vec::new();
    for line in text.lines() {
        if line.is_empty() || line.starts_with('*') {
            continue;
        }
        assert!(line.ends_with(';'), "an equation ends with a semicolon: {line:?}");
        let body = &line[..line.len() - 1];
        let mut sides = body.split('=');
        let left = sides.next().unwrap();
        let right = sides.next().unwrap().trim();
        assert!(sides.next().is_none());
        let words: Vec<&str> = left.split_whitespace().collect();
        assert_eq!(words.len() % 2, 0);
        let mut terms = Vec::new();
        for pair in words.chunks(2) {
            let coefficient: i64 = pair[0].trim_start_matches('+').parse().unwrap();
            assert!(pair[1].starts_with('x'));
            let variable: usize = pair[1][1..].parse().unwrap();
            terms.push((coefficient, variable));
        }
        equations.push((terms, right.parse().unwrap()));
    }
    equations
}

fn encoded(sequence: &[i8]) -> Vec<i64> {
    sequence.iter().map(|v| ((*v as i64) + 1) / 2).collect()
}

fn sum_of(sequence: &[i8]) -> isize {
    sequence.iter().map(|v| *v as isize).sum()
}

/// Checks, for every pair of known sequences, that the 0/1 encoding of the
/// other two sequences satisfies every generated equation. Returns the
/// number of equations checked.
fn check_all_pairs(quadruple: [&[i8]; 4]) -> usize {
    let tags = [SequenceTag::X, SequenceTag::Y, SequenceTag::Z, SequenceTag::W];
    // the unknown sequences behind x1..xn and x(n+1)..x2n for each pair of known ones
    let unknown = |i: usize, j: usize| -> (usize, usize) {
        match (i, j) {
            (0, 1) => (3, 2),
            (0, 2) => (3, 1),
            (0, 3) => (1, 2),
            (1, 2) => (3, 0),
            (1, 3) => (0, 2),
            (2, 3) => (0, 1),
            _ => unreachable!(),
        }
    };
    let rowsum = Quad(
        sum_of(quadruple[0]),
        sum_of(quadruple[1]),
        sum_of(quadruple[2]),
        sum_of(quadruple[3]),
    );
    let mut checked = 0;
    for i in 0..4 {
        for j in (i + 1)..4 {
            let text = generate_equations(
                &quadruple[i].to_vec(),
                &tags[i],
                &quadruple[j].to_vec(),
                &tags[j],
                &SequenceType::WilliamsonType,
                &rowsum,
            );
            let (left, right) = unknown(i, j);
            let mut values = encoded(quadruple[left]);
            values.extend(encoded(quadruple[right]));
            for (terms, rhs) in parse_equations(&text) {
                let lhs: i64 = terms.iter().map(|(c, v)| c * values[v - 1]).sum();
                assert_eq!(lhs, rhs, "pair ({i}, {j}) in {text:?}");
                checked += 1;
            }
        }
    }
    checked
}

#[test]
fn decimal_of_small_and_large_values() {
    assert_eq!(decimal_string(0), "0");
    assert_eq!(decimal_string(7), "7");
    assert_eq!(decimal_string(-1), "-1");
    assert_eq!(decimal_string(10), "10");
    assert_eq!(decimal_string(-128), "-128");
    assert_eq!(decimal_string(1234567890), "1234567890");
    assert_eq!(decimal_string(i128::MAX), i128::MAX.to_string());
    assert_eq!(decimal_string(i128::MIN), i128::MIN.to_string());
}

#[test]
fn tags_are_rendered_as_letters() {
    assert_eq!(tag_to_string(&SequenceTag::X), "A");
    assert_eq!(tag_to_string(&SequenceTag::Y), "B");
    assert_eq!(tag_to_string(&SequenceTag::Z), "C");
    assert_eq!(tag_to_string(&SequenceTag::W), "D");
}

#[test]
fn equation_omits_zero_coefficients() {
    assert_eq!(generate_equation_from(&vec![2, 0, -2], 0), "2 x1 -2 x3 = 0;\n");
}

#[test]
fn equation_puts_plus_before_later_positive_terms() {
    assert_eq!(generate_equation_from(&vec![-1, 3, 0, 2], -5), "-1 x1 +3 x2 +2 x4 = -5;\n");
    assert_eq!(generate_equation_from(&vec![0, 0, 4], 12), "4 x3 = 12;\n");
}

#[test]
fn equation_with_all_zero_coefficients_is_empty() {
    assert_eq!(generate_equation_from(&vec![0, 0, 0], 3), "");
    assert_eq!(generate_equation_from(&vec![], 0), "");
}

#[test]
fn crosscorrelation_of_constant_sequences_is_empty() {
    let a = vec![-1i8, -1, -1];
    let b = vec![1i8, 1, 1];
    let text = equations_crosscorrelation(&a, OpType::RightMinus, &b, OpType::LeftMinus, AddType::Plus);
    assert_eq!(text, "");
}

#[test]
fn crosscorrelation_exact_lines() {
    let s = vec![1i8, 1, -1];
    let text = equations_crosscorrelation(&s, OpType::RightMinus, &s, OpType::LeftMinus, AddType::Plus);
    // shift 0 gives no equation; shift 1 and shift 2 give one each
    assert_eq!(text, "2 x1 -2 x2 -2 x4 +2 x5 = 0;\n-2 x1 +2 x2 +2 x4 -2 x5 = 0;\n");
}

#[test]
fn crosscorrelation_minus_negates_the_second_half() {
    let s = vec![1i8, 1, -1];
    let text = equations_crosscorrelation(&s, OpType::RightMinus, &s, OpType::LeftMinus, AddType::Minus);
    assert_eq!(text, "2 x1 -2 x2 +2 x4 -2 x5 = 0;\n-2 x1 +2 x2 -2 x4 +2 x5 = 0;\n");
}

#[test]
fn crosscorrelation_plus_operators() {
    let s = vec![1i8, 1, -1];
    let t = vec![1i8, 1, 1];
    let text = equations_crosscorrelation(&s, OpType::LeftPlus, &t, OpType::RightPlus, AddType::Plus);
    // shift 0: twice each entry; shifts 1 and 2: the sum of the two neighbours
    assert_eq!(
        text,
        "2 x1 +2 x2 -2 x3 +2 x4 +2 x5 +2 x6 = 4;\n\
         2 x3 +2 x4 +2 x5 +2 x6 = 4;\n\
         2 x3 +2 x4 +2 x5 +2 x6 = 4;\n"
    );
}

#[test]
fn equations_for_length_one() {
    let text = generate_equations(
        &vec![1],
        &SequenceTag::X,
        &vec![1],
        &SequenceTag::Y,
        &SequenceType::WilliamsonType,
        &Quad(1, 1, 1, 1),
    );
    assert_eq!(text, "\n* x1 ... is xnD, xn+1 ... x2n is C\n2 x1 = 2;\n2 x2 = 2;\n");
}

#[test]
fn equations_name_the_other_two_sequences() {
    let expected = [
        ((SequenceTag::X, SequenceTag::Y), "D", "C"),
        ((SequenceTag::X, SequenceTag::Z), "D", "B"),
        ((SequenceTag::X, SequenceTag::W), "B", "C"),
        ((SequenceTag::Y, SequenceTag::Z), "D", "A"),
        ((SequenceTag::Y, SequenceTag::W), "A", "C"),
        ((SequenceTag::Z, SequenceTag::W), "A", "B"),
    ];
    for ((first, second), left, right) in expected {
        let text = generate_equations(
            &vec![1, 1],
            &first,
            &vec![1, 1],
            &second,
            &SequenceType::WilliamsonType,
            &Quad(2, 2, 2, 2),
        );
        let comment = format!("\n* x1 ... is xn{left}, xn+1 ... x2n is {right}\n");
        assert!(text.starts_with(&comment), "{text:?}");
    }
}

#[test]
fn row_sum_equations_use_the_targets_of_the_unknown_sequences() {
    // known: B and D; unknown: A behind x1..x2 and C behind x3..x4
    let text = generate_equations(
        &vec![1, 1],
        &SequenceTag::Y,
        &vec![1, 1],
        &SequenceTag::W,
        &SequenceType::WilliamsonType,
        &Quad(-2, 7, 0, 9),
    );
    assert_eq!(
        text,
        "\n* x1 ... is xnA, xn+1 ... x2n is C\n2 x1 +2 x2 = 0;\n2 x3 +2 x4 = 2;\n"
    );
}

#[test]
fn equations_hold_for_a_symmetric_williamson_quadruple() {
    let a: [i8; 3] = [1, 1, 1];
    let b: [i8; 3] = [1, -1, -1];
    let checked = check_all_pairs([&a, &b, &b, &b]);
    // per pair: two applications with the shifts 1 and 2, and two row sums
    assert_eq!(checked, 6 * (2 * 2 + 2));
}

#[test]
fn crosscorrelation_of_two_different_sequences() {
    let a = vec![1i8, -1, -1];
    let b = vec![1i8, 1, -1];
    let text = equations_crosscorrelation(&a, OpType::RightMinus, &b, OpType::LeftPlus, AddType::Plus);
    assert_eq!(
        text,
        "2 x4 +2 x5 -2 x6 = 1;\n-2 x2 +2 x3 +2 x6 = 1;\n2 x2 -2 x3 +2 x6 = 1;\n"
    );
}

#[test]
fn right_hand_side_halves_towards_zero() {
    // coefficients 0 -1 1 and 0 1 -1: the halves of -1 and of 1 are both 0
    let a = vec![2i8, 1, 1];
    let b = vec![1i8, 1, 1];
    let text = equations_crosscorrelation(&a, OpType::RightMinus, &b, OpType::LeftMinus, AddType::Plus);
    assert_eq!(text, "-1 x2 +1 x3 = 0;\n1 x2 -1 x3 = 0;\n");
}

#[test]
fn equations_hold_for_four_equal_sequences() {
    let s: [i8; 3] = [1, 1, -1];
    let checked = check_all_pairs([&s, &s, &s, &s]);
    // per pair: two applications with the shifts 1 and 2, and two row sums
    assert_eq!(checked, 6 * (2 * 2 + 2));
}

#[test]
fn equations_hold_for_four_equal_sequences_of_length_five() {
    let s: [i8; 5] = [1, -1, -1, 1, -1];
    let checked = check_all_pairs([&s, &s, &s, &s]);
    assert!(checked >= 12);
}
