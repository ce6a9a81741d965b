//! Linear equations over 0/1 variables that two known sequences of a
//! quadruple impose on the other two.
//!
//! With two sequences of length n known, the unknown entries of the other two
//! are the variables x1 .. x2n: xi stands for entry i of the first unknown
//! sequence and x(n+i) for entry i of the second, an entry v being encoded as
//! (v + 1) / 2.

use vstd::prelude::*;
use vstd::string::*;
use crate::sequences::decimal::{decimal, push_decimal};
use crate::sequences::rowsum::Quad;
use crate::sequences::symmetries::SequenceType;
use crate::sequences::williamson::{SequenceTag, tag_letter, tag_to_string};

verus! {

/// How the entries at the indices k - t and k + t of a periodic sequence are
/// combined: `Left` puts the entry at k - t first, `Right` the one at k + t;
/// `Plus` adds the second to the first, `Minus` subtracts it.
#[derive(Clone, Copy, Debug, PartialEq, Eq)]
pub enum OpType {
    LeftPlus,
    LeftMinus,
    RightPlus,
    RightMinus,
}

/// Whether the coefficients of the second sequence enter an equation as they
/// are or negated.
#[derive(Clone, Copy, Debug, PartialEq, Eq)]
pub enum AddType {
    Plus,
    Minus,
}

/// Whether every entry of `s` lies strictly between -64 and 64, so that sums
/// and differences of two entries, and their negations, fit in an `i8`.
pub open spec fn small(s: Seq<i8>) -> bool {
    forall|i: int| 0 <= i < s.len() ==> -64 < #[trigger] s[i] < 64
}

/// The entry of the `n`-periodic sequence `s` at index k - t.
pub open spec fn behind(s: Seq<i8>, k: int, t: int, n: int) -> int {
    s[(k + n - t) % n] as int
}

/// The entry of the `n`-periodic sequence `s` at index k + t.
pub open spec fn ahead(s: Seq<i8>, k: int, t: int, n: int) -> int {
    s[(k + t) % n] as int
}

/// The value of the operator `op` on `s` at index `k` for the shift `t`.
pub open spec fn operator(op: OpType, s: Seq<i8>, k: int, t: int, n: int) -> int {
    match op {
        OpType::LeftPlus => behind(s, k, t, n) + ahead(s, k, t, n),
        OpType::LeftMinus => behind(s, k, t, n) - ahead(s, k, t, n),
        OpType::RightPlus => ahead(s, k, t, n) + behind(s, k, t, n),
        OpType::RightMinus => ahead(s, k, t, n) - behind(s, k, t, n),
    }
}

/// `v` with the sign that `add` asks for.
pub open spec fn signed(add: AddType, v: int) -> int {
    match add {
        AddType::Plus => v,
        AddType::Minus => -v,
    }
}

/// The coefficient of variable k + 1 in the equation of the shift `t`: for
/// k < n the operator `op1` on `s1`, from n on the signed operator `op2` on
/// `s2`, where n is the length of `s1`.
pub open spec fn coefficient(
    s1: Seq<i8>,
    op1: OpType,
    s2: Seq<i8>,
    op2: OpType,
    add: AddType,
    t: int,
    k: int,
) -> int {
    let n = s1.len() as int;
    if k < n {
        operator(op1, s1, k, t, n)
    } else {
        signed(add, operator(op2, s2, k - n, t, n))
    }
}

/// The 2n coefficients of the equation of the shift `t`.
pub open spec fn coefficients(
    s1: Seq<i8>,
    op1: OpType,
    s2: Seq<i8>,
    op2: OpType,
    add: AddType,
    t: int,
) -> Seq<i8> {
    Seq::new(2 * s1.len(), |k: int| coefficient(s1, op1, s2, op2, add, t, k) as i8)
}

/// `v` divided by 2, rounded towards zero.
pub open spec fn half(v: int) -> int {
    if v >= 0 {
        v / 2
    } else {
        -((-v) / 2)
    }
}

/// The sum of the halves of the entries of `c`: the right-hand side that
/// turns an equation over entries -1 and 1, with sum 0, into one over their
/// encodings 0 and 1.
pub open spec fn halves_sum(c: Seq<i8>) -> int
    decreases c.len(),
{
    if c.len() == 0 {
        0
    } else {
        halves_sum(c.drop_last()) + half(c.last() as int)
    }
}

/// Whether every entry of `c` is 0.
pub open spec fn all_zero(c: Seq<i8>) -> bool {
    forall|i: int| 0 <= i < c.len() ==> #[trigger] c[i] == 0
}

/// The text of the term with coefficient `value` and variable number
/// `variable`: nothing for 0, else the coefficient, ` x`, the number and a
/// space, with a `+` before a positive coefficient that is not the first
/// term of its equation.
pub open spec fn term(value: i8, variable: nat, first: bool) -> Seq<char> {
    if value > 0 {
        (if first {
            Seq::<char>::empty()
        } else {
            "+"@
        }) + decimal(value as int) + " x"@ + decimal(variable as int) + " "@
    } else if value < 0 {
        decimal(value as int) + " x"@ + decimal(variable as int) + " "@
    } else {
        Seq::<char>::empty()
    }
}

/// The terms of the coefficients `c`, variables numbered from 1.
pub open spec fn terms(c: Seq<i8>) -> Seq<char>
    decreases c.len(),
{
    if c.len() == 0 {
        Seq::<char>::empty()
    } else {
        terms(c.drop_last()) + term(c.last(), c.len(), all_zero(c.drop_last()))
    }
}

/// The line of the equation with coefficients `c` and right-hand side `rhs`:
/// its terms, `= `, the right-hand side and `;`. Nothing where all
/// coefficients are 0.
pub open spec fn equation(c: Seq<i8>, rhs: int) -> Seq<char> {
    if all_zero(c) {
        Seq::<char>::empty()
    } else {
        terms(c) + "= "@ + decimal(rhs) + ";\n"@
    }
}

/// The lines of the equations of the shifts 0 .. `count`.
pub open spec fn crosscorrelation_lines(
    s1: Seq<i8>,
    op1: OpType,
    s2: Seq<i8>,
    op2: OpType,
    add: AddType,
    count: nat,
) -> Seq<char>
    decreases count,
{
    if count == 0 {
        Seq::<char>::empty()
    } else {
        let c = coefficients(s1, op1, s2, op2, add, count - 1);
        crosscorrelation_lines(s1, op1, s2, op2, add, (count - 1) as nat) + equation(
            c,
            halves_sum(c),
        )
    }
}

/// The coefficients of the equation that fixes the sum of the first unknown
/// sequence, or of the second one: 2 on its n variables and 0 on the others.
pub open spec fn rowsum_coefficients(n: nat, second: bool) -> Seq<i8> {
    Seq::new(2 * n, |k: int| if (k < n) != second { 2i8 } else { 0i8 })
}

/// The two lines that fix the sums of the unknown sequences to `rs1` and
/// `rs2`.
pub open spec fn rowsum_lines(n: nat, rs1: int, rs2: int) -> Seq<char> {
    equation(rowsum_coefficients(n, false), rs1 + n) + equation(
        rowsum_coefficients(n, true),
        rs2 + n,
    )
}

/// The comment that names the two unknown sequences.
pub open spec fn comment(left: SequenceTag, right: SequenceTag) -> Seq<char> {
    "\n* x1 ... is xn"@ + tag_letter(left) + ", xn+1 ... x2n is "@ + tag_letter(right) + "\n"@
}

/// One application of the cross-correlation property: which of the two known
/// sequences comes first, and the operator for each.
pub struct Application {
    pub swapped: bool,
    pub op_first: OpType,
    pub op_second: OpType,
}

/// What a pair of known sequences calls for: the unknown sequence behind the
/// variables x1 .. xn, the one behind x(n+1) .. x2n, and the two applications
/// of the cross-correlation property.
pub struct Plan {
    pub left: SequenceTag,
    pub right: SequenceTag,
    pub first: Application,
    pub second: Application,
}

/// The plan for the known sequences `tag1` and `tag2`, `tag1` coming before
/// `tag2` among A, B, C, D.
pub open spec fn plan_of(tag1: SequenceTag, tag2: SequenceTag) -> Plan {
    match (tag1, tag2) {
        (SequenceTag::X, SequenceTag::Y) => Plan {
            left: SequenceTag::W,
            right: SequenceTag::Z,
            first: Application { swapped: false, op_first: OpType::RightMinus, op_second: OpType::LeftMinus },
            second: Application { swapped: true, op_first: OpType::RightMinus, op_second: OpType::RightMinus },
        },
        (SequenceTag::X, SequenceTag::Z) => Plan {
            left: SequenceTag::W,
            right: SequenceTag::Y,
            first: Application { swapped: false, op_first: OpType::RightMinus, op_second: OpType::RightMinus },
            second: Application { swapped: true, op_first: OpType::RightMinus, op_second: OpType::LeftMinus },
        },
        (SequenceTag::X, SequenceTag::W) => Plan {
            left: SequenceTag::Y,
            right: SequenceTag::Z,
            first: Application { swapped: true, op_first: OpType::LeftMinus, op_second: OpType::RightMinus },
            second: Application { swapped: false, op_first: OpType::LeftMinus, op_second: OpType::LeftMinus },
        },
        (SequenceTag::Y, SequenceTag::Z) => Plan {
            left: SequenceTag::W,
            right: SequenceTag::X,
            first: Application { swapped: false, op_first: OpType::RightMinus, op_second: OpType::LeftMinus },
            second: Application { swapped: true, op_first: OpType::RightMinus, op_second: OpType::RightMinus },
        },
        (SequenceTag::Y, SequenceTag::W) => Plan {
            left: SequenceTag::X,
            right: SequenceTag::Z,
            first: Application { swapped: true, op_first: OpType::LeftMinus, op_second: OpType::LeftMinus },
            second: Application { swapped: false, op_first: OpType::RightMinus, op_second: OpType::LeftMinus },
        },
        _ => Plan {
            left: SequenceTag::X,
            right: SequenceTag::Y,
            first: Application { swapped: true, op_first: OpType::LeftMinus, op_second: OpType::RightMinus },
            second: Application { swapped: false, op_first: OpType::LeftMinus, op_second: OpType::LeftMinus },
        },
    }
}

/// The lines of one application of the cross-correlation property to the
/// known sequences `s1` and `s2`.
pub open spec fn application_lines(app: Application, s1: Seq<i8>, s2: Seq<i8>) -> Seq<char> {
    if app.swapped {
        crosscorrelation_lines(s2, app.op_first, s1, app.op_second, AddType::Plus, s2.len())
    } else {
        crosscorrelation_lines(s1, app.op_first, s2, app.op_second, AddType::Plus, s1.len())
    }
}

/// The whole text for the known sequences `s1`, named `tag1`, and `s2`,
/// named `tag2`: the comment, the lines of the two applications and the two
/// row-sum lines.
pub open spec fn williamson_equations(
    s1: Seq<i8>,
    tag1: SequenceTag,
    s2: Seq<i8>,
    tag2: SequenceTag,
    rowsum: Quad,
) -> Seq<char> {
    let plan = plan_of(tag1, tag2);
    comment(plan.left, plan.right) + application_lines(plan.first, s1, s2) + application_lines(
        plan.second,
        s1,
        s2,
    ) + rowsum_lines(
        s1.len(),
        rowsum.target(plan.left) as int,
        rowsum.target(plan.right) as int,
    )
}

/// The sum of the products of the coefficients `c` and the values `x`, term
/// by term.
pub open spec fn weighted_sum(c: Seq<i8>, x: Seq<int>) -> int
    decreases c.len(),
{
    if c.len() == 0 {
        0
    } else {
        weighted_sum(c.drop_last(), x.drop_last()) + c.last() * x.last()
    }
}

/// Whether every entry of `s` is 1 or -1.
pub open spec fn signs(s: Seq<i8>) -> bool {
    forall|i: int| 0 <= i < s.len() ==> #[trigger] s[i] == 1 || s[i] == -1
}

/// The entries of `v` as integers.
pub open spec fn values_of(v: Seq<i8>) -> Seq<int> {
    Seq::new(v.len(), |i: int| v[i] as int)
}

/// The 0/1 encoding of the sign sequence `v`: 1 for 1 and 0 for -1.
pub open spec fn encoding_of(v: Seq<i8>) -> Seq<int> {
    Seq::new(v.len(), |i: int| (v[i] + 1) / 2)
}

/// Whether every entry of `c` is even.
pub open spec fn all_even(c: Seq<i8>) -> bool {
    forall|i: int| 0 <= i < c.len() ==> #[trigger] c[i] % 2 == 0
}

/// With even coefficients, the encoding of a sign sequence exceeds the sum
/// of the halves of the coefficients by half of what the signs themselves
/// give. So the equation with that sum as its right-hand side holds of the
/// encoding exactly where the coefficients and the signs give 0.
pub proof fn lemma_encoded_equation(c: Seq<i8>, v: Seq<i8>)
    requires
        c.len() == v.len(),
        all_even(c),
        signs(v),
    ensures
        2 * (weighted_sum(c, encoding_of(v)) - halves_sum(c)) == weighted_sum(c, values_of(v)),
        weighted_sum(c, encoding_of(v)) == halves_sum(c) <==> weighted_sum(c, values_of(v)) == 0,
    decreases c.len(),
{
    if c.len() > 0 {
        let (c0, v0) = (c.drop_last(), v.drop_last());
        assert forall|i: int| 0 <= i < c0.len() implies #[trigger] c0[i] % 2 == 0 by {
            assert(c[i] % 2 == 0);
        }
        assert forall|i: int| 0 <= i < v0.len() implies #[trigger] v0[i] == 1 || v0[i] == -1 by {
            assert(v[i] == 1 || v[i] == -1);
        }
        lemma_encoded_equation(c0, v0);
        assert(encoding_of(v).drop_last() =~= encoding_of(v0));
        assert(values_of(v).drop_last() =~= values_of(v0));
        let last = c.last() as int;
        let sign = v.last() as int;
        assert(c[c.len() - 1] % 2 == 0);
        assert(v[v.len() - 1] == 1 || v[v.len() - 1] == -1);
        assert(values_of(v).last() == sign);
        if sign == 1 {
            assert(encoding_of(v).last() == 1);
            assert(last * 1 == last);
        } else {
            assert(encoding_of(v).last() == 0);
            assert(last * 0 == 0);
            assert(last * (-1) == -last);
        }
        assert(2 * half(last) == last);
    }
}

/// The coefficients that two sign sequences of one length give for a shift
/// are even.
pub proof fn lemma_coefficients_even(
    s1: Seq<i8>,
    op1: OpType,
    s2: Seq<i8>,
    op2: OpType,
    add: AddType,
    t: int,
)
    requires
        s1.len() == s2.len(),
        signs(s1),
        signs(s2),
        0 <= t < s1.len(),
    ensures
        all_even(coefficients(s1, op1, s2, op2, add, t)),
{
    let n = s1.len() as int;
    let c = coefficients(s1, op1, s2, op2, add, t);
    assert forall|k: int| 0 <= k < c.len() implies #[trigger] c[k] % 2 == 0 by {
        let j = if k < n { k } else { k - n };
        let (far, near) = ((j + n - t) % n, (j + t) % n);
        assert(0 <= far < n && 0 <= near < n);
        assert(s1[far] == 1 || s1[far] == -1);
        assert(s1[near] == 1 || s1[near] == -1);
        assert(s2[far] == 1 || s2[far] == -1);
        assert(s2[near] == 1 || s2[near] == -1);
    }
}

/// The equation that two known sign sequences give for the shift `t` holds
/// of the encoding of the unknown sequences `left` and `right` exactly
/// where the coefficients and the signs of `left` and `right` give 0.
pub proof fn lemma_crosscorrelation_equation(
    s1: Seq<i8>,
    op1: OpType,
    s2: Seq<i8>,
    op2: OpType,
    add: AddType,
    t: int,
    left: Seq<i8>,
    right: Seq<i8>,
)
    requires
        s1.len() == s2.len(),
        left.len() == s1.len(),
        right.len() == s1.len(),
        signs(s1),
        signs(s2),
        signs(left),
        signs(right),
        0 <= t < s1.len(),
    ensures
        ({
            let c = coefficients(s1, op1, s2, op2, add, t);
            weighted_sum(c, encoding_of(left + right)) == halves_sum(c) <==> weighted_sum(
                c,
                values_of(left + right),
            ) == 0
        }),
{
    lemma_coefficients_even(s1, op1, s2, op2, add, t);
    let unknown = left + right;
    assert forall|i: int| 0 <= i < unknown.len() implies #[trigger] unknown[i] == 1 || unknown[i]
        == -1 by {
        if i < left.len() {
            assert(left[i] == 1 || left[i] == -1);
        } else {
            assert(right[i - left.len()] == 1 || right[i - left.len()] == -1);
        }
    }
    lemma_encoded_equation(coefficients(s1, op1, s2, op2, add, t), unknown);
}

/// The sum of the entries of `v`.
pub open spec fn total(v: Seq<i8>) -> int
    decreases v.len(),
{
    if v.len() == 0 {
        0
    } else {
        total(v.drop_last()) + v.last()
    }
}

proof fn lemma_rowsum_prefix(n: nat, second: bool, left: Seq<i8>, right: Seq<i8>, m: nat)
    requires
        left.len() == n,
        right.len() == n,
        m <= 2 * n,
    ensures
        ({
            let c = rowsum_coefficients(n, second).take(m as int);
            let x = values_of(left + right).take(m as int);
            let counted: int = if second {
                if m <= n {
                    0
                } else {
                    m - n
                }
            } else {
                if m <= n {
                    m as int
                } else {
                    n as int
                }
            };
            &&& halves_sum(c) == counted
            &&& weighted_sum(c, x) == 2 * total(
                if second {
                    right.take(counted)
                } else {
                    left.take(counted)
                },
            )
        }),
    decreases m,
{
    let whole = rowsum_coefficients(n, second);
    let unknown = values_of(left + right);
    let c = whole.take(m as int);
    let x = unknown.take(m as int);
    if m > 0 {
        lemma_rowsum_prefix(n, second, left, right, (m - 1) as nat);
        assert(c.drop_last() =~= whole.take(m - 1));
        assert(x.drop_last() =~= unknown.take(m - 1));
        let k = m - 1;
        assert(c.last() == whole[k]);
        assert(x.last() == unknown[k]);
        if second {
            if k >= n {
                assert(whole[k] == 2);
                assert(right.take(k - n + 1).drop_last() =~= right.take(k - n));
                assert(unknown[k] == right[k - n]);
            } else {
                assert(whole[k] == 0);
                assert(0 * x.last() == 0);
            }
        } else {
            if k < n {
                assert(whole[k] == 2);
                assert(left.take(k + 1).drop_last() =~= left.take(k));
                assert(unknown[k] == left[k]);
            } else {
                assert(whole[k] == 0);
                assert(0 * x.last() == 0);
            }
        }
    }
}

/// The two row-sum equations hold of the encoding of the unknown sign
/// sequences `left` and `right` exactly where the entries of `left` sum to
/// `rs1` and those of `right` to `rs2`.
pub proof fn lemma_rowsum_equations(left: Seq<i8>, right: Seq<i8>, rs1: int, rs2: int)
    requires
        left.len() == right.len(),
        signs(left),
        signs(right),
    ensures
        ({
            let n = left.len();
            let x = encoding_of(left + right);
            &&& weighted_sum(rowsum_coefficients(n, false), x) == rs1 + n <==> total(left) == rs1
            &&& weighted_sum(rowsum_coefficients(n, true), x) == rs2 + n <==> total(right) == rs2
        }),
{
    let n = left.len();
    let unknown = left + right;
    assert forall|i: int| 0 <= i < unknown.len() implies #[trigger] unknown[i] == 1 || unknown[i]
        == -1 by {
        if i < left.len() {
            assert(left[i] == 1 || left[i] == -1);
        } else {
            assert(right[i - left.len()] == 1 || right[i - left.len()] == -1);
        }
    }
    let first = rowsum_coefficients(n, false);
    let second = rowsum_coefficients(n, true);
    lemma_encoded_equation(first, unknown);
    lemma_encoded_equation(second, unknown);
    lemma_rowsum_prefix(n, false, left, right, 2 * n);
    lemma_rowsum_prefix(n, true, left, right, 2 * n);
    assert(first.take(2 * n as int) =~= first);
    assert(second.take(2 * n as int) =~= second);
    assert(values_of(unknown).take(2 * n as int) =~= values_of(unknown));
    assert(left.take(n as int) =~= left);
    assert(right.take(n as int) =~= right);
}

/// What the equation generator asks of two known sequences: one length,
/// small enough for the right-hand sides to be computed, and small entries.
pub open spec fn known_pair(s1: Seq<i8>, s2: Seq<i8>) -> bool {
    &&& s1.len() == s2.len()
    &&& 128 * s1.len() <= isize::MAX
    &&& small(s1)
    &&& small(s2)
}

/// Generates all the equations that the sequences `seq1` and `seq2`, named
/// `tag1` and `tag2`, impose on the other two sequences of a quadruple of
/// the kind `seqtype` with the row sums `rowsum`.
pub fn generate_equations(
    seq1: &Vec<i8>,
    tag1: &SequenceTag,
    seq2: &Vec<i8>,
    tag2: &SequenceTag,
    seqtype: &SequenceType,
    rowsum: &Quad,
) -> (res: String)
    requires
        *seqtype == SequenceType::WilliamsonType,
        tag1.position() < tag2.position(),
        known_pair(seq1@, seq2@),
        rowsum.target(plan_of(*tag1, *tag2).left) + seq1@.len() <= isize::MAX,
        rowsum.target(plan_of(*tag1, *tag2).right) + seq1@.len() <= isize::MAX,
    ensures
        res@ == williamson_equations(seq1@, *tag1, seq2@, *tag2, *rowsum),
{
    equations_williamson_type(seq1, tag1, seq2, tag2, rowsum)
}

/// Looks up what the pair of known sequences calls for.
fn plan(tag1: &SequenceTag, tag2: &SequenceTag) -> (res: Plan)
    requires
        tag1.position() < tag2.position(),
    ensures
        res == plan_of(*tag1, *tag2),
{
    match (tag1, tag2) {
        (SequenceTag::X, SequenceTag::Y) => Plan {
            left: SequenceTag::W,
            right: SequenceTag::Z,
            first: Application { swapped: false, op_first: OpType::RightMinus, op_second: OpType::LeftMinus },
            second: Application { swapped: true, op_first: OpType::RightMinus, op_second: OpType::RightMinus },
        },
        (SequenceTag::X, SequenceTag::Z) => Plan {
            left: SequenceTag::W,
            right: SequenceTag::Y,
            first: Application { swapped: false, op_first: OpType::RightMinus, op_second: OpType::RightMinus },
            second: Application { swapped: true, op_first: OpType::RightMinus, op_second: OpType::LeftMinus },
        },
        (SequenceTag::X, SequenceTag::W) => Plan {
            left: SequenceTag::Y,
            right: SequenceTag::Z,
            first: Application { swapped: true, op_first: OpType::LeftMinus, op_second: OpType::RightMinus },
            second: Application { swapped: false, op_first: OpType::LeftMinus, op_second: OpType::LeftMinus },
        },
        (SequenceTag::Y, SequenceTag::Z) => Plan {
            left: SequenceTag::W,
            right: SequenceTag::X,
            first: Application { swapped: false, op_first: OpType::RightMinus, op_second: OpType::LeftMinus },
            second: Application { swapped: true, op_first: OpType::RightMinus, op_second: OpType::RightMinus },
        },
        (SequenceTag::Y, SequenceTag::W) => Plan {
            left: SequenceTag::X,
            right: SequenceTag::Z,
            first: Application { swapped: true, op_first: OpType::LeftMinus, op_second: OpType::LeftMinus },
            second: Application { swapped: false, op_first: OpType::RightMinus, op_second: OpType::LeftMinus },
        },
        _ => Plan {
            left: SequenceTag::X,
            right: SequenceTag::Y,
            first: Application { swapped: true, op_first: OpType::LeftMinus, op_second: OpType::RightMinus },
            second: Application { swapped: false, op_first: OpType::LeftMinus, op_second: OpType::LeftMinus },
        },
    }
}

/// Generates the lines of one application of the cross-correlation
/// property.
fn apply_to(app: &Application, seq1: &Vec<i8>, seq2: &Vec<i8>) -> (res: String)
    requires
        known_pair(seq1@, seq2@),
    ensures
        res@ == application_lines(*app, seq1@, seq2@),
{
    if app.swapped {
        equations_crosscorrelation(seq2, app.op_first, seq1, app.op_second, AddType::Plus)
    } else {
        equations_crosscorrelation(seq1, app.op_first, seq2, app.op_second, AddType::Plus)
    }
}

/// Generates the equations that two known sequences of a quadruple of
/// signs impose on the other two.
fn equations_williamson_type(
    seq1: &Vec<i8>,
    tag1: &SequenceTag,
    seq2: &Vec<i8>,
    tag2: &SequenceTag,
    rowsum: &Quad,
) -> (res: String)
    requires
        tag1.position() < tag2.position(),
        known_pair(seq1@, seq2@),
        rowsum.target(plan_of(*tag1, *tag2).left) + seq1@.len() <= isize::MAX,
        rowsum.target(plan_of(*tag1, *tag2).right) + seq1@.len() <= isize::MAX,
    ensures
        res@ == williamson_equations(seq1@, *tag1, seq2@, *tag2, *rowsum),
{
    let plan = plan(tag1, tag2);
    let mut result = additional_comment(&plan.left, &plan.right);
    let first = apply_to(&plan.first, seq1, seq2);
    result.append(first.as_str());
    let second = apply_to(&plan.second, seq1, seq2);
    result.append(second.as_str());
    let sums = equations_rowsum(seq1.len(), rowsum.of(&plan.left), rowsum.of(&plan.right));
    result.append(sums.as_str());
    result
}

/// The entry at k - t plus the entry at k + t.
fn op_left_plus(seq: &Vec<i8>, k: usize, t: usize, n: usize) -> (res: i8)
    requires
        0 < n <= seq@.len(),
        k < n,
        t < n,
        k + n <= usize::MAX,
        small(seq@),
    ensures
        res == operator(OpType::LeftPlus, seq@, k as int, t as int, n as int),
{
    seq[(k + n - t) % n] + seq[(k + t) % n]
}

/// The entry at k + t plus the entry at k - t.
fn op_right_plus(seq: &Vec<i8>, k: usize, t: usize, n: usize) -> (res: i8)
    requires
        0 < n <= seq@.len(),
        k < n,
        t < n,
        k + n <= usize::MAX,
        small(seq@),
    ensures
        res == operator(OpType::RightPlus, seq@, k as int, t as int, n as int),
{
    seq[(k + t) % n] + seq[(k + n - t) % n]
}

/// The entry at k - t minus the entry at k + t.
fn op_left_minus(seq: &Vec<i8>, k: usize, t: usize, n: usize) -> (res: i8)
    requires
        0 < n <= seq@.len(),
        k < n,
        t < n,
        k + n <= usize::MAX,
        small(seq@),
    ensures
        res == operator(OpType::LeftMinus, seq@, k as int, t as int, n as int),
{
    seq[(k + n - t) % n] - seq[(k + t) % n]
}

/// The entry at k + t minus the entry at k - t.
fn op_right_minus(seq: &Vec<i8>, k: usize, t: usize, n: usize) -> (res: i8)
    requires
        0 < n <= seq@.len(),
        k < n,
        t < n,
        k + n <= usize::MAX,
        small(seq@),
    ensures
        res == operator(OpType::RightMinus, seq@, k as int, t as int, n as int),
{
    seq[(k + t) % n] - seq[(k + n - t) % n]
}

/// The value of the operator `op`, negated where `add` asks for it.
fn op_signed(op: OpType, add: AddType, seq: &Vec<i8>, k: usize, t: usize, n: usize) -> (res: i8)
    requires
        0 < n <= seq@.len(),
        k < n,
        t < n,
        k + n <= usize::MAX,
        small(seq@),
    ensures
        res == signed(add, operator(op, seq@, k as int, t as int, n as int)),
        -128 < res < 128,
{
    let value = match op {
        OpType::LeftPlus => op_left_plus(seq, k, t, n),
        OpType::LeftMinus => op_left_minus(seq, k, t, n),
        OpType::RightPlus => op_right_plus(seq, k, t, n),
        OpType::RightMinus => op_right_minus(seq, k, t, n),
    };
    match add {
        AddType::Plus => value,
        AddType::Minus => -value,
    }
}

proof fn lemma_halves_sum_step(c: Seq<i8>, k: int)
    requires
        0 <= k < c.len(),
    ensures
        halves_sum(c.take(k + 1)) == halves_sum(c.take(k)) + half(c[k] as int),
{
    assert(c.take(k + 1).drop_last() =~= c.take(k));
}

/// Generates the equations that the cross-correlation property gives for
/// the sequences `seq1` and `seq2`, each with its own operator: one line for
/// each shift, but for those whose coefficients are all 0.
pub fn equations_crosscorrelation(
    seq1: &Vec<i8>,
    op_type1: OpType,
    seq2: &Vec<i8>,
    op_type2: OpType,
    add_type: AddType,
) -> (res: String)
    requires
        known_pair(seq1@, seq2@),
    ensures
        res@ == crosscorrelation_lines(
            seq1@,
            op_type1,
            seq2@,
            op_type2,
            add_type,
            seq1@.len(),
        ),
{
    let n = seq1.len();
    let mut values: Vec<i8> = Vec::new();
    let mut filled: usize = 0;
    while filled < 2 * n
        invariant
            filled <= 2 * n,
            128 * n <= isize::MAX,
            values@.len() == filled,
        decreases 2 * n - filled,
    {
        values.push(0);
        filled += 1;
    }
    let mut result = String::new();

    let mut t: usize = 0;
    while t < n
        invariant
            t <= n,
            n == seq1@.len(),
            known_pair(seq1@, seq2@),
            values@.len() == 2 * n,
            result@ == crosscorrelation_lines(seq1@, op_type1, seq2@, op_type2, add_type, t as nat),
        decreases n - t,
    {
        let ghost wanted = coefficients(seq1@, op_type1, seq2@, op_type2, add_type, t as int);
        let mut k: usize = 0;
        while k < n
            invariant
                k <= n,
                t < n,
                n == seq1@.len(),
                known_pair(seq1@, seq2@),
                values@.len() == 2 * n,
                wanted == coefficients(seq1@, op_type1, seq2@, op_type2, add_type, t as int),
                forall|i: int| 0 <= i < k ==> values@[i] == wanted[i],
            decreases n - k,
        {
            let value = op_signed(op_type1, AddType::Plus, seq1, k, t, n);
            values.set(k, value);
            k += 1;
        }
        let mut k: usize = 0;
        while k < n
            invariant
                k <= n,
                t < n,
                n == seq1@.len(),
                known_pair(seq1@, seq2@),
                values@.len() == 2 * n,
                wanted == coefficients(seq1@, op_type1, seq2@, op_type2, add_type, t as int),
                forall|i: int| 0 <= i < n ==> values@[i] == wanted[i],
                forall|i: int| n <= i < n + k ==> values@[i] == wanted[i],
            decreases n - k,
        {
            let value = op_signed(op_type2, add_type, seq2, k, t, n);
            values.set(k + n, value);
            k += 1;
        }
        assert(values@ =~= wanted);

        let mut rightside_value: isize = 0;
        let mut k: usize = 0;
        while k < 2 * n
            invariant
                k <= 2 * n,
                128 * n <= isize::MAX,
                values@.len() == 2 * n,
                rightside_value == halves_sum(values@.take(k as int)),
                -64 * k <= rightside_value <= 64 * k,
            decreases 2 * n - k,
        {
            proof {
                lemma_halves_sum_step(values@, k as int);
            }
            rightside_value += (values[k] / 2) as isize;
            k += 1;
        }
        assert(values@.take(k as int) =~= values@);

        let line = generate_equation_from(&values, rightside_value);
        result.append(line.as_str());
        t += 1;
    }

    result
}

proof fn lemma_terms_step(c: Seq<i8>, k: int)
    requires
        0 <= k < c.len(),
    ensures
        terms(c.take(k + 1)) == terms(c.take(k)) + term(
            c[k],
            (k + 1) as nat,
            all_zero(c.take(k)),
        ),
        all_zero(c.take(k + 1)) == (all_zero(c.take(k)) && c[k] == 0),
{
    assert(c.take(k + 1).drop_last() =~= c.take(k));
    if all_zero(c.take(k)) && c[k] == 0 {
        assert forall|i: int| 0 <= i < c.take(k + 1).len() implies #[trigger] c.take(k + 1)[i]
            == 0 by {
            if i < k {
                assert(c.take(k)[i] == 0);
            }
        }
    }
    if all_zero(c.take(k + 1)) {
        assert(c.take(k + 1)[k] == 0);
        assert forall|i: int| 0 <= i < c.take(k).len() implies #[trigger] c.take(k)[i] == 0 by {
            assert(c.take(k + 1)[i] == 0);
        }
    }
}

/// Appends the term of one coefficient to `out`.
fn push_term(out: &mut String, value: i8, variable: usize, first: bool)
    ensures
        final(out)@ == old(out)@ + term(value, variable as nat, first),
{
    if value == 0 {
        assert(out@ =~= old(out)@ + term(value, variable as nat, first));
        return ;
    }
    let mut text = String::new();
    if value > 0 && !first {
        text.append("+");
    }
    let ghost sign = text@;
    push_decimal(&mut text, value as i128);
    text.append(" x");
    push_decimal(&mut text, variable as i128);
    text.append(" ");
    assert(text@ == sign + decimal(value as int) + " x"@ + decimal(variable as int) + " "@);
    assert(Seq::<char>::empty() + decimal(value as int) =~= decimal(value as int));
    assert(text@ == term(value, variable as nat, first));
    out.append(text.as_str());
}

/// Generates the line of the equation with the given coefficients and
/// right-hand side. Where every coefficient is 0 nothing can be learned from
/// the equation, and the result is empty.
pub fn generate_equation_from(coefficients: &Vec<i8>, rightside_value: isize) -> (res: String)
    ensures
        res@ == equation(coefficients@, rightside_value as int),
{
    let mut result = String::new();
    let mut all_zero_coeff = true;
    let mut index: usize = 0;

    assert(coefficients@.take(0).len() == 0);
    while index < coefficients.len()
        invariant
            index <= coefficients@.len(),
            result@ == terms(coefficients@.take(index as int)),
            all_zero_coeff == all_zero(coefficients@.take(index as int)),
        decreases coefficients@.len() - index,
    {
        let elm = coefficients[index];
        proof {
            lemma_terms_step(coefficients@, index as int);
        }
        push_term(&mut result, elm, index + 1, all_zero_coeff);
        if elm != 0 {
            all_zero_coeff = false;
        }
        index += 1;
    }
    assert(coefficients@.take(index as int) =~= coefficients@);

    if all_zero_coeff {
        return String::new();
    }
    result.append("= ");
    push_decimal(&mut result, rightside_value as i128);
    result.append(";\n");
    assert(result@ =~= equation(coefficients@, rightside_value as int));
    result
}

/// Generates the two equations that fix the sums of the unknown sequences.
fn equations_rowsum(n: usize, rs1: isize, rs2: isize) -> (res: String)
    requires
        128 * n <= isize::MAX,
        rs1 + n <= isize::MAX,
        rs2 + n <= isize::MAX,
    ensures
        res@ == rowsum_lines(n as nat, rs1 as int, rs2 as int),
{
    let mut coeff1: Vec<i8> = Vec::new();
    let mut coeff2: Vec<i8> = Vec::new();
    let mut filled: usize = 0;
    while filled < 2 * n
        invariant
            filled <= 2 * n,
            128 * n <= isize::MAX,
            coeff1@.len() == filled,
            coeff2@.len() == filled,
            forall|i: int| 0 <= i < filled ==> coeff1@[i] == 0 && coeff2@[i] == 0,
        decreases 2 * n - filled,
    {
        coeff1.push(0);
        coeff2.push(0);
        filled += 1;
    }
    let mut i: usize = 0;
    while i < n
        invariant
            i <= n,
            128 * n <= isize::MAX,
            coeff1@.len() == 2 * n,
            coeff2@.len() == 2 * n,
            forall|j: int| 0 <= j < 2 * n ==> coeff1@[j] == (if j < i { 2i8 } else { 0i8 }),
            forall|j: int| 0 <= j < 2 * n ==> coeff2@[j] == (if j >= 2 * n - i { 2i8 } else { 0i8 }),
        decreases n - i,
    {
        coeff1.set(i, 2);
        coeff2.set(2 * n - 1 - i, 2);
        i += 1;
    }
    assert(coeff1@ =~= rowsum_coefficients(n as nat, false));
    assert(coeff2@ =~= rowsum_coefficients(n as nat, true));

    let mut result = generate_equation_from(&coeff1, rs1 + n as isize);
    let second = generate_equation_from(&coeff2, rs2 + n as isize);
    result.append(second.as_str());
    result
}

/// The comment that names the two unknown sequences.
fn additional_comment(tag1: &SequenceTag, tag2: &SequenceTag) -> (res: String)
    ensures
        res@ == comment(*tag1, *tag2),
{
    let mut result = String::from_str("\n* x1 ... is xn");
    result.append(tag_to_string(tag1).as_str());
    result.append(", xn+1 ... x2n is ");
    result.append(tag_to_string(tag2).as_str());
    result.append("\n");
    result
}

} // verus!
