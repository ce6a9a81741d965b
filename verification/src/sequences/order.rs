//! The lexicographic order on sequences and on quadruples of sequences.

use vstd::prelude::*;
use crate::sequences::williamson::{Row, SequenceTag, column};

verus! {

/// Whether `i` is the first index at which `s1` and `s2` differ.
pub open spec fn first_difference(s1: Seq<i8>, s2: Seq<i8>, i: int) -> bool {
    &&& 0 <= i < s1.len()
    &&& i < s2.len()
    &&& s1[i] != s2[i]
    &&& forall|j: int| 0 <= j < i ==> s1[j] == s2[j]
}

/// Whether `s1` comes before `s2`: at the first index at which they differ,
/// `s1` holds the smaller value.
pub open spec fn lex_less(s1: Seq<i8>, s2: Seq<i8>) -> bool {
    exists|i: int| first_difference(s1, s2, i) && s1[i] < s2[i]
}

/// Whether the quadruple `x` comes before `y`: the sequences A are compared
/// first, then, where they agree, the sequences B, then C, then D.
pub open spec fn quad_less(x: Seq<Row>, y: Seq<Row>) -> bool {
    let (xa, ya) = (column(x, SequenceTag::X), column(y, SequenceTag::X));
    let (xb, yb) = (column(x, SequenceTag::Y), column(y, SequenceTag::Y));
    let (xc, yc) = (column(x, SequenceTag::Z), column(y, SequenceTag::Z));
    let (xd, yd) = (column(x, SequenceTag::W), column(y, SequenceTag::W));
    lex_less(xa, ya) || (xa == ya && (lex_less(xb, yb) || (xb == yb && (lex_less(xc, yc) || (xc
        == yc && lex_less(xd, yd))))))
}

/// Whether `r` is a least element of `class`: it belongs to it and no element
/// of it comes before `r`.
pub open spec fn is_minimum(class: Seq<Seq<Row>>, r: Seq<Row>) -> bool {
    &&& class.contains(r)
    &&& forall|i: int| 0 <= i < class.len() ==> !quad_less(#[trigger] class[i], r)
}

proof fn lemma_find_difference(s1: Seq<i8>, s2: Seq<i8>, k: int)
    requires
        s1.len() == s2.len(),
        s1 != s2,
        0 <= k <= s1.len(),
        forall|j: int| 0 <= j < k ==> s1[j] == s2[j],
    ensures
        exists|i: int| first_difference(s1, s2, i),
    decreases s1.len() - k,
{
    if k == s1.len() {
        assert(s1 =~= s2);
    } else if s1[k] != s2[k] {
        assert(first_difference(s1, s2, k));
    } else {
        lemma_find_difference(s1, s2, k + 1);
    }
}

/// No sequence comes before itself.
pub proof fn lemma_lex_irreflexive(s: Seq<i8>)
    ensures
        !lex_less(s, s),
{
}

/// Of two different sequences of one length, one comes before the other.
pub proof fn lemma_lex_total(s1: Seq<i8>, s2: Seq<i8>)
    requires
        s1.len() == s2.len(),
        s1 != s2,
    ensures
        lex_less(s1, s2) || lex_less(s2, s1),
{
    lemma_find_difference(s1, s2, 0);
    let i = choose|i: int| first_difference(s1, s2, i);
    assert(first_difference(s2, s1, i));
}

/// Two sequences do not come before each other.
pub proof fn lemma_lex_asymmetric(s1: Seq<i8>, s2: Seq<i8>)
    ensures
        !(lex_less(s1, s2) && lex_less(s2, s1)),
{
    if lex_less(s1, s2) && lex_less(s2, s1) {
        let i = choose|i: int| first_difference(s1, s2, i) && s1[i] < s2[i];
        let j = choose|j: int| first_difference(s2, s1, j) && s2[j] < s1[j];
        assert(i == j);
    }
}

/// The order on sequences is transitive.
pub proof fn lemma_lex_transitive(s1: Seq<i8>, s2: Seq<i8>, s3: Seq<i8>)
    requires
        lex_less(s1, s2),
        lex_less(s2, s3),
    ensures
        lex_less(s1, s3),
{
    let i = choose|i: int| first_difference(s1, s2, i) && s1[i] < s2[i];
    let j = choose|j: int| first_difference(s2, s3, j) && s2[j] < s3[j];
    let m = if i < j { i } else { j };
    assert(first_difference(s1, s3, m) && s1[m] < s3[m]);
}

/// No quadruple comes before itself.
pub proof fn lemma_quad_irreflexive(x: Seq<Row>)
    ensures
        !quad_less(x, x),
{
}

/// Two quadruples do not come before each other.
pub proof fn lemma_quad_asymmetric(x: Seq<Row>, y: Seq<Row>)
    ensures
        !(quad_less(x, y) && quad_less(y, x)),
{
    lemma_lex_asymmetric(column(x, SequenceTag::X), column(y, SequenceTag::X));
    lemma_lex_asymmetric(column(x, SequenceTag::Y), column(y, SequenceTag::Y));
    lemma_lex_asymmetric(column(x, SequenceTag::Z), column(y, SequenceTag::Z));
    lemma_lex_asymmetric(column(x, SequenceTag::W), column(y, SequenceTag::W));
}

/// The order on quadruples is transitive.
pub proof fn lemma_quad_transitive(x: Seq<Row>, y: Seq<Row>, z: Seq<Row>)
    requires
        quad_less(x, y),
        quad_less(y, z),
    ensures
        quad_less(x, z),
{
    let (xa, ya, za) = (
        column(x, SequenceTag::X),
        column(y, SequenceTag::X),
        column(z, SequenceTag::X),
    );
    let (xb, yb, zb) = (
        column(x, SequenceTag::Y),
        column(y, SequenceTag::Y),
        column(z, SequenceTag::Y),
    );
    let (xc, yc, zc) = (
        column(x, SequenceTag::Z),
        column(y, SequenceTag::Z),
        column(z, SequenceTag::Z),
    );
    let (xd, yd, zd) = (
        column(x, SequenceTag::W),
        column(y, SequenceTag::W),
        column(z, SequenceTag::W),
    );
    if lex_less(xa, ya) && lex_less(ya, za) {
        lemma_lex_transitive(xa, ya, za);
    }
    if lex_less(xb, yb) && lex_less(yb, zb) {
        lemma_lex_transitive(xb, yb, zb);
    }
    if lex_less(xc, yc) && lex_less(yc, zc) {
        lemma_lex_transitive(xc, yc, zc);
    }
    if lex_less(xd, yd) && lex_less(yd, zd) {
        lemma_lex_transitive(xd, yd, zd);
    }
}

/// Of two different quadruples of one length, one comes before the other:
/// the order is total.
pub proof fn lemma_quad_total(x: Seq<Row>, y: Seq<Row>)
    requires
        x.len() == y.len(),
        x != y,
    ensures
        quad_less(x, y) || quad_less(y, x),
{
    let (xa, ya) = (column(x, SequenceTag::X), column(y, SequenceTag::X));
    let (xb, yb) = (column(x, SequenceTag::Y), column(y, SequenceTag::Y));
    let (xc, yc) = (column(x, SequenceTag::Z), column(y, SequenceTag::Z));
    let (xd, yd) = (column(x, SequenceTag::W), column(y, SequenceTag::W));
    if xa != ya {
        lemma_lex_total(xa, ya);
    } else if xb != yb {
        lemma_lex_total(xb, yb);
    } else if xc != yc {
        lemma_lex_total(xc, yc);
    } else if xd != yd {
        lemma_lex_total(xd, yd);
    } else {
        assert forall|i: int| 0 <= i < x.len() implies x[i] == y[i] by {
            assert(xa[i] == ya[i]);
            assert(xb[i] == yb[i]);
            assert(xc[i] == yc[i]);
            assert(xd[i] == yd[i]);
        }
        assert(x =~= y);
    }
}

/// A class of quadruples of one length has at most one least element.
pub proof fn lemma_minimum_unique(class: Seq<Seq<Row>>, r1: Seq<Row>, r2: Seq<Row>)
    requires
        forall|i: int| 0 <= i < class.len() ==> (#[trigger] class[i]).len() == class[0].len(),
        is_minimum(class, r1),
        is_minimum(class, r2),
    ensures
        r1 == r2,
{
    if r1 != r2 {
        let i = choose|i: int| 0 <= i < class.len() && class[i] == r1;
        let j = choose|j: int| 0 <= j < class.len() && class[j] == r2;
        assert(class[i].len() == class[0].len());
        assert(class[j].len() == class[0].len());
        lemma_quad_total(r1, r2);
    }
}

} // verus!
