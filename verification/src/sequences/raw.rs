//! The text of a quadruple tells the quadruple: two quadruples with the
//! same text are the same.

use vstd::prelude::*;
use vstd::string::*;
use crate::sequences::decimal::{decimal, digit, digits};
use crate::sequences::williamson::{
    Row,
    SequenceTag,
    column,
    lemma_columns_tell,
    raw_seq,
    raw_text,
};

verus! {

/// The value of the decimal digit `c`, and -1 for any other character.
pub open spec fn digit_value(c: char) -> int {
    if c == '0' {
        0
    } else if c == '1' {
        1
    } else if c == '2' {
        2
    } else if c == '3' {
        3
    } else if c == '4' {
        4
    } else if c == '5' {
        5
    } else if c == '6' {
        6
    } else if c == '7' {
        7
    } else if c == '8' {
        8
    } else if c == '9' {
        9
    } else {
        -1
    }
}

/// Whether `t` holds neither a space nor a semicolon.
pub open spec fn unbroken(t: Seq<char>) -> bool {
    forall|i: int| 0 <= i < t.len() ==> #[trigger] t[i] != ' ' && t[i] != ';'
}

/// Whether `t` holds no semicolon.
pub open spec fn without_semicolon(t: Seq<char>) -> bool {
    forall|i: int| 0 <= i < t.len() ==> #[trigger] t[i] != ';'
}

proof fn lemma_digits_are_digits(n: nat)
    ensures
        digits(n).len() >= 1,
        n >= 10 ==> digits(n).len() >= 2,
        forall|i: int| 0 <= i < digits(n).len() ==> digit_value(#[trigger] digits(n)[i]) >= 0,
    decreases n,
{
    if n >= 10 {
        lemma_digits_are_digits(n / 10);
        let shorter = digits(n / 10);
        assert forall|i: int| 0 <= i < digits(n).len() implies digit_value(
            #[trigger] digits(n)[i],
        ) >= 0 by {
            if i < shorter.len() {
                assert(digits(n)[i] == shorter[i]);
            }
        }
    }
}

/// Two natural numbers with the same digits are the same.
pub proof fn lemma_digits_injective(a: nat, b: nat)
    requires
        digits(a) == digits(b),
    ensures
        a == b,
    decreases a,
{
    lemma_digits_are_digits(a);
    lemma_digits_are_digits(b);
    if a < 10 {
        if b < 10 {
            assert(digits(a)[0] == digits(b)[0]);
            assert(digit_value(digit(a as int)) == a);
            assert(digit_value(digit(b as int)) == b);
        }
    } else if b >= 10 {
        let (da, db) = (digits(a / 10), digits(b / 10));
        assert(digits(a).drop_last() =~= da);
        assert(digits(b).drop_last() =~= db);
        lemma_digits_injective(a / 10, b / 10);
        assert(digits(a).last() == digit((a % 10) as int));
        assert(digits(b).last() == digit((b % 10) as int));
        assert(digit_value(digit((a % 10) as int)) == a % 10);
        assert(digit_value(digit((b % 10) as int)) == b % 10);
    }
}

/// The decimal text of an integer is not empty and unbroken.
pub proof fn lemma_decimal_unbroken(i: int)
    ensures
        decimal(i).len() >= 1,
        unbroken(decimal(i)),
{
    let text = decimal(i);
    if i < 0 {
        lemma_digits_are_digits((-i) as nat);
        let tail = digits((-i) as nat);
        assert forall|k: int| 0 <= k < text.len() implies #[trigger] text[k] != ' ' && text[k]
            != ';' by {
            if k > 0 {
                assert(text[k] == tail[k - 1]);
                assert(digit_value(tail[k - 1]) >= 0);
            }
        }
    } else {
        lemma_digits_are_digits(i as nat);
        assert forall|k: int| 0 <= k < text.len() implies #[trigger] text[k] != ' ' && text[k]
            != ';' by {
            assert(digit_value(text[k]) >= 0);
        }
    }
}

/// Two integers with the same decimal text are the same.
pub proof fn lemma_decimal_injective(i: int, j: int)
    requires
        decimal(i) == decimal(j),
    ensures
        i == j,
{
    let (mi, mj) = (if i < 0 { (-i) as nat } else { i as nat }, if j < 0 { (-j) as nat } else { j as nat });
    lemma_digits_are_digits(mi);
    lemma_digits_are_digits(mj);
    assert(decimal(i)[0] == decimal(j)[0]);
    if i < 0 {
        assert(decimal(i)[0] == '-');
        if j >= 0 {
            assert(digit_value(decimal(j)[0]) >= 0);
        } else {
            assert(decimal(i).subrange(1, decimal(i).len() as int) =~= digits(mi));
            assert(decimal(j).subrange(1, decimal(j).len() as int) =~= digits(mj));
            lemma_digits_injective(mi, mj);
        }
    } else {
        assert(digit_value(decimal(i)[0]) >= 0);
        if j >= 0 {
            lemma_digits_injective(mi, mj);
        } else {
            assert(decimal(j)[0] == '-');
        }
    }
}

/// The text of the last entry of a sequence, and what stands before it.
proof fn lemma_raw_seq_unfold(s: Seq<i8>)
    requires
        s.len() > 0,
    ensures
        ({
            let head = raw_seq(s.drop_last());
            let token = decimal(s.last() as int);
            &&& raw_seq(s).len() == head.len() + token.len() + 1
            &&& raw_seq(s).subrange(0, head.len() as int) == head
            &&& raw_seq(s).subrange(head.len() as int, (head.len() + token.len()) as int) == token
            &&& raw_seq(s)[(head.len() + token.len()) as int] == ' '
        }),
{
    reveal_strlit(" ");
    let head = raw_seq(s.drop_last());
    let token = decimal(s.last() as int);
    assert(" "@ =~= seq![' ']);
    assert(raw_seq(s) == head + token + " "@);
    assert(raw_seq(s).subrange(0, head.len() as int) =~= head);
    assert(raw_seq(s).subrange(head.len() as int, (head.len() + token.len()) as int) =~= token);
}

/// The text of a sequence holds no semicolon and, where the sequence is not
/// empty, ends with a space.
pub proof fn lemma_raw_seq_shape(s: Seq<i8>)
    ensures
        without_semicolon(raw_seq(s)),
        s.len() == 0 ==> raw_seq(s).len() == 0,
        s.len() > 0 ==> raw_seq(s).len() >= 2 && raw_seq(s).last() == ' ',
    decreases s.len(),
{
    if s.len() > 0 {
        lemma_raw_seq_shape(s.drop_last());
        lemma_raw_seq_unfold(s);
        lemma_decimal_unbroken(s.last() as int);
        let head = raw_seq(s.drop_last());
        let token = decimal(s.last() as int);
        let text = raw_seq(s);
        assert forall|i: int| 0 <= i < text.len() implies #[trigger] text[i] != ';' by {
            if i < head.len() {
                assert(text.subrange(0, head.len() as int)[i] == text[i]);
            } else if i < head.len() + token.len() {
                assert(text.subrange(head.len() as int, (head.len() + token.len()) as int)[i - head.len()]
                    == text[i]);
                assert(token[i - head.len()] != ';');
            }
        }
    }
}

/// Two sequences with the same text are the same.
pub proof fn lemma_raw_seq_injective(s1: Seq<i8>, s2: Seq<i8>)
    requires
        raw_seq(s1) == raw_seq(s2),
    ensures
        s1 == s2,
    decreases s1.len(),
{
    lemma_raw_seq_shape(s1);
    lemma_raw_seq_shape(s2);
    if s1.len() == 0 || s2.len() == 0 {
        assert(s1 =~= s2);
    } else {
        let text = raw_seq(s1);
        let (head1, head2) = (raw_seq(s1.drop_last()), raw_seq(s2.drop_last()));
        let (token1, token2) = (decimal(s1.last() as int), decimal(s2.last() as int));
        lemma_raw_seq_unfold(s1);
        lemma_raw_seq_unfold(s2);
        lemma_raw_seq_shape(s1.drop_last());
        lemma_raw_seq_shape(s2.drop_last());
        lemma_decimal_unbroken(s1.last() as int);
        lemma_decimal_unbroken(s2.last() as int);
        let (h1, h2) = (head1.len() as int, head2.len() as int);
        let (t1, t2) = (token1.len() as int, token2.len() as int);
        assert(h1 + t1 == h2 + t2);
        if h1 > h2 {
            // the space that ends the first head stands inside the second token
            assert(s1.drop_last().len() > 0);
            assert(head1.last() == ' ');
            assert(text.subrange(0, h1)[h1 - 1] == text[h1 - 1]);
            assert(text.subrange(h2, h2 + t2)[h1 - 1 - h2] == text[h1 - 1]);
            assert(token2[h1 - 1 - h2] != ' ');
        }
        if h2 > h1 {
            assert(s2.drop_last().len() > 0);
            assert(head2.last() == ' ');
            assert(text.subrange(0, h2)[h2 - 1] == text[h2 - 1]);
            assert(text.subrange(h1, h1 + t1)[h2 - 1 - h1] == text[h2 - 1]);
            assert(token1[h2 - 1 - h1] != ' ');
        }
        assert(h1 == h2);
        assert(head1 == head2);
        assert(token1 == token2);
        lemma_raw_seq_injective(s1.drop_last(), s2.drop_last());
        lemma_decimal_injective(s1.last() as int, s2.last() as int);
        assert(s1 =~= s1.drop_last().push(s1.last()));
        assert(s2 =~= s2.drop_last().push(s2.last()));
    }
}

/// Where two texts without semicolon, each followed by `; ` and more text,
/// give the same text, they are the same and so is what follows.
proof fn lemma_split(x1: Seq<char>, r1: Seq<char>, x2: Seq<char>, r2: Seq<char>)
    requires
        without_semicolon(x1),
        without_semicolon(x2),
        x1 + "; "@ + r1 == x2 + "; "@ + r2,
    ensures
        x1 == x2,
        r1 == r2,
{
    reveal_strlit("; ");
    let sep = "; "@;
    assert(sep =~= seq![';', ' ']);
    let text = x1 + sep + r1;
    let other = x2 + sep + r2;
    let (n1, n2) = (x1.len() as int, x2.len() as int);
    assert(text[n1] == ';');
    assert(other[n2] == ';');
    if n1 < n2 {
        assert(other[n1] == x2[n1]);
    }
    if n2 < n1 {
        assert(text[n2] == x1[n2]);
    }
    assert(n1 == n2);
    assert(x1 =~= text.subrange(0, n1));
    assert(x2 =~= other.subrange(0, n2));
    assert(r1 =~= text.subrange(n1 + 2, text.len() as int));
    assert(r2 =~= other.subrange(n2 + 2, other.len() as int));
}

proof fn lemma_concat_assoc(a: Seq<char>, b: Seq<char>, c: Seq<char>)
    ensures
        (a + b) + c == a + (b + c),
{
    assert((a + b) + c =~= a + (b + c));
}

proof fn lemma_text_parts(a: Seq<char>, b: Seq<char>, c: Seq<char>, d: Seq<char>, sep: Seq<char>)
    ensures
        a + sep + b + sep + c + sep + d == (a + sep) + ((b + sep) + ((c + sep) + d)),
{
    let (first, second, third) = (a + sep, b + sep, c + sep);
    lemma_concat_assoc(first, b, sep);
    lemma_concat_assoc(first + second, c, sep);
    lemma_concat_assoc(first + second, third, d);
    lemma_concat_assoc(first, second, third + d);
}

/// Two quadruples with the same text are the same: the text is a faithful
/// encoding of the four sequences.
pub proof fn lemma_raw_text_injective(x: Seq<Row>, y: Seq<Row>)
    requires
        raw_text(x) == raw_text(y),
    ensures
        x == y,
{
    let sep = "; "@;
    let (xa, ya) = (raw_seq(column(x, SequenceTag::X)), raw_seq(column(y, SequenceTag::X)));
    let (xb, yb) = (raw_seq(column(x, SequenceTag::Y)), raw_seq(column(y, SequenceTag::Y)));
    let (xc, yc) = (raw_seq(column(x, SequenceTag::Z)), raw_seq(column(y, SequenceTag::Z)));
    let (xd, yd) = (raw_seq(column(x, SequenceTag::W)), raw_seq(column(y, SequenceTag::W)));
    lemma_raw_seq_shape(column(x, SequenceTag::X));
    lemma_raw_seq_shape(column(y, SequenceTag::X));
    lemma_raw_seq_shape(column(x, SequenceTag::Y));
    lemma_raw_seq_shape(column(y, SequenceTag::Y));
    lemma_raw_seq_shape(column(x, SequenceTag::Z));
    lemma_raw_seq_shape(column(y, SequenceTag::Z));
    lemma_text_parts(xa, xb, xc, xd, sep);
    lemma_text_parts(ya, yb, yc, yd, sep);
    lemma_split(xa, (xb + sep) + ((xc + sep) + xd), ya, (yb + sep) + ((yc + sep) + yd));
    lemma_split(xb, (xc + sep) + xd, yb, (yc + sep) + yd);
    lemma_split(xc, xd, yc, yd);
    lemma_raw_seq_injective(column(x, SequenceTag::X), column(y, SequenceTag::X));
    lemma_raw_seq_injective(column(x, SequenceTag::Y), column(y, SequenceTag::Y));
    lemma_raw_seq_injective(column(x, SequenceTag::Z), column(y, SequenceTag::Z));
    lemma_raw_seq_injective(column(x, SequenceTag::W), column(y, SequenceTag::W));
    lemma_columns_tell(x, y);
}

} // verus!
