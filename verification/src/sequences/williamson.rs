//! The quadruple of sequences that the search fills in and the equivalences
//! transform.

use vstd::prelude::*;
use vstd::string::*;
use crate::sequences::decimal::{decimal, push_decimal};
use crate::sequences::symmetries::SequenceType;

verus! {

/// The values that the four sequences A, B, C, D hold at one index.
pub type Row = (i8, i8, i8, i8);

/// Names one of the four sequences of a quadruple: X is A, Y is B, Z is C and
/// W is D.
#[derive(Clone, Copy, Debug, PartialEq, Eq, Hash, Structural)]
pub enum SequenceTag {
    X,
    Y,
    Z,
    W,
}

impl SequenceTag {
    /// The place of the named sequence among the four, from 0 for A to 3 for D.
    pub open spec fn position(self) -> int {
        match self {
            SequenceTag::X => 0,
            SequenceTag::Y => 1,
            SequenceTag::Z => 2,
            SequenceTag::W => 3,
        }
    }
}

/// The letter under which the named sequence is known.
pub open spec fn tag_letter(tag: SequenceTag) -> Seq<char> {
    match tag {
        SequenceTag::X => seq!['A'],
        SequenceTag::Y => seq!['B'],
        SequenceTag::Z => seq!['C'],
        SequenceTag::W => seq!['D'],
    }
}

/// Renders the letter under which the named sequence is known.
pub fn tag_to_string(tag: &SequenceTag) -> (res: String)
    ensures
        res@ == tag_letter(*tag),
{
    proof {
        reveal_strlit("A");
        reveal_strlit("B");
        reveal_strlit("C");
        reveal_strlit("D");
    }
    let letter = match tag {
        SequenceTag::X => "A",
        SequenceTag::Y => "B",
        SequenceTag::Z => "C",
        SequenceTag::W => "D",
    };
    assert(letter@ =~= tag_letter(*tag));
    String::from_str(letter)
}

/// The value that `row` holds for the named sequence.
pub open spec fn entry(row: Row, tag: SequenceTag) -> i8 {
    match tag {
        SequenceTag::X => row.0,
        SequenceTag::Y => row.1,
        SequenceTag::Z => row.2,
        SequenceTag::W => row.3,
    }
}

/// `row` with the value of the named sequence replaced by `value`.
pub open spec fn with_entry(row: Row, tag: SequenceTag, value: i8) -> Row {
    match tag {
        SequenceTag::X => (value, row.1, row.2, row.3),
        SequenceTag::Y => (row.0, value, row.2, row.3),
        SequenceTag::Z => (row.0, row.1, value, row.3),
        SequenceTag::W => (row.0, row.1, row.2, value),
    }
}

/// The named sequence of the quadruple `q`.
pub open spec fn column(q: Seq<Row>, tag: SequenceTag) -> Seq<i8> {
    Seq::new(q.len(), |i: int| entry(q[i], tag))
}

/// The quadruple `q` with the named sequence replaced by `s`.
pub open spec fn with_column(q: Seq<Row>, tag: SequenceTag, s: Seq<i8>) -> Seq<Row> {
    Seq::new(q.len(), |i: int| with_entry(q[i], tag, s[i]))
}

/// The quadruple whose sequences are `a`, `b`, `c` and `d`.
pub open spec fn rows_of(a: Seq<i8>, b: Seq<i8>, c: Seq<i8>, d: Seq<i8>) -> Seq<Row> {
    Seq::new(a.len(), |i: int| (a[i], b[i], c[i], d[i]))
}

/// Whether the four values of `row` belong to the alphabet of `seqtype`.
pub open spec fn legal_row(row: Row, seqtype: SequenceType) -> bool {
    &&& seqtype.symbol(row.0)
    &&& seqtype.symbol(row.1)
    &&& seqtype.symbol(row.2)
    &&& seqtype.symbol(row.3)
}

/// Whether every entry of the quadruple `q` belongs to the alphabet of
/// `seqtype`.
pub open spec fn legal(q: Seq<Row>, seqtype: SequenceType) -> bool {
    forall|i: int| 0 <= i < q.len() ==> legal_row(#[trigger] q[i], seqtype)
}

/// The row of four symbols that stands at place `i` when the rows over
/// `symbols` are listed in lexicographic order.
pub open spec fn row_at(symbols: Seq<i8>, i: int) -> Row {
    let k = symbols.len() as int;
    (symbols[i / (k * k * k)], symbols[(i / (k * k)) % k], symbols[(i / k) % k], symbols[i % k])
}

/// All rows over the alphabet of `seqtype`, in lexicographic order.
pub open spec fn all_rows(seqtype: SequenceType) -> Seq<Row> {
    let k = seqtype.symbols().len();
    Seq::new(k * k * k * k, |i: int| row_at(seqtype.symbols(), i))
}

/// How many of the four values of `row` are negative.
pub open spec fn negatives(row: Row) -> int {
    (if row.0 < 0 { 1int } else { 0int }) + (if row.1 < 0 { 1int } else { 0int }) + (if row.2 < 0 {
        1int
    } else {
        0int
    }) + (if row.3 < 0 { 1int } else { 0int })
}

/// The test that a row passes where an even number of its values are
/// negative, so that their product is positive.
pub open spec fn even_sign() -> spec_fn(Row) -> bool {
    |row: Row| negatives(row) % 2 == 0
}

/// The rows that may stand at one index of a quadruple of the kind
/// `seqtype`: those over its alphabet with an even number of negative
/// values, in lexicographic order.
pub open spec fn admissible_rows(seqtype: SequenceType) -> Seq<Row> {
    all_rows(seqtype).filter(even_sign())
}

/// The row that the search puts at index 0 where it fixes the first index.
pub open spec fn identity_row() -> Row {
    (1i8, 1i8, 1i8, 1i8)
}

/// Every row of `table` is legal for `seqtype`.
pub open spec fn legal_table(table: Seq<Row>, seqtype: SequenceType) -> bool {
    forall|j: int| 0 <= j < table.len() ==> legal_row(#[trigger] table[j], seqtype)
}

/// The alphabets hold 2 or 4 symbols; the products of their size are
/// spelled out here for the places of a row.
pub proof fn lemma_alphabet_size(seqtype: SequenceType)
    ensures
        ({
            let k = seqtype.symbols().len() as int;
            &&& k == 2 || k == 4
            &&& k == 2 ==> k * k == 4 && k * k * k == 8 && k * k * k * k == 16
            &&& k == 4 ==> k * k == 16 && k * k * k == 64 && k * k * k * k == 256
            &&& all_rows(seqtype).len() == k * k * k * k
            &&& forall|j: int| 0 <= j < k ==> seqtype.symbol(#[trigger] seqtype.symbols()[j])
        }),
{
    let k = seqtype.symbols().len() as int;
    match seqtype {
        SequenceType::WilliamsonType => {
            assert(k == 2);
        },
        SequenceType::QuaternionType => {
            assert(k == 4);
        },
    }
    assert(k == 2 ==> k * k == 4 && k * k * k == 8 && k * k * k * k == 16) by (nonlinear_arith);
    assert(k == 4 ==> k * k == 16 && k * k * k == 64 && k * k * k * k == 256) by (nonlinear_arith);
}

proof fn lemma_row_at_legal(seqtype: SequenceType, i: int)
    requires
        0 <= i < all_rows(seqtype).len(),
    ensures
        legal_row(row_at(seqtype.symbols(), i), seqtype),
{
    let symbols = seqtype.symbols();
    let k = symbols.len() as int;
    lemma_alphabet_size(seqtype);
    let (square, cube) = (k * k, k * k * k);
    if k == 2 {
        assert(square == 4 && cube == 8);
        assert(0 <= i / cube < 2 && 0 <= (i / square) % k < 2 && 0 <= (i / k) % k < 2 && 0 <= i % k
            < 2);
    } else {
        assert(square == 16 && cube == 64);
        assert(0 <= i / cube < 4 && 0 <= (i / square) % k < 4 && 0 <= (i / k) % k < 4 && 0 <= i % k
            < 4);
    }
    assert(seqtype.symbol(symbols[i / cube]));
    assert(seqtype.symbol(symbols[(i / square) % k]));
    assert(seqtype.symbol(symbols[(i / k) % k]));
    assert(seqtype.symbol(symbols[i % k]));
}

/// The admissible rows are legal.
pub proof fn lemma_admissible_legal(seqtype: SequenceType)
    ensures
        legal_table(admissible_rows(seqtype), seqtype),
{
    let table = admissible_rows(seqtype);
    assert forall|j: int| 0 <= j < table.len() implies legal_row(#[trigger] table[j], seqtype) by {
        assert(table.contains(table[j]));
        all_rows(seqtype).lemma_filter_contains_rev(even_sign(), table[j]);
        let i = choose|i: int| 0 <= i < all_rows(seqtype).len() && all_rows(seqtype)[i] == table[j];
        lemma_row_at_legal(seqtype, i);
    }
}

/// How many of the first `i` rows over the alphabet of `seqtype` are
/// admissible. The rows come in groups that differ in their last value
/// only; in each group the admissible rows are those with the last value
/// positive where the other three hold an even number of negative values,
/// and those with the last value negative where they do not.
spec fn admissible_before(seqtype: SequenceType, i: int) -> int {
    let k = seqtype.symbols().len() as int;
    let half = k / 2;
    let r = i % k;
    let others = negatives_before_last(row_at(seqtype.symbols(), i - r));
    (i / k) * half + if others % 2 == 0 {
        if r > half {
            r - half
        } else {
            0
        }
    } else {
        if r < half {
            r
        } else {
            half
        }
    }
}

/// How many of the values of `row` but the last are negative.
spec fn negatives_before_last(row: Row) -> int {
    (if row.0 < 0 { 1int } else { 0int }) + (if row.1 < 0 { 1int } else { 0int }) + (if row.2 < 0 {
        1int
    } else {
        0int
    })
}

proof fn lemma_next_sign_row(j: int)
    requires
        0 <= j < 16,
    ensures
        admissible_before(SequenceType::WilliamsonType, j + 1) == admissible_before(
            SequenceType::WilliamsonType,
            j,
        ) + if negatives(row_at(SequenceType::WilliamsonType.symbols(), j)) % 2 == 0 {
            1int
        } else {
            0int
        },
{
    let seqtype = SequenceType::WilliamsonType;
    let symbols = seqtype.symbols();
    assert(symbols.len() == 2 && symbols[0] == -1 && symbols[1] == 1);
    let r = j % 2;
    let row = row_at(symbols, j);
    let first = row_at(symbols, j - r);
    let next = row_at(symbols, j + 1 - (j + 1) % 2);
    assert(2 * 2 == 4 && 2 * 2 * 2 == 8);
    assert((j - r) / 8 == j / 8 && ((j - r) / 4) % 2 == (j / 4) % 2 && ((j - r) / 2) % 2 == (j / 2)
        % 2);
    assert(first.0 == row.0 && first.1 == row.1 && first.2 == row.2);
    assert(row.3 == symbols[r]);
    let others = negatives_before_last(row);
    assert(negatives(row) == others + if r == 0 { 1int } else { 0int });
    assert(negatives_before_last(first) == others);
    assert(admissible_before(seqtype, j) == (j / 2) * 1 + if others % 2 == 0 {
        0int
    } else if r < 1 {
        r
    } else {
        1int
    });
    if r == 1 {
        assert((j + 1) % 2 == 0 && (j + 1) / 2 == j / 2 + 1);
        assert(admissible_before(seqtype, j + 1) == (j / 2 + 1) * 1 + 0);
    } else {
        assert((j + 1) % 2 == 1 && (j + 1) / 2 == j / 2);
        assert(next == row);
        assert(admissible_before(seqtype, j + 1) == (j / 2) * 1 + if others % 2 == 0 {
            0int
        } else {
            1int
        });
    }
}

proof fn lemma_next_wide_row(j: int)
    requires
        0 <= j < 256,
    ensures
        admissible_before(SequenceType::QuaternionType, j + 1) == admissible_before(
            SequenceType::QuaternionType,
            j,
        ) + if negatives(row_at(SequenceType::QuaternionType.symbols(), j)) % 2 == 0 {
            1int
        } else {
            0int
        },
{
    let seqtype = SequenceType::QuaternionType;
    let symbols = seqtype.symbols();
    assert(symbols.len() == 4 && symbols[0] == -2 && symbols[1] == -1 && symbols[2] == 1
        && symbols[3] == 2);
    let r = j % 4;
    let row = row_at(symbols, j);
    let first = row_at(symbols, j - r);
    let next = row_at(symbols, j + 1 - (j + 1) % 4);
    assert(4 * 4 == 16 && 4 * 4 * 4 == 64);
    assert((j - r) / 64 == j / 64 && ((j - r) / 16) % 4 == (j / 16) % 4 && ((j - r) / 4) % 4 == (j
        / 4) % 4);
    assert(first.0 == row.0 && first.1 == row.1 && first.2 == row.2);
    assert(row.3 == symbols[r]);
    let others = negatives_before_last(row);
    assert(negatives(row) == others + if r < 2 { 1int } else { 0int });
    assert(negatives_before_last(first) == others);
    assert(admissible_before(seqtype, j) == (j / 4) * 2 + if others % 2 == 0 {
        if r > 2 {
            r - 2
        } else {
            0int
        }
    } else if r < 2 {
        r
    } else {
        2int
    });
    if r == 3 {
        assert((j + 1) % 4 == 0 && (j + 1) / 4 == j / 4 + 1);
        assert(admissible_before(seqtype, j + 1) == (j / 4 + 1) * 2 + 0);
    } else {
        assert((j + 1) % 4 == r + 1 && (j + 1) / 4 == j / 4);
        assert(next == first);
        assert(admissible_before(seqtype, j + 1) == (j / 4) * 2 + if others % 2 == 0 {
            if r + 1 > 2 {
                r + 1 - 2
            } else {
                0int
            }
        } else if r + 1 < 2 {
            r + 1
        } else {
            2int
        });
    }
}

proof fn lemma_filter_next(rows: Seq<Row>, j: int)
    requires
        0 <= j < rows.len(),
    ensures
        rows.take(j + 1).filter(even_sign()).len() == rows.take(j).filter(even_sign()).len()
            + if negatives(rows[j]) % 2 == 0 {
            1int
        } else {
            0int
        },
        rows.take(0).filter(even_sign()).len() == 0,
{
    reveal(Seq::filter);
    assert(rows.take(j + 1).drop_last() =~= rows.take(j));
    assert(rows.take(j + 1).last() == rows[j]);
    assert(rows.take(0).len() == 0);
}

proof fn lemma_admissible_before(seqtype: SequenceType, i: int)
    requires
        0 <= i <= all_rows(seqtype).len(),
    ensures
        all_rows(seqtype).take(i).filter(even_sign()).len() == admissible_before(seqtype, i),
    decreases i,
{
    lemma_alphabet_size(seqtype);
    let rows = all_rows(seqtype);
    if i == 0 {
        if rows.len() > 0 {
            lemma_filter_next(rows, 0);
        }
        assert(admissible_before(seqtype, 0) == 0) by {
            assert(0int % 2 == 0 && 0int % 4 == 0 && 0int / 2 == 0 && 0int / 4 == 0);
            assert(0 * 1 == 0 && 0 * 2 == 0);
        }
    } else {
        let j = i - 1;
        lemma_admissible_before(seqtype, j);
        lemma_filter_next(rows, j);
        assert(rows[j] == row_at(seqtype.symbols(), j));
        match seqtype {
            SequenceType::WilliamsonType => {
                lemma_next_sign_row(j);
            },
            SequenceType::QuaternionType => {
                lemma_next_wide_row(j);
            },
        }
    }
}

/// The table holds 8 rows for sequences of signs and 128 rows for
/// sequences over the four symbols.
pub proof fn lemma_table_size(seqtype: SequenceType)
    ensures
        admissible_rows(seqtype).len() == match seqtype {
            SequenceType::WilliamsonType => 8nat,
            SequenceType::QuaternionType => 128nat,
        },
{
    lemma_alphabet_size(seqtype);
    let rows = all_rows(seqtype);
    lemma_admissible_before(seqtype, rows.len() as int);
    assert(rows.take(rows.len() as int) =~= rows);
    match seqtype {
        SequenceType::WilliamsonType => {
            assert(rows.len() == 16);
            assert(admissible_before(seqtype, 16) == 8);
        },
        SequenceType::QuaternionType => {
            assert(rows.len() == 256);
            assert(admissible_before(seqtype, 256) == 128);
        },
    }
}

/// The table of the rows that may stand at one index of a quadruple of the
/// kind `seqtype`.
pub fn quadruplets(seqtype: SequenceType) -> (res: Vec<Row>)
    ensures
        res@ == admissible_rows(seqtype),
        res@.len() == match seqtype {
            SequenceType::WilliamsonType => 8nat,
            SequenceType::QuaternionType => 128nat,
        },
{
    proof {
        lemma_table_size(seqtype);
    }
    let symbols = seqtype.alphabet();
    let k = symbols.len();
    proof {
        lemma_alphabet_size(seqtype);
    }
    let square = k * k;
    let cube = square * k;
    let total = cube * k;
    let mut res: Vec<Row> = Vec::new();
    let mut i: usize = 0;
    proof {
        reveal(Seq::filter);
        assert(all_rows(seqtype).take(0).len() == 0);
    }
    while i < total
        invariant
            i <= total,
            symbols@ == seqtype.symbols(),
            k == symbols@.len(),
            k == 2 || k == 4,
            square == k * k,
            cube == k * k * k,
            total == all_rows(seqtype).len(),
            k == 2 ==> square == 4 && cube == 8 && total == 16,
            k == 4 ==> square == 16 && cube == 64 && total == 256,
            res@ == all_rows(seqtype).take(i as int).filter(even_sign()),
        decreases total - i,
    {
        proof {
            if k == 2 {
                assert(i / cube < 2 && (i / square) % k < 2 && (i / k) % k < 2 && i % k < 2);
            } else {
                assert(i / cube < 4 && (i / square) % k < 4 && (i / k) % k < 4 && i % k < 4);
            }
        }
        let row = (symbols[i / cube], symbols[(i / square) % k], symbols[(i / k) % k], symbols[i % k]);
        assert(row == row_at(seqtype.symbols(), i as int));
        assert(row == all_rows(seqtype)[i as int]);
        let mut count: u8 = 0;
        if row.0 < 0 {
            count += 1;
        }
        if row.1 < 0 {
            count += 1;
        }
        if row.2 < 0 {
            count += 1;
        }
        if row.3 < 0 {
            count += 1;
        }
        proof {
            reveal(Seq::filter);
            assert(all_rows(seqtype).take(i + 1).drop_last() =~= all_rows(seqtype).take(i as int));
            assert(count == negatives(row));
        }
        if count % 2 == 0 {
            res.push(row);
        }
        i += 1;
    }
    assert(all_rows(seqtype).take(i as int) =~= all_rows(seqtype));
    res
}

/// The text of a sequence: each entry in base ten, followed by a space.
pub open spec fn raw_seq(s: Seq<i8>) -> Seq<char>
    decreases s.len(),
{
    if s.len() == 0 {
        Seq::<char>::empty()
    } else {
        raw_seq(s.drop_last()) + decimal(s.last() as int) + " "@
    }
}

/// The text of a quadruple: the texts of A, B, C and D, with `; ` between
/// two of them.
pub open spec fn raw_text(q: Seq<Row>) -> Seq<char> {
    raw_seq(column(q, SequenceTag::X)) + "; "@ + raw_seq(column(q, SequenceTag::Y)) + "; "@
        + raw_seq(column(q, SequenceTag::Z)) + "; "@ + raw_seq(column(q, SequenceTag::W))
}

/// The texts of the quadruples of `list`, each followed by a line feed.
pub open spec fn raw_lines(list: Seq<Seq<Row>>) -> Seq<char>
    decreases list.len(),
{
    if list.len() == 0 {
        Seq::<char>::empty()
    } else {
        raw_lines(list.drop_last()) + raw_text(list.last()) + "\n"@
    }
}

/// Appends the text of a sequence to `out`.
fn push_raw_seq(out: &mut String, seq: &Vec<i8>)
    ensures
        final(out)@ == old(out)@ + raw_seq(seq@),
{
    let mut index: usize = 0;
    assert(seq@.take(0).len() == 0);
    assert(out@ =~= old(out)@ + raw_seq(seq@.take(0)));
    while index < seq.len()
        invariant
            index <= seq@.len(),
            out@ == old(out)@ + raw_seq(seq@.take(index as int)),
        decreases seq@.len() - index,
    {
        let ghost before = out@;
        push_decimal(out, seq[index] as i128);
        out.append(" ");
        proof {
            assert(seq@.take(index + 1).drop_last() =~= seq@.take(index as int));
            assert(out@ =~= old(out)@ + raw_seq(seq@.take(index + 1)));
        }
        index += 1;
    }
    assert(seq@.take(index as int) =~= seq@);
}

/// Two quadruples with the same four sequences are the same.
pub proof fn lemma_columns_tell(x: Seq<Row>, y: Seq<Row>)
    requires
        column(x, SequenceTag::X) == column(y, SequenceTag::X),
        column(x, SequenceTag::Y) == column(y, SequenceTag::Y),
        column(x, SequenceTag::Z) == column(y, SequenceTag::Z),
        column(x, SequenceTag::W) == column(y, SequenceTag::W),
    ensures
        x == y,
{
    assert(column(x, SequenceTag::X).len() == x.len());
    assert(column(y, SequenceTag::X).len() == y.len());
    assert forall|i: int| 0 <= i < x.len() implies x[i] == y[i] by {
        assert(column(x, SequenceTag::X)[i] == x[i].0 && column(y, SequenceTag::X)[i] == y[i].0);
        assert(column(x, SequenceTag::Y)[i] == x[i].1 && column(y, SequenceTag::Y)[i] == y[i].1);
        assert(column(x, SequenceTag::Z)[i] == x[i].2 && column(y, SequenceTag::Z)[i] == y[i].2);
        assert(column(x, SequenceTag::W)[i] == x[i].3 && column(y, SequenceTag::W)[i] == y[i].3);
        assert(x[i] == (x[i].0, x[i].1, x[i].2, x[i].3));
        assert(y[i] == (y[i].0, y[i].1, y[i].2, y[i].3));
    }
    assert(x =~= y);
}

/// The views of the quadruples of `list`, in order.
pub open spec fn views(list: Seq<QuadSeq>) -> Seq<Seq<Row>> {
    Seq::new(list.len(), |i: int| list[i]@)
}

/// Four sequences A, B, C, D of one length. It is held as the sequence of the
/// rows of their values, index by index, so that the four lengths cannot
/// differ.
#[derive(Debug, PartialEq, Eq, Hash)]
pub struct QuadSeq {
    rows: Vec<Row>,
}

impl View for QuadSeq {
    type V = Seq<Row>;

    closed spec fn view(&self) -> Seq<Row> {
        self.rows@
    }
}

impl Clone for QuadSeq {
    fn clone(&self) -> (res: Self)
        ensures
            res@ == self@,
    {
        let mut rows: Vec<Row> = Vec::new();
        let mut index: usize = 0;
        while index < self.rows.len()
            invariant
                index <= self.rows.len(),
                rows@ == self.rows@.take(index as int),
            decreases self.rows.len() - index,
        {
            rows.push(self.rows[index]);
            index += 1;
        }
        assert(self.rows@.take(index as int) == self.rows@);
        QuadSeq { rows }
    }
}

impl QuadSeq {
    /// A quadruple of sequences of length `size`, every entry 0.
    pub fn new(size: usize) -> (res: QuadSeq)
        ensures
            res@ == Seq::new(size as nat, |i: int| (0i8, 0i8, 0i8, 0i8)),
    {
        let mut rows: Vec<Row> = Vec::new();
        let mut index: usize = 0;
        while index < size
            invariant
                index <= size,
                rows@ == Seq::new(index as nat, |i: int| (0i8, 0i8, 0i8, 0i8)),
            decreases size - index,
        {
            rows.push((0i8, 0i8, 0i8, 0i8));
            index += 1;
        }
        QuadSeq { rows }
    }

    /// The common length of the four sequences.
    pub fn size(&self) -> (res: usize)
        ensures
            res == self@.len(),
    {
        self.rows.len()
    }

    /// The values of the four sequences at `index`.
    pub fn values(&self, index: usize) -> (res: Row)
        requires
            index < self@.len(),
        ensures
            res == self@[index as int],
    {
        self.rows[index]
    }

    /// Sets the values of the four sequences at `index`.
    pub fn set_sequence_value(&mut self, value: &Row, index: usize)
        requires
            index < old(self)@.len(),
        ensures
            final(self)@ == old(self)@.update(index as int, *value),
    {
        self.rows.set(index, *value);
    }

    /// Sets the entry of the named sequence at `index`.
    pub fn set_single_value(&mut self, value: i8, tag: &SequenceTag, index: usize)
        requires
            index < old(self)@.len(),
        ensures
            final(self)@ == old(self)@.update(
                index as int,
                with_entry(old(self)@[index as int], *tag, value),
            ),
    {
        let row = self.rows[index];
        let changed = match tag {
            SequenceTag::X => (value, row.1, row.2, row.3),
            SequenceTag::Y => (row.0, value, row.2, row.3),
            SequenceTag::Z => (row.0, row.1, value, row.3),
            SequenceTag::W => (row.0, row.1, row.2, value),
        };
        self.rows.set(index, changed);
    }

    /// Replaces the named sequence by `seq`.
    pub fn set_sequence(&mut self, seq: &Vec<i8>, tag: &SequenceTag)
        requires
            seq@.len() == old(self)@.len(),
        ensures
            final(self)@ == with_column(old(self)@, *tag, seq@),
    {
        let size = self.rows.len();
        let mut index: usize = 0;
        while index < size
            invariant
                index <= size,
                size == seq@.len(),
                self@.len() == size,
                old(self)@.len() == size,
                forall|i: int| 0 <= i < index ==> self@[i] == with_entry(old(self)@[i], *tag, seq@[i]),
                forall|i: int| index <= i < size ==> self@[i] == old(self)@[i],
            decreases size - index,
        {
            self.set_single_value(seq[index], tag, index);
            index += 1;
        }
        assert(self@ =~= with_column(old(self)@, *tag, seq@));
    }

    /// Replaces all four sequences.
    pub fn set_all_values(&mut self, quad: (&Vec<i8>, &Vec<i8>, &Vec<i8>, &Vec<i8>))
        requires
            quad.0@.len() == old(self)@.len(),
            quad.1@.len() == old(self)@.len(),
            quad.2@.len() == old(self)@.len(),
            quad.3@.len() == old(self)@.len(),
        ensures
            final(self)@ == rows_of(quad.0@, quad.1@, quad.2@, quad.3@),
    {
        let size = self.rows.len();
        let mut index: usize = 0;
        while index < size
            invariant
                index <= size,
                self@.len() == size,
                quad.0@.len() == size,
                quad.1@.len() == size,
                quad.2@.len() == size,
                quad.3@.len() == size,
                forall|i: int| 0 <= i < index ==> self@[i] == (quad.0@[i], quad.1@[i], quad.2@[i], quad.3@[i]),
            decreases size - index,
        {
            let row = (quad.0[index], quad.1[index], quad.2[index], quad.3[index]);
            self.set_sequence_value(&row, index);
            index += 1;
        }
        assert(self@ =~= rows_of(quad.0@, quad.1@, quad.2@, quad.3@));
    }

    /// A copy of the named sequence.
    pub fn sequence(&self, tag: SequenceTag) -> (res: Vec<i8>)
        ensures
            res@ == column(self@, tag),
    {
        let mut res: Vec<i8> = Vec::new();
        let mut index: usize = 0;
        while index < self.rows.len()
            invariant
                index <= self.rows.len(),
                res@.len() == index,
                forall|i: int| 0 <= i < index ==> res@[i] == entry(self@[i], tag),
            decreases self.rows.len() - index,
        {
            let row = self.rows[index];
            let value = match tag {
                SequenceTag::X => row.0,
                SequenceTag::Y => row.1,
                SequenceTag::Z => row.2,
                SequenceTag::W => row.3,
            };
            res.push(value);
            index += 1;
        }
        assert(res@ =~= column(self@, tag));
        res
    }

    /// Copies of the four sequences A, B, C, D.
    pub fn sequences(&self) -> (res: (Vec<i8>, Vec<i8>, Vec<i8>, Vec<i8>))
        ensures
            res.0@ == column(self@, SequenceTag::X),
            res.1@ == column(self@, SequenceTag::Y),
            res.2@ == column(self@, SequenceTag::Z),
            res.3@ == column(self@, SequenceTag::W),
    {
        (
            self.sequence(SequenceTag::X),
            self.sequence(SequenceTag::Y),
            self.sequence(SequenceTag::Z),
            self.sequence(SequenceTag::W),
        )
    }

    /// The text of the quadruple.
    pub fn to_string_raw(&self) -> (res: String)
        ensures
            res@ == raw_text(self@),
    {
        let (a, b, c, d) = self.sequences();
        let mut res = String::new();
        push_raw_seq(&mut res, &a);
        res.append("; ");
        push_raw_seq(&mut res, &b);
        res.append("; ");
        push_raw_seq(&mut res, &c);
        res.append("; ");
        push_raw_seq(&mut res, &d);
        assert(res@ =~= raw_text(self@));
        res
    }

    /// Tests whether every entry belongs to the alphabet of `seqtype`.
    pub fn verify(&self, seqtype: SequenceType) -> (res: bool)
        ensures
            res == legal(self@, seqtype),
    {
        let mut index: usize = 0;
        while index < self.rows.len()
            invariant
                index <= self.rows.len(),
                forall|i: int| 0 <= i < index ==> legal_row(#[trigger] self@[i], seqtype),
            decreases self.rows.len() - index,
        {
            let row = self.rows[index];
            if !(seqtype.is_symbol(row.0) && seqtype.is_symbol(row.1) && seqtype.is_symbol(row.2)
                && seqtype.is_symbol(row.3)) {
                assert(!legal_row(self@[index as int], seqtype));
                return false;
            }
            index += 1;
        }
        true
    }
}

} // verus!
