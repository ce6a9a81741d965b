//! The kinds of object that a quadruple of sequences can stand for.

use vstd::prelude::*;
use crate::sequences::williamson::{Row, SequenceTag, entry};

verus! {

/// The kind of object that a quadruple of sequences stands for. It fixes the
/// alphabet of the entries and the equivalences under which quadruples are
/// identified.
#[derive(Clone, Copy, Debug, PartialEq, Eq, Hash, Structural)]
pub enum SequenceType {
    /// Sequences of signs.
    WilliamsonType,
    /// Sequences over the four symbols -2, -1, 1, 2.
    QuaternionType,
}

/// A way of turning a quadruple of sequences into others that stand for the
/// same object.
#[derive(Clone, Copy, Debug, PartialEq, Eq, Hash, Structural)]
pub enum Equivalence {
    /// Exchange two of the four sequences.
    Reorder,
    /// Exchange two sequences, then two sequences again.
    DoubleReorder,
    /// Shift one sequence cyclically by half its length, where this is even.
    UniformHalfShift,
    /// Shift the four sequences cyclically by the same offset.
    UniformShift,
    /// Read the four sequences backwards.
    Reverse,
    /// Negate one sequence.
    Negate,
    /// Negate two sequences.
    DoubleNegate,
    /// Negate every second entry of the four sequences.
    AlternatedNegation,
    /// Negate every second entry of the four sequences, where the length is
    /// even.
    EvenAlternatedNegation,
    /// Multiply the indices by an integer coprime to the length.
    Automorphism,
}

impl SequenceType {
    /// The equivalences that apply to this kind of object.
    pub open spec fn generators(self) -> Seq<Equivalence> {
        match self {
            SequenceType::WilliamsonType => seq![
                Equivalence::Reorder,
                Equivalence::UniformShift,
                Equivalence::Reverse,
                Equivalence::Negate,
                Equivalence::EvenAlternatedNegation,
                Equivalence::Automorphism,
            ],
            SequenceType::QuaternionType => seq![
                Equivalence::DoubleReorder,
                Equivalence::UniformHalfShift,
                Equivalence::UniformShift,
                Equivalence::Reverse,
                Equivalence::DoubleNegate,
                Equivalence::AlternatedNegation,
                Equivalence::Automorphism,
            ],
        }
    }

    /// The equivalences that apply to this kind of object.
    pub fn equivalences(&self) -> (res: Vec<Equivalence>)
        ensures
            res@ == self.generators(),
    {
        match self {
            SequenceType::WilliamsonType => vec![
                Equivalence::Reorder,
                Equivalence::UniformShift,
                Equivalence::Reverse,
                Equivalence::Negate,
                Equivalence::EvenAlternatedNegation,
                Equivalence::Automorphism,
            ],
            SequenceType::QuaternionType => vec![
                Equivalence::DoubleReorder,
                Equivalence::UniformHalfShift,
                Equivalence::UniformShift,
                Equivalence::Reverse,
                Equivalence::DoubleNegate,
                Equivalence::AlternatedNegation,
                Equivalence::Automorphism,
            ],
        }
    }

    /// Whether `value` belongs to the alphabet of this kind of object.
    pub open spec fn symbol(self, value: i8) -> bool {
        match self {
            SequenceType::WilliamsonType => value == 1 || value == -1,
            SequenceType::QuaternionType => value == 1 || value == -1 || value == 2 || value == -2,
        }
    }

    /// Tests whether `value` belongs to the alphabet of this kind of object.
    pub fn is_symbol(&self, value: i8) -> (res: bool)
        ensures
            res == self.symbol(value),
    {
        match self {
            SequenceType::WilliamsonType => value == 1 || value == -1,
            SequenceType::QuaternionType => value == 1 || value == -1 || value == 2 || value == -2,
        }
    }

    /// The alphabet of this kind of object, in increasing order.
    pub fn alphabet(&self) -> (res: Vec<i8>)
        ensures
            res@ == self.symbols(),
    {
        match self {
            SequenceType::WilliamsonType => vec![-1i8, 1i8],
            SequenceType::QuaternionType => vec![-2i8, -1i8, 1i8, 2i8],
        }
    }

    /// The alphabet as a sequence, in increasing order.
    pub open spec fn symbols(self) -> Seq<i8> {
        match self {
            SequenceType::WilliamsonType => seq![-1i8, 1i8],
            SequenceType::QuaternionType => seq![-2i8, -1i8, 1i8, 2i8],
        }
    }
}

/// A symmetry that the search can impose on the quadruples it visits:
/// the two named sequences are equal.
#[derive(Clone, Copy, Debug, PartialEq, Eq, Hash)]
pub struct Symmetry {
    pub first: SequenceTag,
    pub second: SequenceTag,
}

impl Symmetry {
    /// Whether a quadruple with the symmetry can hold `row` at an index.
    pub open spec fn admits(self, row: Row) -> bool {
        entry(row, self.first) == entry(row, self.second)
    }

    /// The test that the rows pass that the symmetry admits.
    pub open spec fn admitted(self) -> spec_fn(Row) -> bool {
        |row: Row| self.admits(row)
    }

    /// Tests whether a quadruple with the symmetry can hold `row` at an
    /// index.
    pub fn allows(&self, row: &Row) -> (res: bool)
        ensures
            res == self.admits(*row),
    {
        let first = match self.first {
            SequenceTag::X => row.0,
            SequenceTag::Y => row.1,
            SequenceTag::Z => row.2,
            SequenceTag::W => row.3,
        };
        let second = match self.second {
            SequenceTag::X => row.0,
            SequenceTag::Y => row.1,
            SequenceTag::Z => row.2,
            SequenceTag::W => row.3,
        };
        first == second
    }
}

/// The rows of `table` that are left under `symmetry`: all of them where
/// there is none.
pub open spec fn narrowed(table: Seq<Row>, symmetry: Option<Symmetry>) -> Seq<Row> {
    match symmetry {
        Some(s) => table.filter(s.admitted()),
        None => table,
    }
}

/// Narrows the table of rows to those that `symmetry` admits.
pub fn narrow(table: Vec<Row>, symmetry: &Option<Symmetry>) -> (res: Vec<Row>)
    ensures
        res@ == narrowed(table@, *symmetry),
{
    match symmetry {
        None => table,
        Some(s) => {
            let mut res: Vec<Row> = Vec::new();
            let mut i: usize = 0;
            proof {
                reveal(Seq::filter);
                assert(table@.take(0).len() == 0);
            }
            while i < table.len()
                invariant
                    i <= table@.len(),
                    res@ == table@.take(i as int).filter(s.admitted()),
                decreases table@.len() - i,
            {
                proof {
                    reveal(Seq::filter);
                    assert(table@.take(i + 1).drop_last() =~= table@.take(i as int));
                }
                if s.allows(&table[i]) {
                    res.push(table[i]);
                }
                i += 1;
            }
            assert(table@.take(i as int) =~= table@);
            res
        },
    }
}

} // verus!
