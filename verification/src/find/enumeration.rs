//! The quadruples that the exhaustive search visits, and what a predicate
//! makes of them.

use vstd::prelude::*;
use vstd::arithmetic::power::pow;
use crate::sequences::symmetries::SequenceType;
use crate::sequences::williamson::{QuadSeq, Row, identity_row, legal, legal_row, legal_table};

verus! {

/// The complete quadruples that the search visits from `prefix` with the
/// entries before `index` settled, in the order of the visit: for each row
/// of `table` in turn at `index`, those with that row there.
pub open spec fn leaves(prefix: Seq<Row>, index: nat, table: Seq<Row>) -> Seq<Seq<Row>>
    decreases prefix.len() - index, table.len() + 1,
{
    if index >= prefix.len() {
        seq![prefix]
    } else {
        branches(prefix, index, table, table.len())
    }
}

/// The quadruples that the search visits from `prefix` with one of the
/// first `count` rows of `table` at `index`.
pub open spec fn branches(prefix: Seq<Row>, index: nat, table: Seq<Row>, count: nat) -> Seq<Seq<Row>>
    decreases prefix.len() - index, count,
{
    if index >= prefix.len() || count == 0 || count > table.len() {
        Seq::<Seq<Row>>::empty()
    } else {
        branches(prefix, index, table, (count - 1) as nat) + leaves(
            prefix.update(index as int, table[count - 1]),
            index + 1,
            table,
        )
    }
}

/// The quadruple from which a search of length `size` starts: all entries
/// 0, but for the identity at index 0 where the first index is fixed.
pub open spec fn start(size: nat, fix_first: bool) -> Seq<Row> {
    let blank = Seq::new(size, |i: int| (0i8, 0i8, 0i8, 0i8));
    if fix_first && size > 0 {
        blank.update(0, identity_row())
    } else {
        blank
    }
}

/// All quadruples of length `size` that the search visits: every choice of
/// a row of `table` at each index, from index 1 on where the first index is
/// fixed.
pub open spec fn visited(size: nat, fix_first: bool, table: Seq<Row>) -> Seq<Seq<Row>> {
    leaves(start(size, fix_first), if fix_first { 1 } else { 0 }, table)
}

/// Whether `trace` records a run of the predicate `f` over `visit`: for
/// each quadruple visited, the value that stood for it and what `f`
/// answered.
pub open spec fn observed<F: Fn(&QuadSeq) -> bool>(
    f: F,
    visit: Seq<Seq<Row>>,
    trace: Seq<(QuadSeq, bool)>,
) -> bool {
    &&& trace.len() == visit.len()
    &&& forall|i: int|
        0 <= i < trace.len() ==> (#[trigger] trace[i]).0@ == visit[i] && call_ensures(
            f,
            (&trace[i].0,),
            trace[i].1,
        )
}

/// The quadruples of the run `trace` that the predicate accepted, in order.
pub open spec fn accepted(trace: Seq<(QuadSeq, bool)>) -> Seq<Seq<Row>>
    decreases trace.len(),
{
    if trace.len() == 0 {
        Seq::<Seq<Row>>::empty()
    } else if trace.last().1 {
        accepted(trace.drop_last()).push(trace.last().0@)
    } else {
        accepted(trace.drop_last())
    }
}

/// Whether `found` is what a run of the predicate `f` over `visit` keeps:
/// the quadruples that it accepted, in the order of the visit.
pub open spec fn outcome<F: Fn(&QuadSeq) -> bool>(
    f: F,
    visit: Seq<Seq<Row>>,
    found: Seq<Seq<Row>>,
) -> bool {
    exists|trace: Seq<(QuadSeq, bool)>| observed(f, visit, trace) && found == accepted(trace)
}

/// Whether the predicate `f` accepts every quadruple.
pub open spec fn always<F: Fn(&QuadSeq) -> bool>(f: F) -> bool {
    forall|q: QuadSeq, b: bool| call_ensures(f, (&q,), b) ==> b
}

/// Whether the predicate `f` can be asked about every legal quadruple of
/// length `size`.
pub open spec fn total_on<F: Fn(&QuadSeq) -> bool>(f: F, size: nat, seqtype: SequenceType) -> bool {
    forall|q: QuadSeq| q@.len() == size && legal(q@, seqtype) ==> call_requires(f, (&q,))
}

/// The accepted quadruples of two runs in succession.
pub proof fn lemma_accepted_concat(first: Seq<(QuadSeq, bool)>, second: Seq<(QuadSeq, bool)>)
    ensures
        accepted(first + second) == accepted(first) + accepted(second),
    decreases second.len(),
{
    if second.len() == 0 {
        assert(first + second =~= first);
        assert(accepted(first) + accepted(second) =~= accepted(first));
    } else {
        lemma_accepted_concat(first, second.drop_last());
        assert((first + second).drop_last() =~= first + second.drop_last());
        assert((first + second).last() == second.last());
        if second.last().1 {
            assert(accepted(first + second) =~= accepted(first) + accepted(second));
        }
    }
}

/// The accepted quadruples are no more than the visited ones.
pub proof fn lemma_accepted_len(trace: Seq<(QuadSeq, bool)>)
    ensures
        accepted(trace).len() <= trace.len(),
    decreases trace.len(),
{
    if trace.len() > 0 {
        lemma_accepted_len(trace.drop_last());
    }
}

proof fn lemma_all_accepted(trace: Seq<(QuadSeq, bool)>)
    requires
        forall|i: int| 0 <= i < trace.len() ==> (#[trigger] trace[i]).1,
    ensures
        accepted(trace) == Seq::new(trace.len(), |i: int| trace[i].0@),
    decreases trace.len(),
{
    if trace.len() > 0 {
        let shorter = trace.drop_last();
        assert forall|i: int| 0 <= i < shorter.len() implies (#[trigger] shorter[i]).1 by {
            assert(trace[i].1);
        }
        lemma_all_accepted(shorter);
        assert(trace.last() == trace[trace.len() - 1]);
        assert(accepted(trace) =~= Seq::new(trace.len(), |i: int| trace[i].0@));
    } else {
        assert(accepted(trace) =~= Seq::new(trace.len(), |i: int| trace[i].0@));
    }
}

/// A predicate that accepts every quadruple keeps all that is visited.
pub proof fn lemma_always_keeps_all<F: Fn(&QuadSeq) -> bool>(
    f: F,
    visit: Seq<Seq<Row>>,
    found: Seq<Seq<Row>>,
)
    requires
        always(f),
        outcome(f, visit, found),
    ensures
        found == visit,
{
    let trace = choose|trace: Seq<(QuadSeq, bool)>|
        observed(f, visit, trace) && found == accepted(trace);
    assert forall|i: int| 0 <= i < trace.len() implies (#[trigger] trace[i]).1 by {
        assert(call_ensures(f, (&trace[i].0,), trace[i].1));
    }
    lemma_all_accepted(trace);
    assert(found =~= visit);
}

/// Where two prefixes of one length agree before `index`, the search visits
/// the same quadruples from both.
pub proof fn lemma_leaves_agree(first: Seq<Row>, second: Seq<Row>, index: nat, table: Seq<Row>)
    requires
        first.len() == second.len(),
        forall|i: int| 0 <= i < index && i < first.len() ==> first[i] == second[i],
    ensures
        leaves(first, index, table) == leaves(second, index, table),
    decreases first.len() - index, table.len() + 1,
{
    if index >= first.len() {
        assert(first =~= second);
    } else {
        lemma_branches_agree(first, second, index, table, table.len());
    }
}

proof fn lemma_branches_agree(
    first: Seq<Row>,
    second: Seq<Row>,
    index: nat,
    table: Seq<Row>,
    count: nat,
)
    requires
        first.len() == second.len(),
        forall|i: int| 0 <= i < index && i < first.len() ==> first[i] == second[i],
    ensures
        branches(first, index, table, count) == branches(second, index, table, count),
    decreases first.len() - index, count,
{
    if index >= first.len() || count == 0 || count > table.len() {
    } else {
        lemma_branches_agree(first, second, index, table, (count - 1) as nat);
        lemma_leaves_agree(
            first.update(index as int, table[count - 1]),
            second.update(index as int, table[count - 1]),
            index + 1,
            table,
        );
    }
}

/// The number of quadruples that the search visits: the size of the table
/// to the power of the number of entries left to choose.
pub proof fn lemma_leaves_len(prefix: Seq<Row>, index: nat, table: Seq<Row>)
    requires
        index <= prefix.len(),
    ensures
        leaves(prefix, index, table).len() == pow(
            table.len() as int,
            (prefix.len() - index) as nat,
        ),
    decreases prefix.len() - index, table.len() + 1,
{
    if index >= prefix.len() {
        vstd::arithmetic::power::lemma_pow0(table.len() as int);
    } else {
        lemma_branches_len(prefix, index, table, table.len());
        reveal(pow);
    }
}

proof fn lemma_branches_len(prefix: Seq<Row>, index: nat, table: Seq<Row>, count: nat)
    requires
        index < prefix.len(),
        count <= table.len(),
    ensures
        branches(prefix, index, table, count).len() == count * pow(
            table.len() as int,
            (prefix.len() - index - 1) as nat,
        ),
    decreases prefix.len() - index, count,
{
    let below = pow(table.len() as int, (prefix.len() - index - 1) as nat);
    if count == 0 {
        assert(0 * below == 0);
    } else {
        lemma_branches_len(prefix, index, table, (count - 1) as nat);
        lemma_leaves_len(prefix.update(index as int, table[count - 1]), index + 1, table);
        assert(count * below == (count - 1) * below + below) by (nonlinear_arith);
    }
}

/// Whether the entries of `prefix` before `index` are legal for `seqtype`.
pub open spec fn legal_before(prefix: Seq<Row>, index: nat, seqtype: SequenceType) -> bool {
    forall|i: int| 0 <= i < index && i < prefix.len() ==> legal_row(#[trigger] prefix[i], seqtype)
}

/// From a prefix that is legal before `index`, with a table of legal rows,
/// the search visits legal quadruples of the length of the prefix.
pub proof fn lemma_leaves_legal(
    prefix: Seq<Row>,
    index: nat,
    table: Seq<Row>,
    seqtype: SequenceType,
)
    requires
        legal_before(prefix, index, seqtype),
        legal_table(table, seqtype),
    ensures
        forall|i: int|
            0 <= i < leaves(prefix, index, table).len() ==> legal(
                #[trigger] leaves(prefix, index, table)[i],
                seqtype,
            ) && leaves(prefix, index, table)[i].len() == prefix.len(),
    decreases prefix.len() - index, table.len() + 1,
{
    if index >= prefix.len() {
        assert(leaves(prefix, index, table) =~= seq![prefix]);
        assert forall|k: int| 0 <= k < prefix.len() implies legal_row(
            #[trigger] prefix[k],
            seqtype,
        ) by {}
        assert(legal(prefix, seqtype));
    } else {
        lemma_branches_legal(prefix, index, table, table.len(), seqtype);
        let all = leaves(prefix, index, table);
        assert(all == branches(prefix, index, table, table.len()));
        assert forall|i: int| 0 <= i < all.len() implies legal(#[trigger] all[i], seqtype)
            && all[i].len() == prefix.len() by {
            assert(all[i] == branches(prefix, index, table, table.len())[i]);
        }
    }
}

proof fn lemma_branches_legal(
    prefix: Seq<Row>,
    index: nat,
    table: Seq<Row>,
    count: nat,
    seqtype: SequenceType,
)
    requires
        legal_before(prefix, index, seqtype),
        legal_table(table, seqtype),
    ensures
        forall|i: int|
            0 <= i < branches(prefix, index, table, count).len() ==> legal(
                #[trigger] branches(prefix, index, table, count)[i],
                seqtype,
            ) && branches(prefix, index, table, count)[i].len() == prefix.len(),
    decreases prefix.len() - index, count,
{
    if index >= prefix.len() || count == 0 || count > table.len() {
    } else {
        let next = prefix.update(index as int, table[count - 1]);
        lemma_branches_legal(prefix, index, table, (count - 1) as nat, seqtype);
        assert(legal_row(table[count - 1], seqtype));
        assert forall|i: int| 0 <= i < index + 1 && i < next.len() implies legal_row(
            #[trigger] next[i],
            seqtype,
        ) by {
            if i < index {
                assert(legal_row(prefix[i], seqtype));
            }
        }
        lemma_leaves_legal(next, index + 1, table, seqtype);
        let before = branches(prefix, index, table, (count - 1) as nat);
        let below = leaves(next, index + 1, table);
        let all = branches(prefix, index, table, count);
        assert(all == before + below);
        assert forall|i: int| 0 <= i < all.len() implies legal(#[trigger] all[i], seqtype)
            && all[i].len() == prefix.len() by {
            if i < before.len() {
                assert(all[i] == before[i]);
            } else {
                assert(all[i] == below[i - before.len()]);
            }
        }
    }
}

/// Whether a run of the predicate `f` over `visit` adds to `before` the
/// quadruples that it accepted and so gives `after`.
pub open spec fn collected<F: Fn(&QuadSeq) -> bool>(
    f: F,
    visit: Seq<Seq<Row>>,
    before: Seq<Seq<Row>>,
    after: Seq<Seq<Row>>,
) -> bool {
    exists|trace: Seq<(QuadSeq, bool)>|
        observed(f, visit, trace) && after == before + accepted(trace)
}

/// Whether a run of the predicate `f` over `visit` accepts `count`
/// quadruples.
pub open spec fn counted<F: Fn(&QuadSeq) -> bool>(f: F, visit: Seq<Seq<Row>>, count: int) -> bool {
    exists|trace: Seq<(QuadSeq, bool)>| observed(f, visit, trace) && count == accepted(trace).len()
}

/// A run over one part of a visit and then over the next is a run over
/// both.
pub proof fn lemma_observed_concat<F: Fn(&QuadSeq) -> bool>(
    f: F,
    visit1: Seq<Seq<Row>>,
    trace1: Seq<(QuadSeq, bool)>,
    visit2: Seq<Seq<Row>>,
    trace2: Seq<(QuadSeq, bool)>,
)
    requires
        observed(f, visit1, trace1),
        observed(f, visit2, trace2),
    ensures
        observed(f, visit1 + visit2, trace1 + trace2),
        accepted(trace1 + trace2) == accepted(trace1) + accepted(trace2),
{
    lemma_accepted_concat(trace1, trace2);
    let trace = trace1 + trace2;
    let visit = visit1 + visit2;
    assert forall|i: int| 0 <= i < trace.len() implies (#[trigger] trace[i]).0@ == visit[i]
        && call_ensures(f, (&trace[i].0,), trace[i].1) by {
        if i < trace1.len() {
            assert(trace[i] == trace1[i]);
        } else {
            assert(trace[i] == trace2[i - trace1.len()]);
        }
    }
}

/// A run of one question and its answer.
pub proof fn lemma_observed_one<F: Fn(&QuadSeq) -> bool>(f: F, q: QuadSeq, answer: bool)
    requires
        call_ensures(f, (&q,), answer),
    ensures
        observed(f, seq![q@], seq![(q, answer)]),
        accepted(seq![(q, answer)]) == if answer {
            seq![q@]
        } else {
            Seq::<Seq<Row>>::empty()
        },
{
    let trace = seq![(q, answer)];
    assert(trace.drop_last() =~= Seq::<(QuadSeq, bool)>::empty());
    assert(accepted(trace.drop_last()) =~= Seq::<Seq<Row>>::empty());
    assert(trace.last() == (q, answer));
    if answer {
        assert(accepted(trace) =~= seq![q@]);
    }
}

/// What a run accepts from legal quadruples of one length is legal and of
/// that length.
pub proof fn lemma_accepted_legal(
    visit: Seq<Seq<Row>>,
    trace: Seq<(QuadSeq, bool)>,
    seqtype: SequenceType,
    size: nat,
)
    requires
        trace.len() == visit.len(),
        forall|i: int| 0 <= i < trace.len() ==> (#[trigger] trace[i]).0@ == visit[i],
        forall|i: int|
            0 <= i < visit.len() ==> legal(#[trigger] visit[i], seqtype) && visit[i].len() == size,
    ensures
        forall|k: int|
            0 <= k < accepted(trace).len() ==> legal(#[trigger] accepted(trace)[k], seqtype)
                && accepted(trace)[k].len() == size,
    decreases trace.len(),
{
    if trace.len() > 0 {
        let shorter = trace.drop_last();
        let fewer = visit.drop_last();
        assert forall|i: int| 0 <= i < shorter.len() implies (#[trigger] shorter[i]).0@
            == fewer[i] by {
            assert(trace[i].0@ == visit[i]);
        }
        assert forall|i: int| 0 <= i < fewer.len() implies legal(#[trigger] fewer[i], seqtype)
            && fewer[i].len() == size by {
            assert(legal(visit[i], seqtype));
        }
        lemma_accepted_legal(fewer, shorter, seqtype, size);
        assert(trace.last().0@ == visit[visit.len() - 1]);
        assert(legal(visit[visit.len() - 1], seqtype));
        assert forall|k: int| 0 <= k < accepted(trace).len() implies legal(
            #[trigger] accepted(trace)[k],
            seqtype,
        ) && accepted(trace)[k].len() == size by {
            if k < accepted(shorter).len() {
                assert(accepted(trace)[k] == accepted(shorter)[k]);
            }
        }
    }
}

/// The search visits no fewer quadruples with more rows of the table.
pub proof fn lemma_branches_grow(prefix: Seq<Row>, index: nat, table: Seq<Row>, count: nat)
    requires
        count <= table.len(),
    ensures
        branches(prefix, index, table, count).len() <= leaves(prefix, index, table).len()
            || index >= prefix.len(),
    decreases table.len() - count,
{
    if index < prefix.len() && count < table.len() {
        lemma_branches_grow(prefix, index, table, count + 1);
    }
}

/// The number of entries that the search of a quadruple of length `size`
/// has to choose.
pub open spec fn depth(size: nat, fix_first: bool) -> nat {
    if fix_first && size > 0 {
        (size - 1) as nat
    } else {
        size
    }
}

/// The search of the quadruples of length `size` visits as many as the size
/// of the table to the power of the number of entries to choose, all of
/// them legal where the rows of the table are.
pub proof fn lemma_visited(size: nat, fix_first: bool, table: Seq<Row>, seqtype: SequenceType)
    requires
        legal_table(table, seqtype),
    ensures
        visited(size, fix_first, table).len() == pow(table.len() as int, depth(size, fix_first)),
        forall|i: int|
            0 <= i < visited(size, fix_first, table).len() ==> legal(
                #[trigger] visited(size, fix_first, table)[i],
                seqtype,
            ) && visited(size, fix_first, table)[i].len() == size,
{
    let from = start(size, fix_first);
    let index: nat = if fix_first { 1 } else { 0 };
    assert(legal_row(identity_row(), seqtype));
    lemma_leaves_legal(from, index, table, seqtype);
    if index <= size {
        lemma_leaves_len(from, index, table);
    } else {
        vstd::arithmetic::power::lemma_pow0(table.len() as int);
    }
}

/// A predicate that accepts every quadruple is counted once for each
/// quadruple visited: the size of the table to the power of the number of
/// entries to choose, whatever the length.
pub proof fn lemma_count_of_all<F: Fn(&QuadSeq) -> bool>(
    f: F,
    size: nat,
    fix_first: bool,
    table: Seq<Row>,
    count: int,
)
    requires
        always(f),
        counted(f, visited(size, fix_first, table), count),
    ensures
        count == pow(table.len() as int, depth(size, fix_first)),
{
    let visit = visited(size, fix_first, table);
    let trace = choose|trace: Seq<(QuadSeq, bool)>|
        observed(f, visit, trace) && count == accepted(trace).len();
    lemma_always_keeps_all(f, visit, accepted(trace));
    let index: nat = if fix_first { 1 } else { 0 };
    if index <= size {
        lemma_leaves_len(start(size, fix_first), index, table);
    } else {
        vstd::arithmetic::power::lemma_pow0(table.len() as int);
    }
}

} // verus!
