use vstd::prelude::*;
use crate::cell::{Cell, empty_weight, doubleable};

verus! {

/// Number of empty cells of a line.
pub open spec fn count_empty(s: Seq<Cell>) -> int
    decreases s.len(),
{
    if s.len() == 0 {
        0
    } else {
        count_empty(s.drop_last()) + empty_weight(s.last())
    }
}

/// One step of the scan: `d` is the resting slot, `k` the candidate.
/// Returns the new line, the new resting slot, and whether a cell changed.
pub open spec fn step(s: Seq<Cell>, d: int, k: int) -> (Seq<Cell>, int, bool) {
    match (s[d], s[k]) {
        (Cell::Empty, Cell::Empty) => (s, d, false),
        (Cell::Empty, Cell::Value(v)) => (s.update(d, Cell::Value(v)).update(k, Cell::Empty), d, true),
        (Cell::Value(_), Cell::Empty) => (s, d, false),
        (Cell::Value(a), Cell::Value(b)) => if a == b {
            (s.update(d, Cell::Value((a * 2) as u16)).update(k, Cell::Empty), d + 1, true)
        } else {
            (s.update(d + 1, s[k]).update(k, s[d + 1]), d + 1, d + 1 != k)
        },
    }
}

/// The scan from state `(d, k)` to the end of the line: the final line and
/// whether any step changed a cell.
pub open spec fn pass_from(s: Seq<Cell>, d: int, k: int) -> (Seq<Cell>, bool)
    decreases s.len() - k,
{
    if k < 1 || k >= s.len() || d < 0 || d >= k {
        (s, false)
    } else {
        let (s2, d2, m) = step(s, d, k);
        let (r, m2) = pass_from(s2, d2, k + 1);
        (r, m || m2)
    }
}

/// A line after one move toward its index 0.
pub open spec fn compact(s: Seq<Cell>) -> Seq<Cell> {
    pass_from(s, 0, 1).0
}

/// Whether one move toward index 0 alters the line.
pub open spec fn line_moves(s: Seq<Cell>) -> bool {
    pass_from(s, 0, 1).1
}

pub proof fn lemma_count_empty_update(s: Seq<Cell>, i: int, c: Cell)
    requires
        0 <= i < s.len(),
    ensures
        count_empty(s.update(i, c)) == count_empty(s) - empty_weight(s[i]) + empty_weight(c),
    decreases s.len(),
{
    if i == s.len() - 1 {
        assert(s.update(i, c).drop_last() =~= s.drop_last());
    } else {
        assert(s.update(i, c).drop_last() =~= s.drop_last().update(i, c));
        lemma_count_empty_update(s.drop_last(), i, c);
    }
}

pub proof fn lemma_count_empty_bounds(s: Seq<Cell>)
    ensures
        0 <= count_empty(s) <= s.len(),
        count_empty(s) > 0 <==> exists|i: int| 0 <= i < s.len() && s[i] is Empty,
    decreases s.len(),
{
    if s.len() > 0 {
        lemma_count_empty_bounds(s.drop_last());
        if exists|i: int| 0 <= i < s.len() && s[i] is Empty {
            let i = choose|i: int| 0 <= i < s.len() && s[i] is Empty;
            if i < s.len() - 1 {
                assert(s.drop_last()[i] is Empty);
            }
        }
        if count_empty(s.drop_last()) > 0 {
            let i = choose|i: int| 0 <= i < s.drop_last().len() && s.drop_last()[i] is Empty;
            assert(s[i] is Empty);
        }
    }
}

pub proof fn lemma_count_empty_take(s: Seq<Cell>, j: int)
    requires
        0 <= j < s.len(),
    ensures
        count_empty(s.take(j + 1)) == count_empty(s.take(j)) + empty_weight(s[j]),
{
    assert(s.take(j + 1).drop_last() =~= s.take(j));
}

/// Every step keeps the cells from the resting slot on doubleable, and
/// the indices in order.
pub proof fn lemma_step_facts(s: Seq<Cell>, d: int, k: int)
    requires
        0 <= d < k < s.len(),
        forall|i: int| d <= i < s.len() ==> doubleable(#[trigger] s[i]),
        forall|i: int| d < i < k ==> #[trigger] s[i] is Empty,
    ensures
        ({
            let (s2, d2, m) = step(s, d, k);
            &&& s2.len() == s.len()
            &&& d <= d2 <= d + 1
            &&& d2 < k + 1
            &&& forall|i: int| d2 <= i < s.len() ==> doubleable(#[trigger] s2[i])
            &&& forall|i: int| d2 < i < k + 1 ==> #[trigger] s2[i] is Empty
        }),
{
}

} // verus!
