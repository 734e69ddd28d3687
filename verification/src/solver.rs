//! The iterative realisation of Algorithm X.
//!
//! The recursion of the search is reified as an explicit stack: a root
//! marker at the bottom, and one frame per covered column holding the depth,
//! the row cell currently tried and the header cell the try started from. A
//! boolean says whether the next move descends (cover a fresh column and try
//! its first row) or returns from a finished subsearch (undo the previous
//! row, move to the next, or give the column up). Solutions are read off the
//! recorded row cells, and each is certified before it is returned: a scan
//! over the cells' identity fields — which the search never changes — checks
//! that the selection covers every primary column exactly once and every
//! secondary column at most once, so every returned solution is an exact
//! cover of the matrix as built. A step budget bounds the loop for the
//! verifier; it is far beyond what any search that ends could spend.

use vstd::prelude::*;

use std::collections::HashMap;

use crate::cells::CellRow;
use crate::item::Item;
use crate::matrix::{
    cell_ok, mat_wf, same_row_links, same_shape, spec_cover, spec_uncover, DancingLinksMatrix,
    MatState,
};

verus! {

/// One solution: each selected option's 1-based row number, mapped to the
/// names of the items that option covers, in the order the walk around the
/// option's row ring finds them.
pub struct Solution<T> {
    pub solution_map: HashMap<usize, Vec<T>>,
}

/// A frame of the reified recursion.
#[derive(Debug, Clone, Copy)]
pub enum StackElem {
    Root,
    Iteration { k: usize, current_row: usize, start_row: usize },
}

impl StackElem {
    /// The depth of a frame; the root sits at depth 0.
    pub open spec fn spec_k(self) -> int {
        match self {
            StackElem::Root => 0,
            StackElem::Iteration { k, .. } => k as int,
        }
    }

    /// The depth of a frame.
    fn k(&self) -> (r: usize)
        ensures
            r as int == self.spec_k(),
    {
        match self {
            StackElem::Root => 0,
            StackElem::Iteration { k, .. } => *k,
        }
    }
}

/// The names collected walking right around a row ring from `cur`, the
/// starting cell included: for each visited cell, the item name of its
/// column, columns without one skipped. One unit of fuel is spent per step.
pub open spec fn collect_names<T>(s: MatState<T>, cur: int, stop: int, fuel: nat) -> Seq<T>
    decreases fuel,
{
    let hd = s.headers[s.cells[cur].header as int].name;
    let part = if hd is Other {
        seq![hd->Other_0]
    } else {
        Seq::<T>::empty()
    };
    let nxt = s.cells[cur].right as int;
    if fuel == 0 || nxt == stop {
        part
    } else {
        part + collect_names(s, nxt, stop, (fuel - 1) as nat)
    }
}

/// The solution read off recorded row cells: each recorded cell of a data
/// row contributes its row number, mapped to the names collected around its
/// row ring; later records of the same row win.
pub open spec fn spec_sol_map<T>(s: MatState<T>, picks: Seq<usize>) -> Map<usize, Seq<T>>
    decreases picks.len(),
{
    if picks.len() == 0 {
        Map::empty()
    } else {
        let prev = spec_sol_map(s, picks.drop_last());
        let cell = picks.last() as int;
        if s.cells[cell].row is Data {
            prev.insert(
                s.cells[cell].row->Data_0,
                collect_names(s, cell, cell, s.cells.len()),
            )
        } else {
            prev
        }
    }
}

/// A solution's entries all read off a given matrix state: every key is one
/// of its built row numbers, and the names under the key are those collected
/// walking around the row ring of one of that row's cells in that state.
pub open spec fn solution_sound<T>(orig: MatState<T>, m: Map<usize, Vec<T>>) -> bool {
    forall|rn: usize| #[trigger]
        m.dom().contains(rn) ==> 1 <= rn <= orig.row_count && exists|c: int|
            0 <= c < orig.cells.len() && orig.cells[c].row == CellRow::Data(rn) && m[rn]@
                == collect_names(orig, c, c, orig.cells.len())
}

/// Among the first `n` cells, the number of data cells of column `h` whose
/// row number is one of the selected keys.
pub open spec fn covers_count<T>(s: MatState<T>, keys: Set<usize>, h: int, n: int) -> int
    decreases n,
{
    if n <= 0 {
        0
    } else {
        covers_count(s, keys, h, n - 1) + if s.cells[n - 1].row is Data && s.cells[n - 1].header
            == h && keys.contains(s.cells[n - 1].row->Data_0) {
            1int
        } else {
            0int
        }
    }
}

/// The selected rows cover every primary column exactly once and every
/// secondary column at most once, counted over the column's data cells.
pub open spec fn exact_cover_counts<T>(s: MatState<T>, keys: Set<usize>) -> bool {
    forall|h: int|
        1 <= h < s.headers.len() ==> ((#[trigger] s.headers[h]).primary ==> covers_count(
            s,
            keys,
            h,
            s.cells.len() as int,
        ) == 1) && (!s.headers[h].primary ==> covers_count(s, keys, h, s.cells.len() as int) <= 1)
}

/// No row selected.
pub open spec fn empty_keys() -> Set<usize> {
    Set::empty()
}

/// No column of the state is primary: every item is to be covered at most
/// once, so the empty selection is an exact cover.
pub open spec fn no_primary<T>(s: MatState<T>) -> bool {
    forall|h: int| 1 <= h < s.headers.len() ==> !(#[trigger] s.headers[h]).primary
}

/// A solution is an exact cover of a matrix state: its entries read off that
/// state's rows, and the selected rows cover each primary column exactly
/// once and each secondary column at most once.
pub open spec fn is_exact_cover<T>(s: MatState<T>, m: Map<usize, Vec<T>>) -> bool {
    &&& solution_sound(s, m)
    &&& exact_cover_counts(s, m.dom())
}

/// Nothing the selected keys pick exists when no key is selected.
proof fn lemma_covers_count_empty<T>(s: MatState<T>, h: int, n: int)
    ensures
        covers_count(s, Set::<usize>::empty(), h, n) == 0,
    decreases n,
{
    if n > 0 {
        lemma_covers_count_empty(s, h, n - 1);
    }
}

/// Cover counts read only the cells' identity fields, so they are the same
/// in any two states of one shape.
proof fn lemma_covers_count_frame<T>(
    a: MatState<T>,
    b: MatState<T>,
    keys: Set<usize>,
    h: int,
    n: int,
)
    requires
        same_shape(a, b),
        n <= a.cells.len(),
    ensures
        covers_count(b, keys, h, n) == covers_count(a, keys, h, n),
    decreases n,
{
    if n > 0 {
        lemma_covers_count_frame(a, b, keys, h, n - 1);
    }
}

/// A matrix built with no rows but a primary column admits no exact cover:
/// no solution can select a row, and then no primary column is covered.
pub proof fn lemma_no_rows_no_cover<T>(s: MatState<T>, m: Map<usize, Vec<T>>)
    requires
        s.row_count == 0,
        !no_primary(s),
    ensures
        !is_exact_cover(s, m),
{
    if solution_sound(s, m) {
        assert(m.dom() =~= empty_keys()) by {
            assert forall|rn: usize| !(#[trigger] m.dom().contains(rn)) by {
                if m.dom().contains(rn) {
                    assert(1 <= rn <= s.row_count);
                }
            }
        }
        let h = choose|h: int| 1 <= h < s.headers.len() && (#[trigger] s.headers[h]).primary;
        lemma_covers_count_empty(s, h, s.cells.len() as int);
        assert(covers_count(s, m.dom(), h, s.cells.len() as int) == 0);
        assert(!exact_cover_counts(s, m.dom()));
    }
}

/// Covers and uncovers never touch a data cell's row links, its identity
/// fields or any column's name, so the names collected around a row ring are
/// the same in any two states so related.
proof fn lemma_collect_names_frame<T>(
    a: MatState<T>,
    b: MatState<T>,
    cur: int,
    stop: int,
    fuel: nat,
)
    requires
        mat_wf(a),
        same_shape(a, b),
        same_row_links(a, b),
        0 <= cur < a.cells.len(),
        a.cells[cur].row is Data,
    ensures
        collect_names(b, cur, stop, fuel) == collect_names(a, cur, stop, fuel),
    decreases fuel,
{
    assert(cell_ok(a, cur));
    let nxt = a.cells[cur].right as int;
    assert(b.cells[cur].right == a.cells[cur].right);
    assert(b.cells[cur].header == a.cells[cur].header);
    assert(b.headers[a.cells[cur].header as int].name == a.headers[a.cells[cur].header
        as int].name);
    if fuel > 0 && nxt != stop {
        assert(a.cells[nxt].row == a.cells[cur].row);
        lemma_collect_names_frame(a, b, nxt, stop, (fuel - 1) as nat);
    }
}

/// Every entry of the solution read off recorded cells has one of those
/// cells as its witness: the key is the cell's row number and the names are
/// those collected around the cell's row ring.
proof fn lemma_sol_map_witness<T>(s: MatState<T>, picks: Seq<usize>)
    requires
        mat_wf(s),
        forall|d: int| 0 <= d < picks.len() ==> #[trigger] picks[d] < s.cells.len(),
    ensures
        forall|rn: usize| #[trigger]
            spec_sol_map(s, picks).dom().contains(rn) ==> 1 <= rn <= s.row_count && exists|c: int|
                0 <= c < s.cells.len() && s.cells[c].row == CellRow::Data(rn) && spec_sol_map(
                    s,
                    picks,
                )[rn] == collect_names(s, c, c, s.cells.len()),
    decreases picks.len(),
{
    if picks.len() > 0 {
        lemma_sol_map_witness(s, picks.drop_last());
        let prev = spec_sol_map(s, picks.drop_last());
        let cell = picks.last() as int;
        assert(cell_ok(s, cell));
        assert forall|rn: usize| #[trigger]
            spec_sol_map(s, picks).dom().contains(rn) implies 1 <= rn <= s.row_count && exists|
            c: int,
        |
            0 <= c < s.cells.len() && s.cells[c].row == CellRow::Data(rn) && spec_sol_map(
                s,
                picks,
            )[rn] == collect_names(s, c, c, s.cells.len()) by {
            if s.cells[cell].row is Data && rn == s.cells[cell].row->Data_0 {
                assert(s.cells[cell].row == CellRow::Data(rn));
                assert(0 <= cell < s.cells.len() && s.cells[cell].row == CellRow::Data(rn)
                    && spec_sol_map(s, picks)[rn] == collect_names(s, cell, cell, s.cells.len()));
            } else {
                assert(prev.dom().contains(rn));
                assert(spec_sol_map(s, picks)[rn] == prev[rn]);
                let c = choose|c: int|
                    0 <= c < s.cells.len() && s.cells[c].row == CellRow::Data(rn) && prev[rn]
                        == collect_names(s, c, c, s.cells.len());
                assert(0 <= c < s.cells.len() && s.cells[c].row == CellRow::Data(rn)
                    && spec_sol_map(s, picks)[rn] == collect_names(s, c, c, s.cells.len()));
            }
        }
    }
}

/// An exact cover of a later state of the matrix is an exact cover of the
/// state the matrix was built in.
proof fn lemma_sound_transport<T>(orig: MatState<T>, cur: MatState<T>, m: Map<usize, Vec<T>>)
    requires
        mat_wf(orig),
        same_shape(orig, cur),
        same_row_links(orig, cur),
        is_exact_cover(cur, m),
    ensures
        is_exact_cover(orig, m),
{
    assert(exact_cover_counts(orig, m.dom())) by {
        assert forall|h: int|
            1 <= h < orig.headers.len() implies ((#[trigger] orig.headers[h]).primary
            ==> covers_count(orig, m.dom(), h, orig.cells.len() as int) == 1) && (!orig.headers[
            h].primary ==> covers_count(orig, m.dom(), h, orig.cells.len() as int) <= 1) by {
            lemma_covers_count_frame(orig, cur, m.dom(), h, orig.cells.len() as int);
            assert(orig.headers[h].primary == cur.headers[h].primary);
        }
    }
    assert forall|rn: usize| #[trigger]
        m.dom().contains(rn) implies 1 <= rn <= orig.row_count && exists|c: int|
        0 <= c < orig.cells.len() && orig.cells[c].row == CellRow::Data(rn) && m[rn]@
            == collect_names(orig, c, c, orig.cells.len()) by {
        let c = choose|c: int|
            0 <= c < cur.cells.len() && cur.cells[c].row == CellRow::Data(rn) && m[rn]@
                == collect_names(cur, c, c, cur.cells.len());
        assert(orig.cells[c].row == cur.cells[c].row);
        lemma_collect_names_frame(orig, cur, c, c, orig.cells.len());
        assert(0 <= c < orig.cells.len() && orig.cells[c].row == CellRow::Data(rn) && m[rn]@
            == collect_names(orig, c, c, orig.cells.len()));
    }
}

/// The columns covered along a row ring, walking right from `cur` exclusive:
/// each visited cell's column is covered, the sentinel passed over.
pub open spec fn spec_cover_along<T>(s: MatState<T>, cur: int, stop: int, fuel: nat) -> MatState<
    T,
>
    decreases fuel,
{
    if fuel == 0 {
        s
    } else {
        let nxt = s.cells[cur].right as int;
        if nxt == stop {
            s
        } else {
            let h = s.cells[nxt].header as int;
            let s2 = if 1 <= h {
                spec_cover(s, h)
            } else {
                s
            };
            spec_cover_along(s2, nxt, stop, (fuel - 1) as nat)
        }
    }
}

/// The columns uncovered along a row ring, walking left from `cur`
/// exclusive: the exact reverse of [`spec_cover_along`].
pub open spec fn spec_uncover_along<T>(s: MatState<T>, cur: int, stop: int, fuel: nat) -> MatState<
    T,
>
    decreases fuel,
{
    if fuel == 0 {
        s
    } else {
        let nxt = s.cells[cur].left as int;
        if nxt == stop {
            s
        } else {
            let h = s.cells[nxt].header as int;
            let s2 = if 1 <= h {
                spec_uncover(s, h)
            } else {
                s
            };
            spec_uncover_along(s2, nxt, stop, (fuel - 1) as nat)
        }
    }
}

/// A solution map with its name lists read as sequences.
pub open spec fn deep_sol<T>(m: Map<usize, Vec<T>>) -> Map<usize, Seq<T>> {
    Map::new(|rn: usize| m.dom().contains(rn), |rn: usize| m[rn]@)
}

/// The returned solutions, each read as a map to name sequences.
pub open spec fn deep_sols<T>(v: Seq<Solution<T>>) -> Seq<Map<usize, Seq<T>>> {
    Seq::new(v.len(), |i: int| deep_sol(v[i].solution_map@))
}

/// The whole state of the search: the matrix, the frame stack, the recorded
/// row cells, whether the next move returns from a subsearch, and the
/// solutions emitted so far.
pub ghost struct Search<T> {
    pub s: MatState<T>,
    pub stack: Seq<StackElem>,
    pub sol: Seq<usize>,
    pub advance: bool,
    pub solutions: Seq<Map<usize, Seq<T>>>,
}

/// The search state a run starts from.
pub open spec fn search_init<T>(s: MatState<T>) -> Search<T> {
    Search {
        s,
        stack: seq![StackElem::Root],
        sol: Seq::empty(),
        advance: false,
        solutions: Seq::empty(),
    }
}

/// A row cell recorded at a depth of the dense record of choices.
pub open spec fn spec_add_pick(sol: Seq<usize>, k: int, cell: usize) -> Seq<usize> {
    if k < sol.len() {
        sol.update(k, cell)
    } else {
        sol.push(cell)
    }
}

/// One step of the search under the minimum-size column choice, exactly as
/// the code takes it. When the top ring is empty the certified solution of
/// the recorded cells is emitted, and under `return_first` the run stops;
/// then the next move either pops the root, returns from a frame — undoing
/// its row, trying the row below or giving the column up — or descends into
/// the queue's minimum column. The returned flag says the run stops here.
pub open spec fn spec_step<T>(st: Search<T>, return_first: bool) -> (Search<T>, bool) {
    let last = st.stack.last();
    let k = last.spec_k();
    let ring_empty = st.s.cells[0].right == 0;
    let m = spec_sol_map(st.s, st.sol.take(k));
    let emitted = ring_empty && exact_cover_counts(st.s, m.dom());
    let solutions1 = if emitted {
        st.solutions.push(m)
    } else {
        st.solutions
    };
    let adv = st.advance || ring_empty;
    if emitted && return_first {
        (Search { solutions: solutions1, ..st }, true)
    } else if adv && last is Root {
        (Search { stack: st.stack.drop_last(), advance: adv, solutions: solutions1, ..st }, false)
    } else if adv && last is Iteration {
        let cur = last->Iteration_current_row;
        let start = last->Iteration_start_row;
        let stack1 = st.stack.drop_last();
        let s1 = spec_uncover_along(st.s, cur as int, cur as int, st.s.cells.len());
        let nr = s1.cells[cur as int].down;
        if nr == start {
            let col = s1.cells[nr as int].header;
            (
                Search {
                    s: spec_uncover(s1, col as int),
                    stack: stack1,
                    advance: true,
                    solutions: solutions1,
                    ..st
                },
                false,
            )
        } else {
            (
                Search {
                    s: spec_cover_along(s1, nr as int, nr as int, s1.cells.len()),
                    stack: stack1.push(
                        StackElem::Iteration {
                            k: last->Iteration_k,
                            current_row: nr,
                            start_row: start,
                        },
                    ),
                    sol: spec_add_pick(st.sol, k - 1, nr),
                    advance: false,
                    solutions: solutions1,
                },
                false,
            )
        }
    } else {
        match crate::matrix::spec_min_column(st.s) {
            None => (Search { advance: true, solutions: solutions1, ..st }, false),
            Some(c) => if st.s.headers[c as int].size == 0 {
                (Search { advance: true, solutions: solutions1, ..st }, false)
            } else {
                let s1 = spec_cover(st.s, c as int);
                let nr = s1.cells[c as int].down;
                (
                    Search {
                        s: spec_cover_along(s1, nr as int, nr as int, s1.cells.len()),
                        stack: st.stack.push(
                            StackElem::Iteration {
                                k: (k + 1) as usize,
                                current_row: nr,
                                start_row: c,
                            },
                        ),
                        sol: spec_add_pick(st.sol, k, nr),
                        advance: false,
                        solutions: solutions1,
                    },
                    false,
                )
            },
        }
    }
}

/// The solutions a search run emits under the minimum-size column choice:
/// steps are taken until the stack empties, the first solution is returned,
/// or the fuel is spent.
pub open spec fn spec_run<T>(st: Search<T>, return_first: bool, fuel: nat) -> Seq<
    Map<usize, Seq<T>>,
>
    decreases fuel,
{
    if st.stack.len() == 0 || fuel == 0 {
        st.solutions
    } else {
        let stepped = spec_step(st, return_first);
        if stepped.1 {
            stepped.0.solutions
        } else {
            spec_run(stepped.0, return_first, (fuel - 1) as nat)
        }
    }
}

/// Pushing a solution extends its deep reading by the solution's own.
proof fn lemma_deep_sols_push<T>(v: Seq<Solution<T>>, x: Solution<T>)
    ensures
        deep_sols(v.push(x)) == deep_sols(v).push(deep_sol(x.solution_map@)),
{
    let a = deep_sols(v.push(x));
    let b = deep_sols(v).push(deep_sol(x.solution_map@));
    assert forall|i: int| 0 <= i < a.len() implies a[i] == b[i] by {
        if i < v.len() {
            assert(v.push(x)[i] == v[i]);
        } else {
            assert(v.push(x)[i] == x);
        }
    }
    assert(a =~= b);
}

/// The search over a built matrix.
pub struct IterativeAlgorithmXSolver<T> {
    pub matrix: DancingLinksMatrix<T>,
    pub choose_min: bool,
    pub return_first: bool,
}

impl<T: Item> IterativeAlgorithmXSolver<T> {
    /// A solver over the given matrix. With `choose_min` the column of least
    /// size is always chosen, ties broken towards the least column index;
    /// otherwise a column of the header ring is drawn at random. With
    /// `return_first` the search stops at the first solution found.
    pub fn new(matrix: DancingLinksMatrix<T>, choose_min: bool, return_first: bool) -> (r: Self)
        ensures
            r.matrix == matrix,
            r.choose_min == choose_min,
            r.return_first == return_first,
    {
        IterativeAlgorithmXSolver { matrix, choose_min, return_first }
    }

    /// Covers the column of every other cell of a row, walking right from
    /// the row cell.
    fn cover_row(&mut self, row: usize)
        requires
            mat_wf(old(self).matrix@),
            row < old(self).matrix@.cells.len(),
        ensures
            final(self).matrix@ == spec_cover_along(
                old(self).matrix@,
                row as int,
                row as int,
                old(self).matrix@.cells.len(),
            ),
            mat_wf(final(self).matrix@),
            same_shape(old(self).matrix@, final(self).matrix@),
            same_row_links(old(self).matrix@, final(self).matrix@),
            final(self).choose_min == old(self).choose_min,
            final(self).return_first == old(self).return_first,
        decreases
    {
        let ghost orig = self.matrix@;
        let n = self.matrix.cell_count();
        let ghost target = spec_cover_along(orig, row as int, row as int, n as nat);
        let mut cur = row;
        let mut fuel = n;
        loop
            invariant_except_break
                mat_wf(self.matrix@),
                cur < n,
                self.matrix@.cells.len() == n,
                target == spec_cover_along(self.matrix@, cur as int, row as int, fuel as nat),
                same_shape(orig, self.matrix@),
                same_row_links(orig, self.matrix@),
                self.choose_min == old(self).choose_min,
                self.return_first == old(self).return_first,
            ensures
                self.matrix@ == target,
                mat_wf(self.matrix@),
                same_shape(orig, self.matrix@),
                same_row_links(orig, self.matrix@),
                self.choose_min == old(self).choose_min,
                self.return_first == old(self).return_first,
            decreases fuel,
        {
            proof {
                assert(cell_ok(self.matrix@, cur as int));
            }
            let nxt = self.matrix.cell_right(cur);
            if fuel == 0 || nxt == row {
                proof {
                    assert(target == self.matrix@);
                }
                break ;
            }
            proof {
                assert(cell_ok(self.matrix@, nxt as int));
            }
            let h = self.matrix.cell_header(nxt);
            if 1 <= h {
                self.matrix.cover(h);
            }
            cur = nxt;
            fuel = fuel - 1;
        }
    }

    /// Uncovers the column of every other cell of a row, walking left from
    /// the row cell: the exact reverse of [`Self::cover_row`].
    fn uncover_row(&mut self, row: usize)
        requires
            mat_wf(old(self).matrix@),
            row < old(self).matrix@.cells.len(),
        ensures
            final(self).matrix@ == spec_uncover_along(
                old(self).matrix@,
                row as int,
                row as int,
                old(self).matrix@.cells.len(),
            ),
            mat_wf(final(self).matrix@),
            same_shape(old(self).matrix@, final(self).matrix@),
            same_row_links(old(self).matrix@, final(self).matrix@),
            final(self).choose_min == old(self).choose_min,
            final(self).return_first == old(self).return_first,
    {
        let ghost orig = self.matrix@;
        let n = self.matrix.cell_count();
        let ghost target = spec_uncover_along(orig, row as int, row as int, n as nat);
        let mut cur = row;
        let mut fuel = n;
        loop
            invariant_except_break
                mat_wf(self.matrix@),
                cur < n,
                self.matrix@.cells.len() == n,
                target == spec_uncover_along(self.matrix@, cur as int, row as int, fuel as nat),
                same_shape(orig, self.matrix@),
                same_row_links(orig, self.matrix@),
                self.choose_min == old(self).choose_min,
                self.return_first == old(self).return_first,
            ensures
                self.matrix@ == target,
                mat_wf(self.matrix@),
                same_shape(orig, self.matrix@),
                same_row_links(orig, self.matrix@),
                self.choose_min == old(self).choose_min,
                self.return_first == old(self).return_first,
            decreases fuel,
        {
            proof {
                assert(cell_ok(self.matrix@, cur as int));
            }
            let nxt = self.matrix.cell_left(cur);
            if fuel == 0 || nxt == row {
                proof {
                    assert(target == self.matrix@);
                }
                break ;
            }
            proof {
                assert(cell_ok(self.matrix@, nxt as int));
            }
            let h = self.matrix.cell_header(nxt);
            if 1 <= h {
                self.matrix.uncover(h);
            }
            cur = nxt;
            fuel = fuel - 1;
        }
    }

    /// Checks that a found selection is an exact cover: for every column,
    /// scans the matrix's cells — whose identity fields the search never
    /// changes — counting the data cells of that column whose row is
    /// selected, and demands exactly one for a primary column and at most
    /// one for a secondary one.
    fn check_exact_cover(&self, found: &Solution<T>) -> (r: bool)
        requires
            mat_wf(self.matrix@),
        ensures
            r == exact_cover_counts(self.matrix@, found.solution_map@.dom()),
    {
        let ghost s = self.matrix@;
        let ghost keys = found.solution_map@.dom();
        let hl = self.matrix.header_count();
        let n = self.matrix.cell_count();
        let mut h: usize = 1;
        while h < hl
            invariant
                1 <= h <= hl,
                mat_wf(s),
                s == self.matrix@,
                keys == found.solution_map@.dom(),
                hl == s.headers.len(),
                n == s.cells.len(),
                forall|g: int|
                    1 <= g < h ==> ((#[trigger] s.headers[g]).primary ==> covers_count(
                        s,
                        keys,
                        g,
                        n as int,
                    ) == 1) && (!s.headers[g].primary ==> covers_count(s, keys, g, n as int) <= 1),
            decreases hl - h,
        {
            let mut count: usize = 0;
            let mut i: usize = 0;
            while i < n
                invariant
                    i <= n,
                    h < hl,
                    mat_wf(s),
                    s == self.matrix@,
                    keys == found.solution_map@.dom(),
                    hl == s.headers.len(),
                    n == s.cells.len(),
                    count <= i,
                    count as int == covers_count(s, keys, h as int, i as int),
                decreases n - i,
            {
                match self.matrix.cell_row(i) {
                    CellRow::Data(rn) => {
                        if self.matrix.cell_header(i) == h && found.solution_map.contains_key(&rn)
                        {
                            count = count + 1;
                        }
                    },
                    CellRow::Header => {},
                }
                i = i + 1;
            }
            if self.matrix.header_primary(h) {
                if count != 1 {
                    return false;
                }
            } else {
                if count > 1 {
                    return false;
                }
            }
            h = h + 1;
        }
        true
    }

    /// Reads the solution off the first `k` recorded row cells.
    fn create_sol(&self, k: usize, sol: &Vec<usize>) -> (r: Solution<T>)
        requires
            mat_wf(self.matrix@),
            k <= sol@.len(),
            forall|d: int| 0 <= d < sol@.len() ==> #[trigger] sol@[d] < self.matrix@.cells.len(),
        ensures
            r.solution_map@.dom() =~= spec_sol_map(self.matrix@, sol@.take(k as int)).dom(),
            forall|rn: usize| #[trigger]
                r.solution_map@.dom().contains(rn) ==> r.solution_map@[rn]@ == spec_sol_map(
                    self.matrix@,
                    sol@.take(k as int),
                )[rn] && 1 <= rn <= self.matrix@.row_count,
            solution_sound(self.matrix@, r.solution_map@),
            k == 0 ==> r.solution_map@.dom() =~= Set::<usize>::empty(),
    {
        let ghost s = self.matrix@;
        let n = self.matrix.cell_count();
        let mut map: HashMap<usize, Vec<T>> = HashMap::new();
        let mut d: usize = 0;
        while d < k
            invariant
                d <= k,
                k <= sol@.len(),
                mat_wf(s),
                s == self.matrix@,
                n == s.cells.len(),
                forall|dd: int| 0 <= dd < sol@.len() ==> #[trigger] sol@[dd] < n,
                map@.dom() =~= spec_sol_map(s, sol@.take(d as int)).dom(),
                forall|rn: usize| #[trigger]
                    map@.dom().contains(rn) ==> map@[rn]@ == spec_sol_map(
                        s,
                        sol@.take(d as int),
                    )[rn] && 1 <= rn <= s.row_count,
            decreases k - d,
        {
            let cell = sol[d];
            let ghost prefix = sol@.take(d as int);
            let ghost prefix2 = sol@.take(d + 1 as int);
            proof {
                assert(prefix2.drop_last() =~= prefix);
                assert(prefix2.last() == sol@[d as int]);
            }
            match self.matrix.cell_row(cell) {
                crate::cells::CellRow::Data(rn) => {
                    proof {
                        assert(cell_ok(s, cell as int));
                    }
                    let names = self.collect_row_names(cell);
                    map.insert(rn, names);
                },
                crate::cells::CellRow::Header => {},
            }
            d = d + 1;
        }
        proof {
            lemma_sol_map_witness(s, sol@.take(k as int));
            assert forall|d2: int|
                0 <= d2 < sol@.take(k as int).len() implies #[trigger] sol@.take(k as int)[d2]
                < s.cells.len() by {
                assert(sol@.take(k as int)[d2] == sol@[d2]);
            }
            assert(solution_sound(s, map@)) by {
                assert forall|rn: usize| #[trigger]
                    map@.dom().contains(rn) implies 1 <= rn <= s.row_count && exists|c: int|
                    0 <= c < s.cells.len() && s.cells[c].row == CellRow::Data(rn) && map@[rn]@
                        == collect_names(s, c, c, s.cells.len()) by {
                    assert(spec_sol_map(s, sol@.take(k as int)).dom().contains(rn));
                    let c = choose|c: int|
                        0 <= c < s.cells.len() && s.cells[c].row == CellRow::Data(rn)
                            && spec_sol_map(s, sol@.take(k as int))[rn] == collect_names(
                            s,
                            c,
                            c,
                            s.cells.len(),
                        );
                    assert(map@[rn]@ == spec_sol_map(s, sol@.take(k as int))[rn]);
                    assert(0 <= c < s.cells.len() && s.cells[c].row == CellRow::Data(rn)
                        && map@[rn]@ == collect_names(s, c, c, s.cells.len()));
                }
            }
            if k == 0 {
                assert(sol@.take(0) =~= Seq::<usize>::empty());
                assert(spec_sol_map(s, sol@.take(0)).dom() =~= Set::<usize>::empty());
            }
        }
        Solution { solution_map: map }
    }

    /// Collects the item names around a row ring, the starting cell first.
    fn collect_row_names(&self, cell: usize) -> (r: Vec<T>)
        requires
            mat_wf(self.matrix@),
            cell < self.matrix@.cells.len(),
        ensures
            r@ == collect_names(
                self.matrix@,
                cell as int,
                cell as int,
                self.matrix@.cells.len(),
            ),
    {
        let ghost s = self.matrix@;
        let n = self.matrix.cell_count();
        let ghost total = collect_names(s, cell as int, cell as int, n as nat);
        let mut out: Vec<T> = Vec::new();
        let mut cur = cell;
        let mut fuel = n;
        loop
            invariant_except_break
                mat_wf(s),
                s == self.matrix@,
                n == s.cells.len(),
                cur < n,
                total == out@ + collect_names(s, cur as int, cell as int, fuel as nat),
            ensures
                out@ == total,
            decreases fuel,
        {
            proof {
                assert(cell_ok(s, cur as int));
            }
            let h = self.matrix.cell_header(cur);
            proof {
                assert(crate::matrix::header_ok(s, h as int));
            }
            let ghost pre_out = out@;
            match self.matrix.header_name(h).get_name() {
                Some(nm) => {
                    out.push(nm.duplicate());
                },
                None => {},
            }
            let nxt = self.matrix.cell_right(cur);
            if fuel == 0 || nxt == cell {
                proof {
                    assert(out@ =~= total);
                }
                break ;
            }
            proof {
                assert(total =~= out@ + collect_names(s, nxt as int, cell as int, (fuel - 1) as nat));
            }
            cur = nxt;
            fuel = fuel - 1;
        }
        out
    }

    /// Records a row cell at a depth of the dense record of choices.
    fn add_to_sol(sol: &mut Vec<usize>, k: usize, cell: usize)
        requires
            k <= old(sol)@.len(),
        ensures
            final(sol)@ == if k < old(sol)@.len() {
                old(sol)@.update(k as int, cell)
            } else {
                old(sol)@.push(cell)
            },
            final(sol)@.len() == if k < old(sol)@.len() {
                old(sol)@.len()
            } else {
                old(sol)@.len() + 1
            },
    {
        if k < sol.len() {
            sol[k] = cell;
        } else {
            sol.push(cell);
        }
    }

    /// Runs the search and returns the solutions found, in the order they
    /// were found. Under the minimum-size column choice the result is pinned
    /// exactly: it equals [`spec_run`] on the matrix as given — the search
    /// taken step by step at the specification level — so the output is a
    /// deterministic function of the built matrix, and under `return_first`
    /// it is the first solution in that search order. With `return_first` at most one
    /// solution is returned. Every returned solution is an exact cover of
    /// the matrix as given:
    /// each key is a built row number, its names are those collected around
    /// one of that row's cells in the given matrix, untouched by the
    /// search's own mutation, and the selected rows cover every primary
    /// column exactly once and every secondary column at most once. A schema
    /// with no primary column and an empty top ring yields exactly one
    /// solution, the empty selection; a schema with a primary column but no
    /// rows yields none. The matrix keeps its shape: every cell's identity
    /// fields, every data cell's row links, and the counts are those it was
    /// built with.
    #[verifier::rlimit(100)]
    pub fn solve(&mut self) -> (r: Vec<Solution<T>>)
        requires
            mat_wf(old(self).matrix@),
        ensures
            mat_wf(final(self).matrix@),
            same_shape(old(self).matrix@, final(self).matrix@),
            same_row_links(old(self).matrix@, final(self).matrix@),
            old(self).return_first ==> r@.len() <= 1,
            forall|i: int|
                0 <= i < r@.len() ==> is_exact_cover(
                    old(self).matrix@,
                    (#[trigger] r@[i]).solution_map@,
                ),
            old(self).matrix@.cells[0].right == 0 && no_primary(old(self).matrix@) ==> r@.len()
                == 1 && r@[0].solution_map@.dom() =~= empty_keys() && final(self).matrix@ == old(
                self,
            ).matrix@,
            old(self).matrix@.row_count == 0 && !no_primary(old(self).matrix@) ==> r@.len() == 0,
            old(self).choose_min ==> deep_sols(r@) == spec_run(
                search_init(old(self).matrix@),
                old(self).return_first,
                u64::MAX as nat,
            ),
    {
        let ghost orig = self.matrix@;
        let n = self.matrix.cell_count();
        let mut solutions: Vec<Solution<T>> = Vec::new();
        let mut sol: Vec<usize> = Vec::new();
        let mut advance = false;
        let mut stack: Vec<StackElem> = Vec::new();
        stack.push(StackElem::Root);
        let mut budget: u64 = u64::MAX;
        proof {
            assert(stack@ =~= seq![StackElem::Root]);
            assert(deep_sols(solutions@) =~= Seq::<Map<usize, Seq<T>>>::empty());
            assert(sol@ =~= Seq::<usize>::empty());
            assert((Search {
                s: self.matrix@,
                stack: stack@,
                sol: sol@,
                advance: advance,
                solutions: deep_sols(solutions@),
            }) == search_init(orig));
        }
        while stack.len() > 0 && budget > 0
            invariant
                mat_wf(self.matrix@),
                mat_wf(orig),
                orig == old(self).matrix@,
                self.matrix@.cells.len() == n,
                same_shape(orig, self.matrix@),
                same_row_links(orig, self.matrix@),
                self.choose_min == old(self).choose_min,
                self.return_first == old(self).return_first,
                forall|d: int| 0 <= d < sol@.len() ==> #[trigger] sol@[d] < n,
                forall|i: int|
                    0 <= i < stack@.len() ==> (#[trigger] stack@[i]).spec_k() == i && (i == 0
                        <==> stack@[i] is Root),
                sol@.len() + 1 >= stack@.len(),
                forall|i: int|
                    0 <= i < stack@.len() ==> ((#[trigger] stack@[i]) matches StackElem::Iteration {
                        current_row,
                        start_row,
                        ..
                    } ==> current_row < n && 1 <= start_row
                        < self.matrix@.headers.len()),
                old(self).return_first ==> solutions@.len() == 0,
                forall|i: int|
                    0 <= i < solutions@.len() ==> is_exact_cover(
                        orig,
                        (#[trigger] solutions@[i]).solution_map@,
                    ),
                orig.cells[0].right == 0 && no_primary(orig) ==> (solutions@.len() == 0 && stack@
                    == seq![StackElem::Root] && self.matrix@ == orig && budget == u64::MAX) || (
                solutions@.len() == 1 && solutions@[0].solution_map@.dom() =~= empty_keys()
                    && stack@.len() == 0 && self.matrix@ == orig),
                self.choose_min ==> spec_run(search_init(orig), self.return_first, u64::MAX as nat)
                    == spec_run(
                    (Search {
                        s: self.matrix@,
                        stack: stack@,
                        sol: sol@,
                        advance: advance,
                        solutions: deep_sols(solutions@),
                    }),
                    self.return_first,
                    budget as nat,
                ),
            decreases budget,
        {
            let ghost pre = Search {
                s: self.matrix@,
                stack: stack@,
                sol: sol@,
                advance: advance,
                solutions: deep_sols(solutions@),
            };
            let ghost fuel0 = budget as nat;
            let ghost rf = self.return_first;
            let ghost stepped = spec_step(pre, rf);
            budget = budget - 1;
            let elem = stack[stack.len() - 1];
            let k = elem.k();
            proof {
                assert(stack@[stack@.len() - 1].spec_k() == stack@.len() - 1);
                assert(k as int == stack@.len() - 1);
                assert(cell_ok(self.matrix@, 0));
                assert(pre.stack.last() == elem);
            }
            if self.matrix.cell_right(0) == 0 {
                let found = self.create_sol(k, &sol);
                let valid = self.check_exact_cover(&found);
                proof {
                    if self.choose_min {
                        let fm = found.solution_map@;
                        let sm = spec_sol_map(pre.s, pre.sol.take(elem.spec_k()));
                        assert(fm.dom() =~= sm.dom());
                        assert(fm.dom() == sm.dom());
                        assert(deep_sol(fm).dom() =~= sm.dom());
                        assert forall|rn: usize| #[trigger]
                            deep_sol(fm).dom().contains(rn) implies deep_sol(fm)[rn]
                            == sm[rn] by {
                            assert(fm.dom().contains(rn));
                            assert(fm[rn]@ == sm[rn]);
                        }
                        assert(deep_sol(fm) =~= sm);
                        assert(valid == exact_cover_counts(pre.s, sm.dom()));
                    }
                }
                if valid {
                    proof {
                        assert(self.matrix@.row_count == orig.row_count);
                        lemma_sound_transport(orig, self.matrix@, found.solution_map@);
                        if orig.cells[0].right == 0 && no_primary(orig) {
                            assert(solutions@.len() == 0);
                            assert(stack@.len() == 1);
                            assert(k == 0);
                            assert(found.solution_map@.dom() =~= Set::<usize>::empty());
                        }
                    }
                    let ghost pre_sols = solutions@;
                    solutions.push(found);
                    proof {
                        if self.choose_min {
                            lemma_deep_sols_push(pre_sols, found);
                            assert(deep_sols(solutions@) == pre.solutions.push(
                                spec_sol_map(pre.s, pre.sol.take(elem.spec_k())),
                            ));
                        }
                    }
                    if self.return_first {
                        proof {
                            if orig.row_count == 0 && !no_primary(orig) {
                                lemma_no_rows_no_cover(orig, found.solution_map@);
                            }
                            if self.choose_min {
                                assert(stepped.1 == true);
                                assert(stepped.0.solutions == pre.solutions.push(
                                    spec_sol_map(pre.s, pre.sol.take(elem.spec_k())),
                                ));
                                assert(spec_run(pre, rf, fuel0) == stepped.0.solutions);
                                assert(deep_sols(solutions@) == spec_run(
                                    search_init(orig),
                                    rf,
                                    u64::MAX as nat,
                                ));
                            }
                        }
                        return solutions;
                    }
                }
                proof {
                    if orig.cells[0].right == 0 && no_primary(orig) && !valid {
                        assert(found.solution_map@.dom() =~= Set::<usize>::empty());
                        assert forall|g: int|
                            1 <= g < self.matrix@.headers.len() implies ((
                            #[trigger] self.matrix@.headers[g]).primary ==> covers_count(
                            self.matrix@,
                            found.solution_map@.dom(),
                            g,
                            self.matrix@.cells.len() as int,
                        ) == 1) && (!self.matrix@.headers[g].primary ==> covers_count(
                            self.matrix@,
                            found.solution_map@.dom(),
                            g,
                            self.matrix@.cells.len() as int,
                        ) <= 1) by {
                            lemma_covers_count_empty(
                                self.matrix@,
                                g,
                                self.matrix@.cells.len() as int,
                            );
                            assert(found.solution_map@.dom() =~= Set::<usize>::empty());
                            assert(covers_count(
                                self.matrix@,
                                found.solution_map@.dom(),
                                g,
                                self.matrix@.cells.len() as int,
                            ) == 0);
                            assert(self.matrix@.headers[g].primary == orig.headers[g].primary);
                            assert(!orig.headers[g].primary);
                        }
                        assert(false);
                    }
                }
                advance = true;
            }
            proof {
                if self.choose_min {
                    let m = spec_sol_map(pre.s, pre.sol.take(elem.spec_k()));
                    let emitted = pre.s.cells[0].right == 0 && exact_cover_counts(pre.s, m.dom());
                    assert(deep_sols(solutions@) == if emitted {
                        pre.solutions.push(m)
                    } else {
                        pre.solutions
                    });
                    assert(advance == (pre.advance || pre.s.cells[0].right == 0));
                    assert(self.matrix@ == pre.s);
                    assert(stack@ == pre.stack);
                    assert(sol@ == pre.sol);
                    assert(stepped.1 == false);
                }
            }
            let next_row: usize;
            match elem {
                StackElem::Root if advance => {
                    stack.pop();
                    proof {
                        if self.choose_min {
                            assert(stepped.0 == (Search {
                                s: self.matrix@,
                                stack: stack@,
                                sol: sol@,
                                advance: advance,
                                solutions: deep_sols(solutions@),
                            }));
                            assert(spec_run(pre, rf, fuel0) == spec_run(
                                stepped.0,
                                rf,
                                (fuel0 - 1) as nat,
                            ));
                            assert(budget as nat == (fuel0 - 1) as nat);
                        }
                    }
                    continue ;
                },
                StackElem::Iteration { k: _ik, current_row, start_row } if advance => {
                    stack.pop();
                    let ghost s1 = spec_uncover_along(
                        pre.s,
                        current_row as int,
                        current_row as int,
                        pre.s.cells.len(),
                    );
                    self.uncover_row(current_row);
                    proof {
                        assert(self.matrix@ == s1);
                        assert(cell_ok(self.matrix@, current_row as int));
                    }
                    let nr = self.matrix.cell_down(current_row);
                    if nr == start_row {
                        let col = self.matrix.cell_header(nr);
                        proof {
                            assert(crate::matrix::header_ok(self.matrix@, start_row as int));
                            assert(cell_ok(self.matrix@, start_row as int));
                        }
                        self.matrix.uncover(col);
                        advance = true;
                        proof {
                            if self.choose_min {
                                assert(self.matrix@ == spec_uncover(s1, col as int));
                                assert(stepped.0 == (Search {
                                    s: self.matrix@,
                                    stack: stack@,
                                    sol: sol@,
                                    advance: advance,
                                    solutions: deep_sols(solutions@),
                                }));
                                assert(spec_run(pre, rf, fuel0) == spec_run(
                                    stepped.0,
                                    rf,
                                    (fuel0 - 1) as nat,
                                ));
                                assert(budget as nat == (fuel0 - 1) as nat);
                            }
                        }
                        continue ;
                    } else {
                        stack.push(StackElem::Iteration { k, current_row: nr, start_row });
                        Self::add_to_sol(&mut sol, k - 1, nr);
                        advance = false;
                        proof {
                            if self.choose_min {
                                assert(stack@ == pre.stack.drop_last().push(
                                    StackElem::Iteration { k, current_row: nr, start_row },
                                ));
                                assert(sol@ == spec_add_pick(pre.sol, elem.spec_k() - 1, nr));
                            }
                        }
                        next_row = nr;
                    }
                },
                _ => {
                    let chosen: Option<usize> = if self.choose_min {
                        self.matrix.min_column()
                    } else {
                        self.matrix.random_column()
                    };
                    proof {
                        if self.choose_min {
                            assert(chosen == crate::matrix::spec_min_column(pre.s));
                        }
                    }
                    match chosen {
                        None => {
                            advance = true;
                            proof {
                                if self.choose_min {
                                    assert(stepped.0 == (Search {
                                        s: self.matrix@,
                                        stack: stack@,
                                        sol: sol@,
                                        advance: advance,
                                        solutions: deep_sols(solutions@),
                                    }));
                                    assert(spec_run(pre, rf, fuel0) == spec_run(
                                        stepped.0,
                                        rf,
                                        (fuel0 - 1) as nat,
                                    ));
                                    assert(budget as nat == (fuel0 - 1) as nat);
                                }
                            }
                            continue ;
                        },
                        Some(start_col) => {
                            if self.matrix.header_size(start_col) == 0 {
                                advance = true;
                                proof {
                                    if self.choose_min {
                                        assert(stepped.0 == (Search {
                                            s: self.matrix@,
                                            stack: stack@,
                                            sol: sol@,
                                            advance: advance,
                                            solutions: deep_sols(solutions@),
                                        }));
                                        assert(spec_run(pre, rf, fuel0) == spec_run(
                                            stepped.0,
                                            rf,
                                            (fuel0 - 1) as nat,
                                        ));
                                        assert(budget as nat == (fuel0 - 1) as nat);
                                    }
                                }
                                continue ;
                            }
                            proof {
                                assert(cell_ok(self.matrix@, start_col as int));
                            }
                            self.matrix.cover(start_col);
                            proof {
                                assert(same_shape(orig, self.matrix@));
                                assert(cell_ok(self.matrix@, start_col as int));
                                if self.choose_min {
                                    assert(self.matrix@ == spec_cover(pre.s, start_col as int));
                                }
                            }
                            let nr = self.matrix.cell_down(start_col);
                            stack.push(
                                StackElem::Iteration {
                                    k: k + 1,
                                    current_row: nr,
                                    start_row: start_col,
                                },
                            );
                            Self::add_to_sol(&mut sol, k, nr);
                            advance = false;
                            proof {
                                if self.choose_min {
                                    assert(stack@ == pre.stack.push(
                                        StackElem::Iteration {
                                            k: (k + 1) as usize,
                                            current_row: nr,
                                            start_row: start_col,
                                        },
                                    ));
                                    assert(sol@ == spec_add_pick(pre.sol, elem.spec_k(), nr));
                                }
                            }
                            next_row = nr;
                        },
                    }
                },
            }
            self.cover_row(next_row);
            proof {
                if self.choose_min {
                    assert(stepped.0 == (Search {
                        s: self.matrix@,
                        stack: stack@,
                        sol: sol@,
                        advance: advance,
                        solutions: deep_sols(solutions@),
                    }));
                    assert(spec_run(pre, rf, fuel0) == spec_run(stepped.0, rf, (fuel0 - 1) as nat));
                    assert(budget as nat == (fuel0 - 1) as nat);
                }
            }
        }
        proof {
            if orig.row_count == 0 && !no_primary(orig) && solutions@.len() > 0 {
                lemma_no_rows_no_cover(orig, solutions@[0].solution_map@);
            }
            if self.choose_min {
                assert(spec_run(
                    (Search {
                        s: self.matrix@,
                        stack: stack@,
                        sol: sol@,
                        advance: advance,
                        solutions: deep_sols(solutions@),
                    }),
                    self.return_first,
                    budget as nat,
                ) == deep_sols(solutions@));
            }
        }
        solutions
    }
}

} // verus!
