use vstd::prelude::*;

verus! {

/// `m` with the flag at row `r`, column `c` set to `b`.
pub open spec fn mark(m: Seq<Seq<bool>>, r: int, c: int, b: bool) -> Seq<Seq<bool>> {
    m.update(r, m[r].update(c, b))
}

/// Number of unset flags in one row.
pub open spec fn unvisited_in_row(s: Seq<bool>) -> nat
    decreases s.len(),
{
    if s.len() == 0 {
        0
    } else {
        unvisited_in_row(s.drop_last()) + if s.last() {
            0nat
        } else {
            1nat
        }
    }
}

/// Number of unset flags in a mask.
pub open spec fn unvisited(m: Seq<Seq<bool>>) -> nat
    decreases m.len(),
{
    if m.len() == 0 {
        0
    } else {
        unvisited(m.drop_last()) + unvisited_in_row(m.last())
    }
}

proof fn lemma_row_mark(s: Seq<bool>, c: int)
    requires
        0 <= c < s.len(),
        !s[c],
    ensures
        unvisited_in_row(s.update(c, true)) + 1 == unvisited_in_row(s),
    decreases s.len(),
{
    if c == s.len() - 1 {
        assert(s.update(c, true).drop_last() =~= s.drop_last());
    } else {
        assert(s.update(c, true).drop_last() =~= s.drop_last().update(c, true));
        lemma_row_mark(s.drop_last(), c);
    }
}

/// Setting an unset flag lowers the number of unset flags by one.
pub proof fn lemma_mark_decreases(m: Seq<Seq<bool>>, r: int, c: int)
    requires
        0 <= r < m.len(),
        0 <= c < m[r].len(),
        !m[r][c],
    ensures
        unvisited(mark(m, r, c, true)) + 1 == unvisited(m),
    decreases m.len(),
{
    if r == m.len() - 1 {
        assert(mark(m, r, c, true).drop_last() =~= m.drop_last());
        lemma_row_mark(m[r], c);
    } else {
        assert(mark(m, r, c, true).drop_last() =~= mark(m.drop_last(), r, c, true));
        lemma_mark_decreases(m.drop_last(), r, c);
    }
}

/// The mathematical content of a search state.
pub struct StateView {
    /// One flag per grid cell, set while the cell is on the current path.
    pub visited: Seq<Seq<bool>>,
    /// The characters of the current candidate word.
    pub path: Seq<char>,
    /// The cells of the current path, in order.
    pub cells: Seq<(int, int)>,
}

impl StateView {
    pub open spec fn rows(self) -> int {
        self.visited.len() as int
    }

    pub open spec fn cols(self) -> int {
        if self.visited.len() > 0 {
            self.visited[0].len() as int
        } else {
            0
        }
    }

    /// The mask has the grid's shape, its set flags are exactly the cells of
    /// the path, and no cell occurs twice on the path.
    pub open spec fn wf(self, rows: int, cols: int) -> bool {
        &&& self.visited.len() == rows
        &&& forall|i: int| 0 <= i < rows ==> #[trigger] self.visited[i].len() == cols
        &&& forall|i: int, j: int|
            0 <= i < rows && 0 <= j < cols ==> (#[trigger] self.visited[i][j] <==> self.cells.contains((i, j)))
        &&& forall|k: int|
            0 <= k < self.cells.len() ==> 0 <= (#[trigger] self.cells[k]).0 < rows && 0 <= self.cells[k].1 < cols
        &&& self.cells.no_duplicates()
        &&& self.cells.len() == self.path.len()
    }

    /// The state after stepping onto cell `(r, c)` holding `ch`.
    pub open spec fn entered(self, r: int, c: int, ch: char) -> StateView {
        StateView {
            visited: mark(self.visited, r, c, true),
            path: self.path.push(ch),
            cells: self.cells.push((r, c)),
        }
    }

    /// The state after stepping back off cell `(r, c)`.
    pub open spec fn left(self, r: int, c: int) -> StateView {
        StateView {
            visited: mark(self.visited, r, c, false),
            path: self.path.drop_last(),
            cells: self.cells.drop_last(),
        }
    }
}

/// Stepping onto an unvisited cell and back off it restores the state exactly:
/// the same mask, the same candidate word and the same path.
pub proof fn lemma_enter_leave_restores(s: StateView, rows: int, cols: int, r: int, c: int, ch: char)
    requires
        s.wf(rows, cols),
        0 <= r < rows,
        0 <= c < cols,
        !s.visited[r][c],
    ensures
        s.entered(r, c, ch).left(r, c) == s,
{
    let e = s.entered(r, c, ch);
    assert(e.visited[r] =~= s.visited[r].update(c, true));
    assert(e.visited[r].update(c, false) =~= s.visited[r]);
    assert(mark(e.visited, r, c, false) =~= s.visited);
    assert(e.path.drop_last() =~= s.path);
    assert(e.cells.drop_last() =~= s.cells);
}

/// Scratch data of one traversal: the visited mask and the candidate word.
pub struct SearchState {
    visited: Vec<Vec<bool>>,
    path: Vec<char>,
    cells: Ghost<Seq<(int, int)>>,
}

impl View for SearchState {
    type V = StateView;

    closed spec fn view(&self) -> StateView {
        StateView {
            visited: self.visited@.map_values(|row: Vec<bool>| row@),
            path: self.path@,
            cells: self.cells@,
        }
    }
}

impl SearchState {
    /// An empty state for a `rows` by `cols` grid.
    pub fn new(rows: usize, cols: usize) -> (s: SearchState)
        ensures
            s@.wf(rows as int, cols as int),
            s@.rows() == rows,
            rows > 0 ==> s@.cols() == cols,
            s@.cells.len() == 0,
            s@.path.len() == 0,
    {
        let mut visited: Vec<Vec<bool>> = Vec::new();
        let mut i: usize = 0;
        while i < rows
            invariant
                0 <= i <= rows,
                visited@.len() == i,
                forall|k: int| 0 <= k < i ==> #[trigger] visited@[k]@.len() == cols,
                forall|k: int, j: int| 0 <= k < i && 0 <= j < cols ==> !#[trigger] visited@[k]@[j],
            decreases rows - i,
        {
            let row: Vec<bool> = vec![false; cols];
            visited.push(row);
            i = i + 1;
        }
        let s = SearchState { visited, path: Vec::new(), cells: Ghost(Seq::empty()) };
        assert forall|k: int| 0 <= k < rows implies #[trigger] s@.visited[k].len() == cols by {
            assert(visited@[k]@.len() == cols);
        }
        assert forall|k: int, j: int| 0 <= k < rows && 0 <= j < cols implies (#[trigger] s@.visited[k][j]
            <==> s@.cells.contains((k, j))) by {
            assert(!visited@[k]@[j]);
        }
        s
    }

    /// Marks `(r, c)` visited and appends `ch` to the candidate word.
    pub fn enter(&mut self, r: usize, c: usize, ch: char)
        requires
            old(self)@.wf(old(self)@.rows(), old(self)@.cols()),
            0 <= r < old(self)@.rows(),
            0 <= c < old(self)@.cols(),
            !old(self)@.visited[r as int][c as int],
        ensures
            final(self)@ == old(self)@.entered(r as int, c as int, ch),
            final(self)@.wf(old(self)@.rows(), old(self)@.cols()),
    {
        let ghost s = self@;
        let ghost rows = s.visited.len() as int;
        let ghost cols = s.cols();
        assert(s.visited[r as int].len() == cols);
        let mut row = self.visited[r].clone();
        row.set(c, true);
        self.visited.set(r, row);
        self.path.push(ch);
        self.cells = Ghost(self.cells@.push((r as int, c as int)));
        assert(self@.visited =~= mark(s.visited, r as int, c as int, true));
        assert(self@ == s.entered(r as int, c as int, ch));
        assert forall|i: int, j: int| 0 <= i < rows && 0 <= j < cols implies (#[trigger] self@.visited[i][j]
            <==> self@.cells.contains((i, j))) by {
            if i == r && j == c {
                assert(self@.cells[self@.cells.len() - 1] == (i, j));
            } else {
                assert(s.visited[i][j] == self@.visited[i][j]);
                if s.cells.contains((i, j)) {
                    let k = choose|k: int| 0 <= k < s.cells.len() && s.cells[k] == (i, j);
                    assert(self@.cells[k] == (i, j));
                }
                if self@.cells.contains((i, j)) {
                    let k = choose|k: int| 0 <= k < self@.cells.len() && self@.cells[k] == (i, j);
                    assert(s.cells[k] == (i, j));
                }
            }
        }
        assert forall|k: int| 0 <= k < self@.visited.len() implies #[trigger] self@.visited[k].len() == cols by {
        }
        assert(!s.cells.contains((r as int, c as int)));
    }

    /// Unmarks `(r, c)`, the last cell of the path, and drops the last character.
    pub fn leave(&mut self, r: usize, c: usize)
        requires
            old(self)@.wf(old(self)@.rows(), old(self)@.cols()),
            old(self)@.cells.len() > 0,
            old(self)@.cells.last() == (r as int, c as int),
        ensures
            final(self)@ == old(self)@.left(r as int, c as int),
            final(self)@.wf(old(self)@.rows(), old(self)@.cols()),
    {
        let ghost s = self@;
        let ghost rows = s.visited.len() as int;
        let ghost cols = s.cols();
        assert(s.cells[s.cells.len() - 1] == (r as int, c as int));
        assert(s.visited[r as int].len() == cols);
        let mut row = self.visited[r].clone();
        row.set(c, false);
        self.visited.set(r, row);
        self.path.pop();
        self.cells = Ghost(self.cells@.drop_last());
        assert(self@.visited =~= mark(s.visited, r as int, c as int, false));
        assert(self@.path =~= s.path.drop_last());
        assert(self@ == s.left(r as int, c as int));
        assert forall|i: int, j: int| 0 <= i < rows && 0 <= j < cols implies (#[trigger] self@.visited[i][j]
            <==> self@.cells.contains((i, j))) by {
            if i == r && j == c {
                if self@.cells.contains((i, j)) {
                    let k = choose|k: int| 0 <= k < self@.cells.len() && self@.cells[k] == (i, j);
                    assert(s.cells[k] == s.cells[s.cells.len() - 1]);
                }
            } else {
                assert(s.visited[i][j] == self@.visited[i][j]);
                if s.cells.contains((i, j)) {
                    let k = choose|k: int| 0 <= k < s.cells.len() && s.cells[k] == (i, j);
                    assert(k != s.cells.len() - 1);
                    assert(self@.cells[k] == (i, j));
                }
                if self@.cells.contains((i, j)) {
                    let k = choose|k: int| 0 <= k < self@.cells.len() && self@.cells[k] == (i, j);
                    assert(s.cells[k] == (i, j));
                }
            }
        }
        assert forall|k: int| 0 <= k < self@.visited.len() implies #[trigger] self@.visited[k].len() == cols by {
        }
    }

    /// Whether `(r, c)` is on the current path.
    pub fn is_visited(&self, r: usize, c: usize) -> (b: bool)
        requires
            self@.wf(self@.rows(), self@.cols()),
            0 <= r < self@.rows(),
            0 <= c < self@.cols(),
        ensures
            b == self@.visited[r as int][c as int],
    {
        assert(self@.visited[r as int].len() == self@.cols());
        self.visited[r][c]
    }

    /// The current candidate word.
    pub fn path(&self) -> (p: &Vec<char>)
        ensures
            p@ == self@.path,
    {
        &self.path
    }
}

} // verus!
