use vstd::prelude::*;

verus! {

/// Two cells touch horizontally, vertically or diagonally (a cell never touches itself).
pub open spec fn adjacent(a: (int, int), b: (int, int)) -> bool {
    &&& a != b
    &&& -1 <= a.0 - b.0 <= 1
    &&& -1 <= a.1 - b.1 <= 1
}

/// Row-major order on cells.
pub open spec fn cell_before(a: (int, int), b: (int, int)) -> bool {
    a.0 < b.0 || (a.0 == b.0 && a.1 < b.1)
}

/// `s` lists, in row-major order and each once, exactly the in-bounds cells adjacent to `x`.
pub open spec fn lists_neighbors(m: Seq<Seq<char>>, x: (int, int), s: Seq<(int, int)>) -> bool {
    &&& forall|k: int, l: int| 0 <= k < l < s.len() ==> cell_before(#[trigger] s[k], #[trigger] s[l])
    &&& forall|p: (int, int)| #[trigger] s.contains(p) <==> in_grid(m, p) && adjacent(x, p)
}

/// The neighbours of `x`, in row-major order.
pub open spec fn neighbor_list(m: Seq<Seq<char>>, x: (int, int)) -> Seq<(int, int)> {
    choose|s: Seq<(int, int)>| lists_neighbors(m, x, s)
}

/// Two strictly row-major-ordered sequences with the same cells are equal.
pub proof fn lemma_sorted_unique(a: Seq<(int, int)>, b: Seq<(int, int)>)
    requires
        forall|k: int, l: int| 0 <= k < l < a.len() ==> cell_before(#[trigger] a[k], #[trigger] a[l]),
        forall|k: int, l: int| 0 <= k < l < b.len() ==> cell_before(#[trigger] b[k], #[trigger] b[l]),
        forall|p: (int, int)| #![trigger a.contains(p)] #![trigger b.contains(p)] a.contains(p) <==> b.contains(p),
    ensures
        a == b,
    decreases a.len(),
{
    if a.len() == 0 {
        if b.len() > 0 {
            assert(b.contains(b[0]));
            assert(a.contains(b[0]));
        }
        assert(a =~= b);
    } else {
        assert(a.contains(a[0]));
        let j = choose|j: int| 0 <= j < b.len() && b[j] == a[0];
        assert(b.contains(b[0]));
        assert(a.contains(b[0]));
        let i = choose|i: int| 0 <= i < a.len() && a[i] == b[0];
        if j > 0 {
            assert(cell_before(b[0], b[j]));
            if i > 0 {
                assert(cell_before(a[0], a[i]));
            }
        }
        assert(a[0] == b[0]);
        let a1 = a.drop_first();
        let b1 = b.drop_first();
        assert forall|p: (int, int)| #![trigger a1.contains(p)] #![trigger b1.contains(p)] a1.contains(p) <==> b1.contains(p) by {
            if a1.contains(p) {
                let k = choose|k: int| 0 <= k < a1.len() && a1[k] == p;
                assert(cell_before(a[0], a[k + 1]));
                assert(b.contains(p));
                let l = choose|l: int| 0 <= l < b.len() && b[l] == p;
                assert(l != 0);
                assert(b1[l - 1] == p);
            }
            if b1.contains(p) {
                let k = choose|k: int| 0 <= k < b1.len() && b1[k] == p;
                assert(cell_before(b[0], b[k + 1]));
                assert(a.contains(p));
                let l = choose|l: int| 0 <= l < a.len() && a[l] == p;
                assert(l != 0);
                assert(a1[l - 1] == p);
            }
        }
        assert forall|k: int, l: int| 0 <= k < l < a1.len() implies cell_before(#[trigger] a1[k], #[trigger] a1[l]) by {
            assert(cell_before(a[k + 1], a[l + 1]));
        }
        assert forall|k: int, l: int| 0 <= k < l < b1.len() implies cell_before(#[trigger] b1[k], #[trigger] b1[l]) by {
            assert(cell_before(b[k + 1], b[l + 1]));
        }
        lemma_sorted_unique(a1, b1);
        assert(a =~= b) by {
            assert forall|k: int| 0 <= k < a.len() implies a[k] == b[k] by {
                if k > 0 {
                    assert(a1[k - 1] == b1[k - 1]);
                }
            }
        }
    }
}

/// The cells of `nb` as pairs of integers.
pub open spec fn cells_of(nb: Seq<(usize, usize)>) -> Seq<(int, int)> {
    nb.map_values(|p: (usize, usize)| (p.0 as int, p.1 as int))
}

/// A rectangle of characters: at least one row, every row of the same positive length.
pub open spec fn is_rectangle(m: Seq<Seq<char>>) -> bool {
    &&& m.len() > 0
    &&& m[0].len() > 0
    &&& forall|i: int| 0 <= i < m.len() ==> #[trigger] m[i].len() == m[0].len()
}

/// The cell lies inside the rectangle `m`.
pub open spec fn in_grid(m: Seq<Seq<char>>, p: (int, int)) -> bool {
    0 <= p.0 < m.len() && 0 <= p.1 < m[0].len()
}

/// An immutable rectangular matrix of characters.
pub struct Grid {
    cells: Vec<Vec<char>>,
}

impl View for Grid {
    type V = Seq<Seq<char>>;

    closed spec fn view(&self) -> Seq<Seq<char>> {
        self.cells@.map_values(|row: Vec<char>| row@)
    }
}

impl Grid {
    /// The grid is a proper rectangle.
    pub open spec fn wf(&self) -> bool {
        is_rectangle(self@)
    }

    pub open spec fn spec_rows(&self) -> int {
        self@.len() as int
    }

    pub open spec fn spec_cols(&self) -> int {
        self@[0].len() as int
    }

    /// Builds a grid from its rows; `None` when there are no rows, a row is
    /// empty, or two rows differ in length.
    pub fn new(rows: Vec<Vec<char>>) -> (r: Option<Grid>)
        ensures
            match r {
                Some(g) => g.wf() && g@ == rows@.map_values(|row: Vec<char>| row@),
                None => !is_rectangle(rows@.map_values(|row: Vec<char>| row@)),
            },
    {
        let ghost m = rows@.map_values(|row: Vec<char>| row@);
        if rows.len() == 0 {
            return None;
        }
        let width = rows[0].len();
        if width == 0 {
            return None;
        }
        let mut i: usize = 0;
        while i < rows.len()
            invariant
                0 <= i <= rows.len(),
                m == rows@.map_values(|row: Vec<char>| row@),
                width == rows@[0]@.len(),
                forall|k: int| 0 <= k < i ==> #[trigger] m[k].len() == width,
            decreases rows.len() - i,
        {
            if rows[i].len() != width {
                assert(m[i as int].len() != m[0].len());
                return None;
            }
            i = i + 1;
        }
        Some(Grid { cells: rows })
    }

    pub fn rows(&self) -> (r: usize)
        requires
            self.wf(),
        ensures
            r == self.spec_rows(),
    {
        self.cells.len()
    }

    pub fn cols(&self) -> (r: usize)
        requires
            self.wf(),
        ensures
            r == self.spec_cols(),
    {
        self.cells[0].len()
    }

    /// The character at row `r`, column `c`.
    pub fn char_at(&self, r: usize, c: usize) -> (ch: char)
        requires
            self.wf(),
            in_grid(self@, (r as int, c as int)),
        ensures
            ch == self@[r as int][c as int],
    {
        assert(self@[r as int].len() == self@[0].len());
        self.cells[r][c]
    }

    /// Every in-bounds cell adjacent to `(r, c)`, each once, in row-major order.
    pub fn neighbors(&self, r: usize, c: usize) -> (nb: Vec<(usize, usize)>)
        requires
            self.wf(),
            in_grid(self@, (r as int, c as int)),
        ensures
            forall|k: int|
                0 <= k < nb@.len() ==> in_grid(self@, (#[trigger] nb@[k].0 as int, nb@[k].1 as int))
                    && adjacent((r as int, c as int), (nb@[k].0 as int, nb@[k].1 as int)),
            forall|p: (int, int)|
                in_grid(self@, p) && adjacent((r as int, c as int), p) ==> exists|k: int|
                    0 <= k < nb@.len() && #[trigger] nb@[k].0 == p.0 && nb@[k].1 == p.1,
            forall|k: int, l: int|
                0 <= k < l < nb@.len() ==> cell_before(
                    (#[trigger] nb@[k].0 as int, nb@[k].1 as int),
                    (#[trigger] nb@[l].0 as int, nb@[l].1 as int),
                ),
            cells_of(nb@) == neighbor_list(self@, (r as int, c as int)),
    {
        let rows = self.rows();
        let cols = self.cols();
        let r0: usize = if r > 0 { r - 1 } else { 0 };
        let r1: usize = if r + 1 < rows { r + 1 } else { r };
        let c0: usize = if c > 0 { c - 1 } else { 0 };
        let c1: usize = if c + 1 < cols { c + 1 } else { c };
        let mut nb: Vec<(usize, usize)> = Vec::new();
        let mut i: usize = r0;
        while i <= r1
            invariant
                self.wf(),
                rows == self.spec_rows(),
                cols == self.spec_cols(),
                in_grid(self@, (r as int, c as int)),
                r0 == (if r > 0 { r - 1 } else { 0 }),
                r1 == (if r + 1 < rows { r + 1 } else { r as int }),
                c0 == (if c > 0 { c - 1 } else { 0 }),
                c1 == (if c + 1 < cols { c + 1 } else { c as int }),
                r0 <= i <= r1 + 1,
                forall|k: int|
                    0 <= k < nb@.len() ==> in_grid(self@, (#[trigger] nb@[k].0 as int, nb@[k].1 as int))
                        && adjacent((r as int, c as int), (nb@[k].0 as int, nb@[k].1 as int))
                        && nb@[k].0 < i,
                forall|p: (int, int)|
                    in_grid(self@, p) && adjacent((r as int, c as int), p) && p.0 < i ==> exists|k: int|
                        0 <= k < nb@.len() && #[trigger] nb@[k].0 == p.0 && nb@[k].1 == p.1,
                forall|k: int, l: int|
                    0 <= k < l < nb@.len() ==> cell_before(
                        (#[trigger] nb@[k].0 as int, nb@[k].1 as int),
                        (#[trigger] nb@[l].0 as int, nb@[l].1 as int),
                    ),
            decreases r1 + 1 - i,
        {
            let mut j: usize = c0;
            while j <= c1
                invariant
                    self.wf(),
                    rows == self.spec_rows(),
                    cols == self.spec_cols(),
                    in_grid(self@, (r as int, c as int)),
                    r0 == (if r > 0 { r - 1 } else { 0 }),
                    r1 == (if r + 1 < rows { r + 1 } else { r as int }),
                    c0 == (if c > 0 { c - 1 } else { 0 }),
                    c1 == (if c + 1 < cols { c + 1 } else { c as int }),
                    r0 <= i <= r1,
                    c0 <= j <= c1 + 1,
                    forall|k: int|
                        0 <= k < nb@.len() ==> in_grid(self@, (#[trigger] nb@[k].0 as int, nb@[k].1 as int))
                            && adjacent((r as int, c as int), (nb@[k].0 as int, nb@[k].1 as int))
                            && cell_before((nb@[k].0 as int, nb@[k].1 as int), (i as int, j as int)),
                    forall|p: (int, int)|
                        in_grid(self@, p) && adjacent((r as int, c as int), p) && cell_before(p, (i as int, j as int))
                            ==> exists|k: int|
                            0 <= k < nb@.len() && #[trigger] nb@[k].0 == p.0 && nb@[k].1 == p.1,
                    forall|k: int, l: int|
                        0 <= k < l < nb@.len() ==> cell_before(
                            (#[trigger] nb@[k].0 as int, nb@[k].1 as int),
                            (#[trigger] nb@[l].0 as int, nb@[l].1 as int),
                        ),
                decreases c1 + 1 - j,
            {
                if i != r || j != c {
                    let ghost old_nb = nb@;
                    nb.push((i, j));
                    assert forall|p: (int, int)|
                        in_grid(self@, p) && adjacent((r as int, c as int), p) && cell_before(p, (i as int, j + 1))
                            implies exists|k: int|
                            0 <= k < nb@.len() && #[trigger] nb@[k].0 == p.0 && nb@[k].1 == p.1 by {
                        if p.0 == i && p.1 == j {
                            assert(nb@[old_nb.len() as int].0 == p.0);
                        } else {
                            assert(cell_before(p, (i as int, j as int)));
                            let k = choose|k: int| 0 <= k < old_nb.len() && #[trigger] old_nb[k].0 == p.0 && old_nb[k].1 == p.1;
                            assert(nb@[k].0 == p.0);
                        }
                    }
                }
                j = j + 1;
            }
            i = i + 1;
        }
        proof {
            let s = cells_of(nb@);
            let x = (r as int, c as int);
            assert forall|k: int, l: int| 0 <= k < l < s.len() implies cell_before(#[trigger] s[k], #[trigger] s[l]) by {
                assert(cell_before((nb@[k].0 as int, nb@[k].1 as int), (nb@[l].0 as int, nb@[l].1 as int)));
            }
            assert forall|p: (int, int)| #[trigger] s.contains(p) <==> in_grid(self@, p) && adjacent(x, p) by {
                if s.contains(p) {
                    let k = choose|k: int| 0 <= k < s.len() && s[k] == p;
                    assert(in_grid(self@, (nb@[k].0 as int, nb@[k].1 as int)));
                }
                if in_grid(self@, p) && adjacent(x, p) {
                    let k = choose|k: int| 0 <= k < nb@.len() && #[trigger] nb@[k].0 == p.0 && nb@[k].1 == p.1;
                    assert(s[k] == p);
                }
            }
            assert(lists_neighbors(self@, x, s));
            let t = neighbor_list(self@, x);
            assert(lists_neighbors(self@, x, t));
            lemma_sorted_unique(s, t);
        }
        nb
    }
}

} // verus!
