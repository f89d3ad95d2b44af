use vstd::prelude::*;
use crate::dictionary::{Dictionary, starts_with};
use crate::grid::{Grid, adjacent, cells_of, in_grid, is_rectangle, neighbor_list};
use vstd::set_lib::{lemma_int_range, lemma_len_subset, set_int_range};
use crate::sink::ResultSink;
use crate::state::{SearchState, lemma_enter_leave_restores, lemma_mark_decreases, unvisited};

verus! {

/// Each cell of `p` touches the next.
pub open spec fn is_chain(p: Seq<(int, int)>) -> bool {
    forall|i: int| 0 <= i < p.len() - 1 ==> adjacent(#[trigger] p[i], p[i + 1])
}

/// A non-empty path of adjacent, non-repeating cells inside the grid.
pub open spec fn is_simple_path(g: Seq<Seq<char>>, p: Seq<(int, int)>) -> bool {
    &&& p.len() >= 1
    &&& forall|i: int| 0 <= i < p.len() ==> in_grid(g, #[trigger] p[i])
    &&& is_chain(p)
    &&& p.no_duplicates()
}

/// The characters read along `p`.
pub open spec fn spell(g: Seq<Seq<char>>, p: Seq<(int, int)>) -> Seq<char> {
    p.map_values(|x: (int, int)| g[x.0][x.1])
}

/// Some simple path of the grid spells `w`.
pub open spec fn embeddable(g: Seq<Seq<char>>, w: Seq<char>) -> bool {
    exists|p: Seq<(int, int)>| is_simple_path(g, p) && #[trigger] spell(g, p) == w
}

/// `q` begins with the cells of `p`.
pub open spec fn extends(q: Seq<(int, int)>, p: Seq<(int, int)>) -> bool {
    p.len() <= q.len() && q.subrange(0, p.len() as int) == p
}

/// `out` lists exactly the dictionary words that the grid can spell (each at
/// least once, in any order).
pub open spec fn reports_exactly(g: Seq<Seq<char>>, d: Set<Seq<char>>, out: Seq<Seq<char>>) -> bool {
    forall|w: Seq<char>| #[trigger] out.contains(w) <==> d.contains(w) && embeddable(g, w)
}

/// Every dictionary word spelled by a simple path that begins with `p` occurs in
/// `out` at an index not below `base`.
pub open spec fn covers(g: Seq<Seq<char>>, d: Set<Seq<char>>, out: Seq<Seq<char>>, base: int, p: Seq<(int, int)>) -> bool {
    forall|q: Seq<(int, int)>|
        is_simple_path(g, q) && extends(q, p) && d.contains(#[trigger] spell(g, q)) ==> exists|i: int|
            base <= i < out.len() && out[i] == spell(g, q)
}

/// Number of cells of the grid.
pub open spec fn grid_size(g: Seq<Seq<char>>) -> int {
    (g.len() * g[0].len()) as int
}

/// What is recorded on entering the last cell of path `p`: its word, if the
/// dictionary holds it.
pub open spec fn recorded_at(g: Seq<Seq<char>>, d: Set<Seq<char>>, p: Seq<(int, int)>) -> Seq<Seq<char>> {
    if d.contains(spell(g, p)) {
        seq![spell(g, p)]
    } else {
        Seq::empty()
    }
}

/// The words recorded by the depth-first traversal that has just entered the
/// last cell of `p`: the word of `p` itself, then, for each neighbour of that
/// cell in row-major order that is not on `p`, the traversal entering it.
pub open spec fn traversal(g: Seq<Seq<char>>, d: Set<Seq<char>>, p: Seq<(int, int)>) -> Seq<Seq<char>>
    decreases grid_size(g) - p.len() + 1, 0int,
{
    if p.len() == 0 || p.len() > grid_size(g) {
        Seq::empty()
    } else {
        recorded_at(g, d, p) + extensions(g, d, p, neighbor_list(g, p.last()), 0)
    }
}

/// The traversals into the cells `ns[k..]` that are not on `p`, one after another.
pub open spec fn extensions(
    g: Seq<Seq<char>>,
    d: Set<Seq<char>>,
    p: Seq<(int, int)>,
    ns: Seq<(int, int)>,
    k: int,
) -> Seq<Seq<char>>
    decreases grid_size(g) - p.len(), ns.len() - k,
{
    if k < 0 || k >= ns.len() || p.len() > grid_size(g) {
        Seq::empty()
    } else {
        (if p.contains(ns[k]) || p.len() >= grid_size(g) {
            Seq::empty()
        } else {
            traversal(g, d, p.push(ns[k]))
        }) + extensions(g, d, p, ns, k + 1)
    }
}

/// The traversals from the cells `(a, b)`, `(a, b + 1)`, ... of row `a`.
pub open spec fn row_starts(g: Seq<Seq<char>>, d: Set<Seq<char>>, a: int, b: int) -> Seq<Seq<char>>
    decreases g[0].len() - b,
{
    if b < 0 || b >= g[0].len() {
        Seq::empty()
    } else {
        traversal(g, d, seq![(a, b)]) + row_starts(g, d, a, b + 1)
    }
}

/// The traversals from every cell of rows `a`, `a + 1`, ..., in row-major order.
pub open spec fn rows_from(g: Seq<Seq<char>>, d: Set<Seq<char>>, a: int) -> Seq<Seq<char>>
    decreases g.len() - a,
{
    if a < 0 || a >= g.len() {
        Seq::empty()
    } else {
        row_starts(g, d, a, 0) + rows_from(g, d, a + 1)
    }
}

/// Everything a search of the grid records: the traversals from every start
/// cell, in row-major order.
pub open spec fn all_starts(g: Seq<Seq<char>>, d: Set<Seq<char>>) -> Seq<Seq<char>> {
    rows_from(g, d, 0)
}

proof fn lemma_spell_push_keeps_prefix(g: Seq<Seq<char>>, p: Seq<(int, int)>, x: (int, int), w0: Seq<char>)
    requires
        starts_with(spell(g, p), w0),
    ensures
        starts_with(spell(g, p.push(x)), w0),
{
    assert(spell(g, p.push(x)) =~= spell(g, p).push(g[x.0][x.1]));
    assert(spell(g, p.push(x)).subrange(0, w0.len() as int) =~= spell(g, p).subrange(0, w0.len() as int));
}

proof fn lemma_dead_traversal(g: Seq<Seq<char>>, d: Set<Seq<char>>, p: Seq<(int, int)>, w0: Seq<char>)
    requires
        forall|w: Seq<char>| d.contains(w) ==> !starts_with(w, w0),
        starts_with(spell(g, p), w0),
    ensures
        traversal(g, d, p) == Seq::<Seq<char>>::empty(),
    decreases grid_size(g) - p.len() + 1, 0int,
{
    if p.len() == 0 || p.len() > grid_size(g) {
    } else {
        assert(!d.contains(spell(g, p)));
        lemma_dead_extensions(g, d, p, neighbor_list(g, p.last()), 0, w0);
        assert(traversal(g, d, p) =~= Seq::<Seq<char>>::empty());
    }
}

proof fn lemma_dead_extensions(
    g: Seq<Seq<char>>,
    d: Set<Seq<char>>,
    p: Seq<(int, int)>,
    ns: Seq<(int, int)>,
    k: int,
    w0: Seq<char>,
)
    requires
        forall|w: Seq<char>| d.contains(w) ==> !starts_with(w, w0),
        starts_with(spell(g, p), w0),
    ensures
        extensions(g, d, p, ns, k) == Seq::<Seq<char>>::empty(),
    decreases grid_size(g) - p.len(), ns.len() - k,
{
    if k < 0 || k >= ns.len() || p.len() > grid_size(g) {
    } else {
        if !(p.contains(ns[k]) || p.len() >= grid_size(g)) {
            lemma_spell_push_keeps_prefix(g, p, ns[k], w0);
            lemma_dead_traversal(g, d, p.push(ns[k]), w0);
        }
        lemma_dead_extensions(g, d, p, ns, k + 1, w0);
        assert(extensions(g, d, p, ns, k) =~= Seq::<Seq<char>>::empty());
    }
}

/// Every entry of `out` from `base` on is a dictionary word that the grid can spell.
pub open spec fn sound_from(g: Seq<Seq<char>>, d: Set<Seq<char>>, out: Seq<Seq<char>>, base: int) -> bool {
    forall|i: int| base <= i < out.len() ==> d.contains(#[trigger] out[i]) && embeddable(g, out[i])
}

proof fn lemma_covers_grow(g: Seq<Seq<char>>, d: Set<Seq<char>>, a: Seq<Seq<char>>, b: Seq<Seq<char>>, base: int, p: Seq<(int, int)>)
    requires
        covers(g, d, a, base, p),
        a.is_prefix_of(b),
        0 <= base,
    ensures
        covers(g, d, b, base, p),
{
    assert forall|q: Seq<(int, int)>|
        is_simple_path(g, q) && extends(q, p) && d.contains(#[trigger] spell(g, q)) implies exists|i: int|
            base <= i < b.len() && b[i] == spell(g, q) by {
        let i = choose|i: int| base <= i < a.len() && a[i] == spell(g, q);
        assert(b.subrange(0, a.len() as int)[i] == b[i]);
    }
}

proof fn lemma_sound_grow(g: Seq<Seq<char>>, d: Set<Seq<char>>, a: Seq<Seq<char>>, b: Seq<Seq<char>>, base: int)
    requires
        sound_from(g, d, a, base),
        sound_from(g, d, b, a.len() as int),
        a.is_prefix_of(b),
        0 <= base <= a.len(),
    ensures
        sound_from(g, d, b, base),
{
    assert forall|i: int| base <= i < b.len() implies d.contains(#[trigger] b[i]) && embeddable(g, b[i]) by {
        if i < a.len() {
            assert(b.subrange(0, a.len() as int)[i] == b[i]);
            assert(a[i] == b[i]);
        }
    }
}

proof fn lemma_spell_prefix(g: Seq<Seq<char>>, q: Seq<(int, int)>, n: int)
    requires
        0 <= n <= q.len(),
    ensures
        spell(g, q).subrange(0, n) == spell(g, q.subrange(0, n)),
{
    assert(spell(g, q).subrange(0, n) =~= spell(g, q.subrange(0, n)));
}

/// Depth-first traversal from `(r, c)`, extending the path held in `state`.
fn search_from(
    grid: &Grid,
    dict: &Dictionary,
    state: &mut SearchState,
    r: usize,
    c: usize,
    sink: &mut ResultSink,
    prune: bool,
    budget: Ghost<nat>,
)
    requires
        budget@ == unvisited(old(state)@.visited),
        grid.wf(),
        old(state)@.wf(grid.spec_rows(), grid.spec_cols()),
        old(state)@.rows() == grid.spec_rows(),
        old(state)@.cols() == grid.spec_cols(),
        old(state)@.path == spell(grid@, old(state)@.cells),
        in_grid(grid@, (r as int, c as int)),
        !old(state)@.visited[r as int][c as int],
        is_chain(old(state)@.cells.push((r as int, c as int))),
    ensures
        final(state)@ == old(state)@,
        old(sink)@.is_prefix_of(final(sink)@),
        sound_from(grid@, dict@, final(sink)@, old(sink)@.len() as int),
        covers(grid@, dict@, final(sink)@, old(sink)@.len() as int, old(state)@.cells.push((r as int, c as int))),
        final(sink)@ == old(sink)@ + traversal(grid@, dict@, old(state)@.cells.push((r as int, c as int))),
        old(state)@.cells.len() < grid_size(grid@),
    decreases budget@,
{
    let ghost s0 = state@;
    let ghost g = grid@;
    let ghost d = dict@;
    let ghost base = sink@.len() as int;
    let ghost out0 = sink@;
    let ghost p1 = s0.cells.push((r as int, c as int));
    let ghost n = p1.len() as int;
    let ch = grid.char_at(r, c);
    state.enter(r, c, ch);
    let ghost s1 = state@;
    proof {
        lemma_mark_decreases(s0.visited, r as int, c as int);
        assert(s1.path =~= spell(g, p1));
        assert(is_simple_path(g, p1)) by {
            assert forall|i: int| 0 <= i < p1.len() implies in_grid(g, #[trigger] p1[i]) by {
                if i < s0.cells.len() {
                    assert(s0.cells[i] == p1[i]);
                }
            }
        }
        assert(embeddable(g, spell(g, p1)));
        lemma_path_length_bound(g, p1);
        assert(p1.last() == (r as int, c as int));
        assert(traversal(g, d, p1) == recorded_at(g, d, p1) + extensions(g, d, p1, neighbor_list(g, (r as int, c as int)), 0));
    }
    let ghost ns = neighbor_list(g, (r as int, c as int));
    if dict.contains(state.path()) {
        let w = state.path().clone();
        sink.record(w);
        proof {
            assert(sink@[sink@.len() - 1] == spell(g, p1));
        }
    }
    proof {
        assert(out0.is_prefix_of(sink@)) by {
            assert(sink@.subrange(0, base) =~= out0);
        }
    }
    let ghost out1 = sink@;
    assert(out1 =~= out0 + recorded_at(g, d, p1));
    assert(d.contains(spell(g, p1)) ==> exists|i: int| base <= i < out1.len() && out1[i] == spell(g, p1));
    let explore = if prune {
        dict.has_prefix(state.path())
    } else {
        true
    };
    if explore {
        let nb = grid.neighbors(r, c);
        let mut k: usize = 0;
        while k < nb.len()
            invariant
                grid.wf(),
                g == grid@,
                d == dict@,
                state@ == s1,
                s1 == s0.entered(r as int, c as int, ch),
                s1.cells == p1,
                s1.path == spell(g, p1),
                is_simple_path(g, p1),
                s1.wf(grid.spec_rows(), grid.spec_cols()),
                s1.rows() == grid.spec_rows(),
                s1.cols() == grid.spec_cols(),
                unvisited(s1.visited) < budget@,
                n == p1.len(),
                p1.last() == (r as int, c as int),
                0 <= k <= nb@.len(),
                forall|j: int|
                    0 <= j < nb@.len() ==> in_grid(g, (#[trigger] nb@[j].0 as int, nb@[j].1 as int))
                        && adjacent((r as int, c as int), (nb@[j].0 as int, nb@[j].1 as int)),
                out0.is_prefix_of(sink@),
                base == out0.len(),
                sound_from(g, d, sink@, base),
                d.contains(spell(g, p1)) ==> exists|i: int| base <= i < sink@.len() && sink@[i] == spell(g, p1),
                forall|j: int|
                    0 <= j < k ==> covers(g, d, sink@, base, p1.push((#[trigger] nb@[j].0 as int, nb@[j].1 as int))),
                cells_of(nb@) == ns,
                p1.len() <= grid_size(g),
                sink@ + extensions(g, d, p1, ns, k as int) == out0 + traversal(g, d, p1),
            decreases nb@.len() - k,
        {
            let (nr, nc) = nb[k];
            let ghost cell = (nr as int, nc as int);
            let ghost before = sink@;
            proof {
                assert(ns[k as int] == cell);
                assert(extensions(g, d, p1, ns, k as int) == (if p1.contains(cell) || p1.len() >= grid_size(g) {
                    Seq::<Seq<char>>::empty()
                } else {
                    traversal(g, d, p1.push(cell))
                }) + extensions(g, d, p1, ns, k + 1));
            }
            if !state.is_visited(nr, nc) {
                proof {
                    assert(is_chain(p1.push(cell))) by {
                        assert forall|i: int| 0 <= i < p1.push(cell).len() - 1 implies adjacent(
                            #[trigger] p1.push(cell)[i],
                            p1.push(cell)[i + 1],
                        ) by {
                            if i < n - 1 {
                                assert(p1.push(cell)[i] == p1[i]);
                                assert(p1.push(cell)[i + 1] == p1[i + 1]);
                            }
                        }
                    }
                }
                let ghost fuel = unvisited(state@.visited);
                search_from(grid, dict, state, nr, nc, sink, prune, Ghost(fuel));
                proof {
                    assert(before.is_prefix_of(sink@));
                    lemma_sound_grow(g, d, before, sink@, base);
                    assert(out0.is_prefix_of(sink@)) by {
                        assert(sink@.subrange(0, base) =~= before.subrange(0, base));
                    }
                    if d.contains(spell(g, p1)) {
                        let i = choose|i: int| base <= i < before.len() && before[i] == spell(g, p1);
                        assert(sink@.subrange(0, before.len() as int)[i] == sink@[i]);
                    }
                    assert forall|j: int| 0 <= j < k implies covers(
                        g,
                        d,
                        sink@,
                        base,
                        p1.push((#[trigger] nb@[j].0 as int, nb@[j].1 as int)),
                    ) by {
                        lemma_covers_grow(g, d, before, sink@, base, p1.push((nb@[j].0 as int, nb@[j].1 as int)));
                    }
                    lemma_covers_grow(g, d, sink@, sink@, base, p1.push(cell));
                    assert(!p1.contains(cell));
                    assert(sink@ + extensions(g, d, p1, ns, k + 1) =~= before + extensions(g, d, p1, ns, k as int));
                }
            } else {
                proof {
                    assert(p1.contains(cell));
                    let m = choose|m: int| 0 <= m < p1.len() && p1[m] == cell;
                    assert forall|q: Seq<(int, int)>|
                        is_simple_path(g, q) && extends(q, p1.push(cell)) && d.contains(#[trigger] spell(g, q))
                            implies exists|i: int| base <= i < sink@.len() && sink@[i] == spell(g, q) by {
                        assert(q.subrange(0, n + 1)[m] == q[m]);
                        assert(q.subrange(0, n + 1)[n] == q[n]);
                        assert(q[m] == q[n]);
                    }
                    assert(extensions(g, d, p1, ns, k as int) =~= extensions(g, d, p1, ns, k + 1));
                }
            }
            k = k + 1;
        }
        proof {
            assert forall|q: Seq<(int, int)>|
                is_simple_path(g, q) && extends(q, p1) && d.contains(#[trigger] spell(g, q))
                    implies exists|i: int| base <= i < sink@.len() && sink@[i] == spell(g, q) by {
                if q.len() == n {
                    assert(q =~= q.subrange(0, n));
                } else {
                    assert(q.subrange(0, n)[n - 1] == q[n - 1]);
                    assert(adjacent(q[n - 1], q[n]));
                    assert(in_grid(g, q[n]));
                    let j = choose|j: int| 0 <= j < nb@.len() && #[trigger] nb@[j].0 == q[n].0 && nb@[j].1 == q[n].1;
                    assert(covers(g, d, sink@, base, p1.push((nb@[j].0 as int, nb@[j].1 as int))));
                    assert(q.subrange(0, n + 1) =~= p1.push((nb@[j].0 as int, nb@[j].1 as int)));
                }
            }
            assert(sink@ =~= out0 + traversal(g, d, p1));
        }
    } else {
        proof {
            assert forall|q: Seq<(int, int)>|
                is_simple_path(g, q) && extends(q, p1) && d.contains(#[trigger] spell(g, q))
                    implies exists|i: int| base <= i < sink@.len() && sink@[i] == spell(g, q) by {
                lemma_spell_prefix(g, q, n);
                assert(starts_with(spell(g, q), spell(g, p1)));
            }
            assert(spell(g, p1).subrange(0, spell(g, p1).len() as int) =~= spell(g, p1));
            lemma_dead_extensions(g, d, p1, ns, 0, spell(g, p1));
            assert(sink@ =~= out0 + traversal(g, d, p1));
        }
    }
    state.leave(r, c);
    proof {
        lemma_enter_leave_restores(s0, grid.spec_rows(), grid.spec_cols(), r as int, c as int, ch);
    }
}

/// Runs a depth-first traversal from every cell in row-major order and appends
/// to `sink` the word of each visited path that the dictionary holds, on
/// entering the path's last cell and once per path.  With `prune`, paths that
/// no dictionary word begins with are not extended; this drops only traversals
/// that record nothing, so the appended sequence is `all_starts` either way.
/// The words appended are exactly the dictionary words that the grid can spell.
pub fn find_words_with(grid: &Grid, dict: &Dictionary, sink: &mut ResultSink, prune: bool)
    requires
        grid.wf(),
    ensures
        old(sink)@.is_prefix_of(final(sink)@),
        reports_exactly(grid@, dict@, final(sink)@.subrange(old(sink)@.len() as int, final(sink)@.len() as int)),
        final(sink)@ == old(sink)@ + all_starts(grid@, dict@),
{
    let ghost g = grid@;
    let ghost d = dict@;
    let ghost out0 = sink@;
    let ghost base = sink@.len() as int;
    let rows = grid.rows();
    let cols = grid.cols();
    let mut state = SearchState::new(rows, cols);
    let ghost s0 = state@;
    proof {
        assert(sink@.subrange(0, base) =~= out0);
    }
    let mut i: usize = 0;
    while i < rows
        invariant
            grid.wf(),
            g == grid@,
            d == dict@,
            rows == grid.spec_rows(),
            cols == grid.spec_cols(),
            state@ == s0,
            s0.wf(rows as int, cols as int),
            s0.rows() == rows,
            s0.cols() == cols,
            s0.cells.len() == 0,
            s0.path.len() == 0,
            0 <= i <= rows,
            out0.is_prefix_of(sink@),
            base == out0.len(),
            sound_from(g, d, sink@, base),
            forall|a: int, b: int| 0 <= a < i && 0 <= b < cols ==> #[trigger] covers(g, d, sink@, base, seq![(a, b)]),
            sink@ + rows_from(g, d, i as int) == out0 + all_starts(g, d),
        decreases rows - i,
    {
        assert(rows_from(g, d, i as int) == row_starts(g, d, i as int, 0) + rows_from(g, d, i + 1));
        assert(sink@ + row_starts(g, d, i as int, 0) + rows_from(g, d, i + 1) =~= sink@ + rows_from(g, d, i as int));
        let mut j: usize = 0;
        while j < cols
            invariant
                grid.wf(),
                g == grid@,
                d == dict@,
                rows == grid.spec_rows(),
                cols == grid.spec_cols(),
                state@ == s0,
                s0.wf(rows as int, cols as int),
                s0.rows() == rows,
                s0.cols() == cols,
                s0.cells.len() == 0,
                s0.path.len() == 0,
                0 <= i < rows,
                0 <= j <= cols,
                out0.is_prefix_of(sink@),
                base == out0.len(),
                sound_from(g, d, sink@, base),
                forall|a: int, b: int|
                    (0 <= a < i && 0 <= b < cols) || (a == i && 0 <= b < j) ==> #[trigger] covers(g, d, sink@, base, seq![(a, b)]),
                sink@ + row_starts(g, d, i as int, j as int) + rows_from(g, d, i + 1) == out0 + all_starts(g, d),
            decreases cols - j,
        {
            let ghost before = sink@;
            assert(row_starts(g, d, i as int, j as int) == traversal(g, d, seq![(i as int, j as int)]) + row_starts(g, d, i as int, j + 1));
            proof {
                assert(s0.path =~= spell(g, s0.cells));
                assert(s0.cells.push((i as int, j as int)) =~= seq![(i as int, j as int)]);
                assert(!s0.cells.contains((i as int, j as int)));
            }
            let ghost fuel = unvisited(state@.visited);
            search_from(grid, dict, &mut state, i, j, sink, prune, Ghost(fuel));
            proof {
                lemma_sound_grow(g, d, before, sink@, base);
                assert(out0.is_prefix_of(sink@)) by {
                    assert(sink@.subrange(0, base) =~= before.subrange(0, base));
                }
                assert forall|a: int, b: int|
                    (0 <= a < i && 0 <= b < cols) || (a == i && 0 <= b < j + 1) implies #[trigger] covers(g, d, sink@, base, seq![(a, b)]) by {
                    if a == i && b == j {
                        lemma_covers_grow(g, d, sink@, sink@, base, seq![(a, b)]);
                    } else {
                        lemma_covers_grow(g, d, before, sink@, base, seq![(a, b)]);
                    }
                }
                assert(sink@ + row_starts(g, d, i as int, j + 1) + rows_from(g, d, i + 1) =~= before + row_starts(g, d, i as int, j as int) + rows_from(g, d, i + 1));
            }
            j = j + 1;
        }
        assert(sink@ + rows_from(g, d, i + 1) =~= sink@ + row_starts(g, d, i as int, j as int) + rows_from(g, d, i + 1));
        i = i + 1;
    }
    assert(sink@ =~= out0 + all_starts(g, d));
    proof {
        let out = sink@;
        let new = out.subrange(base, out.len() as int);
        assert forall|w: Seq<char>| #[trigger] new.contains(w) <==> d.contains(w) && embeddable(g, w) by {
            if new.contains(w) {
                let k = choose|k: int| 0 <= k < new.len() && new[k] == w;
                assert(out[base + k] == w);
            }
            if d.contains(w) && embeddable(g, w) {
                let q = choose|q: Seq<(int, int)>| is_simple_path(g, q) && #[trigger] spell(g, q) == w;
                assert(in_grid(g, q[0]));
                assert(covers(g, d, out, base, seq![(q[0].0, q[0].1)]));
                assert(q.subrange(0, 1) =~= seq![(q[0].0, q[0].1)]);
                let k = choose|k: int| base <= k < out.len() && out[k] == spell(g, q);
                assert(new[k - base] == w);
            }
        }
    }
}

/// A simple path holds at most `rows * cols` cells: a traversal, which
/// extends one simple path by one cell per level, is never deeper than that.
pub proof fn lemma_path_length_bound(g: Seq<Seq<char>>, p: Seq<(int, int)>)
    requires
        is_rectangle(g),
        is_simple_path(g, p),
    ensures
        p.len() <= g.len() * g[0].len(),
{
    let rows = g.len() as int;
    let cols = g[0].len() as int;
    let q = p.map_values(|x: (int, int)| x.0 * cols + x.1);
    assert forall|i: int| 0 <= i < q.len() implies set_int_range(0, rows * cols).contains(#[trigger] q[i]) by {
        let a = p[i];
        assert(in_grid(g, a));
        assert(0 <= a.0 * cols + a.1 < rows * cols) by (nonlinear_arith)
            requires
                0 <= a.0 < rows,
                0 <= a.1 < cols,
        ;
    }
    assert forall|i: int, j: int| 0 <= i < q.len() && 0 <= j < q.len() && i != j implies q[i] != q[j] by {
        let a = p[i];
        let b = p[j];
        assert(in_grid(g, a) && in_grid(g, b));
        assert(a != b);
        if a.0 < b.0 {
            assert(a.0 * cols + a.1 < b.0 * cols + b.1) by (nonlinear_arith)
                requires
                    a.0 < b.0,
                    0 <= a.1 < cols,
                    0 <= b.1 < cols,
            ;
        } else if b.0 < a.0 {
            assert(b.0 * cols + b.1 < a.0 * cols + a.1) by (nonlinear_arith)
                requires
                    b.0 < a.0,
                    0 <= a.1 < cols,
                    0 <= b.1 < cols,
            ;
        }
    }
    q.unique_seq_to_set();
    lemma_int_range(0, rows * cols);
    lemma_len_subset(q.to_set(), set_int_range(0, rows * cols));
}

/// Prefix pruning does not change which words are reported: two reports that
/// each list exactly the spellable dictionary words of one grid (as every run
/// of `find_words_with` does, pruned or not) hold the same set of words.
pub proof fn lemma_pruning_equivalence(
    g: Seq<Seq<char>>,
    d: Set<Seq<char>>,
    pruned: Seq<Seq<char>>,
    unpruned: Seq<Seq<char>>,
)
    requires
        reports_exactly(g, d, pruned),
        reports_exactly(g, d, unpruned),
    ensures
        pruned.to_set() == unpruned.to_set(),
{
    assert forall|w: Seq<char>| pruned.to_set().contains(w) <==> unpruned.to_set().contains(w) by {
        assert(pruned.contains(w) <==> unpruned.contains(w));
    }
    assert(pruned.to_set() =~= unpruned.to_set());
}

/// `find_words_with` with prefix pruning.
pub fn find_words(grid: &Grid, dict: &Dictionary, sink: &mut ResultSink)
    requires
        grid.wf(),
    ensures
        old(sink)@.is_prefix_of(final(sink)@),
        reports_exactly(grid@, dict@, final(sink)@.subrange(old(sink)@.len() as int, final(sink)@.len() as int)),
        final(sink)@ == old(sink)@ + all_starts(grid@, dict@),
{
    find_words_with(grid, dict, sink, true)
}

} // verus!
