//! The toroidal linked matrix ("dancing links") and the exact cover search over it.
//!
//! Nodes live in one arena (`Vec<Node>`) and refer to each other by index, so a
//! node's index is its identity. Index 0 is the root; indices `1..=width` are the
//! column headers, in column order; data nodes follow in row-major order.
use vstd::prelude::*;

verus! {

/// One node of the linked matrix.
///
/// `u`, `d`, `l`, `r` are the vertical and horizontal neighbours, `c` the column
/// header. For a header, `data` is the live size of its column; for a data node it
/// is the index of the input row that the node belongs to.
#[derive(Clone, Copy, PartialEq, Eq, Debug)]
pub struct Node {
    pub u: usize,
    pub d: usize,
    pub l: usize,
    pub r: usize,
    pub c: usize,
    pub data: usize,
}

/// Why a matrix cannot be handed to the solver.
#[derive(Clone, Copy, PartialEq, Eq, Debug)]
pub enum MatrixError {
    NoRows,
    NoColumns,
    Ragged,
}

/// The matrix as a sequence of rows.
pub open spec fn matrix_view(m: &Vec<Vec<bool>>) -> Seq<Seq<bool>> {
    m@.map_values(|row: Vec<bool>| row@)
}

/// The error a matrix is rejected with, if any.
pub open spec fn matrix_error(m: Seq<Seq<bool>>) -> Option<MatrixError> {
    if m.len() == 0 {
        Some(MatrixError::NoRows)
    } else if m[0].len() == 0 {
        Some(MatrixError::NoColumns)
    } else if exists|i: int| 0 <= i < m.len() && (#[trigger] m[i]).len() != m[0].len() {
        Some(MatrixError::Ragged)
    } else {
        None
    }
}

/// A non-empty matrix whose rows all have the same non-zero length.
pub open spec fn is_valid_matrix(m: Seq<Seq<bool>>) -> bool {
    matrix_error(m).is_none()
}

/// Exactly one of the selected rows has a one in column `j`.
pub open spec fn covers_column_once(m: Seq<Seq<bool>>, s: Seq<usize>, j: int) -> bool {
    &&& exists|k: int| 0 <= k < s.len() && #[trigger] m[s[k] as int][j]
    &&& forall|k1: int, k2: int|
        0 <= k1 < s.len() && 0 <= k2 < s.len() && #[trigger] m[s[k1] as int][j]
            && #[trigger] m[s[k2] as int][j] ==> k1 == k2
}

/// `s` selects distinct rows of `m` that together hold every column exactly once.
pub open spec fn is_exact_cover(m: Seq<Seq<bool>>, s: Seq<usize>) -> bool {
    &&& s.no_duplicates()
    &&& forall|k: int| 0 <= k < s.len() ==> #[trigger] s[k] < m.len()
    &&& forall|j: int| 0 <= j < m[0].len() ==> covers_column_once(m, s, j)
}

/// Every link of every node stays inside the arena.
pub open spec fn links_in_arena(ns: Seq<Node>) -> bool {
    &&& ns.len() > 0
    &&& forall|i: int|
        0 <= i < ns.len() ==> {
            &&& (#[trigger] ns[i]).u < ns.len()
            &&& ns[i].d < ns.len()
            &&& ns[i].l < ns.len()
            &&& ns[i].r < ns.len()
            &&& ns[i].c < ns.len()
        }
}

/// The arena after node `x` is taken out of its row ring.
pub open spec fn unlinked_lr(ns: Seq<Node>, x: int) -> Seq<Node> {
    let l = ns[x].l as int;
    let r = ns[x].r as int;
    let ns1 = ns.update(l, Node { r: r as usize, ..ns[l] });
    ns1.update(r, Node { l: l as usize, ..ns1[r] })
}

/// The arena after node `x` is put back between its recorded row neighbours.
pub open spec fn linked_lr(ns: Seq<Node>, x: int) -> Seq<Node> {
    let l = ns[x].l as int;
    let r = ns[x].r as int;
    let ns1 = ns.update(l, Node { r: x as usize, ..ns[l] });
    ns1.update(r, Node { l: x as usize, ..ns1[r] })
}

/// The arena after node `x` is taken out of its column ring.
pub open spec fn unlinked_ud(ns: Seq<Node>, x: int) -> Seq<Node> {
    let u = ns[x].u as int;
    let d = ns[x].d as int;
    let ns1 = ns.update(u, Node { d: d as usize, ..ns[u] });
    ns1.update(d, Node { u: u as usize, ..ns1[d] })
}

/// The arena after node `x` is put back between its recorded column neighbours.
pub open spec fn linked_ud(ns: Seq<Node>, x: int) -> Seq<Node> {
    let u = ns[x].u as int;
    let d = ns[x].d as int;
    let ns1 = ns.update(u, Node { d: x as usize, ..ns[u] });
    ns1.update(d, Node { u: x as usize, ..ns1[d] })
}

/// `n` with its payload one larger (`up`) or one smaller, kept within `usize`.
pub open spec fn resized(n: Node, up: bool) -> Node {
    let data = if up {
        if n.data < usize::MAX {
            (n.data + 1) as usize
        } else {
            n.data
        }
    } else if n.data > 0 {
        (n.data - 1) as usize
    } else {
        n.data
    };
    Node { data, ..n }
}

/// Take the nodes of a row out of their columns, walking right from `j` until `i`,
/// and shrink each of those columns by one.
pub open spec fn unlink_row(ns: Seq<Node>, i: int, j: int, fuel: nat) -> Seq<Node>
    decreases fuel,
{
    if fuel == 0 || j == i {
        ns
    } else {
        let ns1 = unlinked_ud(ns, j);
        let h = ns1[j].c as int;
        let ns2 = ns1.update(h, resized(ns1[h], false));
        unlink_row(ns2, i, ns2[j].r as int, (fuel - 1) as nat)
    }
}

/// For each node of column `c`, walking down from `i` until the header, unlink the
/// rest of its row.
pub open spec fn cover_rows(ns: Seq<Node>, c: int, i: int, fuel: nat) -> Seq<Node>
    decreases fuel,
{
    if fuel == 0 || i == c {
        ns
    } else {
        let ns1 = unlink_row(ns, i, ns[i].r as int, ns.len());
        cover_rows(ns1, c, ns1[i].d as int, (fuel - 1) as nat)
    }
}

/// The arena after column `c` is covered.
pub open spec fn covered(ns: Seq<Node>, c: int) -> Seq<Node> {
    let ns1 = unlinked_lr(ns, c);
    cover_rows(ns1, c, ns1[c].d as int, ns.len())
}

/// Put the nodes of a row back into their columns, walking left from `j` until `i`,
/// and grow each of those columns by one.
pub open spec fn relink_row(ns: Seq<Node>, i: int, j: int, fuel: nat) -> Seq<Node>
    decreases fuel,
{
    if fuel == 0 || j == i {
        ns
    } else {
        let ns1 = linked_ud(ns, j);
        let h = ns1[j].c as int;
        let ns2 = ns1.update(h, resized(ns1[h], true));
        relink_row(ns2, i, ns2[j].l as int, (fuel - 1) as nat)
    }
}

/// For each node of column `c`, walking up from `i` until the header, relink the
/// rest of its row.
pub open spec fn uncover_rows(ns: Seq<Node>, c: int, i: int, fuel: nat) -> Seq<Node>
    decreases fuel,
{
    if fuel == 0 || i == c {
        ns
    } else {
        let ns1 = relink_row(ns, i, ns[i].l as int, ns.len());
        uncover_rows(ns1, c, ns1[i].u as int, (fuel - 1) as nat)
    }
}

/// The arena after column `c` is uncovered.
pub open spec fn uncovered(ns: Seq<Node>, c: int) -> Seq<Node> {
    linked_lr(uncover_rows(ns, c, ns[c].u as int, ns.len()), c)
}

/// The nodes met when walking right from `cur` until `stop`, in at most `fuel` steps.
pub open spec fn ring_right(ns: Seq<Node>, stop: int, cur: int, fuel: nat) -> Seq<usize>
    decreases fuel,
{
    if fuel == 0 || cur == stop {
        seq![]
    } else {
        seq![cur as usize] + ring_right(ns, stop, ns[cur].r as int, (fuel - 1) as nat)
    }
}

/// The active column headers, left to right: the header row threaded from the root.
pub open spec fn active_columns(ns: Seq<Node>) -> Seq<usize> {
    ring_right(ns, 0, ns[0].r as int, ns.len())
}

/// Position `i` of `cols` holds the smallest payload, and no earlier position does.
pub open spec fn is_leftmost_min(ns: Seq<Node>, cols: Seq<usize>, i: int) -> bool {
    &&& 0 <= i < cols.len()
    &&& forall|k: int| 0 <= k < cols.len() ==> ns[cols[i] as int].data <= #[trigger] ns[cols[k] as int].data
    &&& forall|k: int| 0 <= k < i ==> ns[cols[i] as int].data < #[trigger] ns[cols[k] as int].data
}

/// The column that the search branches on: the leftmost active column of smallest
/// payload, or `None` when no column is active.
pub open spec fn chosen_column(ns: Seq<Node>) -> Option<usize> {
    let cols = active_columns(ns);
    if cols.len() == 0 {
        None
    } else {
        Some(cols[choose|i: int| is_leftmost_min(ns, cols, i)])
    }
}

proof fn lemma_leftmost_min_unique(ns: Seq<Node>, cols: Seq<usize>, i: int, j: int)
    requires
        is_leftmost_min(ns, cols, i),
        is_leftmost_min(ns, cols, j),
    ensures
        i == j,
{
    if i < j {
        assert(ns[cols[j] as int].data < ns[cols[i] as int].data);
    } else if j < i {
        assert(ns[cols[i] as int].data < ns[cols[j] as int].data);
    }
}

/// Cover the column of each node of a row, walking right from `j` until `row`.
pub open spec fn cover_row_from(ns: Seq<Node>, row: int, j: int, fuel: nat) -> Seq<Node>
    decreases fuel,
{
    if fuel == 0 || j == row {
        ns
    } else {
        let ns1 = covered(ns, ns[j].c as int);
        cover_row_from(ns1, row, ns1[j].r as int, (fuel - 1) as nat)
    }
}

/// The arena after the columns of the other nodes of `row` are covered.
pub open spec fn row_covered(ns: Seq<Node>, row: int) -> Seq<Node> {
    cover_row_from(ns, row, ns[row].r as int, ns.len())
}

/// Uncover the column of each node of a row, walking left from `j` until `row`.
pub open spec fn uncover_row_from(ns: Seq<Node>, row: int, j: int, fuel: nat) -> Seq<Node>
    decreases fuel,
{
    if fuel == 0 || j == row {
        ns
    } else {
        let ns1 = uncovered(ns, ns[j].c as int);
        uncover_row_from(ns1, row, ns1[j].l as int, (fuel - 1) as nat)
    }
}

/// The arena after the columns of the other nodes of `row` are uncovered.
pub open spec fn row_uncovered(ns: Seq<Node>, row: int) -> Seq<Node> {
    uncover_row_from(ns, row, ns[row].l as int, ns.len())
}

/// The selection `sol` as a result list: itself when it is an exact cover of `m`.
pub open spec fn found(m: Seq<Seq<bool>>, sol: Seq<usize>) -> Seq<Seq<usize>> {
    if is_exact_cover(m, sol) {
        seq![sol]
    } else {
        seq![]
    }
}

/// The arena at the end of the full search from `ns`, and the covers it records, in order.
pub open spec fn search_all_spec(ns: Seq<Node>, m: Seq<Seq<bool>>, sol: Seq<usize>, depth: nat) -> (Seq<Node>, Seq<Seq<usize>>)
    decreases depth, 1nat, 0nat,
{
    if ns[0].r == 0 {
        (ns, found(m, sol))
    } else if depth == 0 {
        (ns, seq![])
    } else {
        match chosen_column(ns) {
            None => (ns, seq![]),
            Some(c) => {
                let ns1 = covered(ns, c as int);
                let (ns2, rs) = rows_all_spec(ns1, m, sol, c as int, ns1[c as int].d as int, depth, ns.len());
                (uncovered(ns2, c as int), rs)
            },
        }
    }
}

/// The full search over the rows of column `c`, from `row` downwards.
pub open spec fn rows_all_spec(
    ns: Seq<Node>,
    m: Seq<Seq<bool>>,
    sol: Seq<usize>,
    c: int,
    row: int,
    depth: nat,
    fuel: nat,
) -> (Seq<Node>, Seq<Seq<usize>>)
    decreases depth, 0nat, fuel,
{
    if depth == 0 || fuel == 0 || row == c {
        (ns, seq![])
    } else {
        let ns1 = row_covered(ns, row);
        let (ns2, rs1) = search_all_spec(ns1, m, sol.push(ns[row].data), (depth - 1) as nat);
        let ns3 = row_uncovered(ns2, row);
        let (ns4, rs2) = rows_all_spec(ns3, m, sol, c, ns3[row].d as int, depth, (fuel - 1) as nat);
        (ns4, rs1 + rs2)
    }
}

/// The arena where the search for one cover from `ns` stops, and the cover it returns.
pub open spec fn search_once_spec(ns: Seq<Node>, m: Seq<Seq<bool>>, sol: Seq<usize>, depth: nat) -> (Seq<Node>, Option<Seq<usize>>)
    decreases depth, 1nat, 0nat,
{
    if ns[0].r == 0 {
        (ns, if is_exact_cover(m, sol) { Some(sol) } else { None })
    } else if depth == 0 {
        (ns, None)
    } else {
        match chosen_column(ns) {
            None => (ns, None),
            Some(c) => {
                let ns1 = covered(ns, c as int);
                let (ns2, r) = rows_once_spec(ns1, m, sol, c as int, ns1[c as int].d as int, depth, ns.len());
                if r is Some {
                    (ns2, r)
                } else {
                    (uncovered(ns2, c as int), None)
                }
            },
        }
    }
}

/// The search for one cover over the rows of column `c`, from `row` downwards.
pub open spec fn rows_once_spec(
    ns: Seq<Node>,
    m: Seq<Seq<bool>>,
    sol: Seq<usize>,
    c: int,
    row: int,
    depth: nat,
    fuel: nat,
) -> (Seq<Node>, Option<Seq<usize>>)
    decreases depth, 0nat, fuel,
{
    if depth == 0 || fuel == 0 || row == c {
        (ns, None)
    } else {
        let ns1 = row_covered(ns, row);
        let (ns2, r1) = search_once_spec(ns1, m, sol.push(ns[row].data), (depth - 1) as nat);
        if r1 is Some {
            (ns2, r1)
        } else {
            let ns3 = row_uncovered(ns2, row);
            rows_once_spec(ns3, m, sol, c, ns3[row].d as int, depth, (fuel - 1) as nat)
        }
    }
}

/// The selections held by a list of result vectors.
pub open spec fn results_view(rs: Seq<Vec<usize>>) -> Seq<Seq<usize>> {
    rs.map_values(|v: Vec<usize>| v@)
}

/// The first element of `rs`, if any.
pub open spec fn first_of(rs: Seq<Seq<usize>>) -> Option<Seq<usize>> {
    if rs.len() > 0 {
        Some(rs[0])
    } else {
        None
    }
}

/// The search for one cover returns the first cover that the full search records
/// from the same arena and selection; when it finds none, both end in the same arena.
pub proof fn lemma_once_is_first(ns: Seq<Node>, m: Seq<Seq<bool>>, sol: Seq<usize>, depth: nat)
    ensures
        search_once_spec(ns, m, sol, depth).1 == first_of(search_all_spec(ns, m, sol, depth).1),
        search_once_spec(ns, m, sol, depth).1 is None ==> search_once_spec(ns, m, sol, depth).0 == search_all_spec(ns, m, sol, depth).0,
    decreases depth, 1nat, 0nat,
{
    if ns[0].r != 0 && depth != 0 {
        if let Some(c) = chosen_column(ns) {
            let ns1 = covered(ns, c as int);
            lemma_rows_once_is_first(ns1, m, sol, c as int, ns1[c as int].d as int, depth, ns.len());
        }
    }
}

/// The cover that `solve_once` returns for a matrix is the first of the covers
/// that `solve_all` returns for it, and there is none exactly when that list is empty.
pub proof fn lemma_solve_once_is_first(m: Seq<Seq<bool>>)
    ensures
        first_cover(m) == first_of(all_covers(m)),
{
    lemma_once_is_first(built(m), m, seq![], built(m).len());
}

/// `lemma_once_is_first` for the loop over the rows of column `c`.
pub proof fn lemma_rows_once_is_first(
    ns: Seq<Node>,
    m: Seq<Seq<bool>>,
    sol: Seq<usize>,
    c: int,
    row: int,
    depth: nat,
    fuel: nat,
)
    ensures
        rows_once_spec(ns, m, sol, c, row, depth, fuel).1 == first_of(rows_all_spec(ns, m, sol, c, row, depth, fuel).1),
        rows_once_spec(ns, m, sol, c, row, depth, fuel).1 is None ==> rows_once_spec(ns, m, sol, c, row, depth, fuel).0
            == rows_all_spec(ns, m, sol, c, row, depth, fuel).0,
    decreases depth, 0nat, fuel,
{
    if !(depth == 0 || fuel == 0 || row == c) {
        let ns1 = row_covered(ns, row);
        let sol1 = sol.push(ns[row].data);
        lemma_once_is_first(ns1, m, sol1, (depth - 1) as nat);
        let (ns2, rs1) = search_all_spec(ns1, m, sol1, (depth - 1) as nat);
        let ns3 = row_uncovered(ns2, row);
        lemma_rows_once_is_first(ns3, m, sol, c, ns3[row].d as int, depth, (fuel - 1) as nat);
        let rs2 = rows_all_spec(ns3, m, sol, c, ns3[row].d as int, depth, (fuel - 1) as nat).1;
        if rs1.len() == 0 {
            assert(rs1 + rs2 =~= rs2);
        } else {
            assert((rs1 + rs2)[0] == rs1[0]);
        }
    }
}

/// `n` columns with a one at `owner` only.
pub open spec fn owner_bits(n: int, owner: int) -> Seq<bool> {
    Seq::new(n as nat, |q: int| q == owner)
}

/// The arena's layout fits the matrix `m`: root at 0, the header of column `j` at
/// `j + 1`, and behind them one data node per one of `m`, naming its row and the
/// header of its column.
pub open spec fn arena_matches(ns: Seq<Node>, m: Seq<Seq<bool>>) -> bool {
    let width = m[0].len();
    &&& ns.len() > width
    &&& ns[0].c == 0
    &&& forall|h: int| 1 <= h <= width ==> (#[trigger] ns[h]).c == h
    &&& forall|k: int|
        width < k < ns.len() ==> {
            &&& 1 <= (#[trigger] ns[k]).c <= width
            &&& ns[k].data < m.len()
            &&& m[ns[k].data as int][ns[k].c - 1]
        }
}

/// The root and the headers of a matrix with `width` columns, chained in a ring.
pub open spec fn header_row(width: nat) -> Seq<Node> {
    Seq::new(
        width + 1,
        |i: int|
            if i == 0 {
                Node { u: 0, d: 0, l: width as usize, r: 1, c: 0, data: 0 }
            } else {
                Node {
                    u: i as usize,
                    d: i as usize,
                    l: (i - 1) as usize,
                    r: if i == width {
                        0
                    } else {
                        (i + 1) as usize
                    },
                    c: i as usize,
                    data: 0,
                }
            },
    )
}

/// Append a data node of row `y` at the bottom of the column headed by `h`.
pub open spec fn with_node(ns: Seq<Node>, h: int, y: usize) -> Seq<Node> {
    let idx = ns.len() as usize;
    let up = ns[h].u as int;
    let ns1 = ns.push(Node { u: up as usize, d: h as usize, l: idx, r: idx, c: h as usize, data: y });
    let ns2 = ns1.update(up, Node { d: idx, ..ns1[up] });
    ns2.update(h, Node { u: idx, data: (ns2[h].data + 1) as usize, ..ns2[h] })
}

/// Append the data nodes of row `y`, whose cells are `row`, from column `x` on.
pub open spec fn with_row_nodes(ns: Seq<Node>, row: Seq<bool>, y: usize, x: int) -> Seq<Node>
    decreases row.len() - x,
{
    if x >= row.len() || x < 0 {
        ns
    } else {
        with_row_nodes(
            if row[x] {
                with_node(ns, x + 1, y)
            } else {
                ns
            },
            row,
            y,
            x + 1,
        )
    }
}

/// Link the nodes `k..end` into the row ring of the nodes `start..end`.
pub open spec fn ring_from(ns: Seq<Node>, start: int, end: int, k: int) -> Seq<Node>
    decreases end - k,
{
    if k >= end {
        ns
    } else {
        let l = if k == start {
            end - 1
        } else {
            k - 1
        };
        let r = if k + 1 == end {
            start
        } else {
            k + 1
        };
        ring_from(ns.update(k, Node { l: l as usize, r: r as usize, ..ns[k] }), start, end, k + 1)
    }
}

/// Append the data nodes of the rows of `m` from row `y` on, each row in its ring.
pub open spec fn with_rows(ns: Seq<Node>, m: Seq<Seq<bool>>, y: int) -> Seq<Node>
    decreases m.len() - y,
{
    if y >= m.len() || y < 0 {
        ns
    } else {
        let ns1 = with_row_nodes(ns, m[y], y as usize, 0);
        with_rows(ring_from(ns1, ns.len() as int, ns1.len() as int, ns.len() as int), m, y + 1)
    }
}

/// Take the headers from `h` to `width` whose columns are empty out of the header row.
pub open spec fn prune_from(ns: Seq<Node>, width: int, h: int) -> Seq<Node>
    decreases width + 1 - h,
{
    if h > width || h < 1 {
        ns
    } else {
        prune_from(
            if ns[h].data == 0 {
                unlinked_lr(ns, h)
            } else {
                ns
            },
            width,
            h + 1,
        )
    }
}

/// The linked matrix that is built for `m`.
pub open spec fn built(m: Seq<Seq<bool>>) -> Seq<Node> {
    prune_from(with_rows(header_row(m[0].len()), m, 0), m[0].len() as int, 1)
}

/// Every cover that the search records for `m`, in order.
pub open spec fn all_covers(m: Seq<Seq<bool>>) -> Seq<Seq<usize>> {
    search_all_spec(built(m), m, seq![], built(m).len()).1
}

/// The cover that the search for one cover returns for `m`.
pub open spec fn first_cover(m: Seq<Seq<bool>>) -> Option<Seq<usize>> {
    search_once_spec(built(m), m, seq![], built(m).len()).1
}

/// Taking a node out of its row ring and putting it back restores the arena,
/// provided its neighbours pointed at it.
pub proof fn lemma_relink_lr_restores(ns: Seq<Node>, x: int)
    requires
        links_in_arena(ns),
        0 <= x < ns.len(),
        ns[ns[x].l as int].r == x,
        ns[ns[x].r as int].l == x,
    ensures
        linked_lr(unlinked_lr(ns, x), x) == ns,
{
    assert(linked_lr(unlinked_lr(ns, x), x) =~= ns);
}

/// Taking a node out of its column ring and putting it back restores the arena,
/// provided its neighbours pointed at it.
pub proof fn lemma_relink_ud_restores(ns: Seq<Node>, x: int)
    requires
        links_in_arena(ns),
        0 <= x < ns.len(),
        ns[ns[x].u as int].d == x,
        ns[ns[x].d as int].u == x,
    ensures
        linked_ud(unlinked_ud(ns, x), x) == ns,
{
    assert(linked_ud(unlinked_ud(ns, x), x) =~= ns);
}

impl Node {
    /// A node with the given payload whose links all point at index `id`, its own
    /// place in the arena.
    pub fn new(data: usize, id: usize) -> (n: Node)
        ensures
            n == (Node { u: id, d: id, l: id, r: id, c: id, data }),
    {
        Node { u: id, d: id, l: id, r: id, c: id, data }
    }

    /// Take node `x` out of its row ring: `x.l.r = x.r`, `x.r.l = x.l`.
    fn unlink_lr(ns: &mut Vec<Node>, x: usize)
        requires
            links_in_arena(old(ns)@),
            x < old(ns).len(),
        ensures
            final(ns)@ == unlinked_lr(old(ns)@, x as int),
            links_in_arena(final(ns)@),
    {
        let l = ns[x].l;
        let r = ns[x].r;
        let mut nl = ns[l];
        nl.r = r;
        ns.set(l, nl);
        let mut nr = ns[r];
        nr.l = l;
        ns.set(r, nr);
    }

    /// Take node `x` out of its column ring: `x.u.d = x.d`, `x.d.u = x.u`.
    fn unlink_ud(ns: &mut Vec<Node>, x: usize)
        requires
            links_in_arena(old(ns)@),
            x < old(ns).len(),
        ensures
            final(ns)@ == unlinked_ud(old(ns)@, x as int),
            links_in_arena(final(ns)@),
    {
        let u = ns[x].u;
        let d = ns[x].d;
        let mut nu = ns[u];
        nu.d = d;
        ns.set(u, nu);
        let mut nd = ns[d];
        nd.u = u;
        ns.set(d, nd);
    }

    /// Put node `x` back into its row ring: `x.l.r = x`, `x.r.l = x`.
    fn link_lr(ns: &mut Vec<Node>, x: usize)
        requires
            links_in_arena(old(ns)@),
            x < old(ns).len(),
        ensures
            final(ns)@ == linked_lr(old(ns)@, x as int),
            links_in_arena(final(ns)@),
    {
        let l = ns[x].l;
        let r = ns[x].r;
        let mut nl = ns[l];
        nl.r = x;
        ns.set(l, nl);
        let mut nr = ns[r];
        nr.l = x;
        ns.set(r, nr);
    }

    /// Put node `x` back into its column ring: `x.u.d = x`, `x.d.u = x`.
    fn link_ud(ns: &mut Vec<Node>, x: usize)
        requires
            links_in_arena(old(ns)@),
            x < old(ns).len(),
        ensures
            final(ns)@ == linked_ud(old(ns)@, x as int),
            links_in_arena(final(ns)@),
    {
        let u = ns[x].u;
        let d = ns[x].d;
        let mut nu = ns[u];
        nu.d = x;
        ns.set(u, nu);
        let mut nd = ns[d];
        nd.u = x;
        ns.set(d, nd);
    }

    /// Build the linked matrix of `input`: the root, one header per column chained
    /// into the header row, one data node per one, each row's nodes in a ring in
    /// column order and each column's nodes in a ring in row order. Headers of empty
    /// columns are then taken out of the header row.
    pub fn build(input: &Vec<Vec<bool>>) -> (r: Result<Vec<Node>, MatrixError>)
        ensures
            r matches Ok(_) <==> is_valid_matrix(matrix_view(input)),
            forall|e: MatrixError| r == Err::<Vec<Node>, MatrixError>(e) ==> matrix_error(matrix_view(input)) == Some(e),
            forall|ns: Vec<Node>| r == Ok::<Vec<Node>, MatrixError>(ns) ==> {
                &&& links_in_arena(ns@)
                &&& arena_matches(ns@, matrix_view(input))
                &&& ns@ == built(matrix_view(input))
            },
    {
        match validate(input) {
            Err(e) => {
                return Err(e);
            },
            Ok(_) => {},
        }
        let ghost mv = matrix_view(input);
        let width = input[0].len();
        assert(mv[0] == input@[0]@);
        assert forall|i: int| 0 <= i < input.len() implies #[trigger] input@[i]@.len() == width by {
            assert(mv[i] == input@[i]@);
        }
        let mut ns: Vec<Node> = Vec::new();
        let mut root = Node::new(0, 0);
        root.l = width;
        root.r = 1;
        ns.push(root);
        let mut k: usize = 0;
        while k < width
            invariant
                k <= width,
                ns.len() == k + 1,
                ns@[0].c == 0,
                forall|i: int|
                    0 <= i < ns.len() ==> {
                        &&& (#[trigger] ns@[i]).u <= width
                        &&& ns@[i].d <= width
                        &&& ns@[i].l <= width
                        &&& ns@[i].r <= width
                        &&& ns@[i].c <= width
                    },
                forall|h: int| 1 <= h < ns.len() ==> (#[trigger] ns@[h]).c == h && ns@[h].data == 0,
                ns@ == header_row(width as nat).subrange(0, k + 1),
            decreases width - k,
        {
            let h = k + 1;
            let next = if h == width {
                0
            } else {
                h + 1
            };
            ns.push(Node { u: h, d: h, l: k, r: next, c: h, data: 0 });
            k = k + 1;
            assert(ns@ =~= header_row(width as nat).subrange(0, k + 1));
        }
        assert(ns@ =~= header_row(width as nat));
        let ghost rows_target = with_rows(ns@, mv, 0);
        let mut y: usize = 0;
        while y < input.len()
            invariant
                y <= input.len(),
                mv == matrix_view(input),
                width == mv[0].len(),
                width > 0,
                forall|i: int| 0 <= i < input.len() ==> #[trigger] input@[i]@.len() == width,
                links_in_arena(ns@),
                arena_matches(ns@, mv),
                forall|h: int| 1 <= h <= width ==> (#[trigger] ns@[h]).data < ns.len(),
                with_rows(ns@, mv, y as int) == rows_target,
            decreases input.len() - y,
        {
            let start = ns.len();
            let ghost ns_y = ns@;
            let ghost row_target = with_row_nodes(ns@, mv[y as int], y, 0);
            let mut x: usize = 0;
            while x < width
                invariant
                    x <= width,
                    y < input.len(),
                    width < start <= ns.len(),
                    mv == matrix_view(input),
                    width == mv[0].len(),
                    forall|i: int| 0 <= i < input.len() ==> #[trigger] input@[i]@.len() == width,
                    links_in_arena(ns@),
                    arena_matches(ns@, mv),
                    forall|h: int| 1 <= h <= width ==> (#[trigger] ns@[h]).data < ns.len(),
                    with_row_nodes(ns@, mv[y as int], y, x as int) == row_target,
                    with_rows(ns_y, mv, y as int) == rows_target,
                    row_target == with_row_nodes(ns_y, mv[y as int], y, 0),
                    start == ns_y.len(),
                decreases width - x,
            {
                let ghost pre = ns@;
                assert(mv[y as int] == input@[y as int]@);
                if input[y][x] {
                    let h = x + 1;
                    let idx = ns.len();
                    let up = ns[h].u;
                    ns.push(Node { u: up, d: h, l: idx, r: idx, c: h, data: y });
                    let mut un = ns[up];
                    un.d = idx;
                    ns.set(up, un);
                    let mut hn = ns[h];
                    hn.u = idx;
                    hn.data = hn.data + 1;
                    ns.set(h, hn);
                    assert(ns@ =~= with_node(pre, h as int, y));
                }
                x = x + 1;
            }
            let end = ns.len();
            assert(ns@ == row_target);
            let ghost ring_target = ring_from(ns@, start as int, end as int, start as int);
            let mut k: usize = start;
            while k < end
                invariant
                    start <= k <= end,
                    end == ns.len(),
                    width < start,
                    links_in_arena(ns@),
                    arena_matches(ns@, mv),
                    forall|h: int| 1 <= h <= width ==> (#[trigger] ns@[h]).data < ns.len(),
                    ring_from(ns@, start as int, end as int, k as int) == ring_target,
                    with_rows(ns_y, mv, y as int) == rows_target,
                    ring_target == ring_from(row_target, start as int, end as int, start as int),
                    row_target == with_row_nodes(ns_y, mv[y as int], y, 0),
                    start == ns_y.len(),
                    end == row_target.len(),
                    y < input.len(),
                    mv == matrix_view(input),
                decreases end - k,
            {
                let mut nk = ns[k];
                nk.l = if k == start {
                    end - 1
                } else {
                    k - 1
                };
                nk.r = if k + 1 == end {
                    start
                } else {
                    k + 1
                };
                ns.set(k, nk);
                k = k + 1;
            }
            assert(with_rows(ns_y, mv, y as int) == with_rows(ns@, mv, y + 1));
            y = y + 1;
        }
        let n = ns.len();
        let ghost prune_target = prune_from(ns@, width as int, 1);
        let mut h: usize = 1;
        while h <= width
            invariant
                1 <= h <= width + 1,
                n == ns.len(),
                prune_from(ns@, width as int, h as int) == prune_target,
                width == mv[0].len(),
                links_in_arena(ns@),
                arena_matches(ns@, mv),
            decreases width + 1 - h,
        {
            if ns[h].data == 0 {
                Self::unlink_lr(&mut ns, h);
            }
            h = h + 1;
        }
        Ok(ns)
    }

    /// Prepend a block of `pieces` columns to each row of `cells`: row `i` gets a one
    /// in column `owners[i]` of that block and zeros in the others, so that a cover
    /// uses every piece exactly once.
    pub fn matrix_from_variations(pieces: usize, owners: &Vec<usize>, cells: &Vec<Vec<bool>>) -> (r: Vec<Vec<bool>>)
        requires
            owners.len() == cells.len(),
            forall|i: int| 0 <= i < owners.len() ==> #[trigger] owners@[i] < pieces,
        ensures
            r.len() == cells.len(),
            forall|i: int| 0 <= i < r.len() ==> (#[trigger] r@[i])@ == owner_bits(pieces as int, owners@[i] as int) + cells@[i]@,
    {
        let mut r: Vec<Vec<bool>> = Vec::new();
        let mut i: usize = 0;
        while i < cells.len()
            invariant
                owners.len() == cells.len(),
                i <= cells.len(),
                r.len() == i,
                forall|k: int| 0 <= k < i ==> (#[trigger] r@[k])@ == owner_bits(pieces as int, owners@[k] as int) + cells@[k]@,
            decreases cells.len() - i,
        {
            let mut entry: Vec<bool> = Vec::new();
            let mut q: usize = 0;
            while q < pieces
                invariant
                    q <= pieces,
                    i < owners.len(),
                    entry@ == owner_bits(q as int, owners@[i as int] as int),
                decreases pieces - q,
            {
                entry.push(q == owners[i]);
                q = q + 1;
                assert(entry@ =~= owner_bits(q as int, owners@[i as int] as int));
            }
            let row = &cells[i];
            let mut j: usize = 0;
            while j < row.len()
                invariant
                    j <= row.len(),
                    i < owners.len(),
                    q == pieces,
                    entry@ == owner_bits(pieces as int, owners@[i as int] as int) + row@.subrange(0, j as int),
                decreases row.len() - j,
            {
                entry.push(row[j]);
                j = j + 1;
                assert(entry@ =~= owner_bits(pieces as int, owners@[i as int] as int) + row@.subrange(0, j as int));
            }
            assert(row@.subrange(0, row.len() as int) =~= row@);
            r.push(entry);
            i = i + 1;
        }
        r
    }

    /// The node with one more (`up`) or one less payload at index `h`; the count
    /// stays within `0..=usize::MAX`.
    fn adjust_size(ns: &mut Vec<Node>, h: usize, up: bool)
        requires
            links_in_arena(old(ns)@),
            h < old(ns).len(),
        ensures
            links_in_arena(final(ns)@),
            final(ns).len() == old(ns).len(),
            final(ns)@ == old(ns)@.update(h as int, resized(old(ns)@[h as int], up)),
    {
        let mut n = ns[h];
        if up {
            if n.data < usize::MAX {
                n.data = n.data + 1;
            }
        } else if n.data > 0 {
            n.data = n.data - 1;
        }
        ns.set(h, n);
        assert(ns@ =~= old(ns)@.update(h as int, resized(old(ns)@[h as int], up)));
    }

    /// Cover column `c`: take its header out of the header row, then take every row
    /// that has a node in the column out of all the other columns.
    fn cover(ns: &mut Vec<Node>, c: usize)
        requires
            links_in_arena(old(ns)@),
            c < old(ns).len(),
        ensures
            links_in_arena(final(ns)@),
            final(ns).len() == old(ns).len(),
            final(ns)@ == covered(old(ns)@, c as int),
    {
        Self::unlink_lr(ns, c);
        let n = ns.len();
        let mut i = ns[c].d;
        let ghost target = cover_rows(ns@, c as int, i as int, n as nat);
        let mut steps: usize = 0;
        while i != c && steps < n
            invariant
                links_in_arena(ns@),
                ns.len() == n,
                c < n,
                i < n,
                steps <= n,
                cover_rows(ns@, c as int, i as int, (n - steps) as nat) == target,
            decreases n - steps,
        {
            let mut j = ns[i].r;
            let ghost row_target = unlink_row(ns@, i as int, j as int, n as nat);
            let mut inner: usize = 0;
            while j != i && inner < n
                invariant
                    links_in_arena(ns@),
                    ns.len() == n,
                    i < n,
                    j < n,
                    inner <= n,
                    unlink_row(ns@, i as int, j as int, (n - inner) as nat) == row_target,
                decreases n - inner,
            {
                Self::unlink_ud(ns, j);
                let h = ns[j].c;
                Self::adjust_size(ns, h, false);
                j = ns[j].r;
                inner = inner + 1;
            }
            i = ns[i].d;
            steps = steps + 1;
        }
    }

    /// Undo `cover(c)`: walk the column bottom to top and each row right to left,
    /// putting every node back between the neighbours it still records.
    fn uncover(ns: &mut Vec<Node>, c: usize)
        requires
            links_in_arena(old(ns)@),
            c < old(ns).len(),
        ensures
            links_in_arena(final(ns)@),
            final(ns).len() == old(ns).len(),
            final(ns)@ == uncovered(old(ns)@, c as int),
    {
        let n = ns.len();
        let mut i = ns[c].u;
        let ghost target = uncover_rows(ns@, c as int, i as int, n as nat);
        let mut steps: usize = 0;
        while i != c && steps < n
            invariant
                links_in_arena(ns@),
                ns.len() == n,
                c < n,
                i < n,
                steps <= n,
                uncover_rows(ns@, c as int, i as int, (n - steps) as nat) == target,
            decreases n - steps,
        {
            let mut j = ns[i].l;
            let ghost row_target = relink_row(ns@, i as int, j as int, n as nat);
            let mut inner: usize = 0;
            while j != i && inner < n
                invariant
                    links_in_arena(ns@),
                    ns.len() == n,
                    c < n,
                    i < n,
                    j < n,
                    inner <= n,
                    relink_row(ns@, i as int, j as int, (n - inner) as nat) == row_target,
                decreases n - inner,
            {
                Self::link_ud(ns, j);
                let h = ns[j].c;
                Self::adjust_size(ns, h, true);
                j = ns[j].l;
                inner = inner + 1;
            }
            i = ns[i].u;
            steps = steps + 1;
        }
        Self::link_lr(ns, c);
    }

    /// The column to branch on: among the active columns, the leftmost one with the
    /// smallest payload; `None` when no column is active.
    pub fn choose_column(ns: &Vec<Node>) -> (r: Option<usize>)
        requires
            links_in_arena(ns@),
        ensures
            r.is_none() <==> active_columns(ns@).len() == 0,
            forall|c: usize| r == Some(c) ==> c < ns.len(),
            forall|c: usize| r == Some(c) ==> exists|i: int|
                is_leftmost_min(ns@, active_columns(ns@), i) && active_columns(ns@)[i] == c,
            r == chosen_column(ns@),
    {
        let n = ns.len();
        let ghost cols = active_columns(ns@);
        let ghost mut walked: Seq<usize> = seq![];
        let ghost mut bi: int = 0;
        let mut best: Option<usize> = None;
        let mut min_size: usize = 0;
        let mut cur = ns[0].r;
        let mut steps: usize = 0;
        while cur != 0 && steps < n
            invariant
                links_in_arena(ns@),
                ns.len() == n,
                cur < n,
                steps <= n,
                cols == walked + ring_right(ns@, 0, cur as int, (n - steps) as nat),
                best.is_none() <==> walked.len() == 0,
                forall|b: usize| best == Some(b) ==> b < n,
                walked.len() > 0 ==> {
                    &&& 0 <= bi < walked.len()
                    &&& best == Some(walked[bi])
                    &&& min_size == ns@[walked[bi] as int].data
                    &&& is_leftmost_min(ns@, walked, bi)
                },
            decreases n - steps,
        {
            let size = ns[cur].data;
            proof {
                assert(ring_right(ns@, 0, cur as int, (n - steps) as nat) == seq![cur] + ring_right(
                    ns@, 0, ns@[cur as int].r as int, (n - steps - 1) as nat));
                assert(walked + ring_right(ns@, 0, cur as int, (n - steps) as nat) =~= walked.push(cur)
                    + ring_right(ns@, 0, ns@[cur as int].r as int, (n - steps - 1) as nat));
            }
            if best.is_none() || size < min_size {
                best = Some(cur);
                min_size = size;
                proof {
                    bi = walked.len() as int;
                }
            }
            proof {
                walked = walked.push(cur);
            }
            cur = ns[cur].r;
            steps = steps + 1;
        }
        proof {
            assert(walked =~= cols);
            if walked.len() > 0 {
                let i = choose|i: int| is_leftmost_min(ns@, cols, i);
                lemma_leftmost_min_unique(ns@, cols, i, bi);
            }
        }
        best
    }

    /// Cover the column of every other node in the row of `row`, left to right.
    fn cover_row(ns: &mut Vec<Node>, row: usize)
        requires
            links_in_arena(old(ns)@),
            row < old(ns).len(),
        ensures
            links_in_arena(final(ns)@),
            final(ns).len() == old(ns).len(),
            final(ns)@ == row_covered(old(ns)@, row as int),
    {
        let n = ns.len();
        let mut j = ns[row].r;
        let ghost target = row_covered(ns@, row as int);
        let mut steps: usize = 0;
        while j != row && steps < n
            invariant
                links_in_arena(ns@),
                ns.len() == n,
                row < n,
                j < n,
                steps <= n,
                cover_row_from(ns@, row as int, j as int, (n - steps) as nat) == target,
            decreases n - steps,
        {
            let c = ns[j].c;
            Self::cover(ns, c);
            j = ns[j].r;
            steps = steps + 1;
        }
    }

    /// Undo `cover_row(row)`: uncover the same columns right to left.
    fn uncover_row(ns: &mut Vec<Node>, row: usize)
        requires
            links_in_arena(old(ns)@),
            row < old(ns).len(),
        ensures
            links_in_arena(final(ns)@),
            final(ns).len() == old(ns).len(),
            final(ns)@ == row_uncovered(old(ns)@, row as int),
    {
        let n = ns.len();
        let mut j = ns[row].l;
        let ghost target = row_uncovered(ns@, row as int);
        let mut steps: usize = 0;
        while j != row && steps < n
            invariant
                links_in_arena(ns@),
                ns.len() == n,
                row < n,
                j < n,
                steps <= n,
                uncover_row_from(ns@, row as int, j as int, (n - steps) as nat) == target,
            decreases n - steps,
        {
            let c = ns[j].c;
            Self::uncover(ns, c);
            j = ns[j].l;
            steps = steps + 1;
        }
    }

    /// Record the current selection when every column is covered; otherwise branch
    /// on the column that `choose_column` picks, trying its rows top to bottom.
    /// A selection is recorded only once it is checked to be an exact cover of `m`.
    ///
    /// Each level covers at least one column, so `depth` (the arena's size at the
    /// top) is never the bound that stops the recursion.
    fn search_all(
        ns: &mut Vec<Node>,
        m: &Vec<Vec<bool>>,
        sol: &mut Vec<usize>,
        results: &mut Vec<Vec<usize>>,
        depth: usize,
    )
        requires
            links_in_arena(old(ns)@),
            is_valid_matrix(matrix_view(m)),
            forall|k: int| 0 <= k < old(results).len() ==> is_exact_cover(matrix_view(m), #[trigger] old(results)@[k]@),
        ensures
            links_in_arena(final(ns)@),
            final(ns).len() == old(ns).len(),
            final(ns)@ == search_all_spec(old(ns)@, matrix_view(m), old(sol)@, depth as nat).0,
            results_view(final(results)@) == results_view(old(results)@) + search_all_spec(old(ns)@, matrix_view(m), old(sol)@, depth as nat).1,
            final(sol)@ == old(sol)@,
            forall|k: int| 0 <= k < final(results).len() ==> is_exact_cover(matrix_view(m), #[trigger] final(results)@[k]@),
        decreases depth,
    {
        let ghost mv = matrix_view(m);
        let ghost before = results@;
        if ns[0].r == 0 {
            if check_cover(m, sol) {
                let found = sol.clone();
                assert(found@ =~= sol@);
                results.push(found);
                assert(results_view(results@) =~= results_view(before) + seq![sol@]);
            } else {
                assert(results_view(results@) =~= results_view(before) + seq![]);
            }
            return;
        }
        if depth == 0 {
            assert(results_view(results@) =~= results_view(before) + seq![]);
            return;
        }
        let best = match Self::choose_column(ns) {
            None => {
                assert(results_view(results@) =~= results_view(before) + seq![]);
                return;
            },
            Some(c) => c,
        };
        Self::cover(ns, best);
        let n = ns.len();
        let ghost sol0 = sol@;
        let mut row = ns[best].d;
        let ghost target = rows_all_spec(ns@, mv, sol0, best as int, row as int, depth as nat, n as nat);
        let mut steps: usize = 0;
        assert(results_view(results@) + target.1 =~= results_view(before) + target.1);
        while row != best && steps < n
            invariant
                links_in_arena(ns@),
                ns.len() == n,
                best < n,
                row < n,
                steps <= n,
                depth > 0,
                mv == matrix_view(m),
                is_valid_matrix(mv),
                sol@ == sol0,
                rows_all_spec(ns@, mv, sol@, best as int, row as int, depth as nat, (n - steps) as nat).0 == target.0,
                results_view(results@) + rows_all_spec(ns@, mv, sol@, best as int, row as int, depth as nat, (n - steps) as nat).1
                    == results_view(before) + target.1,
                forall|k: int| 0 <= k < results.len() ==> is_exact_cover(matrix_view(m), #[trigger] results@[k]@),
            decreases n - steps,
        {
            let ghost pre = ns@;
            let ghost r_pre = results@;
            let ghost row0 = row as int;
            let ghost fuel = (n - steps) as nat;
            sol.push(ns[row].data);
            Self::cover_row(ns, row);
            Self::search_all(ns, m, sol, results, depth - 1);
            Self::uncover_row(ns, row);
            sol.pop();
            assert(sol@ =~= sol0);
            row = ns[row].d;
            steps = steps + 1;
            proof {
                let ns1 = row_covered(pre, row0);
                let rs1 = search_all_spec(ns1, mv, sol0.push(pre[row0].data), (depth - 1) as nat).1;
                let rs2 = rows_all_spec(ns@, mv, sol0, best as int, row as int, depth as nat, (fuel - 1) as nat).1;
                assert(rows_all_spec(pre, mv, sol0, best as int, row0, depth as nat, fuel).1 == rs1 + rs2);
                assert((results_view(r_pre) + rs1) + rs2 =~= results_view(r_pre) + (rs1 + rs2));
            }
        }
        Self::uncover(ns, best);
        assert(results_view(results@) =~= results_view(before) + target.1);
    }

    /// As `search_all`, but stop at the first selection that is an exact cover.
    fn search_once(ns: &mut Vec<Node>, m: &Vec<Vec<bool>>, sol: &mut Vec<usize>, depth: usize) -> (r: Option<
        Vec<usize>,
    >)
        requires
            links_in_arena(old(ns)@),
            is_valid_matrix(matrix_view(m)),
        ensures
            links_in_arena(final(ns)@),
            final(ns).len() == old(ns).len(),
            r is None <==> search_once_spec(old(ns)@, matrix_view(m), old(sol)@, depth as nat).1 is None,
            forall|v: Vec<usize>| r == Some(v) ==> search_once_spec(old(ns)@, matrix_view(m), old(sol)@, depth as nat).1 == Some(v@),
            r is None ==> final(ns)@ == search_once_spec(old(ns)@, matrix_view(m), old(sol)@, depth as nat).0,
            r is None ==> final(sol)@ == old(sol)@,
            forall|s: Vec<usize>| r == Some(s) ==> is_exact_cover(matrix_view(m), s@),
        decreases depth,
    {
        let ghost mv = matrix_view(m);
        if ns[0].r == 0 {
            if check_cover(m, sol) {
                let found = sol.clone();
                assert(found@ =~= sol@);
                return Some(found);
            }
            return None;
        }
        if depth == 0 {
            return None;
        }
        let best = match Self::choose_column(ns) {
            None => {
                return None;
            },
            Some(c) => c,
        };
        Self::cover(ns, best);
        let n = ns.len();
        let ghost sol0 = sol@;
        let mut row = ns[best].d;
        let ghost target = rows_once_spec(ns@, mv, sol0, best as int, row as int, depth as nat, n as nat);
        let ghost whole = if target.1 is Some {
            target
        } else {
            (uncovered(target.0, best as int), None)
        };
        assert(search_once_spec(old(ns)@, mv, old(sol)@, depth as nat) == whole);
        let mut steps: usize = 0;
        while row != best && steps < n
            invariant
                links_in_arena(ns@),
                ns.len() == n,
                best < n,
                row < n,
                steps <= n,
                depth > 0,
                n == old(ns).len(),
                mv == matrix_view(m),
                is_valid_matrix(mv),
                sol@ == sol0,
                sol0 == old(sol)@,
                rows_once_spec(ns@, mv, sol@, best as int, row as int, depth as nat, (n - steps) as nat) == target,
                search_once_spec(old(ns)@, mv, old(sol)@, depth as nat) == whole,
                whole == (if target.1 is Some {
                    target
                } else {
                    (uncovered(target.0, best as int), None)
                }),
            decreases n - steps,
        {
            let ghost pre = ns@;
            let ghost row0 = row as int;
            let ghost fuel = (n - steps) as nat;
            sol.push(ns[row].data);
            Self::cover_row(ns, row);
            let found = Self::search_once(ns, m, sol, depth - 1);
            if found.is_some() {
                proof {
                    let ns1 = row_covered(pre, row0);
                    let inner = search_once_spec(ns1, mv, sol0.push(pre[row0].data), (depth - 1) as nat);
                    assert(rows_once_spec(pre, mv, sol0, best as int, row0, depth as nat, fuel) == inner);
                }
                return found;
            }
            Self::uncover_row(ns, row);
            sol.pop();
            assert(sol@ =~= sol0);
            row = ns[row].d;
            steps = steps + 1;
        }
        Self::uncover(ns, best);
        None
    }

    /// Every exact cover that the search finds in `input`, as lists of row indices
    /// in the order the rows were chosen; an error if `input` is malformed.
    pub fn solve_all(input: &Vec<Vec<bool>>) -> (r: Result<Vec<Vec<usize>>, MatrixError>)
        ensures
            r matches Ok(_) <==> is_valid_matrix(matrix_view(input)),
            forall|e: MatrixError| r == Err::<Vec<Vec<usize>>, MatrixError>(e) ==> matrix_error(matrix_view(input)) == Some(e),
            forall|rs: Vec<Vec<usize>>| r == Ok::<Vec<Vec<usize>>, MatrixError>(rs) ==> results_view(rs@) == all_covers(matrix_view(input)),
            forall|rs: Vec<Vec<usize>>| r == Ok::<Vec<Vec<usize>>, MatrixError>(rs) ==> forall|k: int|
                0 <= k < rs.len() ==> is_exact_cover(matrix_view(input), #[trigger] rs@[k]@),
    {
        let mut ns = match Self::build(input) {
            Err(e) => {
                return Err(e);
            },
            Ok(ns) => ns,
        };
        let depth = ns.len();
        let mut sol: Vec<usize> = Vec::new();
        let mut results: Vec<Vec<usize>> = Vec::new();
        assert(sol@ =~= seq![]);
        assert(results_view(results@) =~= seq![]);
        Self::search_all(&mut ns, input, &mut sol, &mut results, depth);
        assert(results_view(results@) =~= all_covers(matrix_view(input)));
        Ok(results)
    }

    /// The first exact cover that the search finds in `input`, or `None`; an error
    /// if `input` is malformed.
    pub fn solve_once(input: &Vec<Vec<bool>>) -> (r: Result<Option<Vec<usize>>, MatrixError>)
        ensures
            r matches Ok(_) <==> is_valid_matrix(matrix_view(input)),
            forall|e: MatrixError| r == Err::<Option<Vec<usize>>, MatrixError>(e) ==> matrix_error(matrix_view(input)) == Some(e),
            forall|s: Vec<usize>| r == Ok::<Option<Vec<usize>>, MatrixError>(Some(s)) ==> is_exact_cover(matrix_view(input), s@),
            forall|s: Vec<usize>| r == Ok::<Option<Vec<usize>>, MatrixError>(Some(s)) ==> first_cover(matrix_view(input)) == Some(s@),
            r == Ok::<Option<Vec<usize>>, MatrixError>(None) ==> first_cover(matrix_view(input)) is None,
    {
        let mut ns = match Self::build(input) {
            Err(e) => {
                return Err(e);
            },
            Ok(ns) => ns,
        };
        let depth = ns.len();
        let mut sol: Vec<usize> = Vec::new();
        assert(sol@ =~= seq![]);
        Ok(Self::search_once(&mut ns, input, &mut sol, depth))
    }
}

/// Check the shape of a matrix before it is handed to the solver.
pub fn validate(m: &Vec<Vec<bool>>) -> (r: Result<(), MatrixError>)
    ensures
        r matches Ok(_) <==> matrix_error(matrix_view(m)).is_none(),
        forall|e: MatrixError| r == Err::<(), MatrixError>(e) ==> matrix_error(matrix_view(m)) == Some(e),
{
    let ghost mv = matrix_view(m);
    if m.len() == 0 {
        return Err(MatrixError::NoRows);
    }
    assert(mv[0] == m@[0]@);
    let width = m[0].len();
    if width == 0 {
        return Err(MatrixError::NoColumns);
    }
    let mut i: usize = 0;
    while i < m.len()
        invariant
            i <= m.len(),
            mv == matrix_view(m),
            width == mv[0].len(),
            width > 0,
            forall|k: int| 0 <= k < i ==> #[trigger] mv[k].len() == width,
        decreases m.len() - i,
    {
        assert(mv[i as int] == m@[i as int]@);
        if m[i].len() != width {
            assert(mv.len() == m@.len());
            assert(mv[i as int].len() != mv[0].len());
            return Err(MatrixError::Ragged);
        }
        i = i + 1;
    }
    Ok(())
}

/// Whether the rows `s` of the valid matrix `m` form an exact cover of it.
pub fn check_cover(m: &Vec<Vec<bool>>, s: &Vec<usize>) -> (r: bool)
    requires
        is_valid_matrix(matrix_view(m)),
    ensures
        r == is_exact_cover(matrix_view(m), s@),
{
    let ghost mv = matrix_view(m);
    let width = m[0].len();
    assert forall|i: int| 0 <= i < m.len() implies #[trigger] m@[i]@.len() == width by {
        assert(mv[i] == m@[i]@);
    }
    let mut k: usize = 0;
    while k < s.len()
        invariant
            k <= s.len(),
            forall|k1: int| 0 <= k1 < k ==> #[trigger] s@[k1] < m.len(),
        decreases s.len() - k,
    {
        if s[k] >= m.len() {
            return false;
        }
        k = k + 1;
    }
    let mut a: usize = 0;
    while a < s.len()
        invariant
            a <= s.len(),
            forall|a1: int, b1: int| 0 <= a1 < a && a1 < b1 < s.len() ==> s@[a1] != s@[b1],
        decreases s.len() - a,
    {
        let mut b: usize = a + 1;
        while b < s.len()
            invariant
                a < s.len(),
                a + 1 <= b <= s.len(),
                forall|a1: int, b1: int| 0 <= a1 < a && a1 < b1 < s.len() ==> s@[a1] != s@[b1],
                forall|b1: int| a < b1 < b ==> s@[a as int] != s@[b1],
            decreases s.len() - b,
        {
            if s[a] == s[b] {
                assert(!s@.no_duplicates());
                return false;
            }
            b = b + 1;
        }
        a = a + 1;
    }
    assert(s@.no_duplicates()) by {
        assert forall|i: int, j: int| 0 <= i < s.len() && 0 <= j < s.len() && i != j implies s@[i] != s@[j] by {
            if i < j {
            } else {
            }
        }
    }
    let mut j: usize = 0;
    while j < width
        invariant
            width == mv[0].len(),
            is_valid_matrix(mv),
            mv == matrix_view(m),
            j <= width,
            forall|k1: int| 0 <= k1 < s.len() ==> #[trigger] s@[k1] < m.len(),
            forall|j1: int| 0 <= j1 < j ==> covers_column_once(mv, s@, j1),
            forall|i: int| 0 <= i < m.len() ==> #[trigger] m@[i]@.len() == width,
        decreases width - j,
    {
        let mut first: usize = 0;
        while first < s.len() && !m[s[first]][j]
            invariant
                first <= s.len(),
                j < width,
                width == mv[0].len(),
                is_valid_matrix(mv),
                mv == matrix_view(m),
                forall|k1: int| 0 <= k1 < s.len() ==> #[trigger] s@[k1] < m.len(),
                forall|k1: int| 0 <= k1 < first ==> !mv[s@[k1] as int][j as int],
                forall|i: int| 0 <= i < m.len() ==> #[trigger] m@[i]@.len() == width,
            decreases s.len() - first,
        {
            assert(mv[s@[first as int] as int].len() == mv[0].len());
            first = first + 1;
        }
        if first == s.len() {
            assert(!covers_column_once(mv, s@, j as int));
            return false;
        }
        let mut k2: usize = first + 1;
        while k2 < s.len()
            invariant
                first < k2 <= s.len(),
                j < width,
                width == mv[0].len(),
                is_valid_matrix(mv),
                mv == matrix_view(m),
                forall|k1: int| 0 <= k1 < s.len() ==> #[trigger] s@[k1] < m.len(),
                forall|k1: int| 0 <= k1 < first ==> !mv[s@[k1] as int][j as int],
                mv[s@[first as int] as int][j as int],
                forall|k1: int| first < k1 < k2 ==> !mv[s@[k1] as int][j as int],
                forall|i: int| 0 <= i < m.len() ==> #[trigger] m@[i]@.len() == width,
            decreases s.len() - k2,
        {
            assert(mv[s@[k2 as int] as int].len() == mv[0].len());
            if m[s[k2]][j] {
                assert(!covers_column_once(mv, s@, j as int));
                return false;
            }
            k2 = k2 + 1;
        }
        j = j + 1;
    }
    true
}

} // verus!
